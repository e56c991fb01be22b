use lau_agent_dream::natural::{from_u64, le, mul_small, plus, quotient};
use lau_agent_dream::dream_scheduler::{_dream_type_distribution, compute_avg_similarity};
use lau_agent_dream::experience::{_pick_random, random_id, shuffled_indices};
use lau_agent_dream::text::{hex16, join_strings, split_words};
use lau_agent_dream::{
    ConsolidationEngine, DreamCycle, DreamJournal, DreamScheduler, DreamType, Experience,
    DreamTile, GenerationEngine, NightmareEngine, Ratio, ReplayEngine,
};

fn exp(id: &str, content: &str, importance: i64, emotion: i64, tags: &[&str]) -> Experience {
    Experience {
        id: id.to_string(),
        timestamp: 0,
        content: content.to_string(),
        importance,
        emotion,
        tags: tags.iter().map(|t| t.to_string()).collect(),
        room_id: "room".to_string(),
    }
}

fn is_hex_id(s: &str) -> bool {
    s.len() == 16 && s.chars().all(|c| c.is_ascii_digit() || ('a'..='f').contains(&c))
}

#[test]
fn similarity_exact_values() {
    let a = exp("a", "hello world foo bar", 500, 500, &["greeting"]);
    let b = exp("b", "hello world baz qux", 500, 500, &["greeting"]);
    // tags: 1 shared of 2 -> 0.5; words: 2 shared of 8 -> 0.25
    assert_eq!(a.similarity(&b), 750);
    let c = exp("c", "alpha", 0, 0, &["x", "y"]);
    let d = exp("d", "beta", 0, 0, &["y"]);
    // tags: 1 of 3 -> 333 (rounded down); words: 0
    assert_eq!(c.similarity(&d), 333);
    // one empty content counts as dissimilar
    let e = exp("e", "", 0, 0, &[]);
    assert_eq!(c.similarity(&e), 0);
    // white space only: no words at all
    let f = exp("f", "  \t ", 0, 0, &[]);
    let g = exp("g", "\n", 0, 0, &[]);
    assert_eq!(f.similarity(&g), 0);
}

#[test]
fn similarity_rounds_the_sum_once() {
    // tags: 2 of a's 2 tags found among 3 -> 2/3; words: 1 shared of 3 -> 1/3
    let a = exp("a", "p q", 0, 0, &["x", "x"]);
    let b = exp("b", "p", 0, 0, &["x"]);
    assert_eq!(a.similarity(&b), 1000);
}

#[test]
fn similarity_splits_on_unicode_space() {
    let a = exp("a", "one\u{3000}two", 0, 0, &[]);
    let b = exp("b", "two\u{a0}three", 0, 0, &[]);
    // words {one, two} and {two, three}: 1 shared of 4
    assert_eq!(a.similarity(&b), 250);
}

#[test]
fn same_experience_is_fully_similar() {
    let a = exp("a", "a b a", 0, 0, &["t", "t"]);
    let b = exp("b", "a b a", 0, 0, &["t", "t"]);
    assert_eq!(a.similarity(&b), 1000);
}

#[test]
fn split_words_like_split_whitespace() {
    let w = split_words("  alpha\tbeta \n gamma  ");
    let words: Vec<String> = w.iter().map(|v| v.iter().collect::<String>()).collect();
    assert_eq!(words, vec!["alpha", "beta", "gamma"]);
    assert!(split_words("   ").is_empty());
}

#[test]
fn join_strings_puts_separators_between() {
    let v = vec!["a".to_string(), "b".to_string(), "c".to_string()];
    assert_eq!(join_strings(&v, " | "), "a | b | c");
    assert_eq!(join_strings(&Vec::new(), ", "), "");
}

#[test]
fn hex16_formats_like_format_macro() {
    assert_eq!(hex16(0), "0000000000000000");
    assert_eq!(hex16(0xdead_beef), "00000000deadbeef");
    assert_eq!(hex16(u64::MAX), "ffffffffffffffff");
    for x in [1u64, 255, 4096, 0x0123_4567_89ab_cdef] {
        assert_eq!(hex16(x), format!("{:016x}", x));
    }
}

#[test]
fn random_ids_are_hex_and_vary() {
    let ids: Vec<String> = (0..8).map(|_| random_id()).collect();
    assert!(ids.iter().all(|id| is_hex_id(id)));
    assert!(ids.iter().any(|id| id != &ids[0]));
}

#[test]
fn shuffled_indices_is_a_permutation_that_moves() {
    let mut moved = false;
    for _ in 0..20 {
        let v = shuffled_indices(10);
        let mut sorted = v.clone();
        sorted.sort();
        assert_eq!(sorted, (0..10).collect::<Vec<usize>>());
        if v != sorted {
            moved = true;
        }
    }
    assert!(moved);
}

#[test]
fn pick_random_takes_distinct_items() {
    let items: Vec<u32> = (0..10).collect();
    let picked = _pick_random(&items, 4);
    assert_eq!(picked.len(), 4);
    let mut p = picked.clone();
    p.sort();
    p.dedup();
    assert_eq!(p.len(), 4);
    assert_eq!(_pick_random(&items, 50).len(), 10);
    assert!(_pick_random::<u32>(&[], 3).is_empty());
}

#[test]
fn consolidation_merges_tags_sorted_and_distinct() {
    let exps = vec![
        exp("a", "one two", 0, 0, &["zeta", "alpha"]),
        exp("b", "one two", 0, 0, &["alpha", "mid"]),
        exp("c", "far away", 0, 0, &["other"]),
    ];
    let tiles = ConsolidationEngine::new(300).consolidate(&exps);
    assert_eq!(tiles.len(), 2);
    assert_eq!(tiles[0].content, "[alpha, mid, zeta] one two | one two");
    assert_eq!(tiles[0].source_experiences, vec!["a", "b"]);
    assert_eq!(tiles[0].novelty, 0);
    assert_eq!(tiles[0].confidence, 1000);
    assert_eq!(tiles[0].dream_type, DreamType::Consolidation);
    // a lone experience keeps its own content
    assert_eq!(tiles[1].content, "far away");
    assert_eq!(tiles[1].source_experiences, vec!["c"]);
    assert!(tiles.iter().all(|t| is_hex_id(&t.id)));
}

#[test]
fn consolidation_is_greedy_from_the_leader() {
    // b is similar to a, c similar to b but not to a: c starts its own cluster
    let exps = vec![
        exp("a", "p q", 0, 0, &[]),
        exp("b", "p q r s", 0, 0, &[]),
        exp("c", "r s", 0, 0, &[]),
    ];
    // sim(a,b) = 2/6 -> 333; sim(a,c) = 0; sim(b,c) = 2/6 -> 333
    let tiles = ConsolidationEngine::new(300).consolidate(&exps);
    assert_eq!(tiles.len(), 2);
    assert_eq!(tiles[0].source_experiences, vec!["a", "b"]);
    assert_eq!(tiles[1].source_experiences, vec!["c"]);
}

#[test]
fn consolidation_partitions_the_experiences() {
    let exps: Vec<Experience> = (0..12)
        .map(|i| exp(&format!("e{}", i), &format!("w{} w{}", i % 3, i % 4), 0, 0, &[]))
        .collect();
    let tiles = ConsolidationEngine::new(200).consolidate(&exps);
    let mut all: Vec<String> = tiles.iter().flat_map(|t| t.source_experiences.clone()).collect();
    all.sort();
    let mut ids: Vec<String> = exps.iter().map(|e| e.id.clone()).collect();
    ids.sort();
    assert_eq!(all, ids);
    assert!(tiles.len() <= exps.len());
}

#[test]
fn replay_is_stable_and_exact() {
    let exps = vec![
        exp("a", "first", 500, -400, &[]),  // 200000
        exp("b", "second", 400, 500, &[]),  // 200000
        exp("c", "third", 900, 900, &[]),   // 810000
        exp("d", "fourth", 100, 0, &[]),    // 0
    ];
    let tiles = ReplayEngine::new(10).replay(&exps, 3);
    let order: Vec<&str> = tiles.iter().map(|t| t.source_experiences[0].as_str()).collect();
    assert_eq!(order, vec!["c", "a", "b"]);
    assert_eq!(tiles[0].content, "replayed: third");
    assert_eq!(tiles[0].novelty, 100);
    assert_eq!(tiles[0].confidence, 950);
    assert_eq!(tiles[0].dream_type, DreamType::Replay);
    assert_eq!(ReplayEngine::new(5).replay_count, 5);
}

#[test]
fn nightmare_lesson_text() {
    let exps = vec![exp("a", "failure", 500, -900, &["error"]), exp("b", "fine", 500, 100, &[])];
    let tiles = NightmareEngine::new(1000).process(&exps);
    assert_eq!(tiles.len(), 1);
    assert_eq!(
        tiles[0].content,
        "nightmare processed (intensity 1.00): failure \u{2014} lesson learned, emotional weight 0.90"
    );
    assert_eq!(tiles[0].source_experiences, vec!["a"]);
    assert_eq!(tiles[0].novelty, 300);
    assert_eq!(tiles[0].confidence, 900);
}

#[test]
fn nightmare_rounds_to_hundredths() {
    let exps = vec![exp("a", "x", 0, -333, &[])];
    let t = NightmareEngine::new(1235).process(&exps);
    // 1.235 -> 1.24 ; 0.333 * 1.235 = 0.411255 -> 0.41
    assert!(t[0].content.contains("(intensity 1.24)"));
    assert!(t[0].content.ends_with("emotional weight 0.41"));
    // an exact half rounds to the even hundredth
    let t = NightmareEngine::new(1000).process(&[exp("h", "x", 0, -125, &[])]);
    assert!(t[0].content.ends_with("emotional weight 0.12"));
    let t = NightmareEngine::new(1000).process(&[exp("h", "x", 0, -375, &[])]);
    assert!(t[0].content.ends_with("emotional weight 0.38"));
    let t = NightmareEngine::new(-1).process(&exps);
    assert!(t[0].content.contains("(intensity -0.00)"));
    assert!(t[0].content.ends_with("emotional weight -0.00"));
}

#[test]
fn generation_with_given_draws() {
    let exps = vec![
        exp("a", "w1 w2 w3 w4", 0, 0, &["x"]),
        exp("b", "v1 v2 v3 v4", 0, 0, &["y"]),
        exp("c", "lonely", 0, 0, &[]),
    ];
    let engine = GenerationEngine::new(500);
    let tiles = engine.generate_with(&exps, &vec![1, 0, 2], &vec![500_000_000]);
    assert_eq!(tiles.len(), 1);
    // b first: ceil(4 * 0.5) = 2 words of b, then 2 words of a
    assert_eq!(tiles[0].content, "generated: v1 v2 w1 w2");
    assert_eq!(tiles[0].source_experiences, vec!["b", "a"]);
    assert_eq!(tiles[0].novelty, 1000);
    assert_eq!(tiles[0].confidence, 500);
    assert_eq!(tiles[0].dream_type, DreamType::Generation);
    // blend 0.3: ceil(1.2) = 2 of b, ceil(2.8) = 3 of a
    let t = engine.generate_with(&exps, &vec![1, 0, 2], &vec![300_000_000]);
    assert_eq!(t[0].content, "generated: v1 v2 w1 w2 w3");
}

#[test]
fn generation_skips_similar_pairs() {
    let exps = vec![exp("a", "same words", 0, 0, &["t"]), exp("b", "same words", 0, 0, &["t"])];
    assert!(GenerationEngine::new(500).generate_with(&exps, &vec![0, 1], &vec![400_000_000]).is_empty());
    // an empty side takes the other side's content
    let exps = vec![exp("a", "", 0, 0, &[]), exp("b", "only here", 0, 0, &[])];
    let t = GenerationEngine::new(500).generate_with(&exps, &vec![0, 1], &vec![400_000_000]);
    assert_eq!(t[0].content, "generated: only here");
    let exps = vec![exp("a", " ", 0, 0, &[]), exp("b", "  ", 0, 0, &[])];
    let t = GenerationEngine::new(500).generate_with(&exps, &vec![0, 1], &vec![400_000_000]);
    assert_eq!(t[0].content, "generated: (generated)");
}

#[test]
fn generation_random_pairs_are_distinct() {
    let exps: Vec<Experience> = (0..7)
        .map(|i| exp(&format!("g{}", i), &format!("word{} other{}", i, i), 0, 0, &[]))
        .collect();
    let tiles = GenerationEngine::new(500).generate(&exps);
    assert!(tiles.len() <= 3);
    for t in &tiles {
        assert_eq!(t.source_experiences.len(), 2);
        assert_ne!(t.source_experiences[0], t.source_experiences[1]);
        assert!(t.content.starts_with("generated: "));
    }
}

#[test]
fn scheduler_branches() {
    let s = DreamScheduler::new(500, 0);
    let negative: Vec<Experience> = (0..5).map(|i| exp(&format!("n{}", i), &format!("x{}", i), 0, if i < 4 { -100 } else { 100 }, &[])).collect();
    assert_eq!(s.choose_dream_type(&negative), DreamType::Nightmare);
    // exactly 0.6 negative is not more than 0.6
    let three_of_five: Vec<Experience> = (0..5).map(|i| exp(&format!("n{}", i), &format!("a{} b{}", i, i), 0, if i < 3 { -100 } else { 100 }, &[&format!("t{}", i)])).collect();
    assert_ne!(s.choose_dream_type(&three_of_five), DreamType::Nightmare);
    // same tags everywhere, different words: low variety
    let low_variety: Vec<Experience> = (0..5).map(|i| exp(&format!("v{}", i), &format!("c{} d{}", i, i), 300, 100, &["same"])).collect();
    assert_eq!(s.choose_dream_type(&low_variety), DreamType::Generation);
    // varied, dissimilar, one important
    let mut varied: Vec<Experience> = (0..5).map(|i| exp(&format!("r{}", i), &format!("c{} d{}", i, i), 300, 100, &[&format!("t{}", i)])).collect();
    assert_eq!(s.choose_dream_type(&varied), DreamType::Prophetic);
    assert_eq!(DreamScheduler::new(1001, 0).choose_dream_type(&varied), DreamType::Lucid);
    varied[2].importance = 801;
    assert_eq!(s.choose_dream_type(&varied), DreamType::Replay);
    // tag sets: ["b","a"] and ["a","b"] are the same set
    let swapped = vec![
        exp("x", "p", 0, 0, &["b", "a"]),
        exp("y", "q", 0, 0, &["a", "b"]),
        exp("z", "r", 0, 0, &["a", "b"]),
        exp("w", "s", 0, 0, &["a", "b"]),
    ];
    assert_eq!(s.choose_dream_type(&swapped), DreamType::Generation);
}

#[test]
fn scheduler_tells_tag_lists_apart() {
    // ["a", "b"] and ["ab"] are two different tag sets: variety 2 in 4
    let exps = vec![
        exp("w", "w", 500, 500, &["a", "b"]),
        exp("x", "x", 500, 500, &["ab"]),
        exp("y", "y", 500, 500, &["a", "b"]),
        exp("z", "z", 500, 500, &["ab"]),
    ];
    assert_eq!(DreamScheduler::new(5000, 1000).choose_dream_type(&exps), DreamType::Lucid);
}

#[test]
fn average_similarity_samples_first_pairs() {
    let same: Vec<Experience> = (0..3).map(|i| exp(&format!("s{}", i), "a b", 0, 0, &["t"])).collect();
    assert_eq!(compute_avg_similarity(&same), 1000);
    assert_eq!(compute_avg_similarity(&same[..1]), 0);
    let many: Vec<Experience> = (0..20).map(|i| exp(&format!("m{}", i), "a b", 0, 0, &[])).collect();
    assert_eq!(compute_avg_similarity(&many), 500);
}

#[test]
fn dream_type_distribution_sums_by_type() {
    let d = _dream_type_distribution(&[
        (DreamType::Replay, 3),
        (DreamType::Consolidation, 2),
        (DreamType::Replay, 4),
        (DreamType::Lucid, 0),
    ]);
    assert_eq!(d, vec![(DreamType::Consolidation, 2), (DreamType::Replay, 7), (DreamType::Lucid, 0)]);
    assert!(_dream_type_distribution(&[]).is_empty());
}

#[test]
fn cycle_energy_and_ratios() {
    let mut c = DreamCycle::new("agent", DreamType::Consolidation, vec![
        exp("a", "hello world", 0, 0, &["g"]),
        exp("b", "hello world", 0, 0, &["g"]),
    ]);
    assert_eq!(c.compression_ratio(), Ratio::Infinite); // nothing consolidated yet
    assert_eq!(c.energy_efficiency(), 0);
    let tiles = c.run();
    assert_eq!(tiles.len(), 1);
    assert_eq!(c.consolidated.len(), 1);
    assert_eq!(c.consolidated[0].id, tiles[0].id);
    assert_eq!(c.energy_used, 250);
    assert_eq!(c.compression_ratio(), Ratio::Finite(2000));
    assert_eq!(c.energy_efficiency(), 4000);
    assert_eq!(c.agent_id, "agent");
    c.start_time = 10;
    c.end_time = 4;
    assert_eq!(c.duration_ms(), 0);
    c.end_time = 25;
    assert_eq!(c.duration_ms(), 15);
}

#[test]
fn unbounded_compression_without_tiles() {
    let mut c = DreamCycle::new("agent", DreamType::Nightmare, vec![exp("a", "fine", 0, 500, &[])]);
    let tiles = c.run();
    assert!(tiles.is_empty());
    assert_eq!(c.energy_used, 100);
    assert_eq!(c.compression_ratio(), Ratio::Infinite);
    let mut j = DreamJournal::new("agent");
    j.record(c);
    assert_eq!(j.average_compression(), Ratio::Infinite);
}

#[test]
fn prophetic_is_consolidation_then_generation() {
    let exps = vec![exp("a", "x y", 0, 0, &["t"]), exp("b", "x y", 0, 0, &["t"])];
    let mut c = DreamCycle::new("agent", DreamType::Prophetic, exps);
    let tiles = c.run();
    // identical pair: one consolidated tile, and too similar to blend
    assert_eq!(tiles.len(), 1);
    assert_eq!(tiles[0].dream_type, DreamType::Consolidation);
}

#[test]
fn journal_counts_and_totals() {
    let mut j = DreamJournal::new("agent");
    assert_eq!(j.most_productive_type(), DreamType::Consolidation);
    assert_eq!(j.energy_spent(), 0);
    for dt in [DreamType::Replay, DreamType::Nightmare, DreamType::Replay] {
        let mut c = DreamCycle::new("agent", dt, vec![exp("a", "x", 100, -100, &[])]);
        c.run();
        j.record(c);
    }
    assert_eq!(j.total_dreams(), 3);
    let dist = j.dream_types_distribution();
    assert_eq!(dist, vec![(DreamType::Replay, 2), (DreamType::Nightmare, 1)]);
    assert_eq!(dist.iter().map(|(_, c)| c).sum::<usize>(), j.total_dreams());
    assert_eq!(j.tiles_produced(), 3);
    assert_eq!(j.energy_spent(), 3 * 150);
    assert_eq!(j.most_productive_type(), DreamType::Replay);
    assert_eq!(j.average_compression(), Ratio::Finite(1000));
}

#[test]
fn most_productive_ties_go_to_the_first_declared() {
    let mut j = DreamJournal::new("agent");
    for dt in [DreamType::Nightmare, DreamType::Replay] {
        let mut c = DreamCycle::new("agent", dt, vec![exp("a", "x", 100, -100, &[])]);
        c.run();
        j.record(c);
    }
    assert_eq!(j.most_productive_type(), DreamType::Replay);
}

#[test]
fn names_are_distinct() {
    let all = [
        DreamType::Consolidation,
        DreamType::Replay,
        DreamType::Generation,
        DreamType::Nightmare,
        DreamType::Lucid,
        DreamType::Prophetic,
    ];
    for a in all {
        for b in all {
            assert_eq!(a == b, a.name() == b.name());
        }
    }
}

#[test]
fn should_dream_needs_idle_and_work() {
    let s = DreamScheduler::new(0, 100);
    assert!(s.should_dream(100, 1));
    assert!(!s.should_dream(99, 1));
    assert!(!s.should_dream(100, 0));
}

#[test]
fn similarity_is_symmetric_and_at_most_one() {
    let a = exp("a", "red green blue red", 500, 0, &["x", "y", "z"]);
    let b = exp("b", "green yellow", 500, 0, &["y", "w"]);
    let ab = a.similarity(&b);
    assert_eq!(ab, b.similarity(&a));
    assert!(ab >= 0 && ab <= 1000);
    // tags: 2 * 1 shared / 5 -> 0.4; words: 2 * 1 shared / 5 distinct -> 0.4; mean 0.4
    assert_eq!(ab, 400);
}

#[test]
fn hex16_tells_close_numbers_apart() {
    assert_ne!(hex16(1), hex16(16));
    assert_ne!(hex16(u64::MAX), hex16(u64::MAX - 1));
    assert_eq!(hex16(0x0123_4567_89ab_cdef), "0123456789abcdef");
}

#[test]
fn generation_compares_dissimilarity_exactly() {
    // similarity 0.5 + 100/499 = 0.7004: dissimilarity 0.2996 < 0.3, no tile,
    // though the similarity shows as 700 thousandths
    let a_words: Vec<String> = (0..100).map(|i| format!("w{}", i)).collect();
    let mut b_words = a_words.clone();
    b_words.extend((0..299).map(|i| format!("z{}", i)));
    let a = exp("a", &a_words.join(" "), 0, 0, &["x"]);
    let b = exp("b", &b_words.join(" "), 0, 0, &["x"]);
    assert_eq!(a.similarity(&b), 700);
    let exps = vec![a, b];
    assert!(GenerationEngine::new(0).generate_with(&exps, &vec![0, 1], &vec![500_000_000]).is_empty());
    // similarity exactly 0.7: dissimilarity 0.3 is enough
    let exps = vec![exp("a", "w0", 0, 0, &["x"]), exp("b", "w0 z1 z2 z3", 0, 0, &["x"])];
    assert_eq!(exps[0].similarity(&exps[1]), 700);
    let t = GenerationEngine::new(0).generate_with(&exps, &vec![0, 1], &vec![500_000_000]);
    assert_eq!(t.len(), 1);
    assert_eq!(t[0].novelty, 300);
    assert_eq!(t[0].confidence, 850);
}

#[test]
fn average_similarity_test_is_not_rounded() {
    // similarity 0.5 + 1/1001 = 0.500999...: shown as 500 thousandths, yet above 0.5
    let mut b_words: Vec<String> = vec!["w".to_string()];
    b_words.extend((1..1000).map(|i| format!("z{}", i)));
    let exps = vec![exp("a", "w", 0, 0, &["x"]), exp("b", &b_words.join(" "), 0, 0, &["x"])];
    assert_eq!(compute_avg_similarity(&exps), 500);
    assert_eq!(DreamScheduler::new(500, 1000).choose_dream_type(&exps), DreamType::Consolidation);
}

#[test]
fn average_similarity_is_the_exact_mean_rounded_once() {
    // pair similarities 1/3, 2/3 and 1/2: the mean is exactly 0.5
    let exps = vec![
        exp("a", "p q r", 0, 0, &["t"]),
        exp("b", "s v w", 0, 0, &["t", "u"]),
        exp("c", "p s z", 0, 0, &["t"]),
    ];
    assert_eq!(exps[0].similarity(&exps[1]), 333);
    assert_eq!(exps[0].similarity(&exps[2]), 666);
    assert_eq!(exps[1].similarity(&exps[2]), 500);
    assert_eq!(compute_avg_similarity(&exps), 500);
    // a mean of exactly 0.5 is not above 0.5; 2 tag sets of 3 is variety enough
    assert_eq!(DreamScheduler::new(500, 1000).choose_dream_type(&exps), DreamType::Prophetic);
}

#[test]
fn average_compression_is_the_exact_mean_rounded_once() {
    // ratios 4/3 and 5/3: the mean is exactly 1.5, though each ratio alone
    // shows as 1333 and 1666 thousandths
    let mut j = DreamJournal::new("agent");
    for n in [4usize, 5] {
        let exps: Vec<Experience> = (0..n).map(|i| exp(&format!("e{}", i), "x", 0, 0, &[])).collect();
        let mut c = DreamCycle::new("agent", DreamType::Consolidation, exps);
        c.consolidated = (0..3)
            .map(|_| DreamTile::new("t".to_string(), vec![], 0, 1000, DreamType::Consolidation))
            .collect();
        j.record(c);
    }
    assert_eq!(j.entries[0].compression_ratio(), Ratio::Finite(1333));
    assert_eq!(j.entries[1].compression_ratio(), Ratio::Finite(1666));
    assert_eq!(j.average_compression(), Ratio::Finite(1500));
}

#[test]
fn natural_numbers_add_scale_compare_divide() {
    let max = from_u64(u64::MAX);
    assert_eq!(max, vec![u32::MAX, u32::MAX]);
    // (2^64 - 1) * 2^32 = 2^96 - 2^32
    let big = mul_small(&max, 1u128 << 32);
    assert_eq!(big, vec![0, u32::MAX, u32::MAX]);
    // 2^96 - 2^32 + 2^32 = 2^96
    let sum = plus(&big, &from_u64(1u64 << 32));
    assert_eq!(sum, vec![0, 0, 0, 1]);
    assert!(le(&big, &sum));
    assert!(!le(&sum, &big));
    assert!(le(&sum, &sum));
    assert_eq!(from_u64(0), Vec::<u32>::new());
    // 2^96 / (2^64 - 1) = 2^32 (rounded down)
    assert_eq!(quotient(&sum, &max, 1u128 << 40), 1u128 << 32);
    assert_eq!(quotient(&from_u64(1000), &from_u64(3), 1000), 333);
}

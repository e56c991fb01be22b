# lau_agent_dream

The dream cycle: what an agent does with its waking experiences while idle.
Engines turn experiences into dream tiles (consolidation merges similar
experiences, replay revisits the strongest ones, generation blends dissimilar
pairs, nightmares draw lessons from negative ones); a cycle runs one engine and
accounts for its energy; a journal keeps the history; a scheduler decides when
and what to dream.

The library in `src/` is written in Verus: every function carries a contract,
and the laws of the library (clusters partition the experiences, replay takes
the top scores, nightmares come from negative experiences, journal totals add
up, ...) are proof functions next to the code they are about.

Fractional quantities (importance, emotion, similarity, thresholds, novelty,
confidence, energy, ratios) are fixed-point integers in thousandths: 1000
stands for 1.0. A stored quotient is the exact value rounded down, once; the
one exception is novelty, kept as 1000 minus the similarity so that the two add
up to 1 as they are defined to. Text with two decimals rounds to the nearest
hundredth, halves to even. Decisions are taken on exact fractions where a rounded value could tip
them: similarity is computed as an exact fraction before it is rounded,
generation compares the exact dissimilarity, and the scheduler sums the sampled
similarities as one exact fraction (with natural numbers of any size, in
`src/natural.rs`) before it averages them or compares the mean with 0.5. Blend
factors are drawn in billionths.

Layout:

- `src/text.rs`: character-level text work (words, joining, ordering, decimal
  and hexadecimal numerals); `src/order.rs`: sorting facts; `src/natural.rs`:
  natural numbers of any size.
- `src/experience.rs`, `src/tile.rs`: the data, similarity, random identifiers.
- `src/consolidation.rs`, `src/replay.rs`, `src/generation.rs`,
  `src/nightmare.rs`: the engines.
- `src/dream_cycle.rs`, `src/dream_journal.rs`, `src/dream_scheduler.rs`.
- `app/`: the demonstration program, and serializable copies of the types.
- `tests/`: tests on concrete values.

use vstd::prelude::*;
use vstd::string::StringExecFns;

use crate::order::{lemma_sorted_unique_by, same_elements, sorted_by, strict_total_order};

verus! {

/// Appends one character to a string.
/// Wraps `String::push`, which the std documentation describes as appending the
/// given char to the end of the string; the contract says exactly that.
#[verifier::external_body]
pub(crate) fn push_char(s: &mut String, c: char)
    ensures
        final(s)@ == old(s)@.push(c),
{
    s.push(c);
}

/// Appends a string slice to a string.
pub fn push_str(s: &mut String, t: &str)
    ensures
        final(s)@ == old(s)@ + t@,
{
    s.append(t);
}

/// The characters of a string, in order.
pub fn chars_of(s: &str) -> (res: Vec<char>)
    ensures
        res@ == s@,
{
    let mut res: Vec<char> = Vec::new();
    for c in it: s.chars()
        invariant
            res@ == it.seq().take(it.index() as int),
            it.seq() == s@,
    {
        res.push(c);
    }
    res
}

/// Appends the characters of `v` to `s`.
pub fn push_chars(s: &mut String, v: &Vec<char>)
    ensures
        final(s)@ == old(s)@ + v@,
{
    let ghost start = s@;
    for i in 0..v.len()
        invariant
            s@ == start + v@.take(i as int),
    {
        push_char(s, v[i]);
        assert(v@.take(i + 1) == v@.take(i as int).push(v@[i as int]));
    }
    assert(v@.take(v.len() as int) == v@);
}

/// Whether `c` is white space in the sense of Unicode's `White_Space` property,
/// the set that `char::is_whitespace` and `str::split_whitespace` use.
pub open spec fn is_space(c: char) -> bool {
    let u = c as int;
    ||| 9 <= u <= 13
    ||| u == 0x20
    ||| u == 0x85
    ||| u == 0xA0
    ||| u == 0x1680
    ||| 0x2000 <= u <= 0x200A
    ||| u == 0x2028
    ||| u == 0x2029
    ||| u == 0x202F
    ||| u == 0x205F
    ||| u == 0x3000
}

pub fn char_is_space(c: char) -> (res: bool)
    ensures
        res == is_space(c),
{
    let u = c as u32;
    (9 <= u && u <= 13) || u == 0x20 || u == 0x85 || u == 0xA0 || u == 0x1680 || (0x2000 <= u
        && u <= 0x200A) || u == 0x2028 || u == 0x2029 || u == 0x202F || u == 0x205F || u == 0x3000
}

/// Scanning `s` from the left: the words completed so far, and the word being read.
pub open spec fn scan_words(s: Seq<char>) -> (Seq<Seq<char>>, Seq<char>)
    decreases s.len(),
{
    if s.len() == 0 {
        (seq![], seq![])
    } else {
        let (done, cur) = scan_words(s.drop_last());
        let c = s.last();
        if is_space(c) {
            if cur.len() > 0 {
                (done.push(cur), seq![])
            } else {
                (done, cur)
            }
        } else {
            (done, cur.push(c))
        }
    }
}

/// The maximal runs of non-space characters of `s`, in order
/// (what `str::split_whitespace` yields).
pub open spec fn words_of(s: Seq<char>) -> Seq<Seq<char>> {
    let (done, cur) = scan_words(s);
    if cur.len() > 0 {
        done.push(cur)
    } else {
        done
    }
}

pub open spec fn views_of(v: Seq<Vec<char>>) -> Seq<Seq<char>> {
    v.map_values(|w: Vec<char>| w@)
}

/// Splits `s` into its words.
pub fn split_words(s: &str) -> (res: Vec<Vec<char>>)
    ensures
        views_of(res@) == words_of(s@),
{
    let chars = chars_of(s);
    let mut done: Vec<Vec<char>> = Vec::new();
    let mut cur: Vec<char> = Vec::new();
    for i in 0..chars.len()
        invariant
            chars@ == s@,
            (views_of(done@), cur@) == scan_words(chars@.take(i as int)),
    {
        let c = chars[i];
        assert(chars@.take(i + 1).drop_last() == chars@.take(i as int));
        if char_is_space(c) {
            if cur.len() > 0 {
                let w = cur;
                cur = Vec::new();
                done.push(w);
                assert(views_of(done@) == views_of(done@.drop_last()).push(w@));
            }
        } else {
            cur.push(c);
        }
    }
    assert(chars@.take(chars.len() as int) == chars@);
    if cur.len() > 0 {
        let ghost old_done = done@;
        done.push(cur);
        assert(views_of(done@) == views_of(old_done).push(cur@));
    }
    done
}

} // verus!

verus! {

/// The character views of a list of strings.
pub open spec fn strs(v: Seq<String>) -> Seq<Seq<char>> {
    v.map_values(|s: String| s@)
}

pub fn chars_equal(a: &Vec<char>, b: &Vec<char>) -> (res: bool)
    ensures
        res == (a@ == b@),
{
    if a.len() != b.len() {
        return false;
    }
    for i in 0..a.len()
        invariant
            a.len() == b.len(),
            forall|k: int| 0 <= k < i ==> a@[k] == b@[k],
    {
        if a[i] != b[i] {
            return false;
        }
    }
    assert(a@ =~= b@);
    true
}

pub fn contains_word(ws: &Vec<Vec<char>>, w: &Vec<char>) -> (res: bool)
    ensures
        res == views_of(ws@).contains(w@),
{
    for i in 0..ws.len()
        invariant
            forall|k: int| 0 <= k < i ==> ws@[k]@ != w@,
    {
        if chars_equal(&ws[i], w) {
            assert(views_of(ws@)[i as int] == w@);
            return true;
        }
    }
    assert forall|k: int| 0 <= k < views_of(ws@).len() implies views_of(ws@)[k] != w@ by {
        assert(ws@[k]@ != w@);
    }
    false
}

pub fn contains_string(v: &Vec<String>, s: &String) -> (res: bool)
    ensures
        res == strs(v@).contains(s@),
{
    for i in 0..v.len()
        invariant
            forall|k: int| 0 <= k < i ==> v@[k]@ != s@,
    {
        if v[i] == *s {
            assert(strs(v@)[i as int] == s@);
            return true;
        }
    }
    assert forall|k: int| 0 <= k < strs(v@).len() implies strs(v@)[k] != s@ by {
        assert(v@[k]@ != s@);
    }
    false
}

/// The elements of `s` without repeats, each where it first occurs.
pub open spec fn distinct<A>(s: Seq<A>) -> Seq<A>
    decreases s.len(),
{
    if s.len() == 0 {
        seq![]
    } else {
        let d = distinct(s.drop_last());
        if d.contains(s.last()) {
            d
        } else {
            d.push(s.last())
        }
    }
}

/// How many elements of `s` (counted with repeats) occur in `other`.
pub open spec fn count_in<A>(s: Seq<A>, other: Seq<A>) -> nat
    decreases s.len(),
{
    if s.len() == 0 {
        0
    } else {
        count_in(s.drop_last(), other) + if other.contains(s.last()) {
            1nat
        } else {
            0nat
        }
    }
}

pub proof fn lemma_count_in_bound<A>(s: Seq<A>, other: Seq<A>)
    ensures
        count_in(s, other) <= s.len(),
    decreases s.len(),
{
    if s.len() > 0 {
        lemma_count_in_bound(s.drop_last(), other);
    }
}

pub fn distinct_words(ws: &Vec<Vec<char>>) -> (res: Vec<Vec<char>>)
    ensures
        views_of(res@) == distinct(views_of(ws@)),
{
    let mut res: Vec<Vec<char>> = Vec::new();
    for i in 0..ws.len()
        invariant
            views_of(res@) == distinct(views_of(ws@).take(i as int)),
    {
        assert(views_of(ws@).take(i + 1).drop_last() == views_of(ws@).take(i as int));
        if !contains_word(&res, &ws[i]) {
            let ghost before = res@;
            res.push(ws[i].clone());
            assert(views_of(res@) == views_of(before).push(ws@[i as int]@));
        }
    }
    assert(views_of(ws@).take(ws.len() as int) == views_of(ws@));
    res
}

pub fn count_words_in(s: &Vec<Vec<char>>, other: &Vec<Vec<char>>) -> (res: usize)
    ensures
        res == count_in(views_of(s@), views_of(other@)),
{
    let mut n: usize = 0;
    for i in 0..s.len()
        invariant
            n == count_in(views_of(s@).take(i as int), views_of(other@)),
            n <= i,
    {
        assert(views_of(s@).take(i + 1).drop_last() == views_of(s@).take(i as int));
        if contains_word(other, &s[i]) {
            n = n + 1;
        }
    }
    assert(views_of(s@).take(s.len() as int) == views_of(s@));
    n
}

pub fn count_strings_in(s: &Vec<String>, other: &Vec<String>) -> (res: usize)
    ensures
        res == count_in(strs(s@), strs(other@)),
{
    let mut n: usize = 0;
    for i in 0..s.len()
        invariant
            n == count_in(strs(s@).take(i as int), strs(other@)),
            n <= i,
    {
        assert(strs(s@).take(i + 1).drop_last() == strs(s@).take(i as int));
        if contains_string(other, &s[i]) {
            n = n + 1;
        }
    }
    assert(strs(s@).take(s.len() as int) == strs(s@));
    n
}

/// The parts joined with `sep` between neighbours.
pub open spec fn join(parts: Seq<Seq<char>>, sep: Seq<char>) -> Seq<char>
    decreases parts.len(),
{
    if parts.len() == 0 {
        seq![]
    } else if parts.len() == 1 {
        parts[0]
    } else {
        join(parts.drop_last(), sep) + sep + parts.last()
    }
}

pub fn join_strings(v: &Vec<String>, sep: &str) -> (res: String)
    ensures
        res@ == join(strs(v@), sep@),
{
    let mut res = String::new();
    for i in 0..v.len()
        invariant
            res@ == join(strs(v@).take(i as int), sep@),
    {
        assert(strs(v@).take(i + 1).drop_last() == strs(v@).take(i as int));
        if i > 0 {
            push_str(&mut res, sep);
        }
        push_str(&mut res, v[i].as_str());
    }
    assert(strs(v@).take(v.len() as int) == strs(v@));
    res
}

pub fn join_words(v: &Vec<Vec<char>>, sep: &str) -> (res: String)
    ensures
        res@ == join(views_of(v@), sep@),
{
    let mut res = String::new();
    for i in 0..v.len()
        invariant
            res@ == join(views_of(v@).take(i as int), sep@),
    {
        assert(views_of(v@).take(i + 1).drop_last() == views_of(v@).take(i as int));
        if i > 0 {
            push_str(&mut res, sep);
        }
        push_chars(&mut res, &v[i]);
    }
    assert(views_of(v@).take(v.len() as int) == views_of(v@));
    res
}

} // verus!

verus! {

/// Lexicographic order on character sequences, characters compared by code point
/// (for UTF-8 text the same order as comparing the bytes, which is how `String`
/// is ordered).
pub open spec fn lex_lt(a: Seq<char>, b: Seq<char>) -> bool
    decreases a.len(),
{
    if a.len() == 0 {
        b.len() > 0
    } else if b.len() == 0 {
        false
    } else if a[0] != b[0] {
        (a[0] as int) < (b[0] as int)
    } else {
        lex_lt(a.drop_first(), b.drop_first())
    }
}

pub proof fn lemma_lex_irreflexive(a: Seq<char>)
    ensures
        !lex_lt(a, a),
    decreases a.len(),
{
    if a.len() > 0 {
        lemma_lex_irreflexive(a.drop_first());
    }
}

pub proof fn lemma_lex_transitive(a: Seq<char>, b: Seq<char>, c: Seq<char>)
    requires
        lex_lt(a, b),
        lex_lt(b, c),
    ensures
        lex_lt(a, c),
    decreases a.len(),
{
    if a.len() > 0 && b.len() > 0 && c.len() > 0 {
        if a[0] == b[0] && b[0] == c[0] {
            lemma_lex_transitive(a.drop_first(), b.drop_first(), c.drop_first());
        }
    }
}

pub proof fn lemma_lex_total(a: Seq<char>, b: Seq<char>)
    requires
        a != b,
    ensures
        lex_lt(a, b) || lex_lt(b, a),
    decreases a.len(),
{
    if a.len() > 0 && b.len() > 0 && a[0] == b[0] {
        if a.drop_first() == b.drop_first() {
            assert(a =~= seq![a[0]] + a.drop_first());
            assert(b =~= seq![b[0]] + b.drop_first());
        }
        lemma_lex_total(a.drop_first(), b.drop_first());
    } else if a.len() == 0 && b.len() == 0 {
        assert(a =~= b);
    } else if a.len() > 0 && b.len() > 0 {
        assert((a[0] as int) != (b[0] as int));
    }
}

pub fn lex_less(a: &Vec<char>, b: &Vec<char>) -> (res: bool)
    ensures
        res == lex_lt(a@, b@),
{
    let mut i: usize = 0;
    assert(a@.skip(0) =~= a@);
    assert(b@.skip(0) =~= b@);
    while i < a.len() && i < b.len()
        invariant
            i <= a.len(),
            i <= b.len(),
            lex_lt(a@, b@) == lex_lt(a@.skip(i as int), b@.skip(i as int)),
        decreases a.len() - i,
    {
        let ghost sa = a@.skip(i as int);
        let ghost sb = b@.skip(i as int);
        assert(sa[0] == a@[i as int]);
        assert(sb[0] == b@[i as int]);
        if a[i] != b[i] {
            return a[i] < b[i];
        }
        assert(sa.drop_first() == a@.skip(i + 1));
        assert(sb.drop_first() == b@.skip(i + 1));
        i = i + 1;
    }
    i < b.len()
}

/// Every element precedes every later one: sorted, with no repeats.
pub open spec fn strictly_sorted(s: Seq<Seq<char>>) -> bool {
    sorted_by(s, |x: Seq<char>, y: Seq<char>| lex_lt(x, y))
}

/// The elements of `s` in increasing order, each once.
pub open spec fn sorted_set(s: Seq<Seq<char>>) -> Seq<Seq<char>> {
    choose|r: Seq<Seq<char>>| strictly_sorted(r) && same_elements(r, s)
}

pub proof fn lemma_lex_order()
    ensures
        strict_total_order(|x: Seq<char>, y: Seq<char>| lex_lt(x, y)),
{
    assert forall|x: Seq<char>| !lex_lt(x, x) by {
        lemma_lex_irreflexive(x);
    }
    assert forall|x: Seq<char>, y: Seq<char>, z: Seq<char>| lex_lt(x, y) && lex_lt(y, z) implies lex_lt(x, z) by {
        lemma_lex_transitive(x, y, z);
    }
    assert forall|x: Seq<char>, y: Seq<char>| x != y implies lex_lt(x, y) || lex_lt(y, x) by {
        lemma_lex_total(x, y);
    }
}

pub proof fn lemma_sorted_set(r: Seq<Seq<char>>, s: Seq<Seq<char>>)
    requires
        strictly_sorted(r),
        same_elements(r, s),
    ensures
        sorted_set(s) == r,
{
    let c = sorted_set(s);
    assert(strictly_sorted(c) && same_elements(c, s));
    assert(same_elements(c, r));
    lemma_lex_order();
    lemma_sorted_unique_by(c, r, |x: Seq<char>, y: Seq<char>| lex_lt(x, y));
}

/// Adds `w` to a strictly sorted list, keeping it strictly sorted; nothing changes
/// when `w` is already there.
pub fn insert_sorted(v: &mut Vec<Vec<char>>, w: &Vec<char>)
    requires
        strictly_sorted(views_of(old(v)@)),
    ensures
        strictly_sorted(views_of(final(v)@)),
        forall|x: Seq<char>|
            views_of(final(v)@).contains(x) <==> (views_of(old(v)@).contains(x) || x == w@),
{
    let ghost vs = views_of(v@);
    let mut p: usize = 0;
    while p < v.len() && lex_less(&v[p], w)
        invariant
            p <= v.len(),
            vs == views_of(v@),
            forall|k: int| 0 <= k < p ==> lex_lt(vs[k], w@),
        decreases v.len() - p,
    {
        p = p + 1;
    }
    if p < v.len() && chars_equal(&v[p], w) {
        assert(vs[p as int] == w@);
        return ;
    }
    // here w < v[p] (when p < len), and v[k] < w for k < p
    if p < v.len() {
        proof {
            assert(vs[p as int] != w@);
            lemma_lex_total(vs[p as int], w@);
        }
    }
    v.insert(p, w.clone());
    let ghost ns = views_of(v@);
    assert(ns =~= vs.take(p as int).push(w@) + vs.skip(p as int));
    assert forall|i: int, j: int| 0 <= i < j < ns.len() implies lex_lt(ns[i], ns[j]) by {
        if j < p {
        } else if j == p {
        } else if i < p {
            lemma_lex_transitive(ns[i], w@, vs[p as int]);
            if j - 1 > p {
                lemma_lex_transitive(ns[i], vs[p as int], ns[j]);
            }
        } else if i == p {
            if j - 1 > p {
                lemma_lex_transitive(w@, vs[p as int], ns[j]);
            }
        } else {
        }
    }
    assert forall|x: Seq<char>| ns.contains(x) <==> (vs.contains(x) || x == w@) by {
        if ns.contains(x) {
            let k = choose|k: int| 0 <= k < ns.len() && ns[k] == x;
            if k < p {
                assert(vs[k] == x);
            } else if k > p {
                assert(vs[k - 1] == x);
            }
        }
        if vs.contains(x) {
            let k = choose|k: int| 0 <= k < vs.len() && vs[k] == x;
            if k < p {
                assert(ns[k] == x);
            } else {
                assert(ns[k + 1] == x);
            }
        }
        if x == w@ {
            assert(ns[p as int] == x);
        }
    }
}

} // verus!

verus! {

/// The distinct elements of `parts`, sorted.
pub fn sorted_distinct(parts: &Vec<Vec<char>>) -> (res: Vec<Vec<char>>)
    ensures
        views_of(res@) == sorted_set(views_of(parts@)),
{
    let mut res: Vec<Vec<char>> = Vec::new();
    for i in 0..parts.len()
        invariant
            strictly_sorted(views_of(res@)),
            forall|x: Seq<char>|
                views_of(res@).contains(x) <==> views_of(parts@).take(i as int).contains(x),
    {
        let ghost before = views_of(res@);
        insert_sorted(&mut res, &parts[i]);
        assert forall|x: Seq<char>|
            views_of(res@).contains(x) <==> views_of(parts@).take(i + 1).contains(x) by {
            let t = views_of(parts@).take(i + 1);
            assert(t == views_of(parts@).take(i as int).push(parts@[i as int]@));
            if x == parts@[i as int]@ {
                assert(t[i as int] == x);
            }
            if t.contains(x) && x != parts@[i as int]@ {
                let k = choose|k: int| 0 <= k < t.len() && t[k] == x;
                assert(views_of(parts@).take(i as int)[k] == x);
            }
        }
    }
    proof {
        assert(views_of(parts@).take(parts.len() as int) == views_of(parts@));
        lemma_sorted_set(views_of(res@), views_of(parts@));
    }
    res
}

/// The character of a decimal digit.
pub open spec fn digit_char(d: int) -> char {
    (48 + d) as char
}

/// The decimal numeral of `n`, without leading zeros.
pub open spec fn decimal(n: nat) -> Seq<char>
    decreases n,
{
    if n < 10 {
        seq![digit_char(n as int)]
    } else {
        decimal(n / 10).push(digit_char((n % 10) as int))
    }
}

fn digit(d: u128) -> (c: char)
    requires
        d < 10,
    ensures
        c == digit_char(d as int),
{
    let b: u8 = 48u8 + (d as u8);
    b as char
}

/// Appends the decimal numeral of `n`.
pub fn push_decimal(s: &mut String, n: u128)
    ensures
        final(s)@ == old(s)@ + decimal(n as nat),
{
    let mut out: Vec<char> = Vec::new();
    let mut y: u128 = n;
    while y >= 10
        invariant
            decimal(n as nat) == decimal(y as nat) + out@,
        decreases y,
    {
        let c = digit(y % 10);
        out.insert(0, c);
        assert(decimal(y as nat) == decimal((y / 10) as nat).push(c));
        y = y / 10;
    }
    let c = digit(y);
    out.insert(0, c);
    assert(decimal(n as nat) =~= out@);
    push_chars(s, &out);
}

/// Two decimal digits of `n` (`n < 100`), with a leading zero.
pub open spec fn two_digits(n: nat) -> Seq<char> {
    seq![digit_char((n / 10) as int), digit_char((n % 10) as int)]
}

/// `n / d` rounded to the nearest integer, halves to the even neighbour.
pub open spec fn round_div(n: nat, d: nat) -> nat {
    let q = n / d;
    let r = n % d;
    if 2 * r > d || (2 * r == d && q % 2 == 1) {
        q + 1
    } else {
        q
    }
}

/// A number given in units of `1/unit` (`unit` a multiple of 100), written with
/// two decimals after rounding to the nearest hundredth (halves to even);
/// a negative number keeps its minus sign even where it rounds to zero.
pub open spec fn two_decimals(v: int, unit: nat) -> Seq<char> {
    let h = round_div((if v < 0 { -v } else { v }) as nat, unit / 100);
    (if v < 0 { seq!['-'] } else { seq![] }) + decimal(h / 100) + seq!['.'] + two_digits(h % 100)
}

/// Appends `v / unit` with two decimals (see `two_decimals`).
pub fn push_two_decimals(s: &mut String, v: i128, unit: u128)
    requires
        100 <= unit <= 1_000_000_000_000_000_000,
        unit % 100 == 0,
        v > i128::MIN,
    ensures
        final(s)@ == old(s)@ + two_decimals(v as int, unit as nat),
{
    let ghost start = s@;
    let mag: u128 = if v < 0 { (-v) as u128 } else { v as u128 };
    let step = unit / 100;
    let q = mag / step;
    let r = mag % step;
    let h: u128 = if 2 * r > step || (2 * r == step && q % 2 == 1) {
        q + 1
    } else {
        q
    };
    if v < 0 {
        push_char(s, '-');
    }
    let ghost mid = s@;
    push_decimal(s, h / 100);
    push_char(s, '.');
    push_char(s, digit((h % 100) / 10));
    push_char(s, digit(h % 10));
    assert((h % 100) % 10 == h % 10) by (nonlinear_arith);
    assert(s@ =~= start + two_decimals(v as int, unit as nat));
}

/// The character of a hexadecimal digit, lower case.
pub open spec fn hex_char(d: int) -> char {
    if d < 10 {
        (48 + d) as char
    } else {
        (87 + d) as char
    }
}

/// The last `k` hexadecimal digits of `x`, most significant first.
pub open spec fn hex_digits(x: nat, k: nat) -> Seq<char>
    decreases k,
{
    if k == 0 {
        seq![]
    } else {
        hex_digits(x / 16, (k - 1) as nat).push(hex_char((x % 16) as int))
    }
}

fn hex_digit(d: u64) -> (c: char)
    requires
        d < 16,
    ensures
        c == hex_char(d as int),
{
    if d < 10 {
        let b: u8 = 48u8 + (d as u8);
        b as char
    } else {
        let b: u8 = 87u8 + (d as u8);
        b as char
    }
}

/// `x` as sixteen lower-case hexadecimal digits (what `format!("{:016x}", x)` gives).
pub fn hex16(x: u64) -> (res: String)
    ensures
        res@ == hex_digits(x as nat, 16),
{
    let mut out: Vec<char> = Vec::new();
    let mut y: u64 = x;
    let mut k: u64 = 0;
    while k < 16
        invariant
            k <= 16,
            hex_digits(x as nat, 16) == hex_digits(y as nat, (16 - k) as nat) + out@,
        decreases 16 - k,
    {
        let c = hex_digit(y % 16);
        out.insert(0, c);
        assert(hex_digits(y as nat, (16 - k) as nat) == hex_digits((y / 16) as nat, (16 - k - 1) as nat).push(c));
        y = y / 16;
        k = k + 1;
    }
    assert(hex_digits(y as nat, 0) =~= seq![]);
    assert(hex_digits(x as nat, 16) =~= out@);
    let mut res = String::new();
    push_chars(&mut res, &out);
    res
}

/// `16` to the power `k`.
pub open spec fn pow16(k: nat) -> nat
    decreases k,
{
    if k == 0 {
        1
    } else {
        16 * pow16((k - 1) as nat)
    }
}

proof fn lemma_hex_char_injective(d: int, e: int)
    requires
        0 <= d < 16,
        0 <= e < 16,
        hex_char(d) == hex_char(e),
    ensures
        d == e,
{
    assert(hex_char(d) as int == if d < 10 { 48 + d } else { 87 + d });
    assert(hex_char(e) as int == if e < 10 { 48 + e } else { 87 + e });
}

/// Equal digit strings of length `k` mean equal numbers modulo `16^k`.
pub proof fn lemma_hex_digits_mod(x: nat, y: nat, k: nat)
    requires
        hex_digits(x, k) == hex_digits(y, k),
    ensures
        x % pow16(k) == y % pow16(k),
    decreases k,
{
    if k > 0 {
        let k1 = (k - 1) as nat;
        assert(hex_digits(x, k).drop_last() =~= hex_digits(x / 16, k1));
        assert(hex_digits(y, k).drop_last() =~= hex_digits(y / 16, k1));
        lemma_hex_digits_mod(x / 16, y / 16, k1);
        assert(hex_digits(x, k).last() == hex_char((x % 16) as int));
        assert(hex_digits(y, k).last() == hex_char((y % 16) as int));
        lemma_hex_char_injective((x % 16) as int, (y % 16) as int);
        lemma_pow16_positive(k1);
        vstd::arithmetic::div_mod::lemma_mod_breakdown(x as int, 16, pow16(k1) as int);
        vstd::arithmetic::div_mod::lemma_mod_breakdown(y as int, 16, pow16(k1) as int);
    }
}

proof fn lemma_pow16_positive(k: nat)
    ensures
        pow16(k) > 0,
    decreases k,
{
    if k > 0 {
        lemma_pow16_positive((k - 1) as nat);
    }
}

/// `hex16` loses nothing: two numbers with the same sixteen-digit hexadecimal
/// text are the same number, so distinct draws give distinct ids.
pub proof fn lemma_hex16_injective(x: u64, y: u64)
    requires
        hex_digits(x as nat, 16) == hex_digits(y as nat, 16),
    ensures
        x == y,
{
    lemma_hex_digits_mod(x as nat, y as nat, 16);
    reveal_with_fuel(pow16, 17);
    assert(pow16(16) == 0x1_0000_0000_0000_0000);
}

} // verus!

verus! {

/// The sorted tag list of a consolidated tile is well defined: for every list of
/// tags there is exactly one strictly increasing list of the same tags.
pub proof fn lemma_sorted_set_properties(s: Seq<Seq<char>>)
    ensures
        strictly_sorted(sorted_set(s)),
        same_elements(sorted_set(s), s),
{
    lemma_lex_order();
    let lt = |x: Seq<char>, y: Seq<char>| lex_lt(x, y);
    crate::order::lemma_sort_by(s, lt);
    let w = crate::order::sort_by(s, lt);
    assert(strictly_sorted(w) && same_elements(w, s));
}

} // verus!

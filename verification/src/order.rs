use vstd::prelude::*;

verus! {

/// `lt` is a strict total order on all values of `A`.
pub open spec fn strict_total_order<A>(lt: spec_fn(A, A) -> bool) -> bool {
    &&& forall|x: A| !#[trigger] lt(x, x)
    &&& forall|x: A, y: A, z: A| #[trigger] lt(x, y) && #[trigger] lt(y, z) ==> lt(x, z)
    &&& forall|x: A, y: A| x != y ==> #[trigger] lt(x, y) || lt(y, x)
}

/// Every element precedes every later one under `lt`.
pub open spec fn sorted_by<A>(s: Seq<A>, lt: spec_fn(A, A) -> bool) -> bool {
    forall|i: int, j: int| 0 <= i < j < s.len() ==> lt(s[i], s[j])
}

/// The two sequences hold the same elements (ignoring order and repeats).
pub open spec fn same_elements<A>(a: Seq<A>, b: Seq<A>) -> bool {
    forall|x: A| a.contains(x) <==> b.contains(x)
}

/// Two sequences sorted under the same strict total order, with the same elements,
/// are equal.
pub proof fn lemma_sorted_unique_by<A>(a: Seq<A>, b: Seq<A>, lt: spec_fn(A, A) -> bool)
    requires
        strict_total_order(lt),
        sorted_by(a, lt),
        sorted_by(b, lt),
        same_elements(a, b),
    ensures
        a == b,
    decreases a.len(),
{
    if a.len() == 0 {
        if b.len() > 0 {
            assert(b.contains(b[0]));
        }
        assert(a =~= b);
    } else if b.len() == 0 {
        assert(a.contains(a[0]));
    } else {
        assert(a.contains(a[0]));
        assert(b.contains(b[0]));
        let j = choose|j: int| 0 <= j < b.len() && b[j] == a[0];
        let i = choose|i: int| 0 <= i < a.len() && a[i] == b[0];
        if a[0] != b[0] {
            assert(j > 0 && i > 0);
            assert(lt(b[0], b[j]));
            assert(lt(a[0], a[i]));
            assert(lt(a[0], a[0]));
        }
        let a1 = a.drop_first();
        let b1 = b.drop_first();
        assert forall|x: A| a1.contains(x) implies b1.contains(x) by {
            let k = choose|k: int| 0 <= k < a1.len() && a1[k] == x;
            assert(a.contains(x));
            assert(lt(a[0], a[k + 1]));
            let m = choose|m: int| 0 <= m < b.len() && b[m] == x;
            assert(m != 0);
            assert(b1[m - 1] == x);
        }
        assert forall|x: A| b1.contains(x) implies a1.contains(x) by {
            let k = choose|k: int| 0 <= k < b1.len() && b1[k] == x;
            assert(b.contains(x));
            assert(lt(b[0], b[k + 1]));
            let m = choose|m: int| 0 <= m < a.len() && a[m] == x;
            assert(m != 0);
            assert(a1[m - 1] == x);
        }
        lemma_sorted_unique_by(a1, b1, lt);
        assert(a =~= seq![a[0]] + a1);
        assert(b =~= seq![b[0]] + b1);
    }
}

} // verus!

verus! {

pub proof fn lemma_push_contains<A>(s: Seq<A>, x: A, y: A)
    ensures
        s.push(x).contains(y) <==> (s.contains(y) || y == x),
{
    let t = s.push(x);
    if t.contains(y) {
        let k = choose|k: int| 0 <= k < t.len() && t[k] == y;
        if k < s.len() {
            assert(s[k] == y);
        }
    }
    if s.contains(y) {
        let k = choose|k: int| 0 <= k < s.len() && s[k] == y;
        assert(t[k] == y);
    }
    if y == x {
        assert(t[s.len() as int] == y);
    }
}

} // verus!

verus! {

/// `x` put into the sorted `r` at its place, unless it is there already.
pub open spec fn insert_by<A>(r: Seq<A>, x: A, lt: spec_fn(A, A) -> bool) -> Seq<A>
    decreases r.len(),
{
    if r.len() == 0 {
        seq![x]
    } else if x == r[0] {
        r
    } else if lt(x, r[0]) {
        seq![x] + r
    } else {
        seq![r[0]] + insert_by(r.drop_first(), x, lt)
    }
}

pub proof fn lemma_insert_by<A>(r: Seq<A>, x: A, lt: spec_fn(A, A) -> bool)
    requires
        strict_total_order(lt),
        sorted_by(r, lt),
    ensures
        sorted_by(insert_by(r, x, lt), lt),
        forall|y: A| #[trigger] insert_by(r, x, lt).contains(y) <==> (r.contains(y) || y == x),
    decreases r.len(),
{
    let res = insert_by(r, x, lt);
    if r.len() == 0 {
        assert forall|y: A| res.contains(y) <==> (r.contains(y) || y == x) by {
            if y == x {
                assert(res[0] == y);
            }
        }
    } else if x == r[0] {
        assert(r.contains(r[0]));
    } else if lt(x, r[0]) {
        assert forall|i: int, j: int| 0 <= i < j < res.len() implies lt(res[i], res[j]) by {
            if i == 0 {
                if j > 1 {
                    assert(lt(r[0], r[j - 1]));
                }
            } else {
                assert(res[i] == r[i - 1] && res[j] == r[j - 1]);
            }
        }
        assert forall|y: A| res.contains(y) <==> (r.contains(y) || y == x) by {
            if res.contains(y) {
                let k = choose|k: int| 0 <= k < res.len() && res[k] == y;
                if k > 0 {
                    assert(r[k - 1] == y);
                }
            }
            if r.contains(y) {
                let k = choose|k: int| 0 <= k < r.len() && r[k] == y;
                assert(res[k + 1] == y);
            }
            if y == x {
                assert(res[0] == y);
            }
        }
    } else {
        let t = r.drop_first();
        assert(sorted_by(t, lt)) by {
            assert forall|i: int, j: int| 0 <= i < j < t.len() implies lt(t[i], t[j]) by {
                assert(t[i] == r[i + 1] && t[j] == r[j + 1]);
            }
        }
        lemma_insert_by(t, x, lt);
        let ti = insert_by(t, x, lt);
        assert(ti.contains(x));
        assert(lt(r[0], x));
        assert(res == seq![r[0]] + ti);
        assert forall|i: int, j: int| 0 <= i < j < res.len() implies lt(res[i], res[j]) by {
            if i == 0 {
                assert(res[j] == ti[j - 1]);
                assert(ti.contains(ti[j - 1]));
                if ti[j - 1] != x {
                    assert(t.contains(ti[j - 1]));
                    let k = choose|k: int| 0 <= k < t.len() && t[k] == ti[j - 1];
                    assert(lt(r[0], r[k + 1]));
                }
            } else {
                assert(res[i] == ti[i - 1] && res[j] == ti[j - 1]);
            }
        }
        assert forall|y: A| res.contains(y) <==> (r.contains(y) || y == x) by {
            if res.contains(y) {
                let k = choose|k: int| 0 <= k < res.len() && res[k] == y;
                if k > 0 {
                    assert(ti.contains(ti[k - 1]));
                    if y != x {
                        assert(t.contains(y));
                        let m = choose|m: int| 0 <= m < t.len() && t[m] == y;
                        assert(r[m + 1] == y);
                    }
                } else {
                    assert(r[0] == y);
                }
            }
            if r.contains(y) {
                let k = choose|k: int| 0 <= k < r.len() && r[k] == y;
                if k == 0 {
                    assert(res[0] == y);
                } else {
                    assert(t[k - 1] == y);
                    assert(t.contains(y));
                    assert(insert_by(t, x, lt).contains(y) <==> (t.contains(y) || y == x));
                    assert(ti.contains(y));
                    let m = choose|m: int| 0 <= m < ti.len() && ti[m] == y;
                    assert(res[m + 1] == y);
                }
            }
            if y == x {
                assert(ti.contains(x));
                let m = choose|m: int| 0 <= m < ti.len() && ti[m] == x;
                assert(res[m + 1] == x);
            }
        }
    }
}

/// The elements of `s`, sorted by `lt`, each once.
pub open spec fn sort_by<A>(s: Seq<A>, lt: spec_fn(A, A) -> bool) -> Seq<A>
    decreases s.len(),
{
    if s.len() == 0 {
        seq![]
    } else {
        insert_by(sort_by(s.drop_last(), lt), s.last(), lt)
    }
}

/// Under a strict total order, every sequence has a sorted arrangement of its
/// elements without repeats.
pub proof fn lemma_sort_by<A>(s: Seq<A>, lt: spec_fn(A, A) -> bool)
    requires
        strict_total_order(lt),
    ensures
        sorted_by(sort_by(s, lt), lt),
        same_elements(sort_by(s, lt), s),
    decreases s.len(),
{
    if s.len() > 0 {
        lemma_sort_by(s.drop_last(), lt);
        lemma_insert_by(sort_by(s.drop_last(), lt), s.last(), lt);
        assert forall|y: A| sort_by(s, lt).contains(y) <==> s.contains(y) by {
            lemma_push_contains(s.drop_last(), s.last(), y);
            assert(s.drop_last().push(s.last()) == s);
        }
    }
}

/// A sequence sorted by a strict order has no repeats.
pub proof fn lemma_sorted_no_duplicates<A>(s: Seq<A>, lt: spec_fn(A, A) -> bool)
    requires
        strict_total_order(lt),
        sorted_by(s, lt),
    ensures
        s.no_duplicates(),
{
    assert forall|i: int, j: int| 0 <= i < s.len() && 0 <= j < s.len() && i != j implies s[i] != s[j] by {
        if i < j {
            assert(lt(s[i], s[j]));
        } else {
            assert(lt(s[j], s[i]));
        }
    }
}

} // verus!

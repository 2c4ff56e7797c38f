//! Insertion sort at the specification level: the order in which service
//! listings and child process ids are presented is defined by these
//! functions, and the executable sorts are proved equal to them.

use vstd::prelude::*;
use vstd::relations::sorted_by;

verus! {

/// `x` placed into `s` before the first element it does not come after.
pub open spec fn insert_sorted<A>(leq: spec_fn(A, A) -> bool, x: A, s: Seq<A>) -> Seq<A>
    decreases s.len(),
{
    if s.len() == 0 {
        seq![x]
    } else if leq(x, s[0]) {
        seq![x] + s
    } else {
        seq![s[0]] + insert_sorted(leq, x, s.drop_first())
    }
}

/// Insertion sort of `s` under `leq`.
pub open spec fn sort_by_spec<A>(leq: spec_fn(A, A) -> bool, s: Seq<A>) -> Seq<A>
    decreases s.len(),
{
    if s.len() == 0 {
        Seq::empty()
    } else {
        insert_sorted(leq, s.last(), sort_by_spec(leq, s.drop_last()))
    }
}

/// Inserting preserves length and elements, and keeps a sorted sequence
/// sorted when `leq` is total and transitive.
pub proof fn lemma_insert_sorted_ensures<A>(leq: spec_fn(A, A) -> bool, x: A, s: Seq<A>)
    requires
        sorted_by(s, leq),
        forall|a: A, b: A| #[trigger] leq(a, b) || #[trigger] leq(b, a),
        forall|a: A, b: A, c: A| #[trigger] leq(a, b) && #[trigger] leq(b, c) ==> leq(a, c),
    ensures
        sorted_by(insert_sorted(leq, x, s), leq),
        insert_sorted(leq, x, s).len() == s.len() + 1,
        forall|y: A|
            #![trigger insert_sorted(leq, x, s).contains(y)]
            insert_sorted(leq, x, s).contains(y) <==> (s.contains(y) || y == x),
    decreases s.len(),
{
    let r = insert_sorted(leq, x, s);
    if s.len() == 0 {
        assert forall|y: A| r.contains(y) <==> (s.contains(y) || y == x) by {
            if y == x {
                assert(r[0] == x);
            }
        }
    } else if leq(x, s[0]) {
        assert forall|i: int, j: int| 0 <= i < j < r.len() implies leq(r[i], r[j]) by {
            if i == 0 {
                if j > 1 {
                    assert(leq(s[0], s[j - 1]));
                }
            } else {
                assert(leq(s[i - 1], s[j - 1]));
            }
        }
        assert forall|y: A| r.contains(y) <==> (s.contains(y) || y == x) by {
            if y == x {
                assert(r[0] == x);
            }
            if s.contains(y) {
                let k = choose|k: int| 0 <= k < s.len() && s[k] == y;
                assert(r[k + 1] == y);
            }
            if r.contains(y) && y != x {
                let k = choose|k: int| 0 <= k < r.len() && r[k] == y;
                assert(k > 0);
                assert(s[k - 1] == y);
            }
        }
    } else {
        let d = s.drop_first();
        assert(forall|i: int, j: int|
            0 <= i < j < d.len() ==> leq(#[trigger] d[i], #[trigger] d[j]));
        lemma_insert_sorted_ensures(leq, x, d);
        let rd = insert_sorted(leq, x, d);
        assert(r =~= seq![s[0]] + rd);
        assert(leq(s[0], x));
        assert forall|i: int, j: int| 0 <= i < j < r.len() implies leq(r[i], r[j]) by {
            if i == 0 {
                assert(r[j] == rd[j - 1]);
                assert(rd.contains(rd[j - 1]));
                if rd[j - 1] == x {
                    assert(leq(s[0], x));
                } else {
                    assert(d.contains(rd[j - 1]));
                    let k = choose|k: int| 0 <= k < d.len() && d[k] == rd[j - 1];
                    assert(leq(s[0], s[k + 1]));
                }
            } else {
                assert(r[i] == rd[i - 1] && r[j] == rd[j - 1]);
                assert(leq(rd[i - 1], rd[j - 1]));
            }
        }
        assert forall|y: A| r.contains(y) <==> (s.contains(y) || y == x) by {
            if r.contains(y) {
                let k = choose|k: int| 0 <= k < r.len() && r[k] == y;
                if k == 0 {
                    assert(s[0] == y);
                } else {
                    assert(rd.contains(rd[k - 1]));
                    if rd[k - 1] != x {
                        assert(d.contains(rd[k - 1]));
                        let t = choose|t: int| 0 <= t < d.len() && d[t] == rd[k - 1];
                        assert(d[t] == s[t + 1]);
                        assert(s[t + 1] == y);
                    }
                }
            }
            if y == x {
                assert(rd.contains(x));
                let k = choose|k: int| 0 <= k < rd.len() && rd[k] == x;
                assert(r[k + 1] == x);
            }
            if s.contains(y) && y != x {
                let k = choose|k: int| 0 <= k < s.len() && s[k] == y;
                if k == 0 {
                    assert(r[0] == y);
                } else {
                    assert(d[k - 1] == y);
                    assert(d.contains(y));
                    assert(rd.contains(y));
                    let t = choose|t: int| 0 <= t < rd.len() && rd[t] == y;
                    assert(r[t + 1] == y);
                }
            }
        }
    }
}

/// The specification sort returns a sorted sequence with the same length
/// and the same elements, when `leq` is total and transitive.
pub proof fn lemma_sort_by_spec_ensures<A>(leq: spec_fn(A, A) -> bool, s: Seq<A>)
    requires
        forall|a: A, b: A| #[trigger] leq(a, b) || #[trigger] leq(b, a),
        forall|a: A, b: A, c: A| #[trigger] leq(a, b) && #[trigger] leq(b, c) ==> leq(a, c),
    ensures
        sorted_by(sort_by_spec(leq, s), leq),
        sort_by_spec(leq, s).len() == s.len(),
        forall|y: A|
            #![trigger sort_by_spec(leq, s).contains(y)]
            sort_by_spec(leq, s).contains(y) <==> s.contains(y),
    decreases s.len(),
{
    if s.len() == 0 {
    } else {
        let d = s.drop_last();
        let x = s.last();
        let sd = sort_by_spec(leq, d);
        lemma_sort_by_spec_ensures(leq, d);
        lemma_insert_sorted_ensures(leq, x, sd);
        assert(sort_by_spec(leq, s) == insert_sorted(leq, x, sd));
        assert forall|y: A| sort_by_spec(leq, s).contains(y) <==> s.contains(y) by {
            assert(insert_sorted(leq, x, sd).contains(y) <==> (sd.contains(y) || y == x));
            if sort_by_spec(leq, s).contains(y) {
                if y == x {
                    assert(s[s.len() - 1] == y);
                } else {
                    assert(d.contains(y));
                    let k = choose|k: int| 0 <= k < d.len() && d[k] == y;
                    assert(s[k] == y);
                }
            }
            if s.contains(y) {
                let k = choose|k: int| 0 <= k < s.len() && s[k] == y;
                if k < s.len() - 1 {
                    assert(d[k] == y);
                } else {
                    assert(y == x);
                }
            }
        }
    }
}

/// Where the inserted element lands: at the first index whose element it
/// comes at or before.
pub proof fn lemma_insert_sorted_position<A>(leq: spec_fn(A, A) -> bool, x: A, s: Seq<A>, i: int)
    requires
        0 <= i <= s.len(),
        forall|j: int| 0 <= j < i ==> !leq(x, #[trigger] s[j]),
        i == s.len() || leq(x, s[i]),
    ensures
        insert_sorted(leq, x, s) == s.insert(i, x),
    decreases s.len(),
{
    if s.len() == 0 {
        assert(insert_sorted(leq, x, s) =~= s.insert(0, x));
    } else if i == 0 {
        assert(insert_sorted(leq, x, s) =~= s.insert(0, x));
    } else {
        let d = s.drop_first();
        assert(!leq(x, s[0]));
        assert(forall|j: int| 0 <= j < i - 1 ==> !leq(x, #[trigger] d[j]));
        lemma_insert_sorted_position(leq, x, d, i - 1);
        assert(seq![s[0]] + d.insert(i - 1, x) =~= s.insert(i, x));
    }
}

} // verus!

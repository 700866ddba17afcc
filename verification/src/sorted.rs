//! Sorted, duplicate-free sequences of identifiers.
use vstd::prelude::*;

verus! {

/// `s` is strictly increasing.
pub open spec fn strictly_sorted(s: Seq<u64>) -> bool {
    forall|i: int, j: int| 0 <= i < j < s.len() ==> s[i] < s[j]
}

/// `s` is strictly increasing.
pub open spec fn strictly_sorted_usize(s: Seq<usize>) -> bool {
    forall|i: int, j: int| 0 <= i < j < s.len() ==> s[i] < s[j]
}

/// Two strictly increasing sequences with the same elements are equal.
pub proof fn lemma_sorted_unique(a: Seq<u64>, b: Seq<u64>)
    requires
        strictly_sorted(a),
        strictly_sorted(b),
        a.to_set() == b.to_set(),
    ensures
        a == b,
    decreases a.len(),
{
    if a.len() == 0 {
        if b.len() > 0 {
            assert(b.to_set().contains(b[0]));
            assert(!a.to_set().contains(b[0]));
        }
        assert(a =~= b);
    } else if b.len() == 0 {
        assert(a.to_set().contains(a[0]));
    } else {
        // both minima agree
        assert(a.to_set().contains(a[0]));
        assert(b.to_set().contains(b[0]));
        assert(b.contains(a[0]));
        assert(a.contains(b[0]));
        let ia = choose|i: int| 0 <= i < b.len() && b[i] == a[0];
        let ib = choose|i: int| 0 <= i < a.len() && a[i] == b[0];
        assert(a[0] == b[0]) by {
            if a[0] < b[0] {
                assert(b[ia] >= b[0]);
            } else if a[0] > b[0] {
                assert(a[ib] >= a[0]);
            }
        }
        let ta = a.drop_first();
        let tb = b.drop_first();
        assert(ta.to_set() =~= tb.to_set()) by {
            assert forall|x: u64| ta.to_set().contains(x) implies tb.to_set().contains(x) by {
                let k = choose|k: int| 0 <= k < ta.len() && ta[k] == x;
                assert(a[k + 1] == x);
                assert(a.to_set().contains(x));
                assert(b.contains(x));
                let m = choose|m: int| 0 <= m < b.len() && b[m] == x;
                assert(m != 0);
                assert(tb[m - 1] == x);
            }
            assert forall|x: u64| tb.to_set().contains(x) implies ta.to_set().contains(x) by {
                let k = choose|k: int| 0 <= k < tb.len() && tb[k] == x;
                assert(b[k + 1] == x);
                assert(b.to_set().contains(x));
                assert(a.contains(x));
                let m = choose|m: int| 0 <= m < a.len() && a[m] == x;
                assert(m != 0);
                assert(ta[m - 1] == x);
            }
        }
        lemma_sorted_unique(ta, tb);
        assert(a =~= seq![a[0]] + ta);
        assert(b =~= seq![b[0]] + tb);
    }
}

/// Inserts `x` into the strictly increasing `v`, unless it is already there.
pub fn insert_sorted_usize(v: &mut Vec<usize>, x: usize)
    requires
        strictly_sorted_usize(old(v)@),
    ensures
        strictly_sorted_usize(final(v)@),
        final(v)@.to_set() == old(v)@.to_set().insert(x),
{
    let mut i: usize = 0;
    while i < v.len() && v[i] < x
        invariant
            i <= v.len(),
            forall|k: int| 0 <= k < i ==> v@[k] < x,
        decreases v.len() - i,
    {
        i = i + 1;
    }
    if i < v.len() && v[i] == x {
        assert(v@.to_set().insert(x) =~= v@.to_set()) by {
            assert(v@.to_set().contains(x));
        }
        return;
    }
    let ghost old_v = v@;
    v.insert(i, x);
    assert(v@ =~= old_v.subrange(0, i as int).push(x) + old_v.subrange(i as int, old_v.len() as int));
    assert forall|a: int, b: int| 0 <= a < b < v@.len() implies v@[a] < v@[b] by {
        if b < i {
        } else if b == i {
        } else if a < i {
            assert(v@[b] == old_v[b - 1]);
        } else if a == i {
            assert(v@[b] == old_v[b - 1]);
        } else {
            assert(v@[a] == old_v[a - 1]);
            assert(v@[b] == old_v[b - 1]);
        }
    }
    assert(v@.to_set() =~= old_v.to_set().insert(x)) by {
        assert forall|y: usize| v@.to_set().contains(y) implies old_v.to_set().insert(x).contains(y) by {
            let k = choose|k: int| 0 <= k < v@.len() && v@[k] == y;
            if k < i {
                assert(old_v[k] == y);
            } else if k > i {
                assert(old_v[k - 1] == y);
            }
        }
        assert forall|y: usize| old_v.to_set().insert(x).contains(y) implies v@.to_set().contains(y) by {
            if y == x {
                assert(v@[i as int] == x);
            } else {
                let k = choose|k: int| 0 <= k < old_v.len() && old_v[k] == y;
                if k < i {
                    assert(v@[k] == y);
                } else {
                    assert(v@[k + 1] == y);
                }
            }
        }
    }
}

} // verus!

verus! {

/// Removes `x` from the strictly increasing `v` (if present).
pub fn remove_sorted(v: &mut Vec<u64>, x: u64)
    requires
        strictly_sorted(old(v)@),
    ensures
        strictly_sorted(final(v)@),
        final(v)@.to_set() == old(v)@.to_set().remove(x),
        final(v)@.len() <= old(v)@.len(),
{
    let mut i: usize = 0;
    while i < v.len() && v[i] != x
        invariant
            i <= v.len(),
            forall|k: int| 0 <= k < i ==> v@[k] != x,
        decreases v.len() - i,
    {
        i = i + 1;
    }
    if i == v.len() {
        assert(v@.to_set().remove(x) =~= v@.to_set());
        return;
    }
    let ghost old_v = v@;
    v.remove(i);
    assert forall|a: int, b: int| 0 <= a < b < v@.len() implies v@[a] < v@[b] by {
        if a < i {
            assert(v@[a] == old_v[a]);
        } else {
            assert(v@[a] == old_v[a + 1]);
        }
        if b < i {
            assert(v@[b] == old_v[b]);
        } else {
            assert(v@[b] == old_v[b + 1]);
        }
    }
    assert(v@.to_set() =~= old_v.to_set().remove(x)) by {
        assert forall|y: u64| v@.to_set().contains(y) implies old_v.to_set().remove(x).contains(y) by {
            let k = choose|k: int| 0 <= k < v@.len() && v@[k] == y;
            if k < i {
                assert(old_v[k] == y);
                assert(old_v[k] < old_v[i as int]);
            } else {
                assert(old_v[k + 1] == y);
                assert(old_v[k + 1] > old_v[i as int]);
            }
        }
        assert forall|y: u64| old_v.to_set().remove(x).contains(y) implies v@.to_set().contains(y) by {
            let k = choose|k: int| 0 <= k < old_v.len() && old_v[k] == y;
            if k < i {
                assert(v@[k] == y);
            } else {
                assert(k != i);
                assert(v@[k - 1] == y);
            }
        }
    }
}

} // verus!

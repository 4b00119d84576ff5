//! Ascending sequences of integers, and insertion into them.

use vstd::prelude::*;
use vstd::relations::*;
use vstd::seq_lib::*;

verus! {

/// Whether `s` is in ascending order; equal neighbours are allowed.
pub open spec fn ascending(s: Seq<u32>) -> bool {
    forall|i: int, j: int| 0 <= i <= j < s.len() ==> s[i] <= s[j]
}

/// Whether `s` is in strictly ascending order.
pub open spec fn strictly_ascending(s: Seq<u32>) -> bool {
    forall|i: int, j: int| 0 <= i < j < s.len() ==> s[i] < s[j]
}

/// Whether `s` is in strictly ascending order.
pub open spec fn strictly_ascending_u128(s: Seq<u128>) -> bool {
    forall|i: int, j: int| 0 <= i < j < s.len() ==> s[i] < s[j]
}

/// Whether `v` is in ascending order with every element below `bound`.
pub fn ascending_below(v: &Vec<u32>, bound: u32) -> (b: bool)
    ensures
        b == (ascending(v@) && forall|i: int| 0 <= i < v@.len() ==> v@[i] < bound),
{
    let mut m: usize = 0;
    while m < v.len()
        invariant
            0 <= m <= v.len(),
            forall|a: int| 0 <= a < m ==> v@[a] < bound,
            forall|a: int, b: int| 0 <= a <= b < m ==> v@[a] <= v@[b],
        decreases v.len() - m,
    {
        let x = v[m];
        if x >= bound {
            return false;
        }
        if m > 0 && v[m - 1] > x {
            assert(!ascending(v@)) by {
                assert(v@[m - 1] > v@[m as int]);
            }
            return false;
        }
        proof {
            assert forall|a: int, b: int| 0 <= a <= b < m + 1 implies v@[a] <= v@[b] by {
                if b == m && a < m {
                    assert(v@[a] <= v@[m - 1]);
                }
            }
        }
        m += 1;
    }
    true
}

/// Two ascending sequences with the same elements, counted with their
/// multiplicity, are equal.
pub proof fn lemma_ascending_unique(a: Seq<u32>, b: Seq<u32>)
    requires
        ascending(a),
        ascending(b),
        a.to_multiset() == b.to_multiset(),
    ensures
        a == b,
{
    let leq = |x: u32, y: u32| x <= y;
    assert(total_ordering(leq));
    assert(sorted_by(a, leq));
    assert(sorted_by(b, leq));
    lemma_sorted_unique(a, b, leq);
}

/// Two strictly ascending sequences with the same set of elements are equal.
pub proof fn lemma_strictly_ascending_unique(a: Seq<u32>, b: Seq<u32>)
    requires
        strictly_ascending(a),
        strictly_ascending(b),
        a.to_set() == b.to_set(),
    ensures
        a == b,
    decreases a.len(),
{
    if a.len() == 0 {
        if b.len() > 0 {
            assert(b.to_set().contains(b[0]));
            assert(a.to_set().contains(b[0]));
        }
        assert(a =~= b);
    } else if b.len() == 0 {
        assert(a.to_set().contains(a[0]));
        assert(b.to_set().contains(a[0]));
    } else {
        let la = a.last();
        let lb = b.last();
        assert(a.to_set().contains(la));
        assert(b.to_set().contains(la));
        assert(b.to_set().contains(lb));
        assert(a.to_set().contains(lb));
        let ia = choose|i: int| 0 <= i < a.len() && a[i] == lb;
        let ib = choose|i: int| 0 <= i < b.len() && b[i] == la;
        assert(la == lb);
        let a0 = a.drop_last();
        let b0 = b.drop_last();
        assert forall|x: u32| a0.to_set().contains(x) <==> b0.to_set().contains(x) by {
            if a0.to_set().contains(x) {
                let i = choose|i: int| 0 <= i < a0.len() && a0[i] == x;
                assert(a[i] == x);
                assert(a.to_set().contains(x));
                assert(b.to_set().contains(x));
                let j = choose|j: int| 0 <= j < b.len() && b[j] == x;
                assert(x < la);
                assert(j < b.len() - 1);
                assert(b0[j] == x);
            }
            if b0.to_set().contains(x) {
                let i = choose|i: int| 0 <= i < b0.len() && b0[i] == x;
                assert(b[i] == x);
                assert(b.to_set().contains(x));
                assert(a.to_set().contains(x));
                let j = choose|j: int| 0 <= j < a.len() && a[j] == x;
                assert(x < lb);
                assert(j < a.len() - 1);
                assert(a0[j] == x);
            }
        }
        assert(a0.to_set() =~= b0.to_set());
        lemma_strictly_ascending_unique(a0, b0);
        assert(a =~= a0.push(la));
        assert(b =~= b0.push(lb));
    }
}

/// Insert `x` into the ascending vector `v`, behind the elements that are
/// equal to it.
pub fn insert_ascending(v: &mut Vec<u32>, x: u32)
    requires
        ascending(old(v)@),
    ensures
        ascending(final(v)@),
        final(v)@.to_multiset() == old(v)@.to_multiset().insert(x),
        final(v)@.len() == old(v)@.len() + 1,
{
    let mut pos: usize = 0;
    while pos < v.len() && v[pos] <= x
        invariant
            0 <= pos <= v.len(),
            v@ == old(v)@,
            forall|i: int| 0 <= i < pos ==> v@[i] <= x,
        decreases v.len() - pos,
    {
        pos += 1;
    }
    proof {
        to_multiset_insert(v@, pos as int, x);
    }
    v.insert(pos, x);
}

/// Take one `x` out of the vector `v`, which holds it.
pub fn remove_one(v: &mut Vec<u32>, x: u32)
    requires
        old(v)@.contains(x),
    ensures
        final(v)@.to_multiset() == old(v)@.to_multiset().remove(x),
        final(v)@.len() == old(v)@.len() - 1,
        ascending(old(v)@) ==> ascending(final(v)@),
        forall|i: int| 0 <= i < final(v)@.len() ==> old(v)@.contains(#[trigger] final(v)@[i]),
{
    let mut drop_index: usize = 0;
    let mut found = false;
    let mut i: usize = 0;
    while i < v.len()
        invariant
            0 <= i <= v.len(),
            v@ == old(v)@,
            found ==> 0 <= drop_index < i && v@[drop_index as int] == x,
            !found ==> forall|j: int| 0 <= j < i ==> v@[j] != x,
        decreases v.len() - i,
    {
        if v[i] == x {
            found = true;
            drop_index = i;
        }
        i += 1;
    }
    proof {
        to_multiset_remove(v@, drop_index as int);
    }
    let ghost before = v@;
    v.remove(drop_index);
    proof {
        assert forall|i: int| 0 <= i < v@.len() implies before.contains(#[trigger] v@[i]) by {
            if i < drop_index {
                assert(before[i] == v@[i]);
            } else {
                assert(before[i + 1] == v@[i]);
            }
        }
    }
}

/// Whether the ascending vector `v` holds `x`, found by halving the range
/// in which it can lie.
pub fn holds_ascending(v: &Vec<u32>, x: u32) -> (found: bool)
    requires
        ascending(v@),
    ensures
        found == v@.contains(x),
{
    let mut low: usize = 0;
    let mut high: usize = v.len();
    while low < high
        invariant
            0 <= low <= high <= v.len(),
            ascending(v@),
            forall|i: int| 0 <= i < low ==> v@[i] < x,
            forall|i: int| high <= i < v@.len() ==> v@[i] > x,
        decreases high - low,
    {
        let middle: usize = low + (high - low) / 2;
        let m = v[middle];
        if m == x {
            return true;
        } else if m < x {
            proof {
                assert forall|i: int| 0 <= i < middle + 1 implies v@[i] < x by {
                    assert(v@[i] <= v@[middle as int]);
                }
            }
            low = middle + 1;
        } else {
            proof {
                assert forall|i: int| middle <= i < v@.len() implies v@[i] > x by {
                    assert(v@[middle as int] <= v@[i]);
                }
            }
            high = middle;
        }
    }
    false
}

/// Whether the vector `v` holds `x`.
pub fn holds(v: &Vec<u32>, x: u32) -> (found: bool)
    ensures
        found == v@.contains(x),
{
    let mut i: usize = 0;
    while i < v.len()
        invariant
            0 <= i <= v.len(),
            forall|j: int| 0 <= j < i ==> v@[j] != x,
        decreases v.len() - i,
    {
        if v[i] == x {
            return true;
        }
        i += 1;
    }
    false
}

/// Insert `x` into the strictly ascending vector `v` unless it is there.
/// Returns whether it was inserted.
pub fn insert_unique(v: &mut Vec<u32>, x: u32) -> (inserted: bool)
    requires
        strictly_ascending(old(v)@),
    ensures
        strictly_ascending(final(v)@),
        final(v)@.to_set() == old(v)@.to_set().insert(x),
        inserted == !old(v)@.contains(x),
        !inserted ==> final(v)@ == old(v)@,
        inserted ==> final(v)@.len() == old(v)@.len() + 1,
{
    let mut pos: usize = 0;
    while pos < v.len() && v[pos] < x
        invariant
            0 <= pos <= v.len(),
            v@ == old(v)@,
            forall|i: int| 0 <= i < pos ==> v@[i] < x,
        decreases v.len() - pos,
    {
        pos += 1;
    }
    if pos < v.len() && v[pos] == x {
        proof {
            assert(v@.to_set().insert(x) =~= v@.to_set());
        }
        return false;
    }
    let ghost before = v@;
    v.insert(pos, x);
    proof {
        assert forall|y: u32| v@.to_set().contains(y) <==> before.to_set().insert(x).contains(
            y,
        ) by {
            if v@.to_set().contains(y) {
                let i = choose|i: int| 0 <= i < v@.len() && v@[i] == y;
                if i < pos {
                    assert(before[i] == y);
                } else if i > pos {
                    assert(before[i - 1] == y);
                }
            }
            if before.to_set().contains(y) {
                let i = choose|i: int| 0 <= i < before.len() && before[i] == y;
                if i < pos {
                    assert(v@[i] == y);
                } else {
                    assert(v@[i + 1] == y);
                }
            }
            if y == x {
                assert(v@[pos as int] == x);
            }
        }
        assert(v@.to_set() =~= before.to_set().insert(x));
        assert(!before.contains(x)) by {
            if before.contains(x) {
                let i = choose|i: int| 0 <= i < before.len() && before[i] == x;
                if i < pos {
                } else if i > pos {
                    assert(before[pos as int] < before[i]);
                }
            }
        }
    }
    true
}

/// Insert `x` into the strictly ascending vector `v` unless it is there.
/// Returns whether it was inserted.
pub fn insert_unique_u128(v: &mut Vec<u128>, x: u128) -> (inserted: bool)
    requires
        strictly_ascending_u128(old(v)@),
    ensures
        strictly_ascending_u128(final(v)@),
        final(v)@.to_set() == old(v)@.to_set().insert(x),
        inserted == !old(v)@.contains(x),
        !inserted ==> final(v)@ == old(v)@,
        inserted ==> final(v)@.len() == old(v)@.len() + 1,
{
    let mut pos: usize = 0;
    while pos < v.len() && v[pos] < x
        invariant
            0 <= pos <= v.len(),
            v@ == old(v)@,
            forall|i: int| 0 <= i < pos ==> v@[i] < x,
        decreases v.len() - pos,
    {
        pos += 1;
    }
    if pos < v.len() && v[pos] == x {
        proof {
            assert(v@.to_set().insert(x) =~= v@.to_set());
        }
        return false;
    }
    let ghost before = v@;
    v.insert(pos, x);
    proof {
        assert forall|y: u128| v@.to_set().contains(y) <==> before.to_set().insert(x).contains(
            y,
        ) by {
            if v@.to_set().contains(y) {
                let i = choose|i: int| 0 <= i < v@.len() && v@[i] == y;
                if i < pos {
                    assert(before[i] == y);
                } else if i > pos {
                    assert(before[i - 1] == y);
                }
            }
            if before.to_set().contains(y) {
                let i = choose|i: int| 0 <= i < before.len() && before[i] == y;
                if i < pos {
                    assert(v@[i] == y);
                } else {
                    assert(v@[i + 1] == y);
                }
            }
            if y == x {
                assert(v@[pos as int] == x);
            }
        }
        assert(v@.to_set() =~= before.to_set().insert(x));
        assert(!before.contains(x)) by {
            if before.contains(x) {
                let i = choose|i: int| 0 <= i < before.len() && before[i] == x;
                if i < pos {
                } else if i > pos {
                    assert(before[pos as int] < before[i]);
                }
            }
        }
    }
    true
}

/// Two strictly ascending sequences with the same set of elements are equal.
pub proof fn lemma_strictly_ascending_unique_u128(a: Seq<u128>, b: Seq<u128>)
    requires
        strictly_ascending_u128(a),
        strictly_ascending_u128(b),
        a.to_set() == b.to_set(),
    ensures
        a == b,
    decreases a.len(),
{
    if a.len() == 0 {
        if b.len() > 0 {
            assert(b.to_set().contains(b[0]));
            assert(a.to_set().contains(b[0]));
        }
        assert(a =~= b);
    } else if b.len() == 0 {
        assert(a.to_set().contains(a[0]));
        assert(b.to_set().contains(a[0]));
    } else {
        let la = a.last();
        let lb = b.last();
        assert(a.to_set().contains(la));
        assert(b.to_set().contains(la));
        assert(b.to_set().contains(lb));
        assert(a.to_set().contains(lb));
        let ia = choose|i: int| 0 <= i < a.len() && a[i] == lb;
        let ib = choose|i: int| 0 <= i < b.len() && b[i] == la;
        assert(la == lb);
        let a0 = a.drop_last();
        let b0 = b.drop_last();
        assert forall|x: u128| a0.to_set().contains(x) <==> b0.to_set().contains(x) by {
            if a0.to_set().contains(x) {
                let i = choose|i: int| 0 <= i < a0.len() && a0[i] == x;
                assert(a[i] == x);
                assert(a.to_set().contains(x));
                assert(b.to_set().contains(x));
                let j = choose|j: int| 0 <= j < b.len() && b[j] == x;
                assert(x < la);
                assert(j < b.len() - 1);
                assert(b0[j] == x);
            }
            if b0.to_set().contains(x) {
                let i = choose|i: int| 0 <= i < b0.len() && b0[i] == x;
                assert(b[i] == x);
                assert(b.to_set().contains(x));
                assert(a.to_set().contains(x));
                let j = choose|j: int| 0 <= j < a.len() && a[j] == x;
                assert(x < lb);
                assert(j < a.len() - 1);
                assert(a0[j] == x);
            }
        }
        assert(a0.to_set() =~= b0.to_set());
        lemma_strictly_ascending_unique_u128(a0, b0);
        assert(a =~= a0.push(la));
        assert(b =~= b0.push(lb));
    }
}

} // verus!

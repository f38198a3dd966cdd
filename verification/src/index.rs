//! The model of one index array: what makes it consistent with the buckets
//! it refers to, and how putting a mapping in or taking one out changes it.
//!
//! An index is a ring of slots. A slot is empty or holds the number of a
//! bucket. Each bucket has a home, the slot its key hashes to, and sits at or
//! after its home; how far after is its probe distance.

use vstd::prelude::*;
use vstd::set_lib::{lemma_int_range, lemma_len_subset, lemma_map_size, set_int_range};

verus! {

/// The content of an index slot that refers to no bucket.
pub const EMPTY_SLOT: usize = usize::MAX;

/// How many steps forward lead from `home` to `j` on a ring of `cap` slots.
pub open spec fn dist(j: int, home: int, cap: int) -> int {
    if j >= home {
        j - home
    } else {
        j - home + cap
    }
}

/// The slot `k` steps after `home` on a ring of `cap` slots.
pub open spec fn slot_at(home: int, k: int, cap: int) -> int {
    if home + k < cap {
        home + k
    } else {
        home + k - cap
    }
}

/// The slot after `j` on a ring of `cap` slots.
pub open spec fn next_slot(j: int, cap: int) -> int {
    if j + 1 < cap {
        j + 1
    } else {
        0
    }
}

/// The slot before `j` on a ring of `cap` slots.
pub open spec fn prev_slot(j: int, cap: int) -> int {
    if j > 0 {
        j - 1
    } else {
        cap - 1
    }
}

/// The probe distance of the bucket that sits in slot `j`.
pub open spec fn resident_dist(idx: Seq<usize>, homes: Seq<int>, j: int) -> int {
    dist(j, homes[idx[j] as int], idx.len() as int)
}

/// Some slot of the index refers to bucket `i`.
pub open spec fn covered(idx: Seq<usize>, i: int) -> bool {
    exists|j: int| 0 <= j < idx.len() && #[trigger] idx[j] == i
}

/// Robin Hood ordering at slot `j`: a bucket away from its home has a
/// neighbour in the slot before it, and that neighbour is at most one step
/// closer to its own home.
pub open spec fn ordered_at(idx: Seq<usize>, homes: Seq<int>, j: int) -> bool {
    idx[j] != EMPTY_SLOT && resident_dist(idx, homes, j) > 0 ==> {
        let q = prev_slot(j, idx.len() as int);
        idx[q] != EMPTY_SLOT && resident_dist(idx, homes, q) + 1 >= resident_dist(idx, homes, j)
    }
}

/// The index `idx` is consistent with buckets whose homes are `homes`: every
/// bucket but `missing` is referred to by exactly one slot, no slot refers to
/// anything else, the Robin Hood ordering holds, and a slot is left empty.
/// No bucket is left out where `missing` is negative.
pub open spec fn index_inv(idx: Seq<usize>, homes: Seq<int>, missing: int) -> bool {
    let cap = idx.len() as int;
    let n = homes.len() as int;
    &&& 0 < cap <= usize::MAX
    &&& n <= usize::MAX
    &&& missing < n
    &&& n - (if 0 <= missing { 1int } else { 0int }) < cap
    &&& forall|i: int| 0 <= i < n ==> 0 <= #[trigger] homes[i] < cap
    &&& forall|j: int|
        0 <= j < cap ==> #[trigger] idx[j] == EMPTY_SLOT || (idx[j] < n && idx[j] != missing)
    &&& forall|j1: int, j2: int|
        0 <= j1 < cap && 0 <= j2 < cap && idx[j1] != EMPTY_SLOT && #[trigger] idx[j1]
            == #[trigger] idx[j2] ==> j1 == j2
    &&& forall|i: int| 0 <= i < n && i != missing ==> #[trigger] covered(idx, i)
    &&& forall|j: int| 0 <= j < cap ==> #[trigger] ordered_at(idx, homes, j)
}

/// A search that left `home` is still under way after `k` steps: the slot it
/// looks at holds a bucket that is at least as far from its own home.
pub open spec fn passes(idx: Seq<usize>, homes: Seq<int>, home: int, k: int) -> bool {
    let s = slot_at(home, k, idx.len() as int);
    idx[s] != EMPTY_SLOT && resident_dist(idx, homes, s) >= k
}

/// Slot `p` is where a search from `home` for an absent key ends, and so
/// where that key goes: the first slot on the way that is empty or holds a
/// bucket closer to its home than the key would be.
pub open spec fn insertion_point(idx: Seq<usize>, homes: Seq<int>, home: int, p: int) -> bool {
    let cap = idx.len() as int;
    &&& 0 <= p < cap
    &&& 0 <= home < cap
    &&& idx[p] == EMPTY_SLOT || resident_dist(idx, homes, p) < dist(p, home, cap)
    &&& forall|k: int| 0 <= k < dist(p, home, cap) ==> #[trigger] passes(idx, homes, home, k)
}

/// From `p` on, `m` slots hold buckets and the next one is empty.
pub open spec fn run_to_empty(idx: Seq<usize>, p: int, m: int) -> bool {
    let cap = idx.len() as int;
    &&& 0 <= m < cap
    &&& idx[slot_at(p, m, cap)] == EMPTY_SLOT
    &&& forall|t: int| 0 <= t < m ==> idx[#[trigger] slot_at(p, t, cap)] != EMPTY_SLOT
}

/// The index after bucket `b` went into slot `p` and the `m` buckets from `p`
/// on each moved one slot forward.
pub open spec fn shift_forward(idx: Seq<usize>, p: int, m: int, b: usize) -> Seq<usize> {
    let cap = idx.len() as int;
    Seq::new(
        idx.len(),
        |j: int|
            if j == p {
                b
            } else if dist(j, p, cap) <= m {
                idx[prev_slot(j, cap)]
            } else {
                idx[j]
            },
    )
}

/// After slot `j0`, `t` slots hold buckets that are away from their homes,
/// and the slot after them is empty or holds a bucket at its home.
pub open spec fn run_to_settled(idx: Seq<usize>, homes: Seq<int>, j0: int, t: int) -> bool {
    let cap = idx.len() as int;
    let s = slot_at(j0, t + 1, cap);
    &&& 0 <= t < cap - 1 || (t == 0 && cap == 1)
    &&& s == j0 || idx[s] == EMPTY_SLOT || resident_dist(idx, homes, s) == 0
    &&& forall|u: int|
        1 <= u <= t ==> {
            let q = #[trigger] slot_at(j0, u, cap);
            idx[q] != EMPTY_SLOT && resident_dist(idx, homes, q) > 0
        }
}

/// The index after slot `j0` was emptied and the `t` buckets after it each
/// moved one slot backward.
pub open spec fn shift_backward(idx: Seq<usize>, j0: int, t: int) -> Seq<usize> {
    let cap = idx.len() as int;
    Seq::new(
        idx.len(),
        |j: int|
            if dist(j, j0, cap) < t {
                idx[next_slot(j, cap)]
            } else if dist(j, j0, cap) == t {
                EMPTY_SLOT
            } else {
                idx[j]
            },
    )
}

/// An index that is consistent has an empty slot.
pub proof fn lemma_has_empty(idx: Seq<usize>, homes: Seq<int>, missing: int)
    requires
        index_inv(idx, homes, missing),
    ensures
        exists|e: int| 0 <= e < idx.len() && #[trigger] idx[e] == EMPTY_SLOT,
{
    let cap = idx.len() as int;
    let n = homes.len() as int;
    if forall|e: int| 0 <= e < cap ==> #[trigger] idx[e] != EMPTY_SLOT {
        let slots = set_int_range(0, cap);
        let f = |j: int| idx[j] as int;
        let image = slots.map(f);
        lemma_int_range(0, cap);
        assert forall|x1: int, x2: int|
            slots.contains(x1) && slots.contains(x2) && #[trigger] f(x1) == #[trigger] f(
                x2,
            ) implies x1 == x2 by {
            assert(idx[x1] == idx[x2]);
        }
        lemma_map_size(slots, image, f);
        let all = set_int_range(0, n);
        lemma_int_range(0, n);
        assert forall|v: int| image.contains(v) implies all.contains(v) && v != missing by {
            let j = choose|j: int| slots.contains(j) && v == f(j);
            assert(idx[j] != EMPTY_SLOT);
        }
        if 0 <= missing {
            let rest = all.remove(missing);
            assert(image.subset_of(rest));
            lemma_len_subset(image, rest);
        } else {
            assert(image.subset_of(all));
            lemma_len_subset(image, all);
        }
    }
}

/// With slot `e` empty, the home of the bucket in slot `j` lies after `e`
/// and at or before `j`: no search path runs over an empty slot.
pub proof fn lemma_home_after_empty(idx: Seq<usize>, homes: Seq<int>, missing: int, e: int, j: int)
    requires
        index_inv(idx, homes, missing),
        0 <= e < idx.len(),
        0 <= j < idx.len(),
        idx[e] == EMPTY_SLOT,
        idx[j] != EMPTY_SLOT,
    ensures
        resident_dist(idx, homes, j) < dist(j, e, idx.len() as int),
    decreases dist(j, e, idx.len() as int),
{
    let cap = idx.len() as int;
    assert(ordered_at(idx, homes, j));
    if resident_dist(idx, homes, j) > 0 {
        let q = prev_slot(j, cap);
        lemma_home_after_empty(idx, homes, missing, e, q);
    }
}

/// Every slot between the home of a bucket and the bucket itself holds a
/// bucket that is at least as far from its own home as that slot is from the
/// first bucket's home.
pub proof fn lemma_path(idx: Seq<usize>, homes: Seq<int>, missing: int, j: int, k: int)
    requires
        index_inv(idx, homes, missing),
        0 <= j < idx.len(),
        idx[j] != EMPTY_SLOT,
        0 <= k <= resident_dist(idx, homes, j),
    ensures
        passes(idx, homes, homes[idx[j] as int], k),
    decreases resident_dist(idx, homes, j) - k,
{
    let cap = idx.len() as int;
    let home = homes[idx[j] as int];
    if k < resident_dist(idx, homes, j) {
        lemma_path(idx, homes, missing, j, k + 1);
        let s = slot_at(home, k + 1, cap);
        assert(ordered_at(idx, homes, s));
        assert(prev_slot(s, cap) == slot_at(home, k, cap));
    }
}

/// Putting the missing bucket `b` in at its insertion point, and moving the
/// run of buckets from there one slot forward, gives a consistent index in
/// which no bucket is missing.
pub proof fn lemma_insert_keeps_inv(idx: Seq<usize>, homes: Seq<int>, b: int, p: int, m: int)
    requires
        index_inv(idx, homes, b),
        0 <= b < homes.len() < idx.len(),
        insertion_point(idx, homes, homes[b], p),
        run_to_empty(idx, p, m),
    ensures
        index_inv(shift_forward(idx, p, m, b as usize), homes, -1),
{
    let cap = idx.len() as int;
    let n = homes.len() as int;
    let after = shift_forward(idx, p, m, b as usize);
    let e = slot_at(p, m, cap);
    let k = dist(p, homes[b], cap);
    // A bucket that moved is one step further from its home than before.
    assert forall|j: int| 0 <= j < cap && 0 < dist(j, p, cap) <= m implies {
        let q = prev_slot(j, cap);
        &&& idx[q] != EMPTY_SLOT
        &&& after[j] == idx[q]
        &&& #[trigger] resident_dist(after, homes, j) == resident_dist(idx, homes, q) + 1
    } by {
        let q = prev_slot(j, cap);
        assert(q == slot_at(p, dist(j, p, cap) - 1, cap));
        lemma_home_after_empty(idx, homes, b, e, q);
    }
    assert forall|j: int| 0 <= j < cap implies #[trigger] ordered_at(after, homes, j) by {
        let q = prev_slot(j, cap);
        assert(ordered_at(idx, homes, j));
        assert(ordered_at(idx, homes, q));
        if j == p {
            if k > 0 {
                assert(passes(idx, homes, homes[b], k - 1));
                assert(q == slot_at(homes[b], k - 1, cap));
            }
        } else if dist(j, p, cap) <= m {
            assert(resident_dist(after, homes, j) == resident_dist(idx, homes, q) + 1);
            if q != p {
                assert(resident_dist(after, homes, q) == resident_dist(
                    idx,
                    homes,
                    prev_slot(q, cap),
                ) + 1);
            }
        } else {
        }
    }
    assert forall|i: int| 0 <= i < n implies #[trigger] covered(after, i) by {
        if i == b {
            assert(after[p] == i);
        } else {
            assert(covered(idx, i));
            let j = choose|j: int| 0 <= j < cap && #[trigger] idx[j] == i;
            let w = if dist(j, p, cap) < m {
                next_slot(j, cap)
            } else {
                j
            };
            assert(after[w] == i);
        }
    }
    assert forall|j1: int, j2: int|
        0 <= j1 < cap && 0 <= j2 < cap && after[j1] != EMPTY_SLOT && #[trigger] after[j1]
            == #[trigger] after[j2] implies j1 == j2 by {
        let s1 = if j1 != p && dist(j1, p, cap) <= m {
            prev_slot(j1, cap)
        } else {
            j1
        };
        let s2 = if j2 != p && dist(j2, p, cap) <= m {
            prev_slot(j2, cap)
        } else {
            j2
        };
        assert(j1 != p ==> after[j1] == idx[s1]);
        assert(j2 != p ==> after[j2] == idx[s2]);
    }
}

/// Emptying the slot of a bucket, and moving the run of displaced buckets
/// after it one slot backward, gives an index that is consistent when that
/// bucket is left out.
pub proof fn lemma_delete_keeps_inv(idx: Seq<usize>, homes: Seq<int>, j0: int, t: int)
    requires
        index_inv(idx, homes, -1),
        0 <= j0 < idx.len(),
        idx[j0] != EMPTY_SLOT,
        run_to_settled(idx, homes, j0, t),
    ensures
        index_inv(shift_backward(idx, j0, t), homes, idx[j0] as int),
{
    let cap = idx.len() as int;
    let n = homes.len() as int;
    let after = shift_backward(idx, j0, t);
    let gone = idx[j0];
    assert forall|j: int| 0 <= j < cap && dist(j, j0, cap) < t implies {
        let q = next_slot(j, cap);
        &&& idx[q] != EMPTY_SLOT
        &&& after[j] == idx[q]
        &&& resident_dist(idx, homes, q) > 0
        &&& #[trigger] resident_dist(after, homes, j) == resident_dist(idx, homes, q) - 1
    } by {
        let q = next_slot(j, cap);
        assert(q == slot_at(j0, dist(j, j0, cap) + 1, cap));
    }
    assert forall|j: int| 0 <= j < cap implies #[trigger] ordered_at(after, homes, j) by {
        let q = prev_slot(j, cap);
        let r = next_slot(j, cap);
        assert(ordered_at(idx, homes, j));
        assert(ordered_at(idx, homes, r));
        if dist(j, j0, cap) < t {
            assert(resident_dist(after, homes, j) == resident_dist(idx, homes, r) - 1);
            if j != j0 {
                assert(resident_dist(after, homes, q) == resident_dist(idx, homes, j) - 1);
            }
        } else if dist(j, j0, cap) > t {
            if j == slot_at(j0, t + 1, cap) {
            }
        }
    }
    assert forall|i: int| 0 <= i < n && i != gone implies #[trigger] covered(after, i) by {
        assert(covered(idx, i));
        let j = choose|j: int| 0 <= j < cap && #[trigger] idx[j] == i;
        let w = if 1 <= dist(j, j0, cap) <= t {
            prev_slot(j, cap)
        } else {
            j
        };
        assert(after[w] == i);
    }
    assert forall|j1: int, j2: int|
        0 <= j1 < cap && 0 <= j2 < cap && after[j1] != EMPTY_SLOT && #[trigger] after[j1]
            == #[trigger] after[j2] implies j1 == j2 by {
        let s1 = if dist(j1, j0, cap) < t {
            next_slot(j1, cap)
        } else {
            j1
        };
        let s2 = if dist(j2, j0, cap) < t {
            next_slot(j2, cap)
        } else {
            j2
        };
        assert(after[j1] == idx[s1]);
        assert(dist(j2, j0, cap) != t ==> after[j2] == idx[s2]);
    }
    assert forall|j: int| 0 <= j < cap implies #[trigger] after[j] == EMPTY_SLOT || (after[j] < n
        && after[j] != gone) by {
        let s = if dist(j, j0, cap) < t {
            next_slot(j, cap)
        } else {
            j
        };
        if dist(j, j0, cap) != t {
            assert(after[j] == idx[s]);
            assert(s != j0);
        }
    }
}

/// Pointing the slot of the last bucket at bucket `m` instead, when `m` is
/// missing and takes over the last bucket's key, gives a consistent index
/// for one bucket less.
pub proof fn lemma_repoint_keeps_inv(idx: Seq<usize>, homes: Seq<int>, m: int, q: int)
    requires
        index_inv(idx, homes, m),
        0 <= m < homes.len() - 1,
        0 <= q < idx.len(),
        idx[q] == homes.len() - 1,
    ensures
        index_inv(
            idx.update(q, m as usize),
            homes.update(m, homes[homes.len() - 1]).drop_last(),
            -1,
        ),
{
    let cap = idx.len() as int;
    let n = homes.len() as int;
    let after = idx.update(q, m as usize);
    let moved = homes.update(m, homes[n - 1]).drop_last();
    assert forall|j: int| 0 <= j < cap && after[j] != EMPTY_SLOT implies #[trigger] resident_dist(
        after,
        moved,
        j,
    ) == resident_dist(idx, homes, j) && idx[j] != EMPTY_SLOT by {
        if j != q {
            assert(idx[j] == after[j]);
            assert(idx[j] != idx[q]);
        }
    }
    assert forall|j: int| 0 <= j < cap implies #[trigger] ordered_at(after, moved, j) by {
        assert(ordered_at(idx, homes, j));
        let p = prev_slot(j, cap);
        if after[j] != EMPTY_SLOT && resident_dist(after, moved, j) > 0 {
            assert(resident_dist(after, moved, j) == resident_dist(idx, homes, j));
            assert(idx[p] != EMPTY_SLOT);
            assert(after[p] != EMPTY_SLOT);
            assert(resident_dist(after, moved, p) == resident_dist(idx, homes, p));
        }
    }
    assert forall|i: int| 0 <= i < n - 1 implies #[trigger] covered(after, i) by {
        if i == m {
            assert(after[q] == i);
        } else {
            assert(covered(idx, i));
            let j = choose|j: int| 0 <= j < cap && #[trigger] idx[j] == i;
            assert(after[j] == i);
        }
    }
    assert forall|j1: int, j2: int|
        0 <= j1 < cap && 0 <= j2 < cap && after[j1] != EMPTY_SLOT && #[trigger] after[j1]
            == #[trigger] after[j2] implies j1 == j2 by {
        assert(j1 != q ==> after[j1] == idx[j1]);
        assert(j2 != q ==> after[j2] == idx[j2]);
    }
    assert forall|j: int| 0 <= j < cap implies #[trigger] after[j] == EMPTY_SLOT || (after[j] < n
        - 1) by {
        if j != q {
            assert(after[j] == idx[j]);
            assert(idx[j] != idx[q]);
        }
    }
}

/// An index that is consistent with the last bucket left out is consistent
/// with the buckets before it.
pub proof fn lemma_drop_last_keeps_inv(idx: Seq<usize>, homes: Seq<int>)
    requires
        homes.len() > 0,
        index_inv(idx, homes, homes.len() - 1),
    ensures
        index_inv(idx, homes.drop_last(), -1),
{
    let cap = idx.len() as int;
    let fewer = homes.drop_last();
    assert forall|j: int| 0 <= j < cap implies #[trigger] ordered_at(idx, fewer, j) by {
        assert(ordered_at(idx, homes, j));
    }
}

/// A consistent index stays consistent when one more bucket is counted and
/// left out.
pub proof fn lemma_push_keeps_inv(idx: Seq<usize>, homes: Seq<int>, home: int)
    requires
        index_inv(idx, homes, -1),
        0 <= home < idx.len(),
        homes.len() < usize::MAX,
    ensures
        index_inv(idx, homes.push(home), homes.len() as int),
{
    let cap = idx.len() as int;
    let more = homes.push(home);
    assert forall|j: int| 0 <= j < cap implies #[trigger] ordered_at(idx, more, j) by {
        assert(ordered_at(idx, homes, j));
    }
}

/// The home of the bucket that is left out does not matter.
pub proof fn lemma_rehome_missing(idx: Seq<usize>, homes: Seq<int>, m: int, home: int)
    requires
        index_inv(idx, homes, m),
        0 <= m,
        0 <= home < idx.len(),
    ensures
        index_inv(idx, homes.update(m, home), m),
{
    let cap = idx.len() as int;
    let other = homes.update(m, home);
    assert forall|j: int| 0 <= j < cap implies #[trigger] ordered_at(idx, other, j) by {
        assert(ordered_at(idx, homes, j));
    }
}

/// A search for an absent key ends at one slot only.
pub proof fn lemma_insertion_point_unique(
    idx: Seq<usize>,
    homes: Seq<int>,
    home: int,
    first: int,
    second: int,
)
    requires
        insertion_point(idx, homes, home, first),
        insertion_point(idx, homes, home, second),
    ensures
        first == second,
{
    let cap = idx.len() as int;
    let d1 = dist(first, home, cap);
    let d2 = dist(second, home, cap);
    if d1 < d2 {
        assert(passes(idx, homes, home, d1));
    }
    if d2 < d1 {
        assert(passes(idx, homes, home, d2));
    }
}

/// Two lists of homes that agree on every bucket the index refers to give
/// the same insertion points.
pub proof fn lemma_insertion_point_stable(
    idx: Seq<usize>,
    homes: Seq<int>,
    other: Seq<int>,
    home: int,
    p: int,
)
    requires
        insertion_point(idx, homes, home, p),
        forall|j: int|
            0 <= j < idx.len() && #[trigger] idx[j] != EMPTY_SLOT ==> homes[idx[j] as int]
                == other[idx[j] as int],
    ensures
        insertion_point(idx, other, home, p),
{
    let cap = idx.len() as int;
    assert forall|k: int| 0 <= k < dist(p, home, cap) implies #[trigger] passes(
        idx,
        other,
        home,
        k,
    ) by {
        assert(passes(idx, homes, home, k));
    }
}

/// Counting one more bucket and putting it in at its insertion point gives
/// a consistent index.
pub proof fn lemma_insert_new_keeps_inv(
    idx: Seq<usize>,
    homes: Seq<int>,
    home: int,
    p: int,
    m: int,
)
    requires
        index_inv(idx, homes, -1),
        homes.len() + 1 < idx.len(),
        insertion_point(idx, homes, home, p),
        run_to_empty(idx, p, m),
    ensures
        index_inv(shift_forward(idx, p, m, homes.len() as usize), homes.push(home), -1),
{
    lemma_push_keeps_inv(idx, homes, home);
    lemma_insertion_point_stable(idx, homes, homes.push(home), home, p);
    lemma_insert_keeps_inv(idx, homes.push(home), homes.len() as int, p, m);
}

/// An index of empty slots is consistent with no buckets.
pub proof fn lemma_empty_index_inv(idx: Seq<usize>, homes: Seq<int>)
    requires
        0 < idx.len() <= usize::MAX,
        homes.len() == 0,
        forall|j: int| 0 <= j < idx.len() ==> #[trigger] idx[j] == EMPTY_SLOT,
    ensures
        index_inv(idx, homes, -1),
{
    assert forall|j: int| 0 <= j < idx.len() implies #[trigger] ordered_at(idx, homes, j) by {}
}

/// The slots of the index that hold a bucket.
pub open spec fn occupied_slots(idx: Seq<usize>) -> Set<int> {
    Set::new(|j: int| 0 <= j < idx.len() && idx[j] != EMPTY_SLOT)
}

/// A consistent index from which no bucket is missing has as many occupied
/// slots as there are buckets.
pub proof fn lemma_occupied_count(idx: Seq<usize>, homes: Seq<int>)
    requires
        index_inv(idx, homes, -1),
    ensures
        occupied_slots(idx).finite(),
        occupied_slots(idx).len() == homes.len(),
{
    let cap = idx.len() as int;
    let n = homes.len() as int;
    let slots = occupied_slots(idx);
    let f = |j: int| idx[j] as int;
    lemma_int_range(0, cap);
    lemma_int_range(0, n);
    assert(slots.subset_of(set_int_range(0, cap)));
    lemma_len_subset(slots, set_int_range(0, cap));
    assert forall|x1: int, x2: int|
        slots.contains(x1) && slots.contains(x2) && #[trigger] f(x1) == #[trigger] f(
            x2,
        ) implies x1 == x2 by {
        assert(idx[x1] == idx[x2]);
    }
    assert forall|i: int| set_int_range(0, n).contains(i) implies slots.map(f).contains(i) by {
        assert(covered(idx, i));
        let j = choose|j: int| 0 <= j < cap && #[trigger] idx[j] == i;
        assert(slots.contains(j) && f(j) == i);
    }
    assert forall|i: int| slots.map(f).contains(i) implies set_int_range(0, n).contains(i) by {
        let j = choose|j: int| slots.contains(j) && i == f(j);
        assert(idx[j] != EMPTY_SLOT);
    }
    assert(slots.map(f) =~= set_int_range(0, n));
    lemma_map_size(slots, set_int_range(0, n), f);
}

/// The slot at which a search from `home` for an absent key ends.
pub open spec fn insertion_slot(idx: Seq<usize>, homes: Seq<int>, home: int) -> int {
    choose|p: int| insertion_point(idx, homes, home, p)
}

/// How many buckets sit from `p` on, up to the next empty slot.
pub open spec fn run_length(idx: Seq<usize>, p: int) -> int {
    choose|m: int| run_to_empty(idx, p, m)
}

/// The index after a bucket whose home is `home` went in under the number
/// `b`: it sits at its insertion point, and the run of buckets from there on
/// has moved one slot forward.
pub open spec fn with_mapping(idx: Seq<usize>, homes: Seq<int>, home: int, b: usize) -> Seq<
    usize,
> {
    let p = insertion_slot(idx, homes, home);
    shift_forward(idx, p, run_length(idx, p), b)
}

/// The slot that refers to bucket `b`.
pub open spec fn slot_of(idx: Seq<usize>, b: int) -> int {
    choose|j: int| 0 <= j < idx.len() && idx[j] == b
}

/// How many displaced buckets follow slot `j0` without a gap.
pub open spec fn settled_length(idx: Seq<usize>, homes: Seq<int>, j0: int) -> int {
    choose|t: int| run_to_settled(idx, homes, j0, t)
}

/// The index after the mapping of bucket `b` left it: its slot was emptied
/// and the displaced buckets behind it have moved one slot backward.
pub open spec fn without_mapping(idx: Seq<usize>, homes: Seq<int>, b: int) -> Seq<usize> {
    let j0 = slot_of(idx, b);
    shift_backward(idx, j0, settled_length(idx, homes, j0))
}

/// The index after bucket `b` left the store: its mapping has left the
/// index, and the last bucket, which took its slot in the store, is referred
/// to by the number `b`.
pub open spec fn without_bucket(idx: Seq<usize>, homes: Seq<int>, b: int) -> Seq<usize> {
    let rest = without_mapping(idx, homes, b);
    let last = homes.len() - 1;
    if b == last {
        rest
    } else {
        rest.update(slot_of(rest, last), b as usize)
    }
}

/// The index after bucket `b` changed its key to one whose home is `home`:
/// its old mapping has left the index and its new mapping has gone in.
pub open spec fn with_moved_mapping(idx: Seq<usize>, homes: Seq<int>, b: int, home: int) -> Seq<
    usize,
> {
    with_mapping(without_mapping(idx, homes, b), homes.update(b, home), home, b as usize)
}

/// The index of `cap` slots that holds the first `n` buckets, put in one
/// after the other in the order of their numbers.
pub open spec fn rebuilt(homes: Seq<int>, cap: nat, n: int) -> Seq<usize>
    decreases n,
{
    if n <= 0 {
        Seq::new(cap, |j: int| EMPTY_SLOT)
    } else {
        with_mapping(rebuilt(homes, cap, n - 1), homes, homes[n - 1], (n - 1) as usize)
    }
}

/// A run of buckets has one length only.
pub proof fn lemma_run_length_unique(idx: Seq<usize>, p: int, m1: int, m2: int)
    requires
        0 <= p < idx.len(),
        run_to_empty(idx, p, m1),
        run_to_empty(idx, p, m2),
    ensures
        m1 == m2,
{
    let cap = idx.len() as int;
    if m1 < m2 {
        assert(idx[slot_at(p, m1, cap)] != EMPTY_SLOT);
    }
    if m2 < m1 {
        assert(idx[slot_at(p, m2, cap)] != EMPTY_SLOT);
    }
}

/// A bucket that goes in at the insertion point `p`, before a run of `m`
/// buckets, gives the index that [`with_mapping`] names.
pub proof fn lemma_with_mapping(
    idx: Seq<usize>,
    homes: Seq<int>,
    home: int,
    b: usize,
    p: int,
    m: int,
)
    requires
        insertion_point(idx, homes, home, p),
        run_to_empty(idx, p, m),
    ensures
        with_mapping(idx, homes, home, b) == shift_forward(idx, p, m, b),
{
    let second = insertion_slot(idx, homes, home);
    lemma_insertion_point_unique(idx, homes, home, p, second);
    let m2 = run_length(idx, p);
    lemma_run_length_unique(idx, p, m, m2);
}

/// A run of displaced buckets has one length only.
pub proof fn lemma_settled_length_unique(
    idx: Seq<usize>,
    homes: Seq<int>,
    j0: int,
    t1: int,
    t2: int,
)
    requires
        0 <= j0 < idx.len(),
        run_to_settled(idx, homes, j0, t1),
        run_to_settled(idx, homes, j0, t2),
    ensures
        t1 == t2,
{
    let cap = idx.len() as int;
    if t1 < t2 {
        let q = slot_at(j0, t1 + 1, cap);
        assert(idx[q] != EMPTY_SLOT && resident_dist(idx, homes, q) > 0);
    }
    if t2 < t1 {
        let q = slot_at(j0, t2 + 1, cap);
        assert(idx[q] != EMPTY_SLOT && resident_dist(idx, homes, q) > 0);
    }
}

/// Emptying slot `j0` and moving the `t` displaced buckets behind it gives
/// the index that [`without_mapping`] names.
pub proof fn lemma_without_mapping(
    idx: Seq<usize>,
    homes: Seq<int>,
    missing: int,
    j0: int,
    t: int,
)
    requires
        index_inv(idx, homes, missing),
        0 <= j0 < idx.len(),
        idx[j0] != EMPTY_SLOT,
        run_to_settled(idx, homes, j0, t),
    ensures
        slot_of(idx, idx[j0] as int) == j0,
        without_mapping(idx, homes, idx[j0] as int) == shift_backward(idx, j0, t),
{
    let j = slot_of(idx, idx[j0] as int);
    assert(idx[j] == idx[j0]);
    lemma_settled_length_unique(idx, homes, j0, t, settled_length(idx, homes, j0));
}

} // verus!

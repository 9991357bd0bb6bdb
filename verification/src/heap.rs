use vstd::prelude::*;

verus! {

/// One heap entry: a vertex id together with its priority.
pub type HeapEntry = (u32, u64);

/// Index of the parent of heap slot `i`.
pub open spec fn parent_of(i: int) -> int {
    (i - 1) / 2
}

/// The smaller of two priorities.
pub open spec fn min64(a: u64, b: u64) -> u64 {
    if a <= b {
        a
    } else {
        b
    }
}

/// The binary min-heap shape: every non-root slot has a priority no smaller
/// than its parent's.
pub open spec fn is_min_heap(s: Seq<HeapEntry>) -> bool {
    forall|i: int| 1 <= i < s.len() ==> s[parent_of(i)].1 <= (#[trigger] s[i]).1
}

/// The heap shape holds everywhere except possibly on the edge from `j`'s
/// parent down to `j` (the state while an entry sifts up).
pub open spec fn heap_except_at(s: Seq<HeapEntry>, j: int) -> bool {
    forall|i: int| 1 <= i < s.len() && i != j ==> s[parent_of(i)].1 <= (#[trigger] s[i]).1
}

/// The heap shape holds everywhere except possibly on the edges from `j` down
/// to `j`'s children (the state while an entry sifts down).
pub open spec fn heap_except_below(s: Seq<HeapEntry>, j: int) -> bool {
    forall|i: int| 1 <= i < s.len() && parent_of(i) != j ==> s[parent_of(i)].1 <= (#[trigger] s[i]).1
}

/// While slot `j` is out of place, its children are still bounded below by
/// `j`'s parent.
pub open spec fn children_above_grandparent(s: Seq<HeapEntry>, j: int) -> bool {
    j > 0 ==> forall|i: int|
        1 <= i < s.len() && parent_of(i) == j ==> s[parent_of(j)].1 <= (#[trigger] s[i]).1
}

/// No two entries carry the same vertex id.
pub open spec fn keys_distinct(s: Seq<HeapEntry>) -> bool {
    forall|i: int, j: int| 0 <= i < j < s.len() ==> (#[trigger] s[i]).0 != (#[trigger] s[j]).0
}

/// Some entry carries vertex id `k`.
pub open spec fn has_key(s: Seq<HeapEntry>, k: u32) -> bool {
    exists|i: int| 0 <= i < s.len() && (#[trigger] s[i]).0 == k
}

/// The priority stored for vertex id `k`; meaningful when `has_key` holds and
/// the keys are distinct.
pub open spec fn key_priority(s: Seq<HeapEntry>, k: u32) -> u64 {
    s[choose|i: int| 0 <= i < s.len() && (#[trigger] s[i]).0 == k].1
}

/// Whether slot `j` lies on the walk from slot `i` up to the root.
#[verifier::opaque]
pub open spec fn on_root_path(j: int, i: int) -> bool
    decreases i,
{
    if i <= 0 {
        j == i
    } else {
        j == i || on_root_path(j, parent_of(i))
    }
}

/// The root walk is closed under taking parents.
proof fn lemma_on_path_parent(j: int, i: int)
    requires
        on_root_path(j, i),
        j > 0,
    ensures
        on_root_path(parent_of(j), i),
    decreases i,
{
    reveal(on_root_path);
    if i <= 0 {
    } else if j == i {
        assert(on_root_path(parent_of(i), parent_of(i)));
    } else {
        lemma_on_path_parent(j, parent_of(i));
    }
}

/// The root of a min-heap carries a minimal priority.
pub proof fn lemma_root_min(s: Seq<HeapEntry>, i: int)
    requires
        is_min_heap(s),
        0 <= i < s.len(),
    ensures
        s[0].1 <= s[i].1,
    decreases i,
{
    if i > 0 {
        lemma_root_min(s, parent_of(i));
    }
}

/// With distinct keys, any entry carrying key `k` stores `key_priority`.
pub proof fn lemma_key_priority(s: Seq<HeapEntry>, k: u32, i: int)
    requires
        keys_distinct(s),
        0 <= i < s.len(),
        s[i].0 == k,
    ensures
        has_key(s, k),
        key_priority(s, k) == s[i].1,
{
    assert(has_key(s, k));
    let j = choose|j: int| 0 <= j < s.len() && (#[trigger] s[j]).0 == k;
    assert(j == i);
}

/// Popped priorities never decrease: everything left in the heap after the
/// root is removed outweighs the root, so draining a heap yields a
/// non-decreasing priority sequence.
pub proof fn lemma_pop_monotone(s: Seq<HeapEntry>, e: HeapEntry)
    requires
        is_min_heap(s),
        s.len() > 0,
        s.to_multiset().remove(s[0]).count(e) > 0,
    ensures
        s[0].1 <= e.1,
{
    broadcast use vstd::seq_lib::group_to_multiset_ensures;
    broadcast use vstd::multiset::group_multiset_axioms;

    assert(s.to_multiset().count(e) > 0);
    assert(s.contains(e));
    let i = choose|i: int| 0 <= i < s.len() && s[i] == e;
    lemma_root_min(s, i);
}

/// With distinct keys an entry is determined by its key alone: whoever finds
/// key `k` in the heap reads exactly `key_priority`, never a stale value.
pub proof fn lemma_entry_priority_unique(s: Seq<HeapEntry>, i: int)
    requires
        keys_distinct(s),
        0 <= i < s.len(),
    ensures
        s[i].1 == key_priority(s, s[i].0),
{
    lemma_key_priority(s, s[i].0, i);
}

/// After swapping an out-of-place slot `i` with its smaller child `c`, the
/// disturbance moves down to `c`.
proof fn lemma_sift_down_swap(s: Seq<HeapEntry>, i: int, c: int)
    requires
        0 <= i < s.len(),
        1 <= c < s.len(),
        parent_of(c) == i,
        heap_except_below(s, i),
        children_above_grandparent(s, i),
        s[c].1 < s[i].1,
        forall|j: int| 1 <= j < s.len() && parent_of(j) == i ==> s[c].1 <= (#[trigger] s[j]).1,
    ensures
        heap_except_below(s.update(i, s[c]).update(c, s[i]), c),
        children_above_grandparent(s.update(i, s[c]).update(c, s[i]), c),
{
    let t = s.update(i, s[c]).update(c, s[i]);
    assert forall|j: int|
        1 <= j < t.len() && parent_of(j) != c implies t[parent_of(j)].1 <= (#[trigger] t[j]).1 by {
        if j == c {
            assert(t[i].1 == s[c].1 && t[c].1 == s[i].1);
        } else if parent_of(j) == i {
            assert(t[j] == s[j]);
        } else if j == i {
            assert(t[j] == s[c]);
            if i > 0 {
                assert(s[parent_of(i)].1 <= s[c].1);
            }
        } else {
            assert(t[j] == s[j] && t[parent_of(j)] == s[parent_of(j)]);
        }
    }
    if c > 0 {
        assert forall|j: int|
            1 <= j < t.len() && parent_of(j) == c implies t[parent_of(c)].1 <= (
        #[trigger] t[j]).1 by {
            assert(t[j] == s[j]);
            assert(s[parent_of(j)].1 <= s[j].1);
            assert(t[parent_of(c)].1 == s[c].1);
        }
    }
}

/// Once the sifted slot is no larger than its children, the whole sequence is
/// back in heap shape.
proof fn lemma_sift_down_done(s: Seq<HeapEntry>, i: int)
    requires
        0 <= i < s.len(),
        heap_except_below(s, i),
        forall|j: int| 1 <= j < s.len() && parent_of(j) == i ==> s[i].1 <= (#[trigger] s[j]).1,
    ensures
        is_min_heap(s),
{
}

/// Removing the root of a heap by swapping in the last entry disturbs the
/// shape only below the root, and removes exactly the root from the contents.
#[verifier::rlimit(100)]
#[verifier::spinoff_prover]
proof fn lemma_swap_remove_root(s: Seq<HeapEntry>, t: Seq<HeapEntry>)
    requires
        s.len() >= 2,
        is_min_heap(s),
        t == s.update(0, s.last()).drop_last(),
    ensures
        t.len() == s.len() - 1,
        t.to_multiset() == s.to_multiset().remove(s[0]),
        heap_except_below(t, 0),
        children_above_grandparent(t, 0),
        forall|k: u32| has_key(t, k) ==> has_key(s, k),
        forall|k: u32| has_key(s, k) && k != s[0].0 ==> has_key(t, k),
        keys_distinct(s) ==> keys_distinct(t) && !has_key(t, s[0].0),
{
    assert(t.to_multiset() == s.to_multiset().remove(s[0])) by {
        broadcast use vstd::seq_lib::group_to_multiset_ensures;
        broadcast use vstd::multiset::group_multiset_axioms;

        let s1 = s.update(0, s.last());
        assert(t =~= s1.remove(s1.len() - 1));
        assert(t.to_multiset() =~= s.to_multiset().remove(s[0]));
    }
    assert forall|j: int|
        1 <= j < t.len() && parent_of(j) != 0 implies t[parent_of(j)].1 <= (#[trigger] t[j]).1 by {
        assert(t[j] == s[j]);
        assert(t[parent_of(j)] == s[parent_of(j)]);
    }
    assert forall|k: u32| has_key(t, k) implies has_key(s, k) by {
        let i0 = choose|i0: int| 0 <= i0 < t.len() && (#[trigger] t[i0]).0 == k;
        if i0 == 0 {
            assert(s[s.len() - 1].0 == k);
        } else {
            assert(s[i0].0 == k);
        }
    }
    assert forall|k: u32| has_key(s, k) && k != s[0].0 implies has_key(t, k) by {
        let i0 = choose|i0: int| 0 <= i0 < s.len() && (#[trigger] s[i0]).0 == k;
        if i0 == s.len() - 1 {
            assert(t[0].0 == k);
        } else {
            assert(t[i0].0 == k);
        }
    }
    if keys_distinct(s) {
        assert forall|i: int, j: int|
            0 <= i < j < t.len() implies (#[trigger] t[i]).0 != (#[trigger] t[j]).0 by {
            if i == 0 {
                assert(t[0] == s[s.len() - 1]);
                assert(t[j] == s[j]);
            } else {
                assert(t[i] == s[i]);
                assert(t[j] == s[j]);
            }
        }
        assert(!has_key(t, s[0].0)) by {
            if has_key(t, s[0].0) {
                let i0 = choose|i0: int| 0 <= i0 < t.len() && (#[trigger] t[i0]).0 == s[0].0;
                if i0 == 0 {
                    assert(s[s.len() - 1].0 == s[0].0);
                } else {
                    assert(s[i0].0 == s[0].0);
                }
            }
        }
    }
}

/// Exchanges two heap slots.
fn swap_entries(vec: &mut Vec<HeapEntry>, i: usize, j: usize)
    requires
        i < old(vec)@.len(),
        j < old(vec)@.len(),
        i != j,
    ensures
        final(vec)@ == old(vec)@.update(i as int, old(vec)@[j as int]).update(
            j as int,
            old(vec)@[i as int],
        ),
        final(vec)@.to_multiset() == old(vec)@.to_multiset(),
        final(vec)@.len() == old(vec)@.len(),
        keys_distinct(old(vec)@) ==> keys_distinct(final(vec)@),
        forall|k: u32| has_key(final(vec)@, k) == has_key(old(vec)@, k),
{
    let a = vec[i];
    let b = vec[j];
    vec.set(i, b);
    vec.set(j, a);
    proof {
        broadcast use vstd::seq_lib::group_to_multiset_ensures;
        broadcast use vstd::multiset::group_multiset_axioms;

        let s = old(vec)@;
        let t = vec@;
        assert(t.to_multiset() =~= s.to_multiset());
        assert forall|k: u32| has_key(t, k) == has_key(s, k) by {
            if has_key(s, k) {
                let i0 = choose|i0: int| 0 <= i0 < s.len() && (#[trigger] s[i0]).0 == k;
                if i0 == i as int {
                    assert(t[j as int].0 == k);
                } else if i0 == j as int {
                    assert(t[i as int].0 == k);
                } else {
                    assert(t[i0].0 == k);
                }
            }
            if has_key(t, k) {
                let i0 = choose|i0: int| 0 <= i0 < t.len() && (#[trigger] t[i0]).0 == k;
                if i0 == i as int {
                    assert(s[j as int].0 == k);
                } else if i0 == j as int {
                    assert(s[i as int].0 == k);
                } else {
                    assert(s[i0].0 == k);
                }
            }
        }
    }
}

/// Restores the min-heap shape by sifting the entry at `index` toward the
/// root, as long as its priority is below its parent's.
#[verifier::rlimit(100)]
#[verifier::spinoff_prover]
pub fn heapify_up(vec: &mut Vec<HeapEntry>, index: usize)
    requires
        index < old(vec)@.len(),
        heap_except_at(old(vec)@, index as int),
        children_above_grandparent(old(vec)@, index as int),
    ensures
        is_min_heap(final(vec)@),
        final(vec)@.len() == old(vec)@.len(),
        final(vec)@.to_multiset() == old(vec)@.to_multiset(),
        keys_distinct(old(vec)@) ==> keys_distinct(final(vec)@),
        forall|k: u32| has_key(final(vec)@, k) == has_key(old(vec)@, k),
        forall|j: int|
            0 <= j < old(vec)@.len() && !on_root_path(j, index as int) ==> final(vec)@[j] == old(
                vec,
            )@[j],
        index == 0 ==> final(vec)@ == old(vec)@,
{
    proof {
        reveal(on_root_path);
    }
    if index == 0 {
        return ;
    }
    let ghost start = index as int;
    let mut cur = index;
    while cur > 0
        invariant
            start == index as int,
            index > 0,
            cur < vec@.len(),
            vec@.len() == old(vec)@.len(),
            heap_except_at(vec@, cur as int),
            children_above_grandparent(vec@, cur as int),
            vec@.to_multiset() == old(vec)@.to_multiset(),
            keys_distinct(old(vec)@) ==> keys_distinct(vec@),
            forall|k: u32| has_key(vec@, k) == has_key(old(vec)@, k),
            on_root_path(cur as int, start),
            forall|j: int|
                0 <= j < old(vec)@.len() && !on_root_path(j, start) ==> vec@[j] == old(vec)@[j],
        decreases cur,
    {
        let parent = (cur - 1) / 2;
        if vec[parent].1 < vec[cur].1 {
            return ;
        }
        proof {
            lemma_on_path_parent(cur as int, start);
        }
        swap_entries(vec, parent, cur);
        cur = parent;
    }
}

/// Removes and returns the root of a non-empty min-heap: an entry with the
/// least priority among all stored entries. The remaining entries are
/// reordered back into heap shape.
#[verifier::rlimit(100)]
pub fn pop_heap(vec: &mut Vec<HeapEntry>) -> (r: HeapEntry)
    requires
        old(vec)@.len() > 0,
        is_min_heap(old(vec)@),
    ensures
        r == old(vec)@[0],
        forall|i: int| 0 <= i < old(vec)@.len() ==> r.1 <= (#[trigger] old(vec)@[i]).1,
        is_min_heap(final(vec)@),
        final(vec)@.len() == old(vec)@.len() - 1,
        final(vec)@.to_multiset() == old(vec)@.to_multiset().remove(r),
        forall|k: u32| has_key(final(vec)@, k) ==> has_key(old(vec)@, k),
        forall|k: u32| has_key(old(vec)@, k) && k != old(vec)@[0].0 ==> has_key(final(vec)@, k),
        keys_distinct(old(vec)@) ==> keys_distinct(final(vec)@) && !has_key(
            final(vec)@,
            old(vec)@[0].0,
        ),
{
    proof {
        broadcast use vstd::seq_lib::group_to_multiset_ensures;
        broadcast use vstd::multiset::group_multiset_axioms;

        assert forall|i: int| 0 <= i < old(vec)@.len() implies old(vec)@[0].1 <= (#[trigger] old(
            vec,
        )@[i]).1 by {
            lemma_root_min(old(vec)@, i);
        }
    }
    if vec.len() == 1 {
        let r = vec.pop().unwrap();
        proof {
            broadcast use vstd::seq_lib::group_to_multiset_ensures;

            assert(vec@ =~= old(vec)@.remove(0));
            assert(vec@.to_multiset() =~= old(vec)@.to_multiset().remove(r));
        }
        return r;
    }
    let return_value = vec.swap_remove(0);
    proof {
        lemma_swap_remove_root(old(vec)@, vec@);
    }
    sift_down(vec);
    return return_value;
}

/// Restores the min-heap shape when only the root may be out of place, by
/// sifting it down past its smaller children.
#[verifier::rlimit(100)]
#[verifier::spinoff_prover]
fn sift_down(vec: &mut Vec<HeapEntry>)
    requires
        old(vec)@.len() > 0,
        heap_except_below(old(vec)@, 0),
        children_above_grandparent(old(vec)@, 0),
    ensures
        is_min_heap(final(vec)@),
        final(vec)@.len() == old(vec)@.len(),
        final(vec)@.to_multiset() == old(vec)@.to_multiset(),
        keys_distinct(old(vec)@) ==> keys_distinct(final(vec)@),
        forall|k: u32| has_key(final(vec)@, k) == has_key(old(vec)@, k),
{
    let mut i: usize = 0;
    loop
        invariant
            i < vec@.len(),
            vec@.len() == old(vec)@.len(),
            heap_except_below(vec@, i as int),
            children_above_grandparent(vec@, i as int),
            vec@.to_multiset() == old(vec)@.to_multiset(),
            keys_distinct(old(vec)@) ==> keys_distinct(vec@),
            forall|k: u32| has_key(vec@, k) == has_key(old(vec)@, k),
        ensures
            is_min_heap(vec@),
        decreases vec@.len() - i,
    {
        let len = vec.len();
        if len >= 2 && i <= (len - 2) / 2 {
            let l = 2 * i + 1;
            let c = if l + 1 < len && vec[l + 1].1 < vec[l].1 {
                l + 1
            } else {
                l
            };
            if vec[c].1 < vec[i].1 {
                proof {
                    lemma_sift_down_swap(vec@, i as int, c as int);
                }
                swap_entries(vec, i, c);
                i = c;
                continue ;
            }
        }
        proof {
            lemma_sift_down_done(vec@, i as int);
        }
        break ;
    }
}

/// Lowers the priority stored for `key` to `new_priority` if that is an
/// improvement, then restores the heap shape; leaves the heap unchanged when
/// the stored priority is already as small.
#[verifier::rlimit(100)]
#[verifier::spinoff_prover]
pub fn decrease_key(vec: &mut Vec<HeapEntry>, key: u32, new_priority: u64)
    requires
        is_min_heap(old(vec)@),
        keys_distinct(old(vec)@),
        has_key(old(vec)@, key),
    ensures
        is_min_heap(final(vec)@),
        keys_distinct(final(vec)@),
        final(vec)@.len() == old(vec)@.len(),
        forall|k: u32| has_key(final(vec)@, k) == has_key(old(vec)@, k),
        key_priority(final(vec)@, key) == min64(key_priority(old(vec)@, key), new_priority),
        forall|e: HeapEntry|
            #[trigger] final(vec)@.to_multiset().count(e) > 0 ==> old(vec)@.to_multiset().count(e)
                > 0 || e == (key, new_priority),
{
    let mut index: usize = 0;
    let n = vec.len();
    let ghost witness = choose|i: int| 0 <= i < old(vec)@.len() && (#[trigger] old(vec)@[i]).0
        == key;
    while vec[index].0 != key
        invariant
            0 <= index < vec@.len(),
            vec@.len() == n,
            vec@ == old(vec)@,
            0 <= witness < vec@.len(),
            vec@[witness].0 == key,
            forall|j: int| 0 <= j < index ==> (#[trigger] vec@[j]).0 != key,
            index <= witness,
        decreases vec@.len() - index,
    {
        index = index + 1;
        proof {
            if index > witness {
                assert(vec@[witness].0 == key);
            }
        }
    }
    proof {
        lemma_key_priority(old(vec)@, key, index as int);
    }
    if vec[index].1 <= new_priority {
        return ;
    }
    let entry = vec[index];
    vec.set(index, (key, new_priority));
    proof {
        broadcast use vstd::seq_lib::group_to_multiset_ensures;
        broadcast use vstd::multiset::group_multiset_axioms;

        let s = old(vec)@;
        let t = vec@;
        assert(heap_except_at(t, index as int)) by {
            assert forall|i: int|
                1 <= i < t.len() && i != index as int implies t[parent_of(i)].1 <= (
            #[trigger] t[i]).1 by {
                assert(s[i].1 == t[i].1 || parent_of(i) == index as int);
                assert(s[parent_of(i)].1 >= t[parent_of(i)].1);
            }
        }
        assert(children_above_grandparent(t, index as int)) by {
            if index as int > 0 {
                assert forall|i: int|
                    1 <= i < t.len() && parent_of(i) == index as int implies t[parent_of(
                    index as int,
                )].1 <= (#[trigger] t[i]).1 by {
                    assert(s[parent_of(index as int)].1 <= s[index as int].1);
                    assert(s[index as int].1 <= s[i].1);
                }
            }
        }
        assert(keys_distinct(t));
        assert forall|k: u32| has_key(t, k) == has_key(s, k) by {
            if has_key(s, k) {
                let i0 = choose|i0: int| 0 <= i0 < s.len() && (#[trigger] s[i0]).0 == k;
                assert(t[i0].0 == k);
            }
            if has_key(t, k) {
                let i0 = choose|i0: int| 0 <= i0 < t.len() && (#[trigger] t[i0]).0 == k;
                assert(s[i0].0 == k);
            }
        }
    }
    let ghost mid = vec@;
    heapify_up(vec, index);
    proof {
        broadcast use vstd::seq_lib::group_to_multiset_ensures;
        broadcast use vstd::multiset::group_multiset_axioms;

        assert(vec@.to_multiset() == mid.to_multiset());
        assert(mid.to_multiset().count((key, new_priority)) > 0) by {
            assert(mid[index as int] == (key, new_priority));
            assert(mid.contains((key, new_priority)));
        }
        assert(vec@.to_multiset().count((key, new_priority)) > 0);
        assert(vec@.contains((key, new_priority)));
        let i1 = choose|i1: int| 0 <= i1 < vec@.len() && vec@[i1] == (key, new_priority);
        lemma_key_priority(vec@, key, i1);
        assert forall|e: HeapEntry| #[trigger] vec@.to_multiset().count(e) > 0 implies old(
            vec,
        )@.to_multiset().count(e) > 0 || e == (key, new_priority) by {
            assert(mid.to_multiset() == old(vec)@.to_multiset().insert(
                (key, new_priority),
            ).remove(entry));
        }
    }
}

} // verus!

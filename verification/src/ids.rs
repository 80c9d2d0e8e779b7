//! Increasing lists of identifiers: a set of identifiers in a vector.

use vstd::prelude::*;
use crate::object::{lemma_key_injective, ObjectId};

verus! {

/// The identifiers grow strictly from one position to the next.
pub open spec fn increasing(ids: Seq<ObjectId>) -> bool {
    forall|i: int, j: int| 0 <= i < j < ids.len() ==> (#[trigger] ids[i]).key() < (#[trigger] ids[j]).key()
}

/// Index of the first identifier at or after `start` that does not precede
/// `id`; the length of `ids` where there is none.
pub open spec fn rank_from(ids: Seq<ObjectId>, id: ObjectId, start: int) -> int
    decreases ids.len() - start,
{
    if start < 0 || start >= ids.len() {
        ids.len() as int
    } else if ids[start].key() >= id.key() {
        start
    } else {
        rank_from(ids, id, start + 1)
    }
}

/// Where `id` stands, or would stand, among `ids`.
pub open spec fn rank(ids: Seq<ObjectId>, id: ObjectId) -> int {
    rank_from(ids, id, 0)
}

/// `ids` with `id` added at its place, unless it is there already.
pub open spec fn with_id(ids: Seq<ObjectId>, id: ObjectId) -> Seq<ObjectId> {
    if ids.contains(id) {
        ids
    } else {
        ids.insert(rank(ids, id), id)
    }
}

pub proof fn lemma_rank_from(ids: Seq<ObjectId>, id: ObjectId, start: int)
    requires
        0 <= start <= ids.len(),
    ensures
        start <= rank_from(ids, id, start) <= ids.len(),
        rank_from(ids, id, start) < ids.len() ==> ids[rank_from(ids, id, start)].key() >= id.key(),
        forall|j: int| start <= j < rank_from(ids, id, start) ==> (#[trigger] ids[j]).key() < id.key(),
    decreases ids.len() - start,
{
    if start < ids.len() && ids[start].key() < id.key() {
        lemma_rank_from(ids, id, start + 1);
    }
}

/// An index that splits `ids` at `id` is the rank of `id`.
pub proof fn lemma_rank_is(ids: Seq<ObjectId>, id: ObjectId, i: int)
    requires
        0 <= i <= ids.len(),
        forall|j: int| 0 <= j < i ==> (#[trigger] ids[j]).key() < id.key(),
        i < ids.len() ==> ids[i].key() >= id.key(),
    ensures
        rank(ids, id) == i,
{
    lemma_rank_from(ids, id, 0);
    let s = rank(ids, id);
    if s < i {
        assert(ids[s].key() < id.key());
    } else if s > i {
        assert(ids[i].key() < id.key());
    }
}

/// In an increasing sequence an identifier occurs exactly where its rank
/// holds it.
pub proof fn lemma_rank_contains(ids: Seq<ObjectId>, id: ObjectId)
    requires
        increasing(ids),
    ensures
        0 <= rank(ids, id) <= ids.len(),
        ids.contains(id) <==> (rank(ids, id) < ids.len() && ids[rank(ids, id)] == id),
        forall|i: int| 0 <= i < ids.len() && #[trigger] ids[i] == id ==> rank(ids, id) == i,
{
    lemma_rank_from(ids, id, 0);
    assert forall|i: int| 0 <= i < ids.len() && #[trigger] ids[i] == id implies rank(ids, id)
        == i by {
        lemma_rank_is(ids, id, i);
    }
}

/// Adding an identifier keeps the sequence increasing and adds nothing else.
pub proof fn lemma_with_id(ids: Seq<ObjectId>, id: ObjectId)
    requires
        increasing(ids),
    ensures
        increasing(with_id(ids, id)),
        forall|x: ObjectId| #[trigger] with_id(ids, id).contains(x) <==> (ids.contains(x) || x == id),
{
    let w = with_id(ids, id);
    let r = rank(ids, id);
    lemma_rank_from(ids, id, 0);
    lemma_rank_contains(ids, id);
    if !ids.contains(id) {
        if r < ids.len() {
            lemma_key_injective(ids[r], id);
        }
        assert forall|i: int, j: int| 0 <= i < j < w.len() implies (#[trigger] w[i]).key() < (
        #[trigger] w[j]).key() by {
            if i != r {
                assert(w[i] == ids[if i < r { i } else { i - 1 }]);
            }
            if j != r {
                assert(w[j] == ids[if j < r { j } else { j - 1 }]);
            }
        }
        assert forall|x: ObjectId| #[trigger] w.contains(x) <==> (ids.contains(x) || x == id) by {
            if w.contains(x) {
                let k = choose|k: int| 0 <= k < w.len() && w[k] == x;
                if k != r {
                    assert(w[k] == ids[if k < r { k } else { k - 1 }]);
                }
            }
            if ids.contains(x) {
                let k = choose|k: int| 0 <= k < ids.len() && ids[k] == x;
                assert(w[if k < r { k } else { k + 1 }] == x);
            }
            if x == id {
                assert(w[r] == x);
            }
        }
    }
}

/// Two increasing sequences that hold the same identifiers are the same sequence.
pub proof fn lemma_increasing_unique(a: Seq<ObjectId>, b: Seq<ObjectId>)
    requires
        increasing(a),
        increasing(b),
        forall|x: ObjectId| a.contains(x) <==> b.contains(x),
    ensures
        a == b,
    decreases a.len(),
{
    if a.len() == 0 {
        if b.len() > 0 {
            assert(b.contains(b[0]));
        }
        assert(a =~= b);
    } else {
        let x = a.last();
        assert(a.contains(x));
        let j = choose|j: int| 0 <= j < b.len() && b[j] == x;
        if j < b.len() - 1 {
            let y = b.last();
            assert(b.contains(y));
            let i = choose|i: int| 0 <= i < a.len() && a[i] == y;
            assert(b[j].key() < b[b.len() - 1].key());
            if i < a.len() - 1 {
                assert(a[i].key() < a[a.len() - 1].key());
            }
        }
        let a1 = a.drop_last();
        let b1 = b.drop_last();
        assert forall|z: ObjectId| a1.contains(z) <==> b1.contains(z) by {
            if a1.contains(z) {
                let i = choose|i: int| 0 <= i < a1.len() && a1[i] == z;
                assert(a[i] == z);
                assert(a.contains(z));
                let k = choose|k: int| 0 <= k < b.len() && b[k] == z;
                assert(a[i].key() < a[a.len() - 1].key());
                assert(b1[k] == z);
            }
            if b1.contains(z) {
                let k = choose|k: int| 0 <= k < b1.len() && b1[k] == z;
                assert(b[k] == z);
                assert(b.contains(z));
                let i = choose|i: int| 0 <= i < a.len() && a[i] == z;
                assert(b[k].key() < b[b.len() - 1].key());
                assert(a1[i] == z);
            }
        }
        lemma_increasing_unique(a1, b1);
        assert(a =~= a1.push(x));
        assert(b =~= b1.push(x));
    }
}

/// The rank of `id` among `ids`.
pub fn find_rank(ids: &Vec<ObjectId>, id: ObjectId) -> (i: usize)
    requires
        increasing(ids@),
    ensures
        i == rank(ids@, id),
        i <= ids@.len(),
{
    let mut lo: usize = 0;
    let mut hi: usize = ids.len();
    while lo < hi
        invariant
            lo <= hi <= ids.len(),
            increasing(ids@),
            forall|j: int| 0 <= j < lo ==> (#[trigger] ids@[j]).key() < id.key(),
            forall|j: int| hi <= j < ids@.len() ==> (#[trigger] ids@[j]).key() >= id.key(),
        decreases hi - lo,
    {
        let mid = lo + (hi - lo) / 2;
        if ids[mid].less_than(&id) {
            lo = mid + 1;
        } else {
            hi = mid;
        }
    }
    proof {
        lemma_rank_is(ids@, id, lo as int);
    }
    lo
}

/// Whether `id` is among `ids`.
pub fn holds(ids: &Vec<ObjectId>, id: ObjectId) -> (found: bool)
    requires
        increasing(ids@),
    ensures
        found == ids@.contains(id),
{
    proof {
        lemma_rank_contains(ids@, id);
    }
    let i = find_rank(ids, id);
    i < ids.len() && ids[i] == id
}

/// Adds `id` to `ids` at its place, unless it is there already.
pub fn add_id(ids: &mut Vec<ObjectId>, id: ObjectId)
    requires
        increasing(old(ids)@),
    ensures
        final(ids)@ == with_id(old(ids)@, id),
        increasing(final(ids)@),
{
    proof {
        lemma_rank_contains(ids@, id);
        lemma_with_id(ids@, id);
    }
    let i = find_rank(ids, id);
    if !(i < ids.len() && ids[i] == id) {
        ids.insert(i, id);
    }
}

} // verus!

//! What a set of objects leads to by references: the reachable identifiers,
//! and the walk that finds them.

use vstd::prelude::*;
use crate::ids::{add_id, increasing, lemma_with_id, with_id};
use crate::object::ObjectId;
use crate::table::{
    ascending, lemma_slot_from, lemma_table_has, ObjectTable, table_has, table_slot, TableModel,
};
use crate::walker::{collect_refs, value_refs};

verus! {

/// The object under `a` holds a reference to `b`.
pub open spec fn refers(t: TableModel, a: ObjectId, b: ObjectId) -> bool {
    table_has(t, a) && value_refs(t[table_slot(t, a)].1).contains(b)
}

/// Each identifier of `path` refers to the next one.
pub open spec fn is_path(t: TableModel, path: Seq<ObjectId>) -> bool {
    path.len() > 0 && forall|k: int|
        0 <= k < path.len() - 1 ==> refers(t, #[trigger] path[k], path[k + 1])
}

/// `id` is one of `roots`, or some chain of references leads from one of
/// `roots` to `id`.
pub open spec fn reachable(t: TableModel, roots: Seq<ObjectId>, id: ObjectId) -> bool {
    exists|path: Seq<ObjectId>| #[trigger]
        is_path(t, path) && roots.contains(path[0]) && path.last() == id
}

/// A root is reachable.
pub proof fn lemma_root_reachable(t: TableModel, roots: Seq<ObjectId>, id: ObjectId)
    requires
        roots.contains(id),
    ensures
        reachable(t, roots, id),
{
    let path = seq![id];
    assert(is_path(t, path) && roots.contains(path[0]) && path.last() == id);
}

/// What a reachable identifier refers to is reachable.
pub proof fn lemma_step_reachable(t: TableModel, roots: Seq<ObjectId>, a: ObjectId, b: ObjectId)
    requires
        reachable(t, roots, a),
        refers(t, a, b),
    ensures
        reachable(t, roots, b),
{
    let p = choose|path: Seq<ObjectId>| #[trigger]
        is_path(t, path) && roots.contains(path[0]) && path.last() == a;
    let q = p.push(b);
    assert forall|k: int| 0 <= k < q.len() - 1 implies refers(t, #[trigger] q[k], q[k + 1]) by {
        if k < p.len() - 1 {
            assert(q[k] == p[k] && q[k + 1] == p[k + 1]);
        } else {
            assert(q[k] == a && q[k + 1] == b);
        }
    }
    assert(is_path(t, q) && roots.contains(q[0]) && q.last() == b);
}

/// The number of positions that are not marked.
spec fn unmarked(marks: Seq<bool>) -> nat
    decreases marks.len(),
{
    if marks.len() == 0 {
        0
    } else {
        unmarked(marks.drop_last()) + if marks.last() {
            0nat
        } else {
            1nat
        }
    }
}

proof fn lemma_mark(marks: Seq<bool>, i: int)
    requires
        0 <= i < marks.len(),
        !marks[i],
    ensures
        unmarked(marks.update(i, true)) + 1 == unmarked(marks),
    decreases marks.len(),
{
    let after = marks.update(i, true);
    if i == marks.len() - 1 {
        assert(after.drop_last() =~= marks.drop_last());
    } else {
        assert(after.drop_last() =~= marks.drop_last().update(i, true));
        lemma_mark(marks.drop_last(), i);
    }
}

/// Whether the walk has come to `id`.
spec fn seen(t: TableModel, marks: Seq<bool>, found: Seq<ObjectId>, id: ObjectId) -> bool {
    if table_has(t, id) {
        marks[table_slot(t, id)]
    } else {
        found.contains(id)
    }
}

/// Whatever the walk has come to is reachable.
spec fn sound(t: TableModel, roots: Seq<ObjectId>, marks: Seq<bool>, found: Seq<ObjectId>) -> bool {
    &&& marks.len() == t.len()
    &&& increasing(found)
    &&& forall|i: int| 0 <= i < t.len() && #[trigger] marks[i] ==> reachable(t, roots, t[i].0)
    &&& forall|k: int|
        0 <= k < found.len() ==> !table_has(t, #[trigger] found[k]) && reachable(
            t,
            roots,
            found[k],
        )
}

/// The positions that wait to be expanded are marked.
spec fn pending(t: TableModel, marks: Seq<bool>, stack: Seq<usize>) -> bool {
    forall|k: int| 0 <= k < stack.len() ==> (#[trigger] stack[k]) < t.len() && marks[stack[k] as int]
}

/// The walk has come to everything that the object at position `i` refers to.
spec fn closed_at(t: TableModel, marks: Seq<bool>, found: Seq<ObjectId>, i: int) -> bool {
    forall|j: int|
        0 <= j < value_refs(t[i].1).len() ==> seen(t, marks, found, #[trigger] value_refs(t[i].1)[j])
}

/// Every marked position that does not wait, but for `skip`, is closed.
spec fn expanded(
    t: TableModel,
    marks: Seq<bool>,
    found: Seq<ObjectId>,
    stack: Seq<usize>,
    skip: int,
) -> bool {
    forall|i: int|
        0 <= i < t.len() && #[trigger] marks[i] && !stack.contains(i as usize) && i != skip
            ==> closed_at(t, marks, found, i)
}

/// Comes to `id`: marks its object and lets it wait where it is met for the
/// first time, or notes it where the table has no object under it.
fn visit(
    table: &ObjectTable,
    id: ObjectId,
    marks: &mut Vec<bool>,
    found: &mut Vec<ObjectId>,
    stack: &mut Vec<usize>,
)
    requires
        old(marks)@.len() == table@.len(),
        increasing(old(found)@),
    ensures
        final(marks)@.len() == table@.len(),
        increasing(final(found)@),
        table_has(table@, id) && old(marks)@[table_slot(table@, id)] ==> final(marks)@ == old(
            marks,
        )@ && final(found)@ == old(found)@ && final(stack)@ == old(stack)@,
        table_has(table@, id) && !old(marks)@[table_slot(table@, id)] ==> final(marks)@ == old(
            marks,
        )@.update(table_slot(table@, id), true) && final(found)@ == old(found)@ && final(stack)@
            == old(stack)@.push(table_slot(table@, id) as usize),
        !table_has(table@, id) ==> final(marks)@ == old(marks)@ && final(found)@ == with_id(
            old(found)@,
            id,
        ) && final(stack)@ == old(stack)@,
{
    let i = table.slot_of(id);
    if i < table.len() && table.id_at(i) == id {
        if !marks[i] {
            marks.set(i, true);
            stack.push(i);
        }
    } else {
        add_id(found, id);
    }
}

/// One step of the walk keeps what holds of it.
proof fn lemma_visit(
    t: TableModel,
    roots: Seq<ObjectId>,
    id: ObjectId,
    marks: Seq<bool>,
    found: Seq<ObjectId>,
    stack: Seq<usize>,
    marks2: Seq<bool>,
    found2: Seq<ObjectId>,
    stack2: Seq<usize>,
    skip: int,
)
    requires
        ascending(t),
        t.len() <= usize::MAX,
        sound(t, roots, marks, found),
        pending(t, marks, stack),
        expanded(t, marks, found, stack, skip),
        reachable(t, roots, id),
        table_has(t, id) && marks[table_slot(t, id)] ==> marks2 == marks && found2 == found
            && stack2 == stack,
        table_has(t, id) && !marks[table_slot(t, id)] ==> marks2 == marks.update(
            table_slot(t, id),
            true,
        ) && found2 == found && stack2 == stack.push(table_slot(t, id) as usize),
        !table_has(t, id) ==> marks2 == marks && found2 == with_id(found, id) && stack2 == stack,
    ensures
        sound(t, roots, marks2, found2),
        pending(t, marks2, stack2),
        expanded(t, marks2, found2, stack2, skip),
        seen(t, marks2, found2, id),
        forall|x: ObjectId| seen(t, marks, found, x) ==> #[trigger] seen(t, marks2, found2, x),
        forall|i: int| 0 <= i < marks.len() && marks[i] ==> #[trigger] marks2[i],
        unmarked(marks2) + stack2.len() == unmarked(marks) + stack.len(),
{
    lemma_with_id(found, id);
    lemma_table_has(t, id);
    lemma_slot_from(t, id, 0);
    let s = table_slot(t, id);
    if table_has(t, id) && !marks[s] {
        lemma_mark(marks, s);
        assert(stack2.last() == s as usize);
        assert forall|k: int| 0 <= k < stack2.len() implies (#[trigger] stack2[k]) < t.len()
            && marks2[stack2[k] as int] by {
            if k < stack.len() {
                assert(stack2[k] == stack[k]);
            }
        }
    }
    if !table_has(t, id) {
        assert forall|k: int| 0 <= k < found2.len() implies !table_has(t, #[trigger] found2[k])
            && reachable(t, roots, found2[k]) by {
            assert(found2.contains(found2[k]));
            if found.contains(found2[k]) {
                let j = choose|j: int| 0 <= j < found.len() && found[j] == found2[k];
                assert(!table_has(t, found[j]));
            }
        }
        assert(found2.contains(id));
    }
    assert forall|x: ObjectId| seen(t, marks, found, x) implies #[trigger] seen(
        t,
        marks2,
        found2,
        x,
    ) by {
        lemma_slot_from(t, x, 0);
        if !table_has(t, x) {
            assert(found2.contains(x));
        }
    }
    assert forall|i: int|
        0 <= i < t.len() && #[trigger] marks2[i] && !stack2.contains(i as usize) && i
            != skip implies closed_at(t, marks2, found2, i) by {
        if table_has(t, id) && !marks[s] && i == s {
            assert(stack2[stack2.len() - 1] == i as usize);
            assert(false);
        }
        assert(marks[i]);
        if stack.contains(i as usize) {
            let k = choose|k: int| 0 <= k < stack.len() && stack[k] == i as usize;
            assert(stack2[k] == i as usize);
        }
        assert(closed_at(t, marks, found, i));
        assert forall|j: int| 0 <= j < value_refs(t[i].1).len() implies seen(
            t,
            marks2,
            found2,
            #[trigger] value_refs(t[i].1)[j],
        ) by {
            assert(seen(t, marks, found, value_refs(t[i].1)[j]));
        }
    }
}

/// Where every root has been seen and every marked object is closed, the walk
/// has come to everything reachable.
proof fn lemma_complete(
    t: TableModel,
    roots: Seq<ObjectId>,
    marks: Seq<bool>,
    found: Seq<ObjectId>,
    path: Seq<ObjectId>,
    n: int,
)
    requires
        ascending(t),
        t.len() <= usize::MAX,
        marks.len() == t.len(),
        forall|k: int| 0 <= k < roots.len() ==> seen(t, marks, found, #[trigger] roots[k]),
        expanded(t, marks, found, Seq::<usize>::empty(), -1),
        is_path(t, path),
        roots.contains(path[0]),
        0 <= n < path.len(),
    ensures
        seen(t, marks, found, path[n]),
    decreases n,
{
    if n == 0 {
        let k = choose|k: int| 0 <= k < roots.len() && roots[k] == path[0];
        assert(seen(t, marks, found, roots[k]));
    } else {
        lemma_complete(t, roots, marks, found, path, n - 1);
        let a = path[n - 1];
        let b = path[n];
        assert(refers(t, a, b));
        let i = table_slot(t, a);
        lemma_slot_from(t, a, 0);
        assert(marks[i]);
        assert(!Seq::<usize>::empty().contains(i as usize));
        assert(closed_at(t, marks, found, i));
        let j = choose|j: int| 0 <= j < value_refs(t[i].1).len() && value_refs(t[i].1)[j] == b;
        assert(seen(t, marks, found, value_refs(t[i].1)[j]));
    }
}

/// The identifiers reachable from `roots` by following references, in
/// increasing order. An identifier that is referred to is counted whether or
/// not the table holds an object under it.
pub fn closure(table: &ObjectTable, roots: &Vec<ObjectId>) -> (found: Vec<ObjectId>)
    ensures
        increasing(found@),
        forall|id: ObjectId| #[trigger] found@.contains(id) <==> reachable(table@, roots@, id),
{
    let n = table.len();
    let ghost t = table@;
    let mut marks: Vec<bool> = Vec::new();
    while marks.len() < n
        invariant
            marks@.len() <= n,
            forall|i: int| 0 <= i < marks@.len() ==> !(#[trigger] marks@[i]),
        decreases n - marks.len(),
    {
        marks.push(false);
    }
    let mut found: Vec<ObjectId> = Vec::new();
    let mut stack: Vec<usize> = Vec::new();
    assert(expanded(t, marks@, found@, stack@, -1));
    let mut r: usize = 0;
    while r < roots.len()
        invariant
            r <= roots.len(),
            n == t.len(),
            t == table@,
            ascending(t),
            sound(t, roots@, marks@, found@),
            pending(t, marks@, stack@),
            expanded(t, marks@, found@, stack@, -1),
            forall|k: int| 0 <= k < r ==> seen(t, marks@, found@, #[trigger] roots@[k]),
        decreases roots.len() - r,
    {
        let ghost m0 = marks@;
        let ghost f0 = found@;
        let ghost s0 = stack@;
        proof {
            assert(roots@.contains(roots@[r as int]));
            lemma_root_reachable(t, roots@, roots@[r as int]);
        }
        visit(table, roots[r], &mut marks, &mut found, &mut stack);
        proof {
            lemma_visit(t, roots@, roots@[r as int], m0, f0, s0, marks@, found@, stack@, -1);
            assert forall|k: int| 0 <= k < r + 1 implies seen(
                t,
                marks@,
                found@,
                #[trigger] roots@[k],
            ) by {
                if k < r {
                    assert(seen(t, m0, f0, roots@[k]));
                }
            }
        }
        r += 1;
    }
    while stack.len() > 0
        invariant
            n == t.len(),
            t == table@,
            ascending(t),
            sound(t, roots@, marks@, found@),
            pending(t, marks@, stack@),
            expanded(t, marks@, found@, stack@, -1),
            forall|k: int| 0 <= k < roots@.len() ==> seen(t, marks@, found@, #[trigger] roots@[k]),
        decreases unmarked(marks@) + stack@.len(),
    {
        let ghost before = stack@;
        let p = stack.pop().unwrap();
        assert(before[before.len() - 1] == p);
        let mut refs: Vec<ObjectId> = Vec::new();
        collect_refs(table.object_at(p), &mut refs);
        assert(refs@ =~= value_refs(t[p as int].1));
        proof {
            lemma_table_has(t, t[p as int].0);
            assert forall|i: int|
                0 <= i < t.len() && #[trigger] marks@[i] && !stack@.contains(i as usize) && i
                    != p implies closed_at(t, marks@, found@, i) by {
                if before.contains(i as usize) {
                    let k = choose|k: int| 0 <= k < before.len() && before[k] == i as usize;
                    assert(stack@[k] == i as usize);
                }
            }
        }
        let ghost budget = unmarked(marks@) + stack@.len();
        let mut k: usize = 0;
        while k < refs.len()
            invariant
                k <= refs.len(),
                n == t.len(),
                t == table@,
                ascending(t),
                p < n,
                marks@[p as int],
                refs@ == value_refs(t[p as int].1),
                sound(t, roots@, marks@, found@),
                pending(t, marks@, stack@),
                expanded(t, marks@, found@, stack@, p as int),
                forall|j: int| 0 <= j < roots@.len() ==> seen(t, marks@, found@, #[trigger] roots@[j]),
                forall|j: int| 0 <= j < k ==> seen(t, marks@, found@, #[trigger] refs@[j]),
                unmarked(marks@) + stack@.len() == budget,
            decreases refs.len() - k,
        {
            let ghost m0 = marks@;
            let ghost f0 = found@;
            let ghost s0 = stack@;
            proof {
                lemma_table_has(t, t[p as int].0);
                assert(refs@.contains(refs@[k as int]));
                assert(refers(t, t[p as int].0, refs@[k as int]));
                lemma_step_reachable(t, roots@, t[p as int].0, refs@[k as int]);
            }
            visit(table, refs[k], &mut marks, &mut found, &mut stack);
            proof {
                lemma_visit(t, roots@, refs@[k as int], m0, f0, s0, marks@, found@, stack@, p as int);
                assert forall|j: int| 0 <= j < roots@.len() implies seen(
                    t,
                    marks@,
                    found@,
                    #[trigger] roots@[j],
                ) by {
                    assert(seen(t, m0, f0, roots@[j]));
                }
                assert forall|j: int| 0 <= j < k + 1 implies seen(
                    t,
                    marks@,
                    found@,
                    #[trigger] refs@[j],
                ) by {
                    if j < k {
                        assert(seen(t, m0, f0, refs@[j]));
                    }
                }
            }
            k += 1;
        }
        assert(closed_at(t, marks@, found@, p as int));
    }
    let ghost noted = found@;
    proof {
        assert(stack@ =~= Seq::<usize>::empty());
    }
    let mut i: usize = 0;
    while i < n
        invariant
            i <= n,
            n == t.len(),
            t == table@,
            ascending(t),
            marks@.len() == n,
            increasing(found@),
            forall|x: ObjectId|
                #[trigger] found@.contains(x) <==> (noted.contains(x) || exists|j: int|
                    0 <= j < i && marks@[j] && #[trigger] t[j].0 == x),
        decreases n - i,
    {
        if marks[i] {
            let ghost f0 = found@;
            proof {
                lemma_with_id(f0, t[i as int].0);
            }
            add_id(&mut found, table.id_at(i));
            assert forall|x: ObjectId| #[trigger]
                found@.contains(x) <==> (noted.contains(x) || exists|j: int|
                    0 <= j < i + 1 && marks@[j] && #[trigger] t[j].0 == x) by {
                if x == t[i as int].0 {
                    assert(marks@[i as int] && t[i as int].0 == x);
                }
            }
        }
        i += 1;
    }
    proof {
        assert forall|id: ObjectId| #[trigger] found@.contains(id) <==> reachable(t, roots@, id) by {
            lemma_table_has(t, id);
            if found@.contains(id) {
                if noted.contains(id) {
                    let k = choose|k: int| 0 <= k < noted.len() && noted[k] == id;
                    assert(reachable(t, roots@, noted[k]));
                } else {
                    let j = choose|j: int| 0 <= j < n && marks@[j] && #[trigger] t[j].0 == id;
                    assert(reachable(t, roots@, t[j].0));
                }
            }
            if reachable(t, roots@, id) {
                let path = choose|path: Seq<ObjectId>| #[trigger]
                    is_path(t, path) && roots@.contains(path[0]) && path.last() == id;
                lemma_complete(t, roots@, marks@, noted, path, path.len() - 1);
                assert(seen(t, marks@, noted, id));
                if table_has(t, id) {
                    let s = table_slot(t, id);
                    assert(marks@[s] && t[s].0 == id);
                }
            }
        }
    }
    found
}

} // verus!

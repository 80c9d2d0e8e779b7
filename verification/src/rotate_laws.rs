//! What holds of the pages of a document that is turned, once and again.

use vstd::prelude::*;
use vstd::arithmetic::div_mod::{
    lemma_add_mod_noop, lemma_fundamental_div_mod, lemma_mod_multiples_vanish, lemma_mod_twice,
};
use crate::document::{DocumentModel, well_formed};
use crate::names::ROTATE;
use crate::object::{lemma_set_keeps_names_unique, ObjectId, unique_names, Value};
use crate::pages::{lemma_pages_are_leaves, node_at, pages_of};
use crate::rotate::{
    current_rotation, in_scope, lemma_rotation_after_turn, lemma_rotation_keeps_graph,
    new_rotation, normalized, rotated, rotated_objects, rotated_value,
};
use crate::table::{
    ascending, lemma_slot_from, lemma_table_put, table_get, table_has, table_put, table_slot,
    TableModel,
};

verus! {

/// How often the pages in scope among the first `n` of `pages` are `id`: a
/// call turns a page once for each place in scope at which the page tree
/// lists it.
pub open spec fn turns(pages: Seq<ObjectId>, scope: Option<Seq<u32>>, id: ObjectId, n: nat) -> nat
    decreases n,
{
    if n == 0 || n > pages.len() {
        0
    } else {
        turns(pages, scope, id, (n - 1) as nat) + if pages[n - 1] == id && in_scope(
            scope,
            n as int,
        ) {
            1nat
        } else {
            0nat
        }
    }
}

/// The rotation that a value states, where it is a dictionary that states
/// one; 0 else.
pub open spec fn rotation_in(v: Value) -> int {
    match v {
        Value::Dictionary(page) => current_rotation(page),
        _ => 0,
    }
}

/// The rotation `r` after `m` turns by `delta` degrees: `r` itself after
/// none.
pub open spec fn turned_rotation(r: int, delta: int, m: nat) -> int {
    if m == 0 {
        r
    } else {
        (r + m * delta) % 360
    }
}

/// Adding to a number brought into `[0, 360)` and adding to the number
/// itself come to the same in `[0, 360)`.
pub proof fn lemma_add_after_mod(x: int, s: int)
    ensures
        ((x % 360) + s) % 360 == (x + s) % 360,
{
    lemma_add_mod_noop(x, s, 360);
    lemma_add_mod_noop(x % 360, s, 360);
    lemma_mod_twice(x, 360);
}

/// One more turn adds to the rotation once more.
pub proof fn lemma_one_more_turn(r: int, delta: int, m: nat)
    ensures
        new_rotation(turned_rotation(r, delta, m), delta) == turned_rotation(
            r,
            delta,
            (m + 1) as nat,
        ),
{
    assert((m + 1) * delta == m * delta + delta) by (nonlinear_arith);
    if m > 0 {
        lemma_add_after_mod(r + m * delta, delta);
    }
}

/// After the first `n` of a list of pages have been dealt with, a page
/// dictionary states its rotation turned as often as the list names it in
/// scope, and stands as it did where the list does not.
pub proof fn lemma_rotated_rotation(
    t: TableModel,
    pages: Seq<ObjectId>,
    scope: Option<Seq<u32>>,
    delta: int,
    n: nat,
    id: ObjectId,
)
    requires
        ascending(t),
        n <= pages.len(),
        table_get(t, id) is Some,
        table_get(t, id)->Some_0 is Dictionary,
    ensures
        ascending(rotated_objects(t, pages, scope, delta, n)),
        table_get(rotated_objects(t, pages, scope, delta, n), id) is Some,
        table_get(rotated_objects(t, pages, scope, delta, n), id)->Some_0 is Dictionary,
        rotation_in(table_get(rotated_objects(t, pages, scope, delta, n), id)->Some_0)
            == turned_rotation(
            rotation_in(table_get(t, id)->Some_0),
            delta,
            turns(pages, scope, id, n),
        ),
        turns(pages, scope, id, n) == 0 ==> table_get(
            rotated_objects(t, pages, scope, delta, n),
            id,
        ) == table_get(t, id),
    decreases n,
{
    if n > 0 {
        let before = rotated_objects(t, pages, scope, delta, (n - 1) as nat);
        let after = rotated_objects(t, pages, scope, delta, n);
        let page = pages[n - 1];
        let slot = table_slot(before, page);
        let r = rotation_in(table_get(t, id)->Some_0);
        let m = turns(pages, scope, id, (n - 1) as nat);
        lemma_rotated_rotation(t, pages, scope, delta, (n - 1) as nat, id);
        lemma_slot_from(before, page, 0);
        if in_scope(scope, n as int) && table_has(before, page) {
            let turned = rotated_value(before[slot].1, delta);
            assert(after == table_put(before, page, turned));
            lemma_table_put(before, page, turned);
            if page == id {
                let held = before[slot].1->Dictionary_0;
                assert(table_get(before, id) == Some(before[slot].1));
                assert(table_get(after, id) == Some(turned));
                lemma_rotation_after_turn(held, delta);
                lemma_one_more_turn(r, delta, m);
                assert(turns(pages, scope, id, n) == m + 1);
            } else {
                assert(table_get(after, id) == table_get(before, id));
                assert(turns(pages, scope, id, n) == m);
            }
        } else {
            assert(after == before);
            assert(turns(pages, scope, id, n) == m);
        }
    }
}

/// Turning pages keeps the objects in ascending order of identifier, and
/// gives no dictionary two entries of one name.
pub proof fn lemma_rotated_well_formed(
    d: DocumentModel,
    pages: Seq<ObjectId>,
    scope: Option<Seq<u32>>,
    delta: int,
    n: nat,
)
    requires
        well_formed(d),
    ensures
        well_formed(
            DocumentModel { objects: rotated_objects(d.objects, pages, scope, delta, n), ..d },
        ),
        rotated_objects(d.objects, pages, scope, delta, n).len() == d.objects.len(),
    decreases n,
{
    if n == 0 || n > pages.len() {
    } else {
        let before = rotated_objects(d.objects, pages, scope, delta, (n - 1) as nat);
        let after = rotated_objects(d.objects, pages, scope, delta, n);
        lemma_rotated_well_formed(d, pages, scope, delta, (n - 1) as nat);
        let page = pages[n - 1];
        let slot = table_slot(before, page);
        lemma_slot_from(before, page, 0);
        if in_scope(scope, n as int) && table_has(before, page) {
            let turned = rotated_value(before[slot].1, delta);
            assert(after == table_put(before, page, turned));
            lemma_table_put(before, page, turned);
            assert forall|i: int| 0 <= i < after.len() && (#[trigger] after[i]).1 is Dictionary implies unique_names(
                after[i].1->Dictionary_0,
            ) by {
                if i == slot {
                    let page_dict = before[slot].1->Dictionary_0;
                    assert(unique_names(page_dict));
                    lemma_set_keeps_names_unique(
                        page_dict,
                        ROTATE@,
                        Value::Integer(new_rotation(current_rotation(page_dict), delta) as i64),
                    );
                } else {
                    assert(after[i] == before[i]);
                }
            }
        }
    }
}

/// The rotation that page `k + 1` of the document states; 0 where it states
/// none.
pub open spec fn page_rotation(d: DocumentModel, k: int) -> int {
    match table_get(d.objects, pages_of(d)[k]) {
        Some(v) => rotation_in(v),
        None => 0,
    }
}

/// How often one call turns page `k + 1` of the document: once for each place
/// in scope at which the page tree lists it.
pub open spec fn page_turns(d: DocumentModel, scope: Option<Seq<u32>>, k: int) -> nat {
    turns(pages_of(d), scope, pages_of(d)[k], pages_of(d).len())
}

/// A page in scope is turned at least once.
pub proof fn lemma_turns_in_scope(
    pages: Seq<ObjectId>,
    scope: Option<Seq<u32>>,
    k: int,
    n: nat,
)
    requires
        0 <= k < n <= pages.len(),
        in_scope(scope, k + 1),
    ensures
        turns(pages, scope, pages[k], n) >= 1,
    decreases n,
{
    if k < n - 1 {
        lemma_turns_in_scope(pages, scope, k, (n - 1) as nat);
    }
}

/// Turning a document leaves the pages and their order. A page states its
/// rotation turned as often as the page tree lists it in scope: once for a
/// page in scope that is listed once. A page that is nowhere in scope stays
/// as it is.
pub proof fn lemma_turn(d: DocumentModel, scope: Option<Seq<u32>>, degrees: int, k: int)
    requires
        well_formed(d),
        0 <= k < pages_of(d).len(),
    ensures
        well_formed(rotated(d, scope, degrees)),
        pages_of(rotated(d, scope, degrees)) == pages_of(d),
        page_turns(rotated(d, scope, degrees), scope, k) == page_turns(d, scope, k),
        in_scope(scope, k + 1) ==> page_turns(d, scope, k) >= 1,
        page_rotation(rotated(d, scope, degrees), k) == if normalized(degrees) == 0 {
            page_rotation(d, k)
        } else {
            turned_rotation(page_rotation(d, k), normalized(degrees), page_turns(d, scope, k))
        },
        normalized(degrees) == 0 || page_turns(d, scope, k) == 0 ==> table_get(
            rotated(d, scope, degrees).objects,
            pages_of(d)[k],
        ) == table_get(d.objects, pages_of(d)[k]),
{
    let delta = normalized(degrees);
    let pages = pages_of(d);
    let n = pages.len();
    if in_scope(scope, k + 1) {
        lemma_turns_in_scope(pages, scope, k, n);
    }
    if delta != 0 {
        lemma_rotation_keeps_graph(d, pages, scope, delta, n);
        lemma_pages_are_leaves(d);
        assert(node_at(d.objects, pages[k]) is Leaf);
        lemma_rotated_rotation(d.objects, pages, scope, delta, n, pages[k]);
        lemma_rotated_well_formed(d, pages, scope, delta, n);
    }
}

/// Four times as many quarter turns as a number make full turns, and the
/// number itself where it is 1, 5, 9 and so on.
proof fn lemma_quarter_steps(r: int, m: nat, first: int, second: int, third: int, fourth: int)
    requires
        first == turned_rotation(r, 90, m),
        second == turned_rotation(first, 90, m),
        third == turned_rotation(second, 90, m),
        fourth == turned_rotation(third, 90, m),
    ensures
        m >= 1 ==> fourth == r % 360,
        m % 4 == 1 ==> first == (r + 90) % 360 && second == (r + 180) % 360 && third == (r + 270)
            % 360,
{
    if m >= 1 {
        let step: int = m as int * 90;
        lemma_add_after_mod(r + step, step);
        lemma_add_after_mod(r + 2 * step, step);
        lemma_add_after_mod(r + 3 * step, step);
        assert(second == (r + 2 * step) % 360);
        assert(third == (r + 3 * step) % 360);
        assert(fourth == (r + 4 * step) % 360);
        lemma_mod_multiples_vanish(m as int, r, 360);
        assert(r + 4 * step == 360 * m + r);
        if m % 4 == 1 {
            let q: int = m as int / 4;
            assert(m == 4 * q + 1);
            lemma_mod_multiples_vanish(q, r + 90, 360);
            assert(r + step == 360 * q + (r + 90));
            lemma_mod_multiples_vanish(2 * q, r + 180, 360);
            assert(r + 2 * step == 360 * (2 * q) + (r + 180));
            lemma_mod_multiples_vanish(3 * q, r + 270, 360);
            assert(r + 3 * step == 360 * (3 * q) + (r + 270));
        }
    }
}

/// A quarter turn applied four times, each time to the document that the
/// turn before gave, brings the rotation of a page in scope back to where it
/// was, brought into `[0, 360)`. Where the page tree lists the page once in
/// scope, or 5 or 9 times and so on, the page states its former rotation plus
/// 90, 180 and 270 degrees after the first three turns, each brought into
/// `[0, 360)`. A page that is nowhere in scope stays as it is.
#[verifier::rlimit(50)]
pub proof fn lemma_four_quarter_turns_of_a_document(
    d: DocumentModel,
    scope: Option<Seq<u32>>,
    k: int,
)
    requires
        well_formed(d),
        0 <= k < pages_of(d).len(),
    ensures
        ({
            let once = rotated(d, scope, 90);
            let twice = rotated(once, scope, 90);
            let thrice = rotated(twice, scope, 90);
            let again = rotated(thrice, scope, 90);
            let r = page_rotation(d, k);
            &&& pages_of(again) == pages_of(d)
            &&& in_scope(scope, k + 1) ==> page_rotation(again, k) == r % 360
            &&& in_scope(scope, k + 1) && page_turns(d, scope, k) % 4 == 1 ==> {
                &&& page_rotation(once, k) == (r + 90) % 360
                &&& page_rotation(twice, k) == (r + 180) % 360
                &&& page_rotation(thrice, k) == (r + 270) % 360
            }
            &&& page_turns(d, scope, k) == 0 ==> table_get(again.objects, pages_of(d)[k])
                == table_get(d.objects, pages_of(d)[k])
        }),
{
    let once = rotated(d, scope, 90);
    let twice = rotated(once, scope, 90);
    let thrice = rotated(twice, scope, 90);
    let again = rotated(thrice, scope, 90);
    let m = page_turns(d, scope, k);
    assert(normalized(90) == 90);
    lemma_turn(d, scope, 90, k);
    let first = page_rotation(once, k);
    assert(first == turned_rotation(page_rotation(d, k), 90, m));
    lemma_turn(once, scope, 90, k);
    let second = page_rotation(twice, k);
    assert(second == turned_rotation(first, 90, m));
    lemma_turn(twice, scope, 90, k);
    let third = page_rotation(thrice, k);
    assert(third == turned_rotation(second, 90, m));
    lemma_turn(thrice, scope, 90, k);
    let fourth = page_rotation(again, k);
    assert(fourth == turned_rotation(third, 90, m));
    lemma_quarter_steps(page_rotation(d, k), m, first, second, third, fourth);
}

/// Turning by two angles, one after the other, and turning by an angle
/// congruent to their sum come to congruent rotations, and to the same where
/// something was turned at all.
proof fn lemma_sum_of_steps(
    r: int,
    m: nat,
    na: int,
    nb: int,
    ns: int,
    held: int,
    last: int,
    other: int,
)
    requires
        0 <= na < 360,
        0 <= nb < 360,
        0 <= ns < 360,
        ns == (na + nb) % 360,
        held == if na == 0 { r } else { turned_rotation(r, na, m) },
        last == if nb == 0 { held } else { turned_rotation(held, nb, m) },
        other == if ns == 0 { r } else { turned_rotation(r, ns, m) },
    ensures
        last % 360 == other % 360,
        m >= 1 && ns != 0 ==> last == other && 0 <= other < 360,
{
    if m >= 1 {
        let x: int = m as int * na;
        let y: int = m as int * nb;
        let z: int = m as int * ns;
        let carry: int = (na + nb) / 360;
        lemma_fundamental_div_mod(na + nb, 360);
        assert(na + nb == 360 * carry + ns);
        assert(x + y == 360 * (carry * m) + z) by (nonlinear_arith)
            requires
                x == m * na,
                y == m * nb,
                z == m * ns,
                na + nb == 360 * carry + ns,
        ;
        assert(na == 0 ==> x == 0);
        assert(nb == 0 ==> y == 0);
        assert(ns == 0 ==> z == 0);
        // Whether an angle is 0 or not, the rotations are congruent to the sums.
        lemma_mod_twice(r + x, 360);
        assert(held % 360 == (r + x) % 360);
        lemma_add_after_mod(r + x, y);
        lemma_add_after_mod(held, y);
        lemma_mod_twice(held + y, 360);
        assert(last % 360 == (r + x + y) % 360);
        lemma_mod_twice(r + z, 360);
        assert(other % 360 == (r + z) % 360);
        lemma_mod_multiples_vanish(carry * m, r + z, 360);
        assert(r + x + y == 360 * (carry * m) + (r + z));
        if ns != 0 {
            assert(na != 0 || nb != 0);
            lemma_mod_twice(last, 360);
        }
    }
}

/// Two turns after one another against one turn by their sum: both leave the
/// pages and their order, and every page states rotations that are congruent
/// modulo 360; a page in scope states the same rotation in `[0, 360)` where
/// the sum is no multiple of a full turn; a page that is nowhere in scope
/// stays as it is in both.
#[verifier::rlimit(50)]
pub proof fn lemma_two_turns(d: DocumentModel, scope: Option<Seq<u32>>, a: int, b: int, k: int)
    requires
        well_formed(d),
        0 <= k < pages_of(d).len(),
    ensures
        ({
            let both = rotated(rotated(d, scope, a), scope, b);
            let sum = rotated(d, scope, a + b);
            let page = pages_of(d)[k];
            &&& pages_of(both) == pages_of(d)
            &&& pages_of(sum) == pages_of(d)
            &&& page_rotation(both, k) % 360 == page_rotation(sum, k) % 360
            &&& in_scope(scope, k + 1) && normalized(a + b) != 0 ==> page_rotation(both, k)
                == page_rotation(sum, k) && 0 <= page_rotation(sum, k) < 360
            &&& page_turns(d, scope, k) == 0 ==> table_get(both.objects, page) == table_get(
                d.objects,
                page,
            ) && table_get(sum.objects, page) == table_get(d.objects, page)
        }),
{
    let first = rotated(d, scope, a);
    let both = rotated(first, scope, b);
    let sum = rotated(d, scope, a + b);
    let r = page_rotation(d, k);
    let m = page_turns(d, scope, k);
    let na = normalized(a);
    let nb = normalized(b);
    let ns = normalized(a + b);
    lemma_turn(d, scope, a, k);
    let held = page_rotation(first, k);
    assert(held == if na == 0 { r } else { turned_rotation(r, na, m) });
    lemma_turn(first, scope, b, k);
    let last = page_rotation(both, k);
    assert(last == if nb == 0 { held } else { turned_rotation(held, nb, m) });
    lemma_turn(d, scope, a + b, k);
    let other = page_rotation(sum, k);
    assert(other == if ns == 0 { r } else { turned_rotation(r, ns, m) });
    lemma_add_mod_noop(a, b, 360);
    lemma_sum_of_steps(r, m, na, nb, ns, held, last, other);
}

} // verus!

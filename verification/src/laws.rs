//! Laws of the store: what holds of every store, and of operations one after
//! the other.

use crate::component::by_id;
use crate::component::canonical;
use crate::component::distinct_ids;
use crate::component::lemma_canonical_unique;
use crate::component::precedes;
use crate::component::ComponentView;
use crate::component::TypeInfo;
use crate::entity::bits_of;
use crate::entity::Entity;
use crate::frame::Frame;
use crate::frame::Row;
use crate::prepared::PreparedQuery;
use crate::query::results;
use crate::query::Fetch;
use crate::query::ItemView;
use vstd::prelude::*;

verus! {

/// Encoding a handle and decoding it again gives the handle back, so two handles
/// are equal exactly when their encodings are.
pub proof fn law_handle_bits(e: Entity)
    ensures
        (bits_of(e) & 0xffff_ffff) as u32 == e.id,
        (bits_of(e) >> 32) as u32 == e.generation,
{
    let g = e.generation;
    let i = e.id;
    assert((((g as u64) << 32 | (i as u64)) & 0xffff_ffff) as u32 == i) by (bit_vector);
    assert((((g as u64) << 32 | (i as u64)) >> 32) as u32 == g) by (bit_vector);
}

/// The canonical order is irreflexive, asymmetric and transitive, and it orders
/// any two types of different ids.
pub proof fn law_canonical_order(a: TypeInfo, b: TypeInfo, c: TypeInfo)
    ensures
        !precedes(a, a),
        precedes(a, b) ==> !precedes(b, a),
        precedes(a, b) && precedes(b, c) ==> precedes(a, c),
        a.id != b.id ==> precedes(a, b) || precedes(b, a),
{
}

/// What a prepared query remembers of a store stays true of the store as long
/// as the store keeps its archetypes, which every operation on it does.
pub proof fn law_prepared_query(query: PreparedQuery, before: Frame, after: Frame)
    requires
        query.valid_for(&before),
        after.keeps_archetypes(&before),
    ensures
        query.valid_for(&after),
{
    crate::prepared::lemma_matching_kept(&before, &after, query.pattern(), query.seen() as int);
}

/// A store without borrows lets through every query whose accesses can be
/// counted.
pub proof fn law_unborrowed(frame: Frame, fetch: Fetch)
    requires
        frame.wf(),
        frame.unborrowed(),
        fetch.accesses().len() < isize::MAX,
    ensures
        frame.borrowable(fetch),
{
    frame.lemma_wf();
    assert forall|a: int, k: int|
        #![trigger frame.archetype_seq()[a], fetch.accesses()[k]]
        0 <= a < frame.archetype_seq().len() && frame.archetype_seq()[a].rows() > 0 && fetch.matches(
            crate::query::type_set(frame.archetype_seq()[a].signature()),
        ) && 0 <= k < fetch.accesses().len() && crate::component::has_id(
            frame.archetype_seq()[a].signature(),
            fetch.accesses()[k].id,
        ) implies frame.free_for(a, fetch.accesses()[k], fetch.accesses().len() as int) by {
        assert(frame.archetype_seq()[a].unborrowed());
    }
}

/// In a store without borrows every component can be read and changed.
pub proof fn law_unborrowed_access(frame: Frame, e: Entity, id: u64)
    requires
        frame.wf(),
        frame.unborrowed(),
    ensures
        frame.readable(e, id),
        frame.writable(e, id),
{
    if frame@.contains_key(e) && frame@[e].contains_key(id) {
        frame.lemma_wf();
        law_archetype_of(frame, e);
        let a = frame.location(e).archetype as int;
        assert(frame.archetype_seq()[a].unborrowed());
        frame.archetype_seq()[a].lemma_row(frame.location(e).row as int);
    }
}

/// A handle names a live entity exactly when its slot is live and has the
/// handle's generation.
pub proof fn law_contains(frame: Frame, e: Entity)
    ensures
        frame@.contains_key(e) <==> frame.allocator().location_of(e.id) is Some
            && frame.allocator().generation_of(e.id) == e.generation,
{
}

/// The handle that no store issues names no entity.
pub proof fn law_dangling(frame: Frame)
    requires
        frame.wf(),
    ensures
        !frame@.contains_key(Entity::dangling()),
        !frame.reserved().contains(Entity::dangling()),
{
    frame.lemma_wf();
    frame.allocator().lemma_wf();
}

/// The columns of an archetype are in canonical order, no two are of one type,
/// and there is one type id for each column.
pub proof fn law_columns(frame: Frame, a: int)
    requires
        frame.wf(),
        0 <= a < frame.archetype_seq().len(),
    ensures
        canonical(frame.archetype_seq()[a].signature()),
        distinct_ids(frame.archetype_seq()[a].signature()),
        crate::component::ids_of(frame.archetype_seq()[a].signature()).len()
            == frame.archetype_seq()[a].column_count(),
{
    frame.lemma_wf();
    frame.archetype_seq()[a].lemma_wf();
}

/// An archetype has one entity id for each row, and every column has one cell
/// for each row.
pub proof fn law_rows(frame: Frame, a: int, c: int)
    requires
        frame.wf(),
        0 <= a < frame.archetype_seq().len(),
        0 <= c < frame.archetype_seq()[a].column_count(),
    ensures
        frame.archetype_seq()[a].entity_ids().len() == frame.archetype_seq()[a].rows(),
        frame.archetype_seq()[a].column_len(c) == frame.archetype_seq()[a].rows(),
{
    frame.lemma_wf();
    frame.archetype_seq()[a].lemma_wf();
}

/// What `Frame::spawn` ensures of the stores before and after it, of the bundle
/// and of the handle that it returns.
pub open spec fn spawned(before: Frame, bundle: Seq<ComponentView>, e: Entity, after: Frame) -> bool {
    &&& e == before.next_entity()
    &&& !before.flushed().contains_key(e)
    &&& after@ == before.flushed().insert(e, by_id(bundle))
    &&& after.reserved() == Set::<Entity>::empty()
}

/// What `Frame::take` ensures of the stores before and after it, of the handle
/// and of the components that it returns, if any.
pub open spec fn took(before: Frame, e: Entity, taken: Option<Seq<ComponentView>>, after: Frame) -> bool {
    &&& taken is Some <==> before.flushed().contains_key(e)
    &&& taken matches Some(components) ==> by_id(components) == before.flushed()[e]
    &&& after@ == before.flushed().remove(e)
    &&& after.reserved() == Set::<Entity>::empty()
}

/// What `Frame::insert` ensures of the stores before and after it, of the
/// handle and the bundle, and of whether it returns `Ok`.
pub open spec fn inserted(
    before: Frame,
    e: Entity,
    bundle: Seq<ComponentView>,
    ok: bool,
    after: Frame,
) -> bool {
    &&& ok <==> before.flushed().contains_key(e)
    &&& ok ==> after@ == before.flushed().insert(
        e,
        before.flushed()[e].union_prefer_right(by_id(bundle)),
    )
    &&& !ok ==> after@ == before.flushed()
    &&& after.reserved() == Set::<Entity>::empty()
}

/// What `Frame::clear` ensures of the store after it.
pub open spec fn cleared(after: Frame) -> bool {
    &&& after@ == Map::<Entity, Row>::empty()
    &&& after.reserved() == Set::<Entity>::empty()
}

/// A store whose reservations are flushed holds what it holds once they are
/// flushed.
pub proof fn law_flushed(frame: Frame)
    requires
        frame.reserved() == Set::<Entity>::empty(),
    ensures
        frame.flushed() == frame@,
{
    assert forall|e: Entity| !frame.reserved().contains(e) by {}
    assert(frame.flushed() =~= frame@);
}

/// Taking an entity that was just spawned gives the components of the bundle it
/// was spawned with, and leaves the store with the entities that it had before
/// the spawn.
pub proof fn law_spawn_take(
    start: Frame,
    bundle: Seq<ComponentView>,
    e: Entity,
    middle: Frame,
    taken: Option<Seq<ComponentView>>,
    end: Frame,
)
    requires
        spawned(start, bundle, e, middle),
        took(middle, e, taken, end),
    ensures
        taken is Some,
        by_id(taken.unwrap()) == by_id(bundle),
        end@ == start.flushed(),
{
    law_flushed(middle);
    assert(end@ =~= start.flushed());
}

/// Giving an entity components that it has, with the values that they have,
/// leaves every entity with the components that it had.
pub proof fn law_insert_same(start: Frame, e: Entity, bundle: Seq<ComponentView>, ok: bool, end: Frame)
    requires
        inserted(start, e, bundle, ok, end),
        start.flushed().contains_key(e),
        forall|id: u64| #[trigger]
            by_id(bundle).contains_key(id) ==> start.flushed()[e].contains_key(id)
                && start.flushed()[e][id] == by_id(bundle)[id],
    ensures
        ok,
        end@ == start.flushed(),
{
    let row = start.flushed()[e];
    assert(row.union_prefer_right(by_id(bundle)) =~= row);
    assert(end@ =~= start.flushed());
}

/// A cleared store holds no entity: its length is 0, and it contains no
/// handle, whatever the handle named before.
pub proof fn law_clear(end: Frame, e: Entity)
    requires
        cleared(end),
    ensures
        end@.len() == 0,
        !end@.contains_key(e),
        !end.reserved().contains(e),
{
}

/// Keeping the archetypes of a store goes on through any number of steps.
pub proof fn law_keeps_archetypes(first: Frame, second: Frame, third: Frame)
    requires
        second.keeps_archetypes(&first),
        third.keeps_archetypes(&second),
    ensures
        third.keeps_archetypes(&first),
{
    assert forall|a: int| 0 <= a < first.archetype_seq().len() implies (
    #[trigger] third.archetype_seq()[a]).signature() == first.archetype_seq()[a].signature() by {
        assert(second.archetype_seq()[a].signature() == first.archetype_seq()[a].signature());
    }
}

/// An entity is stored in the archetype of exactly its types: the signature of
/// its archetype holds the type of each of its components and nothing else.
pub proof fn law_archetype_of(frame: Frame, e: Entity)
    requires
        frame.wf(),
        frame@.contains_key(e),
    ensures
        frame.location(e).archetype < frame.archetype_seq().len(),
        forall|x: TypeInfo|
            frame.archetype_seq()[frame.location(e).archetype as int].signature().contains(x) <==> (
            frame@[e].contains_key(x.id) && frame@[e][x.id].info == x),
{
    frame.lemma_wf();
    let l = frame.location(e);
    let archetype = frame.archetype_seq()[l.archetype as int];
    let signature = archetype.signature();
    archetype.lemma_wf();
    archetype.lemma_row(l.row as int);
    assert forall|x: TypeInfo| signature.contains(x) <==> (frame@[e].contains_key(x.id)
        && frame@[e][x.id].info == x) by {
        if signature.contains(x) {
            let c = choose|c: int| 0 <= c < signature.len() && signature[c] == x;
            assert(archetype.row(l.row as int)[signature[c].id].info == signature[c]);
        }
    }
}

/// An entity that has the types that an entity had before is stored in the
/// archetype in which that entity was stored, whatever was done to the store
/// in between: every operation keeps the archetypes, and there is one
/// archetype for one set of types.
pub proof fn law_same_archetype(before: Frame, e: Entity, after: Frame, f: Entity)
    requires
        before.wf(),
        after.wf(),
        after.keeps_archetypes(&before),
        before@.contains_key(e),
        after@.contains_key(f),
        forall|id: u64| before@[e].contains_key(id) <==> after@[f].contains_key(id),
        forall|id: u64| before@[e].contains_key(id) ==> before@[e][id].info == after@[f][id].info,
    ensures
        after.location(f).archetype == before.location(e).archetype,
{
    before.lemma_wf();
    after.lemma_wf();
    law_archetype_of(before, e);
    law_archetype_of(after, f);
    let a = before.location(e).archetype as int;
    let b = after.location(f).archetype as int;
    let first = before.archetype_seq()[a].signature();
    let second = after.archetype_seq()[b].signature();
    before.archetype_seq()[a].lemma_wf();
    after.archetype_seq()[b].lemma_wf();
    assert forall|x: TypeInfo| first.contains(x) <==> second.contains(x) by {}
    lemma_canonical_unique(first, second);
    assert(after.archetype_seq()[a].signature() == first);
    if a < b {
        assert(after.archetype_seq()[a].signature() != after.archetype_seq()[b].signature());
    } else if b < a {
        assert(after.archetype_seq()[b].signature() != after.archetype_seq()[a].signature());
    }
}

/// The query that matches every entity and fetches nothing yields the live
/// entities in the order in which the store lists them.
pub proof fn law_query_unit(frame: Frame, upto: int)
    requires
        0 <= upto <= frame.archetype_seq().len(),
    ensures
        results(&frame, Fetch::Unit, upto).len() == frame.handles_upto(upto).len(),
        forall|i: int|
            0 <= i < frame.handles_upto(upto).len() ==> (#[trigger] results(
                &frame,
                Fetch::Unit,
                upto,
            )[i]) == (frame.handles_upto(upto)[i], ItemView::Unit),
    decreases upto,
{
    if upto > 0 {
        law_query_unit(frame, upto - 1);
    }
}

/// Giving the borrows of a query back after they were taken leaves every borrow
/// count as it was.
pub proof fn law_borrow_release(start: Frame, fetch: Fetch, middle: Frame, end: Frame, a: int, c: int)
    requires
        start.wf(),
        !fetch.violates(),
        start.borrowable(fetch),
        middle.counts_borrowed(&start, fetch),
        middle.archetype_seq().len() == start.archetype_seq().len(),
        middle.keeps_archetypes(&start),
        forall|b: int|
            0 <= b < start.archetype_seq().len() ==> (#[trigger] middle.archetype_seq()[b]).entity_ids()
                == start.archetype_seq()[b].entity_ids(),
        end.counts_released(&middle, fetch),
        0 <= a < start.archetype_seq().len(),
        0 <= c < start.archetype_seq()[a].signature().len(),
    ensures
        end.archetype_seq()[a].borrow_of(c) == start.archetype_seq()[a].borrow_of(c),
{
    start.lemma_wf();
    start.archetype_seq()[a].lemma_wf();
    let signature = start.archetype_seq()[a].signature();
    let id = signature[c].id;
    let count = start.archetype_seq()[a].borrow_of(c);
    let accesses = fetch.accesses();
    assert(middle.archetype_seq()[a].signature() == signature);
    if start.archetype_seq()[a].rows() > 0 && fetch.matches(crate::query::type_set(signature)) {
        crate::archetype::lemma_index_of_id(signature, c);
        if crate::query::has_exclusive(accesses, id) {
            let k = choose|k: int|
                0 <= k < accesses.len() && (#[trigger] accesses[k]).id == id && accesses[k].exclusive;
            assert(start.free_for(a, fetch.accesses()[k], accesses.len() as int));
        }
        crate::query::lemma_released(count, accesses, id);
    }
}

/// A query yields every live entity that its pattern matches, with what the
/// pattern fetches from the entity's components, and nothing else.
pub proof fn law_query(frame: Frame, fetch: Fetch, e: Entity)
    requires
        frame.wf(),
    ensures
        (frame@.contains_key(e) && fetch.matches(frame@[e].dom())) <==> exists|i: int|
            0 <= i < results(&frame, fetch, frame.archetype_seq().len() as int).len() && (
            #[trigger] results(&frame, fetch, frame.archetype_seq().len() as int)[i]) == (
                e,
                fetch.item(frame@[e]),
            ),
{
    let all = results(&frame, fetch, frame.archetype_seq().len() as int);
    if frame@.contains_key(e) && fetch.matches(frame@[e].dom()) {
        let i = crate::query::lemma_results_complete(&frame, fetch, e);
        crate::query::lemma_results_sound(&frame, fetch, frame.archetype_seq().len() as int, i);
        assert(all[i] == (e, fetch.item(frame@[e])));
    }
    if exists|i: int| 0 <= i < all.len() && (#[trigger] all[i]) == (e, fetch.item(frame@[e])) {
        let i = choose|i: int| 0 <= i < all.len() && (#[trigger] all[i]) == (e, fetch.item(frame@[e]));
        crate::query::lemma_results_sound(&frame, fetch, frame.archetype_seq().len() as int, i);
    }
}

} // verus!

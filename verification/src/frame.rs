//! The store: entities, their components, and the archetypes that hold them.

use crate::archetype::zero_row;
use crate::archetype::Archetype;
use crate::builder::ColumnBatch;
use crate::component::all_sized;
use crate::component::by_id;
use crate::component::canonical;
use crate::component::canonical_order;
use crate::component::distinct_ids;
use crate::component::has_id;
use crate::component::infos;
use crate::component::views;
use crate::component::Bundle;
use crate::component::Component;
use crate::component::ComponentView;
use crate::component::TypeInfo;
use crate::entities::Entities;
use crate::entities::Location;
use crate::entities::NoSuchEntity;
use crate::entity::Entity;
use crate::query::borrowed;
use crate::query::conflicting;
use crate::query::lemma_before;
use crate::query::lemma_borrowed;
use crate::query::lemma_prefix_free;
use crate::query::lemma_released_from;
use crate::query::lemma_shared_count_take;
use crate::query::lemma_shared_none;
use crate::query::released;
use crate::query::shared_count;
use crate::query::type_set;
use crate::query::Access;
use crate::query::Fetch;
use vstd::prelude::*;

verus! {

/// The entity has no component of the type with this id.
#[derive(Clone, Copy, Debug, PartialEq, Eq, Structural)]
pub struct MissingComponent {
    pub id: u64,
}

/// Why a component of an entity could not be reached.
#[derive(Clone, Copy, Debug, PartialEq, Eq, Structural)]
pub enum ComponentError {
    /// The handle is not valid.
    NoSuchEntity,
    /// The entity exists and has no component of the type.
    MissingComponent(MissingComponent),
}

/// The components of one entity, by type id.
pub type Row = Map<u64, ComponentView>;

/// The types of the components of `row`.
pub open spec fn types_of(row: Row) -> Set<TypeInfo> {
    Set::new(|x: TypeInfo| row.contains_key(x.id) && row[x.id].info == x)
}

/// Distinct numbers below a bound are no more than the bound.
proof fn lemma_distinct_bounded(s: Seq<u32>, bound: int)
    requires
        s.no_duplicates(),
        0 <= bound,
        forall|i: int| 0 <= i < s.len() ==> (#[trigger] s[i]) < bound,
    ensures
        s.len() <= bound,
{
    let t = s.map_values(|x: u32| x as int);
    assert(t.no_duplicates()) by {
        assert forall|i: int, j: int| 0 <= i < t.len() && 0 <= j < t.len() && i != j implies t[i]
            != t[j] by {
            assert(s[i] != s[j]);
        }
    }
    t.unique_seq_to_set();
    let range = vstd::set_lib::set_int_range(0, bound);
    assert(t.to_set().subset_of(range)) by {
        assert forall|x: int| t.to_set().contains(x) implies range.contains(x) by {
            let i = choose|i: int| 0 <= i < t.len() && t[i] == x;
            assert(s[i] < bound);
        }
    }
    vstd::set_lib::lemma_int_range(0, bound);
    vstd::set_lib::lemma_len_subset(t.to_set(), range);
}

fn same_types(a: &Vec<TypeInfo>, b: &Vec<TypeInfo>) -> (same: bool)
    ensures
        same == (a@ == b@),
{
    if a.len() != b.len() {
        return false;
    }
    let mut i: usize = 0;
    while i < a.len()
        invariant
            i <= a@.len(),
            a@.len() == b@.len(),
            forall|k: int| 0 <= k < i ==> a@[k] == b@[k],
        decreases a@.len() - i,
    {
        if a[i] != b[i] {
            return false;
        }
        i = i + 1;
    }
    assert(a@ =~= b@);
    true
}

/// The store.
///
/// It owns the components of every entity. The entities with the same set of
/// component types share an archetype; the first archetype is the one of the
/// entities without components, and no two archetypes have the same signature.
/// An archetype, once made, stays where it is. The store remembers to which
/// archetype an entity went when its set of types changed, and sends the next
/// entity with the same change there without working the signature out again.
pub struct Frame {
    entities: Entities,
    archetypes: Vec<Archetype>,
    edges: Vec<Edge>,
}

/// A remembered move between archetypes: an entity of the archetype `source`
/// that loses the types `removed` and is given the types `added` goes to the
/// archetype `target`.
struct Edge {
    source: usize,
    added: Vec<TypeInfo>,
    removed: Vec<u64>,
    target: usize,
}

impl View for Frame {
    type V = Map<Entity, Row>;

    /// The live entities, each with its components.
    open spec fn view(&self) -> Map<Entity, Row> {
        Map::new(
            |e: Entity| self.allocator().is_live(e),
            |e: Entity| self.archetype_seq()[self.location(e).archetype as int].row(self.location(e).row as int),
        )
    }
}

impl Frame {
    /// The archetypes, in the order in which they were made.
    pub closed spec fn archetype_seq(&self) -> Seq<Archetype> {
        self.archetypes@
    }

    /// The entity allocator.
    pub closed spec fn allocator(&self) -> Entities {
        self.entities
    }

    /// Where the live entity `e` is stored.
    pub open spec fn location(&self, e: Entity) -> Location {
        self.allocator().location_of(e.id).unwrap()
    }

    /// The handles that are reserved and not flushed yet.
    pub open spec fn reserved(&self) -> Set<Entity> {
        Set::new(|e: Entity| self.allocator().is_reserved(e))
    }

    /// The live entities once the reservations are flushed: each reserved handle
    /// is an entity without components.
    pub open spec fn flushed(&self) -> Map<Entity, Row> {
        Map::new(
            |e: Entity| self@.contains_key(e) || self.reserved().contains(e),
            |e: Entity|
                if self@.contains_key(e) {
                    self@[e]
                } else {
                    Map::empty()
                },
        )
    }

    /// No column of any archetype is borrowed.
    pub open spec fn unborrowed(&self) -> bool {
        forall|a: int|
            0 <= a < self.archetype_seq().len() ==> (#[trigger] self.archetype_seq()[a]).unborrowed()
    }

    /// One more entity can be spawned.
    pub open spec fn has_room(&self) -> bool {
        self.allocator().has_room()
    }

    /// The number of ids that were issued so far, to entities or to
    /// reservations.
    pub open spec fn issued(&self) -> nat {
        self.allocator().slot_count() + self.allocator().pending()
    }

    /// The number of ids that were never issued yet. Entities can be spawned
    /// beyond it only under ids that came free.
    pub open spec fn room(&self) -> int {
        u32::MAX - self.issued()
    }

    /// The number of entities that can still be spawned: one for each free id
    /// and one for each id that was never issued.
    pub open spec fn spare(&self) -> int {
        self.room() + self.allocator().free_ids().len()
    }

    /// A store that can still spawn entities can spawn one.
    pub proof fn lemma_spare(&self)
        requires
            self.wf(),
        ensures
            self.room() >= 0,
            self.has_room() <==> self.spare() > 0,
    {
        self.lemma_wf();
        self.allocator().lemma_wf();
    }

    /// The store issues handles as `before` does: the same ids are free, the
    /// same number of ids was issued, and every id has the same generation.
    pub open spec fn ids_kept(&self, before: &Frame) -> bool {
        &&& self.allocator().free_ids() == before.allocator().free_ids()
        &&& self.issued() == before.issued()
        &&& forall|id: u32|
            self.allocator().generation_of(id) == before.allocator().generation_of(id)
    }

    /// The store issues handles as `before` does after it issued one: the id on
    /// top of the free ids is gone from them, or, where none was free, one more
    /// id was issued.
    pub open spec fn ids_after_spawn(&self, before: &Frame) -> bool {
        &&& if before.allocator().free_ids().len() > 0 {
            &&& self.allocator().free_ids() == before.allocator().free_ids().drop_last()
            &&& self.issued() == before.issued()
        } else {
            &&& self.allocator().free_ids() == before.allocator().free_ids()
            &&& self.issued() == before.issued() + 1
        }
        &&& forall|id: u32|
            self.allocator().generation_of(id) == before.allocator().generation_of(id)
    }

    /// The store issues handles as `before` does after the entity `e` ended: the
    /// slot of `e` has the next generation and its id is on top of the free
    /// ids, or, where `e` had the last generation, the slot is retired.
    pub open spec fn ids_after_despawn(&self, before: &Frame, e: Entity) -> bool {
        &&& self.issued() == before.issued()
        &&& self.allocator().free_ids() == if e.generation < u32::MAX {
            before.allocator().free_ids().push(e.id)
        } else {
            before.allocator().free_ids()
        }
        &&& self.allocator().generation_of(e.id) == if e.generation < u32::MAX {
            (e.generation + 1) as u32
        } else {
            e.generation
        }
        &&& forall|id: u32|
            id != e.id ==> self.allocator().generation_of(id) == before.allocator().generation_of(id)
    }

    /// The handle that the next spawn returns.
    pub open spec fn next_entity(&self) -> Entity {
        if self.allocator().free_ids().len() > 0 {
            Entity {
                id: self.allocator().free_ids().last(),
                generation: self.allocator().generation_of(self.allocator().free_ids().last()),
            }
        } else {
            Entity { id: (self.allocator().slot_count() + self.allocator().pending()) as u32, generation: 0 }
        }
    }

    /// The ids of the entities of the rows of archetype `a`.
    pub open spec fn ids_at(&self, a: int) -> Seq<u32> {
        self.archetype_seq()[a].entity_ids()
    }

    /// The ids of the entities of the rows of archetype `a` once the
    /// reservations are flushed: the reserved ids get the next rows of the first
    /// archetype, in their order.
    pub open spec fn flushed_ids(&self, a: int) -> Seq<u32> {
        if a == 0 {
            self.ids_at(0) + Seq::new(
                self.allocator().pending(),
                |k: int| (self.allocator().slot_count() + k) as u32,
            )
        } else if 0 < a < self.archetype_seq().len() {
            self.ids_at(a)
        } else {
            Seq::empty()
        }
    }

    /// Where the entity `e` is stored once the reservations are flushed.
    pub open spec fn flushed_location(&self, e: Entity) -> Location {
        if self@.contains_key(e) {
            self.location(e)
        } else {
            Location {
                archetype: 0,
                row: (self.ids_at(0).len() + e.id - self.allocator().slot_count()) as usize,
            }
        }
    }

    /// Where the entity of the id `id` is stored once the reservations are
    /// flushed, if the id has an entity then.
    pub open spec fn flushed_spot(&self, id: u32) -> Option<Location> {
        if self.allocator().location_of(id) is Some {
            self.allocator().location_of(id)
        } else if self.allocator().slot_count() <= id < self.issued() {
            Some(
                Location {
                    archetype: 0,
                    row: (self.ids_at(0).len() + id - self.allocator().slot_count()) as usize,
                },
            )
        } else {
            None
        }
    }

    /// The store issues handles as `before` does after the handle `e` was
    /// taken into use: the slot of `e` has the generation of `e`, its id is not
    /// free, and the ids between those that were issued and that of `e` are
    /// free.
    pub open spec fn ids_after_spawn_at(&self, before: &Frame, e: Entity) -> bool {
        &&& self.issued() == if e.id < before.issued() {
            before.issued()
        } else {
            (e.id + 1) as nat
        }
        &&& self.allocator().generation_of(e.id) == e.generation
        &&& forall|id: u32|
            id != e.id ==> self.allocator().generation_of(id) == before.allocator().generation_of(id)
        &&& self.allocator().free_ids() == if e.id >= before.issued() {
            before.allocator().free_ids() + Entities::id_range(before.issued() as int, e.id as int)
        } else if before.allocator().free_ids().contains(e.id) {
            before.allocator().free_ids().remove(before.allocator().free_ids().index_of(e.id))
        } else {
            before.allocator().free_ids()
        }
    }

    /// The archetypes have the rows that `before` has once its reservations are
    /// flushed, but for the entity that had the id of `e`, if there was one,
    /// whose row is removed, and for `e`, which has the last row of its
    /// archetype.
    pub open spec fn rows_after_spawn_at(&self, before: &Frame, e: Entity) -> bool {
        &&& self.location(e).archetype < self.archetype_seq().len()
        &&& forall|a: int|
            0 <= a < self.archetype_seq().len() ==> #[trigger] self.ids_at(a) == {
                let base = if before.flushed_spot(e.id) is Some && before.flushed_spot(
                    e.id,
                ).unwrap().archetype == a {
                    crate::archetype::swap_removed(
                        before.flushed_ids(a),
                        before.flushed_spot(e.id).unwrap().row as int,
                    )
                } else {
                    before.flushed_ids(a)
                };
                if a == self.location(e).archetype {
                    base.push(e.id)
                } else {
                    base
                }
            }
    }

    /// Every archetype has the rows that `before` has once its reservations are
    /// flushed, in the same order.
    pub open spec fn rows_kept(&self, before: &Frame) -> bool {
        forall|a: int|
            0 <= a < self.archetype_seq().len() ==> #[trigger] self.ids_at(a) == before.flushed_ids(a)
    }

    /// The archetypes have the rows that `before` has once its reservations are
    /// flushed, and archetype `t` has one more row at its end, for the entity
    /// `id`.
    pub open spec fn row_added(&self, before: &Frame, t: int, id: u32) -> bool {
        &&& 0 <= t < self.archetype_seq().len()
        &&& forall|a: int|
            0 <= a < self.archetype_seq().len() ==> #[trigger] self.ids_at(a) == if a == t {
                before.flushed_ids(a).push(id)
            } else {
                before.flushed_ids(a)
            }
    }

    /// The archetypes have the rows that `before` has once its reservations are
    /// flushed, but for the row at `l`: the last row of its archetype took its
    /// place.
    pub open spec fn row_removed(&self, before: &Frame, l: Location) -> bool {
        forall|a: int|
            0 <= a < self.archetype_seq().len() ==> #[trigger] self.ids_at(a) == if a
                == l.archetype {
                crate::archetype::swap_removed(before.flushed_ids(a), l.row as int)
            } else {
                before.flushed_ids(a)
            }
    }

    /// The archetypes have the rows that `before` has once its reservations are
    /// flushed, but the row at `l`, of the entity `id`, is now the last row of
    /// the archetype `t`, and the last row of its former archetype took its
    /// place.
    pub open spec fn row_moved(&self, before: &Frame, l: Location, t: int, id: u32) -> bool {
        &&& 0 <= t < self.archetype_seq().len()
        &&& t != l.archetype
        &&& forall|a: int|
            0 <= a < self.archetype_seq().len() ==> #[trigger] self.ids_at(a) == if a
                == l.archetype {
                crate::archetype::swap_removed(before.flushed_ids(a), l.row as int)
            } else if a == t {
                before.flushed_ids(a).push(id)
            } else {
                before.flushed_ids(a)
            }
    }

    /// The rows after the set of types of the live entity `e` was changed: the
    /// entity stayed where it was, with every other, or its row moved to the
    /// end of another archetype.
    pub open spec fn rows_exchanged(&self, before: &Frame, e: Entity) -> bool {
        if self.location(e).archetype == before.flushed_location(e).archetype {
            self.rows_kept(before) && self.location(e) == before.flushed_location(e)
        } else {
            self.row_moved(
                before,
                before.flushed_location(e),
                self.location(e).archetype as int,
                e.id,
            )
        }
    }

    /// Where nothing is reserved, the rows once the reservations are flushed
    /// are the rows.
    pub proof fn lemma_flushed_ids(&self)
        requires
            self.allocator().pending() == 0,
        ensures
            forall|a: int|
                0 <= a < self.archetype_seq().len() ==> #[trigger] self.flushed_ids(a) == self.ids_at(
                    a,
                ),
            forall|e: Entity| self@.contains_key(e) ==> self.flushed_location(e) == self.location(e),
    {
        assert forall|a: int| 0 <= a < self.archetype_seq().len() implies #[trigger] self.flushed_ids(
            a,
        ) == self.ids_at(a) by {
            assert(self.flushed_ids(a) =~= self.ids_at(a));
        }
    }

    /// The store has an archetype for the entities with exactly the types
    /// `types`.
    pub open spec fn has_archetype(&self, types: Set<TypeInfo>) -> bool {
        exists|a: int|
            0 <= a < self.archetype_seq().len() && (#[trigger] self.archetype_seq()[a]).signature().to_set()
                == types
    }

    /// The store has the number of archetypes that `before` has, and one more
    /// where `before` has no archetype for the entities with exactly the types
    /// of the components `row`: an archetype is made when an entity comes to
    /// have a set of types that no archetype is for, and only then.
    pub open spec fn archetypes_after(&self, before: &Frame, row: Row) -> bool {
        self.archetype_seq().len() == before.archetype_seq().len() + if before.has_archetype(
            types_of(row),
        ) {
            0int
        } else {
            1int
        }
    }

    /// Where the store has as many archetypes as `before`, or one more which
    /// is the one of the entity `e`, it has one more exactly where `before` has
    /// none for the types of `e`.
    proof fn lemma_archetypes_after(&self, before: &Frame, e: Entity)
        requires
            self.wf(),
            before.wf(),
            self.keeps_archetypes(before),
            self@.contains_key(e),
            self.archetypes@.len() == before.archetypes@.len() || (self.archetypes@.len()
                == before.archetypes@.len() + 1 && self.location(e).archetype
                == before.archetypes@.len()),
        ensures
            self.archetypes_after(before, self@[e]),
    {
        crate::laws::law_archetype_of(*self, e);
        let t = self.location(e).archetype as int;
        let types = types_of(self@[e]);
        assert(self.archetypes@[t].signature().to_set() =~= types);
        if self.archetypes@.len() == before.archetypes@.len() {
            assert(before.archetype_seq()[t].signature() == self.archetype_seq()[t].signature());
            assert(before.has_archetype(types));
        } else {
            if before.has_archetype(types) {
                let a = choose|a: int|
                    0 <= a < before.archetype_seq().len() && (
                    #[trigger] before.archetype_seq()[a]).signature().to_set() == types;
                let first = self.archetypes@[a].signature();
                let second = self.archetypes@[t].signature();
                assert(first == before.archetype_seq()[a].signature());
                assert(self.archetypes@[a].wf());
                assert(self.archetypes@[t].wf());
                self.archetypes@[a].lemma_wf();
                self.archetypes@[t].lemma_wf();
                assert forall|x: TypeInfo| first.contains(x) <==> second.contains(x) by {
                    assert(first.to_set().contains(x) == second.to_set().contains(x));
                }
                crate::component::lemma_canonical_unique(first, second);
                assert(self.archetypes@[a].signature() != self.archetypes@[t].signature());
            }
        }
    }

    /// Every archetype of `before` is still there, at its place and with its
    /// signature.
    pub open spec fn keeps_archetypes(&self, before: &Frame) -> bool {
        &&& before.archetype_seq().len() <= self.archetype_seq().len()
        &&& forall|a: int|
            0 <= a < before.archetype_seq().len() ==> (#[trigger] self.archetype_seq()[a]).signature()
                == before.archetype_seq()[a].signature()
    }

    spec fn holds(&self, id: u32, a: int, r: int) -> bool {
        &&& self.entities.location_of(id) is Some
        &&& self.entities.location_of(id).unwrap().archetype == a
        &&& self.entities.location_of(id).unwrap().row == r
    }

    spec fn placed(&self, id: u32, l: Location) -> bool {
        &&& l.archetype < self.archetypes@.len()
        &&& l.row < self.archetypes@[l.archetype as int].rows()
        &&& self.archetypes@[l.archetype as int].entity_ids()[l.row as int] == id
    }

    /// The store's invariant.
    pub closed spec fn wf(&self) -> bool {
        &&& self.entities.wf()
        &&& self.archetypes@.len() >= 1
        &&& self.archetypes@[0].signature().len() == 0
        &&& forall|a: int| 0 <= a < self.archetypes@.len() ==> (#[trigger] self.archetypes@[a]).wf()
        &&& forall|a: int, b: int|
            0 <= a < b < self.archetypes@.len() ==> (#[trigger] self.archetypes@[a]).signature() != (
            #[trigger] self.archetypes@[b]).signature()
        &&& forall|id: u32|
            (#[trigger] self.entities.location_of(id)) is Some ==> self.placed(
                id,
                self.entities.location_of(id).unwrap(),
            )
        &&& forall|a: int, r: int|
            0 <= a < self.archetypes@.len() && 0 <= r < self.archetypes@[a].rows() ==> self.holds(
                #[trigger] self.archetypes@[a].entity_ids()[r],
                a,
                r,
            )
        &&& self.edges_wf()
    }

    spec fn edge_ok(&self, edge: Edge) -> bool {
        &&& edge.source < self.archetypes@.len()
        &&& edge.target < self.archetypes@.len()
        &&& forall|x: TypeInfo|
            #![trigger self.archetypes@[edge.target as int].signature().contains(x)]
            #![trigger merged(without(self.archetypes@[edge.source as int].signature(), edge.removed@), edge.added@, x)]
            self.archetypes@[edge.target as int].signature().contains(x) <==> merged(
                without(self.archetypes@[edge.source as int].signature(), edge.removed@),
                edge.added@,
                x,
            )
    }

    /// The edge `edge` is the one of an entity of the archetype `source` that
    /// loses the types `removed` and is given the types `added`.
    spec fn edge_for(edge: Edge, source: usize, added: Seq<TypeInfo>, removed: Seq<u64>) -> bool {
        edge.source == source && edge.added@ == added && edge.removed@ == removed
    }

    spec fn edges_wf(&self) -> bool {
        forall|i: int| 0 <= i < self.edges@.len() ==> self.edge_ok(#[trigger] self.edges@[i])
    }

    /// What the store remembers of moves between archetypes stays true where
    /// the archetypes keep their signatures.
    proof fn lemma_edges_kept(&self, before: &Frame)
        requires
            before.edges_wf(),
            self.edges == before.edges,
            before.archetypes@.len() <= self.archetypes@.len(),
            forall|a: int|
                0 <= a < before.archetypes@.len() ==> (#[trigger] self.archetypes@[a]).signature()
                    == before.archetypes@[a].signature(),
        ensures
            self.edges_wf(),
    {
        assert forall|i: int| 0 <= i < self.edges@.len() implies self.edge_ok(
            #[trigger] self.edges@[i],
        ) by {
            let edge = self.edges@[i];
            assert(before.edge_ok(before.edges@[i]));
            assert(self.archetypes@[edge.source as int].signature()
                == before.archetypes@[edge.source as int].signature());
            assert(self.archetypes@[edge.target as int].signature()
                == before.archetypes@[edge.target as int].signature());
        }
    }

    /// What the invariant says: the allocator and the archetypes are sound, the
    /// first archetype has no columns, no two archetypes have the same
    /// signature, and the slot of a live entity and the row that holds the
    /// entity name each other.
    pub proof fn lemma_wf(&self)
        requires
            self.wf(),
        ensures
            self.allocator().wf(),
            self.archetype_seq().len() >= 1,
            self.archetype_seq()[0].signature().len() == 0,
            forall|a: int|
                0 <= a < self.archetype_seq().len() ==> (#[trigger] self.archetype_seq()[a]).wf(),
            forall|a: int, b: int|
                0 <= a < b < self.archetype_seq().len() ==> (
                #[trigger] self.archetype_seq()[a]).signature() != (
                #[trigger] self.archetype_seq()[b]).signature(),
            forall|id: u32|
                (#[trigger] self.allocator().location_of(id)) is Some ==> {
                    let l = self.allocator().location_of(id).unwrap();
                    &&& l.archetype < self.archetype_seq().len()
                    &&& l.row < self.archetype_seq()[l.archetype as int].rows()
                    &&& self.archetype_seq()[l.archetype as int].entity_ids()[l.row as int] == id
                },
            forall|a: int, r: int|
                0 <= a < self.archetype_seq().len() && 0 <= r < self.archetype_seq()[a].rows() ==> {
                    let l = self.allocator().location_of(
                        #[trigger] self.archetype_seq()[a].entity_ids()[r],
                    );
                    l is Some && l.unwrap().archetype == a && l.unwrap().row == r
                },
    {
        assert forall|a: int, r: int|
            0 <= a < self.archetype_seq().len() && 0 <= r < self.archetype_seq()[a].rows() implies {
            let l = self.allocator().location_of(#[trigger] self.archetype_seq()[a].entity_ids()[r]);
            l is Some && l.unwrap().archetype == a && l.unwrap().row == r
        } by {
            assert(self.holds(self.archetypes@[a].entity_ids()[r], a, r));
        }
    }

    /// An archetype that does not hold the entity `extra` has room for one more
    /// row.
    proof fn lemma_rows_bound(&self, a: int, extra: u32)
        requires
            self.wf(),
            0 <= a < self.archetypes@.len(),
            extra < u32::MAX,
            self.entities.location_of(extra) is None || self.entities.location_of(
                extra,
            ).unwrap().archetype != a,
        ensures
            self.archetypes@[a].rows() < u32::MAX,
            self.archetypes@[a].rows() < usize::MAX,
    {
        let ids = self.archetypes@[a].entity_ids();
        let s = ids.push(extra);
        self.entities.lemma_wf();
        assert forall|i: int| 0 <= i < s.len() implies (#[trigger] s[i]) < u32::MAX by {
            if i < ids.len() {
                assert(self.holds(ids[i], a, i));
            }
        }
        assert forall|i: int, j: int| 0 <= i < s.len() && 0 <= j < s.len() && i != j implies s[i]
            != s[j] by {
            if i < ids.len() {
                assert(self.holds(ids[i], a, i));
            }
            if j < ids.len() {
                assert(self.holds(ids[j], a, j));
            }
        }
        lemma_distinct_bounded(s, u32::MAX as int);
    }

    /// A store without entities. It has one archetype, the one without columns.
    pub fn new() -> (frame: Frame)
        ensures
            frame.wf(),
            frame.unborrowed(),
            frame@ == Map::<Entity, Row>::empty(),
            frame.reserved() == Set::<Entity>::empty(),
            frame.archetype_seq().len() == 1,
            frame.archetype_seq()[0].signature() == Seq::<TypeInfo>::empty(),
            frame.archetype_seq()[0].rows() == 0,
            frame.next_entity() == (Entity { id: 0, generation: 0 }),
            frame.has_room(),
            frame.issued() == 0,
            frame.room() == u32::MAX,
            frame.allocator().pending() == 0,
            frame.allocator().free_ids() == Seq::<u32>::empty(),
    {
        let mut archetypes: Vec<Archetype> = Vec::new();
        archetypes.push(Archetype::new(Vec::new()));
        let frame = Frame { entities: Entities::new(), archetypes, edges: Vec::new() };
        proof {
            frame.entities.lemma_wf();
            assert forall|id: u32| frame.entities.location_of(id) is None by {
                if frame.entities.location_of(id) is Some {
                    assert(id < frame.entities.slot_count());
                }
            }
            assert(frame@ =~= Map::<Entity, Row>::empty());
            assert(frame.reserved() =~= Set::<Entity>::empty());
        }
        frame
    }

    /// The archetypes, in the order in which they were made.
    pub fn archetypes(&self) -> (archetypes: &Vec<Archetype>)
        ensures
            archetypes@ == self.archetype_seq(),
    {
        &self.archetypes
    }

    /// Whether `e` is a live entity: its slot is live and has the generation
    /// of `e`.
    pub fn contains(&self, e: Entity) -> (b: bool)
        ensures
            b == self@.contains_key(e),
            b == (self.allocator().location_of(e.id) is Some && self.allocator().generation_of(e.id)
                == e.generation),
    {
        self.entities.contains(e)
    }

    /// The number of live entities.
    pub fn len(&self) -> (n: u32)
        requires
            self.wf(),
        ensures
            n == self@.len(),
            self@.dom().finite(),
    {
        proof {
            self.entities.lemma_wf();
            assert(self@.dom() =~= self.entities.live_set());
        }
        self.entities.len()
    }

    /// Whether one more entity can be spawned.
    pub fn can_spawn(&self) -> (b: bool)
        requires
            self.wf(),
        ensures
            b == self.has_room(),
    {
        self.entities.can_allocate()
    }

    /// Whether `n` more entities can be spawned.
    pub fn can_spawn_many(&self, n: usize) -> (b: bool)
        requires
            self.wf(),
        ensures
            b == (self.spare() >= n),
    {
        let room = self.room_left() as usize;
        let free = self.entities.free_count();
        n <= room || n - room <= free
    }

    /// The number of ids that were never issued yet.
    pub fn room_left(&self) -> (n: u32)
        requires
            self.wf(),
        ensures
            n == self.room(),
    {
        proof {
            self.entities.lemma_wf();
        }
        u32::MAX - self.entities.slots() - self.entities.pending_count()
    }

    /// Reserves a handle. The handle names no entity until the reservations are
    /// flushed, which every operation that changes the store does first.
    pub fn reserve_entity(&mut self) -> (e: Entity)
        requires
            old(self).wf(),
            old(self).allocator().slot_count() + old(self).allocator().pending() < u32::MAX,
        ensures
            final(self).wf(),
            final(self)@ == old(self)@,
            final(self).reserved() == old(self).reserved().insert(e),
            !old(self).reserved().contains(e),
            !old(self)@.contains_key(e),
            final(self).archetype_seq() == old(self).archetype_seq(),
            e == (Entity {
                id: (old(self).allocator().slot_count() + old(self).allocator().pending()) as u32,
                generation: 0,
            }),
            e == (Entity { id: old(self).issued() as u32, generation: 0 }),
            final(self).issued() == old(self).issued() + 1,
            final(self).allocator().slot_count() == old(self).allocator().slot_count(),
            final(self).allocator().pending() == old(self).allocator().pending() + 1,
            final(self).allocator().free_ids() == old(self).allocator().free_ids(),
            forall|id: u32|
                final(self).allocator().generation_of(id) == old(self).allocator().generation_of(id),
            forall|id: u32|
                final(self).allocator().location_of(id) == old(self).allocator().location_of(id),
            final(self).unborrowed() == old(self).unborrowed(),
    {
        let e = self.entities.reserve();
        proof {
            assert(self@ =~= old(self)@);
            assert(self.reserved() =~= old(self).reserved().insert(e));
        }
        e
    }

    /// Makes an entity without components of each reserved handle.
    pub fn flush(&mut self)
        requires
            old(self).wf(),
            old(self).unborrowed(),
        ensures
            final(self).wf(),
            final(self).unborrowed(),
            final(self)@ == old(self).flushed(),
            final(self).reserved() == Set::<Entity>::empty(),
            final(self).allocator().pending() == 0,
            final(self).keeps_archetypes(old(self)),
            final(self).archetype_seq().len() == old(self).archetype_seq().len(),
            final(self).next_entity() == old(self).next_entity(),
            final(self).has_room() == old(self).has_room(),
            final(self).room() == old(self).room(),
            final(self).ids_kept(old(self)),
            final(self).rows_kept(old(self)),
            forall|e: Entity|
                old(self).flushed().contains_key(e) ==> final(self).location(e) == old(self).flushed_location(e),
            forall|id: u32| final(self).allocator().location_of(id) == old(self).flushed_spot(id),
    {
        while self.entities.pending_count() > 0
            invariant
                self.wf(),
                self.room() == old(self).room(),
                self.ids_kept(old(self)),
                forall|a: int|
                    0 <= a < self.archetypes@.len() ==> #[trigger] self.flushed_ids(a) == old(self).flushed_ids(a),
                forall|e: Entity|
                    old(self).flushed().contains_key(e) ==> self.flushed_location(e) == old(self).flushed_location(e),
                forall|id: u32| self.flushed_spot(id) == old(self).flushed_spot(id),
                self.unborrowed(),
                self.flushed() == old(self).flushed(),
                self.archetypes@.len() == old(self).archetypes@.len(),
                self.keeps_archetypes(old(self)),
                self.next_entity() == old(self).next_entity(),
                self.has_room() == old(self).has_room(),
            decreases self.entities.pending(),
        {
            let ghost before = *self;
            let id = self.entities.slots();
            proof {
                self.entities.lemma_wf();
                self.lemma_rows_bound(0, id);
            }
            let row = self.archetypes[0].allocate_row(id);
            let e = self.entities.flush_one(Location { archetype: 0, row });
            proof {
                before.entities.lemma_wf();
                assert(self.holds(e.id, 0, row as int));
                assert(zero_row(before.archetypes@[0].signature()) =~= Map::<u64, ComponentView>::empty());
                self.lemma_grown(&before, 0, e);
                assert(self.flushed() =~= before.flushed());
                assert forall|a: int| 0 <= a < self.archetypes@.len() implies #[trigger] self.flushed_ids(
                    a,
                ) == before.flushed_ids(a) by {
                    if a != 0 {
                        assert(self.archetypes@[a] == before.archetypes@[a]);
                    }
                    assert(self.flushed_ids(a) =~= before.flushed_ids(a));
                }
                assert forall|x: Entity| before.flushed().contains_key(x) implies self.flushed_location(
                    x,
                ) == before.flushed_location(x) by {
                    if before@.contains_key(x) {
                        assert(before.placed(x.id, before.entities.location_of(x.id).unwrap()));
                    }
                }
                assert forall|other: u32| self.flushed_spot(other) == before.flushed_spot(other) by {
                    if before.entities.location_of(other) is Some {
                        assert(before.placed(other, before.entities.location_of(other).unwrap()));
                    }
                }
            }
        }
        proof {
            assert(self.reserved() =~= Set::<Entity>::empty());
            assert(self@ =~= self.flushed());
            self.lemma_flushed_ids();
            assert forall|a: int| 0 <= a < self.archetype_seq().len() implies #[trigger] self.ids_at(a)
                == old(self).flushed_ids(a) by {
                assert(self.flushed_ids(a) == self.ids_at(a));
            }
            assert forall|id: u32| self.allocator().location_of(id) == old(self).flushed_spot(id) by {
                self.entities.lemma_wf();
                assert(self.flushed_spot(id) == old(self).flushed_spot(id));
            }
        }
    }

    /// After archetype `a` got one more row, for the entity `e` that was not
    /// live before, the store is sound again, and only `e` is new.
    proof fn lemma_grown(&self, before: &Frame, a: int, e: Entity)
        requires
            self.edges == before.edges,
            before.wf(),
            before.unborrowed(),
            0 <= a < before.archetypes@.len(),
            self.archetypes@.len() == before.archetypes@.len(),
            forall|b: int|
                0 <= b < before.archetypes@.len() && b != a ==> self.archetypes@[b]
                    == before.archetypes@[b],
            self.archetypes@[a].wf(),
            self.archetypes@[a].unborrowed(),
            self.archetypes@[a].signature() == before.archetypes@[a].signature(),
            self.archetypes@[a].entity_ids() == before.archetypes@[a].entity_ids().push(e.id),
            forall|r: int|
                0 <= r < before.archetypes@[a].rows() ==> self.archetypes@[a].row(r)
                    == before.archetypes@[a].row(r),
            self.entities.wf(),
            before.entities.location_of(e.id) is None,
            self.holds(e.id, a, before.archetypes@[a].rows() as int),
            self.entities.is_live(e),
            forall|other: u32|
                other != e.id ==> self.entities.location_of(other) == before.entities.location_of(
                    other,
                ),
            forall|other: u32|
                other != e.id && other < before.entities.slot_count() ==> self.entities.generation_of(
                    other,
                ) == before.entities.generation_of(other),
        ensures
            self.wf(),
            self.unborrowed(),
            self.keeps_archetypes(before),
            self@ == before@.insert(e, self.archetypes@[a].row(before.archetypes@[a].rows() as int)),
            !before@.contains_key(e),
    {
        self.lemma_edges_kept(before);
        before.entities.lemma_wf();
        assert forall|b: int, r: int|
            0 <= b < self.archetypes@.len() && 0 <= r < self.archetypes@[b].rows() implies self.holds(
            #[trigger] self.archetypes@[b].entity_ids()[r],
            b,
            r,
        ) by {
            if b == a && r == before.archetypes@[a].rows() {
            } else {
                assert(before.holds(before.archetypes@[b].entity_ids()[r], b, r));
            }
        }
        assert forall|id: u32| (#[trigger] self.entities.location_of(id)) is Some implies self.placed(
            id,
            self.entities.location_of(id).unwrap(),
        ) by {
            if id != e.id {
                assert(before.placed(id, before.entities.location_of(id).unwrap()));
            }
        }
        assert forall|b: int| 0 <= b < self.archetypes@.len() implies (
        #[trigger] self.archetypes@[b]).wf() by {
            if b != a {
                assert(before.archetypes@[b].wf());
            }
        }
        assert forall|b: int, c: int| 0 <= b < c < self.archetypes@.len() implies (
        #[trigger] self.archetypes@[b]).signature() != (
        #[trigger] self.archetypes@[c]).signature() by {
            assert(before.archetypes@[b].signature() != before.archetypes@[c].signature());
        }
        assert forall|b: int| 0 <= b < self.archetype_seq().len() implies (
        #[trigger] self.archetype_seq()[b]).unborrowed() by {
            if b != a {
                assert(before.archetype_seq()[b].unborrowed());
            }
        }
        assert(self.archetypes@[0].signature() == before.archetypes@[0].signature());
        let row = self.archetypes@[a].row(before.archetypes@[a].rows() as int);
        assert forall|x: Entity| self@.contains_key(x) <==> before@.insert(e, row).contains_key(
            x,
        ) by {
            if x.id != e.id {
                if before.entities.location_of(x.id) is Some {
                    assert(x.id < before.entities.slot_count());
                }
            }
        }
        assert forall|x: Entity| self@.contains_key(x) implies #[trigger] self@[x] == before@.insert(
            e,
            row,
        )[x] by {
            if x.id != e.id {
                assert(before.placed(x.id, before.entities.location_of(x.id).unwrap()));
            }
        }
        assert(self@ =~= before@.insert(e, row));
    }
}

} // verus!

verus! {

impl Frame {
    /// After the cells of row `r` of archetype `a` were rewritten, the store is
    /// sound again, and only the entity of that row has other components.
    proof fn lemma_rewritten(&self, before: &Frame, a: int, r: int, e: Entity)
        requires
            self.edges == before.edges,
            before.wf(),
            before@.contains_key(e),
            before.holds(e.id, a, r),
            self.entities == before.entities,
            self.archetypes@.len() == before.archetypes@.len(),
            forall|b: int|
                0 <= b < before.archetypes@.len() && b != a ==> self.archetypes@[b]
                    == before.archetypes@[b],
            self.archetypes@[a].wf(),
            self.archetypes@[a].signature() == before.archetypes@[a].signature(),
            self.archetypes@[a].entity_ids() == before.archetypes@[a].entity_ids(),
            forall|s: int|
                0 <= s < before.archetypes@[a].rows() && s != r ==> self.archetypes@[a].row(s)
                    == before.archetypes@[a].row(s),
        ensures
            self.wf(),
            self.keeps_archetypes(before),
            self@ == before@.insert(e, self.archetypes@[a].row(r)),
    {
        self.lemma_edges_kept(before);
        assert(before.placed(e.id, before.entities.location_of(e.id).unwrap()));
        assert forall|b: int, s: int|
            0 <= b < self.archetypes@.len() && 0 <= s < self.archetypes@[b].rows() implies self.holds(
            #[trigger] self.archetypes@[b].entity_ids()[s],
            b,
            s,
        ) by {
            assert(before.holds(before.archetypes@[b].entity_ids()[s], b, s));
        }
        assert forall|id: u32| (#[trigger] self.entities.location_of(id)) is Some implies self.placed(
            id,
            self.entities.location_of(id).unwrap(),
        ) by {
            assert(before.placed(id, before.entities.location_of(id).unwrap()));
        }
        assert forall|b: int| 0 <= b < self.archetypes@.len() implies (
        #[trigger] self.archetypes@[b]).wf() by {
            if b != a {
                assert(before.archetypes@[b].wf());
            }
        }
        assert forall|b: int, c: int| 0 <= b < c < self.archetypes@.len() implies (
        #[trigger] self.archetypes@[b]).signature() != (
        #[trigger] self.archetypes@[c]).signature() by {
            assert(before.archetypes@[b].signature() != before.archetypes@[c].signature());
        }
        assert(self.archetypes@[0].signature() == before.archetypes@[0].signature());
        let row = self.archetypes@[a].row(r);
        assert forall|x: Entity| self@.contains_key(x) implies #[trigger] self@[x] == before@.insert(
            e,
            row,
        )[x] by {
            assert(before.placed(x.id, before.entities.location_of(x.id).unwrap()));
            if x.id != e.id {
                let l = before.entities.location_of(x.id).unwrap();
                if l.archetype == a && l.row == r {
                    assert(before.archetypes@[a].entity_ids()[r] == x.id);
                    assert(false);
                }
            }
        }
        assert(self@ =~= before@.insert(e, row));
    }

    /// After row `r` of archetype `a`, the one of the entity `e`, was removed
    /// and the last row took its place, and after the allocator was told so, the
    /// store is sound again, and only `e` is gone from it.
    proof fn lemma_shrunk(&self, before: &Frame, a: int, r: int, e: Entity)
        requires
            self.edges == before.edges,
            before.wf(),
            before@.contains_key(e),
            before.holds(e.id, a, r),
            self.entities.wf(),
            self.archetypes@.len() == before.archetypes@.len(),
            forall|b: int|
                0 <= b < before.archetypes@.len() && b != a ==> self.archetypes@[b]
                    == before.archetypes@[b],
            self.archetypes@[a].wf(),
            self.archetypes@[a].signature() == before.archetypes@[a].signature(),
            self.archetypes@[a].entity_ids() == crate::archetype::swap_removed(
                before.archetypes@[a].entity_ids(),
                r,
            ),
            forall|s: int|
                0 <= s < self.archetypes@[a].rows() && s != r ==> self.archetypes@[a].row(s)
                    == before.archetypes@[a].row(s),
            r < self.archetypes@[a].rows() ==> self.archetypes@[a].row(r) == before.archetypes@[a].row(
                before.archetypes@[a].rows() - 1,
            ),
            self.entities.location_of(e.id) is None,
            forall|other: u32|
                other != e.id ==> self.entities.generation_of(other) == before.entities.generation_of(
                    other,
                ),
            forall|other: u32|
                other != e.id && !(r < before.archetypes@[a].rows() - 1 && other
                    == before.archetypes@[a].entity_ids().last()) ==> self.entities.location_of(other)
                    == before.entities.location_of(other),
            r < before.archetypes@[a].rows() - 1 ==> self.holds(
                before.archetypes@[a].entity_ids().last(),
                a,
                r,
            ),
        ensures
            self.wf(),
            self.keeps_archetypes(before),
            self@ == before@.remove(e),
    {
        self.lemma_edges_kept(before);
        let old_ids = before.archetypes@[a].entity_ids();
        let last = old_ids.len() - 1;
        assert(before.placed(e.id, before.entities.location_of(e.id).unwrap()));
        assert(before.holds(old_ids[last], a, last));
        assert forall|b: int, s: int|
            0 <= b < self.archetypes@.len() && 0 <= s < self.archetypes@[b].rows() implies self.holds(
            #[trigger] self.archetypes@[b].entity_ids()[s],
            b,
            s,
        ) by {
            assert(before.holds(before.archetypes@[b].entity_ids()[s], b, s));
            if b == a && s == r {
            } else {
                let id = self.archetypes@[b].entity_ids()[s];
                assert(id == before.archetypes@[b].entity_ids()[s]);
                assert(before.holds(old_ids[r], a, r));
            }
        }
        assert forall|id: u32| (#[trigger] self.entities.location_of(id)) is Some implies self.placed(
            id,
            self.entities.location_of(id).unwrap(),
        ) by {
            if r < last && id == old_ids[last] {
            } else {
                assert(before.placed(id, before.entities.location_of(id).unwrap()));
                let l = before.entities.location_of(id).unwrap();
                if l.archetype == a {
                    assert(before.holds(old_ids[l.row as int], a, l.row as int));
                }
            }
        }
        assert forall|b: int| 0 <= b < self.archetypes@.len() implies (
        #[trigger] self.archetypes@[b]).wf() by {
            if b != a {
                assert(before.archetypes@[b].wf());
            }
        }
        assert forall|b: int, c: int| 0 <= b < c < self.archetypes@.len() implies (
        #[trigger] self.archetypes@[b]).signature() != (
        #[trigger] self.archetypes@[c]).signature() by {
            assert(before.archetypes@[b].signature() != before.archetypes@[c].signature());
        }
        assert(self.archetypes@[0].signature() == before.archetypes@[0].signature());
        assert forall|x: Entity| self@.contains_key(x) implies #[trigger] self@[x] == before@[x] by {
            assert(before.placed(x.id, before.entities.location_of(x.id).unwrap()));
            let l = before.entities.location_of(x.id).unwrap();
            if l.archetype == a {
                assert(before.holds(old_ids[l.row as int], a, l.row as int));
            }
        }
        assert(self@ =~= before@.remove(e));
    }

    /// Keeps the borrow counts: where only archetype `a` changed, and its
    /// counts did not, an unborrowed store stays unborrowed.
    proof fn lemma_still_unborrowed(&self, before: &Frame, a: int)
        requires
            before.unborrowed(),
            self.archetypes@.len() == before.archetypes@.len(),
            forall|b: int|
                0 <= b < before.archetypes@.len() && b != a ==> self.archetypes@[b]
                    == before.archetypes@[b],
            0 <= a < self.archetypes@.len() ==> self.archetypes@[a].unborrowed(),
        ensures
            self.unborrowed(),
    {
        assert forall|b: int| 0 <= b < self.archetype_seq().len() implies (
        #[trigger] self.archetype_seq()[b]).unborrowed() by {
            if b != a {
                assert(before.archetype_seq()[b].unborrowed());
            }
        }
    }

    /// The archetype with the signature `types`, which is made if the store has
    /// none yet.
    fn archetype_for(&mut self, types: Vec<TypeInfo>) -> (a: usize)
        requires
            old(self).wf(),
            old(self).unborrowed(),
            canonical(types@),
            distinct_ids(types@),
        ensures
            final(self).wf(),
            final(self).unborrowed(),
            a < final(self).archetypes@.len(),
            final(self).archetypes@[a as int].signature() == types@,
            final(self).entities == old(self).entities,
            final(self)@ == old(self)@,
            final(self).keeps_archetypes(old(self)),
            forall|b: int|
                0 <= b < old(self).archetypes@.len() ==> final(self).archetypes@[b] == old(self).archetypes@[b],
            final(self).archetypes@.len() == old(self).archetypes@.len() || (final(self).archetypes@.len() == old(self).archetypes@.len() + 1 && a == old(self).archetypes@.len()),
            (exists|b: int|
                0 <= b < old(self).archetypes@.len() && (#[trigger] old(self).archetypes@[b]).signature()
                    == types@) ==> final(self).archetypes@.len() == old(self).archetypes@.len(),
            final(self).archetypes@.len() > old(self).archetypes@.len() ==> final(self).archetypes@[a as int].rows() == 0
                && final(self).archetypes@[a as int].cap() == 0,
    {
        let mut a: usize = 0;
        while a < self.archetypes.len()
            invariant
                a <= self.archetypes@.len(),
                *self == *old(self),
                self.wf(),
                self.unborrowed(),
                forall|b: int| 0 <= b < a ==> (#[trigger] self.archetypes@[b]).signature() != types@,
            decreases self.archetypes@.len() - a,
        {
            if same_types(self.archetypes[a].types(), &types) {
                return a;
            }
            a = a + 1;
        }
        let ghost signature = types@;
        let made = Archetype::new(types);
        self.archetypes.push(made);
        proof {
            let before = old(self);
            self.lemma_edges_kept(before);
            assert forall|b: int, s: int|
                0 <= b < self.archetypes@.len() && 0 <= s < self.archetypes@[b].rows() implies self.holds(
                #[trigger] self.archetypes@[b].entity_ids()[s],
                b,
                s,
            ) by {
                assert(before.holds(before.archetypes@[b].entity_ids()[s], b, s));
            }
            assert forall|id: u32| (#[trigger] self.entities.location_of(id)) is Some implies self.placed(
                id,
                self.entities.location_of(id).unwrap(),
            ) by {
                assert(before.placed(id, before.entities.location_of(id).unwrap()));
            }
            assert forall|b: int| 0 <= b < self.archetypes@.len() implies (
            #[trigger] self.archetypes@[b]).wf() by {
                if b < a {
                    assert(before.archetypes@[b].wf());
                }
            }
            assert forall|b: int, c: int| 0 <= b < c < self.archetypes@.len() implies (
            #[trigger] self.archetypes@[b]).signature() != (
            #[trigger] self.archetypes@[c]).signature() by {
                if c < a {
                    assert(before.archetypes@[b].signature() != before.archetypes@[c].signature());
                }
            }
            assert forall|b: int| 0 <= b < self.archetype_seq().len() implies (
            #[trigger] self.archetype_seq()[b]).unborrowed() by {
                if b < a {
                    assert(before.archetype_seq()[b].unborrowed());
                }
            }
            assert forall|x: Entity| self@.contains_key(x) implies #[trigger] self@[x] == before@[x] by {
                assert(before.placed(x.id, before.entities.location_of(x.id).unwrap()));
            }
            assert(self@ =~= before@);
        }
        a
    }

    /// Allocates an entity with a zeroed row in archetype `a`.
    fn place(&mut self, a: usize) -> (e: Entity)
        requires
            old(self).wf(),
            old(self).unborrowed(),
            a < old(self).archetypes@.len(),
            old(self).entities.pending() == 0,
            old(self).entities.has_room(),
        ensures
            final(self).wf(),
            final(self).unborrowed(),
            e == old(self).entities.next(),
            !old(self)@.contains_key(e),
            final(self)@ == old(self)@.insert(e, zero_row(old(self).archetypes@[a as int].signature())),
            final(self).keeps_archetypes(old(self)),
            final(self).archetypes@.len() == old(self).archetypes@.len(),
            final(self).holds(e.id, a as int, old(self).archetypes@[a as int].rows() as int),
            final(self).entities.pending() == 0,
            old(self).room() - 1 <= final(self).room() <= old(self).room(),
            final(self).ids_after_spawn(old(self)),
            final(self).archetypes@[a as int].entity_ids() == old(self).archetypes@[a as int].entity_ids().push(e.id),
            forall|b: int|
                0 <= b < old(self).archetypes@.len() && b != a ==> final(self).archetypes@[b] == old(self).archetypes@[b],
    {
        let row = self.archetypes[a].len();
        let e = self.entities.allocate(Location { archetype: a, row });
        proof {
            self.entities.lemma_wf();
            old(self).lemma_rows_bound(a as int, e.id);
            assert(old(self).archetype_seq()[a as int].unborrowed());
        }
        self.archetypes[a].allocate_row(e.id);
        proof {
            self.lemma_grown(old(self), a as int, e);
        }
        e
    }

    /// Copies `components`, one after the other, into the row of the live
    /// entity `e`, whose archetype has a column for each of them.
    fn write_row(&mut self, e: Entity, components: &Vec<Component>)
        requires
            old(self).wf(),
            old(self)@.contains_key(e),
            forall|i: int|
                0 <= i < components@.len() ==> (#[trigger] components@[i]).wf() && old(self).archetypes@[old(self).location(e).archetype as int].signature().contains(
                    components@[i].info,
                ),
        ensures
            final(self).wf(),
            final(self).unborrowed() == old(self).unborrowed(),
            final(self).entities == old(self).entities,
            final(self).keeps_archetypes(old(self)),
            final(self).archetypes@.len() == old(self).archetypes@.len(),
            final(self)@ == old(self)@.insert(
                e,
                old(self)@[e].union_prefer_right(by_id(views(components@))),
            ),
            forall|b: int|
                0 <= b < old(self).archetypes@.len() ==> (#[trigger] final(self).archetypes@[b]).entity_ids() == old(self).archetypes@[b].entity_ids(),
    {
        let location = self.entities.get(e).unwrap();
        let a = location.archetype;
        let row = location.row;
        proof {
            assert(self.placed(e.id, location));
            assert(views(components@).take(0) =~= Seq::<ComponentView>::empty());
            assert(by_id(views(components@).take(0)) =~= Map::<u64, ComponentView>::empty());
            assert(old(self)@[e].union_prefer_right(by_id(views(components@).take(0))) =~= old(self)@[e]);
            assert(self@ =~= old(self)@.insert(
                e,
                old(self)@[e].union_prefer_right(by_id(views(components@).take(0))),
            ));
        }
        let mut i: usize = 0;
        while i < components.len()
            invariant
                i <= components@.len(),
                self.wf(),
                old(self).wf(),
                self.unborrowed() == old(self).unborrowed(),
                self.entities == old(self).entities,
                self.edges == old(self).edges,
                self.keeps_archetypes(old(self)),
                self.archetypes@.len() == old(self).archetypes@.len(),
                self@.contains_key(e),
                self.location(e) == location,
                a == location.archetype,
                row == location.row,
                a < self.archetypes@.len(),
                row < self.archetypes@[a as int].rows(),
                self.archetypes@[a as int].signature() == old(self).archetypes@[a as int].signature(),
                forall|b: int|
                    0 <= b < old(self).archetypes@.len() ==> (#[trigger] self.archetypes@[b]).entity_ids()
                        == old(self).archetypes@[b].entity_ids(),
                forall|k: int|
                    0 <= k < components@.len() ==> (#[trigger] components@[k]).wf() && old(self).archetypes@[a as int].signature().contains(components@[k].info),
                self@ == old(self)@.insert(
                    e,
                    old(self)@[e].union_prefer_right(by_id(views(components@).take(i as int))),
                ),
            decreases components@.len() - i,
        {
            let ghost before = *self;
            self.archetypes[a].put(row, &components[i]);
            proof {
                assert forall|b: int| 0 <= b < old(self).archetypes@.len() implies (
                #[trigger] self.archetypes@[b]).entity_ids() == old(self).archetypes@[b].entity_ids() by {
                    assert(before.archetypes@[b].entity_ids() == old(self).archetypes@[b].entity_ids());
                }
                self.lemma_rewritten(&before, a as int, row as int, e);
                let done = views(components@).take(i as int);
                let next = views(components@).take(i + 1);
                let c = components@[i as int]@;
                assert(next.drop_last() =~= done);
                assert(next.last() == c);
                assert(by_id(next) == by_id(done).insert(c.info.id, c));
                let m = old(self)@[e];
                let r0 = before@[e];
                assert(r0 == m.union_prefer_right(by_id(done)));
                assert(r0 == before.archetypes@[a as int].row(row as int));
                assert(self.archetypes@[a as int].row(row as int) == r0.insert(c.info.id, c));
                assert(r0.insert(c.info.id, c) =~= m.union_prefer_right(by_id(next)));
                assert(self@ =~= old(self)@.insert(e, old(self)@[e].union_prefer_right(by_id(next))));
                if before.unborrowed() {
                    assert(before.archetype_seq()[a as int].unborrowed());
                    assert forall|c: int|
                        0 <= c < self.archetypes@[a as int].signature().len() implies #[trigger] self.archetypes@[a as int].borrow_of(
                        c,
                    ) == 0 by {
                        assert(before.archetypes@[a as int].borrow_of(c) == 0);
                    }
                    self.lemma_still_unborrowed(&before, a as int);
                } else {
                    let b = choose|b: int|
                        0 <= b < before.archetype_seq().len() && !(
                        #[trigger] before.archetype_seq()[b]).unborrowed();
                    if b == a {
                        let c = choose|c: int|
                            0 <= c < before.archetypes@[a as int].signature().len() && !(
                            #[trigger] before.archetypes@[a as int].borrow_of(c) == 0);
                        assert(self.archetypes@[a as int].borrow_of(c) != 0);
                        assert(!self.archetype_seq()[a as int].unborrowed());
                    } else {
                        assert(!self.archetype_seq()[b].unborrowed());
                    }
                }
            }
            i = i + 1;
        }
        proof {
            assert(views(components@).take(i as int) =~= views(components@));
        }
    }

    /// Spawns an entity with the components of `bundle` and returns its handle.
    /// Reservations are flushed first.
    pub fn spawn(&mut self, bundle: Bundle) -> (e: Entity)
        requires
            old(self).wf(),
            old(self).unborrowed(),
            old(self).has_room(),
            bundle.wf(),
        ensures
            final(self).wf(),
            final(self).unborrowed(),
            e == old(self).next_entity(),
            !old(self).flushed().contains_key(e),
            final(self)@ == old(self).flushed().insert(e, by_id(bundle@)),
            final(self).reserved() == Set::<Entity>::empty(),
            final(self).keeps_archetypes(old(self)),
            old(self).room() - 1 <= final(self).room() <= old(self).room(),
            final(self).ids_after_spawn(old(self)),
            final(self).row_added(old(self), final(self).location(e).archetype as int, e.id),
            final(self).archetypes_after(old(self), by_id(bundle@)),
            crate::laws::spawned(*old(self), bundle@, e, *final(self)),
            spawn_step(*old(self), by_id(bundle@), e, *final(self)),
    {
        self.flush();
        let ghost flushed = *self;
        let types = bundle.type_info();
        let a = self.archetype_for(types);
        let ghost signature = self.archetypes@[a as int].signature();
        let ghost found_rows = self.archetypes@[a as int].entity_ids();
        let e = self.place(a);
        proof {
            assert forall|i: int| 0 <= i < bundle.components@.len() implies (
            #[trigger] bundle.components@[i]).wf() && signature.contains(
                bundle.components@[i].info,
            ) by {
                assert(bundle@[i].bytes.len() == bundle@[i].info.size);
                assert(infos(bundle@)[i] == bundle.components@[i].info);
                assert(infos(bundle@).contains(bundle.components@[i].info));
            }
            assert(self.holds(e.id, a as int, self.location(e).row as int));
        }
        let ghost placed = *self;
        self.write_row(e, &bundle.components);
        proof {
            crate::component::lemma_by_id_domain(bundle@);
            assert(zero_row(signature).union_prefer_right(by_id(bundle@)) =~= by_id(bundle@));
            assert(self.reserved() =~= Set::<Entity>::empty());
            assert(e == old(self).next_entity());
            assert(!old(self).flushed().contains_key(e));
            assert(self@ == old(self).flushed().insert(e, by_id(bundle@)));
            assert forall|b: int| 0 <= b < old(self).archetype_seq().len() implies (
            #[trigger] self.archetype_seq()[b]).signature() == old(self).archetype_seq()[b].signature() by {
                assert(flushed.archetype_seq()[b].signature() == old(self).archetype_seq()[b].signature());
                assert(placed.archetype_seq()[b].signature() == flushed.archetype_seq()[b].signature());
            }
            self.lemma_archetypes_after(old(self), e);
            flushed.lemma_flushed_ids();
            assert forall|b: int| 0 <= b < self.archetype_seq().len() implies #[trigger] self.ids_at(b)
                == if b == a {
                old(self).flushed_ids(b).push(e.id)
            } else {
                old(self).flushed_ids(b)
            } by {
                if b < flushed.archetypes@.len() {
                    assert(flushed.ids_at(b) == old(self).flushed_ids(b));
                    assert(flushed.flushed_ids(b) == flushed.ids_at(b));
                } else {
                    assert(old(self).flushed_ids(b) =~= Seq::<u32>::empty());
                    assert(found_rows =~= Seq::<u32>::empty());
                }
                assert(self.archetypes@[b].entity_ids() == placed.archetypes@[b].entity_ids());
            }
        }
        e
    }

    /// Despawns `e`: its components are dropped and its handle is not valid any
    /// more. Reservations are flushed first. Returns the error when `e` is not
    /// a live entity.
    pub fn despawn(&mut self, e: Entity) -> (r: Result<(), NoSuchEntity>)
        requires
            old(self).wf(),
            old(self).unborrowed(),
        ensures
            final(self).wf(),
            final(self).unborrowed(),
            r is Ok <==> old(self).flushed().contains_key(e),
            final(self)@ == old(self).flushed().remove(e),
            final(self).reserved() == Set::<Entity>::empty(),
            final(self).keeps_archetypes(old(self)),
            final(self).room() == old(self).room(),
            r is Ok ==> final(self).ids_after_despawn(old(self), e),
            r is Err ==> final(self).ids_kept(old(self)),
            r is Ok ==> final(self).row_removed(old(self), old(self).flushed_location(e)),
            r is Err ==> final(self).rows_kept(old(self)),
            final(self).archetype_seq().len() == old(self).archetype_seq().len(),
    {
        self.flush();
        let ghost flushed = *self;
        match self.entities.free(e) {
            Ok(location) => {
                proof {
                    assert(flushed.placed(e.id, location));
                }
                let moved = self.archetypes[location.archetype].remove_row(location.row);
                match moved {
                    Some(id) => {
                        proof {
                            let last = flushed.archetypes@[location.archetype as int].rows() - 1;
                            assert(flushed.holds(
                                flushed.archetypes@[location.archetype as int].entity_ids()[last],
                                location.archetype as int,
                                last,
                            ));
                        }
                        self.entities.set_location(id, location);
                    },
                    None => {},
                }
                proof {
                    self.lemma_shrunk(&flushed, location.archetype as int, location.row as int, e);
                    self.lemma_still_unborrowed(&flushed, location.archetype as int);
                    assert(self.reserved() =~= Set::<Entity>::empty());
                    flushed.lemma_flushed_ids();
                    assert forall|b: int| 0 <= b < self.archetype_seq().len() implies #[trigger] self.ids_at(
                        b,
                    ) == if b == location.archetype {
                        crate::archetype::swap_removed(old(self).flushed_ids(b), location.row as int)
                    } else {
                        old(self).flushed_ids(b)
                    } by {
                        assert(flushed.ids_at(b) == old(self).flushed_ids(b));
                    }
                }
                Ok(())
            },
            Err(error) => {
                proof {
                    assert(self@ =~= flushed@.remove(e));
                }
                Err(error)
            },
        }
    }

    /// The borrow count of the column that holds the component of type `id` of
    /// the live entity `e`.
    pub open spec fn borrow_count(&self, e: Entity, id: u64) -> int {
        self.archetype_seq()[self.location(e).archetype as int].borrow_of(
            crate::component::index_of_id(
                self.archetype_seq()[self.location(e).archetype as int].signature(),
                id,
            ),
        )
    }

    /// The component of type `id` of the entity `e`, if there is one, is not
    /// borrowed exclusively.
    pub open spec fn readable(&self, e: Entity, id: u64) -> bool {
        self@.contains_key(e) && self@[e].contains_key(id) ==> self.borrow_count(e, id) >= 0
    }

    /// The component of type `id` of the entity `e`, if there is one, is not
    /// borrowed.
    pub open spec fn writable(&self, e: Entity, id: u64) -> bool {
        self@.contains_key(e) && self@[e].contains_key(id) ==> self.borrow_count(e, id) == 0
    }

    /// Whether the component of type `id` of the entity `e` can be read: there
    /// is none, or it is not borrowed exclusively.
    pub fn can_read(&self, e: Entity, id: u64) -> (b: bool)
        requires
            self.wf(),
        ensures
            b == self.readable(e, id),
    {
        match self.entities.get(e) {
            Ok(location) => {
                proof {
                    assert(self.placed(e.id, location));
                    assert(self.archetypes@[location.archetype as int].wf());
                }
                match self.archetypes[location.archetype].borrow_count(id) {
                    Some(count) => count >= 0,
                    None => true,
                }
            },
            Err(_) => true,
        }
    }

    /// Whether the component of type `id` of the entity `e` can be changed:
    /// there is none, or it is not borrowed.
    pub fn can_write(&self, e: Entity, id: u64) -> (b: bool)
        requires
            self.wf(),
        ensures
            b == self.writable(e, id),
    {
        match self.entities.get(e) {
            Ok(location) => {
                proof {
                    assert(self.placed(e.id, location));
                    assert(self.archetypes@[location.archetype as int].wf());
                }
                match self.archetypes[location.archetype].borrow_count(id) {
                    Some(count) => count == 0,
                    None => true,
                }
            },
            Err(_) => true,
        }
    }

    /// The bytes of the component of type `id` of the entity `e`, which is not
    /// borrowed exclusively.
    pub fn get(&self, e: Entity, id: u64) -> (r: Result<&Vec<u8>, ComponentError>)
        requires
            self.wf(),
            self.readable(e, id),
        ensures
            r is Ok <==> self@.contains_key(e) && self@[e].contains_key(id),
            r matches Ok(bytes) ==> bytes@ == self@[e][id].bytes,
            r == Err::<&Vec<u8>, ComponentError>(ComponentError::NoSuchEntity) <==> !self@.contains_key(
                e,
            ),
            r == Err::<&Vec<u8>, ComponentError>(
                ComponentError::MissingComponent(MissingComponent { id }),
            ) <==> self@.contains_key(e) && !self@[e].contains_key(id),
    {
        match self.entities.get(e) {
            Ok(location) => {
                proof {
                    assert(self.placed(e.id, location));
                }
                match self.archetypes[location.archetype].get(location.row, id) {
                    Some(bytes) => Ok(bytes),
                    None => Err(ComponentError::MissingComponent(MissingComponent { id })),
                }
            },
            Err(_) => Err(ComponentError::NoSuchEntity),
        }
    }
}

} // verus!

verus! {

/// The types that an entity has after it was given a bundle: those of `current`
/// that the bundle has no component for, and those of the bundle.
pub open spec fn merged(current: Seq<TypeInfo>, given: Seq<TypeInfo>, x: TypeInfo) -> bool {
    given.contains(x) || (current.contains(x) && !has_id(given, x.id))
}

/// The types of `current` whose ids are not among `ids`, in the order of
/// `current`.
pub open spec fn without(current: Seq<TypeInfo>, ids: Seq<u64>) -> Seq<TypeInfo> {
    current.filter(|x: TypeInfo| !ids.contains(x.id))
}

fn same_ids(a: &Vec<u64>, b: &Vec<u64>) -> (same: bool)
    ensures
        same == (a@ == b@),
{
    if a.len() != b.len() {
        return false;
    }
    let mut i: usize = 0;
    while i < a.len()
        invariant
            i <= a@.len(),
            a@.len() == b@.len(),
            forall|k: int| 0 <= k < i ==> a@[k] == b@[k],
        decreases a@.len() - i,
    {
        if a[i] != b[i] {
            return false;
        }
        i = i + 1;
    }
    assert(a@ =~= b@);
    true
}

fn contains_id(ids: &Vec<u64>, id: u64) -> (b: bool)
    ensures
        b == ids@.contains(id),
{
    let mut i: usize = 0;
    while i < ids.len()
        invariant
            i <= ids@.len(),
            forall|k: int| 0 <= k < i ==> ids@[k] != id,
        decreases ids@.len() - i,
    {
        if ids[i] == id {
            return true;
        }
        i = i + 1;
    }
    false
}

/// What is left of a canonical sequence of distinct ids when the types of some
/// ids are taken out is canonical, has distinct ids, and holds exactly the
/// types of the other ids.
pub proof fn lemma_without(current: Seq<TypeInfo>, ids: Seq<u64>)
    requires
        canonical(current),
        distinct_ids(current),
    ensures
        canonical(without(current, ids)),
        distinct_ids(without(current, ids)),
        forall|x: TypeInfo|
            #![trigger without(current, ids).contains(x)]
            #![trigger current.contains(x)]
            without(current, ids).contains(x) <==> current.contains(x) && !ids.contains(x.id),
        forall|id: u64|
            #![trigger has_id(without(current, ids), id)]
            #![trigger has_id(current, id)]
            has_id(without(current, ids), id) <==> has_id(current, id) && !ids.contains(id),
    decreases current.len(),
{
    reveal(Seq::filter);
    let keep = |x: TypeInfo| !ids.contains(x.id);
    let out = without(current, ids);
    if current.len() > 0 {
        let front = current.drop_last();
        let last = current.last();
        assert(canonical(front)) by {
            assert forall|i: int, j: int| 0 <= i < j < front.len() implies crate::component::precedes(
                #[trigger] front[i],
                #[trigger] front[j],
            ) by {
                assert(crate::component::precedes(current[i], current[j]));
            }
        }
        assert(distinct_ids(front)) by {
            assert forall|i: int, j: int| 0 <= i < j < front.len() implies (#[trigger] front[i]).id
                != (#[trigger] front[j]).id by {
                assert(current[i].id != current[j].id);
            }
        }
        lemma_without(front, ids);
        let rest = without(front, ids);
        assert(out == if keep(last) {
            rest.push(last)
        } else {
            rest
        });
        assert forall|x: TypeInfo| out.contains(x) <==> current.contains(x) && !ids.contains(
            x.id,
        ) by {
            if out.contains(x) {
                let i = choose|i: int| 0 <= i < out.len() && out[i] == x;
                if i < rest.len() {
                    assert(rest[i] == x);
                    assert(rest.contains(x));
                    assert(front.contains(x));
                    let j = choose|j: int| 0 <= j < front.len() && front[j] == x;
                    assert(current[j] == x);
                } else {
                    assert(current[current.len() - 1] == x);
                }
            }
            if current.contains(x) && !ids.contains(x.id) {
                let j = choose|j: int| 0 <= j < current.len() && current[j] == x;
                if j < front.len() {
                    assert(front[j] == x);
                    assert(front.contains(x));
                    assert(rest.contains(x));
                    let i = choose|i: int| 0 <= i < rest.len() && rest[i] == x;
                    assert(out[i] == x);
                } else {
                    assert(out[out.len() - 1] == x);
                }
            }
        }
        assert forall|i: int, j: int| 0 <= i < j < out.len() implies crate::component::precedes(
            #[trigger] out[i],
            #[trigger] out[j],
        ) && out[i].id != out[j].id by {
            if j < rest.len() {
                assert(crate::component::precedes(rest[i], rest[j]));
                assert(rest[i].id != rest[j].id);
            } else {
                assert(rest.contains(rest[i]));
                assert(front.contains(rest[i]));
                let k = choose|k: int| 0 <= k < front.len() && front[k] == rest[i];
                assert(crate::component::precedes(current[k], current[current.len() - 1]));
                assert(current[k].id != current[current.len() - 1].id);
            }
        }
    }
    assert forall|id: u64| has_id(out, id) <==> has_id(current, id) && !ids.contains(id) by {
        if has_id(out, id) {
            let i = crate::component::index_of_id(out, id);
            assert(out.contains(out[i]));
            let j = choose|j: int| 0 <= j < current.len() && current[j] == out[i];
            assert(current[j].id == id);
        }
        if has_id(current, id) && !ids.contains(id) {
            let j = crate::component::index_of_id(current, id);
            assert(current.contains(current[j]));
            let i = choose|i: int| 0 <= i < out.len() && out[i] == current[j];
            assert(out[i].id == id);
        }
    }
}

/// The types of `current` whose ids are not among `ids`.
fn types_without(current: &Vec<TypeInfo>, ids: &Vec<u64>) -> (out: Vec<TypeInfo>)
    requires
        canonical(current@),
        distinct_ids(current@),
    ensures
        out@ == without(current@, ids@),
        canonical(out@),
        distinct_ids(out@),
{
    let mut out: Vec<TypeInfo> = Vec::new();
    let mut i: usize = 0;
    proof {
        reveal(Seq::filter);
        assert(current@.take(0) =~= Seq::<TypeInfo>::empty());
    }
    while i < current.len()
        invariant
            i <= current@.len(),
            out@ == without(current@.take(i as int), ids@),
        decreases current@.len() - i,
    {
        proof {
            reveal(Seq::filter);
            assert(current@.take(i + 1).drop_last() =~= current@.take(i as int));
            assert(current@.take(i + 1).last() == current@[i as int]);
        }
        if !contains_id(ids, current[i].id) {
            out.push(current[i]);
        }
        i = i + 1;
    }
    proof {
        assert(current@.take(i as int) =~= current@);
        lemma_without(current@, ids@);
    }
    out
}

/// The types that an entity with the types `current` has after it was given
/// `bundle`, in canonical order.
fn merged_types(current: &Vec<TypeInfo>, bundle: &Bundle) -> (out: Vec<TypeInfo>)
    requires
        canonical(current@),
        distinct_ids(current@),
        bundle.wf(),
    ensures
        canonical(out@),
        distinct_ids(out@),
        forall|x: TypeInfo|
            #![trigger out@.contains(x)]
            #![trigger merged(current@, infos(bundle@), x)]
            out@.contains(x) <==> merged(current@, infos(bundle@), x),
{
    let given = bundle.infos();
    let mut all: Vec<TypeInfo> = Vec::new();
    let mut i: usize = 0;
    while i < current.len()
        invariant
            i <= current@.len(),
            given@ == infos(bundle@),
            distinct_ids(current@),
            distinct_ids(all@),
            forall|x: TypeInfo|
                all@.contains(x) <==> current@.take(i as int).contains(x) && !has_id(given@, x.id),
        decreases current@.len() - i,
    {
        let x = current[i];
        let ghost before = all@;
        let ghost done = current@.take(i as int);
        let ghost next = current@.take(i + 1);
        proof {
            assert(next =~= done.push(x));
        }
        if !bundle.has(x.id) {
            all.push(x);
            proof {
                assert forall|a: int, b: int| 0 <= a < b < all@.len() implies (#[trigger] all@[a]).id
                    != (#[trigger] all@[b]).id by {
                    if b == all@.len() - 1 {
                        assert(before.contains(before[a]));
                        assert(done.contains(before[a]));
                        let k = choose|k: int| 0 <= k < done.len() && done[k] == before[a];
                        assert(current@[k].id != current@[i as int].id);
                    } else {
                        assert(before[a].id != before[b].id);
                    }
                }
                assert forall|y: TypeInfo|
                    all@.contains(y) <==> next.contains(y) && !has_id(
                        given@,
                        y.id,
                    ) by {
                    if all@.contains(y) {
                        let k = choose|k: int| 0 <= k < all@.len() && all@[k] == y;
                        if k < before.len() {
                            assert(before.contains(y));
                            let m = choose|m: int|
                                0 <= m < done.len() && done[m] == y;
                            assert(next[m] == y);
                        } else {
                            assert(next[i as int] == y);
                        }
                    }
                    if next.contains(y) && !has_id(given@, y.id) {
                        let m = choose|m: int| 0 <= m < next.len() && next[m] == y;
                        if m < i {
                            assert(done[m] == y);
                            assert(before.contains(y));
                            let k = choose|k: int| 0 <= k < before.len() && before[k] == y;
                            assert(all@[k] == y);
                        } else {
                            assert(all@[all@.len() - 1] == y);
                        }
                    }
                }
            }
        } else {
            proof {
                assert forall|y: TypeInfo|
                    all@.contains(y) <==> next.contains(y) && !has_id(
                        given@,
                        y.id,
                    ) by {
                    if all@.contains(y) {
                        let m = choose|m: int|
                            0 <= m < done.len() && done[m] == y;
                        assert(next[m] == y);
                    }
                    if next.contains(y) && !has_id(given@, y.id) {
                        let m = choose|m: int| 0 <= m < next.len() && next[m] == y;
                        assert(m < i);
                        assert(done[m] == y);
                    }
                }
            }
        }
        i = i + 1;
    }
    proof {
        assert(current@.take(i as int) =~= current@);
    }
    let mut j: usize = 0;
    let ghost kept = all@;
    while j < given.len()
        invariant
            j <= given@.len(),
            given@ == infos(bundle@),
            distinct_ids(given@),
            distinct_ids(all@),
            all@ == kept + given@.take(j as int),
            forall|x: TypeInfo| kept.contains(x) ==> !has_id(given@, x.id),
        decreases given@.len() - j,
    {
        let ghost before = all@;
        all.push(given[j]);
        proof {
            assert(given@.take(j + 1) =~= given@.take(j as int).push(given@[j as int]));
            assert(all@ =~= kept + given@.take(j + 1));
            assert forall|a: int, b: int| 0 <= a < b < all@.len() implies (#[trigger] all@[a]).id != (
            #[trigger] all@[b]).id by {
                if b == all@.len() - 1 {
                    if a < kept.len() {
                        assert(kept.contains(kept[a]));
                        assert(given@[j as int].id == all@[b].id);
                    } else {
                        assert(all@[a] == given@[a - kept.len()]);
                        assert(given@[a - kept.len()].id != given@[j as int].id);
                    }
                } else {
                    assert(before[a].id != before[b].id);
                }
            }
        }
        j = j + 1;
    }
    proof {
        assert(given@.take(j as int) =~= given@);
    }
    let out = canonical_order(&all);
    proof {
        assert forall|x: TypeInfo| out@.contains(x) <==> merged(current@, infos(bundle@), x) by {
            if all@.contains(x) {
                let k = choose|k: int| 0 <= k < all@.len() && all@[k] == x;
                if k < kept.len() {
                    assert(kept.contains(x));
                } else {
                    assert(given@[k - kept.len()] == x);
                    assert(given@.contains(x));
                }
            }
            if given@.contains(x) {
                let k = choose|k: int| 0 <= k < given@.len() && given@[k] == x;
                assert(all@[kept.len() + k] == x);
            }
            if kept.contains(x) {
                let k = choose|k: int| 0 <= k < kept.len() && kept[k] == x;
                assert(all@[k] == x);
            }
        }
    }
    out
}

} // verus!

verus! {

impl Frame {
    /// After the row of the entity `e`, row `r` of archetype `s`, was moved to
    /// a new row of archetype `t`, and after the allocator was told so, the
    /// store is sound again, and only `e` has other components.
    proof fn lemma_migrated(&self, before: &Frame, s: int, r: int, t: int, e: Entity)
        requires
            self.edges == before.edges,
            before.wf(),
            before@.contains_key(e),
            before.holds(e.id, s, r),
            0 <= t < before.archetypes@.len(),
            s != t,
            self.entities.wf(),
            self.archetypes@.len() == before.archetypes@.len(),
            forall|b: int|
                0 <= b < before.archetypes@.len() && b != s && b != t ==> self.archetypes@[b]
                    == before.archetypes@[b],
            self.archetypes@[s].wf(),
            self.archetypes@[s].signature() == before.archetypes@[s].signature(),
            self.archetypes@[s].entity_ids() == crate::archetype::swap_removed(
                before.archetypes@[s].entity_ids(),
                r,
            ),
            forall|q: int|
                0 <= q < self.archetypes@[s].rows() && q != r ==> self.archetypes@[s].row(q)
                    == before.archetypes@[s].row(q),
            r < self.archetypes@[s].rows() ==> self.archetypes@[s].row(r) == before.archetypes@[s].row(
                before.archetypes@[s].rows() - 1,
            ),
            self.archetypes@[t].wf(),
            self.archetypes@[t].signature() == before.archetypes@[t].signature(),
            self.archetypes@[t].entity_ids() == before.archetypes@[t].entity_ids().push(e.id),
            forall|q: int|
                0 <= q < before.archetypes@[t].rows() ==> self.archetypes@[t].row(q)
                    == before.archetypes@[t].row(q),
            forall|other: u32|
                self.entities.generation_of(other) == before.entities.generation_of(other),
            self.holds(e.id, t, before.archetypes@[t].rows() as int),
            r < before.archetypes@[s].rows() - 1 ==> self.holds(
                before.archetypes@[s].entity_ids().last(),
                s,
                r,
            ),
            forall|other: u32|
                other != e.id && !(r < before.archetypes@[s].rows() - 1 && other
                    == before.archetypes@[s].entity_ids().last()) ==> self.entities.location_of(other)
                    == before.entities.location_of(other),
        ensures
            self.wf(),
            self.keeps_archetypes(before),
            self@ == before@.insert(e, self.archetypes@[t].row(before.archetypes@[t].rows() as int)),
    {
        self.lemma_edges_kept(before);
        let old_ids = before.archetypes@[s].entity_ids();
        let last = old_ids.len() - 1;
        let new_row = before.archetypes@[t].rows() as int;
        assert(before.placed(e.id, before.entities.location_of(e.id).unwrap()));
        assert(before.holds(old_ids[last], s, last));
        assert forall|b: int, q: int|
            0 <= b < self.archetypes@.len() && 0 <= q < self.archetypes@[b].rows() implies self.holds(
            #[trigger] self.archetypes@[b].entity_ids()[q],
            b,
            q,
        ) by {
            if b == t && q == new_row {
            } else if b == s && q == r {
            } else {
                assert(before.holds(before.archetypes@[b].entity_ids()[q], b, q));
                assert(before.holds(old_ids[r], s, r));
            }
        }
        assert forall|id: u32| (#[trigger] self.entities.location_of(id)) is Some implies self.placed(
            id,
            self.entities.location_of(id).unwrap(),
        ) by {
            if id == e.id {
            } else if r < last && id == old_ids[last] {
            } else {
                assert(before.placed(id, before.entities.location_of(id).unwrap()));
                let l = before.entities.location_of(id).unwrap();
                if l.archetype == s {
                    assert(before.holds(old_ids[l.row as int], s, l.row as int));
                }
            }
        }
        assert forall|b: int| 0 <= b < self.archetypes@.len() implies (
        #[trigger] self.archetypes@[b]).wf() by {
            if b != s && b != t {
                assert(before.archetypes@[b].wf());
            }
        }
        assert forall|b: int, c: int| 0 <= b < c < self.archetypes@.len() implies (
        #[trigger] self.archetypes@[b]).signature() != (
        #[trigger] self.archetypes@[c]).signature() by {
            assert(before.archetypes@[b].signature() != before.archetypes@[c].signature());
        }
        assert(self.archetypes@[0].signature() == before.archetypes@[0].signature());
        let row = self.archetypes@[t].row(new_row);
        assert forall|x: Entity| self@.contains_key(x) implies #[trigger] self@[x] == before@.insert(
            e,
            row,
        )[x] by {
            if x.id != e.id {
                assert(before.placed(x.id, before.entities.location_of(x.id).unwrap()));
                let l = before.entities.location_of(x.id).unwrap();
                if l.archetype == s {
                    assert(before.holds(old_ids[l.row as int], s, l.row as int));
                }
            }
        }
        assert(self@ =~= before@.insert(e, row));
    }

    /// Moves the live entity `e` to the archetype `target`, which is not the
    /// one it is in. The components whose types `target` has, with the same
    /// layout, go with it; its other components are dropped, and the components
    /// that it did not have are zeroed.
    fn migrate(&mut self, e: Entity, target: usize)
        requires
            old(self).wf(),
            old(self).unborrowed(),
            old(self)@.contains_key(e),
            target < old(self).archetypes@.len(),
            target != old(self).location(e).archetype,
        ensures
            final(self).wf(),
            final(self).unborrowed(),
            final(self).keeps_archetypes(old(self)),
            final(self).archetypes@.len() == old(self).archetypes@.len(),
            final(self)@ == old(self)@.insert(
                e,
                crate::archetype::moved_into(
                    old(self)@[e],
                    zero_row(old(self).archetypes@[target as int].signature()),
                ),
            ),
            final(self).location(e).archetype == target,
            final(self).reserved() == old(self).reserved(),
            final(self).next_entity() == old(self).next_entity(),
            final(self).has_room() == old(self).has_room(),
            final(self).room() == old(self).room(),
            final(self).ids_kept(old(self)),
            final(self).entities.pending() == old(self).entities.pending(),
            forall|b: int|
                0 <= b < old(self).archetypes@.len() ==> (#[trigger] final(self).archetypes@[b]).entity_ids() == if b == old(self).location(e).archetype {
                    crate::archetype::swap_removed(
                        old(self).archetypes@[b].entity_ids(),
                        old(self).location(e).row as int,
                    )
                } else if b == target {
                    old(self).archetypes@[b].entity_ids().push(e.id)
                } else {
                    old(self).archetypes@[b].entity_ids()
                },
    {
        let location = self.entities.get(e).unwrap();
        let source = location.archetype;
        let row = location.row;
        proof {
            assert(self.placed(e.id, location));
            self.entities.lemma_wf();
            self.lemma_rows_bound(target as int, e.id);
            assert(self.archetype_seq()[target as int].unborrowed());
            assert(self.archetype_seq()[source as int].unborrowed());
            assert(self.archetypes@[target as int].wf());
            assert(self.archetypes@[source as int].wf());
        }
        let mut moving = Archetype::new(Vec::new());
        core::mem::swap(&mut self.archetypes[target], &mut moving);
        let target_row = moving.allocate_row(e.id);
        let moved = self.archetypes[source].move_row_to(row, &mut moving, target_row);
        core::mem::swap(&mut self.archetypes[target], &mut moving);
        self.entities.set_location(e.id, Location { archetype: target, row: target_row });
        match moved {
            Some(id) => {
                proof {
                    let last = old(self).archetypes@[source as int].rows() - 1;
                    assert(old(self).holds(
                        old(self).archetypes@[source as int].entity_ids()[last],
                        source as int,
                        last,
                    ));
                }
                self.entities.set_location(id, location);
            },
            None => {},
        }
        proof {
            self.lemma_migrated(old(self), source as int, row as int, target as int, e);
            assert forall|b: int| 0 <= b < self.archetype_seq().len() implies (
            #[trigger] self.archetype_seq()[b]).unborrowed() by {
                if b != source && b != target {
                    assert(old(self).archetype_seq()[b].unborrowed());
                }
            }
            assert(self.reserved() =~= old(self).reserved());
        }
    }

    /// Gives the components of `bundle` to the entity `e`. A component of a type
    /// that the entity already has takes the place of the one it had. The
    /// entity moves to the archetype of its new set of types. Reservations are
    /// flushed first. Returns the error, with nothing else changed, when `e` is
    /// not a live entity.
    pub fn insert(&mut self, e: Entity, bundle: Bundle) -> (r: Result<(), NoSuchEntity>)
        requires
            old(self).wf(),
            old(self).unborrowed(),
            bundle.wf(),
        ensures
            final(self).wf(),
            final(self).unborrowed(),
            r is Ok <==> old(self).flushed().contains_key(e),
            r is Ok ==> final(self)@ == old(self).flushed().insert(
                e,
                old(self).flushed()[e].union_prefer_right(by_id(bundle@)),
            ),
            r is Err ==> final(self)@ == old(self).flushed(),
            final(self).reserved() == Set::<Entity>::empty(),
            final(self).keeps_archetypes(old(self)),
            final(self).room() == old(self).room(),
            final(self).ids_kept(old(self)),
            r is Ok ==> final(self).rows_exchanged(old(self), e),
            r is Err ==> final(self).rows_kept(old(self)),
            r is Ok ==> final(self).archetypes_after(old(self), final(self)@[e]),
            r is Err ==> final(self).archetype_seq().len() == old(self).archetype_seq().len(),
            crate::laws::inserted(*old(self), e, bundle@, r is Ok, *final(self)),
    {
        let nothing: Vec<u64> = Vec::new();
        proof {
            assert(nothing@.to_set() =~= Set::<u64>::empty());
            if old(self).flushed().contains_key(e) {
                let row = old(self).flushed()[e];
                assert(row.remove_keys(Set::<u64>::empty()) =~= row);
            }
        }
        match self.exchange(e, &nothing, bundle) {
            Ok(_) => Ok(()),
            Err(_) => Err(NoSuchEntity {  }),
        }
    }

    /// Gives `component` to the entity `e`, as `insert` gives a bundle.
    pub fn insert_one(&mut self, e: Entity, component: Component) -> (r: Result<(), NoSuchEntity>)
        requires
            old(self).wf(),
            old(self).unborrowed(),
            component.wf(),
        ensures
            final(self).wf(),
            final(self).unborrowed(),
            r is Ok <==> old(self).flushed().contains_key(e),
            r is Ok ==> final(self)@ == old(self).flushed().insert(
                e,
                old(self).flushed()[e].insert(component.info.id, component@),
            ),
            r is Err ==> final(self)@ == old(self).flushed(),
            final(self).reserved() == Set::<Entity>::empty(),
            final(self).keeps_archetypes(old(self)),
            final(self).ids_kept(old(self)),
            r is Ok ==> final(self).rows_exchanged(old(self), e),
            r is Err ==> final(self).rows_kept(old(self)),
            r is Ok ==> final(self).archetypes_after(old(self), final(self)@[e]),
            r is Err ==> final(self).archetype_seq().len() == old(self).archetype_seq().len(),
    {
        let ghost view = component@;
        let mut bundle = Bundle::new();
        bundle.push(component);
        proof {
            assert(bundle@ =~= seq![view]);
            crate::component::lemma_by_id_single(view);
            if old(self).flushed().contains_key(e) {
                assert(old(self).flushed()[e].union_prefer_right(by_id(bundle@)) =~= old(self).flushed()[e].insert(view.info.id, view));
            }
        }
        self.insert(e, bundle)
    }
}

} // verus!

verus! {

/// A row that was moved to the archetype of its types, less those of some ids,
/// merged with those of a bundle, and then given the bundle, is the row without
/// the components of those ids and with the bundle's components put over its
/// own.
proof fn lemma_exchanged_row(
    row: Row,
    out: Seq<u64>,
    bundle: Seq<ComponentView>,
    current: Seq<TypeInfo>,
    signature: Seq<TypeInfo>,
)
    requires
        canonical(current),
        distinct_ids(current),
        canonical(signature),
        distinct_ids(signature),
        distinct_ids(infos(bundle)),
        forall|x: TypeInfo|
            #![trigger signature.contains(x)]
            #![trigger merged(without(current, out), infos(bundle), x)]
            signature.contains(x) <==> merged(without(current, out), infos(bundle), x),
        forall|id: u64| row.contains_key(id) <==> has_id(current, id),
        forall|id: u64| #[trigger]
            row.contains_key(id) ==> row[id].info.id == id && current.contains(row[id].info),
    ensures
        crate::archetype::moved_into(row, zero_row(signature)).union_prefer_right(by_id(bundle))
            == row.remove_keys(out.to_set()).union_prefer_right(by_id(bundle)),
        signature == current ==> row.union_prefer_right(by_id(bundle)) == row.remove_keys(
            out.to_set(),
        ).union_prefer_right(by_id(bundle)),
{
    crate::component::lemma_by_id_domain(bundle);
    lemma_without(current, out);
    let kept = without(current, out);
    let given = by_id(bundle);
    let less = row.remove_keys(out.to_set());
    let moved = crate::archetype::moved_into(row, zero_row(signature));
    let left = moved.union_prefer_right(given);
    let right = less.union_prefer_right(given);
    assert forall|id: u64| less.contains_key(id) <==> has_id(kept, id) by {}
    assert forall|id: u64| moved.contains_key(id) <==> has_id(signature, id) by {}
    assert forall|id: u64| has_id(signature, id) implies less.contains_key(id) || given.contains_key(
        id,
    ) by {
        let k = crate::component::index_of_id(signature, id);
        assert(signature.contains(signature[k]));
        assert(merged(kept, infos(bundle), signature[k]));
        if infos(bundle).contains(signature[k]) {
            let j = choose|j: int| 0 <= j < infos(bundle).len() && infos(bundle)[j] == signature[k];
            assert(infos(bundle)[j].id == id);
            assert(has_id(infos(bundle), id));
        } else {
            let j = choose|j: int| 0 <= j < kept.len() && kept[j] == signature[k];
            assert(kept[j].id == id);
            assert(has_id(kept, id));
        }
    }
    assert forall|id: u64| less.contains_key(id) && !given.contains_key(id) implies has_id(
        signature,
        id,
    ) && moved[id] == row[id] by {
        assert(has_id(kept, id));
        let k = crate::component::index_of_id(kept, id);
        assert(kept.contains(kept[k]));
        assert(!has_id(infos(bundle), id));
        assert(merged(kept, infos(bundle), kept[k]));
        assert(signature.contains(kept[k]));
        let j = choose|j: int| 0 <= j < signature.len() && signature[j] == kept[k];
        assert(signature[j].id == id);
        crate::archetype::lemma_index_of_id(signature, j);
        assert(current.contains(kept[k]));
        let m = choose|m: int| 0 <= m < current.len() && current[m] == kept[k];
        let i = choose|i: int| 0 <= i < current.len() && current[i] == row[id].info;
        if i < m {
            assert(current[i].id != current[m].id);
        } else if m < i {
            assert(current[m].id != current[i].id);
        }
    }
    assert forall|id: u64| left.contains_key(id) <==> right.contains_key(id) by {
        if left.contains_key(id) && !given.contains_key(id) {
            assert(moved.contains_key(id));
            assert(has_id(signature, id));
        }
        if right.contains_key(id) && !given.contains_key(id) {
            assert(less.contains_key(id));
            assert(has_id(signature, id));
        }
    }
    assert forall|id: u64| left.contains_key(id) implies #[trigger] left[id] == right[id] by {
        if !given.contains_key(id) {
            assert(moved.contains_key(id));
            assert(has_id(signature, id));
            assert(less.contains_key(id));
        }
    }
    assert(left =~= right);
    if signature == current {
        let plain = row.union_prefer_right(given);
        assert forall|id: u64| row.contains_key(id) && !given.contains_key(id) implies !out.contains(
            id,
        ) by {
            let k = crate::component::index_of_id(current, id);
            assert(signature.contains(current[k]));
            assert(merged(kept, infos(bundle), current[k]));
            if infos(bundle).contains(current[k]) {
                let j = choose|j: int|
                    0 <= j < infos(bundle).len() && infos(bundle)[j] == current[k];
                assert(infos(bundle)[j].id == id);
                assert(has_id(infos(bundle), id));
            }
        }
        assert(plain =~= right);
    }
}

impl Frame {
    /// Where only archetype `a` changed, and the borrow counts of its columns
    /// did not, the store is as borrowed as before.
    proof fn lemma_borrows_kept(&self, before: &Frame, a: int)
        requires
            0 <= a < before.archetypes@.len(),
            self.archetypes@.len() == before.archetypes@.len(),
            forall|b: int|
                0 <= b < before.archetypes@.len() && b != a ==> self.archetypes@[b]
                    == before.archetypes@[b],
            self.archetypes@[a].signature() == before.archetypes@[a].signature(),
            forall|c: int| self.archetypes@[a].borrow_of(c) == before.archetypes@[a].borrow_of(c),
        ensures
            self.unborrowed() == before.unborrowed(),
    {
        if before.unborrowed() {
            assert(before.archetype_seq()[a].unborrowed());
            assert forall|c: int|
                0 <= c < self.archetypes@[a].signature().len() implies #[trigger] self.archetypes@[a].borrow_of(
                c,
            ) == 0 by {
                assert(before.archetypes@[a].borrow_of(c) == 0);
            }
            self.lemma_still_unborrowed(before, a);
        } else {
            let b = choose|b: int|
                0 <= b < before.archetype_seq().len() && !(
                #[trigger] before.archetype_seq()[b]).unborrowed();
            if b == a {
                let c = choose|c: int|
                    0 <= c < before.archetypes@[a].signature().len() && !(
                    #[trigger] before.archetypes@[a].borrow_of(c) == 0);
                assert(self.archetypes@[a].borrow_of(c) != 0);
                assert(!self.archetype_seq()[a].unborrowed());
            } else {
                assert(!self.archetype_seq()[b].unborrowed());
            }
        }
    }

    /// Writes the bytes of `component` over the component of its type that the
    /// entity `e` has, which is not borrowed. Returns the error, with nothing
    /// changed, when `e` is not a live entity or has no component of that type
    /// and layout.
    pub fn set(&mut self, e: Entity, component: &Component) -> (r: Result<(), ComponentError>)
        requires
            old(self).wf(),
            component.wf(),
            old(self).writable(e, component.info.id),
        ensures
            final(self).wf(),
            final(self).unborrowed() == old(self).unborrowed(),
            final(self).keeps_archetypes(old(self)),
            final(self).archetype_seq().len() == old(self).archetype_seq().len(),
            final(self).allocator() == old(self).allocator(),
            r is Ok <==> old(self)@.contains_key(e) && old(self)@[e].contains_key(component.info.id)
                && old(self)@[e][component.info.id].info == component.info,
            r is Ok ==> final(self)@ == old(self)@.insert(
                e,
                old(self)@[e].insert(component.info.id, component@),
            ),
            r is Err ==> final(self)@ == old(self)@,
            r == Err::<(), ComponentError>(ComponentError::NoSuchEntity) <==> !old(self)@.contains_key(
                e,
            ),
            r is Err && old(self)@.contains_key(e) ==> r == Err::<(), ComponentError>(
                ComponentError::MissingComponent(MissingComponent { id: component.info.id }),
            ),
    {
        match self.entities.get(e) {
            Ok(location) => {
                proof {
                    assert(self.placed(e.id, location));
                    assert(self.archetypes@[location.archetype as int].wf());
                    self.archetypes@[location.archetype as int].lemma_row(location.row as int);
                    self.archetypes@[location.archetype as int].lemma_wf();
                }
                match self.archetypes[location.archetype].column_matching(component.info) {
                    Some(c) => {
                        self.archetypes[location.archetype].put(location.row, component);
                        proof {
                            self.lemma_rewritten(
                                old(self),
                                location.archetype as int,
                                location.row as int,
                                e,
                            );
                            self.lemma_borrows_kept(old(self), location.archetype as int);
                        }
                        Ok(())
                    },
                    None => {
                        proof {
                            let signature = self.archetypes@[location.archetype as int].signature();
                            let id = component.info.id;
                            if has_id(signature, id) {
                                let k = crate::component::index_of_id(signature, id);
                                assert(signature[k] != component.info);
                            }
                        }
                        Err(ComponentError::MissingComponent(MissingComponent { id: component.info.id }))
                    },
                }
            },
            Err(_) => Err(ComponentError::NoSuchEntity),
        }
    }

    /// The archetype that the store remembers for an entity of the archetype
    /// `source` that loses the types `removed` and is given the types `added`.
    fn find_edge(&self, source: usize, added: &Vec<TypeInfo>, removed: &Vec<u64>) -> (target: Option<
        usize,
    >)
        requires
            self.wf(),
            source < self.archetypes@.len(),
        ensures
            target is None <==> forall|i: int|
                0 <= i < self.edges@.len() ==> !Self::edge_for(
                    #[trigger] self.edges@[i],
                    source,
                    added@,
                    removed@,
                ),
            target matches Some(t) ==> exists|i: int|
                0 <= i < self.edges@.len() && Self::edge_for(
                    #[trigger] self.edges@[i],
                    source,
                    added@,
                    removed@,
                ) && self.edges@[i].target == t && forall|k: int|
                    0 <= k < i ==> !Self::edge_for(
                        #[trigger] self.edges@[k],
                        source,
                        added@,
                        removed@,
                    ),
            target matches Some(t) ==> t < self.archetypes@.len() && forall|x: TypeInfo|
                #![trigger self.archetypes@[t as int].signature().contains(x)]
                #![trigger merged(without(self.archetypes@[source as int].signature(), removed@), added@, x)]
                self.archetypes@[t as int].signature().contains(x) <==> merged(
                    without(self.archetypes@[source as int].signature(), removed@),
                    added@,
                    x,
                ),
    {
        let mut i: usize = 0;
        while i < self.edges.len()
            invariant
                i <= self.edges@.len(),
                self.wf(),
                forall|k: int|
                    0 <= k < i ==> !Self::edge_for(
                        #[trigger] self.edges@[k],
                        source,
                        added@,
                        removed@,
                    ),
            decreases self.edges@.len() - i,
        {
            if self.edges[i].source == source && same_types(&self.edges[i].added, added) && same_ids(
                &self.edges[i].removed,
                removed,
            ) {
                proof {
                    assert(self.edge_ok(self.edges@[i as int]));
                    assert(Self::edge_for(self.edges@[i as int], source, added@, removed@));
                }
                return Some(self.edges[i].target);
            }
            i = i + 1;
        }
        None
    }

    /// Remembers that an entity of the archetype `source` that loses the types
    /// `removed` and is given the types `added` goes to the archetype `target`.
    fn add_edge(&mut self, source: usize, added: Vec<TypeInfo>, removed: Vec<u64>, target: usize)
        requires
            old(self).wf(),
            source < old(self).archetypes@.len(),
            target < old(self).archetypes@.len(),
            forall|x: TypeInfo|
                #![trigger old(self).archetypes@[target as int].signature().contains(x)]
                #![trigger merged(without(old(self).archetypes@[source as int].signature(), removed@), added@, x)]
                old(self).archetypes@[target as int].signature().contains(x) <==> merged(
                    without(old(self).archetypes@[source as int].signature(), removed@),
                    added@,
                    x,
                ),
        ensures
            final(self).wf(),
            final(self).entities == old(self).entities,
            final(self).archetypes == old(self).archetypes,
            final(self)@ == old(self)@,
            final(self).edges@ == old(self).edges@.push((Edge { source, added, removed, target })),
    {
        self.edges.push(Edge { source, added, removed, target });
        proof {
            assert forall|i: int| 0 <= i < self.edges@.len() implies self.edge_ok(
                #[trigger] self.edges@[i],
            ) by {
                if i < old(self).edges@.len() {
                    assert(old(self).edge_ok(old(self).edges@[i]));
                }
            }
            assert(self@ =~= old(self)@);
        }
    }

    /// Takes the components `ids` from the entity `e` and gives it those of
    /// `bundle`, in one move to the archetype of its new set of types. Returns
    /// the components that were taken, in the order of `ids`. Reservations are
    /// flushed first. Returns an error, with nothing else changed, when `e` is
    /// not a live entity, or when it has no component of one of the types: the
    /// error then names the first such id.
    pub fn exchange(&mut self, e: Entity, ids: &Vec<u64>, bundle: Bundle) -> (r: Result<
        Bundle,
        ComponentError,
    >)
        requires
            old(self).wf(),
            old(self).unborrowed(),
            bundle.wf(),
        ensures
            final(self).wf(),
            final(self).unborrowed(),
            final(self).reserved() == Set::<Entity>::empty(),
            final(self).keeps_archetypes(old(self)),
            r is Ok <==> old(self).flushed().contains_key(e) && forall|i: int|
                0 <= i < ids@.len() ==> old(self).flushed()[e].contains_key(#[trigger] ids@[i]),
            r matches Ok(taken) ==> {
                &&& taken@.len() == ids@.len()
                &&& forall|i: int|
                    0 <= i < ids@.len() ==> #[trigger] taken@[i] == old(self).flushed()[e][ids@[i]]
                &&& final(self)@ == old(self).flushed().insert(
                    e,
                    old(self).flushed()[e].remove_keys(ids@.to_set()).union_prefer_right(
                        by_id(bundle@),
                    ),
                )
            },
            r is Err ==> final(self)@ == old(self).flushed(),
            r matches Err(ComponentError::NoSuchEntity) <==> !old(self).flushed().contains_key(e),
            r matches Err(ComponentError::MissingComponent(missing)) ==> exists|i: int|
                0 <= i < ids@.len() && #[trigger] ids@[i] == missing.id && !old(self).flushed()[e].contains_key(missing.id) && forall|j: int|
                    0 <= j < i ==> old(self).flushed()[e].contains_key(#[trigger] ids@[j]),
            final(self).room() == old(self).room(),
            final(self).ids_kept(old(self)),
            r is Ok ==> final(self).rows_exchanged(old(self), e),
            r is Err ==> final(self).rows_kept(old(self)),
            r is Ok ==> final(self).archetypes_after(old(self), final(self)@[e]),
            r is Err ==> final(self).archetype_seq().len() == old(self).archetype_seq().len(),
    {
        self.flush();
        let ghost flushed = *self;
        let location = match self.entities.get(e) {
            Ok(location) => location,
            Err(_) => {
                return Err(ComponentError::NoSuchEntity);
            },
        };
        let a = location.archetype;
        let row = location.row;
        proof {
            assert(self.placed(e.id, location));
            assert(self.archetypes@[a as int].wf());
            self.archetypes@[a as int].lemma_wf();
            self.archetypes@[a as int].lemma_row(row as int);
        }
        let ghost current = self.archetypes@[a as int].signature();
        let mut taken: Vec<Component> = Vec::new();
        let mut i: usize = 0;
        while i < ids.len()
            invariant
                i <= ids@.len(),
                *self == flushed,
                self.wf(),
                self.unborrowed(),
                self.reserved() == Set::<Entity>::empty(),
                self.keeps_archetypes(old(self)),
                self.room() == old(self).room(),
                self.ids_kept(old(self)),
                self.rows_kept(old(self)),
                self.archetypes@.len() == old(self).archetypes@.len(),
                self@ == old(self).flushed(),
                self@.contains_key(e),
                a < self.archetypes@.len(),
                self.archetypes@[a as int].wf(),
                row < self.archetypes@[a as int].rows(),
                self@[e] == self.archetypes@[a as int].row(row as int),
                forall|id: u64| self@[e].contains_key(id) <==> has_id(current, id),
                current == self.archetypes@[a as int].signature(),
                taken@.len() == i,
                forall|k: int| 0 <= k < i ==> self@[e].contains_key(#[trigger] ids@[k]),
                forall|k: int| 0 <= k < i ==> (#[trigger] taken@[k])@ == self@[e][ids@[k]],
            decreases ids@.len() - i,
        {
            match self.archetypes[a].component(row, ids[i]) {
                Some(c) => {
                    taken.push(c);
                },
                None => {
                    return Err(ComponentError::MissingComponent(MissingComponent { id: ids[i] }));
                },
            }
            i = i + 1;
        }
        let given = bundle.infos();
        let target = match self.find_edge(a, &given, ids) {
            Some(target) => target,
            None => {
                let kept = types_without(self.archetypes[a].types(), ids);
                let types = merged_types(&kept, &bundle);
                let target = self.archetype_for(types);
                self.add_edge(a, given, ids.clone(), target);
                target
            },
        };
        let ghost signature = self.archetypes@[target as int].signature();
        let ghost found_rows = self.archetypes@[target as int].entity_ids();
        proof {
            assert(self.archetypes@[target as int].wf());
            self.archetypes@[target as int].lemma_wf();
        }
        if target != a {
            self.migrate(e, target);
        }
        proof {
            assert(self.location(e).archetype == target);
            assert forall|k: int| 0 <= k < bundle.components@.len() implies (
            #[trigger] bundle.components@[k]).wf() && signature.contains(
                bundle.components@[k].info,
            ) by {
                assert(bundle@[k].bytes.len() == bundle@[k].info.size);
                assert(infos(bundle@)[k] == bundle.components@[k].info);
                assert(infos(bundle@).contains(bundle.components@[k].info));
            }
        }
        let ghost migrated = *self;
        self.write_row(e, &bundle.components);
        let taken = Bundle::from_components(taken);
        proof {
            flushed.lemma_flushed_ids();
            assert forall|b: int| 0 <= b < self.archetype_seq().len() implies #[trigger] self.ids_at(b)
                == if target == a {
                old(self).flushed_ids(b)
            } else if b == a {
                crate::archetype::swap_removed(old(self).flushed_ids(b), row as int)
            } else if b == target {
                old(self).flushed_ids(b).push(e.id)
            } else {
                old(self).flushed_ids(b)
            } by {
                assert(self.archetypes@[b].entity_ids() == migrated.archetypes@[b].entity_ids());
                if b < flushed.archetypes@.len() {
                    assert(flushed.ids_at(b) == old(self).flushed_ids(b));
                } else {
                    assert(old(self).flushed_ids(b) =~= Seq::<u32>::empty());
                    assert(found_rows =~= Seq::<u32>::empty());
                }
            }
            lemma_exchanged_row(flushed@[e], ids@, bundle@, current, signature);
            assert forall|b: int| 0 <= b < old(self).archetype_seq().len() implies (
            #[trigger] self.archetype_seq()[b]).signature() == old(self).archetype_seq()[b].signature() by {
                assert(flushed.archetype_seq()[b].signature() == old(self).archetype_seq()[b].signature());
                assert(migrated.archetype_seq()[b].signature() == self.archetype_seq()[b].signature());
            }
            self.lemma_archetypes_after(old(self), e);
            assert(self.reserved() =~= Set::<Entity>::empty());
            assert forall|k: int| 0 <= k < ids@.len() implies #[trigger] taken@[k] == flushed@[e][ids@[k]] by {}
        }
        Ok(taken)
    }

    /// Takes the components `ids` from the entity `e` and returns them, in the
    /// order of `ids`. The entity moves to the archetype of the types it is left
    /// with. Reservations are flushed first. Returns an error, with nothing
    /// else changed, when `e` is not a live entity, or when it has no component
    /// of one of the types: the error then names the first such id.
    pub fn remove(&mut self, e: Entity, ids: &Vec<u64>) -> (r: Result<Bundle, ComponentError>)
        requires
            old(self).wf(),
            old(self).unborrowed(),
        ensures
            final(self).wf(),
            final(self).unborrowed(),
            final(self).reserved() == Set::<Entity>::empty(),
            final(self).keeps_archetypes(old(self)),
            r is Ok <==> old(self).flushed().contains_key(e) && forall|i: int|
                0 <= i < ids@.len() ==> old(self).flushed()[e].contains_key(#[trigger] ids@[i]),
            r matches Ok(taken) ==> {
                &&& taken@.len() == ids@.len()
                &&& forall|i: int|
                    0 <= i < ids@.len() ==> #[trigger] taken@[i] == old(self).flushed()[e][ids@[i]]
                &&& final(self)@ == old(self).flushed().insert(
                    e,
                    old(self).flushed()[e].remove_keys(ids@.to_set()),
                )
            },
            r is Err ==> final(self)@ == old(self).flushed(),
            r matches Err(ComponentError::NoSuchEntity) <==> !old(self).flushed().contains_key(e),
            r matches Err(ComponentError::MissingComponent(missing)) ==> exists|i: int|
                0 <= i < ids@.len() && #[trigger] ids@[i] == missing.id && !old(self).flushed()[e].contains_key(missing.id) && forall|j: int|
                    0 <= j < i ==> old(self).flushed()[e].contains_key(#[trigger] ids@[j]),
            final(self).room() == old(self).room(),
            final(self).ids_kept(old(self)),
            r is Ok ==> final(self).rows_exchanged(old(self), e),
            r is Err ==> final(self).rows_kept(old(self)),
            r is Ok ==> final(self).archetypes_after(old(self), final(self)@[e]),
            r is Err ==> final(self).archetype_seq().len() == old(self).archetype_seq().len(),
    {
        let nothing = Bundle::new();
        proof {
            assert(by_id(nothing@) =~= Map::<u64, ComponentView>::empty());
            if old(self).flushed().contains_key(e) {
                let less = old(self).flushed()[e].remove_keys(ids@.to_set());
                assert(less.union_prefer_right(by_id(nothing@)) =~= less);
            }
        }
        self.exchange(e, ids, nothing)
    }

    /// Takes the component of type `id` from the entity `e` and returns it, as
    /// `remove` takes several.
    pub fn remove_one(&mut self, e: Entity, id: u64) -> (r: Result<Component, ComponentError>)
        requires
            old(self).wf(),
            old(self).unborrowed(),
        ensures
            final(self).wf(),
            final(self).unborrowed(),
            final(self).reserved() == Set::<Entity>::empty(),
            final(self).keeps_archetypes(old(self)),
            r is Ok <==> old(self).flushed().contains_key(e) && old(self).flushed()[e].contains_key(id),
            r matches Ok(taken) ==> taken@ == old(self).flushed()[e][id] && final(self)@ == old(self).flushed().insert(e, old(self).flushed()[e].remove(id)),
            r is Err ==> final(self)@ == old(self).flushed(),
            r matches Err(ComponentError::NoSuchEntity) <==> !old(self).flushed().contains_key(e),
            r matches Err(ComponentError::MissingComponent(missing)) ==> missing.id == id,
            final(self).ids_kept(old(self)),
            r is Ok ==> final(self).rows_exchanged(old(self), e),
            r is Err ==> final(self).rows_kept(old(self)),
            r is Ok ==> final(self).archetypes_after(old(self), final(self)@[e]),
            r is Err ==> final(self).archetype_seq().len() == old(self).archetype_seq().len(),
    {
        let mut ids: Vec<u64> = Vec::new();
        ids.push(id);
        proof {
            assert(ids@[0] == id);
            assert(ids@.to_set() =~= set![id]);
            if old(self).flushed().contains_key(e) {
                let row = old(self).flushed()[e];
                assert(row.remove_keys(set![id]) =~= row.remove(id));
            }
        }
        match self.remove(e, &ids) {
            Ok(taken) => {
                let mut components = taken.put();
                proof {
                    assert(taken@[0] == old(self).flushed()[e][ids@[0]]);
                }
                let component = components.pop().unwrap();
                Ok(component)
            },
            Err(error) => Err(error),
        }
    }
}

} // verus!

verus! {

impl Frame {
    /// Removes the live entity `e` and returns its components, in canonical
    /// order.
    fn remove_entity(&mut self, e: Entity) -> (taken: Bundle)
        requires
            old(self).wf(),
            old(self).unborrowed(),
            old(self)@.contains_key(e),
        ensures
            final(self).wf(),
            final(self).unborrowed(),
            final(self).keeps_archetypes(old(self)),
            final(self).archetypes@.len() == old(self).archetypes@.len(),
            final(self)@ == old(self)@.remove(e),
            final(self).entities.pending() == old(self).entities.pending(),
            final(self).entities.slot_count() == old(self).entities.slot_count(),
            final(self).entities.location_of(e.id) is None,
            final(self).reserved() == old(self).reserved(),
            final(self).ids_after_despawn(old(self), e),
            by_id(taken@) == old(self)@[e],
            taken.wf(),
            forall|b: int|
                0 <= b < old(self).archetypes@.len() ==> (#[trigger] final(self).archetypes@[b]).entity_ids() == if b == old(self).location(e).archetype {
                    crate::archetype::swap_removed(
                        old(self).archetypes@[b].entity_ids(),
                        old(self).location(e).row as int,
                    )
                } else {
                    old(self).archetypes@[b].entity_ids()
                },
    {
        let freed = self.entities.free(e);
        let location = freed.unwrap();
        proof {
            assert(old(self).placed(e.id, location));
            assert(old(self).archetype_seq()[location.archetype as int].unborrowed());
            assert(old(self).archetypes@[location.archetype as int].wf());
            old(self).archetypes@[location.archetype as int].lemma_wf();
        }
        let (components, moved) = self.archetypes[location.archetype].take_row(location.row);
        match moved {
            Some(id) => {
                proof {
                    let last = old(self).archetypes@[location.archetype as int].rows() - 1;
                    assert(old(self).holds(
                        old(self).archetypes@[location.archetype as int].entity_ids()[last],
                        location.archetype as int,
                        last,
                    ));
                }
                self.entities.set_location(id, location);
            },
            None => {},
        }
        let taken = Bundle::from_components(components);
        proof {
            self.lemma_shrunk(old(self), location.archetype as int, location.row as int, e);
            self.lemma_still_unborrowed(old(self), location.archetype as int);
            assert(self.reserved() =~= old(self).reserved());
            assert(all_sized(taken@)) by {
                assert forall|i: int| 0 <= i < taken@.len() implies (#[trigger] taken@[i]).bytes.len()
                    == taken@[i].info.size by {
                    assert(components@[i].wf());
                }
            }
        }
        taken
    }

    /// Removes the entity `e` from the store and returns its components, so
    /// that they can be spawned elsewhere. Reservations are flushed first.
    /// Returns the error when `e` is not a live entity.
    pub fn take(&mut self, e: Entity) -> (r: Result<Bundle, NoSuchEntity>)
        requires
            old(self).wf(),
            old(self).unborrowed(),
        ensures
            final(self).wf(),
            final(self).unborrowed(),
            final(self).reserved() == Set::<Entity>::empty(),
            final(self).keeps_archetypes(old(self)),
            r is Ok <==> old(self).flushed().contains_key(e),
            r matches Ok(taken) ==> by_id(taken@) == old(self).flushed()[e] && taken.wf(),
            final(self)@ == old(self).flushed().remove(e),
            final(self).room() == old(self).room(),
            r is Ok ==> final(self).ids_after_despawn(old(self), e),
            r is Err ==> final(self).ids_kept(old(self)),
            r is Ok ==> final(self).row_removed(old(self), old(self).flushed_location(e)),
            r is Err ==> final(self).rows_kept(old(self)),
            final(self).archetype_seq().len() == old(self).archetype_seq().len(),
            crate::laws::took(
                *old(self),
                e,
                match r {
                    Ok(taken) => Some(taken@),
                    Err(_) => None,
                },
                *final(self),
            ),
    {
        self.flush();
        let ghost flushed = *self;
        if self.entities.contains(e) {
            let taken = self.remove_entity(e);
            proof {
                assert(self.reserved() =~= Set::<Entity>::empty());
                flushed.lemma_flushed_ids();
                assert forall|b: int| 0 <= b < self.archetype_seq().len() implies #[trigger] self.ids_at(
                    b,
                ) == if b == flushed.location(e).archetype {
                    crate::archetype::swap_removed(
                        old(self).flushed_ids(b),
                        flushed.location(e).row as int,
                    )
                } else {
                    old(self).flushed_ids(b)
                } by {
                    assert(flushed.ids_at(b) == old(self).flushed_ids(b));
                }
            }
            Ok(taken)
        } else {
            proof {
                assert(self@ =~= self@.remove(e));
            }
            Err(NoSuchEntity {  })
        }
    }

    /// Drops every entity with its components, and every reservation. The
    /// archetypes stay, with their capacity.
    pub fn clear(&mut self)
        requires
            old(self).wf(),
            old(self).unborrowed(),
        ensures
            final(self).wf(),
            final(self).unborrowed(),
            final(self)@ == Map::<Entity, Row>::empty(),
            crate::laws::cleared(*final(self)),
            final(self)@.len() == 0,
            forall|e: Entity| !final(self)@.contains_key(e),
            final(self).reserved() == Set::<Entity>::empty(),
            final(self).keeps_archetypes(old(self)),
            final(self).archetype_seq().len() == old(self).archetype_seq().len(),
            forall|a: int|
                0 <= a < old(self).archetype_seq().len() ==> (#[trigger] final(self).archetype_seq()[a]).rows() == 0,
            final(self).issued() == old(self).issued(),
            final(self).allocator().free_ids() == old(self).allocator().free_ids() + old(self).allocator().freed_upto(old(self).allocator().slot_count() as int) + Entities::id_range(
                old(self).allocator().slot_count() as int,
                old(self).issued() as int,
            ),
            forall|id: u32|
                old(self).allocator().slot_count() <= id < old(self).issued() ==> final(self).allocator().generation_of(id) == 1,
            forall|id: u32|
                id < old(self).allocator().slot_count() ==> final(self).allocator().generation_of(id)
                    == if old(self).allocator().location_of(id) is Some && old(self).allocator().generation_of(id) < u32::MAX {
                    (old(self).allocator().generation_of(id) + 1) as u32
                } else {
                    old(self).allocator().generation_of(id)
                },
            forall|a: int|
                0 <= a < old(self).archetype_seq().len() ==> (#[trigger] final(self).archetype_seq()[a]).cap() == old(self).archetype_seq()[a].cap(),
    {
        let mut a: usize = 0;
        while a < self.archetypes.len()
            invariant
                a <= self.archetypes@.len(),
                self.entities == old(self).entities,
                self.edges == old(self).edges,
                self.archetypes@.len() == old(self).archetypes@.len(),
                old(self).wf(),
                old(self).unborrowed(),
                forall|b: int| a <= b < self.archetypes@.len() ==> self.archetypes@[b] == old(self).archetypes@[b],
                forall|b: int|
                    0 <= b < a ==> (#[trigger] self.archetypes@[b]).wf() && self.archetypes@[b].unborrowed()
                        && self.archetypes@[b].rows() == 0 && self.archetypes@[b].signature() == old(self).archetypes@[b].signature() && self.archetypes@[b].cap() == old(self).archetypes@[b].cap(),
            decreases self.archetypes@.len() - a,
        {
            proof {
                assert(old(self).archetype_seq()[a as int].unborrowed());
                assert(old(self).archetypes@[a as int].wf());
            }
            self.archetypes[a].clear();
            a = a + 1;
        }
        self.entities.clear();
        proof {
            assert forall|b: int, c: int| 0 <= b < c < self.archetypes@.len() implies (
            #[trigger] self.archetypes@[b]).signature() != (
            #[trigger] self.archetypes@[c]).signature() by {
                assert(old(self).archetypes@[b].signature() != old(self).archetypes@[c].signature());
            }
            assert(self.archetypes@[0].signature() == old(self).archetypes@[0].signature());
            self.lemma_edges_kept(old(self));
            assert(self@ =~= Map::<Entity, Row>::empty());
            assert(self.reserved() =~= Set::<Entity>::empty());
        }
    }

    /// Spawns an entity with the components of `bundle` under the handle `e`.
    /// An entity that lives in the slot of `e` is dropped first, with its
    /// components. Reservations are flushed first.
    pub fn spawn_at(&mut self, e: Entity, bundle: Bundle)
        requires
            old(self).wf(),
            old(self).unborrowed(),
            bundle.wf(),
            e.id < u32::MAX,
        ensures
            final(self).wf(),
            final(self).unborrowed(),
            final(self).reserved() == Set::<Entity>::empty(),
            final(self).keeps_archetypes(old(self)),
            final(self)@ == old(self).flushed().remove_keys(Set::new(|x: Entity| x.id == e.id)).insert(
                e,
                by_id(bundle@),
            ),
            final(self).ids_after_spawn_at(old(self), e),
            final(self).rows_after_spawn_at(old(self), e),
            final(self).archetypes_after(old(self), by_id(bundle@)),
    {
        self.flush();
        let ghost flushed = *self;
        proof {
            flushed.lemma_flushed_ids();
            flushed.entities.lemma_wf();
            if flushed.entities.location_of(e.id) is Some {
                assert(flushed.placed(e.id, flushed.entities.location_of(e.id).unwrap()));
                if flushed.entities.free_ids().contains(e.id) {
                    let i = choose|i: int|
                        0 <= i < flushed.entities.free_ids().len() && flushed.entities.free_ids()[i]
                            == e.id;
                    assert(flushed.entities.location_of(flushed.entities.free_ids()[i]) is None);
                }
            }
        }
        match self.entities.occupant(e.id) {
            Some(occupant) => {
                let _ = self.remove_entity(occupant);
            },
            None => {},
        }
        let ghost vacated = *self;
        proof {
            assert(vacated@ =~= flushed@.remove_keys(Set::new(|x: Entity| x.id == e.id)));
        }
        let types = bundle.type_info();
        let a = self.archetype_for(types);
        let ghost found = *self;
        let ghost signature = self.archetypes@[a as int].signature();
        let ghost found_rows = self.archetypes@[a as int].entity_ids();
        let row = self.archetypes[a].len();
        let _ = self.entities.alloc_at(e, Location { archetype: a, row });
        proof {
            self.entities.lemma_wf();
            found.lemma_rows_bound(a as int, e.id);
            assert(found.archetype_seq()[a as int].unborrowed());
        }
        self.archetypes[a].allocate_row(e.id);
        proof {
            self.lemma_grown(&found, a as int, e);
            assert forall|i: int| 0 <= i < bundle.components@.len() implies (
            #[trigger] bundle.components@[i]).wf() && signature.contains(
                bundle.components@[i].info,
            ) by {
                assert(bundle@[i].bytes.len() == bundle@[i].info.size);
                assert(infos(bundle@)[i] == bundle.components@[i].info);
                assert(infos(bundle@).contains(bundle.components@[i].info));
            }
            assert(self.holds(e.id, a as int, self.location(e).row as int));
        }
        let ghost grown = *self;
        self.write_row(e, &bundle.components);
        proof {
            crate::component::lemma_by_id_domain(bundle@);
            assert(zero_row(signature).union_prefer_right(by_id(bundle@)) =~= by_id(bundle@));
            assert(self.reserved() =~= Set::<Entity>::empty());
            let free = flushed.entities.free_ids();
            if flushed.entities.location_of(e.id) is Some && vacated.entities.free_ids()
                == free.push(e.id) {
                let list = free.push(e.id);
                let i = list.index_of(e.id);
                assert(list[free.len() as int] == e.id);
                assert(list.contains(e.id));
                assert(0 <= i < list.len() && list[i] == e.id);
                if i < free.len() {
                    assert(free[i] == e.id);
                    assert(free.contains(e.id));
                }
                assert(list.remove(i) =~= free);
            }
            if flushed.entities.location_of(e.id) is Some && vacated.entities.free_ids() == free {
                assert(!free.contains(e.id));
            }
            assert(self.ids_after_spawn_at(old(self), e));
            self.lemma_archetypes_after(old(self), e);
            assert forall|b: int| 0 <= b < self.archetype_seq().len() implies #[trigger] self.ids_at(b)
                == {
                let base = if old(self).flushed_spot(e.id) is Some && old(self).flushed_spot(
                    e.id,
                ).unwrap().archetype == b {
                    crate::archetype::swap_removed(
                        old(self).flushed_ids(b),
                        old(self).flushed_spot(e.id).unwrap().row as int,
                    )
                } else {
                    old(self).flushed_ids(b)
                };
                if b == a {
                    base.push(e.id)
                } else {
                    base
                }
            } by {
                assert(self.archetypes@[b].entity_ids() == grown.archetypes@[b].entity_ids());
                if b < flushed.archetypes@.len() {
                    assert(flushed.ids_at(b) == old(self).flushed_ids(b));
                    assert(found.archetypes@[b] == vacated.archetypes@[b]);
                } else {
                    assert(old(self).flushed_ids(b) =~= Seq::<u32>::empty());
                    assert(found_rows =~= Seq::<u32>::empty());
                }
            }
        }
    }
}

} // verus!

verus! {

impl Frame {
    /// Where the entity `e` is stored, or the error when `e` is not a live
    /// entity.
    pub fn locate(&self, e: Entity) -> (r: Result<Location, NoSuchEntity>)
        requires
            self.wf(),
        ensures
            r is Ok <==> self@.contains_key(e),
            r matches Ok(location) ==> location == self.location(e) && location.archetype
                < self.archetype_seq().len() && location.row
                < self.archetype_seq()[location.archetype as int].rows(),
    {
        let r = self.entities.get(e);
        proof {
            if r is Ok {
                assert(self.placed(e.id, self.entities.location_of(e.id).unwrap()));
            }
        }
        r
    }

    /// The handle of the entity in row `row` of archetype `archetype`.
    pub fn entity_at(&self, archetype: usize, row: usize) -> (e: Entity)
        requires
            self.wf(),
            archetype < self.archetype_seq().len(),
            row < self.archetype_seq()[archetype as int].rows(),
        ensures
            e == self.spec_entity_at(archetype as int, row as int),
            self@.contains_key(e),
            self.location(e) == (Location { archetype, row }),
    {
        proof {
            assert(self.holds(
                self.archetypes@[archetype as int].entity_ids()[row as int],
                archetype as int,
                row as int,
            ));
        }
        let id = self.archetypes[archetype].entity_id(row);
        self.entities.resolve(id)
    }

    /// The handle of the entity in row `row` of archetype `archetype`.
    pub open spec fn spec_entity_at(&self, archetype: int, row: int) -> Entity {
        Entity {
            id: self.archetype_seq()[archetype].entity_ids()[row],
            generation: self.allocator().generation_of(self.archetype_seq()[archetype].entity_ids()[row]),
        }
    }
}

} // verus!

verus! {

/// What `Frame::spawn` ensures of the stores before and after it, of the
/// components of the new entity and of its handle.
pub open spec fn spawn_step(before: Frame, row: Row, e: Entity, after: Frame) -> bool {
    &&& after.wf()
    &&& after.unborrowed()
    &&& e == before.next_entity()
    &&& !before.flushed().contains_key(e)
    &&& after@ == before.flushed().insert(e, row)
    &&& after.reserved() == Set::<Entity>::empty()
    &&& after.keeps_archetypes(&before)
    &&& after.ids_after_spawn(&before)
    &&& after.row_added(&before, after.location(e).archetype as int, e.id)
    &&& after.archetypes_after(&before, row)
}

/// The store `after` is the store `before` with its reservations flushed, and
/// with nothing else changed but that it may have more archetypes, without
/// rows.
pub open spec fn settled(before: Frame, after: Frame) -> bool {
    &&& after.wf()
    &&& after.unborrowed()
    &&& after@ == before.flushed()
    &&& after.reserved() == Set::<Entity>::empty()
    &&& after.keeps_archetypes(&before)
    &&& after.ids_kept(&before)
    &&& after.rows_kept(&before)
}

/// The store `end` is the store `start` with its reservations flushed and with
/// an entity spawned for each of `rows`, one after the other, under the handles
/// `handles`.
pub open spec fn spawned_all(start: Frame, rows: Seq<Row>, handles: Seq<Entity>, end: Frame) -> bool
    decreases handles.len(),
{
    if handles.len() == 0 {
        settled(start, end)
    } else {
        exists|mid: Frame|
            #![trigger spawn_step(mid, rows.last(), handles.last(), end)]
            spawned_all(start, rows.drop_last(), handles.drop_last(), mid) && spawn_step(
                mid,
                rows.last(),
                handles.last(),
                end,
            )
    }
}

/// Entities are spawned one after the other once all but the last are, and the
/// last is spawned in what that gave.
pub proof fn lemma_spawned_step(
    start: Frame,
    rows: Seq<Row>,
    handles: Seq<Entity>,
    mid: Frame,
    end: Frame,
)
    requires
        handles.len() > 0,
        spawned_all(start, rows.drop_last(), handles.drop_last(), mid),
        spawn_step(mid, rows.last(), handles.last(), end),
    ensures
        spawned_all(start, rows, handles, end),
{
}

/// The map `m` with each of the entities `handles` given the components of the
/// row of its position, one after the other.
pub open spec fn with_rows(m: Map<Entity, Row>, handles: Seq<Entity>, rows: Seq<Row>) -> Map<
    Entity,
    Row,
>
    decreases handles.len(),
{
    if handles.len() == 0 {
        m
    } else {
        with_rows(m, handles.drop_last(), rows.drop_last()).insert(handles.last(), rows.last())
    }
}

/// The bundles of `bundles`, each by the ids of its components.
pub open spec fn rows_of_bundles(bundles: Seq<Bundle>) -> Seq<Row> {
    Seq::new(bundles.len(), |i: int| by_id(bundles[i]@))
}

impl Frame {
    /// The handles of the entities of the first `upto` archetypes, archetype
    /// after archetype and row after row.
    pub open spec fn handles_upto(&self, upto: int) -> Seq<Entity>
        decreases upto,
    {
        if upto <= 0 {
            Seq::empty()
        } else {
            self.handles_upto(upto - 1) + Seq::new(
                self.archetype_seq()[upto - 1].rows(),
                |r: int| self.spec_entity_at(upto - 1, r),
            )
        }
    }

    /// The live entities, archetype after archetype in the order in which the
    /// archetypes were made, and row after row.
    pub fn iter(&self) -> (out: Vec<Entity>)
        requires
            self.wf(),
        ensures
            out@ == self.handles_upto(self.archetype_seq().len() as int),
            out@.len() == self@.len(),
            forall|i: int| 0 <= i < out@.len() ==> self@.contains_key(#[trigger] out@[i]),
            forall|e: Entity| self@.contains_key(e) ==> out@.contains(e),
            out@.no_duplicates(),
    {
        let mut out: Vec<Entity> = Vec::new();
        let mut a: usize = 0;
        proof {
            assert(out@ =~= self.handles_upto(0));
        }
        while a < self.archetypes.len()
            invariant
                a <= self.archetypes@.len(),
                self.wf(),
                out@ == self.handles_upto(a as int),
                forall|i: int|
                    0 <= i < out@.len() ==> self@.contains_key(#[trigger] out@[i]) && self.location(
                        out@[i],
                    ).archetype < a,
                forall|e: Entity|
                    self@.contains_key(e) && self.location(e).archetype < a ==> out@.contains(e),
                out@.no_duplicates(),
            decreases self.archetypes@.len() - a,
        {
            let n = self.archetypes[a].len();
            let mut r: usize = 0;
            let ghost rows = Seq::new(n as nat, |r: int| self.spec_entity_at(a as int, r));
            proof {
                assert(out@ =~= self.handles_upto(a as int) + rows.take(0));
            }
            while r < n
                invariant
                    r <= n,
                    a < self.archetypes@.len(),
                    n == self.archetypes@[a as int].rows(),
                    self.wf(),
                    rows == Seq::new(n as nat, |r: int| self.spec_entity_at(a as int, r)),
                    out@ == self.handles_upto(a as int) + rows.take(r as int),
                    forall|i: int|
                        0 <= i < out@.len() ==> self@.contains_key(#[trigger] out@[i]) && (
                        self.location(out@[i]).archetype < a || (self.location(out@[i]).archetype
                            == a && self.location(out@[i]).row < r)),
                    forall|e: Entity|
                        self@.contains_key(e) && (self.location(e).archetype < a || (self.location(
                            e,
                        ).archetype == a && self.location(e).row < r)) ==> out@.contains(e),
                    out@.no_duplicates(),
                decreases n - r,
            {
                let e = self.entity_at(a, r);
                let ghost before = out@;
                out.push(e);
                proof {
                    assert(rows.take(r + 1) =~= rows.take(r as int).push(rows[r as int]));
                    assert(out@ =~= self.handles_upto(a as int) + rows.take(r + 1));
                    assert forall|x: Entity|
                        self@.contains_key(x) && (self.location(x).archetype < a || (self.location(
                            x,
                        ).archetype == a && self.location(x).row < r + 1)) implies out@.contains(
                        x,
                    ) by {
                        if self.location(x).archetype == a && self.location(x).row == r {
                            assert(self.placed(x.id, self.entities.location_of(x.id).unwrap()));
                            assert(x == e);
                            assert(out@[before.len() as int] == x);
                        } else {
                            assert(before.contains(x));
                            let k = choose|k: int| 0 <= k < before.len() && before[k] == x;
                            assert(out@[k] == x);
                        }
                    }
                }
                r = r + 1;
            }
            proof {
                assert(rows.take(n as int) =~= rows);
            }
            a = a + 1;
        }
        proof {
            self.entities.lemma_wf();
            assert(self@.dom() =~= self.entities.live_set());
            assert(out@.to_set() =~= self@.dom()) by {
                assert forall|e: Entity| out@.to_set().contains(e) <==> self@.dom().contains(e) by {
                    if out@.to_set().contains(e) {
                        let k = choose|k: int| 0 <= k < out@.len() && out@[k] == e;
                        assert(self@.contains_key(out@[k]));
                    }
                    if self@.contains_key(e) {
                        assert(self.placed(e.id, self.entities.location_of(e.id).unwrap()));
                    }
                }
            }
            out@.unique_seq_to_set();
        }
        out
    }

    /// The capacity of an archetype of `rows` rows and the capacity `cap` once
    /// it has room for `additional` more rows: the capacity it had, where that
    /// is enough, else the rows that it has to hold, as far as they can be
    /// counted.
    pub open spec fn reserved_capacity(rows: nat, cap: nat, additional: nat) -> nat {
        if rows + additional <= cap {
            cap
        } else if rows + additional <= usize::MAX {
            rows + additional
        } else {
            usize::MAX as nat
        }
    }

    /// Makes sure that the archetype of the types `types` exists and has room
    /// for `additional` more entities.
    pub fn reserve(&mut self, types: &Vec<TypeInfo>, additional: usize)
        requires
            old(self).wf(),
            old(self).unborrowed(),
            distinct_ids(types@),
        ensures
            final(self).wf(),
            final(self).unborrowed(),
            final(self)@ == old(self)@,
            final(self).allocator() == old(self).allocator(),
            final(self).keeps_archetypes(old(self)),
            forall|a: int|
                0 <= a < final(self).archetype_seq().len() ==> #[trigger] final(self).ids_at(a) == if a
                    < old(self).archetype_seq().len() {
                    old(self).ids_at(a)
                } else {
                    Seq::<u32>::empty()
                },
            exists|a: int|
                0 <= a < final(self).archetype_seq().len() && canonical(
                    (#[trigger] final(self).archetype_seq()[a]).signature(),
                ) && (forall|x: TypeInfo|
                    final(self).archetype_seq()[a].signature().contains(x) <==> types@.contains(x))
                    && final(self).archetype_seq()[a].cap() == Self::reserved_capacity(
                    final(self).archetype_seq()[a].rows(),
                    if a < old(self).archetype_seq().len() {
                        old(self).archetype_seq()[a].cap()
                    } else {
                        0
                    },
                    additional as nat,
                ) && forall|b: int|
                    0 <= b < old(self).archetype_seq().len() && b != a ==> final(self).archetype_seq()[b] == old(self).archetype_seq()[b],
    {
        let sorted = canonical_order(types);
        let ghost signature = sorted@;
        let a = self.archetype_for(sorted);
        let ghost found = *self;
        proof {
            assert(self.archetype_seq()[a as int].unborrowed());
            assert(self.archetypes@[a as int].wf());
        }
        self.archetypes[a].reserve(additional);
        proof {
            assert(found@.dom() =~= self@.dom());
            assert forall|x: Entity| self@.contains_key(x) implies #[trigger] self@[x] == found@[x] by {
                assert(found.placed(x.id, found.entities.location_of(x.id).unwrap()));
            }
            assert(self@ =~= found@);
            assert forall|b: int, s: int|
                0 <= b < self.archetypes@.len() && 0 <= s < self.archetypes@[b].rows() implies self.holds(
                #[trigger] self.archetypes@[b].entity_ids()[s],
                b,
                s,
            ) by {
                assert(found.holds(found.archetypes@[b].entity_ids()[s], b, s));
            }
            assert forall|id: u32| (#[trigger] self.entities.location_of(id)) is Some implies self.placed(
                id,
                self.entities.location_of(id).unwrap(),
            ) by {
                assert(found.placed(id, found.entities.location_of(id).unwrap()));
            }
            assert forall|b: int| 0 <= b < self.archetypes@.len() implies (
            #[trigger] self.archetypes@[b]).wf() by {
                if b != a {
                    assert(found.archetypes@[b].wf());
                }
            }
            assert forall|b: int, c: int| 0 <= b < c < self.archetypes@.len() implies (
            #[trigger] self.archetypes@[b]).signature() != (
            #[trigger] self.archetypes@[c]).signature() by {
                assert(found.archetypes@[b].signature() != found.archetypes@[c].signature());
            }
            assert(self.archetypes@[0].signature() == found.archetypes@[0].signature());
            self.lemma_edges_kept(&found);
            self.lemma_still_unborrowed(&found, a as int);
            assert(self.archetype_seq()[a as int].signature() == signature);
            assert(self.archetype_seq()[a as int].rows() == found.archetypes@[a as int].rows());
            if a >= old(self).archetype_seq().len() {
                assert(found.archetypes@[a as int].rows() == 0);
                found.archetypes@[a as int].lemma_wf();
            }
            assert forall|b: int|
                0 <= b < old(self).archetype_seq().len() && b != a implies self.archetype_seq()[b]
                == old(self).archetype_seq()[b] by {
                assert(found.archetypes@[b] == old(self).archetypes@[b]);
            }
            if a < old(self).archetype_seq().len() {
                assert(found.archetypes@[a as int] == old(self).archetypes@[a as int]);
            }
            found.archetypes@[a as int].lemma_wf();
            self.archetypes@[a as int].lemma_wf();
            assert(canonical(self.archetype_seq()[a as int].signature()));
            assert(self.archetype_seq()[a as int].cap() == Self::reserved_capacity(
                self.archetype_seq()[a as int].rows(),
                if a < old(self).archetype_seq().len() {
                    old(self).archetype_seq()[a as int].cap()
                } else {
                    0
                },
                additional as nat,
            ));
            assert forall|b: int| 0 <= b < self.archetype_seq().len() implies #[trigger] self.ids_at(b)
                == if b < old(self).archetype_seq().len() {
                old(self).ids_at(b)
            } else {
                Seq::<u32>::empty()
            } by {
                if b < old(self).archetype_seq().len() {
                    assert(found.archetypes@[b] == old(self).archetypes@[b]);
                } else {
                    assert(found.archetypes@[b].rows() == 0);
                    assert(self.ids_at(b) =~= Seq::<u32>::empty());
                }
            }
        }
    }

    /// Takes the component of type `id` from the entity `e` and gives it
    /// `component`, as `exchange` does for several. Returns the component that
    /// was taken.
    pub fn exchange_one(&mut self, e: Entity, id: u64, component: Component) -> (r: Result<
        Component,
        ComponentError,
    >)
        requires
            old(self).wf(),
            old(self).unborrowed(),
            component.wf(),
        ensures
            final(self).wf(),
            final(self).unborrowed(),
            final(self).reserved() == Set::<Entity>::empty(),
            final(self).keeps_archetypes(old(self)),
            r is Ok <==> old(self).flushed().contains_key(e) && old(self).flushed()[e].contains_key(id),
            r matches Ok(taken) ==> taken@ == old(self).flushed()[e][id] && final(self)@ == old(self).flushed().insert(
                e,
                old(self).flushed()[e].remove(id).insert(component.info.id, component@),
            ),
            r is Err ==> final(self)@ == old(self).flushed(),
            r matches Err(ComponentError::NoSuchEntity) <==> !old(self).flushed().contains_key(e),
            r matches Err(ComponentError::MissingComponent(missing)) ==> missing.id == id,
            final(self).ids_kept(old(self)),
            r is Ok ==> final(self).rows_exchanged(old(self), e),
            r is Err ==> final(self).rows_kept(old(self)),
            r is Ok ==> final(self).archetypes_after(old(self), final(self)@[e]),
            r is Err ==> final(self).archetype_seq().len() == old(self).archetype_seq().len(),
    {
        let ghost view = component@;
        let mut ids: Vec<u64> = Vec::new();
        ids.push(id);
        let mut bundle = Bundle::new();
        bundle.push(component);
        proof {
            assert(ids@[0] == id);
            assert(ids@.to_set() =~= set![id]);
            assert(bundle@ =~= seq![view]);
            crate::component::lemma_by_id_single(view);
            if old(self).flushed().contains_key(e) {
                let row = old(self).flushed()[e];
                assert(row.remove_keys(set![id]) =~= row.remove(id));
                assert(row.remove(id).union_prefer_right(by_id(bundle@)) =~= row.remove(id).insert(
                    view.info.id,
                    view,
                ));
            }
        }
        match self.exchange(e, &ids, bundle) {
            Ok(taken) => {
                let mut components = taken.put();
                proof {
                    assert(taken@[0] == old(self).flushed()[e][ids@[0]]);
                }
                let taken = components.pop().unwrap();
                Ok(taken)
            },
            Err(error) => Err(error),
        }
    }

    /// Spawns an entity for each bundle of `bundles`, in their order, and
    /// returns the handles. Reservations are flushed first; the archetype of
    /// the first bundle gets room for all of them.
    pub fn spawn_batch(&mut self, bundles: Vec<Bundle>) -> (out: Vec<Entity>)
        requires
            old(self).wf(),
            old(self).unborrowed(),
            old(self).spare() >= bundles@.len(),
            forall|i: int| 0 <= i < bundles@.len() ==> (#[trigger] bundles@[i]).wf(),
        ensures
            final(self).wf(),
            final(self).unborrowed(),
            final(self).reserved() == Set::<Entity>::empty(),
            final(self).keeps_archetypes(old(self)),
            out@.len() == bundles@.len(),
            final(self)@ == with_rows(old(self).flushed(), out@, rows_of_bundles(bundles@)),
            forall|i: int| 0 <= i < out@.len() ==> !old(self).flushed().contains_key(#[trigger] out@[i]),
            out@.no_duplicates(),
            spawned_all(*old(self), rows_of_bundles(bundles@), out@, *final(self)),
    {
        self.flush();
        let ghost flushed = *self;
        let ghost rows = rows_of_bundles(bundles@);
        if bundles.len() > 0 {
            let types = bundles[0].infos();
            proof {
                assert(bundles@[0].wf());
            }
            self.reserve(&types, bundles.len());
        }
        let mut out: Vec<Entity> = Vec::new();
        let ghost all = bundles@;
        let n = bundles.len();
        let mut rest = bundles;
        let mut bundles: Vec<Bundle> = Vec::new();
        let mut j: usize = 0;
        while j < n
            invariant
                j <= n,
                n == all.len(),
                rest@ == all.take(n - j),
                bundles@.len() == j,
                forall|k: int| 0 <= k < j ==> bundles@[k] == all[n - 1 - k],
            decreases n - j,
        {
            let bundle = rest.pop().unwrap();
            bundles.push(bundle);
            proof {
                assert(rest@ =~= all.take(n - j - 1));
            }
            j = j + 1;
        }
        let mut i: usize = 0;
        proof {
            assert(self.reserved() =~= Set::<Entity>::empty());
            flushed.lemma_flushed_ids();
            assert forall|a: int| 0 <= a < self.archetype_seq().len() implies #[trigger] self.ids_at(a)
                == old(self).flushed_ids(a) by {
                if a < flushed.archetype_seq().len() {
                    assert(flushed.ids_at(a) == old(self).flushed_ids(a));
                } else {
                    assert(old(self).flushed_ids(a) =~= Seq::<u32>::empty());
                }
            }
            assert forall|a: int| 0 <= a < old(self).archetype_seq().len() implies (
            #[trigger] self.archetype_seq()[a]).signature() == old(self).archetype_seq()[a].signature() by {
                assert(flushed.archetype_seq()[a].signature() == old(self).archetype_seq()[a].signature());
            }
            assert(settled(*old(self), *self));
        }
        while i < n
            invariant
                i <= n,
                n == all.len(),
                bundles@.len() == n - i,
                forall|k: int| 0 <= k < n - i ==> bundles@[k] == all[n - 1 - k],
                forall|k: int| 0 <= k < all.len() ==> (#[trigger] all[k]).wf(),
                rows == rows_of_bundles(all),
                self.wf(),
                self.unborrowed(),
                self.reserved() == Set::<Entity>::empty(),
                self.keeps_archetypes(old(self)),
                self.spare() >= n - i,
                out@.len() == i,
                self@ == with_rows(flushed@, out@, rows.take(i as int)),
                spawned_all(*old(self), rows.take(i as int), out@, *self),
                forall|k: int| 0 <= k < i ==> self@.contains_key(#[trigger] out@[k]) && !flushed@.contains_key(out@[k]),
                forall|x: Entity| flushed@.contains_key(x) ==> self@.contains_key(x),
                out@.no_duplicates(),
            decreases n - i,
        {
            let ghost before = *self;
            let ghost handles = out@;
            let bundle = bundles.pop().unwrap();
            proof {
                assert(bundle == all[i as int]);
                assert(before.flushed() =~= before@);
            }
            proof {
                self.lemma_spare();
            }
            let e = self.spawn(bundle);
            out.push(e);
            proof {
                assert(out@.drop_last() =~= handles);
                assert(rows.take(i + 1).drop_last() =~= rows.take(i as int));
                assert(rows.take(i + 1).last() == by_id(all[i as int]@));
                lemma_spawned_step(*old(self), rows.take(i + 1), out@, before, *self);
                assert forall|a: int| 0 <= a < old(self).archetype_seq().len() implies (
                #[trigger] self.archetype_seq()[a]).signature() == old(self).archetype_seq()[a].signature() by {
                    assert(before.archetype_seq()[a].signature() == old(self).archetype_seq()[a].signature());
                }
            }
            i = i + 1;
        }
        proof {
            assert(rows.take(n as int) =~= rows);
        }
        out
    }

    /// Spawns the entities of `batch`, in their order, and returns the
    /// handles. Reservations are flushed first.
    pub fn spawn_column_batch(&mut self, batch: ColumnBatch) -> (out: Vec<Entity>)
        requires
            old(self).wf(),
            old(self).unborrowed(),
            old(self).spare() >= batch.size(),
            batch.wf(),
        ensures
            final(self).wf(),
            final(self).unborrowed(),
            final(self).reserved() == Set::<Entity>::empty(),
            final(self).keeps_archetypes(old(self)),
            out@.len() == batch.size(),
            final(self)@ == with_rows(old(self).flushed(), out@, batch.rows()),
            forall|i: int| 0 <= i < out@.len() ==> !old(self).flushed().contains_key(#[trigger] out@[i]),
            out@.no_duplicates(),
            spawned_all(*old(self), batch.rows(), out@, *final(self)),
    {
        self.flush();
        let ghost flushed = *self;
        let ghost rows = batch.rows();
        let n = batch.len();
        proof {
            batch.lemma_wf();
        }
        self.reserve(batch.types(), n);
        let mut out: Vec<Entity> = Vec::new();
        let mut r: usize = 0;
        proof {
            assert(self.reserved() =~= Set::<Entity>::empty());
            flushed.lemma_flushed_ids();
            assert forall|a: int| 0 <= a < self.archetype_seq().len() implies #[trigger] self.ids_at(a)
                == old(self).flushed_ids(a) by {
                if a < flushed.archetype_seq().len() {
                    assert(flushed.ids_at(a) == old(self).flushed_ids(a));
                } else {
                    assert(old(self).flushed_ids(a) =~= Seq::<u32>::empty());
                }
            }
            assert forall|a: int| 0 <= a < old(self).archetype_seq().len() implies (
            #[trigger] self.archetype_seq()[a]).signature() == old(self).archetype_seq()[a].signature() by {
                assert(flushed.archetype_seq()[a].signature() == old(self).archetype_seq()[a].signature());
            }
            assert(settled(*old(self), *self));
        }
        while r < n
            invariant
                r <= n,
                n == batch.size(),
                batch.wf(),
                rows == batch.rows(),
                self.wf(),
                self.unborrowed(),
                self.reserved() == Set::<Entity>::empty(),
                self.keeps_archetypes(old(self)),
                self.spare() >= n - r,
                out@.len() == r,
                self@ == with_rows(flushed@, out@, rows.take(r as int)),
                spawned_all(*old(self), rows.take(r as int), out@, *self),
                forall|k: int| 0 <= k < r ==> self@.contains_key(#[trigger] out@[k]) && !flushed@.contains_key(out@[k]),
                forall|x: Entity| flushed@.contains_key(x) ==> self@.contains_key(x),
                out@.no_duplicates(),
            decreases n - r,
        {
            let ghost before = *self;
            let ghost handles = out@;
            let components = batch.row_components(r);
            let bundle = Bundle::from_components(components);
            proof {
                assert(before.flushed() =~= before@);
                batch.lemma_wf();
                assert(all_sized(bundle@)) by {
                    assert forall|k: int| 0 <= k < bundle@.len() implies (#[trigger] bundle@[k]).bytes.len()
                        == bundle@[k].info.size by {
                        assert(components@[k].wf());
                    }
                }
            }
            proof {
                self.lemma_spare();
            }
            let e = self.spawn(bundle);
            out.push(e);
            proof {
                assert(out@.drop_last() =~= handles);
                assert(rows.take(r + 1).drop_last() =~= rows.take(r as int));
                assert(rows.take(r + 1).last() == batch.row(r as int));
                lemma_spawned_step(*old(self), rows.take(r + 1), out@, before, *self);
                assert forall|a: int| 0 <= a < old(self).archetype_seq().len() implies (
                #[trigger] self.archetype_seq()[a]).signature() == old(self).archetype_seq()[a].signature() by {
                    assert(before.archetype_seq()[a].signature() == old(self).archetype_seq()[a].signature());
                }
            }
            r = r + 1;
        }
        proof {
            assert(rows.take(n as int) =~= rows);
        }
        out
    }
}

} // verus!

verus! {

impl Frame {
    /// Where only the borrow counts of archetype `a` changed, the store is
    /// sound as before and holds the same entities.
    proof fn lemma_same_content(&self, before: &Frame, a: int)
        requires
            self.edges == before.edges,
            before.wf(),
            0 <= a < before.archetypes@.len(),
            self.entities == before.entities,
            self.archetypes@.len() == before.archetypes@.len(),
            forall|b: int|
                0 <= b < before.archetypes@.len() && b != a ==> self.archetypes@[b]
                    == before.archetypes@[b],
            self.archetypes@[a].wf(),
            self.archetypes@[a].signature() == before.archetypes@[a].signature(),
            self.archetypes@[a].entity_ids() == before.archetypes@[a].entity_ids(),
            forall|r: int| self.archetypes@[a].row(r) == before.archetypes@[a].row(r),
        ensures
            self.wf(),
            self@ == before@,
            self.keeps_archetypes(before),
    {
        self.lemma_edges_kept(before);
        assert forall|b: int, s: int|
            0 <= b < self.archetypes@.len() && 0 <= s < self.archetypes@[b].rows() implies self.holds(
            #[trigger] self.archetypes@[b].entity_ids()[s],
            b,
            s,
        ) by {
            assert(before.holds(before.archetypes@[b].entity_ids()[s], b, s));
        }
        assert forall|id: u32| (#[trigger] self.entities.location_of(id)) is Some implies self.placed(
            id,
            self.entities.location_of(id).unwrap(),
        ) by {
            assert(before.placed(id, before.entities.location_of(id).unwrap()));
        }
        assert forall|b: int| 0 <= b < self.archetypes@.len() implies (
        #[trigger] self.archetypes@[b]).wf() by {
            if b != a {
                assert(before.archetypes@[b].wf());
            }
        }
        assert forall|b: int, c: int| 0 <= b < c < self.archetypes@.len() implies (
        #[trigger] self.archetypes@[b]).signature() != (
        #[trigger] self.archetypes@[c]).signature() by {
            assert(before.archetypes@[b].signature() != before.archetypes@[c].signature());
        }
        assert(self.archetypes@[0].signature() == before.archetypes@[0].signature());
        assert forall|x: Entity| self@.contains_key(x) implies #[trigger] self@[x] == before@[x] by {
            assert(before.placed(x.id, before.entities.location_of(x.id).unwrap()));
        }
        assert(self@ =~= before@);
    }

    /// Takes the borrows of a query with the pattern `fetch`, which stay until
    /// they are released: in every archetype with entities that the pattern
    /// matches, a shared borrow of each column that the pattern reads, and the
    /// exclusive borrow of each column that it changes.
    pub fn borrow(&mut self, fetch: &Fetch)
        requires
            old(self).wf(),
            !fetch.violates(),
            old(self).borrowable(*fetch),
        ensures
            final(self).wf(),
            final(self)@ == old(self)@,
            final(self).allocator() == old(self).allocator(),
            final(self).archetype_seq().len() == old(self).archetype_seq().len(),
            final(self).keeps_archetypes(old(self)),
            forall|a: int|
                0 <= a < old(self).archetype_seq().len() ==> (#[trigger] final(self).archetype_seq()[a]).entity_ids() == old(self).archetype_seq()[a].entity_ids(),
            final(self).counts_borrowed(old(self), *fetch),
            final(self).borrowed_by(*fetch),
    {
        let list = fetch.access_list();
        let ghost accesses = fetch.accesses();
        let mut a: usize = 0;
        while a < self.archetypes.len()
            invariant
                a <= self.archetypes@.len(),
                old(self).wf(),
                !conflicting(accesses),
                old(self).borrowable(*fetch),
                list@ == accesses,
                accesses == fetch.accesses(),
                self.wf(),
                self@ == old(self)@,
                self.entities == old(self).entities,
                self.edges == old(self).edges,
                self.archetypes@.len() == old(self).archetypes@.len(),
                self.keeps_archetypes(old(self)),
                forall|b: int| a <= b < self.archetypes@.len() ==> self.archetypes@[b] == old(self).archetypes@[b],
                forall|b: int|
                    0 <= b < a ==> (#[trigger] self.archetypes@[b]).entity_ids() == old(self).archetypes@[b].entity_ids(),
                forall|b: int, c: int|
                    #![trigger self.archetypes@[b].borrow_of(c)]
                    0 <= b < a && 0 <= c < old(self).archetypes@[b].signature().len()
                        ==> self.archetypes@[b].borrow_of(c) == if old(self).archetypes@[b].rows() > 0
                        && fetch.matches(type_set(old(self).archetypes@[b].signature())) {
                        borrowed(
                            old(self).archetypes@[b].borrow_of(c),
                            accesses,
                            old(self).archetypes@[b].signature()[c].id,
                        )
                    } else {
                        old(self).archetypes@[b].borrow_of(c)
                    },
            decreases self.archetypes@.len() - a,
        {
            let ghost start = *self;
            proof {
                assert(self.archetypes@[a as int].wf());
            }
            if self.archetypes[a].len() > 0 && fetch.matches_archetype(&self.archetypes[a]) {
                let ghost signature = self.archetypes@[a as int].signature();
                let mut k: usize = 0;
                proof {
                    assert(accesses.take(0) =~= Seq::<Access>::empty());
                }
                while k < list.len()
                    invariant
                        k <= list@.len(),
                        a < self.archetypes@.len(),
                        old(self).wf(),
                        !conflicting(accesses),
                        old(self).borrowable(*fetch),
                        list@ == accesses,
                        accesses == fetch.accesses(),
                        start.archetypes@[a as int] == old(self).archetypes@[a as int],
                        start.archetypes@.len() == self.archetypes@.len(),
                        fetch.matches(type_set(signature)),
                        signature == old(self).archetypes@[a as int].signature(),
                        old(self).archetypes@[a as int].rows() > 0,
                        self.wf(),
                        self@ == old(self)@,
                        self.entities == old(self).entities,
                        self.edges == old(self).edges,
                        self.archetypes@.len() == old(self).archetypes@.len(),
                        self.keeps_archetypes(old(self)),
                        forall|b: int|
                            0 <= b < self.archetypes@.len() && b != a ==> self.archetypes@[b]
                                == start.archetypes@[b],
                        self.archetypes@[a as int].signature() == signature,
                        self.archetypes@[a as int].entity_ids() == old(self).archetypes@[a as int].entity_ids(),
                        forall|c: int|
                            0 <= c < signature.len() ==> #[trigger] self.archetypes@[a as int].borrow_of(
                                c,
                            ) == borrowed(
                                old(self).archetypes@[a as int].borrow_of(c),
                                accesses.take(k as int),
                                signature[c].id,
                            ),
                    decreases list@.len() - k,
                {
                    let access = list[k];
                    let ghost before = *self;
                    let ghost done = accesses.take(k as int);
                    proof {
                        assert(self.archetypes@[a as int].wf());
                        self.archetypes@[a as int].lemma_wf();
                        assert(accesses.take(k + 1).drop_last() =~= done);
                        assert(accesses.take(k + 1).last() == access);
                    }
                    if self.archetypes[a].has(access.id) {
                        proof {
                            let c = crate::component::index_of_id(signature, access.id);
                            assert(signature[c].id == access.id);
                            let count = old(self).archetypes@[a as int].borrow_of(c);
                            assert(old(self).archetype_seq()[a as int] == old(self).archetypes@[a as int]);
                            assert(old(self).free_for(a as int, fetch.accesses()[k as int], accesses.len() as int));
                            lemma_prefix_free(accesses, k as int);
                            lemma_before(accesses, k as int);
                            lemma_borrowed(count, done, access.id);
                        }
                        if access.exclusive {
                            self.archetypes[a].borrow_mut(access.id);
                        } else {
                            self.archetypes[a].borrow(access.id);
                        }
                        proof {
                            self.lemma_same_content(&before, a as int);
                            assert forall|c: int| 0 <= c < signature.len() implies #[trigger] self.archetypes@[a as int].borrow_of(
                                c,
                            ) == borrowed(
                                old(self).archetypes@[a as int].borrow_of(c),
                                accesses.take(k + 1),
                                signature[c].id,
                            ) by {
                                assert(before.archetypes@[a as int].borrow_of(c) == borrowed(
                                    old(self).archetypes@[a as int].borrow_of(c),
                                    done,
                                    signature[c].id,
                                ));
                                if signature[c].id == access.id {
                                    crate::archetype::lemma_index_of_id(signature, c);
                                } else {
                                    let at = crate::component::index_of_id(signature, access.id);
                                    assert(signature[at].id == access.id);
                                }
                            }
                        }
                    } else {
                        proof {
                            assert forall|c: int| 0 <= c < signature.len() implies #[trigger] self.archetypes@[a as int].borrow_of(
                                c,
                            ) == borrowed(
                                old(self).archetypes@[a as int].borrow_of(c),
                                accesses.take(k + 1),
                                signature[c].id,
                            ) by {
                                assert(signature[c].id != access.id);
                            }
                        }
                    }
                    k = k + 1;
                }
                proof {
                    assert(accesses.take(k as int) =~= accesses);
                }
            }
            proof {
                assert forall|b: int| 0 <= b < a + 1 implies (#[trigger] self.archetypes@[b]).entity_ids()
                    == old(self).archetypes@[b].entity_ids() by {
                    if b < a {
                        assert(start.archetypes@[b].entity_ids() == old(self).archetypes@[b].entity_ids());
                        assert(self.archetypes@[b] == start.archetypes@[b]);
                    }
                }
                assert forall|b: int, c: int|
                    #![trigger self.archetypes@[b].borrow_of(c)]
                    0 <= b < a + 1 && 0 <= c < old(self).archetypes@[b].signature().len()
                        implies self.archetypes@[b].borrow_of(c) == if old(self).archetypes@[b].rows() > 0
                    && fetch.matches(type_set(old(self).archetypes@[b].signature())) {
                    borrowed(
                        old(self).archetypes@[b].borrow_of(c),
                        accesses,
                        old(self).archetypes@[b].signature()[c].id,
                    )
                } else {
                    old(self).archetypes@[b].borrow_of(c)
                } by {
                    if b < a {
                        assert(self.archetypes@[b] == start.archetypes@[b]);
                        assert(start.archetypes@[b].borrow_of(c) == if old(self).archetypes@[b].rows() > 0
                            && fetch.matches(type_set(old(self).archetypes@[b].signature())) {
                            borrowed(
                                old(self).archetypes@[b].borrow_of(c),
                                accesses,
                                old(self).archetypes@[b].signature()[c].id,
                            )
                        } else {
                            old(self).archetypes@[b].borrow_of(c)
                        });
                    }
                }
            }
            a = a + 1;
        }
        proof {
            crate::query::lemma_borrow_holds(old(self), self, *fetch);
        }
    }

    /// Gives back the borrows of a query with the pattern `fetch`, which were
    /// taken before.
    pub fn release(&mut self, fetch: &Fetch)
        requires
            old(self).wf(),
            !fetch.violates(),
            old(self).borrowed_by(*fetch),
        ensures
            final(self).wf(),
            final(self)@ == old(self)@,
            final(self).allocator() == old(self).allocator(),
            final(self).archetype_seq().len() == old(self).archetype_seq().len(),
            final(self).keeps_archetypes(old(self)),
            forall|a: int|
                0 <= a < old(self).archetype_seq().len() ==> (#[trigger] final(self).archetype_seq()[a]).entity_ids() == old(self).archetype_seq()[a].entity_ids(),
            final(self).counts_released(old(self), *fetch),
    {
        let list = fetch.access_list();
        let ghost accesses = fetch.accesses();
        let mut a: usize = 0;
        while a < self.archetypes.len()
            invariant
                a <= self.archetypes@.len(),
                old(self).wf(),
                !conflicting(accesses),
                old(self).borrowed_by(*fetch),
                list@ == accesses,
                accesses == fetch.accesses(),
                self.wf(),
                self@ == old(self)@,
                self.entities == old(self).entities,
                self.edges == old(self).edges,
                self.archetypes@.len() == old(self).archetypes@.len(),
                self.keeps_archetypes(old(self)),
                forall|b: int| a <= b < self.archetypes@.len() ==> self.archetypes@[b] == old(self).archetypes@[b],
                forall|b: int|
                    0 <= b < a ==> (#[trigger] self.archetypes@[b]).entity_ids() == old(self).archetypes@[b].entity_ids(),
                forall|b: int, c: int|
                    #![trigger self.archetypes@[b].borrow_of(c)]
                    0 <= b < a && 0 <= c < old(self).archetypes@[b].signature().len()
                        ==> self.archetypes@[b].borrow_of(c) == if old(self).archetypes@[b].rows() > 0
                        && fetch.matches(type_set(old(self).archetypes@[b].signature())) {
                        released(
                            old(self).archetypes@[b].borrow_of(c),
                            accesses,
                            old(self).archetypes@[b].signature()[c].id,
                        )
                    } else {
                        old(self).archetypes@[b].borrow_of(c)
                    },
            decreases self.archetypes@.len() - a,
        {
            let ghost start = *self;
            proof {
                assert(self.archetypes@[a as int].wf());
            }
            if self.archetypes[a].len() > 0 && fetch.matches_archetype(&self.archetypes[a]) {
                let ghost signature = self.archetypes@[a as int].signature();
                let mut k: usize = 0;
                proof {
                    assert(accesses.take(0) =~= Seq::<Access>::empty());
                }
                while k < list.len()
                    invariant
                        k <= list@.len(),
                        a < self.archetypes@.len(),
                        old(self).wf(),
                        !conflicting(accesses),
                        old(self).borrowed_by(*fetch),
                        list@ == accesses,
                        accesses == fetch.accesses(),
                        start.archetypes@[a as int] == old(self).archetypes@[a as int],
                        start.archetypes@.len() == self.archetypes@.len(),
                        fetch.matches(type_set(signature)),
                        signature == old(self).archetypes@[a as int].signature(),
                        old(self).archetypes@[a as int].rows() > 0,
                        self.wf(),
                        self@ == old(self)@,
                        self.entities == old(self).entities,
                        self.edges == old(self).edges,
                        self.archetypes@.len() == old(self).archetypes@.len(),
                        self.keeps_archetypes(old(self)),
                        forall|b: int|
                            0 <= b < self.archetypes@.len() && b != a ==> self.archetypes@[b]
                                == start.archetypes@[b],
                        self.archetypes@[a as int].signature() == signature,
                        self.archetypes@[a as int].entity_ids() == old(self).archetypes@[a as int].entity_ids(),
                        forall|c: int|
                            0 <= c < signature.len() ==> #[trigger] self.archetypes@[a as int].borrow_of(
                                c,
                            ) == released(
                                old(self).archetypes@[a as int].borrow_of(c),
                                accesses.take(k as int),
                                signature[c].id,
                            ),
                    decreases list@.len() - k,
                {
                    let access = list[k];
                    let ghost before = *self;
                    let ghost done = accesses.take(k as int);
                    proof {
                        assert(self.archetypes@[a as int].wf());
                        self.archetypes@[a as int].lemma_wf();
                        assert(accesses.take(k + 1).drop_last() =~= done);
                        assert(accesses.take(k + 1).last() == access);
                    }
                    if self.archetypes[a].has(access.id) {
                        proof {
                            let c = crate::component::index_of_id(signature, access.id);
                            assert(signature[c].id == access.id);
                            let count = old(self).archetypes@[a as int].borrow_of(c);
                            assert(old(self).archetype_seq()[a as int] == old(self).archetypes@[a as int]);
                            assert(fetch.accesses()[k as int] == access);
                            assert(if access.exclusive {
                                count == -1
                            } else {
                                count >= shared_count(accesses, access.id)
                            });
                            lemma_prefix_free(accesses, k as int);
                            lemma_before(accesses, k as int);
                            lemma_released_from(count, done, access.id);
                            lemma_shared_count_take(accesses, k as int, access.id);
                            if access.exclusive {
                                lemma_shared_none(done, access.id);
                            }
                        }
                        if access.exclusive {
                            self.archetypes[a].release_mut(access.id);
                        } else {
                            self.archetypes[a].release(access.id);
                        }
                        proof {
                            self.lemma_same_content(&before, a as int);
                            assert forall|c: int| 0 <= c < signature.len() implies #[trigger] self.archetypes@[a as int].borrow_of(
                                c,
                            ) == released(
                                old(self).archetypes@[a as int].borrow_of(c),
                                accesses.take(k + 1),
                                signature[c].id,
                            ) by {
                                assert(before.archetypes@[a as int].borrow_of(c) == released(
                                    old(self).archetypes@[a as int].borrow_of(c),
                                    done,
                                    signature[c].id,
                                ));
                                if signature[c].id == access.id {
                                    crate::archetype::lemma_index_of_id(signature, c);
                                } else {
                                    let at = crate::component::index_of_id(signature, access.id);
                                    assert(signature[at].id == access.id);
                                }
                            }
                        }
                    } else {
                        proof {
                            assert forall|c: int| 0 <= c < signature.len() implies #[trigger] self.archetypes@[a as int].borrow_of(
                                c,
                            ) == released(
                                old(self).archetypes@[a as int].borrow_of(c),
                                accesses.take(k + 1),
                                signature[c].id,
                            ) by {
                                assert(signature[c].id != access.id);
                            }
                        }
                    }
                    k = k + 1;
                }
                proof {
                    assert(accesses.take(k as int) =~= accesses);
                }
            }
            proof {
                assert forall|b: int| 0 <= b < a + 1 implies (#[trigger] self.archetypes@[b]).entity_ids()
                    == old(self).archetypes@[b].entity_ids() by {
                    if b < a {
                        assert(start.archetypes@[b].entity_ids() == old(self).archetypes@[b].entity_ids());
                        assert(self.archetypes@[b] == start.archetypes@[b]);
                    }
                }
                assert forall|b: int, c: int|
                    #![trigger self.archetypes@[b].borrow_of(c)]
                    0 <= b < a + 1 && 0 <= c < old(self).archetypes@[b].signature().len()
                        implies self.archetypes@[b].borrow_of(c) == if old(self).archetypes@[b].rows() > 0
                    && fetch.matches(type_set(old(self).archetypes@[b].signature())) {
                    released(
                        old(self).archetypes@[b].borrow_of(c),
                        accesses,
                        old(self).archetypes@[b].signature()[c].id,
                    )
                } else {
                    old(self).archetypes@[b].borrow_of(c)
                } by {
                    if b < a {
                        assert(self.archetypes@[b] == start.archetypes@[b]);
                        assert(start.archetypes@[b].borrow_of(c) == if old(self).archetypes@[b].rows() > 0
                            && fetch.matches(type_set(old(self).archetypes@[b].signature())) {
                            released(
                                old(self).archetypes@[b].borrow_of(c),
                                accesses,
                                old(self).archetypes@[b].signature()[c].id,
                            )
                        } else {
                            old(self).archetypes@[b].borrow_of(c)
                        });
                    }
                }
            }
            a = a + 1;
        }
    }
}

} // verus!

//! Queries: patterns over component types, and the items they fetch.

use crate::archetype::Archetype;
use crate::component::has_id;
use crate::component::index_of_id;
use crate::component::ComponentView;
use crate::component::TypeInfo;
use crate::entities::NoSuchEntity;
use crate::entity::Entity;
use crate::frame::Frame;
use crate::view::QueryOneError;
use vstd::prelude::*;

verus! {

/// A pattern that says which entities a query visits and what it fetches from
/// each.
pub enum Fetch {
    /// Every entity; fetches nothing.
    Unit,
    /// The entities that have the type; fetches the component, to read it.
    Shared(u64),
    /// The entities that have the type; fetches the component, to change it.
    Exclusive(u64),
    /// Every entity; fetches what the inner pattern fetches where it matches.
    Optional(Box<Fetch>),
    /// The entities that one of the two patterns matches; fetches what the
    /// matching ones fetch.
    Or(Box<Fetch>, Box<Fetch>),
    /// The entities that the pattern matches and that have the type.
    With(Box<Fetch>, u64),
    /// The entities that the pattern matches and that do not have the type.
    Without(Box<Fetch>, u64),
    /// Every entity; fetches whether the inner pattern matches.
    Satisfies(Box<Fetch>),
    /// The entities that every pattern matches; fetches what each fetches.
    Tuple(Vec<Fetch>),
}

/// What a query fetches from one entity.
#[derive(Debug)]
pub enum Item {
    /// Nothing.
    Unit,
    /// The bytes of a component.
    Value(Vec<u8>),
    /// An optional pattern that did not match.
    Absent,
    /// The item of an optional pattern that matched.
    Present(Box<Item>),
    /// The item of the first of two patterns, where only it matched.
    Left(Box<Item>),
    /// The item of the second of two patterns, where only it matched.
    Right(Box<Item>),
    /// The items of two patterns that both matched.
    Both(Box<Item>, Box<Item>),
    /// Whether a pattern matched.
    Flag(bool),
    /// The items of the patterns of a tuple.
    Tuple(Vec<Item>),
}

/// An item as contracts speak of it.
pub enum ItemView {
    Unit,
    Value(Seq<u8>),
    Absent,
    Present(Box<ItemView>),
    Left(Box<ItemView>),
    Right(Box<ItemView>),
    Both(Box<ItemView>, Box<ItemView>),
    Flag(bool),
    Tuple(Seq<ItemView>),
}

/// One access of a pattern to a component type.
#[derive(Clone, Copy, Debug, PartialEq, Eq, Structural)]
pub struct Access {
    /// The id of the type.
    pub id: u64,
    /// Whether the component is fetched to change it.
    pub exclusive: bool,
}

impl Item {
    /// The item as contracts speak of it.
    pub open spec fn shape(self) -> ItemView
        decreases self,
    {
        match self {
            Item::Unit => ItemView::Unit,
            Item::Value(bytes) => ItemView::Value(bytes@),
            Item::Absent => ItemView::Absent,
            Item::Present(item) => ItemView::Present(Box::new(item.shape())),
            Item::Left(item) => ItemView::Left(Box::new(item.shape())),
            Item::Right(item) => ItemView::Right(Box::new(item.shape())),
            Item::Both(left, right) => ItemView::Both(
                Box::new(left.shape()),
                Box::new(right.shape()),
            ),
            Item::Flag(b) => ItemView::Flag(b),
            Item::Tuple(items) => ItemView::Tuple(
                Seq::new(
                    items@.len(),
                    |k: int|
                        if 0 <= k < items@.len() {
                            items@[k].shape()
                        } else {
                            ItemView::Unit
                        },
                ),
            ),
        }
    }
}

impl View for Item {
    type V = ItemView;

    open spec fn view(&self) -> ItemView {
        self.shape()
    }
}

/// The accesses of `parts`, one pattern after the other.
pub open spec fn accesses_of(parts: Seq<Fetch>) -> Seq<Access>
    decreases parts,
{
    if parts.len() == 0 {
        Seq::empty()
    } else {
        accesses_of(parts.drop_last()) + parts.last().accesses()
    }
}

/// Two accesses of the list are to one type, and one of them is exclusive.
pub open spec fn conflicting(accesses: Seq<Access>) -> bool {
    exists|i: int, j: int|
        0 <= i < j < accesses.len() && (#[trigger] accesses[i]).id == (#[trigger] accesses[j]).id && (
        accesses[i].exclusive || accesses[j].exclusive)
}

impl Fetch {
    /// Whether the pattern matches the entities with exactly the types `types`.
    pub open spec fn matches(self, types: Set<u64>) -> bool
        decreases self,
    {
        match self {
            Fetch::Unit => true,
            Fetch::Shared(id) => types.contains(id),
            Fetch::Exclusive(id) => types.contains(id),
            Fetch::Optional(_) => true,
            Fetch::Or(left, right) => left.matches(types) || right.matches(types),
            Fetch::With(inner, id) => inner.matches(types) && types.contains(id),
            Fetch::Without(inner, id) => inner.matches(types) && !types.contains(id),
            Fetch::Satisfies(_) => true,
            Fetch::Tuple(parts) => forall|i: int|
                0 <= i < parts@.len() ==> (#[trigger] parts@[i]).matches(types),
        }
    }

    /// What the pattern fetches from an entity with the components `row`, which
    /// it matches.
    pub open spec fn item(self, row: Map<u64, ComponentView>) -> ItemView
        decreases self,
    {
        match self {
            Fetch::Unit => ItemView::Unit,
            Fetch::Shared(id) => ItemView::Value(row[id].bytes),
            Fetch::Exclusive(id) => ItemView::Value(row[id].bytes),
            Fetch::Optional(inner) => if inner.matches(row.dom()) {
                ItemView::Present(Box::new(inner.item(row)))
            } else {
                ItemView::Absent
            },
            Fetch::Or(left, right) => if left.matches(row.dom()) && right.matches(row.dom()) {
                ItemView::Both(Box::new(left.item(row)), Box::new(right.item(row)))
            } else if left.matches(row.dom()) {
                ItemView::Left(Box::new(left.item(row)))
            } else {
                ItemView::Right(Box::new(right.item(row)))
            },
            Fetch::With(inner, _) => inner.item(row),
            Fetch::Without(inner, _) => inner.item(row),
            Fetch::Satisfies(inner) => ItemView::Flag(inner.matches(row.dom())),
            Fetch::Tuple(parts) => ItemView::Tuple(
                Seq::new(
                    parts@.len(),
                    |i: int|
                        if 0 <= i < parts@.len() {
                            parts@[i].item(row)
                        } else {
                            ItemView::Unit
                        },
                ),
            ),
        }
    }

    /// The accesses of the pattern to component types, in the order of the
    /// pattern. A type that is only tested for is not accessed.
    pub open spec fn accesses(self) -> Seq<Access>
        decreases self,
    {
        match self {
            Fetch::Unit => Seq::empty(),
            Fetch::Shared(id) => seq![Access { id, exclusive: false }],
            Fetch::Exclusive(id) => seq![Access { id, exclusive: true }],
            Fetch::Optional(inner) => inner.accesses(),
            Fetch::Or(left, right) => left.accesses() + right.accesses(),
            Fetch::With(inner, _) => inner.accesses(),
            Fetch::Without(inner, _) => inner.accesses(),
            Fetch::Satisfies(_) => Seq::empty(),
            Fetch::Tuple(parts) => accesses_of(parts@),
        }
    }

    /// The pattern asks for a component to change it and asks for the same
    /// component once more.
    pub open spec fn violates(self) -> bool {
        conflicting(self.accesses())
    }
}

} // verus!

verus! {

/// The ids of the types of `signature`.
pub open spec fn type_set(signature: Seq<TypeInfo>) -> Set<u64> {
    Set::new(|id: u64| has_id(signature, id))
}

/// The items of `items`, each as contracts speak of it.
pub open spec fn shapes(items: Seq<Item>) -> Seq<ItemView> {
    Seq::new(
        items.len(),
        |k: int|
            if 0 <= k < items.len() {
                items[k].shape()
            } else {
                ItemView::Unit
            },
    )
}

impl Fetch {
    /// Whether the pattern matches the entities of `archetype`.
    pub fn matches_archetype(&self, archetype: &Archetype) -> (b: bool)
        requires
            archetype.wf(),
        ensures
            b == self.matches(type_set(archetype.signature())),
        decreases self,
    {
        match self {
            Fetch::Unit => true,
            Fetch::Shared(id) => archetype.has(*id),
            Fetch::Exclusive(id) => archetype.has(*id),
            Fetch::Optional(_) => true,
            Fetch::Or(left, right) => left.matches_archetype(archetype) || right.matches_archetype(
                archetype,
            ),
            Fetch::With(inner, id) => inner.matches_archetype(archetype) && archetype.has(*id),
            Fetch::Without(inner, id) => inner.matches_archetype(archetype) && !archetype.has(*id),
            Fetch::Satisfies(_) => true,
            Fetch::Tuple(parts) => {
                let mut i: usize = 0;
                while i < parts.len()
                    invariant
                        i <= parts@.len(),
                        archetype.wf(),
                        *self is Tuple,
                        self->Tuple_0 == *parts,
                        forall|k: int|
                            0 <= k < i ==> (#[trigger] parts@[k]).matches(
                                type_set(archetype.signature()),
                            ),
                    decreases parts@.len() - i,
                {
                    proof {
                        assert(decreases_to!(*self => self->Tuple_0));
                        assert(decreases_to!(self->Tuple_0 => self->Tuple_0@));
                        assert(decreases_to!(self->Tuple_0@ => self->Tuple_0@[i as int]));
                    }
                    if !parts[i].matches_archetype(archetype) {
                        proof {
                            assert(!parts@[i as int].matches(type_set(archetype.signature())));
                        }
                        return false;
                    }
                    i = i + 1;
                }
                true
            },
        }
    }

    /// What the pattern fetches from row `row` of `archetype`, whose entities
    /// it matches.
    pub fn fetch(&self, archetype: &Archetype, row: usize) -> (item: Item)
        requires
            archetype.wf(),
            row < archetype.rows(),
            self.matches(type_set(archetype.signature())),
        ensures
            item@ == self.item(archetype.row(row as int)),
        decreases self,
    {
        proof {
            assert(archetype.row(row as int).dom() =~= type_set(archetype.signature()));
        }
        match self {
            Fetch::Unit => Item::Unit,
            Fetch::Shared(id) => {
                let bytes = archetype.get(row, *id);
                Item::Value(bytes.unwrap().clone())
            },
            Fetch::Exclusive(id) => {
                let bytes = archetype.get(row, *id);
                Item::Value(bytes.unwrap().clone())
            },
            Fetch::Optional(inner) => {
                if inner.matches_archetype(archetype) {
                    Item::Present(Box::new(inner.fetch(archetype, row)))
                } else {
                    Item::Absent
                }
            },
            Fetch::Or(left, right) => {
                let first = left.matches_archetype(archetype);
                let second = right.matches_archetype(archetype);
                if first && second {
                    Item::Both(
                        Box::new(left.fetch(archetype, row)),
                        Box::new(right.fetch(archetype, row)),
                    )
                } else if first {
                    Item::Left(Box::new(left.fetch(archetype, row)))
                } else {
                    Item::Right(Box::new(right.fetch(archetype, row)))
                }
            },
            Fetch::With(inner, _) => inner.fetch(archetype, row),
            Fetch::Without(inner, _) => inner.fetch(archetype, row),
            Fetch::Satisfies(inner) => Item::Flag(inner.matches_archetype(archetype)),
            Fetch::Tuple(parts) => {
                let mut items: Vec<Item> = Vec::new();
                let mut i: usize = 0;
                while i < parts.len()
                    invariant
                        i <= parts@.len(),
                        archetype.wf(),
                        row < archetype.rows(),
                        *self is Tuple,
                        self->Tuple_0 == *parts,
                        self.matches(type_set(archetype.signature())),
                        items@.len() == i,
                        forall|k: int|
                            0 <= k < i ==> (#[trigger] items@[k]).shape() == parts@[k].item(
                                archetype.row(row as int),
                            ),
                    decreases parts@.len() - i,
                {
                    proof {
                        assert(decreases_to!(*self => self->Tuple_0));
                        assert(decreases_to!(self->Tuple_0 => self->Tuple_0@));
                        assert(decreases_to!(self->Tuple_0@ => self->Tuple_0@[i as int]));
                    }
                    proof {
                        assert(parts@[i as int].matches(type_set(archetype.signature())));
                    }
                    let item = parts[i].fetch(archetype, row);
                    items.push(item);
                    i = i + 1;
                }
                let item = Item::Tuple(items);
                proof {
                    assert(item@->Tuple_0 =~= self.item(archetype.row(row as int))->Tuple_0);
                }
                item
            },
        }
    }

    /// The accesses of the pattern to component types, in the order of the
    /// pattern.
    pub fn access_list(&self) -> (list: Vec<Access>)
        ensures
            list@ == self.accesses(),
        decreases self,
    {
        match self {
            Fetch::Unit => Vec::new(),
            Fetch::Shared(id) => {
                let mut list: Vec<Access> = Vec::new();
                list.push(Access { id: *id, exclusive: false });
                assert(list@ =~= seq![Access { id: *id, exclusive: false }]);
                list
            },
            Fetch::Exclusive(id) => {
                let mut list: Vec<Access> = Vec::new();
                list.push(Access { id: *id, exclusive: true });
                assert(list@ =~= seq![Access { id: *id, exclusive: true }]);
                list
            },
            Fetch::Optional(inner) => inner.access_list(),
            Fetch::Or(left, right) => {
                let mut list = left.access_list();
                let mut more = right.access_list();
                list.append(&mut more);
                list
            },
            Fetch::With(inner, _) => inner.access_list(),
            Fetch::Without(inner, _) => inner.access_list(),
            Fetch::Satisfies(_) => Vec::new(),
            Fetch::Tuple(parts) => {
                let mut list: Vec<Access> = Vec::new();
                let mut i: usize = 0;
                proof {
                    assert(parts@.take(0) =~= Seq::<Fetch>::empty());
                }
                while i < parts.len()
                    invariant
                        i <= parts@.len(),
                        *self is Tuple,
                        self->Tuple_0 == *parts,
                        list@ == accesses_of(parts@.take(i as int)),
                    decreases parts@.len() - i,
                {
                    proof {
                        assert(decreases_to!(*self => self->Tuple_0));
                        assert(decreases_to!(self->Tuple_0 => self->Tuple_0@));
                        assert(decreases_to!(self->Tuple_0@ => self->Tuple_0@[i as int]));
                    }
                    let mut more = parts[i].access_list();
                    proof {
                        assert(parts@.take(i + 1).drop_last() =~= parts@.take(i as int));
                        assert(parts@.take(i + 1).last() == parts@[i as int]);
                    }
                    list.append(&mut more);
                    i = i + 1;
                }
                proof {
                    assert(parts@.take(i as int) =~= parts@);
                }
                list
            },
        }
    }

    /// Whether the pattern asks for a component to change it and asks for the
    /// same component once more. A query with such a pattern is refused.
    pub fn violates_unique_borrow(&self) -> (b: bool)
        ensures
            b == self.violates(),
    {
        let list = self.access_list();
        let mut j: usize = 0;
        while j < list.len()
            invariant
                j <= list@.len(),
                list@ == self.accesses(),
                forall|a: int, b: int|
                    0 <= a < b < j ==> !((#[trigger] list@[a]).id == (#[trigger] list@[b]).id && (
                    list@[a].exclusive || list@[b].exclusive)),
            decreases list@.len() - j,
        {
            let mut i: usize = 0;
            while i < j
                invariant
                    i <= j < list@.len(),
                    list@ == self.accesses(),
                    forall|a: int|
                        0 <= a < i ==> !((#[trigger] list@[a]).id == list@[j as int].id && (
                        list@[a].exclusive || list@[j as int].exclusive)),
                decreases j - i,
            {
                if list[i].id == list[j].id && (list[i].exclusive || list[j].exclusive) {
                    return true;
                }
                i = i + 1;
            }
            j = j + 1;
        }
        false
    }
}

} // verus!

verus! {

/// The pairs of `pairs`, each item as contracts speak of it.
pub open spec fn item_views(pairs: Seq<(Entity, Item)>) -> Seq<(Entity, ItemView)> {
    Seq::new(pairs.len(), |k: int| (pairs[k].0, pairs[k].1@))
}

/// What a query with the pattern `fetch` yields from archetype `a` of `frame`:
/// one pair for each row, in the order of the rows.
pub open spec fn rows_of(frame: &Frame, fetch: Fetch, a: int) -> Seq<(Entity, ItemView)> {
    Seq::new(
        frame.archetype_seq()[a].rows(),
        |r: int| (frame.spec_entity_at(a, r), fetch.item(frame.archetype_seq()[a].row(r))),
    )
}

/// What a query with the pattern `fetch` yields from the first `upto`
/// archetypes of `frame`: the rows of each archetype that the pattern matches,
/// the archetypes in the order in which they were made.
pub open spec fn results(frame: &Frame, fetch: Fetch, upto: int) -> Seq<(Entity, ItemView)>
    decreases upto,
{
    if upto <= 0 {
        Seq::empty()
    } else if fetch.matches(type_set(frame.archetype_seq()[upto - 1].signature())) {
        results(frame, fetch, upto - 1) + rows_of(frame, fetch, upto - 1)
    } else {
        results(frame, fetch, upto - 1)
    }
}

/// The rows from `from` to `to` of archetype `a`, as a query with the pattern
/// `fetch` yields them.
pub open spec fn batch_of(frame: &Frame, fetch: Fetch, a: int, from: int, to: int) -> Seq<
    (Entity, ItemView),
> {
    rows_of(frame, fetch, a).subrange(from, to)
}

/// The batches of at most `size` rows that the rows of archetype `a` from row
/// `from` on are cut into.
pub open spec fn batches_from(frame: &Frame, fetch: Fetch, a: int, size: int, from: int) -> Seq<
    Seq<(Entity, ItemView)>,
>
    decreases frame.archetype_seq()[a].rows() - from,
{
    let n = frame.archetype_seq()[a].rows() as int;
    if size <= 0 || from < 0 || from >= n {
        Seq::empty()
    } else {
        let to = if from + size < n {
            from + size
        } else {
            n
        };
        seq![batch_of(frame, fetch, a, from, to)] + batches_from(frame, fetch, a, size, to)
    }
}

/// The batches that a query with the pattern `fetch` yields from the
/// archetypes of `frame` from archetype `a` on. No batch holds rows of two
/// archetypes.
pub open spec fn batched_from(frame: &Frame, fetch: Fetch, size: int, a: int) -> Seq<
    Seq<(Entity, ItemView)>,
>
    decreases frame.archetype_seq().len() - a,
{
    if a < 0 || a >= frame.archetype_seq().len() {
        Seq::empty()
    } else if fetch.matches(type_set(frame.archetype_seq()[a].signature())) {
        batches_from(frame, fetch, a, size, 0) + batched_from(frame, fetch, size, a + 1)
    } else {
        batched_from(frame, fetch, size, a + 1)
    }
}

/// The batches of `batches`, each item as contracts speak of it.
pub open spec fn batch_views(batches: Seq<Vec<(Entity, Item)>>) -> Seq<Seq<(Entity, ItemView)>> {
    Seq::new(batches.len(), |k: int| item_views(batches[k]@))
}

/// Every batch holds at least one row and at most `size`.
pub proof fn lemma_batches_bounded(frame: &Frame, fetch: Fetch, a: int, size: int, from: int, k: int)
    requires
        0 <= k < batches_from(frame, fetch, a, size, from).len(),
    ensures
        0 < batches_from(frame, fetch, a, size, from)[k].len() <= size,
    decreases frame.archetype_seq()[a].rows() - from,
{
    let n = frame.archetype_seq()[a].rows() as int;
    let to = if from + size < n {
        from + size
    } else {
        n
    };
    if k > 0 {
        lemma_batches_bounded(frame, fetch, a, size, to, k - 1);
    }
}

/// Every pair that a query yields is a live entity that the pattern matches,
/// with what the pattern fetches from its components.
pub proof fn lemma_results_sound(frame: &Frame, fetch: Fetch, upto: int, i: int)
    requires
        frame.wf(),
        0 <= upto <= frame.archetype_seq().len(),
        0 <= i < results(frame, fetch, upto).len(),
    ensures
        frame@.contains_key(results(frame, fetch, upto)[i].0),
        fetch.matches(frame@[results(frame, fetch, upto)[i].0].dom()),
        results(frame, fetch, upto)[i].1 == fetch.item(frame@[results(frame, fetch, upto)[i].0]),
    decreases upto,
{
    frame.lemma_wf();
    let a = upto - 1;
    let before = results(frame, fetch, a);
    if i < before.len() {
        lemma_results_sound(frame, fetch, a, i);
    } else {
        let r = i - before.len();
        assert(results(frame, fetch, upto)[i] == rows_of(frame, fetch, a)[r]);
        let id = frame.archetype_seq()[a].entity_ids()[r];
        assert(frame.allocator().location_of(id) is Some);
        assert(frame.archetype_seq()[a].row(r).dom() =~= type_set(
            frame.archetype_seq()[a].signature(),
        ));
    }
}

/// Every live entity that the pattern matches is among the pairs that a query
/// yields.
pub proof fn lemma_results_complete(frame: &Frame, fetch: Fetch, e: Entity) -> (i: int)
    requires
        frame.wf(),
        frame@.contains_key(e),
        fetch.matches(frame@[e].dom()),
    ensures
        0 <= i < results(frame, fetch, frame.archetype_seq().len() as int).len(),
        results(frame, fetch, frame.archetype_seq().len() as int)[i].0 == e,
{
    frame.lemma_wf();
    let l = frame.location(e);
    let a = l.archetype as int;
    assert(frame.archetype_seq()[a].row(l.row as int).dom() =~= type_set(
        frame.archetype_seq()[a].signature(),
    ));
    let i = results(frame, fetch, a).len() + l.row;
    assert(results(frame, fetch, a + 1)[i] == rows_of(frame, fetch, a)[l.row as int]);
    lemma_results_grow(frame, fetch, a + 1, frame.archetype_seq().len() as int);
    i
}

/// What a query yields from the first archetypes is the start of what it
/// yields from more of them.
pub proof fn lemma_results_grow(frame: &Frame, fetch: Fetch, upto: int, more: int)
    requires
        0 <= upto <= more,
    ensures
        results(frame, fetch, upto).len() <= results(frame, fetch, more).len(),
        forall|i: int|
            0 <= i < results(frame, fetch, upto).len() ==> results(frame, fetch, more)[i]
                == results(frame, fetch, upto)[i],
    decreases more - upto,
{
    if upto < more {
        lemma_results_grow(frame, fetch, upto, more - 1);
    }
}

/// The borrow count `count` of the column of the type `id` after the borrows
/// of `accesses` were taken, one after the other: an exclusive access of the
/// type makes it -1, a shared one adds one to it.
pub open spec fn borrowed(count: int, accesses: Seq<Access>, id: u64) -> int
    decreases accesses.len(),
{
    if accesses.len() == 0 {
        count
    } else if accesses.last().id != id {
        borrowed(count, accesses.drop_last(), id)
    } else if accesses.last().exclusive {
        -1
    } else {
        borrowed(count, accesses.drop_last(), id) + 1
    }
}

/// The borrow count `count` of the column of the type `id` after the borrows
/// of `accesses` were given back, one after the other: an exclusive access of
/// the type makes it 0, a shared one takes one from it.
pub open spec fn released(count: int, accesses: Seq<Access>, id: u64) -> int
    decreases accesses.len(),
{
    if accesses.len() == 0 {
        count
    } else if accesses.last().id != id {
        released(count, accesses.drop_last(), id)
    } else if accesses.last().exclusive {
        0
    } else {
        released(count, accesses.drop_last(), id) - 1
    }
}

/// The number of shared accesses of `accesses` to the type `id`.
pub open spec fn shared_count(accesses: Seq<Access>, id: u64) -> nat
    decreases accesses.len(),
{
    if accesses.len() == 0 {
        0
    } else if accesses.last().id == id && !accesses.last().exclusive {
        shared_count(accesses.drop_last(), id) + 1
    } else {
        shared_count(accesses.drop_last(), id)
    }
}

/// Some access of `accesses` to the type `id` is exclusive.
pub open spec fn has_exclusive(accesses: Seq<Access>, id: u64) -> bool {
    exists|k: int| 0 <= k < accesses.len() && (#[trigger] accesses[k]).id == id && accesses[k].exclusive
}

/// Some access of `accesses` is to the type `id`.
pub open spec fn accessed(accesses: Seq<Access>, id: u64) -> bool {
    exists|k: int| 0 <= k < accesses.len() && (#[trigger] accesses[k]).id == id
}

/// Where no two accesses conflict, taking the borrows of the accesses leaves a
/// count as it was where the type is not accessed, makes a count of 0 into -1
/// where the type is accessed exclusively, and else adds the number of the
/// accesses to it.
pub proof fn lemma_borrowed(count: int, accesses: Seq<Access>, id: u64)
    requires
        !conflicting(accesses),
    ensures
        !accessed(accesses, id) ==> borrowed(count, accesses, id) == count,
        has_exclusive(accesses, id) ==> borrowed(count, accesses, id) == -1 && shared_count(
            accesses,
            id,
        ) == 0,
        !has_exclusive(accesses, id) ==> borrowed(count, accesses, id) == count + shared_count(
            accesses,
            id,
        ),
        shared_count(accesses, id) <= accesses.len(),
    decreases accesses.len(),
{
    if accesses.len() > 0 {
        let front = accesses.drop_last();
        let last = accesses.last();
        let n = accesses.len() - 1;
        assert(!conflicting(front)) by {
            if conflicting(front) {
                let (i, j) = choose|i: int, j: int|
                    0 <= i < j < front.len() && (#[trigger] front[i]).id == (#[trigger] front[j]).id
                        && (front[i].exclusive || front[j].exclusive);
                assert(accesses[i].id == accesses[j].id);
            }
        }
        lemma_borrowed(count, front, id);
        if accessed(front, id) {
            let k = choose|k: int| 0 <= k < front.len() && (#[trigger] front[k]).id == id;
            assert(accesses[k].id == id);
        }
        if has_exclusive(front, id) {
            let k = choose|k: int|
                0 <= k < front.len() && (#[trigger] front[k]).id == id && front[k].exclusive;
            assert(accesses[k].id == id && accesses[k].exclusive);
            if last.id == id {
                assert(accesses[n].id == accesses[k].id);
                assert(false);
            }
        }
        if accessed(accesses, id) && !accessed(front, id) {
            let k = choose|k: int| 0 <= k < accesses.len() && (#[trigger] accesses[k]).id == id;
            if k < n {
                assert(front[k].id == id);
            }
        }
        if has_exclusive(accesses, id) && !has_exclusive(front, id) {
            let k = choose|k: int|
                0 <= k < accesses.len() && (#[trigger] accesses[k]).id == id && accesses[k].exclusive;
            if k < n {
                assert(front[k].id == id && front[k].exclusive);
            }
            assert(k == n);
            if accessed(front, id) {
                let m = choose|m: int| 0 <= m < front.len() && (#[trigger] front[m]).id == id;
                assert(accesses[m].id == accesses[n].id);
                assert(false);
            }
            lemma_shared_none(front, id);
        }
        if last.id == id && last.exclusive {
            assert(accesses[n].id == id && accesses[n].exclusive);
        }
        if last.id == id {
            assert(accesses[n].id == id);
        }
    }
}

/// No shared access is counted for a type that is not accessed.
pub proof fn lemma_shared_none(accesses: Seq<Access>, id: u64)
    requires
        !accessed(accesses, id),
    ensures
        shared_count(accesses, id) == 0,
    decreases accesses.len(),
{
    if accesses.len() > 0 {
        let front = accesses.drop_last();
        assert(accesses[accesses.len() - 1].id != id);
        if accessed(front, id) {
            let k = choose|k: int| 0 <= k < front.len() && (#[trigger] front[k]).id == id;
            assert(accesses[k].id == id);
        }
        lemma_shared_none(front, id);
    }
}

/// Where no two accesses conflict, giving the borrows of the accesses back
/// after they were taken leaves a count of 0 or more as it was, if it was 0
/// where the type is accessed exclusively.
pub proof fn lemma_released(count: int, accesses: Seq<Access>, id: u64)
    requires
        !conflicting(accesses),
        has_exclusive(accesses, id) ==> count == 0,
    ensures
        released(borrowed(count, accesses, id), accesses, id) == count,
{
    lemma_borrowed(count, accesses, id);
    lemma_released_from(borrowed(count, accesses, id), accesses, id);
}

/// Where no two accesses conflict, giving the borrows of the accesses back
/// makes a count 0 where the type is accessed exclusively, and else takes the
/// number of the accesses from it.
pub proof fn lemma_released_from(count: int, accesses: Seq<Access>, id: u64)
    requires
        !conflicting(accesses),
    ensures
        has_exclusive(accesses, id) ==> released(count, accesses, id) == 0,
        !has_exclusive(accesses, id) ==> released(count, accesses, id) == count - shared_count(
            accesses,
            id,
        ),
    decreases accesses.len(),
{
    if accesses.len() > 0 {
        let front = accesses.drop_last();
        let last = accesses.last();
        let n = accesses.len() - 1;
        assert(!conflicting(front)) by {
            if conflicting(front) {
                let (i, j) = choose|i: int, j: int|
                    0 <= i < j < front.len() && (#[trigger] front[i]).id == (#[trigger] front[j]).id
                        && (front[i].exclusive || front[j].exclusive);
                assert(accesses[i].id == accesses[j].id);
            }
        }
        lemma_released_from(count, front, id);
        if has_exclusive(front, id) {
            let k = choose|k: int|
                0 <= k < front.len() && (#[trigger] front[k]).id == id && front[k].exclusive;
            assert(accesses[k].id == id && accesses[k].exclusive);
            if last.id == id {
                assert(accesses[n].id == accesses[k].id);
                assert(false);
            }
        }
        if has_exclusive(accesses, id) && !has_exclusive(front, id) {
            let k = choose|k: int|
                0 <= k < accesses.len() && (#[trigger] accesses[k]).id == id && accesses[k].exclusive;
            if k < n {
                assert(front[k].id == id && front[k].exclusive);
            }
        }
        if last.id == id && last.exclusive {
            assert(accesses[n].id == id && accesses[n].exclusive);
        }
    }
}

impl Frame {
    /// A query with the pattern `fetch` meets no borrow that it conflicts with:
    /// in the archetypes with entities that it matches, no column that it reads
    /// is borrowed exclusively, and no column that it changes is borrowed at
    /// all.
    pub open spec fn borrowable(&self, fetch: Fetch) -> bool {
        forall|a: int, k: int|
            #![trigger self.archetype_seq()[a], fetch.accesses()[k]]
            0 <= a < self.archetype_seq().len() && self.archetype_seq()[a].rows() > 0
                && fetch.matches(type_set(self.archetype_seq()[a].signature())) && 0 <= k
                < fetch.accesses().len() && has_id(
                self.archetype_seq()[a].signature(),
                fetch.accesses()[k].id,
            ) ==> self.free_for(a, fetch.accesses()[k], fetch.accesses().len() as int)
    }

    /// The column of archetype `a` that `access` is to can be borrowed for it,
    /// together with `others` more shared borrows.
    pub open spec fn free_for(&self, a: int, access: Access, others: int) -> bool {
        let count = self.archetype_seq()[a].borrow_of(
            index_of_id(self.archetype_seq()[a].signature(), access.id),
        );
        if access.exclusive {
            count == 0
        } else {
            0 <= count && count + others < isize::MAX
        }
    }


    /// Whether a query with the pattern `fetch` would be let through: the
    /// pattern does not ask twice for a component that it changes, and the
    /// query meets no borrow that it conflicts with.
    pub fn can_query(&self, fetch: &Fetch) -> (b: bool)
        requires
            self.wf(),
        ensures
            b == (!fetch.violates() && self.borrowable(*fetch)),
    {
        if fetch.violates_unique_borrow() {
            return false;
        }
        let list = fetch.access_list();
        let archetypes = self.archetypes();
        proof {
            self.lemma_wf();
        }
        let mut a: usize = 0;
        while a < archetypes.len()
            invariant
                a <= archetypes@.len(),
                archetypes@ == self.archetype_seq(),
                self.wf(),
                list@ == fetch.accesses(),
                forall|b: int, k: int|
                    #![trigger self.archetype_seq()[b], fetch.accesses()[k]]
                    0 <= b < a && self.archetype_seq()[b].rows() > 0 && fetch.matches(
                        type_set(self.archetype_seq()[b].signature()),
                    ) && 0 <= k < fetch.accesses().len() && has_id(
                        self.archetype_seq()[b].signature(),
                        fetch.accesses()[k].id,
                    ) ==> self.free_for(b, fetch.accesses()[k], fetch.accesses().len() as int),
            decreases archetypes@.len() - a,
        {
            proof {
                self.lemma_wf();
                assert(self.archetype_seq()[a as int].wf());
            }
            if archetypes[a].len() > 0 && fetch.matches_archetype(&archetypes[a]) {
                let mut k: usize = 0;
                while k < list.len()
                    invariant
                        k <= list@.len(),
                        a < archetypes@.len(),
                        archetypes@ == self.archetype_seq(),
                        archetypes@[a as int].wf(),
                        archetypes@[a as int].rows() > 0,
                        list@ == fetch.accesses(),
                        fetch.matches(type_set(self.archetype_seq()[a as int].signature())),
                        forall|j: int|
                            #![trigger fetch.accesses()[j]]
                            0 <= j < k && has_id(
                                self.archetype_seq()[a as int].signature(),
                                fetch.accesses()[j].id,
                            ) ==> self.free_for(
                                a as int,
                                fetch.accesses()[j],
                                fetch.accesses().len() as int,
                            ),
                    decreases list@.len() - k,
                {
                    let access = list[k];
                    match archetypes[a].borrow_count(access.id) {
                        Some(count) => {
                            let free = if access.exclusive {
                                count == 0
                            } else {
                                count >= 0 && list.len() < (isize::MAX - count) as usize
                            };
                            if !free {
                                proof {
                                    assert(self.archetype_seq()[a as int] == archetypes@[a as int]);
                                    assert(fetch.accesses()[k as int] == access);
                                    assert(!self.free_for(
                                        a as int,
                                        fetch.accesses()[k as int],
                                        fetch.accesses().len() as int,
                                    ));
                                }
                                return false;
                            }
                        },
                        None => {},
                    }
                    k = k + 1;
                }
            }
            a = a + 1;
        }
        true
    }

    /// The entities that the pattern `fetch` matches, each with what the
    /// pattern fetches from it: archetype after archetype in the order in which
    /// they were made, and row after row.
    pub fn query(&self, fetch: &Fetch) -> (out: Vec<(Entity, Item)>)
        requires
            self.wf(),
            !fetch.violates(),
            self.borrowable(*fetch),
        ensures
            item_views(out@) == results(self, *fetch, self.archetype_seq().len() as int),
    {
        self.collect(fetch)
    }

    fn collect(&self, fetch: &Fetch) -> (out: Vec<(Entity, Item)>)
        requires
            self.wf(),
        ensures
            item_views(out@) == results(self, *fetch, self.archetype_seq().len() as int),
    {
        let archetypes = self.archetypes();
        let mut out: Vec<(Entity, Item)> = Vec::new();
        let mut a: usize = 0;
        proof {
            assert(item_views(out@) =~= results(self, *fetch, 0));
        }
        while a < archetypes.len()
            invariant
                a <= archetypes@.len(),
                archetypes@ == self.archetype_seq(),
                self.wf(),
                item_views(out@) == results(self, *fetch, a as int),
            decreases archetypes@.len() - a,
        {
            proof {
                self.lemma_wf();
                assert(self.archetype_seq()[a as int].wf());
            }
            if fetch.matches_archetype(&archetypes[a]) {
                let n = archetypes[a].len();
                let mut r: usize = 0;
                proof {
                    assert(rows_of(self, *fetch, a as int).take(0) =~= Seq::<
                        (Entity, ItemView),
                    >::empty());
                    assert(item_views(out@) =~= results(self, *fetch, a as int) + rows_of(
                        self,
                        *fetch,
                        a as int,
                    ).take(0));
                }
                while r < n
                    invariant
                        r <= n,
                        a < archetypes@.len(),
                        archetypes@ == self.archetype_seq(),
                        archetypes@[a as int].wf(),
                        n == archetypes@[a as int].rows(),
                        self.wf(),
                        fetch.matches(type_set(archetypes@[a as int].signature())),
                        item_views(out@) == results(self, *fetch, a as int) + rows_of(
                            self,
                            *fetch,
                            a as int,
                        ).take(r as int),
                    decreases n - r,
                {
                    let e = self.entity_at(a, r);
                    let item = fetch.fetch(&archetypes[a], r);
                    let ghost before = out@;
                    out.push((e, item));
                    proof {
                        let rows = rows_of(self, *fetch, a as int);
                        assert(rows.take(r + 1) =~= rows.take(r as int).push(rows[r as int]));
                        assert(item_views(out@) =~= item_views(before).push((e, item@)));
                        assert(item_views(out@) =~= results(self, *fetch, a as int) + rows.take(
                            r + 1,
                        ));
                    }
                    r = r + 1;
                }
                proof {
                    let rows = rows_of(self, *fetch, a as int);
                    assert(rows.take(n as int) =~= rows);
                }
            }
            a = a + 1;
        }
        out
    }

    /// As `query`. The store is held exclusively, so no borrow can be in the
    /// way.
    pub fn query_mut(&mut self, fetch: &Fetch) -> (out: Vec<(Entity, Item)>)
        requires
            old(self).wf(),
            old(self).unborrowed(),
            !fetch.violates(),
        ensures
            *final(self) == *old(self),
            item_views(out@) == results(old(self), *fetch, old(self).archetype_seq().len() as int),
    {
        self.collect(fetch)
    }

    /// What the pattern `fetch` fetches from the entity `e`, or `None` where
    /// the pattern does not match it. Returns the error when `e` is not a live
    /// entity.
    pub fn query_one(&self, e: Entity, fetch: &Fetch) -> (r: Result<Option<Item>, NoSuchEntity>)
        requires
            self.wf(),
            !fetch.violates(),
            self.borrowable(*fetch),
        ensures
            r is Ok <==> self@.contains_key(e),
            r matches Ok(found) ==> (found is Some <==> fetch.matches(self@[e].dom())),
            r matches Ok(Some(item)) ==> item@ == fetch.item(self@[e]),
    {
        self.query_one_inner(e, fetch)
    }

    /// What the pattern `fetch` fetches from the entity `e`. The store is held
    /// exclusively, so no borrow can be in the way. Returns an error when `e`
    /// is not a live entity, or when the pattern does not match it.
    pub fn query_one_mut(&mut self, e: Entity, fetch: &Fetch) -> (r: Result<Item, QueryOneError>)
        requires
            old(self).wf(),
            old(self).unborrowed(),
            !fetch.violates(),
        ensures
            *final(self) == *old(self),
            match r {
                Ok(item) => old(self)@.contains_key(e) && fetch.matches(old(self)@[e].dom())
                    && item@ == fetch.item(old(self)@[e]),
                Err(QueryOneError::NoSuchEntity) => !old(self)@.contains_key(e),
                Err(QueryOneError::Unsatisfied) => old(self)@.contains_key(e) && !fetch.matches(
                    old(self)@[e].dom(),
                ),
            },
    {
        match self.query_one_inner(e, fetch) {
            Ok(Some(item)) => Ok(item),
            Ok(None) => Err(QueryOneError::Unsatisfied),
            Err(_) => Err(QueryOneError::NoSuchEntity),
        }
    }

    /// Whether the pattern `fetch` matches the entity `e`. Returns the error
    /// when `e` is not a live entity.
    pub fn satisfies(&self, e: Entity, fetch: &Fetch) -> (r: Result<bool, NoSuchEntity>)
        requires
            self.wf(),
        ensures
            r is Ok <==> self@.contains_key(e),
            r matches Ok(b) ==> b == fetch.matches(self@[e].dom()),
    {
        match self.locate(e) {
            Ok(location) => {
                let archetypes = self.archetypes();
                proof {
                    self.lemma_wf();
                    assert(self.archetype_seq()[location.archetype as int].wf());
                    assert(self@[e].dom() =~= type_set(
                        self.archetype_seq()[location.archetype as int].signature(),
                    ));
                }
                Ok(fetch.matches_archetype(&archetypes[location.archetype]))
            },
            Err(error) => Err(error),
        }
    }
}

} // verus!

verus! {

impl Frame {
    /// The entities that the pattern `fetch` matches, as `query` yields them,
    /// in batches of at most `batch_size` rows of one archetype.
    pub fn query_batched(&self, fetch: &Fetch, batch_size: usize) -> (out: Vec<Vec<(Entity, Item)>>)
        requires
            self.wf(),
            !fetch.violates(),
            self.borrowable(*fetch),
            batch_size > 0,
        ensures
            batch_views(out@) == batched_from(self, *fetch, batch_size as int, 0),
    {
        self.collect_batched(fetch, batch_size)
    }

    /// As `query_batched`. The store is held exclusively, so no borrow can be
    /// in the way.
    pub fn query_mut_batched(&mut self, fetch: &Fetch, batch_size: usize) -> (out: Vec<
        Vec<(Entity, Item)>,
    >)
        requires
            old(self).wf(),
            old(self).unborrowed(),
            !fetch.violates(),
            batch_size > 0,
        ensures
            *final(self) == *old(self),
            batch_views(out@) == batched_from(old(self), *fetch, batch_size as int, 0),
    {
        self.collect_batched(fetch, batch_size)
    }

    fn collect_batched(&self, fetch: &Fetch, batch_size: usize) -> (out: Vec<Vec<(Entity, Item)>>)
        requires
            self.wf(),
            batch_size > 0,
        ensures
            batch_views(out@) == batched_from(self, *fetch, batch_size as int, 0),
    {
        let archetypes = self.archetypes();
        let mut out: Vec<Vec<(Entity, Item)>> = Vec::new();
        let mut a: usize = 0;
        let ghost size = batch_size as int;
        proof {
            assert(batch_views(out@) + batched_from(self, *fetch, size, 0) =~= batched_from(
                self,
                *fetch,
                size,
                0,
            ));
        }
        while a < archetypes.len()
            invariant
                a <= archetypes@.len(),
                archetypes@ == self.archetype_seq(),
                self.wf(),
                size == batch_size,
                batch_size > 0,
                batch_views(out@) + batched_from(self, *fetch, size, a as int) == batched_from(
                    self,
                    *fetch,
                    size,
                    0,
                ),
            decreases archetypes@.len() - a,
        {
            proof {
                self.lemma_wf();
                assert(self.archetype_seq()[a as int].wf());
            }
            if fetch.matches_archetype(&archetypes[a]) {
                let n = archetypes[a].len();
                let mut from: usize = 0;
                while from < n
                    invariant
                        from <= n,
                        a < archetypes@.len(),
                        archetypes@ == self.archetype_seq(),
                        archetypes@[a as int].wf(),
                        n == archetypes@[a as int].rows(),
                        self.wf(),
                        size == batch_size,
                        batch_size > 0,
                        fetch.matches(type_set(archetypes@[a as int].signature())),
                        batch_views(out@) + (batches_from(self, *fetch, a as int, size, from as int)
                            + batched_from(self, *fetch, size, a + 1)) == batched_from(
                            self,
                            *fetch,
                            size,
                            0,
                        ),
                    decreases n - from,
                {
                    let to = if batch_size < n - from {
                        from + batch_size
                    } else {
                        n
                    };
                    let mut batch: Vec<(Entity, Item)> = Vec::new();
                    let mut r: usize = from;
                    let ghost rows = rows_of(self, *fetch, a as int);
                    while r < to
                        invariant
                            from <= r <= to <= n,
                            a < archetypes@.len(),
                            archetypes@ == self.archetype_seq(),
                            archetypes@[a as int].wf(),
                            n == archetypes@[a as int].rows(),
                            self.wf(),
                            fetch.matches(type_set(archetypes@[a as int].signature())),
                            rows == rows_of(self, *fetch, a as int),
                            item_views(batch@) == rows.subrange(from as int, r as int),
                        decreases to - r,
                    {
                        let e = self.entity_at(a, r);
                        let item = fetch.fetch(&archetypes[a], r);
                        let ghost before = batch@;
                        batch.push((e, item));
                        proof {
                            assert(item_views(batch@) =~= item_views(before).push((e, item@)));
                            assert(rows.subrange(from as int, r + 1) =~= rows.subrange(
                                from as int,
                                r as int,
                            ).push(rows[r as int]));
                        }
                        r = r + 1;
                    }
                    let ghost done = out@;
                    let ghost views = item_views(batch@);
                    out.push(batch);
                    proof {
                        assert(batch_views(out@) =~= batch_views(done).push(views));
                        let rest = batched_from(self, *fetch, size, a + 1);
                        let next = batches_from(self, *fetch, a as int, size, to as int);
                        assert(batches_from(self, *fetch, a as int, size, from as int) == seq![views]
                            + next);
                        assert(batch_views(out@) + (next + rest) =~= batch_views(done) + ((seq![
                            views,
                        ] + next) + rest));
                    }
                    from = to;
                }
                proof {
                    let rest = batched_from(self, *fetch, size, a + 1);
                    assert(batches_from(self, *fetch, a as int, size, n as int) + rest =~= rest);
                }
            }
            a = a + 1;
        }
        proof {
            assert(batch_views(out@) + batched_from(self, *fetch, size, a as int) =~= batch_views(
                out@,
            ));
        }
        out
    }
}

} // verus!

verus! {

/// Where no two accesses conflict, no two of the first accesses do.
pub proof fn lemma_prefix_free(accesses: Seq<Access>, k: int)
    requires
        !conflicting(accesses),
        0 <= k <= accesses.len(),
    ensures
        !conflicting(accesses.take(k)),
{
    let front = accesses.take(k);
    if conflicting(front) {
        let (i, j) = choose|i: int, j: int|
            0 <= i < j < front.len() && (#[trigger] front[i]).id == (#[trigger] front[j]).id && (
            front[i].exclusive || front[j].exclusive);
        assert(accesses[i].id == accesses[j].id);
    }
}

/// Where no two accesses conflict, the type of an exclusive access is not
/// accessed before it, and the type of a shared access is not accessed
/// exclusively before it.
pub proof fn lemma_before(accesses: Seq<Access>, k: int)
    requires
        !conflicting(accesses),
        0 <= k < accesses.len(),
    ensures
        accesses[k].exclusive ==> !accessed(accesses.take(k), accesses[k].id),
        !has_exclusive(accesses.take(k), accesses[k].id),
{
    let front = accesses.take(k);
    let id = accesses[k].id;
    if accessed(front, id) && accesses[k].exclusive {
        let j = choose|j: int| 0 <= j < front.len() && (#[trigger] front[j]).id == id;
        assert(accesses[j].id == accesses[k].id);
    }
    if has_exclusive(front, id) {
        let j = choose|j: int| 0 <= j < front.len() && (#[trigger] front[j]).id == id && front[j].exclusive;
        assert(accesses[j].id == accesses[k].id && accesses[j].exclusive);
    }
}

/// The shared accesses to a type among the first accesses are fewer than those
/// among all, where the next access is one.
pub proof fn lemma_shared_count_take(accesses: Seq<Access>, k: int, id: u64)
    requires
        0 <= k < accesses.len(),
    ensures
        shared_count(accesses.take(k), id) + (if accesses[k].id == id && !accesses[k].exclusive {
            1int
        } else {
            0int
        }) == shared_count(accesses.take(k + 1), id),
        shared_count(accesses.take(k + 1), id) <= shared_count(accesses, id),
    decreases accesses.len() - k,
{
    assert(accesses.take(k + 1).drop_last() =~= accesses.take(k));
    assert(accesses.take(k + 1).last() == accesses[k]);
    if k + 1 < accesses.len() {
        lemma_shared_count_take(accesses, k + 1, id);
    } else {
        assert(accesses.take(k + 1) =~= accesses);
    }
}

impl Frame {
    /// The borrows of a query with the pattern `fetch` are held: in the
    /// archetypes with entities that it matches, every column that it changes
    /// is borrowed exclusively, and every column that it reads is borrowed as
    /// often as it reads it, or more often.
    pub open spec fn borrowed_by(&self, fetch: Fetch) -> bool {
        forall|a: int, k: int|
            #![trigger self.archetype_seq()[a], fetch.accesses()[k]]
            0 <= a < self.archetype_seq().len() && self.archetype_seq()[a].rows() > 0
                && fetch.matches(type_set(self.archetype_seq()[a].signature())) && 0 <= k
                < fetch.accesses().len() && has_id(
                self.archetype_seq()[a].signature(),
                fetch.accesses()[k].id,
            ) ==> {
                let count = self.archetype_seq()[a].borrow_of(
                    index_of_id(self.archetype_seq()[a].signature(), fetch.accesses()[k].id),
                );
                if fetch.accesses()[k].exclusive {
                    count == -1
                } else {
                    count >= shared_count(fetch.accesses(), fetch.accesses()[k].id)
                }
            }
    }

    /// The borrow counts of `self` are those of `before` with the borrows of a
    /// query with the pattern `fetch` taken: in the archetypes with entities
    /// that the pattern matches each count is as `borrowed` says, and the
    /// others are the same.
    pub open spec fn counts_borrowed(&self, before: &Frame, fetch: Fetch) -> bool {
        forall|a: int, c: int|
            #![trigger self.archetype_seq()[a].borrow_of(c)]
            0 <= a < before.archetype_seq().len() && 0 <= c
                < before.archetype_seq()[a].signature().len() ==> self.archetype_seq()[a].borrow_of(c)
                == if before.archetype_seq()[a].rows() > 0 && fetch.matches(
                type_set(before.archetype_seq()[a].signature()),
            ) {
                borrowed(
                    before.archetype_seq()[a].borrow_of(c),
                    fetch.accesses(),
                    before.archetype_seq()[a].signature()[c].id,
                )
            } else {
                before.archetype_seq()[a].borrow_of(c)
            }
    }

    /// The borrow counts of `self` are those of `before` with the borrows of a
    /// query with the pattern `fetch` given back.
    pub open spec fn counts_released(&self, before: &Frame, fetch: Fetch) -> bool {
        forall|a: int, c: int|
            #![trigger self.archetype_seq()[a].borrow_of(c)]
            0 <= a < before.archetype_seq().len() && 0 <= c
                < before.archetype_seq()[a].signature().len() ==> self.archetype_seq()[a].borrow_of(c)
                == if before.archetype_seq()[a].rows() > 0 && fetch.matches(
                type_set(before.archetype_seq()[a].signature()),
            ) {
                released(
                    before.archetype_seq()[a].borrow_of(c),
                    fetch.accesses(),
                    before.archetype_seq()[a].signature()[c].id,
                )
            } else {
                before.archetype_seq()[a].borrow_of(c)
            }
    }
}

} // verus!

verus! {

/// Once the borrows of a query were taken from a store that let the query
/// through, they are held.
pub proof fn lemma_borrow_holds(before: &Frame, after: &Frame, fetch: Fetch)
    requires
        before.wf(),
        !fetch.violates(),
        before.borrowable(fetch),
        after.counts_borrowed(before, fetch),
        after.archetype_seq().len() == before.archetype_seq().len(),
        after.keeps_archetypes(before),
        forall|a: int|
            0 <= a < before.archetype_seq().len() ==> (#[trigger] after.archetype_seq()[a]).entity_ids()
                == before.archetype_seq()[a].entity_ids(),
    ensures
        after.borrowed_by(fetch),
{
    before.lemma_wf();
    let accesses = fetch.accesses();
    assert forall|a: int, k: int|
        #![trigger after.archetype_seq()[a], fetch.accesses()[k]]
        0 <= a < after.archetype_seq().len() && after.archetype_seq()[a].rows() > 0 && fetch.matches(
            type_set(after.archetype_seq()[a].signature()),
        ) && 0 <= k < fetch.accesses().len() && has_id(
            after.archetype_seq()[a].signature(),
            fetch.accesses()[k].id,
        ) implies {
        let count = after.archetype_seq()[a].borrow_of(
            index_of_id(after.archetype_seq()[a].signature(), fetch.accesses()[k].id),
        );
        if fetch.accesses()[k].exclusive {
            count == -1
        } else {
            count >= shared_count(fetch.accesses(), fetch.accesses()[k].id)
        }
    } by {
        let signature = before.archetype_seq()[a].signature();
        assert(after.archetype_seq()[a].signature() == signature);
        let id = accesses[k].id;
        let c = index_of_id(signature, id);
        assert(signature[c].id == id);
        let count = before.archetype_seq()[a].borrow_of(c);
        assert(before.free_for(a, fetch.accesses()[k], accesses.len() as int));
        lemma_borrowed(count, accesses, id);
        assert(after.archetype_seq()[a].borrow_of(c) == borrowed(count, accesses, id));
        if has_exclusive(accesses, id) && !accesses[k].exclusive {
            let j = choose|j: int|
                0 <= j < accesses.len() && (#[trigger] accesses[j]).id == id && accesses[j].exclusive;
            if j < k {
                assert(accesses[j].id == accesses[k].id);
            } else {
                assert(accesses[k].id == accesses[j].id);
            }
            assert(false);
        }
    }
}

impl Frame {
    /// The entities that the pattern `fetch` matches, as `query` yields them,
    /// for a query whose borrows were taken before and are still held.
    pub fn query_held(&self, fetch: &Fetch) -> (out: Vec<(Entity, Item)>)
        requires
            self.wf(),
            !fetch.violates(),
            self.borrowed_by(*fetch),
        ensures
            item_views(out@) == results(self, *fetch, self.archetype_seq().len() as int),
    {
        self.collect(fetch)
    }
}

} // verus!

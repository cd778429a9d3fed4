//! Access to single entities: views of a query, and entity references.

use crate::component::ComponentView;
use crate::component::TypeInfo;
use crate::entities::Location;
use crate::entities::NoSuchEntity;
use crate::entity::Entity;
use crate::frame::Frame;
use crate::query::type_set;
use crate::query::Fetch;
use crate::query::Item;
use vstd::prelude::*;

verus! {

/// Why a query could not fetch from one entity.
#[derive(Clone, Copy, Debug, PartialEq, Eq, Structural)]
pub enum QueryOneError {
    /// The handle is not valid.
    NoSuchEntity,
    /// The entity exists and the pattern does not match it.
    Unsatisfied,
}

/// No handle occurs twice in `handles`.
pub open spec fn distinct(handles: Seq<Entity>) -> bool {
    forall|i: int, j: int| 0 <= i < j < handles.len() ==> handles[i] != handles[j]
}

/// Whether no handle occurs twice in `handles`.
pub fn all_distinct(handles: &Vec<Entity>) -> (b: bool)
    ensures
        b == distinct(handles@),
{
    let mut j: usize = 0;
    while j < handles.len()
        invariant
            j <= handles@.len(),
            forall|a: int, b: int| 0 <= a < b < j ==> handles@[a] != handles@[b],
        decreases handles@.len() - j,
    {
        let mut i: usize = 0;
        while i < j
            invariant
                i <= j < handles@.len(),
                forall|a: int| 0 <= a < i ==> handles@[a] != handles@[j as int],
            decreases j - i,
        {
            if handles[i] == handles[j] {
                return false;
            }
            i = i + 1;
        }
        j = j + 1;
    }
    true
}

/// A query that is asked for single entities, by their handles.
pub struct QueryView<'a> {
    frame: &'a Frame,
    fetch: &'a Fetch,
}

impl<'a> QueryView<'a> {
    /// The store that the view looks at.
    pub closed spec fn store(&self) -> Frame {
        *self.frame
    }

    /// The pattern of the view.
    pub closed spec fn pattern(&self) -> Fetch {
        *self.fetch
    }

    /// The view's store is sound.
    pub closed spec fn wf(&self) -> bool {
        self.frame.wf()
    }

    /// What the view has for the handle `e`: what its pattern fetches from the
    /// entity, where `e` is a live entity that the pattern matches.
    pub open spec fn found(&self, e: Entity) -> Option<crate::query::ItemView> {
        if self.store()@.contains_key(e) && self.pattern().matches(self.store()@[e].dom()) {
            Some(self.pattern().item(self.store()@[e]))
        } else {
            None
        }
    }

    /// What the pattern fetches from the entity `e`, or `None` where `e` is
    /// not a live entity or the pattern does not match it.
    pub fn get(&self, e: Entity) -> (item: Option<Item>)
        requires
            self.wf(),
        ensures
            item is Some <==> self.found(e) is Some,
            item matches Some(i) ==> Some(i@) == self.found(e),
    {
        match self.frame.query_one_inner(e, self.fetch) {
            Ok(Some(item)) => Some(item),
            _ => None,
        }
    }

    /// Whether `e` is a live entity that the pattern matches.
    pub fn contains(&self, e: Entity) -> (b: bool)
        requires
            self.wf(),
        ensures
            b == (self.found(e) is Some),
    {
        match self.frame.satisfies(e, self.fetch) {
            Ok(b) => b,
            Err(_) => false,
        }
    }

    /// What the pattern fetches from each of the entities `handles`, which are
    /// all different.
    pub fn get_mut_n(&self, handles: &Vec<Entity>) -> (items: Vec<Option<Item>>)
        requires
            self.wf(),
            distinct(handles@),
        ensures
            items@.len() == handles@.len(),
            forall|i: int|
                0 <= i < handles@.len() ==> ((#[trigger] items@[i]) is Some <==> self.found(
                    handles@[i],
                ) is Some),
            forall|i: int|
                0 <= i < handles@.len() ==> ((#[trigger] items@[i]) matches Some(item) ==> Some(
                    item@,
                ) == self.found(handles@[i])),
    {
        let mut items: Vec<Option<Item>> = Vec::new();
        let mut i: usize = 0;
        while i < handles.len()
            invariant
                i <= handles@.len(),
                self.wf(),
                items@.len() == i,
                forall|k: int|
                    0 <= k < i ==> ((#[trigger] items@[k]) is Some <==> self.found(handles@[k])
                        is Some),
                forall|k: int|
                    0 <= k < i ==> ((#[trigger] items@[k]) matches Some(item) ==> Some(item@)
                        == self.found(handles@[k])),
            decreases handles@.len() - i,
        {
            let item = self.get(handles[i]);
            items.push(item);
            i = i + 1;
        }
        items
    }
}

/// One live entity of a store, to look at its components.
pub struct EntityRef<'a> {
    frame: &'a Frame,
    entity: Entity,
    location: Location,
}

impl<'a> EntityRef<'a> {
    /// The store that the entity lives in.
    pub closed spec fn store(&self) -> Frame {
        *self.frame
    }

    /// The handle of the entity.
    pub closed spec fn handle(&self) -> Entity {
        self.entity
    }

    /// The reference names a live entity of a sound store.
    pub closed spec fn wf(&self) -> bool {
        &&& self.frame.wf()
        &&& self.frame@.contains_key(self.entity)
        &&& self.frame.location(self.entity) == self.location
    }

    /// The components of the entity.
    pub open spec fn components(&self) -> Map<u64, ComponentView> {
        self.store()@[self.handle()]
    }

    /// The handle of the entity.
    pub fn entity(&self) -> (e: Entity)
        ensures
            e == self.handle(),
    {
        self.entity
    }

    /// Whether the entity has a component of the type with id `id`.
    pub fn has(&self, id: u64) -> (b: bool)
        requires
            self.wf(),
        ensures
            b == self.components().contains_key(id),
    {
        proof {
            self.frame.lemma_wf();
        }
        let archetypes = self.frame.archetypes();
        proof {
            assert(archetypes@[self.location.archetype as int].wf());
        }
        archetypes[self.location.archetype].has(id)
    }

    /// Whether the pattern `fetch` matches the entity.
    pub fn satisfies(&self, fetch: &Fetch) -> (b: bool)
        requires
            self.wf(),
        ensures
            b == fetch.matches(self.components().dom()),
    {
        match self.frame.satisfies(self.entity, fetch) {
            Ok(b) => b,
            Err(_) => false,
        }
    }

    /// The bytes of the component of type `id`, if the entity has one, which is
    /// not borrowed exclusively.
    pub fn get(&self, id: u64) -> (bytes: Option<&Vec<u8>>)
        requires
            self.wf(),
            self.store().readable(self.handle(), id),
        ensures
            bytes is Some <==> self.components().contains_key(id),
            bytes matches Some(b) ==> b@ == self.components()[id].bytes,
    {
        match self.frame.get(self.entity, id) {
            Ok(bytes) => Some(bytes),
            Err(_) => None,
        }
    }

    /// The types of the components of the entity, in canonical order.
    pub fn component_types(&self) -> (types: &Vec<TypeInfo>)
        requires
            self.wf(),
        ensures
            forall|id: u64|
                crate::component::has_id(types@, id) <==> self.components().contains_key(id),
            crate::component::canonical(types@),
    {
        proof {
            self.frame.lemma_wf();
        }
        let archetypes = self.frame.archetypes();
        proof {
            archetypes@[self.location.archetype as int].lemma_wf();
        }
        archetypes[self.location.archetype].types()
    }

    /// The number of components of the entity.
    pub fn len(&self) -> (n: usize)
        requires
            self.wf(),
        ensures
            n == self.component_count(),
    {
        let archetypes = self.frame.archetypes();
        proof {
            self.frame.lemma_wf();
        }
        archetypes[self.location.archetype].types().len()
    }

    /// The number of components of the entity.
    pub open spec fn component_count(&self) -> nat {
        self.store().archetype_seq()[self.store().location(self.handle()).archetype as int].signature().len()
    }
}

impl Frame {
    pub(crate) fn query_one_inner(&self, e: Entity, fetch: &Fetch) -> (r: Result<
        Option<Item>,
        NoSuchEntity,
    >)
        requires
            self.wf(),
        ensures
            r is Ok <==> self@.contains_key(e),
            r matches Ok(found) ==> (found is Some <==> fetch.matches(self@[e].dom())),
            r matches Ok(Some(item)) ==> item@ == fetch.item(self@[e]),
    {
        match self.locate(e) {
            Ok(location) => {
                let archetypes = self.archetypes();
                proof {
                    self.lemma_wf();
                    assert(self.archetype_seq()[location.archetype as int].wf());
                    assert(self@[e].dom() =~= type_set(
                        self.archetype_seq()[location.archetype as int].signature(),
                    ));
                }
                if fetch.matches_archetype(&archetypes[location.archetype]) {
                    Ok(Some(fetch.fetch(&archetypes[location.archetype], location.row)))
                } else {
                    Ok(None)
                }
            },
            Err(error) => Err(error),
        }
    }

    /// A view of the entities that the pattern `fetch` matches, to ask for
    /// single ones.
    pub fn view_for<'a>(&'a self, fetch: &'a Fetch) -> (view: QueryView<'a>)
        requires
            self.wf(),
            !fetch.violates(),
            self.borrowable(*fetch),
        ensures
            view.wf(),
            view.store() == *self,
            view.pattern() == *fetch,
    {
        QueryView { frame: self, fetch }
    }

    /// As `view_for`. The store is held exclusively, so no borrow can be in the
    /// way.
    pub fn view_mut<'a>(&'a mut self, fetch: &'a Fetch) -> (view: QueryView<'a>)
        requires
            old(self).wf(),
            old(self).unborrowed(),
            !fetch.violates(),
        ensures
            view.wf(),
            view.store() == *old(self),
            view.pattern() == *fetch,
            *final(self) == *old(self),
    {
        QueryView { frame: self, fetch }
    }

    /// The live entity `e`, to look at its components. Returns the error when
    /// `e` is not a live entity.
    pub fn entity<'a>(&'a self, e: Entity) -> (r: Result<EntityRef<'a>, NoSuchEntity>)
        requires
            self.wf(),
        ensures
            r is Ok <==> self@.contains_key(e),
            r matches Ok(entity) ==> entity.wf() && entity.store() == *self && entity.handle() == e,
    {
        match self.locate(e) {
            Ok(location) => Ok(EntityRef { frame: self, entity: e, location }),
            Err(error) => Err(error),
        }
    }

    /// What the pattern `fetch` fetches from each of the entities `handles`,
    /// which are all different: the item, or why there is none.
    pub fn query_many_mut(&mut self, handles: &Vec<Entity>, fetch: &Fetch) -> (items: Vec<
        Result<Item, QueryOneError>,
    >)
        requires
            old(self).wf(),
            old(self).unborrowed(),
            !fetch.violates(),
            distinct(handles@),
        ensures
            *final(self) == *old(self),
            items@.len() == handles@.len(),
            forall|i: int|
                0 <= i < handles@.len() ==> match #[trigger] items@[i] {
                    Ok(item) => old(self)@.contains_key(handles@[i]) && fetch.matches(
                        old(self)@[handles@[i]].dom(),
                    ) && item@ == fetch.item(old(self)@[handles@[i]]),
                    Err(QueryOneError::NoSuchEntity) => !old(self)@.contains_key(handles@[i]),
                    Err(QueryOneError::Unsatisfied) => old(self)@.contains_key(handles@[i])
                        && !fetch.matches(old(self)@[handles@[i]].dom()),
                },
    {
        let mut items: Vec<Result<Item, QueryOneError>> = Vec::new();
        let mut i: usize = 0;
        while i < handles.len()
            invariant
                i <= handles@.len(),
                *self == *old(self),
                self.wf(),
                items@.len() == i,
                forall|k: int|
                    0 <= k < i ==> match #[trigger] items@[k] {
                        Ok(item) => self@.contains_key(handles@[k]) && fetch.matches(
                            self@[handles@[k]].dom(),
                        ) && item@ == fetch.item(self@[handles@[k]]),
                        Err(QueryOneError::NoSuchEntity) => !self@.contains_key(handles@[k]),
                        Err(QueryOneError::Unsatisfied) => self@.contains_key(handles@[k])
                            && !fetch.matches(self@[handles@[k]].dom()),
                    },
            decreases handles@.len() - i,
        {
            let item = match self.query_one_inner(handles[i], fetch) {
                Ok(Some(item)) => Ok(item),
                Ok(None) => Err(QueryOneError::Unsatisfied),
                Err(_) => Err(QueryOneError::NoSuchEntity),
            };
            items.push(item);
            i = i + 1;
        }
        items
    }
}

} // verus!

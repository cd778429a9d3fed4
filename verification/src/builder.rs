//! Builders: bundles that are put together step by step, and batches that are
//! put together column by column.

use crate::arena::aligned_up;
use crate::arena::arena_for;
use crate::arena::Arena;
use crate::command_buffer::aligned;
use crate::command_buffer::footprint;
use crate::component::all_sized;
use crate::component::by_id;
use crate::component::canonical;
use crate::component::canonical_order;
use crate::component::distinct_ids;
use crate::component::has_id;
use crate::component::index_of_id;
use crate::component::infos;
use crate::component::views;
use crate::component::Bundle;
use crate::component::Component;
use crate::component::ComponentView;
use crate::component::TypeInfo;
use vstd::prelude::*;

verus! {

/// The components `s` after `c` was added: `c` stands where a component of its
/// type stood, or at the end.
pub open spec fn added(s: Seq<ComponentView>, c: ComponentView) -> Seq<ComponentView> {
    if has_id(infos(s), c.info.id) {
        s.update(index_of_id(infos(s), c.info.id), c)
    } else {
        s.push(c)
    }
}

/// The components `s` after those of `more` were added, one after the other.
pub open spec fn added_all(s: Seq<ComponentView>, more: Seq<ComponentView>) -> Seq<ComponentView>
    decreases more.len(),
{
    if more.len() == 0 {
        s
    } else {
        added(added_all(s, more.drop_last()), more.last())
    }
}

/// Adding a component to components of distinct ids and right sizes leaves
/// them so, and puts the component over the one of its type.
pub proof fn lemma_added(s: Seq<ComponentView>, c: ComponentView)
    requires
        distinct_ids(infos(s)),
        all_sized(s),
        c.bytes.len() == c.info.size,
    ensures
        distinct_ids(infos(added(s, c))),
        all_sized(added(s, c)),
        by_id(added(s, c)) == by_id(s).insert(c.info.id, c),
{
    let t = added(s, c);
    crate::component::lemma_by_id_domain(s);
    if has_id(infos(s), c.info.id) {
        let k = index_of_id(infos(s), c.info.id);
        assert forall|i: int, j: int| 0 <= i < j < t.len() implies (#[trigger] infos(t)[i]).id != (
        #[trigger] infos(t)[j]).id by {
            assert(infos(s)[i].id != infos(s)[j].id);
        }
    } else {
        assert forall|i: int, j: int| 0 <= i < j < t.len() implies (#[trigger] infos(t)[i]).id != (
        #[trigger] infos(t)[j]).id by {
            if j < s.len() {
                assert(infos(s)[i].id != infos(s)[j].id);
            } else {
                assert(infos(s)[i].id != c.info.id);
            }
        }
    }
    crate::component::lemma_by_id_domain(t);
    assert forall|id: u64| by_id(t).contains_key(id) <==> by_id(s).insert(c.info.id, c).contains_key(
        id,
    ) by {
        if has_id(infos(t), id) {
            let i = index_of_id(infos(t), id);
            if t[i] != c {
                assert(infos(s)[i].id == id);
            }
        }
        if has_id(infos(s), id) {
            let i = index_of_id(infos(s), id);
            assert(infos(t)[i].id == id);
        }
        if id == c.info.id {
            if has_id(infos(s), c.info.id) {
                assert(infos(t)[index_of_id(infos(s), c.info.id)].id == id);
            } else {
                assert(infos(t)[t.len() - 1].id == id);
            }
        }
    }
    assert forall|id: u64| by_id(t).contains_key(id) implies #[trigger] by_id(t)[id] == by_id(
        s,
    ).insert(c.info.id, c)[id] by {
        let i = index_of_id(infos(t), id);
        assert(infos(t)[i].id == id);
        crate::component::lemma_by_id_distinct(t, i);
        if id != c.info.id {
            assert(infos(s)[i].id == id);
            crate::component::lemma_by_id_distinct(s, i);
        } else {
            let k = if has_id(infos(s), c.info.id) {
                index_of_id(infos(s), c.info.id)
            } else {
                s.len() as int
            };
            assert(infos(t)[k].id == id);
            crate::archetype::lemma_index_of_id(infos(t), k);
        }
    }
    assert(by_id(t) =~= by_id(s).insert(c.info.id, c));
}

/// Adding components one after the other to components of distinct ids and
/// right sizes leaves them so, and puts the components over those of their
/// types.
pub proof fn lemma_added_all(s: Seq<ComponentView>, more: Seq<ComponentView>)
    requires
        distinct_ids(infos(s)),
        all_sized(s),
        all_sized(more),
    ensures
        distinct_ids(infos(added_all(s, more))),
        all_sized(added_all(s, more)),
        by_id(added_all(s, more)) == by_id(s).union_prefer_right(by_id(more)),
    decreases more.len(),
{
    if more.len() == 0 {
        assert(by_id(s).union_prefer_right(by_id(more)) =~= by_id(s));
    } else {
        let front = more.drop_last();
        assert(all_sized(front)) by {
            assert forall|i: int| 0 <= i < front.len() implies (#[trigger] front[i]).bytes.len()
                == front[i].info.size by {
                assert(more[i].bytes.len() == more[i].info.size);
            }
        }
        lemma_added_all(s, front);
        assert(more[more.len() - 1].bytes.len() == more[more.len() - 1].info.size);
        lemma_added(added_all(s, front), more.last());
        assert(by_id(s).union_prefer_right(by_id(front)).insert(more.last().info.id, more.last())
            =~= by_id(s).union_prefer_right(by_id(more)));
    }
}

/// One component of a builder: its type, and where its bytes start in the
/// arena.
#[derive(Clone, Copy)]
struct Entry {
    ty: TypeInfo,
    offset: usize,
}

spec fn entry_view(bytes: Seq<u8>, entry: Entry) -> ComponentView {
    ComponentView {
        info: entry.ty,
        bytes: bytes.subrange(entry.offset as int, entry.offset + entry.ty.size),
    }
}

spec fn entry_views(bytes: Seq<u8>, entries: Seq<Entry>) -> Seq<ComponentView> {
    entries.map_values(|entry: Entry| entry_view(bytes, entry))
}

/// The bytes of the two entries do not overlap.
spec fn apart(a: Entry, b: Entry) -> bool {
    a.offset + a.ty.size <= b.offset || b.offset + b.ty.size <= a.offset
}

/// Puts the components of one entity together, one after the other.
///
/// The bytes of the components lie in an arena, which is kept when the builder
/// is emptied.
pub struct EntityBuilder {
    arena: Arena,
    info: Vec<Entry>,
}

impl View for EntityBuilder {
    type V = Seq<ComponentView>;

    /// The components that were added, each where it was first added.
    closed spec fn view(&self) -> Seq<ComponentView> {
        entry_views(self.arena.bytes(), self.info@)
    }
}

impl EntityBuilder {
    /// The number of bytes of the arena that are in use.
    pub closed spec fn used(&self) -> nat {
        self.arena.used()
    }

    /// The size of the arena, in bytes.
    pub closed spec fn arena_size(&self) -> nat {
        self.arena.size()
    }

    /// The alignment of the arena, in bytes.
    pub closed spec fn arena_align(&self) -> nat {
        self.arena.alignment()
    }

    /// The builder has a component of the type and layout of `c`, whose bytes
    /// those of `c` can take the place of.
    pub open spec fn holds_like(&self, c: ComponentView) -> bool {
        by_id(self@).contains_key(c.info.id) && by_id(self@)[c.info.id].info == c.info
    }

    /// The builder's invariant.
    pub closed spec fn wf(&self) -> bool {
        &&& self.arena.wf()
        &&& distinct_ids(infos(self@))
        &&& forall|k: int|
            0 <= k < self.info@.len() ==> (#[trigger] self.info@[k]).offset + self.info@[k].ty.size
                <= self.arena.used()
        &&& forall|i: int, j: int|
            0 <= i < j < self.info@.len() ==> apart(#[trigger] self.info@[i], #[trigger] self.info@[j])
    }

    /// What the invariant says of the components: every component has the
    /// size of its type, and no type occurs twice.
    pub proof fn lemma_wf(&self)
        requires
            self.wf(),
        ensures
            all_sized(self@),
            distinct_ids(infos(self@)),
            self.used() <= self.arena_size(),
    {
        self.arena.lemma_wf();
        assert forall|i: int| 0 <= i < self@.len() implies (#[trigger] self@[i]).bytes.len()
            == self@[i].info.size by {
            assert(self.info@[i].offset + self.info@[i].ty.size <= self.arena.used());
        }
    }

    /// A builder without components, with an arena of no bytes.
    pub fn new() -> (builder: EntityBuilder)
        ensures
            builder.wf(),
            builder@ == Seq::<ComponentView>::empty(),
            builder.used() == 0,
            builder.arena_size() == 0,
            builder.arena_align() == 8,
    {
        let builder = EntityBuilder { arena: Arena::new(), info: Vec::new() };
        assert(builder@ =~= Seq::<ComponentView>::empty());
        builder
    }

    /// The number of bytes of the arena that are in use.
    pub fn used_bytes(&self) -> (n: usize)
        ensures
            n == self.used(),
    {
        self.arena.used_bytes()
    }

    /// The size of the arena, in bytes.
    pub fn arena_bytes(&self) -> (n: usize)
        ensures
            n == self.arena_size(),
    {
        self.arena.size_bytes()
    }

    fn find(&self, id: u64) -> (at: Option<usize>)
        requires
            self.wf(),
        ensures
            at is Some <==> has_id(infos(self@), id),
            at is Some <==> by_id(self@).contains_key(id),
            at matches Some(i) ==> i < self.info@.len() && i == index_of_id(infos(self@), id)
                && self@[i as int] == by_id(self@)[id] && self.info@[i as int].ty.id == id,
    {
        proof {
            crate::component::lemma_by_id_domain(self@);
        }
        let mut i: usize = 0;
        while i < self.info.len()
            invariant
                i <= self.info@.len(),
                self.wf(),
                forall|k: int| 0 <= k < i ==> (#[trigger] infos(self@)[k]).id != id,
            decreases self.info@.len() - i,
        {
            if self.info[i].ty.id == id {
                proof {
                    assert(infos(self@)[i as int].id == id);
                    crate::component::lemma_by_id_distinct(self@, i as int);
                    crate::archetype::lemma_index_of_id(infos(self@), i as int);
                }
                return Some(i);
            }
            i = i + 1;
        }
        None
    }

    /// Whether `component` can be added: it has the size of its type and an
    /// alignment of at least one byte, and the arena can hold it.
    pub fn can_add(&self, component: &Component) -> (b: bool)
        ensures
            b == (component.wf() && component.info.align > 0 && self.used() + component.info.align
                + component.info.size <= usize::MAX / 2),
    {
        let limit = usize::MAX / 2;
        let used = self.arena.used_bytes();
        component.bytes.len() == component.info.size && component.info.align > 0 && used <= limit
            && component.info.align <= limit - used && component.info.size <= limit - used
            - component.info.align
    }

    /// Adds `component`, in place of the component of its type if the builder
    /// has one, which is dropped.
    pub fn add(&mut self, component: Component)
        requires
            old(self).wf(),
            component.wf(),
            component.info.align > 0,
            old(self).used() + component.info.align + component.info.size <= usize::MAX / 2,
        ensures
            final(self).wf(),
            final(self)@ == added(old(self)@, component@),
            by_id(final(self)@) == by_id(old(self)@).insert(component.info.id, component@),
            old(self).used() <= final(self).used() <= old(self).used() + component.info.align
                + component.info.size,
            final(self).used() == if old(self).holds_like(component@) {
                old(self).used()
            } else {
                (aligned_up(old(self).used(), component.info.align as nat) + component.info.size) as nat
            },
            final(self).arena_size() == if old(self).holds_like(component@) {
                old(self).arena_size()
            } else if final(self).used() > old(self).arena_size() || component.info.align > old(self).arena_align() {
                arena_for(final(self).used())
            } else {
                old(self).arena_size()
            },
            final(self).arena_align() == if old(self).holds_like(component@)
                || old(self).arena_align() > component.info.align {
                old(self).arena_align()
            } else {
                component.info.align as nat
            },
    {
        let ghost before = self@;
        let ghost view = component@;
        let ghost cursor = self.arena.used() as int;
        proof {
            self.lemma_wf();
            self.arena.lemma_wf();
            lemma_added(before, view);
        }
        match self.find(component.info.id) {
            Some(i) => {
                let entry = self.info[i];
                if entry.ty == component.info {
                    self.arena.write(entry.offset, &component.bytes);
                    proof {
                        assert forall|k: int| 0 <= k < self.info@.len() implies #[trigger] self@[k]
                            == before.update(i as int, view)[k] by {
                            if k != i {
                                let other = self.info@[k];
                                if k < i {
                                    assert(apart(self.info@[k], self.info@[i as int]));
                                } else {
                                    assert(apart(self.info@[i as int], self.info@[k]));
                                }
                                assert(self.arena.bytes().subrange(
                                    other.offset as int,
                                    other.offset + other.ty.size,
                                ) =~= old(self).arena.bytes().subrange(
                                    other.offset as int,
                                    other.offset + other.ty.size,
                                ));
                            }
                        }
                        assert(self@ =~= before.update(i as int, view));
                    }
                } else {
                    let offset = self.arena.put(&component.bytes, component.info.align);
                    self.info[i] = Entry { ty: component.info, offset };
                    proof {
                        self.arena.lemma_wf();
                        assert forall|k: int| 0 <= k < self.info@.len() implies #[trigger] self@[k]
                            == before.update(i as int, view)[k] by {
                            if k != i {
                                let other = self.info@[k];
                                assert(other == old(self).info@[k]);
                                assert(self.arena.bytes().subrange(
                                    other.offset as int,
                                    other.offset + other.ty.size,
                                ) =~= self.arena.bytes().subrange(0, cursor).subrange(
                                    other.offset as int,
                                    other.offset + other.ty.size,
                                ));
                                assert(old(self).arena.bytes().subrange(
                                    other.offset as int,
                                    other.offset + other.ty.size,
                                ) =~= old(self).arena.bytes().subrange(0, cursor).subrange(
                                    other.offset as int,
                                    other.offset + other.ty.size,
                                ));
                            }
                        }
                        assert(self@ =~= before.update(i as int, view));
                        assert forall|a: int, b: int| 0 <= a < b < self.info@.len() implies apart(
                            #[trigger] self.info@[a],
                            #[trigger] self.info@[b],
                        ) by {
                            if a != i && b != i {
                                assert(apart(old(self).info@[a], old(self).info@[b]));
                            } else if a == i {
                                assert(old(self).info@[b].offset + old(self).info@[b].ty.size <= cursor);
                            } else {
                                assert(old(self).info@[a].offset + old(self).info@[a].ty.size <= cursor);
                            }
                        }
                        assert forall|k: int| 0 <= k < self.info@.len() implies (
                        #[trigger] self.info@[k]).offset + self.info@[k].ty.size
                            <= self.arena.used() by {
                            if k != i {
                                assert(old(self).info@[k].offset + old(self).info@[k].ty.size
                                    <= cursor);
                            }
                        }
                    }
                }
            },
            None => {
                let offset = self.arena.put(&component.bytes, component.info.align);
                self.info.push(Entry { ty: component.info, offset });
                proof {
                    self.arena.lemma_wf();
                    assert forall|k: int| 0 <= k < self.info@.len() implies #[trigger] self@[k]
                        == before.push(view)[k] by {
                        if k < old(self).info@.len() {
                            let other = self.info@[k];
                            assert(other == old(self).info@[k]);
                            assert(self.arena.bytes().subrange(
                                other.offset as int,
                                other.offset + other.ty.size,
                            ) =~= self.arena.bytes().subrange(0, cursor).subrange(
                                other.offset as int,
                                other.offset + other.ty.size,
                            ));
                            assert(old(self).arena.bytes().subrange(
                                other.offset as int,
                                other.offset + other.ty.size,
                            ) =~= old(self).arena.bytes().subrange(0, cursor).subrange(
                                other.offset as int,
                                other.offset + other.ty.size,
                            ));
                        }
                    }
                    assert(self@ =~= before.push(view));
                    assert forall|a: int, b: int| 0 <= a < b < self.info@.len() implies apart(
                        #[trigger] self.info@[a],
                        #[trigger] self.info@[b],
                    ) by {
                        if b < old(self).info@.len() {
                            assert(apart(old(self).info@[a], old(self).info@[b]));
                        } else {
                            assert(old(self).info@[a].offset + old(self).info@[a].ty.size <= cursor);
                        }
                    }
                    assert forall|k: int| 0 <= k < self.info@.len() implies (
                    #[trigger] self.info@[k]).offset + self.info@[k].ty.size
                        <= self.arena.used() by {
                        if k < old(self).info@.len() {
                            assert(old(self).info@[k].offset + old(self).info@[k].ty.size <= cursor);
                        }
                    }
                }
            },
        }
    }

    /// Whether the components of `bundle` can be added: each has the size of
    /// its type and an alignment of at least one byte, and the arena can hold
    /// them.
    pub fn can_add_bundle(&self, bundle: &Bundle) -> (b: bool)
        ensures
            b == (all_sized(bundle@) && aligned(bundle@) && self.used() + footprint(bundle@)
                <= usize::MAX / 2),
    {
        let limit = usize::MAX / 2;
        let used = self.arena.used_bytes();
        if used > limit {
            return false;
        }
        let mut total: usize = used;
        let mut i: usize = 0;
        proof {
            assert(bundle@.take(0) =~= Seq::<ComponentView>::empty());
        }
        while i < bundle.components.len()
            invariant
                i <= bundle.components@.len(),
                limit == usize::MAX / 2,
                total == used + footprint(bundle@.take(i as int)),
                used == self.used(),
                total <= limit,
                forall|k: int| 0 <= k < i ==> (#[trigger] bundle@[k]).info.align > 0,
                forall|k: int|
                    0 <= k < i ==> (#[trigger] bundle@[k]).bytes.len() == bundle@[k].info.size,
            decreases bundle.components@.len() - i,
        {
            let info = bundle.components[i].info;
            proof {
                crate::command_buffer::lemma_footprint_take(bundle@, i as int);
                assert(bundle@[i as int].info == info);
            }
            if bundle.components[i].bytes.len() != info.size {
                assert(bundle@[i as int].bytes.len() != bundle@[i as int].info.size);
                return false;
            }
            if info.align == 0 {
                return false;
            }
            if info.align > limit - total {
                return false;
            }
            total = total + info.align;
            if info.size > limit - total {
                return false;
            }
            total = total + info.size;
            i = i + 1;
        }
        proof {
            assert(bundle@.take(i as int) =~= bundle@);
        }
        true
    }

    /// Adds the components of `bundle`, one after the other.
    pub fn add_bundle(&mut self, bundle: Bundle)
        requires
            old(self).wf(),
            all_sized(bundle@),
            aligned(bundle@),
            old(self).used() + footprint(bundle@) <= usize::MAX / 2,
        ensures
            final(self).wf(),
            final(self)@ == added_all(old(self)@, bundle@),
            by_id(final(self)@) == by_id(old(self)@).union_prefer_right(by_id(bundle@)),
            old(self).used() <= final(self).used() <= old(self).used() + footprint(bundle@),
    {
        let ghost given = bundle@;
        let mut list = bundle.put();
        let n = list.len();
        let mut rest: Vec<Component> = Vec::new();
        let mut j: usize = 0;
        while j < n
            invariant
                j <= n,
                n == given.len(),
                list@.len() == n - j,
                forall|k: int| 0 <= k < n - j ==> (#[trigger] list@[k])@ == given[k],
                rest@.len() == j,
                forall|k: int| 0 <= k < j ==> (#[trigger] rest@[k])@ == given[n - 1 - k],
            decreases n - j,
        {
            let component = list.pop().unwrap();
            rest.push(component);
            j = j + 1;
        }
        let mut i: usize = 0;
        proof {
            assert(given.take(0) =~= Seq::<ComponentView>::empty());
            old(self).lemma_wf();
        }
        while i < n
            invariant
                i <= n,
                n == given.len(),
                rest@.len() == n - i,
                forall|k: int| 0 <= k < n - i ==> (#[trigger] rest@[k])@ == given[n - 1 - k],
                all_sized(given),
                aligned(given),
                old(self).used() + footprint(given) <= usize::MAX / 2,
                self.wf(),
                self@ == added_all(old(self)@, given.take(i as int)),
                old(self).used() <= self.used() <= old(self).used() + footprint(given.take(i as int)),
            decreases n - i,
        {
            let component = rest.pop().unwrap();
            proof {
                assert(component@ == given[i as int]);
                assert(given[i as int].bytes.len() == given[i as int].info.size);
                assert(given[i as int].info.align > 0);
                assert(given.take(i + 1).drop_last() =~= given.take(i as int));
                assert(given.take(i + 1).last() == given[i as int]);
                crate::command_buffer::lemma_footprint_take(given, i as int);
            }
            self.add(component);
            i = i + 1;
        }
        proof {
            assert(given.take(i as int) =~= given);
            old(self).lemma_wf();
            lemma_added_all(old(self)@, given);
        }
    }

    /// Whether the builder has a component of the type with id `id`.
    pub fn has(&self, id: u64) -> (b: bool)
        requires
            self.wf(),
        ensures
            b == by_id(self@).contains_key(id),
    {
        self.find(id).is_some()
    }

    /// A copy of the bytes of the component of type `id`, if the builder has
    /// one.
    pub fn get(&self, id: u64) -> (bytes: Option<Vec<u8>>)
        requires
            self.wf(),
        ensures
            bytes is Some <==> by_id(self@).contains_key(id),
            bytes matches Some(b) ==> b@ == by_id(self@)[id].bytes,
    {
        match self.find(id) {
            Some(i) => {
                proof {
                    self.arena.lemma_wf();
                    assert(self.info@[i as int].offset + self.info@[i as int].ty.size
                        <= self.arena.used());
                }
                Some(self.arena.read(self.info[i].offset, self.info[i].ty.size))
            },
            None => None,
        }
    }

    /// The types of the components, in the order in which they were added.
    pub fn component_types(&self) -> (types: Vec<TypeInfo>)
        ensures
            types@ == infos(self@),
    {
        let mut types: Vec<TypeInfo> = Vec::new();
        let mut i: usize = 0;
        while i < self.info.len()
            invariant
                i <= self.info@.len(),
                types@.len() == i,
                forall|k: int| 0 <= k < i ==> types@[k] == self.info@[k].ty,
            decreases self.info@.len() - i,
        {
            types.push(self.info[i].ty);
            i = i + 1;
        }
        assert(types@ =~= infos(self@));
        types
    }

    /// A copy of the components, as a bundle.
    pub fn bundle(&self) -> (bundle: Bundle)
        requires
            self.wf(),
        ensures
            bundle@ == self@,
            bundle.wf(),
    {
        let mut copies: Vec<Component> = Vec::new();
        let mut i: usize = 0;
        proof {
            self.arena.lemma_wf();
        }
        while i < self.info.len()
            invariant
                i <= self.info@.len(),
                self.wf(),
                self.arena.used() <= self.arena.size(),
                copies@.len() == i,
                forall|k: int| 0 <= k < i ==> (#[trigger] copies@[k])@ == self@[k],
            decreases self.info@.len() - i,
        {
            let entry = self.info[i];
            proof {
                assert(self.info@[i as int].offset + self.info@[i as int].ty.size
                    <= self.arena.used());
            }
            let bytes = self.arena.read(entry.offset, entry.ty.size);
            copies.push(Component { info: entry.ty, bytes });
            i = i + 1;
        }
        let bundle = Bundle::from_components(copies);
        proof {
            assert(bundle@ =~= self@);
            self.lemma_wf();
        }
        bundle
    }

    /// A copy of the builder.
    pub fn duplicate(&self) -> (copy: EntityBuilder)
        requires
            self.wf(),
        ensures
            copy.wf(),
            copy@ == self@,
            copy.used() == self.used(),
    {
        let arena = self.arena.duplicate();
        let mut info: Vec<Entry> = Vec::new();
        let mut i: usize = 0;
        while i < self.info.len()
            invariant
                i <= self.info@.len(),
                info@ == self.info@.take(i as int),
            decreases self.info@.len() - i,
        {
            info.push(self.info[i]);
            proof {
                assert(self.info@.take(i + 1) =~= self.info@.take(i as int).push(self.info@[i as int]));
            }
            i = i + 1;
        }
        proof {
            assert(self.info@.take(i as int) =~= self.info@);
        }
        EntityBuilder { arena, info }
    }

    /// Hands the components over as a bundle, and leaves the builder without
    /// components. The arena stays.
    pub fn build(&mut self) -> (bundle: Bundle)
        requires
            old(self).wf(),
        ensures
            final(self).wf(),
            final(self)@ == Seq::<ComponentView>::empty(),
            final(self).used() == 0,
            final(self).arena_size() == old(self).arena_size(),
            bundle@ == old(self)@,
            bundle.wf(),
    {
        let bundle = self.bundle();
        self.clear();
        bundle
    }

    /// Drops the components. The arena stays.
    pub fn clear(&mut self)
        requires
            old(self).wf(),
        ensures
            final(self).wf(),
            final(self)@ == Seq::<ComponentView>::empty(),
            final(self).used() == 0,
            final(self).arena_size() == old(self).arena_size(),
    {
        self.arena.reset();
        self.info.clear();
        assert(self@ =~= Seq::<ComponentView>::empty());
    }
}

/// Puts the components of entities together, one after the other, for any
/// number of entities with the same components.
pub struct EntityBuilderClone {
    inner: EntityBuilder,
}

impl View for EntityBuilderClone {
    type V = Seq<ComponentView>;

    /// The components that were added, each where it was first added.
    closed spec fn view(&self) -> Seq<ComponentView> {
        self.inner@
    }
}

/// Components that can be given to any number of entities.
pub struct BuiltEntityClone {
    inner: EntityBuilder,
}

impl View for BuiltEntityClone {
    type V = Seq<ComponentView>;

    /// The components.
    closed spec fn view(&self) -> Seq<ComponentView> {
        self.inner@
    }
}

impl BuiltEntityClone {
    /// The invariant of the built components.
    pub closed spec fn wf(&self) -> bool {
        self.inner.wf()
    }

    /// What the invariant says of the components: every component has the
    /// size of its type, and no type occurs twice.
    pub proof fn lemma_wf(&self)
        requires
            self.wf(),
        ensures
            all_sized(self@),
            distinct_ids(infos(self@)),
    {
        self.inner.lemma_wf();
    }

    /// A copy of the components, as a bundle.
    pub fn bundle(&self) -> (bundle: Bundle)
        requires
            self.wf(),
        ensures
            bundle@ == self@,
            bundle.wf(),
    {
        self.inner.bundle()
    }

    /// A copy of the components, to give to other entities.
    pub fn duplicate(&self) -> (copy: BuiltEntityClone)
        requires
            self.wf(),
        ensures
            copy.wf(),
            copy@ == self@,
    {
        BuiltEntityClone { inner: self.inner.duplicate() }
    }
}

fn copy_of(component: &Component) -> (copy: Component)
    ensures
        copy@ == component@,
{
    Component { info: component.info, bytes: component.bytes.clone() }
}

impl EntityBuilderClone {
    /// The builder's invariant.
    pub closed spec fn wf(&self) -> bool {
        self.inner.wf()
    }

    /// The number of bytes of the arena that are in use.
    pub closed spec fn used(&self) -> nat {
        self.inner.used()
    }

    /// What the invariant says of the components: every component has the
    /// size of its type, and no type occurs twice.
    pub proof fn lemma_wf(&self)
        requires
            self.wf(),
        ensures
            all_sized(self@),
            distinct_ids(infos(self@)),
    {
        self.inner.lemma_wf();
    }

    /// A builder without components.
    pub fn new() -> (builder: EntityBuilderClone)
        ensures
            builder.wf(),
            builder@ == Seq::<ComponentView>::empty(),
            builder.used() == 0,
    {
        EntityBuilderClone { inner: EntityBuilder::new() }
    }

    /// Whether `component` can be added: it has the size of its type and an
    /// alignment of at least one byte, and the arena can hold it.
    pub fn can_add(&self, component: &Component) -> (b: bool)
        ensures
            b == (component.wf() && component.info.align > 0 && self.used() + component.info.align
                + component.info.size <= usize::MAX / 2),
    {
        self.inner.can_add(component)
    }

    /// Adds `component`, in place of the component of its type if the builder
    /// has one, which is dropped.
    pub fn add(&mut self, component: Component)
        requires
            old(self).wf(),
            component.wf(),
            component.info.align > 0,
            old(self).used() + component.info.align + component.info.size <= usize::MAX / 2,
        ensures
            final(self).wf(),
            final(self)@ == added(old(self)@, component@),
            by_id(final(self)@) == by_id(old(self)@).insert(component.info.id, component@),
            old(self).used() <= final(self).used() <= old(self).used() + component.info.align
                + component.info.size,
    {
        self.inner.add(component);
    }

    /// Whether the components of `bundle` can be added: each has the size of
    /// its type and an alignment of at least one byte, and the arena can hold
    /// them.
    pub fn can_add_bundle(&self, bundle: &Bundle) -> (b: bool)
        ensures
            b == (all_sized(bundle@) && aligned(bundle@) && self.used() + footprint(bundle@)
                <= usize::MAX / 2),
    {
        self.inner.can_add_bundle(bundle)
    }

    /// Adds copies of the components of `bundle`, one after the other.
    pub fn add_bundle(&mut self, bundle: &Bundle)
        requires
            old(self).wf(),
            all_sized(bundle@),
            aligned(bundle@),
            old(self).used() + footprint(bundle@) <= usize::MAX / 2,
        ensures
            final(self).wf(),
            final(self)@ == added_all(old(self)@, bundle@),
            by_id(final(self)@) == by_id(old(self)@).union_prefer_right(by_id(bundle@)),
            old(self).used() <= final(self).used() <= old(self).used() + footprint(bundle@),
    {
        let mut copies: Vec<Component> = Vec::new();
        let mut i: usize = 0;
        while i < bundle.components.len()
            invariant
                i <= bundle.components@.len(),
                copies@.len() == i,
                forall|k: int| 0 <= k < i ==> (#[trigger] copies@[k])@ == bundle@[k],
            decreases bundle.components@.len() - i,
        {
            copies.push(copy_of(&bundle.components[i]));
            i = i + 1;
        }
        let copy = Bundle::from_components(copies);
        proof {
            assert(copy@ =~= bundle@);
        }
        self.inner.add_bundle(copy);
    }

    /// Whether the builder has a component of the type with id `id`.
    pub fn has(&self, id: u64) -> (b: bool)
        requires
            self.wf(),
        ensures
            b == by_id(self@).contains_key(id),
    {
        self.inner.has(id)
    }

    /// A copy of the bytes of the component of type `id`, if the builder has
    /// one.
    pub fn get(&self, id: u64) -> (bytes: Option<Vec<u8>>)
        requires
            self.wf(),
        ensures
            bytes is Some <==> by_id(self@).contains_key(id),
            bytes matches Some(b) ==> b@ == by_id(self@)[id].bytes,
    {
        self.inner.get(id)
    }

    /// The components, to give to any number of entities.
    pub fn build(self) -> (built: BuiltEntityClone)
        requires
            self.wf(),
        ensures
            built@ == self@,
            built.wf(),
    {
        BuiltEntityClone { inner: self.inner }
    }
}

} // verus!

verus! {

/// The component types of a batch of entities.
pub struct ColumnBatchType {
    types: Vec<TypeInfo>,
}

impl View for ColumnBatchType {
    type V = Seq<TypeInfo>;

    /// The types, in the order in which they were added.
    closed spec fn view(&self) -> Seq<TypeInfo> {
        self.types@
    }
}

impl ColumnBatchType {
    /// A batch type without component types.
    pub fn new() -> (batch: ColumnBatchType)
        ensures
            batch@ == Seq::<TypeInfo>::empty(),
    {
        ColumnBatchType { types: Vec::new() }
    }

    /// Adds the type `info`, unless the batch type has a type of that id.
    pub fn add(&mut self, info: TypeInfo)
        requires
            distinct_ids(old(self)@),
        ensures
            distinct_ids(final(self)@),
            final(self)@ == if has_id(old(self)@, info.id) {
                old(self)@
            } else {
                old(self)@.push(info)
            },
    {
        let mut i: usize = 0;
        while i < self.types.len()
            invariant
                i <= self.types@.len(),
                self.types@ == old(self).types@,
                distinct_ids(self.types@),
                forall|k: int| 0 <= k < i ==> (#[trigger] self.types@[k]).id != info.id,
            decreases self.types@.len() - i,
        {
            if self.types[i].id == info.id {
                return;
            }
            i = i + 1;
        }
        self.types.push(info);
        proof {
            assert forall|a: int, b: int| 0 <= a < b < self.types@.len() implies (
            #[trigger] self.types@[a]).id != (#[trigger] self.types@[b]).id by {
                if b < old(self).types@.len() {
                    assert(old(self).types@[a].id != old(self).types@[b].id);
                }
            }
        }
    }

    /// A copy of the batch type.
    pub fn duplicate(&self) -> (copy: ColumnBatchType)
        ensures
            copy@ == self@,
    {
        let mut types: Vec<TypeInfo> = Vec::new();
        let mut i: usize = 0;
        while i < self.types.len()
            invariant
                i <= self.types@.len(),
                types@ == self.types@.take(i as int),
            decreases self.types@.len() - i,
        {
            types.push(self.types[i]);
            proof {
                assert(self.types@.take(i + 1) =~= self.types@.take(i as int).push(
                    self.types@[i as int],
                ));
            }
            i = i + 1;
        }
        proof {
            assert(self.types@.take(i as int) =~= self.types@);
        }
        ColumnBatchType { types }
    }

    /// A batch of `size` entities of these types, with empty columns to fill.
    pub fn into_batch(self, size: usize) -> (batch: ColumnBatchBuilder)
        requires
            distinct_ids(self@),
        ensures
            batch.wf(),
            batch.size() == size,
            canonical(batch.signature()),
            forall|x: TypeInfo| batch.signature().contains(x) <==> self@.contains(x),
            forall|c: int| 0 <= c < batch.signature().len() ==> (#[trigger] batch.column(c)).len() == 0,
    {
        let types = canonical_order(&self.types);
        let mut columns: Vec<Vec<Vec<u8>>> = Vec::new();
        let mut c: usize = 0;
        while c < types.len()
            invariant
                c <= types@.len(),
                columns@.len() == c,
                forall|k: int| 0 <= k < c ==> (#[trigger] columns@[k])@.len() == 0,
            decreases types@.len() - c,
        {
            columns.push(Vec::new());
            c = c + 1;
        }
        ColumnBatchBuilder { types, columns, size }
    }
}

/// A batch of entities that is filled column by column.
pub struct ColumnBatchBuilder {
    types: Vec<TypeInfo>,
    columns: Vec<Vec<Vec<u8>>>,
    size: usize,
}

/// Not every column of the batch was filled.
#[derive(Clone, Copy, Debug, PartialEq, Eq, Structural)]
pub struct BatchIncomplete {}

impl ColumnBatchBuilder {
    /// The types of the columns, in canonical order.
    pub closed spec fn signature(&self) -> Seq<TypeInfo> {
        self.types@
    }

    /// The number of entities of the batch.
    pub closed spec fn size(&self) -> nat {
        self.size as nat
    }

    /// The values that column `c` holds so far.
    pub closed spec fn column(&self, c: int) -> Seq<Seq<u8>> {
        Seq::new(self.columns@[c]@.len(), |r: int| self.columns@[c]@[r]@)
    }

    /// The batch's invariant.
    pub closed spec fn wf(&self) -> bool {
        &&& canonical(self.types@)
        &&& distinct_ids(self.types@)
        &&& self.columns@.len() == self.types@.len()
        &&& forall|c: int|
            0 <= c < self.columns@.len() ==> (#[trigger] self.columns@[c])@.len() <= self.size
        &&& forall|c: int, r: int|
            0 <= c < self.columns@.len() && 0 <= r < self.columns@[c]@.len() ==> (
            #[trigger] self.columns@[c]@[r])@.len() == self.types@[c].size
    }

    /// Adds the value `bytes` to the column of the type with id `id`. Returns
    /// whether it was added: the batch has the type, the column is not full,
    /// and the value has the size of the type.
    pub fn push(&mut self, id: u64, bytes: Vec<u8>) -> (pushed: bool)
        requires
            old(self).wf(),
        ensures
            final(self).wf(),
            final(self).signature() == old(self).signature(),
            final(self).size() == old(self).size(),
            pushed == (has_id(old(self).signature(), id) && old(self).column(
                index_of_id(old(self).signature(), id),
            ).len() < old(self).size() && bytes@.len() == old(self).signature()[index_of_id(
                old(self).signature(),
                id,
            )].size),
            forall|c: int|
                0 <= c < old(self).signature().len() ==> #[trigger] final(self).column(c) == if pushed
                    && c == index_of_id(old(self).signature(), id) {
                    old(self).column(c).push(bytes@)
                } else {
                    old(self).column(c)
                },
    {
        let mut c: usize = 0;
        while c < self.types.len()
            invariant
                c <= self.types@.len(),
                *self == *old(self),
                self.wf(),
                forall|k: int| 0 <= k < c ==> (#[trigger] self.types@[k]).id != id,
            decreases self.types@.len() - c,
        {
            if self.types[c].id == id {
                proof {
                    crate::archetype::lemma_index_of_id(self.types@, c as int);
                }
                if self.columns[c].len() < self.size && bytes.len() == self.types[c].size {
                    let ghost value = bytes@;
                    self.columns[c].push(bytes);
                    proof {
                        assert forall|k: int| 0 <= k < old(self).signature().len() implies #[trigger] self.column(
                            k,
                        ) == if k == c {
                            old(self).column(k).push(value)
                        } else {
                            old(self).column(k)
                        } by {
                            if k == c {
                                assert(self.column(k) =~= old(self).column(k).push(value));
                            } else {
                                assert(self.column(k) =~= old(self).column(k));
                            }
                        }
                    }
                    return true;
                }
                return false;
            }
            c = c + 1;
        }
        false
    }

    /// The finished batch, or the error when a column is not full.
    pub fn build(self) -> (r: Result<ColumnBatch, BatchIncomplete>)
        requires
            self.wf(),
        ensures
            r is Ok <==> forall|c: int|
                0 <= c < self.signature().len() ==> (#[trigger] self.column(c)).len() == self.size(),
            r matches Ok(batch) ==> batch.wf() && batch.signature() == self.signature()
                && batch.size() == self.size() && forall|c: int|
                0 <= c < self.signature().len() ==> #[trigger] batch.column(c) == self.column(c),
    {
        let mut c: usize = 0;
        while c < self.columns.len()
            invariant
                c <= self.columns@.len(),
                self.wf(),
                forall|k: int| 0 <= k < c ==> (#[trigger] self.column(k)).len() == self.size(),
            decreases self.columns@.len() - c,
        {
            if self.columns[c].len() != self.size {
                proof {
                    assert(self.column(c as int).len() != self.size());
                }
                return Err(BatchIncomplete {  });
            }
            c = c + 1;
        }
        let ghost before = self;
        let batch = ColumnBatch { types: self.types, columns: self.columns, size: self.size };
        proof {
            assert forall|k: int| 0 <= k < before.signature().len() implies (
            #[trigger] batch.columns@[k])@.len() == batch.size by {
                assert(before.column(k).len() == before.size());
            }
            assert forall|k: int| 0 <= k < before.signature().len() implies #[trigger] batch.column(k)
                == before.column(k) by {
                assert(batch.column(k) =~= before.column(k));
            }
        }
        Ok(batch)
    }
}

/// A batch of entities with the same component types, column by column.
pub struct ColumnBatch {
    types: Vec<TypeInfo>,
    columns: Vec<Vec<Vec<u8>>>,
    size: usize,
}

impl ColumnBatch {
    /// The types of the columns, in canonical order.
    pub closed spec fn signature(&self) -> Seq<TypeInfo> {
        self.types@
    }

    /// The number of entities of the batch.
    pub closed spec fn size(&self) -> nat {
        self.size as nat
    }

    /// The values of column `c`, one for each entity.
    pub closed spec fn column(&self, c: int) -> Seq<Seq<u8>> {
        Seq::new(self.columns@[c]@.len(), |r: int| self.columns@[c]@[r]@)
    }

    /// The batch's invariant.
    pub closed spec fn wf(&self) -> bool {
        &&& canonical(self.types@)
        &&& distinct_ids(self.types@)
        &&& self.columns@.len() == self.types@.len()
        &&& forall|c: int|
            0 <= c < self.columns@.len() ==> (#[trigger] self.columns@[c])@.len() == self.size
        &&& forall|c: int, r: int|
            0 <= c < self.columns@.len() && 0 <= r < self.size ==> (
            #[trigger] self.columns@[c]@[r])@.len() == self.types@[c].size
    }

    /// The components of entity `r` of the batch, by type id.
    pub open spec fn row(&self, r: int) -> Map<u64, ComponentView> {
        Map::new(
            |id: u64| has_id(self.signature(), id),
            |id: u64|
                ComponentView {
                    info: self.signature()[index_of_id(self.signature(), id)],
                    bytes: self.column(index_of_id(self.signature(), id))[r],
                },
        )
    }

    /// The entities of the batch, each by its components.
    pub open spec fn rows(&self) -> Seq<Map<u64, ComponentView>> {
        Seq::new(self.size(), |r: int| self.row(r))
    }

    /// What the invariant says of the types.
    pub proof fn lemma_wf(&self)
        requires
            self.wf(),
        ensures
            canonical(self.signature()),
            distinct_ids(self.signature()),
    {
    }

    /// The number of entities of the batch.
    pub fn len(&self) -> (n: usize)
        ensures
            n == self.size(),
    {
        self.size
    }

    /// The types of the columns, in canonical order.
    pub fn types(&self) -> (types: &Vec<TypeInfo>)
        ensures
            types@ == self.signature(),
    {
        &self.types
    }

    /// Copies of the components of entity `r` of the batch, in canonical order.
    pub fn row_components(&self, r: usize) -> (components: Vec<Component>)
        requires
            self.wf(),
            r < self.size(),
        ensures
            infos(views(components@)) == self.signature(),
            by_id(views(components@)) == self.row(r as int),
            forall|i: int| 0 <= i < components@.len() ==> (#[trigger] components@[i]).wf(),
    {
        let mut components: Vec<Component> = Vec::new();
        let mut c: usize = 0;
        while c < self.types.len()
            invariant
                c <= self.types@.len(),
                self.wf(),
                r < self.size,
                components@.len() == c,
                forall|k: int|
                    0 <= k < c ==> (#[trigger] components@[k]).info == self.types@[k]
                        && components@[k].bytes@ == self.columns@[k]@[r as int]@,
            decreases self.types@.len() - c,
        {
            let bytes = self.columns[c][r].clone();
            components.push(Component { info: self.types[c], bytes });
            c = c + 1;
        }
        proof {
            let all = views(components@);
            assert(infos(all) =~= self.types@);
            crate::component::lemma_by_id_domain(all);
            assert forall|id: u64| by_id(all).contains_key(id) implies #[trigger] by_id(all)[id]
                == self.row(r as int)[id] by {
                let k = index_of_id(self.types@, id);
                assert(self.types@[k].id == id);
                assert(infos(all)[k] == all[k].info);
                crate::component::lemma_by_id_distinct(all, k);
            }
            assert(by_id(all) =~= self.row(r as int));
        }
        components
    }
}

} // verus!

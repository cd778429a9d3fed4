//! A buffer that records changes to a store, to apply them later.

use crate::arena::aligned_up;
use crate::arena::arena_for;
use crate::arena::Arena;
use crate::component::all_sized;
use crate::component::by_id;
use crate::component::canonical;
use crate::component::canonical_order;
use crate::component::distinct_ids;
use crate::component::infos;
use crate::component::precedes;
use crate::component::views;
use crate::component::Bundle;
use crate::component::Component;
use crate::component::ComponentView;
use crate::component::TypeInfo;
use crate::entity::Entity;
use crate::frame::Frame;
use vstd::arithmetic::power2::is_pow2;
use vstd::prelude::*;

verus! {

/// One recorded change.
pub enum Command {
    /// Spawn an entity with these components.
    Spawn(Seq<ComponentView>),
    /// Give these components to the entity, if it lives.
    Insert(Entity, Seq<ComponentView>),
    /// Take the components of these types from the entity, if it has them all.
    Remove(Entity, Seq<u64>),
    /// Despawn the entity, if it lives.
    Despawn(Entity),
}

/// The bytes that a component may take in the buffer's arena: its size, and the
/// padding that aligns it.
pub open spec fn footprint(s: Seq<ComponentView>) -> nat
    decreases s.len(),
{
    if s.len() == 0 {
        0
    } else {
        footprint(s.drop_last()) + s.last().info.align as nat + s.last().info.size as nat
    }
}

/// Where the arena is in use up to: from `start`, each component of `s` is put
/// at the next multiple of its alignment.
pub open spec fn laid_out(start: nat, s: Seq<ComponentView>) -> nat
    decreases s.len(),
{
    if s.len() == 0 {
        start
    } else {
        aligned_up(laid_out(start, s.drop_last()), s.last().info.align as nat)
            + s.last().info.size as nat
    }
}

/// The size and the alignment of the arena after the components of `s` were
/// put into it, one after the other, from `cursor` on: the arena is made anew,
/// for the bytes in use, whenever a component does not fit or is aligned more
/// strictly than the arena.
pub open spec fn arena_after(size: nat, align: nat, cursor: nat, s: Seq<ComponentView>) -> (nat, nat)
    decreases s.len(),
{
    if s.len() == 0 {
        (size, align)
    } else {
        let before = arena_after(size, align, cursor, s.drop_last());
        let end = laid_out(cursor, s);
        if end > before.0 || s.last().info.align > before.1 {
            (
                arena_for(end),
                if before.1 > s.last().info.align {
                    before.1
                } else {
                    s.last().info.align as nat
                },
            )
        } else {
            before
        }
    }
}

/// Every component has an alignment of at least one byte.
pub open spec fn aligned(s: Seq<ComponentView>) -> bool {
    forall|i: int| 0 <= i < s.len() ==> (#[trigger] s[i]).info.align > 0
}

/// The footprint of the first components is no more than that of all.
pub proof fn lemma_footprint_take(s: Seq<ComponentView>, i: int)
    requires
        0 <= i < s.len(),
    ensures
        footprint(s.take(i + 1)) == footprint(s.take(i)) + s[i].info.align + s[i].info.size,
        footprint(s.take(i + 1)) <= footprint(s),
    decreases s.len() - i,
{
    assert(s.take(i + 1).drop_last() =~= s.take(i));
    assert(s.take(i + 1).last() == s[i]);
    if i + 1 < s.len() {
        lemma_footprint_take(s, i + 1);
        assert(footprint(s.take(i + 2)) >= footprint(s.take(i + 1)));
    } else {
        assert(s.take(i + 1) =~= s);
    }
}

/// A recorded component: its type, and where its bytes start in the arena.
#[derive(Clone, Copy)]
struct ComponentInfo {
    ty: TypeInfo,
    offset: usize,
}

/// A recorded spawn or insert: the entity, if one was named, and the positions
/// of its components among the recorded ones.
struct EntityIndex {
    entity: Option<Entity>,
    start: usize,
    end: usize,
}

/// A recorded removal: the ids of the types to take, and the entity.
struct RemovedComps {
    ids: Vec<u64>,
    entity: Entity,
}

enum Cmd {
    SpawnOrInsert(EntityIndex),
    Remove(RemovedComps),
    Despawn(Entity),
}

spec fn view_of(storage: Seq<u8>, c: ComponentInfo) -> ComponentView {
    ComponentView { info: c.ty, bytes: storage.subrange(c.offset as int, c.offset + c.ty.size) }
}

spec fn views_of(storage: Seq<u8>, cs: Seq<ComponentInfo>) -> Seq<ComponentView> {
    cs.map_values(|c: ComponentInfo| view_of(storage, c))
}

spec fn command_of(storage: Seq<u8>, components: Seq<ComponentInfo>, cmd: Cmd) -> Command {
    match cmd {
        Cmd::SpawnOrInsert(index) => {
            let recorded = views_of(storage, components.subrange(index.start as int, index.end as int));
            match index.entity {
                Some(e) => Command::Insert(e, recorded),
                None => Command::Spawn(recorded),
            }
        },
        Cmd::Remove(removed) => Command::Remove(removed.entity, removed.ids@),
        Cmd::Despawn(e) => Command::Despawn(e),
    }
}

/// Records operations on a store, to apply them later in the order in which
/// they were recorded.
///
/// The bytes of the recorded components lie in one arena, each at an offset
/// that is a multiple of its type's alignment. The arena grows to the next
/// power of two, and to 64 bytes at least, and is kept when the buffer is
/// emptied.
pub struct CommandBuffer {
    cmds: Vec<Cmd>,
    arena: Arena,
    components: Vec<ComponentInfo>,
}

impl View for CommandBuffer {
    type V = Seq<Command>;

    /// The recorded commands, oldest first.
    closed spec fn view(&self) -> Seq<Command> {
        self.cmds@.map_values(|cmd: Cmd| command_of(self.arena.bytes(), self.components@, cmd))
    }
}

impl CommandBuffer {
    /// The number of bytes of the arena that are in use.
    pub closed spec fn used(&self) -> nat {
        self.arena.used()
    }

    /// The size of the arena, in bytes.
    pub closed spec fn arena_size(&self) -> nat {
        self.arena.size()
    }

    /// The alignment of the arena, in bytes.
    pub closed spec fn arena_align(&self) -> nat {
        self.arena.alignment()
    }

    spec fn arena_wf(&self) -> bool {
        &&& self.arena.wf()
        &&& forall|k: int|
            0 <= k < self.components@.len() ==> {
                let c = #[trigger] self.components@[k];
                &&& c.offset + c.ty.size <= self.arena.used()
                &&& c.ty.align > 0
                &&& c.offset % c.ty.align == 0
                &&& c.ty.align <= self.arena.alignment()
            }
    }

    spec fn cmds_wf(&self) -> bool {
        forall|i: int|
            0 <= i < self.cmds@.len() ==> (#[trigger] self.cmds@[i] matches Cmd::SpawnOrInsert(index)
                ==> {
                &&& index.start <= index.end <= self.components@.len()
                &&& distinct_ids(
                    infos(
                        views_of(
                            self.arena.bytes(),
                            self.components@.subrange(index.start as int, index.end as int),
                        ),
                    ),
                )
            })
    }

    /// The buffer's invariant.
    pub closed spec fn wf(&self) -> bool {
        &&& self.arena_wf()
        &&& self.cmds_wf()
    }

    /// What the invariant says of the arena and of the recorded components.
    pub proof fn lemma_wf(&self)
        requires
            self.wf(),
        ensures
            self.used() <= self.arena_size(),
            self.arena_size() == 0 || (is_pow2(self.arena_size() as int) && self.arena_size() >= 64),
            forall|i: int|
                0 <= i < self@.len() ==> (#[trigger] self@[i] matches Command::Insert(_, recorded)
                    ==> all_sized(recorded) && distinct_ids(infos(recorded))),
            forall|i: int|
                0 <= i < self@.len() ==> (#[trigger] self@[i] matches Command::Spawn(recorded)
                    ==> all_sized(recorded) && distinct_ids(infos(recorded))),
    {
        self.arena.lemma_wf();
        assert forall|i: int| 0 <= i < self@.len() implies (#[trigger] self@[i] matches Command::Insert(
            _,
            recorded,
        ) ==> all_sized(recorded) && distinct_ids(infos(recorded))) && (self@[i] matches Command::Spawn(
            recorded,
        ) ==> all_sized(recorded) && distinct_ids(infos(recorded))) by {
            match self.cmds@[i] {
                Cmd::SpawnOrInsert(index) => {
                    self.lemma_recorded_sized(index.start as int, index.end as int);
                },
                _ => {},
            }
        }
    }

    /// The recorded components have the sizes of their types.
    proof fn lemma_recorded_sized(&self, start: int, end: int)
        requires
            self.arena_wf(),
            0 <= start <= end <= self.components@.len(),
        ensures
            all_sized(views_of(self.arena.bytes(), self.components@.subrange(start, end))),
    {
        let recorded = views_of(self.arena.bytes(), self.components@.subrange(start, end));
        self.arena.lemma_wf();
        assert forall|i: int| 0 <= i < recorded.len() implies (#[trigger] recorded[i]).bytes.len()
            == recorded[i].info.size by {
            let c = self.components@[start + i];
            assert(self.components@.subrange(start, end)[i] == c);
        }
    }

    /// An empty buffer, with an arena of no bytes.
    pub fn new() -> (buffer: CommandBuffer)
        ensures
            buffer.wf(),
            buffer@ == Seq::<Command>::empty(),
            buffer.used() == 0,
            buffer.recorded_count() == 0,
            buffer.arena_size() == 0,
            buffer.arena_align() == 8,
    {
        let buffer = CommandBuffer {
            cmds: Vec::new(),
            arena: Arena::new(),
            components: Vec::new(),
        };
        assert(buffer@ =~= Seq::<Command>::empty());
        buffer
    }

    /// Records one component: its bytes go into the arena, at the next offset
    /// that its alignment allows. The arena grows when it is too small or not
    /// aligned enough.
    fn add_inner(&mut self, bytes: &Vec<u8>, ty: TypeInfo)
        requires
            old(self).arena_wf(),
            bytes@.len() == ty.size,
            ty.align > 0,
            old(self).arena.used() + ty.align + ty.size <= usize::MAX / 2,
        ensures
            final(self).arena_wf(),
            final(self).cmds == old(self).cmds,
            final(self).components@.len() == old(self).components@.len() + 1,
            final(self).components@.drop_last() == old(self).components@,
            view_of(final(self).arena.bytes(), final(self).components@.last()) == (ComponentView {
                info: ty,
                bytes: bytes@,
            }),
            forall|k: int|
                0 <= k < old(self).components@.len() ==> view_of(
                    final(self).arena.bytes(),
                    #[trigger] old(self).components@[k],
                ) == view_of(old(self).arena.bytes(), old(self).components@[k]),
            old(self).arena.used() <= final(self).arena.used() <= old(self).arena.used() + ty.align
                + ty.size,
            final(self).arena.used() == aligned_up(old(self).arena.used(), ty.align as nat) + ty.size,
            final(self).arena.size() == if final(self).arena.used() > old(self).arena.size()
                || ty.align > old(self).arena.alignment() {
                arena_for(final(self).arena.used())
            } else {
                old(self).arena.size()
            },
            final(self).arena.alignment() == if old(self).arena.alignment() > ty.align {
                old(self).arena.alignment()
            } else {
                ty.align as nat
            },
    {
        let offset = self.arena.put(bytes, ty.align);
        self.components.push(ComponentInfo { ty, offset });
        proof {
            let cursor = old(self).arena.used() as int;
            old(self).arena.lemma_wf();
            self.arena.lemma_wf();
            assert(self.components@.drop_last() =~= old(self).components@);
            assert forall|k: int| 0 <= k < old(self).components@.len() implies view_of(
                self.arena.bytes(),
                #[trigger] old(self).components@[k],
            ) == view_of(old(self).arena.bytes(), old(self).components@[k]) by {
                let c = old(self).components@[k];
                assert(self.arena.bytes().subrange(c.offset as int, c.offset + c.ty.size)
                    =~= self.arena.bytes().subrange(0, cursor).subrange(
                    c.offset as int,
                    c.offset + c.ty.size,
                ));
                assert(old(self).arena.bytes().subrange(c.offset as int, c.offset + c.ty.size) =~= old(
                    self,
                ).arena.bytes().subrange(0, cursor).subrange(c.offset as int, c.offset + c.ty.size));
            }
            assert forall|k: int| 0 <= k < self.components@.len() implies {
                let c = #[trigger] self.components@[k];
                &&& c.offset + c.ty.size <= self.arena.used()
                &&& c.ty.align > 0
                &&& c.offset % c.ty.align == 0
                &&& c.ty.align <= self.arena.alignment()
            } by {
                if k < old(self).components@.len() {
                    assert(self.components@[k] == old(self).components@[k]);
                }
            }
        }
    }
}

} // verus!

verus! {

broadcast use vstd::seq_lib::group_to_multiset_ensures;

/// The number of spawns among the commands from position `from` on.
pub open spec fn spawns_from(commands: Seq<Command>, from: int) -> nat
    decreases commands.len() - from,
{
    if from < 0 || from >= commands.len() {
        0
    } else if commands[from] is Spawn {
        1 + spawns_from(commands, from + 1)
    } else {
        spawns_from(commands, from + 1)
    }
}

/// The store `after` is the store `before` with `command` applied to it, as the
/// operation of the store that the command stands for applies it.
pub open spec fn applied(before: Frame, command: Command, after: Frame) -> bool {
    &&& after.wf()
    &&& after.unborrowed()
    &&& after.reserved() == Set::<Entity>::empty()
    &&& after.keeps_archetypes(&before)
    &&& match command {
        Command::Spawn(components) => crate::frame::spawn_step(
            before,
            by_id(components),
            before.next_entity(),
            after,
        ),
        Command::Insert(e, components) => if before.flushed().contains_key(e) {
            &&& after@ == before.flushed().insert(
                e,
                before.flushed()[e].union_prefer_right(by_id(components)),
            )
            &&& after.ids_kept(&before)
            &&& after.rows_exchanged(&before, e)
            &&& after.archetypes_after(&before, after@[e])
        } else {
            &&& after@ == before.flushed()
            &&& after.ids_kept(&before)
            &&& after.rows_kept(&before)
            &&& after.archetype_seq().len() == before.archetype_seq().len()
        },
        Command::Remove(e, ids) => if before.flushed().contains_key(e) && forall|i: int|
            0 <= i < ids.len() ==> before.flushed()[e].contains_key(#[trigger] ids[i]) {
            &&& after@ == before.flushed().insert(e, before.flushed()[e].remove_keys(ids.to_set()))
            &&& after.ids_kept(&before)
            &&& after.rows_exchanged(&before, e)
            &&& after.archetypes_after(&before, after@[e])
        } else {
            &&& after@ == before.flushed()
            &&& after.ids_kept(&before)
            &&& after.rows_kept(&before)
            &&& after.archetype_seq().len() == before.archetype_seq().len()
        },
        Command::Despawn(e) => if before.flushed().contains_key(e) {
            &&& after@ == before.flushed().remove(e)
            &&& after.ids_after_despawn(&before, e)
            &&& after.row_removed(&before, before.flushed_location(e))
            &&& after.archetype_seq().len() == before.archetype_seq().len()
        } else {
            &&& after@ == before.flushed()
            &&& after.ids_kept(&before)
            &&& after.rows_kept(&before)
            &&& after.archetype_seq().len() == before.archetype_seq().len()
        },
    }
}

/// The store `end` is the store `start` with `commands` applied to it, one
/// after the other.
pub open spec fn replayed(start: Frame, commands: Seq<Command>, end: Frame) -> bool
    decreases commands.len(),
{
    if commands.len() == 0 {
        end == start
    } else {
        exists|mid: Frame|
            #![trigger applied(mid, commands.last(), end)]
            replayed(start, commands.drop_last(), mid) && applied(mid, commands.last(), end)
    }
}

/// Commands are replayed once all but the last are, and the last is applied to
/// what they gave.
pub proof fn lemma_replayed_step(start: Frame, commands: Seq<Command>, mid: Frame, end: Frame)
    requires
        commands.len() > 0,
        replayed(start, commands.drop_last(), mid),
        applied(mid, commands.last(), end),
    ensures
        replayed(start, commands, end),
{
}

impl CommandBuffer {
    /// The components recorded at the positions from `start` to `end`.
    pub closed spec fn recorded(&self, start: int, end: int) -> Seq<ComponentView> {
        views_of(self.arena.bytes(), self.components@.subrange(start, end))
    }

    /// The number of recorded components.
    pub closed spec fn recorded_count(&self) -> nat {
        self.components@.len()
    }

    /// A buffer that has the recorded components of `before` where `before` has
    /// them, and its commands, has its view and its invariant that far.
    proof fn lemma_kept(&self, before: &CommandBuffer)
        requires
            before.cmds_wf(),
            before.cmds@.len() <= self.cmds@.len(),
            forall|i: int| 0 <= i < before.cmds@.len() ==> self.cmds@[i] == before.cmds@[i],
            before.components@.len() <= self.components@.len(),
            forall|k: int|
                0 <= k < before.components@.len() ==> self.components@[k] == before.components@[k],
            forall|k: int|
                0 <= k < before.components@.len() ==> view_of(
                    self.arena.bytes(),
                    #[trigger] before.components@[k],
                ) == view_of(before.arena.bytes(), before.components@[k]),
        ensures
            forall|i: int|
                0 <= i < before.cmds@.len() ==> command_of(
                    self.arena.bytes(),
                    self.components@,
                    #[trigger] self.cmds@[i],
                ) == command_of(before.arena.bytes(), before.components@, before.cmds@[i]),
            forall|i: int|
                0 <= i < before.cmds@.len() ==> (#[trigger] self.cmds@[i] matches Cmd::SpawnOrInsert(
                    index,
                ) ==> {
                    &&& index.start <= index.end <= self.components@.len()
                    &&& distinct_ids(
                        infos(
                            views_of(
                                self.arena.bytes(),
                                self.components@.subrange(index.start as int, index.end as int),
                            ),
                        ),
                    )
                }),
    {
        assert forall|i: int| 0 <= i < before.cmds@.len() implies command_of(
            self.arena.bytes(),
            self.components@,
            #[trigger] self.cmds@[i],
        ) == command_of(before.arena.bytes(), before.components@, before.cmds@[i]) && (
        self.cmds@[i] matches Cmd::SpawnOrInsert(index) ==> {
            &&& index.start <= index.end <= self.components@.len()
            &&& distinct_ids(
                infos(
                    views_of(
                        self.arena.bytes(),
                        self.components@.subrange(index.start as int, index.end as int),
                    ),
                ),
            )
        }) by {
            match before.cmds@[i] {
                Cmd::SpawnOrInsert(index) => {
                    let a = self.components@.subrange(index.start as int, index.end as int);
                    let b = before.components@.subrange(index.start as int, index.end as int);
                    assert(a =~= b);
                    assert forall|k: int| 0 <= k < b.len() implies view_of(self.arena.bytes(), b[k])
                        == view_of(before.arena.bytes(), b[k]) by {
                        assert(b[k] == before.components@[index.start + k]);
                    }
                    assert(views_of(self.arena.bytes(), a) =~= views_of(before.arena.bytes(), b));
                },
                _ => {},
            }
        }
    }

    /// Puts the recorded components from position `first` on in canonical
    /// order.
    fn sort_tail(&mut self, first: usize)
        requires
            old(self).arena_wf(),
            first <= old(self).components@.len(),
            distinct_ids(infos(old(self).recorded(first as int, old(self).components@.len() as int))),
        ensures
            final(self).arena_wf(),
            final(self).cmds == old(self).cmds,
            final(self).arena == old(self).arena,
            final(self).components@.len() == old(self).components@.len(),
            forall|k: int| 0 <= k < first ==> final(self).components@[k] == old(self).components@[k],
            canonical(infos(final(self).recorded(first as int, final(self).components@.len() as int))),
            final(self).recorded(first as int, final(self).components@.len() as int).to_multiset()
                == old(self).recorded(first as int, old(self).components@.len() as int).to_multiset(),
    {
        let n = self.components.len();
        let ghost storage = self.arena.bytes();
        let ghost tail = self.components@.subrange(first as int, n as int);
        let ghost tys = tail.map_values(|c: ComponentInfo| c.ty);
        let ghost entry_of = |t: TypeInfo| tail[crate::component::index_of_id(tys, t.id)];
        let ghost view = |c: ComponentInfo| view_of(storage, c);
        let mut types: Vec<TypeInfo> = Vec::new();
        let mut k: usize = first;
        while k < n
            invariant
                first <= k <= n,
                n == self.components@.len(),
                *self == *old(self),
                tail == self.components@.subrange(first as int, n as int),
                tys == tail.map_values(|c: ComponentInfo| c.ty),
                types@ == tys.take(k - first),
            decreases n - k,
        {
            types.push(self.components[k].ty);
            proof {
                assert(tys.take(k - first + 1) =~= tys.take(k - first).push(tys[k - first]));
            }
            k = k + 1;
        }
        proof {
            assert(tys.take(n - first) =~= tys);
            assert(tys =~= infos(views_of(storage, tail)));
        }
        let sorted = canonical_order(&types);
        proof {
            assert forall|m: int| 0 <= m < tys.len() implies entry_of(#[trigger] tys[m]) == tail[m] by {
                crate::archetype::lemma_index_of_id(tys, m);
            }
            assert(tail =~= tys.map_values(entry_of));
        }
        let mut arranged: Vec<ComponentInfo> = Vec::new();
        let mut j: usize = 0;
        proof {
            assert(sorted@.take(0).map_values(entry_of) =~= arranged@);
        }
        while j < sorted.len()
            invariant
                j <= sorted@.len(),
                n == self.components@.len(),
                first <= n,
                *self == *old(self),
                self.arena_wf(),
                tail == self.components@.subrange(first as int, n as int),
                tys == tail.map_values(|c: ComponentInfo| c.ty),
                entry_of == |t: TypeInfo| tail[crate::component::index_of_id(tys, t.id)],
                distinct_ids(tys),
                forall|x: TypeInfo| sorted@.contains(x) <==> tys.contains(x),
                arranged@ == sorted@.take(j as int).map_values(entry_of),
                forall|m: int| 0 <= m < j ==> (#[trigger] arranged@[m]).ty == sorted@[m],
                forall|m: int|
                    0 <= m < j ==> {
                        let c = #[trigger] arranged@[m];
                        &&& c.offset + c.ty.size <= self.arena.used()
                        &&& c.ty.align > 0
                        &&& c.offset % c.ty.align == 0
                        &&& c.ty.align <= self.arena.alignment()
                    },
            decreases sorted@.len() - j,
        {
            let wanted = sorted[j];
            let ghost at = choose|m: int| 0 <= m < tys.len() && tys[m] == wanted;
            proof {
                assert(sorted@.contains(wanted));
                assert(tys.contains(wanted));
                crate::archetype::lemma_index_of_id(tys, at);
            }
            let mut k: usize = first;
            while k < n && self.components[k].ty.id != wanted.id
                invariant
                    first <= k <= first + at < n,
                    n == self.components@.len(),
                    tail == self.components@.subrange(first as int, n as int),
                    tys == tail.map_values(|c: ComponentInfo| c.ty),
                    tys[at].id == wanted.id,
                    forall|m: int| first <= m < k ==> (#[trigger] self.components@[m]).ty.id != wanted.id,
                decreases n - k,
            {
                proof {
                    assert(tail[at] == self.components@[first + at]);
                }
                k = k + 1;
            }
            proof {
                assert(tail[at] == self.components@[first + at]);
                assert(tail[k - first] == self.components@[k as int]);
                assert(tys[k - first].id == wanted.id);
                if k - first < at {
                    assert(tys[k - first].id != tys[at].id);
                } else if at < k - first {
                    assert(tys[at].id != tys[k - first].id);
                }
                assert(sorted@.take(j + 1) =~= sorted@.take(j as int).push(wanted));
            }
            arranged.push(self.components[k]);
            proof {
                assert(arranged@ =~= sorted@.take(j + 1).map_values(entry_of));
            }
            j = j + 1;
        }
        let ghost ordered = arranged@;
        self.components.truncate(first);
        self.components.append(&mut arranged);
        proof {
            assert(sorted@.take(sorted@.len() as int) =~= sorted@);
            assert(self.components@.subrange(first as int, n as int) =~= ordered);
            crate::component::lemma_map_multiset(sorted@, tys, entry_of);
            crate::component::lemma_map_multiset(ordered, tail, view);
            assert(views_of(storage, ordered) =~= ordered.map_values(view));
            assert(views_of(storage, tail) =~= tail.map_values(view));
            assert(infos(views_of(storage, ordered)) =~= sorted@);
            assert forall|m: int| 0 <= m < self.components@.len() implies {
                let c = #[trigger] self.components@[m];
                &&& c.offset + c.ty.size <= self.arena.used()
                &&& c.ty.align > 0
                &&& c.offset % c.ty.align == 0
                &&& c.ty.align <= self.arena.alignment()
            } by {
                if m < first {
                    assert(self.components@[m] == old(self).components@[m]);
                } else {
                    assert(self.components@[m] == ordered[m - first]);
                }
            }
        }
    }

    /// Records the components of `components`, in canonical order, for a spawn
    /// or, where an entity is named, for an insert.
    fn record(&mut self, entity: Option<Entity>, components: Bundle)
        requires
            old(self).wf(),
            components.wf(),
            aligned(components@),
            old(self).used() + footprint(components@) <= usize::MAX / 2,
        ensures
            final(self).wf(),
            final(self)@.len() == old(self)@.len() + 1,
            final(self)@.drop_last() == old(self)@,
            entity matches Some(e) ==> (final(self)@.last() matches Command::Insert(x, recorded) && x == e
                && canonical(infos(recorded)) && recorded.to_multiset()
                == components@.to_multiset()),
            entity is None ==> (final(self)@.last() matches Command::Spawn(recorded) && canonical(
                infos(recorded),
            ) && recorded.to_multiset() == components@.to_multiset()),
            old(self).used() <= final(self).used() <= old(self).used() + footprint(components@),
            final(self).used() == laid_out(old(self).used(), components@),
            (final(self).arena_size(), final(self).arena_align()) == arena_after(
                old(self).arena_size(),
                old(self).arena_align(),
                old(self).used(),
                components@,
            ),
    {
        let first = self.components.len();
        let ghost given = components@;
        let list = components.put();
        let mut i: usize = 0;
        proof {
            assert(self.recorded(first as int, first as int) =~= given.take(0));
        }
        while i < list.len()
            invariant
                i <= list@.len(),
                given == views(list@),
                all_sized(given),
                aligned(given),
                old(self).wf(),
                old(self).arena.used() + footprint(given) <= usize::MAX / 2,
                first == old(self).components@.len(),
                self.arena_wf(),
                self.cmds == old(self).cmds,
                self.components@.len() == first + i,
                forall|k: int| 0 <= k < first ==> self.components@[k] == old(self).components@[k],
                forall|k: int|
                    0 <= k < first ==> view_of(self.arena.bytes(), #[trigger] old(self).components@[k])
                        == view_of(old(self).arena.bytes(), old(self).components@[k]),
                self.recorded(first as int, first + i) == given.take(i as int),
                old(self).arena.used() <= self.arena.used() <= old(self).arena.used() + footprint(given.take(i as int)),
                self.arena.used() == laid_out(old(self).arena.used() as nat, given.take(i as int)),
                (self.arena.bytes().len(), self.arena.alignment() as nat) == arena_after(
                    old(self).arena.bytes().len(),
                    old(self).arena.alignment() as nat,
                    old(self).arena.used() as nat,
                    given.take(i as int),
                ),
            decreases list@.len() - i,
        {
            let ghost before = *self;
            proof {
                lemma_footprint_take(given, i as int);
                assert(given[i as int].bytes.len() == given[i as int].info.size);
                assert(given[i as int].info.align > 0);
                assert(given.take(i + 1).drop_last() =~= given.take(i as int));
                assert(given.take(i + 1).last() == given[i as int]);
            }
            self.add_inner(&list[i].bytes, list[i].info);
            proof {
                assert(self.components@[first + i] == self.components@.last());
                assert forall|k: int| 0 <= k < first + i implies self.components@[k]
                    == before.components@[k] by {
                    assert(self.components@.drop_last()[k] == before.components@[k]);
                }
                let now = self.recorded(first as int, first + i + 1);
                assert forall|k: int| 0 <= k < i + 1 implies now[k] == given.take(i + 1)[k] by {
                    if k < i {
                        assert(before.recorded(first as int, first + i)[k] == given.take(i as int)[k]);
                        assert(self.components@[first + k] == before.components@[first + k]);
                    }
                }
                assert(now =~= given.take(i + 1));
            }
            i = i + 1;
        }
        proof {
            assert(given.take(i as int) =~= given);
        }
        self.sort_tail(first);
        let end = self.components.len();
        self.cmds.push(Cmd::SpawnOrInsert(EntityIndex { entity, start: first, end }));
        proof {
            assert forall|k: int| 0 <= k < first implies view_of(
                self.arena.bytes(),
                #[trigger] old(self).components@[k],
            ) == view_of(old(self).arena.bytes(), old(self).components@[k]) by {}
            self.lemma_kept(old(self));
            let recorded = self.recorded(first as int, end as int);
            lemma_distinct_kept(given, recorded);
            assert(self@.drop_last() =~= old(self)@);
        }
    }
}

/// Components that are, counted, those of a sequence of distinct ids in
/// canonical order have distinct ids too.
proof fn lemma_distinct_kept(given: Seq<ComponentView>, recorded: Seq<ComponentView>)
    requires
        distinct_ids(infos(given)),
        canonical(infos(recorded)),
        recorded.to_multiset() == given.to_multiset(),
    ensures
        distinct_ids(infos(recorded)),
{
    assert forall|i: int, j: int| 0 <= i < j < recorded.len() implies (#[trigger] infos(
        recorded,
    )[i]).id != (#[trigger] infos(recorded)[j]).id by {
        assert(recorded.contains(recorded[i]));
        assert(recorded.contains(recorded[j]));
        vstd::seq_lib::to_multiset_contains(recorded, recorded[i]);
        vstd::seq_lib::to_multiset_contains(given, recorded[i]);
        vstd::seq_lib::to_multiset_contains(recorded, recorded[j]);
        vstd::seq_lib::to_multiset_contains(given, recorded[j]);
        let a = choose|a: int| 0 <= a < given.len() && given[a] == recorded[i];
        let b = choose|b: int| 0 <= b < given.len() && given[b] == recorded[j];
        assert(precedes(infos(recorded)[i], infos(recorded)[j]));
        if a < b {
            assert(infos(given)[a].id != infos(given)[b].id);
        } else if b < a {
            assert(infos(given)[b].id != infos(given)[a].id);
        }
    }
}

} // verus!

verus! {

impl CommandBuffer {
    /// The number of bytes of the arena that are in use.
    pub fn used_bytes(&self) -> (n: usize)
        ensures
            n == self.used(),
    {
        self.arena.used_bytes()
    }

    /// The size of the arena, in bytes.
    pub fn arena_bytes(&self) -> (n: usize)
        ensures
            n == self.arena_size(),
    {
        self.arena.size_bytes()
    }

    /// The number of recorded commands.
    pub fn len(&self) -> (n: usize)
        ensures
            n == self@.len(),
    {
        self.cmds.len()
    }

    /// Whether `components` can be recorded: they make a bundle that an entity
    /// can be given, each has an alignment of at least one byte, and the arena
    /// can hold them.
    pub fn can_record(&self, components: &Bundle) -> (b: bool)
        ensures
            b == (components.wf() && aligned(components@) && self.used() + footprint(components@)
                <= usize::MAX / 2),
    {
        if !components.is_valid() {
            return false;
        }
        let limit = usize::MAX / 2;
        let used = self.arena.used_bytes();
        if used > limit {
            return false;
        }
        let mut total: usize = used;
        let mut i: usize = 0;
        proof {
            assert(components@.take(0) =~= Seq::<ComponentView>::empty());
        }
        while i < components.components.len()
            invariant
                i <= components.components@.len(),
                limit == usize::MAX / 2,
                total == self.arena.used() + footprint(components@.take(i as int)),
                total <= limit,
                forall|k: int| 0 <= k < i ==> (#[trigger] components@[k]).info.align > 0,
            decreases components.components@.len() - i,
        {
            let info = components.components[i].info;
            proof {
                lemma_footprint_take(components@, i as int);
                assert(components@[i as int].info == info);
            }
            if info.align == 0 {
                return false;
            }
            if info.align > limit - total {
                return false;
            }
            total = total + info.align;
            if info.size > limit - total {
                return false;
            }
            total = total + info.size;
            i = i + 1;
        }
        proof {
            assert(components@.take(i as int) =~= components@);
        }
        true
    }

    /// Whether the commands can be run on `frame`: the store can spawn an entity
    /// for each spawn.
    pub fn can_run_on(&self, frame: &Frame) -> (b: bool)
        requires
            self.wf(),
            frame.wf(),
        ensures
            b == (frame.spare() >= spawns_from(self@, 0)),
    {
        let mut spawns: usize = 0;
        let n = self.cmds.len();
        let mut i: usize = n;
        while i > 0
            invariant
                i <= n,
                n == self.cmds@.len(),
                spawns == spawns_from(self@, i as int),
                spawns <= n - i,
            decreases i,
        {
            i = i - 1;
            match &self.cmds[i] {
                Cmd::SpawnOrInsert(index) => {
                    if index.entity.is_none() {
                        spawns = spawns + 1;
                    }
                },
                _ => {},
            }
        }
        frame.can_spawn_many(spawns)
    }

    /// Records: give the components of `components` to `entity`, if it lives
    /// when the commands are run. The components are recorded in canonical
    /// order.
    pub fn insert(&mut self, entity: Entity, components: Bundle)
        requires
            old(self).wf(),
            components.wf(),
            aligned(components@),
            old(self).used() + footprint(components@) <= usize::MAX / 2,
        ensures
            final(self).wf(),
            final(self)@.len() == old(self)@.len() + 1,
            final(self)@.drop_last() == old(self)@,
            final(self)@.last() matches Command::Insert(e, recorded) && e == entity && canonical(
                infos(recorded),
            ) && recorded.to_multiset() == components@.to_multiset(),
            old(self).used() <= final(self).used() <= old(self).used() + footprint(components@),
            final(self).used() == laid_out(old(self).used(), components@),
            (final(self).arena_size(), final(self).arena_align()) == arena_after(
                old(self).arena_size(),
                old(self).arena_align(),
                old(self).used(),
                components@,
            ),
    {
        self.record(Some(entity), components);
    }

    /// Records: give `component` to `entity`, if it lives when the commands are
    /// run.
    pub fn insert_one(&mut self, entity: Entity, component: Component)
        requires
            old(self).wf(),
            component.wf(),
            component.info.align > 0,
            old(self).used() + component.info.align + component.info.size <= usize::MAX / 2,
        ensures
            final(self).wf(),
            final(self)@ == old(self)@.push(Command::Insert(entity, seq![component@])),
            final(self).used() == aligned_up(old(self).used(), component.info.align as nat)
                + component.info.size,
            final(self).arena_size() == if final(self).used() > old(self).arena_size()
                || component.info.align > old(self).arena_align() {
                arena_for(final(self).used())
            } else {
                old(self).arena_size()
            },
            final(self).arena_align() == if old(self).arena_align() > component.info.align {
                old(self).arena_align()
            } else {
                component.info.align as nat
            },
    {
        let ghost view = component@;
        let mut bundle = Bundle::new();
        bundle.push(component);
        proof {
            assert(bundle@ =~= seq![view]);
            assert(bundle@.drop_last() =~= Seq::<ComponentView>::empty());
            assert(footprint(bundle@) == view.info.align + view.info.size) by {
                reveal_with_fuel(footprint, 2);
            }
            assert(laid_out(self.used(), bundle@) == aligned_up(self.used(), view.info.align as nat)
                + view.info.size) by {
                reveal_with_fuel(laid_out, 2);
            }
            assert(arena_after(self.arena_size(), self.arena_align(), self.used(), bundle@) == (
                if laid_out(self.used(), bundle@) > self.arena_size() || view.info.align
                    > self.arena_align() {
                    arena_for(laid_out(self.used(), bundle@))
                } else {
                    self.arena_size()
                },
                if self.arena_align() > view.info.align {
                    self.arena_align()
                } else {
                    view.info.align as nat
                },
            )) by {
                reveal_with_fuel(arena_after, 2);
            }
        }
        self.insert(entity, bundle);
        proof {
            let recorded = self@.last()->Insert_1;
            vstd::seq_lib::to_multiset_len(recorded);
            vstd::seq_lib::to_multiset_len(seq![view]);
            assert(recorded.len() == 1);
            assert(recorded.contains(recorded[0]));
            vstd::seq_lib::to_multiset_contains(recorded, recorded[0]);
            vstd::seq_lib::to_multiset_contains(seq![view], recorded[0]);
            assert(recorded =~= seq![view]);
            assert(self@ =~= old(self)@.push(Command::Insert(entity, seq![view])));
        }
    }

    /// Records: spawn an entity with the components of `components`. The
    /// components are recorded in canonical order.
    pub fn spawn(&mut self, components: Bundle)
        requires
            old(self).wf(),
            components.wf(),
            aligned(components@),
            old(self).used() + footprint(components@) <= usize::MAX / 2,
        ensures
            final(self).wf(),
            final(self)@.len() == old(self)@.len() + 1,
            final(self)@.drop_last() == old(self)@,
            final(self)@.last() matches Command::Spawn(recorded) && canonical(infos(recorded))
                && recorded.to_multiset() == components@.to_multiset(),
            old(self).used() <= final(self).used() <= old(self).used() + footprint(components@),
            final(self).used() == laid_out(old(self).used(), components@),
            (final(self).arena_size(), final(self).arena_align()) == arena_after(
                old(self).arena_size(),
                old(self).arena_align(),
                old(self).used(),
                components@,
            ),
    {
        self.record(None, components);
    }

    /// Records: take the components of the types `ids` from `ent`, if it has
    /// them all when the commands are run.
    pub fn remove(&mut self, ent: Entity, ids: Vec<u64>)
        requires
            old(self).wf(),
        ensures
            final(self).wf(),
            final(self)@ == old(self)@.push(Command::Remove(ent, ids@)),
            final(self).used() == old(self).used(),
            final(self).arena_size() == old(self).arena_size(),
    {
        self.cmds.push(Cmd::Remove(RemovedComps { ids, entity: ent }));
        proof {
            self.lemma_kept(old(self));
            assert(self@ =~= old(self)@.push(Command::Remove(ent, ids@)));
        }
    }

    /// Records: take the component of the type `id` from `ent`, if it has one
    /// when the commands are run.
    pub fn remove_one(&mut self, ent: Entity, id: u64)
        requires
            old(self).wf(),
        ensures
            final(self).wf(),
            final(self)@ == old(self)@.push(Command::Remove(ent, seq![id])),
            final(self).used() == old(self).used(),
            final(self).arena_size() == old(self).arena_size(),
    {
        let mut ids: Vec<u64> = Vec::new();
        ids.push(id);
        proof {
            assert(ids@ =~= seq![id]);
        }
        self.remove(ent, ids);
    }

    /// Records: despawn `entity`, if it lives when the commands are run.
    pub fn despawn(&mut self, entity: Entity)
        requires
            old(self).wf(),
        ensures
            final(self).wf(),
            final(self)@ == old(self)@.push(Command::Despawn(entity)),
            final(self).used() == old(self).used(),
            final(self).arena_size() == old(self).arena_size(),
    {
        self.cmds.push(Cmd::Despawn(entity));
        proof {
            self.lemma_kept(old(self));
            assert(self@ =~= old(self)@.push(Command::Despawn(entity)));
        }
    }

    /// Drops all recorded commands, with their components. The arena stays.
    pub fn clear(&mut self)
        requires
            old(self).wf(),
        ensures
            final(self).wf(),
            final(self)@ == Seq::<Command>::empty(),
            final(self).used() == 0,
            final(self).recorded_count() == 0,
            final(self).arena_size() == old(self).arena_size(),
            final(self).arena_align() == old(self).arena_align(),
    {
        self.arena.reset();
        self.components.clear();
        self.cmds.clear();
        proof {
            assert(self@ =~= Seq::<Command>::empty());
        }
    }

    /// Copies of the components recorded at the positions `components`, as a
    /// bundle. The buffer stays as it is.
    pub fn build(&mut self, components: core::ops::Range<usize>) -> (bundle: Bundle)
        requires
            old(self).wf(),
            components.start <= components.end <= old(self).recorded_count(),
        ensures
            final(self).wf(),
            final(self)@ == old(self)@,
            final(self).used() == old(self).used(),
            final(self).arena_size() == old(self).arena_size(),
            final(self).recorded_count() == old(self).recorded_count(),
            final(self).arena_align() == old(self).arena_align(),
            *final(self) == *old(self),
            forall|start: int, end: int| final(self).recorded(start, end) == old(self).recorded(start, end),
            bundle@ == old(self).recorded(components.start as int, components.end as int),
            all_sized(bundle@),
    {
        let mut list: Vec<Component> = Vec::new();
        let mut k: usize = components.start;
        let ghost wanted = self.recorded(components.start as int, components.end as int);
        while k < components.end
            invariant
                components.start <= k <= components.end <= self.components@.len(),
                self.arena_wf(),
                self.cmds == old(self).cmds,
                self.components == old(self).components,
                self.arena == old(self).arena,
                wanted == self.recorded(components.start as int, components.end as int),
                list@.len() == k - components.start,
                forall|j: int| 0 <= j < list@.len() ==> (#[trigger] list@[j])@ == wanted[j],
            decreases components.end - k,
        {
            let info = self.components[k];
            proof {
                self.arena.lemma_wf();
                assert(self.components@[k as int] == info);
            }
            let bytes = self.arena.read(info.offset, info.ty.size);
            proof {
                assert(bytes@ =~= self.arena.bytes().subrange(
                    info.offset as int,
                    info.offset + info.ty.size,
                ));
                assert(self.components@.subrange(components.start as int, components.end as int)[k
                    - components.start] == info);
            }
            list.push(Component { info: info.ty, bytes });
            k = k + 1;
        }
        let bundle = Bundle::from_components(list);
        proof {
            assert(bundle@ =~= wanted);
            self.lemma_recorded_sized(components.start as int, components.end as int);
            self.lemma_kept(old(self));
            assert(self@ =~= old(self)@);
        }
        bundle
    }

    /// Applies the recorded commands to `frame`, in the order in which they
    /// were recorded, and empties the buffer. The arena stays.
    pub fn run_on(&mut self, frame: &mut Frame)
        requires
            old(self).wf(),
            old(frame).wf(),
            old(frame).unborrowed(),
            old(frame).spare() >= spawns_from(old(self)@, 0),
        ensures
            final(self).wf(),
            final(self)@ == Seq::<Command>::empty(),
            final(self).used() == 0,
            final(self).recorded_count() == 0,
            final(self).arena_size() == old(self).arena_size(),
            final(self).arena_align() == old(self).arena_align(),
            final(frame).wf(),
            final(frame).unborrowed(),
            replayed(*old(frame), old(self)@, *final(frame)),
    {
        let n = self.cmds.len();
        let mut i: usize = 0;
        proof {
            assert(self@.take(0) =~= Seq::<Command>::empty());
        }
        while i < n
            invariant
                i <= n,
                n == self.cmds@.len(),
                self.wf(),
                self@ == old(self)@,
                self.arena_size() == old(self).arena_size(),
                self.arena_align() == old(self).arena_align(),
                frame.wf(),
                frame.unborrowed(),
                frame.spare() >= spawns_from(self@, i as int),
                replayed(*old(frame), self@.take(i as int), *frame),
            decreases n - i,
        {
            let ghost before = *frame;
            let ghost commands = self@;
            proof {
                frame.lemma_spare();
            }
            let ghost command = self@[i as int];
            let mut recorded: Option<(Option<Entity>, usize, usize)> = None;
            match &self.cmds[i] {
                Cmd::SpawnOrInsert(index) => {
                    recorded = Some((index.entity, index.start, index.end));
                },
                Cmd::Remove(removed) => {
                    let r = frame.remove(removed.entity, &removed.ids);
                    proof {
                        assert(applied(before, command, *frame));
                    }
                },
                Cmd::Despawn(e) => {
                    let r = frame.despawn(*e);
                    proof {
                        if r is Err {
                            assert(before.flushed().remove(*e) =~= before.flushed());
                        }
                        assert(applied(before, command, *frame));
                    }
                },
            }
            match recorded {
                Some((entity, start, end)) => {
                    proof {
                        self.lemma_recorded_sized(start as int, end as int);
                    }
                    let bundle = self.build(start..end);
                    match entity {
                        Some(e) => {
                            let r = frame.insert(e, bundle);
                            proof {
                                assert(applied(before, command, *frame));
                            }
                        },
                        None => {
                            let e = frame.spawn(bundle);
                            proof {
                                assert(applied(before, command, *frame));
                            }
                        },
                    }
                },
                None => {},
            }
            proof {
                assert(applied(before, command, *frame));
                assert(commands.take(i + 1).drop_last() =~= commands.take(i as int));
                assert(commands.take(i + 1).last() == command);
                lemma_replayed_step(*old(frame), commands.take(i + 1), before, *frame);
            }
            i = i + 1;
        }
        proof {
            assert(self@.take(n as int) =~= self@);
        }
        self.clear();
    }
}

} // verus!

verus! {

impl Default for CommandBuffer {
    /// An empty buffer, with an arena of no bytes.
    fn default() -> (buffer: CommandBuffer)
        ensures
            buffer.wf(),
            buffer@ == Seq::<Command>::empty(),
            buffer.used() == 0,
            buffer.recorded_count() == 0,
            buffer.arena_size() == 0,
            buffer.arena_align() == 8,
    {
        CommandBuffer::new()
    }
}

} // verus!

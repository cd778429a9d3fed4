//! Archetypes: column storage for the entities of one exact set of component
//! types.

use crate::component::canonical;
use crate::component::distinct_ids;
use crate::component::has_id;
use crate::component::index_of_id;
use crate::component::infos;
use crate::component::views;
use crate::component::Component;
use crate::component::ComponentView;
use crate::component::TypeInfo;
use vstd::prelude::*;

verus! {

/// `n` zero bytes.
pub open spec fn zeros(n: nat) -> Seq<u8> {
    Seq::new(n, |i: int| 0u8)
}

/// The row that every component of `signature` fills with zero bytes.
pub open spec fn zero_row(signature: Seq<TypeInfo>) -> Map<u64, ComponentView> {
    Map::new(
        |id: u64| has_id(signature, id),
        |id: u64|
            ComponentView {
                info: signature[index_of_id(signature, id)],
                bytes: zeros(signature[index_of_id(signature, id)].size as nat),
            },
    )
}

/// The row `target` after it has received each component of `source` whose
/// type it also has, with the same layout.
pub open spec fn moved_into(source: Map<u64, ComponentView>, target: Map<u64, ComponentView>) -> Map<
    u64,
    ComponentView,
> {
    Map::new(
        |id: u64| target.contains_key(id),
        |id: u64|
            if source.contains_key(id) && source[id].info == target[id].info {
                source[id]
            } else {
                target[id]
            },
    )
}

/// The capacity that a full archetype of capacity `capacity` grows to: twice as
/// much, and at least 64 rows.
pub open spec fn grown(capacity: usize) -> usize {
    if capacity < 32 {
        64
    } else if capacity <= usize::MAX / 2 {
        (2 * capacity) as usize
    } else {
        usize::MAX
    }
}

/// `s` after the element at `i` was replaced by the last one and the last
/// position was dropped.
pub open spec fn swap_removed<A>(s: Seq<A>, i: int) -> Seq<A> {
    s.update(i, s.last()).drop_last()
}

/// In a sequence of distinct ids, the element with the id of the one at `c` is
/// the one at `c`.
pub proof fn lemma_index_of_id(signature: Seq<TypeInfo>, c: int)
    requires
        distinct_ids(signature),
        0 <= c < signature.len(),
    ensures
        has_id(signature, signature[c].id),
        index_of_id(signature, signature[c].id) == c,
{
    let id = signature[c].id;
    let k = index_of_id(signature, id);
    assert(0 <= k < signature.len() && signature[k].id == id);
    if k < c {
        assert(signature[k].id != signature[c].id);
    } else if c < k {
        assert(signature[c].id != signature[k].id);
    }
}

fn zeroed(n: usize) -> (bytes: Vec<u8>)
    ensures
        bytes@ == zeros(n as nat),
{
    let mut bytes: Vec<u8> = Vec::new();
    let mut i: usize = 0;
    while i < n
        invariant
            i <= n,
            bytes@ == zeros(i as nat),
        decreases n - i,
    {
        bytes.push(0u8);
        i = i + 1;
        assert(bytes@ =~= zeros(i as nat));
    }
    bytes
}

/// The entities that have exactly one set of component types, and their
/// components.
///
/// There is one column for each type, in canonical order, and one row for each
/// entity. Each column counts the borrows that are taken of it: 0 when it is
/// free, the number of shared borrows when it is shared, -1 when it is borrowed
/// exclusively.
pub struct Archetype {
    types: Vec<TypeInfo>,
    columns: Vec<Vec<Vec<u8>>>,
    borrows: Vec<isize>,
    ids: Vec<u32>,
    capacity: usize,
}

impl Archetype {
    /// The types of the columns, in canonical order.
    pub closed spec fn signature(&self) -> Seq<TypeInfo> {
        self.types@
    }

    /// The id of the entity of each row.
    pub closed spec fn entity_ids(&self) -> Seq<u32> {
        self.ids@
    }

    /// The bytes of the component in column `column` of row `row`.
    pub closed spec fn cell(&self, column: int, row: int) -> Seq<u8> {
        self.columns@[column]@[row]@
    }

    /// The number of rows that the archetype has room for before it grows.
    pub closed spec fn cap(&self) -> nat {
        self.capacity as nat
    }

    /// The borrow count of column `column`.
    pub closed spec fn borrow_of(&self, column: int) -> int {
        self.borrows@[column] as int
    }

    /// The number of columns.
    pub closed spec fn column_count(&self) -> nat {
        self.columns@.len()
    }

    /// The number of cells of column `column`.
    pub closed spec fn column_len(&self, column: int) -> nat {
        self.columns@[column]@.len()
    }

    /// The number of rows.
    pub open spec fn rows(&self) -> nat {
        self.entity_ids().len()
    }

    /// The components of row `row`, by type id.
    pub open spec fn row(&self, row: int) -> Map<u64, ComponentView> {
        Map::new(
            |id: u64| has_id(self.signature(), id),
            |id: u64|
                ComponentView {
                    info: self.signature()[index_of_id(self.signature(), id)],
                    bytes: self.cell(index_of_id(self.signature(), id), row),
                },
        )
    }

    /// No column is borrowed.
    pub open spec fn unborrowed(&self) -> bool {
        forall|c: int| 0 <= c < self.signature().len() ==> #[trigger] self.borrow_of(c) == 0
    }

    /// The archetype's invariant.
    pub closed spec fn wf(&self) -> bool {
        &&& canonical(self.types@)
        &&& distinct_ids(self.types@)
        &&& self.columns@.len() == self.types@.len()
        &&& self.borrows@.len() == self.types@.len()
        &&& self.ids@.len() <= self.capacity
        &&& forall|c: int|
            0 <= c < self.columns@.len() ==> (#[trigger] self.columns@[c])@.len() == self.ids@.len()
        &&& forall|c: int, r: int|
            0 <= c < self.columns@.len() && 0 <= r < self.ids@.len() ==> (
            #[trigger] self.columns@[c]@[r])@.len() == self.types@[c].size
        &&& forall|c: int| 0 <= c < self.borrows@.len() ==> #[trigger] self.borrows@[c] >= -1
    }

    /// What the invariant says: the columns are in canonical order, no type
    /// occurs twice, every cell has the size of its column's type, and the rows
    /// fit in the capacity.
    pub proof fn lemma_wf(&self)
        requires
            self.wf(),
        ensures
            canonical(self.signature()),
            distinct_ids(self.signature()),
            self.signature().len() == self.column_count(),
            forall|c: int| 0 <= c < self.column_count() ==> #[trigger] self.column_len(c) == self.rows(),
            self.rows() <= self.cap(),
            forall|c: int, r: int|
                0 <= c < self.signature().len() && 0 <= r < self.rows() ==> (#[trigger] self.cell(
                    c,
                    r,
                )).len() == self.signature()[c].size,
            forall|c: int| 0 <= c < self.signature().len() ==> #[trigger] self.borrow_of(c) >= -1,
    {
    }

    /// A row holds one component for each column, of the column's type and
    /// size, and nothing else.
    pub proof fn lemma_row(&self, r: int)
        requires
            self.wf(),
            0 <= r < self.rows(),
        ensures
            forall|id: u64| self.row(r).contains_key(id) <==> has_id(self.signature(), id),
            forall|id: u64| #[trigger]
                self.row(r).contains_key(id) ==> self.row(r)[id].info.id == id && self.row(
                    r,
                )[id].bytes.len() == self.row(r)[id].info.size && self.signature().contains(
                    self.row(r)[id].info,
                ),
            forall|c: int|
                0 <= c < self.signature().len() ==> self.row(r).contains_key(
                    (#[trigger] self.signature()[c]).id,
                ) && self.row(r)[self.signature()[c].id] == (ComponentView {
                    info: self.signature()[c],
                    bytes: self.cell(c, r),
                }),
    {
        assert forall|c: int| 0 <= c < self.signature().len() implies self.row(r).contains_key(
            (#[trigger] self.signature()[c]).id,
        ) && self.row(r)[self.signature()[c].id] == (ComponentView {
            info: self.signature()[c],
            bytes: self.cell(c, r),
        }) by {
            lemma_index_of_id(self.signature(), c);
        }
    }

    /// An archetype with the borrow counts of an unborrowed one is unborrowed.
    proof fn lemma_same_borrows(&self, other: &Archetype)
        requires
            self.types@ == other.types@,
            self.borrows@ == other.borrows@,
            other.unborrowed(),
        ensures
            self.unborrowed(),
    {
        assert forall|c: int| 0 <= c < self.signature().len() implies #[trigger] self.borrow_of(c)
            == 0 by {
            assert(other.borrow_of(c) == 0);
        }
    }

    /// Two rows are the same where the signatures and the cells are.
    proof fn lemma_same_row(&self, r: int, other: &Archetype, s: int)
        requires
            self.types@ == other.types@,
            forall|c: int|
                0 <= c < self.types@.len() ==> self.columns@[c]@[r]@ == other.columns@[c]@[s]@,
        ensures
            self.row(r) == other.row(s),
    {
        assert(self.row(r) =~= other.row(s));
    }

    /// An archetype without rows for the types `types`.
    pub fn new(types: Vec<TypeInfo>) -> (archetype: Archetype)
        requires
            canonical(types@),
            distinct_ids(types@),
        ensures
            archetype.wf(),
            archetype.signature() == types@,
            archetype.rows() == 0,
            archetype.cap() == 0,
            archetype.unborrowed(),
    {
        let mut columns: Vec<Vec<Vec<u8>>> = Vec::new();
        let mut borrows: Vec<isize> = Vec::new();
        let mut c: usize = 0;
        while c < types.len()
            invariant
                c <= types.len(),
                columns@.len() == c,
                borrows@.len() == c,
                forall|k: int| 0 <= k < c ==> (#[trigger] columns@[k])@.len() == 0,
                forall|k: int| 0 <= k < c ==> #[trigger] borrows@[k] == 0,
            decreases types.len() - c,
        {
            columns.push(Vec::new());
            borrows.push(0);
            c = c + 1;
        }
        Archetype { types, columns, borrows, ids: Vec::new(), capacity: 0 }
    }

    /// The types of the columns, in canonical order.
    pub fn types(&self) -> (types: &Vec<TypeInfo>)
        ensures
            types@ == self.signature(),
    {
        &self.types
    }

    /// The ids of the column types, in canonical order.
    pub fn type_ids(&self) -> (ids: Vec<u64>)
        ensures
            ids@ == crate::component::ids_of(self.signature()),
    {
        let mut ids: Vec<u64> = Vec::new();
        let mut c: usize = 0;
        while c < self.types.len()
            invariant
                c <= self.types@.len(),
                ids@.len() == c,
                forall|k: int| 0 <= k < c ==> ids@[k] == self.types@[k].id,
            decreases self.types@.len() - c,
        {
            ids.push(self.types[c].id);
            c = c + 1;
        }
        assert(ids@ =~= crate::component::ids_of(self.signature()));
        ids
    }

    /// The id of the entity of each row.
    pub fn ids(&self) -> (ids: &Vec<u32>)
        ensures
            ids@ == self.entity_ids(),
    {
        &self.ids
    }

    /// The id of the entity of row `row`.
    pub fn entity_id(&self, row: usize) -> (id: u32)
        requires
            row < self.rows(),
        ensures
            id == self.entity_ids()[row as int],
    {
        self.ids[row]
    }

    /// The number of rows.
    pub fn len(&self) -> (n: usize)
        ensures
            n == self.rows(),
    {
        self.ids.len()
    }

    /// The number of columns.
    pub fn columns(&self) -> (n: usize)
        ensures
            n == self.column_count(),
    {
        self.columns.len()
    }

    /// Whether the archetype has no rows.
    pub fn is_empty(&self) -> (b: bool)
        ensures
            b == (self.rows() == 0),
    {
        self.ids.len() == 0
    }

    /// The number of rows that the archetype has room for before it grows.
    pub fn capacity(&self) -> (n: usize)
        ensures
            n == self.cap(),
    {
        self.capacity
    }

    /// The column of the type with id `id`, if the archetype has that type.
    pub fn column_of(&self, id: u64) -> (column: Option<usize>)
        requires
            self.wf(),
        ensures
            column is Some <==> has_id(self.signature(), id),
            column matches Some(c) ==> c == index_of_id(self.signature(), id) && c
                < self.signature().len() && self.signature()[c as int].id == id,
    {
        let mut c: usize = 0;
        while c < self.types.len()
            invariant
                c <= self.types@.len(),
                forall|k: int| 0 <= k < c ==> (#[trigger] self.types@[k]).id != id,
                self.wf(),
            decreases self.types@.len() - c,
        {
            if self.types[c].id == id {
                proof {
                    lemma_index_of_id(self.types@, c as int);
                }
                return Some(c);
            }
            c = c + 1;
        }
        None
    }

    /// Whether the archetype has the type with id `id`.
    pub fn has(&self, id: u64) -> (b: bool)
        requires
            self.wf(),
        ensures
            b == has_id(self.signature(), id),
    {
        self.column_of(id).is_some()
    }

    /// The column of the type `info`, if the archetype has a column of exactly
    /// that type.
    pub fn column_matching(&self, info: TypeInfo) -> (column: Option<usize>)
        requires
            self.wf(),
        ensures
            column is Some <==> self.signature().contains(info),
            column matches Some(c) ==> c == index_of_id(self.signature(), info.id) && c
                < self.signature().len() && self.signature()[c as int] == info,
            column is None ==> !(has_id(self.signature(), info.id) && self.signature()[index_of_id(
                self.signature(),
                info.id,
            )] == info),
    {
        match self.column_of(info.id) {
            Some(c) => {
                if self.types[c] == info {
                    Some(c)
                } else {
                    proof {
                        if self.types@.contains(info) {
                            let k = choose|k: int| 0 <= k < self.types@.len() && self.types@[k] == info;
                            lemma_index_of_id(self.types@, k);
                        }
                    }
                    None
                }
            },
            None => {
                proof {
                    if self.types@.contains(info) {
                        let k = choose|k: int| 0 <= k < self.types@.len() && self.types@[k] == info;
                        assert(self.types@[k].id == info.id);
                    }
                }
                None
            },
        }
    }

    /// The bytes of the component of type `id` in row `row`, if the archetype
    /// has that type.
    pub fn get(&self, row: usize, id: u64) -> (bytes: Option<&Vec<u8>>)
        requires
            self.wf(),
            row < self.rows(),
        ensures
            bytes is Some <==> has_id(self.signature(), id),
            bytes matches Some(b) ==> b@ == self.row(row as int)[id].bytes,
    {
        match self.column_of(id) {
            Some(c) => Some(&self.columns[c][row]),
            None => None,
        }
    }

    /// A copy of the component of type `id` in row `row`, if the archetype has
    /// that type.
    pub fn component(&self, row: usize, id: u64) -> (c: Option<Component>)
        requires
            self.wf(),
            row < self.rows(),
        ensures
            c is Some <==> has_id(self.signature(), id),
            c matches Some(c) ==> c@ == self.row(row as int)[id] && c.wf(),
    {
        match self.column_of(id) {
            Some(k) => Some(Component { info: self.types[k], bytes: self.columns[k][row].clone() }),
            None => None,
        }
    }

    /// The cells of the column of type `id`, one for each row, if the archetype
    /// has that type.
    pub fn get_column(&self, id: u64) -> (column: Option<&Vec<Vec<u8>>>)
        requires
            self.wf(),
        ensures
            column is Some <==> has_id(self.signature(), id),
            column matches Some(cells) ==> cells@.len() == self.rows() && forall|r: int|
                0 <= r < self.rows() ==> (#[trigger] cells@[r])@ == self.row(r)[id].bytes,
    {
        match self.column_of(id) {
            Some(c) => Some(&self.columns[c]),
            None => None,
        }
    }

    /// Makes room for `additional` more rows.
    pub fn reserve(&mut self, additional: usize)
        requires
            old(self).wf(),
            old(self).unborrowed(),
        ensures
            final(self).wf(),
            final(self).unborrowed(),
            final(self).signature() == old(self).signature(),
            final(self).entity_ids() == old(self).entity_ids(),
            forall|r: int| final(self).row(r) == old(self).row(r),
            final(self).cap() == if old(self).rows() + additional <= old(self).cap() {
                old(self).cap()
            } else if old(self).rows() + additional <= usize::MAX {
                (old(self).rows() + additional) as nat
            } else {
                usize::MAX as nat
            },
    {
        let needed = self.ids.len().saturating_add(additional);
        if needed > self.capacity {
            self.ids.reserve(additional);
            self.capacity = needed;
        }
        proof {
            self.lemma_same_borrows(old(self));
            assert forall|r: int| self.row(r) == old(self).row(r) by {
                self.lemma_same_row(r, old(self), r);
            }
        }
    }

    fn grow(&mut self)
        requires
            old(self).wf(),
        ensures
            final(self).wf(),
            final(self).types == old(self).types,
            final(self).columns == old(self).columns,
            final(self).borrows == old(self).borrows,
            final(self).ids@ == old(self).ids@,
            final(self).capacity == grown(old(self).capacity),
    {
        let capacity = if self.capacity < 32 {
            64
        } else if self.capacity <= usize::MAX / 2 {
            2 * self.capacity
        } else {
            usize::MAX
        };
        self.ids.reserve(capacity - self.ids.len());
        self.capacity = capacity;
    }

    /// Adds a row for the entity `id`, with every component zeroed, and returns
    /// the row. A full archetype grows first.
    pub fn allocate_row(&mut self, id: u32) -> (row: usize)
        requires
            old(self).wf(),
            old(self).unborrowed(),
            old(self).rows() < usize::MAX,
        ensures
            final(self).wf(),
            final(self).unborrowed(),
            row == old(self).rows(),
            final(self).signature() == old(self).signature(),
            final(self).entity_ids() == old(self).entity_ids().push(id),
            final(self).cap() == if old(self).rows() == old(self).cap() {
                grown(old(self).cap() as usize) as nat
            } else {
                old(self).cap()
            },
            forall|r: int| 0 <= r < old(self).rows() ==> final(self).row(r) == old(self).row(r),
            final(self).row(row as int) == zero_row(old(self).signature()),
    {
        let row = self.ids.len();
        if row == self.capacity {
            self.grow();
        }
        let ghost grew = *self;
        let mut c: usize = 0;
        while c < self.columns.len()
            invariant
                c <= self.columns@.len(),
                self.types == grew.types,
                self.borrows == grew.borrows,
                self.ids == grew.ids,
                self.capacity == grew.capacity,
                self.columns@.len() == grew.columns@.len(),
                grew.wf(),
                row == grew.ids@.len(),
                forall|k: int| c <= k < self.columns@.len() ==> self.columns@[k] == grew.columns@[k],
                forall|k: int|
                    0 <= k < c ==> (#[trigger] self.columns@[k])@ == grew.columns@[k]@.push(
                        self.columns@[k]@[row as int],
                    ),
                forall|k: int|
                    0 <= k < c ==> (#[trigger] self.columns@[k])@[row as int]@ == zeros(
                        self.types@[k].size as nat,
                    ),
            decreases self.columns@.len() - c,
        {
            let cell = zeroed(self.types[c].size);
            let ghost prior = self.columns@;
            assert(grew.columns@[c as int]@.len() == row);
            self.columns[c].push(cell);
            assert forall|k: int| 0 <= k < c implies self.columns@[k] == prior[k] by {}
            c = c + 1;
        }
        self.ids.push(id);
        proof {
            self.lemma_same_borrows(old(self));
            assert forall|r: int| 0 <= r < old(self).rows() implies self.row(r) == old(self).row(
                r,
            ) by {
                self.lemma_same_row(r, old(self), r);
            }
            assert(self.row(row as int) =~= zero_row(old(self).signature()));
        }
        row
    }

    fn set_cell(&mut self, column: usize, row: usize, bytes: Vec<u8>)
        requires
            old(self).wf(),
            column < old(self).types@.len(),
            row < old(self).ids@.len(),
            bytes@.len() == old(self).types@[column as int].size,
        ensures
            final(self).wf(),
            final(self).types == old(self).types,
            final(self).borrows == old(self).borrows,
            final(self).ids == old(self).ids,
            final(self).capacity == old(self).capacity,
            final(self).columns@.len() == old(self).columns@.len(),
            forall|c: int, r: int|
                0 <= c < old(self).types@.len() && 0 <= r < old(self).ids@.len() ==> (
                #[trigger] final(self).columns@[c]@[r])@ == if c == column && r == row {
                    bytes@
                } else {
                    old(self).columns@[c]@[r]@
                },
    {
        self.columns[column][row] = bytes;
    }

    /// Copies the bytes of `component` into row `row`, over the component of its
    /// type that the row held.
    pub fn put(&mut self, row: usize, component: &Component)
        requires
            old(self).wf(),
            row < old(self).rows(),
            component.wf(),
            old(self).signature().contains(component.info),
        ensures
            final(self).wf(),
            final(self).signature() == old(self).signature(),
            final(self).entity_ids() == old(self).entity_ids(),
            final(self).cap() == old(self).cap(),
            forall|c: int| final(self).borrow_of(c) == old(self).borrow_of(c),
            final(self).row(row as int) == old(self).row(row as int).insert(
                component.info.id,
                component@,
            ),
            forall|r: int|
                0 <= r < old(self).rows() && r != row ==> final(self).row(r) == old(self).row(r),
    {
        let found = self.column_matching(component.info);
        let c = found.unwrap();
        let ghost view = component@;
        self.set_cell(c, row, component.bytes.clone());
        proof {
            assert forall|r: int| 0 <= r < old(self).rows() && r != row implies self.row(r) == old(self).row(r) by {
                self.lemma_same_row(r, old(self), r);
            }
            assert(self.row(row as int) =~= old(self).row(row as int).insert(view.info.id, view));
        }
    }

    /// Removes row `row` and returns its components, in canonical order. The
    /// last row takes its place; where that is another row, the id of its
    /// entity is returned too.
    pub fn take_row(&mut self, row: usize) -> (taken: (Vec<Component>, Option<u32>))
        requires
            old(self).wf(),
            old(self).unborrowed(),
            row < old(self).rows(),
        ensures
            final(self).wf(),
            final(self).unborrowed(),
            final(self).signature() == old(self).signature(),
            final(self).cap() == old(self).cap(),
            final(self).entity_ids() == swap_removed(old(self).entity_ids(), row as int),
            taken.1 == if row < old(self).rows() - 1 {
                Some(old(self).entity_ids().last())
            } else {
                None::<u32>
            },
            forall|r: int|
                0 <= r < final(self).rows() && r != row ==> final(self).row(r) == old(self).row(r),
            row < final(self).rows() ==> final(self).row(row as int) == old(self).row(
                old(self).rows() - 1,
            ),
            infos(views(taken.0@)) == old(self).signature(),
            forall|c: int| 0 <= c < taken.0@.len() ==> (#[trigger] taken.0@[c]).wf(),
            forall|c: int|
                0 <= c < taken.0@.len() ==> (#[trigger] taken.0@[c]).bytes@ == old(self).cell(
                    c,
                    row as int,
                ),
            crate::component::by_id(views(taken.0@)) == old(self).row(row as int),
    {
        let mut out: Vec<Component> = Vec::new();
        let mut c: usize = 0;
        while c < self.columns.len()
            invariant
                c <= self.columns@.len(),
                old(self).wf(),
                row < old(self).ids@.len(),
                self.types == old(self).types,
                self.borrows == old(self).borrows,
                self.ids == old(self).ids,
                self.capacity == old(self).capacity,
                self.columns@.len() == old(self).columns@.len(),
                out@.len() == c,
                forall|k: int| c <= k < self.columns@.len() ==> self.columns@[k] == old(self).columns@[k],
                forall|k: int|
                    0 <= k < c ==> (#[trigger] self.columns@[k])@ == swap_removed(
                        old(self).columns@[k]@,
                        row as int,
                    ),
                forall|k: int|
                    0 <= k < c ==> (#[trigger] out@[k]).info == self.types@[k] && out@[k].bytes
                        == old(self).columns@[k]@[row as int],
            decreases self.columns@.len() - c,
        {
            let bytes = self.columns[c].swap_remove(row);
            out.push(Component { info: self.types[c], bytes });
            c = c + 1;
        }
        let last = self.ids.len() - 1;
        let moved = if row < last {
            Some(self.ids[last])
        } else {
            None
        };
        self.ids.swap_remove(row);
        proof {
            self.lemma_same_borrows(old(self));
            assert forall|r: int| 0 <= r < self.rows() && r != row implies self.row(r) == old(self).row(r) by {
                self.lemma_same_row(r, old(self), r);
            }
            if row < self.rows() {
                self.lemma_same_row(row as int, old(self), old(self).rows() - 1);
            }
            assert(infos(views(out@)) =~= old(self).types@);
            lemma_by_id_of_row(views(out@), old(self).row(row as int), old(self).types@);
        }
        (out, moved)
    }

    /// Removes row `row` with its components. The last row takes its place;
    /// where that is another row, the id of its entity is returned.
    pub fn remove_row(&mut self, row: usize) -> (moved: Option<u32>)
        requires
            old(self).wf(),
            old(self).unborrowed(),
            row < old(self).rows(),
        ensures
            final(self).wf(),
            final(self).unborrowed(),
            final(self).signature() == old(self).signature(),
            final(self).cap() == old(self).cap(),
            final(self).entity_ids() == swap_removed(old(self).entity_ids(), row as int),
            moved == if row < old(self).rows() - 1 {
                Some(old(self).entity_ids().last())
            } else {
                None::<u32>
            },
            forall|r: int|
                0 <= r < final(self).rows() && r != row ==> final(self).row(r) == old(self).row(r),
            row < final(self).rows() ==> final(self).row(row as int) == old(self).row(
                old(self).rows() - 1,
            ),
    {
        let (_, moved) = self.take_row(row);
        moved
    }

    /// Moves row `row` into row `target_row` of `target`: each component whose
    /// type `target` also has, with the same layout, takes the place of the one
    /// that `target` held; the others are dropped. The row is then removed as
    /// `remove_row` removes it.
    pub fn move_row_to(&mut self, row: usize, target: &mut Archetype, target_row: usize) -> (moved:
        Option<u32>)
        requires
            old(self).wf(),
            old(self).unborrowed(),
            row < old(self).rows(),
            old(target).wf(),
            old(target).unborrowed(),
            target_row < old(target).rows(),
        ensures
            final(self).wf(),
            final(self).unborrowed(),
            final(self).signature() == old(self).signature(),
            final(self).cap() == old(self).cap(),
            final(self).entity_ids() == swap_removed(old(self).entity_ids(), row as int),
            moved == if row < old(self).rows() - 1 {
                Some(old(self).entity_ids().last())
            } else {
                None::<u32>
            },
            forall|r: int|
                0 <= r < final(self).rows() && r != row ==> final(self).row(r) == old(self).row(r),
            row < final(self).rows() ==> final(self).row(row as int) == old(self).row(
                old(self).rows() - 1,
            ),
            final(target).wf(),
            final(target).unborrowed(),
            final(target).signature() == old(target).signature(),
            final(target).cap() == old(target).cap(),
            final(target).entity_ids() == old(target).entity_ids(),
            forall|r: int|
                0 <= r < old(target).rows() && r != target_row ==> final(target).row(r) == old(target).row(r),
            final(target).row(target_row as int) == moved_into(
                old(self).row(row as int),
                old(target).row(target_row as int),
            ),
    {
        let mut c: usize = 0;
        while c < self.columns.len()
            invariant
                c <= self.columns@.len(),
                old(self).wf(),
                row < old(self).ids@.len(),
                self.types == old(self).types,
                self.borrows == old(self).borrows,
                self.ids == old(self).ids,
                self.capacity == old(self).capacity,
                self.columns@.len() == old(self).columns@.len(),
                forall|k: int| c <= k < self.columns@.len() ==> self.columns@[k] == old(self).columns@[k],
                forall|k: int|
                    0 <= k < c ==> (#[trigger] self.columns@[k])@ == swap_removed(
                        old(self).columns@[k]@,
                        row as int,
                    ),
                target.wf(),
                target.types == old(target).types,
                target.borrows == old(target).borrows,
                target.ids == old(target).ids,
                target.capacity == old(target).capacity,
                target_row < target.ids@.len(),
                old(target).wf(),
                target.columns@.len() == old(target).columns@.len(),
                forall|d: int, r: int|
                    0 <= d < target.types@.len() && 0 <= r < target.ids@.len() ==> (
                    #[trigger] target.columns@[d]@[r])@ == if r == target_row && has_id(
                        self.types@,
                        target.types@[d].id,
                    ) && index_of_id(self.types@, target.types@[d].id) < c
                        && self.types@[index_of_id(self.types@, target.types@[d].id)]
                        == target.types@[d] {
                        old(self).columns@[index_of_id(self.types@, target.types@[d].id)]@[row as int]@
                    } else {
                        old(target).columns@[d]@[r]@
                    },
            decreases self.columns@.len() - c,
        {
            let info = self.types[c];
            let bytes = self.columns[c].swap_remove(row);
            proof {
                lemma_index_of_id(self.types@, c as int);
            }
            match target.column_matching(info) {
                Some(d) => {
                    let ghost before = *target;
                    target.set_cell(d, target_row, bytes);
                    proof {
                        assert forall|e: int, r: int|
                            0 <= e < target.types@.len() && 0 <= r < target.ids@.len() implies (
                        #[trigger] target.columns@[e]@[r])@ == if r == target_row && has_id(
                            self.types@,
                            target.types@[e].id,
                        ) && index_of_id(self.types@, target.types@[e].id) < c + 1
                            && self.types@[index_of_id(self.types@, target.types@[e].id)]
                            == target.types@[e] {
                            old(self).columns@[index_of_id(
                                self.types@,
                                target.types@[e].id,
                            )]@[row as int]@
                        } else {
                            old(target).columns@[e]@[r]@
                        } by {
                            assert(before.columns@[e]@[r]@ == before.columns@[e]@[r]@);
                            if e != d {
                                if e < d {
                                    assert(target.types@[e].id != target.types@[d as int].id);
                                } else {
                                    assert(target.types@[d as int].id != target.types@[e].id);
                                }
                            }
                        }
                    }
                },
                None => {
                    proof {
                        assert forall|e: int, r: int|
                            0 <= e < target.types@.len() && 0 <= r < target.ids@.len() implies (
                        #[trigger] target.columns@[e]@[r])@ == if r == target_row && has_id(
                            self.types@,
                            target.types@[e].id,
                        ) && index_of_id(self.types@, target.types@[e].id) < c + 1
                            && self.types@[index_of_id(self.types@, target.types@[e].id)]
                            == target.types@[e] {
                            old(self).columns@[index_of_id(
                                self.types@,
                                target.types@[e].id,
                            )]@[row as int]@
                        } else {
                            old(target).columns@[e]@[r]@
                        } by {
                            if target.types@[e] == info {
                                assert(target.types@.contains(info));
                            }
                        }
                    }
                },
            }
            c = c + 1;
        }
        let last = self.ids.len() - 1;
        let moved = if row < last {
            Some(self.ids[last])
        } else {
            None
        };
        self.ids.swap_remove(row);
        proof {
            self.lemma_same_borrows(old(self));
            assert forall|r: int| 0 <= r < self.rows() && r != row implies self.row(r) == old(self).row(r) by {
                self.lemma_same_row(r, old(self), r);
            }
            if row < self.rows() {
                self.lemma_same_row(row as int, old(self), old(self).rows() - 1);
            }
            target.lemma_same_borrows(old(target));
            assert forall|r: int| 0 <= r < old(target).rows() && r != target_row implies target.row(
                r,
            ) == old(target).row(r) by {
                target.lemma_same_row(r, old(target), r);
            }
            assert(target.row(target_row as int) =~= moved_into(
                old(self).row(row as int),
                old(target).row(target_row as int),
            )) by {
                assert forall|id: u64| has_id(target.types@, id) implies (#[trigger] target.row(
                    target_row as int,
                )[id]) == moved_into(
                    old(self).row(row as int),
                    old(target).row(target_row as int),
                )[id] by {
                    let d = index_of_id(target.types@, id);
                    assert(target.columns@[d]@[target_row as int]@ == target.cell(
                        d,
                        target_row as int,
                    ));
                }
            }
        }
        moved
    }

    /// Removes every row with its components. The capacity stays.
    pub fn clear(&mut self)
        requires
            old(self).wf(),
            old(self).unborrowed(),
        ensures
            final(self).wf(),
            final(self).unborrowed(),
            final(self).signature() == old(self).signature(),
            final(self).cap() == old(self).cap(),
            final(self).rows() == 0,
    {
        let mut c: usize = 0;
        while c < self.columns.len()
            invariant
                c <= self.columns@.len(),
                self.types == old(self).types,
                self.borrows == old(self).borrows,
                self.ids == old(self).ids,
                self.capacity == old(self).capacity,
                self.columns@.len() == old(self).columns@.len(),
                forall|k: int| 0 <= k < c ==> (#[trigger] self.columns@[k])@.len() == 0,
            decreases self.columns@.len() - c,
        {
            self.columns[c].clear();
            c = c + 1;
        }
        self.ids.clear();
        proof {
            self.lemma_same_borrows(old(self));
        }
    }

    /// Whether a shared borrow of the column of type `id` can be taken: the
    /// archetype has the type and the column is not borrowed exclusively.
    pub fn can_borrow(&self, id: u64) -> (b: bool)
        requires
            self.wf(),
        ensures
            b == (has_id(self.signature(), id) && 0 <= self.borrow_of(
                index_of_id(self.signature(), id),
            ) < isize::MAX),
    {
        match self.column_of(id) {
            Some(c) => self.borrows[c] >= 0 && self.borrows[c] < isize::MAX,
            None => false,
        }
    }

    /// The borrow count of the column of type `id`, if the archetype has the
    /// type.
    pub fn borrow_count(&self, id: u64) -> (count: Option<isize>)
        requires
            self.wf(),
        ensures
            count is Some <==> has_id(self.signature(), id),
            count matches Some(n) ==> n == self.borrow_of(index_of_id(self.signature(), id))
                && n >= -1,
    {
        match self.column_of(id) {
            Some(c) => Some(self.borrows[c]),
            None => None,
        }
    }

    /// Whether the column of type `id` can be read: the archetype has the type
    /// and the column is not borrowed exclusively.
    pub fn can_read(&self, id: u64) -> (b: bool)
        requires
            self.wf(),
        ensures
            b == (has_id(self.signature(), id) && 0 <= self.borrow_of(
                index_of_id(self.signature(), id),
            )),
    {
        match self.column_of(id) {
            Some(c) => self.borrows[c] >= 0,
            None => false,
        }
    }

    /// Whether an exclusive borrow of the column of type `id` can be taken: the
    /// archetype has the type and the column is not borrowed.
    pub fn can_borrow_mut(&self, id: u64) -> (b: bool)
        requires
            self.wf(),
        ensures
            b == (has_id(self.signature(), id) && self.borrow_of(index_of_id(self.signature(), id))
                == 0),
    {
        match self.column_of(id) {
            Some(c) => self.borrows[c] == 0,
            None => false,
        }
    }

    fn set_borrow(&mut self, column: usize, count: isize)
        requires
            old(self).wf(),
            column < old(self).types@.len(),
            count >= -1,
        ensures
            final(self).wf(),
            final(self).signature() == old(self).signature(),
            final(self).entity_ids() == old(self).entity_ids(),
            final(self).cap() == old(self).cap(),
            forall|r: int| final(self).row(r) == old(self).row(r),
            forall|c: int|
                0 <= c < old(self).signature().len() ==> #[trigger] final(self).borrow_of(c) == if c
                    == column {
                    count as int
                } else {
                    old(self).borrow_of(c)
                },
    {
        self.borrows[column] = count;
        proof {
            assert forall|r: int| self.row(r) == old(self).row(r) by {
                self.lemma_same_row(r, old(self), r);
            }
        }
    }

    /// Takes a shared borrow of the column of type `id`.
    pub fn borrow(&mut self, id: u64)
        requires
            old(self).wf(),
            has_id(old(self).signature(), id),
            0 <= old(self).borrow_of(index_of_id(old(self).signature(), id)) < isize::MAX,
        ensures
            final(self).wf(),
            final(self).signature() == old(self).signature(),
            final(self).entity_ids() == old(self).entity_ids(),
            final(self).cap() == old(self).cap(),
            forall|r: int| final(self).row(r) == old(self).row(r),
            forall|c: int|
                0 <= c < old(self).signature().len() ==> #[trigger] final(self).borrow_of(c) == if c
                    == index_of_id(old(self).signature(), id) {
                    old(self).borrow_of(c) + 1
                } else {
                    old(self).borrow_of(c)
                },
    {
        let c = self.column_of(id).unwrap();
        let count = self.borrows[c];
        self.set_borrow(c, count + 1);
    }

    /// Takes the exclusive borrow of the column of type `id`.
    pub fn borrow_mut(&mut self, id: u64)
        requires
            old(self).wf(),
            has_id(old(self).signature(), id),
            old(self).borrow_of(index_of_id(old(self).signature(), id)) == 0,
        ensures
            final(self).wf(),
            final(self).signature() == old(self).signature(),
            final(self).entity_ids() == old(self).entity_ids(),
            final(self).cap() == old(self).cap(),
            forall|r: int| final(self).row(r) == old(self).row(r),
            forall|c: int|
                0 <= c < old(self).signature().len() ==> #[trigger] final(self).borrow_of(c) == if c
                    == index_of_id(old(self).signature(), id) {
                    -1int
                } else {
                    old(self).borrow_of(c)
                },
    {
        let c = self.column_of(id).unwrap();
        self.set_borrow(c, -1);
    }

    /// Gives back a shared borrow of the column of type `id`.
    pub fn release(&mut self, id: u64)
        requires
            old(self).wf(),
            has_id(old(self).signature(), id),
            old(self).borrow_of(index_of_id(old(self).signature(), id)) > 0,
        ensures
            final(self).wf(),
            final(self).signature() == old(self).signature(),
            final(self).entity_ids() == old(self).entity_ids(),
            final(self).cap() == old(self).cap(),
            forall|r: int| final(self).row(r) == old(self).row(r),
            forall|c: int|
                0 <= c < old(self).signature().len() ==> #[trigger] final(self).borrow_of(c) == if c
                    == index_of_id(old(self).signature(), id) {
                    old(self).borrow_of(c) - 1
                } else {
                    old(self).borrow_of(c)
                },
    {
        let c = self.column_of(id).unwrap();
        let count = self.borrows[c];
        self.set_borrow(c, count - 1);
    }

    /// Gives back the exclusive borrow of the column of type `id`.
    pub fn release_mut(&mut self, id: u64)
        requires
            old(self).wf(),
            has_id(old(self).signature(), id),
            old(self).borrow_of(index_of_id(old(self).signature(), id)) == -1,
        ensures
            final(self).wf(),
            final(self).signature() == old(self).signature(),
            final(self).entity_ids() == old(self).entity_ids(),
            final(self).cap() == old(self).cap(),
            forall|r: int| final(self).row(r) == old(self).row(r),
            forall|c: int|
                0 <= c < old(self).signature().len() ==> #[trigger] final(self).borrow_of(c) == if c
                    == index_of_id(old(self).signature(), id) {
                    0int
                } else {
                    old(self).borrow_of(c)
                },
    {
        let c = self.column_of(id).unwrap();
        self.set_borrow(c, 0);
    }
}

/// Components that are, column by column, the cells of a row are, by id, that
/// row.
proof fn lemma_by_id_of_row(
    components: Seq<ComponentView>,
    row: Map<u64, ComponentView>,
    signature: Seq<TypeInfo>,
)
    requires
        distinct_ids(signature),
        infos(components) == signature,
        forall|id: u64| row.contains_key(id) <==> has_id(signature, id),
        forall|c: int|
            0 <= c < signature.len() ==> row[(#[trigger] signature[c]).id] == components[c],
    ensures
        crate::component::by_id(components) == row,
{
    crate::component::lemma_by_id_domain(components);
    assert forall|id: u64| crate::component::by_id(components).contains_key(id) implies #[trigger]
        crate::component::by_id(components)[id] == row[id] by {
        let c = index_of_id(signature, id);
        assert(signature[c].id == id);
        assert(infos(components)[c] == components[c].info);
        crate::component::lemma_by_id_distinct(components, c);
    }
    assert(crate::component::by_id(components) =~= row);
}

} // verus!

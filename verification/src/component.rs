//! Component types, component values and the canonical column order.

use crate::frame::MissingComponent;
use vstd::prelude::*;

verus! {

broadcast use vstd::seq_lib::group_to_multiset_ensures;

/// What the store knows of a component type: its identity and the layout of its
/// values.
#[derive(Clone, Copy, Debug, PartialEq, Eq, Hash, Structural)]
pub struct TypeInfo {
    /// Identity of the type. Two components are of the same type exactly when
    /// their ids are equal.
    pub id: u64,
    /// Size of one value, in bytes.
    pub size: usize,
    /// Alignment of a value, in bytes.
    pub align: usize,
}

/// `n` is a power of two, in the form that a machine word tests it.
pub open spec fn power_of_two(n: usize) -> bool {
    n != 0 && n & ((n - 1) as usize) == 0
}

/// The canonical order of component types: higher alignment first, then lower
/// id.
pub open spec fn precedes(a: TypeInfo, b: TypeInfo) -> bool {
    a.align > b.align || (a.align == b.align && a.id < b.id)
}

/// Every element of `s` precedes every later one.
pub open spec fn canonical(s: Seq<TypeInfo>) -> bool {
    forall|i: int, j: int| 0 <= i < j < s.len() ==> precedes(#[trigger] s[i], #[trigger] s[j])
}

/// No two elements of `s` have the same id.
pub open spec fn distinct_ids(s: Seq<TypeInfo>) -> bool {
    forall|i: int, j: int| 0 <= i < j < s.len() ==> (#[trigger] s[i]).id != (#[trigger] s[j]).id
}

/// The ids of `s`, in order.
pub open spec fn ids_of(s: Seq<TypeInfo>) -> Seq<u64> {
    Seq::new(s.len(), |i: int| s[i].id)
}

/// Some element of `s` has id `id`.
pub open spec fn has_id(s: Seq<TypeInfo>, id: u64) -> bool {
    exists|i: int| 0 <= i < s.len() && (#[trigger] s[i]).id == id
}

/// The position in `s` of the element with id `id`.
pub open spec fn index_of_id(s: Seq<TypeInfo>, id: u64) -> int {
    choose|i: int| 0 <= i < s.len() && (#[trigger] s[i]).id == id
}

impl TypeInfo {
    /// The alignment is a power of two.
    pub open spec fn wf(&self) -> bool {
        power_of_two(self.align)
    }

    /// The type `id` with values of `size` bytes aligned to `align`, or `None`
    /// when `align` is not a power of two.
    pub fn new(id: u64, size: usize, align: usize) -> (info: Option<TypeInfo>)
        ensures
            info == if power_of_two(align) {
                Some(TypeInfo { id, size, align })
            } else {
                None::<TypeInfo>
            },
    {
        if align != 0 && align & (align - 1) == 0 {
            Some(TypeInfo { id, size, align })
        } else {
            None
        }
    }

    /// The identity of the type.
    pub fn id(&self) -> (id: u64)
        ensures
            id == self.id,
    {
        self.id
    }

    /// The size of one value, in bytes.
    pub fn size(&self) -> (size: usize)
        ensures
            size == self.size,
    {
        self.size
    }

    /// The alignment of a value, in bytes.
    pub fn align(&self) -> (align: usize)
        ensures
            align == self.align,
    {
        self.align
    }

    /// Whether `self` comes before `other` in the canonical order.
    pub fn precedes(&self, other: &TypeInfo) -> (b: bool)
        ensures
            b == precedes(*self, *other),
    {
        self.align > other.align || (self.align == other.align && self.id < other.id)
    }
}


/// A canonical sequence holds no element twice.
pub proof fn lemma_canonical_no_duplicates(s: Seq<TypeInfo>)
    requires
        canonical(s),
    ensures
        s.no_duplicates(),
{
    assert forall|i: int, j: int| 0 <= i < s.len() && 0 <= j < s.len() && i != j implies s[i]
        != s[j] by {
        if i < j {
            assert(precedes(s[i], s[j]));
        } else {
            assert(precedes(s[j], s[i]));
        }
    }
}

/// Two canonical sequences with the same elements are the same sequence: the
/// order in which a set of types is given does not show in its canonical form.
pub proof fn lemma_canonical_unique(a: Seq<TypeInfo>, b: Seq<TypeInfo>)
    requires
        canonical(a),
        canonical(b),
        forall|x: TypeInfo| a.contains(x) <==> b.contains(x),
    ensures
        a == b,
    decreases a.len(),
{
    lemma_canonical_no_duplicates(a);
    lemma_canonical_no_duplicates(b);
    if a.len() == 0 {
        if b.len() > 0 {
            assert(b.contains(b[0]));
            assert(a.contains(b[0]));
        }
        assert(a =~= b);
    } else {
        assert(a.contains(a[0]));
        assert(b.contains(a[0]));
        let j = choose|j: int| 0 <= j < b.len() && b[j] == a[0];
        assert(b.contains(b[0]));
        assert(a.contains(b[0]));
        let i = choose|i: int| 0 <= i < a.len() && a[i] == b[0];
        if j > 0 {
            assert(precedes(b[0], b[j]));
            if i > 0 {
                assert(precedes(a[0], a[i]));
            }
            assert(false);
        }
        let at = a.drop_first();
        let bt = b.drop_first();
        assert forall|x: TypeInfo| at.contains(x) <==> bt.contains(x) by {
            if at.contains(x) {
                let k = choose|k: int| 0 <= k < at.len() && at[k] == x;
                assert(a[k + 1] == x);
                assert(a.contains(x));
                assert(b.contains(x));
                let m = choose|m: int| 0 <= m < b.len() && b[m] == x;
                assert(m != 0);
                assert(bt[m - 1] == x);
            }
            if bt.contains(x) {
                let k = choose|k: int| 0 <= k < bt.len() && bt[k] == x;
                assert(b[k + 1] == x);
                assert(b.contains(x));
                assert(a.contains(x));
                let m = choose|m: int| 0 <= m < a.len() && a[m] == x;
                assert(m != 0);
                assert(at[m - 1] == x);
            }
        }
        assert(canonical(at)) by {
            assert forall|p: int, q: int| 0 <= p < q < at.len() implies precedes(
                #[trigger] at[p],
                #[trigger] at[q],
            ) by {
                assert(precedes(a[p + 1], a[q + 1]));
            }
        }
        assert(canonical(bt)) by {
            assert forall|p: int, q: int| 0 <= p < q < bt.len() implies precedes(
                #[trigger] bt[p],
                #[trigger] bt[q],
            ) by {
                assert(precedes(b[p + 1], b[q + 1]));
            }
        }
        lemma_canonical_unique(at, bt);
        assert(a =~= seq![a[0]] + at);
        assert(b =~= seq![b[0]] + bt);
    }
}

/// Two sequences with the same elements, counted, still have the same elements,
/// counted, when a function is applied to each element.
pub proof fn lemma_map_multiset<A, B>(a: Seq<A>, b: Seq<A>, f: spec_fn(A) -> B)
    requires
        a.to_multiset() == b.to_multiset(),
    ensures
        a.map_values(f).to_multiset() == b.map_values(f).to_multiset(),
    decreases a.len(),
{
    vstd::seq_lib::to_multiset_len(a);
    vstd::seq_lib::to_multiset_len(b);
    let ma = a.map_values(f);
    let mb = b.map_values(f);
    if a.len() == 0 {
        assert(ma =~= mb);
    } else {
        let last = a.len() - 1;
        let x = a[last];
        assert(a.contains(x));
        vstd::seq_lib::to_multiset_contains(a, x);
        vstd::seq_lib::to_multiset_contains(b, x);
        let i = choose|i: int| 0 <= i < b.len() && b[i] == x;
        let a1 = a.remove(last);
        let b1 = b.remove(i);
        vstd::seq_lib::to_multiset_remove(a, last);
        vstd::seq_lib::to_multiset_remove(b, i);
        lemma_map_multiset(a1, b1, f);
        assert(a1.map_values(f) =~= ma.remove(last));
        assert(b1.map_values(f) =~= mb.remove(i));
        vstd::seq_lib::to_multiset_remove(ma, last);
        vstd::seq_lib::to_multiset_remove(mb, i);
        assert(ma.contains(ma[last]));
        assert(mb.contains(mb[i]));
        vstd::seq_lib::to_multiset_contains(ma, f(x));
        vstd::seq_lib::to_multiset_contains(mb, f(x));
        assert(ma.to_multiset() =~= ma.to_multiset().remove(f(x)).insert(f(x)));
        assert(mb.to_multiset() =~= mb.to_multiset().remove(f(x)).insert(f(x)));
    }
}

/// Whether no two types of `types` have the same id, so that one entity can
/// have them all.
pub fn distinct_types(types: &Vec<TypeInfo>) -> (b: bool)
    ensures
        b == distinct_ids(types@),
{
    let mut j: usize = 0;
    while j < types.len()
        invariant
            j <= types@.len(),
            forall|a: int, b: int| 0 <= a < b < j ==> (#[trigger] types@[a]).id != (#[trigger] types@[b]).id,
        decreases types@.len() - j,
    {
        let mut i: usize = 0;
        while i < j
            invariant
                i <= j < types@.len(),
                forall|a: int| 0 <= a < i ==> (#[trigger] types@[a]).id != types@[j as int].id,
            decreases j - i,
        {
            if types[i].id == types[j].id {
                assert(types@[i as int].id == types@[j as int].id);
                return false;
            }
            i = i + 1;
        }
        j = j + 1;
    }
    true
}

/// The types of `types` in canonical order.
pub fn canonical_order(types: &Vec<TypeInfo>) -> (sorted: Vec<TypeInfo>)
    requires
        distinct_ids(types@),
    ensures
        canonical(sorted@),
        distinct_ids(sorted@),
        sorted@.to_multiset() == types@.to_multiset(),
        sorted@.len() == types@.len(),
        forall|x: TypeInfo| sorted@.contains(x) <==> types@.contains(x),
        forall|id: u64| has_id(sorted@, id) <==> has_id(types@, id),
{
    let mut out: Vec<TypeInfo> = Vec::new();
    let mut k: usize = 0;
    assert(types@.take(0) =~= Seq::<TypeInfo>::empty());
    while k < types.len()
        invariant
            k <= types.len(),
            distinct_ids(types@),
            canonical(out@),
            out@.len() == k,
            out@.to_multiset() == types@.take(k as int).to_multiset(),
        decreases types.len() - k,
    {
        let x = types[k];
        let mut p: usize = 0;
        while p < out.len() && out[p].precedes(&x)
            invariant
                p <= out.len(),
                forall|i: int| 0 <= i < p ==> precedes(#[trigger] out@[i], x),
            decreases out.len() - p,
        {
            p += 1;
        }
        proof {
            let prefix = types@.take(k as int);
            assert forall|i: int| 0 <= i < out@.len() implies (#[trigger] out@[i]).id != x.id by {
                assert(out@.contains(out@[i]));
                vstd::seq_lib::to_multiset_contains(out@, out@[i]);
                vstd::seq_lib::to_multiset_contains(prefix, out@[i]);
                assert(prefix.contains(out@[i]));
                let j = choose|j: int| 0 <= j < prefix.len() && prefix[j] == out@[i];
                assert(types@[j] == out@[i]);
            }
            let next = out@.insert(p as int, x);
            assert forall|i: int, j: int| 0 <= i < j < next.len() implies precedes(
                #[trigger] next[i],
                #[trigger] next[j],
            ) by {
                if j < p {
                    assert(precedes(out@[i], out@[j]));
                } else if j == p {
                    assert(precedes(out@[i], x));
                } else if i < p {
                    assert(precedes(out@[i], out@[j - 1]));
                } else if i == p {
                    assert(out@[p as int].id != x.id);
                    if j - 1 > p {
                        assert(precedes(out@[p as int], out@[j - 1]));
                    }
                } else {
                    assert(precedes(out@[i - 1], out@[j - 1]));
                }
            }
            assert(types@.take(k + 1) =~= prefix.push(x));
        }
        out.insert(p, x);
        k += 1;
    }
    proof {
        assert(types@.take(k as int) =~= types@);
        assert forall|x: TypeInfo| out@.contains(x) <==> types@.contains(x) by {
            vstd::seq_lib::to_multiset_contains(out@, x);
            vstd::seq_lib::to_multiset_contains(types@, x);
        }
        assert forall|i: int, j: int| 0 <= i < j < out@.len() implies (#[trigger] out@[i]).id != (
        #[trigger] out@[j]).id by {
            lemma_same_elements_distinct(types@, out@, i, j);
        }
        assert forall|id: u64| has_id(out@, id) <==> has_id(types@, id) by {
            if has_id(out@, id) {
                let i = index_of_id(out@, id);
                assert(out@.contains(out@[i]));
                let j = choose|j: int| 0 <= j < types@.len() && types@[j] == out@[i];
                assert(types@[j].id == id);
            }
            if has_id(types@, id) {
                let i = index_of_id(types@, id);
                assert(types@.contains(types@[i]));
                let j = choose|j: int| 0 <= j < out@.len() && out@[j] == types@[i];
                assert(out@[j].id == id);
            }
        }
    }
    out
}

/// Two different positions of a canonical sequence whose elements all come from
/// a sequence of distinct ids hold different ids.
proof fn lemma_same_elements_distinct(types: Seq<TypeInfo>, out: Seq<TypeInfo>, i: int, j: int)
    requires
        distinct_ids(types),
        canonical(out),
        forall|x: TypeInfo| out.contains(x) ==> types.contains(x),
        0 <= i < j < out.len(),
    ensures
        out[i].id != out[j].id,
{
    assert(out.contains(out[i]));
    assert(out.contains(out[j]));
    let a = choose|a: int| 0 <= a < types.len() && types[a] == out[i];
    let b = choose|b: int| 0 <= b < types.len() && types[b] == out[j];
    assert(precedes(out[i], out[j]));
    if out[i].id == out[j].id {
        if a < b {
            assert(types[a].id != types[b].id);
        } else if b < a {
            assert(types[b].id != types[a].id);
        }
    }
}

/// A component as contracts speak of it: its type and the bytes of its value.
pub struct ComponentView {
    pub info: TypeInfo,
    pub bytes: Seq<u8>,
}

/// One component: the bytes of a value, with the type they are a value of.
#[derive(Debug)]
pub struct Component {
    pub info: TypeInfo,
    pub bytes: Vec<u8>,
}

impl View for Component {
    type V = ComponentView;

    open spec fn view(&self) -> ComponentView {
        ComponentView { info: self.info, bytes: self.bytes@ }
    }
}

impl Component {
    /// The value has as many bytes as its type says.
    pub open spec fn wf(&self) -> bool {
        self.bytes@.len() == self.info.size
    }

    /// The component of type `info` whose value is `bytes`, or `None` when
    /// `bytes` is not of the type's size.
    pub fn new(info: TypeInfo, bytes: Vec<u8>) -> (c: Option<Component>)
        ensures
            c is Some <==> bytes@.len() == info.size,
            c matches Some(c) ==> c.wf() && c.info == info && c.bytes@ == bytes@,
    {
        if bytes.len() == info.size {
            Some(Component { info, bytes })
        } else {
            None
        }
    }

    /// The type of the component.
    pub fn info(&self) -> (info: TypeInfo)
        ensures
            info == self.info,
    {
        self.info
    }

    /// The bytes of the value.
    pub fn bytes(&self) -> (bytes: &Vec<u8>)
        ensures
            bytes@ == self.bytes@,
    {
        &self.bytes
    }
}

/// The views of the components of `v`, in order.
pub open spec fn views(v: Seq<Component>) -> Seq<ComponentView> {
    Seq::new(v.len(), |i: int| v[i]@)
}

/// The types of the components of `s`, in order.
pub open spec fn infos(s: Seq<ComponentView>) -> Seq<TypeInfo> {
    Seq::new(s.len(), |i: int| s[i].info)
}

/// The components of `s` by type id. Where two have the same id, the later one
/// stands.
pub open spec fn by_id(s: Seq<ComponentView>) -> Map<u64, ComponentView>
    decreases s.len(),
{
    if s.len() == 0 {
        Map::empty()
    } else {
        by_id(s.drop_last()).insert(s.last().info.id, s.last())
    }
}

/// Every component of `s` has as many bytes as its type says.
pub open spec fn all_sized(s: Seq<ComponentView>) -> bool {
    forall|i: int| 0 <= i < s.len() ==> (#[trigger] s[i]).bytes.len() == s[i].info.size
}

/// `by_id` has a key for each id in `s` and no others, and the value of a key
/// is a component of `s` with that id.
pub proof fn lemma_by_id_domain(s: Seq<ComponentView>)
    ensures
        forall|id: u64| #[trigger] by_id(s).contains_key(id) <==> has_id(infos(s), id),
        forall|id: u64| #[trigger]
            by_id(s).contains_key(id) ==> by_id(s)[id].info.id == id && s.contains(by_id(s)[id]),
    decreases s.len(),
{
    if s.len() > 0 {
        let t = s.drop_last();
        let last = s.last();
        lemma_by_id_domain(t);
        assert(by_id(s) == by_id(t).insert(last.info.id, last));
        assert forall|id: u64| #[trigger] by_id(s).contains_key(id) <==> has_id(infos(s), id) by {
            if id == last.info.id {
                assert(infos(s)[s.len() - 1].id == id);
            } else {
                assert(by_id(s).contains_key(id) == by_id(t).contains_key(id));
                if has_id(infos(t), id) {
                    let i = index_of_id(infos(t), id);
                    assert(infos(s)[i].id == id);
                }
                if has_id(infos(s), id) {
                    let i = index_of_id(infos(s), id);
                    assert(infos(t)[i].id == id);
                }
            }
        }
        assert forall|id: u64| #[trigger] by_id(s).contains_key(id) implies by_id(s)[id].info.id
            == id && s.contains(by_id(s)[id]) by {
            if id == last.info.id {
                assert(s[s.len() - 1] == by_id(s)[id]);
            } else {
                assert(by_id(t).contains_key(id));
                let c = by_id(t)[id];
                assert(t.contains(c));
                let i = choose|i: int| 0 <= i < t.len() && t[i] == c;
                assert(s[i] == c);
            }
        }
    } else {
        assert forall|id: u64| !has_id(infos(s), id) by {}
    }
}

/// One component, by id, is the map from its id to it.
pub proof fn lemma_by_id_single(c: ComponentView)
    ensures
        by_id(seq![c]) == Map::<u64, ComponentView>::empty().insert(c.info.id, c),
{
    let s = seq![c];
    assert(s.drop_last() =~= Seq::<ComponentView>::empty());
    assert(by_id(s.drop_last()) == Map::<u64, ComponentView>::empty());
    assert(s.last() == c);
}

/// Where the ids of `s` are distinct, `by_id` maps the id of each component to
/// that component.
pub proof fn lemma_by_id_distinct(s: Seq<ComponentView>, i: int)
    requires
        distinct_ids(infos(s)),
        0 <= i < s.len(),
    ensures
        by_id(s).contains_key(s[i].info.id),
        by_id(s)[s[i].info.id] == s[i],
    decreases s.len(),
{
    let t = s.drop_last();
    if i < s.len() - 1 {
        assert(infos(s)[i].id != infos(s)[s.len() - 1].id);
        assert forall|a: int, b: int| 0 <= a < b < infos(t).len() implies (#[trigger] infos(
            t,
        )[a]).id != (#[trigger] infos(t)[b]).id by {
            assert(infos(s)[a].id != infos(s)[b].id);
        }
        lemma_by_id_distinct(t, i);
    }
}

} // verus!

verus! {

/// The first position in `s` of an element with id `id`.
pub open spec fn first_of(s: Seq<TypeInfo>, id: u64) -> int {
    choose|i: int|
        0 <= i < s.len() && (#[trigger] s[i]).id == id && forall|k: int|
            0 <= k < i ==> (#[trigger] s[k]).id != id
}

/// The position of an element with id `id` before which no element has that
/// id is the first position of such an element.
pub proof fn lemma_first_of(s: Seq<TypeInfo>, id: u64, at: int)
    requires
        0 <= at < s.len(),
        s[at].id == id,
        forall|k: int| 0 <= k < at ==> (#[trigger] s[k]).id != id,
    ensures
        first_of(s, id) == at,
{
    let i = first_of(s, id);
    assert(0 <= i < s.len() && s[i].id == id && forall|k: int|
        0 <= k < i ==> (#[trigger] s[k]).id != id);
    if i < at {
        assert(s[i].id != id);
    } else if at < i {
        assert(s[at].id != id);
    }
}

/// A set of components to give to one entity, in the order in which they were
/// added.
#[derive(Debug)]
pub struct Bundle {
    pub components: Vec<Component>,
}

impl View for Bundle {
    type V = Seq<ComponentView>;

    open spec fn view(&self) -> Seq<ComponentView> {
        views(self.components@)
    }
}

impl Bundle {
    /// Every component has the size of its type, and no type occurs twice.
    pub open spec fn wf(&self) -> bool {
        &&& all_sized(self@)
        &&& distinct_ids(infos(self@))
    }

    /// The bundle without components.
    pub fn new() -> (bundle: Bundle)
        ensures
            bundle@ == Seq::<ComponentView>::empty(),
            bundle.wf(),
    {
        let bundle = Bundle { components: Vec::new() };
        assert(bundle@ =~= Seq::<ComponentView>::empty());
        bundle
    }

    /// The bundle of `components`, in their order.
    pub fn from_components(components: Vec<Component>) -> (bundle: Bundle)
        ensures
            bundle@ == views(components@),
    {
        Bundle { components }
    }

    /// Adds `component` at the end.
    pub fn push(&mut self, component: Component)
        ensures
            final(self)@ == old(self)@.push(component@),
    {
        self.components.push(component);
        assert(self@ =~= old(self)@.push(component@));
    }

    /// The number of components.
    pub fn len(&self) -> (n: usize)
        ensures
            n == self@.len(),
    {
        self.components.len()
    }

    /// Whether the bundle can be given to an entity: every component has the
    /// size of its type, and no type occurs twice.
    pub fn is_valid(&self) -> (b: bool)
        ensures
            b == self.wf(),
    {
        let n = self.components.len();
        let mut i: usize = 0;
        while i < n
            invariant
                i <= n,
                n == self.components@.len(),
                forall|k: int| 0 <= k < i ==> (#[trigger] self@[k]).bytes.len() == self@[k].info.size,
                forall|k: int, m: int|
                    0 <= k < m < i ==> (#[trigger] infos(self@)[k]).id != (#[trigger] infos(
                        self@,
                    )[m]).id,
            decreases n - i,
        {
            if self.components[i].bytes.len() != self.components[i].info.size {
                assert(self@[i as int].bytes.len() != self@[i as int].info.size);
                return false;
            }
            let mut j: usize = 0;
            while j < i
                invariant
                    j <= i < n,
                    n == self.components@.len(),
                    forall|k: int| 0 <= k < j ==> (#[trigger] infos(self@)[k]).id != infos(
                        self@,
                    )[i as int].id,
                decreases i - j,
            {
                if self.components[j].info.id == self.components[i].info.id {
                    assert(infos(self@)[j as int].id == infos(self@)[i as int].id);
                    return false;
                }
                j = j + 1;
            }
            i = i + 1;
        }
        true
    }

    /// Whether the bundle has a component of the type with id `id`.
    pub fn has(&self, id: u64) -> (b: bool)
        ensures
            b == has_id(infos(self@), id),
    {
        let mut i: usize = 0;
        while i < self.components.len()
            invariant
                i <= self.components@.len(),
                forall|k: int| 0 <= k < i ==> (#[trigger] infos(self@)[k]).id != id,
            decreases self.components@.len() - i,
        {
            if self.components[i].info.id == id {
                assert(infos(self@)[i as int].id == id);
                return true;
            }
            i = i + 1;
        }
        false
    }

    /// The types of the components, in the order of the components.
    pub fn infos(&self) -> (types: Vec<TypeInfo>)
        ensures
            types@ == infos(self@),
    {
        let mut types: Vec<TypeInfo> = Vec::new();
        let mut i: usize = 0;
        while i < self.components.len()
            invariant
                i <= self.components@.len(),
                types@.len() == i,
                forall|k: int| 0 <= k < i ==> types@[k] == self.components@[k].info,
            decreases self.components@.len() - i,
        {
            types.push(self.components[i].info);
            i = i + 1;
        }
        assert(types@ =~= infos(self@));
        types
    }

    /// The types of the components, in canonical order.
    pub fn type_info(&self) -> (types: Vec<TypeInfo>)
        requires
            distinct_ids(infos(self@)),
        ensures
            canonical(types@),
            distinct_ids(types@),
            types@.len() == self@.len(),
            forall|x: TypeInfo| types@.contains(x) <==> infos(self@).contains(x),
            forall|id: u64| has_id(types@, id) <==> has_id(infos(self@), id),
    {
        let given = self.infos();
        canonical_order(&given)
    }

    /// The ids of the types of the components, in canonical order.
    pub fn type_ids(&self) -> (ids: Vec<u64>)
        requires
            distinct_ids(infos(self@)),
        ensures
            exists|types: Seq<TypeInfo>|
                #![trigger ids_of(types)]
                canonical(types) && ids@ == ids_of(types) && forall|x: TypeInfo|
                    types.contains(x) <==> infos(self@).contains(x),
    {
        let types = self.type_info();
        let mut ids: Vec<u64> = Vec::new();
        let mut i: usize = 0;
        while i < types.len()
            invariant
                i <= types@.len(),
                ids@.len() == i,
                forall|k: int| 0 <= k < i ==> ids@[k] == types@[k].id,
            decreases types@.len() - i,
        {
            ids.push(types[i].id);
            i = i + 1;
        }
        assert(ids@ =~= ids_of(types@));
        ids
    }

    /// The bundle of the types `types`, in their order, with a copy of the
    /// component of each type from `source`: the first of that type, where
    /// there are several. Returns the error when `source` has no component of
    /// one of the types: the error then names the first such type.
    pub fn get(types: &Vec<TypeInfo>, source: &Vec<Component>) -> (r: Result<
        Bundle,
        MissingComponent,
    >)
        ensures
            r is Ok <==> forall|i: int|
                0 <= i < types@.len() ==> has_id(infos(views(source@)), (#[trigger] types@[i]).id),
            r matches Ok(bundle) ==> bundle@.len() == types@.len() && forall|i: int|
                0 <= i < types@.len() ==> #[trigger] bundle@[i] == views(source@)[first_of(
                    infos(views(source@)),
                    types@[i].id,
                )],
            r matches Err(missing) ==> exists|i: int|
                0 <= i < types@.len() && (#[trigger] types@[i]).id == missing.id && !has_id(
                    infos(views(source@)),
                    missing.id,
                ) && forall|j: int|
                    0 <= j < i ==> has_id(infos(views(source@)), (#[trigger] types@[j]).id),
    {
        let ghost all = infos(views(source@));
        let mut found: Vec<Component> = Vec::new();
        let mut i: usize = 0;
        while i < types.len()
            invariant
                i <= types@.len(),
                all == infos(views(source@)),
                found@.len() == i,
                forall|k: int| 0 <= k < i ==> has_id(all, (#[trigger] types@[k]).id),
                forall|k: int|
                    0 <= k < i ==> (#[trigger] found@[k])@ == views(source@)[first_of(
                        all,
                        types@[k].id,
                    )],
            decreases types@.len() - i,
        {
            let id = types[i].id;
            let mut j: usize = 0;
            while j < source.len() && source[j].info.id != id
                invariant
                    j <= source@.len(),
                    all == infos(views(source@)),
                    forall|k: int| 0 <= k < j ==> (#[trigger] all[k]).id != id,
                decreases source@.len() - j,
            {
                j = j + 1;
            }
            if j == source.len() {
                return Err(MissingComponent { id });
            }
            proof {
                assert(all[j as int].id == id);
                lemma_first_of(all, id, j as int);
            }
            found.push(Component { info: source[j].info, bytes: source[j].bytes.clone() });
            i = i + 1;
        }
        let bundle = Bundle::from_components(found);
        Ok(bundle)
    }

    /// Hands the components over, in their order.
    pub fn put(self) -> (components: Vec<Component>)
        ensures
            views(components@) == self@,
    {
        self.components
    }
}

} // verus!

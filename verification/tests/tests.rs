use moss_hecs::component::distinct_types;
use moss_hecs::Bundle;
use moss_hecs::ColumnBatchType;
use moss_hecs::Component;
use moss_hecs::ComponentError;
use moss_hecs::Entity;
use moss_hecs::EntityBuilder;
use moss_hecs::EntityBuilderClone;
use moss_hecs::Fetch;
use moss_hecs::Frame;
use moss_hecs::Item;
use moss_hecs::MissingComponent;
use moss_hecs::PreparedQuery;
use moss_hecs::QueryOneError;
use moss_hecs::TypeInfo;

const BOOL: u64 = 1;
const I32: u64 = 2;
const STR: u64 = 3;
const F64: u64 = 4;
const USIZE: u64 = 5;
const CHAR: u64 = 6;
const STRING: u64 = 7;
const BYTES: u64 = 8;
const F32: u64 = 9;
const COW: u64 = 10;
const U128: u64 = 11;
const I64: u64 = 12;
const TEST_COMPONENT: u64 = 13;

fn component(id: u64, align: usize, bytes: Vec<u8>) -> Component {
    let info = TypeInfo::new(id, bytes.len(), align).unwrap();
    Component::new(info, bytes).unwrap()
}

fn padded(value: &str) -> Vec<u8> {
    let mut bytes = value.as_bytes().to_vec();
    assert!(bytes.len() <= 16);
    bytes.resize(16, 0);
    bytes
}

fn flag(value: bool) -> Component {
    component(BOOL, 1, vec![value as u8])
}

fn number(value: i32) -> Component {
    component(I32, 4, value.to_le_bytes().to_vec())
}

fn text(value: &str) -> Component {
    component(STR, 8, padded(value))
}

fn string(value: &str) -> Component {
    component(STRING, 8, padded(value))
}

fn cow(value: &str) -> Component {
    component(COW, 8, padded(value))
}

fn double(value: f64) -> Component {
    component(F64, 8, value.to_le_bytes().to_vec())
}

fn single(value: f32) -> Component {
    component(F32, 4, value.to_le_bytes().to_vec())
}

fn size(value: usize) -> Component {
    component(USIZE, 8, (value as u64).to_le_bytes().to_vec())
}

fn letter(value: char) -> Component {
    component(CHAR, 4, (value as u32).to_le_bytes().to_vec())
}

fn wide(value: u128) -> Component {
    component(U128, 16, value.to_le_bytes().to_vec())
}

fn kilobyte() -> Component {
    component(BYTES, 1, vec![0u8; 1024])
}

fn test_component(id: i32) -> Component {
    component(TEST_COMPONENT, 4, id.to_le_bytes().to_vec())
}

fn bundle(components: Vec<Component>) -> Bundle {
    let bundle = Bundle::from_components(components);
    assert!(bundle.is_valid());
    bundle
}

fn to_int(bytes: &[u8]) -> i32 {
    i32::from_le_bytes([bytes[0], bytes[1], bytes[2], bytes[3]])
}

fn to_text(bytes: &[u8]) -> String {
    let end = bytes.iter().position(|b| *b == 0).unwrap_or(bytes.len());
    String::from_utf8(bytes[..end].to_vec()).unwrap()
}

fn to_flag(bytes: &[u8]) -> bool {
    bytes[0] != 0
}

fn read_int(frame: &Frame, e: Entity) -> i32 {
    to_int(frame.get(e, I32).unwrap())
}

fn read_text(frame: &Frame, e: Entity, id: u64) -> String {
    to_text(frame.get(e, id).unwrap())
}

fn value(item: &Item) -> &[u8] {
    match item {
        Item::Value(bytes) => bytes,
        other => panic!("no value: {:?}", other),
    }
}

fn parts(item: &Item) -> &[Item] {
    match item {
        Item::Tuple(items) => items,
        other => panic!("no tuple: {:?}", other),
    }
}

fn shared(id: u64) -> Fetch {
    Fetch::Shared(id)
}

fn exclusive(id: u64) -> Fetch {
    Fetch::Exclusive(id)
}

fn both(first: Fetch, second: Fetch) -> Fetch {
    Fetch::Tuple(vec![first, second])
}

fn query(frame: &Frame, fetch: &Fetch) -> Vec<(Entity, Item)> {
    assert!(frame.can_query(fetch));
    frame.query(fetch)
}

fn count(frame: &Frame) -> usize {
    query(frame, &Fetch::Unit).len()
}

fn ints_and_texts(found: &[(Entity, Item)]) -> Vec<(Entity, i32, String)> {
    found
        .iter()
        .map(|(e, item)| (*e, to_int(value(&parts(item)[0])), to_text(value(&parts(item)[1]))))
        .collect()
}

#[test]
fn random_access() {
    let mut frame = Frame::new();

    let e = frame.spawn(bundle(vec![text("abc"), number(123)]));
    let f = frame.spawn(bundle(vec![text("def"), number(456), flag(true)]));
    assert_eq!(read_text(&frame, e, STR), "abc");
    assert_eq!(read_int(&frame, e), 123);
    assert_eq!(read_text(&frame, f, STR), "def");
    assert_eq!(read_int(&frame, f), 456);
    frame.set(f, &number(42)).unwrap();
    assert_eq!(read_int(&frame, f), 42);
}

#[test]
fn despawn() {
    let mut frame = Frame::new();
    let e = frame.spawn(bundle(vec![text("abc"), number(123)]));
    let f = frame.spawn(bundle(vec![text("def"), number(456)]));
    assert_eq!(count(&frame), 2);
    frame.despawn(e).unwrap();
    assert_eq!(count(&frame), 1);
    assert!(frame.get(e, STR).is_err());
    assert!(frame.get(e, I32).is_err());
    assert_eq!(read_text(&frame, f, STR), "def");
    assert_eq!(read_int(&frame, f), 456);
}

#[test]
fn query_all() {
    let mut frame = Frame::new();
    let e = frame.spawn(bundle(vec![text("abc"), number(123)]));
    let f = frame.spawn(bundle(vec![text("def"), number(456)]));

    let ents = ints_and_texts(&query(&frame, &both(shared(I32), shared(STR))));
    assert_eq!(ents.len(), 2);
    assert!(ents.contains(&(e, 123, "abc".to_string())));
    assert!(ents.contains(&(f, 456, "def".to_string())));

    let ents = query(&frame, &Fetch::Unit);
    assert_eq!(ents.len(), 2);
    assert!(ents.iter().any(|(x, item)| *x == e && matches!(item, Item::Unit)));
    assert!(ents.iter().any(|(x, item)| *x == f && matches!(item, Item::Unit)));
}

#[test]
fn query_single_component() {
    let mut frame = Frame::new();
    let e = frame.spawn(bundle(vec![text("abc"), number(123)]));
    let f = frame.spawn(bundle(vec![text("def"), number(456), flag(true)]));
    let ents = query(&frame, &shared(I32))
        .iter()
        .map(|(e, item)| (*e, to_int(value(item))))
        .collect::<Vec<_>>();
    assert_eq!(ents.len(), 2);
    assert!(ents.contains(&(e, 123)));
    assert!(ents.contains(&(f, 456)));
}

#[test]
fn query_missing_component() {
    let mut frame = Frame::new();
    frame.spawn(bundle(vec![text("abc"), number(123)]));
    frame.spawn(bundle(vec![text("def"), number(456)]));
    assert!(query(&frame, &both(shared(BOOL), shared(I32))).is_empty());
}

#[test]
fn query_sparse_component() {
    let mut frame = Frame::new();
    frame.spawn(bundle(vec![text("abc"), number(123)]));
    let f = frame.spawn(bundle(vec![text("def"), number(456), flag(true)]));
    let ents = query(&frame, &shared(BOOL))
        .iter()
        .map(|(e, item)| (*e, to_flag(value(item))))
        .collect::<Vec<_>>();
    assert_eq!(ents, &[(f, true)]);
}

#[test]
fn query_optional_component() {
    let mut frame = Frame::new();
    let e = frame.spawn(bundle(vec![text("abc"), number(123)]));
    let f = frame.spawn(bundle(vec![text("def"), number(456), flag(true)]));
    let fetch = both(Fetch::Optional(Box::new(shared(BOOL))), shared(I32));
    let ents = query(&frame, &fetch)
        .iter()
        .map(|(e, item)| {
            let found = match &parts(item)[0] {
                Item::Present(inner) => Some(to_flag(value(inner))),
                Item::Absent => None,
                other => panic!("no option: {:?}", other),
            };
            (*e, found, to_int(value(&parts(item)[1])))
        })
        .collect::<Vec<_>>();
    assert_eq!(ents.len(), 2);
    assert!(ents.contains(&(e, None, 123)));
    assert!(ents.contains(&(f, Some(true), 456)));
}

#[test]
fn prepare_query() {
    let mut frame = Frame::new();
    let e = frame.spawn(bundle(vec![text("abc"), number(123)]));
    let f = frame.spawn(bundle(vec![text("def"), number(456)]));

    let mut query = PreparedQuery::new(both(shared(I32), shared(STR)));

    let ents = ints_and_texts(&query.query(&frame));
    assert_eq!(ents.len(), 2);
    assert!(ents.contains(&(e, 123, "abc".to_string())));
    assert!(ents.contains(&(f, 456, "def".to_string())));

    let ents = ints_and_texts(&query.query_mut(&mut frame));
    assert_eq!(ents.len(), 2);
    assert!(ents.contains(&(e, 123, "abc".to_string())));
    assert!(ents.contains(&(f, 456, "def".to_string())));
}

#[test]
fn invalidate_prepared_query() {
    let mut frame = Frame::new();
    let e = frame.spawn(bundle(vec![text("abc"), number(123)]));
    let f = frame.spawn(bundle(vec![text("def"), number(456)]));

    let mut query = PreparedQuery::new(both(shared(I32), shared(STR)));

    let ents = ints_and_texts(&query.query(&frame));
    assert_eq!(ents.len(), 2);
    assert!(ents.contains(&(e, 123, "abc".to_string())));
    assert!(ents.contains(&(f, 456, "def".to_string())));

    frame.spawn(bundle(vec![flag(true)]));
    let g = frame.spawn(bundle(vec![text("ghi"), number(789)]));

    let ents = ints_and_texts(&query.query_mut(&mut frame));
    assert_eq!(ents.len(), 3);
    assert!(ents.contains(&(e, 123, "abc".to_string())));
    assert!(ents.contains(&(f, 456, "def".to_string())));
    assert!(ents.contains(&(g, 789, "ghi".to_string())));
}

#[test]
fn random_access_via_view() {
    let mut frame = Frame::new();
    let e = frame.spawn(bundle(vec![text("abc"), number(123)]));
    let f = frame.spawn(bundle(vec![text("def")]));

    let fetch = both(shared(I32), shared(STR));
    assert!(frame.can_query(&fetch));
    let view = frame.view_for(&fetch);

    let found = view.get(e).unwrap();
    assert_eq!(to_int(value(&parts(&found)[0])), 123);
    assert_eq!(to_text(value(&parts(&found)[1])), "abc");

    assert!(view.get(f).is_none());
}

#[test]
fn random_access_via_view_mut() {
    let mut frame = Frame::new();
    let e = frame.spawn(bundle(vec![text("abc"), number(123)]));
    let f = frame.spawn(bundle(vec![text("def")]));

    let fetch = both(shared(I32), shared(STR));
    let view = frame.view_mut(&fetch);

    let found = view.get(e).unwrap();
    assert_eq!(to_int(value(&parts(&found)[0])), 123);
    assert_eq!(to_text(value(&parts(&found)[1])), "abc");

    assert!(view.get(f).is_none());

    assert!(view.contains(e));
    assert!(!view.contains(f));
}

#[test]
fn view_borrow_on_frame() {
    let mut frame = Frame::new();
    let e0 = frame.spawn(bundle(vec![number(3), text("hello")]));
    let e1 = frame.spawn(bundle(vec![double(6.0), text("frame")]));
    let e2 = frame.spawn(bundle(vec![number(12)]));

    {
        let fetch = shared(STR);
        let str_view = frame.view_for(&fetch);

        assert_eq!(to_text(value(&str_view.get(e0).unwrap())), "hello");
        assert_eq!(to_text(value(&str_view.get(e1).unwrap())), "frame");
        assert!(str_view.get(e2).is_none());
    }

    {
        let fetch = exclusive(I32);
        let int_view = frame.view_for(&fetch);
        assert_eq!(to_int(value(&int_view.get(e0).unwrap())), 3);
        assert!(int_view.get(e1).is_none());
        assert_eq!(to_int(value(&int_view.get(e2).unwrap())), 12);
    }
    frame.set(e0, &number(100)).unwrap();

    {
        let fetch = both(shared(STR), exclusive(I32));
        let int_str_view = frame.view_for(&fetch);
        let found = int_str_view.get(e0).unwrap();
        assert_eq!(to_text(value(&parts(&found)[0])), "hello");
        assert_eq!(to_int(value(&parts(&found)[1])), 100);
        assert!(int_str_view.get(e1).is_none());
        assert!(int_str_view.get(e2).is_none());
    }
}

#[test]
fn view_mut_on_frame() {
    let mut frame = Frame::new();
    let e0 = frame.spawn(bundle(vec![number(3), text("hello")]));
    let e1 = frame.spawn(bundle(vec![double(6.0), text("frame")]));
    let e2 = frame.spawn(bundle(vec![number(12)]));

    let fetch = shared(STR);
    let str_view = frame.view_mut(&fetch);
    assert_eq!(to_text(value(&str_view.get(e0).unwrap())), "hello");
    assert_eq!(to_text(value(&str_view.get(e1).unwrap())), "frame");
    assert!(str_view.get(e2).is_none());

    let fetch = exclusive(I32);
    let int_view = frame.view_mut(&fetch);
    assert_eq!(to_int(value(&int_view.get(e0).unwrap())), 3);
    assert!(int_view.get(e1).is_none());
    assert_eq!(to_int(value(&int_view.get(e2).unwrap())), 12);

    frame.set(e0, &number(100)).unwrap();

    let fetch = both(shared(STR), exclusive(I32));
    let int_str_view = frame.view_mut(&fetch);
    let found = int_str_view.get(e0).unwrap();
    assert_eq!(to_text(value(&parts(&found)[0])), "hello");
    assert_eq!(to_int(value(&parts(&found)[1])), 100);
    assert!(int_str_view.get(e1).is_none());
    assert!(int_str_view.get(e2).is_none());
}

#[test]
fn build_entity() {
    let mut frame = Frame::new();
    let mut entity = EntityBuilder::new();
    entity.add(text("abc"));
    entity.add(number(123));
    let e = frame.spawn(entity.build());
    entity.add(text("def"));
    entity.add(kilobyte());
    entity.add(number(456));
    entity.add(number(789));
    let f = frame.spawn(entity.build());
    assert_eq!(read_text(&frame, e, STR), "abc");
    assert_eq!(read_int(&frame, e), 123);
    assert_eq!(read_text(&frame, f, STR), "def");
    assert_eq!(read_int(&frame, f), 789);
}

#[test]
fn build_entity_clone() {
    let mut frame = Frame::new();
    let mut entity = EntityBuilderClone::new();
    entity.add(text("def"));
    entity.add(kilobyte());
    entity.add(number(456));
    entity.add(number(789));
    entity.add_bundle(&bundle(vec![text("yup"), size(67)]));
    entity.add_bundle(&bundle(vec![single(5.0), string("Foo")]));
    entity.add_bundle(&bundle(vec![single(7.0), string("Bar"), size(42)]));
    let entity = entity.build();
    let e = frame.spawn(entity.bundle());
    let f = frame.spawn(entity.bundle());
    let g = frame.spawn(entity.bundle());
    frame.insert_one(g, cow("after")).unwrap();

    for e in [e, f, g] {
        assert_eq!(read_text(&frame, e, STR), "yup");
        assert_eq!(read_int(&frame, e), 789);
        assert_eq!(frame.get(e, USIZE).unwrap(), &42u64.to_le_bytes().to_vec());
        assert_eq!(frame.get(e, F32).unwrap(), &7.0f32.to_le_bytes().to_vec());
        assert_eq!(read_text(&frame, e, STRING), "Bar");
    }

    assert_eq!(read_text(&frame, g, COW), "after");
}

#[test]
fn build_builder_clone() {
    let mut a = EntityBuilderClone::new();
    a.add(string("abc"));
    a.add(number(123));
    let mut b = EntityBuilderClone::new();
    b.add(string("def"));
    b.add_bundle(&a.build().bundle());
    assert_eq!(b.get(STRING).map(|bytes| to_text(&bytes)), Some("abc".to_string()));
    assert_eq!(b.get(I32).map(|bytes| to_int(&bytes)), Some(123));
}

#[test]
fn cloned_builder() {
    let mut builder = EntityBuilderClone::new();
    builder.add(string("abc"));
    builder.add(number(123));

    let mut frame = Frame::new();
    let e = frame.spawn(builder.build().duplicate().bundle());
    assert_eq!(read_text(&frame, e, STRING), "abc");
    assert_eq!(read_int(&frame, e), 123);
}

#[test]
fn access_builder_components() {
    let mut frame = Frame::new();
    let mut entity = EntityBuilder::new();

    entity.add(text("abc"));
    entity.add(number(123));

    assert!(entity.has(STR));
    assert!(entity.has(I32));
    assert!(!entity.has(USIZE));

    assert_eq!(to_text(&entity.get(STR).unwrap()), "abc");
    assert_eq!(to_int(&entity.get(I32).unwrap()), 123);
    assert_eq!(entity.get(USIZE), None);

    entity.add(number(456));
    assert_eq!(to_int(&entity.get(I32).unwrap()), 456);

    let g = frame.spawn(entity.build());

    assert_eq!(read_text(&frame, g, STR), "abc");
    assert_eq!(read_int(&frame, g), 456);
}

#[test]
fn build_entity_bundle() {
    let mut frame = Frame::new();
    let mut entity = EntityBuilder::new();
    entity.add_bundle(bundle(vec![text("abc"), number(123)]));
    let e = frame.spawn(entity.build());
    entity.add(number(456));
    entity.add_bundle(bundle(vec![text("def"), kilobyte(), number(789)]));
    let f = frame.spawn(entity.build());
    assert_eq!(read_text(&frame, e, STR), "abc");
    assert_eq!(read_int(&frame, e), 123);
    assert_eq!(read_text(&frame, f, STR), "def");
    assert_eq!(read_int(&frame, f), 789);
}

#[test]
fn dynamic_components() {
    let mut frame = Frame::new();
    let e = frame.spawn(bundle(vec![number(42)]));
    frame.insert(e, bundle(vec![flag(true), text("abc")])).unwrap();
    let ints_and_flags = |frame: &Frame| {
        query(frame, &both(shared(I32), shared(BOOL)))
            .iter()
            .map(|(e, item)| (*e, to_int(value(&parts(item)[0])), to_flag(value(&parts(item)[1]))))
            .collect::<Vec<_>>()
    };
    assert_eq!(ints_and_flags(&frame), &[(e, 42, true)]);
    assert_eq!(frame.remove_one(e, I32).map(|c| to_int(c.bytes())), Ok(42));
    assert_eq!(ints_and_flags(&frame), &[]);
    assert_eq!(
        query(&frame, &both(shared(BOOL), shared(STR)))
            .iter()
            .map(|(e, item)| (*e, to_flag(value(&parts(item)[0])), to_text(value(&parts(item)[1]))))
            .collect::<Vec<_>>(),
        &[(e, true, "abc".to_string())]
    );
}

#[test]
fn disjoint_queries() {
    let mut frame = Frame::new();
    frame.spawn(bundle(vec![text("abc"), flag(true)]));
    frame.spawn(bundle(vec![text("def"), number(456)]));

    let first = both(exclusive(STR), shared(BOOL));
    let second = both(exclusive(STR), shared(I32));
    assert!(frame.can_query(&first));
    frame.borrow(&first);
    assert!(frame.can_query(&second));
    frame.borrow(&second);
    assert!(!frame.can_query(&first));
    frame.release(&second);
    frame.release(&first);
    assert!(frame.can_query(&first));
}

#[test]
fn shared_borrow() {
    let mut frame = Frame::new();
    frame.spawn(bundle(vec![text("abc"), number(123)]));
    frame.spawn(bundle(vec![text("def"), number(456)]));

    let fetch = both(shared(I32), shared(I32));
    assert!(frame.can_query(&fetch));
    frame.borrow(&fetch);
    assert!(frame.can_query(&fetch));
    assert!(frame.can_query(&shared(I32)));
    assert!(!frame.can_query(&exclusive(I32)));
    assert_eq!(frame.query_held(&fetch).len(), 2);
    assert_eq!(frame.query(&shared(I32)).len(), 2);
    frame.release(&fetch);
    assert!(frame.can_query(&exclusive(I32)));
}

#[test]
fn spawn_many() {
    let mut frame = Frame::new();
    const N: usize = 100_000;
    for _ in 0..N {
        frame.spawn(bundle(vec![wide(42)]));
    }
    assert_eq!(frame.iter().len(), N);
}

#[test]
fn clear() {
    let mut frame = Frame::new();
    frame.spawn(bundle(vec![text("abc"), number(123)]));
    frame.spawn(bundle(vec![text("def"), number(456), flag(true)]));
    frame.clear();
    assert_eq!(frame.iter().len(), 0);
}

#[test]
fn remove_missing() {
    let mut frame = Frame::new();
    let e = frame.spawn(bundle(vec![text("abc"), number(123)]));
    assert!(frame.remove_one(e, BOOL).is_err());
}

#[test]
fn exchange_components() {
    let mut frame = Frame::new();

    let entity = frame.spawn(bundle(vec![string("abc"), number(123)]));
    assert!(frame.get(entity, STRING).is_ok());
    assert!(frame.get(entity, I32).is_ok());
    assert!(frame.get(entity, BOOL).is_err());

    frame.exchange_one(entity, STRING, flag(true)).unwrap();
    assert!(frame.get(entity, STRING).is_err());
    assert!(frame.get(entity, I32).is_ok());
    assert!(frame.get(entity, BOOL).is_ok());
}

#[test]
fn reserve() {
    let mut frame = Frame::new();
    let a = frame.reserve_entity();
    let b = frame.reserve_entity();

    assert_eq!(count(&frame), 0);

    frame.flush();

    let entities = query(&frame, &Fetch::Unit).iter().map(|(e, _)| *e).collect::<Vec<_>>();

    assert_eq!(entities.len(), 2);
    assert!(entities.contains(&a));
    assert!(entities.contains(&b));
}

#[test]
fn query_batched() {
    let mut frame = Frame::new();
    let a = frame.spawn(Bundle::new());
    let b = frame.spawn(Bundle::new());
    let c = frame.spawn(bundle(vec![number(42)]));
    let unit = Fetch::Unit;
    let flat = |batches: Vec<Vec<(Entity, Item)>>| batches.into_iter().flatten().collect::<Vec<_>>();
    assert_eq!(frame.query_batched(&unit, 1).len(), 3);
    assert_eq!(frame.query_batched(&unit, 2).len(), 2);
    assert_eq!(flat(frame.query_batched(&unit, 2)).len(), 3);
    // different archetypes are always in different batches
    assert_eq!(frame.query_batched(&unit, 3).len(), 2);
    assert_eq!(flat(frame.query_batched(&unit, 3)).len(), 3);
    assert_eq!(frame.query_batched(&unit, 4).len(), 2);
    let entities = flat(frame.query_batched(&unit, 1)).iter().map(|(e, _)| *e).collect::<Vec<_>>();
    assert_eq!(entities.len(), 3);
    assert!(entities.contains(&a));
    assert!(entities.contains(&b));
    assert!(entities.contains(&c));
}

#[test]
fn query_mut_batched() {
    let mut frame = Frame::new();
    let a = frame.spawn(Bundle::new());
    let b = frame.spawn(Bundle::new());
    let c = frame.spawn(bundle(vec![number(42)]));
    let unit = Fetch::Unit;
    let flat = |batches: Vec<Vec<(Entity, Item)>>| batches.into_iter().flatten().collect::<Vec<_>>();
    assert_eq!(frame.query_mut_batched(&unit, 1).len(), 3);
    assert_eq!(frame.query_mut_batched(&unit, 2).len(), 2);
    assert_eq!(flat(frame.query_mut_batched(&unit, 2)).len(), 3);
    // different archetypes are always in different batches
    assert_eq!(frame.query_mut_batched(&unit, 3).len(), 2);
    assert_eq!(flat(frame.query_mut_batched(&unit, 3)).len(), 3);
    assert_eq!(frame.query_mut_batched(&unit, 4).len(), 2);
    let entities =
        flat(frame.query_mut_batched(&unit, 1)).iter().map(|(e, _)| *e).collect::<Vec<_>>();
    assert_eq!(entities.len(), 3);
    assert!(entities.contains(&a));
    assert!(entities.contains(&b));
    assert!(entities.contains(&c));
}

#[test]
fn spawn_batch() {
    let mut frame = Frame::new();
    frame.spawn_batch((0..10).map(|x| bundle(vec![number(x), text("abc")])).collect());
    let entity_count = query(&frame, &shared(I32)).len();
    assert_eq!(entity_count, 10);
}

#[test]
fn query_one() {
    let mut frame = Frame::new();
    let a = frame.spawn(bundle(vec![text("abc"), number(123)]));
    let b = frame.spawn(bundle(vec![text("def"), number(456)]));
    let c = frame.spawn(bundle(vec![text("ghi"), number(789), flag(true)]));
    let int = shared(I32);
    let int_and_flag = both(shared(I32), shared(BOOL));
    assert_eq!(frame.query_one(a, &int).unwrap().map(|item| to_int(value(&item))), Some(123));
    assert_eq!(frame.query_one(b, &int).unwrap().map(|item| to_int(value(&item))), Some(456));
    assert!(frame.query_one(a, &int_and_flag).unwrap().is_none());
    assert_eq!(
        frame
            .query_one(c, &int_and_flag)
            .unwrap()
            .map(|item| (to_int(value(&parts(&item)[0])), to_flag(value(&parts(&item)[1])))),
        Some((789, true))
    );
    frame.despawn(a).unwrap();
    assert!(frame.query_one(a, &int).is_err());
}

#[test]
fn duplicate_components_panic() {
    let mut frame = Frame::new();
    let float = TypeInfo::new(F32, 4, 4).unwrap();
    let long = TypeInfo::new(I64, 8, 8).unwrap();
    // One entity cannot have two components of one type: the types are refused
    // before any room is reserved for them.
    let twice = vec![float, long, float];
    assert!(!distinct_types(&twice));
    let bundle = Bundle::from_components(vec![single(1.0), component(I64, 8, vec![0; 8]), single(2.0)]);
    assert!(!bundle.is_valid());
    assert_eq!(frame.archetypes().len(), 1);
    let once = vec![float, long];
    assert!(distinct_types(&once));
    frame.reserve(&once, 1);
    assert_eq!(frame.archetypes().len(), 2);
    assert_eq!(frame.archetypes()[1].capacity(), 1);
    assert_eq!(frame.archetypes()[1].type_ids(), vec![I64, F32]);
}

#[test]
fn spawn_column_batch() {
    let mut frame = Frame::new();
    let mut batch_ty = ColumnBatchType::new();
    batch_ty.add(TypeInfo::new(I32, 4, 4).unwrap());
    batch_ty.add(TypeInfo::new(BOOL, 1, 1).unwrap());

    let int_and_flag = both(shared(I32), shared(BOOL));
    let pair = |item: Item| (to_int(value(&parts(&item)[0])), to_flag(value(&parts(&item)[1])));

    // Unique archetype
    let b;
    {
        let mut batch = batch_ty.duplicate().into_batch(2);
        assert!(batch.push(BOOL, vec![1]));
        assert!(batch.push(BOOL, vec![0]));
        assert!(batch.push(I32, 42i32.to_le_bytes().to_vec()));
        assert!(batch.push(I32, 43i32.to_le_bytes().to_vec()));
        let entities = frame.spawn_column_batch(batch.build().unwrap());
        assert_eq!(entities.len(), 2);
        assert_eq!(frame.query_one_mut(entities[0], &int_and_flag).map(pair), Ok((42, true)));
        assert_eq!(frame.query_one_mut(entities[1], &int_and_flag).map(pair), Ok((43, false)));
        frame.despawn(entities[0]).unwrap();
        b = entities[1];
    }

    // Duplicate archetype
    {
        let mut batch = batch_ty.duplicate().into_batch(2);
        assert!(batch.push(BOOL, vec![1]));
        assert!(batch.push(BOOL, vec![0]));
        assert!(batch.push(I32, 44i32.to_le_bytes().to_vec()));
        assert!(batch.push(I32, 45i32.to_le_bytes().to_vec()));
        let entities = frame.spawn_column_batch(batch.build().unwrap());
        assert_eq!(entities.len(), 2);
        assert_eq!(read_int(&frame, b), 43);
        assert_eq!(read_int(&frame, entities[0]), 44);
        assert_eq!(read_int(&frame, entities[1]), 45);
    }
}

#[test]
fn columnar_access() {
    let mut frame = Frame::new();
    let e = frame.spawn(bundle(vec![text("abc"), number(123)]));
    let f = frame.spawn(bundle(vec![text("def"), number(456), flag(true)]));
    let g = frame.spawn(bundle(vec![text("ghi"), number(789), flag(false)]));
    let mut archetypes = frame.archetypes().iter();
    let _empty = archetypes.next().unwrap();
    let a = archetypes.next().unwrap();
    assert_eq!(a.ids(), &[e.id()]);
    let ints = |cells: &Vec<Vec<u8>>| cells.iter().map(|bytes| to_int(bytes)).collect::<Vec<_>>();
    assert_eq!(ints(a.get_column(I32).unwrap()), [123]);
    assert!(a.get_column(BOOL).is_none());
    let b = archetypes.next().unwrap();
    assert_eq!(b.ids(), &[f.id(), g.id()]);
    assert_eq!(ints(b.get_column(I32).unwrap()), [456, 789]);
}

#[test]
fn empty_entity_ref() {
    let mut frame = Frame::new();
    let e = frame.spawn(Bundle::new());
    let r = frame.entity(e).unwrap();
    assert_eq!(r.entity(), e);
}

#[test]
fn query_or() {
    let mut frame = Frame::new();
    let e = frame.spawn(bundle(vec![text("abc"), number(123)]));
    let _ = frame.spawn(bundle(vec![text("def")]));
    let f = frame.spawn(bundle(vec![text("ghi"), flag(true)]));
    let g = frame.spawn(bundle(vec![text("jkl"), number(456), flag(false)]));
    let fetch = both(shared(STR), Fetch::Or(Box::new(shared(I32)), Box::new(shared(BOOL))));
    let results = query(&frame, &fetch)
        .iter()
        .map(|(handle, item)| {
            let either = match &parts(item)[1] {
                Item::Left(int) => (Some(to_int(value(int))), None),
                Item::Right(flag) => (None, Some(to_flag(value(flag)))),
                Item::Both(int, flag) => (Some(to_int(value(int))), Some(to_flag(value(flag)))),
                other => panic!("no or: {:?}", other),
            };
            (*handle, to_text(value(&parts(item)[0])), either)
        })
        .collect::<Vec<_>>();
    assert_eq!(results.len(), 3);
    assert!(results.contains(&(e, "abc".to_string(), (Some(123), None))));
    assert!(results.contains(&(f, "ghi".to_string(), (None, Some(true)))));
    assert!(results.contains(&(g, "jkl".to_string(), (Some(456), Some(false)))));
}

#[test]
fn len() {
    let mut frame = Frame::new();
    let ent = frame.spawn(Bundle::new());
    frame.spawn(Bundle::new());
    frame.spawn(Bundle::new());
    assert_eq!(frame.len(), 3);
    frame.despawn(ent).unwrap();
    assert_eq!(frame.len(), 2);
    frame.clear();
    assert_eq!(frame.len(), 0);
}

#[test]
fn take() {
    let mut frame_a = Frame::new();
    let e = frame_a.spawn(bundle(vec![string("abc"), number(42)]));
    let f = frame_a.spawn(bundle(vec![string("def"), number(17)]));
    let mut frame_b = Frame::new();
    let e2 = frame_b.spawn(frame_a.take(e).unwrap());
    assert!(!frame_a.contains(e));
    assert_eq!(read_text(&frame_b, e2, STRING), "abc");
    assert_eq!(read_int(&frame_b, e2), 42);
    assert_eq!(read_text(&frame_a, f, STRING), "def");
    assert_eq!(read_int(&frame_a, f), 17);
    frame_b.take(e2).unwrap();
    assert!(!frame_b.contains(e2));
}

#[test]
fn empty_archetype_conflict() {
    let mut frame = Frame::new();
    let _ = frame.spawn(bundle(vec![number(42), flag(true)]));
    let _ = frame.spawn(bundle(vec![number(17), text("abc")]));
    let e = frame.spawn(bundle(vec![number(12), flag(false), text("def")]));
    frame.despawn(e).unwrap();
    let outer = both(exclusive(I32), shared(STR));
    let inner = both(exclusive(I32), shared(BOOL));
    assert!(frame.can_query(&outer));
    frame.borrow(&outer);
    for _ in frame.query_held(&outer) {
        assert!(frame.can_query(&inner));
        frame.borrow(&inner);
        for _ in frame.query_held(&inner) {}
        frame.release(&inner);
    }
    frame.release(&outer);
    assert!(frame.can_write(Entity::new(1, 0), I32));
}

#[test]
fn component_ref_map() {
    let mut frame = Frame::new();
    let e = frame.spawn(bundle(vec![test_component(21)]));

    {
        let e_ref = frame.entity(e).unwrap();
        let comp = e_ref.get(TEST_COMPONENT).unwrap();
        let _comp2 = comp.clone();
        assert_eq!(to_int(comp), 21);
    }

    frame.set(e, &test_component(31)).unwrap();

    {
        let e_ref = frame.entity(e).unwrap();
        let comp = e_ref.get(TEST_COMPONENT).unwrap();
        assert_eq!(to_int(comp), 31);
    }
}

#[test]
fn query_many() {
    let mut frame = Frame::new();
    let a = frame.spawn(bundle(vec![number(42), flag(true)]));
    let b = frame.spawn(bundle(vec![number(17)]));
    let found = frame
        .query_many_mut(&vec![a, b], &shared(I32))
        .into_iter()
        .map(|r| r.map(|item| to_int(value(&item))))
        .collect::<Vec<_>>();
    assert_eq!(found, [Ok(42), Ok(17)]);
}

#[test]
fn errors_tell_dead_entities_from_missing_components() {
    let mut frame = Frame::new();
    let e = frame.spawn(bundle(vec![number(1)]));
    let dead = Entity::new(7, 0);
    assert_eq!(frame.get(dead, I32), Err(ComponentError::NoSuchEntity));
    assert_eq!(
        frame.get(e, BOOL),
        Err(ComponentError::MissingComponent(MissingComponent { id: BOOL }))
    );
    assert_eq!(frame.set(dead, &number(2)), Err(ComponentError::NoSuchEntity));
    assert_eq!(
        frame.set(e, &flag(true)),
        Err(ComponentError::MissingComponent(MissingComponent { id: BOOL }))
    );
    assert_eq!(
        frame.remove(e, &vec![I32, STR, BOOL]).err(),
        Some(ComponentError::MissingComponent(MissingComponent { id: STR }))
    );
    assert_eq!(frame.remove(dead, &vec![I32]).err(), Some(ComponentError::NoSuchEntity));
    assert_eq!(read_int(&frame, e), 1);
    assert!(frame.despawn(dead).is_err());
    assert!(frame.insert(dead, bundle(vec![number(3)])).is_err());
    assert!(frame.take(dead).is_err());
    assert_eq!(frame.query_one_mut(dead, &shared(I32)).err(), Some(QueryOneError::NoSuchEntity));
    assert_eq!(frame.query_one_mut(e, &shared(BOOL)).err(), Some(QueryOneError::Unsatisfied));
    assert!(frame.satisfies(dead, &Fetch::Unit).is_err());
    assert_eq!(frame.satisfies(e, &shared(BOOL)), Ok(false));
    assert_eq!(frame.satisfies(e, &shared(I32)), Ok(true));
}

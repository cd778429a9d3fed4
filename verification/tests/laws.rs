use moss_hecs::archetype::Archetype;
use moss_hecs::builder::BatchIncomplete;
use moss_hecs::component::canonical_order;
use moss_hecs::view::all_distinct;
use moss_hecs::Bundle;
use moss_hecs::ColumnBatchType;
use moss_hecs::CommandBuffer;
use moss_hecs::Component;
use moss_hecs::Entities;
use moss_hecs::Entity;
use moss_hecs::EntityBuilder;
use moss_hecs::Fetch;
use moss_hecs::Frame;
use moss_hecs::Item;
use moss_hecs::Location;
use moss_hecs::MissingComponent;
use moss_hecs::PreparedQuery;
use moss_hecs::TypeInfo;

const BOOL: u64 = 1;
const I32: u64 = 2;
const STR: u64 = 3;
const U16: u64 = 4;

fn component(id: u64, align: usize, bytes: Vec<u8>) -> Component {
    let info = TypeInfo::new(id, bytes.len(), align).unwrap();
    Component::new(info, bytes).unwrap()
}

fn flag(value: bool) -> Component {
    component(BOOL, 1, vec![value as u8])
}

fn number(value: i32) -> Component {
    component(I32, 4, value.to_le_bytes().to_vec())
}

fn short(value: u16) -> Component {
    component(U16, 2, value.to_le_bytes().to_vec())
}

fn text(value: &str) -> Component {
    let mut bytes = value.as_bytes().to_vec();
    assert!(bytes.len() <= 16);
    bytes.resize(16, 0);
    component(STR, 8, bytes)
}

fn bundle(components: Vec<Component>) -> Bundle {
    let bundle = Bundle::from_components(components);
    assert!(bundle.is_valid());
    bundle
}

fn to_int(bytes: &[u8]) -> i32 {
    i32::from_le_bytes([bytes[0], bytes[1], bytes[2], bytes[3]])
}

fn to_text(bytes: &[u8]) -> String {
    let end = bytes.iter().position(|b| *b == 0).unwrap_or(bytes.len());
    String::from_utf8(bytes[..end].to_vec()).unwrap()
}

fn value(item: &Item) -> &[u8] {
    match item {
        Item::Value(bytes) => bytes,
        other => panic!("no value: {:?}", other),
    }
}

fn parts(item: &Item) -> &[Item] {
    match item {
        Item::Tuple(items) => items,
        other => panic!("no tuple: {:?}", other),
    }
}

fn ids(types: &[TypeInfo]) -> Vec<u64> {
    types.iter().map(|info| info.id()).collect()
}

fn archetype_of(frame: &Frame, e: Entity) -> usize {
    frame.locate(e).unwrap().archetype
}

#[test]
fn handle_is_its_id_and_generation() {
    let e = Entity::new(7, 3);
    assert_eq!(e.id(), 7);
    assert_eq!(e.generation(), 3);
    assert_eq!(e.to_bits(), (3u64 << 32) | 7);
    assert_eq!(Entity::from_bits(0x0000_0005_0000_0009), Entity::new(9, 5));
    assert_eq!(Entity::from_bits(e.to_bits()), e);
    assert_eq!(Entity::dangling(), Entity::new(u32::MAX, u32::MAX));
    assert_ne!(Entity::new(7, 3), Entity::new(7, 4));
}

#[test]
fn dangling_handle_is_never_valid() {
    let mut frame = Frame::new();
    frame.spawn(bundle(vec![number(1)]));
    frame.reserve_entity();
    assert!(!frame.contains(Entity::dangling()));
    frame.flush();
    assert!(!frame.contains(Entity::dangling()));
    assert!(frame.get(Entity::dangling(), I32).is_err());
}

#[test]
fn alignment_must_be_a_power_of_two() {
    assert!(TypeInfo::new(1, 4, 0).is_none());
    assert!(TypeInfo::new(1, 4, 3).is_none());
    assert!(TypeInfo::new(1, 4, 12).is_none());
    let info = TypeInfo::new(1, 4, 8).unwrap();
    assert_eq!((info.id(), info.size(), info.align()), (1, 4, 8));
    assert!(TypeInfo::new(1, 0, 1).is_some());
}

#[test]
fn component_must_have_the_size_of_its_type() {
    let info = TypeInfo::new(I32, 4, 4).unwrap();
    assert!(Component::new(info, vec![0; 3]).is_none());
    assert!(Component::new(info, vec![0; 5]).is_none());
    let c = Component::new(info, vec![1, 2, 3, 4]).unwrap();
    assert_eq!(c.info(), info);
    assert_eq!(c.bytes(), &vec![1, 2, 3, 4]);
}

#[test]
fn canonical_order_is_by_alignment_then_id() {
    let a = TypeInfo::new(9, 1, 1).unwrap();
    let b = TypeInfo::new(5, 8, 8).unwrap();
    let c = TypeInfo::new(7, 4, 4).unwrap();
    let d = TypeInfo::new(2, 8, 8).unwrap();
    let e = TypeInfo::new(6, 4, 4).unwrap();
    assert!(b.precedes(&c));
    assert!(d.precedes(&b));
    assert!(!b.precedes(&d));
    assert!(!a.precedes(&a));
    let sorted = canonical_order(&vec![a, b, c, d, e]);
    assert_eq!(sorted, vec![d, b, e, c, a]);
    let again = canonical_order(&vec![e, d, c, b, a]);
    assert_eq!(again, sorted);
}

#[test]
fn bundle_tells_its_types_in_canonical_order() {
    let given = bundle(vec![flag(true), text("abc"), number(7)]);
    assert_eq!(given.len(), 3);
    assert_eq!(ids(&given.infos()), vec![BOOL, STR, I32]);
    assert_eq!(ids(&given.type_info()), vec![STR, I32, BOOL]);
    assert_eq!(given.type_ids(), vec![STR, I32, BOOL]);
    assert!(given.has(I32));
    assert!(!given.has(U16));
    let components = given.put();
    assert_eq!(components.len(), 3);
    assert_eq!(components[0].info().id(), BOOL);
}

#[test]
fn bundle_is_put_together_from_components_by_type() {
    let int = TypeInfo::new(I32, 4, 4).unwrap();
    let boolean = TypeInfo::new(BOOL, 1, 1).unwrap();
    let string = TypeInfo::new(STR, 16, 8).unwrap();
    let source = vec![flag(true), number(5), text("abc")];
    let found = Bundle::get(&vec![string, int], &source).unwrap();
    assert_eq!(ids(&found.infos()), vec![STR, I32]);
    assert_eq!(to_int(found.put()[1].bytes()), 5);
    let missing = Bundle::get(&vec![int, TypeInfo::new(U16, 2, 2).unwrap(), boolean], &source);
    assert_eq!(missing.err(), Some(MissingComponent { id: U16 }));
    assert_eq!(Bundle::get(&Vec::new(), &source).unwrap().len(), 0);
}

#[test]
fn bundle_with_a_wrong_size_is_not_valid() {
    let info = TypeInfo::new(I32, 4, 4).unwrap();
    let wrong = Bundle::from_components(vec![Component { info, bytes: vec![0; 3] }]);
    assert!(!wrong.is_valid());
    let twice = Bundle::from_components(vec![number(1), flag(true), number(2)]);
    assert!(!twice.is_valid());
    assert!(Bundle::new().is_valid());
}

#[test]
fn contains_goes_by_generation() {
    let mut frame = Frame::new();
    let a = frame.spawn(bundle(vec![number(1)]));
    assert_eq!(a, Entity::new(0, 0));
    assert!(frame.contains(a));
    assert!(!frame.contains(Entity::new(0, 1)));
    assert!(!frame.contains(Entity::new(1, 0)));
    frame.despawn(a).unwrap();
    assert!(!frame.contains(a));
    assert!(!frame.contains(Entity::new(0, 1)));
}

#[test]
fn generational_safety() {
    let mut frame = Frame::new();
    let a = frame.spawn(bundle(vec![number(1)]));
    frame.despawn(a).unwrap();
    let b = frame.spawn(bundle(vec![number(2)]));
    assert_eq!(b.id(), a.id());
    assert_ne!(b.generation(), a.generation());
    assert_eq!(b, Entity::new(0, 1));
    assert!(frame.get(a, I32).is_err());
    assert_eq!(to_int(frame.get(b, I32).unwrap()), 2);
    assert!(frame.despawn(a).is_err());
    assert!(frame.contains(b));
}

#[test]
fn freed_ids_are_issued_again_last_freed_first() {
    let mut frame = Frame::new();
    let a = frame.spawn(Bundle::new());
    let b = frame.spawn(Bundle::new());
    let c = frame.spawn(Bundle::new());
    assert_eq!((a.id(), b.id(), c.id()), (0, 1, 2));
    frame.despawn(a).unwrap();
    frame.despawn(c).unwrap();
    assert_eq!(frame.spawn(Bundle::new()), Entity::new(2, 1));
    assert_eq!(frame.spawn(Bundle::new()), Entity::new(0, 1));
    assert_eq!(frame.spawn(Bundle::new()), Entity::new(3, 0));
}

#[test]
fn slot_without_generations_left_is_retired() {
    let mut entities = Entities::new();
    let at = Location { archetype: 0, row: 0 };
    let last = Entity::new(0, u32::MAX);
    assert_eq!(entities.alloc_at(last, at), None);
    assert!(entities.contains(last));
    assert_eq!(entities.len(), 1);
    assert_eq!(entities.free(last), Ok(at));
    assert!(!entities.contains(last));
    assert_eq!(entities.len(), 0);
    assert!(entities.free(last).is_err());
    let next = entities.allocate(at);
    assert_eq!(next, Entity::new(1, 0));
    assert!(!entities.contains(last));
}

#[test]
fn allocator_reserves_past_the_slots() {
    let mut entities = Entities::new();
    let at = Location { archetype: 0, row: 0 };
    let a = entities.allocate(at);
    let r = entities.reserve();
    let s = entities.reserve();
    assert_eq!((a, r, s), (Entity::new(0, 0), Entity::new(1, 0), Entity::new(2, 0)));
    assert_eq!(entities.pending_count(), 2);
    assert!(!entities.contains(r));
    assert_eq!(entities.flush_one(Location { archetype: 0, row: 1 }), r);
    assert!(entities.contains(r));
    assert!(!entities.contains(s));
    assert_eq!(entities.get(r), Ok(Location { archetype: 0, row: 1 }));
    assert_eq!(entities.slots(), 2);
    entities.set_location(0, Location { archetype: 3, row: 4 });
    assert_eq!(entities.get(a), Ok(Location { archetype: 3, row: 4 }));
    assert_eq!(entities.resolve(1), r);
    assert_eq!(entities.occupant(2), None);
    entities.clear();
    assert_eq!(entities.len(), 0);
    assert_eq!(entities.pending_count(), 0);
    assert!(!entities.contains(a));
    assert!(!entities.contains(r));
    assert_eq!(entities.slots(), 3);
}

#[test]
fn archetype_columns_are_in_canonical_order() {
    let mut frame = Frame::new();
    let e = frame.spawn(bundle(vec![flag(true), number(5), text("abc"), short(9)]));
    let archetypes = frame.archetypes();
    assert_eq!(archetypes.len(), 2);
    assert_eq!(archetypes[0].columns(), 0);
    let archetype = &archetypes[archetype_of(&frame, e)];
    assert_eq!(archetype.type_ids(), vec![STR, I32, U16, BOOL]);
    assert_eq!(archetype.type_ids().len(), archetype.columns());
    assert_eq!(ids(archetype.types()), archetype.type_ids());
}

#[test]
fn archetype_has_a_cell_in_each_column_for_each_row() {
    let mut frame = Frame::new();
    for i in 0..5 {
        frame.spawn(bundle(vec![number(i), flag(i % 2 == 0)]));
    }
    let archetype = &frame.archetypes()[1];
    assert_eq!(archetype.len(), 5);
    assert_eq!(archetype.ids().len(), 5);
    assert_eq!(archetype.get_column(I32).unwrap().len(), 5);
    assert_eq!(archetype.get_column(BOOL).unwrap().len(), 5);
    assert!(!archetype.is_empty());
    assert!(frame.archetypes()[0].is_empty());
    assert_eq!(archetype.entity_id(3), 3);
    assert_eq!(to_int(archetype.get(4, I32).unwrap()), 4);
    assert_eq!(archetype.component(2, BOOL).unwrap().bytes(), &vec![1u8]);
    assert!(archetype.get(0, STR).is_none());
    assert_eq!(archetype.column_of(I32), Some(0));
    assert_eq!(archetype.column_of(BOOL), Some(1));
    assert!(archetype.has(BOOL));
    assert!(!archetype.has(STR));
}

#[test]
fn archetype_grows_to_twice_its_capacity_and_64_at_least() {
    let mut frame = Frame::new();
    assert_eq!(frame.archetypes()[0].capacity(), 0);
    frame.spawn(bundle(vec![number(0)]));
    assert_eq!(frame.archetypes()[1].capacity(), 64);
    for i in 1..64 {
        frame.spawn(bundle(vec![number(i)]));
    }
    assert_eq!(frame.archetypes()[1].capacity(), 64);
    frame.spawn(bundle(vec![number(64)]));
    assert_eq!(frame.archetypes()[1].capacity(), 128);
    assert_eq!(frame.archetypes()[1].len(), 65);
    frame.clear();
    assert_eq!(frame.archetypes()[1].capacity(), 128);
    assert_eq!(frame.archetypes()[1].len(), 0);
    frame.reserve(&vec![TypeInfo::new(I32, 4, 4).unwrap()], 200);
    assert_eq!(frame.archetypes()[1].capacity(), 200);
    assert_eq!(frame.archetypes().len(), 2);
}

#[test]
fn archetype_rows_move_and_swap() {
    let int = TypeInfo::new(I32, 4, 4).unwrap();
    let boolean = TypeInfo::new(BOOL, 1, 1).unwrap();
    let mut source = Archetype::new(vec![int, boolean]);
    let mut target = Archetype::new(vec![int]);
    for i in 0..3u32 {
        let row = source.allocate_row(10 + i);
        assert_eq!(row, i as usize);
        assert_eq!(source.get(row, I32).unwrap(), &vec![0u8; 4]);
        source.put(row, &number(i as i32 + 1));
        source.put(row, &flag(true));
    }
    let row = target.allocate_row(10);
    assert_eq!(source.move_row_to(0, &mut target, row), Some(12));
    assert_eq!(source.ids(), &[12, 11]);
    assert_eq!(to_int(source.get(0, I32).unwrap()), 3);
    assert_eq!(to_int(target.get(0, I32).unwrap()), 1);
    assert_eq!(source.remove_row(1), None);
    assert_eq!(source.ids(), &[12]);
    let (taken, moved) = source.take_row(0);
    assert_eq!(moved, None);
    assert_eq!(taken.len(), 2);
    assert_eq!(to_int(taken[0].bytes()), 3);
    assert_eq!(source.len(), 0);
    assert!(source.can_borrow(I32));
    source.borrow(I32);
    source.borrow(I32);
    assert_eq!(source.borrow_count(I32), Some(2));
    assert!(source.can_read(I32));
    assert!(!source.can_borrow_mut(I32));
    source.release(I32);
    source.release(I32);
    source.borrow_mut(I32);
    assert_eq!(source.borrow_count(I32), Some(-1));
    assert!(!source.can_borrow(I32));
    assert!(!source.can_read(I32));
    assert!(source.can_borrow_mut(BOOL));
    source.release_mut(I32);
    assert_eq!(source.borrow_count(I32), Some(0));
    assert_eq!(source.borrow_count(STR), None);
    assert_eq!(source.column_matching(TypeInfo::new(I32, 4, 8).unwrap()), None);
    assert_eq!(source.column_matching(int), Some(0));
}

#[test]
fn basic_spawn_and_query() {
    let mut frame = Frame::new();
    let e = frame.spawn(bundle(vec![text("abc"), number(123)]));
    let f = frame.spawn(bundle(vec![text("def"), number(456)]));
    let fetch = Fetch::Tuple(vec![Fetch::Shared(I32), Fetch::Shared(STR)]);
    assert!(frame.can_query(&fetch));
    let found = frame
        .query(&fetch)
        .iter()
        .map(|(e, item)| (*e, to_int(value(&parts(item)[0])), to_text(value(&parts(item)[1]))))
        .collect::<Vec<_>>();
    assert_eq!(found, vec![(e, 123, "abc".to_string()), (f, 456, "def".to_string())]);
}

#[test]
fn migration() {
    let mut frame = Frame::new();
    let e = frame.spawn(bundle(vec![text("abc"), number(123)]));
    frame.insert(e, bundle(vec![flag(true), text("xyz")])).unwrap();
    assert_eq!(to_text(frame.get(e, STR).unwrap()), "xyz");
    assert_eq!(frame.get(e, BOOL).unwrap(), &vec![1u8]);
    assert_eq!(to_int(frame.get(e, I32).unwrap()), 123);
    let archetype = &frame.archetypes()[archetype_of(&frame, e)];
    assert_eq!(archetype.type_ids(), vec![STR, I32, BOOL]);
    assert_eq!(frame.archetypes()[1].len(), 0);
}

#[test]
fn migration_moves_the_last_row_into_the_gap() {
    let mut frame = Frame::new();
    let a = frame.spawn(bundle(vec![number(1)]));
    let b = frame.spawn(bundle(vec![number(2)]));
    let c = frame.spawn(bundle(vec![number(3)]));
    frame.insert_one(a, flag(true)).unwrap();
    assert_eq!(frame.locate(c).unwrap(), Location { archetype: 1, row: 0 });
    assert_eq!(frame.locate(b).unwrap(), Location { archetype: 1, row: 1 });
    assert_eq!(frame.locate(a).unwrap(), Location { archetype: 2, row: 0 });
    assert_eq!(to_int(frame.get(a, I32).unwrap()), 1);
    assert_eq!(to_int(frame.get(b, I32).unwrap()), 2);
    assert_eq!(to_int(frame.get(c, I32).unwrap()), 3);
    assert_eq!(frame.entity_at(1, 0), c);
    assert_eq!(frame.iter(), vec![c, b, a]);
}

#[test]
fn despawn_moves_the_last_row_into_the_gap() {
    let mut frame = Frame::new();
    let a = frame.spawn(bundle(vec![number(1)]));
    let b = frame.spawn(bundle(vec![number(2)]));
    let c = frame.spawn(bundle(vec![number(3)]));
    let r = frame.reserve_entity();
    frame.despawn(a).unwrap();
    assert_eq!(frame.iter(), vec![r, c, b]);
    assert_eq!(frame.locate(c).unwrap(), Location { archetype: 1, row: 0 });
    assert_eq!(frame.locate(r).unwrap(), Location { archetype: 0, row: 0 });
    frame.despawn(b).unwrap();
    assert_eq!(frame.iter(), vec![r, c]);
    frame.take(c).unwrap();
    assert_eq!(frame.iter(), vec![r]);
    assert_eq!(frame.archetypes()[1].len(), 0);
}

#[test]
fn spawn_then_take_gives_the_bundle_back() {
    let mut frame = Frame::new();
    let other = frame.spawn(bundle(vec![number(9)]));
    let h = frame.spawn(bundle(vec![flag(true), text("abc"), number(-5)]));
    let taken = frame.take(h).unwrap();
    assert!(taken.is_valid());
    let mut got = taken
        .put()
        .into_iter()
        .map(|c| (c.info().id(), c.info().size(), c.info().align(), c.bytes().clone()))
        .collect::<Vec<_>>();
    got.sort();
    let mut given = bundle(vec![flag(true), text("abc"), number(-5)])
        .put()
        .into_iter()
        .map(|c| (c.info().id(), c.info().size(), c.info().align(), c.bytes().clone()))
        .collect::<Vec<_>>();
    given.sort();
    assert_eq!(got, given);
    assert!(!frame.contains(h));
    assert_eq!(frame.len(), 1);
    assert_eq!(to_int(frame.get(other, I32).unwrap()), 9);
}

#[test]
fn insert_of_what_is_there_changes_nothing() {
    let mut frame = Frame::new();
    let a = frame.spawn(bundle(vec![number(1), text("one")]));
    let b = frame.spawn(bundle(vec![number(2), text("two")]));
    let fetch = Fetch::Tuple(vec![Fetch::Shared(I32), Fetch::Shared(STR)]);
    let show = |frame: &Frame| {
        frame
            .query(&fetch)
            .iter()
            .map(|(e, item)| (*e, to_int(value(&parts(item)[0])), to_text(value(&parts(item)[1]))))
            .collect::<Vec<_>>()
    };
    let before = show(&frame);
    frame.insert(a, bundle(vec![text("one"), number(1)])).unwrap();
    frame.insert_one(b, number(2)).unwrap();
    assert_eq!(show(&frame), before);
    assert_eq!(frame.archetypes().len(), 2);
    assert_eq!(frame.locate(a).unwrap(), Location { archetype: 1, row: 0 });
}

#[test]
fn clear_invalidates_every_handle() {
    let mut frame = Frame::new();
    let a = frame.spawn(bundle(vec![number(1)]));
    let b = frame.spawn(bundle(vec![flag(true)]));
    let r = frame.reserve_entity();
    frame.clear();
    assert_eq!(frame.len(), 0);
    assert!(!frame.contains(a));
    assert!(!frame.contains(b));
    assert!(!frame.contains(r));
    frame.flush();
    assert!(!frame.contains(r));
    assert_eq!(frame.archetypes().len(), 3);
    let again = frame.spawn(bundle(vec![number(3)]));
    assert_eq!(again.generation(), 1);
    assert!(!frame.contains(a));
    assert!(!frame.contains(b));
    assert!(!frame.contains(r));
}

#[test]
fn returning_to_a_signature_returns_to_its_archetype() {
    let mut frame = Frame::new();
    let e = frame.spawn(bundle(vec![number(1), text("abc")]));
    let first = archetype_of(&frame, e);
    frame.insert_one(e, flag(true)).unwrap();
    let second = archetype_of(&frame, e);
    assert_ne!(first, second);
    frame.remove_one(e, BOOL).unwrap();
    assert_eq!(archetype_of(&frame, e), first);
    frame.insert_one(e, flag(false)).unwrap();
    assert_eq!(archetype_of(&frame, e), second);
    frame.remove(e, &vec![BOOL]).unwrap();
    assert_eq!(archetype_of(&frame, e), first);
    let f = frame.spawn(bundle(vec![text("def"), number(2)]));
    assert_eq!(archetype_of(&frame, f), first);
    frame.insert_one(f, flag(true)).unwrap();
    assert_eq!(archetype_of(&frame, f), second);
    assert_eq!(frame.archetypes().len(), 3);
}

#[test]
fn held_borrows_guard_single_components() {
    let mut frame = Frame::new();
    let e = frame.spawn(bundle(vec![number(1), flag(true)]));
    let other = frame.spawn(bundle(vec![number(2)]));
    let fetch = Fetch::Tuple(vec![Fetch::Exclusive(I32), Fetch::Shared(BOOL)]);
    assert!(frame.can_read(e, I32));
    assert!(frame.can_write(e, I32));
    frame.borrow(&fetch);
    assert!(!frame.can_read(e, I32));
    assert!(!frame.can_write(e, I32));
    assert!(frame.can_read(e, BOOL));
    assert!(!frame.can_write(e, BOOL));
    assert!(frame.can_write(other, I32));
    assert!(frame.can_read(e, STR));
    assert_eq!(frame.archetypes()[1].borrow_count(I32), Some(-1));
    assert_eq!(frame.archetypes()[1].borrow_count(BOOL), Some(1));
    assert_eq!(frame.archetypes()[2].borrow_count(I32), Some(0));
    assert_eq!(frame.query_held(&fetch).len(), 1);
    frame.release(&fetch);
    assert!(frame.can_write(e, I32));
    assert!(frame.can_write(e, BOOL));
    assert_eq!(frame.archetypes()[1].borrow_count(I32), Some(0));
    assert_eq!(frame.archetypes()[1].borrow_count(BOOL), Some(0));
}

#[test]
fn borrow_violation() {
    let mut frame = Frame::new();
    frame.spawn(bundle(vec![number(1)]));
    frame.spawn(bundle(vec![number(2)]));
    let both = Fetch::Tuple(vec![Fetch::Exclusive(I32), Fetch::Shared(I32)]);
    assert!(both.violates_unique_borrow());
    assert!(!frame.can_query(&both));
    let twice = Fetch::Tuple(vec![Fetch::Exclusive(I32), Fetch::Exclusive(I32)]);
    assert!(twice.violates_unique_borrow());
    let nested = Fetch::Or(
        Box::new(Fetch::Optional(Box::new(Fetch::Exclusive(I32)))),
        Box::new(Fetch::With(Box::new(Fetch::Shared(I32)), BOOL)),
    );
    assert!(nested.violates_unique_borrow());
    let fine = Fetch::Tuple(vec![
        Fetch::Exclusive(I32),
        Fetch::Shared(BOOL),
        Fetch::Shared(BOOL),
        Fetch::Satisfies(Box::new(Fetch::Exclusive(I32))),
        Fetch::Without(Box::new(Fetch::Unit), I32),
    ]);
    assert!(!fine.violates_unique_borrow());
    assert_eq!(fine.access_list().len(), 3);
    assert!(fine.access_list()[0].exclusive);
    assert_eq!(fine.access_list()[1].id, BOOL);
}

#[test]
fn command_buffer_replay() {
    let mut frame = Frame::new();
    let other = frame.spawn(Bundle::new());
    let e = frame.reserve_entity();
    let mut buffer = CommandBuffer::new();
    let mut record = |e: Entity, components: Vec<Component>| {
        let components = bundle(components);
        assert!(buffer.can_record(&components));
        buffer.insert(e, components);
    };
    record(e, vec![number(1), flag(true)]);
    record(other, vec![number(2)]);
    frame.clear();
    frame.spawn_at(e, Bundle::new());
    buffer.run_on(&mut frame);
    assert!(frame.contains(e));
    assert_eq!(to_int(frame.get(e, I32).unwrap()), 1);
    assert_eq!(frame.get(e, BOOL).unwrap(), &vec![1u8]);
    assert!(!frame.contains(other));
    assert_eq!(frame.len(), 1);
}

#[test]
fn spawn_at_takes_the_place_of_a_live_entity() {
    let mut frame = Frame::new();
    let a = frame.spawn(bundle(vec![number(1)]));
    let b = frame.spawn(bundle(vec![number(2)]));
    let again = Entity::new(a.id(), 7);
    frame.spawn_at(again, bundle(vec![flag(true)]));
    assert!(!frame.contains(a));
    assert!(frame.contains(again));
    assert!(frame.get(again, I32).is_err());
    assert_eq!(frame.get(again, BOOL).unwrap(), &vec![1u8]);
    assert_eq!(to_int(frame.get(b, I32).unwrap()), 2);
    assert_eq!(frame.len(), 2);
    let far = Entity::new(5, 2);
    frame.spawn_at(far, Bundle::new());
    assert!(frame.contains(far));
    assert_eq!(frame.len(), 3);
    assert_eq!(frame.spawn(Bundle::new()), Entity::new(4, 0));
}

#[test]
fn exchange_is_one_move() {
    let mut frame = Frame::new();
    let e = frame.spawn(bundle(vec![number(1), text("abc"), flag(true)]));
    let taken = frame.exchange(e, &vec![I32, BOOL], bundle(vec![short(7), text("xyz")])).unwrap();
    assert_eq!(taken.len(), 2);
    let taken = taken.put();
    assert_eq!(to_int(taken[0].bytes()), 1);
    assert_eq!(taken[1].bytes(), &vec![1u8]);
    assert!(frame.get(e, I32).is_err());
    assert!(frame.get(e, BOOL).is_err());
    assert_eq!(frame.get(e, U16).unwrap(), &7u16.to_le_bytes().to_vec());
    assert_eq!(to_text(frame.get(e, STR).unwrap()), "xyz");
    assert_eq!(frame.archetypes().len(), 3);
    assert!(frame.exchange(e, &vec![I32], Bundle::new()).is_err());
    assert_eq!(frame.archetypes().len(), 3);
}

#[test]
fn query_visits_archetypes_in_order_and_rows_in_order() {
    let mut frame = Frame::new();
    let a = frame.spawn(bundle(vec![number(1)]));
    let b = frame.spawn(bundle(vec![number(2), flag(true)]));
    let c = frame.spawn(bundle(vec![number(3)]));
    let d = frame.spawn(bundle(vec![flag(false)]));
    let found = frame.query(&Fetch::Shared(I32));
    assert_eq!(found.iter().map(|(e, _)| *e).collect::<Vec<_>>(), vec![a, c, b]);
    let with = frame.query(&Fetch::With(Box::new(Fetch::Shared(I32)), BOOL));
    assert_eq!(with.iter().map(|(e, _)| *e).collect::<Vec<_>>(), vec![b]);
    let without = frame.query(&Fetch::Without(Box::new(Fetch::Shared(I32)), BOOL));
    assert_eq!(without.iter().map(|(e, _)| *e).collect::<Vec<_>>(), vec![a, c]);
    let satisfies = frame.query(&Fetch::Satisfies(Box::new(Fetch::Shared(I32))));
    assert_eq!(satisfies.len(), 4);
    assert!(matches!(satisfies[3], (e, Item::Flag(false)) if e == d));
    assert!(matches!(satisfies[0], (e, Item::Flag(true)) if e == a));
    assert_eq!(frame.query_mut(&Fetch::Unit).len(), 4);
    assert_eq!(frame.iter(), vec![a, c, b, d]);
}

#[test]
fn batches_stay_within_one_archetype() {
    let mut frame = Frame::new();
    for i in 0..5 {
        frame.spawn(bundle(vec![number(i)]));
    }
    for i in 0..3 {
        frame.spawn(bundle(vec![number(i), flag(true)]));
    }
    let sizes = |frame: &Frame, size: usize| {
        frame
            .query_batched(&Fetch::Shared(I32), size)
            .iter()
            .map(|batch| batch.len())
            .collect::<Vec<_>>()
    };
    assert_eq!(sizes(&frame, 2), vec![2, 2, 1, 2, 1]);
    assert_eq!(sizes(&frame, 3), vec![3, 2, 3]);
    assert_eq!(sizes(&frame, 5), vec![5, 3]);
    assert_eq!(sizes(&frame, 100), vec![5, 3]);
    assert_eq!(sizes(&frame, 1), vec![1; 8]);
    let batches = frame.query_batched(&Fetch::Shared(I32), 2);
    assert_eq!(to_int(value(&batches[2][0].1)), 4);
    assert_eq!(batches[3][0].0, Entity::new(5, 0));
}

#[test]
fn prepared_query_sees_new_archetypes_only() {
    let mut frame = Frame::new();
    let mut other = Frame::new();
    other.spawn(bundle(vec![flag(true)]));
    let a = frame.spawn(bundle(vec![number(1)]));
    let mut query = PreparedQuery::new(Fetch::Shared(I32));
    assert_eq!(query.query(&frame).len(), 1);
    let b = frame.spawn(bundle(vec![number(2), flag(true)]));
    frame.despawn(a).unwrap();
    let found = query.query(&frame);
    assert_eq!(found.iter().map(|(e, _)| *e).collect::<Vec<_>>(), vec![b]);
    query.reset();
    assert_eq!(query.query(&other).len(), 0);
    query.reset();
    assert_eq!(query.query_mut(&mut frame).len(), 1);
}

#[test]
fn prepared_query_tells_whether_it_fits_a_store() {
    let mut frame = Frame::new();
    let mut other = Frame::new();
    frame.spawn(bundle(vec![number(1)]));
    frame.spawn(bundle(vec![flag(true)]));
    other.spawn(bundle(vec![flag(true)]));
    other.spawn(bundle(vec![number(1)]));
    let mut query = PreparedQuery::new(Fetch::Shared(I32));
    assert!(query.is_valid_for(&frame));
    assert!(query.is_valid_for(&other));
    assert_eq!(query.query(&frame).len(), 1);
    assert!(query.is_valid_for(&frame));
    assert!(!query.is_valid_for(&other));
    assert!(!query.is_valid_for(&Frame::new()));
    frame.spawn(bundle(vec![number(2), flag(false)]));
    assert!(query.is_valid_for(&frame));
    assert_eq!(query.query(&frame).len(), 2);
    query.reset();
    assert!(query.is_valid_for(&other));
    assert_eq!(query.query(&other).len(), 1);
}

#[test]
fn spawns_are_served_from_free_ids_too() {
    let mut frame = Frame::new();
    assert!(frame.can_spawn_many(5));
    assert_eq!(frame.room_left(), u32::MAX);
    let a = frame.spawn(Bundle::new());
    let b = frame.spawn(Bundle::new());
    frame.despawn(a).unwrap();
    assert_eq!(frame.room_left(), u32::MAX - 2);
    assert!(frame.can_spawn_many(u32::MAX as usize - 1));
    assert!(!frame.can_spawn_many(u32::MAX as usize));
    let mut buffer = CommandBuffer::new();
    buffer.despawn(b);
    buffer.spawn(Bundle::new());
    buffer.spawn(Bundle::new());
    assert!(buffer.can_run_on(&frame));
    buffer.run_on(&mut frame);
    assert_eq!(frame.iter(), vec![Entity::new(1, 1), Entity::new(0, 1)]);
    assert_eq!(frame.archetypes().len(), 1);
}

#[test]
fn view_answers_for_single_entities() {
    let mut frame = Frame::new();
    let a = frame.spawn(bundle(vec![number(1)]));
    let b = frame.spawn(bundle(vec![flag(true)]));
    let c = frame.spawn(bundle(vec![number(3), flag(true)]));
    let fetch = Fetch::Exclusive(I32);
    let view = frame.view_for(&fetch);
    let handles = vec![c, b, a, Entity::new(9, 9)];
    assert!(all_distinct(&handles));
    assert!(!all_distinct(&vec![a, b, a]));
    let found = view.get_mut_n(&handles);
    assert_eq!(found.len(), 4);
    assert_eq!(to_int(value(found[0].as_ref().unwrap())), 3);
    assert!(found[1].is_none());
    assert_eq!(to_int(value(found[2].as_ref().unwrap())), 1);
    assert!(found[3].is_none());
    assert!(view.contains(a));
    assert!(!view.contains(b));
}

#[test]
fn entity_reference_shows_the_components() {
    let mut frame = Frame::new();
    let e = frame.spawn(bundle(vec![flag(true), number(4)]));
    let r = frame.entity(e).unwrap();
    assert_eq!(r.entity(), e);
    assert_eq!(r.len(), 2);
    assert!(r.has(I32));
    assert!(!r.has(STR));
    assert_eq!(ids(r.component_types()), vec![I32, BOOL]);
    assert!(r.satisfies(&Fetch::Shared(BOOL)));
    assert!(!r.satisfies(&Fetch::Shared(STR)));
    assert_eq!(r.get(STR), None);
    assert!(frame.entity(Entity::new(3, 0)).is_err());
}

#[test]
fn builder_replaces_a_component_of_the_same_type() {
    let mut builder = EntityBuilder::new();
    assert_eq!(builder.arena_bytes(), 0);
    assert!(builder.can_add(&number(1)));
    builder.add(number(1));
    assert_eq!(builder.used_bytes(), 4);
    assert_eq!(builder.arena_bytes(), 64);
    builder.add(flag(true));
    assert_eq!(builder.used_bytes(), 5);
    builder.add(number(2));
    assert_eq!(builder.used_bytes(), 5);
    assert_eq!(ids(&builder.component_types()), vec![I32, BOOL]);
    assert_eq!(to_int(&builder.get(I32).unwrap()), 2);
    assert_eq!(builder.get(BOOL), Some(vec![1u8]));
    builder.add(component(I32, 8, vec![9, 0, 0, 0, 0, 0, 0, 0]));
    assert_eq!(builder.used_bytes(), 16);
    assert_eq!(builder.get(I32), Some(vec![9, 0, 0, 0, 0, 0, 0, 0]));
    assert_eq!(builder.get(BOOL), Some(vec![1u8]));
    let copy = builder.duplicate();
    let built = builder.build();
    assert!(built.is_valid());
    assert_eq!(built.len(), 2);
    assert_eq!(ids(&built.infos()), vec![I32, BOOL]);
    assert!(!builder.has(I32));
    assert_eq!(builder.used_bytes(), 0);
    assert_eq!(builder.arena_bytes(), 64);
    assert_eq!(copy.bundle().len(), 2);
    builder.add(short(1));
    builder.clear();
    assert_eq!(builder.build().len(), 0);
    let wrong = Component { info: TypeInfo::new(I32, 4, 4).unwrap(), bytes: vec![0; 3] };
    assert!(!builder.can_add(&wrong));
    let given = bundle(vec![text("abc"), number(3)]);
    assert!(builder.can_add_bundle(&given));
    builder.add_bundle(given);
    assert_eq!(builder.used_bytes(), 20);
    assert_eq!(to_text(&builder.get(STR).unwrap()), "abc");
}

#[test]
fn column_batch_must_be_full() {
    let mut types = ColumnBatchType::new();
    types.add(TypeInfo::new(I32, 4, 4).unwrap());
    types.add(TypeInfo::new(I32, 4, 4).unwrap());
    types.add(TypeInfo::new(BOOL, 1, 1).unwrap());
    let mut batch = types.duplicate().into_batch(2);
    assert!(batch.push(I32, vec![1, 0, 0, 0]));
    assert!(!batch.push(I32, vec![1, 0, 0]));
    assert!(!batch.push(STR, vec![0; 16]));
    assert!(batch.push(I32, vec![2, 0, 0, 0]));
    assert!(!batch.push(I32, vec![3, 0, 0, 0]));
    assert!(batch.push(BOOL, vec![1]));
    assert_eq!(batch.build().err(), Some(BatchIncomplete {}));
    let mut batch = types.into_batch(1);
    assert!(batch.push(BOOL, vec![0]));
    assert!(batch.push(I32, vec![9, 0, 0, 0]));
    let batch = batch.build().unwrap();
    assert_eq!(batch.len(), 1);
    assert_eq!(ids(batch.types()), vec![I32, BOOL]);
    assert_eq!(to_int(batch.row_components(0)[0].bytes()), 9);
    let mut frame = Frame::new();
    let spawned = frame.spawn_column_batch(batch);
    assert_eq!(spawned, vec![Entity::new(0, 0)]);
}

#[test]
fn spawn_batch_spawns_in_order() {
    let mut frame = Frame::new();
    let spawned = frame.spawn_batch(vec![
        bundle(vec![number(1)]),
        bundle(vec![number(2), flag(true)]),
        bundle(vec![number(3)]),
    ]);
    assert_eq!(spawned, vec![Entity::new(0, 0), Entity::new(1, 0), Entity::new(2, 0)]);
    assert_eq!(to_int(frame.get(spawned[0], I32).unwrap()), 1);
    assert_eq!(to_int(frame.get(spawned[1], I32).unwrap()), 2);
    assert_eq!(to_int(frame.get(spawned[2], I32).unwrap()), 3);
    assert!(frame.get(spawned[1], BOOL).is_ok());
    assert_eq!(frame.archetypes()[1].capacity(), 3);
    assert!(frame.spawn_batch(Vec::new()).is_empty());
}

#[test]
fn recorded_components_can_be_built_again() {
    let mut buffer = CommandBuffer::default();
    let e = Entity::new(0, 0);
    let components = bundle(vec![flag(true), number(7), text("abc")]);
    assert!(buffer.can_record(&components));
    buffer.insert(e, components);
    let built = buffer.build(0..3);
    assert_eq!(ids(&built.infos()), vec![STR, I32, BOOL]);
    let built = built.put();
    assert_eq!(to_text(built[0].bytes()), "abc");
    assert_eq!(to_int(built[1].bytes()), 7);
    assert_eq!(built[2].bytes(), &vec![1u8]);
    let part = buffer.build(1..2);
    assert_eq!(part.len(), 1);
    assert_eq!(buffer.len(), 1);
    let info = TypeInfo::new(I32, 4, 4).unwrap();
    let wrong = Bundle::from_components(vec![Component { info, bytes: vec![0; 3] }]);
    assert!(!buffer.can_record(&wrong));
}

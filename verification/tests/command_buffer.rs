use moss_hecs::Bundle;
use moss_hecs::CommandBuffer;
use moss_hecs::Component;
use moss_hecs::Entity;
use moss_hecs::Frame;
use moss_hecs::TypeInfo;

const BOOL: u64 = 1;
const I32: u64 = 2;
const STR: u64 = 3;
const F64: u64 = 4;
const I8: u64 = 5;
const CHAR: u64 = 6;
const U8: u64 = 7;
const MARKER: u64 = 8;

fn component(id: u64, align: usize, bytes: Vec<u8>) -> Component {
    let info = TypeInfo::new(id, bytes.len(), align).unwrap();
    Component::new(info, bytes).unwrap()
}

fn flag(value: bool) -> Component {
    component(BOOL, 1, vec![value as u8])
}

fn number(value: i32) -> Component {
    component(I32, 4, value.to_le_bytes().to_vec())
}

fn text(value: &str) -> Component {
    let mut bytes = value.as_bytes().to_vec();
    assert!(bytes.len() <= 16);
    bytes.resize(16, 0);
    component(STR, 8, bytes)
}

fn double(value: f64) -> Component {
    component(F64, 8, value.to_le_bytes().to_vec())
}

fn small(value: i8) -> Component {
    component(I8, 1, value.to_le_bytes().to_vec())
}

fn letter(value: char) -> Component {
    component(CHAR, 4, (value as u32).to_le_bytes().to_vec())
}

fn byte(value: u8) -> Component {
    component(U8, 1, vec![value])
}

fn marker() -> Component {
    component(MARKER, 1, Vec::new())
}

fn bundle(components: Vec<Component>) -> Bundle {
    let bundle = Bundle::from_components(components);
    assert!(bundle.is_valid());
    bundle
}

fn read_int(frame: &Frame, e: Entity) -> i32 {
    let bytes = frame.get(e, I32).unwrap();
    i32::from_le_bytes([bytes[0], bytes[1], bytes[2], bytes[3]])
}

fn read_text(frame: &Frame, e: Entity) -> String {
    let bytes = frame.get(e, STR).unwrap();
    let end = bytes.iter().position(|b| *b == 0).unwrap_or(bytes.len());
    String::from_utf8(bytes[..end].to_vec()).unwrap()
}

fn read_flag(frame: &Frame, e: Entity) -> bool {
    frame.get(e, BOOL).unwrap()[0] != 0
}

fn record(buffer: &mut CommandBuffer, e: Entity, components: Vec<Component>) {
    let components = bundle(components);
    assert!(buffer.can_record(&components));
    buffer.insert(e, components);
}

#[test]
fn populate_archetypes() {
    let mut frame = Frame::new();
    let mut buffer = CommandBuffer::new();
    let ent = frame.reserve_entity();
    let enta = frame.reserve_entity();
    let entb = frame.reserve_entity();
    let entc = frame.reserve_entity();
    record(&mut buffer, ent, vec![flag(true), text("a")]);
    record(&mut buffer, entc, vec![flag(true), text("a")]);
    record(&mut buffer, enta, vec![number(1), double(1.0)]);
    record(&mut buffer, entb, vec![double(1.0), text("a")]);
    buffer.run_on(&mut frame);
    assert_eq!(frame.archetypes().len(), 4);
}

#[test]
fn failed_insert_regression() {
    let mut frame = Frame::new();

    let a = frame.spawn(bundle(vec![marker()]));
    let b = frame.spawn(bundle(vec![marker()]));

    frame.clear();

    let mut cmd = CommandBuffer::new();
    cmd.insert_one(a, marker());
    cmd.insert_one(b, marker());

    frame.spawn_at(a, Bundle::new());

    cmd.run_on(&mut frame);

    assert!(frame.get(a, MARKER).is_ok());
    assert!(!frame.contains(b));
}

#[test]
fn insert_then_remove() {
    let mut frame = Frame::new();
    let a = frame.spawn(Bundle::new());
    let mut cmd = CommandBuffer::new();
    cmd.insert_one(a, number(42));
    cmd.remove_one(a, I32);
    cmd.run_on(&mut frame);
    assert!(frame.contains(a));
    assert!(frame.get(a, I32).is_err());
}

#[test]
fn remove_then_insert() {
    let mut frame = Frame::new();
    let a = frame.spawn(bundle(vec![number(17)]));
    let mut cmd = CommandBuffer::new();
    cmd.remove_one(a, I32);
    cmd.insert_one(a, number(42));
    cmd.run_on(&mut frame);
    assert_eq!(read_int(&frame, a), 42);
}

#[test]
fn spawn_buffered_entity() {
    let mut frame = Frame::new();
    let mut buffer = CommandBuffer::new();
    let ent = frame.reserve_entity();
    let ent1 = frame.reserve_entity();
    let ent2 = frame.reserve_entity();
    let ent3 = frame.reserve_entity();

    record(&mut buffer, ent, vec![number(1), flag(true)]);
    record(&mut buffer, ent1, vec![number(13), double(7.11), text("moss_hecs")]);
    record(&mut buffer, ent2, vec![small(17), flag(false), letter('o')]);
    record(&mut buffer, ent3, vec![byte(2), text("qwe"), double(101.103), flag(false)]);

    buffer.run_on(&mut frame);

    assert!(read_flag(&frame, ent));
    assert!(!read_flag(&frame, ent2));

    assert_eq!(read_text(&frame, ent1), "moss_hecs");
    assert_eq!(read_int(&frame, ent1), 13);
    assert_eq!(frame.get(ent3, U8).unwrap()[0], 2);
}

#[test]
fn despawn_buffered_entity() {
    let mut frame = Frame::new();
    let mut buffer = CommandBuffer::new();
    let ent = frame.spawn(bundle(vec![number(1), flag(true)]));
    buffer.despawn(ent);

    buffer.run_on(&mut frame);
    assert!(!frame.contains(ent));
}

#[test]
fn remove_buffered_component() {
    let mut frame = Frame::new();
    let mut buffer = CommandBuffer::new();
    let ent = frame.spawn(bundle(vec![number(7), flag(true), text("moss_hecs")]));

    buffer.remove(ent, vec![I32, STR]);
    buffer.run_on(&mut frame);

    assert!(frame.get(ent, STR).is_err());
    assert!(frame.get(ent, I32).is_err());
}

#[test]
fn buffer_keeps_its_arena() {
    let mut frame = Frame::new();
    let e = frame.spawn(Bundle::new());
    let mut buffer = CommandBuffer::new();
    assert_eq!(buffer.arena_bytes(), 0);
    record(&mut buffer, e, vec![flag(true), number(7)]);
    assert_eq!(buffer.arena_bytes(), 64);
    assert_eq!(buffer.used_bytes(), 8);
    record(&mut buffer, e, vec![text("0123456789abcdef"), double(2.5)]);
    assert_eq!(buffer.used_bytes(), 32);
    let mut wide = Vec::new();
    wide.resize(100, 7u8);
    record(&mut buffer, e, vec![component(99, 1, wide.clone())]);
    assert_eq!(buffer.used_bytes(), 132);
    assert_eq!(buffer.arena_bytes(), 256);
    assert_eq!(buffer.len(), 3);
    buffer.run_on(&mut frame);
    assert_eq!(buffer.len(), 0);
    assert_eq!(buffer.used_bytes(), 0);
    assert_eq!(buffer.arena_bytes(), 256);
    assert_eq!(frame.get(e, 99).unwrap(), &wide);
    assert_eq!(read_int(&frame, e), 7);
    assert_eq!(read_text(&frame, e), "0123456789abcdef");
}

#[test]
fn buffered_spawn_makes_an_entity() {
    let mut frame = Frame::new();
    let mut buffer = CommandBuffer::new();
    let components = bundle(vec![number(5), flag(false)]);
    assert!(buffer.can_record(&components));
    buffer.spawn(components);
    assert_eq!(frame.len(), 0);
    assert!(buffer.can_run_on(&frame));
    assert_eq!(frame.room_left(), u32::MAX);
    assert!(frame.can_spawn());
    buffer.run_on(&mut frame);
    assert_eq!(frame.room_left(), u32::MAX - 1);
    assert_eq!(frame.len(), 1);
    let e = Entity::new(0, 0);
    assert!(frame.contains(e));
    assert_eq!(read_int(&frame, e), 5);
}

#[test]
fn cleared_buffer_does_nothing() {
    let mut frame = Frame::new();
    let e = frame.spawn(bundle(vec![number(1)]));
    let mut buffer = CommandBuffer::new();
    buffer.despawn(e);
    buffer.insert_one(e, number(2));
    buffer.clear();
    buffer.run_on(&mut frame);
    assert!(frame.contains(e));
    assert_eq!(read_int(&frame, e), 1);
}

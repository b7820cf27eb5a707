use bevy_net::replication::{
    fold_type_hash, type_hash, EntityLinkEvent, EntityLinks, Phase, RecvRegistry, Registered, Step, UpdateReader,
    UpdateWriter,
};
use std::hash::{DefaultHasher, Hash, Hasher};

#[test]
fn type_hashes_fold_halves() {
    assert_eq!(fold_type_hash(0), 0);
    assert_eq!(fold_type_hash(0x1234_5678_9abc_def0), 0x9abc_def0 ^ 0x1234_5678);
    assert_eq!(fold_type_hash(0xffff_ffff_0000_0000), 0xffff_ffff);
    assert_eq!(fold_type_hash(0xffff_ffff_ffff_ffff), 0);
}

#[test]
fn type_hash_is_the_folded_default_hash() {
    let name = "my_game::Ball";
    let mut hasher = DefaultHasher::new();
    name.hash(&mut hasher);
    let h = hasher.finish();
    assert_eq!(type_hash(name), (h as u32) ^ ((h >> 32) as u32));
    assert_eq!(type_hash(name), type_hash("my_game::Ball"));
    assert_ne!(type_hash("a::A"), type_hash("a::B"));
}

#[test]
fn entity_link_event_fields() {
    let e = EntityLinkEvent::new(3, 9);
    assert_eq!(e.local(), 3);
    assert_eq!(e.remote(), 9);
}

#[test]
fn entity_links_map_remote_to_local() {
    let mut links = EntityLinks::new();
    assert_eq!(links.get(5), None);
    links.insert(5, 0x1_0000_0007);
    links.insert(6, 8);
    assert_eq!(links.get(5), Some(0x1_0000_0007));
    assert_eq!(links.get(6), Some(8));
    links.insert(5, 11);
    assert_eq!(links.get(5), Some(11));
    assert_eq!(links.get(7), None);
}

#[test]
fn spawned_entities_are_linked_and_announced() {
    let mut links = EntityLinks::new();
    let event = links.link_spawned(12, 0x3_0000_0045);
    assert_eq!(links.get(12), Some(0x3_0000_0045));
    assert_eq!(event.local(), 0x45);
    assert_eq!(event.remote(), 12);
    let event = links.link_spawned(12, 9);
    assert_eq!(links.get(12), Some(9));
    assert_eq!(event.local(), 9);
}

#[test]
fn resources_and_events_are_written_after_their_hash() {
    let mut w = UpdateWriter::new();
    assert_eq!(w.len(), 0);
    w.write_resource(0x0403_0201, &[9, 9]);
    assert_eq!(w.len(), 6);
    w.write_events(0x0a0b_0c0d, &[]);
    assert_eq!(w.len(), 6);
    w.write_events(0x0000_0102, &[7]);
    let m = w.finish().unwrap();
    assert_eq!(m, vec![1, 2, 3, 4, 9, 9, 2, 1, 0, 0, 7, 0, 0, 0, 0]);
}

#[test]
fn component_arrays_end_with_zero_or_vanish() {
    let mut w = UpdateWriter::new();
    w.begin_components(0x11);
    w.end_components();
    w.begin_components(0x22);
    assert!(w.write_component(5, &[1, 2]).is_none());
    assert!(w.write_component(6, &[]).is_none());
    w.end_components();
    let m = w.finish().unwrap();
    assert_eq!(
        m,
        vec![0x22, 0, 0, 0, 5, 0, 0, 0, 1, 2, 6, 0, 0, 0, 0, 0, 0, 0, 0, 0, 0, 0]
    );
}

#[test]
fn a_nine_byte_message_is_not_sent() {
    let w = UpdateWriter::new();
    assert_eq!(w.finish(), Some(vec![0, 0, 0, 0]));
    let mut w = UpdateWriter::new();
    w.write_resource(1, &[5]);
    assert_eq!(w.finish(), None);
}

#[test]
fn long_arrays_are_split() {
    let mut w = UpdateWriter::new();
    w.begin_components(0x33);
    let data = vec![0xee; 600];
    assert!(w.write_component(1, &data).is_none());
    assert!(w.write_component(2, &data).is_none());
    let sent = w.write_component(3, &data).unwrap();
    // The first message ends its array where the third element began.
    assert_eq!(sent.len(), 4 + 2 * (4 + 600) + 4);
    assert_eq!(&sent[..8], &[0x33, 0, 0, 0, 1, 0, 0, 0][..]);
    assert_eq!(&sent[sent.len() - 4..], &[0, 0, 0, 0][..]);
    w.end_components();
    let m = w.finish().unwrap();
    assert_eq!(m.len(), 4 + 4 + 600 + 4 + 4);
    assert_eq!(&m[..8], &[0x33, 0, 0, 0, 3, 0, 0, 0][..]);
}

fn registry() -> RecvRegistry {
    let mut r = RecvRegistry::new();
    r.register_resource(0xdead_beef);
    r.register_event(0x55);
    r.register_component(77);
    r
}

#[test]
fn registry_kinds_prefer_resources() {
    let mut r = registry();
    assert_eq!(r.kind(0xdead_beef), Some(Registered::Resource));
    assert_eq!(r.kind(0x55), Some(Registered::Event));
    assert_eq!(r.kind(77), Some(Registered::Component));
    assert_eq!(r.kind(78), None);
    r.register_component(0x55);
    assert_eq!(r.kind(0x55), Some(Registered::Event));
    r.register_resource(0x55);
    assert_eq!(r.kind(0x55), Some(Registered::Resource));
}

#[test]
fn reader_walks_a_written_message() {
    let reg = registry();
    let mut w = UpdateWriter::new();
    w.write_resource(0xdead_beef, &[1, 2, 3]);
    w.write_events(0x55, &[4]);
    w.begin_components(77);
    assert!(w.write_component(4, &[8]).is_none());
    assert!(w.write_component(9, &[]).is_none());
    w.end_components();
    let m = w.finish().unwrap();
    let mut r = UpdateReader::new();
    assert_eq!(r.next(&m, &reg), Some(Step::Resource(0xdead_beef)));
    assert_eq!(r.phase(), Phase::InSection);
    assert_eq!(r.remaining(&m)[..3], [1, 2, 3]);
    r.consumed(&m, 3);
    assert_eq!(r.next(&m, &reg), Some(Step::Event(0x55)));
    r.consumed(&m, 1);
    assert_eq!(r.next(&m, &reg), Some(Step::Component(77, 4)));
    assert_eq!(r.remaining(&m)[0], 8);
    r.consumed(&m, 1);
    assert_eq!(r.next(&m, &reg), Some(Step::Component(77, 9)));
    r.consumed(&m, 0);
    assert_eq!(r.next(&m, &reg), Some(Step::End));
    assert_eq!(r.phase(), Phase::Ended);
    assert_eq!(r.position(), m.len());
}

#[test]
fn reader_passes_over_unregistered_types() {
    let reg = registry();
    let m = [1, 0, 0, 0, 2, 0, 0, 0, 0x55, 0, 0, 0, 6, 0, 0, 0, 0];
    let mut r = UpdateReader::new();
    assert_eq!(r.next(&m, &reg), Some(Step::Event(0x55)));
    assert_eq!(r.position(), 12);
    r.consumed(&m, 1);
    assert_eq!(r.next(&m, &reg), Some(Step::End));
}

#[test]
fn reader_stops_where_a_message_is_cut_short() {
    let reg = registry();
    let mut r = UpdateReader::new();
    assert_eq!(r.next(&[0xef, 0xbe], &reg), None);
    assert_eq!(r.position(), 0);
    // A message that was split ends with its array's zero and no final zero.
    let mut w = UpdateWriter::new();
    w.begin_components(77);
    let data = vec![0u8; 700];
    assert!(w.write_component(1, &data).is_none());
    let sent = w.write_component(2, &data).unwrap();
    let mut r = UpdateReader::new();
    assert_eq!(r.next(&sent, &reg), Some(Step::Component(77, 1)));
    r.consumed(&sent, 700);
    assert_eq!(r.next(&sent, &reg), None);
    assert_eq!(r.phase(), Phase::AtEntity(77));
}

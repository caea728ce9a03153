use orion_utils::stream::{
    set_waker, AsocStream, ClosingStream, FindAndRemove, LinearMap, PacketReader, PacketWriter,
};

#[test]
fn linear_map_inserts_finds_and_removes() {
    let mut map: LinearMap<u32, &str> = LinearMap::new();
    assert!(map.is_empty());
    assert_eq!(map.insert(1, "one"), None);
    assert_eq!(map.insert(2, "two"), None);
    assert_eq!(map.insert(3, "three"), None);
    assert_eq!(map.insert(2, "deux"), Some("two"));
    assert_eq!(map.len(), 3);
    assert_eq!(map.get(&2), Some(&"deux"));
    assert_eq!(map.get(&4), None);
    assert!(map.contains_key(&1));
    assert_eq!(map.index_of(&3), Some(2));
    assert_eq!(map.remove(&1), Some("one"));
    assert_eq!(map.remove(&1), None);
    // the last entry took the place of the removed one
    assert_eq!(map.keys(), vec![&3, &2]);
    assert_eq!(map.values(), vec![&"three", &"deux"]);
    assert_eq!(map.iter(), vec![(&3, &"three"), (&2, &"deux")]);
}

#[test]
fn linear_map_values_change_in_place() {
    let mut map: LinearMap<u8, u32> = LinearMap::default();
    map.insert(9, 1);
    *map.value_at_mut(0) += 41;
    assert_eq!(map.get(&9), Some(&42));
}

#[test]
fn linear_map_reads_back() {
    let mut map: LinearMap<u8, u64> = LinearMap::new();
    map.insert(1, 300);
    map.insert(2, 5);
    let mut bytes = Vec::new();
    map.encode(&mut bytes).unwrap();
    assert_eq!(bytes, vec![2, 1, 0xac, 0x02, 2, 5]);
    let mut slice: &[u8] = &bytes;
    let back = LinearMap::<u8, u64>::decode(&mut slice).unwrap();
    assert_eq!(back.get(&1), Some(&300));
    assert_eq!(back.get(&2), Some(&5));
}

#[test]
fn streams_keep_what_they_were_made_with() {
    let s = AsocStream::new(5u8, "peer");
    assert_eq!(s.inner, 5);
    assert_eq!(s.assoc, "peer");
    let c = ClosingStream::new(7u8, 3);
    assert_eq!(c.stream, 7);
    assert_eq!(c.error, 3);
}

#[test]
fn packet_writer_without_room_refuses() {
    let mut w = PacketWriter::new(4);
    assert!(!w.is_empty());
    assert!(PacketWriter::new(0).is_empty());
    assert_eq!(w.write(&1u8), None);
    assert_eq!(w.write_bytes(&[1]), None);
    assert_eq!(w.slice(0..4), &[0, 0, 0, 0]);
}

#[test]
fn packet_writer_writes_into_freed_space() {
    let mut w = PacketWriter::new(4);
    w.advance(2);
    let snapshot = w.take_snapshot();
    assert_eq!(w.write(&7u8), Some((0, 1)));
    assert_eq!(w.slice(0..1), &[7]);
    assert_eq!(w.writable_parts(), ((0, 1), (2, 4)));
    assert_eq!(w.write_with_range(&9u8), Some((1, 2)));
    // with the end caught up with the start the writer takes the space before the start
    assert_eq!(w.write(&1u8), Some((0, 1)));
    assert_eq!(w.slice(0..2), &[1, 9]);
    w.revert(snapshot);
    assert_eq!(w.writable_parts(), ((0, 0), (2, 4)));
}

#[test]
fn packet_writer_resets_when_drained() {
    let mut w = PacketWriter::new(4);
    w.advance(2);
    w.write(&7u8).unwrap();
    w.write(&8u8).unwrap();
    w.advance(2);
    assert_eq!(w.writable_parts(), ((0, 2), (0, 0)));
    w.advance(2);
    w.reset_if_drained();
    assert_eq!(w.writable_parts(), ((0, 0), (0, 0)));
}

#[test]
fn get_mut_changes_the_found_value() {
    let mut map: LinearMap<u8, u32> = LinearMap::new();
    map.insert(1, 10);
    map.insert(2, 20);
    *map.get_mut(&2).unwrap() += 1;
    assert!(map.get_mut(&3).is_none());
    assert_eq!(map.get(&2), Some(&21));
    assert_eq!(map.get(&1), Some(&10));
}

#[test]
fn packet_reader_starts_empty() {
    let reader = PacketReader::default();
    assert!(reader.read_buffer.is_empty());
    assert_eq!(reader.read_offset, 0);
}

#[test]
fn packets_that_do_not_fit_leave_what_fitted() {
    let mut w = PacketWriter::new(8);
    assert_eq!(w.write_packet(&[1u8, 2, 3]), None);
    assert_eq!(w.slice(0..8), &[0u8; 8]);

    w.advance(6);
    assert_eq!(w.writable_parts(), ((0, 0), (6, 8)));
    assert_eq!(w.write_packet(&[7u8, 8, 9]), None);
    // the room for the length went in, the packet did not
    assert_eq!(w.writable_parts(), ((0, 4), (6, 8)));
}

#[test]
fn find_and_remove_takes_the_first_accepted_item() {
    let mut v = vec![1, 5, 3, 8];
    assert_eq!(v.find_and_remove(|x| *x > 4), Some(5));
    assert_eq!(v, vec![1, 8, 3]);
    assert_eq!(v.find_and_remove(|x| *x > 10), None);
    assert_eq!(v, vec![1, 8, 3]);
    assert_eq!(v.find_and_remove(|x| *x == 3), Some(3));
    assert_eq!(v, vec![1, 8]);
}

#[test]
fn set_waker_always_leaves_a_waker() {
    let waker = futures::task::noop_waker();
    let mut slot = None;
    set_waker(&mut slot, &waker);
    assert!(slot.as_ref().unwrap().will_wake(&waker));
    set_waker(&mut slot, &waker);
    assert!(slot.unwrap().will_wake(&waker));
}

#[test]
fn bytes_too_long_for_the_room_leave_the_writer_as_it_was() {
    let mut w = PacketWriter::new(4);
    w.advance(2);
    assert_eq!(w.write_bytes(&[5, 6, 7]), None);
    assert_eq!(w.writable_parts(), ((0, 0), (2, 4)));
    assert_eq!(w.slice(0..2), &[0, 0]);
    assert_eq!(w.write_bytes(&[5, 6]), Some((0, 2)));
    assert_eq!(w.slice(0..2), &[5, 6]);
}

#[test]
fn removing_a_key_keeps_the_others() {
    let mut map: LinearMap<u8, u32> = LinearMap::new();
    assert_eq!(map.insert(1, 10), None);
    assert_eq!(map.insert(2, 20), None);
    assert_eq!(map.insert(3, 30), None);
    assert_eq!(map.insert(2, 21), Some(20));
    assert_eq!(map.len(), 3);
    assert_eq!(map.remove(&1), Some(10));
    assert_eq!(map.remove(&1), None);
    assert_eq!(map.len(), 2);
    assert_eq!(map.get(&1), None);
    assert_eq!(map.get(&2), Some(&21));
    assert_eq!(map.get(&3), Some(&30));
    assert_eq!(map.keys(), vec![&3, &2]);
}

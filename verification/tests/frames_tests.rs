use aurora_screenshots::frames::{
    assemble_stream_captures, chunk_range, order_by_id, process_step, FrameStore, NodeSet, ProcessStep, RawFrame,
    SizeTable,
};
use aurora_screenshots::pixels::PixelFormat;

fn frame(node: u32, fill: u8) -> RawFrame {
    RawFrame { node_id: node, data: vec![fill; 2 * 2 * 4], width: 2, height: 2, format: PixelFormat::Bgrx }
}

#[test]
fn first_frame_of_a_node_is_kept() {
    let mut store = FrameStore::new();
    assert!(!store.store_first(frame(7, 1), 2));
    assert!(!store.store_first(frame(7, 2), 2));
    assert_eq!(store.len(), 1);
    assert!(store.store_first(frame(3, 3), 2));
    assert!(store.contains(7) && store.contains(3) && !store.contains(4));
}

#[test]
fn process_steps_follow_the_callback_order() {
    let mut store = FrameStore::new();
    store.store_first(frame(1, 0), 3);
    assert_eq!(process_step(&store, 1, true, 10, 10), ProcessStep::Drop);
    assert_eq!(process_step(&store, 2, false, 10, 10), ProcessStep::Wait);
    assert_eq!(process_step(&store, 2, true, 0, 10), ProcessStep::Wait);
    assert_eq!(process_step(&store, 2, true, 10, 10), ProcessStep::Read);
}

#[test]
fn chunk_must_lie_in_the_mapped_bytes() {
    assert_eq!(chunk_range(16, 64, 80), Some((16, 80)));
    assert_eq!(chunk_range(16, 65, 80), None);
    assert_eq!(chunk_range(0, 0, 80), None);
    assert_eq!(chunk_range(u32::MAX, u32::MAX, usize::MAX), Some((u32::MAX as usize, 2 * u32::MAX as usize)));
}

#[test]
fn sizes_keep_the_latest_negotiation() {
    let mut t = SizeTable::new();
    assert_eq!(t.get(4), None);
    t.set(4, (800, 600));
    t.set(5, (1920, 1080));
    t.set(4, (1024, 768));
    assert_eq!(t.get(4), Some((1024, 768)));
    assert_eq!(t.get(5), Some((1920, 1080)));
}

#[test]
fn node_set_holds_inserted_nodes() {
    let mut s = NodeSet::new();
    s.insert(9);
    s.insert(9);
    s.insert(2);
    assert!(s.contains(9) && s.contains(2) && !s.contains(3));
}

#[test]
fn order_is_by_increasing_id() {
    assert_eq!(order_by_id(&[42, 7, 19, 3]), vec![3, 1, 2, 0]);
    assert_eq!(order_by_id(&[]), Vec::<usize>::new());
    assert_eq!(order_by_id(&[u32::MAX, 0]), vec![1, 0]);
}

#[test]
fn captures_come_out_by_node_id_with_the_missing_streams() {
    let mut store = FrameStore::new();
    store.store_first(frame(30, 1), 3);
    store.store_first(frame(10, 2), 3);
    let mut sizes = SizeTable::new();
    sizes.set(10, (2, 2));
    sizes.set(20, (1280, 1024));
    sizes.set(30, (2, 2));
    let streams = [(10, 0, 0), (20, 1000, 0), (30, 2000, 0), (40, 3000, 0)];
    let (monitors, uncaptured) = assemble_stream_captures(&store, &streams, &sizes).unwrap();
    assert_eq!(monitors.iter().map(|m| m.x).collect::<Vec<_>>(), vec![0, 2000]);
    assert_eq!(uncaptured, vec![(1000, 0, 1280, 1024)]);
}

#[test]
fn no_frames_is_an_error() {
    let store = FrameStore::new();
    let err = assemble_stream_captures(&store, &[(1, 0, 0)], &SizeTable::new()).unwrap_err();
    assert_eq!(err, "No se recibieron frames de PipeWire (timeout o error)");
}

#[test]
fn frames_that_fail_to_encode_are_left_out() {
    let mut store = FrameStore::new();
    let mut bad = frame(1, 0);
    bad.data = vec![0; 3];
    store.store_first(bad, 1);
    let err = assemble_stream_captures(&store, &[(1, 0, 0)], &SizeTable::new()).unwrap_err();
    assert_eq!(err, "Fallo al encodear frames de PipeWire");
}

#[test]
fn only_streaming_nodes_without_a_frame_are_retriggered() {
    let mut store = FrameStore::new();
    store.store_first(frame(2, 0), 3);
    let mut streaming = NodeSet::new();
    streaming.insert(1);
    streaming.insert(2);
    let r = aurora_screenshots::frames::nodes_to_retrigger(&[1, 2, 3], &streaming, &store);
    assert_eq!(r, vec![1]);
}

#[test]
fn frames_are_placed_where_the_streams_put_their_node() {
    let mut store = FrameStore::new();
    store.store_first(frame(8, 1), 3);
    store.store_first(frame(5, 2), 3);
    store.store_first(frame(99, 3), 3);
    let sizes = SizeTable::new();
    let streams = [(5, -1280, 40), (8, 1920, -300)];
    let (monitors, uncaptured) = assemble_stream_captures(&store, &streams, &sizes).unwrap();
    let places: Vec<(i32, i32)> = monitors.iter().map(|m| (m.x, m.y)).collect();
    assert_eq!(places, vec![(-1280, 40), (1920, -300)]);
    assert!(uncaptured.is_empty());
}

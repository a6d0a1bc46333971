use clockwise::testing::{Response, Signal};
use clockwise::trace::{edges_of, reconstruct};

const SETTLE: u64 = 1_000;
const FRAME_GAP: u64 = 4_000;

#[test]
fn reconstruct_one_byte() {
    // three trace pins with significances 0, 1, 2; edges at 10 ms and
    // 10 ms + 20 us, then quiescence: one frame, payload 0b101, at 10 ms
    let responses = vec![
        Response { time: 10_000, output: Signal::High(0) },
        Response { time: 10_020, output: Signal::High(2) },
    ];
    let pin_order = vec![0u8, 1, 2];
    let traces = reconstruct(&responses, &pin_order, &Vec::new(), SETTLE, FRAME_GAP);
    assert_eq!(traces.len(), 1);
    assert_eq!(traces[0].time, 10_000);
    assert_eq!(traces[0].data, vec![0b101u8]);
    // no trace points were declared, so the frame keeps the raw label
    assert_eq!(traces[0].label, "?");
}

#[test]
fn reconstruct_all_zero_edges() {
    // edges that only ever drive low spell nothing: empty trace output
    let responses = vec![
        Response { time: 1_000, output: Signal::Low(0) },
        Response { time: 2_000, output: Signal::Low(1) },
        Response { time: 50_000, output: Signal::Low(2) },
    ];
    let pin_order = vec![0u8, 1, 2];
    let traces = reconstruct(&responses, &pin_order, &Vec::new(), SETTLE, FRAME_GAP);
    assert_eq!(traces.len(), 0);
}

#[test]
fn reconstruct_empty_input() {
    let traces = reconstruct(&Vec::new(), &vec![0u8, 1], &Vec::new(), SETTLE, FRAME_GAP);
    assert_eq!(traces.len(), 0);
}

#[test]
fn reconstruct_unsorted_input_is_sorted_first() {
    // same edges as the one-byte case, handed over out of order
    let responses = vec![
        Response { time: 10_020, output: Signal::High(2) },
        Response { time: 10_000, output: Signal::High(0) },
    ];
    let pin_order = vec![0u8, 1, 2];
    let traces = reconstruct(&responses, &pin_order, &Vec::new(), SETTLE, FRAME_GAP);
    assert_eq!(traces.len(), 1);
    assert_eq!(traces[0].time, 10_000);
    assert_eq!(traces[0].data, vec![0b101u8]);
}

#[test]
fn reconstruct_drops_foreign_pins() {
    // an edge on a pin outside the trace order is dropped
    let responses = vec![
        Response { time: 10_000, output: Signal::High(0) },
        Response { time: 10_010, output: Signal::High(9) },
    ];
    let pin_order = vec![0u8, 1, 2];
    let traces = reconstruct(&responses, &pin_order, &Vec::new(), SETTLE, FRAME_GAP);
    assert_eq!(traces.len(), 1);
    assert_eq!(traces[0].data, vec![0b001u8]);
}

#[test]
fn reconstruct_round_trip_synthetic_frame() {
    // a synthetic frame round-trips: its bytes come back as one trace
    let frames: Vec<Vec<u8>> = vec![
        vec![0x01, 0x07, 0x00, 0x00, 0x00, 0x2A, 0x00, 0x00, 0x00],
        vec![0x05],
        vec![0x00, 0x03, 0x00],
    ];
    let pin_orders: Vec<Vec<u8>> = vec![
        vec![0, 1, 2, 3, 4, 5, 6, 7],
        vec![7, 6, 5, 4, 3, 2, 1, 0],
        vec![3, 1, 4, 0, 5, 2, 7, 6],
    ];
    let clock: u64 = 2_000;
    let t0: u64 = 123_456;
    for bytes in &frames {
        for pin_order in &pin_orders {
            let edges = edges_of(bytes, pin_order, t0, clock);
            let traces = reconstruct(&edges, pin_order, &Vec::new(), SETTLE, FRAME_GAP);
            assert_eq!(traces.len(), 1);
            assert_eq!(traces[0].time, t0);
            assert_eq!(&traces[0].data, bytes);
        }
    }
}

#[test]
fn reconstruct_two_frames_monotone() {
    // two well-separated frames come back in timestamp order
    let pin_order = vec![0u8, 1];
    let clock: u64 = 2_000;
    let mut edges = edges_of(&vec![0x02, 0x01], &pin_order, 10_000, clock);
    let second = edges_of(&vec![0x03], &pin_order, 40_000, clock);
    edges.extend_from_slice(&second);
    let traces = reconstruct(&edges, &pin_order, &Vec::new(), SETTLE, FRAME_GAP);
    assert_eq!(traces.len(), 2);
    assert_eq!(traces[0].time, 10_000);
    assert_eq!(traces[0].data, vec![0x02, 0x01]);
    assert_eq!(traces[1].time, 40_000);
    assert_eq!(traces[1].data, vec![0x03]);
    assert!(traces[0].time <= traces[1].time);
}

#[test]
fn reconstruct_labels_frames_by_counter_id() {
    // counter ids name the declared trace points in order, starting at one
    let pin_order = vec![0u8, 1, 2, 3, 4, 5, 6, 7];
    let points = vec!["alloc".to_string(), "free".to_string()];
    let clock: u64 = 2_000;
    // one frame whose first byte carries counter id 1, one with id 2, and
    // one whose id 3 resolves to no declared point
    let mut edges = edges_of(&vec![0x01, 0x2A], &pin_order, 10_000, clock);
    edges.extend_from_slice(&edges_of(&vec![0x82], &pin_order, 40_000, clock));
    edges.extend_from_slice(&edges_of(&vec![0x03], &pin_order, 70_000, clock));
    let traces = reconstruct(&edges, &pin_order, &points, 1_000, 4_000);
    assert_eq!(traces.len(), 3);
    assert_eq!(traces[0].label, "alloc");
    assert_eq!(traces[1].label, "free");
    assert_eq!(traces[2].label, "?");
}

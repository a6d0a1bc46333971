use clockwise::error::Error;
use clockwise::mem::{extract_u32, pcb, stream_operation, upcall_queue, CounterId, OpType,
                     StreamOperation};

#[test]
pub fn recognize_add_operation() {
    // a clear operation bit means set: the wire format maps zero to set
    let input = [0b0000_0000];
    let r = stream_operation(input[0]);
    assert_eq!(r, OpType::SetTo);
}

#[test]
pub fn recognize_set_operation() {
    // a set operation bit means add
    let input = [0b1000_0000];
    let r = stream_operation(input[0]);
    assert_eq!(r, OpType::Add);
}

#[test]
pub fn recognize_pcb() {
    let input = [0b0000_0001 << 1,
                 0b0001_0000 << 1,
                 0b0000_1000 << 1,
                 0b0000_0010 << 1,
                 0b0000_0001 << 1];
    let r = pcb(&input);

    assert_eq!(r.is_ok(), true);
    assert_eq!(r.unwrap(),
               CounterId::PCB((0b0001_0000 as u32) << (1)
                              | (0b0000_1000 as u32) << (1 + 8)
                              | (0b0000_0010 as u32) << (1 + 16)
                              | (0b0000_0001 as u32) << (1 + 24)));
}

#[test]
pub fn recognize_upcall_queue() {
    let input = [2 << 1,
                 0b0001_0000 << 1,
                 0b0000_1000 << 1,
                 0b0000_0010 << 1,
                 0b0000_0001 << 1];
    let r = upcall_queue(&input);

    assert_eq!(r.is_ok(), true);
    assert_eq!(r.unwrap(),
               CounterId::UpcallQueue((0b0001_0000 as u32) << (1)
                                      | (0b0000_1000 as u32) << (1 + 8)
                                      | (0b0000_0010 as u32) << (1 + 16)
                                      | (0b0000_0001 as u32) << (1 + 24)));
}

#[test]
fn decode_set_pcb() {
    let bytes = [0x01, 0x07, 0x00, 0x00, 0x00, 0x2A, 0x00, 0x00, 0x00];
    let r = StreamOperation::decode(&bytes);
    assert_eq!(r.unwrap(), StreamOperation::SetTo(CounterId::PCB(7), 42));
}

#[test]
fn decode_add_grant() {
    let bytes = [0x84, 0x03, 0x00, 0x00, 0x00, 0x05, 0x00, 0x00, 0x00, 0xFF, 0x00, 0x00, 0x00];
    let r = StreamOperation::decode(&bytes);
    assert_eq!(r.unwrap(), StreamOperation::Add(CounterId::Grant(3, 5), 255));
}

#[test]
fn decode_truncated_frame() {
    // a PCB frame cut off before its operand: no partial operation surfaces
    assert!(matches!(StreamOperation::decode(&[0x01, 0x07]), Err(Error::Truncated)));
    assert!(matches!(StreamOperation::decode(&[]), Err(Error::Truncated)));
    assert!(matches!(StreamOperation::decode(&[0x01, 0x07, 0x00, 0x00, 0x00, 0x2A, 0x00, 0x00]),
                     Err(Error::Truncated)));
}

#[test]
fn decode_unknown_counter_ids() {
    let tail = [0x00u8; 8];
    let mut frame = vec![0x00u8];
    frame.extend_from_slice(&tail);
    assert!(matches!(StreamOperation::decode(&frame), Err(Error::UnknownCounter(0))));
    for id in 6u8..=127u8 {
        frame[0] = id;
        match StreamOperation::decode(&frame) {
            Err(Error::UnknownCounter(got)) => assert_eq!(got, id),
            _ => panic!("counter id {} must be refused", id),
        }
    }
    // the operation bit does not rescue an unknown counter
    frame[0] = 0x80 | 0x06;
    assert!(matches!(StreamOperation::decode(&frame), Err(Error::UnknownCounter(6))));
}

#[test]
fn encode_decode_round_trip() {
    let ops = vec![
        StreamOperation::SetTo(CounterId::PCB(7), 42),
        StreamOperation::Add(CounterId::PCB(0xFFFF_FFFF), 0),
        StreamOperation::SetTo(CounterId::UpcallQueue(1), 2),
        StreamOperation::Add(CounterId::GrantPointerTable(9), 0x1234_5678),
        StreamOperation::SetTo(CounterId::Grant(3, 5), 255),
        StreamOperation::Add(CounterId::Grant(0, 0xFFFF_FFFF), 1),
        StreamOperation::SetTo(CounterId::CustomGrant(77), 0xDEAD_BEEF),
    ];
    for op in ops {
        let bytes = op.encode();
        assert_eq!(StreamOperation::decode(&bytes).unwrap(), op);
    }
}

#[test]
fn encode_set_pcb_exact_bytes() {
    let bytes = StreamOperation::SetTo(CounterId::PCB(7), 42).encode();
    assert_eq!(bytes, vec![0x01, 0x07, 0x00, 0x00, 0x00, 0x2A, 0x00, 0x00, 0x00]);
    let bytes = StreamOperation::Add(CounterId::Grant(3, 5), 255).encode();
    assert_eq!(bytes,
               vec![0x84, 0x03, 0x00, 0x00, 0x00, 0x05, 0x00, 0x00, 0x00, 0xFF, 0x00, 0x00,
                    0x00]);
}

#[test]
fn extract_u32_reads_little_endian() {
    let data = [0xAA, 0x78, 0x56, 0x34, 0x12, 0xBB];
    assert_eq!(extract_u32(&data, 1).unwrap(), 0x1234_5678);
    assert!(matches!(extract_u32(&data, 3), Err(Error::Truncated)));
}

#[test]
fn pcb_wrong_tag_refused() {
    let input = [2 << 1, 0, 0, 0, 0];
    assert!(matches!(pcb(&input), Err(Error::UnknownCounter(2))));
    let short = [1 << 1, 0, 0];
    assert!(matches!(pcb(&short), Err(Error::Truncated)));
}

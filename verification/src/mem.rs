//! Aggregate memory statistics sent over the wire.
//!
//! A stream-operation frame is `[op/counter byte, counter payload, operand]`:
//! the first byte carries the operation in its most significant bit and the
//! counter id in the remaining seven bits, and the frame ends with a
//! little-endian `u32` operand. The counter payload sits between the two and
//! never overlaps the trailing operand.

use vstd::prelude::*;

use crate::error::Error;

verus! {

/// Memory statistic category.
#[derive(Copy, Clone, Debug, Eq, PartialEq, Structural)]
pub enum CounterId {
    /// Total for allocated grant types.
    AllGrantStructures(u32),
    /// Custom grant allocation total.
    CustomGrant(u32),
    /// Sizes of individual grants.
    Grant(u32, u32),
    /// Grant pointer table.
    GrantPointerTable(u32),
    /// Process control block.
    PCB(u32),
    /// Upcall queue.
    UpcallQueue(u32),
}

/// Operation to apply to an aggregated memory statistic.
#[derive(Copy, Clone, Debug, Eq, PartialEq, Structural)]
pub enum StreamOperation {
    /// Add the contained value to the given statistic's counter.
    Add(CounterId, u32),
    /// Set the counter for the given statistic to the given value.
    SetTo(CounterId, u32),
}

/// Operation field of a frame's first byte, on its own.
#[derive(Copy, Clone, Debug, Eq, PartialEq, Structural)]
pub enum OpType {
    Add,
    SetTo,
}

/// A `u32` read from four bytes, least significant byte first.
pub open spec fn spec_le_u32(b0: u8, b1: u8, b2: u8, b3: u8) -> u32 {
    (b0 as u32) | ((b1 as u32) << 8) | ((b2 as u32) << 16) | ((b3 as u32) << 24)
}

/// The little-endian `u32` at offset `at` of `bytes`.
pub open spec fn spec_le_u32_at(bytes: Seq<u8>, at: int) -> u32
    recommends
        0 <= at,
        at + 4 <= bytes.len(),
{
    spec_le_u32(bytes[at], bytes[at + 1], bytes[at + 2], bytes[at + 3])
}

/// The four little-endian bytes of `v`, least significant first.
pub open spec fn spec_le_bytes(v: u32) -> Seq<u8> {
    seq![
        (v & 0xff) as u8,
        ((v >> 8) & 0xff) as u8,
        ((v >> 16) & 0xff) as u8,
        ((v >> 24) & 0xff) as u8,
    ]
}

/// What decoding a counter id with its payload bytes yields: the counters of
/// the wire table, `Truncated` when the payload is short, `UnknownCounter`
/// for a seven-bit id outside the table.
pub open spec fn spec_decode_counter(id: u8, payload: Seq<u8>) -> Result<CounterId, Error> {
    if id == 1 {
        if payload.len() >= 4 {
            Ok(CounterId::PCB(spec_le_u32_at(payload, 0)))
        } else {
            Err(Error::Truncated)
        }
    } else if id == 2 {
        if payload.len() >= 4 {
            Ok(CounterId::UpcallQueue(spec_le_u32_at(payload, 0)))
        } else {
            Err(Error::Truncated)
        }
    } else if id == 3 {
        if payload.len() >= 4 {
            Ok(CounterId::GrantPointerTable(spec_le_u32_at(payload, 0)))
        } else {
            Err(Error::Truncated)
        }
    } else if id == 4 {
        if payload.len() >= 8 {
            Ok(CounterId::Grant(spec_le_u32_at(payload, 0), spec_le_u32_at(payload, 4)))
        } else {
            Err(Error::Truncated)
        }
    } else if id == 5 {
        if payload.len() >= 4 {
            Ok(CounterId::CustomGrant(spec_le_u32_at(payload, 0)))
        } else {
            Err(Error::Truncated)
        }
    } else {
        Err(Error::UnknownCounter(id))
    }
}

/// The counter payload of a frame: everything between the op/counter byte and
/// the trailing operand. Frames too short to carry an operand have none.
pub open spec fn spec_payload(bytes: Seq<u8>) -> Seq<u8> {
    if bytes.len() >= 5 {
        bytes.subrange(1, bytes.len() - 4)
    } else {
        Seq::empty()
    }
}

/// What decoding a whole frame yields. The counter is decoded first, so an
/// unknown id is reported even on a frame too short for an operand.
pub open spec fn spec_decode(bytes: Seq<u8>) -> Result<StreamOperation, Error> {
    if bytes.len() == 0 {
        Err(Error::Truncated)
    } else {
        let op_bit = bytes[0] >> 7;
        let id = bytes[0] & 0x7f;
        match spec_decode_counter(id, spec_payload(bytes)) {
            Ok(counter) => if bytes.len() >= 5 {
                let operand = spec_le_u32_at(bytes, bytes.len() - 4);
                if op_bit == 0 {
                    Ok(StreamOperation::SetTo(counter, operand))
                } else {
                    Ok(StreamOperation::Add(counter, operand))
                }
            } else {
                Err(Error::Truncated)
            },
            Err(e) => Err(e),
        }
    }
}

/// Read a little-endian `u32` from `data` starting at `at`.
pub fn extract_u32(data: &[u8], at: usize) -> (r: Result<u32, Error>)
    ensures
        at + 4 <= data@.len() ==> r == Ok::<u32, Error>(spec_le_u32_at(data@, at as int)),
        at + 4 > data@.len() ==> r == Err::<u32, Error>(Error::Truncated),
{
    if data.len() >= 4 && at <= data.len() - 4 {
        Ok(
            (data[at] as u32) | ((data[at + 1] as u32) << 8) | ((data[at + 2] as u32) << 16) | (
            (data[at + 3] as u32) << 24),
        )
    } else {
        Err(Error::Truncated)
    }
}

impl CounterId {
    /// Decode a counter from its seven-bit id and its payload bytes.
    pub fn decode(id: u8, payload: &[u8]) -> (r: Result<CounterId, Error>)
        ensures
            r == spec_decode_counter(id, payload@),
    {
        match id {
            1 => match extract_u32(payload, 0) {
                Ok(pid) => Ok(CounterId::PCB(pid)),
                Err(e) => Err(e),
            },
            2 => match extract_u32(payload, 0) {
                Ok(pid) => Ok(CounterId::UpcallQueue(pid)),
                Err(e) => Err(e),
            },
            3 => match extract_u32(payload, 0) {
                Ok(pid) => Ok(CounterId::GrantPointerTable(pid)),
                Err(e) => Err(e),
            },
            4 => match extract_u32(payload, 0) {
                Ok(pid) => match extract_u32(payload, 4) {
                    Ok(grant_no) => Ok(CounterId::Grant(pid, grant_no)),
                    Err(e) => Err(e),
                },
                Err(e) => Err(e),
            },
            5 => match extract_u32(payload, 0) {
                Ok(pid) => Ok(CounterId::CustomGrant(pid)),
                Err(e) => Err(e),
            },
            _ => Err(Error::UnknownCounter(id)),
        }
    }

    /// The seven-bit wire id of this counter; grant totals have none.
    pub open spec fn spec_wire_id(self) -> Option<u8> {
        match self {
            CounterId::AllGrantStructures(_) => None,
            CounterId::CustomGrant(_) => Some(5),
            CounterId::Grant(_, _) => Some(4),
            CounterId::GrantPointerTable(_) => Some(3),
            CounterId::PCB(_) => Some(1),
            CounterId::UpcallQueue(_) => Some(2),
        }
    }

    /// The payload bytes this counter contributes to a frame.
    pub open spec fn spec_payload_bytes(self) -> Seq<u8> {
        match self {
            CounterId::AllGrantStructures(pid) => spec_le_bytes(pid),
            CounterId::CustomGrant(pid) => spec_le_bytes(pid),
            CounterId::Grant(pid, grant_no) => spec_le_bytes(pid) + spec_le_bytes(grant_no),
            CounterId::GrantPointerTable(pid) => spec_le_bytes(pid),
            CounterId::PCB(pid) => spec_le_bytes(pid),
            CounterId::UpcallQueue(pid) => spec_le_bytes(pid),
        }
    }
}

/// Append the four little-endian bytes of `x` to `out`.
fn push_le_u32(out: &mut Vec<u8>, x: u32)
    ensures
        final(out)@ == old(out)@ + spec_le_bytes(x),
{
    out.push((x & 0xff) as u8);
    out.push(((x >> 8) & 0xff) as u8);
    out.push(((x >> 16) & 0xff) as u8);
    out.push(((x >> 24) & 0xff) as u8);
    assert(out@ =~= old(out)@ + spec_le_bytes(x));
}

impl StreamOperation {
    /// The counter this operation applies to.
    pub open spec fn spec_counter(self) -> CounterId {
        match self {
            StreamOperation::Add(c, _) => c,
            StreamOperation::SetTo(c, _) => c,
        }
    }

    /// The operation bit of the frame's first byte: `Set` is zero, `Add` one.
    pub open spec fn spec_op_bit(self) -> u8 {
        match self {
            StreamOperation::Add(_, _) => 1,
            StreamOperation::SetTo(_, _) => 0,
        }
    }

    /// The operand carried in the frame's trailing four bytes.
    pub open spec fn spec_operand(self) -> u32 {
        match self {
            StreamOperation::Add(_, v) => v,
            StreamOperation::SetTo(_, v) => v,
        }
    }

    /// The wire bytes of this operation.
    pub open spec fn spec_encode(self) -> Seq<u8>
        recommends
            self.spec_counter().spec_wire_id() is Some,
    {
        let id = self.spec_counter().spec_wire_id()->0;
        seq![(self.spec_op_bit() << 7) | id] + self.spec_counter().spec_payload_bytes()
            + spec_le_bytes(self.spec_operand())
    }

    /// Decode one stream operation from a byte frame.
    pub fn decode(bytes: &[u8]) -> (r: Result<StreamOperation, Error>)
        ensures
            r == spec_decode(bytes@),
    {
        if bytes.len() == 0 {
            return Err(Error::Truncated);
        }
        let b0 = bytes[0];
        let op_bit = b0 >> 7;
        let id = b0 & 0x7f;
        let payload: &[u8] = if bytes.len() >= 5 {
            &bytes[1..bytes.len() - 4]
        } else {
            &bytes[0..0]
        };
        assert(payload@ == spec_payload(bytes@));
        let counter = match CounterId::decode(id, payload) {
            Ok(counter) => counter,
            Err(e) => {
                return Err(e);
            },
        };
        if bytes.len() >= 5 {
            let operand = match extract_u32(bytes, bytes.len() - 4) {
                Ok(operand) => operand,
                Err(e) => {
                    return Err(e);
                },
            };
            if op_bit == 0 {
                Ok(StreamOperation::SetTo(counter, operand))
            } else {
                Ok(StreamOperation::Add(counter, operand))
            }
        } else {
            Err(Error::Truncated)
        }
    }

    /// Encode this operation as a wire frame.
    pub fn encode(&self) -> (r: Vec<u8>)
        requires
            self.spec_counter().spec_wire_id() is Some,
        ensures
            r@ == self.spec_encode(),
    {
        let (op_bit, counter, operand): (u8, CounterId, u32) = match *self {
            StreamOperation::Add(c, v) => (1, c, v),
            StreamOperation::SetTo(c, v) => (0, c, v),
        };
        let mut out: Vec<u8> = Vec::new();
        match counter {
            CounterId::AllGrantStructures(_) => {
                // excluded by the precondition: no wire id exists
            },
            CounterId::CustomGrant(pid) => {
                out.push((op_bit << 7) | 5);
                push_le_u32(&mut out, pid);
            },
            CounterId::Grant(pid, grant_no) => {
                out.push((op_bit << 7) | 4);
                push_le_u32(&mut out, pid);
                push_le_u32(&mut out, grant_no);
            },
            CounterId::GrantPointerTable(pid) => {
                out.push((op_bit << 7) | 3);
                push_le_u32(&mut out, pid);
            },
            CounterId::PCB(pid) => {
                out.push((op_bit << 7) | 1);
                push_le_u32(&mut out, pid);
            },
            CounterId::UpcallQueue(pid) => {
                out.push((op_bit << 7) | 2);
                push_le_u32(&mut out, pid);
            },
        }
        push_le_u32(&mut out, operand);
        assert(out@ =~= self.spec_encode());
        out
    }
}

/// Reading back the four little-endian bytes of `v` gives `v` again.
proof fn lemma_le_roundtrip(v: u32)
    ensures
        spec_le_u32(
            (v & 0xff) as u8,
            ((v >> 8) & 0xff) as u8,
            ((v >> 16) & 0xff) as u8,
            ((v >> 24) & 0xff) as u8,
        ) == v,
{
    assert((((v & 0xff) as u8) as u32) | ((((v >> 8) & 0xff) as u8) as u32) << 8 | ((((v >> 16)
        & 0xff) as u8) as u32) << 16 | ((((v >> 24) & 0xff) as u8) as u32) << 24 == v)
        by (bit_vector);
}

/// Splitting a frame's first byte recovers the operation bit and counter id
/// that built it.
proof fn lemma_first_byte_split(op_bit: u8, id: u8)
    requires
        op_bit <= 1,
        1 <= id <= 5,
    ensures
        ((op_bit << 7) | id) >> 7 == op_bit,
        ((op_bit << 7) | id) & 0x7f == id,
{
    assert(((op_bit << 7) | id) >> 7 == op_bit && ((op_bit << 7) | id) & 0x7f == id)
        by (bit_vector)
        requires
            op_bit <= 1,
            1 <= id <= 5,
    ;
}

/// Round trip: decoding an encoded operation yields the operation, for every
/// operation whose counter has a wire id.
pub proof fn lemma_decode_encode(op: StreamOperation)
    requires
        op.spec_counter().spec_wire_id() is Some,
    ensures
        spec_decode(op.spec_encode()) == Ok::<StreamOperation, Error>(op),
{
    let bytes = op.spec_encode();
    let id = op.spec_counter().spec_wire_id()->0;
    let payload = op.spec_counter().spec_payload_bytes();
    let operand = op.spec_operand();
    lemma_first_byte_split(op.spec_op_bit(), id);
    assert(bytes[0] == (op.spec_op_bit() << 7) | id);
    assert(spec_payload(bytes) =~= payload);
    lemma_le_roundtrip(operand);
    assert(spec_le_u32_at(bytes, bytes.len() - 4) == operand) by {
        assert(bytes[bytes.len() - 4] == (operand & 0xff) as u8);
        assert(bytes[bytes.len() - 3] == ((operand >> 8) & 0xff) as u8);
        assert(bytes[bytes.len() - 2] == ((operand >> 16) & 0xff) as u8);
        assert(bytes[bytes.len() - 1] == ((operand >> 24) & 0xff) as u8);
    }
    match op.spec_counter() {
        CounterId::AllGrantStructures(_) => {
            assert(false);
        },
        CounterId::Grant(pid, grant_no) => {
            lemma_le_roundtrip(pid);
            lemma_le_roundtrip(grant_no);
            assert(spec_le_u32_at(payload, 0) == pid);
            assert(spec_le_u32_at(payload, 4) == grant_no) by {
                assert(payload[4] == (grant_no & 0xff) as u8);
                assert(payload[5] == ((grant_no >> 8) & 0xff) as u8);
                assert(payload[6] == ((grant_no >> 16) & 0xff) as u8);
                assert(payload[7] == ((grant_no >> 24) & 0xff) as u8);
            }
        },
        CounterId::CustomGrant(pid) => {
            lemma_le_roundtrip(pid);
            assert(spec_le_u32_at(payload, 0) == pid);
        },
        CounterId::GrantPointerTable(pid) => {
            lemma_le_roundtrip(pid);
            assert(spec_le_u32_at(payload, 0) == pid);
        },
        CounterId::PCB(pid) => {
            lemma_le_roundtrip(pid);
            assert(spec_le_u32_at(payload, 0) == pid);
        },
        CounterId::UpcallQueue(pid) => {
            lemma_le_roundtrip(pid);
            assert(spec_le_u32_at(payload, 0) == pid);
        },
    }
}

/// Operation field of a raw byte, most significant bit first: a clear bit
/// sets the counter, a set bit adds to it, as in a whole frame's first byte.
pub fn stream_operation(byte: u8) -> (r: OpType)
    ensures
        r == (if byte >> 7 == 0 {
            OpType::SetTo
        } else {
            OpType::Add
        }),
{
    if byte >> 7 == 0 {
        OpType::SetTo
    } else {
        OpType::Add
    }
}

/// What parsing a process-control-block counter from raw bytes yields: the
/// first seven bits must be the PCB id, then four payload bytes follow.
pub open spec fn spec_pcb(bytes: Seq<u8>) -> Result<CounterId, Error> {
    if bytes.len() == 0 {
        Err(Error::Truncated)
    } else if bytes[0] >> 1 != 1 {
        Err(Error::UnknownCounter(bytes[0] >> 1))
    } else if bytes.len() < 5 {
        Err(Error::Truncated)
    } else {
        Ok(CounterId::PCB(spec_le_u32_at(bytes, 1)))
    }
}

/// Parse a process-control-block counter whose seven-bit id leads the input.
pub fn pcb(input: &[u8]) -> (r: Result<CounterId, Error>)
    ensures
        r == spec_pcb(input@),
{
    if input.len() == 0 {
        Err(Error::Truncated)
    } else if input[0] >> 1 != 1 {
        Err(Error::UnknownCounter(input[0] >> 1))
    } else {
        match extract_u32(input, 1) {
            Ok(pid) => Ok(CounterId::PCB(pid)),
            Err(e) => Err(e),
        }
    }
}

/// What parsing an upcall-queue counter from raw bytes yields.
pub open spec fn spec_upcall_queue(bytes: Seq<u8>) -> Result<CounterId, Error> {
    if bytes.len() == 0 {
        Err(Error::Truncated)
    } else if bytes[0] >> 1 != 2 {
        Err(Error::UnknownCounter(bytes[0] >> 1))
    } else if bytes.len() < 5 {
        Err(Error::Truncated)
    } else {
        Ok(CounterId::UpcallQueue(spec_le_u32_at(bytes, 1)))
    }
}

/// Parse an upcall-queue counter whose seven-bit id leads the input.
pub fn upcall_queue(input: &[u8]) -> (r: Result<CounterId, Error>)
    ensures
        r == spec_upcall_queue(input@),
{
    if input.len() == 0 {
        Err(Error::Truncated)
    } else if input[0] >> 1 != 2 {
        Err(Error::UnknownCounter(input[0] >> 1))
    } else {
        match extract_u32(input, 1) {
            Ok(pid) => Ok(CounterId::UpcallQueue(pid)),
            Err(e) => Err(e),
        }
    }
}

} // verus!

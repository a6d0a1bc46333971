//! Serial-trace reconstruction from parallel-pin edge events.
//!
//! Trace pins carry a byte stream as timed digital edges. Edges close in time
//! form a *sample*; a sample reduces to one byte by reading, for each trace
//! pin, the level its last edge in the sample left it at. Samples separated
//! by more than the settle threshold but no more than the frame gap belong to
//! one *frame*; a longer quiescent gap starts a new frame. Each frame becomes
//! one trace entry, timestamped at its first edge. A frame whose bytes are
//! all zero is indistinguishable from idle lines and is discarded.

use vstd::prelude::*;

use crate::testing::{Response, Signal};

verus! {

/// One reconstructed logical event stream entry: the timestamp of the
/// frame's first edge, the bytes its samples spelled out, and the label of
/// the trace point its leading counter id resolves to — or `?` when it
/// resolves to none.
#[derive(Clone, Debug)]
pub struct SerialTrace {
    pub time: u64,
    pub data: Vec<u8>,
    pub label: String,
}

/// The label of the frame: counter ids are assigned to the instrumented
/// trace points in declaration order starting at one, so the frame's first
/// byte's seven-bit counter id picks a point; a frame with no bytes or an
/// id outside the points keeps the raw bytes under a `?` label.
pub open spec fn spec_frame_label(trace_points: Seq<String>, bytes: Seq<u8>) -> Seq<char> {
    if bytes.len() > 0 && 1 <= (bytes[0] & 0x7f) && (bytes[0] & 0x7f) <= trace_points.len() {
        trace_points[(bytes[0] & 0x7f) - 1]@
    } else {
        "?"@
    }
}

/// The timestamp/payload pairs a vector of traces denotes.
pub open spec fn traces_view(s: Seq<SerialTrace>) -> Seq<(u64, Seq<u8>)> {
    Seq::new(s.len(), |i: int| (s[i].time, s[i].data@))
}

/// The element sequences a vector of edge groups denotes.
pub open spec fn views_of(s: Seq<Vec<Response>>) -> Seq<Seq<Response>> {
    Seq::new(s.len(), |i: int| s[i]@)
}

/// Responses ordered by ascending timestamp.
pub open spec fn spec_resps_sorted(s: Seq<Response>) -> bool {
    forall|i: int, j: int| 0 <= i < j < s.len() ==> s[i].time <= s[j].time
}

/// `r` inserted into `s` after every element whose time is no greater, so
/// ties keep their arrival order.
pub open spec fn spec_insert_resp(s: Seq<Response>, r: Response) -> Seq<Response>
    decreases s.len(),
{
    if s.len() == 0 {
        seq![r]
    } else if s.last().time <= r.time {
        s.push(r)
    } else {
        spec_insert_resp(s.drop_last(), r).push(s.last())
    }
}

/// `s` stably sorted by ascending time.
pub open spec fn spec_sort_resps(s: Seq<Response>) -> Seq<Response>
    decreases s.len(),
{
    if s.len() == 0 {
        Seq::empty()
    } else {
        spec_insert_resp(spec_sort_resps(s.drop_last()), s.last())
    }
}

/// Only the responses observed on one of the given pins; edges on other pins
/// do not belong to the trace and are dropped.
pub open spec fn spec_trace_only(rs: Seq<Response>, pins: Seq<u8>) -> Seq<Response>
    decreases rs.len(),
{
    if rs.len() == 0 {
        Seq::empty()
    } else {
        let prev = spec_trace_only(rs.drop_last(), pins);
        if pins.contains(rs.last().output.spec_pin()) {
            prev.push(rs.last())
        } else {
            prev
        }
    }
}

/// `edges` partitioned into maximal runs in which each edge follows its
/// predecessor by at most `gap` microseconds.
pub open spec fn spec_group(edges: Seq<Response>, gap: u64) -> Seq<Seq<Response>>
    decreases edges.len(),
{
    if edges.len() == 0 {
        Seq::empty()
    } else if edges.len() == 1 {
        seq![edges]
    } else {
        let prev = spec_group(edges.drop_last(), gap);
        let last = edges.last();
        if last.time - edges[edges.len() - 2].time <= gap {
            prev.update(prev.len() - 1, prev.last().push(last))
        } else {
            prev.push(seq![last])
        }
    }
}

/// The bit significance of `pin`: its first position in the trace-pin order,
/// position zero being the least significant bit.
pub open spec fn spec_sig(pin_order: Seq<u8>, pin: u8) -> int
    recommends
        pin_order.contains(pin),
    decreases pin_order.len(),
{
    if pin_order.len() == 0 {
        0
    } else if pin_order.first() == pin {
        0
    } else {
        1 + spec_sig(pin_order.drop_first(), pin)
    }
}

/// The byte one sample of edges spells out: each edge sets or clears its
/// pin's bit, so the last edge on a pin decides, and pins outside the trace
/// order are ignored.
pub open spec fn spec_sample_byte(sample: Seq<Response>, pin_order: Seq<u8>) -> u8
    decreases sample.len(),
{
    if sample.len() == 0 {
        0
    } else {
        let prev = spec_sample_byte(sample.drop_last(), pin_order);
        let e = sample.last();
        if pin_order.contains(e.output.spec_pin()) {
            let sig = spec_sig(pin_order, e.output.spec_pin()) as u8;
            if e.output.spec_is_high() {
                prev | (1u8 << sig)
            } else {
                prev & !(1u8 << sig)
            }
        } else {
            prev
        }
    }
}

/// The byte stream of one frame: its samples' bytes in order.
pub open spec fn spec_frame_bytes(frame: Seq<Response>, pin_order: Seq<u8>, settle: u64) -> Seq<
    u8,
> {
    spec_group(frame, settle).map(|i: int, s: Seq<Response>| spec_sample_byte(s, pin_order))
}

/// Whether any byte of the payload is nonzero.
pub open spec fn spec_nonzero(bytes: Seq<u8>) -> bool {
    exists|i: int| 0 <= i < bytes.len() && bytes[i] != 0
}

/// The trace entries a sequence of frames yields: each nonempty frame whose
/// bytes are not all zero becomes one entry, timestamped at its first edge.
pub open spec fn spec_emit(
    frames: Seq<Seq<Response>>,
    pin_order: Seq<u8>,
    settle: u64,
) -> Seq<(u64, Seq<u8>)>
    decreases frames.len(),
{
    if frames.len() == 0 {
        Seq::empty()
    } else {
        let prev = spec_emit(frames.drop_last(), pin_order, settle);
        let f = frames.last();
        let bytes = spec_frame_bytes(f, pin_order, settle);
        if f.len() > 0 && spec_nonzero(bytes) {
            prev.push((f.first().time, bytes))
        } else {
            prev
        }
    }
}

/// What reconstruction yields: responses on trace pins, sorted by time,
/// grouped into frames by the frame gap, each frame read as a byte stream.
pub open spec fn spec_reconstruct(
    responses: Seq<Response>,
    pin_order: Seq<u8>,
    settle: u64,
    frame_gap: u64,
) -> Seq<(u64, Seq<u8>)> {
    spec_emit(
        spec_group(spec_sort_resps(spec_trace_only(responses, pin_order)), frame_gap),
        pin_order,
        settle,
    )
}

/// The stable insertion splices `r` at the boundary position.
proof fn lemma_insert_resp_at(s: Seq<Response>, r: Response, pos: int)
    requires
        0 <= pos <= s.len(),
        forall|j: int| pos <= j < s.len() ==> s[j].time > r.time,
        pos == 0 || s[pos - 1].time <= r.time,
    ensures
        spec_insert_resp(s, r) == s.subrange(0, pos) + seq![r] + s.subrange(pos, s.len() as int),
    decreases s.len(),
{
    if s.len() == 0 {
        assert(spec_insert_resp(s, r) =~= s.subrange(0, pos) + seq![r] + s.subrange(
            pos,
            s.len() as int,
        ));
    } else if s.last().time <= r.time {
        assert(pos == s.len());
        assert(s.subrange(0, pos) =~= s);
        assert(spec_insert_resp(s, r) =~= s.subrange(0, pos) + seq![r] + s.subrange(
            pos,
            s.len() as int,
        ));
    } else {
        lemma_insert_resp_at(s.drop_last(), r, pos);
        assert(s.drop_last().subrange(0, pos) =~= s.subrange(0, pos));
        assert(spec_insert_resp(s, r) =~= s.subrange(0, pos) + seq![r] + s.subrange(
            pos,
            s.len() as int,
        ));
    }
}

/// Inserting into a sorted sequence keeps it sorted and adds nothing but `r`.
proof fn lemma_insert_resp_sorted(s: Seq<Response>, r: Response)
    requires
        spec_resps_sorted(s),
    ensures
        spec_resps_sorted(spec_insert_resp(s, r)),
        spec_insert_resp(s, r).len() == s.len() + 1,
        forall|i: int|
            0 <= i < spec_insert_resp(s, r).len() ==> (#[trigger] spec_insert_resp(s, r)[i] == r
                || s.contains(spec_insert_resp(s, r)[i])),
    decreases s.len(),
{
    let out = spec_insert_resp(s, r);
    if s.len() == 0 {
    } else if s.last().time <= r.time {
        assert(forall|i: int| 0 <= i < s.len() ==> out[i] == s[i] && s.contains(s[i]));
    } else {
        let dl = s.drop_last();
        lemma_insert_resp_sorted(dl, r);
        let rec = spec_insert_resp(dl, r);
        assert(out == rec.push(s.last()));
        assert forall|i: int| 0 <= i < out.len() implies (#[trigger] out[i] == r || s.contains(
            out[i],
        )) by {
            if i < rec.len() {
                assert(out[i] == rec[i]);
                if rec[i] != r {
                    let w = choose|w: int| 0 <= w < dl.len() && dl[w] == rec[i];
                    assert(s[w] == rec[i]);
                }
            } else {
                assert(out[i] == s[s.len() - 1]);
            }
        }
        assert forall|i: int, j: int| 0 <= i < j < out.len() implies out[i].time
            <= out[j].time by {
            if j < rec.len() {
            } else {
                assert(out[j] == s.last());
                assert(out[i] == rec[i]);
                if rec[i] != r {
                    let w = choose|w: int| 0 <= w < dl.len() && dl[w] == rec[i];
                    assert(s[w] == rec[i]);
                    assert(s[w].time <= s.last().time);
                }
            }
        }
    }
}

/// The stable sort produces an ascending sequence.
pub proof fn lemma_sort_resps_sorted(s: Seq<Response>)
    ensures
        spec_resps_sorted(spec_sort_resps(s)),
    decreases s.len(),
{
    if s.len() == 0 {
    } else {
        lemma_sort_resps_sorted(s.drop_last());
        lemma_insert_resp_sorted(spec_sort_resps(s.drop_last()), s.last());
    }
}

/// Insert `r` into the sorted vector `v`, after all elements of equal time.
fn insert_resp(v: Vec<Response>, r: Response) -> (out: Vec<Response>)
    ensures
        out@ == spec_insert_resp(v@, r),
{
    let mut pos: usize = v.len();
    while pos > 0 && v[pos - 1].time > r.time
        invariant
            pos <= v.len(),
            forall|j: int| pos <= j < v@.len() ==> v@[j].time > r.time,
        decreases pos,
    {
        pos = pos - 1;
    }
    proof {
        lemma_insert_resp_at(v@, r, pos as int);
    }
    let ghost before = v@;
    let mut out = v;
    out.insert(pos, r);
    assert(out@ =~= before.subrange(0, pos as int) + seq![r] + before.subrange(
        pos as int,
        before.len() as int,
    ));
    out
}

/// The first index where `pin` stands in `s` is its bit significance.
proof fn lemma_sig_at(s: Seq<u8>, pin: u8, k: int)
    requires
        0 <= k < s.len(),
        s[k] == pin,
        forall|j: int| 0 <= j < k ==> s[j] != pin,
    ensures
        s.contains(pin),
        spec_sig(s, pin) == k,
    decreases k,
{
    assert(s[k] == pin);
    if k == 0 {
        assert(s.first() == pin);
    } else {
        assert(s.first() != pin);
        let tail = s.drop_first();
        assert(tail[k - 1] == s[k]);
        assert(forall|j: int| 0 <= j < k - 1 ==> #[trigger] tail[j] == s[j + 1] && tail[j]
            != pin);
        lemma_sig_at(tail, pin, k - 1);
    }
}

/// The bit significance of `pin` in `pin_order`, or nothing when the pin is
/// not a trace pin.
fn sig_of(pin_order: &Vec<u8>, pin: u8) -> (r: Option<u8>)
    requires
        pin_order@.len() <= 8,
    ensures
        match r {
            Some(sig) => pin_order@.contains(pin) && sig as int == spec_sig(pin_order@, pin)
                && (sig as int) < pin_order@.len(),
            None => !pin_order@.contains(pin),
        },
{
    let mut k: usize = 0;
    while k < pin_order.len()
        invariant
            k <= pin_order@.len(),
            pin_order@.len() <= 8,
            forall|j: int| 0 <= j < k ==> pin_order@[j] != pin,
        decreases pin_order@.len() - k,
    {
        if pin_order[k] == pin {
            proof {
                lemma_sig_at(pin_order@, pin, k as int);
            }
            return Some(k as u8);
        }
        k = k + 1;
    }
    proof {
        if pin_order@.contains(pin) {
            let w = choose|w: int| 0 <= w < pin_order@.len() && pin_order@[w] == pin;
            assert(false);
        }
    }
    None
}

/// The byte one sample of edges spells out.
fn sample_byte(sample: &Vec<Response>, pin_order: &Vec<u8>) -> (r: u8)
    requires
        pin_order@.len() <= 8,
    ensures
        r == spec_sample_byte(sample@, pin_order@),
{
    let mut byte: u8 = 0;
    let mut k: usize = 0;
    while k < sample.len()
        invariant
            k <= sample@.len(),
            pin_order@.len() <= 8,
            byte == spec_sample_byte(sample@.subrange(0, k as int), pin_order@),
        decreases sample@.len() - k,
    {
        let e = sample[k];
        let pin = e.output.pin();
        match sig_of(pin_order, pin) {
            Some(sig) => {
                if e.output.is_high() {
                    byte = byte | (1u8 << sig);
                } else {
                    byte = byte & !(1u8 << sig);
                }
            },
            None => {},
        }
        k = k + 1;
        proof {
            let pre = sample@.subrange(0, k as int);
            assert(pre.drop_last() =~= sample@.subrange(0, k - 1 as int));
            assert(pre.last() == sample@[k - 1]);
        }
    }
    assert(sample@.subrange(0, sample@.len() as int) =~= sample@);
    byte
}

/// Partition `edges` into maximal runs whose inter-edge spacing stays within
/// `gap` microseconds.
fn group_edges(edges: &Vec<Response>, gap: u64) -> (r: Vec<Vec<Response>>)
    ensures
        views_of(r@) == spec_group(edges@, gap),
{
    let mut groups: Vec<Vec<Response>> = Vec::new();
    let mut k: usize = 0;
    while k < edges.len()
        invariant
            k <= edges@.len(),
            views_of(groups@) == spec_group(edges@.subrange(0, k as int), gap),
            groups@.len() > 0 <==> k > 0,
        decreases edges@.len() - k,
    {
        let e = edges[k];
        let ghost oldgroups = groups@;
        let ghost pre = edges@.subrange(0, k as int);
        if k == 0 {
            let mut g: Vec<Response> = Vec::new();
            g.push(e);
            groups.push(g);
        } else {
            let prev_t = edges[k - 1].time;
            if e.time <= prev_t || e.time - prev_t <= gap {
                let mut g = match groups.pop() {
                    Some(g) => g,
                    None => {
                        proof {
                            assert(false);
                        }
                        Vec::new()
                    },
                };
                g.push(e);
                groups.push(g);
                assert(groups@ =~= oldgroups.update(oldgroups.len() - 1, groups@.last()));
            } else {
                let mut g: Vec<Response> = Vec::new();
                g.push(e);
                groups.push(g);
            }
        }
        k = k + 1;
        proof {
            let next = edges@.subrange(0, k as int);
            assert(next.drop_last() =~= pre);
            assert(next.last() == edges@[k - 1]);
            if k > 1 {
                assert(next[next.len() - 2] == edges@[k - 2]);
                let sg = spec_group(pre, gap);
                if edges@[k - 1].time - edges@[k - 2].time <= gap {
                    assert(views_of(groups@) =~= sg.update(sg.len() - 1, sg.last().push(e)));
                } else {
                    assert(views_of(groups@) =~= sg.push(seq![e]));
                }
            } else {
                assert(next =~= seq![e]);
                assert(views_of(groups@) =~= seq![seq![e]]);
            }
        }
    }
    assert(edges@.subrange(0, edges@.len() as int) =~= edges@);
    groups
}

/// Whether any byte in `bytes` is nonzero.
fn any_nonzero(bytes: &Vec<u8>) -> (r: bool)
    ensures
        r == spec_nonzero(bytes@),
{
    let mut k: usize = 0;
    while k < bytes.len()
        invariant
            k <= bytes@.len(),
            forall|i: int| 0 <= i < k ==> bytes@[i] == 0,
        decreases bytes@.len() - k,
    {
        if bytes[k] != 0 {
            return true;
        }
        k = k + 1;
    }
    proof {
        if spec_nonzero(bytes@) {
            let w = choose|w: int| 0 <= w < bytes@.len() && bytes@[w] != 0;
            assert(false);
        }
    }
    false
}

/// One synthetic edge burst: every trace pin driven at instant `t` to the
/// level of its bit in `byte`.
pub open spec fn spec_burst(byte: u8, pin_order: Seq<u8>, t: u64) -> Seq<Response> {
    Seq::new(
        pin_order.len(),
        |i: int|
            Response {
                time: t,
                output: if byte & (1u8 << (i as u8)) != 0 {
                    Signal::High(pin_order[i])
                } else {
                    Signal::Low(pin_order[i])
                },
            },
    )
}

/// The synthetic edge stream that spells `bytes` on the trace pins: one
/// burst per byte, spaced `clock` microseconds apart starting at `t0`.
pub open spec fn spec_edges_of(bytes: Seq<u8>, pin_order: Seq<u8>, t0: u64, clock: u64) -> Seq<
    Response,
>
    decreases bytes.len(),
{
    if bytes.len() == 0 {
        Seq::empty()
    } else {
        spec_edges_of(bytes.drop_last(), pin_order, t0, clock) + spec_burst(
            bytes.last(),
            pin_order,
            (t0 + (bytes.len() - 1) * clock) as u64,
        )
    }
}

/// Generate the synthetic edge stream that spells `bytes`.
pub fn edges_of(bytes: &Vec<u8>, pin_order: &Vec<u8>, t0: u64, clock: u64) -> (r: Vec<Response>)
    requires
        pin_order@.len() <= 8,
        t0 + bytes@.len() * clock <= u64::MAX,
    ensures
        r@ == spec_edges_of(bytes@, pin_order@, t0, clock),
{
    let mut out: Vec<Response> = Vec::new();
    let mut k: usize = 0;
    while k < bytes.len()
        invariant
            k <= bytes@.len(),
            pin_order@.len() <= 8,
            t0 + bytes@.len() * clock <= u64::MAX,
            out@ == spec_edges_of(bytes@.subrange(0, k as int), pin_order@, t0, clock),
        decreases bytes@.len() - k,
    {
        assert(k * clock <= bytes@.len() * clock) by (nonlinear_arith)
            requires
                0 <= k <= bytes@.len(),
                clock >= 0,
        ;
        let t: u64 = t0 + (k as u64) * clock;
        let b = bytes[k];
        let ghost oldout = out@;
        let mut j: usize = 0;
        while j < pin_order.len()
            invariant
                j <= pin_order@.len(),
                pin_order@.len() <= 8,
                b == bytes@[k as int],
                t == (t0 + k * clock) as u64,
                out@ == oldout + spec_burst(b, pin_order@, t).subrange(0, j as int),
            decreases pin_order@.len() - j,
        {
            let pin = pin_order[j];
            let e = if b & (1u8 << (j as u8)) != 0 {
                Response { time: t, output: Signal::High(pin) }
            } else {
                Response { time: t, output: Signal::Low(pin) }
            };
            out.push(e);
            j = j + 1;
            assert(out@ =~= oldout + spec_burst(b, pin_order@, t).subrange(0, j as int));
        }
        assert(spec_burst(b, pin_order@, t).subrange(0, pin_order@.len() as int) =~= spec_burst(
            b,
            pin_order@,
            t,
        ));
        k = k + 1;
        proof {
            let next = bytes@.subrange(0, k as int);
            assert(next.drop_last() =~= bytes@.subrange(0, k - 1 as int));
            assert(next.last() == bytes@[k - 1]);
        }
    }
    assert(bytes@.subrange(0, bytes@.len() as int) =~= bytes@);
    out
}

/// Structure of the synthetic stream: its length, its first and last
/// instants, its sortedness, that every pin is a trace pin, and that
/// consecutive edges sit at most one clock period apart.
proof fn lemma_edges_of_struct(bytes: Seq<u8>, pin_order: Seq<u8>, t0: u64, clock: u64)
    requires
        pin_order.len() > 0,
        t0 + bytes.len() * clock <= u64::MAX,
    ensures
        spec_edges_of(bytes, pin_order, t0, clock).len() == bytes.len() * pin_order.len(),
        bytes.len() > 0 ==> spec_edges_of(bytes, pin_order, t0, clock).len() > 0,
        bytes.len() > 0 ==> spec_edges_of(bytes, pin_order, t0, clock).first().time == t0,
        bytes.len() > 0 ==> spec_edges_of(bytes, pin_order, t0, clock).last().time == t0 + (
        bytes.len() - 1) * clock,
        forall|i: int|
            0 <= i < spec_edges_of(bytes, pin_order, t0, clock).len() ==> (
            #[trigger] spec_edges_of(bytes, pin_order, t0, clock)[i]).time <= t0 + (bytes.len()
                - 1) * clock,
        spec_resps_sorted(spec_edges_of(bytes, pin_order, t0, clock)),
        forall|i: int|
            0 <= i < spec_edges_of(bytes, pin_order, t0, clock).len() ==> pin_order.contains(
                (#[trigger] spec_edges_of(bytes, pin_order, t0, clock)[i]).output.spec_pin(),
            ),
        forall|i: int|
            0 <= i < spec_edges_of(bytes, pin_order, t0, clock).len() - 1 ==> (
            #[trigger] spec_edges_of(bytes, pin_order, t0, clock)[i + 1]).time - spec_edges_of(
                bytes,
                pin_order,
                t0,
                clock,
            )[i].time <= clock,
    decreases bytes.len(),
{
    let out = spec_edges_of(bytes, pin_order, t0, clock);
    if bytes.len() == 0 {
    } else {
        let dl = bytes.drop_last();
        assert((bytes.len() - 1) * clock <= bytes.len() * clock) by (nonlinear_arith)
            requires
                bytes.len() >= 1,
                clock >= 0,
        ;
        lemma_edges_of_struct(dl, pin_order, t0, clock);
        let prev = spec_edges_of(dl, pin_order, t0, clock);
        let t: u64 = (t0 + (bytes.len() - 1) * clock) as u64;
        let burst = spec_burst(bytes.last(), pin_order, t);
        assert(out == prev + burst);
        assert(burst.len() == pin_order.len());
        assert(out.len() == (bytes.len() - 1) * pin_order.len() + pin_order.len());
        assert(out.len() == bytes.len() * pin_order.len()) by (nonlinear_arith)
            requires
                out.len() == (bytes.len() - 1) * pin_order.len() + pin_order.len(),
        ;
        assert(t == t0 + (bytes.len() - 1) * clock);
        assert(forall|i: int| 0 <= i < prev.len() ==> (#[trigger] out[i]) == prev[i]);
        assert(forall|j: int|
            0 <= j < burst.len() ==> (#[trigger] out[prev.len() + j]) == burst[j]);
        assert(forall|j: int| 0 <= j < burst.len() ==> (#[trigger] burst[j]).time == t);
        assert(forall|j: int|
            0 <= j < burst.len() ==> (#[trigger] burst[j]).output.spec_pin() == pin_order[j]);
        if dl.len() > 0 {
            assert((dl.len() - 1) * clock + clock == (bytes.len() - 1) * clock)
                by (nonlinear_arith)
                requires
                    dl.len() == bytes.len() - 1,
            ;
            assert(prev.last().time == t0 + (dl.len() - 1) * clock);
            assert(prev.len() > 0);
            assert(out.first() == prev.first());
            assert(out.first().time == t0);
        } else {
            assert(out =~= burst);
            assert(bytes.len() == 1);
            assert((bytes.len() - 1) * clock == 0);
            assert(t == t0);
            assert(out.first() == burst[0]);
            assert(out.first().time == t0);
        }
        assert forall|i: int| 0 <= i < out.len() - 1 implies (#[trigger] out[i + 1]).time
            - out[i].time <= clock by {
            if i + 1 < prev.len() {
            } else if i + 1 == prev.len() {
                assert(out[i] == prev[prev.len() - 1]);
                assert(out[i + 1] == burst[0]);
            } else {
                assert(out[i] == burst[i - prev.len()]);
                assert(out[i + 1] == burst[i + 1 - prev.len()]);
            }
        }
        assert forall|i: int, j: int| 0 <= i < j < out.len() implies out[i].time
            <= out[j].time by {
            if j < prev.len() {
            } else if i < prev.len() {
                assert(out[i].time <= t0 + (dl.len() - 1) * clock);
                assert(out[j] == burst[j - prev.len()]);
            } else {
                assert(out[i] == burst[i - prev.len()]);
                assert(out[j] == burst[j - prev.len()]);
            }
        }
    }
}

/// Filtering a stream whose pins are all trace pins changes nothing.
proof fn lemma_trace_only_id(rs: Seq<Response>, pins: Seq<u8>)
    requires
        forall|i: int|
            0 <= i < rs.len() ==> pins.contains((#[trigger] rs[i]).output.spec_pin()),
    ensures
        spec_trace_only(rs, pins) == rs,
    decreases rs.len(),
{
    if rs.len() == 0 {
        assert(spec_trace_only(rs, pins) =~= rs);
    } else {
        let dl = rs.drop_last();
        assert(forall|i: int| 0 <= i < dl.len() ==> (#[trigger] dl[i]) == rs[i]);
        lemma_trace_only_id(dl, pins);
        assert(rs[rs.len() - 1] == rs.last());
        assert(spec_trace_only(rs, pins) =~= rs);
    }
}

/// Sorting an already sorted stream changes nothing.
proof fn lemma_sort_id_on_sorted(s: Seq<Response>)
    requires
        spec_resps_sorted(s),
    ensures
        spec_sort_resps(s) == s,
    decreases s.len(),
{
    if s.len() == 0 {
        assert(spec_sort_resps(s) =~= s);
    } else {
        let dl = s.drop_last();
        assert(forall|i: int| 0 <= i < dl.len() ==> (#[trigger] dl[i]) == s[i]);
        lemma_sort_id_on_sorted(dl);
        if dl.len() > 0 {
            assert(dl.last() == s[s.len() - 2]);
            assert(dl.last().time <= s.last().time);
        }
        assert(spec_insert_resp(dl, s.last()) =~= s);
    }
}

/// A stream whose consecutive edges all sit within `gap` is one group.
proof fn lemma_group_one(edges: Seq<Response>, gap: u64)
    requires
        edges.len() > 0,
        forall|i: int|
            0 <= i < edges.len() - 1 ==> (#[trigger] edges[i + 1]).time - edges[i].time <= gap,
    ensures
        spec_group(edges, gap) == seq![edges],
    decreases edges.len(),
{
    if edges.len() == 1 {
    } else {
        let dl = edges.drop_last();
        assert(forall|i: int| 0 <= i < dl.len() ==> (#[trigger] dl[i]) == edges[i]);
        assert(forall|i: int|
            0 <= i < dl.len() - 1 ==> (#[trigger] dl[i + 1]).time - dl[i].time <= gap);
        lemma_group_one(dl, gap);
        assert(edges[(edges.len() - 2) + 1].time - edges[edges.len() - 2].time <= gap);
        assert(edges[edges.len() - 1].time - edges[edges.len() - 2].time <= gap);
        let prev = spec_group(dl, gap);
        assert(prev == seq![dl]);
        assert(prev.len() == 1);
        assert(prev.last() == dl);
        assert(spec_group(edges, gap) == prev.update(prev.len() - 1, prev.last().push(
            edges.last(),
        )));
        assert(dl.push(edges.last()) =~= edges);
        assert(spec_group(edges, gap) =~= seq![edges]);
    }
}

/// Appending a same-instant run that starts more than `gap` after the
/// stream's last edge appends exactly one group.
proof fn lemma_group_append_run(a: Seq<Response>, b: Seq<Response>, gap: u64)
    requires
        b.len() > 0,
        forall|j: int| 0 <= j < b.len() ==> (#[trigger] b[j]).time == b[0].time,
        a.len() > 0 ==> b[0].time - a.last().time > gap,
    ensures
        spec_group(a + b, gap) == spec_group(a, gap).push(b),
    decreases b.len(),
{
    if b.len() == 1 {
        let ab = a + b;
        assert(ab.last() == b[0]);
        if a.len() == 0 {
            assert(ab =~= seq![b[0]]);
            assert(b =~= seq![b[0]]);
            assert(spec_group(ab, gap) == seq![ab]);
            assert(spec_group(a, gap).push(b) =~= seq![ab]) by {
                assert(ab =~= b);
            }
        } else {
            assert(ab.drop_last() =~= a);
            assert(ab[ab.len() - 2] == a.last());
            assert(ab.last().time - ab[ab.len() - 2].time > gap);
            assert(spec_group(ab, gap) == spec_group(a, gap).push(seq![b[0]]));
            assert(seq![b[0]] =~= b);
        }
    } else {
        let bdl = b.drop_last();
        assert(forall|j: int| 0 <= j < bdl.len() ==> (#[trigger] bdl[j]) == b[j]);
        lemma_group_append_run(a, bdl, gap);
        let ab = a + b;
        assert(ab.drop_last() =~= a + bdl);
        assert(ab.last() == b.last());
        assert(ab[ab.len() - 2] == bdl.last());
        assert(ab.last().time == b[0].time && bdl.last().time == b[0].time);
        assert(ab.last().time - ab[ab.len() - 2].time <= gap);
        let prev = spec_group(a + bdl, gap);
        assert(prev == spec_group(a, gap).push(bdl));
        assert(prev.len() > 0);
        assert(prev.last() == bdl);
        assert(spec_group(ab, gap) == prev.update(prev.len() - 1, bdl.push(b.last())));
        assert(bdl.push(b.last()) =~= b);
        assert(prev.update(prev.len() - 1, b) =~= spec_group(a, gap).push(b));
    }
}

/// Grouping the synthetic stream by any threshold under the clock period
/// yields exactly the bursts, one per byte.
proof fn lemma_group_bursts(bytes: Seq<u8>, pin_order: Seq<u8>, t0: u64, clock: u64, settle: u64)
    requires
        pin_order.len() > 0,
        settle < clock,
        t0 + bytes.len() * clock <= u64::MAX,
    ensures
        spec_group(spec_edges_of(bytes, pin_order, t0, clock), settle) == Seq::new(
            bytes.len(),
            |k: int| spec_burst(bytes[k], pin_order, (t0 + k * clock) as u64),
        ),
    decreases bytes.len(),
{
    let out = spec_group(spec_edges_of(bytes, pin_order, t0, clock), settle);
    if bytes.len() == 0 {
        assert(out =~= Seq::new(
            0,
            |k: int| spec_burst(bytes[k], pin_order, (t0 + k * clock) as u64),
        ));
    } else {
        let dl = bytes.drop_last();
        assert((bytes.len() - 1) * clock <= bytes.len() * clock) by (nonlinear_arith)
            requires
                bytes.len() >= 1,
                clock >= 0,
        ;
        lemma_group_bursts(dl, pin_order, t0, clock, settle);
        lemma_edges_of_struct(dl, pin_order, t0, clock);
        let prev_edges = spec_edges_of(dl, pin_order, t0, clock);
        let t: u64 = (t0 + (bytes.len() - 1) * clock) as u64;
        let burst = spec_burst(bytes.last(), pin_order, t);
        assert(forall|j: int| 0 <= j < burst.len() ==> (#[trigger] burst[j]).time == burst[0].time);
        if dl.len() > 0 {
            assert((dl.len() - 1) * clock + clock == (bytes.len() - 1) * clock)
                by (nonlinear_arith)
                requires
                    dl.len() == bytes.len() - 1,
            ;
            assert(prev_edges.last().time == t0 + (dl.len() - 1) * clock);
            assert(burst[0].time - prev_edges.last().time == clock);
        }
        lemma_group_append_run(prev_edges, burst, settle);
        assert(out =~= Seq::new(
            bytes.len() as nat,
            |k: int| spec_burst(bytes[k], pin_order, (t0 + k * clock) as u64),
        )) by {
            assert(out == spec_group(prev_edges, settle).push(burst));
            assert(forall|k: int|
                0 <= k < dl.len() ==> #[trigger] spec_group(prev_edges, settle)[k] == spec_burst(
                    dl[k],
                    pin_order,
                    (t0 + k * clock) as u64,
                ));
            assert(forall|k: int| 0 <= k < dl.len() ==> dl[k] == bytes[k]);
        }
    }
}

/// The low `j` bits of a byte, as a mask.
spec fn spec_low_mask(j: u8) -> u8 {
    !(0xffu8 << j)
}

/// Reading a burst's prefix recovers the byte's low bits.
proof fn lemma_burst_prefix_byte(b: u8, pin_order: Seq<u8>, t: u64, i: int)
    requires
        forall|x: int, y: int|
            0 <= x < y < pin_order.len() ==> pin_order[x] != pin_order[y],
        pin_order.len() <= 8,
        0 <= i <= pin_order.len(),
    ensures
        spec_sample_byte(spec_burst(b, pin_order, t).subrange(0, i), pin_order) == b
            & spec_low_mask(i as u8),
    decreases i,
{
    let burst = spec_burst(b, pin_order, t);
    if i == 0 {
        assert(burst.subrange(0, 0) =~= Seq::<Response>::empty());
        assert(b & spec_low_mask(0) == 0) by (bit_vector);
    } else {
        lemma_burst_prefix_byte(b, pin_order, t, i - 1);
        let pre = burst.subrange(0, i);
        assert(pre.drop_last() =~= burst.subrange(0, i - 1));
        assert(pre.last() == burst[i - 1]);
        let e = burst[i - 1];
        let pin = pin_order[i - 1];
        assert(e.output.spec_pin() == pin);
        assert(forall|x: int| 0 <= x < i - 1 ==> pin_order[x] != pin);
        lemma_sig_at(pin_order, pin, i - 1);
        assert(pin_order.contains(pin));
        assert(spec_sig(pin_order, pin) == i - 1);
        let j = (i - 1) as u8;
        let jj = i as u8;
        assert(jj == j + 1);
        if b & (1u8 << j) != 0 {
            assert(e.output.spec_is_high());
            assert(((b & !(0xffu8 << j)) | (1u8 << j)) == (b & !(0xffu8 << jj)))
                by (bit_vector)
                requires
                    j < 8,
                    jj == j + 1,
                    b & (1u8 << j) != 0,
            ;
        } else {
            assert(!e.output.spec_is_high());
            assert(((b & !(0xffu8 << j)) & !(1u8 << j)) == (b & !(0xffu8 << jj)))
                by (bit_vector)
                requires
                    j < 8,
                    jj == j + 1,
                    b & (1u8 << j) == 0,
            ;
        }
    }
}

/// Reading a whole burst recovers the byte, for bytes that fit the pins.
proof fn lemma_burst_byte(b: u8, pin_order: Seq<u8>, t: u64)
    requires
        forall|x: int, y: int|
            0 <= x < y < pin_order.len() ==> pin_order[x] != pin_order[y],
        0 < pin_order.len() <= 8,
        b >> (pin_order.len() as u8) == 0,
    ensures
        spec_sample_byte(spec_burst(b, pin_order, t), pin_order) == b,
{
    let burst = spec_burst(b, pin_order, t);
    lemma_burst_prefix_byte(b, pin_order, t, pin_order.len() as int);
    assert(burst.subrange(0, pin_order.len() as int) =~= burst);
    let len = pin_order.len() as u8;
    assert((b & !(0xffu8 << len)) == b) by (bit_vector)
        requires
            0 < len <= 8,
            b >> len == 0,
    ;
}

/// Round trip: reconstructing the synthetic edge stream of a byte frame
/// recovers exactly that frame, timestamped at the stream's start. This
/// holds for every frame with at least one nonzero byte whose bytes fit the
/// pin count, every duplicate-free pin order, and every clock period that
/// separates samples without separating frames.
pub proof fn lemma_reconstruct_roundtrip(
    bytes: Seq<u8>,
    pin_order: Seq<u8>,
    t0: u64,
    clock: u64,
    settle: u64,
    frame_gap: u64,
)
    requires
        0 < pin_order.len() <= 8,
        forall|x: int, y: int|
            0 <= x < y < pin_order.len() ==> pin_order[x] != pin_order[y],
        bytes.len() > 0,
        exists|i: int| 0 <= i < bytes.len() && bytes[i] != 0,
        forall|i: int|
            0 <= i < bytes.len() ==> (#[trigger] bytes[i]) >> (pin_order.len() as u8) == 0,
        settle < clock,
        clock <= frame_gap,
        t0 + bytes.len() * clock <= u64::MAX,
    ensures
        spec_reconstruct(
            spec_edges_of(bytes, pin_order, t0, clock),
            pin_order,
            settle,
            frame_gap,
        ) == seq![(t0, bytes)],
{
    let edges = spec_edges_of(bytes, pin_order, t0, clock);
    lemma_edges_of_struct(bytes, pin_order, t0, clock);
    lemma_trace_only_id(edges, pin_order);
    lemma_sort_id_on_sorted(edges);
    assert(forall|i: int|
        0 <= i < edges.len() - 1 ==> (#[trigger] edges[i + 1]).time - edges[i].time <= frame_gap);
    lemma_group_one(edges, frame_gap);
    lemma_group_bursts(bytes, pin_order, t0, clock, settle);
    let bursts = Seq::new(
        bytes.len() as nat,
        |k: int| spec_burst(bytes[k], pin_order, (t0 + k * clock) as u64),
    );
    let frame_bytes = spec_frame_bytes(edges, pin_order, settle);
    assert(frame_bytes =~= bytes) by {
        assert(spec_group(edges, settle) == bursts);
        assert forall|k: int| 0 <= k < bytes.len() implies #[trigger] frame_bytes[k]
            == bytes[k] by {
            assert(frame_bytes[k] == spec_sample_byte(bursts[k], pin_order));
            lemma_burst_byte(bytes[k], pin_order, (t0 + k * clock) as u64);
        }
    }
    assert(spec_nonzero(frame_bytes)) by {
        let w = choose|i: int| 0 <= i < bytes.len() && bytes[i] != 0;
        assert(frame_bytes[w] != 0);
    }
    let emitted = spec_emit(seq![edges], pin_order, settle);
    assert(seq![edges].drop_last() =~= Seq::<Seq<Response>>::empty());
    assert(emitted == spec_emit(Seq::empty(), pin_order, settle).push(
        (edges.first().time, frame_bytes),
    ));
    assert(edges.first().time == t0);
    assert(spec_reconstruct(edges, pin_order, settle, frame_gap) =~= seq![(t0, bytes)]);
}

/// A well-formed payload survives the whole path: the edges of an encoded
/// stream operation reconstruct to exactly one trace holding its frame, and
/// that payload decodes back to the operation without error. With eight
/// trace pins this holds for every operation that has a wire id.
pub proof fn lemma_trace_payload_decodes(
    op: crate::mem::StreamOperation,
    pin_order: Seq<u8>,
    t0: u64,
    clock: u64,
    settle: u64,
    frame_gap: u64,
)
    requires
        op.spec_counter().spec_wire_id() is Some,
        pin_order.len() == 8,
        forall|x: int, y: int|
            0 <= x < y < pin_order.len() ==> pin_order[x] != pin_order[y],
        settle < clock,
        clock <= frame_gap,
        t0 + op.spec_encode().len() * clock <= u64::MAX,
    ensures
        spec_reconstruct(
            spec_edges_of(op.spec_encode(), pin_order, t0, clock),
            pin_order,
            settle,
            frame_gap,
        ) == seq![(t0, op.spec_encode())],
        crate::mem::spec_decode(op.spec_encode()) == Ok::<
            crate::mem::StreamOperation,
            crate::error::Error,
        >(op),
{
    let bytes = op.spec_encode();
    let id = op.spec_counter().spec_wire_id()->0;
    let bit = op.spec_op_bit();
    assert(bytes.len() > 0);
    assert(bytes[0] == (bit << 7) | id);
    assert(1 <= id <= 5 && bit <= 1);
    assert(((bit << 7) | id) != 0) by (bit_vector)
        requires
            1 <= id <= 5,
            bit <= 1,
    ;
    assert(spec_nonzero(bytes)) by {
        assert(bytes[0] != 0);
    }
    assert forall|i: int| 0 <= i < bytes.len() implies (#[trigger] bytes[i]) >> (
    pin_order.len() as u8) == 0 by {
        let b = bytes[i];
        assert(b >> 8u8 == 0) by (bit_vector);
    }
    lemma_reconstruct_roundtrip(bytes, pin_order, t0, clock, settle, frame_gap);
    crate::mem::lemma_decode_encode(op);
}

/// Grouping a sorted edge stream yields nonempty groups whose first edges
/// are in ascending time order, each no later than the stream's last edge,
/// and the last group ends with the stream's last edge.
proof fn lemma_group_struct(edges: Seq<Response>, gap: u64)
    requires
        spec_resps_sorted(edges),
    ensures
        forall|g: int|
            0 <= g < spec_group(edges, gap).len() ==> (#[trigger] spec_group(edges, gap)[
            g]).len() > 0,
        forall|g1: int, g2: int|
            0 <= g1 < g2 < spec_group(edges, gap).len() ==> spec_group(edges, gap)[
            g1].first().time <= spec_group(edges, gap)[g2].first().time,
        edges.len() > 0 ==> spec_group(edges, gap).len() > 0 && spec_group(
            edges,
            gap,
        ).last().last() == edges.last(),
        edges.len() > 0 ==> forall|g: int|
            0 <= g < spec_group(edges, gap).len() ==> (#[trigger] spec_group(edges, gap)[
            g]).first().time <= edges.last().time,
    decreases edges.len(),
{
    if edges.len() <= 1 {
    } else {
        let dl = edges.drop_last();
        assert(forall|i: int| 0 <= i < dl.len() ==> (#[trigger] dl[i]) == edges[i]);
        lemma_group_struct(dl, gap);
        let prev = spec_group(dl, gap);
        let out = spec_group(edges, gap);
        let last = edges.last();
        assert(dl.last() == edges[edges.len() - 2]);
        assert(dl.last().time <= last.time);
        if last.time - edges[edges.len() - 2].time <= gap {
            assert(out == prev.update(prev.len() - 1, prev.last().push(last)));
            assert(out.len() == prev.len());
            assert(forall|g: int| 0 <= g < prev.len() - 1 ==> (#[trigger] out[g]) == prev[g]);
            assert(out[prev.len() - 1] == prev.last().push(last));
            assert(out.last().first() == prev.last().first());
            assert(out.last().last() == last);
        } else {
            assert(out == prev.push(seq![last]));
            assert(forall|g: int| 0 <= g < prev.len() ==> (#[trigger] out[g]) == prev[g]);
            assert(out.last() == seq![last]);
            assert(out.last().first() == last);
            assert(forall|g: int|
                0 <= g < prev.len() ==> (#[trigger] prev[g]).first().time <= dl.last().time);
        }
    }
}

/// Emitting frames whose first edges ascend yields entries whose timestamps
/// ascend, none later than the last frame's first edge.
proof fn lemma_emit_monotone(frames: Seq<Seq<Response>>, pin_order: Seq<u8>, settle: u64)
    requires
        forall|g: int| 0 <= g < frames.len() ==> (#[trigger] frames[g]).len() > 0,
        forall|g1: int, g2: int|
            0 <= g1 < g2 < frames.len() ==> frames[g1].first().time <= frames[g2].first().time,
    ensures
        forall|i: int, j: int|
            0 <= i < j < spec_emit(frames, pin_order, settle).len() ==> spec_emit(
                frames,
                pin_order,
                settle,
            )[i].0 <= spec_emit(frames, pin_order, settle)[j].0,
        frames.len() > 0 && spec_emit(frames, pin_order, settle).len() > 0 ==> spec_emit(
            frames,
            pin_order,
            settle,
        ).last().0 <= frames.last().first().time,
    decreases frames.len(),
{
    if frames.len() == 0 {
    } else {
        let dl = frames.drop_last();
        assert(forall|g: int| 0 <= g < dl.len() ==> (#[trigger] dl[g]) == frames[g]);
        lemma_emit_monotone(dl, pin_order, settle);
        let prev = spec_emit(dl, pin_order, settle);
        let out = spec_emit(frames, pin_order, settle);
        let f = frames.last();
        let bytes = spec_frame_bytes(f, pin_order, settle);
        if f.len() > 0 && spec_nonzero(bytes) {
            assert(out == prev.push((f.first().time, bytes)));
            assert(forall|i: int| 0 <= i < prev.len() ==> (#[trigger] out[i]) == prev[i]);
            assert(out.last().0 == f.first().time);
            if dl.len() > 0 && prev.len() > 0 {
                assert(prev.last().0 <= dl.last().first().time);
                assert(dl.last().first().time <= f.first().time);
            }
        } else {
            assert(out == prev);
            if frames.len() > 1 && out.len() > 0 {
                assert(prev.last().0 <= dl.last().first().time);
                assert(dl.last().first().time <= f.first().time);
            }
        }
    }
}

/// Reconstructed trace timestamps are monotonically non-decreasing, for
/// every edge input, every pin order and every threshold pair.
pub proof fn lemma_trace_times_monotone(
    responses: Seq<Response>,
    pin_order: Seq<u8>,
    settle: u64,
    frame_gap: u64,
)
    ensures
        forall|i: int, j: int|
            0 <= i < j < spec_reconstruct(responses, pin_order, settle, frame_gap).len()
                ==> spec_reconstruct(responses, pin_order, settle, frame_gap)[i].0
                <= spec_reconstruct(responses, pin_order, settle, frame_gap)[j].0,
{
    let filtered = spec_trace_only(responses, pin_order);
    let sorted_edges = spec_sort_resps(filtered);
    lemma_sort_resps_sorted(filtered);
    lemma_group_struct(sorted_edges, frame_gap);
    lemma_emit_monotone(spec_group(sorted_edges, frame_gap), pin_order, settle);
}

/// Reassemble the serial trace carried by trace-pin edges.
///
/// `pin_order` gives the trace pins in bit-significance order, least
/// significant first; `settle` is the largest inter-edge gap still inside
/// one sample and `frame_gap` the largest gap still inside one frame, both
/// in microseconds. Edges on pins outside `pin_order` are dropped. Each
/// frame is labelled with the trace point of `trace_points` its first
/// byte's counter id resolves to, or `?`.
pub fn reconstruct(
    responses: &Vec<Response>,
    pin_order: &Vec<u8>,
    trace_points: &Vec<String>,
    settle: u64,
    frame_gap: u64,
) -> (r: Vec<SerialTrace>)
    requires
        pin_order@.len() <= 8,
        settle <= frame_gap,
    ensures
        traces_view(r@) == spec_reconstruct(responses@, pin_order@, settle, frame_gap),
        forall|i: int|
            0 <= i < r@.len() ==> (#[trigger] r@[i]).label@ == spec_frame_label(
                trace_points@,
                r@[i].data@,
            ),
{
    // keep only edges on trace pins
    let mut kept: Vec<Response> = Vec::new();
    let mut k: usize = 0;
    while k < responses.len()
        invariant
            k <= responses@.len(),
            kept@ == spec_trace_only(responses@.subrange(0, k as int), pin_order@),
        decreases responses@.len() - k,
    {
        let e = responses[k];
        if crate::testing::contains_u8(pin_order, e.output.pin()) {
            kept.push(e);
        }
        k = k + 1;
        proof {
            let next = responses@.subrange(0, k as int);
            assert(next.drop_last() =~= responses@.subrange(0, k - 1 as int));
            assert(next.last() == responses@[k - 1]);
        }
    }
    assert(responses@.subrange(0, responses@.len() as int) =~= responses@);
    // order them by timestamp
    let mut sorted_edges: Vec<Response> = Vec::new();
    let mut k: usize = 0;
    while k < kept.len()
        invariant
            k <= kept@.len(),
            sorted_edges@ == spec_sort_resps(kept@.subrange(0, k as int)),
        decreases kept@.len() - k,
    {
        sorted_edges = insert_resp(sorted_edges, kept[k]);
        k = k + 1;
        proof {
            let next = kept@.subrange(0, k as int);
            assert(next.drop_last() =~= kept@.subrange(0, k - 1 as int));
            assert(next.last() == kept@[k - 1]);
        }
    }
    assert(kept@.subrange(0, kept@.len() as int) =~= kept@);
    // cut the edge stream into frames, then each frame into samples
    let frames = group_edges(&sorted_edges, frame_gap);
    let ghost frame_seqs = spec_group(sorted_edges@, frame_gap);
    let mut out: Vec<SerialTrace> = Vec::new();
    let mut k: usize = 0;
    while k < frames.len()
        invariant
            k <= frames@.len(),
            pin_order@.len() <= 8,
            views_of(frames@) == frame_seqs,
            traces_view(out@) == spec_emit(frame_seqs.subrange(0, k as int), pin_order@, settle),
            forall|i: int|
                0 <= i < out@.len() ==> (#[trigger] out@[i]).label@ == spec_frame_label(
                    trace_points@,
                    out@[i].data@,
                ),
        decreases frames@.len() - k,
    {
        let frame: &Vec<Response> = &frames[k];
        assert(frame@ == frame_seqs[k as int]);
        let samples = group_edges(frame, settle);
        let ghost sample_seqs = spec_group(frame@, settle);
        let mut bytes: Vec<u8> = Vec::new();
        let mut j: usize = 0;
        while j < samples.len()
            invariant
                j <= samples@.len(),
                pin_order@.len() <= 8,
                views_of(samples@) == sample_seqs,
                bytes@.len() == j,
                forall|i: int|
                    0 <= i < j ==> bytes@[i] == spec_sample_byte(sample_seqs[i], pin_order@),
            decreases samples@.len() - j,
        {
            let b = sample_byte(&samples[j], pin_order);
            assert(samples[j as int]@ == sample_seqs[j as int]);
            bytes.push(b);
            j = j + 1;
        }
        assert(bytes@ =~= spec_frame_bytes(frame@, pin_order@, settle));
        let ghost oldout = out@;
        if frame.len() > 0 && any_nonzero(&bytes) {
            let stamp = frame[0].time;
            let id = bytes[0] & 0x7f;
            let label: String = if 1 <= id && (id as usize) <= trace_points.len() {
                trace_points[(id - 1) as usize].clone()
            } else {
                "?".to_owned()
            };
            assert(label@ == spec_frame_label(trace_points@, bytes@));
            out.push(SerialTrace { time: stamp, data: bytes, label });
            assert(frame_seqs[k as int].first().time == stamp);
        }
        k = k + 1;
        proof {
            let next = frame_seqs.subrange(0, k as int);
            assert(next.drop_last() =~= frame_seqs.subrange(0, k - 1 as int));
            assert(next.last() == frame_seqs[k - 1]);
            assert(traces_view(out@) =~= spec_emit(next, pin_order@, settle));
        }
    }
    assert(frame_seqs.subrange(0, frame_seqs.len() as int) =~= frame_seqs);
    out
}

} // verus!

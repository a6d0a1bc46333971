//! Configure and execute tests: the per-test decisions and result assembly
//! of the executor. The surrounding binary owns the threads, the barrier and
//! the hardware; between its calls it hands what came back to the functions
//! here, which decide what to load, split responses from trace edges,
//! reconstruct traces, group energy samples, and emit one evaluation per
//! test in input order.

use vstd::prelude::*;

use crate::error::Error;
use crate::io::{spec_lookup_pin, Mapping};
use crate::platform::{spec_contains_str, TraceSpec};
use crate::testing::{clone_strings, Execution, Response, Signal, Test};
use crate::trace::{
    reconstruct, spec_reconstruct, spec_trace_only, traces_view, SerialTrace,
};

verus! {

/// What one test came to: a failure before or during execution, or the
/// complete record of a run.
pub enum Outcome {
    /// The test never ran or failed; the error says why.
    Failed(Error),
    /// The test ran to completion.
    Completed {
        /// Timing of the stimulus timeline.
        execution: Execution,
        /// Observed responses that are not trace edges, remapped to
        /// logical pins.
        gpio_responses: Vec<Response>,
        /// The serial traces reconstructed from the trace-pin edges.
        traces: Vec<SerialTrace>,
        /// Energy samples grouped per meter, in receive order.
        energy: Vec<(String, Vec<(u64, u32)>)>,
    },
}

/// The result record of one test: created once by the executor, never
/// mutated.
pub struct Evaluation {
    test_id: String,
    trace_spec: Option<TraceSpec>,
    outcome: Outcome,
}

impl Evaluation {
    /// The identifier of the test this record belongs to.
    pub closed spec fn spec_test_id(self) -> Seq<char> {
        self.test_id@
    }

    /// The instrumentation record the test ran under, if one was built.
    pub closed spec fn spec_trace_spec(self) -> Option<TraceSpec> {
        self.trace_spec
    }

    /// How the test came out.
    pub closed spec fn spec_outcome(self) -> Outcome {
        self.outcome
    }

    /// Record a test that failed before completing.
    pub fn failed(test: &Test, trace_spec: Option<TraceSpec>, err: Error) -> (ev: Evaluation)
        ensures
            ev.spec_test_id() == test.spec_id(),
            ev.spec_trace_spec() == trace_spec,
            ev.spec_outcome() matches Outcome::Failed(e) && e == err,
    {
        Evaluation {
            test_id: test.get_id().to_owned(),
            trace_spec,
            outcome: Outcome::Failed(err),
        }
    }

    /// Record a completed test.
    pub fn new(
        test: &Test,
        trace_spec: TraceSpec,
        execution: Execution,
        gpio_responses: Vec<Response>,
        traces: Vec<SerialTrace>,
        energy: Vec<(String, Vec<(u64, u32)>)>,
    ) -> (ev: Evaluation)
        ensures
            ev.spec_test_id() == test.spec_id(),
            ev.spec_trace_spec() matches Some(s) && s == trace_spec,
            ev.spec_outcome() matches Outcome::Completed {
                execution: e,
                gpio_responses: g,
                traces: t,
                energy: n,
            } && e == execution && g == gpio_responses && t == traces && n == energy,
    {
        Evaluation {
            test_id: test.get_id().to_owned(),
            trace_spec: Some(trace_spec),
            outcome: Outcome::Completed { execution, gpio_responses, traces, energy },
        }
    }

    pub fn get_test_id(&self) -> (r: &str)
        ensures
            r@ == self.spec_test_id(),
    {
        self.test_id.as_str()
    }

    pub fn get_trace_spec(&self) -> (r: &Option<TraceSpec>)
        ensures
            *r == self.spec_trace_spec(),
    {
        &self.trace_spec
    }

    pub fn get_outcome(&self) -> (r: &Outcome)
        ensures
            *r == self.spec_outcome(),
    {
        &self.outcome
    }
}

/// What the hardware gave back for one test; the executor's decisions are a
/// function of this record alone.
pub enum TestOutcome {
    /// Rebuilding or flashing the instrumented firmware failed.
    ReconfigFailed(Error),
    /// The firmware was flashed but loading the application set failed.
    LoadFailed(TraceSpec, Error),
    /// The test ran: its timing, the raw observed edges (physical pins),
    /// and the metering stream of per-meter timestamped samples.
    Ran {
        trace_spec: TraceSpec,
        execution: Execution,
        responses: Vec<Response>,
        energy_samples: Vec<(String, (u64, u32))>,
    },
}

/// `r` with its pin replaced by `logical`, same time and level.
pub open spec fn spec_remap_resp(r: Response, logical: u8) -> Response {
    Response {
        time: r.time,
        output: if r.output is High {
            Signal::High(logical)
        } else {
            Signal::Low(logical)
        },
    }
}

/// Every response translated to logical pins; nothing when some response's
/// pin is outside the translation table.
pub open spec fn spec_remap_all(rs: Seq<Response>, map: Seq<(u8, u8)>) -> Option<Seq<Response>>
    decreases rs.len(),
{
    if rs.len() == 0 {
        Some(Seq::empty())
    } else {
        match spec_remap_all(rs.drop_last(), map) {
            Option::None => None,
            Option::Some(prev) => match spec_lookup_pin(map, rs.last().output.spec_pin()) {
                Option::None => None,
                Option::Some(logical) => Some(prev.push(spec_remap_resp(rs.last(), logical))),
            },
        }
    }
}

/// The responses whose pin is not a trace pin, in order.
pub open spec fn spec_non_trace(rs: Seq<Response>, pins: Seq<u8>) -> Seq<Response>
    decreases rs.len(),
{
    if rs.len() == 0 {
        Seq::empty()
    } else {
        let prev = spec_non_trace(rs.drop_last(), pins);
        if pins.contains(rs.last().output.spec_pin()) {
            prev
        } else {
            prev.push(rs.last())
        }
    }
}

/// The strings of `a`, in order, that spell nothing in `b`.
pub open spec fn spec_diff_strs(a: Seq<String>, b: Seq<String>) -> Seq<String>
    decreases a.len(),
{
    if a.len() == 0 {
        Seq::empty()
    } else {
        let prev = spec_diff_strs(a.drop_last(), b);
        if spec_contains_str(b, a.last()@) {
            prev
        } else {
            prev.push(a.last())
        }
    }
}

/// The meter-id/sample views of a raw metering stream.
pub open spec fn spec_sample_views(s: Seq<(String, (u64, u32))>) -> Seq<(Seq<char>, (u64, u32))> {
    Seq::new(s.len(), |i: int| (s[i].0@, s[i].1))
}

/// The meter-id/sample-list views of grouped energy data.
pub open spec fn spec_entry_views(s: Seq<(String, Vec<(u64, u32)>)>) -> Seq<
    (Seq<char>, Seq<(u64, u32)>),
> {
    Seq::new(s.len(), |i: int| (s[i].0@, s[i].1@))
}

/// The first entry recorded for `id`, if any.
pub open spec fn spec_first_entry(
    entries: Seq<(Seq<char>, Seq<(u64, u32)>)>,
    id: Seq<char>,
) -> Option<int>
    decreases entries.len(),
{
    if entries.len() == 0 {
        None
    } else if entries.first().0 == id {
        Some(0int)
    } else {
        match spec_first_entry(entries.drop_first(), id) {
            Option::None => None,
            Option::Some(i) => Some(i + 1),
        }
    }
}

/// The metering stream grouped per meter: samples keep their receive order,
/// meters appear in order of their first sample.
pub open spec fn spec_group_energy(samples: Seq<(Seq<char>, (u64, u32))>) -> Seq<
    (Seq<char>, Seq<(u64, u32)>),
>
    decreases samples.len(),
{
    if samples.len() == 0 {
        Seq::empty()
    } else {
        let prev = spec_group_energy(samples.drop_last());
        let (id, sample) = samples.last();
        match spec_first_entry(prev, id) {
            Option::None => prev.push((id, seq![sample])),
            Option::Some(i) => prev.update(i, (prev[i].0, prev[i].1.push(sample))),
        }
    }
}

/// Whether `v` holds a string spelling `x`.
pub fn contains_str(v: &Vec<String>, x: &str) -> (r: bool)
    ensures
        r == spec_contains_str(v@, x@),
{
    let mut k: usize = 0;
    while k < v.len()
        invariant
            k <= v@.len(),
            forall|j: int| 0 <= j < k ==> (#[trigger] v@[j])@ != x@,
        decreases v@.len() - k,
    {
        if crate::platform::str_eq(v[k].as_str(), x) {
            assert(spec_contains_str(v@, x@));
            return true;
        }
        k = k + 1;
    }
    proof {
        if spec_contains_str(v@, x@) {
            let w = choose|w: int| 0 <= w < v@.len() && (#[trigger] v@[w])@ == x@;
            assert(false);
        }
    }
    false
}

/// The applications to unload and to load so the device ends up with
/// exactly the test's set: remove what is loaded but not needed, then add
/// what is needed but not loaded.
pub fn load_plan(loaded: &Vec<String>, app_ids: &Vec<String>) -> (r: (Vec<String>, Vec<String>))
    ensures
        r.0@ == spec_diff_strs(loaded@, app_ids@),
        r.1@ == spec_diff_strs(app_ids@, loaded@),
{
    let mut to_unload: Vec<String> = Vec::new();
    let mut k: usize = 0;
    while k < loaded.len()
        invariant
            k <= loaded@.len(),
            to_unload@ == spec_diff_strs(loaded@.subrange(0, k as int), app_ids@),
        decreases loaded@.len() - k,
    {
        if !contains_str(app_ids, loaded[k].as_str()) {
            to_unload.push(loaded[k].clone());
        }
        k = k + 1;
        proof {
            let next = loaded@.subrange(0, k as int);
            assert(next.drop_last() =~= loaded@.subrange(0, k - 1 as int));
            assert(next.last() == loaded@[k - 1]);
        }
    }
    assert(loaded@.subrange(0, loaded@.len() as int) =~= loaded@);
    let mut to_load: Vec<String> = Vec::new();
    let mut k: usize = 0;
    while k < app_ids.len()
        invariant
            k <= app_ids@.len(),
            to_load@ == spec_diff_strs(app_ids@.subrange(0, k as int), loaded@),
        decreases app_ids@.len() - k,
    {
        if !contains_str(loaded, app_ids[k].as_str()) {
            to_load.push(app_ids[k].clone());
        }
        k = k + 1;
        proof {
            let next = app_ids@.subrange(0, k as int);
            assert(next.drop_last() =~= app_ids@.subrange(0, k - 1 as int));
            assert(next.last() == app_ids@[k - 1]);
        }
    }
    assert(app_ids@.subrange(0, app_ids@.len() as int) =~= app_ids@);
    (to_unload, to_load)
}

/// The first matching entry decides the lookup.
proof fn lemma_first_entry_at(entries: Seq<(Seq<char>, Seq<(u64, u32)>)>, id: Seq<char>, k: int)
    requires
        0 <= k < entries.len(),
        entries[k].0 == id,
        forall|j: int| 0 <= j < k ==> (#[trigger] entries[j]).0 != id,
    ensures
        spec_first_entry(entries, id) == Some(k),
    decreases k,
{
    if k == 0 {
    } else {
        let tail = entries.drop_first();
        assert(tail[k - 1] == entries[k]);
        assert(forall|j: int| 0 <= j < k - 1 ==> (#[trigger] tail[j]) == entries[j + 1]
            && tail[j].0 != id);
        lemma_first_entry_at(tail, id, k - 1);
    }
}

/// With no matching entry the lookup yields nothing.
proof fn lemma_first_entry_none(entries: Seq<(Seq<char>, Seq<(u64, u32)>)>, id: Seq<char>)
    requires
        forall|j: int| 0 <= j < entries.len() ==> (#[trigger] entries[j]).0 != id,
    ensures
        spec_first_entry(entries, id) is None,
    decreases entries.len(),
{
    if entries.len() == 0 {
    } else {
        let tail = entries.drop_first();
        assert(forall|j: int| 0 <= j < tail.len() ==> (#[trigger] tail[j]) == entries[j + 1]
            && tail[j].0 != id);
        lemma_first_entry_none(tail, id);
    }
}

/// The index of the first entry recorded for `id`, if one exists.
fn find_entry(out: &Vec<(String, Vec<(u64, u32)>)>, id: &str) -> (r: Option<usize>)
    ensures
        match r {
            Option::Some(j) => j < out@.len() && out@[j as int].0@ == id@ && (forall|i: int|
                0 <= i < j ==> (#[trigger] out@[i]).0@ != id@),
            Option::None => forall|i: int| 0 <= i < out@.len() ==> (#[trigger] out@[i]).0@ != id@,
        },
{
    let mut j: usize = 0;
    while j < out.len()
        invariant
            j <= out@.len(),
            forall|i: int| 0 <= i < j ==> (#[trigger] out@[i]).0@ != id@,
        decreases out@.len() - j,
    {
        if crate::platform::str_eq(out[j].0.as_str(), id) {
            return Some(j);
        }
        j = j + 1;
    }
    None
}

/// Group a raw metering stream per meter, keeping receive order.
pub fn group_energy(samples: &Vec<(String, (u64, u32))>) -> (r: Vec<(String, Vec<(u64, u32)>)>)
    ensures
        spec_entry_views(r@) == spec_group_energy(spec_sample_views(samples@)),
{
    let mut out: Vec<(String, Vec<(u64, u32)>)> = Vec::new();
    let mut k: usize = 0;
    while k < samples.len()
        invariant
            k <= samples@.len(),
            spec_entry_views(out@) == spec_group_energy(
                spec_sample_views(samples@.subrange(0, k as int)),
            ),
        decreases samples@.len() - k,
    {
        let (meter_id, sample) = &samples[k];
        let ghost oldout = out@;
        if let Some(j) = find_entry(&out, meter_id.as_str()) {
            proof {
                lemma_first_entry_at(spec_entry_views(oldout), meter_id@, j as int);
            }
            let mut entry = out.remove(j);
            entry.1.push(*sample);
            out.insert(j, entry);
            assert(spec_entry_views(out@) =~= spec_entry_views(oldout).update(
                j as int,
                (
                    spec_entry_views(oldout)[j as int].0,
                    spec_entry_views(oldout)[j as int].1.push(*sample),
                ),
            ));
        } else {
            proof {
                lemma_first_entry_none(spec_entry_views(oldout), meter_id@);
            }
            let mut fresh: Vec<(u64, u32)> = Vec::new();
            fresh.push(*sample);
            out.push((meter_id.clone(), fresh));
            assert(spec_entry_views(out@) =~= spec_entry_views(oldout).push(
                (meter_id@, seq![*sample]),
            ));
        }
        k = k + 1;
        proof {
            let next = spec_sample_views(samples@.subrange(0, k as int));
            let pre = spec_sample_views(samples@.subrange(0, k - 1 as int));
            assert(next.drop_last() =~= pre);
            assert(next.last() == (samples@[k - 1].0@, samples@[k - 1].1));
        }
    }
    assert(samples@.subrange(0, samples@.len() as int) =~= samples@);
    out
}

/// Remap every response to logical pins; the first pin outside the
/// translation table is reported.
pub fn remap_all(responses: &Vec<Response>, mapping: &Mapping) -> (r: Result<Vec<Response>, Error>)
    ensures
        match spec_remap_all(responses@, mapping.spec_pin_map()) {
            Option::Some(rs) => r matches Ok(v) && v@ == rs,
            Option::None => r matches Err(e) && e matches Error::UnknownPin(_),
        },
{
    let mut out: Vec<Response> = Vec::new();
    let mut k: usize = 0;
    while k < responses.len()
        invariant
            k <= responses@.len(),
            spec_remap_all(responses@.subrange(0, k as int), mapping.spec_pin_map()) matches
                Option::Some(rs) && rs == out@,
        decreases responses@.len() - k,
    {
        let resp = &responses[k];
        match mapping.remap(resp) {
            Ok(m) => {
                assert(m == spec_remap_resp(
                    responses@[k as int],
                    spec_lookup_pin(mapping.spec_pin_map(), resp.output.spec_pin())->0,
                ));
                out.push(m);
            },
            Err(e) => {
                proof {
                    lemma_remap_all_fails(responses@, mapping.spec_pin_map(), k as int);
                }
                return Err(e);
            },
        }
        k = k + 1;
        proof {
            let next = responses@.subrange(0, k as int);
            assert(next.drop_last() =~= responses@.subrange(0, k - 1 as int));
            assert(next.last() == responses@[k - 1]);
        }
    }
    assert(responses@.subrange(0, responses@.len() as int) =~= responses@);
    Ok(out)
}

/// A response whose pin has no translation makes the whole remap yield
/// nothing.
proof fn lemma_remap_all_fails(rs: Seq<Response>, map: Seq<(u8, u8)>, k: int)
    requires
        0 <= k < rs.len(),
        spec_lookup_pin(map, rs[k].output.spec_pin()) is None,
    ensures
        spec_remap_all(rs, map) is None,
    decreases rs.len(),
{
    if rs.len() == 0 {
    } else if k == rs.len() - 1 {
    } else {
        lemma_remap_all_fails(rs.drop_last(), map, k);
    }
}

/// The responses that are not trace edges, in order.
pub fn split_non_trace(responses: &Vec<Response>, trace_pins: &Vec<u8>) -> (r: Vec<Response>)
    ensures
        r@ == spec_non_trace(responses@, trace_pins@),
{
    let mut out: Vec<Response> = Vec::new();
    let mut k: usize = 0;
    while k < responses.len()
        invariant
            k <= responses@.len(),
            out@ == spec_non_trace(responses@.subrange(0, k as int), trace_pins@),
        decreases responses@.len() - k,
    {
        let resp = responses[k];
        if !crate::testing::contains_u8(trace_pins, resp.output.pin()) {
            out.push(resp);
        }
        k = k + 1;
        proof {
            let next = responses@.subrange(0, k as int);
            assert(next.drop_last() =~= responses@.subrange(0, k - 1 as int));
            assert(next.last() == responses@[k - 1]);
        }
    }
    assert(responses@.subrange(0, responses@.len() as int) =~= responses@);
    out
}

/// Every response surviving the trace split keeps its timestamp bound and
/// sits on no trace pin: when each observed response was recorded at or
/// after the execution start, so was each response the evaluation reports,
/// and none of the reported responses is a trace edge.
pub proof fn lemma_gpio_responses_clean(rs: Seq<Response>, pins: Seq<u8>, start: u64)
    requires
        forall|i: int| 0 <= i < rs.len() ==> (#[trigger] rs[i]).time >= start,
    ensures
        forall|i: int|
            0 <= i < spec_non_trace(rs, pins).len() ==> (#[trigger] spec_non_trace(rs, pins)[
            i]).time >= start,
        forall|i: int|
            0 <= i < spec_non_trace(rs, pins).len() ==> !pins.contains(
                (#[trigger] spec_non_trace(rs, pins)[i]).output.spec_pin(),
            ),
    decreases rs.len(),
{
    if rs.len() == 0 {
    } else {
        let dl = rs.drop_last();
        assert(forall|i: int| 0 <= i < dl.len() ==> (#[trigger] dl[i]) == rs[i]);
        lemma_gpio_responses_clean(dl, pins, start);
        let prev = spec_non_trace(dl, pins);
        let out = spec_non_trace(rs, pins);
        if pins.contains(rs.last().output.spec_pin()) {
            assert(out == prev);
        } else {
            assert(out == prev.push(rs.last()));
            assert(forall|i: int| 0 <= i < prev.len() ==> (#[trigger] out[i]) == prev[i]);
            assert(out[out.len() - 1] == rs.last());
            assert(rs[rs.len() - 1].time >= start);
        }
    }
}

/// The set of character strings the list spells.
pub open spec fn set_of_views(s: Seq<String>) -> Set<Seq<char>> {
    Set::new(|x: Seq<char>| spec_contains_str(s, x))
}

/// Membership in a string difference: in the left list and not in the right.
proof fn lemma_diff_strs_contains(a: Seq<String>, b: Seq<String>, x: Seq<char>)
    ensures
        spec_contains_str(spec_diff_strs(a, b), x) <==> (spec_contains_str(a, x)
            && !spec_contains_str(b, x)),
    decreases a.len(),
{
    if a.len() == 0 {
    } else {
        let dl = a.drop_last();
        assert(forall|i: int| 0 <= i < dl.len() ==> (#[trigger] dl[i]) == a[i]);
        lemma_diff_strs_contains(dl, b, x);
        let prev = spec_diff_strs(dl, b);
        let out = spec_diff_strs(a, b);
        if spec_contains_str(b, a.last()@) {
            assert(out == prev);
            if spec_contains_str(a, x) && !spec_contains_str(b, x) {
                let w = choose|w: int| 0 <= w < a.len() && (#[trigger] a[w])@ == x;
                assert(w < a.len() - 1);
                assert(dl[w]@ == x);
                assert(spec_contains_str(dl, x));
            }
            if spec_contains_str(prev, x) {
                if !spec_contains_str(a, x) {
                    let w = choose|w: int| 0 <= w < dl.len() && (#[trigger] dl[w])@ == x;
                    assert(a[w]@ == x);
                }
            }
        } else {
            assert(out == prev.push(a.last()));
            assert(forall|i: int| 0 <= i < prev.len() ==> (#[trigger] out[i]) == prev[i]);
            assert(out[out.len() - 1] == a.last());
            if spec_contains_str(out, x) {
                let w = choose|w: int| 0 <= w < out.len() && (#[trigger] out[w])@ == x;
                if w < prev.len() {
                    assert(prev[w]@ == x);
                    assert(spec_contains_str(prev, x));
                } else {
                    assert(x == a.last()@);
                    assert(a[a.len() - 1]@ == x);
                }
            }
            if spec_contains_str(a, x) && !spec_contains_str(b, x) {
                let w = choose|w: int| 0 <= w < a.len() && (#[trigger] a[w])@ == x;
                if w < a.len() - 1 {
                    assert(dl[w]@ == x);
                    assert(spec_contains_str(prev, x));
                    let v = choose|v: int| 0 <= v < prev.len() && (#[trigger] prev[v])@ == x;
                    assert(out[v]@ == x);
                } else {
                    assert(out[out.len() - 1]@ == x);
                }
            }
            if spec_contains_str(prev, x) {
                let v = choose|v: int| 0 <= v < prev.len() && (#[trigger] prev[v])@ == x;
                assert(out[v]@ == x);
            }
        }
    }
}

/// A string difference denotes the set difference.
pub proof fn lemma_diff_strs_set(a: Seq<String>, b: Seq<String>)
    ensures
        set_of_views(spec_diff_strs(a, b)) == set_of_views(a).difference(set_of_views(b)),
{
    assert forall|x: Seq<char>|
        set_of_views(spec_diff_strs(a, b)).contains(x) <==> set_of_views(a).difference(
            set_of_views(b),
        ).contains(x) by {
        lemma_diff_strs_contains(a, b, x);
    }
    assert(set_of_views(spec_diff_strs(a, b)) =~= set_of_views(a).difference(set_of_views(b)));
}

/// Load reconciliation: unloading everything loaded-but-unneeded except
/// what the platform refused, then loading everything needed-but-unloaded,
/// leaves exactly the test's application set plus the refused leftovers;
/// with nothing refused, exactly the test's set.
pub proof fn lemma_load_reconciliation(
    loaded: Seq<String>,
    apps: Seq<String>,
    refused: Set<Seq<char>>,
)
    requires
        refused.subset_of(set_of_views(spec_diff_strs(loaded, apps))),
    ensures
        set_of_views(loaded).difference(
            set_of_views(spec_diff_strs(loaded, apps)).difference(refused),
        ).union(set_of_views(spec_diff_strs(apps, loaded))) == set_of_views(apps).union(refused),
        refused =~= Set::<Seq<char>>::empty() ==> set_of_views(loaded).difference(
            set_of_views(spec_diff_strs(loaded, apps)).difference(refused),
        ).union(set_of_views(spec_diff_strs(apps, loaded))) == set_of_views(apps),
{
    lemma_diff_strs_set(loaded, apps);
    lemma_diff_strs_set(apps, loaded);
    let ls = set_of_views(loaded);
    let as_ = set_of_views(apps);
    let after = ls.difference(ls.difference(as_).difference(refused)).union(as_.difference(ls));
    assert(after =~= as_.union(refused));
    if refused =~= Set::<Seq<char>>::empty() {
        assert(after =~= as_);
    }
}

/// Test suite executor: the pin topology, the meters the testbed offers,
/// and the reconstruction thresholds, fixed at construction.
pub struct Testbed {
    pin_mapping: Mapping,
    meter_ids: Vec<String>,
    settle: u64,
    frame_gap: u64,
}

impl Testbed {
    /// The pin topology.
    pub closed spec fn spec_pin_mapping(self) -> Mapping {
        self.pin_mapping
    }

    /// The meters the testbed offers.
    pub closed spec fn spec_meter_ids(self) -> Seq<String> {
        self.meter_ids@
    }

    /// Largest inter-edge gap inside one sample, microseconds.
    pub closed spec fn spec_settle(self) -> u64 {
        self.settle
    }

    /// Largest inter-edge gap inside one frame, microseconds.
    pub closed spec fn spec_frame_gap(self) -> u64 {
        self.frame_gap
    }

    /// Create a new `Testbed`.
    pub fn new(pin_mapping: Mapping, meter_ids: Vec<String>, settle: u64, frame_gap: u64) -> (r:
        Testbed)
        requires
            pin_mapping.spec_trace_pins().len() <= 8,
            settle <= frame_gap,
        ensures
            r.spec_pin_mapping() == pin_mapping,
            r.spec_meter_ids() == meter_ids@,
            r.spec_settle() == settle,
            r.spec_frame_gap() == frame_gap,
    {
        Testbed { pin_mapping, meter_ids, settle, frame_gap }
    }

    /// The pin topology.
    pub fn get_pin_mapping(&self) -> (r: &Mapping)
        ensures
            *r == self.spec_pin_mapping(),
    {
        &self.pin_mapping
    }

    /// Check that every meter a test's criteria name exists.
    pub fn check_meters(&self, test: &Test) -> (r: Result<(), Error>)
        ensures
            r is Ok <==> (forall|i: int|
                0 <= i < test.spec_criteria().len() ==> ((#[trigger] test.spec_criteria()[i])
                    matches crate::testing::Criterion::Energy(id) ==> spec_contains_str(
                    self.spec_meter_ids(),
                    id@,
                ))),
            r matches Err(e) ==> (e matches Error::NoSuchMeter(id) && (exists|i: int|
                0 <= i < test.spec_criteria().len() && ((#[trigger] test.spec_criteria()[i])
                    matches crate::testing::Criterion::Energy(x) && x@ == id@))
                && !spec_contains_str(self.spec_meter_ids(), id@)),
    {
        let criteria = test.get_criteria();
        let mut k: usize = 0;
        while k < criteria.len()
            invariant
                k <= criteria@.len(),
                criteria@ == test.spec_criteria(),
                forall|i: int|
                    0 <= i < k ==> ((#[trigger] criteria@[i]) matches
                        crate::testing::Criterion::Energy(id) ==> spec_contains_str(
                        self.spec_meter_ids(),
                        id@,
                    )),
            decreases criteria@.len() - k,
        {
            match &criteria[k] {
                crate::testing::Criterion::Energy(id) => {
                    if !contains_str(&self.meter_ids, id.as_str()) {
                        return Err(Error::NoSuchMeter(id.clone()));
                    }
                },
                crate::testing::Criterion::Response(_) => {},
            }
            k = k + 1;
        }
        Ok(())
    }

    /// What one test's evaluation must hold, given what the hardware gave
    /// back: a failure before running carries that failure, and a run
    /// carries exactly the remapped split, the reconstructed labelled
    /// traces, and the grouped energy stream.
    pub open spec fn spec_outcome_evaluated(self, outcome: TestOutcome, ev: Evaluation) -> bool {
        &&& (outcome matches TestOutcome::ReconfigFailed(e) ==> ev.spec_trace_spec() is None
            && (ev.spec_outcome() matches Outcome::Failed(e2) && e2 == e))
        &&& (outcome matches TestOutcome::LoadFailed(sp, e) ==> (ev.spec_trace_spec() matches
            Some(s2) && s2 == sp) && (ev.spec_outcome() matches Outcome::Failed(e2) && e2 == e))
        &&& (outcome matches TestOutcome::Ran { trace_spec, execution, responses, energy_samples }
            ==> match spec_remap_all(responses@, self.spec_pin_mapping().spec_pin_map()) {
            Option::None => ev.spec_outcome() matches Outcome::Failed(e) && e matches
                Error::UnknownPin(_),
            Option::Some(remapped) => ev.spec_outcome() matches Outcome::Completed {
                execution: x,
                gpio_responses: g,
                traces: t,
                energy: n,
            } && x == execution && g@ == spec_non_trace(
                remapped,
                self.spec_pin_mapping().spec_trace_pins(),
            ) && traces_view(t@) == spec_reconstruct(
                remapped,
                self.spec_pin_mapping().spec_trace_pins(),
                self.spec_settle(),
                self.spec_frame_gap(),
            ) && (forall|i: int|
                0 <= i < t@.len() ==> (#[trigger] t@[i]).label@
                    == crate::trace::spec_frame_label(
                    trace_spec.spec_trace_points(),
                    t@[i].data@,
                )) && spec_entry_views(n@) == spec_group_energy(
                spec_sample_views(energy_samples@),
            ),
        })
    }

    /// Assemble the evaluation of one test from what the hardware gave
    /// back: remap responses, split off trace edges, reconstruct the serial
    /// traces, group the energy stream, and record failures as failures.
    pub fn assemble_evaluation(&self, test: &Test, outcome: TestOutcome) -> (ev: Evaluation)
        requires
            self.spec_pin_mapping().spec_trace_pins().len() <= 8,
            self.spec_settle() <= self.spec_frame_gap(),
        ensures
            ev.spec_test_id() == test.spec_id(),
            self.spec_outcome_evaluated(outcome, ev),
    {
        match outcome {
            TestOutcome::ReconfigFailed(e) => Evaluation::failed(test, None, e),
            TestOutcome::LoadFailed(sp, e) => Evaluation::failed(test, Some(sp), e),
            TestOutcome::Ran { trace_spec, execution, responses, energy_samples } => {
                let remapped = match remap_all(&responses, &self.pin_mapping) {
                    Ok(v) => v,
                    Err(e) => {
                        return Evaluation::failed(test, Some(trace_spec), e);
                    },
                };
                let trace_pins = self.pin_mapping.trace_pin_order();
                let gpio_responses = split_non_trace(&remapped, trace_pins);
                let traces = reconstruct(
                    &remapped,
                    trace_pins,
                    trace_spec.get_trace_points(),
                    self.settle,
                    self.frame_gap,
                );
                let energy = group_energy(&energy_samples);
                Evaluation::new(test, trace_spec, execution, gpio_responses, traces, energy)
            },
        }
    }

    /// Evaluate a whole run: exactly one evaluation per test, in input
    /// order, each assembled from that test's outcome alone — a failed test
    /// never keeps a later test from being evaluated or completing.
    pub fn evaluate_run(&self, tests: &Vec<Test>, outcomes: Vec<TestOutcome>) -> (r: Vec<
        Evaluation,
    >)
        requires
            self.spec_pin_mapping().spec_trace_pins().len() <= 8,
            self.spec_settle() <= self.spec_frame_gap(),
            outcomes@.len() == tests@.len(),
        ensures
            r@.len() == tests@.len(),
            forall|i: int|
                0 <= i < r@.len() ==> (#[trigger] r@[i]).spec_test_id() == tests@[i].spec_id(),
            forall|i: int|
                0 <= i < r@.len() ==> self.spec_outcome_evaluated(
                    #[trigger] outcomes@[i],
                    r@[i],
                ),
    {
        let mut out: Vec<Evaluation> = Vec::new();
        let mut rest = outcomes;
        let mut k: usize = 0;
        while k < tests.len()
            invariant
                k <= tests@.len(),
                rest@ == outcomes@.subrange(k as int, outcomes@.len() as int),
                outcomes@.len() == tests@.len(),
                out@.len() == k,
                self.spec_pin_mapping().spec_trace_pins().len() <= 8,
                self.spec_settle() <= self.spec_frame_gap(),
                forall|i: int|
                    0 <= i < k ==> (#[trigger] out@[i]).spec_test_id() == tests@[i].spec_id(),
                forall|i: int|
                    0 <= i < k ==> self.spec_outcome_evaluated(#[trigger] outcomes@[i], out@[i]),
            decreases tests@.len() - k,
        {
            let outcome = rest.remove(0);
            assert(outcome == outcomes@[k as int]);
            assert(rest@ =~= outcomes@.subrange(k + 1 as int, outcomes@.len() as int));
            let ev = self.assemble_evaluation(&tests[k], outcome);
            out.push(ev);
            k = k + 1;
        }
        out
    }
}

} // verus!

//! The declarative test model: stimulus signals, observed responses,
//! acceptance criteria, and the immutable `Test` record whose stimulus
//! timeline is normalized to ascending time order at construction.

use vstd::prelude::*;

verus! {

/// A digital level driven on, or observed at, a numbered pin.
#[derive(Copy, Clone, Debug, Eq, PartialEq, Structural)]
pub enum Signal {
    High(u8),
    Low(u8),
}

impl Signal {
    /// The pin the signal belongs to.
    pub open spec fn spec_pin(self) -> u8 {
        match self {
            Signal::High(pin) => pin,
            Signal::Low(pin) => pin,
        }
    }

    /// Whether the signal is a high level.
    pub open spec fn spec_is_high(self) -> bool {
        self is High
    }

    /// The pin the signal belongs to.
    pub fn pin(&self) -> (r: u8)
        ensures
            r == self.spec_pin(),
    {
        match *self {
            Signal::High(pin) => pin,
            Signal::Low(pin) => pin,
        }
    }

    /// Whether the signal is a high level.
    pub fn is_high(&self) -> (r: bool)
        ensures
            r == self.spec_is_high(),
    {
        match *self {
            Signal::High(_) => true,
            Signal::Low(_) => false,
        }
    }
}

/// One stimulus event: drive `input` once `time` milliseconds have passed
/// since the start of the test.
#[derive(Copy, Clone, Debug, Eq, PartialEq, Structural)]
pub struct Operation {
    pub time: u64,
    pub input: Signal,
}

/// One observed output edge, timestamped in microseconds of monotonic time.
#[derive(Copy, Clone, Debug, Eq, PartialEq, Structural)]
pub struct Response {
    pub time: u64,
    pub output: Signal,
}

impl Response {
    /// The pin the response was observed on.
    pub fn get_pin(&self) -> (r: u8)
        ensures
            r == self.output.spec_pin(),
    {
        self.output.pin()
    }

    /// Microseconds between `t0` and this response; zero if the response
    /// predates `t0`.
    pub fn get_offset(&self, t0: u64) -> (r: u64)
        ensures
            self.time >= t0 ==> r == self.time - t0,
            self.time < t0 ==> r == 0,
    {
        if self.time >= t0 {
            self.time - t0
        } else {
            0
        }
    }
}

/// A test acceptance rule. The engine only reads which pins and meters a
/// criterion needs; judging the rule itself happens outside the engine.
#[derive(Clone, Debug)]
pub enum Criterion {
    /// A response is expected on the given pin.
    Response(u8),
    /// Energy draw from the named meter matters to the test.
    Energy(String),
}

impl Criterion {
    /// An equal copy of this criterion.
    pub fn duplicate(&self) -> (r: Criterion)
        ensures
            r == *self,
    {
        match self {
            Criterion::Response(pin) => Criterion::Response(*pin),
            Criterion::Energy(meter_id) => Criterion::Energy(meter_id.clone()),
        }
    }
}

/// Timing of one executed stimulus timeline, in microseconds of monotonic
/// time: when it started and how long driving it took.
#[derive(Copy, Clone, Debug, Eq, PartialEq, Structural)]
pub struct Execution {
    start: u64,
    duration: u64,
}

impl Execution {
    /// When the timeline started.
    pub closed spec fn spec_start(self) -> u64 {
        self.start
    }

    /// How long driving the timeline took.
    pub closed spec fn spec_duration(self) -> u64 {
        self.duration
    }

    pub fn new(start: u64, duration: u64) -> (r: Execution)
        ensures
            r.spec_start() == start,
            r.spec_duration() == duration,
    {
        Execution { start, duration }
    }

    pub fn get_start(&self) -> (r: u64)
        ensures
            r == self.spec_start(),
    {
        self.start
    }

    pub fn get_duration(&self) -> (r: u64)
        ensures
            r == self.spec_duration(),
    {
        self.duration
    }
}

/// Operations ordered by ascending stimulus time.
pub open spec fn spec_ops_sorted(s: Seq<Operation>) -> bool {
    forall|i: int, j: int| 0 <= i < j < s.len() ==> s[i].time <= s[j].time
}

/// `op` inserted into `s` after every element whose time is no greater, so
/// ties keep their arrival order.
pub open spec fn spec_insert_op(s: Seq<Operation>, op: Operation) -> Seq<Operation>
    decreases s.len(),
{
    if s.len() == 0 {
        seq![op]
    } else if s.last().time <= op.time {
        s.push(op)
    } else {
        spec_insert_op(s.drop_last(), op).push(s.last())
    }
}

/// `s` stably sorted by ascending time: operations inserted one by one in
/// arrival order.
pub open spec fn spec_sort_ops(s: Seq<Operation>) -> Seq<Operation>
    decreases s.len(),
{
    if s.len() == 0 {
        Seq::empty()
    } else {
        spec_insert_op(spec_sort_ops(s.drop_last()), s.last())
    }
}

/// The stable insertion splices `op` at the position where every earlier
/// element's time is no greater and every later element's time is greater.
proof fn lemma_insert_op_at(s: Seq<Operation>, op: Operation, pos: int)
    requires
        0 <= pos <= s.len(),
        forall|j: int| pos <= j < s.len() ==> s[j].time > op.time,
        pos == 0 || s[pos - 1].time <= op.time,
    ensures
        spec_insert_op(s, op) == s.subrange(0, pos) + seq![op] + s.subrange(pos, s.len() as int),
    decreases s.len(),
{
    if s.len() == 0 {
        assert(spec_insert_op(s, op) =~= s.subrange(0, pos) + seq![op] + s.subrange(
            pos,
            s.len() as int,
        ));
    } else if s.last().time <= op.time {
        assert(pos == s.len());
        assert(s.subrange(0, pos) =~= s);
        assert(spec_insert_op(s, op) =~= s.subrange(0, pos) + seq![op] + s.subrange(
            pos,
            s.len() as int,
        ));
    } else {
        lemma_insert_op_at(s.drop_last(), op, pos);
        assert(s.drop_last().subrange(0, pos) =~= s.subrange(0, pos));
        assert(spec_insert_op(s, op) =~= s.subrange(0, pos) + seq![op] + s.subrange(
            pos,
            s.len() as int,
        ));
    }
}

/// Inserting into a sorted sequence keeps it sorted, grows it by one
/// element, and adds nothing but `op`.
proof fn lemma_insert_op_sorted(s: Seq<Operation>, op: Operation)
    requires
        spec_ops_sorted(s),
    ensures
        spec_ops_sorted(spec_insert_op(s, op)),
        spec_insert_op(s, op).len() == s.len() + 1,
        forall|i: int|
            0 <= i < spec_insert_op(s, op).len() ==> (#[trigger] spec_insert_op(s, op)[i] == op
                || s.contains(spec_insert_op(s, op)[i])),
    decreases s.len(),
{
    let r = spec_insert_op(s, op);
    if s.len() == 0 {
    } else if s.last().time <= op.time {
        assert(forall|i: int| 0 <= i < s.len() ==> r[i] == s[i] && s.contains(s[i]));
    } else {
        let dl = s.drop_last();
        lemma_insert_op_sorted(dl, op);
        let rec = spec_insert_op(dl, op);
        assert(r == rec.push(s.last()));
        assert forall|i: int| 0 <= i < r.len() implies (#[trigger] r[i] == op || s.contains(
            r[i],
        )) by {
            if i < rec.len() {
                assert(r[i] == rec[i]);
                if rec[i] != op {
                    let w = choose|w: int| 0 <= w < dl.len() && dl[w] == rec[i];
                    assert(s[w] == rec[i]);
                }
            } else {
                assert(r[i] == s[s.len() - 1]);
            }
        }
        assert forall|i: int, j: int| 0 <= i < j < r.len() implies r[i].time <= r[j].time by {
            if j < rec.len() {
            } else {
                assert(r[j] == s.last());
                assert(r[i] == rec[i]);
                if rec[i] == op {
                    assert(r[i].time <= r[j].time);
                } else {
                    let w = choose|w: int| 0 <= w < dl.len() && dl[w] == rec[i];
                    assert(s[w] == rec[i]);
                    assert(s[w].time <= s.last().time);
                }
            }
        }
    }
}

/// The stable sort produces an ascending sequence.
pub proof fn lemma_sort_ops_sorted(s: Seq<Operation>)
    ensures
        spec_ops_sorted(spec_sort_ops(s)),
    decreases s.len(),
{
    if s.len() == 0 {
    } else {
        lemma_sort_ops_sorted(s.drop_last());
        lemma_insert_op_sorted(spec_sort_ops(s.drop_last()), s.last());
    }
}

/// Insert `op` into the sorted vector `v`, after all elements of equal time.
fn insert_op(v: Vec<Operation>, op: Operation) -> (r: Vec<Operation>)
    ensures
        r@ == spec_insert_op(v@, op),
{
    let mut pos: usize = v.len();
    while pos > 0 && v[pos - 1].time > op.time
        invariant
            pos <= v.len(),
            forall|j: int| pos <= j < v@.len() ==> v@[j].time > op.time,
        decreases pos,
    {
        pos = pos - 1;
    }
    proof {
        lemma_insert_op_at(v@, op, pos as int);
    }
    let ghost before = v@;
    let mut r = v;
    r.insert(pos, op);
    assert(r@ =~= before.subrange(0, pos as int) + seq![op] + before.subrange(
        pos as int,
        before.len() as int,
    ));
    r
}

/// An immutable test: its identifier, the applications it needs, its
/// stimulus timeline sorted by time, its acceptance criteria and the trace
/// points its firmware must be instrumented for.
#[derive(Clone, Debug)]
pub struct Test {
    id: String,
    actions: Vec<Operation>,
    criteria: Vec<Criterion>,
    app_ids: Vec<String>,
    trace_points: Vec<String>,
}

impl Test {
    /// The test's identifier.
    pub closed spec fn spec_id(self) -> Seq<char> {
        self.id@
    }

    /// The stimulus timeline, ascending by time.
    pub closed spec fn spec_actions(self) -> Seq<Operation> {
        self.actions@
    }

    /// The acceptance criteria, in declaration order.
    pub closed spec fn spec_criteria(self) -> Seq<Criterion> {
        self.criteria@
    }

    /// The applications the test needs loaded.
    pub closed spec fn spec_app_ids(self) -> Seq<String> {
        self.app_ids@
    }

    /// The trace points the firmware must be instrumented for.
    pub closed spec fn spec_trace_points(self) -> Seq<String> {
        self.trace_points@
    }

    /// A constructed test always carries its timeline in ascending order.
    pub open spec fn well_formed(self) -> bool {
        spec_ops_sorted(self.spec_actions())
    }

    /// Build a test with no applications and no trace points. The operations
    /// are normalized to ascending time; ties keep their arrival order. A
    /// test's identifier is never empty and no two actions coincide in
    /// time, pin and level.
    pub fn new(id: &str, ops: &Vec<Operation>, criteria: &Vec<Criterion>) -> (t: Test)
        requires
            id@.len() > 0,
            forall|i: int, j: int| 0 <= i < j < ops@.len() ==> ops@[i] != ops@[j],
        ensures
            t.spec_id() == id@,
            t.spec_actions() == spec_sort_ops(ops@),
            t.spec_criteria() == criteria@,
            t.spec_app_ids() == Seq::<String>::empty(),
            t.spec_trace_points() == Seq::<String>::empty(),
            t.well_formed(),
    {
        Test::with_software(id, ops, criteria, &Vec::new(), &Vec::new())
    }

    /// Build a test that also names its application set and trace points.
    /// A test's identifier is never empty and no two actions coincide in
    /// time, pin and level.
    pub fn with_software(
        id: &str,
        ops: &Vec<Operation>,
        criteria: &Vec<Criterion>,
        app_ids: &Vec<String>,
        trace_points: &Vec<String>,
    ) -> (t: Test)
        requires
            id@.len() > 0,
            forall|i: int, j: int| 0 <= i < j < ops@.len() ==> ops@[i] != ops@[j],
        ensures
            t.spec_id() == id@,
            t.spec_actions() == spec_sort_ops(ops@),
            t.spec_criteria() == criteria@,
            t.spec_app_ids() == app_ids@,
            t.spec_trace_points() == trace_points@,
            t.well_formed(),
    {
        let mut actions: Vec<Operation> = Vec::new();
        let mut k: usize = 0;
        while k < ops.len()
            invariant
                k <= ops@.len(),
                actions@ == spec_sort_ops(ops@.subrange(0, k as int)),
            decreases ops@.len() - k,
        {
            actions = insert_op(actions, ops[k]);
            k = k + 1;
            assert(ops@.subrange(0, k as int).drop_last() =~= ops@.subrange(0, k - 1 as int));
        }
        assert(ops@.subrange(0, ops@.len() as int) =~= ops@);
        proof {
            lemma_sort_ops_sorted(ops@);
        }
        let mut crits: Vec<Criterion> = Vec::new();
        let mut k: usize = 0;
        while k < criteria.len()
            invariant
                k <= criteria@.len(),
                crits@ == criteria@.subrange(0, k as int),
            decreases criteria@.len() - k,
        {
            crits.push(criteria[k].duplicate());
            k = k + 1;
            assert(crits@ =~= criteria@.subrange(0, k as int));
        }
        assert(crits@ =~= criteria@);
        Test {
            id: id.to_owned(),
            actions,
            criteria: crits,
            app_ids: clone_strings(app_ids),
            trace_points: clone_strings(trace_points),
        }
    }

    /// The test's identifier.
    pub fn get_id(&self) -> (r: &str)
        ensures
            r@ == self.spec_id(),
    {
        self.id.as_str()
    }

    /// The acceptance criteria.
    pub fn get_criteria(&self) -> (r: &Vec<Criterion>)
        ensures
            r@ == self.spec_criteria(),
    {
        &self.criteria
    }

    /// The stimulus timeline, ascending by time.
    pub fn get_actions(&self) -> (r: &Vec<Operation>)
        ensures
            r@ == self.spec_actions(),
    {
        &self.actions
    }

    /// The applications the test needs loaded.
    pub fn get_app_ids(&self) -> (r: &Vec<String>)
        ensures
            r@ == self.spec_app_ids(),
    {
        &self.app_ids
    }

    /// The trace points the firmware must be instrumented for.
    pub fn get_trace_points(&self) -> (r: &Vec<String>)
        ensures
            r@ == self.spec_trace_points(),
    {
        &self.trace_points
    }

    /// The pins the observer must arm both-edge interrupts on: the trace
    /// pins together with every pin a criterion watches, without duplicates.
    pub fn prep_observe(&self, trace_pins: &Vec<u8>) -> (r: Vec<u8>)
        ensures
            forall|p: u8|
                r@.contains(p) <==> (trace_pins@.contains(p) || spec_criteria_watch_pin(
                    self.spec_criteria(),
                    p,
                )),
            forall|i: int, j: int| 0 <= i < j < r@.len() ==> r@[i] != r@[j],
    {
        let mut pins: Vec<u8> = Vec::new();
        let mut k: usize = 0;
        while k < trace_pins.len()
            invariant
                k <= trace_pins@.len(),
                forall|p: u8|
                    pins@.contains(p) <==> (exists|i: int|
                        0 <= i < k && #[trigger] trace_pins@[i] == p),
                forall|i: int, j: int| 0 <= i < j < pins@.len() ==> pins@[i] != pins@[j],
            decreases trace_pins@.len() - k,
        {
            let pin = trace_pins[k];
            let ghost oldpins = pins@;
            if !contains_u8(&pins, pin) {
                pins.push(pin);
            }
            k = k + 1;
            proof {
                assert forall|p: u8|
                    pins@.contains(p) <==> (exists|i: int|
                        0 <= i < k && #[trigger] trace_pins@[i] == p) by {
                    lemma_contains_push_u8(oldpins, pin, p);
                    assert(pins@.contains(p) <==> (oldpins.contains(p) || p == pin));
                    if pins@.contains(p) {
                        if oldpins.contains(p) {
                            let i = choose|i: int| 0 <= i < k - 1 && #[trigger] trace_pins@[i] == p;
                            assert(trace_pins@[i] == p);
                        } else {
                            assert(trace_pins@[k - 1] == p);
                        }
                    }
                    if exists|i: int| 0 <= i < k && #[trigger] trace_pins@[i] == p {
                        let i = choose|i: int| 0 <= i < k && #[trigger] trace_pins@[i] == p;
                        if i < k - 1 {
                            assert(oldpins.contains(p));
                        } else {
                            assert(p == pin);
                        }
                    }
                }
            }
        }
        let ghost half: Seq<u8> = pins@;
        proof {
            assert forall|p: u8| half.contains(p) <==> trace_pins@.contains(p) by {
                if half.contains(p) {
                    let i = choose|i: int|
                        0 <= i < trace_pins@.len() && #[trigger] trace_pins@[i] == p;
                    assert(trace_pins@[i] == p);
                }
                if trace_pins@.contains(p) {
                    let i = choose|i: int| 0 <= i < trace_pins@.len() && trace_pins@[i] == p;
                    assert(exists|j: int|
                        0 <= j < trace_pins@.len() && #[trigger] trace_pins@[j] == p);
                }
            }
        }
        let mut k: usize = 0;
        while k < self.criteria.len()
            invariant
                k <= self.criteria@.len(),
                forall|p: u8| half.contains(p) <==> trace_pins@.contains(p),
                forall|p: u8|
                    pins@.contains(p) <==> (half.contains(p) || spec_criteria_watch_pin(
                        self.criteria@.subrange(0, k as int),
                        p,
                    )),
                forall|i: int, j: int| 0 <= i < j < pins@.len() ==> pins@[i] != pins@[j],
            decreases self.criteria@.len() - k,
        {
            let ghost prefix = self.criteria@.subrange(0, k as int);
            let ghost oldpins = pins@;
            let ghost crit = self.criteria@[k as int];
            match &self.criteria[k] {
                Criterion::Response(pin) => {
                    if !contains_u8(&pins, *pin) {
                        pins.push(*pin);
                    }
                },
                Criterion::Energy(_) => {},
            }
            proof {
                assert forall|p: u8|
                    pins@.contains(p) <==> (oldpins.contains(p) || spec_watches_pin(
                        crit,
                        p,
                    )) by {
                    if crit is Response {
                        lemma_contains_push_u8(oldpins, crit->Response_0, p);
                    }
                }
            }
            k = k + 1;
            proof {
                let next = self.criteria@.subrange(0, k as int);
                assert(next.drop_last() =~= prefix);
                assert(next.last() == crit);
                assert forall|p: u8|
                    spec_criteria_watch_pin(next, p) <==> (spec_criteria_watch_pin(prefix, p)
                        || spec_watches_pin(crit, p)) by {
                    if spec_criteria_watch_pin(next, p) {
                        let w = choose|w: int|
                            0 <= w < next.len() && #[trigger] spec_watches_pin(next[w], p);
                        if w < k - 1 {
                            assert(prefix[w] == next[w]);
                            assert(spec_criteria_watch_pin(prefix, p));
                        } else {
                            assert(next[w] == crit);
                        }
                    }
                    if spec_criteria_watch_pin(prefix, p) {
                        let w = choose|w: int|
                            0 <= w < prefix.len() && #[trigger] spec_watches_pin(prefix[w], p);
                        assert(next[w] == prefix[w]);
                        assert(spec_watches_pin(next[w], p));
                    }
                    if spec_watches_pin(crit, p) {
                        assert(next[k - 1] == crit);
                        assert(spec_watches_pin(next[k - 1], p));
                    }
                }
            }
        }
        assert(self.criteria@.subrange(0, self.criteria@.len() as int) =~= self.criteria@);
        proof {
            assert forall|p: u8|
                pins@.contains(p) <==> (trace_pins@.contains(p) || spec_criteria_watch_pin(
                    self.criteria@,
                    p,
                )) by {
                assert(pins@.contains(p) <==> (half.contains(p) || spec_criteria_watch_pin(
                    self.criteria@.subrange(0, k as int),
                    p,
                )));
                assert(half.contains(p) <==> trace_pins@.contains(p));
            }
        }
        pins
    }

    /// Whether any criterion needs energy samples; metering is skipped when
    /// none does.
    pub fn prep_meter(&self) -> (r: bool)
        ensures
            r == spec_needs_energy(self.spec_criteria()),
    {
        let mut k: usize = 0;
        while k < self.criteria.len()
            invariant
                k <= self.criteria@.len(),
                !spec_needs_energy(self.criteria@.subrange(0, k as int)),
            decreases self.criteria@.len() - k,
        {
            let ghost prefix = self.criteria@.subrange(0, k as int);
            match &self.criteria[k] {
                Criterion::Energy(_) => {
                    assert(spec_needs_energy(self.criteria@));
                    return true;
                },
                Criterion::Response(_) => {},
            }
            k = k + 1;
            proof {
                let next = self.criteria@.subrange(0, k as int);
                if spec_needs_energy(next) {
                    let w = choose|w: int| 0 <= w < next.len() && next[w] is Energy;
                    assert(w < k - 1 ==> prefix[w] == next[w]);
                    assert(false);
                }
            }
        }
        assert(self.criteria@.subrange(0, self.criteria@.len() as int) =~= self.criteria@);
        false
    }

    /// The instants, in microseconds from `t0`, at which each stimulus
    /// signal must be driven: each action at `t0` plus its millisecond
    /// offset. The caller drives the hardware; this fixes the schedule.
    pub fn stimulus_plan(&self, t0: u64) -> (r: Vec<(u64, Signal)>)
        requires
            forall|i: int|
                0 <= i < self.spec_actions().len() ==> t0 + self.spec_actions()[i].time * 1000
                    <= u64::MAX,
        ensures
            r@.len() == self.spec_actions().len(),
            forall|i: int|
                0 <= i < r@.len() ==> r@[i].0 == t0 + self.spec_actions()[i].time * 1000
                    && r@[i].1 == self.spec_actions()[i].input,
            self.well_formed() ==> forall|i: int, j: int|
                0 <= i < j < r@.len() ==> r@[i].0 <= r@[j].0,
    {
        let mut plan: Vec<(u64, Signal)> = Vec::new();
        let mut k: usize = 0;
        while k < self.actions.len()
            invariant
                k <= self.actions@.len(),
                forall|i: int|
                    0 <= i < self.actions@.len() ==> t0 + self.actions@[i].time * 1000
                        <= u64::MAX,
                plan@.len() == k,
                forall|i: int|
                    0 <= i < k ==> plan@[i].0 == t0 + self.actions@[i].time * 1000 && plan@[i].1
                        == self.actions@[i].input,
            decreases self.actions@.len() - k,
        {
            let op = self.actions[k];
            plan.push((t0 + op.time * 1000, op.input));
            k = k + 1;
        }
        plan
    }
}

/// Whether criterion `c` watches pin `p` for a response.
pub open spec fn spec_watches_pin(c: Criterion, p: u8) -> bool {
    c matches Criterion::Response(q) && q == p
}

/// Whether some criterion watches pin `p` for a response.
pub open spec fn spec_criteria_watch_pin(cs: Seq<Criterion>, p: u8) -> bool {
    exists|i: int| 0 <= i < cs.len() && #[trigger] spec_watches_pin(cs[i], p)
}

/// Whether some criterion needs energy samples.
pub open spec fn spec_needs_energy(cs: Seq<Criterion>) -> bool {
    exists|i: int| 0 <= i < cs.len() && cs[i] is Energy
}

/// A sequence extended by `x` holds `p` exactly when the sequence already
/// held `p` or `p` is `x`.
proof fn lemma_contains_push_u8(s: Seq<u8>, x: u8, p: u8)
    ensures
        s.push(x).contains(p) <==> (s.contains(p) || p == x),
{
    if s.contains(p) {
        let w = choose|w: int| 0 <= w < s.len() && s[w] == p;
        assert(s.push(x)[w] == p);
    }
    if p == x {
        assert(s.push(x)[s.len() as int] == p);
    }
    if s.push(x).contains(p) {
        let w = choose|w: int| 0 <= w < s.push(x).len() && s.push(x)[w] == p;
        if w < s.len() {
            assert(s[w] == p);
        }
    }
}

/// Whether `v` holds `x`.
pub fn contains_u8(v: &Vec<u8>, x: u8) -> (r: bool)
    ensures
        r == v@.contains(x),
{
    let mut k: usize = 0;
    while k < v.len()
        invariant
            k <= v@.len(),
            forall|i: int| 0 <= i < k ==> v@[i] != x,
        decreases v@.len() - k,
    {
        if v[k] == x {
            return true;
        }
        k = k + 1;
    }
    false
}

/// An equal copy of a vector of strings.
pub fn clone_strings(v: &Vec<String>) -> (r: Vec<String>)
    ensures
        r@ == v@,
{
    let mut r: Vec<String> = Vec::new();
    let mut k: usize = 0;
    while k < v.len()
        invariant
            k <= v@.len(),
            r@ == v@.subrange(0, k as int),
        decreases v@.len() - k,
    {
        r.push(v[k].clone());
        k = k + 1;
        assert(r@ =~= v@.subrange(0, k as int));
    }
    assert(v@.subrange(0, v@.len() as int) =~= v@);
    r
}

} // verus!

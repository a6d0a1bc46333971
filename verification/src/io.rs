//! Pin mapping: which logical pins the testbed drives, which it observes,
//! which observed pins carry the trace, and how physical pin numbers
//! translate to the logical numbers tests speak of.

use vstd::prelude::*;

use crate::error::Error;
use crate::testing::{Response, Signal};

verus! {

/// The first logical pin `map` assigns to physical pin `pin`, if any.
pub open spec fn spec_lookup_pin(map: Seq<(u8, u8)>, pin: u8) -> Option<u8>
    decreases map.len(),
{
    if map.len() == 0 {
        None
    } else if map.first().0 == pin {
        Some(map.first().1)
    } else {
        spec_lookup_pin(map.drop_first(), pin)
    }
}

/// An immutable description of the testbed's pin topology, fixed at
/// construction.
pub struct Mapping {
    inputs: Vec<u8>,
    outputs: Vec<u8>,
    trace_pins: Vec<u8>,
    pin_map: Vec<(u8, u8)>,
}

impl Mapping {
    /// The pins the testbed drives (inputs to the device under test).
    pub closed spec fn spec_inputs(self) -> Seq<u8> {
        self.inputs@
    }

    /// The pins the testbed observes (outputs of the device under test).
    pub closed spec fn spec_outputs(self) -> Seq<u8> {
        self.outputs@
    }

    /// The observed pins that carry the trace, in bit-significance order.
    pub closed spec fn spec_trace_pins(self) -> Seq<u8> {
        self.trace_pins@
    }

    /// The physical-to-logical pin translation pairs.
    pub closed spec fn spec_pin_map(self) -> Seq<(u8, u8)> {
        self.pin_map@
    }

    /// Every trace pin is an observed pin.
    pub open spec fn well_formed(self) -> bool {
        forall|i: int|
            0 <= i < self.spec_trace_pins().len() ==> self.spec_outputs().contains(
                #[trigger] self.spec_trace_pins()[i],
            )
    }

    /// Build a mapping; a trace pin that is not an observed pin is refused.
    pub fn new(
        inputs: Vec<u8>,
        outputs: Vec<u8>,
        trace_pins: Vec<u8>,
        pin_map: Vec<(u8, u8)>,
    ) -> (r: Result<Mapping, Error>)
        ensures
            match r {
                Ok(m) => m.spec_inputs() == inputs@ && m.spec_outputs() == outputs@
                    && m.spec_trace_pins() == trace_pins@ && m.spec_pin_map() == pin_map@
                    && m.well_formed(),
                Err(e) => (exists|i: int|
                    0 <= i < trace_pins@.len() && !outputs@.contains(#[trigger] trace_pins@[i]))
                    && (e matches Error::UnknownPin(p) && trace_pins@.contains(p)),
            },
            (forall|i: int|
                0 <= i < trace_pins@.len() ==> outputs@.contains(#[trigger] trace_pins@[i]))
                <==> r is Ok,
    {
        let mut k: usize = 0;
        while k < trace_pins.len()
            invariant
                k <= trace_pins@.len(),
                forall|i: int| 0 <= i < k ==> outputs@.contains(#[trigger] trace_pins@[i]),
            decreases trace_pins@.len() - k,
        {
            if !crate::testing::contains_u8(&outputs, trace_pins[k]) {
                return Err(Error::UnknownPin(trace_pins[k]));
            }
            k = k + 1;
        }
        Ok(Mapping { inputs, outputs, trace_pins, pin_map })
    }

    /// Validate that `pin` is a driveable pin, handing it back for the
    /// caller's hardware layer to resolve.
    pub fn get_output(&self, pin: u8) -> (r: Result<u8, Error>)
        ensures
            self.spec_inputs().contains(pin) ==> r == Ok::<u8, Error>(pin),
            !self.spec_inputs().contains(pin) ==> r == Err::<u8, Error>(Error::UnknownPin(pin)),
    {
        if crate::testing::contains_u8(&self.inputs, pin) {
            Ok(pin)
        } else {
            Err(Error::UnknownPin(pin))
        }
    }

    /// Validate that `pin` is an observed pin, handing it back for the
    /// caller's hardware layer to resolve.
    pub fn get_input(&self, pin: u8) -> (r: Result<u8, Error>)
        ensures
            self.spec_outputs().contains(pin) ==> r == Ok::<u8, Error>(pin),
            !self.spec_outputs().contains(pin) ==> r == Err::<u8, Error>(Error::UnknownPin(pin)),
    {
        if crate::testing::contains_u8(&self.outputs, pin) {
            Ok(pin)
        } else {
            Err(Error::UnknownPin(pin))
        }
    }

    /// The trace pins in bit-significance order, least significant first.
    pub fn trace_pin_order(&self) -> (r: &Vec<u8>)
        ensures
            r@ == self.spec_trace_pins(),
    {
        &self.trace_pins
    }

    /// The pins the testbed drives.
    pub fn get_gpio_outputs(&self) -> (r: &Vec<u8>)
        ensures
            r@ == self.spec_inputs(),
    {
        &self.inputs
    }

    /// The pins the testbed observes.
    pub fn get_gpio_inputs(&self) -> (r: &Vec<u8>)
        ensures
            r@ == self.spec_outputs(),
    {
        &self.outputs
    }

    /// Translate a response's physical pin to the logical pin tests speak
    /// of; a pin outside the translation table is refused.
    pub fn remap(&self, r: &Response) -> (out: Result<Response, Error>)
        ensures
            match spec_lookup_pin(self.spec_pin_map(), r.output.spec_pin()) {
                Some(logical) => out matches Ok(m) && m.time == r.time && m.output.spec_pin()
                    == logical && m.output.spec_is_high() == r.output.spec_is_high(),
                None => out == Err::<Response, Error>(
                    Error::UnknownPin(r.output.spec_pin()),
                ),
            },
    {
        let pin = r.output.pin();
        let mut k: usize = 0;
        while k < self.pin_map.len()
            invariant
                k <= self.pin_map@.len(),
                pin == r.output.spec_pin(),
                forall|j: int| 0 <= j < k ==> (#[trigger] self.pin_map@[j]).0 != pin,
            decreases self.pin_map@.len() - k,
        {
            let (physical, logical) = self.pin_map[k];
            if physical == pin {
                proof {
                    lemma_lookup_pin_at(self.pin_map@, pin, k as int);
                }
                let output = if r.output.is_high() {
                    Signal::High(logical)
                } else {
                    Signal::Low(logical)
                };
                return Ok(Response { time: r.time, output });
            }
            k = k + 1;
        }
        proof {
            lemma_lookup_pin_none(self.pin_map@, pin);
        }
        Err(Error::UnknownPin(pin))
    }
}

/// The first matching entry decides the lookup.
proof fn lemma_lookup_pin_at(map: Seq<(u8, u8)>, pin: u8, k: int)
    requires
        0 <= k < map.len(),
        map[k].0 == pin,
        forall|j: int| 0 <= j < k ==> (#[trigger] map[j]).0 != pin,
    ensures
        spec_lookup_pin(map, pin) == Some(map[k].1),
    decreases k,
{
    if k == 0 {
    } else {
        let tail = map.drop_first();
        assert(tail[k - 1] == map[k]);
        assert(forall|j: int| 0 <= j < k - 1 ==> (#[trigger] tail[j]) == map[j + 1] && tail[j].0
            != pin);
        lemma_lookup_pin_at(tail, pin, k - 1);
    }
}

/// With no matching entry the lookup yields nothing.
proof fn lemma_lookup_pin_none(map: Seq<(u8, u8)>, pin: u8)
    requires
        forall|j: int| 0 <= j < map.len() ==> (#[trigger] map[j]).0 != pin,
    ensures
        spec_lookup_pin(map, pin) is None,
    decreases map.len(),
{
    if map.len() == 0 {
    } else {
        let tail = map.drop_first();
        assert(forall|j: int| 0 <= j < tail.len() ==> (#[trigger] tail[j]) == map[j + 1]
            && tail[j].0 != pin);
        lemma_lookup_pin_none(tail, pin);
    }
}

} // verus!

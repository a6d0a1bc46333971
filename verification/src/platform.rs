//! Platform support for the device under test: the Tock platform record,
//! the software it believes is loaded, and the instrumentation record a
//! rebuild consumes. Invoking the build system and the loader is hardware
//! work done by the surrounding binary; the bookkeeping here is what the
//! executor's decisions rest on.

use vstd::prelude::*;

use crate::testing::clone_strings;

verus! {

/// The platforms the testbed can drive.
#[derive(Copy, Clone, Debug, Eq, PartialEq, Structural)]
pub enum Platform {
    Tock,
}

/// Record of the trace points one firmware build was instrumented for. The
/// file format the build toolchain reads is the concern of the writer; the
/// engine only needs the point list back.
#[derive(Clone, Debug)]
pub struct TraceSpec {
    trace_points: Vec<String>,
}

impl TraceSpec {
    /// The instrumented trace points, in declaration order.
    pub closed spec fn spec_trace_points(self) -> Seq<String> {
        self.trace_points@
    }

    pub fn new(trace_points: &Vec<String>) -> (r: TraceSpec)
        ensures
            r.spec_trace_points() == trace_points@,
    {
        TraceSpec { trace_points: clone_strings(trace_points) }
    }

    pub fn get_trace_points(&self) -> (r: &Vec<String>)
        ensures
            r@ == self.spec_trace_points(),
    {
        &self.trace_points
    }
}

/// Whether some string in `s` spells `x`.
pub open spec fn spec_contains_str(s: Seq<String>, x: Seq<char>) -> bool {
    exists|i: int| 0 <= i < s.len() && (#[trigger] s[i])@ == x
}

/// No two strings in `s` spell the same characters.
pub open spec fn spec_strs_unique(s: Seq<String>) -> bool {
    forall|i: int, j: int| 0 <= i < j < s.len() ==> (#[trigger] s[i])@ != (#[trigger] s[j])@
}

/// Testbed support for the Tock platform: where its loader and kernel
/// sources live, and which applications it believes are loaded.
#[derive(Clone, Debug)]
pub struct Tock {
    tockloader_path: String,
    source_path: String,
    loaded_apps: Vec<String>,
}

impl Tock {
    /// Path to the application loader.
    pub closed spec fn spec_tockloader_path(self) -> Seq<char> {
        self.tockloader_path@
    }

    /// Path to the kernel sources the build runs in.
    pub closed spec fn spec_source_path(self) -> Seq<char> {
        self.source_path@
    }

    /// The applications believed loaded, in load order.
    pub closed spec fn spec_loaded(self) -> Seq<String> {
        self.loaded_apps@
    }

    /// No application is tracked twice.
    pub open spec fn well_formed(self) -> bool {
        spec_strs_unique(self.spec_loaded())
    }

    /// Create a new Tock platform instance with nothing loaded.
    pub fn new(tockloader_path: &str, source_path: &str) -> (r: Tock)
        ensures
            r.spec_tockloader_path() == tockloader_path@,
            r.spec_source_path() == source_path@,
            r.spec_loaded() == Seq::<String>::empty(),
            r.well_formed(),
    {
        Tock {
            tockloader_path: tockloader_path.to_owned(),
            source_path: source_path.to_owned(),
            loaded_apps: Vec::new(),
        }
    }

    /// Which platform this is.
    pub fn platform(&self) -> (r: Platform)
        ensures
            r == Platform::Tock,
    {
        Platform::Tock
    }

    /// Path to the application loader.
    pub fn get_tockloader_path(&self) -> (r: &str)
        ensures
            r@ == self.spec_tockloader_path(),
    {
        self.tockloader_path.as_str()
    }

    /// Path to the kernel sources.
    pub fn get_source_path(&self) -> (r: &str)
        ensures
            r@ == self.spec_source_path(),
    {
        self.source_path.as_str()
    }

    /// The applications believed loaded.
    pub fn loaded_software(&self) -> (r: Vec<String>)
        ensures
            r@ == self.spec_loaded(),
    {
        clone_strings(&self.loaded_apps)
    }

    /// Record that `app_id` was loaded; an already-tracked application is
    /// not tracked twice.
    pub fn note_loaded(&mut self, app_id: &str)
        ensures
            final(self).spec_tockloader_path() == old(self).spec_tockloader_path(),
            final(self).spec_source_path() == old(self).spec_source_path(),
            spec_contains_str(old(self).spec_loaded(), app_id@) ==> final(self).spec_loaded()
                == old(self).spec_loaded(),
            !spec_contains_str(old(self).spec_loaded(), app_id@) ==> final(self).spec_loaded().len()
                == old(self).spec_loaded().len() + 1 && final(self).spec_loaded().last()@
                == app_id@ && final(self).spec_loaded().drop_last() == old(self).spec_loaded(),
            old(self).well_formed() ==> final(self).well_formed(),
    {
        let mut k: usize = 0;
        while k < self.loaded_apps.len()
            invariant
                *self == *old(self),
                k <= self.loaded_apps@.len(),
                forall|j: int| 0 <= j < k ==> (#[trigger] self.loaded_apps@[j])@ != app_id@,
            decreases self.loaded_apps@.len() - k,
        {
            if str_eq(self.loaded_apps[k].as_str(), app_id) {
                assert(spec_contains_str(self.loaded_apps@, app_id@));
                return ;
            }
            k = k + 1;
        }
        proof {
            if spec_contains_str(self.loaded_apps@, app_id@) {
                let w = choose|w: int|
                    0 <= w < self.loaded_apps@.len() && (#[trigger] self.loaded_apps@[w])@
                        == app_id@;
                assert(false);
            }
        }
        self.loaded_apps.push(app_id.to_owned());
    }

    /// Whether `app_id` is believed loaded. The caller asks this before
    /// invoking the loader: nothing needs removing that is not there.
    pub fn is_loaded(&self, app_id: &str) -> (r: bool)
        ensures
            r == spec_contains_str(self.spec_loaded(), app_id@),
    {
        let mut k: usize = 0;
        while k < self.loaded_apps.len()
            invariant
                k <= self.loaded_apps@.len(),
                forall|j: int| 0 <= j < k ==> (#[trigger] self.loaded_apps@[j])@ != app_id@,
            decreases self.loaded_apps@.len() - k,
        {
            if str_eq(self.loaded_apps[k].as_str(), app_id) {
                assert(spec_contains_str(self.loaded_apps@, app_id@));
                return true;
            }
            k = k + 1;
        }
        proof {
            if spec_contains_str(self.loaded_apps@, app_id@) {
                let w = choose|w: int|
                    0 <= w < self.loaded_apps@.len() && (#[trigger] self.loaded_apps@[w])@
                        == app_id@;
                assert(false);
            }
        }
        false
    }

    /// Commit a successful uninstall: forget the tracked application. The
    /// caller makes this call only after the loader removed the application;
    /// on a refused uninstall the application stays tracked, so it remains a
    /// leftover in `loaded_software`. Reports whether it was present.
    pub fn note_unloaded(&mut self, app_id: &str) -> (was_present: bool)
        ensures
            final(self).spec_tockloader_path() == old(self).spec_tockloader_path(),
            final(self).spec_source_path() == old(self).spec_source_path(),
            was_present == spec_contains_str(old(self).spec_loaded(), app_id@),
            !was_present ==> final(self).spec_loaded() == old(self).spec_loaded(),
            was_present ==> exists|i: int|
                0 <= i < old(self).spec_loaded().len() && (#[trigger] old(self).spec_loaded()[
                i])@ == app_id@ && final(self).spec_loaded() == old(self).spec_loaded().remove(i),
            old(self).well_formed() ==> final(self).well_formed(),
            old(self).well_formed() ==> !spec_contains_str(final(self).spec_loaded(), app_id@),
    {
        let ghost orig = self.loaded_apps@;
        let mut k: usize = 0;
        while k < self.loaded_apps.len()
            invariant
                orig == old(self).loaded_apps@,
                self.loaded_apps@ == orig,
                self.tockloader_path == old(self).tockloader_path,
                self.source_path == old(self).source_path,
                k <= orig.len(),
                forall|j: int| 0 <= j < k ==> (#[trigger] orig[j])@ != app_id@,
            decreases orig.len() - k,
        {
            if str_eq(self.loaded_apps[k].as_str(), app_id) {
                self.loaded_apps.remove(k);
                proof {
                    assert(orig[k as int]@ == app_id@);
                    assert(self.loaded_apps@ == orig.remove(k as int));
                    assert(self.loaded_apps@.len() == orig.len() - 1);
                    assert(forall|x: int|
                        0 <= x < k ==> #[trigger] self.loaded_apps@[x] == orig[x]);
                    assert(forall|x: int|
                        k <= x < orig.len() - 1 ==> #[trigger] self.loaded_apps@[x] == orig[x
                            + 1]);
                    if old(self).well_formed() {
                        assert(spec_strs_unique(orig));
                        assert forall|i: int, j: int|
                            0 <= i < j < self.loaded_apps@.len() implies (
                        #[trigger] self.loaded_apps@[i])@ != (#[trigger] self.loaded_apps@[j])@ by {
                            let oi: int = if i < k { i } else { i + 1 };
                            let oj: int = if j < k { j } else { j + 1 };
                            assert(self.loaded_apps@[i] == orig[oi]);
                            assert(self.loaded_apps@[j] == orig[oj]);
                        }
                        if spec_contains_str(self.loaded_apps@, app_id@) {
                            let w = choose|w: int|
                                0 <= w < self.loaded_apps@.len() && (
                                #[trigger] self.loaded_apps@[w])@ == app_id@;
                            let ow: int = if w < k { w } else { w + 1 };
                            assert(orig[ow]@ == app_id@);
                            assert(false);
                        }
                    }
                }
                return true;
            }
            k = k + 1;
        }
        proof {
            if spec_contains_str(orig, app_id@) {
                let w = choose|w: int| 0 <= w < orig.len() && (#[trigger] orig[w])@ == app_id@;
                assert(false);
            }
        }
        false
    }
}

/// Whether two string slices spell the same characters.
pub fn str_eq(a: &str, b: &str) -> (r: bool)
    ensures
        r == (a@ == b@),
{
    let x: String = a.to_owned();
    let y: String = b.to_owned();
    x == y
}

} // verus!

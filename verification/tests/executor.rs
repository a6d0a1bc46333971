use clockwise::csv::CSVDataWriter;
use clockwise::error::Error;
use clockwise::io::Mapping;
use clockwise::platform::{Platform, Tock, TraceSpec};
use clockwise::testbed::{group_energy, load_plan, Evaluation, Outcome, Testbed, TestOutcome};
use clockwise::testing::{Criterion, Execution, Operation, Response, Signal, Test};

const SETTLE: u64 = 1_000;
const FRAME_GAP: u64 = 4_000;

fn strings(xs: &[&str]) -> Vec<String> {
    xs.iter().map(|x| x.to_string()).collect()
}

fn simple_testbed() -> Testbed {
    // drives pin 5; observes pins 0, 1 and 2; pins 0 and 1 carry the trace
    let mapping = Mapping::new(
        vec![5],
        vec![0, 1, 2],
        vec![0, 1],
        vec![(0, 0), (1, 1), (2, 2), (5, 5)],
    )
    .unwrap();
    Testbed::new(mapping, strings(&["system"]), SETTLE, FRAME_GAP)
}

#[test]
fn single_pulse_no_tracing() {
    // one pulse on pin 5, no apps, no trace points, no criteria
    let ops = vec![
        Operation { time: 0, input: Signal::High(5) },
        Operation { time: 10, input: Signal::Low(5) },
    ];
    let test = Test::new("t1", &ops, &Vec::new());
    let plan = test.stimulus_plan(1_000_000);
    assert_eq!(plan.len(), 2);
    assert_eq!(plan[0], (1_000_000, Signal::High(5)));
    assert_eq!(plan[1], (1_010_000, Signal::Low(5)));

    let testbed = simple_testbed();
    let outcome = TestOutcome::Ran {
        trace_spec: TraceSpec::new(&Vec::new()),
        execution: Execution::new(1_000_000, 10_123),
        responses: Vec::new(),
        energy_samples: Vec::new(),
    };
    let ev = testbed.assemble_evaluation(&test, outcome);
    assert_eq!(ev.get_test_id(), "t1");
    match ev.get_outcome() {
        Outcome::Completed { execution, gpio_responses, traces, energy } => {
            assert!(execution.get_duration() >= 10_000);
            assert_eq!(gpio_responses.len(), 0);
            assert_eq!(traces.len(), 0);
            assert_eq!(energy.len(), 0);
        },
        Outcome::Failed(_) => panic!("the pulse test must complete"),
    }
}

#[test]
fn empty_action_list_runs() {
    let test = Test::new("empty", &Vec::new(), &Vec::new());
    assert_eq!(test.stimulus_plan(77).len(), 0);
    let testbed = simple_testbed();
    let outcome = TestOutcome::Ran {
        trace_spec: TraceSpec::new(&Vec::new()),
        execution: Execution::new(77, 0),
        responses: Vec::new(),
        energy_samples: Vec::new(),
    };
    let ev = testbed.assemble_evaluation(&test, outcome);
    match ev.get_outcome() {
        Outcome::Completed { execution, gpio_responses, .. } => {
            assert_eq!(execution.get_duration(), 0);
            assert_eq!(gpio_responses.len(), 0);
        },
        Outcome::Failed(_) => panic!("an empty timeline must succeed"),
    }
}

#[test]
fn responses_split_from_trace_edges() {
    // trace edges feed the reconstructor; other pins are reported, and all
    // reported responses sit at or after the execution start
    let test = Test::new("split", &Vec::new(), &Vec::new());
    let testbed = simple_testbed();
    let outcome = TestOutcome::Ran {
        trace_spec: TraceSpec::new(&Vec::new()),
        execution: Execution::new(5_000, 60_000),
        responses: vec![
            Response { time: 10_000, output: Signal::High(0) },
            Response { time: 10_020, output: Signal::High(1) },
            Response { time: 30_000, output: Signal::High(2) },
        ],
        energy_samples: Vec::new(),
    };
    let ev = testbed.assemble_evaluation(&test, outcome);
    match ev.get_outcome() {
        Outcome::Completed { gpio_responses, traces, execution, .. } => {
            assert_eq!(gpio_responses.len(), 1);
            assert_eq!(gpio_responses[0].get_pin(), 2);
            for r in gpio_responses {
                assert!(r.time >= execution.get_start());
            }
            assert_eq!(traces.len(), 1);
            assert_eq!(traces[0].time, 10_000);
            assert_eq!(traces[0].data, vec![0b11u8]);
            // no trace points declared: the frame keeps the raw label
            assert_eq!(traces[0].label, "?");
        },
        Outcome::Failed(_) => panic!("the split test must complete"),
    }
}

#[test]
fn unknown_response_pin_fails_the_test() {
    let test = Test::new("stray", &Vec::new(), &Vec::new());
    let testbed = simple_testbed();
    let outcome = TestOutcome::Ran {
        trace_spec: TraceSpec::new(&Vec::new()),
        execution: Execution::new(0, 0),
        responses: vec![Response { time: 1, output: Signal::High(9) }],
        energy_samples: Vec::new(),
    };
    let ev = testbed.assemble_evaluation(&test, outcome);
    assert!(matches!(ev.get_outcome(), Outcome::Failed(Error::UnknownPin(9))));
}

#[test]
fn reconfig_failure_keeps_run_going() {
    // the first test fails to reconfigure; the second still runs
    let tests = vec![
        Test::new("t1", &Vec::new(), &Vec::new()),
        Test::new("t2", &Vec::new(), &Vec::new()),
    ];
    let outcomes = vec![
        TestOutcome::ReconfigFailed(Error::Software("build failed".to_string())),
        TestOutcome::Ran {
            trace_spec: TraceSpec::new(&Vec::new()),
            execution: Execution::new(0, 1),
            responses: Vec::new(),
            energy_samples: Vec::new(),
        },
    ];
    let testbed = simple_testbed();
    let evals = testbed.evaluate_run(&tests, outcomes);
    assert_eq!(evals.len(), 2);
    assert_eq!(evals[0].get_test_id(), "t1");
    assert_eq!(evals[1].get_test_id(), "t2");
    assert!(matches!(evals[0].get_outcome(), Outcome::Failed(Error::Software(_))));
    assert!(matches!(evals[1].get_outcome(), Outcome::Completed { .. }));
}

#[test]
fn evaluations_in_input_order() {
    let tests = vec![
        Test::new("a", &Vec::new(), &Vec::new()),
        Test::new("b", &Vec::new(), &Vec::new()),
        Test::new("c", &Vec::new(), &Vec::new()),
    ];
    let outcomes = vec![
        TestOutcome::ReconfigFailed(Error::IO("lost".to_string())),
        TestOutcome::LoadFailed(TraceSpec::new(&Vec::new()), Error::Software("no app".to_string())),
        TestOutcome::ReconfigFailed(Error::Software("again".to_string())),
    ];
    let evals = simple_testbed().evaluate_run(&tests, outcomes);
    let ids: Vec<&str> = evals.iter().map(|e| e.get_test_id()).collect();
    assert_eq!(ids, vec!["a", "b", "c"]);
}

#[test]
fn app_reconciliation() {
    // loaded {A, B}, next test needs {B, C}: unload A, load C
    let mut tock = Tock::new("/usr/bin/tockloader", "/src/tock");
    assert_eq!(tock.platform(), Platform::Tock);
    tock.note_loaded("A");
    tock.note_loaded("B");
    let loaded = tock.loaded_software();
    let apps = strings(&["B", "C"]);
    let (to_unload, to_load) = load_plan(&loaded, &apps);
    assert_eq!(to_unload, strings(&["A"]));
    assert_eq!(to_load, strings(&["C"]));
    for app in &to_unload {
        assert!(tock.note_unloaded(app));
    }
    for app in &to_load {
        tock.note_loaded(app);
    }
    let after = tock.loaded_software();
    assert_eq!(after, strings(&["B", "C"]));
}

#[test]
fn refused_unload_leaves_leftover() {
    // loaded {A, B}; the test needs {B, C}; the platform refuses to unload
    // A, so no commit happens for it: the tracked set ends as the test's
    // apps plus the refused leftover
    let mut tock = Tock::new("tl", "src");
    tock.note_loaded("A");
    tock.note_loaded("B");
    let (to_unload, to_load) = load_plan(&tock.loaded_software(), &strings(&["B", "C"]));
    for app in &to_unload {
        // the uninstall tool would run here and fail; without its success
        // there is nothing to commit, and the app stays tracked
        assert!(tock.is_loaded(app));
    }
    for app in &to_load {
        tock.note_loaded(app);
    }
    assert_eq!(tock.loaded_software(), strings(&["A", "B", "C"]));
}

#[test]
fn note_loaded_is_idempotent() {
    let mut tock = Tock::new("tl", "src");
    tock.note_loaded("A");
    tock.note_loaded("A");
    assert_eq!(tock.loaded_software(), strings(&["A"]));
    assert!(!tock.note_unloaded("B"));
    assert!(tock.note_unloaded("A"));
    assert_eq!(tock.loaded_software().len(), 0);
}

#[test]
fn missing_meter_is_reported() {
    let testbed = simple_testbed();
    let criteria = vec![Criterion::Energy("missing".to_string())];
    let test = Test::new("meter", &Vec::new(), &criteria);
    match testbed.check_meters(&test) {
        Err(Error::NoSuchMeter(id)) => assert_eq!(id, "missing"),
        _ => panic!("an unknown meter must be refused"),
    }
    let good = Test::new("ok", &Vec::new(), &vec![Criterion::Energy("system".to_string())]);
    assert!(testbed.check_meters(&good).is_ok());
}

#[test]
fn prep_observe_and_prep_meter() {
    let criteria = vec![Criterion::Response(9), Criterion::Response(4)];
    let test = Test::new("obs", &Vec::new(), &criteria);
    let mut pins = test.prep_observe(&vec![4, 5]);
    pins.sort();
    assert_eq!(pins, vec![4, 5, 9]);
    assert!(!test.prep_meter());
    let metered = Test::new("m", &Vec::new(), &vec![Criterion::Energy("system".to_string())]);
    assert!(metered.prep_meter());
}

#[test]
fn actions_sorted_by_time() {
    let ops = vec![
        Operation { time: 30, input: Signal::Low(5) },
        Operation { time: 10, input: Signal::High(5) },
        Operation { time: 20, input: Signal::High(6) },
        Operation { time: 10, input: Signal::Low(6) },
    ];
    let test = Test::new("sorted", &ops, &Vec::new());
    let times: Vec<u64> = test.get_actions().iter().map(|op| op.time).collect();
    assert_eq!(times, vec![10, 10, 20, 30]);
    // ties keep arrival order
    assert_eq!(test.get_actions()[0].input, Signal::High(5));
    assert_eq!(test.get_actions()[1].input, Signal::Low(6));
}

#[test]
fn energy_samples_grouped_per_meter() {
    let samples = vec![
        ("m1".to_string(), (1u64, 10u32)),
        ("m2".to_string(), (2, 20)),
        ("m1".to_string(), (3, 30)),
    ];
    let grouped = group_energy(&samples);
    assert_eq!(grouped.len(), 2);
    assert_eq!(grouped[0].0, "m1");
    assert_eq!(grouped[0].1, vec![(1, 10), (3, 30)]);
    assert_eq!(grouped[1].0, "m2");
    assert_eq!(grouped[1].1, vec![(2, 20)]);
}

#[test]
fn mapping_refuses_unknown_pins() {
    let mapping = Mapping::new(vec![5], vec![0, 1], vec![0], vec![(0, 0)]).unwrap();
    assert_eq!(mapping.get_output(5).unwrap(), 5);
    assert!(matches!(mapping.get_output(9), Err(Error::UnknownPin(9))));
    assert_eq!(mapping.get_input(1).unwrap(), 1);
    assert!(matches!(mapping.get_input(7), Err(Error::UnknownPin(7))));
    assert_eq!(mapping.trace_pin_order(), &vec![0]);
    // a trace pin that is not observed is refused at construction
    assert!(matches!(
        Mapping::new(vec![5], vec![0, 1], vec![3], vec![]),
        Err(Error::UnknownPin(3))
    ));
}

#[test]
fn remap_translates_physical_pins() {
    let mapping = Mapping::new(vec![], vec![8, 9], vec![], vec![(8, 0), (9, 1)]).unwrap();
    let r = mapping.remap(&Response { time: 4, output: Signal::High(9) }).unwrap();
    assert_eq!(r.time, 4);
    assert_eq!(r.output, Signal::High(1));
    assert!(matches!(
        mapping.remap(&Response { time: 4, output: Signal::Low(3) }),
        Err(Error::UnknownPin(3))
    ));
}

#[test]
fn failed_evaluation_keeps_spec_and_error() {
    let test = Test::new("f", &Vec::new(), &Vec::new());
    let ev = Evaluation::failed(&test, None, Error::Threading("spawn".to_string()));
    assert_eq!(ev.get_test_id(), "f");
    assert!(ev.get_trace_spec().is_none());
    assert!(matches!(ev.get_outcome(), Outcome::Failed(Error::Threading(_))));
}

#[test]
fn csv_lines_rendered_exactly() {
    let mut writer = CSVDataWriter::new("/tmp/data");
    assert_eq!(writer.get_base_path(), "/tmp/data");
    let header = writer.write_header(&strings(&["time", "energy_mw"]));
    assert_eq!(header, "time,energy_mw\n");
    let row = writer.write_columns(&strings(&["123", "4.5"])).unwrap();
    assert_eq!(row, "123,4.5\n");
    assert!(writer.write_columns(&strings(&["only-one"])).is_err());
}

#[test]
fn trace_spec_carries_points() {
    let points = strings(&["alloc", "free"]);
    let spec_record = TraceSpec::new(&points);
    assert_eq!(spec_record.get_trace_points(), &points);
}

use timetrackrs::capture::pc_common::{Process, Window};
use timetrackrs::scripting::interpreter::{
    Capture, Executable, ExecFailure, Instruction, Node, PrintArg, Program, Rule, World,
};
use timetrackrs::scripting::interpreter::seed_environment;
use timetrackrs::scripting::parser::{parse, ParseError};
use timetrackrs::scripting::value::{Variable, VariableMap};
use timetrackrs::util::OsInfo;

fn run_script(script: &str, env: &mut VariableMap, world: &mut World) -> Program {
    let program = parse(script).expect("script should parse");
    program.execute_tick(env, world);
    program
}

#[test]
fn interval_seconds() {
    let program = parse("EVERY 5 SECONDS\n").unwrap();
    assert_eq!(program.interval_ms, 5000);
}

#[test]
fn interval_hours() {
    let program = parse("EVERY 2 HOURS\n").unwrap();
    assert_eq!(program.interval_ms, 7200000);
}

#[test]
fn interval_milliseconds_and_minutes() {
    assert_eq!(parse("EVERY 250 MILLISECONDS\n").unwrap().interval_ms, 250);
    assert_eq!(parse("EVERY 3 MINUTES\n").unwrap().interval_ms, 180000);
}

#[test]
fn interval_last_every_wins() {
    let program = parse("EVERY 5 SECONDS\nEVERY 2 SECONDS\n").unwrap();
    assert_eq!(program.interval_ms, 2000);
}

#[test]
fn invalid_unit_names_line() {
    assert!(matches!(
        parse("EVERY 5 FORTNIGHTS\n"),
        Err(ParseError::BadUnit { line: 1 })
    ));
    assert!(matches!(
        parse("PRINT \"x\"\nEVERY 5 FORTNIGHTS\n"),
        Err(ParseError::BadUnit { line: 2 })
    ));
}

#[test]
fn every_line_errors() {
    assert!(matches!(parse("EVERY\n"), Err(ParseError::MissingAmount { line: 1 })));
    assert!(matches!(parse("EVERY 5\n"), Err(ParseError::MissingUnit { line: 1 })));
    assert!(matches!(
        parse("EVERY five SECONDS\n"),
        Err(ParseError::BadAmount { line: 1 })
    ));
    assert!(matches!(
        parse("EVERY 99999999999999999999999999 SECONDS\n"),
        Err(ParseError::BadAmount { line: 1 })
    ));
}

#[test]
fn missing_every_fails() {
    assert!(matches!(parse("PRINT \"hi\"\n"), Err(ParseError::MissingEvery)));
    assert!(matches!(parse(""), Err(ParseError::MissingEvery)));
}

#[test]
fn parse_failure_spawns_nothing() {
    // A script without an EVERY line never yields a program to schedule.
    let r = parse("IF X EQ \"1\"\nPRINT \"y\"\nEND\n");
    assert!(r.is_err());
}

#[test]
fn print_literal_each_tick() {
    let program = parse("EVERY 1 SECONDS\nPRINT \"hi\"\n").unwrap();
    assert_eq!(program.interval_ms, 1000);
    let mut env = VariableMap::new();
    let mut world = World::new();
    // Three sleeps of one second each make three ticks in three seconds.
    for _ in 0..3 {
        program.execute_tick(&mut env, &mut world);
    }
    assert_eq!(world.outputs.len(), 3);
    for line in &world.outputs {
        assert_eq!(line.as_str(), "hi");
    }
}

#[test]
fn print_variable_renders_value() {
    let mut env = VariableMap::new();
    env.insert("N", Variable::Int(42));
    let mut world = World::new();
    run_script("EVERY 1 SECONDS\nPRINT N\n", &mut env, &mut world);
    assert_eq!(world.outputs.len(), 1);
    assert_eq!(world.outputs[0].as_str(), "42");
}

#[test]
fn print_missing_variable_logged() {
    let mut env = VariableMap::new();
    let mut world = World::new();
    run_script("EVERY 1 SECONDS\nPRINT GHOST\n", &mut env, &mut world);
    assert_eq!(world.outputs.len(), 0);
    assert_eq!(world.failures, vec![ExecFailure::MissingVariable]);
}

#[test]
fn equality_coercion_matches() {
    let mut env = VariableMap::new();
    env.insert("X", Variable::Int(3));
    let mut world = World::new();
    run_script("EVERY 1 SECONDS\nIF X EQ \"3\"\nPRINT \"yes\"\nEND\n", &mut env, &mut world);
    assert_eq!(world.outputs.len(), 1);
    assert_eq!(world.outputs[0].as_str(), "yes");
}

#[test]
fn equality_coercion_rejects() {
    let mut env = VariableMap::new();
    env.insert("X", Variable::Int(3));
    let mut world = World::new();
    run_script("EVERY 1 SECONDS\nIF X EQ \"4\"\nPRINT \"yes\"\nEND\n", &mut env, &mut world);
    assert_eq!(world.outputs.len(), 0);
    assert_eq!(world.failures, vec![ExecFailure::NoBranchMatched]);
}

#[test]
fn disjunction_matches_either_group() {
    let script = "EVERY 1 SECONDS\nIF A EQ \"1\" OR B EQ \"2\"\nPRINT \"hit\"\nEND\n";
    let mut env = VariableMap::new();
    env.insert("A", Variable::Int(9));
    env.insert("B", Variable::Int(2));
    let mut world = World::new();
    run_script(script, &mut env, &mut world);
    assert_eq!(world.outputs.len(), 1);

    let mut env2 = VariableMap::new();
    env2.insert("A", Variable::Int(1));
    env2.insert("B", Variable::Int(9));
    let mut world2 = World::new();
    run_script(script, &mut env2, &mut world2);
    assert_eq!(world2.outputs.len(), 1);
}

#[test]
fn conjunction_needs_every_comparison() {
    // Two comparisons in one group conjoin: one false group must not match.
    let script = "EVERY 1 SECONDS\nIF A EQ \"1\" B EQ \"2\"\nPRINT \"hit\"\nEND\n";
    let mut env = VariableMap::new();
    env.insert("A", Variable::Int(1));
    env.insert("B", Variable::Int(3));
    let mut world = World::new();
    run_script(script, &mut env, &mut world);
    assert_eq!(world.outputs.len(), 0);

    let mut env2 = VariableMap::new();
    env2.insert("A", Variable::Int(1));
    env2.insert("B", Variable::Int(2));
    let mut world2 = World::new();
    run_script(script, &mut env2, &mut world2);
    assert_eq!(world2.outputs.len(), 1);
}

#[test]
fn not_eq_negates() {
    let script = "EVERY 1 SECONDS\nIF X NOT EQ \"5\"\nPRINT \"ne\"\nEND\n";
    let mut env = VariableMap::new();
    env.insert("X", Variable::Int(4));
    let mut world = World::new();
    run_script(script, &mut env, &mut world);
    assert_eq!(world.outputs.len(), 1);

    let mut env2 = VariableMap::new();
    env2.insert("X", Variable::Int(5));
    let mut world2 = World::new();
    run_script(script, &mut env2, &mut world2);
    assert_eq!(world2.outputs.len(), 0);
}

#[test]
fn elseif_and_else_branches() {
    let script = "EVERY 1 SECONDS\nIF X EQ \"1\"\nPRINT \"one\"\nELSEIF X EQ \"2\"\nPRINT \"two\"\nELSE\nPRINT \"other\"\nEND\n";
    for (value, expected) in [(1usize, "one"), (2, "two"), (9, "other")] {
        let mut env = VariableMap::new();
        env.insert("X", Variable::Int(value));
        let mut world = World::new();
        run_script(script, &mut env, &mut world);
        assert_eq!(world.outputs.len(), 1);
        assert_eq!(world.outputs[0].as_str(), expected);
    }
}

#[test]
fn bigger_and_lesser() {
    let script = "EVERY 1 SECONDS\nIF X BIGGER \"10\"\nPRINT \"big\"\nELSEIF X LESSER \"5\"\nPRINT \"small\"\nELSE\nPRINT \"mid\"\nEND\n";
    for (value, expected) in [(20usize, "big"), (3, "small"), (7, "mid")] {
        let mut env = VariableMap::new();
        env.insert("X", Variable::Int(value));
        let mut world = World::new();
        run_script(script, &mut env, &mut world);
        assert_eq!(world.outputs[0].as_str(), expected);
    }
}

#[test]
fn bigger_across_numeric_kinds() {
    let script = "EVERY 1 SECONDS\nIF A BIGGER B\nPRINT \"gt\"\nEND\n";
    let mut env = VariableMap::new();
    env.insert("A", Variable::Counter64(8));
    env.insert("B", Variable::Int(5));
    let mut world = World::new();
    run_script(script, &mut env, &mut world);
    assert_eq!(world.outputs.len(), 1);
}

#[test]
fn in_array_membership() {
    let script = "EVERY 1 SECONDS\nIF X IN [\"a\", \"b\"]\nPRINT \"member\"\nEND\n";
    let mut env = VariableMap::new();
    env.insert("X", Variable::Text("b".to_owned()));
    let mut world = World::new();
    run_script(script, &mut env, &mut world);
    assert_eq!(world.outputs.len(), 1);

    let mut env2 = VariableMap::new();
    env2.insert("X", Variable::Text("c".to_owned()));
    let mut world2 = World::new();
    run_script(script, &mut env2, &mut world2);
    assert_eq!(world2.outputs.len(), 0);
}

#[test]
fn not_in_array() {
    let script = "EVERY 1 SECONDS\nIF X NOT IN [\"a\", \"b\"]\nPRINT \"out\"\nEND\n";
    let mut env = VariableMap::new();
    env.insert("X", Variable::Text("c".to_owned()));
    let mut world = World::new();
    run_script(script, &mut env, &mut world);
    assert_eq!(world.outputs.len(), 1);
}

#[test]
fn in_list_variable() {
    let script = "EVERY 1 SECONDS\nIF \"7\" IN NUMBERS\nPRINT \"held\"\nEND\n";
    let mut env = VariableMap::new();
    env.insert(
        "NUMBERS",
        Variable::List(vec![Variable::Int(5), Variable::Int(7)]),
    );
    let mut world = World::new();
    run_script(script, &mut env, &mut world);
    assert_eq!(world.outputs.len(), 1);
}

#[test]
fn match_regex() {
    let script = "EVERY 1 SECONDS\nIF NAME MATCH \"^fire\"\nPRINT \"matched\"\nEND\n";
    let mut env = VariableMap::new();
    env.insert("NAME", Variable::Text("firefox".to_owned()));
    let mut world = World::new();
    run_script(script, &mut env, &mut world);
    assert_eq!(world.outputs.len(), 1);

    let mut env2 = VariableMap::new();
    env2.insert("NAME", Variable::Text("chromium".to_owned()));
    let mut world2 = World::new();
    run_script(script, &mut env2, &mut world2);
    assert_eq!(world2.outputs.len(), 0);
}

#[test]
fn match_in_pattern_array() {
    let script = "EVERY 1 SECONDS\nIF NAME MATCH IN [\"^a\", \"fox$\"]\nPRINT \"matched\"\nEND\n";
    let mut env = VariableMap::new();
    env.insert("NAME", Variable::Text("firefox".to_owned()));
    let mut world = World::new();
    run_script(script, &mut env, &mut world);
    assert_eq!(world.outputs.len(), 1);
}

#[test]
fn bad_regex_is_fatal() {
    assert!(matches!(
        parse("EVERY 1 SECONDS\nIF NAME MATCH \"(\"\nPRINT \"x\"\nEND\n"),
        Err(ParseError::BadRegex { line: 2 })
    ));
}

#[test]
fn bad_array_is_fatal() {
    assert!(matches!(
        parse("EVERY 1 SECONDS\nIF X IN [a, b]\nPRINT \"x\"\nEND\n"),
        Err(ParseError::BadArray { line: 2 })
    ));
}

#[test]
fn malformed_comparison_is_fatal() {
    assert!(matches!(
        parse("EVERY 1 SECONDS\nIF EQ \"1\"\nPRINT \"x\"\nEND\n"),
        Err(ParseError::MalformedComparison { line: 2 })
    ));
}

#[test]
fn unterminated_block_is_fatal() {
    assert!(matches!(
        parse("EVERY 1 SECONDS\nIF X EQ \"1\"\nPRINT \"x\"\n"),
        Err(ParseError::UnterminatedBlock { line: 2 })
    ));
    assert!(matches!(
        parse("EVERY 1 SECONDS\nITERATE ROWS\nPRINT \"x\"\n"),
        Err(ParseError::UnterminatedBlock { line: 2 })
    ));
}

#[test]
fn print_without_argument_is_fatal() {
    assert!(matches!(
        parse("EVERY 1 SECONDS\nPRINT\n"),
        Err(ParseError::MissingArgument { line: 2 })
    ));
    assert!(matches!(
        parse("EVERY 1 SECONDS\nITERATE\nEND\n"),
        Err(ParseError::MissingArgument { line: 2 })
    ));
}

#[test]
fn unknown_keyword_is_skipped() {
    let mut env = VariableMap::new();
    let mut world = World::new();
    let program = run_script(
        "EVERY 1 SECONDS\nFROBNICATE \"x\"\nPRINT \"ok\"\n",
        &mut env,
        &mut world,
    );
    assert_eq!(program.body.len(), 1);
    assert_eq!(world.outputs.len(), 1);
    assert_eq!(world.outputs[0].as_str(), "ok");
}

#[test]
fn iteration_binds_fields_in_order() {
    let mut record_a = VariableMap::new();
    record_a.insert("N", Variable::Text("a".to_owned()));
    let mut record_b = VariableMap::new();
    record_b.insert("N", Variable::Text("b".to_owned()));
    let mut env = VariableMap::new();
    env.insert(
        "ROWS",
        Variable::List(vec![Variable::Record(record_a), Variable::Record(record_b)]),
    );
    let mut world = World::new();
    run_script("EVERY 1 SECONDS\nITERATE ROWS\nPRINT N\nEND\n", &mut env, &mut world);
    assert_eq!(world.outputs.len(), 2);
    assert_eq!(world.outputs[0].as_str(), "a");
    assert_eq!(world.outputs[1].as_str(), "b");
    // The last element's fields stay in the store.
    match env.get("N") {
        Some(Variable::Text(t)) => assert_eq!(t.as_str(), "b"),
        other => panic!("N should stay bound to a text, found {:?}", other.is_some()),
    }
}

#[test]
fn iteration_failures_logged() {
    let mut env = VariableMap::new();
    let mut world = World::new();
    run_script("EVERY 1 SECONDS\nITERATE ROWS\nPRINT N\nEND\n", &mut env, &mut world);
    assert_eq!(world.failures, vec![ExecFailure::MissingVariable]);

    let mut env2 = VariableMap::new();
    env2.insert("ROWS", Variable::Int(3));
    let mut world2 = World::new();
    run_script("EVERY 1 SECONDS\nITERATE ROWS\nPRINT N\nEND\n", &mut env2, &mut world2);
    assert_eq!(world2.failures, vec![ExecFailure::NotAList]);

    let mut env3 = VariableMap::new();
    env3.insert("ROWS", Variable::List(vec![Variable::Int(1)]));
    let mut world3 = World::new();
    run_script("EVERY 1 SECONDS\nITERATE ROWS\nPRINT N\nEND\n", &mut env3, &mut world3);
    assert_eq!(world3.failures, vec![ExecFailure::ElementNotARecord]);
}

#[test]
fn counters_reset_by_save() {
    let mut env = VariableMap::new();
    let rule = Rule { id: "r1".to_owned(), body: "...".to_owned() };
    let os = OsInfo::default();
    seed_environment(&mut env, &rule, &os);
    let mut world = World::new();
    world.keystrokes = 7;
    world.mouse_clicks = 3;
    world.capture = Some(Capture { windows: vec![], seconds_since_last_input: 5 });
    run_script(
        "EVERY 1 SECONDS\nGET_WINDOWS\nSAVE_TO_DB\nGET_PERIPHERALS\n",
        &mut env,
        &mut world,
    );
    assert_eq!(world.events.len(), 1);
    assert_eq!(world.events[0].keyboard, 7);
    assert_eq!(world.events[0].mouse, 3);
    assert!(world.counters_reset);
    // Until new key or click events arrive, the counters read zero.
    match env.get("KEYSTROKES") {
        Some(Variable::Int(n)) => assert_eq!(*n, 0),
        _ => panic!("KEYSTROKES should be a number"),
    }
    match env.get("MOUSE_CLICKS") {
        Some(Variable::Int(n)) => assert_eq!(*n, 0),
        _ => panic!("MOUSE_CLICKS should be a number"),
    }
    // New events raise the counters again for the next read.
    world.keystrokes = 2;
    let program = parse("EVERY 1 SECONDS\nGET_PERIPHERALS\n").unwrap();
    program.execute_tick(&mut env, &mut world);
    match env.get("KEYSTROKES") {
        Some(Variable::Int(n)) => assert_eq!(*n, 2),
        _ => panic!("KEYSTROKES should be a number"),
    }
}

#[test]
fn save_without_windows_logged() {
    let mut env = VariableMap::new();
    let rule = Rule { id: "r1".to_owned(), body: "...".to_owned() };
    seed_environment(&mut env, &rule, &OsInfo::default());
    let mut world = World::new();
    run_script("EVERY 1 SECONDS\nSAVE_TO_DB\n", &mut env, &mut world);
    assert_eq!(world.events.len(), 0);
    assert_eq!(world.failures, vec![ExecFailure::MissingEventField]);
}

#[test]
fn network_ssid_written_when_known() {
    let mut env = VariableMap::new();
    let mut world = World::new();
    world.network_ssid = Some("cafe".to_owned());
    run_script("EVERY 1 SECONDS\nGET_NETWORK_SSID\n", &mut env, &mut world);
    match env.get("NETWORK_SSID") {
        Some(Variable::Text(t)) => assert_eq!(t.as_str(), "cafe"),
        _ => panic!("NETWORK_SSID should be a text"),
    }
}

#[test]
fn capture_screen_appends_references() {
    let mut env = VariableMap::new();
    let mut world = World::new();
    world.screenshots = Some(vec!["shot-1".to_owned()]);
    run_script("EVERY 1 SECONDS\nCAPTURE_SCREEN \"PRIMARY\"\n", &mut env, &mut world);
    match env.get("SCREENSHOTS") {
        Some(Variable::List(items)) => assert_eq!(items.len(), 1),
        _ => panic!("SCREENSHOTS should be a list"),
    }
    // A second capture appends.
    let program = parse("EVERY 1 SECONDS\nCAPTURE_SCREEN \"ALL\"\n").unwrap();
    program.execute_tick(&mut env, &mut world);
    match env.get("SCREENSHOTS") {
        Some(Variable::List(items)) => assert_eq!(items.len(), 2),
        _ => panic!("SCREENSHOTS should be a list"),
    }
}

#[test]
fn save_clears_screenshots() {
    let mut env = VariableMap::new();
    let rule = Rule { id: "r1".to_owned(), body: "b".to_owned() };
    seed_environment(&mut env, &rule, &OsInfo::default());
    env.insert("SECONDS_SINCE_LAST_INPUT", Variable::Counter64(4));
    env.insert("WINDOWS", Variable::List(vec![]));
    let mut world = World::new();
    world.screenshots = Some(vec!["shot-1".to_owned()]);
    run_script(
        "EVERY 1 SECONDS\nCAPTURE_SCREEN \"ALL\"\nSAVE_TO_DB\n",
        &mut env,
        &mut world,
    );
    assert_eq!(world.events.len(), 1);
    match &world.events[0].screenshots {
        Some(refs) => assert_eq!(refs.len(), 1),
        None => panic!("the event should carry the screenshot references"),
    }
    match env.get("SCREENSHOTS") {
        Some(Variable::List(items)) => assert_eq!(items.len(), 0),
        _ => panic!("SCREENSHOTS should be an empty list after saving"),
    }
}

#[test]
fn seeding_fills_host_constants() {
    let mut env = VariableMap::new();
    let rule = Rule { id: "rule-7".to_owned(), body: "EVERY 1 SECONDS\n".to_owned() };
    seed_environment(&mut env, &rule, &OsInfo::default());
    match env.get("RULE_ID") {
        Some(Variable::Text(t)) => assert_eq!(t.as_str(), "rule-7"),
        _ => panic!("RULE_ID should be a text"),
    }
    match env.get("OS_TYPE") {
        Some(Variable::Text(t)) => assert_eq!(t.as_str(), "Arch Linux"),
        _ => panic!("OS_TYPE should be a text"),
    }
    match env.get("BATTERIES") {
        Some(Variable::Int(n)) => assert_eq!(*n, 0),
        _ => panic!("BATTERIES should be a number"),
    }
}

#[test]
fn nested_blocks() {
    let script = "EVERY 1 SECONDS\nITERATE ROWS\nIF N EQ \"a\"\nPRINT \"saw a\"\nEND\nEND\n";
    let mut record_a = VariableMap::new();
    record_a.insert("N", Variable::Text("a".to_owned()));
    let mut record_b = VariableMap::new();
    record_b.insert("N", Variable::Text("b".to_owned()));
    let mut env = VariableMap::new();
    env.insert(
        "ROWS",
        Variable::List(vec![Variable::Record(record_a), Variable::Record(record_b)]),
    );
    let mut world = World::new();
    run_script(script, &mut env, &mut world);
    assert_eq!(world.outputs.len(), 1);
    assert_eq!(world.outputs[0].as_str(), "saw a");
    // The second element matched no branch and has no ELSE.
    assert_eq!(world.failures, vec![ExecFailure::NoBranchMatched]);
}

#[test]
fn program_body_shape() {
    let program = parse("EVERY 1 SECONDS\nPRINT \"a\"\nIF X EQ \"1\"\nPRINT \"b\"\nEND\n").unwrap();
    assert_eq!(program.body.len(), 2);
    assert!(matches!(
        program.body[0],
        Node::Instr(Instruction::Print(PrintArg::Literal(_)))
    ));
    assert!(matches!(program.body[1], Node::Cond(_)));
}

#[test]
fn quoted_literals_hold_spaces() {
    let mut env = VariableMap::new();
    let mut world = World::new();
    run_script("EVERY 1 SECONDS\nPRINT \"hello world\"\n", &mut env, &mut world);
    assert_eq!(world.outputs[0].as_str(), "hello world");
}

#[test]
fn backtick_and_single_quotes() {
    let mut env = VariableMap::new();
    let mut world = World::new();
    run_script("EVERY 1 SECONDS\nPRINT `tick`\nPRINT 'tock'\n", &mut env, &mut world);
    assert_eq!(world.outputs[0].as_str(), "tick");
    assert_eq!(world.outputs[1].as_str(), "tock");
}

#[test]
fn tabs_read_as_spaces() {
    let program = parse("EVERY\t2\tSECONDS\n").unwrap();
    assert_eq!(program.interval_ms, 2000);
}

#[test]
fn captured_windows_flow_into_scripts() {
    let window = Window {
        title: Some("editor".to_owned()),
        process: Process {
            name: "vim".to_owned(),
            cmd: "vim".to_owned(),
            exe: "/usr/bin/vim".to_owned(),
            cwd: "/".to_owned(),
            memory: 10,
            status: "running".to_owned(),
            start_time: 1,
            cpu_usage: None,
        },
    };
    let mut env = VariableMap::new();
    let mut world = World::new();
    world.capture = Some(Capture { windows: vec![window], seconds_since_last_input: 2 });
    let script = "EVERY 1 SECONDS\nGET_WINDOWS\nITERATE WINDOWS\nIF PROCESS_NAME EQ \"vim\"\nPRINT TITLE\nEND\nEND\n";
    run_script(script, &mut env, &mut world);
    assert_eq!(world.outputs.len(), 1);
    assert_eq!(world.outputs[0].as_str(), "editor");
    match env.get("SECONDS_SINCE_LAST_INPUT") {
        Some(Variable::Counter64(n)) => assert_eq!(*n, 2),
        _ => panic!("SECONDS_SINCE_LAST_INPUT should be a counter"),
    }
}

#[test]
fn negative_battery_count_seeds_as_zero() {
    let mut env = VariableMap::new();
    let rule = Rule { id: "r".to_owned(), body: "b".to_owned() };
    let mut os = OsInfo::default();
    os.batteries = Some(-2);
    seed_environment(&mut env, &rule, &os);
    match env.get("BATTERIES") {
        Some(Variable::Int(n)) => assert_eq!(*n, 0),
        _ => panic!("BATTERIES should be a number"),
    }
}

#[test]
fn nodes_execute_through_the_trait() {
    let program = parse("EVERY 1 SECONDS\nPRINT \"one\"\nPRINT \"two\"\n").unwrap();
    let mut env = VariableMap::new();
    let mut world = World::new();
    for node in &program.body {
        node.execute(&mut env, &mut world);
    }
    assert_eq!(world.outputs.len(), 2);
    assert_eq!(world.outputs[0].as_str(), "one");
    assert_eq!(world.outputs[1].as_str(), "two");
}

#[test]
fn capture_unavailable_logged() {
    let mut env = VariableMap::new();
    let mut world = World::new();
    run_script("EVERY 1 SECONDS\nGET_WINDOWS\n", &mut env, &mut world);
    assert_eq!(world.failures, vec![ExecFailure::CaptureUnavailable]);
    assert!(env.get("WINDOWS").is_none());
}

#[test]
fn screenshots_unavailable_logged() {
    let mut env = VariableMap::new();
    let mut world = World::new();
    run_script("EVERY 1 SECONDS\nCAPTURE_SCREEN \"ALL\"\n", &mut env, &mut world);
    assert_eq!(world.failures, vec![ExecFailure::ScreenshotUnavailable]);
}

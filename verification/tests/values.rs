use timetrackrs::capture::pc_common::{Process, Window};
use timetrackrs::scripting::value::{parse_u64, parse_usize, Variable, VariableMap};

#[test]
fn map_insert_overwrites_in_place() {
    let mut m = VariableMap::new();
    m.insert("A", Variable::Int(1));
    m.insert("B", Variable::Int(2));
    m.insert("A", Variable::Int(3));
    assert_eq!(m.len(), 2);
    match m.get("A") {
        Some(Variable::Int(n)) => assert_eq!(*n, 3),
        _ => panic!("A should be a number"),
    }
    assert_eq!(m.key_at(0).as_str(), "A");
    assert_eq!(m.key_at(1).as_str(), "B");
    assert!(m.get("C").is_none());
}

#[test]
fn deep_equality() {
    let a = Variable::List(vec![Variable::Int(1), Variable::Text("x".to_owned())]);
    let b = Variable::List(vec![Variable::Int(1), Variable::Text("x".to_owned())]);
    let c = Variable::List(vec![Variable::Int(2), Variable::Text("x".to_owned())]);
    assert!(a.equals(&b));
    assert!(!a.equals(&c));
    // Numeric kinds compare numerically.
    assert!(Variable::Int(5).equals(&Variable::Counter64(5)));
    assert!(!Variable::Int(5).equals(&Variable::Counter64(6)));
    // Records compare without regard to entry order.
    let mut r1 = VariableMap::new();
    r1.insert("A", Variable::Int(1));
    r1.insert("B", Variable::Int(2));
    let mut r2 = VariableMap::new();
    r2.insert("B", Variable::Int(2));
    r2.insert("A", Variable::Int(1));
    assert!(Variable::Record(r1).equals(&Variable::Record(r2)));
}

#[test]
fn literal_coercion() {
    assert!(Variable::Int(3).matches_lit("3"));
    assert!(!Variable::Int(3).matches_lit("4"));
    assert!(Variable::Counter64(10).matches_lit("+10"));
    assert!(Variable::Bool(true).matches_lit("true"));
    assert!(Variable::Bool(false).matches_lit("false"));
    assert!(!Variable::Bool(true).matches_lit("false"));
    assert!(Variable::Text("ab".to_owned()).matches_lit("ab"));
    assert!(!Variable::List(vec![]).matches_lit("1"));
}

#[test]
fn unsigned_parsing() {
    assert_eq!(parse_usize("0"), Some(0));
    assert_eq!(parse_usize("123"), Some(123));
    assert_eq!(parse_usize("+7"), Some(7));
    assert_eq!(parse_usize(""), None);
    assert_eq!(parse_usize("+"), None);
    assert_eq!(parse_usize("12a"), None);
    assert_eq!(parse_usize("-3"), None);
    assert_eq!(parse_u64("18446744073709551615"), Some(u64::MAX));
    assert_eq!(parse_u64("18446744073709551616"), None);
}

#[test]
fn rendering() {
    assert_eq!(Variable::Int(0).render().as_str(), "0");
    assert_eq!(Variable::Int(907).render().as_str(), "907");
    assert_eq!(Variable::Counter64(12).render().as_str(), "12");
    assert_eq!(Variable::Bool(true).render().as_str(), "true");
    assert_eq!(Variable::Text("hi".to_owned()).render().as_str(), "hi");
    let list = Variable::List(vec![Variable::Int(1), Variable::Int(2)]);
    assert_eq!(list.render().as_str(), "[1, 2]");
    let mut rec = VariableMap::new();
    rec.insert("A", Variable::Int(1));
    rec.insert("B", Variable::Text("x".to_owned()));
    assert_eq!(Variable::Record(rec).render().as_str(), "{A: 1, B: x}");
}

#[test]
fn duplicate_is_deep() {
    let mut rec = VariableMap::new();
    rec.insert("K", Variable::Int(9));
    let source = Variable::List(vec![Variable::Record(rec)]);
    let copy = source.duplicate();
    assert!(source.equals(&copy));
}

#[test]
fn window_record_round_trip() {
    let w = Window {
        title: Some("editor".to_owned()),
        process: Process {
            name: "vim".to_owned(),
            cmd: "vim notes".to_owned(),
            exe: "/usr/bin/vim".to_owned(),
            cwd: "/home/u".to_owned(),
            memory: 4096,
            status: "running".to_owned(),
            start_time: 111,
            cpu_usage: Some("1.5".to_owned()),
        },
    };
    let record = w.to_record();
    match record.get("PROCESS_NAME") {
        Some(Variable::Text(t)) => assert_eq!(t.as_str(), "vim"),
        _ => panic!("PROCESS_NAME should be a text"),
    }
    match record.get("MEMORY") {
        Some(Variable::Int(n)) => assert_eq!(*n, 4096),
        _ => panic!("MEMORY should be a number"),
    }
    let back = Window::from_record(&record).expect("the record should read back");
    assert_eq!(back.process.name.as_str(), "vim");
    assert_eq!(back.process.start_time, 111);
    assert_eq!(back.title.as_deref(), Some("editor"));

    let empty = VariableMap::new();
    assert!(Window::from_record(&empty).is_none());
}

use timetrackrs::capture::linux::types::split_zero;
use timetrackrs::capture::linux::x11::single;
use timetrackrs::capture::windows::winwins::parse_lp_cmd_line;
use timetrackrs::graphql::network::{get_network_info, NetworkError};
use timetrackrs::graphql::project_rules::{
    get_user_rules, ProjectRule, ProjectRules, RuleBody, UserProject,
};
use timetrackrs::graphql::rule::{get_rules, RulesData, RulesError};
use timetrackrs::graphql::user_ssid::{
    get_or_insert_user_ssid, get_user_ssid, insert_user_ssid, InsertSsidResponse, SsidError,
    SsidRef, UserSsidResponse, UserSsidRow,
};
use timetrackrs::rest_api::rule as rest_rule;
use timetrackrs::scripting::interpreter::Rule;

#[test]
fn split_zero_drops_trailing_empty() {
    let parts = split_zero("2\u{0}4\u{0}5\u{0}");
    assert_eq!(parts.len(), 3);
    assert_eq!(parts[0].as_str(), "2");
    assert_eq!(parts[2].as_str(), "5");
    let parts2 = split_zero("a\u{0}b");
    assert_eq!(parts2.len(), 2);
    assert_eq!(parts2[1].as_str(), "b");
}

#[test]
fn ssid_lookup_paths() {
    let found = UserSsidResponse {
        errors: None,
        rows: vec![UserSsidRow { ssid: SsidRef { id: "net-1".to_owned() } }],
    };
    assert_eq!(get_user_ssid(found).unwrap().as_str(), "net-1");

    let empty = UserSsidResponse { errors: None, rows: vec![] };
    assert!(matches!(get_user_ssid(empty), Err(SsidError::NotFound)));

    let failed = UserSsidResponse { errors: Some(vec!["boom".to_owned()]), rows: vec![] };
    assert!(matches!(get_user_ssid(failed), Err(SsidError::QueryFailed)));
}

#[test]
fn ssid_insert_paths() {
    let ok = InsertSsidResponse { errors: None, inserted: Some("net-2".to_owned()) };
    assert_eq!(insert_user_ssid(ok).unwrap().as_str(), "net-2");
    let missing = InsertSsidResponse { errors: None, inserted: None };
    assert!(matches!(insert_user_ssid(missing), Err(SsidError::NotFound)));
}

#[test]
fn ssid_get_or_insert_prefers_lookup() {
    let r = get_or_insert_user_ssid(Ok("a".to_owned()), Ok("b".to_owned()));
    assert_eq!(r.unwrap().as_str(), "a");
    let r2 = get_or_insert_user_ssid(Err(SsidError::NotFound), Ok("b".to_owned()));
    assert_eq!(r2.unwrap().as_str(), "b");
}

#[test]
fn network_info_resolution() {
    let info = get_network_info("cafe".to_owned(), vec!["n1".to_owned(), "n2".to_owned()], None)
        .unwrap();
    assert_eq!(info.id.as_str(), "n2");
    assert_eq!(info.name.as_str(), "cafe");

    let created = get_network_info("cafe".to_owned(), vec![], Some("n9".to_owned())).unwrap();
    assert_eq!(created.id.as_str(), "n9");

    assert!(matches!(
        get_network_info("cafe".to_owned(), vec![], None),
        Err(NetworkError::NotResolved)
    ));
}

#[test]
fn user_rules_flatten_in_order() {
    let projects = vec![
        UserProject {
            project: ProjectRules {
                project_rules: vec![
                    ProjectRule { id: "p1r1".to_owned(), rule: RuleBody { body: "b1".to_owned() } },
                    ProjectRule { id: "p1r2".to_owned(), rule: RuleBody { body: "b2".to_owned() } },
                ],
            },
        },
        UserProject {
            project: ProjectRules {
                project_rules: vec![ProjectRule {
                    id: "p2r1".to_owned(),
                    rule: RuleBody { body: "b3".to_owned() },
                }],
            },
        },
    ];
    let pairs = get_user_rules(projects);
    assert_eq!(pairs.len(), 3);
    assert_eq!(pairs[0].0.as_str(), "p1r1");
    assert_eq!(pairs[1].1.as_str(), "b2");
    assert_eq!(pairs[2].0.as_str(), "p2r1");
}

#[test]
fn rule_listings() {
    assert!(matches!(get_rules(None), Err(RulesError::NoData)));
    let data = RulesData { rules: vec![] };
    assert_eq!(get_rules(Some(data)).unwrap().len(), 0);

    assert!(matches!(rest_rule::get_rules(None), Err(rest_rule::RestError::NoData)));
    let payload = rest_rule::RulesPayload {
        project_rule: vec![Rule { id: "r".to_owned(), body: "b".to_owned() }],
    };
    let rules = rest_rule::get_rules(Some(payload)).unwrap();
    assert_eq!(rules.len(), 1);
    assert_eq!(rules[0].id.as_str(), "r");
}

#[test]
fn single_element_reply() {
    let v: [u32; 1] = [7];
    assert_eq!(single(&v), 7);
}

#[test]
fn command_line_splitting() {
    let args = parse_lp_cmd_line("prog.exe alpha \"two words\" end");
    assert_eq!(args.len(), 4);
    assert_eq!(args[0].as_str(), "prog.exe");
    assert_eq!(args[1].as_str(), "alpha");
    assert_eq!(args[2].as_str(), "two words");
    assert_eq!(args[3].as_str(), "end");

    let quoted_exe = parse_lp_cmd_line("\"C:\\Program Files\\a.exe\" x");
    assert_eq!(quoted_exe[0].as_str(), "C:\\Program Files\\a.exe");
    assert_eq!(quoted_exe[1].as_str(), "x");

    // An even run of backslashes halves before a quote; an odd run makes it
    // literal.
    let bs = parse_lp_cmd_line("p a\\\\\"b c\"");
    assert_eq!(bs[1].as_str(), "a\\b c");
    let bs2 = parse_lp_cmd_line("p a\\\"b");
    assert_eq!(bs2[1].as_str(), "a\"b");

    assert_eq!(parse_lp_cmd_line("").len(), 0);
    let leading_ws = parse_lp_cmd_line(" x");
    assert_eq!(leading_ws[0].as_str(), "");
    assert_eq!(leading_ws[1].as_str(), "x");
}

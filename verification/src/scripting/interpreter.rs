//! The executable tree of the rule language and its interpreter: a parsed
//! program is an interval plus an ordered list of nodes, and executing the
//! tree reads and writes the rule's variable store and the host world.

use vstd::prelude::*;

use crate::capture::pc_common::{record_to_window, window_record_model, Window, WindowModel};
use crate::util::{OsInfo, OsInfoModel};
use crate::scripting::parser::{regex_find, regex_match, regex_ok};
use crate::scripting::value::{
    has_key, lemma_views_of_list_all, lookup, matches_literal, model_eq, num_of, parse_uint,
    parse_usize, render_model, str_equal, VarModel, Variable, VariableMap, views_of_list,
};

verus! {

/// A user-authored rule: its identifier and its script text.
pub struct Rule {
    pub id: String,
    pub body: String,
}

/// The argument of a `PRINT` instruction: a string literal, or the name of a
/// variable whose current value is printed.
pub enum PrintArg {
    Literal(String),
    Var(String),
}

/// Which screens a `CAPTURE_SCREEN` instruction captures.
pub enum ScreenTarget {
    All,
    Primary,
}

/// A named action, bound to its literal arguments at parse time.
pub enum Instruction {
    Print(PrintArg),
    SaveToDb,
    GetNetworkSsid,
    GetPeripherals,
    GetWindows,
    CaptureScreen(ScreenTarget),
}

/// One side of a comparison: a string literal (already unquoted) or the name
/// of a variable.
pub enum Operand {
    Literal(String),
    Ident(String),
}

/// The right-hand side of an `IN` comparison: a bracketed array of literals,
/// or the name of a variable holding a list.
pub enum InTarget {
    Array(Vec<String>),
    Ident(String),
}

/// One comparison of a conditional line.
pub enum Comparison {
    Eq { negated: bool, lhs: Operand, rhs: Operand },
    In { negated: bool, lhs: Operand, rhs: InTarget },
    Match { lhs: Operand, patterns: Vec<String> },
    Bigger { lhs: Operand, rhs: Operand },
    Lesser { lhs: Operand, rhs: Operand },
}

/// An `IF` block: `OR`-separated groups of conjoined comparisons guarding one
/// body, alternative `ELSEIF` branches, and an optional `ELSE` body.
pub struct Conditional {
    pub groups: Vec<Vec<Comparison>>,
    pub body: Vec<Node>,
    pub else_ifs: Vec<ElseIf>,
    pub else_body: Option<Vec<Node>>,
}

/// One `ELSEIF` branch: its own groups and body.
pub struct ElseIf {
    pub groups: Vec<Vec<Comparison>>,
    pub body: Vec<Node>,
}

/// An `ITERATE` block: the name of a list variable and a body run once per
/// element.
pub struct Iterative {
    pub key: String,
    pub body: Vec<Node>,
}

/// One node of the executable tree.
pub enum Node {
    Instr(Instruction),
    Cond(Conditional),
    Iter(Iterative),
}

/// A parsed rule script: the declared interval in milliseconds and the
/// ordered top-level nodes.
pub struct Program {
    pub interval_ms: u64,
    pub body: Vec<Node>,
}


// ---------------------------------------------------------------------------
// The host world
// ---------------------------------------------------------------------------

/// A failure met while a tree executes; failures are logged and execution
/// goes on.
#[derive(Debug, Clone, Copy, PartialEq, Eq, Structural)]
pub enum ExecFailure {
    /// An instruction or iteration named a variable the store does not hold.
    MissingVariable,
    /// An iteration's target is not a list.
    NotAList,
    /// An element of an iterated list is not a record.
    ElementNotARecord,
    /// A conditional matched no branch and has no `ELSE` body.
    NoBranchMatched,
    /// `SAVE_TO_DB` found a required variable missing or of the wrong kind.
    MissingEventField,
    /// `GET_WINDOWS` ran with no observation at hand.
    CaptureUnavailable,
    /// `CAPTURE_SCREEN` ran with no screenshot references at hand.
    ScreenshotUnavailable,
}

/// One observation of the machine: its windows and the time since the user
/// last typed or clicked.
pub struct Capture {
    pub windows: Vec<Window>,
    pub seconds_since_last_input: u64,
}

/// One event bound for the event sink.
pub struct Event {
    pub windows: Vec<Window>,
    pub screenshots: Option<Vec<String>>,
    pub rule: Option<Rule>,
    pub network: Option<String>,
    pub keyboard: usize,
    pub mouse: usize,
    pub seconds_since_last_input: u64,
}

/// Everything the engine reads from or hands to its collaborators during
/// one tick: counter snapshots and per-tick observations on the way in, and
/// printed lines, assembled events and logged failures on the way out.
pub struct World {
    /// Keystrokes counted since the counters were last reset.
    pub keystrokes: usize,
    /// Mouse clicks counted since the counters were last reset.
    pub mouse_clicks: usize,
    /// The network name, where the network collaborator resolved one.
    pub network_ssid: Option<String>,
    /// The capture collaborator's observation for this tick, if it gave one.
    pub capture: Option<Capture>,
    /// The screenshot references this tick's capture and upload would yield.
    pub screenshots: Option<Vec<String>>,
    /// Lines printed, oldest first.
    pub outputs: Vec<String>,
    /// Events assembled for the sink, oldest first.
    pub events: Vec<Event>,
    /// Whether a `SAVE_TO_DB` asked for the shared counters to be reset.
    pub counters_reset: bool,
    /// Failures met while executing, oldest first.
    pub failures: Vec<ExecFailure>,
}

/// The model of a rule.
pub struct RuleModel {
    pub id: Seq<char>,
    pub body: Seq<char>,
}

impl View for Rule {
    type V = RuleModel;

    open spec fn view(&self) -> RuleModel {
        RuleModel { id: self.id@, body: self.body@ }
    }
}

/// The model of a capture.
pub struct CaptureModel {
    pub windows: Seq<WindowModel>,
    pub seconds_since_last_input: nat,
}

/// The model of an event.
#[verifier::ext_equal]
pub struct EventModel {
    pub windows: Seq<WindowModel>,
    pub screenshots: Option<Seq<Seq<char>>>,
    pub rule: Option<RuleModel>,
    pub network: Option<Seq<char>>,
    pub keyboard: nat,
    pub mouse: nat,
    pub seconds_since_last_input: nat,
}

/// The model of the world.
#[verifier::ext_equal]
pub struct WorldModel {
    pub keystrokes: nat,
    pub mouse_clicks: nat,
    pub network_ssid: Option<Seq<char>>,
    pub capture: Option<CaptureModel>,
    pub screenshots: Option<Seq<Seq<char>>>,
    pub outputs: Seq<Seq<char>>,
    pub events: Seq<EventModel>,
    pub counters_reset: bool,
    pub failures: Seq<ExecFailure>,
}

/// The models of a list of texts.
pub open spec fn texts_model(ss: Seq<String>) -> Seq<Seq<char>> {
    ss.map_values(|s: String| s@)
}

/// The models of a list of windows.
pub open spec fn windows_model(ws: Seq<Window>) -> Seq<WindowModel> {
    ws.map_values(|w: Window| w@)
}

/// The models of a list of events.
pub open spec fn events_model(es: Seq<Event>) -> Seq<EventModel> {
    es.map_values(|e: Event| e@)
}

impl View for Event {
    type V = EventModel;

    open spec fn view(&self) -> EventModel {
        EventModel {
            windows: windows_model(self.windows@),
            screenshots: match self.screenshots {
                Some(ss) => Some(texts_model(ss@)),
                None => None,
            },
            rule: match self.rule {
                Some(r) => Some(r@),
                None => None,
            },
            network: match self.network {
                Some(n) => Some(n@),
                None => None,
            },
            keyboard: self.keyboard as nat,
            mouse: self.mouse as nat,
            seconds_since_last_input: self.seconds_since_last_input as nat,
        }
    }
}

impl View for Capture {
    type V = CaptureModel;

    open spec fn view(&self) -> CaptureModel {
        CaptureModel {
            windows: windows_model(self.windows@),
            seconds_since_last_input: self.seconds_since_last_input as nat,
        }
    }
}

impl View for World {
    type V = WorldModel;

    open spec fn view(&self) -> WorldModel {
        WorldModel {
            keystrokes: self.keystrokes as nat,
            mouse_clicks: self.mouse_clicks as nat,
            network_ssid: match self.network_ssid {
                Some(s) => Some(s@),
                None => None,
            },
            capture: match self.capture {
                Some(c) => Some(c@),
                None => None,
            },
            screenshots: match self.screenshots {
                Some(ss) => Some(texts_model(ss@)),
                None => None,
            },
            outputs: texts_model(self.outputs@),
            events: events_model(self.events@),
            counters_reset: self.counters_reset,
            failures: self.failures@,
        }
    }
}

impl World {
    /// A world with zeroed counters and nothing supplied or produced.
    pub fn new() -> (w: World)
        ensures
            w@.keystrokes == 0,
            w@.mouse_clicks == 0,
            w@.network_ssid is None,
            w@.capture is None,
            w@.screenshots is None,
            w@.outputs =~= Seq::<Seq<char>>::empty(),
            w@.events =~= Seq::<EventModel>::empty(),
            !w@.counters_reset,
            w@.failures =~= Seq::<ExecFailure>::empty(),
    {
        let w = World {
            keystrokes: 0,
            mouse_clicks: 0,
            network_ssid: None,
            capture: None,
            screenshots: None,
            outputs: Vec::new(),
            events: Vec::new(),
            counters_reset: false,
            failures: Vec::new(),
        };
        proof {
            assert(texts_model(w.outputs@) =~= Seq::<Seq<char>>::empty());
            assert(events_model(w.events@) =~= Seq::<EventModel>::empty());
        }
        w
    }
}

// ---------------------------------------------------------------------------
// The variable store as execution sees it
// ---------------------------------------------------------------------------

/// The store's entries after binding `key` to `val`: the first entry
/// carrying the key is overwritten in place, and a fresh key is appended.
pub open spec fn env_insert(
    env: Seq<(Seq<char>, VarModel)>,
    key: Seq<char>,
    val: VarModel,
) -> Seq<(Seq<char>, VarModel)>
    decreases env.len(),
{
    if env.len() == 0 {
        seq![(key, val)]
    } else if env[0].0 == key {
        seq![(key, val)] + env.drop_first()
    } else {
        seq![env[0]] + env_insert(env.drop_first(), key, val)
    }
}

/// What `VariableMap::insert` ensures is exactly `env_insert`.
pub proof fn lemma_env_insert_matches(env: Seq<(Seq<char>, VarModel)>, key: Seq<char>, val: VarModel)
    ensures
        !has_key(env, key) ==> env_insert(env, key, val) =~= env.push((key, val)),
        forall|i: int|
            0 <= i < env.len() && env[i].0 == key && (forall|j: int| 0 <= j < i ==> env[j].0 != key)
                ==> env_insert(env, key, val) =~= #[trigger] env.update(i, (key, val)),
    decreases env.len(),
{
    if env.len() > 0 {
        lemma_env_insert_matches(env.drop_first(), key, val);
        if env[0].0 != key {
            assert(env_insert(env, key, val) == seq![env[0]] + env_insert(
                env.drop_first(),
                key,
                val,
            ));
            if !has_key(env, key) {
                assert(!has_key(env.drop_first(), key));
                assert(env_insert(env.drop_first(), key, val) =~= env.drop_first().push(
                    (key, val),
                ));
                assert(env_insert(env, key, val) =~= env.push((key, val)));
            }
            assert forall|i: int|
                0 <= i < env.len() && env[i].0 == key && (forall|j: int|
                    0 <= j < i ==> env[j].0 != key) implies env_insert(env, key, val)
                =~= #[trigger] env.update(i, (key, val)) by {
                assert(i >= 1);
                assert(env.drop_first()[i - 1].0 == key);
                assert(forall|j: int| 0 <= j < i - 1 ==> env.drop_first()[j].0 != key);
                assert(env_insert(env.drop_first(), key, val) =~= env.drop_first().update(
                    i - 1,
                    (key, val),
                ));
                assert(env_insert(env, key, val) =~= env.update(i, (key, val)));
            }
        } else {
            assert(env_insert(env, key, val) == seq![(key, val)] + env.drop_first());
            assert(has_key(env, key));
            assert forall|i: int|
                0 <= i < env.len() && env[i].0 == key && (forall|j: int|
                    0 <= j < i ==> env[j].0 != key) implies env_insert(env, key, val)
                =~= #[trigger] env.update(i, (key, val)) by {
                assert(i == 0);
                assert(env_insert(env, key, val) =~= env.update(0, (key, val)));
            }
        }
    } else {
        assert(env_insert(env, key, val) =~= env.push((key, val)));
    }
}

/// Binds `key` to `value` in the store and carries the `env_insert` model.
pub fn store_insert(env: &mut VariableMap, key: &str, value: Variable)
    ensures
        final(env)@ == env_insert(old(env)@, key@, value@),
{
    let ghost old_env = env@;
    let ghost val_model = value@;
    env.insert(key, value);
    proof {
        lemma_env_insert_matches(old_env, key@, val_model);
        if has_key(old_env, key@) {
            let i = choose|i: int|
                {
                    &&& 0 <= i < old_env.len()
                    &&& old_env[i].0 == key@
                    &&& (forall|j: int| 0 <= j < i ==> old_env[j].0 != key@)
                    &&& env@ == old_env.update(i, (key@, val_model))
                };
            assert(env_insert(old_env, key@, val_model) =~= old_env.update(
                i,
                (key@, val_model),
            ));
        } else {
            assert(env_insert(old_env, key@, val_model) =~= old_env.push((key@, val_model)));
        }
    }
}


// ---------------------------------------------------------------------------
// Evaluating comparisons
// ---------------------------------------------------------------------------

/// The number a literal token denotes where it fits the machine word.
pub open spec fn lit_num(s: Seq<char>) -> Option<nat> {
    match parse_uint(s) {
        Some(n) => if n <= usize::MAX {
            Some(n)
        } else {
            None
        },
        None => None,
    }
}

/// The numeric reading of one comparison side: a literal is parsed, a
/// variable is read from the store.
pub open spec fn side_num(env: Seq<(Seq<char>, VarModel)>, op: Operand) -> Option<nat> {
    match op {
        Operand::Literal(s) => lit_num(s@),
        Operand::Ident(x) => match lookup(env, x@) {
            Some(v) => num_of(v),
            None => None,
        },
    }
}

/// What an `EQ` comparison evaluates to, before negation: two literals
/// compare as strings, a literal against a variable by coercion, and two
/// variables by deep equality; a missing variable never matches.
pub open spec fn eval_eq(env: Seq<(Seq<char>, VarModel)>, lhs: Operand, rhs: Operand) -> bool {
    match (lhs, rhs) {
        (Operand::Literal(a), Operand::Literal(b)) => a@ == b@,
        (Operand::Literal(a), Operand::Ident(x)) => match lookup(env, x@) {
            Some(v) => matches_literal(v, a@),
            None => false,
        },
        (Operand::Ident(x), Operand::Literal(b)) => match lookup(env, x@) {
            Some(v) => matches_literal(v, b@),
            None => false,
        },
        (Operand::Ident(x), Operand::Ident(y)) => match (lookup(env, x@), lookup(env, y@)) {
            (Some(v), Some(w)) => model_eq(v, w),
            _ => false,
        },
    }
}

/// What an `IN` comparison evaluates to, before negation: membership of the
/// left side among the elements of a bracketed literal array, or among the
/// elements of a named list variable.
pub open spec fn eval_in(env: Seq<(Seq<char>, VarModel)>, lhs: Operand, rhs: InTarget) -> bool {
    match rhs {
        InTarget::Array(elems) => exists|k: int|
            0 <= k < elems@.len() && {
                let e = (#[trigger] elems@[k])@;
                match lhs {
                    Operand::Literal(a) => a@ == e,
                    Operand::Ident(x) => match lookup(env, x@) {
                        Some(v) => matches_literal(v, e),
                        None => false,
                    },
                }
            },
        InTarget::Ident(name) => match lookup(env, name@) {
            Some(VarModel::List(items)) => exists|k: int|
                0 <= k < items.len() && {
                    let item = #[trigger] items[k];
                    match lhs {
                        Operand::Literal(a) => matches_literal(item, a@),
                        Operand::Ident(x) => match lookup(env, x@) {
                            Some(v) => model_eq(item, v),
                            None => false,
                        },
                    }
                },
            _ => false,
        },
    }
}

/// What a `MATCH` comparison evaluates to: some pattern matches the left
/// side, which is a literal or a text variable; anything else matches
/// nothing.
pub open spec fn eval_match(
    env: Seq<(Seq<char>, VarModel)>,
    lhs: Operand,
    patterns: Seq<String>,
) -> bool {
    let text = match lhs {
        Operand::Literal(a) => Some(a@),
        Operand::Ident(x) => match lookup(env, x@) {
            Some(VarModel::Text(s)) => Some(s),
            _ => None,
        },
    };
    match text {
        Some(t) => exists|k: int|
            0 <= k < patterns.len() && regex_ok((#[trigger] patterns[k])@) && regex_match(
                patterns[k]@,
                t,
            ),
        None => false,
    }
}

/// What one comparison evaluates to against the store.
pub open spec fn eval_cmp(env: Seq<(Seq<char>, VarModel)>, c: Comparison) -> bool {
    match c {
        Comparison::Eq { negated, lhs, rhs } => if negated {
            !eval_eq(env, lhs, rhs)
        } else {
            eval_eq(env, lhs, rhs)
        },
        Comparison::In { negated, lhs, rhs } => if negated {
            !eval_in(env, lhs, rhs)
        } else {
            eval_in(env, lhs, rhs)
        },
        Comparison::Match { lhs, patterns } => eval_match(env, lhs, patterns@),
        Comparison::Bigger { lhs, rhs } => match (side_num(env, lhs), side_num(env, rhs)) {
            (Some(x), Some(y)) => x > y,
            _ => false,
        },
        Comparison::Lesser { lhs, rhs } => match (side_num(env, lhs), side_num(env, rhs)) {
            (Some(x), Some(y)) => x < y,
            _ => false,
        },
    }
}

/// Whether a group of comparisons matches: every one of them holds.
pub open spec fn group_matches(env: Seq<(Seq<char>, VarModel)>, g: Seq<Comparison>) -> bool {
    forall|i: int| 0 <= i < g.len() ==> eval_cmp(env, #[trigger] g[i])
}

/// Whether any of the `OR`-separated groups matches.
pub open spec fn groups_match(env: Seq<(Seq<char>, VarModel)>, gs: Seq<Vec<Comparison>>) -> bool {
    exists|i: int| 0 <= i < gs.len() && group_matches(env, (#[trigger] gs[i])@)
}

/// A set of `OR`-separated groups matches exactly when some group matches,
/// and a group matches exactly when every one of its comparisons holds: the
/// disjunction of conjunctions.
pub proof fn lemma_disjunction_of_conjunctions(
    env: Seq<(Seq<char>, VarModel)>,
    gs: Seq<Vec<Comparison>>,
)
    ensures
        groups_match(env, gs) <==> (exists|i: int|
            0 <= i < gs.len() && #[trigger] group_matches(env, gs[i]@)),
        forall|g: Seq<Comparison>|
            #[trigger] group_matches(env, g) <==> (forall|j: int|
                0 <= j < g.len() ==> eval_cmp(env, #[trigger] g[j])),
{
}

/// Evaluates one comparison; see `eval_cmp`.
#[verifier::loop_isolation(false)]
pub fn eval_comparison(env: &VariableMap, c: &Comparison) -> (r: bool)
    ensures
        r == eval_cmp(env@, *c),
{
    match c {
        Comparison::Eq { negated, lhs, rhs } => {
            let raw: bool = match (lhs, rhs) {
                (Operand::Literal(a), Operand::Literal(b)) => str_equal(a.as_str(), b.as_str()),
                (Operand::Literal(a), Operand::Ident(x)) => match env.get(x.as_str()) {
                    Some(v) => v.matches_lit(a.as_str()),
                    None => false,
                },
                (Operand::Ident(x), Operand::Literal(b)) => match env.get(x.as_str()) {
                    Some(v) => v.matches_lit(b.as_str()),
                    None => false,
                },
                (Operand::Ident(x), Operand::Ident(y)) => {
                    match env.get(x.as_str()) {
                        Some(v) => match env.get(y.as_str()) {
                            Some(w) => v.equals(w),
                            None => false,
                        },
                        None => false,
                    }
                },
            };
            if *negated {
                !raw
            } else {
                raw
            }
        },
        Comparison::In { negated, lhs, rhs } => {
            let raw: bool = match rhs {
                InTarget::Array(elems) => {
                    let n = elems.len();
                    let mut found: bool = false;
                    let mut k: usize = 0;
                    while k < n
                        invariant
                            k <= n,
                            !found ==> forall|j: int|
                                0 <= j < k ==> !{
                                    let e = (#[trigger] elems@[j])@;
                                    match lhs {
                                        Operand::Literal(a) => a@ == e,
                                        Operand::Ident(x) => match lookup(env@, x@) {
                                            Some(v) => matches_literal(v, e),
                                            None => false,
                                        },
                                    }
                                },
                            found ==> eval_in(env@, *lhs, *rhs),
                        decreases n - k,
                    {
                        let hit: bool = match lhs {
                            Operand::Literal(a) => str_equal(a.as_str(), elems[k].as_str()),
                            Operand::Ident(x) => match env.get(x.as_str()) {
                                Some(v) => v.matches_lit(elems[k].as_str()),
                                None => false,
                            },
                        };
                        if hit {
                            found = true;
                            break ;
                        }
                        k += 1;
                    }
                    found
                },
                InTarget::Ident(name) => {
                    match env.get(name.as_str()) {
                        Some(Variable::List(items)) => {
                            let ghost items_m = lookup(env@, name@)->0->List_0;
                            proof {
                                lemma_views_of_list_all(items@);
                            }
                            let n = items.len();
                            let mut found: bool = false;
                            let mut k: usize = 0;
                            while k < n
                                invariant
                                    k <= n,
                                    n == items@.len(),
                                    items_m.len() == n,
                                    forall|j: int|
                                        0 <= j < n ==> #[trigger] items_m[j] == items@[j]@,
                                    !found ==> forall|j: int|
                                        0 <= j < k ==> !{
                                            let item = #[trigger] items_m[j];
                                            match *lhs {
                                                Operand::Literal(a) => matches_literal(item, a@),
                                                Operand::Ident(x) => match lookup(env@, x@) {
                                                    Some(v) => model_eq(item, v),
                                                    None => false,
                                                },
                                            }
                                        },
                                    found ==> eval_in(env@, *lhs, *rhs),
                                decreases n - k,
                            {
                                let hit: bool = match lhs {
                                    Operand::Literal(a) => items[k].matches_lit(a.as_str()),
                                    Operand::Ident(x) => match env.get(x.as_str()) {
                                        Some(v) => items[k].equals(v),
                                        None => false,
                                    },
                                };
                                if hit {
                                    proof {
                                        assert(items_m[k as int] == items@[k as int]@);
                                        assert(eval_in(env@, *lhs, *rhs));
                                    }
                                    found = true;
                                    break ;
                                }
                                k += 1;
                            }
                            found
                        },
                        _ => false,
                    }
                },
            };
            if *negated {
                !raw
            } else {
                raw
            }
        },
        Comparison::Match { lhs, patterns } => {
            let text: Option<String> = match lhs {
                Operand::Literal(a) => Some(a.clone()),
                Operand::Ident(x) => match env.get(x.as_str()) {
                    Some(Variable::Text(s)) => Some(s.clone()),
                    _ => None,
                },
            };
            match text {
                Some(t) => {
                    let n = patterns.len();
                    let mut found: bool = false;
                    let mut k: usize = 0;
                    while k < n
                        invariant
                            k <= n,
                            !found ==> forall|j: int|
                                0 <= j < k ==> !(regex_ok((#[trigger] patterns@[j])@)
                                    && regex_match(patterns@[j]@, t@)),
                            found ==> eval_match(env@, *lhs, patterns@),
                        decreases n - k,
                    {
                        if regex_find(patterns[k].as_str(), t.as_str()) {
                            found = true;
                            break ;
                        }
                        k += 1;
                    }
                    found
                },
                None => false,
            }
        },
        Comparison::Bigger { lhs, rhs } => {
            let a = side_value(env, lhs);
            let b = side_value(env, rhs);
            match (a, b) {
                (Some(x), Some(y)) => x > y,
                _ => false,
            }
        },
        Comparison::Lesser { lhs, rhs } => {
            let a = side_value(env, lhs);
            let b = side_value(env, rhs);
            match (a, b) {
                (Some(x), Some(y)) => x < y,
                _ => false,
            }
        },
    }
}

/// The numeric reading of one comparison side; see `side_num`.
fn side_value(env: &VariableMap, op: &Operand) -> (r: Option<u64>)
    ensures
        match r {
            Some(n) => side_num(env@, *op) == Some(n as nat),
            None => side_num(env@, *op) is None,
        },
{
    match op {
        Operand::Literal(s) => {
            match parse_usize(s.as_str()) {
                Some(n) => Some(n as u64),
                None => None,
            }
        },
        Operand::Ident(x) => {
            match env.get(x.as_str()) {
                Some(v) => v.numeric_value(),
                None => None,
            }
        },
    }
}

/// Evaluates a conditional's `OR`-separated groups; see `groups_match`.
#[verifier::loop_isolation(false)]
pub fn eval_groups(env: &VariableMap, gs: &Vec<Vec<Comparison>>) -> (r: bool)
    ensures
        r == groups_match(env@, gs@),
{
    let n = gs.len();
    let mut i: usize = 0;
    while i < n
        invariant
            i <= n,
            forall|ii: int| 0 <= ii < i ==> !group_matches(env@, (#[trigger] gs@[ii])@),
        decreases n - i,
    {
        let g = &gs[i];
        let m = g.len();
        let mut all: bool = true;
        let mut j: usize = 0;
        while j < m
            invariant
                j <= m,
                m == g@.len(),
                all ==> forall|jj: int| 0 <= jj < j ==> eval_cmp(env@, #[trigger] g@[jj]),
                !all ==> !group_matches(env@, g@),
            decreases m - j,
        {
            if !eval_comparison(env, &g[j]) {
                assert(!eval_cmp(env@, g@[j as int]));
                all = false;
                break ;
            }
            j += 1;
        }
        if all {
            assert(group_matches(env@, gs@[i as int]@));
            return true;
        }
        i += 1;
    }
    false
}


// ---------------------------------------------------------------------------
// Executing the tree
// ---------------------------------------------------------------------------

/// The store's entries, as execution models them.
pub type EnvModel = Seq<(Seq<char>, VarModel)>;

/// The world with one more failure logged.
pub open spec fn fail(w: WorldModel, f: ExecFailure) -> WorldModel {
    WorldModel { failures: w.failures.push(f), ..w }
}

/// The list items standing for uploaded screenshot references.
pub open spec fn texts_to_items(refs: Seq<Seq<char>>) -> Seq<VarModel> {
    refs.map_values(|r: Seq<char>| VarModel::Text(r))
}

/// The records that a capture's windows write into the store.
pub open spec fn records_of_windows(ws: Seq<WindowModel>) -> Seq<VarModel> {
    ws.map_values(|w: WindowModel| VarModel::Record(window_record_model(w)))
}

/// The texts of a list of items, where every item is a text.
pub open spec fn texts_of_items(items: Seq<VarModel>) -> Option<Seq<Seq<char>>>
    decreases items.len(),
{
    if items.len() == 0 {
        Some(Seq::empty())
    } else {
        match items[0] {
            VarModel::Text(s) => match texts_of_items(items.drop_first()) {
                Some(r) => Some(seq![s] + r),
                None => None,
            },
            _ => None,
        }
    }
}

/// The windows of a list of items, where every item is a well-formed window
/// record.
pub open spec fn windows_of_items(items: Seq<VarModel>) -> Option<Seq<WindowModel>>
    decreases items.len(),
{
    if items.len() == 0 {
        Some(Seq::empty())
    } else {
        match items[0] {
            VarModel::Record(entries) => match record_to_window(entries) {
                Some(w) => match windows_of_items(items.drop_first()) {
                    Some(r) => Some(seq![w] + r),
                    None => None,
                },
                None => None,
            },
            _ => None,
        }
    }
}

/// What `PRINT` does: emits the literal, or the rendering of the named
/// variable's current value; a missing variable is a logged failure.
pub open spec fn print_step(arg: PrintArg, env: EnvModel, w: WorldModel) -> (EnvModel, WorldModel) {
    match arg {
        PrintArg::Literal(s) => (env, WorldModel { outputs: w.outputs.push(s@), ..w }),
        PrintArg::Var(x) => match lookup(env, x@) {
            Some(v) => (env, WorldModel { outputs: w.outputs.push(render_model(v)), ..w }),
            None => (env, fail(w, ExecFailure::MissingVariable)),
        },
    }
}

/// What `SAVE_TO_DB` does: reads the rule, input-idle, window and optional
/// screenshot and network variables, assembles an event for the sink,
/// resets the peripheral counters, and clears the screenshot list; a
/// missing or mistyped required variable is a logged failure and nothing
/// changes.
pub open spec fn save_step(env: EnvModel, w: WorldModel) -> (EnvModel, WorldModel) {
    let rule_id = lookup(env, "RULE_ID"@);
    let rule_body = lookup(env, "RULE_BODY"@);
    let seconds = lookup(env, "SECONDS_SINCE_LAST_INPUT"@);
    let windows = lookup(env, "WINDOWS"@);
    if (rule_id matches Some(VarModel::Text(_))) && (rule_body matches Some(VarModel::Text(_)))
        && (seconds matches Some(VarModel::Counter(_))) && (windows matches Some(
        VarModel::List(items),
    ) && windows_of_items(items) is Some) {
        let event = EventModel {
            windows: windows_of_items(windows->0->List_0)->0,
            screenshots: match lookup(env, "SCREENSHOTS"@) {
                Some(VarModel::List(items)) => texts_of_items(items),
                _ => None,
            },
            rule: Some(RuleModel { id: rule_id->0->Text_0, body: rule_body->0->Text_0 }),
            network: match lookup(env, "NETWORK_SSID"@) {
                Some(VarModel::Text(n)) => Some(n),
                _ => None,
            },
            keyboard: w.keystrokes,
            mouse: w.mouse_clicks,
            seconds_since_last_input: seconds->0->Counter_0,
        };
        let w2 = WorldModel {
            events: w.events.push(event),
            keystrokes: 0,
            mouse_clicks: 0,
            counters_reset: true,
            ..w
        };
        (env_insert(env, "SCREENSHOTS"@, VarModel::List(Seq::empty())), w2)
    } else {
        (env, fail(w, ExecFailure::MissingEventField))
    }
}

/// What one instruction does to the store and the world.
pub open spec fn instr_step(ins: Instruction, env: EnvModel, w: WorldModel) -> (
    EnvModel,
    WorldModel,
) {
    match ins {
        Instruction::Print(arg) => print_step(arg, env, w),
        Instruction::SaveToDb => save_step(env, w),
        Instruction::GetNetworkSsid => match w.network_ssid {
            Some(ssid) => (env_insert(env, "NETWORK_SSID"@, VarModel::Text(ssid)), w),
            None => (env, w),
        },
        Instruction::GetPeripherals => (
            env_insert(
                env_insert(env, "KEYSTROKES"@, VarModel::Int(w.keystrokes)),
                "MOUSE_CLICKS"@,
                VarModel::Int(w.mouse_clicks),
            ),
            w,
        ),
        Instruction::GetWindows => match w.capture {
            Some(c) => (
                env_insert(
                    env_insert(env, "WINDOWS"@, VarModel::List(records_of_windows(c.windows))),
                    "SECONDS_SINCE_LAST_INPUT"@,
                    VarModel::Counter(c.seconds_since_last_input),
                ),
                w,
            ),
            None => (env, fail(w, ExecFailure::CaptureUnavailable)),
        },
        Instruction::CaptureScreen(_) => match w.screenshots {
            Some(refs) => {
                let existing = match lookup(env, "SCREENSHOTS"@) {
                    Some(VarModel::List(items)) => items,
                    _ => Seq::empty(),
                };
                (
                    env_insert(
                        env,
                        "SCREENSHOTS"@,
                        VarModel::List(existing + texts_to_items(refs)),
                    ),
                    w,
                )
            },
            None => (env, fail(w, ExecFailure::ScreenshotUnavailable)),
        },
    }
}

/// Whether every item of a list is a record.
pub open spec fn all_records(items: Seq<VarModel>) -> bool {
    forall|i: int| 0 <= i < items.len() ==> (#[trigger] items[i]) is Record
}

/// The store after a record's fields are merged in, in entry order,
/// overwriting same-named variables.
pub open spec fn merge_entries(env: EnvModel, entries: EnvModel) -> EnvModel
    decreases entries.len(),
{
    if entries.len() == 0 {
        env
    } else {
        merge_entries(env_insert(env, entries[0].0, entries[0].1), entries.drop_first())
    }
}

/// What executing one node does to the store and the world.
pub open spec fn exec_node_spec(n: Node, env: EnvModel, w: WorldModel) -> (EnvModel, WorldModel)
    decreases n, 0nat, 0nat,
{
    match n {
        Node::Instr(ins) => instr_step(ins, env, w),
        Node::Cond(c) => exec_cond_spec(c, env, w),
        Node::Iter(it) => exec_iter_spec(it, env, w),
    }
}

/// What executing a run of nodes, in order, does.
pub open spec fn exec_nodes_spec(nodes: Seq<Node>, env: EnvModel, w: WorldModel) -> (
    EnvModel,
    WorldModel,
)
    decreases nodes, 0nat, 0nat,
{
    if nodes.len() == 0 {
        (env, w)
    } else {
        let r = exec_node_spec(nodes[0], env, w);
        exec_nodes_spec(nodes.drop_first(), r.0, r.1)
    }
}

/// What executing a conditional does: the body runs when some `OR` group
/// matches; otherwise the first matching `ELSEIF` branch runs; otherwise
/// the `ELSE` body, where there is one; otherwise the no-branch failure is
/// logged.
pub open spec fn exec_cond_spec(c: Conditional, env: EnvModel, w: WorldModel) -> (
    EnvModel,
    WorldModel,
)
    decreases c, c.else_ifs@.len() + 1, 0nat,
{
    if groups_match(env, c.groups@) {
        exec_nodes_spec(c.body@, env, w)
    } else {
        exec_elseifs_spec(c, 0, env, w)
    }
}

/// What the `ELSEIF` chain from index `idx` does when nothing before it
/// matched.
pub open spec fn exec_elseifs_spec(c: Conditional, idx: int, env: EnvModel, w: WorldModel) -> (
    EnvModel,
    WorldModel,
)
    decreases c, c.else_ifs@.len() - idx, 0nat,
{
    if idx < 0 || idx >= c.else_ifs@.len() {
        match c.else_body {
            Some(eb) => exec_nodes_spec(eb@, env, w),
            None => (env, fail(w, ExecFailure::NoBranchMatched)),
        }
    } else if groups_match(env, c.else_ifs@[idx].groups@) {
        exec_nodes_spec(c.else_ifs@[idx].body@, env, w)
    } else {
        exec_elseifs_spec(c, idx + 1, env, w)
    }
}

/// What executing an iteration does: the named variable must hold a list of
/// records; each record's fields are merged into the store and the body
/// runs once per element, in order; the merged fields stay afterwards.  A
/// missing variable, a non-list, or a non-record element is a logged
/// failure and nothing runs.
pub open spec fn exec_iter_spec(it: Iterative, env: EnvModel, w: WorldModel) -> (
    EnvModel,
    WorldModel,
)
    decreases it, 0nat, 0nat,
{
    match lookup(env, it.key@) {
        Some(VarModel::List(items)) => if all_records(items) {
            iter_elems_spec(it.body@, items, env, w)
        } else {
            (env, fail(w, ExecFailure::ElementNotARecord))
        },
        Some(_) => (env, fail(w, ExecFailure::NotAList)),
        None => (env, fail(w, ExecFailure::MissingVariable)),
    }
}

/// Runs the body once per record of `items`, merging each record first.
pub open spec fn iter_elems_spec(
    body: Seq<Node>,
    items: Seq<VarModel>,
    env: EnvModel,
    w: WorldModel,
) -> (EnvModel, WorldModel)
    decreases body, items.len(), 1nat,
{
    if items.len() == 0 {
        (env, w)
    } else {
        let env1 = merge_entries(env, items[0]->Record_0);
        let r = exec_nodes_spec(body, env1, w);
        iter_elems_spec(body, items.drop_first(), r.0, r.1)
    }
}


/// Appending one text appends its model.
proof fn lemma_texts_model_push(ss: Seq<String>, s: String)
    ensures
        texts_model(ss.push(s)) =~= texts_model(ss).push(s@),
{
}

/// Appending one event appends its model.
proof fn lemma_events_model_push(es: Seq<Event>, e: Event)
    ensures
        events_model(es.push(e)) =~= events_model(es).push(e@),
{
}

/// The whole correspondence between a list of texts and its model.
proof fn lemma_texts_model_all(ss: Seq<String>)
    ensures
        texts_model(ss).len() == ss.len(),
        forall|i: int| 0 <= i < ss.len() ==> #[trigger] texts_model(ss)[i] == ss[i]@,
{
}

/// The whole correspondence between a list of windows and its model.
proof fn lemma_windows_model_all(ws: Seq<Window>)
    ensures
        windows_model(ws).len() == ws.len(),
        forall|i: int| 0 <= i < ws.len() ==> #[trigger] windows_model(ws)[i] == ws[i]@,
{
}

/// What a list of items yields as windows, item by item.
proof fn lemma_windows_of_items(items: Seq<VarModel>)
    ensures
        match windows_of_items(items) {
            Some(ws) => {
                &&& ws.len() == items.len()
                &&& forall|i: int|
                    0 <= i < items.len() ==> (#[trigger] items[i]) is Record && record_to_window(
                        items[i]->Record_0,
                    ) == Some(ws[i])
            },
            None => exists|i: int|
                0 <= i < items.len() && !((#[trigger] items[i]) is Record && record_to_window(
                    items[i]->Record_0,
                ) is Some),
        },
    decreases items.len(),
{
    if items.len() > 0 {
        lemma_windows_of_items(items.drop_first());
        assert(forall|i: int| 1 <= i < items.len() ==> items.drop_first()[i - 1] == items[i]);
        match items[0] {
            VarModel::Record(entries) => {
                match record_to_window(entries) {
                    Some(w) => {
                        match windows_of_items(items.drop_first()) {
                            Some(r) => {
                                assert(windows_of_items(items) == Some(seq![w] + r));
                                let ws = seq![w] + r;
                                assert(forall|i: int| 1 <= i < items.len() ==> ws[i] == r[i - 1]);
                            },
                            None => {},
                        }
                    },
                    None => {},
                }
            },
            _ => {},
        }
    }
}

/// What a list of items yields as texts, item by item.
proof fn lemma_texts_of_items(items: Seq<VarModel>)
    ensures
        match texts_of_items(items) {
            Some(ts) => {
                &&& ts.len() == items.len()
                &&& forall|i: int|
                    0 <= i < items.len() ==> (#[trigger] items[i]) is Text && ts[i]
                        == items[i]->Text_0
            },
            None => exists|i: int| 0 <= i < items.len() && !((#[trigger] items[i]) is Text),
        },
    decreases items.len(),
{
    if items.len() > 0 {
        lemma_texts_of_items(items.drop_first());
        assert(forall|i: int| 1 <= i < items.len() ==> items.drop_first()[i - 1] == items[i]);
        match items[0] {
            VarModel::Text(s) => {
                match texts_of_items(items.drop_first()) {
                    Some(r) => {
                        let ts = seq![s] + r;
                        assert(texts_of_items(items) == Some(ts));
                        assert(forall|i: int| 1 <= i < items.len() ==> ts[i] == r[i - 1]);
                    },
                    None => {},
                }
            },
            _ => {},
        }
    }
}

/// Performs `SAVE_TO_DB`; see `save_step`.
#[verifier::loop_isolation(false)]
fn execute_save(env: &mut VariableMap, world: &mut World)
    ensures
        final(env)@ == save_step(old(env)@, old(world)@).0,
        final(world)@ == save_step(old(env)@, old(world)@).1,
{
    let ghost env0 = env@;
    let ghost w0 = world@;
    let rule_id: String = match env.get("RULE_ID") {
        Some(Variable::Text(t)) => t.clone(),
        _ => {
            world.failures.push(ExecFailure::MissingEventField);
            assert(world@ =~= fail(w0, ExecFailure::MissingEventField));
            return ;
        },
    };
    let rule_body: String = match env.get("RULE_BODY") {
        Some(Variable::Text(t)) => t.clone(),
        _ => {
            world.failures.push(ExecFailure::MissingEventField);
            assert(world@ =~= fail(w0, ExecFailure::MissingEventField));
            return ;
        },
    };
    let seconds: u64 = match env.get("SECONDS_SINCE_LAST_INPUT") {
        Some(Variable::Counter64(n)) => *n,
        _ => {
            world.failures.push(ExecFailure::MissingEventField);
            assert(world@ =~= fail(w0, ExecFailure::MissingEventField));
            return ;
        },
    };
    let windows: Vec<Window> = match env.get("WINDOWS") {
        Some(Variable::List(items)) => {
            let ghost items_m = lookup(env0, "WINDOWS"@)->0->List_0;
            proof {
                lemma_views_of_list_all(items@);
            }
            let n = items.len();
            let mut out: Vec<Window> = Vec::new();
            let mut i: usize = 0;
            while i < n
                invariant
                    i <= n,
                    n == items@.len(),
                    items_m.len() == n,
                    forall|j: int| 0 <= j < n ==> #[trigger] items_m[j] == items@[j]@,
                    out@.len() == i,
                    world@ == w0,
                    forall|j: int|
                        0 <= j < i ==> items_m[j] is Record && record_to_window(
                            (#[trigger] items_m[j])->Record_0,
                        ) == Some(out@[j]@),
                decreases n - i,
            {
                match &items[i] {
                    Variable::Record(m) => {
                        match Window::from_record(m) {
                            Some(w) => {
                                out.push(w);
                            },
                            None => {
                                proof {
                                    lemma_windows_of_items(items_m);
                                    assert(items_m[i as int] == items@[i as int]@);
                                    assert(!(items_m[i as int] is Record && record_to_window(
                                        items_m[i as int]->Record_0,
                                    ) is Some));
                                    assert(windows_of_items(items_m) is None);
                                }
                                world.failures.push(ExecFailure::MissingEventField);
                                assert(world@ =~= fail(w0, ExecFailure::MissingEventField));
                                return ;
                            },
                        }
                    },
                    _ => {
                        proof {
                            lemma_windows_of_items(items_m);
                            assert(items_m[i as int] == items@[i as int]@);
                            assert(!(items_m[i as int] is Record));
                            assert(windows_of_items(items_m) is None);
                        }
                        world.failures.push(ExecFailure::MissingEventField);
                        assert(world@ =~= fail(w0, ExecFailure::MissingEventField));
                        return ;
                    },
                }
                i += 1;
            }
            proof {
                lemma_windows_of_items(items_m);
                if windows_of_items(items_m) is None {
                    let bad = choose|i: int|
                        0 <= i < items_m.len() && !((#[trigger] items_m[i]) is Record
                            && record_to_window(items_m[i]->Record_0) is Some);
                    assert(false);
                }
                lemma_windows_model_all(out@);
                assert(windows_of_items(items_m)->0.len() == items_m.len());
                assert(out@.len() == items_m.len());
                assert forall|j: int| 0 <= j < out@.len() implies #[trigger] windows_model(
                    out@,
                )[j] == windows_of_items(items_m)->0[j] by {
                    assert(items_m[j] is Record);
                    assert(record_to_window(items_m[j]->Record_0) == Some(out@[j]@));
                    assert(record_to_window(items_m[j]->Record_0) == Some(
                        windows_of_items(items_m)->0[j],
                    ));
                    assert(windows_model(out@)[j] == out@[j]@);
                }
                assert(windows_model(out@) =~= windows_of_items(items_m)->0);
            }
            out
        },
        _ => {
            world.failures.push(ExecFailure::MissingEventField);
            assert(world@ =~= fail(w0, ExecFailure::MissingEventField));
            return ;
        },
    };
    let screenshots: Option<Vec<String>> = match env.get("SCREENSHOTS") {
        Some(Variable::List(items)) => {
            let ghost items_m = lookup(env0, "SCREENSHOTS"@)->0->List_0;
            proof {
                lemma_views_of_list_all(items@);
                assert(views_of_list(items@) =~= items_m);
            }
            collect_texts(items)
        },
        _ => None,
    };
    let network: Option<String> = match env.get("NETWORK_SSID") {
        Some(Variable::Text(t)) => Some(t.clone()),
        _ => None,
    };
    let event = Event {
        windows,
        screenshots,
        rule: Some(Rule { id: rule_id, body: rule_body }),
        network,
        keyboard: world.keystrokes,
        mouse: world.mouse_clicks,
        seconds_since_last_input: seconds,
    };
    let ghost event_m = event@;
    world.events.push(event);
    world.keystrokes = 0;
    world.mouse_clicks = 0;
    world.counters_reset = true;
    store_insert(env, "SCREENSHOTS", Variable::List(Vec::new()));
    proof {
        lemma_events_model_push(world.events@.drop_last(), world.events@.last());
        assert(event_m =~= save_step(env0, w0).1.events.last());
        assert(world@ =~= save_step(env0, w0).1);
        assert(VarModel::List(views_of_list(Seq::<Variable>::empty())) == VarModel::List(
            Seq::<VarModel>::empty(),
        ));
        assert(env@ == save_step(env0, w0).0);
    }
}


/// The texts of a list of text values, or nothing when some element is not
/// a text; see `texts_of_items`.
#[verifier::loop_isolation(false)]
fn collect_texts(items: &Vec<Variable>) -> (r: Option<Vec<String>>)
    ensures
        match r {
            Some(ts) => texts_of_items(views_of_list(items@)) == Some(texts_model(ts@)),
            None => texts_of_items(views_of_list(items@)) is None,
        },
{
    let ghost items_m = views_of_list(items@);
    proof {
        lemma_views_of_list_all(items@);
        lemma_texts_of_items(items_m);
    }
    let n = items.len();
    let mut out: Vec<String> = Vec::new();
    let mut i: usize = 0;
    while i < n
        invariant
            i <= n,
            n == items@.len(),
            out@.len() == i,
            forall|j: int|
                0 <= j < i ==> (#[trigger] items_m[j]) is Text && out@[j]@ == items_m[j]->Text_0,
        decreases n - i,
    {
        match &items[i] {
            Variable::Text(t) => {
                out.push(t.clone());
            },
            _ => {
                assert(!(items_m[i as int] is Text));
                return None;
            },
        }
        i += 1;
    }
    proof {
        if texts_of_items(items_m) is None {
            let bad = choose|j: int| 0 <= j < items_m.len() && !((#[trigger] items_m[j]) is Text);
            assert(false);
        }
        lemma_texts_model_all(out@);
        assert forall|j: int| 0 <= j < out@.len() implies #[trigger] texts_model(out@)[j]
            == texts_of_items(items_m)->0[j] by {
            assert(items_m[j] is Text);
            assert(out@[j]@ == items_m[j]->Text_0);
            assert(texts_of_items(items_m)->0[j] == items_m[j]->Text_0);
            assert(texts_model(out@)[j] == out@[j]@);
        }
        assert(texts_model(out@) =~= texts_of_items(items_m)->0);
    }
    Some(out)
}



/// The whole correspondence between texts and their list items.
proof fn lemma_texts_to_items_all(rs: Seq<Seq<char>>)
    ensures
        texts_to_items(rs).len() == rs.len(),
        forall|i: int|
            0 <= i < rs.len() ==> #[trigger] texts_to_items(rs)[i] == VarModel::Text(rs[i]),
{
}

/// Performs one instruction; see `instr_step`.
#[verifier::loop_isolation(false)]
pub fn execute_instruction(ins: &Instruction, env: &mut VariableMap, world: &mut World)
    ensures
        final(env)@ == instr_step(*ins, old(env)@, old(world)@).0,
        final(world)@ == instr_step(*ins, old(env)@, old(world)@).1,
{
    let ghost env0 = env@;
    let ghost w0 = world@;
    match ins {
        Instruction::Print(PrintArg::Literal(s)) => {
            world.outputs.push(s.clone());
            proof {
                lemma_texts_model_push(world.outputs@.drop_last(), world.outputs@.last());
                assert(world@ =~= instr_step(*ins, env0, w0).1);
            }
        },
        Instruction::Print(PrintArg::Var(x)) => {
            match env.get(x.as_str()) {
                Some(v) => {
                    let line = v.render();
                    world.outputs.push(line);
                    proof {
                        lemma_texts_model_push(world.outputs@.drop_last(), world.outputs@.last());
                        assert(world@ =~= instr_step(*ins, env0, w0).1);
                    }
                },
                None => {
                    world.failures.push(ExecFailure::MissingVariable);
                    assert(world@ =~= fail(w0, ExecFailure::MissingVariable));
                },
            }
        },
        Instruction::SaveToDb => {
            execute_save(env, world);
        },
        Instruction::GetNetworkSsid => {
            let ssid: Option<String> = match &world.network_ssid {
                Some(s) => Some(s.clone()),
                None => None,
            };
            match ssid {
                Some(s) => {
                    store_insert(env, "NETWORK_SSID", Variable::Text(s));
                },
                None => {},
            }
        },
        Instruction::GetPeripherals => {
            let keys = world.keystrokes;
            let clicks = world.mouse_clicks;
            store_insert(env, "KEYSTROKES", Variable::Int(keys));
            store_insert(env, "MOUSE_CLICKS", Variable::Int(clicks));
        },
        Instruction::GetWindows => {
            let has_capture = world.capture.is_some();
            if !has_capture {
                world.failures.push(ExecFailure::CaptureUnavailable);
                assert(world@ =~= fail(w0, ExecFailure::CaptureUnavailable));
                return ;
            }
            let (records, seconds): (Vec<Variable>, u64) = match &world.capture {
                Some(c) => {
                    let ghost cap_m = w0.capture->0;
                    let n = c.windows.len();
                    let mut records: Vec<Variable> = Vec::new();
                    let mut i: usize = 0;
                    proof {
                        lemma_windows_model_all(c.windows@);
                    }
                    while i < n
                        invariant
                            i <= n,
                            n == c.windows@.len(),
                            records@.len() == i,
                            forall|j: int|
                                0 <= j < i ==> (#[trigger] records@[j])@ == VarModel::Record(
                                    window_record_model(c.windows@[j]@),
                                ),
                        decreases n - i,
                    {
                        let rec = c.windows[i].to_record();
                        records.push(Variable::Record(rec));
                        i += 1;
                    }
                    (records, c.seconds_since_last_input)
                },
                None => {
                    proof {
                        assert(false);
                    }
                    (Vec::new(), 0)
                },
            };
            proof {
                lemma_views_of_list_all(records@);
                lemma_windows_model_all(world.capture->Some_0.windows@);
                assert(views_of_list(records@) =~= records_of_windows(w0.capture->0.windows));
            }
            store_insert(env, "WINDOWS", Variable::List(records));
            store_insert(env, "SECONDS_SINCE_LAST_INPUT", Variable::Counter64(seconds));
        },
        Instruction::CaptureScreen(_) => {
            let has_refs = world.screenshots.is_some();
            if !has_refs {
                world.failures.push(ExecFailure::ScreenshotUnavailable);
                assert(world@ =~= fail(w0, ExecFailure::ScreenshotUnavailable));
                return ;
            }
            let ghost refs_m = w0.screenshots->0;
            let refs: Vec<String> = match &world.screenshots {
                Some(rs) => {
                    proof {
                        lemma_texts_model_all(rs@);
                    }
                    let n = rs.len();
                    let mut out: Vec<String> = Vec::new();
                    let mut i: usize = 0;
                    while i < n
                        invariant
                            i <= n,
                            n == rs@.len(),
                            refs_m.len() == n,
                            out@.len() == i,
                            forall|j: int| 0 <= j < i ==> (#[trigger] out@[j])@ == refs_m[j],
                        decreases n - i,
                    {
                        out.push(rs[i].clone());
                        proof {
                            assert(refs_m[i as int] == rs@[i as int]@);
                        }
                        i += 1;
                    }
                    out
                },
                None => {
                    proof {
                        assert(false);
                    }
                    Vec::new()
                },
            };
            let mut items: Vec<Variable> = match env.get("SCREENSHOTS") {
                Some(Variable::List(existing)) => {
                    let n = existing.len();
                    let mut out: Vec<Variable> = Vec::new();
                    let mut i: usize = 0;
                    proof {
                        lemma_views_of_list_all(existing@);
                    }
                    while i < n
                        invariant
                            i <= n,
                            n == existing@.len(),
                            out@.len() == i,
                            forall|j: int| 0 <= j < i ==> (#[trigger] out@[j])@ == existing@[j]@,
                        decreases n - i,
                    {
                        out.push(existing[i].duplicate());
                        i += 1;
                    }
                    proof {
                        lemma_views_of_list_all(out@);
                        lemma_views_of_list_all(existing@);
                        assert(views_of_list(out@) =~= views_of_list(existing@));
                    }
                    out
                },
                _ => Vec::new(),
            };
            let ghost existing_m = match lookup(env0, "SCREENSHOTS"@) {
                Some(VarModel::List(xs)) => xs,
                _ => Seq::<VarModel>::empty(),
            };
            proof {
                lemma_views_of_list_all(items@);
                assert(views_of_list(items@) =~= existing_m);
            }
            let m = refs.len();
            let mut k: usize = 0;
            let ghost items_before = items@;
            while k < m
                invariant
                    k <= m,
                    m == refs@.len(),
                    items@.len() == items_before.len() + k,
                    forall|j: int|
                        0 <= j < items_before.len() ==> #[trigger] items@[j] == items_before[j],
                    refs_m.len() == m,
                    forall|j: int| 0 <= j < m ==> (#[trigger] refs@[j])@ == refs_m[j],
                    forall|j: int|
                        items_before.len() <= j < items_before.len() + k ==> (
                        #[trigger] items@[j])@ == VarModel::Text(
                            refs_m[j - items_before.len()],
                        ),
                decreases m - k,
            {
                items.push(Variable::Text(refs[k].clone()));
                k += 1;
            }
            proof {
                lemma_views_of_list_all(items@);
                lemma_views_of_list_all(items_before);
                lemma_texts_to_items_all(refs_m);
                assert(views_of_list(items@) =~= existing_m + texts_to_items(refs_m));
            }
            store_insert(env, "SCREENSHOTS", Variable::List(items));
        },
    }
}

/// Executes a run of nodes in order; see `exec_nodes_spec`.
#[verifier::loop_isolation(false)]
pub fn execute_nodes(nodes: &Vec<Node>, env: &mut VariableMap, world: &mut World)
    ensures
        final(env)@ == exec_nodes_spec(nodes@, old(env)@, old(world)@).0,
        final(world)@ == exec_nodes_spec(nodes@, old(env)@, old(world)@).1,
    decreases *nodes,
{
    let ghost env0 = env@;
    let ghost w0 = world@;
    let n = nodes.len();
    let mut i: usize = 0;
    proof {
        assert(nodes@.skip(0) =~= nodes@);
    }
    while i < n
        invariant
            i <= n,
            exec_nodes_spec(nodes@, env0, w0) == exec_nodes_spec(nodes@.skip(i as int), env@, world@),
        decreases n - i,
    {
        let ghost env_pre = env@;
        let ghost w_pre = world@;
        proof {
            assert(nodes@.skip(i as int)[0] == nodes@[i as int]);
            assert(nodes@.skip(i as int).drop_first() =~= nodes@.skip(i + 1));
            assert(decreases_to!(*nodes => nodes@[i as int]));
        }
        execute_node(&nodes[i], env, world);
        proof {
            let r = exec_node_spec(nodes@[i as int], env_pre, w_pre);
            assert(env@ == r.0 && world@ == r.1);
            assert(exec_nodes_spec(nodes@.skip(i as int), env_pre, w_pre) == exec_nodes_spec(
                nodes@.skip(i + 1),
                r.0,
                r.1,
            ));
        }
        i += 1;
    }
    proof {
        assert(nodes@.skip(n as int) =~= Seq::<Node>::empty());
    }
}

/// Executes one node; see `exec_node_spec`.
pub fn execute_node(n: &Node, env: &mut VariableMap, world: &mut World)
    ensures
        final(env)@ == exec_node_spec(*n, old(env)@, old(world)@).0,
        final(world)@ == exec_node_spec(*n, old(env)@, old(world)@).1,
    decreases *n,
{
    match n {
        Node::Instr(ins) => {
            execute_instruction(ins, env, world);
        },
        Node::Cond(c) => {
            proof {
                assert(decreases_to!(*n => *c));
            }
            execute_conditional(c, env, world);
        },
        Node::Iter(it) => {
            proof {
                assert(decreases_to!(*n => *it));
            }
            execute_iterative(it, env, world);
        },
    }
}

/// Executes a conditional; see `exec_cond_spec`.
#[verifier::loop_isolation(false)]
pub fn execute_conditional(c: &Conditional, env: &mut VariableMap, world: &mut World)
    ensures
        final(env)@ == exec_cond_spec(*c, old(env)@, old(world)@).0,
        final(world)@ == exec_cond_spec(*c, old(env)@, old(world)@).1,
    decreases *c,
{
    let ghost env0 = env@;
    let ghost w0 = world@;

            if eval_groups(env, &c.groups) {
                proof {
                    assert(decreases_to!(*c => c.body));
                }
                execute_nodes(&c.body, env, world);
                return ;
            }
            let n_e = c.else_ifs.len();
            let mut idx: usize = 0;
            while idx < n_e
                invariant
                    idx <= n_e,
                    n_e == c.else_ifs@.len(),
                    env@ == env0,
                    world@ == w0,
                    exec_elseifs_spec(*c, 0, env0, w0) == exec_elseifs_spec(*c, idx as int, env0, w0),
                decreases n_e - idx,
            {
                if eval_groups(env, &c.else_ifs[idx].groups) {
                    proof {
                        assert(decreases_to!(*c => c.else_ifs@[idx as int].body));
                    }
                    execute_nodes(&c.else_ifs[idx].body, env, world);
                    proof {
                        assert(exec_elseifs_spec(*c, idx as int, env0, w0) == exec_nodes_spec(
                            c.else_ifs@[idx as int].body@,
                            env0,
                            w0,
                        ));
                    }
                    return ;
                }
                proof {
                    assert(exec_elseifs_spec(*c, idx as int, env0, w0) == exec_elseifs_spec(
                        *c,
                        idx + 1,
                        env0,
                        w0,
                    ));
                }
                idx += 1;
            }
            match &c.else_body {
                Some(eb) => {
                    proof {
                        assert(decreases_to!(*c => c.else_body->0));
                    }
                    execute_nodes(eb, env, world);
                    proof {
                        assert(exec_elseifs_spec(*c, n_e as int, env0, w0) == exec_nodes_spec(
                            c.else_body->0@,
                            env0,
                            w0,
                        ));
                    }
                },
                None => {
                    world.failures.push(ExecFailure::NoBranchMatched);
                    proof {
                        assert(world@ =~= fail(w0, ExecFailure::NoBranchMatched));
                        assert(exec_elseifs_spec(*c, n_e as int, env0, w0) == (
                            env0,
                            fail(w0, ExecFailure::NoBranchMatched),
                        ));
                    }
                },
            }
}

/// Executes an iteration; see `exec_iter_spec`.
#[verifier::loop_isolation(false)]
pub fn execute_iterative(it: &Iterative, env: &mut VariableMap, world: &mut World)
    ensures
        final(env)@ == exec_iter_spec(*it, old(env)@, old(world)@).0,
        final(world)@ == exec_iter_spec(*it, old(env)@, old(world)@).1,
    decreases *it,
{
    let ghost env0 = env@;
    let ghost w0 = world@;

            let snapshot: Vec<Variable> = match env.get(it.key.as_str()) {
                Some(Variable::List(items)) => {
                    let n_i = items.len();
                    let mut out: Vec<Variable> = Vec::new();
                    let mut i: usize = 0;
                    proof {
                        lemma_views_of_list_all(items@);
                    }
                    while i < n_i
                        invariant
                            i <= n_i,
                            n_i == items@.len(),
                            out@.len() == i,
                            forall|j: int| 0 <= j < i ==> (#[trigger] out@[j])@ == items@[j]@,
                        decreases n_i - i,
                    {
                        out.push(items[i].duplicate());
                        i += 1;
                    }
                    proof {
                        lemma_views_of_list_all(out@);
                        lemma_views_of_list_all(items@);
                        assert(views_of_list(out@) =~= lookup(env0, it.key@)->0->List_0);
                    }
                    out
                },
                Some(_) => {
                    world.failures.push(ExecFailure::NotAList);
                    proof {
                        assert(world@ =~= fail(w0, ExecFailure::NotAList));
                    }
                    return ;
                },
                None => {
                    world.failures.push(ExecFailure::MissingVariable);
                    proof {
                        assert(world@ =~= fail(w0, ExecFailure::MissingVariable));
                    }
                    return ;
                },
            };
            let ghost items_m = lookup(env0, it.key@)->0->List_0;
            proof {
                lemma_views_of_list_all(snapshot@);
            }
            let n_i = snapshot.len();
            let mut i: usize = 0;
            while i < n_i
                invariant
                    i <= n_i,
                    n_i == snapshot@.len(),
                    items_m.len() == n_i,
                    env@ == env0,
                    world@ == w0,
                    forall|j: int| 0 <= j < n_i ==> #[trigger] items_m[j] == snapshot@[j]@,
                    forall|j: int| 0 <= j < i ==> (#[trigger] items_m[j]) is Record,
                decreases n_i - i,
            {
                match &snapshot[i] {
                    Variable::Record(_) => {},
                    _ => {
                        proof {
                            assert(!(items_m[i as int] is Record));
                            assert(!all_records(items_m));
                        }
                        world.failures.push(ExecFailure::ElementNotARecord);
                        proof {
                            assert(world@ =~= fail(w0, ExecFailure::ElementNotARecord));
                        }
                        return ;
                    },
                }
                i += 1;
            }
            assert(all_records(items_m));
            let mut e: usize = 0;
            proof {
                assert(items_m.skip(0) =~= items_m);
            }
            while e < n_i
                invariant
                    e <= n_i,
                    n_i == snapshot@.len(),
                    items_m.len() == n_i,
                    forall|j: int| 0 <= j < n_i ==> #[trigger] items_m[j] == snapshot@[j]@,
                    iter_elems_spec(it.body@, items_m, env0, w0) == iter_elems_spec(
                        it.body@,
                        items_m.skip(e as int),
                        env@,
                        world@,
                    ),
                decreases n_i - e,
            {
                let ghost env_pre = env@;
                let ghost w_pre = world@;
                match &snapshot[e] {
                    Variable::Record(rec) => {
                        let ghost rec_m = items_m[e as int]->Record_0;
                        let n_f = rec.len();
                        let mut f: usize = 0;
                        proof {
                            assert(rec_m.skip(0) =~= rec_m);
                        }
                        while f < n_f
                            invariant
                                f <= n_f,
                                n_f == rec.spec_len(),
                                rec_m == rec@,
                                rec_m.len() == n_f,
                                merge_entries(env_pre, rec_m) == merge_entries(
                                    env@,
                                    rec_m.skip(f as int),
                                ),
                            decreases n_f - f,
                        {
                            proof {
                                assert(rec_m.skip(f as int)[0] == rec_m[f as int]);
                                assert(rec_m.skip(f as int).drop_first() =~= rec_m.skip(f + 1));
                            }
                            let key: String = rec.key_at(f).clone();
                            let val = rec.value_at(f).duplicate();
                            store_insert(env, key.as_str(), val);
                            f += 1;
                        }
                        proof {
                            assert(rec_m.skip(n_f as int) =~= Seq::<(Seq<char>, VarModel)>::empty());
                            assert(env@ == merge_entries(env_pre, rec_m));
                        }
                    },
                    _ => {
                        proof {
                            assert(false);
                        }
                    },
                }
                proof {
                    assert(decreases_to!(*it => it.body));
                }
                execute_nodes(&it.body, env, world);
                proof {
                    assert(items_m.skip(e as int)[0] == items_m[e as int]);
                    assert(items_m.skip(e as int).drop_first() =~= items_m.skip(e + 1));
                    let r = exec_nodes_spec(it.body@, merge_entries(env_pre, items_m[e as int]->Record_0), w_pre);
                    assert(iter_elems_spec(it.body@, items_m.skip(e as int), env_pre, w_pre)
                        == iter_elems_spec(it.body@, items_m.skip(e + 1), r.0, r.1));
                }
                e += 1;
            }
            proof {
                assert(items_m.skip(n_i as int) =~= Seq::<VarModel>::empty());
            }
}

impl Program {
    /// Executes the whole body once against the store and the world: one
    /// tick.
    pub fn execute_tick(&self, env: &mut VariableMap, world: &mut World)
        ensures
            final(env)@ == exec_nodes_spec(self.body@, old(env)@, old(world)@).0,
            final(world)@ == exec_nodes_spec(self.body@, old(env)@, old(world)@).1,
    {
        execute_nodes(&self.body, env, world);
    }
}


// ---------------------------------------------------------------------------
// Laws of execution
// ---------------------------------------------------------------------------

/// Binding a name changes that name's value and no other.
pub proof fn lemma_env_insert_lookup(env: EnvModel, key: Seq<char>, val: VarModel)
    ensures
        forall|k: Seq<char>|
            #[trigger] lookup(env_insert(env, key, val), k) == if k == key {
                Some(val)
            } else {
                lookup(env, k)
            },
    decreases env.len(),
{
    if env.len() == 0 {
        assert forall|k: Seq<char>|
            #[trigger] lookup(env_insert(env, key, val), k) == if k == key {
                Some(val)
            } else {
                lookup(env, k)
            } by {
            assert(env_insert(env, key, val) == seq![(key, val)]);
            if k != key {
                assert(seq![(key, val)].drop_first() =~= env);
            }
        }
    } else if env[0].0 == key {
        assert forall|k: Seq<char>|
            #[trigger] lookup(env_insert(env, key, val), k) == if k == key {
                Some(val)
            } else {
                lookup(env, k)
            } by {
            let r = seq![(key, val)] + env.drop_first();
            assert(env_insert(env, key, val) == r);
            assert(r[0] == (key, val));
            if k != key {
                assert(r.drop_first() =~= env.drop_first());
                assert(lookup(r, k) == lookup(env.drop_first(), k));
                assert(lookup(env, k) == lookup(env.drop_first(), k));
            }
        }
    } else {
        lemma_env_insert_lookup(env.drop_first(), key, val);
        assert forall|k: Seq<char>|
            #[trigger] lookup(env_insert(env, key, val), k) == if k == key {
                Some(val)
            } else {
                lookup(env, k)
            } by {
            let r = seq![env[0]] + env_insert(env.drop_first(), key, val);
            assert(env_insert(env, key, val) == r);
            assert(r[0] == env[0]);
            assert(r.drop_first() =~= env_insert(env.drop_first(), key, val));
            assert(lookup(r, k) == if r[0].0 == k {
                Some(r[0].1)
            } else {
                lookup(env_insert(env.drop_first(), key, val), k)
            });
            assert(lookup(env, k) == if env[0].0 == k {
                Some(env[0].1)
            } else {
                lookup(env.drop_first(), k)
            });
        }
    }
}

/// Equality coercion: a variable holding a number equals a raw literal
/// exactly when the literal reads as that number.
pub proof fn lemma_equality_coercion(env: EnvModel, x: Seq<char>, lit: String, n: nat)
    requires
        lookup(env, x) == Some(VarModel::Int(n)),
    ensures
        forall|xs: String|
            xs@ == x ==> (#[trigger] eval_cmp(
                env,
                Comparison::Eq {
                    negated: false,
                    lhs: Operand::Ident(xs),
                    rhs: Operand::Literal(lit),
                },
            ) <==> parse_uint(lit@) == Some(n)),
{
    assert forall|xs: String| xs@ == x implies (#[trigger] eval_cmp(
        env,
        Comparison::Eq { negated: false, lhs: Operand::Ident(xs), rhs: Operand::Literal(lit) },
    ) <==> parse_uint(lit@) == Some(n)) by {
        assert(eval_cmp(
            env,
            Comparison::Eq { negated: false, lhs: Operand::Ident(xs), rhs: Operand::Literal(lit) },
        ) == eval_eq(env, Operand::Ident(xs), Operand::Literal(lit)));
        assert(eval_eq(env, Operand::Ident(xs), Operand::Literal(lit)) == matches_literal(
            VarModel::Int(n),
            lit@,
        ));
    }
}

/// After `SAVE_TO_DB` assembles an event, the counters stand at zero, and a
/// following `GET_PERIPHERALS` reads zero for both until the host raises
/// them again.
pub proof fn lemma_counter_reset(env: EnvModel, w: WorldModel)
    ensures
        ({
            let r = save_step(env, w);
            r.1.events.len() == w.events.len() + 1 ==> {
                let r2 = instr_step(Instruction::GetPeripherals, r.0, r.1);
                &&& r.1.keystrokes == 0
                &&& r.1.mouse_clicks == 0
                &&& lookup(r2.0, "KEYSTROKES"@) == Some(VarModel::Int(0))
                &&& lookup(r2.0, "MOUSE_CLICKS"@) == Some(VarModel::Int(0))
            }
        }),
{
    let r = save_step(env, w);
    if r.1.events.len() == w.events.len() + 1 {
        let e1 = env_insert(r.0, "KEYSTROKES"@, VarModel::Int(r.1.keystrokes));
        let e2 = env_insert(e1, "MOUSE_CLICKS"@, VarModel::Int(r.1.mouse_clicks));
        lemma_env_insert_lookup(r.0, "KEYSTROKES"@, VarModel::Int(r.1.keystrokes));
        lemma_env_insert_lookup(e1, "MOUSE_CLICKS"@, VarModel::Int(r.1.mouse_clicks));
        reveal_strlit("KEYSTROKES");
        reveal_strlit("MOUSE_CLICKS");
        assert("KEYSTROKES"@.len() != "MOUSE_CLICKS"@.len());
        assert(lookup(e2, "KEYSTROKES"@) == lookup(e1, "KEYSTROKES"@));
    }
}

/// The state after running a program body `n` times in a row.
pub open spec fn ticks_spec(body: Seq<Node>, n: nat, env: EnvModel, w: WorldModel) -> (
    EnvModel,
    WorldModel,
)
    decreases n,
{
    if n == 0 {
        (env, w)
    } else {
        let r = ticks_spec(body, (n - 1) as nat, env, w);
        exec_nodes_spec(body, r.0, r.1)
    }
}

/// A body holding one `PRINT` of a literal emits exactly that literal, once
/// per tick: after `n` ticks exactly `n` copies stand appended to the
/// output, and the store is unchanged.
pub proof fn lemma_print_ticks(s: String, n: nat, env: EnvModel, w: WorldModel)
    ensures
        ({
            let body = seq![Node::Instr(Instruction::Print(PrintArg::Literal(s)))];
            let r = ticks_spec(body, n, env, w);
            &&& r.0 == env
            &&& r.1.outputs.len() == w.outputs.len() + n
            &&& (forall|i: int| 0 <= i < w.outputs.len() ==> #[trigger] r.1.outputs[i] == w.outputs[i])
            &&& (forall|i: int|
                w.outputs.len() <= i < w.outputs.len() + n ==> #[trigger] r.1.outputs[i] == s@)
            &&& r.1.events == w.events
            &&& r.1.failures == w.failures
        }),
    decreases n,
{
    let body = seq![Node::Instr(Instruction::Print(PrintArg::Literal(s)))];
    if n == 0 {
    } else {
        lemma_print_ticks(s, (n - 1) as nat, env, w);
        let r0 = ticks_spec(body, (n - 1) as nat, env, w);
        let rr = exec_node_spec(body[0], r0.0, r0.1);
        assert(body.drop_first() =~= Seq::<Node>::empty());
        assert(exec_nodes_spec(body, r0.0, r0.1) == exec_nodes_spec(body.drop_first(), rr.0, rr.1));
        assert(exec_nodes_spec(Seq::<Node>::empty(), rr.0, rr.1) == (rr.0, rr.1));
        assert(rr == print_step(PrintArg::Literal(s), r0.0, r0.1));
        assert(rr.1.outputs == r0.1.outputs.push(s@));
        let r = ticks_spec(body, n, env, w);
        assert(r == exec_nodes_spec(body, r0.0, r0.1));
        assert(r.1.outputs == r0.1.outputs.push(s@));
    }
}


// ---------------------------------------------------------------------------
// Seeding a rule's store
// ---------------------------------------------------------------------------

/// The store after the host constants are seeded, in order: the rule's
/// identifier and script, the operating system's kind and version, the
/// battery count where one is known, the hostname, and the user and machine
/// identifiers where they are known.  Battery counts below zero seed as
/// zero.
pub open spec fn seed_model(env: EnvModel, rule: RuleModel, os: OsInfoModel) -> EnvModel {
    let e1 = env_insert(env, "RULE_ID"@, VarModel::Text(rule.id));
    let e2 = env_insert(e1, "RULE_BODY"@, VarModel::Text(rule.body));
    let e3 = env_insert(e2, "OS_TYPE"@, VarModel::Text(os.os_type));
    let e4 = env_insert(e3, "VERSION"@, VarModel::Text(os.version));
    let e5 = match os.batteries {
        Some(b) => env_insert(
            e4,
            "BATTERIES"@,
            VarModel::Int(
                if b >= 0 {
                    b as nat
                } else {
                    0
                },
            ),
        ),
        None => e4,
    };
    let e6 = env_insert(e5, "HOSTNAME"@, VarModel::Text(os.hostname));
    let e7 = match os.username {
        Some(u) => env_insert(e6, "USERNAME"@, VarModel::Text(u)),
        None => e6,
    };
    match os.machine_id {
        Some(m) => env_insert(e7, "MACHINE_ID"@, VarModel::Text(m)),
        None => e7,
    }
}

/// Seeds a rule's store with the host constants; see `seed_model`.
pub fn seed_environment(env: &mut VariableMap, rule: &Rule, os: &OsInfo)
    ensures
        final(env)@ == seed_model(old(env)@, rule@, os@),
{
    store_insert(env, "RULE_ID", Variable::Text(rule.id.clone()));
    store_insert(env, "RULE_BODY", Variable::Text(rule.body.clone()));
    store_insert(env, "OS_TYPE", Variable::Text(os.os_type.clone()));
    store_insert(env, "VERSION", Variable::Text(os.version.clone()));
    match os.batteries {
        Some(b) => {
            let count: usize = if b >= 0 {
                b as usize
            } else {
                0
            };
            store_insert(env, "BATTERIES", Variable::Int(count));
        },
        None => {},
    }
    store_insert(env, "HOSTNAME", Variable::Text(os.hostname.clone()));
    match &os.username {
        Some(u) => {
            store_insert(env, "USERNAME", Variable::Text(u.clone()));
        },
        None => {},
    }
    match &os.machine_id {
        Some(m) => {
            store_insert(env, "MACHINE_ID", Variable::Text(m.clone()));
        },
        None => {},
    }
}


/// Anything in the tree that one call can execute against the store and the
/// world, with a model of what that call does.
pub trait Executable {
    /// What executing this value does.
    spec fn step(&self, env: EnvModel, w: WorldModel) -> (EnvModel, WorldModel);

    /// Executes this value; the store and world land exactly where `step`
    /// says.
    fn execute(&self, env: &mut VariableMap, world: &mut World)
        ensures
            final(env)@ == self.step(old(env)@, old(world)@).0,
            final(world)@ == self.step(old(env)@, old(world)@).1,
    ;
}

impl Executable for Instruction {
    open spec fn step(&self, env: EnvModel, w: WorldModel) -> (EnvModel, WorldModel) {
        instr_step(*self, env, w)
    }

    fn execute(&self, env: &mut VariableMap, world: &mut World) {
        execute_instruction(self, env, world);
    }
}

impl Executable for Conditional {
    open spec fn step(&self, env: EnvModel, w: WorldModel) -> (EnvModel, WorldModel) {
        exec_cond_spec(*self, env, w)
    }

    fn execute(&self, env: &mut VariableMap, world: &mut World) {
        execute_conditional(self, env, world);
    }
}

impl Executable for Iterative {
    open spec fn step(&self, env: EnvModel, w: WorldModel) -> (EnvModel, WorldModel) {
        exec_iter_spec(*self, env, w)
    }

    fn execute(&self, env: &mut VariableMap, world: &mut World) {
        execute_iterative(self, env, world);
    }
}

impl Executable for Node {
    open spec fn step(&self, env: EnvModel, w: WorldModel) -> (EnvModel, WorldModel) {
        exec_node_spec(*self, env, w)
    }

    fn execute(&self, env: &mut VariableMap, world: &mut World) {
        execute_node(self, env, world);
    }
}

} // verus!

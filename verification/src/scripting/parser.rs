//! The parser of the rule language: turns lexed token lines into an
//! executable tree, by recursive descent over the block structure.

use vstd::prelude::*;
use vstd::string::StrSliceExecFns;

use crate::scripting::interpreter::{
    Comparison, Conditional, ElseIf, InTarget, Instruction, Iterative, Node, Operand, PrintArg,
    Program, ScreenTarget,
};
use crate::scripting::lexer::{lex_script, lex_script_spec, str_to_chars, chars_to_string};
use crate::scripting::value::{all_digits, is_digit, parse_u64, parse_uint, str_equal};

verus! {

/// Why a script cannot be built into a program; each variant carries the
/// script line it points at, counted from one.
#[derive(Debug, Clone, Copy, PartialEq, Eq, Structural)]
pub enum ParseError {
    /// No `EVERY` declaration anywhere in the script.
    MissingEvery,
    /// An `EVERY` line without an amount.
    MissingAmount { line: usize },
    /// An `EVERY` line without a time unit.
    MissingUnit { line: usize },
    /// An `EVERY` amount that is not a number, or one too large.
    BadAmount { line: usize },
    /// An `EVERY` time unit that is not one of the four known ones.
    BadUnit { line: usize },
    /// An instruction that needs an argument and has none.
    MissingArgument { line: usize },
    /// A regular expression that does not compile.
    BadRegex { line: usize },
    /// A bracketed array literal that is not well formed.
    BadArray { line: usize },
    /// A comparison whose operands are missing.
    MalformedComparison { line: usize },
    /// An `IF` or `ITERATE` block without its matching `END`.
    UnterminatedBlock { line: usize },
}

// ---------------------------------------------------------------------------
// Trusted regular-expression support
// ---------------------------------------------------------------------------

/// Whether the regex crate accepts `pat` as a pattern.
pub uninterp spec fn regex_ok(pat: Seq<char>) -> bool;

/// Whether the pattern `pat` matches somewhere in `text`, as the regex crate
/// decides it.
pub uninterp spec fn regex_match(pat: Seq<char>, text: Seq<char>) -> bool;

/// Relies on regex::Regex::new: a pattern either compiles or is rejected,
/// and which of the two happens depends on the pattern alone.
#[verifier::external_body]
pub(crate) fn regex_valid(pat: &str) -> (r: bool)
    ensures
        r == regex_ok(pat@),
{
    regex::Regex::new(pat).is_ok()
}

/// Relies on regex::Regex::new and regex::Regex::is_match: whether a pattern
/// matches a text depends on the pattern and the text alone; a pattern that
/// does not compile matches nothing.
#[verifier::external_body]
pub(crate) fn regex_find(pat: &str, text: &str) -> (r: bool)
    ensures
        r == (regex_ok(pat@) && regex_match(pat@, text@)),
{
    match regex::Regex::new(pat) {
        Ok(re) => re.is_match(text),
        Err(_) => false,
    }
}

// ---------------------------------------------------------------------------
// Word-level readings
// ---------------------------------------------------------------------------

/// Whether a token is a quoted string literal rather than a variable name.
pub open spec fn is_quoted(w: Seq<char>) -> bool {
    w.len() >= 1 && (w[0] == '"' || w[0] == '\'' || w[0] == '`')
}

/// A token with its first and last characters removed: the content of a
/// quoted literal.
pub open spec fn strip_quotes(w: Seq<char>) -> Seq<char> {
    if w.len() >= 2 {
        w.subrange(1, w.len() - 1)
    } else {
        Seq::empty()
    }
}

/// The model of one comparison operand.
pub enum OperandSpec {
    Lit(Seq<char>),
    Var(Seq<char>),
}

/// How a raw token reads as an operand: a quoted token is the literal it
/// wraps, any other token names a variable.
pub open spec fn operand_of_word(w: Seq<char>) -> OperandSpec {
    if is_quoted(w) {
        OperandSpec::Lit(strip_quotes(w))
    } else {
        OperandSpec::Var(w)
    }
}

/// The model of an exec operand.
pub open spec fn operand_model(op: Operand) -> OperandSpec {
    match op {
        Operand::Literal(s) => OperandSpec::Lit(s@),
        Operand::Ident(s) => OperandSpec::Var(s@),
    }
}

/// Whether the first character of `w` is `c`; false for an empty token.
fn first_char_is(w: &str, cs: &[char]) -> (r: bool)
    ensures
        r == (w@.len() >= 1 && cs@.contains(w@[0])),
{
    let n = w.unicode_len();
    if n == 0 {
        return false;
    }
    let c0 = w.get_char(0);
    let m = cs.len();
    let mut i: usize = 0;
    while i < m
        invariant
            i <= m,
            m == cs@.len(),
            c0 == w@[0],
            w@.len() >= 1,
            forall|j: int| 0 <= j < i ==> cs@[j] != w@[0],
        decreases m - i,
    {
        if cs[i] == c0 {
            return true;
        }
        i += 1;
    }
    false
}

/// Whether the token is a quoted string literal.
pub fn word_is_quoted(w: &str) -> (r: bool)
    ensures
        r == is_quoted(w@),
{
    let quotes: [char; 3] = ['"', '\'', '`'];
    first_char_is(w, quotes.as_slice())
}

/// The content of a quoted literal: the token without its outer characters.
pub fn word_strip_quotes(w: &str) -> (s: String)
    ensures
        s@ == strip_quotes(w@),
{
    let chars = str_to_chars(w);
    if chars.len() >= 2 {
        let end = chars.len() - 1;
        chars_to_string(&chars, 1, end)
    } else {
        String::new()
    }
}

/// Reads a token as an operand; see `operand_of_word`.
pub fn parse_operand(w: &str) -> (op: Operand)
    ensures
        operand_model(op) == operand_of_word(w@),
{
    if word_is_quoted(w) {
        Operand::Literal(word_strip_quotes(w))
    } else {
        Operand::Ident(w.to_owned())
    }
}

// ---------------------------------------------------------------------------
// Array literals
// ---------------------------------------------------------------------------

/// The position of the first `sep`, if any.
pub open spec fn find_sep(s: Seq<char>, sep: char) -> Option<int>
    decreases s.len(),
{
    if s.len() == 0 {
        None
    } else if s[0] == sep {
        Some(0)
    } else {
        match find_sep(s.drop_first(), sep) {
            Some(i) => Some(i + 1),
            None => None,
        }
    }
}

/// A found separator lies inside the text and is the first one.
pub proof fn lemma_find_sep_in_range(s: Seq<char>, sep: char)
    ensures
        match find_sep(s, sep) {
            Some(i) => 0 <= i < s.len() && s[i] == sep && (forall|j: int|
                0 <= j < i ==> s[j] != sep),
            None => forall|j: int| 0 <= j < s.len() ==> s[j] != sep,
        },
    decreases s.len(),
{
    if s.len() > 0 && s[0] != sep {
        lemma_find_sep_in_range(s.drop_first(), sep);
        assert(forall|j: int| 1 <= j < s.len() ==> s[j] == s.drop_first()[j - 1]);
    }
}

/// The parts of `s` split on `sep`; a text without one is a single part.
pub open spec fn split_sep(s: Seq<char>, sep: char) -> Seq<Seq<char>>
    decreases s.len(),
{
    match find_sep(s, sep) {
        None => seq![s],
        Some(i) => {
            proof {
                lemma_find_sep_in_range(s, sep);
            }
            seq![s.take(i)] + split_sep(s.skip(i + 1), sep)
        },
    }
}

/// A found separator position is the first one.
pub proof fn lemma_find_sep_unique(s: Seq<char>, sep: char, i: int)
    requires
        0 <= i < s.len(),
        s[i] == sep,
        forall|j: int| 0 <= j < i ==> s[j] != sep,
    ensures
        find_sep(s, sep) == Some(i),
    decreases s.len(),
{
    if i > 0 {
        lemma_find_sep_unique(s.drop_first(), sep, i - 1);
        assert(forall|j: int| 1 <= j < s.len() ==> s[j] == s.drop_first()[j - 1]);
    }
}

/// The content of a bracketed array token, with spaces removed: `None` when
/// the token is not bracketed.
pub open spec fn array_inner(w: Seq<char>) -> Option<Seq<char>> {
    if w.len() >= 2 && w[0] == '[' && w.last() == ']' {
        Some(w.subrange(1, w.len() - 1).filter(|c: char| c != ' '))
    } else {
        None
    }
}

/// The literal elements of a bracketed array token: its comma-separated
/// parts, each of which must be a quoted literal; `None` when the token is
/// malformed.
pub open spec fn array_elems(w: Seq<char>) -> Option<Seq<Seq<char>>> {
    match array_inner(w) {
        None => None,
        Some(inner) => {
            let parts = split_sep(inner, ',');
            if forall|i: int|
                0 <= i < parts.len() ==> (#[trigger] parts[i]).len() >= 2 && is_quoted(parts[i]) {
                Some(parts.map_values(|e: Seq<char>| strip_quotes(e)))
            } else {
                None
            }
        },
    }
}

/// The parts of `v` split on `sep`.
#[verifier::loop_isolation(false)]
pub(crate) fn split_chars(v: &Vec<char>, sep: char) -> (parts: Vec<Vec<char>>)
    ensures
        parts@.len() == split_sep(v@, sep).len(),
        forall|k: int|
            0 <= k < parts@.len() ==> (#[trigger] parts@[k])@ == split_sep(v@, sep)[k],
{
    let total = v.len();
    let mut parts: Vec<Vec<char>> = Vec::new();
    let mut pos: usize = 0;
    let ghost goal = split_sep(v@, sep);
    let mut done: bool = false;
    proof {
        assert(parts_model(parts@) =~= Seq::<Seq<char>>::empty());
        assert(v@.skip(0) =~= v@);
        assert(parts_model(parts@) + split_sep(v@.skip(0), sep) =~= split_sep(v@, sep));
    }
    while !done
        invariant
            pos <= total,
            total == v@.len(),
            goal == split_sep(v@, sep),
            !done ==> goal =~= parts_model(parts@) + split_sep(v@.skip(pos as int), sep),
            done ==> goal =~= parts_model(parts@),
            forall|k: int|
                0 <= k < parts@.len() ==> (#[trigger] parts@[k])@ == goal[k],
        decreases total - pos + if done {
            0int
        } else {
            1int
        },
    {
        let ghost rem = v@.skip(pos as int);
        let ghost old_pos = pos as int;
        let mut end: usize = pos;
        while end < total && v[end] != sep
            invariant
                pos <= end <= total,
                total == v@.len(),
                forall|j: int| pos <= j < end ==> v@[j] != sep,
            decreases total - end,
        {
            end += 1;
        }
        proof {
            assert(rem.len() == total - old_pos);
            assert(forall|j: int| 0 <= j < end - old_pos ==> rem[j] == v@[j + old_pos]);
            if end < total {
                lemma_find_sep_unique(rem, sep, end - old_pos);
            } else {
                lemma_find_sep_in_range(rem, sep);
                if find_sep(rem, sep) is Some {
                    let w = find_sep(rem, sep)->0;
                    assert(rem[w] == sep);
                    assert(false);
                }
            }
        }
        let part = copy_char_range(v, pos, end);
        proof {
            assert(part@ =~= rem.take(end - old_pos));
        }
        parts.push(part);
        proof {
            lemma_parts_model_push(parts@.drop_last(), parts@.last());
        }
        if end < total {
            proof {
                assert(split_sep(rem, sep) == seq![rem.take(end - old_pos)] + split_sep(
                    rem.skip(end - old_pos + 1),
                    sep,
                ));
                assert(rem.skip(end - old_pos + 1) =~= v@.skip(end + 1));
                assert(parts_model(parts@) + split_sep(v@.skip(end + 1), sep) =~= parts_model(
                    parts@.drop_last(),
                ) + split_sep(rem, sep));
            }
            pos = end + 1;
        } else {
            proof {
                assert(split_sep(rem, sep) == seq![rem]);
                assert(rem.take(end - old_pos) =~= rem);
                assert(parts_model(parts@) =~= parts_model(parts@.drop_last()) + split_sep(
                    rem,
                    sep,
                ));
            }
            done = true;
        }
    }
    parts
}

/// The exec parts, as mathematical sequences.
pub open spec fn parts_model(parts: Seq<Vec<char>>) -> Seq<Seq<char>> {
    parts.map_values(|p: Vec<char>| p@)
}

/// Gathering one more part appends its model.
proof fn lemma_parts_model_push(parts: Seq<Vec<char>>, p: Vec<char>)
    ensures
        parts_model(parts.push(p)) =~= parts_model(parts).push(p@),
{
}

/// The characters of `v` at positions `start .. end`, as their own vector.
fn copy_char_range(v: &Vec<char>, start: usize, end: usize) -> (r: Vec<char>)
    requires
        start <= end <= v@.len(),
    ensures
        r@ == v@.subrange(start as int, end as int),
{
    let mut r: Vec<char> = Vec::new();
    let mut i: usize = start;
    assert(r@ =~= v@.subrange(start as int, start as int));
    while i < end
        invariant
            start <= i <= end <= v@.len(),
            r@ == v@.subrange(start as int, i as int),
        decreases end - i,
    {
        r.push(v[i]);
        assert(r@ =~= v@.subrange(start as int, i + 1));
        i += 1;
    }
    r
}

/// Reads a bracketed array token into its literal elements; see
/// `array_elems`.
#[verifier::loop_isolation(false)]
pub fn parse_array(w: &str) -> (r: Option<Vec<String>>)
    ensures
        match r {
            Some(elems) => {
                &&& array_elems(w@) is Some
                &&& elems@.len() == array_elems(w@)->0.len()
                &&& forall|k: int|
                    0 <= k < elems@.len() ==> (#[trigger] elems@[k])@ == array_elems(w@)->0[k]
            },
            None => array_elems(w@) is None,
        },
{
    let chars = str_to_chars(w);
    let n = chars.len();
    if n < 2 || chars[0] != '[' || chars[n - 1] != ']' {
        assert(array_inner(w@) is None);
        return None;
    }
    let mut inner: Vec<char> = Vec::new();
    let mut i: usize = 1;
    let ghost raw_inner = w@.subrange(1, w@.len() - 1);
    assert(inner@ =~= raw_inner.take(0).filter(|c: char| c != ' '));
    while i < n - 1
        invariant
            1 <= i <= n - 1,
            n == w@.len(),
            n >= 2,
            chars@ == w@,
            raw_inner == w@.subrange(1, w@.len() - 1),
            inner@ == raw_inner.take(i - 1).filter(|c: char| c != ' '),
        decreases n - i,
    {
        let c = chars[i];
        proof {
            assert(raw_inner.take(i as int - 1 + 1).drop_last() =~= raw_inner.take(i - 1));
            assert(raw_inner.take(i as int).last() == raw_inner[i - 1]);
            assert(raw_inner[i - 1] == w@[i as int]);
            reveal_with_fuel(Seq::filter, 2);
        }
        if c != ' ' {
            inner.push(c);
        }
        proof {
            assert(raw_inner.take(i as int) == raw_inner.take(i as int - 1 + 1));
        }
        i += 1;
    }
    proof {
        assert(raw_inner.take(n - 2 as int) =~= raw_inner);
        assert(array_inner(w@) == Some(raw_inner.filter(|c: char| c != ' ')));
    }
    let parts = split_chars(&inner, ',');
    let m = parts.len();
    let ghost spec_parts = split_sep(inner@, ',');
    let mut elems: Vec<String> = Vec::new();
    let mut k: usize = 0;
    while k < m
        invariant
            k <= m,
            m == parts@.len(),
            m == spec_parts.len(),
            forall|j: int| 0 <= j < m ==> (#[trigger] parts@[j])@ == spec_parts[j],
            elems@.len() == k,
            forall|j: int|
                0 <= j < k ==> (#[trigger] spec_parts[j]).len() >= 2 && is_quoted(spec_parts[j]),
            forall|j: int| 0 <= j < k ==> (#[trigger] elems@[j])@ == strip_quotes(spec_parts[j]),
        decreases m - k,
    {
        let part = &parts[k];
        let plen = part.len();
        if plen < 2 {
            assert(!((#[trigger] spec_parts[k as int]).len() >= 2));
            return None;
        }
        let c0 = part[0];
        if !(c0 == '"' || c0 == '\'' || c0 == '`') {
            assert(!is_quoted(spec_parts[k as int]));
            return None;
        }
        let s = chars_to_string(part, 1, plen - 1);
        assert(s@ =~= strip_quotes(spec_parts[k as int]));
        elems.push(s);
        k += 1;
    }
    proof {
        assert(array_elems(w@) == Some(spec_parts.map_values(|e: Seq<char>| strip_quotes(e))));
    }
    Some(elems)
}

// ---------------------------------------------------------------------------
// EVERY lines
// ---------------------------------------------------------------------------

/// The milliseconds that one unit of the given name lasts.
pub open spec fn unit_ms(w: Seq<char>) -> Option<nat> {
    if w == "MILLISECONDS"@ {
        Some(1nat)
    } else if w == "SECONDS"@ {
        Some(1000nat)
    } else if w == "MINUTES"@ {
        Some(60000nat)
    } else if w == "HOURS"@ {
        Some(3600000nat)
    } else {
        None
    }
}

/// What an `EVERY` line declares: the interval in milliseconds, or the error
/// it raises, pointing at script line `line`.
pub open spec fn every_spec(words: Seq<Seq<char>>, line: usize) -> Result<nat, ParseError> {
    if words.len() < 2 {
        Err(ParseError::MissingAmount { line })
    } else if words.len() < 3 {
        Err(ParseError::MissingUnit { line })
    } else {
        match parse_uint(words[1]) {
            None => Err(ParseError::BadAmount { line }),
            Some(a) => match unit_ms(words[2]) {
                None => Err(ParseError::BadUnit { line }),
                Some(m) => if a * m > u64::MAX {
                    Err(ParseError::BadAmount { line })
                } else {
                    Ok(a * m)
                },
            },
        }
    }
}

/// Whether `s` reads as an unsigned number of any size.
#[verifier::loop_isolation(false)]
fn word_is_uint(s: &str) -> (r: bool)
    ensures
        r == (parse_uint(s@) is Some),
{
    let len = s.unicode_len();
    let mut start: usize = 0;
    if len > 0 && s.get_char(0) == '+' {
        start = 1;
    }
    let ghost t = if s@.len() > 0 && s@[0] == '+' {
        s@.drop_first()
    } else {
        s@
    };
    assert(t =~= s@.skip(start as int));
    if start == len {
        return false;
    }
    let mut i: usize = start;
    while i < len
        invariant
            start <= i <= len,
            len == s@.len(),
            t == s@.skip(start as int),
            t.len() == len - start,
            forall|j: int| 0 <= j < i - start ==> is_digit(t[j]),
        decreases len - i,
    {
        let c = s.get_char(i);
        assert(t[i - start] == s@[i as int]);
        let code: u32 = c as u32;
        if code < 48 || code > 57 {
            assert(!is_digit(t[(i - start) as int]));
            return false;
        }
        i += 1;
    }
    assert(all_digits(t));
    true
}

/// Reads an `EVERY` line; see `every_spec`.
pub fn parse_every(words: &Vec<String>, line: usize) -> (r: Result<u64, ParseError>)
    ensures
        r matches Err(e) ==> !(e is MissingEvery),
        match r {
            Ok(ms) => every_spec(words_model(words@), line) == Ok::<nat, ParseError>(ms as nat),
            Err(e) => every_spec(words_model(words@), line) == Err::<nat, ParseError>(e),
        },
{
    let ghost wm = words_model(words@);
    if words.len() < 2 {
        return Err(ParseError::MissingAmount { line });
    }
    if words.len() < 3 {
        return Err(ParseError::MissingUnit { line });
    }
    assert(wm[1] == words@[1]@);
    assert(wm[2] == words@[2]@);
    if !word_is_uint(words[1].as_str()) {
        return Err(ParseError::BadAmount { line });
    }
    let unit = &words[2];
    let mult: u64 = if str_equal(unit.as_str(), "MILLISECONDS") {
        1
    } else if str_equal(unit.as_str(), "SECONDS") {
        1000
    } else if str_equal(unit.as_str(), "MINUTES") {
        60000
    } else if str_equal(unit.as_str(), "HOURS") {
        3600000
    } else {
        return Err(ParseError::BadUnit { line });
    };
    let amount: u64 = match parse_u64(words[1].as_str()) {
        Some(a) => a,
        None => {
            proof {
                let v = parse_uint(wm[1])->0;
                assert(v > u64::MAX);
                assert(v * mult >= v * 1) by (nonlinear_arith)
                    requires
                        mult >= 1,
                        v >= 0,
                ;
            }
            return Err(ParseError::BadAmount { line });
        },
    };
    if amount > u64::MAX / mult {
        proof {
            assert(amount * mult > u64::MAX) by (nonlinear_arith)
                requires
                    amount > u64::MAX / mult,
                    mult >= 1,
                    amount >= 0,
                    u64::MAX / mult * mult + mult > u64::MAX,
            ;
        }
        return Err(ParseError::BadAmount { line });
    }
    proof {
        assert(amount * mult <= u64::MAX) by (nonlinear_arith)
            requires
                amount <= u64::MAX / mult,
                mult >= 1,
                u64::MAX / mult * mult <= u64::MAX,
        ;
    }
    Ok(amount * mult)
}

/// The exec words of a line, as mathematical sequences.
pub open spec fn words_model(words: Seq<String>) -> Seq<Seq<char>> {
    words.map_values(|w: String| w@)
}

// ---------------------------------------------------------------------------
// Instructions
// ---------------------------------------------------------------------------

/// The model of an instruction.
pub enum InstrSpec {
    Print(OperandSpec),
    SaveToDb,
    GetNetworkSsid,
    GetPeripherals,
    GetWindows,
    CaptureAll,
    CapturePrimary,
}

/// The model of an exec instruction.
pub open spec fn instr_model(ins: Instruction) -> InstrSpec {
    match ins {
        Instruction::Print(PrintArg::Literal(s)) => InstrSpec::Print(OperandSpec::Lit(s@)),
        Instruction::Print(PrintArg::Var(s)) => InstrSpec::Print(OperandSpec::Var(s@)),
        Instruction::SaveToDb => InstrSpec::SaveToDb,
        Instruction::GetNetworkSsid => InstrSpec::GetNetworkSsid,
        Instruction::GetPeripherals => InstrSpec::GetPeripherals,
        Instruction::GetWindows => InstrSpec::GetWindows,
        Instruction::CaptureScreen(ScreenTarget::All) => InstrSpec::CaptureAll,
        Instruction::CaptureScreen(ScreenTarget::Primary) => InstrSpec::CapturePrimary,
    }
}

/// The target named by a `CAPTURE_SCREEN` argument: its quotes are stripped
/// when it is quoted, and it is taken as it stands otherwise.
pub open spec fn capture_target(w: Seq<char>) -> Seq<char> {
    if is_quoted(w) {
        strip_quotes(w)
    } else {
        w
    }
}

/// What an instruction line means: a bound instruction, nothing for an
/// unknown keyword, or the error it raises.
pub open spec fn instr_spec(words: Seq<Seq<char>>, line: usize) -> Result<
    Option<InstrSpec>,
    ParseError,
> {
    if words.len() == 0 {
        Ok(None)
    } else if words[0] == "PRINT"@ {
        if words.len() < 2 {
            Err(ParseError::MissingArgument { line })
        } else {
            Ok(Some(InstrSpec::Print(operand_of_word(words[1]))))
        }
    } else if words[0] == "SAVE_TO_DB"@ {
        Ok(Some(InstrSpec::SaveToDb))
    } else if words[0] == "GET_NETWORK_SSID"@ {
        Ok(Some(InstrSpec::GetNetworkSsid))
    } else if words[0] == "GET_PERIPHERALS"@ {
        Ok(Some(InstrSpec::GetPeripherals))
    } else if words[0] == "GET_WINDOWS"@ {
        Ok(Some(InstrSpec::GetWindows))
    } else if words[0] == "CAPTURE_SCREEN"@ {
        if words.len() < 2 {
            Err(ParseError::MissingArgument { line })
        } else if capture_target(words[1]) == "ALL"@ {
            Ok(Some(InstrSpec::CaptureAll))
        } else if capture_target(words[1]) == "PRIMARY"@ {
            Ok(Some(InstrSpec::CapturePrimary))
        } else {
            Ok(None)
        }
    } else {
        Ok(None)
    }
}

/// Reads an instruction line; see `instr_spec`.
pub fn parse_instruction(words: &Vec<String>, line: usize) -> (r: Result<
    Option<Instruction>,
    ParseError,
>)
    ensures
        r matches Err(e) ==> !(e is MissingEvery) && !(e is MissingAmount) && !(e is MissingUnit) && !(e is BadAmount) && !(e is BadUnit),
        match r {
            Ok(Some(ins)) => instr_spec(words_model(words@), line) == Ok::<
                Option<InstrSpec>,
                ParseError,
            >(Some(instr_model(ins))),
            Ok(None) => instr_spec(words_model(words@), line) == Ok::<
                Option<InstrSpec>,
                ParseError,
            >(None),
            Err(e) => instr_spec(words_model(words@), line) == Err::<
                Option<InstrSpec>,
                ParseError,
            >(e),
        },
{
    let ghost wm = words_model(words@);
    if words.len() == 0 {
        return Ok(None);
    }
    assert(wm[0] == words@[0]@);
    let head = &words[0];
    if str_equal(head.as_str(), "PRINT") {
        if words.len() < 2 {
            return Err(ParseError::MissingArgument { line });
        }
        assert(wm[1] == words@[1]@);
        let arg = parse_operand(words[1].as_str());
        let pa = match arg {
            Operand::Literal(s) => PrintArg::Literal(s),
            Operand::Ident(s) => PrintArg::Var(s),
        };
        Ok(Some(Instruction::Print(pa)))
    } else if str_equal(head.as_str(), "SAVE_TO_DB") {
        Ok(Some(Instruction::SaveToDb))
    } else if str_equal(head.as_str(), "GET_NETWORK_SSID") {
        Ok(Some(Instruction::GetNetworkSsid))
    } else if str_equal(head.as_str(), "GET_PERIPHERALS") {
        Ok(Some(Instruction::GetPeripherals))
    } else if str_equal(head.as_str(), "GET_WINDOWS") {
        Ok(Some(Instruction::GetWindows))
    } else if str_equal(head.as_str(), "CAPTURE_SCREEN") {
        if words.len() < 2 {
            return Err(ParseError::MissingArgument { line });
        }
        assert(wm[1] == words@[1]@);
        let target = if word_is_quoted(words[1].as_str()) {
            word_strip_quotes(words[1].as_str())
        } else {
            words[1].clone()
        };
        if str_equal(target.as_str(), "ALL") {
            Ok(Some(Instruction::CaptureScreen(ScreenTarget::All)))
        } else if str_equal(target.as_str(), "PRIMARY") {
            Ok(Some(Instruction::CaptureScreen(ScreenTarget::Primary)))
        } else {
            Ok(None)
        }
    } else {
        Ok(None)
    }
}


// ---------------------------------------------------------------------------
// Comparison lines
// ---------------------------------------------------------------------------

/// The model of the right-hand side of an `IN` comparison.
pub enum InTargetSpec {
    Arr(Seq<Seq<char>>),
    Var(Seq<char>),
}

/// The model of one comparison.
pub enum CmpSpec {
    Eq { negated: bool, lhs: OperandSpec, rhs: OperandSpec },
    In { negated: bool, lhs: OperandSpec, rhs: InTargetSpec },
    Match { lhs: OperandSpec, patterns: Seq<Seq<char>> },
    Bigger { lhs: OperandSpec, rhs: OperandSpec },
    Lesser { lhs: OperandSpec, rhs: OperandSpec },
}

/// One item that scanning a conditional line yields: a comparison, or the
/// group break that an `OR` token makes.
pub enum StreamItem {
    Cmp(CmpSpec),
    Break,
}

/// The model of an `IN` target.
pub open spec fn in_target_model(t: InTarget) -> InTargetSpec {
    match t {
        InTarget::Array(elems) => InTargetSpec::Arr(words_model(elems@)),
        InTarget::Ident(s) => InTargetSpec::Var(s@),
    }
}

/// The model of one exec comparison.
pub open spec fn cmp_model(c: Comparison) -> CmpSpec {
    match c {
        Comparison::Eq { negated, lhs, rhs } => CmpSpec::Eq {
            negated,
            lhs: operand_model(lhs),
            rhs: operand_model(rhs),
        },
        Comparison::In { negated, lhs, rhs } => CmpSpec::In {
            negated,
            lhs: operand_model(lhs),
            rhs: in_target_model(rhs),
        },
        Comparison::Match { lhs, patterns } => CmpSpec::Match {
            lhs: operand_model(lhs),
            patterns: words_model(patterns@),
        },
        Comparison::Bigger { lhs, rhs } => CmpSpec::Bigger {
            lhs: operand_model(lhs),
            rhs: operand_model(rhs),
        },
        Comparison::Lesser { lhs, rhs } => CmpSpec::Lesser {
            lhs: operand_model(lhs),
            rhs: operand_model(rhs),
        },
    }
}

/// What scanning a conditional line from token `i` yields, with `np` set
/// when a `NOT` is waiting for the next comparison.
///
/// `EQ` and `IN` take the token before them (two before, across a `NOT`) as
/// the left operand and the token after them as the right one; `MATCH`,
/// `BIGGER` and `LESSER` take their immediate neighbours; `OR` opens a new
/// group; every other token is read as an operand and passed over.
pub open spec fn scan_stream(words: Seq<Seq<char>>, i: int, np: bool, line: usize) -> Result<
    Seq<StreamItem>,
    ParseError,
>
    decreases words.len() - i,
{
    if i < 0 || i >= words.len() {
        Ok(Seq::empty())
    } else {
        let w = words[i];
        if w == "OR"@ {
            match scan_stream(words, i + 1, false, line) {
                Ok(rest) => Ok(seq![StreamItem::Break] + rest),
                Err(e) => Err(e),
            }
        } else if w == "NOT"@ {
            scan_stream(words, i + 1, true, line)
        } else if w == "EQ"@ {
            let sp: int = if np {
                2
            } else {
                1
            };
            if i - sp < 1 || i + 1 >= words.len() {
                Err(ParseError::MalformedComparison { line })
            } else {
                match scan_stream(words, i + 1, false, line) {
                    Ok(rest) => Ok(
                        seq![
                            StreamItem::Cmp(
                                CmpSpec::Eq {
                                    negated: np,
                                    lhs: operand_of_word(words[i - sp]),
                                    rhs: operand_of_word(words[i + 1]),
                                },
                            ),
                        ] + rest,
                    ),
                    Err(e) => Err(e),
                }
            }
        } else if w == "IN"@ {
            if i >= 1 && words[i - 1] == "MATCH"@ {
                scan_stream(words, i + 1, np, line)
            } else {
                let sp: int = if np {
                    2
                } else {
                    1
                };
                if i - sp < 1 || i + 1 >= words.len() {
                    Err(ParseError::MalformedComparison { line })
                } else {
                    let rhsw = words[i + 1];
                    if rhsw.len() >= 1 && rhsw[0] == '[' {
                        match array_elems(rhsw) {
                            None => Err(ParseError::BadArray { line }),
                            Some(elems) => match scan_stream(words, i + 1, false, line) {
                                Ok(rest) => Ok(
                                    seq![
                                        StreamItem::Cmp(
                                            CmpSpec::In {
                                                negated: np,
                                                lhs: operand_of_word(words[i - sp]),
                                                rhs: InTargetSpec::Arr(elems),
                                            },
                                        ),
                                    ] + rest,
                                ),
                                Err(e) => Err(e),
                            },
                        }
                    } else {
                        match scan_stream(words, i + 1, false, line) {
                            Ok(rest) => Ok(
                                seq![
                                    StreamItem::Cmp(
                                        CmpSpec::In {
                                            negated: np,
                                            lhs: operand_of_word(words[i - sp]),
                                            rhs: InTargetSpec::Var(rhsw),
                                        },
                                    ),
                                ] + rest,
                            ),
                            Err(e) => Err(e),
                        }
                    }
                }
            }
        } else if w == "MATCH"@ {
            if i - 1 < 1 || i + 1 >= words.len() {
                Err(ParseError::MalformedComparison { line })
            } else {
                let rhsw = words[i + 1];
                if rhsw == "IN"@ {
                    if i + 2 >= words.len() {
                        Err(ParseError::MalformedComparison { line })
                    } else {
                        match array_elems(words[i + 2]) {
                            None => Err(ParseError::BadArray { line }),
                            Some(pats) => if forall|k: int|
                                0 <= k < pats.len() ==> regex_ok(#[trigger] pats[k]) {
                                match scan_stream(words, i + 1, false, line) {
                                    Ok(rest) => Ok(
                                        seq![
                                            StreamItem::Cmp(
                                                CmpSpec::Match {
                                                    lhs: operand_of_word(words[i - 1]),
                                                    patterns: pats,
                                                },
                                            ),
                                        ] + rest,
                                    ),
                                    Err(e) => Err(e),
                                }
                            } else {
                                Err(ParseError::BadRegex { line })
                            },
                        }
                    }
                } else if is_quoted(rhsw) && rhsw.len() >= 2 {
                    if regex_ok(strip_quotes(rhsw)) {
                        match scan_stream(words, i + 1, false, line) {
                            Ok(rest) => Ok(
                                seq![
                                    StreamItem::Cmp(
                                        CmpSpec::Match {
                                            lhs: operand_of_word(words[i - 1]),
                                            patterns: seq![strip_quotes(rhsw)],
                                        },
                                    ),
                                ] + rest,
                            ),
                            Err(e) => Err(e),
                        }
                    } else {
                        Err(ParseError::BadRegex { line })
                    }
                } else {
                    Err(ParseError::MalformedComparison { line })
                }
            }
        } else if w == "BIGGER"@ || w == "LESSER"@ {
            if i - 1 < 1 || i + 1 >= words.len() {
                Err(ParseError::MalformedComparison { line })
            } else {
                match scan_stream(words, i + 1, false, line) {
                    Ok(rest) => {
                        let lhs = operand_of_word(words[i - 1]);
                        let rhs = operand_of_word(words[i + 1]);
                        let item = if w == "BIGGER"@ {
                            CmpSpec::Bigger { lhs, rhs }
                        } else {
                            CmpSpec::Lesser { lhs, rhs }
                        };
                        Ok(seq![StreamItem::Cmp(item)] + rest)
                    },
                    Err(e) => Err(e),
                }
            }
        } else {
            scan_stream(words, i + 1, np, line)
        }
    }
}

/// The `OR`-separated groups that a stream of items forms, gathered with the
/// open group `cur` and the finished groups `acc`; empty groups are dropped.
pub open spec fn stream_groups_from(
    items: Seq<StreamItem>,
    i: int,
    cur: Seq<CmpSpec>,
    acc: Seq<Seq<CmpSpec>>,
) -> Seq<Seq<CmpSpec>>
    decreases items.len() - i,
{
    if i < 0 || i >= items.len() {
        if cur.len() > 0 {
            acc.push(cur)
        } else {
            acc
        }
    } else {
        match items[i] {
            StreamItem::Break => if cur.len() > 0 {
                stream_groups_from(items, i + 1, Seq::empty(), acc.push(cur))
            } else {
                stream_groups_from(items, i + 1, Seq::empty(), acc)
            },
            StreamItem::Cmp(c) => stream_groups_from(items, i + 1, cur.push(c), acc),
        }
    }
}

/// The groups of a whole stream.
pub open spec fn stream_groups(items: Seq<StreamItem>) -> Seq<Seq<CmpSpec>> {
    stream_groups_from(items, 0, Seq::empty(), Seq::empty())
}

/// One scanned item of a conditional line.
enum ScanItem {
    Cmp(Comparison),
    Break,
}

/// The model of one scanned item.
spec fn item_model(it: ScanItem) -> StreamItem {
    match it {
        ScanItem::Cmp(c) => StreamItem::Cmp(cmp_model(c)),
        ScanItem::Break => StreamItem::Break,
    }
}

/// The models of a sequence of scanned items.
spec fn items_model(items: Seq<ScanItem>) -> Seq<StreamItem> {
    items.map_values(|it: ScanItem| item_model(it))
}

/// The models of a sequence of comparisons.
pub open spec fn cmps_model(cs: Seq<Comparison>) -> Seq<CmpSpec> {
    cs.map_values(|c: Comparison| cmp_model(c))
}

/// The models of a sequence of comparison groups.
pub open spec fn groups_model(gs: Seq<Vec<Comparison>>) -> Seq<Seq<CmpSpec>> {
    gs.map_values(|g: Vec<Comparison>| cmps_model(g@))
}

/// Reads a token as the target of an `IN` comparison.
fn parse_in_target(w: &str, line: usize) -> (r: Result<InTarget, ParseError>)
    ensures
        r matches Err(e) ==> !(e is MissingEvery) && !(e is MissingAmount) && !(e is MissingUnit) && !(e is BadAmount) && !(e is BadUnit),
        match r {
            Ok(t) => if w@.len() >= 1 && w@[0] == '[' {
                array_elems(w@) matches Some(elems) && in_target_model(t) == InTargetSpec::Arr(
                    elems,
                )
            } else {
                in_target_model(t) == InTargetSpec::Var(w@)
            },
            Err(e) => w@.len() >= 1 && w@[0] == '[' && array_elems(w@) is None && e == (
            ParseError::BadArray { line }),
        },
{
    let brackets: [char; 1] = ['['];
    if first_char_is(w, brackets.as_slice()) {
        match parse_array(w) {
            Some(elems) => {
                let t = InTarget::Array(elems);
                proof {
                    assert(words_model(t->Array_0@) =~= array_elems(w@)->0);
                }
                Ok(t)
            },
            None => Err(ParseError::BadArray { line }),
        }
    } else {
        Ok(InTarget::Ident(w.to_owned()))
    }
}

/// Scans a conditional line from token `i`; see `scan_stream`.
#[verifier::loop_isolation(false)]
fn scan_comparisons(words: &Vec<String>, i: usize, np: bool, line: usize) -> (r: Result<
    Vec<ScanItem>,
    ParseError,
>)
    requires
        1 <= i,
    ensures
        r matches Err(e) ==> !(e is MissingEvery) && !(e is MissingAmount) && !(e is MissingUnit) && !(e is BadAmount) && !(e is BadUnit),
        match r {
            Ok(items) => scan_stream(words_model(words@), i as int, np, line) == Ok::<
                Seq<StreamItem>,
                ParseError,
            >(items_model(items@)),
            Err(e) => scan_stream(words_model(words@), i as int, np, line) == Err::<
                Seq<StreamItem>,
                ParseError,
            >(e),
        },
    decreases words@.len() - i,
{
    let ghost wm = words_model(words@);
    let n = words.len();
    if i >= n {
        let items: Vec<ScanItem> = Vec::new();
        assert(items_model(items@) =~= Seq::<StreamItem>::empty());
        return Ok(items);
    }
    assert(wm[i as int] == words@[i as int]@);
    let w = &words[i];
    if str_equal(w.as_str(), "OR") {
        let mut rest = scan_comparisons(words, i + 1, false, line)?;
        let mut out: Vec<ScanItem> = Vec::new();
        out.push(ScanItem::Break);
        out.append(&mut rest);
        proof {
            assert(items_model(out@) =~= seq![StreamItem::Break] + items_model(
                out@.skip(1),
            ));
            assert(out@.skip(1) =~= out@.subrange(1, out@.len() as int));
        }
        assert(items_model(out@) =~= scan_stream(wm, i as int, np, line)->Ok_0);
        Ok(out)
    } else if str_equal(w.as_str(), "NOT") {
        scan_comparisons(words, i + 1, true, line)
    } else if str_equal(w.as_str(), "EQ") {
        let sp: usize = if np {
            2
        } else {
            1
        };
        if i < sp + 1 || i + 1 >= n {
            return Err(ParseError::MalformedComparison { line });
        }
        assert(wm[i - sp] == words@[i - sp]@);
        assert(wm[i + 1] == words@[i + 1]@);
        let lhs = parse_operand(words[i - sp].as_str());
        let rhs = parse_operand(words[i + 1].as_str());
        let mut rest = scan_comparisons(words, i + 1, false, line)?;
        let item = ScanItem::Cmp(Comparison::Eq { negated: np, lhs, rhs });
        let mut out: Vec<ScanItem> = Vec::new();
        out.push(item);
        out.append(&mut rest);
        proof {
            assert(items_model(out@) =~= seq![item_model(out@[0])] + items_model(out@.skip(1)));
        }
        assert(items_model(out@) =~= scan_stream(wm, i as int, np, line)->Ok_0);
        Ok(out)
    } else if str_equal(w.as_str(), "IN") {
        if str_equal(words[i - 1].as_str(), "MATCH") {
            assert(wm[i - 1] == words@[i - 1]@);
            return scan_comparisons(words, i + 1, np, line);
        }
        assert(wm[i - 1] == words@[i - 1]@);
        let sp: usize = if np {
            2
        } else {
            1
        };
        if i < sp + 1 || i + 1 >= n {
            return Err(ParseError::MalformedComparison { line });
        }
        assert(wm[i - sp] == words@[i - sp]@);
        assert(wm[i + 1] == words@[i + 1]@);
        let lhs = parse_operand(words[i - sp].as_str());
        let target = parse_in_target(words[i + 1].as_str(), line)?;
        let mut rest = scan_comparisons(words, i + 1, false, line)?;
        let item = ScanItem::Cmp(Comparison::In { negated: np, lhs, rhs: target });
        let mut out: Vec<ScanItem> = Vec::new();
        out.push(item);
        out.append(&mut rest);
        proof {
            assert(items_model(out@) =~= seq![item_model(out@[0])] + items_model(out@.skip(1)));
        }
        assert(items_model(out@) =~= scan_stream(wm, i as int, np, line)->Ok_0);
        Ok(out)
    } else if str_equal(w.as_str(), "MATCH") {
        if i < 2 || i + 1 >= n {
            return Err(ParseError::MalformedComparison { line });
        }
        assert(wm[i - 1] == words@[i - 1]@);
        assert(wm[i + 1] == words@[i + 1]@);
        let lhs = parse_operand(words[i - 1].as_str());
        let rhsw = &words[i + 1];
        if str_equal(rhsw.as_str(), "IN") {
            if i + 2 >= n {
                return Err(ParseError::MalformedComparison { line });
            }
            assert(wm[i + 2] == words@[i + 2]@);
            let pats = match parse_array(words[i + 2].as_str()) {
                Some(pats) => pats,
                None => {
                    return Err(ParseError::BadArray { line });
                },
            };
            let m = pats.len();
            let ghost spec_pats = array_elems(wm[i + 2])->0;
            let mut k: usize = 0;
            while k < m
                invariant
                    k <= m,
                    m == pats@.len(),
                    pats@.len() == spec_pats.len(),
                    forall|j: int| 0 <= j < m ==> (#[trigger] pats@[j])@ == spec_pats[j],
                    forall|j: int| 0 <= j < k ==> regex_ok(#[trigger] spec_pats[j]),
                decreases m - k,
            {
                if !regex_valid(pats[k].as_str()) {
                    assert(!regex_ok(spec_pats[k as int]));
                    return Err(ParseError::BadRegex { line });
                }
                k += 1;
            }
            let mut rest = scan_comparisons(words, i + 1, false, line)?;
            let item = ScanItem::Cmp(Comparison::Match { lhs, patterns: pats });
            let mut out: Vec<ScanItem> = Vec::new();
            out.push(item);
            out.append(&mut rest);
            proof {
                assert(words_model(out@[0]->Cmp_0->Match_patterns@) =~= spec_pats);
                assert(items_model(out@) =~= seq![item_model(out@[0])] + items_model(
                    out@.skip(1),
                ));
            }
            assert(items_model(out@) =~= scan_stream(wm, i as int, np, line)->Ok_0);
            Ok(out)
        } else if word_is_quoted(rhsw.as_str()) && rhsw.unicode_len() >= 2 {
            let pat = word_strip_quotes(rhsw.as_str());
            if !regex_valid(pat.as_str()) {
                return Err(ParseError::BadRegex { line });
            }
            let mut rest = scan_comparisons(words, i + 1, false, line)?;
            let mut patterns: Vec<String> = Vec::new();
            patterns.push(pat);
            let item = ScanItem::Cmp(Comparison::Match { lhs, patterns });
            let mut out: Vec<ScanItem> = Vec::new();
            out.push(item);
            out.append(&mut rest);
            proof {
                assert(words_model(out@[0]->Cmp_0->Match_patterns@) =~= seq![
                    strip_quotes(wm[i + 1]),
                ]);
                assert(items_model(out@) =~= seq![item_model(out@[0])] + items_model(
                    out@.skip(1),
                ));
            }
            assert(items_model(out@) =~= scan_stream(wm, i as int, np, line)->Ok_0);
            Ok(out)
        } else {
            Err(ParseError::MalformedComparison { line })
        }
    } else if str_equal(w.as_str(), "BIGGER") || str_equal(w.as_str(), "LESSER") {
        if i < 2 || i + 1 >= n {
            return Err(ParseError::MalformedComparison { line });
        }
        assert(wm[i - 1] == words@[i - 1]@);
        assert(wm[i + 1] == words@[i + 1]@);
        let lhs = parse_operand(words[i - 1].as_str());
        let rhs = parse_operand(words[i + 1].as_str());
        let mut rest = scan_comparisons(words, i + 1, false, line)?;
        let item = if str_equal(w.as_str(), "BIGGER") {
            ScanItem::Cmp(Comparison::Bigger { lhs, rhs })
        } else {
            ScanItem::Cmp(Comparison::Lesser { lhs, rhs })
        };
        let mut out: Vec<ScanItem> = Vec::new();
        out.push(item);
        out.append(&mut rest);
        proof {
            assert(items_model(out@) =~= seq![item_model(out@[0])] + items_model(out@.skip(1)));
        }
        assert(items_model(out@) =~= scan_stream(wm, i as int, np, line)->Ok_0);
        Ok(out)
    } else {
        scan_comparisons(words, i + 1, np, line)
    }
}

/// A copy of an operand.
fn clone_operand(op: &Operand) -> (r: Operand)
    ensures
        operand_model(r) == operand_model(*op),
{
    match op {
        Operand::Literal(s) => Operand::Literal(s.clone()),
        Operand::Ident(s) => Operand::Ident(s.clone()),
    }
}

/// A copy of a list of strings.
fn clone_strings(v: &Vec<String>) -> (r: Vec<String>)
    ensures
        words_model(r@) == words_model(v@),
{
    let n = v.len();
    let mut r: Vec<String> = Vec::new();
    let mut i: usize = 0;
    while i < n
        invariant
            i <= n,
            n == v@.len(),
            r@.len() == i,
            forall|j: int| 0 <= j < i ==> (#[trigger] r@[j])@ == v@[j]@,
        decreases n - i,
    {
        r.push(v[i].clone());
        i += 1;
    }
    proof {
        assert(words_model(r@) =~= words_model(v@));
    }
    r
}

/// A copy of a comparison.
fn clone_comparison(c: &Comparison) -> (r: Comparison)
    ensures
        cmp_model(r) == cmp_model(*c),
{
    match c {
        Comparison::Eq { negated, lhs, rhs } => Comparison::Eq {
            negated: *negated,
            lhs: clone_operand(lhs),
            rhs: clone_operand(rhs),
        },
        Comparison::In { negated, lhs, rhs } => {
            let t = match rhs {
                InTarget::Array(elems) => InTarget::Array(clone_strings(elems)),
                InTarget::Ident(s) => InTarget::Ident(s.clone()),
            };
            Comparison::In { negated: *negated, lhs: clone_operand(lhs), rhs: t }
        },
        Comparison::Match { lhs, patterns } => Comparison::Match {
            lhs: clone_operand(lhs),
            patterns: clone_strings(patterns),
        },
        Comparison::Bigger { lhs, rhs } => Comparison::Bigger {
            lhs: clone_operand(lhs),
            rhs: clone_operand(rhs),
        },
        Comparison::Lesser { lhs, rhs } => Comparison::Lesser {
            lhs: clone_operand(lhs),
            rhs: clone_operand(rhs),
        },
    }
}

/// Gathers scanned items into their `OR`-separated groups; see
/// `stream_groups`.
#[verifier::loop_isolation(false)]
fn group_items(items: Vec<ScanItem>) -> (groups: Vec<Vec<Comparison>>)
    ensures
        groups_model(groups@) == stream_groups(items_model(items@)),
{
    let ghost im = items_model(items@);
    let n = items.len();
    let mut out: Vec<Vec<Comparison>> = Vec::new();
    let mut cur: Vec<Comparison> = Vec::new();
    let mut k: usize = 0;
    proof {
        assert(cmps_model(cur@) =~= Seq::<CmpSpec>::empty());
        assert(groups_model(out@) =~= Seq::<Seq<CmpSpec>>::empty());
    }
    while k < n
        invariant
            k <= n,
            n == items@.len(),
            stream_groups(im) == stream_groups_from(im, k as int, cmps_model(cur@), groups_model(
                out@,
            )),
        decreases n - k,
    {
        assert(im[k as int] == item_model(items@[k as int]));
        let ghost cur_m = cmps_model(cur@);
        let ghost out_m = groups_model(out@);
        match &items[k] {
            ScanItem::Break => {
                if cur.len() > 0 {
                    proof {
                        assert(cur_m.len() > 0);
                        assert(stream_groups_from(im, k as int, cur_m, out_m)
                            == stream_groups_from(im, k + 1, Seq::empty(), out_m.push(cur_m)));
                    }
                    let done = cur;
                    cur = Vec::new();
                    out.push(done);
                    proof {
                        assert(groups_model(out@) =~= groups_model(out@.drop_last()).push(
                            cmps_model(out@.last()@),
                        ));
                        assert(groups_model(out@) =~= out_m.push(cur_m));
                        assert(cmps_model(cur@) =~= Seq::<CmpSpec>::empty());
                    }
                } else {
                    proof {
                        assert(cur_m =~= Seq::<CmpSpec>::empty());
                        assert(stream_groups_from(im, k as int, cur_m, out_m)
                            == stream_groups_from(im, k + 1, Seq::empty(), out_m));
                    }
                }
            },
            ScanItem::Cmp(c) => {
                proof {
                    assert(stream_groups_from(im, k as int, cur_m, out_m) == stream_groups_from(
                        im,
                        k + 1,
                        cur_m.push(cmp_model(items@[k as int]->Cmp_0)),
                        out_m,
                    ));
                }
                cur.push(clone_comparison(c));
                proof {
                    assert(cmps_model(cur@) =~= cmps_model(cur@.drop_last()).push(
                        cmp_model(cur@.last()),
                    ));
                    assert(cmps_model(cur@) =~= cur_m.push(cmp_model(items@[k as int]->Cmp_0)));
                }
            },
        }
        k += 1;
    }
    if cur.len() > 0 {
        proof {
            assert(cmps_model(cur@).len() > 0);
            assert(stream_groups_from(im, n as int, cmps_model(cur@), groups_model(out@))
                == groups_model(out@).push(cmps_model(cur@)));
        }
        let ghost out_m = groups_model(out@);
        let ghost cur_m = cmps_model(cur@);
        out.push(cur);
        proof {
            assert(groups_model(out@) =~= groups_model(out@.drop_last()).push(
                cmps_model(out@.last()@),
            ));
            assert(groups_model(out@) =~= out_m.push(cur_m));
        }
    } else {
        proof {
            assert(cmps_model(cur@) =~= Seq::<CmpSpec>::empty());
            assert(stream_groups_from(im, n as int, cmps_model(cur@), groups_model(out@))
                == groups_model(out@));
        }
    }
    out
}

/// Reads a conditional header line from token `start`: the `OR`-separated
/// groups of its comparisons.
pub fn parse_groups(words: &Vec<String>, start: usize, line: usize) -> (r: Result<
    Vec<Vec<Comparison>>,
    ParseError,
>)
    requires
        start >= 1,
    ensures
        r matches Err(e) ==> !(e is MissingEvery) && !(e is MissingAmount) && !(e is MissingUnit) && !(e is BadAmount) && !(e is BadUnit),
        match r {
            Ok(groups) => scan_stream(words_model(words@), start as int, false, line) matches Ok(
                items,
            ) && groups_model(groups@) == stream_groups(items),
            Err(e) => scan_stream(words_model(words@), start as int, false, line) == Err::<
                Seq<StreamItem>,
                ParseError,
            >(e),
        },
{
    let items = scan_comparisons(words, start, false, line)?;
    Ok(group_items(items))
}


// ---------------------------------------------------------------------------
// Block structure
// ---------------------------------------------------------------------------

/// What ends a run of body lines.
#[derive(Debug, Clone, Copy, PartialEq, Eq, Structural)]
pub enum Terminator {
    End,
    ElseIf,
    Else,
    Eof,
}

/// Whether the line at `pos` begins with the keyword `kw`.
pub open spec fn first_is(lines: Seq<Seq<Seq<char>>>, pos: int, kw: Seq<char>) -> bool {
    lines[pos].len() > 0 && lines[pos][0] == kw
}

/// Whether a line forms no node and is passed over: an empty line, or one
/// whose leading keyword is not recognized where it stands.
pub open spec fn skippable(words: Seq<Seq<char>>, in_block: bool, in_cond: bool, line: usize) -> bool {
    words.len() == 0 || {
        &&& words[0] != "IF"@
        &&& words[0] != "ITERATE"@
        &&& (in_block ==> words[0] != "END"@)
        &&& (in_cond ==> words[0] != "ELSEIF"@ && words[0] != "ELSE"@)
        &&& instr_spec(words, line) == Ok::<Option<InstrSpec>, ParseError>(None)
    }
}

/// Whether the body lines from `pos` up to the terminator at `endp` parse
/// exactly to `nodes`, ending for the reason `term`.
pub open spec fn body_checks(
    lines: Seq<Seq<Seq<char>>>,
    pos: int,
    nodes: Seq<Node>,
    term: Terminator,
    endp: int,
    in_block: bool,
    in_cond: bool,
) -> bool
    decreases nodes, endp - pos, 0int,
{
    &&& 0 <= pos <= endp <= lines.len()
    &&& if pos == endp {
        nodes.len() == 0 && match term {
            Terminator::Eof => !in_block && endp == lines.len(),
            Terminator::End => in_block && endp < lines.len() && first_is(lines, endp, "END"@),
            Terminator::ElseIf => in_cond && endp < lines.len() && first_is(
                lines,
                endp,
                "ELSEIF"@,
            ),
            Terminator::Else => in_cond && endp < lines.len() && first_is(lines, endp, "ELSE"@),
        }
    } else {
        let w = lines[pos];
        let line = (pos + 1) as usize;
        if skippable(w, in_block, in_cond, line) {
            body_checks(lines, pos + 1, nodes, term, endp, in_block, in_cond)
        } else if w.len() > 0 && w[0] == "IF"@ {
            &&& nodes.len() > 0
            &&& nodes[0] is Cond
            &&& exists|mid: int|
                cond_checks(lines, pos, nodes[0]->Cond_0, #[trigger] trig(mid)) && body_checks(
                    lines,
                    mid,
                    nodes.drop_first(),
                    term,
                    endp,
                    in_block,
                    in_cond,
                )
        } else if w.len() > 0 && w[0] == "ITERATE"@ {
            &&& nodes.len() > 0
            &&& nodes[0] is Iter
            &&& exists|mid: int|
                iter_checks(lines, pos, nodes[0]->Iter_0, #[trigger] trig(mid)) && body_checks(
                    lines,
                    mid,
                    nodes.drop_first(),
                    term,
                    endp,
                    in_block,
                    in_cond,
                )
        } else {
            &&& nodes.len() > 0
            &&& nodes[0] is Instr
            &&& instr_spec(w, line) == Ok::<Option<InstrSpec>, ParseError>(
                Some(instr_model(nodes[0]->Instr_0)),
            )
            &&& body_checks(lines, pos + 1, nodes.drop_first(), term, endp, in_block, in_cond)
        }
    }
}

/// An identity marker that carries a quantified line position, so that the
/// surrounding quantifier has a term to match on.
pub open spec fn trig(i: int) -> int {
    i
}

/// A marker that carries a quantified position and terminator together, so
/// that the surrounding quantifier has a term covering both.
pub open spec fn trig2(i: int, t: Terminator) -> bool {
    true
}

/// Whether the lines from `pos` parse exactly to the conditional `c`, whose
/// region ends just before `endp`.
pub open spec fn cond_checks(lines: Seq<Seq<Seq<char>>>, pos: int, c: Conditional, endp: int) -> bool
    decreases c, c.else_ifs@.len() + 1, 0int,
{
    &&& 0 <= pos < lines.len()
    &&& first_is(lines, pos, "IF"@)
    &&& scan_stream(lines[pos], 1, false, (pos + 1) as usize) matches Ok(items)
        && groups_model(c.groups@) == stream_groups(items)
    &&& exists|bend: int, t1: Terminator|
        #[trigger] trig2(bend, t1) && body_checks(lines, pos + 1, c.body@, t1, bend, true, true)
            && cond_tail_checks(lines, bend, t1, c, 0, endp)
}

/// Whether the lines from `pos`, reached with terminator `t`, parse exactly
/// to the `ELSEIF` branches of `c` from index `idx` on and its `ELSE` body,
/// with the whole block ending just before `endp`.
pub open spec fn cond_tail_checks(
    lines: Seq<Seq<Seq<char>>>,
    pos: int,
    t: Terminator,
    c: Conditional,
    idx: int,
    endp: int,
) -> bool
    decreases c, c.else_ifs@.len() - idx, 0int,
{
    match t {
        Terminator::End => c.else_ifs@.len() == idx && c.else_body is None && endp == pos + 1,
        Terminator::ElseIf => {
            &&& 0 <= idx < c.else_ifs@.len()
            &&& 0 <= pos < lines.len()
            &&& scan_stream(lines[pos], 1, false, (pos + 1) as usize) matches Ok(items)
                && groups_model(c.else_ifs@[idx].groups@) == stream_groups(items)
            &&& exists|b2: int, t2: Terminator|
                #[trigger] trig2(b2, t2) && body_checks(
                    lines,
                    pos + 1,
                    c.else_ifs@[idx].body@,
                    t2,
                    b2,
                    true,
                    true,
                ) && cond_tail_checks(lines, b2, t2, c, idx + 1, endp)
        },
        Terminator::Else => {
            &&& c.else_ifs@.len() == idx
            &&& c.else_body matches Some(eb) && (exists|b2: int|
                body_checks(lines, pos + 1, eb@, Terminator::End, #[trigger] trig(b2), true, false)
                    && endp == b2 + 1)
        },
        Terminator::Eof => false,
    }
}

/// Whether the lines from `pos` parse exactly to the iteration `it`, whose
/// region ends just before `endp`.
pub open spec fn iter_checks(lines: Seq<Seq<Seq<char>>>, pos: int, it: Iterative, endp: int) -> bool
    decreases it, 0int, 0int,
{
    &&& 0 <= pos < lines.len()
    &&& first_is(lines, pos, "ITERATE"@)
    &&& lines[pos].len() >= 2
    &&& it.key@ == lines[pos][1]
    &&& exists|bend: int|
        body_checks(lines, pos + 1, it.body@, Terminator::End, #[trigger] trig(bend), true, false)
            && endp == bend + 1
}


// ---------------------------------------------------------------------------
// Well-formedness of the block structure
// ---------------------------------------------------------------------------

/// The position a well-formedness scan continues from after a block that
/// ended at `next`: blocks always move forward and end inside the script,
/// and any other value is pushed one line past `pos`, so the scan always
/// terminates.
pub open spec fn wf_advance(pos: int, next: int, limit: int) -> int {
    if pos < next && next <= limit {
        next
    } else {
        pos + 1
    }
}

/// Whether the body lines of a block parse from `pos` until a terminator,
/// and where: the terminator kind and its line index, or the first error.
/// This walks the lines exactly as the parser does, without building nodes:
/// running out of lines is the unterminated-block error against the block's
/// header line `start_line`.
pub open spec fn wf_body(
    lines: Seq<Seq<Seq<char>>>,
    pos: int,
    in_cond: bool,
    start_line: usize,
) -> Result<(Terminator, int), ParseError>
    decreases lines.len() - pos, 2int,
{
    if pos < 0 || pos >= lines.len() {
        Err(ParseError::UnterminatedBlock { line: start_line })
    } else {
        let w = lines[pos];
        let line = (pos + 1) as usize;
        if w.len() == 0 {
            wf_body(lines, pos + 1, in_cond, start_line)
        } else if w[0] == "END"@ {
            Ok((Terminator::End, pos))
        } else if in_cond && w[0] == "ELSEIF"@ {
            Ok((Terminator::ElseIf, pos))
        } else if in_cond && w[0] == "ELSE"@ {
            Ok((Terminator::Else, pos))
        } else if w[0] == "IF"@ {
            match wf_cond(lines, pos) {
                Err(e) => Err(e),
                Ok(after) => wf_body(
                    lines,
                    wf_advance(pos, after, lines.len() as int),
                    in_cond,
                    start_line,
                ),
            }
        } else if w[0] == "ITERATE"@ {
            match wf_iter(lines, pos) {
                Err(e) => Err(e),
                Ok(after) => wf_body(
                    lines,
                    wf_advance(pos, after, lines.len() as int),
                    in_cond,
                    start_line,
                ),
            }
        } else {
            match instr_spec(w, line) {
                Err(e) => Err(e),
                Ok(_) => wf_body(lines, pos + 1, in_cond, start_line),
            }
        }
    }
}

/// Whether an `IF` block parses from `pos`, and the line index just past
/// its `END`, or the first error: the header's comparisons must scan, the
/// body must reach a terminator, and the `ELSEIF`/`ELSE` tail must close.
pub open spec fn wf_cond(lines: Seq<Seq<Seq<char>>>, pos: int) -> Result<int, ParseError>
    decreases lines.len() - pos, 1int,
{
    if pos < 0 || pos >= lines.len() {
        Err(ParseError::UnterminatedBlock { line: (pos + 1) as usize })
    } else {
        match scan_stream(lines[pos], 1, false, (pos + 1) as usize) {
            Err(e) => Err(e),
            Ok(_) => match wf_body(lines, pos + 1, true, (pos + 1) as usize) {
                Err(e) => Err(e),
                Ok((t, bend)) => wf_cond_tail(
                    lines,
                    wf_advance(pos, bend, lines.len() as int),
                    t,
                ),
            },
        }
    }
}

/// Whether a conditional's tail parses from the terminator met at `pos`,
/// and the line index just past the block's `END`, or the first error.
pub open spec fn wf_cond_tail(lines: Seq<Seq<Seq<char>>>, pos: int, t: Terminator) -> Result<
    int,
    ParseError,
>
    decreases lines.len() - pos, 2int,
{
    if pos < 0 || pos >= lines.len() {
        Err(ParseError::UnterminatedBlock { line: pos as usize })
    } else {
        match t {
            Terminator::End => Ok(pos + 1),
            Terminator::ElseIf => match scan_stream(lines[pos], 1, false, (pos + 1) as usize) {
                Err(e) => Err(e),
                Ok(_) => match wf_body(lines, pos + 1, true, (pos + 1) as usize) {
                    Err(e) => Err(e),
                    Ok((t2, b2)) => wf_cond_tail(
                        lines,
                        wf_advance(pos, b2, lines.len() as int),
                        t2,
                    ),
                },
            },
            Terminator::Else => match wf_body(lines, pos + 1, false, (pos + 1) as usize) {
                Err(e) => Err(e),
                Ok((_, b3)) => Ok(b3 + 1),
            },
            Terminator::Eof => Err(ParseError::UnterminatedBlock { line: pos as usize }),
        }
    }
}

/// Whether an `ITERATE` block parses from `pos`, and the line index just
/// past its `END`, or the first error: the key must be present and the body
/// must reach its `END`.
pub open spec fn wf_iter(lines: Seq<Seq<Seq<char>>>, pos: int) -> Result<int, ParseError>
    decreases lines.len() - pos, 1int,
{
    if pos < 0 || pos >= lines.len() {
        Err(ParseError::UnterminatedBlock { line: (pos + 1) as usize })
    } else if lines[pos].len() < 2 {
        Err(ParseError::MissingArgument { line: (pos + 1) as usize })
    } else {
        match wf_body(lines, pos + 1, false, (pos + 1) as usize) {
            Err(e) => Err(e),
            Ok((_, bend)) => Ok(bend + 1),
        }
    }
}

/// Whether every line of the script parses at the top level: blocks reach
/// their `END`, comparisons have their operands and valid patterns and
/// arrays, and argument-taking instructions have their argument; or the
/// first error.
pub open spec fn wf_top(lines: Seq<Seq<Seq<char>>>, pos: int) -> Result<(), ParseError>
    decreases lines.len() - pos, 3int,
{
    if pos < 0 || pos >= lines.len() {
        Ok(())
    } else {
        let w = lines[pos];
        let line = (pos + 1) as usize;
        if w.len() == 0 {
            wf_top(lines, pos + 1)
        } else if w[0] == "IF"@ {
            match wf_cond(lines, pos) {
                Err(e) => Err(e),
                Ok(after) => wf_top(lines, wf_advance(pos, after, lines.len() as int)),
            }
        } else if w[0] == "ITERATE"@ {
            match wf_iter(lines, pos) {
                Err(e) => Err(e),
                Ok(after) => wf_top(lines, wf_advance(pos, after, lines.len() as int)),
            }
        } else {
            match instr_spec(w, line) {
                Err(e) => Err(e),
                Ok(_) => wf_top(lines, pos + 1),
            }
        }
    }
}

/// The interval that the last well-formed `EVERY` line from `pos` on
/// declares, or the error the first bad one raises.
pub open spec fn last_every(lines: Seq<Seq<Seq<char>>>, pos: int) -> Result<Option<nat>, ParseError>
    decreases lines.len() - pos,
{
    if pos < 0 || pos >= lines.len() {
        Ok(None)
    } else if first_is(lines, pos, "EVERY"@) {
        match every_spec(lines[pos], (pos + 1) as usize) {
            Err(e) => Err(e),
            Ok(v) => match last_every(lines, pos + 1) {
                Err(e) => Err(e),
                Ok(None) => Ok(Some(v)),
                Ok(Some(w)) => Ok(Some(w)),
            },
        }
    } else {
        last_every(lines, pos + 1)
    }
}

/// The models of the exec token lines.
pub open spec fn lines_model(lines: Seq<Vec<String>>) -> Seq<Seq<Seq<char>>> {
    lines.map_values(|ws: Vec<String>| words_model(ws@))
}


/// A script and its model have the same number of lines.
proof fn lemma_lines_model_len(lines: Seq<Vec<String>>)
    ensures
        lines_model(lines).len() == lines.len(),
{
}

/// The model of the token line at `pos`.
proof fn lemma_lines_model_at(lines: Seq<Vec<String>>, pos: int)
    requires
        0 <= pos < lines.len(),
    ensures
        lines_model(lines).len() == lines.len(),
        lines_model(lines)[pos] == words_model(lines[pos]@),
        words_model(lines[pos]@).len() == lines[pos]@.len(),
        forall|j: int|
            0 <= j < lines[pos]@.len() ==> #[trigger] words_model(lines[pos]@)[j]
                == lines[pos]@[j]@,
{
}

/// Reads the body lines of a block from `pos` until a terminator; see
/// `body_checks`.
fn parse_block_body(lines: &Vec<Vec<String>>, pos: usize, in_cond: bool, start_line: usize) -> (r:
    Result<(Vec<Node>, Terminator, usize), ParseError>)
    ensures
        r matches Err(e) ==> !(e is MissingEvery) && !(e is MissingAmount) && !(e is MissingUnit) && !(e is BadAmount) && !(e is BadUnit),
        r matches Ok((nodes, term, endp)) ==> {
            &&& body_checks(lines_model(lines@), pos as int, nodes@, term, endp as int, true, in_cond)
            &&& pos <= endp <= lines@.len()
        },
        match wf_body(lines_model(lines@), pos as int, in_cond, start_line) {
            Ok(te) => r matches Ok(rr) && rr.1 == te.0 && rr.2 as int == te.1,
            Err(err) => r matches Err(e2) && e2 == err,
        },
    decreases lines@.len() - pos, 2int,
{
    let ghost lm = lines_model(lines@);
    let n = lines.len();
    proof {
        lemma_lines_model_len(lines@);
    }
    if pos >= n {
        assert(wf_body(lm, pos as int, in_cond, start_line) == Err::<
            (Terminator, int),
            ParseError,
        >(ParseError::UnterminatedBlock { line: start_line }));
        return Err(ParseError::UnterminatedBlock { line: start_line });
    }
    proof {
        lemma_lines_model_at(lines@, pos as int);
    }
    assert(lm[pos as int] == words_model(lines@[pos as int]@));
    let words = &lines[pos];
    let line_no = pos + 1;
    if words.len() == 0 {
        assert(lm[pos as int].len() == 0);
        assert(wf_body(lm, pos as int, in_cond, start_line) == wf_body(
            lm,
            pos + 1,
            in_cond,
            start_line,
        ));
        let r = parse_block_body(lines, pos + 1, in_cond, start_line)?;
        assert(skippable(lm[pos as int], true, in_cond, line_no));
        return Ok(r);
    }
    assert(lm[pos as int][0] == words@[0]@);
    assert(lm[pos as int].len() > 0);
    let head = &words[0];
    if str_equal(head.as_str(), "END") {
        let nodes: Vec<Node> = Vec::new();
        assert(nodes@ =~= Seq::<Node>::empty());
        assert(first_is(lm, pos as int, "END"@));
        assert(wf_body(lm, pos as int, in_cond, start_line) == Ok::<
            (Terminator, int),
            ParseError,
        >((Terminator::End, pos as int)));
        return Ok((nodes, Terminator::End, pos));
    }
    if in_cond && str_equal(head.as_str(), "ELSEIF") {
        let nodes: Vec<Node> = Vec::new();
        assert(nodes@ =~= Seq::<Node>::empty());
        assert(wf_body(lm, pos as int, in_cond, start_line) == Ok::<
            (Terminator, int),
            ParseError,
        >((Terminator::ElseIf, pos as int)));
        return Ok((nodes, Terminator::ElseIf, pos));
    }
    if in_cond && str_equal(head.as_str(), "ELSE") {
        let nodes: Vec<Node> = Vec::new();
        assert(nodes@ =~= Seq::<Node>::empty());
        assert(wf_body(lm, pos as int, in_cond, start_line) == Ok::<
            (Terminator, int),
            ParseError,
        >((Terminator::Else, pos as int)));
        return Ok((nodes, Terminator::Else, pos));
    }
    if str_equal(head.as_str(), "IF") {
        assert(wf_body(lm, pos as int, in_cond, start_line) == match wf_cond(lm, pos as int) {
            Err(e) => Err(e),
            Ok(after) => wf_body(
                lm,
                wf_advance(pos as int, after, lm.len() as int),
                in_cond,
                start_line,
            ),
        });
        let (c, after) = parse_conditional(lines, pos)?;
        assert(wf_advance(pos as int, after as int, lm.len() as int) == after as int);
        let (mut rest, term, endp) = parse_block_body(lines, after, in_cond, start_line)?;
        let ghost rest_view = rest@;
        let mut nodes: Vec<Node> = Vec::new();
        nodes.push(Node::Cond(c));
        nodes.append(&mut rest);
        proof {
            assert(nodes@.drop_first() =~= rest_view);
            assert(body_checks(lm, pos as int, nodes@, term, endp as int, true, in_cond)) by {
                assert(cond_checks(lm, pos as int, nodes@[0]->Cond_0, trig(after as int)));
                assert(body_checks(lm, after as int, nodes@.drop_first(), term, endp as int, true, in_cond));
            }
        }
        return Ok((nodes, term, endp));
    }
    if str_equal(head.as_str(), "ITERATE") {
        assert(wf_body(lm, pos as int, in_cond, start_line) == match wf_iter(lm, pos as int) {
            Err(e) => Err(e),
            Ok(after) => wf_body(
                lm,
                wf_advance(pos as int, after, lm.len() as int),
                in_cond,
                start_line,
            ),
        });
        let (it, after) = parse_iterative(lines, pos)?;
        assert(wf_advance(pos as int, after as int, lm.len() as int) == after as int);
        let (mut rest, term, endp) = parse_block_body(lines, after, in_cond, start_line)?;
        let ghost rest_view = rest@;
        let mut nodes: Vec<Node> = Vec::new();
        nodes.push(Node::Iter(it));
        nodes.append(&mut rest);
        proof {
            assert(nodes@.drop_first() =~= rest_view);
            assert(body_checks(lm, pos as int, nodes@, term, endp as int, true, in_cond)) by {
                assert(iter_checks(lm, pos as int, nodes@[0]->Iter_0, trig(after as int)));
                assert(body_checks(lm, after as int, nodes@.drop_first(), term, endp as int, true, in_cond));
            }
        }
        return Ok((nodes, term, endp));
    }
    assert(wf_body(lm, pos as int, in_cond, start_line) == match instr_spec(
        lm[pos as int],
        line_no,
    ) {
        Err(e) => Err(e),
        Ok(_) => wf_body(lm, pos + 1, in_cond, start_line),
    });
    match parse_instruction(words, line_no)? {
        Some(ins) => {
            let (mut rest, term, endp) = parse_block_body(lines, pos + 1, in_cond, start_line)?;
            let ghost rest_view = rest@;
            let mut nodes: Vec<Node> = Vec::new();
            nodes.push(Node::Instr(ins));
            nodes.append(&mut rest);
            proof {
                assert(nodes@.drop_first() =~= rest_view);
            }
            Ok((nodes, term, endp))
        },
        None => {
            let r = parse_block_body(lines, pos + 1, in_cond, start_line)?;
            assert(skippable(lm[pos as int], true, in_cond, line_no));
            Ok(r)
        },
    }
}

/// Reads an `IF` block beginning at `pos`; see `cond_checks`.
fn parse_conditional(lines: &Vec<Vec<String>>, pos: usize) -> (r: Result<
    (Conditional, usize),
    ParseError,
>)
    requires
        pos < lines@.len(),
        first_is(lines_model(lines@), pos as int, "IF"@),
    ensures
        r matches Err(e) ==> !(e is MissingEvery) && !(e is MissingAmount) && !(e is MissingUnit) && !(e is BadAmount) && !(e is BadUnit),
        r matches Ok((c, endp)) ==> {
            &&& cond_checks(lines_model(lines@), pos as int, c, endp as int)
            &&& pos < endp <= lines@.len()
        },
        match wf_cond(lines_model(lines@), pos as int) {
            Ok(e) => r matches Ok(rr) && rr.1 as int == e,
            Err(err) => r matches Err(e2) && e2 == err,
        },
    decreases lines@.len() - pos, 1int,
{
    let ghost lm = lines_model(lines@);
    let total = lines.len();
    proof {
        lemma_lines_model_len(lines@);
        lemma_lines_model_at(lines@, pos as int);
    }
    assert(pos < total);
    let line_no = pos + 1;
    assert(lm[pos as int] == words_model(lines@[pos as int]@));
    assert(wf_cond(lm, pos as int) == match scan_stream(lm[pos as int], 1, false, line_no) {
        Err(e) => Err(e),
        Ok(_) => match wf_body(lm, pos + 1, true, line_no) {
            Err(e) => Err(e),
            Ok(te) => wf_cond_tail(lm, wf_advance(pos as int, te.1, lm.len() as int), te.0),
        },
    });
    let groups = parse_groups(&lines[pos], 1, line_no)?;
    let (body, t1, bend) = parse_block_body(lines, pos + 1, true, line_no)?;
    proof {
        lemma_body_checks_term(lm, pos + 1, body@, t1, bend as int, true, true);
        assert(wf_advance(pos as int, bend as int, lm.len() as int) == bend as int);
    }
    let (else_ifs, else_body, endp) = parse_cond_tail(lines, bend, t1)?;
    let c = Conditional { groups, body, else_ifs, else_body };
    proof {
        assert(cond_checks(lm, pos as int, c, endp as int)) by {
            assert(trig2(bend as int, t1));
            assert(body_checks(lm, pos + 1, c.body@, t1, bend as int, true, true));
            assert(c.else_ifs@.skip(0) =~= c.else_ifs@);
            assert(cond_tail_checks(lm, bend as int, t1, c, 0, endp as int));
        }
    }
    Ok((c, endp))
}

/// Reads the `ELSEIF` branches and `ELSE` body that follow a conditional's
/// first body, reached with terminator `t` at line index `pos`.
fn parse_cond_tail(lines: &Vec<Vec<String>>, pos: usize, t: Terminator) -> (r: Result<
    (Vec<ElseIf>, Option<Vec<Node>>, usize),
    ParseError,
>)
    requires
        pos <= lines@.len(),
        t is End || t is ElseIf || t is Else,
        t is End ==> pos < lines@.len(),
        t is ElseIf ==> pos < lines@.len(),
        t is Else ==> pos < lines@.len(),
    ensures
        r matches Err(e) ==> !(e is MissingEvery) && !(e is MissingAmount) && !(e is MissingUnit) && !(e is BadAmount) && !(e is BadUnit),
        match wf_cond_tail(lines_model(lines@), pos as int, t) {
            Ok(e) => r matches Ok(rr) && rr.2 as int == e,
            Err(err) => r matches Err(e2) && e2 == err,
        },
        r matches Ok((eifs, eb, endp)) ==> {
            &&& pos < endp <= lines@.len() + 1
            &&& endp <= lines@.len()
            &&& forall|c: Conditional, idx: int|
                0 <= idx && c.else_ifs@.skip(idx) == eifs@ && idx <= c.else_ifs@.len()
                    && c.else_body == eb ==> #[trigger] cond_tail_checks(
                    lines_model(lines@),
                    pos as int,
                    t,
                    c,
                    idx,
                    endp as int,
                )
        },
    decreases lines@.len() - pos, 2int,
{
    let ghost lm = lines_model(lines@);
    let total = lines.len();
    proof {
        lemma_lines_model_len(lines@);
        lemma_lines_model_at(lines@, pos as int);
    }
    match t {
        Terminator::End => {
            assert(pos < total);
            assert(wf_cond_tail(lm, pos as int, t) == Ok::<int, ParseError>(pos + 1));
            let eifs: Vec<ElseIf> = Vec::new();
            assert(eifs@ =~= Seq::<ElseIf>::empty());
            assert forall|c: Conditional, idx: int|
                0 <= idx && c.else_ifs@.skip(idx) == eifs@ && idx <= c.else_ifs@.len()
                    && c.else_body == None::<Vec<Node>> implies #[trigger] cond_tail_checks(
                lm,
                pos as int,
                t,
                c,
                idx,
                (pos + 1) as int,
            ) by {
                assert(c.else_ifs@.skip(idx).len() == 0);
                assert(c.else_ifs@.len() == idx);
            }
            Ok((eifs, None, pos + 1))
        },
        Terminator::ElseIf => {
            assert(pos < total);
            let line_no = pos + 1;
            assert(lm[pos as int] == words_model(lines@[pos as int]@));
            assert(wf_cond_tail(lm, pos as int, t) == match scan_stream(
                lm[pos as int],
                1,
                false,
                line_no,
            ) {
                Err(e) => Err(e),
                Ok(_) => match wf_body(lm, pos + 1, true, line_no) {
                    Err(e) => Err(e),
                    Ok(te) => wf_cond_tail(
                        lm,
                        wf_advance(pos as int, te.1, lm.len() as int),
                        te.0,
                    ),
                },
            });
            let groups = parse_groups(&lines[pos], 1, line_no)?;
            let (body, t2, b2) = parse_block_body(lines, pos + 1, true, line_no)?;
            proof {
                lemma_body_checks_term(lm, pos + 1, body@, t2, b2 as int, true, true);
                assert(wf_advance(pos as int, b2 as int, lm.len() as int) == b2 as int);
            }
            let (rest, eb, endp) = parse_cond_tail(lines, b2, t2)?;
            let ghost rest_view = rest@;
            let eif = ElseIf { groups, body };
            let mut eifs: Vec<ElseIf> = Vec::new();
            eifs.push(eif);
            let mut rest_mut = rest;
            eifs.append(&mut rest_mut);
            proof {
                assert(eifs@.drop_first() =~= rest_view);
            }
            assert forall|c: Conditional, idx: int|
                0 <= idx && c.else_ifs@.skip(idx) == eifs@ && idx <= c.else_ifs@.len()
                    && c.else_body == eb implies #[trigger] cond_tail_checks(
                lm,
                pos as int,
                t,
                c,
                idx,
                endp as int,
            ) by {
                assert(c.else_ifs@.skip(idx).len() == c.else_ifs@.len() - idx);
                assert(eifs@.len() >= 1);
                assert(idx < c.else_ifs@.len());
                assert(c.else_ifs@[idx] == c.else_ifs@.skip(idx)[0]);
                assert(c.else_ifs@[idx] == eifs@[0]);
                assert(c.else_ifs@.skip(idx + 1) =~= eifs@.drop_first());
                assert(trig2(b2 as int, t2));
                assert(cond_tail_checks(lm, b2 as int, t2, c, idx + 1, endp as int));
                assert(body_checks(lm, pos + 1, c.else_ifs@[idx].body@, t2, b2 as int, true, true));
            }
            Ok((eifs, eb, endp))
        },
        Terminator::Else => {
            assert(pos < total);
            let line_no = pos + 1;
            assert(wf_cond_tail(lm, pos as int, t) == match wf_body(lm, pos + 1, false, line_no) {
                Err(e) => Err(e),
                Ok(te) => Ok(te.1 + 1),
            });
            let (body, t3, b3) = parse_block_body(lines, pos + 1, false, line_no)?;
            proof {
                lemma_body_checks_term(lm, pos + 1, body@, t3, b3 as int, true, false);
            }
            let eifs: Vec<ElseIf> = Vec::new();
            assert(eifs@ =~= Seq::<ElseIf>::empty());
            let eb = Some(body);
            assert forall|c: Conditional, idx: int|
                0 <= idx && c.else_ifs@.skip(idx) == eifs@ && idx <= c.else_ifs@.len()
                    && c.else_body == eb implies #[trigger] cond_tail_checks(
                lm,
                pos as int,
                t,
                c,
                idx,
                (b3 + 1) as int,
            ) by {
                assert(c.else_ifs@.skip(idx).len() == 0);
                assert(c.else_ifs@.len() == idx);
                assert(c.else_body matches Some(x) && x@ == eb->0@);
                assert(body_checks(lm, pos + 1, c.else_body->0@, Terminator::End, trig(b3 as int), true, false));
            }
            Ok((eifs, eb, b3 + 1))
        },
        Terminator::Eof => {
            proof {
                assert(false);
            }
            Err(ParseError::UnterminatedBlock { line: pos })
        },
    }
}

/// A body that ends inside a block never ends for the end-of-input reason.
proof fn lemma_body_checks_term(
    lines: Seq<Seq<Seq<char>>>,
    pos: int,
    nodes: Seq<Node>,
    term: Terminator,
    endp: int,
    in_block: bool,
    in_cond: bool,
)
    requires
        body_checks(lines, pos, nodes, term, endp, in_block, in_cond),
        in_block,
    ensures
        !(term is Eof),
        term is ElseIf || term is Else ==> in_cond,
        endp < lines.len(),
    decreases nodes, endp - pos, 1int,
{
    if pos == endp {
    } else {
        let w = lines[pos];
        let line = (pos + 1) as usize;
        if skippable(w, in_block, in_cond, line) {
            lemma_body_checks_term(lines, pos + 1, nodes, term, endp, in_block, in_cond);
        } else if w.len() > 0 && w[0] == "IF"@ {
            let mid = choose|mid: int|
                cond_checks(lines, pos, nodes[0]->Cond_0, #[trigger] trig(mid)) && body_checks(
                    lines,
                    mid,
                    nodes.drop_first(),
                    term,
                    endp,
                    in_block,
                    in_cond,
                );
            lemma_body_checks_term(lines, mid, nodes.drop_first(), term, endp, in_block, in_cond);
        } else if w.len() > 0 && w[0] == "ITERATE"@ {
            let mid = choose|mid: int|
                iter_checks(lines, pos, nodes[0]->Iter_0, #[trigger] trig(mid)) && body_checks(
                    lines,
                    mid,
                    nodes.drop_first(),
                    term,
                    endp,
                    in_block,
                    in_cond,
                );
            lemma_body_checks_term(lines, mid, nodes.drop_first(), term, endp, in_block, in_cond);
        } else {
            lemma_body_checks_term(lines, pos + 1, nodes.drop_first(), term, endp, in_block, in_cond);
        }
    }
}

/// Reads an `ITERATE` block beginning at `pos`; see `iter_checks`.
fn parse_iterative(lines: &Vec<Vec<String>>, pos: usize) -> (r: Result<
    (Iterative, usize),
    ParseError,
>)
    requires
        pos < lines@.len(),
        first_is(lines_model(lines@), pos as int, "ITERATE"@),
    ensures
        r matches Err(e) ==> !(e is MissingEvery) && !(e is MissingAmount) && !(e is MissingUnit) && !(e is BadAmount) && !(e is BadUnit),
        r matches Ok((it, endp)) ==> {
            &&& iter_checks(lines_model(lines@), pos as int, it, endp as int)
            &&& pos < endp <= lines@.len()
        },
        match wf_iter(lines_model(lines@), pos as int) {
            Ok(e) => r matches Ok(rr) && rr.1 as int == e,
            Err(err) => r matches Err(e2) && e2 == err,
        },
    decreases lines@.len() - pos, 1int,
{
    let ghost lm = lines_model(lines@);
    let total = lines.len();
    proof {
        lemma_lines_model_len(lines@);
        lemma_lines_model_at(lines@, pos as int);
    }
    assert(pos < total);
    let line_no = pos + 1;
    assert(lm[pos as int] == words_model(lines@[pos as int]@));
    let words = &lines[pos];
    if words.len() < 2 {
        assert(lm[pos as int].len() < 2);
        assert(wf_iter(lm, pos as int) == Err::<int, ParseError>(
            ParseError::MissingArgument { line: line_no },
        ));
        return Err(ParseError::MissingArgument { line: line_no });
    }
    assert(lm[pos as int].len() >= 2);
    assert(wf_iter(lm, pos as int) == match wf_body(lm, pos + 1, false, line_no) {
        Err(e) => Err(e),
        Ok(te) => Ok(te.1 + 1),
    });
    assert(lm[pos as int][1] == words@[1]@);
    let key: String = words[1].clone();
    let (body, t1, bend) = parse_block_body(lines, pos + 1, false, line_no)?;
    proof {
        lemma_body_checks_term(lm, pos + 1, body@, t1, bend as int, true, false);
    }
    let it = Iterative { key, body };
    proof {
        assert(iter_checks(lm, pos as int, it, (bend + 1) as int)) by {
            assert(body_checks(lm, pos + 1, it.body@, Terminator::End, trig(bend as int), true, false));
        }
    }
    Ok((it, bend + 1))
}

/// Reads the top level of a script from line index `pos`: its nodes.
fn parse_top(lines: &Vec<Vec<String>>, pos: usize) -> (r: Result<Vec<Node>, ParseError>)
    requires
        pos <= lines@.len(),
    ensures
        r matches Err(e) ==> !(e is MissingEvery) && !(e is MissingAmount) && !(e is MissingUnit) && !(e is BadAmount) && !(e is BadUnit),
        (forall|k: int|
            pos <= k < lines@.len() ==> skippable(
                #[trigger] lines_model(lines@)[k],
                false,
                false,
                (k + 1) as usize,
            )) ==> r is Ok,
        r matches Ok(nodes) ==> body_checks(
            lines_model(lines@),
            pos as int,
            nodes@,
            Terminator::Eof,
            lines@.len() as int,
            false,
            false,
        ),
        match wf_top(lines_model(lines@), pos as int) {
            Ok(_) => r is Ok,
            Err(err) => r matches Err(e2) && e2 == err,
        },
    decreases lines@.len() - pos, 3int,
{
    let ghost lm = lines_model(lines@);
    let n = lines.len();
    proof {
        lemma_lines_model_len(lines@);
    }
    if pos >= n {
        let nodes: Vec<Node> = Vec::new();
        assert(nodes@ =~= Seq::<Node>::empty());
        assert(body_checks(lm, pos as int, nodes@, Terminator::Eof, lm.len() as int, false, false));
        assert(wf_top(lm, pos as int) is Ok);
        return Ok(nodes);
    }
    proof {
        lemma_lines_model_at(lines@, pos as int);
    }
    let words = &lines[pos];
    let line_no = pos + 1;
    if words.len() == 0 {
        assert(lm[pos as int].len() == 0);
        assert(wf_top(lm, pos as int) == wf_top(lm, pos + 1));
        let r = parse_top(lines, pos + 1)?;
        assert(skippable(lm[pos as int], false, false, line_no));
        return Ok(r);
    }
    assert(lm[pos as int][0] == words@[0]@);
    assert(lm[pos as int].len() > 0);
    let head = &words[0];
    if str_equal(head.as_str(), "IF") {
        assert(wf_top(lm, pos as int) == match wf_cond(lm, pos as int) {
            Err(e) => Err(e),
            Ok(after) => wf_top(lm, wf_advance(pos as int, after, lm.len() as int)),
        });
        let (c, after) = parse_conditional(lines, pos)?;
        assert(wf_advance(pos as int, after as int, lm.len() as int) == after as int);
        let rest = parse_top(lines, after)?;
        let ghost rest_view = rest@;
        let mut rest_mut = rest;
        let mut nodes: Vec<Node> = Vec::new();
        nodes.push(Node::Cond(c));
        nodes.append(&mut rest_mut);
        proof {
            assert(nodes@.drop_first() =~= rest_view);
            assert(body_checks(
                lm,
                pos as int,
                nodes@,
                Terminator::Eof,
                lm.len() as int,
                false,
                false,
            )) by {
                assert(cond_checks(lm, pos as int, nodes@[0]->Cond_0, trig(after as int)));
                assert(body_checks(
                    lm,
                    after as int,
                    nodes@.drop_first(),
                    Terminator::Eof,
                    lm.len() as int,
                    false,
                    false,
                ));
            }
        }
        return Ok(nodes);
    }
    if str_equal(head.as_str(), "ITERATE") {
        assert(wf_top(lm, pos as int) == match wf_iter(lm, pos as int) {
            Err(e) => Err(e),
            Ok(after) => wf_top(lm, wf_advance(pos as int, after, lm.len() as int)),
        });
        let (it, after) = parse_iterative(lines, pos)?;
        assert(wf_advance(pos as int, after as int, lm.len() as int) == after as int);
        let rest = parse_top(lines, after)?;
        let ghost rest_view = rest@;
        let mut rest_mut = rest;
        let mut nodes: Vec<Node> = Vec::new();
        nodes.push(Node::Iter(it));
        nodes.append(&mut rest_mut);
        proof {
            assert(nodes@.drop_first() =~= rest_view);
            assert(body_checks(
                lm,
                pos as int,
                nodes@,
                Terminator::Eof,
                lm.len() as int,
                false,
                false,
            )) by {
                assert(iter_checks(lm, pos as int, nodes@[0]->Iter_0, trig(after as int)));
                assert(body_checks(
                    lm,
                    after as int,
                    nodes@.drop_first(),
                    Terminator::Eof,
                    lm.len() as int,
                    false,
                    false,
                ));
            }
        }
        return Ok(nodes);
    }
    assert(wf_top(lm, pos as int) == match instr_spec(lm[pos as int], line_no) {
        Err(e) => Err(e),
        Ok(_) => wf_top(lm, pos + 1),
    });
    match parse_instruction(words, line_no)? {
        Some(ins) => {
            let rest = parse_top(lines, pos + 1)?;
            let ghost rest_view = rest@;
            let mut rest_mut = rest;
            let mut nodes: Vec<Node> = Vec::new();
            nodes.push(Node::Instr(ins));
            nodes.append(&mut rest_mut);
            proof {
                assert(nodes@.drop_first() =~= rest_view);
            }
            Ok(nodes)
        },
        None => {
            let r = parse_top(lines, pos + 1)?;
            assert(skippable(lm[pos as int], false, false, line_no));
            Ok(r)
        },
    }
}

/// Reads the interval that the script's `EVERY` lines declare, the last one
/// winning; see `last_every`.
fn scan_interval(lines: &Vec<Vec<String>>, pos: usize) -> (r: Result<Option<u64>, ParseError>)
    ensures
        r matches Err(e) ==> !(e is MissingEvery),
        match r {
            Ok(Some(v)) => last_every(lines_model(lines@), pos as int) == Ok::<
                Option<nat>,
                ParseError,
            >(Some(v as nat)),
            Ok(None) => last_every(lines_model(lines@), pos as int) == Ok::<
                Option<nat>,
                ParseError,
            >(None),
            Err(e) => last_every(lines_model(lines@), pos as int) == Err::<
                Option<nat>,
                ParseError,
            >(e),
        },
    decreases lines@.len() - pos,
{
    let ghost lm = lines_model(lines@);
    let n = lines.len();
    if pos >= n {
        return Ok(None);
    }
    proof {
        lemma_lines_model_at(lines@, pos as int);
    }
    let words = &lines[pos];
    let line_no = pos + 1;
    if words.len() > 0 && str_equal(words[0].as_str(), "EVERY") {
        assert(lm[pos as int][0] == words@[0]@);
        assert(first_is(lm, pos as int, "EVERY"@));
        let v = parse_every(words, line_no)?;
        let rest = scan_interval(lines, pos + 1)?;
        match rest {
            Some(w) => Ok(Some(w)),
            None => Ok(Some(v)),
        }
    } else {
        proof {
            if words@.len() > 0 {
                assert(lm[pos as int][0] == words@[0]@);
            }
            assert(!first_is(lm, pos as int, "EVERY"@));
        }
        scan_interval(lines, pos + 1)
    }
}

/// Reads a whole script into a program.
///
/// A program is built exactly when the whole script is well formed
/// (`wf_top`) and its `EVERY` lines declare an interval (`last_every`);
/// the interval is the last `EVERY` line's, and the body holds the nodes
/// of the script's `IF` and `ITERATE` blocks and instructions in order.
/// Otherwise the result is the first error: the `EVERY` scan's where it
/// errs, the block structure's where that errs, and the missing-`EVERY`
/// error where the script is well formed but declares no interval.
pub fn parse(script: &str) -> (r: Result<Program, ParseError>)
    ensures
        r is Ok ==> wf_top(lex_script_spec(script@), 0) is Ok,
        wf_top(lex_script_spec(script@), 0) is Ok ==> (last_every(
            lex_script_spec(script@),
            0,
        ) matches Ok(Some(v)) ==> r matches Ok(p) && p.interval_ms as nat == v),
        wf_top(lex_script_spec(script@), 0) is Ok && last_every(lex_script_spec(script@), 0)
            == Ok::<Option<nat>, ParseError>(None) ==> r == Err::<Program, ParseError>(
            ParseError::MissingEvery,
        ),
        wf_top(lex_script_spec(script@), 0) matches Err(e2) ==> (last_every(
            lex_script_spec(script@),
            0,
        ) is Ok ==> r == Err::<Program, ParseError>(e2)),
        r matches Err(e) && e == ParseError::MissingEvery ==> last_every(
            lex_script_spec(script@),
            0,
        ) == Ok::<Option<nat>, ParseError>(None),
        last_every(lex_script_spec(script@), 0) matches Err(e2) ==> r == Err::<
            Program,
            ParseError,
        >(e2),
        r matches Err(e) ==> ((e is MissingAmount || e is MissingUnit || e is BadAmount
            || e is BadUnit) ==> last_every(lex_script_spec(script@), 0) == Err::<
            Option<nat>,
            ParseError,
        >(e)),
        ((forall|k: int|
            0 <= k < lex_script_spec(script@).len() ==> skippable(
                #[trigger] lex_script_spec(script@)[k],
                false,
                false,
                (k + 1) as usize,
            )) && last_every(lex_script_spec(script@), 0) matches Ok(Some(_))) ==> r is Ok,
        r matches Ok(p) ==> {
            &&& body_checks(
                lex_script_spec(script@),
                0,
                p.body@,
                Terminator::Eof,
                lex_script_spec(script@).len() as int,
                false,
                false,
            )
            &&& last_every(lex_script_spec(script@), 0) == Ok::<Option<nat>, ParseError>(
                Some(p.interval_ms as nat),
            )
        },
{
    let lines = lex_script(script);
    proof {
        assert forall|i: int|
            0 <= i < lines@.len() implies lines_model(lines@)[i] =~~= lex_script_spec(script@)[i] by {
            lemma_lines_model_at(lines@, i);
        }
        assert(lines_model(lines@) =~~= lex_script_spec(script@));
        assert(lines_model(lines@) == lex_script_spec(script@));
        assert(wf_top(lines_model(lines@), 0) == wf_top(lex_script_spec(script@), 0));
        assert(last_every(lines_model(lines@), 0) == last_every(lex_script_spec(script@), 0));
    }
    let interval = scan_interval(&lines, 0)?;
    let body = parse_top(&lines, 0)?;
    match interval {
        Some(interval_ms) => Ok(Program { interval_ms, body }),
        None => Err(ParseError::MissingEvery),
    }
}


/// A script none of whose lines begins with `EVERY` declares no interval.
pub proof fn lemma_no_every_no_interval(lines: Seq<Seq<Seq<char>>>, pos: int)
    requires
        forall|k: int| pos <= k < lines.len() ==> !first_is(lines, k, "EVERY"@),
    ensures
        last_every(lines, pos) == Ok::<Option<nat>, ParseError>(None),
    decreases lines.len() - pos,
{
    if 0 <= pos < lines.len() {
        lemma_no_every_no_interval(lines, pos + 1);
    }
}

/// A program is only ever built from a script with an `EVERY` line: its
/// declared interval comes from one.
pub proof fn lemma_program_needs_every(lines: Seq<Seq<Seq<char>>>, v: nat)
    requires
        last_every(lines, 0) == Ok::<Option<nat>, ParseError>(Some(v)),
    ensures
        exists|k: int| 0 <= k < lines.len() && first_is(lines, k, #[trigger] trig_kw("EVERY"@)),
{
    if !(exists|k: int| 0 <= k < lines.len() && first_is(lines, k, #[trigger] trig_kw("EVERY"@))) {
        assert forall|k: int| 0 <= k < lines.len() implies !first_is(lines, k, "EVERY"@) by {
            assert(trig_kw("EVERY"@) == "EVERY"@);
            if first_is(lines, k, "EVERY"@) {
                assert(first_is(lines, k, trig_kw("EVERY"@)));
            }
        }
        lemma_no_every_no_interval(lines, 0);
    }
}

/// An identity marker for a keyword, so that a quantifier has a term to
/// match on.
pub open spec fn trig_kw(kw: Seq<char>) -> Seq<char> {
    kw
}

} // verus!

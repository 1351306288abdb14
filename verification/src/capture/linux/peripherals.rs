//! Reading the kernel's input-device table: which device files carry
//! keyboard and mouse events, and how one raw input event is classified.

use vstd::prelude::*;
use crate::scripting::lexer::{chars_to_string, split_lines, str_to_chars};
use crate::scripting::parser::{split_chars, split_sep};
use crate::scripting::value::{push_str, str_equal};

verus! {

/// The event kind code that key and button events carry.
pub const EV_KEY: u16 = 1;

/// The event code of the left mouse button.
pub const BTN_LEFT: u16 = 0x110;

/// The event code of the right mouse button.
pub const BTN_RIGHT: u16 = 0x111;

/// One raw event read from an input device file.
pub struct InputEvent {
    pub tv_sec: i64,
    pub tv_usec: i64,
    pub type_: u16,
    pub code: u16,
    pub value: i32,
}

/// What one raw input event counts as.
#[derive(Debug, Clone, Copy, PartialEq, Eq, Structural)]
pub enum PeripheralKind {
    /// A keyboard key went down or up.
    Keystroke,
    /// A mouse button went down or up.
    MouseClick,
    /// Anything else; not counted.
    Other,
}

impl InputEvent {
    /// How this event counts: key events on the two mouse buttons are mouse
    /// clicks, every other key event is a keystroke, and events of any
    /// other kind are not counted.
    pub fn classify(&self) -> (k: PeripheralKind)
        ensures
            k == (if self.type_ == EV_KEY {
                if self.code == BTN_LEFT || self.code == BTN_RIGHT {
                    PeripheralKind::MouseClick
                } else {
                    PeripheralKind::Keystroke
                }
            } else {
                PeripheralKind::Other
            }),
    {
        if self.type_ != EV_KEY {
            PeripheralKind::Other
        } else if self.code == BTN_LEFT || self.code == BTN_RIGHT {
            PeripheralKind::MouseClick
        } else {
            PeripheralKind::Keystroke
        }
    }
}

/// The first position at or after `i` where `needle` occurs in `hay`.
pub open spec fn find_from(hay: Seq<char>, needle: Seq<char>, i: int) -> Option<int>
    decreases hay.len() + 1 - i,
{
    if i < 0 || i + needle.len() > hay.len() {
        None
    } else if hay.subrange(i, i + needle.len()) == needle {
        Some(i)
    } else {
        find_from(hay, needle, i + 1)
    }
}

/// The first position where `needle` occurs in `hay`, if any.
pub open spec fn find_first(hay: Seq<char>, needle: Seq<char>) -> Option<int> {
    find_from(hay, needle, 0)
}

/// Looks for the first occurrence of `needle` in `hay`; see `find_first`.
#[verifier::loop_isolation(false)]
pub fn find_sub(hay: &Vec<char>, needle: &str) -> (r: Option<usize>)
    ensures
        match r {
            Some(i) => find_first(hay@, needle@) == Some(i as int),
            None => find_first(hay@, needle@) is None,
        },
{
    let pat = str_to_chars(needle);
    let n = hay.len();
    let m = pat.len();
    if m > n {
        return None;
    }
    let mut i: usize = 0;
    while i <= n - m
        invariant
            m <= n,
            i <= n - m + 1,
            find_first(hay@, needle@) == find_from(hay@, needle@, i as int),
        decreases n - m - i + 1,
    {
        assert(i + m <= n);
        let mut k: usize = 0;
        let mut hit: bool = true;
        while k < m
            invariant
                k <= m,
                i + m <= n,
                hit ==> forall|j: int| 0 <= j < k ==> hay@[i + j] == needle@[j],
                !hit ==> hay@.subrange(i as int, i + m as int) != needle@,
            decreases m - k,
        {
            if hay[i + k] != pat[k] {
                proof {
                    assert(hay@.subrange(i as int, i + m as int)[k as int] != needle@[k as int]);
                }
                hit = false;
                break ;
            }
            k += 1;
        }
        if hit {
            proof {
                assert(hay@.subrange(i as int, i + m as int) =~= needle@);
                assert(find_from(hay@, needle@, i as int) == Some(i as int));
            }
            return Some(i);
        }
        proof {
            if m == 0 {
                assert(hay@.subrange(i as int, i as int) =~= needle@);
            }
            assert(m > 0);
            assert(find_from(hay@, needle@, i as int) == find_from(hay@, needle@, i + 1));
        }
        i += 1;
    }
    proof {
        assert(find_from(hay@, needle@, i as int) is None);
    }
    None
}

/// The first word of a list that holds `event` somewhere.
pub open spec fn first_event_word(words: Seq<Seq<char>>) -> Option<Seq<char>>
    decreases words.len(),
{
    if words.len() == 0 {
        None
    } else if find_first(words[0], "event"@) is Some {
        Some(words[0])
    } else {
        first_event_word(words.drop_first())
    }
}

/// The device file that a `Handlers` line names: the first word holding
/// `event`, under the input-device directory; nothing when no word does.
pub open spec fn handlers_device(s: Seq<char>) -> Option<Seq<char>> {
    match first_event_word(split_sep(s, ' ')) {
        Some(w) => Some("/dev/input/"@ + w),
        None => None,
    }
}

/// Reads a `Handlers` line into the device file it names; see
/// `handlers_device`.
#[verifier::loop_isolation(false)]
pub fn parse_handlers(s: &str) -> (r: Option<String>)
    ensures
        match r {
            Some(d) => handlers_device(s@) == Some(d@),
            None => handlers_device(s@) is None,
        },
{
    let chars = str_to_chars(s);
    let words = split_chars(&chars, ' ');
    let ghost wm = split_sep(s@, ' ');
    let n = words.len();
    let mut i: usize = 0;
    proof {
        assert(wm.skip(0) =~= wm);
    }
    while i < n
        invariant
            i <= n,
            n == words@.len(),
            n == wm.len(),
            forall|j: int| 0 <= j < n ==> (#[trigger] words@[j])@ == wm[j],
            first_event_word(wm) == first_event_word(wm.skip(i as int)),
        decreases n - i,
    {
        proof {
            assert(wm.skip(i as int)[0] == wm[i as int]);
            assert(wm.skip(i as int).drop_first() =~= wm.skip(i + 1));
        }
        match find_sub(&words[i], "event") {
            Some(_) => {
                let mut d: String = "/dev/input/".to_owned();
                let piece = chars_to_string(&words[i], 0, words[i].len());
                proof {
                    assert(words@[i as int]@.subrange(0, words@[i as int]@.len() as int)
                        =~= words@[i as int]@);
                }
                push_str(&mut d, piece.as_str());
                proof {
                    assert(first_event_word(wm.skip(i as int)) == Some(wm[i as int]));
                }
                return Some(d);
            },
            None => {},
        }
        i += 1;
    }
    proof {
        assert(wm.skip(n as int) =~= Seq::<Seq<char>>::empty());
    }
    None
}

/// The tail of `line` after position `p`, where the line reaches that far.
pub open spec fn tail_after(line: Seq<char>, p: int) -> Seq<char> {
    if 0 <= p <= line.len() {
        line.skip(p)
    } else {
        Seq::empty()
    }
}

/// The device files that the kernel's input-device table names, scanned
/// line by line from `i` with the most recent `Handlers` tail at hand: an
/// `EV` line whose bitmask marks a keyboard or mouse contributes the device
/// of the last `Handlers` line.
pub open spec fn scan_devices(lines: Seq<Seq<char>>, i: int, handlers: Seq<char>) -> Seq<Seq<char>>
    decreases lines.len() - i,
{
    if i < 0 || i >= lines.len() {
        Seq::empty()
    } else {
        let line = lines[i];
        match find_first(line, "Handlers"@) {
            Some(p) => scan_devices(lines, i + 1, tail_after(line, p + 9)),
            None => match find_first(line, "EV"@) {
                Some(p) => {
                    let mask = tail_after(line, p + 3);
                    if mask == "120013"@ || mask == "17"@ || mask == "1f"@ {
                        match handlers_device(handlers) {
                            Some(d) => seq![d] + scan_devices(lines, i + 1, handlers),
                            None => scan_devices(lines, i + 1, handlers),
                        }
                    } else {
                        scan_devices(lines, i + 1, handlers)
                    }
                },
                None => scan_devices(lines, i + 1, handlers),
            },
        }
    }
}

/// Why the input-device table yields nothing to listen to.
#[derive(Debug, Clone, Copy, PartialEq, Eq, Structural)]
pub enum PeripheralsError {
    /// No connected keyboard or mouse was found.
    NoDevices,
}

/// Reads the text of the kernel's input-device table into the device files
/// to listen to; see `scan_devices`.  A table naming no keyboard or mouse
/// is refused.
#[verifier::loop_isolation(false)]
pub fn parse_proc_bus_input_devices(s: &str) -> (r: Result<Vec<String>, PeripheralsError>)
    ensures
        ({
            let devices = scan_devices(split_lines(s@), 0, Seq::empty());
            match r {
                Ok(v) => {
                    &&& devices.len() > 0
                    &&& v@.len() == devices.len()
                    &&& forall|j: int| 0 <= j < v@.len() ==> (#[trigger] v@[j])@ == devices[j]
                },
                Err(e) => devices.len() == 0 && e == PeripheralsError::NoDevices,
            }
        }),
{
    let chars = str_to_chars(s);
    let lines = split_chars(&chars, '\n');
    let ghost lm = split_lines(s@);
    proof {
        lemma_split_lines_is_split_sep(s@);
    }
    let n = lines.len();
    let mut out: Vec<String> = Vec::new();
    let mut handlers: String = String::new();
    let ghost goal = scan_devices(lm, 0, Seq::empty());
    let mut i: usize = 0;
    proof {
        assert(handlers@ =~= Seq::<char>::empty());
    }
    while i < n
        invariant
            i <= n,
            n == lines@.len(),
            n == lm.len(),
            forall|j: int| 0 <= j < n ==> (#[trigger] lines@[j])@ == lm[j],
            goal == scan_devices(lm, 0, Seq::empty()),
            goal =~= out_model(out@) + scan_devices(lm, i as int, handlers@),
        decreases n - i,
    {
        let line = &lines[i];
        match find_sub(line, "Handlers") {
            Some(p) => {
                let len = line.len();
                if len >= 9 && p <= len - 9 {
                    handlers = chars_to_string(line, p + 9, len);
                    proof {
                        assert(handlers@ =~= tail_after(lm[i as int], p + 9));
                    }
                } else {
                    handlers = String::new();
                    proof {
                        assert(handlers@ =~= tail_after(lm[i as int], p + 9));
                    }
                }
            },
            None => {
                match find_sub(line, "EV") {
                    Some(p) => {
                        let len = line.len();
                        let mask: String = if len >= 3 && p <= len - 3 {
                            chars_to_string(line, p + 3, len)
                        } else {
                            String::new()
                        };
                        proof {
                            assert(mask@ =~= tail_after(lm[i as int], p + 3));
                        }
                        if str_equal(mask.as_str(), "120013") || str_equal(mask.as_str(), "17")
                            || str_equal(mask.as_str(), "1f") {
                            match parse_handlers(handlers.as_str()) {
                                Some(d) => {
                                    out.push(d);
                                    proof {
                                        assert(out_model(out@) =~= out_model(out@.drop_last()).push(
                                            out@.last()@,
                                        ));
                                        assert(out_model(out@.drop_last()) + (seq![out@.last()@]
                                            + scan_devices(lm, i + 1, handlers@)) =~= out_model(
                                            out@,
                                        ) + scan_devices(lm, i + 1, handlers@));
                                    }
                                },
                                None => {},
                            }
                        }
                    },
                    None => {},
                }
            },
        }
        i += 1;
    }
    proof {
        assert(scan_devices(lm, n as int, handlers@) =~= Seq::<Seq<char>>::empty());
        assert(goal =~= out_model(out@));
    }
    if out.len() == 0 {
        return Err(PeripheralsError::NoDevices);
    }
    Ok(out)
}

/// The models of gathered device names.
pub open spec fn out_model(v: Seq<String>) -> Seq<Seq<char>> {
    v.map_values(|s: String| s@)
}

/// The line splitter of scripts and the plain separator splitter agree on
/// line breaks.
proof fn lemma_split_lines_is_split_sep(s: Seq<char>)
    ensures
        split_lines(s) == split_sep(s, '\n'),
    decreases s.len(),
{
    lemma_find_newline_is_find_sep(s);
    crate::scripting::lexer::lemma_find_newline_in_range(s);
    match crate::scripting::lexer::find_newline(s) {
        None => {},
        Some(i) => {
            lemma_split_lines_is_split_sep(s.skip(i + 1));
        },
    }
}

/// The two first-separator searches agree.
proof fn lemma_find_newline_is_find_sep(s: Seq<char>)
    ensures
        crate::scripting::lexer::find_newline(s) == crate::scripting::parser::find_sep(s, '\n'),
    decreases s.len(),
{
    if s.len() > 0 && s[0] != '\n' {
        lemma_find_newline_is_find_sep(s.drop_first());
    }
}

} // verus!

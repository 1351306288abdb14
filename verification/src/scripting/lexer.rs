//! The lexer of the rule language: splits rule text into lines, and each
//! line into word spans, keeping quoted string literals and bracketed array
//! literals together as single tokens.

use vstd::prelude::*;
use vstd::string::StrSliceExecFns;

verus! {

/// Tabs count as spaces everywhere in a script.
pub open spec fn normalize_char(c: char) -> char {
    if c == '\t' {
        ' '
    } else {
        c
    }
}

/// The script text with every tab read as a space.
pub open spec fn normalize_text(text: Seq<char>) -> Seq<char> {
    text.map_values(|c: char| normalize_char(c))
}

/// The position of the first line break, if any.
pub open spec fn find_newline(s: Seq<char>) -> Option<int>
    decreases s.len(),
{
    if s.len() == 0 {
        None
    } else if s[0] == '\n' {
        Some(0)
    } else {
        match find_newline(s.drop_first()) {
            Some(i) => Some(i + 1),
            None => None,
        }
    }
}

/// The lines of a text, split on line breaks; a text without one is a single
/// line.
pub open spec fn split_lines(s: Seq<char>) -> Seq<Seq<char>>
    decreases s.len(),
{
    match find_newline(s) {
        None => seq![s],
        Some(i) => {
            proof {
                lemma_find_newline_in_range(s);
            }
            seq![s.take(i)] + split_lines(s.skip(i + 1))
        },
    }
}

/// A found line break lies inside the text.
pub proof fn lemma_find_newline_in_range(s: Seq<char>)
    ensures
        match find_newline(s) {
            Some(i) => 0 <= i < s.len() && s[i] == '\n' && (forall|j: int|
                0 <= j < i ==> s[j] != '\n'),
            None => forall|j: int| 0 <= j < s.len() ==> s[j] != '\n',
        },
    decreases s.len(),
{
    if s.len() > 0 && s[0] != '\n' {
        lemma_find_newline_in_range(s.drop_first());
        assert(forall|j: int| 1 <= j < s.len() ==> s[j] == s.drop_first()[j - 1]);
    }
}

/// The token spans of one line, scanned from position `i` with the word so
/// far beginning at `prev` and `lit` holding the open quote or bracket.
///
/// A space outside a literal ends the word before it; a quote opens a string
/// literal that runs to its matching closing quote; a bracket opens an array
/// literal that runs to the next closing bracket; a literal left open runs to
/// the end of the line.  Spans carry their quotes and brackets; consumers
/// strip them.
pub open spec fn spans_from(line: Seq<char>, i: int, prev: int, lit: Option<char>) -> Seq<
    (int, int),
>
    decreases line.len() - i,
{
    if i < 0 || i >= line.len() {
        if prev < line.len() {
            seq![(prev, line.len() as int)]
        } else {
            Seq::empty()
        }
    } else {
        let c = line[i];
        match lit {
            None => {
                if c == ' ' {
                    if prev < i {
                        seq![(prev, i)] + spans_from(line, i + 1, i + 1, None)
                    } else {
                        spans_from(line, i + 1, i + 1, None)
                    }
                } else if c == '[' {
                    spans_from(line, i + 1, i, Some('['))
                } else if c == '"' || c == '\'' || c == '`' {
                    spans_from(line, i + 1, prev, Some(c))
                } else {
                    spans_from(line, i + 1, prev, None)
                }
            },
            Some(q) => {
                let closes = if q == '[' {
                    c == ']'
                } else {
                    c == q
                };
                if closes {
                    seq![(prev, i + 1)] + spans_from(line, i + 1, i + 1, None)
                } else {
                    spans_from(line, i + 1, prev, lit)
                }
            },
        }
    }
}

/// The token spans of one line.
pub open spec fn word_spans(line: Seq<char>) -> Seq<(int, int)> {
    spans_from(line, 0, 0, None)
}

/// Every span scanned from a well-placed position lies inside the line, in
/// order.
pub proof fn lemma_spans_wf(line: Seq<char>, i: int, prev: int, lit: Option<char>)
    requires
        0 <= prev <= i <= line.len(),
    ensures
        forall|k: int|
            0 <= k < spans_from(line, i, prev, lit).len() ==> {
                let sp = #[trigger] spans_from(line, i, prev, lit)[k];
                prev <= sp.0 <= sp.1 <= line.len()
            },
    decreases line.len() - i,
{
    if i >= line.len() {
        if prev < line.len() {
            assert(spans_from(line, i, prev, lit) == seq![(prev, line.len() as int)]);
        } else {
            assert(spans_from(line, i, prev, lit) == Seq::<(int, int)>::empty());
        }
    } else {
        let c = line[i];
        match lit {
            None => {
                if c == ' ' {
                    lemma_spans_wf(line, i + 1, i + 1, None);
                    if prev < i {
                        assert(spans_from(line, i, prev, lit) == seq![(prev, i)] + spans_from(
                            line,
                            i + 1,
                            i + 1,
                            None,
                        ));
                    } else {
                        assert(spans_from(line, i, prev, lit) == spans_from(
                            line,
                            i + 1,
                            i + 1,
                            None,
                        ));
                    }
                } else if c == '[' {
                    lemma_spans_wf(line, i + 1, i, Some('['));
                    assert(spans_from(line, i, prev, lit) == spans_from(
                        line,
                        i + 1,
                        i,
                        Some('['),
                    ));
                } else if c == '"' || c == '\'' || c == '`' {
                    lemma_spans_wf(line, i + 1, prev, Some(c));
                    assert(spans_from(line, i, prev, lit) == spans_from(
                        line,
                        i + 1,
                        prev,
                        Some(c),
                    ));
                } else {
                    lemma_spans_wf(line, i + 1, prev, None);
                    assert(spans_from(line, i, prev, lit) == spans_from(line, i + 1, prev, None));
                }
            },
            Some(q) => {
                let closes = if q == '[' {
                    c == ']'
                } else {
                    c == q
                };
                if closes {
                    lemma_spans_wf(line, i + 1, i + 1, None);
                    assert(spans_from(line, i, prev, lit) == seq![(prev, i + 1)] + spans_from(
                        line,
                        i + 1,
                        i + 1,
                        None,
                    ));
                } else {
                    lemma_spans_wf(line, i + 1, prev, lit);
                    assert(spans_from(line, i, prev, lit) == spans_from(line, i + 1, prev, lit));
                }
            },
        }
    }
}

/// The tokens of one line: the text under each of its spans.
pub open spec fn words_of(line: Seq<char>) -> Seq<Seq<char>> {
    word_spans(line).map_values(|sp: (int, int)| line.subrange(sp.0, sp.1))
}

/// The lines of a whole script, each as its list of tokens; the line at
/// index `k` of the result came from line `k + 1` of the script.
pub open spec fn lex_script_spec(text: Seq<char>) -> Seq<Seq<Seq<char>>> {
    split_lines(normalize_text(text)).map_values(|l: Seq<char>| words_of(l))
}

/// The characters of `s`, in order.
pub fn str_to_chars(s: &str) -> (v: Vec<char>)
    ensures
        v@ == s@,
{
    let n = s.unicode_len();
    let mut v: Vec<char> = Vec::new();
    let mut i: usize = 0;
    while i < n
        invariant
            i <= n,
            n == s@.len(),
            v@ == s@.take(i as int),
        decreases n - i,
    {
        let c = s.get_char(i);
        v.push(c);
        assert(v@ =~= s@.take(i + 1));
        i += 1;
    }
    assert(s@.take(n as int) =~= s@);
    v
}

/// The string holding the characters of `line` at positions
/// `start .. end`.
pub fn chars_to_string(line: &Vec<char>, start: usize, end: usize) -> (s: String)
    requires
        start <= end <= line@.len(),
    ensures
        s@ == line@.subrange(start as int, end as int),
{
    let mut s = String::new();
    let mut i: usize = start;
    assert(s@ =~= line@.subrange(start as int, start as int));
    while i < end
        invariant
            start <= i <= end <= line@.len(),
            s@ == line@.subrange(start as int, i as int),
        decreases end - i,
    {
        crate::scripting::value::push_char(&mut s, line[i]);
        assert(s@ =~= line@.subrange(start as int, i + 1));
        i += 1;
    }
    s
}

/// The token spans of one line, as the lexer's scan finds them.
#[verifier::loop_isolation(false)]
fn scan_spans(line: &Vec<char>) -> (spans: Vec<(usize, usize)>)
    ensures
        spans@.len() == word_spans(line@).len(),
        forall|k: int|
            0 <= k < spans@.len() ==> (#[trigger] spans@[k]).0 == word_spans(line@)[k].0
                && spans@[k].1 == word_spans(line@)[k].1,
        forall|k: int|
            0 <= k < spans@.len() ==> 0 <= (#[trigger] spans@[k]).0 <= spans@[k].1 <= line@.len(),
{
    let n = line.len();
    let mut spans: Vec<(usize, usize)> = Vec::new();
    let mut i: usize = 0;
    let mut prev: usize = 0;
    let mut lit: Option<char> = None;
    let ghost full = word_spans(line@);
    proof {
        lemma_spans_wf(line@, 0, 0, None);
    }
    while i < n
        invariant
            0 <= prev <= i <= n,
            n == line@.len(),
            full == word_spans(line@),
            full == spans_to_model(spans@) + spans_from(line@, i as int, prev as int, lit),
            spans@.len() <= full.len(),
            forall|k: int|
                0 <= k < spans@.len() ==> (#[trigger] spans@[k]).0 == full[k].0 && spans@[k].1
                    == full[k].1,
            forall|k: int|
                0 <= k < spans@.len() ==> 0 <= (#[trigger] spans@[k]).0 <= spans@[k].1 <= n,
        decreases n - i,
    {
        let c = line[i];
        match lit {
            None => {
                if c == ' ' {
                    if prev < i {
                        spans.push((prev, i));
                        proof {
                            lemma_spans_to_model_push(
                                spans@.drop_last(),
                                (prev as usize, i as usize),
                            );
                            assert(spans_to_model(spans@.drop_last()).push(
                                ((prev as usize) as int, (i as usize) as int),
                            ) + spans_from(line@, i + 1, i + 1, None) =~= spans_to_model(
                                spans@.drop_last(),
                            ) + (seq![((prev as usize) as int, (i as usize) as int)] + spans_from(
                                line@,
                                i + 1,
                                i + 1,
                                None,
                            )));
                        }
                    }
                    prev = i + 1;
                } else if c == '[' {
                    prev = i;
                    lit = Some('[');
                } else if c == '"' || c == '\'' || c == '`' {
                    lit = Some(c);
                } else {
                }
            },
            Some(q) => {
                let closes = if q == '[' {
                    c == ']'
                } else {
                    c == q
                };
                if closes {
                    spans.push((prev, i + 1));
                    proof {
                        lemma_spans_to_model_push(spans@.drop_last(), (prev, (i + 1) as usize));
                        assert(spans_to_model(spans@.drop_last()).push(
                            (prev as int, (i + 1) as int),
                        ) + spans_from(line@, i + 1, i + 1, None) =~= spans_to_model(
                            spans@.drop_last(),
                        ) + (seq![(prev as int, (i + 1) as int)] + spans_from(
                            line@,
                            i + 1,
                            i + 1,
                            None,
                        )));
                    }
                    prev = i + 1;
                    lit = None;
                } else {
                }
            },
        }
        i += 1;
    }
    if prev < n {
        assert(spans_from(line@, n as int, prev as int, lit) == seq![(prev as int, n as int)]);
        spans.push((prev, n));
        proof {
            lemma_spans_to_model_push(spans@.drop_last(), (prev, n));
            assert(spans_to_model(spans@) =~= spans_to_model(spans@.drop_last()) + seq![
                (prev as int, n as int),
            ]);
        }
    } else {
        assert(spans_from(line@, n as int, prev as int, lit) == Seq::<(int, int)>::empty());
        assert(spans_to_model(spans@) + spans_from(line@, n as int, prev as int, lit)
            =~= spans_to_model(spans@));
    }
    spans
}

/// The exec spans, as mathematical pairs.
pub open spec fn spans_to_model(spans: Seq<(usize, usize)>) -> Seq<(int, int)> {
    spans.map_values(|sp: (usize, usize)| (sp.0 as int, sp.1 as int))
}

/// Mapping one more span appends its model.
proof fn lemma_spans_to_model_push(spans: Seq<(usize, usize)>, sp: (usize, usize))
    ensures
        spans_to_model(spans.push(sp)) =~= spans_to_model(spans).push((sp.0 as int, sp.1 as int)),
{
}

/// The tokens of one line.
#[verifier::loop_isolation(false)]
pub fn lex_line(line: &Vec<char>) -> (words: Vec<String>)
    ensures
        words@.len() == words_of(line@).len(),
        forall|k: int| 0 <= k < words@.len() ==> (#[trigger] words@[k])@ == words_of(line@)[k],
{
    let spans = scan_spans(line);
    let n = spans.len();
    let mut words: Vec<String> = Vec::new();
    let mut k: usize = 0;
    while k < n
        invariant
            k <= n,
            n == spans@.len(),
            spans@.len() == word_spans(line@).len(),
            forall|j: int|
                0 <= j < n ==> (#[trigger] spans@[j]).0 == word_spans(line@)[j].0 && spans@[j].1
                    == word_spans(line@)[j].1,
            forall|j: int|
                0 <= j < n ==> 0 <= (#[trigger] spans@[j]).0 <= spans@[j].1 <= line@.len(),
            words@.len() == k,
            forall|j: int| 0 <= j < k ==> (#[trigger] words@[j])@ == words_of(line@)[j],
        decreases n - k,
    {
        let (a, b) = (spans[k].0, spans[k].1);
        let w = chars_to_string(line, a, b);
        words.push(w);
        assert(words@[k as int]@ == words_of(line@)[k as int]);
        k += 1;
    }
    words
}

/// The lines of a whole script, each as its list of tokens; the entry at
/// index `k` came from line `k + 1` of the script.
#[verifier::loop_isolation(false)]
pub fn lex_script(text: &str) -> (lines: Vec<Vec<String>>)
    ensures
        lines@.len() == lex_script_spec(text@).len(),
        forall|i: int, j: int|
            0 <= i < lines@.len() && 0 <= j < (#[trigger] lines@[i])@.len() ==> (
            #[trigger] lines@[i]@[j])@ == lex_script_spec(text@)[i][j],
        forall|i: int|
            0 <= i < lines@.len() ==> (#[trigger] lines@[i])@.len() == lex_script_spec(
                text@,
            )[i].len(),
{
    let raw = str_to_chars(text);
    let n = raw.len();
    let mut chars: Vec<char> = Vec::new();
    let mut i: usize = 0;
    while i < n
        invariant
            i <= n,
            n == raw@.len(),
            raw@ == text@,
            chars@ == normalize_text(text@).take(i as int),
        decreases n - i,
    {
        let c = raw[i];
        if c == '\t' {
            chars.push(' ');
        } else {
            chars.push(c);
        }
        assert(chars@ =~= normalize_text(text@).take(i + 1));
        i += 1;
    }
    assert(chars@ =~= normalize_text(text@));
    let ghost norm = normalize_text(text@);

    let mut lines: Vec<Vec<String>> = Vec::new();
    let mut pos: usize = 0;
    let total = chars.len();
    let ghost goal = split_lines(norm).map_values(|l: Seq<char>| words_of(l));
    let mut done: bool = false;
    while !done
        invariant
            pos <= total,
            total == norm.len(),
            chars@ == norm,
            goal == split_lines(norm).map_values(|l: Seq<char>| words_of(l)),
            goal == lex_script_spec(text@),
            !done ==> goal =~= lines_words_model(lines@) + split_lines(
                norm.skip(pos as int),
            ).map_values(|l: Seq<char>| words_of(l)),
            done ==> goal =~= lines_words_model(lines@),
            forall|k: int|
                0 <= k < lines@.len() ==> (#[trigger] lines@[k])@.len() == goal[k].len(),
            forall|k: int, j: int|
                0 <= k < lines@.len() && 0 <= j < (#[trigger] lines@[k])@.len() ==> (
                #[trigger] lines@[k]@[j])@ == goal[k][j],
        decreases total - pos + if done {
            0int
        } else {
            1int
        },
    {
        let ghost rem = norm.skip(pos as int);
        let ghost old_pos = pos as int;
        let mut end: usize = pos;
        while end < total && chars[end] != '\n'
            invariant
                pos <= end <= total,
                total == norm.len(),
                chars@ == norm,
                forall|j: int| pos <= j < end ==> norm[j] != '\n',
            decreases total - end,
        {
            end += 1;
        }
        proof {
            assert(rem.len() == total - old_pos);
            assert(forall|j: int| 0 <= j < end - old_pos ==> rem[j] == norm[j + old_pos]);
            if end < total {
                lemma_find_newline_unique(rem, end - old_pos);
            } else {
                lemma_find_newline_in_range(rem);
                if find_newline(rem) is Some {
                    let w = find_newline(rem)->0;
                    assert(rem[w] == '\n');
                    assert(norm[w + old_pos] == '\n');
                    assert(false);
                }
            }
        }
        let line_vec = copy_range(&chars, pos, end);
        proof {
            assert(line_vec@ =~= rem.take(end - old_pos));
        }
        let words = lex_line(&line_vec);
        proof {
            assert(words@.map_values(|w: String| w@) =~= words_of(line_vec@));
        }
        lines.push(words);
        proof {
            lemma_lines_words_model_push(lines@.drop_last(), lines@.last());
        }
        if end < total {
            proof {
                assert(split_lines(rem) == seq![rem.take(end - old_pos)] + split_lines(
                    rem.skip(end - old_pos + 1),
                ));
                assert(rem.skip(end - old_pos + 1) =~= norm.skip(end + 1));
                assert(lines_words_model(lines@) + split_lines(norm.skip(end + 1)).map_values(
                    |l: Seq<char>| words_of(l),
                ) =~= lines_words_model(lines@.drop_last()) + split_lines(rem).map_values(
                    |l: Seq<char>| words_of(l),
                ));
            }
            pos = end + 1;
        } else {
            proof {
                assert(split_lines(rem) == seq![rem]);
                assert(rem.take(end - old_pos) =~= rem);
                assert(lines_words_model(lines@) =~= lines_words_model(lines@.drop_last())
                    + split_lines(rem).map_values(|l: Seq<char>| words_of(l)));
            }
            done = true;
        }
    }
    lines
}

/// The tokens of every line already gathered.
pub open spec fn lines_words_model(lines: Seq<Vec<String>>) -> Seq<Seq<Seq<char>>> {
    lines.map_values(|ws: Vec<String>| ws@.map_values(|w: String| w@))
}

/// Gathering one more line appends its tokens.
proof fn lemma_lines_words_model_push(lines: Seq<Vec<String>>, ws: Vec<String>)
    ensures
        lines_words_model(lines.push(ws)) =~= lines_words_model(lines).push(
            ws@.map_values(|w: String| w@),
        ),
{
}

/// A found line break position is the first one.
proof fn lemma_find_newline_unique(s: Seq<char>, i: int)
    requires
        0 <= i < s.len(),
        s[i] == '\n',
        forall|j: int| 0 <= j < i ==> s[j] != '\n',
    ensures
        find_newline(s) == Some(i),
    decreases s.len(),
{
    if i > 0 {
        lemma_find_newline_unique(s.drop_first(), i - 1);
        assert(forall|j: int| 1 <= j < s.len() ==> s[j] == s.drop_first()[j - 1]);
    }
}

/// The characters of `v` at positions `start .. end`, as their own vector.
fn copy_range(v: &Vec<char>, start: usize, end: usize) -> (r: Vec<char>)
    requires
        start <= end <= v@.len(),
    ensures
        r@ == v@.subrange(start as int, end as int),
{
    let mut r: Vec<char> = Vec::new();
    let mut i: usize = start;
    assert(r@ =~= v@.subrange(start as int, start as int));
    while i < end
        invariant
            start <= i <= end <= v@.len(),
            r@ == v@.subrange(start as int, i as int),
        decreases end - i,
    {
        r.push(v[i]);
        assert(r@ =~= v@.subrange(start as int, i + 1));
        i += 1;
    }
    r
}

} // verus!

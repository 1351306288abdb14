//! Window enumeration shapes for a Windows desktop, and the splitting of a
//! raw command line into its arguments.

use vstd::prelude::*;
use crate::scripting::lexer::chars_to_string;
use crate::scripting::parser::find_sep;

verus! {

/// Whether a window enumeration goes on to the next window or stops.
pub enum EnumResult {
    ContinueEnum,
    StopEnum,
}

/// Whether `c` counts as whitespace for command-line splitting: the whole
/// control plane short of NUL, and the space.
pub open spec fn is_cmd_ws(c: char) -> bool {
    1 <= c as u32 <= 32
}

/// The first position at or after `i` holding command-line whitespace.
pub open spec fn find_ws(s: Seq<char>, i: int) -> Option<int>
    decreases s.len() + 1 - i,
{
    if i < 0 || i >= s.len() {
        None
    } else if is_cmd_ws(s[i]) {
        Some(i)
    } else {
        find_ws(s, i + 1)
    }
}

/// `n` backslashes.
pub open spec fn bs_seq(n: nat) -> Seq<char>
    decreases n,
{
    if n == 0 {
        Seq::empty()
    } else {
        bs_seq((n - 1) as nat).push('\\')
    }
}

/// The arguments after the program name, scanned from `i` with the current
/// argument `cur`, the quoting state, and `bs` backslashes pending.
///
/// Backslashes only act on a quote that follows them: `2n` backslashes
/// before a quote collapse to `n`, `2n + 1` collapse to `n` and make the
/// quote literal; two quotes in a row inside quotation put a literal quote;
/// whitespace outside quotation ends an argument.
pub open spec fn args_from(
    s: Seq<char>,
    i: int,
    cur: Seq<char>,
    in_q: bool,
    was_q: bool,
    bs: nat,
) -> Seq<Seq<char>>
    decreases s.len() - i,
{
    if i < 0 || i >= s.len() {
        let done = cur + bs_seq(bs);
        if done.len() > 0 || was_q || in_q {
            seq![done]
        } else {
            Seq::empty()
        }
    } else {
        let c = s[i];
        if c == '\\' {
            args_from(s, i + 1, cur, in_q, false, bs + 1)
        } else if c == '"' && bs % 2 == 0 {
            let cur2 = cur + bs_seq(bs / 2);
            if was_q {
                args_from(s, i + 1, cur2.push('"'), in_q, false, 0)
            } else {
                args_from(s, i + 1, cur2, !in_q, in_q, 0)
            }
        } else if c == '"' {
            args_from(s, i + 1, (cur + bs_seq(bs / 2)).push('"'), in_q, false, 0)
        } else if (c == ' ' || c == '\t') && !in_q {
            let done = cur + bs_seq(bs);
            if done.len() > 0 || was_q {
                seq![done] + args_from(s, i + 1, Seq::empty(), in_q, false, 0)
            } else {
                args_from(s, i + 1, Seq::empty(), in_q, false, 0)
            }
        } else {
            args_from(s, i + 1, (cur + bs_seq(bs)).push(c), in_q, false, 0)
        }
    }
}

/// The arguments of a raw command line: the program name first, read up to
/// a closing quote or the first whitespace, then the remaining arguments;
/// an empty line has none.
pub open spec fn lp_cmd_args(s: Seq<char>) -> Seq<Seq<char>> {
    if s.len() == 0 {
        Seq::empty()
    } else if s[0] == '"' {
        match find_sep(s.skip(1), '"') {
            None => seq![s.skip(1)],
            Some(j) => seq![s.skip(1).take(j)] + args_from(
                s,
                j + 2,
                Seq::empty(),
                false,
                false,
                0,
            ),
        }
    } else if is_cmd_ws(s[0]) {
        seq![Seq::<char>::empty()] + args_from(s, 1, Seq::empty(), false, false, 0)
    } else {
        match find_ws(s, 0) {
            None => seq![s],
            Some(j) => seq![s.take(j)] + args_from(s, j + 1, Seq::empty(), false, false, 0),
        }
    }
}

/// Splits a raw command line into its arguments; see `lp_cmd_args`.
#[verifier::loop_isolation(false)]
pub fn parse_lp_cmd_line(lp_cmd_line: &str) -> (args: Vec<String>)
    ensures
        args@.len() == lp_cmd_args(lp_cmd_line@).len(),
        forall|k: int|
            0 <= k < args@.len() ==> (#[trigger] args@[k])@ == lp_cmd_args(lp_cmd_line@)[k],
{
    let s = crate::scripting::lexer::str_to_chars(lp_cmd_line);
    let n = s.len();
    let mut args: Vec<String> = Vec::new();
    if n == 0 {
        return args;
    }
    let ghost goal = lp_cmd_args(lp_cmd_line@);
    let c0 = s[0];
    let mut pos: usize;
    if c0 == '"' {
        let mut j: usize = 1;
        while j < n && s[j] != '"'
            invariant
                1 <= j <= n,
                forall|q: int| 0 <= q < j - 1 ==> s@.skip(1)[q] != '"',
            decreases n - j,
        {
            proof {
                assert(s@.skip(1)[j - 1] == s@[j as int]);
            }
            j += 1;
        }
        if j >= n {
            proof {
                crate::scripting::parser::lemma_find_sep_in_range(s@.skip(1), '"');
                if find_sep(s@.skip(1), '"') is Some {
                    let w = find_sep(s@.skip(1), '"')->0;
                    assert(s@.skip(1)[w] == '"');
                    assert(false);
                }
            }
            let exe = chars_to_string(&s, 1, n);
            proof {
                assert(s@.subrange(1, n as int) =~= s@.skip(1));
            }
            args.push(exe);
            return args;
        }
        proof {
            assert(s@.skip(1)[j - 1] == '"');
            crate::scripting::parser::lemma_find_sep_unique(s@.skip(1), '"', j - 1);
        }
        let exe = chars_to_string(&s, 1, j);
        proof {
            assert(s@.subrange(1, j as int) =~= s@.skip(1).take(j - 1));
        }
        args.push(exe);
        pos = j + 1;
        proof {
            assert(goal =~= out_args(args@) + args_from(
                s@,
                pos as int,
                Seq::empty(),
                false,
                false,
                0,
            ));
        }
    } else if (c0 as u32) >= 1 && (c0 as u32) <= 32 {
        args.push(String::new());
        pos = 1;
        proof {
            assert(goal =~= out_args(args@) + args_from(
                s@,
                pos as int,
                Seq::empty(),
                false,
                false,
                0,
            ));
        }
    } else {
        let mut j: usize = 0;
        while j < n && !((s[j] as u32) >= 1 && (s[j] as u32) <= 32)
            invariant
                0 <= j <= n,
                forall|q: int| 0 <= q < j ==> !is_cmd_ws(s@[q]),
            decreases n - j,
        {
            j += 1;
        }
        if j >= n {
            proof {
                lemma_find_ws_none(s@, 0);
            }
            let exe = chars_to_string(&s, 0, n);
            proof {
                assert(s@.subrange(0, n as int) =~= s@);
            }
            args.push(exe);
            return args;
        }
        proof {
            lemma_find_ws_first(s@, j as int);
        }
        let exe = chars_to_string(&s, 0, j);
        proof {
            assert(s@.subrange(0, j as int) =~= s@.take(j as int));
        }
        args.push(exe);
        pos = j + 1;
        proof {
            assert(goal =~= out_args(args@) + args_from(
                s@,
                pos as int,
                Seq::empty(),
                false,
                false,
                0,
            ));
        }
    }

    let mut cur: Vec<char> = Vec::new();
    let mut in_q: bool = false;
    let mut was_q: bool = false;
    let mut bs: usize = 0;
    let mut i: usize = pos;
    proof {
        assert(cur@ =~= Seq::<char>::empty());
    }
    while i < n
        invariant
            pos <= i <= n,
            bs <= i,
            goal == lp_cmd_args(lp_cmd_line@),
            goal =~= out_args(args@) + args_from(s@, i as int, cur@, in_q, was_q, bs as nat),
        decreases n - i,
    {
        let c = s[i];
        if c == '\\' {
            bs += 1;
            was_q = false;
        } else if c == '"' && bs % 2 == 0 {
            push_backslashes(&mut cur, bs / 2);
            bs = 0;
            if was_q {
                cur.push('"');
                was_q = false;
            } else {
                let old_in = in_q;
                was_q = in_q;
                in_q = !old_in;
            }
        } else if c == '"' {
            push_backslashes(&mut cur, bs / 2);
            bs = 0;
            was_q = false;
            cur.push('"');
        } else if (c == ' ' || c == '\t') && !in_q {
            push_backslashes(&mut cur, bs);
            bs = 0;
            if cur.len() > 0 || was_q {
                let done = chars_to_string(&cur, 0, cur.len());
                proof {
                    assert(cur@.subrange(0, cur@.len() as int) =~= cur@);
                }
                args.push(done);
                cur = Vec::new();
                proof {
                    assert(cur@ =~= Seq::<char>::empty());
                }
            }
            was_q = false;
        } else {
            push_backslashes(&mut cur, bs);
            bs = 0;
            was_q = false;
            cur.push(c);
        }
        i += 1;
    }
    push_backslashes(&mut cur, bs);
    if cur.len() > 0 || was_q || in_q {
        let done = chars_to_string(&cur, 0, cur.len());
        proof {
            assert(cur@.subrange(0, cur@.len() as int) =~= cur@);
        }
        args.push(done);
    }
    proof {
        assert(goal =~= out_args(args@));
    }
    args
}

/// The models of gathered arguments.
pub open spec fn out_args(v: Seq<String>) -> Seq<Seq<char>> {
    v.map_values(|s: String| s@)
}

/// Appends `count` backslashes.
fn push_backslashes(cur: &mut Vec<char>, count: usize)
    ensures
        final(cur)@ == old(cur)@ + bs_seq(count as nat),
{
    let mut k: usize = 0;
    while k < count
        invariant
            k <= count,
            cur@ == old(cur)@ + bs_seq(k as nat),
        decreases count - k,
    {
        cur.push('\\');
        proof {
            assert(old(cur)@ + bs_seq((k + 1) as nat) =~= (old(cur)@ + bs_seq(k as nat)).push(
                '\\',
            ));
        }
        k += 1;
    }
    proof {
        assert(cur@ =~= old(cur)@ + bs_seq(count as nat));
    }
}

/// No whitespace from `i` on means the search finds none.
proof fn lemma_find_ws_none(s: Seq<char>, i: int)
    requires
        0 <= i,
        forall|q: int| i <= q < s.len() ==> !is_cmd_ws(s[q]),
    ensures
        find_ws(s, i) is None,
    decreases s.len() + 1 - i,
{
    if i < s.len() {
        lemma_find_ws_none(s, i + 1);
    }
}

/// The first whitespace position is what the search finds.
proof fn lemma_find_ws_first(s: Seq<char>, j: int)
    requires
        0 <= j < s.len(),
        is_cmd_ws(s[j]),
        forall|q: int| 0 <= q < j ==> !is_cmd_ws(s[q]),
    ensures
        find_ws(s, 0) == Some(j),
{
    lemma_find_ws_from(s, 0, j);
}

/// The first whitespace position at or after `i` is what the search finds.
proof fn lemma_find_ws_from(s: Seq<char>, i: int, j: int)
    requires
        0 <= i <= j < s.len(),
        is_cmd_ws(s[j]),
        forall|q: int| i <= q < j ==> !is_cmd_ws(s[q]),
    ensures
        find_ws(s, i) == Some(j),
    decreases j - i,
{
    if i < j {
        lemma_find_ws_from(s, i + 1, j);
    }
}

} // verus!

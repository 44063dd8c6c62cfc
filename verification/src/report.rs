//! The error reporter: a pure function from a source text, a span and a
//! message to a multi-line human-readable diagnostic — the offending line,
//! a caret under the offending column, and the message.

use vstd::prelude::*;
use crate::span::Span;

verus! {

/// `n` spaces.
pub open spec fn spec_spaces(n: int) -> Seq<char>
    decreases n,
{
    if n <= 0 {
        Seq::empty()
    } else {
        spec_spaces(n - 1).push(' ')
    }
}

fn spaces(n: usize) -> (r: String)
    ensures
        r@ == spec_spaces(n as int),
{
    let mut r = String::new();
    let mut i: usize = 0;
    while i < n
        invariant
            0 <= i <= n,
            r@ == spec_spaces(i as int),
        decreases n - i,
    {
        r.append(" ");
        proof {
            reveal_strlit(" ");
            assert(r@ =~= spec_spaces(i as int + 1));
        }
        i += 1;
    }
    r
}

/// The characters of line `line` (one-based) of `s`: the text between the
/// `line - 1`-th newline and the next one.
pub open spec fn spec_line(s: Seq<char>, line: int, i: int) -> Seq<char>
    decreases s.len() - i when 0 <= i <= s.len()
{
    if i >= s.len() {
        Seq::empty()
    } else if line <= 1 {
        if s[i] == '\n' {
            Seq::empty()
        } else {
            seq![s[i]].add(spec_line(s, line, i + 1))
        }
    } else {
        if s[i] == '\n' {
            spec_line(s, line - 1, i + 1)
        } else {
            spec_line(s, line, i + 1)
        }
    }
}

/// Extract one line of the source, one-based.
pub fn extract_line(source: &str, line: u32) -> (r: String)
    ensures
        r@ == spec_line(source@, line as int, 0),
{
    let n = source.unicode_len();
    let mut i: usize = 0;
    let mut cur: u32 = line;
    let mut r = String::new();
    while i < n
        invariant
            0 <= i <= n,
            n == source@.len(),
            spec_line(source@, line as int, 0) == (if cur <= 1 {
                r@ + spec_line(source@, cur as int, i as int)
            } else {
                spec_line(source@, cur as int, i as int)
            }),
            cur > 1 ==> r@ == Seq::<char>::empty(),
            cur <= line,
        decreases n - i,
    {
        let c = source.get_char(i);
        if cur <= 1 {
            if c == '\n' {
                proof {
                    assert(spec_line(source@, cur as int, i as int) =~= Seq::empty());
                    assert(r@ + Seq::<char>::empty() =~= r@);
                }
                return r;
            }
            let ghost old_r = r@;
            let piece = source.substring_char(i, i + 1);
            proof {
                assert(piece@ =~= seq![source@[i as int]]);
            }
            r.append(piece);
            proof {
                assert(spec_line(source@, cur as int, i as int) =~= seq![source@[i as int]].add(
                    spec_line(source@, cur as int, i as int + 1),
                ));
                assert(old_r + spec_line(source@, cur as int, i as int) =~= r@ + spec_line(
                    source@,
                    cur as int,
                    i as int + 1,
                ));
            }
        } else {
            if c == '\n' {
                cur = cur - 1;
                proof {
                    assert(r@ + spec_line(source@, cur as int, i as int + 1) =~= spec_line(
                        source@,
                        cur as int,
                        i as int + 1,
                    ));
                }
            }
        }
        i += 1;
    }
    proof {
        assert(spec_line(source@, cur as int, n as int) =~= Seq::empty());
        assert(r@ + Seq::<char>::empty() =~= r@);
        if cur > 1 {
            assert(spec_line(source@, line as int, 0) =~= r@);
        }
    }
    r
}

/// Render a diagnostic: the offending line, indented; a caret under the
/// offending column (one-based); then the message.
pub fn format_diagnostic(source: &str, span: Span, message: &str) -> (r: String)
    ensures
        r@ == seq![' ', ' ', ' ', ' '] + spec_line(source@, span.start.line as int, 0) + seq!['\n']
            + seq![' ', ' ', ' ', ' '] + spec_spaces(
            if span.start.position >= 1 {
                span.start.position - 1
            } else {
                0
            },
        ) + seq!['^', '\n'] + message@,
{
    let mut r = String::new();
    r.append("    ");
    let line = extract_line(source, span.start.line);
    r.append(line.as_str());
    r.append("\n");
    r.append("    ");
    let pad: u32 = if span.start.position >= 1 {
        span.start.position - 1
    } else {
        0
    };
    let sp = spaces(pad as usize);
    r.append(sp.as_str());
    r.append("^\n");
    r.append(message);
    proof {
        reveal_strlit("    ");
        reveal_strlit("\n");
        reveal_strlit("^\n");
        assert(r@ =~= seq![' ', ' ', ' ', ' '] + spec_line(source@, span.start.line as int, 0)
            + seq!['\n'] + seq![' ', ' ', ' ', ' '] + spec_spaces(
            if span.start.position >= 1 {
                span.start.position - 1
            } else {
                0
            },
        ) + seq!['^', '\n'] + message@);
    }
    r
}

} // verus!

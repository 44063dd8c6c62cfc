//! The interactive meta-command grammar: `help`, `list [what]`, `clear`,
//! `save <dst>`, `quit`/`exit`. Input is tokenized on whitespace; each word
//! carries its byte span so that a wrong arity or an unknown sub-argument is
//! reported against the source text.

use vstd::prelude::*;
use crate::resolver::{CodeSource, Resolver};
use crate::span::{SourceCodePositition, Span};
use crate::typechecker::str_eq;

verus! {

/// A Unicode white-space character, by code point.
pub open spec fn is_ws(c: char) -> bool {
    let u = c as u32;
    ||| u == 0x09
    ||| u == 0x0A
    ||| u == 0x0B
    ||| u == 0x0C
    ||| u == 0x0D
    ||| u == 0x20
    ||| u == 0x85
    ||| u == 0xA0
    ||| u == 0x1680
    ||| (0x2000 <= u && u <= 0x200A)
    ||| u == 0x2028
    ||| u == 0x2029
    ||| u == 0x202F
    ||| u == 0x205F
    ||| u == 0x3000
}

/// Decide white space.
pub fn is_ws_char(c: char) -> (r: bool)
    ensures
        r == is_ws(c),
{
    let u = c as u32;
    u == 0x09 || u == 0x0A || u == 0x0B || u == 0x0C || u == 0x0D || u == 0x20 || u == 0x85 || u
        == 0xA0 || u == 0x1680 || (0x2000 <= u && u <= 0x200A) || u == 0x2028 || u == 0x2029 || u
        == 0x202F || u == 0x205F || u == 0x3000
}

/// How many bytes this character takes in its byte encoding.
pub open spec fn utf8_len(c: char) -> int {
    let u = c as u32;
    if u < 0x80 {
        1
    } else if u < 0x800 {
        2
    } else if u < 0x10000 {
        3
    } else {
        4
    }
}

/// Number of bytes this character occupies.
pub fn utf8_len_of(c: char) -> (r: u32)
    ensures
        r == utf8_len(c),
        1 <= r <= 4,
{
    let u = c as u32;
    if u < 0x80 {
        1
    } else if u < 0x800 {
        2
    } else if u < 0x10000 {
        3
    } else {
        4
    }
}

/// The byte offset of character index `i`: the bytes of all characters
/// before it.
pub open spec fn byte_off(s: Seq<char>, i: int) -> int
    decreases i,
{
    if i <= 0 {
        0
    } else {
        byte_off(s, i - 1) + utf8_len(s[i - 1])
    }
}

proof fn lemma_byte_off_bound(s: Seq<char>, i: int)
    requires
        0 <= i <= s.len(),
    ensures
        0 <= byte_off(s, i) <= 4 * i,
    decreases i,
{
    if i > 0 {
        lemma_byte_off_bound(s, i - 1);
    }
}

/// The first position at or after `i` that ends a word: the end of the
/// text, or a white-space character.
pub open spec fn word_end(s: Seq<char>, i: int) -> int
    decreases s.len() - i when 0 <= i <= s.len()
{
    if i >= s.len() || is_ws(s[i]) {
        i
    } else {
        word_end(s, i + 1)
    }
}

proof fn lemma_word_end_bounds(s: Seq<char>, i: int)
    requires
        0 <= i <= s.len(),
    ensures
        i <= word_end(s, i) <= s.len(),
    decreases s.len() - i,
{
    if !(i >= s.len() || is_ws(s[i])) {
        lemma_word_end_bounds(s, i + 1);
    }
}

/// The whitespace-separated words of `s` from position `i` on, as
/// character-index ranges, in order.
pub open spec fn spec_words(s: Seq<char>, i: int) -> Seq<(int, int)>
    decreases s.len() - i when 0 <= i <= s.len() via spec_words_decreases
{
    if i >= s.len() {
        Seq::empty()
    } else if is_ws(s[i]) {
        spec_words(s, i + 1)
    } else {
        seq![(i, word_end(s, i))].add(spec_words(s, word_end(s, i)))
    }
}

#[via_fn]
proof fn spec_words_decreases(s: Seq<char>, i: int) {
    if 0 <= i < s.len() && !is_ws(s[i]) {
        lemma_word_end_bounds(s, i + 1);
    }
}

proof fn lemma_words_bounds(s: Seq<char>, i: int)
    requires
        0 <= i <= s.len(),
    ensures
        forall|t: int|
            0 <= t < spec_words(s, i).len() ==> i <= (#[trigger] spec_words(s, i)[t]).0 < spec_words(
                s,
                i,
            )[t].1 <= s.len(),
    decreases s.len() - i,
{
    if i >= s.len() {
    } else if is_ws(s[i]) {
        lemma_words_bounds(s, i + 1);
        assert forall|t: int|
            0 <= t < spec_words(s, i).len() implies i <= (#[trigger] spec_words(s, i)[t]).0
            < spec_words(s, i)[t].1 <= s.len() by {
            assert(spec_words(s, i)[t] == spec_words(s, i + 1)[t]);
        }
    } else {
        lemma_word_end_bounds(s, i + 1);
        lemma_words_bounds(s, word_end(s, i));
        let we = word_end(s, i);
        assert(we == word_end(s, i + 1));
        assert(we >= i + 1);
        assert(spec_words(s, i) == seq![(i, we)].add(spec_words(s, we)));
        assert forall|t: int|
            0 <= t < spec_words(s, i).len() implies i <= (#[trigger] spec_words(s, i)[t]).0
            < spec_words(s, i)[t].1 <= s.len() by {
            if t == 0 {
                assert(spec_words(s, i)[0] == (i, we));
            } else {
                assert(spec_words(s, i)[t] == spec_words(s, we)[t - 1]);
                assert(we <= spec_words(s, we)[t - 1].0);
            }
        }
    }
}

/// The whitespace-separated words of the input, as character-index ranges.
pub fn word_char_ranges(input: &str) -> (r: Vec<(usize, usize)>)
    ensures
        r@.len() == spec_words(input@, 0).len(),
        forall|t: int|
            0 <= t < r@.len() ==> (#[trigger] r@[t]).0 == spec_words(input@, 0)[t].0 && r@[t].1
                == spec_words(input@, 0)[t].1,
{
    let n = input.unicode_len();
    let mut r: Vec<(usize, usize)> = Vec::new();
    let ghost total = spec_words(input@, 0);
    let ghost done: Seq<(int, int)> = Seq::empty();
    let mut done_len: Ghost<Seq<(int, int)>> = Ghost(done);
    let mut i: usize = 0;
    proof {
        assert(total =~= done_len@ + spec_words(input@, 0));
    }
    while i < n
        invariant
            0 <= i <= n,
            n == input@.len(),
            total == spec_words(input@, 0),
            total == done_len@ + spec_words(input@, i as int),
            r@.len() == done_len@.len(),
            forall|t: int|
                0 <= t < r@.len() ==> (#[trigger] r@[t]).0 == done_len@[t].0 && r@[t].1
                    == done_len@[t].1,
        decreases n - i,
    {
        let c = input.get_char(i);
        if is_ws_char(c) {
            i += 1;
        } else {
            let start = i;
            let mut j = i + 1;
            proof {
                lemma_word_end_bounds(input@, start as int);
            }
            while j < n
                invariant
                    start < j <= n,
                    n == input@.len(),
                    word_end(input@, start as int) == word_end(input@, j as int),
                ensures
                    start < j <= n,
                    word_end(input@, start as int) == j,
                decreases n - j,
            {
                let cj = input.get_char(j);
                if is_ws_char(cj) {
                    proof {
                        assert(word_end(input@, j as int) == j);
                    }
                    break ;
                }
                j += 1;
            }
            proof {
                assert(word_end(input@, start as int) == j);
                assert(spec_words(input@, start as int) =~= seq![(start as int, j as int)].add(
                    spec_words(input@, j as int),
                ));
            }
            r.push((start, j));
            proof {
                done_len@ = done_len@.push((start as int, j as int));
                assert(total =~= done_len@ + spec_words(input@, j as int));
            }
            i = j;
        }
    }
    proof {
        assert(spec_words(input@, n as int) =~= Seq::empty());
        assert(total =~= done_len@);
    }
    r
}

/// The byte spans `(start, start + len)` of each whitespace-separated word
/// of the input, for minting diagnostics. The length bound keeps every byte
/// offset within `u32`.
pub fn get_word_boundaries(input: &str) -> (r: Vec<(u32, u32)>)
    requires
        input@.len() <= 0x3fff_ffff,
    ensures
        r@.len() == spec_words(input@, 0).len(),
        forall|t: int|
            0 <= t < r@.len() ==> (#[trigger] r@[t]).0 == byte_off(
                input@,
                spec_words(input@, 0)[t].0,
            ) && r@[t].1 == byte_off(input@, spec_words(input@, 0)[t].1),
{
    let ranges = word_char_ranges(input);
    let mut r: Vec<(u32, u32)> = Vec::new();
    let n = input.unicode_len();
    let mut i: usize = 0;
    let mut byte: u32 = 0;
    let mut w: usize = 0;
    proof {
        lemma_words_bounds(input@, 0);
    }
    while i < n
        invariant
            0 <= i <= n,
            n == input@.len(),
            n <= 0x3fff_ffff,
            byte == byte_off(input@, i as int),
            byte <= 4 * i,
            0 <= w <= ranges@.len(),
            ranges@.len() == spec_words(input@, 0).len(),
            forall|t: int|
                0 <= t < ranges@.len() ==> (#[trigger] ranges@[t]).0 == spec_words(input@, 0)[t].0
                    && ranges@[t].1 == spec_words(input@, 0)[t].1,
            forall|t: int|
                0 <= t < spec_words(input@, 0).len() ==> 0 <= (#[trigger] spec_words(
                    input@,
                    0,
                )[t]).0 < spec_words(input@, 0)[t].1 <= n,
            r@.len() == w,
            forall|t: int|
                0 <= t < w ==> (#[trigger] r@[t]).0 == byte_off(input@, spec_words(input@, 0)[t].0)
                    && r@[t].1 == byte_off(input@, spec_words(input@, 0)[t].1),
            forall|t: int| w <= t < ranges@.len() ==> (#[trigger] ranges@[t]).0 >= i,
        decreases n - i,
    {
        if w < ranges.len() {
            let (ws, we) = ranges[w];
            if ws == i {
                // Walk this word, accumulating its byte length.
                let start_byte = byte;
                let mut j = i;
                while j < we
                    invariant
                        i <= j <= we,
                        we <= n,
                        n == input@.len(),
                        n <= 0x3fff_ffff,
                        byte == byte_off(input@, j as int),
                        byte <= 4 * j,
                    decreases we - j,
                {
                    let c = input.get_char(j);
                    proof {
                        lemma_byte_off_bound(input@, j as int);
                    }
                    byte = byte + utf8_len_of(c);
                    j += 1;
                }
                r.push((start_byte, byte));
                i = we;
                w += 1;
                proof {
                    assert forall|t: int|
                        w <= t < ranges@.len() implies (#[trigger] ranges@[t]).0 >= i by {
                        lemma_words_sorted(input@, 0, w - 1, t);
                    }
                }
                continue ;
            }
        }
        let c = input.get_char(i);
        proof {
            lemma_byte_off_bound(input@, i as int);
            assert forall|t: int| w <= t < ranges@.len() implies (#[trigger] ranges@[t]).0 >= i + 1
                by {
                if t > w {
                    lemma_words_sorted(input@, 0, w as int, t);
                }
            }
        }
        byte = byte + utf8_len_of(c);
        i += 1;
    }
    proof {
        if w < ranges@.len() {
            assert(ranges@[w as int].0 >= n);
            assert(spec_words(input@, 0)[w as int].1 > n);
        }
        assert(w == ranges@.len());
    }
    r
}

/// Words come in text order: a later word starts at or after an earlier
/// word's end.
proof fn lemma_words_sorted(s: Seq<char>, i: int, a: int, b: int)
    requires
        0 <= i <= s.len(),
        0 <= a < b < spec_words(s, i).len(),
    ensures
        spec_words(s, i)[a].1 <= spec_words(s, i)[b].0,
    decreases s.len() - i,
{
    if i >= s.len() {
    } else if is_ws(s[i]) {
        lemma_words_sorted(s, i + 1, a, b);
    } else {
        let we = word_end(s, i);
        lemma_word_end_bounds(s, i + 1);
        lemma_words_bounds(s, we);
        if a == 0 {
            assert(spec_words(s, i)[b] == spec_words(s, we)[b - 1]);
        } else {
            lemma_words_sorted(s, we, a - 1, b - 1);
            assert(spec_words(s, i)[a] == spec_words(s, we)[a - 1]);
            assert(spec_words(s, i)[b] == spec_words(s, we)[b - 1]);
        }
    }
}


/// What `list` can enumerate.
#[derive(Debug, Clone, Copy, PartialEq, Eq, Structural)]
pub enum ListItems {
    Functions,
    Dimensions,
    Variables,
    Units,
}

/// A parsed interactive command.
#[derive(Debug, Clone, PartialEq)]
pub enum Command {
    Help,
    List { items: Option<ListItems> },
    Clear,
    Save { dst: String },
    Quit,
}

/// Why a command line was rejected.
#[derive(Debug, Clone, Copy, PartialEq)]
pub enum ParseErrorKind {
    InvalidCommand(&'static str),
}

/// A span-tagged command-parsing error.
#[derive(Debug, Clone, Copy, PartialEq)]
pub struct ParseError {
    pub kind: ParseErrorKind,
    pub span: Span,
}

/// A span covering one word's byte range, on line one of the source.
pub fn span_from_boundary(boundary: (u32, u32), code_source_id: usize) -> (r: Span)
    ensures
        r.start.byte == boundary.0,
        r.start.line == 1,
        r.start.position == boundary.0,
        r.end.byte == boundary.1,
        r.end.line == 1,
        r.end.position == boundary.1,
        r.code_source_id == code_source_id,
{
    Span {
        start: SourceCodePositition { byte: boundary.0, line: 1, position: boundary.0 },
        end: SourceCodePositition { byte: boundary.1, line: 1, position: boundary.1 },
        code_source_id,
    }
}

/// The text of word `k` of `s`.
pub open spec fn word_at(s: Seq<char>, k: int) -> Seq<char> {
    s.subrange(spec_words(s, 0)[k].0, spec_words(s, 0)[k].1)
}

/// The byte offset at which word `k` of `s` starts.
pub open spec fn word_start_byte(s: Seq<char>, k: int) -> int {
    byte_off(s, spec_words(s, 0)[k].0)
}

/// The byte offset just past word `k` of `s`.
pub open spec fn word_end_byte(s: Seq<char>, k: int) -> int {
    byte_off(s, spec_words(s, 0)[k].1)
}

/// A span on line one covering the byte range `start..end` of source `id`.
pub open spec fn spans_bytes(sp: Span, start: int, end: int, id: int) -> bool {
    &&& sp.start.byte == start
    &&& sp.start.line == 1
    &&& sp.start.position == start
    &&& sp.end.byte == end
    &&& sp.end.line == 1
    &&& sp.end.position == end
    &&& sp.code_source_id == id
}

/// The byte length of the whole text.
fn byte_length(input: &str) -> (r: u32)
    requires
        input@.len() <= 0x3fff_ffff,
    ensures
        r == byte_off(input@, input@.len() as int),
{
    let n = input.unicode_len();
    let mut i: usize = 0;
    let mut byte: u32 = 0;
    while i < n
        invariant
            0 <= i <= n,
            n == input@.len(),
            n <= 0x3fff_ffff,
            byte == byte_off(input@, i as int),
            byte <= 4 * i,
        decreases n - i,
    {
        let c = input.get_char(i);
        proof {
            lemma_byte_off_bound(input@, i as int);
        }
        byte = byte + utf8_len_of(c);
        i += 1;
    }
    byte
}

/// Attempt to parse the input as an interactive command.
///
/// `None` when the input does not begin with a command keyword;
/// `Some(Ok(..))` for a valid command; `Some(Err(..))` when the input
/// starts with a command keyword but carries the wrong number or kind of
/// arguments. The input is registered as a code source so that the errors'
/// spans can be resolved against it.
pub fn parse_command(input: &str, resolver: &mut Resolver) -> (r: Option<
    Result<Command, ParseError>,
>)
    requires
        old(resolver).wf(),
        input@.len() <= 0x3fff_ffff,
    ensures
        final(resolver).wf(),
        final(resolver).scopes@ == old(resolver).scopes@,
        final(resolver).code_sources@.len() == old(resolver).code_sources@.len() + 1,
        final(resolver).code_sources@.last().0 == CodeSource::Text,
        final(resolver).code_sources@.last().1@ == input@,
        spec_words(input@, 0).len() == 0 ==> (r matches Some(Err(pe)) && (pe.kind matches
        ParseErrorKind::InvalidCommand(m) && m@ == "invalid empty command"@) && spans_bytes(
            pe.span,
            0,
            byte_off(input@, input@.len() as int),
            old(resolver).code_sources@.len() as int,
        )),
        spec_words(input@, 0).len() > 0 ==> {
            let nw = spec_words(input@, 0).len() as int;
            let w0 = word_at(input@, 0);
            let id = old(resolver).code_sources@.len() as int;
            &&& (w0 == "help"@ ==> (if nw == 1 {
                r == Some(Result::<Command, ParseError>::Ok(Command::Help))
            } else {
                r matches Some(Err(pe)) && (pe.kind matches ParseErrorKind::InvalidCommand(m)
                    && m@
                    == "`help` takes 0 arguments; use `info <item>` for information about an item"@)
                    && spans_bytes(
                    pe.span,
                    word_start_byte(input@, 1),
                    word_end_byte(input@, nw - 1),
                    id,
                )
            }))
            &&& (w0 == "clear"@ ==> (if nw == 1 {
                r == Some(Result::<Command, ParseError>::Ok(Command::Clear))
            } else {
                r matches Some(Err(pe)) && (pe.kind matches ParseErrorKind::InvalidCommand(m)
                    && m@ == "`clear` takes 0 arguments"@) && spans_bytes(
                    pe.span,
                    word_start_byte(input@, 1),
                    word_end_byte(input@, nw - 1),
                    id,
                )
            }))
            &&& (w0 == "quit"@ ==> (if nw == 1 {
                r == Some(Result::<Command, ParseError>::Ok(Command::Quit))
            } else {
                r matches Some(Err(pe)) && (pe.kind matches ParseErrorKind::InvalidCommand(m)
                    && m@ == "`quit` takes 0 arguments"@) && spans_bytes(
                    pe.span,
                    word_start_byte(input@, 1),
                    word_end_byte(input@, nw - 1),
                    id,
                )
            }))
            &&& (w0 == "exit"@ ==> (if nw == 1 {
                r == Some(Result::<Command, ParseError>::Ok(Command::Quit))
            } else {
                r matches Some(Err(pe)) && (pe.kind matches ParseErrorKind::InvalidCommand(m)
                    && m@ == "`exit` takes 0 arguments"@) && spans_bytes(
                    pe.span,
                    word_start_byte(input@, 1),
                    word_end_byte(input@, nw - 1),
                    id,
                )
            }))
            &&& (w0 == "list"@ || w0 == "ls"@ ==> {
                let w1ok = word_at(input@, 1) == "functions"@ || word_at(input@, 1)
                    == "dimensions"@ || word_at(input@, 1) == "variables"@ || word_at(input@, 1)
                    == "units"@;
                &&& (nw == 1 ==> r == Some(
                    Result::<Command, ParseError>::Ok(Command::List { items: None }),
                ))
                &&& (nw == 2 && word_at(input@, 1) == "functions"@ ==> r == Some(
                    Result::<Command, ParseError>::Ok(
                        Command::List { items: Some(ListItems::Functions) },
                    ),
                ))
                &&& (nw == 2 && word_at(input@, 1) == "dimensions"@ ==> r == Some(
                    Result::<Command, ParseError>::Ok(
                        Command::List { items: Some(ListItems::Dimensions) },
                    ),
                ))
                &&& (nw == 2 && word_at(input@, 1) == "variables"@ ==> r == Some(
                    Result::<Command, ParseError>::Ok(
                        Command::List { items: Some(ListItems::Variables) },
                    ),
                ))
                &&& (nw == 2 && word_at(input@, 1) == "units"@ ==> r == Some(
                    Result::<Command, ParseError>::Ok(
                        Command::List { items: Some(ListItems::Units) },
                    ),
                ))
                &&& (nw >= 2 && !w1ok ==> (r matches Some(Err(pe)) && (pe.kind matches
                ParseErrorKind::InvalidCommand(m) && m@
                    == "if provided, the argument to `list` or `ls` must be one of: functions, dimensions, variables, units"@)
                    && spans_bytes(
                    pe.span,
                    word_start_byte(input@, 1),
                    word_end_byte(input@, 1),
                    id,
                )))
                &&& (nw > 2 && w1ok ==> (r matches Some(Err(pe)) && (pe.kind matches
                ParseErrorKind::InvalidCommand(m) && m@ == "`list` takes at most one argument"@)
                    && spans_bytes(
                    pe.span,
                    word_start_byte(input@, 2),
                    word_end_byte(input@, nw - 1),
                    id,
                )))
            })
            &&& (w0 == "save"@ ==> {
                &&& (nw == 2 ==> (r matches Some(Ok(Command::Save { dst })) && dst@ == word_at(
                    input@,
                    1,
                )))
                &&& (nw == 1 ==> (r matches Some(Err(pe)) && (pe.kind matches
                ParseErrorKind::InvalidCommand(m) && m@
                    == "`save` requires exactly one argument, the destination"@) && spans_bytes(
                    pe.span,
                    word_start_byte(input@, 0),
                    word_end_byte(input@, 0),
                    id,
                )))
                &&& (nw > 2 ==> (r matches Some(Err(pe)) && (pe.kind matches
                ParseErrorKind::InvalidCommand(m) && m@
                    == "`save` requires exactly one argument, the destination"@) && spans_bytes(
                    pe.span,
                    word_start_byte(input@, 2),
                    word_end_byte(input@, nw - 1),
                    id,
                )))
            })
            &&& (w0 != "help"@ && w0 != "clear"@ && w0 != "quit"@ && w0 != "exit"@ && w0 != "list"@
                && w0 != "ls"@ && w0 != "save"@ ==> r is None)
        },
{
    let word_boundaries = get_word_boundaries(input);
    let ranges = word_char_ranges(input);
    let code_source_id = resolver.add_code_source(CodeSource::Text, input);
    proof {
        lemma_words_bounds(input@, 0);
        reveal_strlit("help");
        reveal_strlit("clear");
        reveal_strlit("quit");
        reveal_strlit("exit");
        reveal_strlit("list");
        reveal_strlit("ls");
        reveal_strlit("save");
        reveal_strlit("functions");
        reveal_strlit("dimensions");
        reveal_strlit("variables");
        reveal_strlit("units");
        assert("help"@[0] == 'h');
        assert("clear"@[0] == 'c');
        assert("quit"@[0] == 'q');
        assert("exit"@[0] == 'e');
        assert("list"@[0] == 'l');
        assert("ls"@[0] == 'l');
        assert("ls"@.len() == 2);
        assert("list"@.len() == 4);
        assert("save"@[0] == 's');
        assert("functions"@[0] == 'f');
        assert("dimensions"@[0] == 'd');
        assert("variables"@[0] == 'v');
        assert("units"@[0] == 'u');
    }
    let nw = ranges.len();
    if nw == 0 {
        // In practice all-whitespace inputs are skipped before parsing.
        let total = byte_length(input);
        return Some(
            Err(
                ParseError {
                    kind: ParseErrorKind::InvalidCommand("invalid empty command"),
                    span: span_from_boundary((0, total), code_source_id),
                },
            ),
        );
    }
    let (s0, e0) = ranges[0];
    let w0 = input.substring_char(s0, e0);
    let last_end: u32 = word_boundaries[nw - 1].1;
    if str_eq(w0, "help") {
        if nw > 1 {
            let start = word_boundaries[1].0;
            return Some(
                Err(
                    ParseError {
                        kind: ParseErrorKind::InvalidCommand(
                            "`help` takes 0 arguments; use `info <item>` for information about an item",
                        ),
                        span: span_from_boundary((start, last_end), code_source_id),
                    },
                ),
            );
        }
        return Some(Ok(Command::Help));
    }
    if str_eq(w0, "clear") {
        if nw > 1 {
            let start = word_boundaries[1].0;
            return Some(
                Err(
                    ParseError {
                        kind: ParseErrorKind::InvalidCommand("`clear` takes 0 arguments"),
                        span: span_from_boundary((start, last_end), code_source_id),
                    },
                ),
            );
        }
        return Some(Ok(Command::Clear));
    }
    if str_eq(w0, "quit") {
        if nw > 1 {
            let start = word_boundaries[1].0;
            return Some(
                Err(
                    ParseError {
                        kind: ParseErrorKind::InvalidCommand("`quit` takes 0 arguments"),
                        span: span_from_boundary((start, last_end), code_source_id),
                    },
                ),
            );
        }
        return Some(Ok(Command::Quit));
    }
    if str_eq(w0, "exit") {
        if nw > 1 {
            let start = word_boundaries[1].0;
            return Some(
                Err(
                    ParseError {
                        kind: ParseErrorKind::InvalidCommand("`exit` takes 0 arguments"),
                        span: span_from_boundary((start, last_end), code_source_id),
                    },
                ),
            );
        }
        return Some(Ok(Command::Quit));
    }
    if str_eq(w0, "list") || str_eq(w0, "ls") {
        if nw == 1 {
            return Some(Ok(Command::List { items: None }));
        }
        let (s1, e1) = ranges[1];
        let w1 = input.substring_char(s1, e1);
        let items: Option<ListItems> = if str_eq(w1, "functions") {
            Some(ListItems::Functions)
        } else if str_eq(w1, "dimensions") {
            Some(ListItems::Dimensions)
        } else if str_eq(w1, "variables") {
            Some(ListItems::Variables)
        } else if str_eq(w1, "units") {
            Some(ListItems::Units)
        } else {
            return Some(
                Err(
                    ParseError {
                        kind: ParseErrorKind::InvalidCommand(
                            "if provided, the argument to `list` or `ls` must be one of: functions, dimensions, variables, units",
                        ),
                        span: span_from_boundary(word_boundaries[1], code_source_id),
                    },
                ),
            );
        };
        if nw > 2 {
            let start = word_boundaries[2].0;
            return Some(
                Err(
                    ParseError {
                        kind: ParseErrorKind::InvalidCommand("`list` takes at most one argument"),
                        span: span_from_boundary((start, last_end), code_source_id),
                    },
                ),
            );
        }
        return Some(Ok(Command::List { items }));
    }
    if str_eq(w0, "save") {
        if nw == 1 {
            return Some(
                Err(
                    ParseError {
                        kind: ParseErrorKind::InvalidCommand(
                            "`save` requires exactly one argument, the destination",
                        ),
                        span: span_from_boundary(word_boundaries[0], code_source_id),
                    },
                ),
            );
        }
        if nw > 2 {
            let start = word_boundaries[2].0;
            return Some(
                Err(
                    ParseError {
                        kind: ParseErrorKind::InvalidCommand(
                            "`save` requires exactly one argument, the destination",
                        ),
                        span: span_from_boundary((start, last_end), code_source_id),
                    },
                ),
            );
        }
        let (s1, e1) = ranges[1];
        let dst = input.substring_char(s1, e1).to_owned();
        return Some(Ok(Command::Save { dst }));
    }
    None
}

} // verus!

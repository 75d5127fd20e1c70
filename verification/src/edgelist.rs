//! The edge-list text format: one edge per line, written as two
//! whitespace-separated unsigned decimal numbers. Lines with fewer than two
//! tokens are skipped and whatever follows the second token is ignored.

use crate::graph::{graph_of_edges, Adjacency, Graph};
use vstd::prelude::*;
use vstd::slice::slice_subrange;

verus! {

/// Why a token is not a number.
#[derive(Debug, Clone, Copy, PartialEq, Eq, Structural)]
pub enum NumberError {
    /// A character that is no decimal digit, or a sign without digits.
    InvalidDigit,
    /// The value does not fit in `usize`.
    TooLarge,
}

/// The first line that could not be read, counted from zero, and why.
#[derive(Debug, Clone, Copy, PartialEq, Eq, Structural)]
pub struct EdgeListError {
    pub line: usize,
    pub reason: NumberError,
}

/// The characters that separate tokens: those with the Unicode property
/// `White_Space`.
pub open spec fn is_space(c: char) -> bool {
    let p = c as u32;
    ||| 0x09 <= p <= 0x0d
    ||| p == 0x20
    ||| p == 0x85
    ||| p == 0xa0
    ||| p == 0x1680
    ||| 0x2000 <= p <= 0x200a
    ||| p == 0x2028
    ||| p == 0x2029
    ||| p == 0x202f
    ||| p == 0x205f
    ||| p == 0x3000
}

/// The characters `0` to `9`.
pub open spec fn is_digit(c: char) -> bool {
    0x30 <= c as u32 <= 0x39
}

/// The value of a decimal digit.
pub open spec fn digit_value(c: char) -> nat {
    (c as u32 - 0x30) as nat
}

/// The value of a run of decimal digits, read from the left. The first
/// character that is no digit, or the first digit that takes the value
/// beyond `usize`, decides the error.
pub open spec fn decimal_value(digits: Seq<char>) -> Result<usize, NumberError>
    decreases digits.len(),
{
    if digits.len() == 0 {
        Ok(0)
    } else {
        match decimal_value(digits.drop_last()) {
            Err(e) => Err(e),
            Ok(high) => if !is_digit(digits.last()) {
                Err(NumberError::InvalidDigit)
            } else if high * 10 + digit_value(digits.last()) > usize::MAX {
                Err(NumberError::TooLarge)
            } else {
                Ok((high * 10 + digit_value(digits.last())) as usize)
            },
        }
    }
}

/// The number that a token stands for: decimal digits, with one `+` allowed
/// in front. At least one digit is needed.
pub open spec fn number_of(token: Seq<char>) -> Result<usize, NumberError> {
    let digits = if token.len() > 0 && token[0] == '+' {
        token.skip(1)
    } else {
        token
    };
    if digits.len() == 0 {
        Err(NumberError::InvalidDigit)
    } else {
        decimal_value(digits)
    }
}

/// Tells whether `c` separates tokens.
pub fn char_is_space(c: char) -> (b: bool)
    ensures
        b == is_space(c),
{
    let p = c as u32;
    (0x09 <= p && p <= 0x0d) || p == 0x20 || p == 0x85 || p == 0xa0 || p == 0x1680 || (0x2000 <= p
        && p <= 0x200a) || p == 0x2028 || p == 0x2029 || p == 0x202f || p == 0x205f || p == 0x3000
}

/// Reads a token as an unsigned decimal number.
pub fn parse_number(token: &[char]) -> (r: Result<usize, NumberError>)
    ensures
        r == number_of(token@),
{
    let len = token.len();
    let start: usize = if len > 0 && token[0] == '+' {
        1
    } else {
        0
    };
    if start == len {
        return Err(NumberError::InvalidDigit);
    }
    let ghost digits = token@.skip(start as int);
    let mut value: usize = 0;
    let mut i: usize = start;
    assert(digits.take(0) =~= Seq::<char>::empty());
    assert(token@.skip(0) =~= token@);
    while i < len
        invariant
            start <= i <= len,
            len == token@.len(),
            digits == token@.skip(start as int),
            number_of(token@) == decimal_value(digits),
            decimal_value(digits.take(i - start)) == Ok::<usize, NumberError>(value),
        decreases len - i,
    {
        let c: char = token[i];
        let p = c as u32;
        proof {
            let seen = digits.take(i - start + 1);
            assert(seen.drop_last() =~= digits.take(i - start));
            assert(seen.last() == token@[i as int]);
            assert(digits.take(len - start) =~= digits);
            lemma_decimal_error_stays(seen, digits);
        }
        if p < 0x30 || p > 0x39 {
            return Err(NumberError::InvalidDigit);
        }
        let digit = (p - 0x30) as usize;
        let shifted = match value.checked_mul(10) {
            Some(shifted) => shifted,
            None => {
                return Err(NumberError::TooLarge);
            },
        };
        value = match shifted.checked_add(digit) {
            Some(sum) => sum,
            None => {
                return Err(NumberError::TooLarge);
            },
        };
        i = i + 1;
    }
    assert(digits.take(len - start) =~= digits);
    Ok(value)
}

/// Once a prefix of the digits has failed, the whole fails in the same way.
proof fn lemma_decimal_error_stays(prefix: Seq<char>, digits: Seq<char>)
    requires
        prefix.is_prefix_of(digits),
    ensures
        decimal_value(prefix) is Err ==> decimal_value(digits) == decimal_value(prefix),
    decreases digits.len(),
{
    if prefix.len() < digits.len() {
        assert(prefix.is_prefix_of(digits.drop_last()));
        lemma_decimal_error_stays(prefix, digits.drop_last());
    } else {
        assert(prefix =~= digits);
    }
}

/// The end of the token that holds position `i`: the first position from `i`
/// on that holds a separator, or the end of the line.
pub open spec fn token_end(line: Seq<char>, i: int) -> int
    decreases line.len() - i,
{
    if i >= line.len() || is_space(line[i]) {
        i
    } else {
        token_end(line, i + 1)
    }
}

/// The tokens of a line that start at position `i` or later: the maximal
/// runs of characters that are no separators.
pub open spec fn tokens_from(line: Seq<char>, i: int) -> Seq<Seq<char>>
    decreases line.len() - i,
    via tokens_from_decreases
{
    if i < 0 || i >= line.len() {
        Seq::empty()
    } else if is_space(line[i]) {
        tokens_from(line, i + 1)
    } else {
        seq![line.subrange(i, token_end(line, i))] + tokens_from(line, token_end(line, i))
    }
}

#[via_fn]
proof fn tokens_from_decreases(line: Seq<char>, i: int) {
    if 0 <= i < line.len() && !is_space(line[i]) {
        lemma_token_end_bounds(line, i + 1);
    }
}

/// The tokens of a line.
pub open spec fn tokens_of(line: Seq<char>) -> Seq<Seq<char>> {
    tokens_from(line, 0)
}

/// The edge that a line gives: none where it has fewer than two tokens,
/// otherwise the numbers of its first two tokens.
pub open spec fn edge_of_line(line: Seq<char>) -> Result<Option<(usize, usize)>, NumberError> {
    let tokens = tokens_of(line);
    if tokens.len() < 2 {
        Ok(None)
    } else {
        match number_of(tokens[0]) {
            Err(e) => Err(e),
            Ok(source) => match number_of(tokens[1]) {
                Err(e) => Err(e),
                Ok(target) => Ok(Some((source, target))),
            },
        }
    }
}

/// The end of the line that holds position `i`: the first position from `i`
/// on that holds a line feed, or the end of the text.
pub open spec fn line_end(text: Seq<char>, i: int) -> int
    decreases text.len() - i,
{
    if i >= text.len() || text[i] == '\n' {
        i
    } else {
        line_end(text, i + 1)
    }
}

/// The lines of a text from position `i` on. A line feed ends a line and is
/// no part of it; nothing follows the last line feed of a text that ends in
/// one. (A carriage return before the line feed is a separator like any
/// other, so it is left in the line.)
pub open spec fn lines_from(text: Seq<char>, i: int) -> Seq<Seq<char>>
    decreases text.len() - i,
    via lines_from_decreases
{
    if i < 0 || i >= text.len() {
        Seq::empty()
    } else if line_end(text, i) >= text.len() {
        seq![text.subrange(i, line_end(text, i))]
    } else {
        seq![text.subrange(i, line_end(text, i))] + lines_from(text, line_end(text, i) + 1)
    }
}

#[via_fn]
proof fn lines_from_decreases(text: Seq<char>, i: int) {
    if 0 <= i < text.len() {
        lemma_line_end_bounds(text, i);
    }
}

/// The lines of a text.
pub open spec fn lines_of(text: Seq<char>) -> Seq<Seq<char>> {
    lines_from(text, 0)
}

/// The edges that the lines give, in order; or the first line that cannot
/// be read, with the reason.
pub open spec fn edges_of_lines(lines: Seq<Seq<char>>) -> Result<Seq<(usize, usize)>, EdgeListError>
    decreases lines.len(),
{
    if lines.len() == 0 {
        Ok(Seq::empty())
    } else {
        match edges_of_lines(lines.drop_last()) {
            Err(e) => Err(e),
            Ok(edges) => match edge_of_line(lines.last()) {
                Err(reason) => Err(
                    EdgeListError { line: (lines.len() - 1) as usize, reason: reason },
                ),
                Ok(None) => Ok(edges),
                Ok(Some(edge)) => Ok(edges.push(edge)),
            },
        }
    }
}

/// The edges that a text gives.
pub open spec fn edges_of_text(text: Seq<char>) -> Result<Seq<(usize, usize)>, EdgeListError> {
    edges_of_lines(lines_of(text))
}

/// The graph that a text describes, or the first line that cannot be read.
pub open spec fn graph_of_text(text: Seq<char>) -> Result<Adjacency, EdgeListError> {
    match edges_of_text(text) {
        Ok(edges) => Ok(graph_of_edges(edges)),
        Err(e) => Err(e),
    }
}

/// A token ends at or after the position asked for, within the line.
pub proof fn lemma_token_end_bounds(line: Seq<char>, i: int)
    requires
        0 <= i <= line.len(),
    ensures
        i <= token_end(line, i) <= line.len(),
    decreases line.len() - i,
{
    if i < line.len() && !is_space(line[i]) {
        lemma_token_end_bounds(line, i + 1);
    }
}

/// A line ends at or after the position asked for, within the text.
pub proof fn lemma_line_end_bounds(text: Seq<char>, i: int)
    requires
        0 <= i <= text.len(),
    ensures
        i <= line_end(text, i) <= text.len(),
    decreases text.len() - i,
{
    if i < text.len() && text[i] != '\n' {
        lemma_line_end_bounds(text, i + 1);
    }
}

/// Once the first lines have failed, the whole text fails in the same way.
proof fn lemma_edges_error_stays(first: Seq<Seq<char>>, lines: Seq<Seq<char>>)
    requires
        first.is_prefix_of(lines),
    ensures
        edges_of_lines(first) is Err ==> edges_of_lines(lines) == edges_of_lines(first),
    decreases lines.len(),
{
    if first.len() < lines.len() {
        assert(first.is_prefix_of(lines.drop_last()));
        lemma_edges_error_stays(first, lines.drop_last());
    } else {
        assert(first =~= lines);
    }
}

/// The first position from `from` on that holds no separator.
fn skip_spaces(line: &[char], from: usize) -> (at: usize)
    requires
        from <= line@.len(),
    ensures
        from <= at <= line@.len(),
        at < line@.len() ==> !is_space(line@[at as int]),
        tokens_from(line@, at as int) == tokens_from(line@, from as int),
{
    let mut at = from;
    while at < line.len() && char_is_space(line[at])
        invariant
            from <= at <= line@.len(),
            tokens_from(line@, at as int) == tokens_from(line@, from as int),
        decreases line@.len() - at,
    {
        at = at + 1;
    }
    at
}

/// The end of the token that starts at `from`.
fn scan_token(line: &[char], from: usize) -> (at: usize)
    requires
        from <= line@.len(),
    ensures
        from <= at <= line@.len(),
        at == token_end(line@, from as int),
{
    let mut at = from;
    while at < line.len() && !char_is_space(line[at])
        invariant
            from <= at <= line@.len(),
            token_end(line@, at as int) == token_end(line@, from as int),
        decreases line@.len() - at,
    {
        at = at + 1;
    }
    at
}

/// Reads one line of an edge list.
pub fn parse_edge_line(line: &[char]) -> (r: Result<Option<(usize, usize)>, NumberError>)
    ensures
        r == edge_of_line(line@),
{
    let len = line.len();
    let first_start = skip_spaces(line, 0);
    if first_start == len {
        return Ok(None);
    }
    let first_end = scan_token(line, first_start);
    let second_start = skip_spaces(line, first_end);
    if second_start == len {
        return Ok(None);
    }
    let second_end = scan_token(line, second_start);
    proof {
        let rest = tokens_from(line@, second_end as int);
        let first = line@.subrange(first_start as int, first_end as int);
        let second = line@.subrange(second_start as int, second_end as int);
        assert(tokens_of(line@) =~= seq![first] + (seq![second] + rest));
    }
    let source = match parse_number(slice_subrange(line, first_start, first_end)) {
        Ok(source) => source,
        Err(e) => {
            return Err(e);
        },
    };
    let target = match parse_number(slice_subrange(line, second_start, second_end)) {
        Ok(target) => target,
        Err(e) => {
            return Err(e);
        },
    };
    Ok(Some((source, target)))
}

/// The end of the line that starts at `from`.
fn scan_line(text: &[char], from: usize) -> (at: usize)
    requires
        from <= text@.len(),
    ensures
        from <= at <= text@.len(),
        at == line_end(text@, from as int),
{
    let mut at = from;
    while at < text.len() && text[at] != '\n'
        invariant
            from <= at <= text@.len(),
            line_end(text@, at as int) == line_end(text@, from as int),
        decreases text@.len() - at,
    {
        at = at + 1;
    }
    at
}

impl Graph {
    /// Builds the graph that an edge-list text describes. The first line
    /// whose first two tokens are not both numbers ends the reading with an
    /// error that names the line.
    pub fn from_edgelist(text: &str) -> (r: Result<Graph, EdgeListError>)
        ensures
            match r {
                Ok(graph) => graph.wf() && graph_of_text(text@) == Ok::<Adjacency, EdgeListError>(
                    graph@,
                ),
                Err(e) => graph_of_text(text@) == Err::<Adjacency, EdgeListError>(e),
            },
    {
        let mut chars: Vec<char> = Vec::new();
        for c in it: text.chars()
            invariant
                chars@ == it.history(),
        {
            chars.push(c);
        }
        assert(chars@ =~= text@);
        let len = chars.len();
        let mut graph = Graph::new();
        let mut start: usize = 0;
        let mut line_no: usize = 0;
        let ghost mut done: Seq<Seq<char>> = Seq::empty();
        let ghost mut edges: Seq<(usize, usize)> = Seq::empty();
        assert(done + lines_from(chars@, 0) =~= lines_of(chars@));
        while start < len
            invariant
                chars@ == text@,
                len == chars@.len(),
                start <= len,
                line_no <= start,
                done.len() == line_no,
                lines_of(chars@) == done + lines_from(chars@, start as int),
                edges_of_lines(done) == Ok::<Seq<(usize, usize)>, EdgeListError>(edges),
                graph.wf(),
                graph@ == graph_of_edges(edges),
            decreases len - start,
        {
            let end = scan_line(chars.as_slice(), start);
            let line = slice_subrange(chars.as_slice(), start, end);
            let parsed = parse_edge_line(line);
            proof {
                let longer = done.push(line@);
                assert(longer.drop_last() =~= done);
                assert(longer.last() == line@);
                let next = if end == len {
                    len as int
                } else {
                    end + 1
                };
                assert(lines_of(chars@) =~= longer + lines_from(chars@, next));
                assert(longer.is_prefix_of(lines_of(chars@)));
                lemma_edges_error_stays(longer, lines_of(chars@));
                done = longer;
            }
            match parsed {
                Err(reason) => {
                    return Err(EdgeListError { line: line_no, reason: reason });
                },
                Ok(None) => {},
                Ok(Some(edge)) => {
                    graph.add_edge(edge.0, edge.1);
                    proof {
                        let more = edges.push(edge);
                        assert(more.drop_last() =~= edges);
                        edges = more;
                    }
                },
            }
            start = if end == len {
                len
            } else {
                end + 1
            };
            line_no = line_no + 1;
        }
        assert(done + lines_from(chars@, start as int) =~= done);
        Ok(graph)
    }
}

} // verus!

use vstd::prelude::*;
use crate::rk::errors::Errors;

verus! {

/// An ASCII decimal digit.
pub open spec fn is_digit(b: u8) -> bool {
    48 <= b <= 57
}

/// ASCII whitespace: space, tab, line feed, vertical tab, form feed, carriage return.
pub open spec fn is_space(b: u8) -> bool {
    b == 32 || b == 9 || b == 10 || b == 11 || b == 12 || b == 13
}

/// The value of a string of decimal digits.
pub open spec fn digits_value(s: Seq<u8>) -> nat
    decreases s.len(),
{
    if s.len() == 0 {
        0
    } else {
        digits_value(s.drop_last()) * 10 + (s.last() - 48) as nat
    }
}

/// A token without its leading `+`, if it has one.
pub open spec fn token_body(tok: Seq<u8>) -> Seq<u8> {
    if tok.len() > 0 && tok[0] == 43 { tok.drop_first() } else { tok }
}

/// The number a token spells: an optional `+` and at least one digit, nothing else.
pub open spec fn token_value(tok: Seq<u8>) -> Option<nat> {
    let body = token_body(tok);
    if body.len() > 0 && forall|i: int| 0 <= i < body.len() ==> is_digit(#[trigger] body[i]) {
        Some(digits_value(body))
    } else {
        None
    }
}

/// The number a token spells, when it fits in `usize`.
pub open spec fn parsed_usize(tok: Seq<u8>) -> Option<usize> {
    match token_value(tok) {
        Some(v) => if v <= usize::MAX { Some(v as usize) } else { None },
        None => None,
    }
}

/// Reads a token as a decimal number: an optional `+` and at least one digit;
/// anything else, or a value beyond `usize`, gives `None`.
pub fn parse_usize(tok: &[u8]) -> (r: Option<usize>)
    ensures
        r == parsed_usize(tok@),
{
    let n = tok.len();
    let start: usize = if n > 0 && tok[0] == 43 { 1 } else { 0 };
    let ghost body = token_body(tok@);
    assert(body == tok@.subrange(start as int, n as int));
    if start >= n {
        return None;
    }
    let mut value: usize = 0;
    let mut i: usize = start;
    while i < n
        invariant
            start <= i <= n,
            n == tok@.len(),
            body == tok@.subrange(start as int, n as int),
            body == token_body(tok@),
            forall|k: int| start <= k < i ==> is_digit(#[trigger] tok@[k]),
            value as nat == digits_value(tok@.subrange(start as int, i as int)),
        decreases n - i,
    {
        let b = tok[i];
        if b < 48 || b > 57 {
            proof {
                assert(body[i - start] == b);
                assert(!is_digit(body[i - start]));
                assert(!(forall|k: int| 0 <= k < body.len() ==> is_digit(#[trigger] body[k])));
                assert(token_value(tok@) is None);
            }
            return None;
        }
        let d = (b - 48) as usize;
        assert(tok@.subrange(start as int, i + 1).drop_last() == tok@.subrange(start as int, i as int));
        if value > (usize::MAX - d) / 10 {
            proof {
                assert(tok@.subrange(start as int, n as int).subrange(0, (i - start) as int) == tok@.subrange(start as int, i as int));
                lemma_digits_stay_large(tok@.subrange(start as int, n as int), (i - start) as int, value as nat);
                if forall|k: int| 0 <= k < body.len() ==> is_digit(#[trigger] body[k]) {
                    assert(token_value(tok@) == Some(digits_value(body)));
                } else {
                    assert(token_value(tok@) is None);
                }
            }
            return None;
        }
        value = value * 10 + d;
        i += 1;
    }
    proof {
        assert(tok@.subrange(start as int, n as int) == body);
        assert forall|k: int| 0 <= k < body.len() implies is_digit(#[trigger] body[k]) by {
            assert(body[k] == tok@[start + k]);
        }
    }
    Some(value)
}

/// The pieces of the first `i` bytes of `line` between single spaces, empty
/// pieces included (the last piece is still open).
pub open spec fn fields_upto(line: Seq<u8>, i: int) -> Seq<Seq<u8>>
    decreases i,
{
    if i <= 0 {
        seq![Seq::empty()]
    } else {
        let f = fields_upto(line, i - 1);
        if line[i - 1] == 32 {
            f.push(Seq::empty())
        } else {
            f.update(f.len() - 1, f[f.len() - 1].push(line[i - 1]))
        }
    }
}

/// The maximal runs of non-whitespace bytes among the first `i` bytes of `line`.
pub open spec fn words_upto(line: Seq<u8>, i: int) -> Seq<Seq<u8>>
    decreases i,
{
    if i <= 0 {
        Seq::empty()
    } else {
        let w = words_upto(line, i - 1);
        if is_space(line[i - 1]) {
            w
        } else if i == 1 || is_space(line[i - 2]) {
            w.push(seq![line[i - 1]])
        } else {
            w.update(w.len() - 1, w[w.len() - 1].push(line[i - 1]))
        }
    }
}

proof fn lemma_fields_nonempty(line: Seq<u8>, i: int)
    ensures
        fields_upto(line, i).len() >= 1,
    decreases i,
{
    if i > 0 {
        lemma_fields_nonempty(line, i - 1);
    }
}

proof fn lemma_words_open(line: Seq<u8>, i: int)
    requires
        0 < i <= line.len(),
        !is_space(line[i - 1]),
    ensures
        words_upto(line, i).len() >= 1,
    decreases i,
{
    if i > 1 && !is_space(line[i - 2]) {
        lemma_words_open(line, i - 1);
    }
}

/// The pieces of `line` between single spaces, in order; empty pieces included.
pub fn fields_of(line: &[u8]) -> (r: Vec<Vec<u8>>)
    ensures
        r@.len() == fields_upto(line@, line@.len() as int).len(),
        forall|k: int| 0 <= k < r@.len() ==> (#[trigger] r@[k])@ == fields_upto(line@, line@.len() as int)[k],
{
    let mut out: Vec<Vec<u8>> = Vec::new();
    let mut cur: Vec<u8> = Vec::new();
    let n = line.len();
    for i in 0..n
        invariant
            n == line@.len(),
            out@.len() + 1 == fields_upto(line@, i as int).len(),
            forall|k: int| 0 <= k < out@.len() ==> (#[trigger] out@[k])@ == fields_upto(line@, i as int)[k],
            cur@ == fields_upto(line@, i as int).last(),
    {
        proof {
            lemma_fields_nonempty(line@, i as int);
        }
        if line[i] == 32 {
            let piece = cur;
            cur = Vec::new();
            out.push(piece);
        } else {
            cur.push(line[i]);
        }
    }
    proof {
        lemma_fields_nonempty(line@, n as int);
    }
    out.push(cur);
    out
}

/// The maximal runs of non-whitespace bytes of `line`, in order.
pub fn words_of(line: &[u8]) -> (r: Vec<Vec<u8>>)
    ensures
        r@.len() == words_upto(line@, line@.len() as int).len(),
        forall|k: int| 0 <= k < r@.len() ==> (#[trigger] r@[k])@ == words_upto(line@, line@.len() as int)[k],
{
    let mut out: Vec<Vec<u8>> = Vec::new();
    let n = line.len();
    for i in 0..n
        invariant
            n == line@.len(),
            out@.len() == words_upto(line@, i as int).len(),
            forall|k: int| 0 <= k < out@.len() ==> (#[trigger] out@[k])@ == words_upto(line@, i as int)[k],
    {
        let c = line[i];
        let space = c == 32 || c == 9 || c == 10 || c == 11 || c == 12 || c == 13;
        if !space {
            let start = i == 0 || {
                let p = line[i - 1];
                p == 32 || p == 9 || p == 10 || p == 11 || p == 12 || p == 13
            };
            if start {
                let mut w: Vec<u8> = Vec::new();
                w.push(c);
                out.push(w);
            } else {
                proof {
                    lemma_words_open(line@, i as int);
                }
                let last = out.len() - 1;
                out[last].push(c);
            }
        }
        proof {
            let w = words_upto(line@, i + 1);
            assert forall|k: int| 0 <= k < out@.len() implies (#[trigger] out@[k])@ == w[k] by {}
        }
    }
    out
}

/// The numbers among `fs`, in order: pieces that do not read as a number are skipped.
pub open spec fn kept_numbers(fs: Seq<Seq<u8>>) -> Seq<usize>
    decreases fs.len(),
{
    if fs.len() == 0 {
        Seq::empty()
    } else {
        match parsed_usize(fs.last()) {
            Some(v) => kept_numbers(fs.drop_last()).push(v),
            None => kept_numbers(fs.drop_last()),
        }
    }
}

/// The numbers of a line whose pieces are separated by single spaces; pieces
/// that are not numbers (empty ones included) are skipped.
pub fn numbers_of(line: &[u8]) -> (r: Vec<usize>)
    ensures
        r@ == kept_numbers(fields_upto(line@, line@.len() as int)),
{
    let fields = fields_of(line);
    let ghost fs = fields_upto(line@, line@.len() as int);
    let mut out: Vec<usize> = Vec::new();
    for k in 0..fields.len()
        invariant
            fields@.len() == fs.len(),
            forall|t: int| 0 <= t < fields@.len() ==> (#[trigger] fields@[t])@ == fs[t],
            out@ == kept_numbers(fs.subrange(0, k as int)),
    {
        assert(fs.subrange(0, k + 1).drop_last() == fs.subrange(0, k as int));
        match parse_usize(fields[k].as_slice()) {
            Some(v) => out.push(v),
            None => {},
        }
    }
    assert(fs.subrange(0, fields@.len() as int) == fs);
    out
}

/// What reading a row of `n_elems` whitespace-separated numbers gives: the
/// numbers; `FailedToParse` if a word is not a number; `RowsDifferentLength`
/// if every word is a number but their count is not `n_elems`.
pub open spec fn row_result(line: Seq<u8>, n_elems: int) -> Result<Seq<usize>, Errors> {
    let ws = words_upto(line, line.len() as int);
    if exists|k: int| 0 <= k < ws.len() && #[trigger] parsed_usize(ws[k]) is None {
        Err(Errors::FailedToParse)
    } else if ws.len() != n_elems {
        Err(Errors::RowsDifferentLength)
    } else {
        Ok(Seq::new(ws.len(), |k: int| parsed_usize(ws[k])->Some_0))
    }
}

/// Reads a row of exactly `n_elems` whitespace-separated numbers.
pub fn parse_row(line: &[u8], n_elems: usize) -> (r: Result<Vec<usize>, Errors>)
    ensures
        match row_result(line@, n_elems as int) {
            Ok(v) => r is Ok && r->Ok_0@ == v,
            Err(e) => r == Err::<Vec<usize>, Errors>(e),
        },
{
    let words = words_of(line);
    let ghost ws = words_upto(line@, line@.len() as int);
    let mut out: Vec<usize> = Vec::new();
    for k in 0..words.len()
        invariant
            words@.len() == ws.len(),
            ws == words_upto(line@, line@.len() as int),
            forall|t: int| 0 <= t < words@.len() ==> (#[trigger] words@[t])@ == ws[t],
            out@.len() == k,
            forall|t: int| 0 <= t < k ==> #[trigger] parsed_usize(ws[t]) == Some(out@[t]),
    {
        match parse_usize(words[k].as_slice()) {
            Some(v) => out.push(v),
            None => {
                assert(parsed_usize(ws[k as int]) is None);
                return Err(Errors::FailedToParse);
            },
        }
    }
    if words.len() != n_elems {
        return Err(Errors::RowsDifferentLength);
    }
    proof {
        assert(!exists|k: int| 0 <= k < ws.len() && #[trigger] parsed_usize(ws[k]) is None);
        assert(out@ =~= Seq::new(ws.len(), |k: int| parsed_usize(ws[k])->Some_0));
    }
    Ok(out)
}

/// The single number a line holds between optional whitespace, if it holds exactly one.
pub fn single_number(line: &[u8]) -> (r: Option<usize>)
    ensures
        r == (if words_upto(line@, line@.len() as int).len() == 1 { parsed_usize(words_upto(line@, line@.len() as int)[0]) } else { None }),
{
    let words = words_of(line);
    if words.len() != 1 {
        return None;
    }
    parse_usize(words[0].as_slice())
}

/// Reads `n_lines` rows of exactly `n_elems` numbers each from `lines`; a
/// missing line reads as an empty one. The first row that fails decides the error.
pub fn lines2matrix(lines: &Vec<Vec<u8>>, n_lines: usize, n_elems: usize) -> (r: Result<Vec<Vec<usize>>, Errors>)
    ensures
        r is Ok <==> forall|i: int| 0 <= i < n_lines ==> #[trigger] row_result(line_at(lines@, i), n_elems as int) is Ok,
        r is Ok ==> r->Ok_0@.len() == n_lines && forall|i: int| 0 <= i < n_lines ==> Ok::<Seq<usize>, Errors>((#[trigger] r->Ok_0@[i])@) == row_result(line_at(lines@, i), n_elems as int),
        r is Err ==> exists|i: int| 0 <= i < n_lines && (forall|j: int| 0 <= j < i ==> #[trigger] row_result(line_at(lines@, j), n_elems as int) is Ok)
            && Err::<Seq<usize>, Errors>(r->Err_0) == #[trigger] row_result(line_at(lines@, i), n_elems as int),
{
    let mut matrix: Vec<Vec<usize>> = Vec::new();
    let empty: Vec<u8> = Vec::new();
    for i in 0..n_lines
        invariant
            matrix@.len() == i,
            empty@ == Seq::<u8>::empty(),
            forall|t: int| 0 <= t < i ==> Ok::<Seq<usize>, Errors>((#[trigger] matrix@[t])@) == row_result(line_at(lines@, t), n_elems as int),
    {
        let line: &Vec<u8> = if i < lines.len() { &lines[i] } else { &empty };
        assert(line@ == line_at(lines@, i as int));
        match parse_row(line.as_slice(), n_elems) {
            Ok(row) => matrix.push(row),
            Err(e) => {
                proof {
                    assert forall|j: int| 0 <= j < i implies #[trigger] row_result(line_at(lines@, j), n_elems as int) is Ok by {
                        assert(Ok::<Seq<usize>, Errors>(matrix@[j]@) == row_result(line_at(lines@, j), n_elems as int));
                    }
                }
                return Err(e);
            },
        }
    }
    proof {
        assert forall|t: int| 0 <= t < n_lines implies #[trigger] row_result(line_at(lines@, t), n_elems as int) is Ok by {
            assert(Ok::<Seq<usize>, Errors>(matrix@[t]@) == row_result(line_at(lines@, t), n_elems as int));
        }
    }
    Ok(matrix)
}

/// Line `i` of `lines`, or an empty line past the end.
pub open spec fn line_at(lines: Seq<Vec<u8>>, i: int) -> Seq<u8> {
    if 0 <= i < lines.len() { lines[i]@ } else { Seq::empty() }
}

/// Once a prefix of digits is worth more than `usize::MAX / 10` minus its next
/// digit's share, the whole string, if all digits, is worth more than `usize::MAX`.
proof fn lemma_digits_stay_large(s: Seq<u8>, k: int, v: nat)
    requires
        0 <= k < s.len(),
        v == digits_value(s.subrange(0, k)),
        is_digit(s[k]),
        v > (usize::MAX - (s[k] - 48)) / 10,
    ensures
        (forall|i: int| 0 <= i < s.len() ==> is_digit(#[trigger] s[i])) ==> digits_value(s) > usize::MAX,
{
    if forall|i: int| 0 <= i < s.len() ==> is_digit(#[trigger] s[i]) {
        assert(s.subrange(0, k + 1).drop_last() == s.subrange(0, k));
        assert(digits_value(s.subrange(0, k + 1)) > usize::MAX);
        lemma_digits_grow(s, k + 1);
    }
}

proof fn lemma_digits_grow(s: Seq<u8>, k: int)
    requires
        0 <= k <= s.len(),
        forall|i: int| 0 <= i < s.len() ==> is_digit(#[trigger] s[i]),
    ensures
        digits_value(s.subrange(0, k)) <= digits_value(s),
    decreases s.len() - k,
{
    if k < s.len() {
        assert(s.subrange(0, k + 1).drop_last() == s.subrange(0, k));
        lemma_digits_grow(s, k + 1);
    } else {
        assert(s.subrange(0, k) == s);
    }
}

} // verus!

//! Splitting a multipart body into parts, and building one.

use vstd::prelude::*;
use vstd::slice::{slice_subrange, slice_to_vec};
use crate::text::{follows, follows_at, lower, lower_bytes, stands, stands_at, trim, trim_bytes};

verus! {

pub open spec fn crlf() -> Seq<u8> {
    seq![13u8, 10u8]
}

pub open spec fn dashdash() -> Seq<u8> {
    seq![45u8, 45u8]
}

/// `--{boundary}`
pub open spec fn delimiter(b: Seq<u8>) -> Seq<u8> {
    dashdash() + b
}

/// `--{boundary}\r\n`, the opening line of the body.
pub open spec fn opening(b: Seq<u8>) -> Seq<u8> {
    delimiter(b) + crlf()
}

/// `\r\n--{boundary}\r\n`, the opening line after a leading blank line.
pub open spec fn crlf_opening(b: Seq<u8>) -> Seq<u8> {
    crlf() + opening(b)
}

/// `\r\n--{boundary}`, which ends every part.
pub open spec fn separator(b: Seq<u8>) -> Seq<u8> {
    crlf() + delimiter(b)
}

/// Why a multipart body was refused.
#[derive(Debug, Clone, Copy, PartialEq, Eq, Structural)]
pub enum MultipartError {
    /// The body ended before its closing delimiter; `offset` is where
    /// the scan stopped and `part_len` how much of the current part it held.
    UnexpectedEnd { offset: usize, part_len: usize },
    /// The body does not open with the boundary.
    MissingOpening,
    /// After a delimiter came neither `--` nor a line break.
    ExpectedPartOrEnd { offset: usize },
    /// Part `part` ended inside its header block.
    PartTruncated { part: usize },
    /// Part `part` holds a byte above 127 at `offset` of its header block.
    NotSevenBit { part: usize, offset: usize },
    /// Part `part` has a stray line feed, NUL or carriage return at `offset`.
    MalformedHeader { part: usize, offset: usize },
    /// Part `part` has a header line without a colon.
    MissingColon { part: usize },
}

/// The first place at or after `pos` where the separator follows.
pub open spec fn next_separator(data: Seq<u8>, b: Seq<u8>, pos: int) -> Option<int>
    decreases data.len() - pos,
{
    if pos < 0 || pos >= data.len() {
        None
    } else if follows_at(data, pos, separator(b)) {
        Some(pos)
    } else {
        next_separator(data, b, pos + 1)
    }
}

/// The raw parts of the body from `pos` on, where a part starts at `pos`.
pub open spec fn scan_parts(data: Seq<u8>, b: Seq<u8>, pos: int) -> Result<
    Seq<Seq<u8>>,
    MultipartError,
>
    decreases data.len() - pos via scan_parts_decreases
{
    if pos < 0 {
        Err(MultipartError::MissingOpening)
    } else {
        match next_separator(data, b, pos) {
            None => Err(
                MultipartError::UnexpectedEnd {
                    offset: data.len() as usize,
                    part_len: (data.len() - pos) as usize,
                },
            ),
            Some(q) => {
                let part = data.subrange(pos, q);
                let after = q + separator(b).len();
                if after >= data.len() {
                    Err(
                        MultipartError::UnexpectedEnd {
                            offset: after as usize,
                            part_len: (q - pos) as usize,
                        },
                    )
                } else if stands_at(data, after, dashdash()) {
                    Ok(seq![part])
                } else if follows_at(data, after, crlf()) {
                    match scan_parts(data, b, after + 2) {
                        Ok(rest) => Ok(seq![part] + rest),
                        Err(e) => Err(e),
                    }
                } else {
                    Err(MultipartError::ExpectedPartOrEnd { offset: after as usize })
                }
            },
        }
    }
}

pub proof fn lemma_next_separator_range(data: Seq<u8>, b: Seq<u8>, pos: int)
    ensures
        next_separator(data, b, pos) matches Some(q) ==> pos <= q < data.len() && follows_at(
            data,
            q,
            separator(b),
        ),
    decreases data.len() - pos,
{
    if 0 <= pos < data.len() && !follows_at(data, pos, separator(b)) {
        lemma_next_separator_range(data, b, pos + 1);
    }
}

#[via_fn]
proof fn scan_parts_decreases(data: Seq<u8>, b: Seq<u8>, pos: int) {
    lemma_next_separator_range(data, b, pos);
}

/// The raw parts of a multipart body: the bytes between consecutive delimiters.
pub open spec fn split_parts(data: Seq<u8>, b: Seq<u8>) -> Result<Seq<Seq<u8>>, MultipartError> {
    if data.len() == 0 {
        Err(MultipartError::UnexpectedEnd { offset: 0, part_len: 0 })
    } else if follows_at(data, 0, opening(b)) {
        scan_parts(data, b, opening(b).len() as int)
    } else if follows_at(data, 0, crlf_opening(b)) {
        scan_parts(data, b, crlf_opening(b).len() as int)
    } else {
        Err(MultipartError::MissingOpening)
    }
}

/// Where the header line that starts at `i` of part `k` ends: its carriage return.
pub open spec fn line_end(p: Seq<u8>, i: int, k: usize) -> Result<int, MultipartError>
    decreases p.len() - i,
{
    if i < 0 || i >= p.len() {
        Err(MultipartError::PartTruncated { part: k })
    } else if p[i] > 127 {
        Err(MultipartError::NotSevenBit { part: k, offset: i as usize })
    } else if p[i] == 13 {
        Ok(i)
    } else if p[i] == 10 || p[i] == 0 {
        Err(MultipartError::MalformedHeader { part: k, offset: i as usize })
    } else {
        line_end(p, i + 1, k)
    }
}

pub proof fn lemma_line_end_range(p: Seq<u8>, i: int, k: usize)
    ensures
        line_end(p, i, k) matches Ok(j) ==> i <= j < p.len() && p[j] == 13,
    decreases p.len() - i,
{
    if 0 <= i < p.len() && p[i] <= 127 && p[i] != 13 && p[i] != 10 && p[i] != 0 {
        lemma_line_end_range(p, i + 1, k);
    }
}

#[via_fn]
proof fn header_lines_decreases(p: Seq<u8>, i: int, k: usize) {
    lemma_line_end_range(p, i, k);
}

/// The byte at `i` of part `k`, checked as a line feed that must follow a carriage return.
pub open spec fn expect_lf(p: Seq<u8>, i: int, k: usize) -> Option<MultipartError> {
    if i >= p.len() {
        Some(MultipartError::PartTruncated { part: k })
    } else if p[i] > 127 {
        Some(MultipartError::NotSevenBit { part: k, offset: i as usize })
    } else if p[i] != 10 {
        Some(MultipartError::MalformedHeader { part: k, offset: i as usize })
    } else {
        None
    }
}

/// The header lines of part `k` from the line at `i` on, and where its body starts.
/// A blank line ends the header block; everything after it, possibly nothing,
/// is the body.
pub open spec fn header_lines(p: Seq<u8>, i: int, k: usize) -> Result<
    (Seq<Seq<u8>>, int),
    MultipartError,
>
    decreases p.len() - i via header_lines_decreases
{
    match line_end(p, i, k) {
        Err(e) => Err(e),
        Ok(j) => {
            let line = p.subrange(i, j);
            if expect_lf(p, j + 1, k) is Some {
                Err(expect_lf(p, j + 1, k).unwrap())
            } else if j + 2 >= p.len() {
                Err(MultipartError::PartTruncated { part: k })
            } else if p[j + 2] > 127 {
                Err(MultipartError::NotSevenBit { part: k, offset: (j + 2) as usize })
            } else if p[j + 2] == 13 {
                if expect_lf(p, j + 3, k) is Some {
                    Err(expect_lf(p, j + 3, k).unwrap())
                } else {
                    Ok((seq![line], j + 4))
                }
            } else {
                match header_lines(p, j + 2, k) {
                    Ok((ls, s)) => Ok((seq![line] + ls, s)),
                    Err(e) => Err(e),
                }
            }
        },
    }
}

/// The first colon of a header line.
pub open spec fn colon_index(l: Seq<u8>, i: int) -> Option<int>
    decreases l.len() - i,
{
    if i < 0 || i >= l.len() {
        None
    } else if l[i] == 58 {
        Some(i)
    } else {
        colon_index(l, i + 1)
    }
}

/// A header line as a field: the name before the first colon in small letters,
/// and the value after it without surrounding whitespace.
pub open spec fn field_of(l: Seq<u8>) -> Option<(Seq<u8>, Seq<u8>)> {
    match colon_index(l, 0) {
        None => None,
        Some(c) => Some((lower(l.subrange(0, c)), trim(l.subrange(c + 1, l.len() as int)))),
    }
}

pub open spec fn fields_of(ls: Seq<Seq<u8>>) -> Option<Seq<(Seq<u8>, Seq<u8>)>>
    decreases ls.len(),
{
    if ls.len() == 0 {
        Some(Seq::empty())
    } else {
        match (fields_of(ls.drop_last()), field_of(ls.last())) {
            (Some(fs), Some(f)) => Some(fs.push(f)),
            _ => None,
        }
    }
}

/// Part `k` read as header fields and a body.
pub open spec fn parse_part(p: Seq<u8>, k: usize) -> Result<
    (Seq<(Seq<u8>, Seq<u8>)>, Seq<u8>),
    MultipartError,
> {
    match header_lines(p, 0, k) {
        Err(e) => Err(e),
        Ok((ls, s)) => match fields_of(ls) {
            None => Err(MultipartError::MissingColon { part: k }),
            Some(fs) => Ok((fs, p.subrange(s, p.len() as int))),
        },
    }
}

/// Every raw part read in order; the first part that fails decides the error.
pub open spec fn parse_parts(raws: Seq<Seq<u8>>) -> Result<
    Seq<(Seq<(Seq<u8>, Seq<u8>)>, Seq<u8>)>,
    MultipartError,
>
    decreases raws.len(),
{
    if raws.len() == 0 {
        Ok(Seq::empty())
    } else {
        match parse_parts(raws.drop_last()) {
            Err(e) => Err(e),
            Ok(ps) => match parse_part(raws.last(), (raws.len() - 1) as usize) {
                Err(e) => Err(e),
                Ok(pp) => Ok(ps.push(pp)),
            },
        }
    }
}

/// A multipart body read whole: each part's header fields and body.
pub open spec fn parse_multipart(data: Seq<u8>, b: Seq<u8>) -> Result<
    Seq<(Seq<(Seq<u8>, Seq<u8>)>, Seq<u8>)>,
    MultipartError,
> {
    match split_parts(data, b) {
        Err(e) => Err(e),
        Ok(raws) => parse_parts(raws),
    }
}

fn copy_range(s: &[u8], from: usize, to: usize) -> (r: Vec<u8>)
    requires
        from <= to <= s.len(),
    ensures
        r@ == s@.subrange(from as int, to as int),
{
    slice_to_vec(slice_subrange(s, from, to))
}

fn find_line_end(p: &[u8], i: usize, k: usize) -> (r: Result<usize, MultipartError>)
    ensures
        r matches Ok(j) ==> line_end(p@, i as int, k) == Ok::<int, MultipartError>(j as int),
        r matches Err(e) ==> line_end(p@, i as int, k) == Err::<int, MultipartError>(e),
{
    let mut j: usize = i;
    loop
        invariant
            i <= j,
            j <= p.len() || j == i,
            line_end(p@, i as int, k) == line_end(p@, j as int, k),
        decreases p.len() - j,
    {
        if j >= p.len() {
            return Err(MultipartError::PartTruncated { part: k });
        }
        let b = p[j];
        if b > 127 {
            return Err(MultipartError::NotSevenBit { part: k, offset: j });
        }
        if b == 13 {
            return Ok(j);
        }
        if b == 10 || b == 0 {
            return Err(MultipartError::MalformedHeader { part: k, offset: j });
        }
        j = j + 1;
    }
}

fn check_lf(p: &[u8], i: usize, k: usize) -> (r: Option<MultipartError>)
    ensures
        r == expect_lf(p@, i as int, k),
{
    if i >= p.len() {
        Some(MultipartError::PartTruncated { part: k })
    } else if p[i] > 127 {
        Some(MultipartError::NotSevenBit { part: k, offset: i })
    } else if p[i] != 10 {
        Some(MultipartError::MalformedHeader { part: k, offset: i })
    } else {
        None
    }
}

pub open spec fn views(ls: Seq<Vec<u8>>) -> Seq<Seq<u8>> {
    ls.map_values(|l: Vec<u8>| l@)
}

fn read_header_lines(p: &[u8], k: usize) -> (r: Result<(Vec<Vec<u8>>, usize), MultipartError>)
    ensures
        r matches Ok((ls, s)) ==> header_lines(p@, 0, k) == Ok::<(Seq<Seq<u8>>, int), MultipartError>(
            (views(ls@), s as int),
        ),
        r matches Err(e) ==> header_lines(p@, 0, k) == Err::<(Seq<Seq<u8>>, int), MultipartError>(e),
{
    let mut lines: Vec<Vec<u8>> = Vec::new();
    let mut i: usize = 0;
    loop
        invariant
            i <= p.len(),
            forall|ls: Seq<Seq<u8>>, s: int|
                header_lines(p@, i as int, k) == Ok::<(Seq<Seq<u8>>, int), MultipartError>((ls, s))
                    ==> header_lines(p@, 0, k) == Ok::<(Seq<Seq<u8>>, int), MultipartError>(
                    (views(lines@) + ls, s),
                ),
            forall|e: MultipartError|
                header_lines(p@, i as int, k) == Err::<(Seq<Seq<u8>>, int), MultipartError>(e)
                    ==> header_lines(p@, 0, k) == Err::<(Seq<Seq<u8>>, int), MultipartError>(e),
        decreases p.len() - i,
    {
        let j = match find_line_end(p, i, k) {
            Ok(j) => j,
            Err(e) => {
                return Err(e);
            },
        };
        proof {
            lemma_line_end_range(p@, i as int, k);
        }
        let line = copy_range(p, i, j);
        let c1 = check_lf(p, j + 1, k);
        if let Some(e) = c1 {
            return Err(e);
        }
        if j + 2 >= p.len() {
            return Err(MultipartError::PartTruncated { part: k });
        }
        if p[j + 2] > 127 {
            return Err(MultipartError::NotSevenBit { part: k, offset: j + 2 });
        }
        let ghost old_lines = views(lines@);
        lines.push(line);
        assert(views(lines@) =~= old_lines + seq![p@.subrange(i as int, j as int)]);
        if p[j + 2] == 13 {
            let c3 = check_lf(p, j + 3, k);
            if let Some(e) = c3 {
                return Err(e);
            }
            assert(header_lines(p@, i as int, k) == Ok::<(Seq<Seq<u8>>, int), MultipartError>(
                (seq![p@.subrange(i as int, j as int)], j + 4),
            ));
            assert(views(lines@) =~= old_lines + seq![p@.subrange(i as int, j as int)]);
            return Ok((lines, j + 4));
        }
        proof {
            let line_v = p@.subrange(i as int, j as int);
            assert forall|ls: Seq<Seq<u8>>, s: int|
                header_lines(p@, j + 2, k) == Ok::<(Seq<Seq<u8>>, int), MultipartError>((ls, s))
                    implies header_lines(p@, 0, k) == Ok::<(Seq<Seq<u8>>, int), MultipartError>(
                    (views(lines@) + ls, s),
                ) by {
                assert(header_lines(p@, i as int, k) == Ok::<(Seq<Seq<u8>>, int), MultipartError>(
                    (seq![line_v] + ls, s),
                ));
                assert(old_lines + (seq![line_v] + ls) =~= views(lines@) + ls);
            }
        }
        i = j + 2;
    }
}

/// One header field of a part: name in small letters, value trimmed.
pub open spec fn field_view(f: (Vec<u8>, Vec<u8>)) -> (Seq<u8>, Seq<u8>) {
    (f.0@, f.1@)
}

/// One part of a multipart body.
#[derive(Debug)]
pub struct Part {
    /// Header fields in the order they came; a later field of the same name
    /// overrides an earlier one (see `header`).
    pub headers: Vec<(Vec<u8>, Vec<u8>)>,
    pub body: Vec<u8>,
}

impl View for Part {
    type V = (Seq<(Seq<u8>, Seq<u8>)>, Seq<u8>);

    open spec fn view(&self) -> Self::V {
        (self.headers@.map_values(|f: (Vec<u8>, Vec<u8>)| field_view(f)), self.body@)
    }
}

/// The value of the last field named `name`: later fields override earlier ones.
pub open spec fn lookup(fs: Seq<(Seq<u8>, Seq<u8>)>, name: Seq<u8>) -> Option<Seq<u8>>
    decreases fs.len(),
{
    if fs.len() == 0 {
        None
    } else if fs.last().0 == name {
        Some(fs.last().1)
    } else {
        lookup(fs.drop_last(), name)
    }
}

impl Part {
    /// The value of header `name` (given in small letters), if the part has it.
    pub fn header(&self, name: &[u8]) -> (r: Option<&Vec<u8>>)
        ensures
            r matches Some(v) ==> lookup(self@.0, name@) == Some(v@),
            r is None ==> lookup(self@.0, name@) is None,
    {
        let ghost fs = self@.0;
        assert(fs.subrange(0, fs.len() as int) =~= fs);
        let mut i: usize = self.headers.len();
        while i > 0
            invariant
                i <= self.headers.len(),
                fs == self@.0,
                lookup(fs, name@) == lookup(fs.subrange(0, i as int), name@),
            decreases i,
        {
            let f = &self.headers[i - 1];
            let ghost pre = fs.subrange(0, i as int);
            assert(pre.last() == field_view(*f));
            assert(pre.drop_last() =~= fs.subrange(0, i - 1));
            if bytes_eq(f.0.as_slice(), name) {
                return Some(&f.1);
            }
            i = i - 1;
        }
        None
    }
}

/// Whether two byte strings are equal.
pub fn bytes_eq(a: &[u8], b: &[u8]) -> (r: bool)
    ensures
        r == (a@ == b@),
{
    if a.len() != b.len() {
        return false;
    }
    let mut i: usize = 0;
    while i < a.len()
        invariant
            a.len() == b.len(),
            i <= a.len(),
            forall|k: int| 0 <= k < i ==> a@[k] == b@[k],
        decreases a.len() - i,
    {
        if a[i] != b[i] {
            return false;
        }
        i = i + 1;
    }
    assert(a@ =~= b@);
    true
}

/// The parts of a multipart body, in order.
#[derive(Debug)]
pub struct Multipart {
    pub parts: Vec<Part>,
}

impl View for Multipart {
    type V = Seq<(Seq<(Seq<u8>, Seq<u8>)>, Seq<u8>)>;

    open spec fn view(&self) -> Self::V {
        self.parts@.map_values(|p: Part| p@)
    }
}

fn split_field(l: &[u8]) -> (r: Option<(Vec<u8>, Vec<u8>)>)
    ensures
        r matches Some(f) ==> field_of(l@) == Some(field_view(f)),
        r is None ==> field_of(l@) is None,
{
    let mut c: usize = 0;
    while c < l.len() && l[c] != 58
        invariant
            c <= l.len(),
            colon_index(l@, 0) == colon_index(l@, c as int),
        decreases l.len() - c,
    {
        c = c + 1;
    }
    if c >= l.len() {
        return None;
    }
    let name = lower_bytes(slice_subrange(l, 0, c));
    let value = trim_bytes(slice_subrange(l, c + 1, l.len()));
    Some((name, value))
}

fn read_part(p: &[u8], k: usize) -> (r: Result<Part, MultipartError>)
    ensures
        r matches Ok(part) ==> parse_part(p@, k) == Ok::<(Seq<(Seq<u8>, Seq<u8>)>, Seq<u8>), MultipartError>(part@),
        r matches Err(e) ==> parse_part(p@, k) == Err::<(Seq<(Seq<u8>, Seq<u8>)>, Seq<u8>), MultipartError>(e),
{
    let (lines, s) = match read_header_lines(p, k) {
        Ok(x) => x,
        Err(e) => {
            return Err(e);
        },
    };
    let ghost ls = views(lines@);
    let mut headers: Vec<(Vec<u8>, Vec<u8>)> = Vec::new();
    let mut i: usize = 0;
    while i < lines.len()
        invariant
            i <= lines.len(),
            ls == views(lines@),
            header_lines(p@, 0, k) == Ok::<(Seq<Seq<u8>>, int), MultipartError>((ls, s as int)),
            fields_of(ls.subrange(0, i as int)) == Some(
                headers@.map_values(|f: (Vec<u8>, Vec<u8>)| field_view(f)),
            ),
        decreases lines.len() - i,
    {
        let ghost pre = ls.subrange(0, i + 1);
        assert(pre.drop_last() =~= ls.subrange(0, i as int));
        assert(pre.last() == lines@[i as int]@);
        match split_field(lines[i].as_slice()) {
            None => {
                proof {
                    lemma_fields_none_extends(ls, i + 1);
                    assert(fields_of(ls) is None);
                    assert(header_lines(p@, 0, k) == Ok::<(Seq<Seq<u8>>, int), MultipartError>(
                        (ls, s as int),
                    ));
                }
                return Err(MultipartError::MissingColon { part: k });
            },
            Some(f) => {
                headers.push(f);
                assert(headers@.map_values(|f: (Vec<u8>, Vec<u8>)| field_view(f)) =~= fields_of(
                    pre,
                ).unwrap());
            },
        }
        i = i + 1;
    }
    assert(ls.subrange(0, ls.len() as int) =~= ls);
    proof {
        lemma_header_lines_body(p@, 0, k);
    }
    let body = copy_range(p, s, p.len());
    Ok(Part { headers, body })
}

proof fn lemma_fields_none_extends(ls: Seq<Seq<u8>>, n: int)
    requires
        0 <= n <= ls.len(),
        fields_of(ls.subrange(0, n)) is None,
    ensures
        fields_of(ls) is None,
    decreases ls.len() - n,
{
    if n < ls.len() {
        let pre = ls.subrange(0, n + 1);
        assert(pre.drop_last() =~= ls.subrange(0, n));
        lemma_fields_none_extends(ls, n + 1);
    } else {
        assert(ls.subrange(0, n) =~= ls);
    }
}

proof fn lemma_header_lines_body(p: Seq<u8>, i: int, k: usize)
    ensures
        header_lines(p, i, k) matches Ok((ls, s)) ==> i < s <= p.len(),
    decreases p.len() - i,
{
    lemma_line_end_range(p, i, k);
    if let Ok(j) = line_end(p, i, k) {
        if j + 2 < p.len() && p[j + 2] != 13 {
            lemma_header_lines_body(p, j + 2, k);
        }
    }
}

/// Appends the bytes of `s` to `v`.
pub fn push_all(v: &mut Vec<u8>, s: &[u8])
    ensures
        final(v)@ == old(v)@ + s@,
{
    let mut i: usize = 0;
    while i < s.len()
        invariant
            i <= s.len(),
            v@ == old(v)@ + s@.subrange(0, i as int),
        decreases s.len() - i,
    {
        v.push(s[i]);
        i = i + 1;
        assert(v@ =~= old(v)@ + s@.subrange(0, i as int));
    }
    assert(s@.subrange(0, s.len() as int) =~= s@);
}

fn find_separator(data: &[u8], b: Ghost<Seq<u8>>, sep: &[u8], pos: usize) -> (r: Option<usize>)
    requires
        sep@ == separator(b@),
    ensures
        r matches Some(q) ==> next_separator(data@, b@, pos as int) == Some(q as int),
        r is None ==> next_separator(data@, b@, pos as int) is None,
{
    let mut j: usize = pos;
    loop
        invariant
            pos <= j,
            j <= data.len() || j == pos,
            sep@ == separator(b@),
            next_separator(data@, b@, pos as int) == next_separator(data@, b@, j as int),
        decreases data.len() - j,
    {
        if j >= data.len() {
            return None;
        }
        if follows(data, j, sep) {
            return Some(j);
        }
        j = j + 1;
    }
}

fn split_raw_parts(data: &[u8], boundary: &[u8]) -> (r: Result<Vec<Vec<u8>>, MultipartError>)
    ensures
        r matches Ok(raws) ==> split_parts(data@, boundary@) == Ok::<Seq<Seq<u8>>, MultipartError>(views(raws@)),
        r matches Err(e) ==> split_parts(data@, boundary@) == Err::<Seq<Seq<u8>>, MultipartError>(e),
{
    let ghost b = boundary@;
    if data.len() == 0 {
        return Err(MultipartError::UnexpectedEnd { offset: 0, part_len: 0 });
    }
    let dd: Vec<u8> = vec![45u8, 45u8];
    let nl: Vec<u8> = vec![13u8, 10u8];
    let mut open: Vec<u8> = vec![45u8, 45u8];
    push_all(&mut open, boundary);
    push_all(&mut open, nl.as_slice());
    let mut crlf_open: Vec<u8> = vec![13u8, 10u8];
    push_all(&mut crlf_open, open.as_slice());
    let mut sep: Vec<u8> = vec![13u8, 10u8, 45u8, 45u8];
    push_all(&mut sep, boundary);
    assert(dd@ =~= dashdash());
    assert(nl@ =~= crlf());
    assert(open@ =~= opening(b));
    assert(crlf_open@ =~= crlf_opening(b));
    assert(sep@ =~= separator(b));
    let mut pos: usize = if follows(data, 0, open.as_slice()) {
        open.len()
    } else if follows(data, 0, crlf_open.as_slice()) {
        crlf_open.len()
    } else {
        return Err(MultipartError::MissingOpening);
    };
    let mut raws: Vec<Vec<u8>> = Vec::new();
    loop
        invariant
            dd@ == dashdash(),
            nl@ == crlf(),
            sep@ == separator(b),
            b == boundary@,
            pos <= data.len(),
            forall|rest: Seq<Seq<u8>>|
                scan_parts(data@, b, pos as int) == Ok::<Seq<Seq<u8>>, MultipartError>(rest)
                    ==> split_parts(data@, b) == Ok::<Seq<Seq<u8>>, MultipartError>(views(raws@) + rest),
            forall|e: MultipartError|
                scan_parts(data@, b, pos as int) == Err::<Seq<Seq<u8>>, MultipartError>(e)
                    ==> split_parts(data@, b) == Err::<Seq<Seq<u8>>, MultipartError>(e),
        decreases data.len() - pos,
    {
        let q = match find_separator(data, Ghost(b), sep.as_slice(), pos) {
            None => {
                return Err(
                    MultipartError::UnexpectedEnd { offset: data.len(), part_len: data.len() - pos },
                );
            },
            Some(q) => q,
        };
        proof {
            lemma_next_separator_range(data@, b, pos as int);
        }
        let part = copy_range(data, pos, q);
        let after = q + sep.len();
        if after >= data.len() {
            return Err(MultipartError::UnexpectedEnd { offset: after, part_len: q - pos });
        }
        let ghost old_raws = views(raws@);
        raws.push(part);
        assert(views(raws@) =~= old_raws + seq![data@.subrange(pos as int, q as int)]);
        if stands(data, after, dd.as_slice()) {
            assert(views(raws@) =~= old_raws + seq![data@.subrange(pos as int, q as int)]);
            return Ok(raws);
        }
        if !follows(data, after, nl.as_slice()) {
            return Err(MultipartError::ExpectedPartOrEnd { offset: after });
        }
        proof {
            let part_v = data@.subrange(pos as int, q as int);
            assert forall|rest: Seq<Seq<u8>>|
                scan_parts(data@, b, after + 2) == Ok::<Seq<Seq<u8>>, MultipartError>(rest)
                    implies split_parts(data@, b) == Ok::<Seq<Seq<u8>>, MultipartError>(
                    views(raws@) + rest,
                ) by {
                assert(scan_parts(data@, b, pos as int) == Ok::<Seq<Seq<u8>>, MultipartError>(
                    seq![part_v] + rest,
                ));
                assert(old_raws + (seq![part_v] + rest) =~= views(raws@) + rest);
            }
        }
        pos = after + 2;
    }
}

/// Splits a multipart body on `boundary` and reads each part's header block.
///
/// The body may open with a line break before the first delimiter. Each part
/// ends at the next `\r\n--{boundary}`; a `--` after it ends the body and a
/// line break starts the next part. Header lines must be 7-bit text ended by
/// `\r\n`, and a blank line separates them from the body, which may be empty.
pub fn multipart_parse(data: &[u8], boundary: &[u8]) -> (r: Result<Multipart, MultipartError>)
    ensures
        r matches Ok(m) ==> parse_multipart(data@, boundary@) == Ok::<
            Seq<(Seq<(Seq<u8>, Seq<u8>)>, Seq<u8>)>,
            MultipartError,
        >(m@),
        r matches Err(e) ==> parse_multipart(data@, boundary@) == Err::<
            Seq<(Seq<(Seq<u8>, Seq<u8>)>, Seq<u8>)>,
            MultipartError,
        >(e),
{
    let raws = match split_raw_parts(data, boundary) {
        Ok(raws) => raws,
        Err(e) => {
            return Err(e);
        },
    };
    let ghost rv = views(raws@);
    let mut parts: Vec<Part> = Vec::new();
    let mut k: usize = 0;
    assert(rv.subrange(0, 0) =~= Seq::<Seq<u8>>::empty());
    assert(parts@.map_values(|p: Part| p@) =~= Seq::empty());
    while k < raws.len()
        invariant
            k <= raws.len(),
            rv == views(raws@),
            split_parts(data@, boundary@) == Ok::<Seq<Seq<u8>>, MultipartError>(rv),
            parse_parts(rv.subrange(0, k as int)) == Ok::<
                Seq<(Seq<(Seq<u8>, Seq<u8>)>, Seq<u8>)>,
                MultipartError,
            >(parts@.map_values(|p: Part| p@)),
        decreases raws.len() - k,
    {
        let ghost pre = rv.subrange(0, k + 1);
        assert(pre.drop_last() =~= rv.subrange(0, k as int));
        assert(pre.last() == raws@[k as int]@);
        match read_part(raws[k].as_slice(), k) {
            Err(e) => {
                proof {
                    lemma_parse_parts_err_extends(rv, k + 1, e);
                    assert(rv.subrange(0, rv.len() as int) =~= rv);
                }
                return Err(e);
            },
            Ok(part) => {
                parts.push(part);
                assert(parts@.map_values(|p: Part| p@) =~= parse_parts(pre).unwrap());
            },
        }
        k = k + 1;
    }
    assert(rv.subrange(0, rv.len() as int) =~= rv);
    Ok(Multipart { parts })
}

proof fn lemma_parse_parts_err_extends(rs: Seq<Seq<u8>>, n: int, e: MultipartError)
    requires
        0 <= n <= rs.len(),
        parse_parts(rs.subrange(0, n)) == Err::<Seq<(Seq<(Seq<u8>, Seq<u8>)>, Seq<u8>)>, MultipartError>(e),
    ensures
        parse_parts(rs) == Err::<Seq<(Seq<(Seq<u8>, Seq<u8>)>, Seq<u8>)>, MultipartError>(e),
    decreases rs.len() - n,
{
    if n < rs.len() {
        let pre = rs.subrange(0, n + 1);
        assert(pre.drop_last() =~= rs.subrange(0, n));
        lemma_parse_parts_err_extends(rs, n + 1, e);
    } else {
        assert(rs.subrange(0, n) =~= rs);
    }
}

} // verus!

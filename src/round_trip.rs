//! Framing and parsing agree: parts framed with a boundary split back into
//! those parts, and a batch request body reads back as one part per request,
//! with its `Content-ID` and its request line.

use vstd::prelude::*;
use crate::text::{ascii_bytes, decimal, follows_at, stands_at, is_space, lower, trim, trim_back, trim_front};
use crate::multipart::{
    colon_index, crlf, dashdash, delimiter, expect_lf, field_of, fields_of, header_lines, line_end,
    lookup, next_separator, opening, parse_multipart, parse_part, parse_parts, scan_parts, separator,
    split_parts,
};
use crate::batch::{
    content_id_name, batch_request, closing_text, format_text, part_end_text, part_head_text, request_line_text,
    request_part, request_parts,
};

verus! {

pub open spec fn no_cr(s: Seq<u8>) -> bool {
    forall|k: int| 0 <= k < s.len() ==> s[k] != 13u8
}

/// The bytes of request part `n` between its opening line and the separator
/// that ends it.
pub open spec fn raw_part(n: nat, id: Seq<u8>, fmt: Seq<u8>) -> Seq<u8> {
    part_head_text() + decimal(n) + request_line_text() + id + format_text() + fmt + crlf() + crlf()
}

/// The request parts from number `n` on, then the closing delimiter.
pub open spec fn parts_from(b: Seq<u8>, ids: Seq<Seq<u8>>, fmt: Seq<u8>, n: int) -> Seq<u8>
    decreases ids.len() - n,
{
    if n < 0 || n >= ids.len() {
        delimiter(b) + closing_text()
    } else {
        request_part(b, n as nat, ids[n], fmt) + parts_from(b, ids, fmt, n + 1)
    }
}

proof fn lemma_literals()
    ensures
        part_head_text().len() == 48,
        request_line_text().len() == 36,
        format_text().len() == 8,
        part_end_text() == crlf() + crlf() + crlf(),
        closing_text() == dashdash() + crlf(),
        forall|k: int| 0 <= k < 48 && part_head_text()[k] == 13u8 ==> k == 30,
        part_head_text()[31] == 10u8,
        part_head_text()[32] == 67u8,
        forall|k: int| 0 <= k < 36 && request_line_text()[k] == 13u8 ==> k == 0 || k == 2,
        request_line_text()[0] == 13u8,
        request_line_text()[1] == 10u8,
        request_line_text()[2] == 13u8,
        request_line_text()[3] == 10u8,
        request_line_text()[4] == 71u8,
        no_cr(format_text()),
{
    reveal_strlit("Content-Type: application/http\r\nContent-ID: req-");
    reveal_strlit("\r\n\r\nGET /gmail/v1/users/me/messages/");
    reveal_strlit("?format=");
    reveal_strlit("\r\n\r\n\r\n");
    reveal_strlit("--\r\n");
    assert(part_end_text() =~= crlf() + crlf() + crlf());
    assert(closing_text() =~= dashdash() + crlf());
}

pub proof fn lemma_decimal_digits(n: nat)
    ensures
        decimal(n).len() > 0,
        forall|k: int| 0 <= k < decimal(n).len() ==> 48 <= #[trigger] decimal(n)[k] <= 57,
    decreases n,
{
    if n >= 10 {
        lemma_decimal_digits(n / 10);
        let d = decimal(n / 10);
        assert forall|k: int| 0 <= k < decimal(n).len() implies 48 <= #[trigger] decimal(n)[k] <= 57 by {
            if k < d.len() {
                assert(decimal(n)[k] == d[k]);
            }
        }
    }
}

/// Every carriage return of a raw part, save the one that starts the
/// separator, is followed two bytes later by something other than `-`.
proof fn lemma_raw_part_safe(n: nat, id: Seq<u8>, fmt: Seq<u8>)
    requires
        no_cr(id),
        no_cr(fmt),
    ensures
        forall|k: int|
            0 <= k < raw_part(n, id, fmt).len() && #[trigger] (raw_part(n, id, fmt) + crlf())[k]
                == 13u8 ==> (raw_part(n, id, fmt) + crlf())[k + 2] != 45u8,
        raw_part(n, id, fmt).len() == 48 + decimal(n).len() + 36 + id.len() + 8 + fmt.len() + 4,
{
    lemma_literals();
    lemma_decimal_digits(n);
    let t1 = part_head_text();
    let d = decimal(n);
    let t2 = request_line_text();
    let t3 = format_text();
    let e = crlf() + crlf() + crlf();
    let ext = raw_part(n, id, fmt) + crlf();
    let o1 = 48int;
    let o2 = o1 + d.len();
    let o3 = o2 + 36;
    let o4 = o3 + id.len();
    let o5 = o4 + 8;
    let o6 = o5 + fmt.len();
    assert(ext =~= t1 + (d + (t2 + (id + (t3 + (fmt + e))))));
    assert forall|k: int|
        0 <= k < raw_part(n, id, fmt).len() && #[trigger] (raw_part(n, id, fmt) + crlf())[k] == 13u8
            implies (raw_part(n, id, fmt) + crlf())[k + 2] != 45u8 by {
        if k < o1 {
            assert(ext[k] == t1[k]);
            assert(k == 30);
            assert(ext[k + 2] == t1[32]);
        } else if k < o2 {
            assert(ext[k] == d[k - o1]);
        } else if k < o3 {
            assert(ext[k] == t2[k - o2]);
            if k - o2 == 0 {
                assert(ext[k + 2] == t2[2]);
            } else {
                assert(ext[k + 2] == t2[4]);
            }
        } else if k < o4 {
            assert(ext[k] == id[k - o3]);
        } else if k < o5 {
            assert(ext[k] == t3[k - o4]);
        } else if k < o6 {
            assert(ext[k] == fmt[k - o5]);
        } else {
            assert(ext[k] == e[k - o6]);
            assert(ext[k + 2] == e[k + 2 - o6]);
            assert(e =~= seq![13u8, 10u8, 13u8, 10u8, 13u8, 10u8]);
        }
    }
}

proof fn lemma_next_separator_at(data: Seq<u8>, b: Seq<u8>, j: int, q: int)
    requires
        0 <= j <= q,
        follows_at(data, q, separator(b)),
        forall|i: int| j <= i < q ==> !follows_at(data, i, separator(b)),
    ensures
        next_separator(data, b, j) == Some(q),
    decreases q - j,
{
    if j < q {
        lemma_next_separator_at(data, b, j + 1, q);
    }
}

/// Where the data holds `raw`, a separator and at least one more byte from
/// `pos` on, the separator after `raw` is the first one.
proof fn lemma_first_separator(data: Seq<u8>, b: Seq<u8>, pos: int, raw: Seq<u8>)
    requires
        0 <= pos,
        pos + raw.len() + separator(b).len() < data.len(),
        data.subrange(pos, pos + raw.len() + separator(b).len()) == raw + separator(b),
        forall|k: int|
            0 <= k < raw.len() && #[trigger] (raw + crlf())[k] == 13u8 ==> (raw + crlf())[k + 2]
                != 45u8,
    ensures
        next_separator(data, b, pos) == Some(pos + raw.len()),
{
    let sep = separator(b);
    let q = pos + raw.len();
    assert(sep[0] == 13u8 && sep[1] == 10u8 && sep[2] == 45u8);
    assert(data.subrange(q, q + sep.len()) =~= sep) by {
        assert forall|i: int| 0 <= i < sep.len() implies data.subrange(q, q + sep.len())[i]
            == sep[i] by {
            assert(data.subrange(pos, pos + raw.len() + sep.len())[raw.len() + i] == (raw + sep)[raw.len() + i]);
        }
    }
    assert forall|i: int| pos <= i < q implies !follows_at(data, i, sep) by {
        let k = i - pos;
        assert(data[i] == (raw + sep)[k]) by {
            assert(data.subrange(pos, pos + raw.len() + sep.len())[k] == data[i]);
        }
        assert((raw + sep)[k] == raw[k]);
        assert((raw + crlf())[k] == raw[k]);
        if follows_at(data, i, sep) {
            assert(data.subrange(i, i + sep.len())[0] == data[i]);
            assert(data[i] == 13u8);
            assert(data.subrange(i, i + sep.len())[2] == data[i + 2]);
            assert(data[i + 2] == (raw + sep)[k + 2]) by {
                assert(data.subrange(pos, pos + raw.len() + sep.len())[k + 2] == data[i + 2]);
            }
            assert((raw + sep)[k + 2] == (raw + crlf())[k + 2]);
        }
    }
    lemma_next_separator_at(data, b, pos, q);
}

/// The raw parts that a request body for `ids` is made of.
pub open spec fn raw_parts(ids: Seq<Seq<u8>>, fmt: Seq<u8>) -> Seq<Seq<u8>> {
    Seq::new(ids.len(), |i: int| raw_part(i as nat, ids[i], fmt))
}

proof fn lemma_request_part_split(b: Seq<u8>, n: nat, id: Seq<u8>, fmt: Seq<u8>)
    ensures
        request_part(b, n, id, fmt) == opening(b) + raw_part(n, id, fmt) + crlf(),
{
    lemma_literals();
    assert(request_part(b, n, id, fmt) =~= opening(b) + raw_part(n, id, fmt) + crlf());
}

proof fn lemma_forward(b: Seq<u8>, ids: Seq<Seq<u8>>, fmt: Seq<u8>, m: int)
    requires
        0 <= m <= ids.len(),
    ensures
        batch_request(b, ids, fmt) == request_parts(b, ids.subrange(0, m), fmt) + parts_from(
            b,
            ids,
            fmt,
            m,
        ),
    decreases ids.len() - m,
{
    if m == ids.len() {
        assert(ids.subrange(0, m) =~= ids);
    } else {
        lemma_forward(b, ids, fmt, m + 1);
        let s = ids.subrange(0, m + 1);
        assert(s.drop_last() =~= ids.subrange(0, m));
        assert(s.last() == ids[m]);
        assert(request_parts(b, s, fmt) == request_parts(b, ids.subrange(0, m), fmt) + request_part(
            b,
            m as nat,
            ids[m],
            fmt,
        ));
        assert(parts_from(b, ids, fmt, m) == request_part(b, m as nat, ids[m], fmt) + parts_from(
            b,
            ids,
            fmt,
            m + 1,
        ));
        assert(batch_request(b, ids, fmt) =~= request_parts(b, ids.subrange(0, m), fmt) + parts_from(
            b,
            ids,
            fmt,
            m,
        ));
    }
}

pub open spec fn cr_safe(raw: Seq<u8>) -> bool {
    forall|k: int|
        0 <= k < raw.len() && #[trigger] (raw + crlf())[k] == 13u8 ==> (raw + crlf())[k + 2] != 45u8
}

/// One step of the scan: a part, its separator, then either a line break and
/// more, or `--\r\n` and the end.
proof fn lemma_scan_step(d: Seq<u8>, b: Seq<u8>, pre: Seq<u8>, raw: Seq<u8>, x: Seq<u8>)
    requires
        d == pre + (raw + separator(b)) + x,
        cr_safe(raw),
        x.len() >= 3,
        (x[0] == 13u8 && x[1] == 10u8) || x == dashdash() + crlf(),
    ensures
        x[0] == 13u8 ==> scan_parts(d, b, pre.len() as int) == match scan_parts(
            d,
            b,
            (pre.len() + raw.len() + separator(b).len() + 2) as int,
        ) {
            Ok(rest) => Ok(seq![raw] + rest),
            Err(e) => Err(e),
        },
        x == dashdash() + crlf() ==> scan_parts(d, b, pre.len() as int) == Ok::<
            Seq<Seq<u8>>,
            crate::multipart::MultipartError,
        >(seq![raw]),
{
    let sep = separator(b);
    let pos = pre.len() as int;
    assert(d.subrange(pos, pos + raw.len() + sep.len()) =~= raw + sep);
    lemma_first_separator(d, b, pos, raw);
    let q: int = pos + raw.len();
    let after: int = q + sep.len();
    assert(d.subrange(pos, q) =~= raw);
    assert(d[after] == x[0]);
    assert(d[after + 1] == x[1]);
    if x[0] == 13u8 {
        assert(!stands_at(d, after, dashdash())) by {
            assert(d.subrange(after, after + 2)[0] == d[after]);
        }
        assert(d.subrange(after, after + 2) =~= crlf());
        assert(follows_at(d, after, crlf()));
    } else {
        assert(x[0] == 45u8);
        assert(d.subrange(after, after + 2) =~= dashdash());
        assert(stands_at(d, after, dashdash()));
    }
}

proof fn lemma_closing()
    ensures
        closing_text() == dashdash() + crlf(),
{
    reveal_strlit("--\r\n");
    assert(closing_text() =~= dashdash() + crlf());
}

/// What follows the delimiter that ends part `n`.
pub open spec fn after_delimiter(b: Seq<u8>, ids: Seq<Seq<u8>>, fmt: Seq<u8>, n: int) -> Seq<u8> {
    parts_from(b, ids, fmt, n + 1).subrange(
        delimiter(b).len() as int,
        parts_from(b, ids, fmt, n + 1).len() as int,
    )
}

proof fn lemma_next_shape(b: Seq<u8>, ids: Seq<Seq<u8>>, fmt: Seq<u8>, n: int)
    requires
        0 <= n < ids.len(),
    ensures
        parts_from(b, ids, fmt, n + 1) == delimiter(b) + after_delimiter(b, ids, fmt, n),
        after_delimiter(b, ids, fmt, n).len() >= 3,
        n + 1 < ids.len() ==> after_delimiter(b, ids, fmt, n)[0] == 13u8 && after_delimiter(
            b,
            ids,
            fmt,
            n,
        )[1] == 10u8,
        n + 1 == ids.len() ==> after_delimiter(b, ids, fmt, n) == dashdash() + crlf(),
{
    let next = parts_from(b, ids, fmt, n + 1);
    let x = after_delimiter(b, ids, fmt, n);
    if n + 1 < ids.len() {
        lemma_request_part_split(b, (n + 1) as nat, ids[n + 1], fmt);
        let y = crlf() + raw_part((n + 1) as nat, ids[n + 1], fmt) + crlf() + parts_from(
            b,
            ids,
            fmt,
            n + 2,
        );
        assert(next =~= delimiter(b) + y);
        assert(x =~= y);
    } else {
        lemma_closing();
        assert(next =~= delimiter(b) + (dashdash() + crlf()));
        assert(x =~= dashdash() + crlf());
    }
}

proof fn lemma_shape(b: Seq<u8>, ids: Seq<Seq<u8>>, fmt: Seq<u8>, n: int)
    requires
        0 <= n < ids.len(),
    ensures
        batch_request(b, ids, fmt) == (request_parts(b, ids.subrange(0, n), fmt) + opening(b)) + (
        raw_part(n as nat, ids[n], fmt) + separator(b)) + after_delimiter(b, ids, fmt, n),
        request_parts(b, ids.subrange(0, n + 1), fmt) == request_parts(b, ids.subrange(0, n), fmt)
            + opening(b) + raw_part(n as nat, ids[n], fmt) + crlf(),
{
    let pre = request_parts(b, ids.subrange(0, n), fmt);
    let raw = raw_part(n as nat, ids[n], fmt);
    let x = after_delimiter(b, ids, fmt, n);
    lemma_forward(b, ids, fmt, n);
    lemma_request_part_split(b, n as nat, ids[n], fmt);
    lemma_next_shape(b, ids, fmt, n);
    assert(parts_from(b, ids, fmt, n) == request_part(b, n as nat, ids[n], fmt) + parts_from(
        b,
        ids,
        fmt,
        n + 1,
    ));
    assert(batch_request(b, ids, fmt) =~= (pre + opening(b)) + (raw + separator(b)) + x);
    let s = ids.subrange(0, n + 1);
    assert(s.drop_last() =~= ids.subrange(0, n));
    assert(s.last() == ids[n]);
    assert(request_parts(b, s, fmt) =~= pre + opening(b) + raw + crlf());
}

#[verifier::rlimit(40)]
proof fn lemma_scan_from(b: Seq<u8>, ids: Seq<Seq<u8>>, fmt: Seq<u8>, n: int)
    requires
        0 <= n < ids.len(),
        no_cr(fmt),
        forall|i: int| 0 <= i < ids.len() ==> no_cr(#[trigger] ids[i]),
    ensures
        scan_parts(
            batch_request(b, ids, fmt),
            b,
            (request_parts(b, ids.subrange(0, n), fmt).len() + opening(b).len()) as int,
        ) == Ok::<Seq<Seq<u8>>, crate::multipart::MultipartError>(
            raw_parts(ids, fmt).subrange(n, ids.len() as int),
        ),
    decreases ids.len() - n,
{
    let d = batch_request(b, ids, fmt);
    let pre = request_parts(b, ids.subrange(0, n), fmt);
    let raw = raw_part(n as nat, ids[n], fmt);
    let x = after_delimiter(b, ids, fmt, n);
    lemma_shape(b, ids, fmt, n);
    lemma_next_shape(b, ids, fmt, n);
    lemma_raw_part_safe(n as nat, ids[n], fmt);
    assert(cr_safe(raw));
    lemma_scan_step(d, b, pre + opening(b), raw, x);
    if n + 1 < ids.len() {
        lemma_scan_from(b, ids, fmt, n + 1);
        assert(raw_parts(ids, fmt).subrange(n, ids.len() as int) =~= seq![raw] + raw_parts(
            ids,
            fmt,
        ).subrange(n + 1, ids.len() as int));
    } else {
        assert(raw_parts(ids, fmt).subrange(n, ids.len() as int) =~= seq![raw]);
    }
}

/// The raw parts of a request body are the parts it was built from.
proof fn lemma_split_request(b: Seq<u8>, ids: Seq<Seq<u8>>, fmt: Seq<u8>)
    requires
        ids.len() > 0,
        no_cr(fmt),
        forall|i: int| 0 <= i < ids.len() ==> no_cr(#[trigger] ids[i]),
    ensures
        split_parts(batch_request(b, ids, fmt), b) == Ok::<Seq<Seq<u8>>, crate::multipart::MultipartError>(
            raw_parts(ids, fmt),
        ),
{
    let d = batch_request(b, ids, fmt);
    lemma_forward(b, ids, fmt, 0);
    lemma_scan_from(b, ids, fmt, 0);
    lemma_request_part_split(b, 0, ids[0], fmt);
    assert(ids.subrange(0, 0) =~= Seq::<Seq<u8>>::empty());
    assert(request_parts(b, ids.subrange(0, 0), fmt) == Seq::<u8>::empty());
    let rest = parts_from(b, ids, fmt, 1);
    assert(d =~= opening(b) + (raw_part(0, ids[0], fmt) + crlf() + rest));
    assert(d.subrange(0, opening(b).len() as int) =~= opening(b));
    assert(raw_part(0, ids[0], fmt).len() > 0);
    assert(follows_at(d, 0, opening(b)));
    assert(raw_parts(ids, fmt).subrange(0, ids.len() as int) =~= raw_parts(ids, fmt));
}

/// The header fields of request part `n`.
pub open spec fn request_fields(n: nat) -> Seq<(Seq<u8>, Seq<u8>)> {
    seq![
        (ascii_bytes("content-type"@), ascii_bytes("application/http"@)),
        (ascii_bytes("content-id"@), ascii_bytes("req-"@) + decimal(n)),
    ]
}

pub open spec fn ordinary(c: u8) -> bool {
    c <= 127 && c != 13 && c != 10 && c != 0
}

pub open spec fn type_line() -> Seq<u8> {
    ascii_bytes("Content-Type: application/http"@)
}

pub open spec fn id_line() -> Seq<u8> {
    ascii_bytes("Content-ID: req-"@)
}

proof fn lemma_head_literals()
    ensures
        part_head_text() == type_line() + crlf() + id_line(),
        type_line().len() == 30,
        id_line().len() == 16,
        forall|t: int| 0 <= t < 30 ==> ordinary(#[trigger] type_line()[t]),
        forall|t: int| 0 <= t < 16 ==> ordinary(#[trigger] id_line()[t]),
        forall|t: int| 0 <= t < 12 ==> #[trigger] type_line()[t] != 58u8,
        type_line()[12] == 58u8,
        forall|t: int| 0 <= t < 10 ==> #[trigger] id_line()[t] != 58u8,
        id_line()[10] == 58u8,
        lower(type_line().subrange(0, 12)) == ascii_bytes("content-type"@),
        type_line().subrange(13, 30) == seq![32u8] + ascii_bytes("application/http"@),
        lower(id_line().subrange(0, 10)) == ascii_bytes("content-id"@),
        id_line().subrange(11, 16) == seq![32u8] + ascii_bytes("req-"@),
        ascii_bytes("application/http"@).len() == 16,
        ascii_bytes("application/http"@)[0] == 97u8,
        ascii_bytes("application/http"@)[15] == 112u8,
        ascii_bytes("req-"@).len() == 4,
        ascii_bytes("req-"@)[0] == 114u8,
{
    reveal_strlit("Content-Type: application/http\r\nContent-ID: req-");
    reveal_strlit("Content-Type: application/http");
    reveal_strlit("Content-ID: req-");
    reveal_strlit("content-type");
    reveal_strlit("content-id");
    reveal_strlit("application/http");
    reveal_strlit("req-");
    assert(part_head_text() =~= type_line() + crlf() + id_line());
    assert(lower(type_line().subrange(0, 12)) =~= ascii_bytes("content-type"@));
    assert(type_line().subrange(13, 30) =~= seq![32u8] + ascii_bytes("application/http"@));
    assert(lower(id_line().subrange(0, 10)) =~= ascii_bytes("content-id"@));
    assert(id_line().subrange(11, 16) =~= seq![32u8] + ascii_bytes("req-"@));
}

proof fn lemma_line_end_at(p: Seq<u8>, i: int, j: int, k: usize)
    requires
        0 <= i <= j < p.len(),
        forall|t: int| i <= t < j ==> ordinary(#[trigger] p[t]),
        p[j] == 13u8,
    ensures
        line_end(p, i, k) == Ok::<int, crate::multipart::MultipartError>(j),
    decreases j - i,
{
    if i < j {
        assert(ordinary(p[i]));
        lemma_line_end_at(p, i + 1, j, k);
    }
}

proof fn lemma_colon_at(l: Seq<u8>, i: int, c: int)
    requires
        0 <= i <= c < l.len(),
        forall|t: int| i <= t < c ==> #[trigger] l[t] != 58u8,
        l[c] == 58u8,
    ensures
        colon_index(l, i) == Some(c),
    decreases c - i,
{
    if i < c {
        lemma_colon_at(l, i + 1, c);
    }
}

proof fn lemma_trim_one_space(v: Seq<u8>)
    requires
        v.len() > 0,
        !is_space(v[0]),
        !is_space(v.last()),
    ensures
        trim(seq![32u8] + v) == v,
{
    let s = seq![32u8] + v;
    assert(s.drop_first() =~= v);
    assert(trim_front(s) == trim_front(v));
    assert(trim_front(v) == v);
    assert(trim_back(v) == v);
}

proof fn lemma_fields(n: nat)
    ensures
        field_of(type_line()) == Some(request_fields(n)[0]),
        field_of(id_line() + decimal(n)) == Some(request_fields(n)[1]),
{
    lemma_head_literals();
    lemma_decimal_digits(n);
    let l1 = type_line();
    lemma_colon_at(l1, 0, 12);
    lemma_trim_one_space(ascii_bytes("application/http"@));
    let d = decimal(n);
    let l2 = id_line() + d;
    assert forall|t: int| 0 <= t < 10 implies #[trigger] l2[t] != 58u8 by {
        assert(l2[t] == id_line()[t]);
    }
    lemma_colon_at(l2, 0, 10);
    assert(l2.subrange(0, 10) =~= id_line().subrange(0, 10));
    let v = ascii_bytes("req-"@) + d;
    assert(l2.subrange(11, l2.len() as int) =~= id_line().subrange(11, 16) + d);
    assert(seq![32u8] + ascii_bytes("req-"@) + d =~= seq![32u8] + v);
    assert(l2.subrange(11, l2.len() as int) =~= seq![32u8] + v);
    assert(v.last() == d[d.len() - 1]);
    assert(48 <= d[d.len() - 1] <= 57);
    lemma_trim_one_space(v);
}

/// The header block of request part `n`: two lines, then a blank line.
proof fn lemma_raw_part_lines(n: nat, id: Seq<u8>, fmt: Seq<u8>, k: usize)
    ensures
        ({
            let p = raw_part(n, id, fmt);
            let j2: int = 48 + decimal(n).len() as int;
            header_lines(p, 0, k) == Ok::<(Seq<Seq<u8>>, int), crate::multipart::MultipartError>(
                (seq![p.subrange(0, 30), p.subrange(32, j2)], j2 + 4),
            ) && p.subrange(0, 30) == type_line() && p.subrange(32, j2) == id_line() + decimal(n)
        }),
{
    lemma_head_literals();
    lemma_literals();
    lemma_decimal_digits(n);
    let p = raw_part(n, id, fmt);
    let d = decimal(n);
    let t2 = request_line_text();
    let j2: int = 48 + d.len() as int;
    let tail = id + format_text() + fmt + crlf() + crlf();
    assert(p =~= type_line() + crlf() + id_line() + d + t2 + tail);
    assert forall|t: int| 0 <= t < 30 implies ordinary(#[trigger] p[t]) by {
        assert(p[t] == type_line()[t]);
    }
    assert(p[30] == 13u8);
    lemma_line_end_at(p, 0, 30, k);
    assert(p[31] == 10u8);
    assert(expect_lf(p, 31, k) is None);
    assert(p[32] == id_line()[0]);
    assert forall|t: int| 32 <= t < j2 implies ordinary(#[trigger] p[t]) by {
        if t < 48 {
            assert(p[t] == id_line()[t - 32]);
        } else {
            assert(p[t] == d[t - 48]);
        }
    }
    assert(p[j2] == t2[0]);
    assert(p[j2 + 1] == t2[1]);
    assert(p[j2 + 2] == t2[2]);
    assert(p[j2 + 3] == t2[3]);
    lemma_line_end_at(p, 32, j2, k);
    assert(expect_lf(p, j2 + 1, k) is None);
    assert(expect_lf(p, j2 + 3, k) is None);
    assert(header_lines(p, 32, k) == Ok::<(Seq<Seq<u8>>, int), crate::multipart::MultipartError>(
        (seq![p.subrange(32, j2)], j2 + 4),
    ));
    assert(seq![p.subrange(0, 30)] + seq![p.subrange(32, j2)] =~= seq![
        p.subrange(0, 30),
        p.subrange(32, j2),
    ]);
    assert(p.subrange(0, 30) =~= type_line());
    assert(p.subrange(32, j2) =~= id_line() + d);
}

/// The body of a request part: the request line and a blank line.
pub open spec fn request_body(id: Seq<u8>, fmt: Seq<u8>) -> Seq<u8> {
    ascii_bytes("GET /gmail/v1/users/me/messages/"@) + id + format_text() + fmt + crlf() + crlf()
}

proof fn lemma_request_line()
    ensures
        request_line_text() == crlf() + crlf() + ascii_bytes("GET /gmail/v1/users/me/messages/"@),
{
    reveal_strlit("\r\n\r\nGET /gmail/v1/users/me/messages/");
    reveal_strlit("GET /gmail/v1/users/me/messages/");
    assert(request_line_text() =~= crlf() + crlf() + ascii_bytes(
        "GET /gmail/v1/users/me/messages/"@,
    ));
}

/// Request part `n` reads back as its two header fields and its request line.
proof fn lemma_raw_part_parses(n: nat, id: Seq<u8>, fmt: Seq<u8>, k: usize)
    ensures
        parse_part(raw_part(n, id, fmt), k) is Ok,
        parse_part(raw_part(n, id, fmt), k).unwrap().0 == request_fields(n),
        parse_part(raw_part(n, id, fmt), k).unwrap().1 == request_body(id, fmt),
{
    let p = raw_part(n, id, fmt);
    lemma_raw_part_lines(n, id, fmt, k);
    lemma_fields(n);
    let j2: int = 48 + decimal(n).len() as int;
    let ls = seq![p.subrange(0, 30), p.subrange(32, j2)];
    assert(ls.drop_last() =~= seq![p.subrange(0, 30)]);
    assert(seq![p.subrange(0, 30)].drop_last() =~= Seq::<Seq<u8>>::empty());
    let one = seq![p.subrange(0, 30)];
    assert(one.last() == type_line());
    assert(one.drop_last() =~= Seq::<Seq<u8>>::empty());
    assert(fields_of(one.drop_last()) == Some(Seq::<(Seq<u8>, Seq<u8>)>::empty()));
    assert(Seq::<(Seq<u8>, Seq<u8>)>::empty().push(request_fields(n)[0]) =~= seq![
        request_fields(n)[0],
    ]);
    assert(fields_of(one) == Some(seq![request_fields(n)[0]]));
    assert(ls.last() == id_line() + decimal(n));
    assert(fields_of(ls) == Some(seq![request_fields(n)[0]].push(request_fields(n)[1])));
    assert(seq![request_fields(n)[0]].push(request_fields(n)[1]) =~= request_fields(n));
    lemma_head_literals();
    lemma_request_line();
    let pre = type_line() + crlf() + id_line() + decimal(n) + crlf() + crlf();
    assert(p =~= pre + request_body(id, fmt));
    assert(pre.len() == j2 + 4);
    assert(p.subrange(j2 + 4, p.len() as int) =~= request_body(id, fmt));
}

proof fn lemma_parts_parse(ids: Seq<Seq<u8>>, fmt: Seq<u8>, m: int)
    requires
        0 <= m <= ids.len(),
    ensures
        parse_parts(raw_parts(ids, fmt).subrange(0, m)) is Ok,
        parse_parts(raw_parts(ids, fmt).subrange(0, m)).unwrap().len() == m,
        forall|i: int|
            0 <= i < m ==> (#[trigger] parse_parts(raw_parts(ids, fmt).subrange(0, m)).unwrap()[i]).0
                == request_fields(i as nat),
        forall|i: int|
            0 <= i < m ==> (#[trigger] parse_parts(raw_parts(ids, fmt).subrange(0, m)).unwrap()[i]).1
                == request_body(ids[i], fmt),
    decreases m,
{
    if m > 0 {
        let rs = raw_parts(ids, fmt).subrange(0, m);
        lemma_parts_parse(ids, fmt, m - 1);
        assert(rs.drop_last() =~= raw_parts(ids, fmt).subrange(0, m - 1));
        assert(rs.last() == raw_part((m - 1) as nat, ids[m - 1], fmt));
        lemma_raw_part_parses((m - 1) as nat, ids[m - 1], fmt, (m - 1) as usize);
        let prev = parse_parts(raw_parts(ids, fmt).subrange(0, m - 1)).unwrap();
        let cur = parse_parts(rs).unwrap();
        assert forall|i: int| 0 <= i < m implies (#[trigger] cur[i]).0 == request_fields(i as nat)
            && cur[i].1 == request_body(ids[i], fmt) by {
            if i < m - 1 {
                assert(cur[i] == prev[i]);
            }
        }
    } else {
        assert(raw_parts(ids, fmt).subrange(0, 0) =~= Seq::<Seq<u8>>::empty());
    }
}

/// Splitting a batch request body for `ids` (at least one) on its own
/// boundary gives one part per id, in order, part `n` with
/// `Content-Type: application/http` and `Content-ID: req-{n}`, and with its
/// request line `GET /gmail/v1/users/me/messages/{id}?format={fmt}` and a
/// blank line as its body. The ids and the format must hold no carriage return.
pub proof fn lemma_request_round_trip(b: Seq<u8>, ids: Seq<Seq<u8>>, fmt: Seq<u8>)
    requires
        ids.len() > 0,
        no_cr(fmt),
        forall|i: int| 0 <= i < ids.len() ==> no_cr(#[trigger] ids[i]),
    ensures
        parse_multipart(batch_request(b, ids, fmt), b) is Ok,
        parse_multipart(batch_request(b, ids, fmt), b).unwrap().len() == ids.len(),
        forall|n: int|
            0 <= n < ids.len() ==> (#[trigger] parse_multipart(batch_request(b, ids, fmt), b).unwrap()[n]).0
                == request_fields(n as nat),
        forall|n: int|
            0 <= n < ids.len() ==> (#[trigger] parse_multipart(batch_request(b, ids, fmt), b).unwrap()[n]).1
                == request_body(ids[n], fmt),
        forall|n: int|
            0 <= n < ids.len() ==> lookup(
                (#[trigger] parse_multipart(batch_request(b, ids, fmt), b).unwrap()[n]).0,
                content_id_name(),
            ) == Some(ascii_bytes("req-"@) + decimal(n as nat)),
{
    lemma_split_request(b, ids, fmt);
    lemma_parts_parse(ids, fmt, ids.len() as int);
    assert(raw_parts(ids, fmt).subrange(0, ids.len() as int) =~= raw_parts(ids, fmt));
    let ps = parse_multipart(batch_request(b, ids, fmt), b).unwrap();
    assert forall|n: int| 0 <= n < ids.len() implies lookup(
        (#[trigger] ps[n]).0,
        content_id_name(),
    ) == Some(ascii_bytes("req-"@) + decimal(n as nat)) by {
        let fs = request_fields(n as nat);
        assert(fs.last() == fs[1]);
    }
}

/// The parts from number `n` on, each followed by the separator, then a line
/// break before the next part or `--\r\n` after the last.
pub open spec fn framed_from(b: Seq<u8>, raws: Seq<Seq<u8>>, n: int) -> Seq<u8>
    decreases raws.len() - n,
{
    if n < 0 || n >= raws.len() {
        Seq::empty()
    } else if n + 1 < raws.len() {
        raws[n] + separator(b) + (crlf() + framed_from(b, raws, n + 1))
    } else {
        raws[n] + separator(b) + (dashdash() + crlf())
    }
}

/// A multipart body with the given parts, framed with boundary `b`.
pub open spec fn framed(b: Seq<u8>, raws: Seq<Seq<u8>>) -> Seq<u8> {
    opening(b) + framed_from(b, raws, 0)
}

proof fn lemma_framed_scan(b: Seq<u8>, raws: Seq<Seq<u8>>, n: int, pre: Seq<u8>)
    requires
        0 <= n < raws.len(),
        forall|i: int| 0 <= i < raws.len() ==> cr_safe(#[trigger] raws[i]),
        framed(b, raws) == pre + framed_from(b, raws, n),
    ensures
        scan_parts(framed(b, raws), b, pre.len() as int) == Ok::<
            Seq<Seq<u8>>,
            crate::multipart::MultipartError,
        >(raws.subrange(n, raws.len() as int)),
    decreases raws.len() - n,
{
    let d = framed(b, raws);
    let raw = raws[n];
    assert(cr_safe(raw));
    if n + 1 < raws.len() {
        let x = crlf() + framed_from(b, raws, n + 1);
        assert(d =~= pre + (raw + separator(b)) + x);
        lemma_scan_step(d, b, pre, raw, x);
        let pre2 = pre + raw + separator(b) + crlf();
        assert(d =~= pre2 + framed_from(b, raws, n + 1));
        lemma_framed_scan(b, raws, n + 1, pre2);
        assert(raws.subrange(n, raws.len() as int) =~= seq![raw] + raws.subrange(
            n + 1,
            raws.len() as int,
        ));
    } else {
        let x = dashdash() + crlf();
        assert(d =~= pre + (raw + separator(b)) + x);
        lemma_scan_step(d, b, pre, raw, x);
        assert(raws.subrange(n, raws.len() as int) =~= seq![raw]);
    }
}

/// Any one or more parts, framed with a boundary, split back into exactly
/// those parts, provided that no carriage return in a part (or in the line
/// break after it) is followed two bytes later by `-`, so that no part holds
/// a line break followed by `--`.
pub proof fn lemma_framing_round_trip(b: Seq<u8>, raws: Seq<Seq<u8>>)
    requires
        raws.len() > 0,
        forall|i: int| 0 <= i < raws.len() ==> cr_safe(#[trigger] raws[i]),
    ensures
        split_parts(framed(b, raws), b) == Ok::<Seq<Seq<u8>>, crate::multipart::MultipartError>(
            raws,
        ),
{
    let d = framed(b, raws);
    lemma_framed_scan(b, raws, 0, opening(b));
    assert(raws.subrange(0, raws.len() as int) =~= raws);
    assert(framed_from(b, raws, 0).len() > 0);
    assert(d.subrange(0, opening(b).len() as int) =~= opening(b));
    assert(follows_at(d, 0, opening(b)));
}

} // verus!

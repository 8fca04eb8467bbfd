//! Building a batch request, and reading the batch reply back into one
//! outcome per request.

use vstd::prelude::*;
use vstd::utf8::{decode_utf8, encode_utf8, valid_utf8};
use vstd::string::StringExecFns;
use vstd::pervasive::VecAdditionalExecFns;
use crate::text::{ascii_bytes, decimal, decimal_of, literal_bytes, lower, lower_bytes, parse_decimal, write_decimal};
use crate::multipart::{bytes_eq, delimiter, lookup, multipart_parse, opening, parse_multipart, push_all, MultipartError, Part};
use crate::embedded::{embedded_of, parse_embedded, BatchError};

verus! {

broadcast use vstd::string::group_string_axioms;

/// A media type read into plain values.
#[derive(Debug)]
pub struct MediaType {
    pub type_: String,
    pub subtype: String,
    /// The `boundary` parameter, if there is one.
    pub boundary: Option<String>,
}

pub open spec fn string_opt_view(o: Option<String>) -> Option<Seq<char>> {
    match o {
        Some(s) => Some(s@),
        None => None,
    }
}

pub open spec fn str_opt_view(o: Option<&str>) -> Option<Seq<char>> {
    match o {
        Some(s) => Some(s@),
        None => None,
    }
}

/// What mime makes of a media type: `None` where it does not parse, else its
/// type, subtype and `boundary` parameter.
pub uninterp spec fn media_type_of(s: Seq<char>) -> Option<(Seq<char>, Seq<char>, Option<Seq<char>>)>;

/// Relies on mime: `Mime::from_str` to parse, then `type_`, `subtype` and
/// `get_param("boundary")` to read the result back as text.
#[verifier::external_body]
fn parse_media_type(s: &str) -> (r: Option<MediaType>)
    ensures
        r is None <==> media_type_of(s@) is None,
        r matches Some(m) ==> media_type_of(s@) == Some(
            (m.type_@, m.subtype@, string_opt_view(m.boundary)),
        ),
{
    let m = s.parse::<mime::Mime>().ok()?;
    Some(MediaType {
        type_: m.type_().as_str().to_string(),
        subtype: m.subtype().as_str().to_string(),
        boundary: m.get_param("boundary").map(|b| b.as_str().to_string()),
    })
}

/// Relies on `std::str::from_utf8`: it accepts exactly the valid UTF-8 byte
/// strings, and the text it gives back is their decoding.
#[verifier::external_body]
fn utf8_text(b: &[u8]) -> (r: Option<&str>)
    ensures
        r is Some <==> valid_utf8(b@),
        r matches Some(s) ==> s@ == decode_utf8(b@),
{
    std::str::from_utf8(b).ok()
}

/// Whether the text `t` is a media type of type `ty` and subtype `sub` (both
/// given in small letters), compared without regard to case.
pub open spec fn is_media(t: Seq<char>, ty: Seq<u8>, sub: Seq<u8>) -> bool {
    match media_type_of(t) {
        Some((a, b, _)) => lower(encode_utf8(a)) == ty && lower(encode_utf8(b)) == sub,
        None => false,
    }
}

/// Whether the bytes `v` are UTF-8 text naming the media type `ty`/`sub`.
pub open spec fn bytes_are_media(v: Seq<u8>, ty: Seq<u8>, sub: Seq<u8>) -> bool {
    valid_utf8(v) && is_media(decode_utf8(v), ty, sub)
}

fn media_is(t: &str, ty: &str, sub: &str) -> (r: bool)
    requires
        vstd::string::is_ascii(ty),
        vstd::string::is_ascii(sub),
    ensures
        r == is_media(t@, ascii_bytes(ty@), ascii_bytes(sub@)),
{
    match parse_media_type(t) {
        None => false,
        Some(m) => {
            let a = lower_bytes(m.type_.as_str().as_bytes());
            let b = lower_bytes(m.subtype.as_str().as_bytes());
            bytes_eq(a.as_slice(), literal_bytes(ty)) && bytes_eq(b.as_slice(), literal_bytes(sub))
        },
    }
}

fn bytes_media_is(v: &[u8], ty: &str, sub: &str) -> (r: bool)
    requires
        vstd::string::is_ascii(ty),
        vstd::string::is_ascii(sub),
    ensures
        r == bytes_are_media(v@, ascii_bytes(ty@), ascii_bytes(sub@)),
{
    match utf8_text(v) {
        None => false,
        Some(t) => media_is(t, ty, sub),
    }
}

/// The boundary that a reply's content type names.
pub open spec fn reply_boundary(ct: Option<Seq<char>>) -> Result<Seq<u8>, BatchError> {
    match ct {
        None => Err(BatchError::MissingContentType),
        Some(t) => match media_type_of(t) {
            None => Err(BatchError::BadContentType),
            Some((_, _, None)) => Err(BatchError::MissingBoundary),
            Some((_, _, Some(b))) => Ok(encode_utf8(b)),
        },
    }
}

/// Reads the boundary out of a reply's `Content-Type` header.
pub fn boundary_of(content_type: Option<&str>) -> (r: Result<String, BatchError>)
    ensures
        r matches Ok(b) ==> reply_boundary(str_opt_view(content_type)) == Ok::<Seq<u8>, BatchError>(
            encode_utf8(b@),
        ),
        r matches Err(e) ==> reply_boundary(str_opt_view(content_type)) == Err::<Seq<u8>, BatchError>(e),
{
    match content_type {
        None => Err(BatchError::MissingContentType),
        Some(t) => match parse_media_type(t) {
            None => Err(BatchError::BadContentType),
            Some(m) => match m.boundary {
                None => Err(BatchError::MissingBoundary),
                Some(b) => Ok(b),
            },
        },
    }
}

/// How one request was answered, before any payload is decoded.
#[derive(Debug)]
pub enum Reply {
    /// Status 200 with a JSON body.
    Success(Vec<u8>),
    /// Status 404.
    NotFound,
    /// Status 429.
    TooMany,
    /// Status 403, with the error body to inspect.
    Forbidden(Vec<u8>),
}

pub enum ReplyView {
    Success(Seq<u8>),
    NotFound,
    TooMany,
    Forbidden(Seq<u8>),
}

impl View for Reply {
    type V = ReplyView;

    open spec fn view(&self) -> ReplyView {
        match self {
            Reply::Success(b) => ReplyView::Success(b@),
            Reply::NotFound => ReplyView::NotFound,
            Reply::TooMany => ReplyView::TooMany,
            Reply::Forbidden(b) => ReplyView::Forbidden(b@),
        }
    }
}

/// The reply to request number `index`.
#[derive(Debug)]
pub struct PartReply {
    pub index: usize,
    pub reply: Reply,
}

impl View for PartReply {
    type V = (usize, ReplyView);

    open spec fn view(&self) -> (usize, ReplyView) {
        (self.index, self.reply@)
    }
}

pub open spec fn content_id_name() -> Seq<u8> {
    ascii_bytes("content-id"@)
}

pub open spec fn content_type_field() -> Seq<u8> {
    ascii_bytes("content-type"@)
}

pub open spec fn response_prefix() -> Seq<u8> {
    ascii_bytes("response-req-"@)
}

/// The request number that a reply part's `Content-ID` names.
pub open spec fn content_id_index(cid: Seq<u8>) -> Option<int> {
    if cid.len() >= response_prefix().len() && cid.subrange(0, response_prefix().len() as int)
        == response_prefix() {
        decimal_of(cid.subrange(response_prefix().len() as int, cid.len() as int))
    } else {
        None
    }
}

/// What the status of an embedded response means for request number `i`.
pub open spec fn classify(status: u16, ct: Option<Seq<u8>>, body: Seq<u8>, i: usize) -> Result<
    (usize, ReplyView),
    BatchError,
> {
    if status == 404 {
        Ok((i, ReplyView::NotFound))
    } else if status == 429 {
        Ok((i, ReplyView::TooMany))
    } else if status == 403 {
        Ok((i, ReplyView::Forbidden(body)))
    } else if status != 200 {
        Err(BatchError::UnexpectedStatus { id: i, status })
    } else {
        match ct {
            Some(v) => if bytes_are_media(v, ascii_bytes("application"@), ascii_bytes("json"@)) {
                Ok((i, ReplyView::Success(body)))
            } else {
                Err(BatchError::NotJson { id: i })
            },
            None => Err(BatchError::NotJson { id: i }),
        }
    }
}

/// Part `k` of a reply to `n` requests, correlated and classified.
pub open spec fn part_reply(p: (Seq<(Seq<u8>, Seq<u8>)>, Seq<u8>), k: usize, n: nat) -> Result<
    (usize, ReplyView),
    BatchError,
> {
    match lookup(p.0, content_type_field()) {
        None => Err(BatchError::PartNotHttp { part: k }),
        Some(v) => if !bytes_are_media(v, ascii_bytes("application"@), ascii_bytes("http"@)) {
            Err(BatchError::PartNotHttp { part: k })
        } else {
            match lookup(p.0, content_id_name()) {
                None => Err(BatchError::BadContentId { part: k }),
                Some(cid) => match content_id_index(cid) {
                    None => Err(BatchError::BadContentId { part: k }),
                    Some(i) => if i >= n {
                        Err(BatchError::BadContentId { part: k })
                    } else {
                        match embedded_of(p.1, k) {
                            Err(e) => Err(e),
                            Ok((status, ct, body)) => classify(status, ct, body, i as usize),
                        }
                    },
                },
            }
        },
    }
}

/// Every part of a reply to `n` requests; the first part that fails decides the error.
pub open spec fn part_replies(ps: Seq<(Seq<(Seq<u8>, Seq<u8>)>, Seq<u8>)>, n: nat) -> Result<
    Seq<(usize, ReplyView)>,
    BatchError,
>
    decreases ps.len(),
{
    if ps.len() == 0 {
        Ok(Seq::empty())
    } else {
        match part_replies(ps.drop_last(), n) {
            Err(e) => Err(e),
            Ok(rs) => match part_reply(ps.last(), (ps.len() - 1) as usize, n) {
                Err(e) => Err(e),
                Ok(r) => Ok(rs.push(r)),
            },
        }
    }
}

/// A batch reply to `n` requests, with the given content type and body.
pub open spec fn batch_replies(n: nat, ct: Option<Seq<char>>, body: Seq<u8>) -> Result<
    Seq<(usize, ReplyView)>,
    BatchError,
> {
    match reply_boundary(ct) {
        Err(e) => Err(e),
        Ok(b) => match parse_multipart(body, b) {
            Err(e) => Err(BatchError::Framing(e)),
            Ok(ps) => part_replies(ps, n),
        },
    }
}

fn content_id_number(cid: &[u8]) -> (r: Option<usize>)
    ensures
        r matches Some(i) ==> content_id_index(cid@) == Some(i as int),
        r is None ==> content_id_index(cid@) is None,
{
    proof {
        reveal_strlit("response-req-");
    }
    let prefix = literal_bytes("response-req-");
    if cid.len() < prefix.len() {
        return None;
    }
    if !bytes_eq(vstd::slice::slice_subrange(cid, 0, prefix.len()), prefix) {
        return None;
    }
    parse_decimal(vstd::slice::slice_subrange(cid, prefix.len(), cid.len()))
}

fn reply_for_part(p: &Part, k: usize, n: usize) -> (r: Result<PartReply, BatchError>)
    ensures
        r matches Ok(x) ==> part_reply(p@, k, n as nat) == Ok::<(usize, ReplyView), BatchError>(x@),
        r matches Err(e) ==> part_reply(p@, k, n as nat) == Err::<(usize, ReplyView), BatchError>(e),
{
    proof {
        reveal_strlit("content-type");
        reveal_strlit("content-id");
        reveal_strlit("application");
        reveal_strlit("http");
        reveal_strlit("json");
    }
    match p.header(literal_bytes("content-type")) {
        None => {
            return Err(BatchError::PartNotHttp { part: k });
        },
        Some(v) => {
            if !bytes_media_is(v.as_slice(), "application", "http") {
                return Err(BatchError::PartNotHttp { part: k });
            }
        },
    }
    let i = match p.header(literal_bytes("content-id")) {
        None => {
            return Err(BatchError::BadContentId { part: k });
        },
        Some(cid) => match content_id_number(cid.as_slice()) {
            None => {
                return Err(BatchError::BadContentId { part: k });
            },
            Some(i) => i,
        },
    };
    if i >= n {
        return Err(BatchError::BadContentId { part: k });
    }
    let e = parse_embedded(p.body.as_slice(), k)?;
    let status = e.status;
    if status == 404 {
        Ok(PartReply { index: i, reply: Reply::NotFound })
    } else if status == 429 {
        Ok(PartReply { index: i, reply: Reply::TooMany })
    } else if status == 403 {
        Ok(PartReply { index: i, reply: Reply::Forbidden(e.body) })
    } else if status != 200 {
        Err(BatchError::UnexpectedStatus { id: i, status })
    } else {
        match e.content_type {
            Some(v) => if bytes_media_is(v.as_slice(), "application", "json") {
                Ok(PartReply { index: i, reply: Reply::Success(e.body) })
            } else {
                Err(BatchError::NotJson { id: i })
            },
            None => Err(BatchError::NotJson { id: i }),
        }
    }
}

/// Reads a batch reply to `ids.len()` requests: the boundary from its content
/// type, then each part, correlated to a request by its `Content-ID` and
/// classified by the status of the response inside it.
pub fn decode_batch_response(ids: &[String], content_type: Option<&str>, body: &[u8]) -> (r: Result<
    Vec<PartReply>,
    BatchError,
>)
    ensures
        r matches Ok(rs) ==> batch_replies(ids.len() as nat, str_opt_view(content_type), body@)
            == Ok::<Seq<(usize, ReplyView)>, BatchError>(rs@.map_values(|x: PartReply| x@)),
        r matches Err(e) ==> batch_replies(ids.len() as nat, str_opt_view(content_type), body@)
            == Err::<Seq<(usize, ReplyView)>, BatchError>(e),
{
    let b = boundary_of(content_type)?;
    let mp = match multipart_parse(body, b.as_str().as_bytes()) {
        Ok(mp) => mp,
        Err(e) => {
            return Err(BatchError::Framing(e));
        },
    };
    let ghost ps = mp@;
    let mut out: Vec<PartReply> = Vec::new();
    let mut k: usize = 0;
    assert(ps.subrange(0, 0) =~= Seq::<(Seq<(Seq<u8>, Seq<u8>)>, Seq<u8>)>::empty());
    assert(out@.map_values(|x: PartReply| x@) =~= Seq::empty());
    while k < mp.parts.len()
        invariant
            k <= mp.parts.len(),
            ps == mp@,
            batch_replies(ids.len() as nat, str_opt_view(content_type), body@)
                == part_replies(ps, ids.len() as nat),
            part_replies(ps.subrange(0, k as int), ids.len() as nat) == Ok::<
                Seq<(usize, ReplyView)>,
                BatchError,
            >(out@.map_values(|x: PartReply| x@)),
        decreases mp.parts.len() - k,
    {
        let ghost pre = ps.subrange(0, k + 1);
        assert(pre.drop_last() =~= ps.subrange(0, k as int));
        assert(pre.last() == mp.parts@[k as int]@);
        match reply_for_part(&mp.parts[k], k, ids.len()) {
            Err(e) => {
                proof {
                    lemma_part_replies_err_extends(ps, k + 1, ids.len() as nat, e);
                }
                return Err(e);
            },
            Ok(x) => {
                out.push(x);
                assert(out@.map_values(|x: PartReply| x@) =~= part_replies(pre, ids.len() as nat).unwrap());
            },
        }
        k = k + 1;
    }
    assert(ps.subrange(0, ps.len() as int) =~= ps);
    Ok(out)
}

proof fn lemma_part_replies_err_extends(
    ps: Seq<(Seq<(Seq<u8>, Seq<u8>)>, Seq<u8>)>,
    m: int,
    n: nat,
    e: BatchError,
)
    requires
        0 <= m <= ps.len(),
        part_replies(ps.subrange(0, m), n) == Err::<Seq<(usize, ReplyView)>, BatchError>(e),
    ensures
        part_replies(ps, n) == Err::<Seq<(usize, ReplyView)>, BatchError>(e),
    decreases ps.len() - m,
{
    if m < ps.len() {
        let pre = ps.subrange(0, m + 1);
        assert(pre.drop_last() =~= ps.subrange(0, m));
        lemma_part_replies_err_extends(ps, m + 1, n, e);
    } else {
        assert(ps.subrange(0, m) =~= ps);
    }
}

/// One entry of the `errors` list in the JSON body of a 403 reply.
#[derive(Debug)]
pub struct ErrorEntry {
    pub domain: String,
    pub reason: String,
}

/// Whether an error entry reports an exhausted quota.
pub open spec fn is_quota_entry(e: ErrorEntry) -> bool {
    encode_utf8(e.domain@) == ascii_bytes("usageLimits"@) && (encode_utf8(e.reason@)
        == ascii_bytes("userRateLimitExceeded"@) || encode_utf8(e.reason@) == ascii_bytes(
        "rateLimitExceeded"@,
    ))
}

pub open spec fn quota_exceeded(es: Seq<ErrorEntry>) -> bool {
    exists|i: int| 0 <= i < es.len() && is_quota_entry(#[trigger] es[i])
}

/// Whether a 403 reply with these error entries means the caller is rate limited:
/// some entry has domain `usageLimits` and reason `userRateLimitExceeded` or
/// `rateLimitExceeded`.
pub fn is_quota_error(errors: &[ErrorEntry]) -> (r: bool)
    ensures
        r == quota_exceeded(errors@),
{
    proof {
        reveal_strlit("usageLimits");
        reveal_strlit("userRateLimitExceeded");
        reveal_strlit("rateLimitExceeded");
    }
    let mut i: usize = 0;
    while i < errors.len()
        invariant
            i <= errors.len(),
            forall|k: int| 0 <= k < i ==> !is_quota_entry(#[trigger] errors@[k]),
        decreases errors.len() - i,
    {
        proof {
            reveal_strlit("usageLimits");
            reveal_strlit("userRateLimitExceeded");
            reveal_strlit("rateLimitExceeded");
        }
        let e = &errors[i];
        if bytes_eq(e.domain.as_str().as_bytes(), literal_bytes("usageLimits")) && (bytes_eq(
            e.reason.as_str().as_bytes(),
            literal_bytes("userRateLimitExceeded"),
        ) || bytes_eq(e.reason.as_str().as_bytes(), literal_bytes("rateLimitExceeded"))) {
            assert(is_quota_entry(errors@[i as int]));
            return true;
        }
        i = i + 1;
    }
    false
}

/// A reply after its payload or error body was decoded.
#[derive(Debug)]
pub enum Settled<T> {
    /// Request number `index` found an item, with the id that its payload carries.
    Present { payload: T, id: String, index: usize },
    /// Request number `index` found nothing.
    Missing { index: usize },
    /// Request number `index` was rate limited.
    RateLimited { index: usize },
    /// Request number `index` was refused with these error entries.
    Forbidden { index: usize, errors: Vec<ErrorEntry> },
}

/// The outcome of one request of a batch.
#[derive(Debug)]
pub enum MultiResult<T> {
    Present(T),
    Missing(String),
    RateLimit(String),
}

/// The request number that a settled reply answers.
pub open spec fn index_of<T>(s: Settled<T>) -> usize {
    match s {
        Settled::Present { payload, id, index } => index,
        Settled::Missing { index } => index,
        Settled::RateLimited { index } => index,
        Settled::Forbidden { index, errors } => index,
    }
}

/// The outcome for the settled reply at position `pos`. A payload must carry
/// the id of the request it answers.
pub open spec fn settle<T>(s: Settled<T>, ids: Seq<String>, pos: usize) -> Result<
    MultiResult<T>,
    BatchError,
> {
    if index_of(s) >= ids.len() {
        Err(BatchError::BadContentId { part: pos })
    } else {
        match s {
            Settled::Present { payload, id, index } => if id@ == ids[index as int]@ {
                Ok(MultiResult::Present(payload))
            } else {
                Err(BatchError::WrongId { id: index })
            },
            Settled::Missing { index } => Ok(MultiResult::Missing(ids[index as int])),
            Settled::RateLimited { index } => Ok(MultiResult::RateLimit(ids[index as int])),
            Settled::Forbidden { index, errors } => if quota_exceeded(errors@) {
                Ok(MultiResult::RateLimit(ids[index as int]))
            } else {
                Err(BatchError::Forbidden { id: index })
            },
        }
    }
}

/// The id that a settled reply speaks for.
pub open spec fn carried<T>(s: Settled<T>, ids: Seq<String>) -> Seq<char> {
    match s {
        Settled::Present { payload, id, index } => id@,
        _ => ids[index_of(s) as int]@,
    }
}

pub open spec fn carried_ids<T>(ss: Seq<Settled<T>>, ids: Seq<String>) -> Seq<Seq<char>> {
    ss.map_values(|s: Settled<T>| carried(s, ids))
}

pub open spec fn indices<T>(ss: Seq<Settled<T>>) -> Seq<usize> {
    ss.map_values(|s: Settled<T>| index_of(s))
}

pub open spec fn settle_all<T>(ss: Seq<Settled<T>>, ids: Seq<String>) -> Result<
    Seq<MultiResult<T>>,
    BatchError,
>
    decreases ss.len(),
{
    if ss.len() == 0 {
        Ok(Seq::empty())
    } else {
        match settle_all(ss.drop_last(), ids) {
            Err(e) => Err(e),
            Ok(out) => match settle(ss.last(), ids, (ss.len() - 1) as usize) {
                Err(e) => Err(e),
                Ok(o) => Ok(out.push(o)),
            },
        }
    }
}

/// How many times `x` stands in `s`.
pub open spec fn occurrences(s: Seq<Seq<char>>, x: Seq<char>) -> nat
    decreases s.len(),
{
    if s.len() == 0 {
        0
    } else {
        occurrences(s.drop_last(), x) + if s.last() == x {
            1nat
        } else {
            0nat
        }
    }
}

/// How many times the request number `x` stands in `s`.
pub open spec fn index_count(s: Seq<usize>, x: usize) -> nat
    decreases s.len(),
{
    if s.len() == 0 {
        0
    } else {
        index_count(s.drop_last(), x) + if s.last() == x {
            1nat
        } else {
            0nat
        }
    }
}

/// The first request from `i` on whose id is not carried exactly once, or
/// which is not answered by exactly one reply.
pub open spec fn first_uncovered(cs: Seq<Seq<char>>, xs: Seq<usize>, ids: Seq<String>, i: int) -> Option<
    int,
>
    decreases ids.len() - i,
{
    if i < 0 || i >= ids.len() {
        None
    } else if occurrences(cs, ids[i]@) != 1 || index_count(xs, i as usize) != 1 {
        Some(i)
    } else {
        first_uncovered(cs, xs, ids, i + 1)
    }
}

/// The position of the reply that answers request `i`.
pub open spec fn slot<T>(ss: Seq<Settled<T>>, i: int) -> int {
    choose|j: int| 0 <= j < ss.len() && index_of(ss[j]) == i
}

/// The outcomes of a batch: every reply settled, as many outcomes as
/// requests, every request id answered exactly once, and the outcomes put in
/// the order of the requests.
pub open spec fn assemble<T>(ss: Seq<Settled<T>>, ids: Seq<String>) -> Result<
    Seq<MultiResult<T>>,
    BatchError,
> {
    match settle_all(ss, ids) {
        Err(e) => Err(e),
        Ok(out) => if ss.len() != ids.len() {
            Err(BatchError::CountMismatch { expected: ids.len() as usize, got: ss.len() as usize })
        } else {
            match first_uncovered(carried_ids(ss, ids), indices(ss), ids, 0) {
                Some(i) => Err(BatchError::NotCovered { id: i as usize }),
                None => Ok(Seq::new(ids.len(), |i: int| out[slot(ss, i)])),
            }
        },
    }
}

pub proof fn lemma_first_uncovered_none(cs: Seq<Seq<char>>, xs: Seq<usize>, ids: Seq<String>, i: int)
    requires
        0 <= i,
        first_uncovered(cs, xs, ids, i) is None,
    ensures
        forall|j: int| i <= j < ids.len() ==> occurrences(cs, #[trigger] ids[j]@) == 1,
        forall|j: int| i <= j < ids.len() ==> #[trigger] index_count(xs, j as usize) == 1,
    decreases ids.len() - i,
{
    if i < ids.len() {
        lemma_first_uncovered_none(cs, xs, ids, i + 1);
    }
}

proof fn lemma_index_count_zero(xs: Seq<usize>, x: usize)
    requires
        index_count(xs, x) == 0,
    ensures
        forall|j: int| 0 <= j < xs.len() ==> #[trigger] xs[j] != x,
    decreases xs.len(),
{
    if xs.len() > 0 {
        lemma_index_count_zero(xs.drop_last(), x);
        assert forall|j: int| 0 <= j < xs.len() implies #[trigger] xs[j] != x by {
            if j < xs.len() - 1 {
                assert(xs[j] == xs.drop_last()[j]);
            }
        }
    }
}

/// A request number counted once stands at exactly one position.
proof fn lemma_index_count_one(xs: Seq<usize>, x: usize)
    requires
        index_count(xs, x) == 1,
    ensures
        exists|j: int| 0 <= j < xs.len() && xs[j] == x,
        forall|j1: int, j2: int|
            0 <= j1 < xs.len() && 0 <= j2 < xs.len() && #[trigger] xs[j1] == x && #[trigger] xs[j2]
                == x ==> j1 == j2,
    decreases xs.len(),
{
    let l = xs.len() - 1;
    let d = xs.drop_last();
    if xs.last() == x {
        lemma_index_count_zero(d, x);
        assert forall|j: int| 0 <= j < l implies xs[j] != x by {
            assert(xs[j] == d[j]);
        }
        assert(xs[l] == x);
    } else {
        lemma_index_count_one(d, x);
        let j0 = choose|j: int| 0 <= j < d.len() && d[j] == x;
        assert(xs[j0] == x);
        assert forall|j1: int, j2: int|
            0 <= j1 < xs.len() && 0 <= j2 < xs.len() && #[trigger] xs[j1] == x && #[trigger] xs[j2]
                == x implies j1 == j2 by {
            assert(j1 < l && j2 < l);
            assert(d[j1] == xs[j1] && d[j2] == xs[j2]);
        }
    }
}

proof fn lemma_settle_all_err_extends<T>(ss: Seq<Settled<T>>, ids: Seq<String>, m: int, e: BatchError)
    requires
        0 <= m <= ss.len(),
        settle_all(ss.subrange(0, m), ids) == Err::<Seq<MultiResult<T>>, BatchError>(e),
    ensures
        settle_all(ss, ids) == Err::<Seq<MultiResult<T>>, BatchError>(e),
    decreases ss.len() - m,
{
    if m < ss.len() {
        let pre = ss.subrange(0, m + 1);
        assert(pre.drop_last() =~= ss.subrange(0, m));
        lemma_settle_all_err_extends(ss, ids, m + 1, e);
    } else {
        assert(ss.subrange(0, m) =~= ss);
    }
}

proof fn lemma_settle_all_ok<T>(ss: Seq<Settled<T>>, ids: Seq<String>)
    requires
        settle_all(ss, ids) is Ok,
    ensures
        settle_all(ss, ids).unwrap().len() == ss.len(),
        forall|k: int|
            0 <= k < ss.len() ==> #[trigger] settle(ss[k], ids, k as usize) == Ok::<
                MultiResult<T>,
                BatchError,
            >(settle_all(ss, ids).unwrap()[k]),
    decreases ss.len(),
{
    if ss.len() > 0 {
        lemma_settle_all_ok(ss.drop_last(), ids);
        let done = settle_all(ss, ids).unwrap();
        let prev = settle_all(ss.drop_last(), ids).unwrap();
        assert forall|k: int| 0 <= k < ss.len() implies #[trigger] settle(ss[k], ids, k as usize)
            == Ok::<MultiResult<T>, BatchError>(done[k]) by {
            if k < ss.len() - 1 {
                assert(ss[k] == ss.drop_last()[k]);
                assert(done[k] == prev[k]);
            }
        }
    }
}

/// A reply that settles answers a request in range, and carries its id.
proof fn lemma_settled_carries<T>(s: Settled<T>, ids: Seq<String>, pos: usize)
    requires
        settle(s, ids, pos) is Ok,
    ensures
        index_of(s) < ids.len(),
        carried(s, ids) == ids[index_of(s) as int]@,
{
}

/// Where a batch assembles, reply `slot(ss, i)` is the one reply that
/// answers request `i`, and it carries `ids[i]`.
pub proof fn lemma_assembled_in_request_order<T>(ss: Seq<Settled<T>>, ids: Seq<String>)
    requires
        ids.len() <= usize::MAX,
        assemble(ss, ids) is Ok,
    ensures
        assemble(ss, ids).unwrap().len() == ids.len(),
        forall|i: int|
            0 <= i < ids.len() ==> {
                let j = #[trigger] slot(ss, i);
                &&& 0 <= j < ss.len()
                &&& index_of(ss[j]) == i
                &&& carried(ss[j], ids) == ids[i]@
                &&& settle(ss[j], ids, j as usize) == Ok::<MultiResult<T>, BatchError>(
                    assemble(ss, ids).unwrap()[i],
                )
                &&& forall|k: int| 0 <= k < ss.len() && index_of(ss[k]) == i ==> k == j
            },
{
    lemma_settle_all_ok(ss, ids);
    lemma_first_uncovered_none(carried_ids(ss, ids), indices(ss), ids, 0);
    let xs = indices(ss);
    assert forall|i: int| 0 <= i < ids.len() implies {
        let j = #[trigger] slot(ss, i);
        &&& 0 <= j < ss.len()
        &&& index_of(ss[j]) == i
        &&& carried(ss[j], ids) == ids[i]@
        &&& settle(ss[j], ids, j as usize) == Ok::<MultiResult<T>, BatchError>(
            assemble(ss, ids).unwrap()[i],
        )
        &&& forall|k: int| 0 <= k < ss.len() && index_of(ss[k]) == i ==> k == j
    } by {
        assert(index_count(xs, i as usize) == 1);
        lemma_index_count_one(xs, i as usize);
        let w = choose|j: int| 0 <= j < xs.len() && xs[j] == i as usize;
        assert(xs[w] == index_of(ss[w]));
        assert(index_of(ss[w]) == i);
        let j = slot(ss, i);
        assert(0 <= j < ss.len() && index_of(ss[j]) == i);
        assert(settle(ss[j], ids, j as usize) is Ok);
        lemma_settled_carries(ss[j], ids, j as usize);
        assert forall|k: int| 0 <= k < ss.len() && index_of(ss[k]) == i implies k == j by {
            assert(xs[k] == index_of(ss[k]) && xs[j] == index_of(ss[j]));
            assert(xs[k] == i as usize && xs[j] == i as usize);
        }
    }
}

proof fn lemma_occurrences_none(s: Seq<Seq<char>>, x: Seq<char>)
    requires
        forall|j: int| 0 <= j < s.len() ==> #[trigger] s[j] != x,
    ensures
        occurrences(s, x) == 0,
    decreases s.len(),
{
    if s.len() > 0 {
        assert forall|j: int| 0 <= j < s.len() - 1 implies #[trigger] s.drop_last()[j] != x by {
            assert(s.drop_last()[j] == s[j]);
        }
        lemma_occurrences_none(s.drop_last(), x);
    }
}

proof fn lemma_occurrences_once(s: Seq<Seq<char>>, x: Seq<char>, j0: int)
    requires
        0 <= j0 < s.len(),
        s[j0] == x,
        forall|j: int| 0 <= j < s.len() && j != j0 ==> #[trigger] s[j] != x,
    ensures
        occurrences(s, x) == 1,
    decreases s.len(),
{
    let d = s.drop_last();
    assert forall|j: int| 0 <= j < d.len() && j != j0 implies #[trigger] d[j] != x by {
        assert(d[j] == s[j]);
    }
    if j0 == s.len() - 1 {
        lemma_occurrences_none(d, x);
    } else {
        assert(d[j0] == x);
        lemma_occurrences_once(d, x, j0);
    }
}

proof fn lemma_index_count_none(s: Seq<usize>, x: usize)
    requires
        forall|j: int| 0 <= j < s.len() ==> #[trigger] s[j] != x,
    ensures
        index_count(s, x) == 0,
    decreases s.len(),
{
    if s.len() > 0 {
        assert forall|j: int| 0 <= j < s.len() - 1 implies #[trigger] s.drop_last()[j] != x by {
            assert(s.drop_last()[j] == s[j]);
        }
        lemma_index_count_none(s.drop_last(), x);
    }
}

proof fn lemma_index_count_once(s: Seq<usize>, x: usize, j0: int)
    requires
        0 <= j0 < s.len(),
        s[j0] == x,
        forall|j: int| 0 <= j < s.len() && j != j0 ==> #[trigger] s[j] != x,
    ensures
        index_count(s, x) == 1,
    decreases s.len(),
{
    let d = s.drop_last();
    assert forall|j: int| 0 <= j < d.len() && j != j0 implies #[trigger] d[j] != x by {
        assert(d[j] == s[j]);
    }
    if j0 == s.len() - 1 {
        lemma_index_count_none(d, x);
    } else {
        assert(d[j0] == x);
        lemma_index_count_once(d, x, j0);
    }
}

proof fn lemma_settle_all_when_each<T>(ss: Seq<Settled<T>>, ids: Seq<String>)
    requires
        forall|j: int| 0 <= j < ss.len() ==> #[trigger] settle(ss[j], ids, j as usize) is Ok,
    ensures
        settle_all(ss, ids) is Ok,
    decreases ss.len(),
{
    if ss.len() > 0 {
        let d = ss.drop_last();
        assert forall|j: int| 0 <= j < d.len() implies #[trigger] settle(d[j], ids, j as usize) is Ok by {
            assert(d[j] == ss[j]);
        }
        lemma_settle_all_when_each(d, ids);
        assert(settle(ss[ss.len() - 1], ids, (ss.len() - 1) as usize) is Ok);
    }
}

proof fn lemma_first_uncovered_all(cs: Seq<Seq<char>>, xs: Seq<usize>, ids: Seq<String>, i: int)
    requires
        0 <= i,
        forall|j: int| i <= j < ids.len() ==> occurrences(cs, #[trigger] ids[j]@) == 1,
        forall|j: int| i <= j < ids.len() ==> #[trigger] index_count(xs, j as usize) == 1,
    ensures
        first_uncovered(cs, xs, ids, i) is None,
    decreases ids.len() - i,
{
    if i < ids.len() {
        assert(occurrences(cs, ids[i]@) == 1);
        assert(index_count(xs, i as usize) == 1);
        lemma_first_uncovered_all(cs, xs, ids, i + 1);
    }
}

/// A batch whose replies are well formed assembles: distinct request ids,
/// one reply per request (reply `slot(ss, i)` answers request `i`, and no two
/// replies answer the same request), each answering a request of the batch, every
/// payload carrying the id of its request, and every 403 reporting a quota.
pub proof fn lemma_well_formed_batch_assembles<T>(ss: Seq<Settled<T>>, ids: Seq<String>)
    requires
        ids.len() <= usize::MAX,
        ss.len() == ids.len(),
        forall|a: int, b: int| 0 <= a < b < ids.len() ==> #[trigger] ids[a]@ != #[trigger] ids[b]@,
        forall|i: int|
            0 <= i < ids.len() ==> 0 <= #[trigger] slot(ss, i) < ss.len() && index_of(ss[slot(ss, i)])
                == i,
        forall|j: int| 0 <= j < ss.len() ==> #[trigger] index_of(ss[j]) < ids.len(),
        forall|a: int, b: int|
            0 <= a < b < ss.len() ==> #[trigger] index_of(ss[a]) != #[trigger] index_of(ss[b]),
        forall|j: int| 0 <= j < ss.len() && (#[trigger] ss[j] is Present) ==> carried(ss[j], ids) == ids[index_of(ss[j]) as int]@,
        forall|j: int| 0 <= j < ss.len() ==> match #[trigger] ss[j] {
            Settled::Forbidden { index, errors } => quota_exceeded(errors@),
            _ => true,
        },
    ensures
        assemble(ss, ids) is Ok,
        assemble(ss, ids).unwrap().len() == ids.len(),
{
    assert forall|j: int| 0 <= j < ss.len() implies #[trigger] settle(ss[j], ids, j as usize) is Ok by {
        assert(index_of(ss[j]) < ids.len());
        if ss[j] is Present {
            assert(carried(ss[j], ids) == ids[index_of(ss[j]) as int]@);
        }
    }
    lemma_settle_all_when_each(ss, ids);
    let cs = carried_ids(ss, ids);
    let xs = indices(ss);
    assert forall|j: int| 0 <= j < ss.len() implies #[trigger] cs[j] == ids[index_of(ss[j]) as int]@ by {
        assert(index_of(ss[j]) < ids.len());
        if ss[j] is Present {
            assert(carried(ss[j], ids) == ids[index_of(ss[j]) as int]@);
        }
    }
    assert forall|i: int| 0 <= i < ids.len() implies occurrences(cs, #[trigger] ids[i]@) == 1
        && index_count(xs, i as usize) == 1 by {
        let j0 = slot(ss, i);
        assert(cs[j0] == ids[i]@);
        assert(xs[j0] == index_of(ss[j0]));
        assert forall|j: int| 0 <= j < cs.len() && j != j0 implies #[trigger] cs[j] != ids[i]@ by {
            assert(cs[j] == ids[index_of(ss[j]) as int]@);
            if j < j0 {
                assert(index_of(ss[j]) != index_of(ss[j0]));
            } else {
                assert(index_of(ss[j0]) != index_of(ss[j]));
            }
            let a = index_of(ss[j]) as int;
            if a < i {
                assert(ids[a]@ != ids[i]@);
            } else if a > i {
                assert(ids[i]@ != ids[a]@);
            }
        }
        lemma_occurrences_once(cs, ids[i]@, j0);
        assert forall|j: int| 0 <= j < xs.len() && j != j0 implies #[trigger] xs[j] != i as usize by {
            assert(xs[j] == index_of(ss[j]));
            if j < j0 {
                assert(index_of(ss[j]) != index_of(ss[j0]));
            } else {
                assert(index_of(ss[j0]) != index_of(ss[j]));
            }
        }
        lemma_index_count_once(xs, i as usize, j0);
    }
    assert forall|i: int| 0 <= i < ids.len() implies #[trigger] index_count(xs, i as usize) == 1 by {
        assert(occurrences(cs, ids[i]@) == 1);
    }
    lemma_first_uncovered_all(cs, xs, ids, 0);
}

fn count_in(cs: &Vec<String>, x: &String) -> (r: usize)
    ensures
        r == occurrences(cs@.map_values(|c: String| c@), x@),
{
    let ghost v = cs@.map_values(|c: String| c@);
    let mut n: usize = 0;
    let mut j: usize = 0;
    assert(v.subrange(0, 0) =~= Seq::<Seq<char>>::empty());
    while j < cs.len()
        invariant
            j <= cs.len(),
            v == cs@.map_values(|c: String| c@),
            n <= j,
            n == occurrences(v.subrange(0, j as int), x@),
        decreases cs.len() - j,
    {
        let ghost pre = v.subrange(0, j + 1);
        assert(pre.drop_last() =~= v.subrange(0, j as int));
        if cs[j] == *x {
            n = n + 1;
        }
        j = j + 1;
    }
    assert(v.subrange(0, v.len() as int) =~= v);
    n
}

fn count_index(xs: &Vec<usize>, x: usize) -> (r: usize)
    ensures
        r == index_count(xs@, x),
{
    let mut n: usize = 0;
    let mut j: usize = 0;
    while j < xs.len()
        invariant
            j <= xs.len(),
            n <= j,
            n == index_count(xs@.subrange(0, j as int), x),
        decreases xs.len() - j,
    {
        let ghost pre = xs@.subrange(0, j + 1);
        assert(pre.drop_last() =~= xs@.subrange(0, j as int));
        if xs[j] == x {
            n = n + 1;
        }
        j = j + 1;
    }
    assert(xs@.subrange(0, xs@.len() as int) =~= xs@);
    n
}

/// Turns the settled replies of a batch into its outcomes, one per request
/// and in the order of the requests. A 403 becomes `RateLimit` where its
/// entries report a quota; any other 403 is an error, and so is a payload
/// that carries another id than the request it answers. The batch is refused
/// unless there are as many replies as `ids`, every id is carried exactly
/// once and every request is answered by exactly one reply.
pub fn assemble_outcomes<T>(ids: &[String], settled: Vec<Settled<T>>) -> (r: Result<
    Vec<MultiResult<T>>,
    BatchError,
>)
    ensures
        r matches Ok(out) ==> assemble(settled@, ids@) == Ok::<Seq<MultiResult<T>>, BatchError>(out@),
        r matches Err(e) ==> assemble(settled@, ids@) == Err::<Seq<MultiResult<T>>, BatchError>(e),
        r matches Ok(out) ==> out.len() == ids.len() && forall|i: int|
            0 <= i < ids.len() ==> occurrences(carried_ids(settled@, ids@), #[trigger] ids@[i]@) == 1,
        r matches Ok(out) ==> forall|i: int|
            0 <= i < ids.len() ==> {
                let j = #[trigger] slot(settled@, i);
                &&& 0 <= j < settled@.len()
                &&& index_of(settled@[j]) == i
                &&& carried(settled@[j], ids@) == ids@[i]@
                &&& settle(settled@[j], ids@, j as usize) == Ok::<MultiResult<T>, BatchError>(
                    out@[i],
                )
            },
{
    let ghost ss = settled@;
    let mut cs: Vec<String> = Vec::new();
    let mut xs: Vec<usize> = Vec::new();
    let mut j: usize = 0;
    assert(ss.subrange(0, 0) =~= Seq::<Settled<T>>::empty());
    while j < settled.len()
        invariant
            j <= settled.len(),
            ss == settled@,
            settle_all(ss.subrange(0, j as int), ids@) is Ok,
            cs@.map_values(|c: String| c@) =~= carried_ids(ss.subrange(0, j as int), ids@),
            xs@ =~= indices(ss.subrange(0, j as int)),
        decreases settled.len() - j,
    {
        let ghost pre = ss.subrange(0, j + 1);
        assert(pre.drop_last() =~= ss.subrange(0, j as int));
        let index = match &settled[j] {
            Settled::Present { payload, id, index } => *index,
            Settled::Missing { index } => *index,
            Settled::RateLimited { index } => *index,
            Settled::Forbidden { index, errors } => *index,
        };
        if index >= ids.len() {
            proof {
                lemma_settle_all_err_extends(ss, ids@, j + 1, BatchError::BadContentId { part: j });
            }
            return Err(BatchError::BadContentId { part: j });
        }
        let c = match &settled[j] {
            Settled::Present { payload, id, index } => {
                if *id != ids[*index] {
                    proof {
                        lemma_settle_all_err_extends(ss, ids@, j + 1, BatchError::WrongId { id: *index });
                    }
                    return Err(BatchError::WrongId { id: *index });
                }
                id.clone()
            },
            Settled::Forbidden { index, errors } => {
                if !is_quota_error(errors.as_slice()) {
                    proof {
                        lemma_settle_all_err_extends(ss, ids@, j + 1, BatchError::Forbidden { id: *index });
                    }
                    return Err(BatchError::Forbidden { id: *index });
                }
                ids[*index].clone()
            },
            _ => ids[index].clone(),
        };
        let ghost old_cs = cs@.map_values(|c: String| c@);
        cs.push(c);
        xs.push(index);
        proof {
            assert(c@ == carried(ss[j as int], ids@));
            assert(cs@.map_values(|c: String| c@) =~= old_cs.push(c@));
            assert(carried_ids(pre, ids@) =~= carried_ids(ss.subrange(0, j as int), ids@).push(
                carried(ss[j as int], ids@),
            ));
            assert(indices(pre) =~= indices(ss.subrange(0, j as int)).push(index));
            assert(pre.last() == ss[j as int]);
        }
        j = j + 1;
    }
    assert(ss.subrange(0, ss.len() as int) =~= ss);
    if settled.len() != ids.len() {
        return Err(BatchError::CountMismatch { expected: ids.len(), got: settled.len() });
    }
    let ghost cv = carried_ids(ss, ids@);
    let ghost xv = indices(ss);
    let mut i: usize = 0;
    while i < ids.len()
        invariant
            i <= ids.len(),
            ss == settled@,
            ss.len() == ids.len(),
            settle_all(ss, ids@) is Ok,
            cv == carried_ids(ss, ids@),
            xv == indices(ss),
            cs@.map_values(|c: String| c@) == cv,
            xs@ == xv,
            first_uncovered(cv, xv, ids@, 0) == first_uncovered(cv, xv, ids@, i as int),
        decreases ids.len() - i,
    {
        if count_in(&cs, &ids[i]) != 1 || count_index(&xs, i) != 1 {
            return Err(BatchError::NotCovered { id: i });
        }
        i = i + 1;
    }
    let ghost done = settle_all(ss, ids@).unwrap();
    let ghost placed = Seq::new(ids@.len(), |i: int| done[slot(ss, i)]);
    proof {
        lemma_first_uncovered_none(cv, xv, ids@, 0);
        lemma_settle_all_ok(ss, ids@);
        lemma_assembled_in_request_order(ss, ids@);
        assert(assemble(ss, ids@) == Ok::<Seq<MultiResult<T>>, BatchError>(placed));
    }
    let n = ids.len();
    let mut slots: Vec<Option<MultiResult<T>>> = Vec::new();
    while slots.len() < n
        invariant
            slots.len() <= n,
            forall|m: int| 0 <= m < slots.len() ==> slots@[m] is None,
        decreases n - slots.len(),
    {
        slots.push(None);
    }
    let mut rest = settled;
    let mut k: usize = 0;
    while rest.len() > 0
        invariant
            n == ids.len(),
            k + rest.len() == ss.len(),
            ss.len() == ids.len(),
            rest@ == ss.subrange(k as int, ss.len() as int),
            done.len() == ss.len(),
            slots.len() == n,
            assemble(ss, ids@) == Ok::<Seq<MultiResult<T>>, BatchError>(placed),
            placed == Seq::new(ids@.len(), |i: int| done[slot(ss, i)]),
            forall|m: int|
                0 <= m < ss.len() ==> #[trigger] settle(ss[m], ids@, m as usize) == Ok::<
                    MultiResult<T>,
                    BatchError,
                >(done[m]),
            forall|i: int|
                0 <= i < ids.len() ==> {
                    let j = #[trigger] slot(ss, i);
                    &&& 0 <= j < ss.len()
                    &&& index_of(ss[j]) == i
                    &&& forall|q: int| 0 <= q < ss.len() && index_of(ss[q]) == i ==> q == j
                },
            forall|i: int|
                0 <= i < n ==> #[trigger] slots@[i] == if slot(ss, i) < k {
                    Some(done[slot(ss, i)])
                } else {
                    None
                },
        decreases rest.len(),
    {
        let s = rest.remove(0);
        assert(s == ss[k as int]);
        assert(settle(ss[k as int], ids@, k as usize) == Ok::<MultiResult<T>, BatchError>(done[k as int]));
        let (index, o) = match s {
            Settled::Present { payload, id, index } => (index, MultiResult::Present(payload)),
            Settled::Missing { index } => (index, MultiResult::Missing(ids[index].clone())),
            Settled::RateLimited { index } => (index, MultiResult::RateLimit(ids[index].clone())),
            Settled::Forbidden { index, errors } => (index, MultiResult::RateLimit(ids[index].clone())),
        };
        assert(o == done[k as int]);
        assert(index == index_of(ss[k as int]));
        assert(slot(ss, index as int) == k);
        let ghost old_slots = slots@;
        slots.set(index, Some(o));
        k = k + 1;
        assert forall|i: int| 0 <= i < n implies #[trigger] slots@[i] == if slot(ss, i) < k {
            Some(done[slot(ss, i)])
        } else {
            None
        } by {
            if i != index as int {
                assert(slots@[i] == old_slots[i]);
                assert(slot(ss, i) != k - 1);
            }
        }
        assert(rest@ =~= ss.subrange(k as int, ss.len() as int));
    }
    let mut out: Vec<MultiResult<T>> = Vec::new();
    let mut i: usize = 0;
    while i < n
        invariant
            n == ids.len(),
            i <= n,
            slots.len() == n,
            ss.len() == ids.len(),
            placed == Seq::new(ids@.len(), |i: int| done[slot(ss, i)]),
            forall|m: int| i <= m < n ==> #[trigger] slots@[m] == Some(placed[m]),
            out@ == placed.subrange(0, i as int),
        decreases n - i,
    {
        let mut x: Option<MultiResult<T>> = None;
        slots.set_and_swap(i, &mut x);
        let o = x.unwrap();
        out.push(o);
        i = i + 1;
        assert(out@ =~= placed.subrange(0, i as int));
    }
    assert(out@ =~= placed);
    Ok(out)
}

/// The settled form of a reply that carries no body to decode: `NotFound`
/// becomes `Missing`, `TooMany` becomes `RateLimited`; the others need their
/// body decoded first.
pub fn settle_bodiless<T>(r: &PartReply) -> (s: Option<Settled<T>>)
    ensures
        r.reply is NotFound ==> s == Some(Settled::<T>::Missing { index: r.index }),
        r.reply is TooMany ==> s == Some(Settled::<T>::RateLimited { index: r.index }),
        r.reply is Success || r.reply is Forbidden ==> s is None,
{
    match r.reply {
        Reply::NotFound => Some(Settled::Missing { index: r.index }),
        Reply::TooMany => Some(Settled::RateLimited { index: r.index }),
        _ => None,
    }
}

/// A batch that assembles has one outcome per request id, and every id is
/// carried by exactly one outcome.
pub proof fn lemma_assembled_batch_is_complete<T>(ss: Seq<Settled<T>>, ids: Seq<String>)
    requires
        assemble(ss, ids) is Ok,
    ensures
        assemble(ss, ids).unwrap().len() == ids.len(),
        carried_ids(ss, ids).len() == ids.len(),
        forall|i: int| 0 <= i < ids.len() ==> occurrences(carried_ids(ss, ids), #[trigger] ids[i]@) == 1,
{
    lemma_settle_all_ok(ss, ids);
    lemma_first_uncovered_none(carried_ids(ss, ids), indices(ss), ids, 0);
}

/// Status 404 means `Missing`, 429 means `RateLimit`, a 403 means `RateLimit`
/// exactly where one of its error entries reports a quota (and is an error
/// otherwise), 200 carries the JSON body, and every other status is an error.
pub proof fn lemma_classification<T>(
    status: u16,
    ct: Option<Seq<u8>>,
    body: Seq<u8>,
    i: usize,
    ids: Seq<String>,
    errors: Vec<ErrorEntry>,
    pos: usize,
)
    requires
        i < ids.len(),
    ensures
        status == 404 ==> classify(status, ct, body, i) == Ok::<(usize, ReplyView), BatchError>(
            (i, ReplyView::NotFound),
        ) && settle(Settled::<T>::Missing { index: i }, ids, pos) == Ok::<MultiResult<T>, BatchError>(
            MultiResult::Missing(ids[i as int]),
        ),
        status == 429 ==> classify(status, ct, body, i) == Ok::<(usize, ReplyView), BatchError>(
            (i, ReplyView::TooMany),
        ) && settle(Settled::<T>::RateLimited { index: i }, ids, pos) == Ok::<
            MultiResult<T>,
            BatchError,
        >(MultiResult::RateLimit(ids[i as int])),
        status == 403 ==> classify(status, ct, body, i) == Ok::<(usize, ReplyView), BatchError>(
            (i, ReplyView::Forbidden(body)),
        ),
        quota_exceeded(errors@) ==> settle(Settled::<T>::Forbidden { index: i, errors }, ids, pos)
            == Ok::<MultiResult<T>, BatchError>(MultiResult::RateLimit(ids[i as int])),
        !quota_exceeded(errors@) ==> settle(Settled::<T>::Forbidden { index: i, errors }, ids, pos)
            == Err::<MultiResult<T>, BatchError>(BatchError::Forbidden { id: i }),
        status != 200 && status != 403 && status != 404 && status != 429 ==> classify(
            status,
            ct,
            body,
            i,
        ) == Err::<(usize, ReplyView), BatchError>(BatchError::UnexpectedStatus { id: i, status }),
{
}

/// The boundary that batch requests are framed with.
pub fn batch_boundary() -> (r: &'static str)
    ensures
        r@ == "23121338-972e-11ea-a0c6-c3892af82e36"@,
{
    "23121338-972e-11ea-a0c6-c3892af82e36"
}

/// The content type of a batch request framed with `boundary`.
pub fn batch_content_type(boundary: &str) -> (r: String)
    ensures
        r@ == "multipart/mixed; boundary="@ + boundary@,
{
    let mut t = String::from_str("multipart/mixed; boundary=");
    t.append(boundary);
    t
}

pub open spec fn part_head_text() -> Seq<u8> {
    ascii_bytes("Content-Type: application/http\r\nContent-ID: req-"@)
}

pub open spec fn request_line_text() -> Seq<u8> {
    ascii_bytes("\r\n\r\nGET /gmail/v1/users/me/messages/"@)
}

pub open spec fn format_text() -> Seq<u8> {
    ascii_bytes("?format="@)
}

pub open spec fn part_end_text() -> Seq<u8> {
    ascii_bytes("\r\n\r\n\r\n"@)
}

pub open spec fn closing_text() -> Seq<u8> {
    ascii_bytes("--\r\n"@)
}

/// Request part number `n` of a batch: framing headers, then a `GET` of
/// message `id` in format `fmt`.
pub open spec fn request_part(b: Seq<u8>, n: nat, id: Seq<u8>, fmt: Seq<u8>) -> Seq<u8> {
    opening(b) + part_head_text() + decimal(n) + request_line_text() + id + format_text() + fmt
        + part_end_text()
}

pub open spec fn request_parts(b: Seq<u8>, ids: Seq<Seq<u8>>, fmt: Seq<u8>) -> Seq<u8>
    decreases ids.len(),
{
    if ids.len() == 0 {
        Seq::empty()
    } else {
        request_parts(b, ids.drop_last(), fmt) + request_part(
            b,
            (ids.len() - 1) as nat,
            ids.last(),
            fmt,
        )
    }
}

/// A whole batch request body: every request part, then the closing delimiter.
pub open spec fn batch_request(b: Seq<u8>, ids: Seq<Seq<u8>>, fmt: Seq<u8>) -> Seq<u8> {
    request_parts(b, ids, fmt) + delimiter(b) + closing_text()
}

pub open spec fn id_bytes(ids: Seq<String>) -> Seq<Seq<u8>> {
    ids.map_values(|s: String| encode_utf8(s@))
}

/// Builds the body of a batch request that fetches each of `ids` in format
/// `fmt`, framed with `boundary`; part `n` has `Content-ID: req-{n}`.
pub fn batch_request_body(boundary: &str, ids: &[String], fmt: &str) -> (r: Vec<u8>)
    ensures
        r@ == batch_request(encode_utf8(boundary@), id_bytes(ids@), encode_utf8(fmt@)),
{
    let ghost b = encode_utf8(boundary@);
    let ghost iv = id_bytes(ids@);
    let ghost f = encode_utf8(fmt@);
    let bb = boundary.as_bytes();
    let fb = fmt.as_bytes();
    let mut body: Vec<u8> = Vec::new();
    let mut n: usize = 0;
    assert(iv.subrange(0, 0) =~= Seq::<Seq<u8>>::empty());
    while n < ids.len()
        invariant
            n <= ids.len(),
            b == bb@,
            f == fb@,
            iv == id_bytes(ids@),
            body@ == request_parts(b, iv.subrange(0, n as int), f),
        decreases ids.len() - n,
    {
        proof {
            reveal_strlit("Content-Type: application/http\r\nContent-ID: req-");
            reveal_strlit("\r\n\r\nGET /gmail/v1/users/me/messages/");
            reveal_strlit("?format=");
            reveal_strlit("\r\n\r\n\r\n");
        }
        let ghost before = body@;
        let nl: Vec<u8> = vec![13u8, 10u8];
        let head: Vec<u8> = vec![45u8, 45u8];
        push_all(&mut body, head.as_slice());
        push_all(&mut body, bb);
        push_all(&mut body, nl.as_slice());
        push_all(&mut body, literal_bytes("Content-Type: application/http\r\nContent-ID: req-"));
        write_decimal(&mut body, n);
        push_all(&mut body, literal_bytes("\r\n\r\nGET /gmail/v1/users/me/messages/"));
        push_all(&mut body, ids[n].as_str().as_bytes());
        push_all(&mut body, literal_bytes("?format="));
        push_all(&mut body, fb);
        push_all(&mut body, literal_bytes("\r\n\r\n\r\n"));
        proof {
            let pre = iv.subrange(0, n + 1);
            assert(pre.drop_last() =~= iv.subrange(0, n as int));
            assert(pre.last() == encode_utf8(ids@[n as int]@));
            assert(body@ =~= before + request_part(b, n as nat, pre.last(), f));
        }
        n = n + 1;
    }
    proof {
        reveal_strlit("--\r\n");
    }
    let head: Vec<u8> = vec![45u8, 45u8];
    push_all(&mut body, head.as_slice());
    push_all(&mut body, bb);
    push_all(&mut body, literal_bytes("--\r\n"));
    assert(iv.subrange(0, iv.len() as int) =~= iv);
    assert(body@ =~= batch_request(b, iv, f));
    body
}

} // verus!

//! The HTTP response carried as the body of one part of a batch reply.

use vstd::prelude::*;
use crate::text::{ascii_bytes, decimal_of, literal_bytes, lower, lower_bytes, parse_decimal};
use crate::multipart::{bytes_eq, MultipartError};

verus! {

broadcast use vstd::string::group_string_axioms;

#[verifier::external_type_specification]
#[verifier::external_body]
pub struct ExHttpParseError(httparse::Error);

/// The status line and header block of an HTTP response, as read by httparse.
#[derive(Debug)]
pub struct ResponseHead {
    pub status: u16,
    /// How many bytes the status line and header block take.
    pub head_len: usize,
    /// Header names as sent, with their raw values.
    pub headers: Vec<(Vec<u8>, Vec<u8>)>,
}

pub open spec fn pair_views(hs: Seq<(Vec<u8>, Vec<u8>)>) -> Seq<(Seq<u8>, Seq<u8>)> {
    hs.map_values(|h: (Vec<u8>, Vec<u8>)| (h.0@, h.1@))
}

/// What httparse, with room for 32 headers, reads from the start of `b`:
/// `None` where it finds the head malformed, `Some(None)` where the head is
/// incomplete, else the status code, the length of the head and its header
/// fields.
pub uninterp spec fn http_response_head(b: Seq<u8>) -> Option<
    Option<(u16, int, Seq<(Seq<u8>, Seq<u8>)>)>,
>;

/// Relies on `httparse::Response::parse` (with room for 32 headers): a malformed
/// head is an error, an incomplete one `Status::Partial`, and a complete one
/// gives the code and the number of bytes that the head takes, which is at
/// most the length of the input.
#[verifier::external_body]
fn read_response_head(b: &[u8]) -> (r: Result<Option<ResponseHead>, httparse::Error>)
    ensures
        r is Err <==> http_response_head(b@) is None,
        r matches Ok(None) ==> http_response_head(b@) == Some(
            None::<(u16, int, Seq<(Seq<u8>, Seq<u8>)>)>,
        ),
        r matches Ok(Some(h)) ==> http_response_head(b@) == Some(
            Some((h.status, h.head_len as int, pair_views(h.headers@))),
        ) && h.head_len <= b.len(),
{
    let mut headers = [httparse::EMPTY_HEADER; 32];
    let mut parser = httparse::Response::new(&mut headers);
    match parser.parse(b)? {
        httparse::Status::Partial => Ok(None),
        httparse::Status::Complete(n) => Ok(Some(ResponseHead {
            status: parser.code.unwrap(),
            head_len: n,
            headers: parser.headers.iter().map(|h| (h.name.as_bytes().to_vec(), h.value.to_vec())).collect(),
        })),
    }
}

/// Why a batch reply was refused.
#[derive(Debug, Clone, Copy, PartialEq, Eq, Structural)]
pub enum BatchError {
    /// The reply has no content type.
    MissingContentType,
    /// The reply's content type does not parse.
    BadContentType,
    /// The reply's content type has no boundary parameter.
    MissingBoundary,
    /// The multipart framing is broken.
    Framing(MultipartError),
    /// Part `part` is not of type `application/http`.
    PartNotHttp { part: usize },
    /// Part `part` has no `Content-ID` of the form `response-req-{n}` with `n` in range.
    BadContentId { part: usize },
    /// The response inside part `part` is malformed.
    EmbeddedMalformed { part: usize },
    /// The response inside part `part` ends inside its head.
    EmbeddedIncomplete { part: usize },
    /// The response inside part `part` has a `content-length` that is no number.
    BadContentLength { part: usize },
    /// The body inside part `part` is not as long as its `content-length` says.
    LengthMismatch { part: usize, declared: usize, actual: usize },
    /// A successful response for id number `id` is not `application/json`.
    NotJson { id: usize },
    /// The response for id number `id` has a status that has no meaning here.
    UnexpectedStatus { id: usize, status: u16 },
    /// The payload found for id number `id` carries another id.
    WrongId { id: usize },
    /// A 403 response for id number `id` is not a quota error.
    Forbidden { id: usize },
    /// The reply answers `got` requests where `expected` were sent.
    CountMismatch { expected: usize, got: usize },
    /// Request id number `id` is not answered exactly once.
    NotCovered { id: usize },
}


pub open spec fn content_length_name() -> Seq<u8> {
    ascii_bytes("content-length"@)
}

pub open spec fn content_type_name() -> Seq<u8> {
    ascii_bytes("content-type"@)
}

/// The value of the last header whose name, in small letters, is `name`.
pub open spec fn lookup_ci(hs: Seq<(Seq<u8>, Seq<u8>)>, name: Seq<u8>) -> Option<Seq<u8>>
    decreases hs.len(),
{
    if hs.len() == 0 {
        None
    } else if lower(hs.last().0) == name {
        Some(hs.last().1)
    } else {
        lookup_ci(hs.drop_last(), name)
    }
}

/// An HTTP response found inside a part: status, content type and body.
#[derive(Debug)]
pub struct EmbeddedResponse {
    pub status: u16,
    pub content_type: Option<Vec<u8>>,
    pub body: Vec<u8>,
}

pub open spec fn opt_view(o: Option<Vec<u8>>) -> Option<Seq<u8>> {
    match o {
        Some(v) => Some(v@),
        None => None,
    }
}

impl View for EmbeddedResponse {
    type V = (u16, Option<Seq<u8>>, Seq<u8>);

    open spec fn view(&self) -> Self::V {
        (self.status, opt_view(self.content_type), self.body@)
    }
}

/// The response inside the body `b` of part `k`. Where the head declares a
/// `content-length`, the bytes after the head must number exactly that.
pub open spec fn embedded_of(b: Seq<u8>, k: usize) -> Result<(u16, Option<Seq<u8>>, Seq<u8>), BatchError> {
    match http_response_head(b) {
        None => Err(BatchError::EmbeddedMalformed { part: k }),
        Some(None) => Err(BatchError::EmbeddedIncomplete { part: k }),
        Some(Some((status, c, hs))) => {
            let rest = b.subrange(c, b.len() as int);
            let ct = lookup_ci(hs, content_type_name());
            match lookup_ci(hs, content_length_name()) {
                None => Ok((status, ct, rest)),
                Some(v) => match decimal_of(v) {
                    None => Err(BatchError::BadContentLength { part: k }),
                    Some(n) => if n == rest.len() {
                        Ok((status, ct, rest))
                    } else {
                        Err(
                            BatchError::LengthMismatch {
                                part: k,
                                declared: n as usize,
                                actual: rest.len() as usize,
                            },
                        )
                    },
                },
            }
        },
    }
}

fn find_header_ci<'a>(hs: &'a Vec<(Vec<u8>, Vec<u8>)>, name: &[u8]) -> (r: Option<&'a Vec<u8>>)
    ensures
        r matches Some(v) ==> lookup_ci(pair_views(hs@), name@) == Some(v@),
        r is None ==> lookup_ci(pair_views(hs@), name@) is None,
{
    let ghost all = pair_views(hs@);
    let mut i: usize = hs.len();
    assert(all.subrange(0, all.len() as int) =~= all);
    while i > 0
        invariant
            i <= hs.len(),
            all == pair_views(hs@),
            lookup_ci(all, name@) == lookup_ci(all.subrange(0, i as int), name@),
        decreases i,
    {
        let ghost pre = all.subrange(0, i as int);
        assert(pre.drop_last() =~= all.subrange(0, i - 1));
        assert(pre.last() == (hs@[i - 1].0@, hs@[i - 1].1@));
        let l = lower_bytes(hs[i - 1].0.as_slice());
        if bytes_eq(l.as_slice(), name) {
            return Some(&hs[i - 1].1);
        }
        i = i - 1;
    }
    None
}

/// Reads the HTTP response carried in the body `b` of part `k`.
pub fn parse_embedded(b: &[u8], k: usize) -> (r: Result<EmbeddedResponse, BatchError>)
    ensures
        r matches Ok(e) ==> embedded_of(b@, k) == Ok::<(u16, Option<Seq<u8>>, Seq<u8>), BatchError>(e@),
        r matches Err(e) ==> embedded_of(b@, k) == Err::<(u16, Option<Seq<u8>>, Seq<u8>), BatchError>(e),
{
    let head = match read_response_head(b) {
        Err(_) => {
            return Err(BatchError::EmbeddedMalformed { part: k });
        },
        Ok(None) => {
            return Err(BatchError::EmbeddedIncomplete { part: k });
        },
        Ok(Some(h)) => h,
    };
    proof {
        reveal_strlit("content-length");
        reveal_strlit("content-type");
    }
    let rest = vstd::slice::slice_to_vec(vstd::slice::slice_subrange(b, head.head_len, b.len()));
    let ct = match find_header_ci(&head.headers, literal_bytes("content-type")) {
        Some(v) => Some(v.clone()),
        None => None,
    };
    assert(opt_view(ct) == lookup_ci(pair_views(head.headers@), content_type_name()));
    match find_header_ci(&head.headers, literal_bytes("content-length")) {
        None => {},
        Some(v) => match parse_decimal(v.as_slice()) {
            None => {
                return Err(BatchError::BadContentLength { part: k });
            },
            Some(n) => {
                if n != rest.len() {
                    return Err(BatchError::LengthMismatch { part: k, declared: n, actual: rest.len() });
                }
            },
        },
    }
    Ok(EmbeddedResponse { status: head.status, content_type: ct, body: rest })
}

} // verus!

//! Mailbox objects: profiles, labels and messages.

use vstd::prelude::*;
use vstd::utf8::encode_utf8;
use std::collections::HashSet;
use crate::text::{lower, lower_bytes};
use crate::multipart::bytes_eq;

verus! {

broadcast use vstd::string::group_string_axioms;

/// The mailbox's owner and size.
#[derive(Debug)]
pub struct Profile {
    pub email_address: String,
    pub messages_total: u64,
    pub threads_total: u64,
    pub history_id: u64,
}

/// A label of the mailbox.
#[derive(Debug)]
pub struct Label {
    id: String,
    name: String,
    typ: String,
}

impl View for Label {
    type V = (Seq<char>, Seq<char>, Seq<char>);

    closed spec fn view(&self) -> (Seq<char>, Seq<char>, Seq<char>) {
        (self.id@, self.name@, self.typ@)
    }
}

impl Label {
    pub fn new(id: String, name: String, typ: String) -> (r: Label)
        ensures
            r@ == (id@, name@, typ@),
    {
        Label { id, name, typ }
    }

    pub fn id(&self) -> (r: &str)
        ensures
            r@ == self@.0,
    {
        self.id.as_str()
    }

    pub fn name(&self) -> (r: &str)
        ensures
            r@ == self@.1,
    {
        self.name.as_str()
    }

    pub fn type_(&self) -> (r: &str)
        ensures
            r@ == self@.2,
    {
        self.typ.as_str()
    }
}

/// Byte-wise lexicographic order, the order of `str`.
pub open spec fn bytes_le(a: Seq<u8>, b: Seq<u8>) -> bool
    decreases a.len(),
{
    if a.len() == 0 {
        true
    } else if b.len() == 0 {
        false
    } else if a[0] != b[0] {
        a[0] < b[0]
    } else {
        bytes_le(a.drop_first(), b.drop_first())
    }
}

pub open spec fn sorted_names(v: Seq<&str>) -> bool {
    forall|i: int, j: int|
        0 <= i < j < v.len() ==> bytes_le(encode_utf8(#[trigger] v[i]@), encode_utf8(#[trigger] v[j]@))
}

/// Relies on `slice::sort_unstable`: it permutes the names into the order of
/// `str`, which compares the bytes lexicographically.
#[verifier::external_body]
fn sort_names(v: &mut Vec<&str>)
    ensures
        final(v)@.to_multiset() == old(v)@.to_multiset(),
        sorted_names(final(v)@),
{
    v.sort_unstable()
}

pub open spec fn label_names<'a>(ls: Seq<Label>) -> Seq<Seq<char>> {
    ls.map_values(|l: Label| l@.1)
}

/// The position of the first label whose name has the bytes `n`.
pub open spec fn first_named(ls: Seq<Label>, n: Seq<u8>, i: int) -> Option<int>
    decreases ls.len() - i,
{
    if i < 0 || i >= ls.len() {
        None
    } else if encode_utf8(ls[i]@.1) == n {
        Some(i)
    } else {
        first_named(ls, n, i + 1)
    }
}

/// Lookups over the labels of a mailbox.
pub trait LabelsHelper {
    /// The names of the labels, sorted.
    fn names(&self) -> Vec<&str>;

    /// The id of the first label named `n`.
    fn id_of(&self, n: &str) -> Option<&str>;
}

impl LabelsHelper for Vec<Label> {
    fn names(&self) -> (r: Vec<&str>)
        ensures
            r@.map_values(|s: &str| s@).to_multiset() == label_names(self@).to_multiset(),
            sorted_names(r@),
    {
        let mut names: Vec<&str> = Vec::new();
        let mut i: usize = 0;
        while i < self.len()
            invariant
                i <= self.len(),
                names@.map_values(|s: &str| s@) =~= label_names(self@.subrange(0, i as int)),
            decreases self.len() - i,
        {
            let ghost old_names = names@.map_values(|s: &str| s@);
            names.push(self[i].name());
            proof {
                assert(names@.map_values(|s: &str| s@) =~= old_names.push(self@[i as int]@.1));
                assert(label_names(self@.subrange(0, i + 1)) =~= label_names(
                    self@.subrange(0, i as int),
                ).push(self@[i as int]@.1));
            }
            i = i + 1;
        }
        assert(self@.subrange(0, self.len() as int) =~= self@);
        let ghost before = names@;
        sort_names(&mut names);
        proof {
            lemma_multiset_map_view(before, names@);
        }
        names
    }

    fn id_of(&self, n: &str) -> (r: Option<&str>)
        ensures
            r matches Some(id) ==> first_named(self@, encode_utf8(n@), 0) matches Some(i) && id@
                == self@[i]@.0,
            r is None ==> first_named(self@, encode_utf8(n@), 0) is None,
    {
        let mut i: usize = 0;
        while i < self.len()
            invariant
                i <= self.len(),
                first_named(self@, encode_utf8(n@), 0) == first_named(self@, encode_utf8(n@), i as int),
            decreases self.len() - i,
        {
            if bytes_eq(self[i].name().as_bytes(), n.as_bytes()) {
                return Some(self[i].id());
            }
            i = i + 1;
        }
        None
    }
}

proof fn lemma_multiset_map_view(a: Seq<&str>, b: Seq<&str>)
    requires
        a.to_multiset() == b.to_multiset(),
    ensures
        a.map_values(|s: &str| s@).to_multiset() == b.map_values(|s: &str| s@).to_multiset(),
    decreases a.len(),
{
    broadcast use vstd::seq_lib::group_to_multiset_ensures;

    if a.len() > 0 {
        let x = a.last();
        assert(a.to_multiset().count(x) > 0) by {
            assert(a.drop_last().push(x) =~= a);
        }
        assert(b.contains(x));
        let j = choose|j: int| 0 <= j < b.len() && b[j] == x;
        let a1 = a.drop_last();
        let b1 = b.remove(j);
        assert(a1.push(x) =~= a);
        assert(a1.to_multiset() == b1.to_multiset()) by {
            assert(a.to_multiset() =~= a1.to_multiset().insert(x));
            assert(b1.to_multiset() =~= b.to_multiset().remove(x));
        }
        lemma_multiset_map_view(a1, b1);
        let fa = a.map_values(|s: &str| s@);
        let fb = b.map_values(|s: &str| s@);
        let fa1 = a1.map_values(|s: &str| s@);
        let fb1 = b1.map_values(|s: &str| s@);
        assert(fa =~= fa1.push(x@));
        assert(fb1 =~= fb.remove(j));
        assert(fb[j] == x@);
        assert(fb1.to_multiset() =~= fb.to_multiset().remove(x@));
        assert(fa.to_multiset() =~= fa1.to_multiset().insert(x@));
        assert(fb.to_multiset().count(x@) > 0) by {
            assert(fb.contains(x@));
        }
        assert(fa.to_multiset() =~= fb.to_multiset());
    } else {
        assert(b.to_multiset().len() == 0);
        assert(b.len() == 0);
        assert(a.map_values(|s: &str| s@) =~= b.map_values(|s: &str| s@));
    }
}

/// One header of a message.
#[derive(Debug)]
pub struct MessageHeader {
    pub name: String,
    pub value: String,
}

/// The headers and media type of a message.
#[derive(Debug)]
pub struct MessagePayload {
    pub headers: Vec<MessageHeader>,
    pub mime_type: String,
}

/// The minimal form of a message.
#[derive(Debug)]
pub struct MessageMinimal {
    pub id: String,
    pub thread_id: String,
    pub label_ids: HashSet<String>,
    pub snippet: String,
    pub size_estimate: u64,
    pub history_id: u64,
    pub internal_date: u64,
}

/// A message with its headers.
#[derive(Debug)]
pub struct Message {
    pub id: String,
    pub thread_id: String,
    pub history_id: String,
    pub internal_date: String,
    pub label_ids: HashSet<String>,
    pub payload: MessagePayload,
    pub size_estimate: u64,
    pub snippet: String,
}

/// Whether two texts are equal when ASCII letters are compared without case.
pub open spec fn same_ignoring_case(a: Seq<char>, b: Seq<char>) -> bool {
    lower(encode_utf8(a)) == lower(encode_utf8(b))
}

/// The values of the headers named `n` (in any case), in order.
pub open spec fn header_values(hs: Seq<MessageHeader>, n: Seq<char>) -> Seq<Seq<char>>
    decreases hs.len(),
{
    if hs.len() == 0 {
        Seq::empty()
    } else {
        header_values(hs.drop_last(), n) + if same_ignoring_case(hs.last().name@, n) {
            seq![hs.last().value@]
        } else {
            Seq::empty()
        }
    }
}

impl Message {
    /// The values of the headers named `n`, compared without regard to case.
    pub fn headers(&self, n: &str) -> (r: Vec<&str>)
        ensures
            r@.map_values(|s: &str| s@) == header_values(self.payload.headers@, n@),
    {
        let hs = &self.payload.headers;
        let ln = lower_bytes(n.as_bytes());
        let mut out: Vec<&str> = Vec::new();
        let mut i: usize = 0;
        while i < hs.len()
            invariant
                i <= hs.len(),
                hs == &self.payload.headers,
                ln@ == lower(encode_utf8(n@)),
                out@.map_values(|s: &str| s@) =~= header_values(hs@.subrange(0, i as int), n@),
            decreases hs.len() - i,
        {
            let ghost pre = hs@.subrange(0, i + 1);
            assert(pre.drop_last() =~= hs@.subrange(0, i as int));
            let l = lower_bytes(hs[i].name.as_str().as_bytes());
            if bytes_eq(l.as_slice(), ln.as_slice()) {
                out.push(hs[i].value.as_str());
            }
            i = i + 1;
        }
        assert(hs@.subrange(0, hs.len() as int) =~= hs@);
        out
    }

    /// The value of the first header named `n`, or an empty string.
    pub fn header_or_blank(&self, n: &str) -> (r: &str)
        ensures
            header_values(self.payload.headers@, n@).len() > 0 ==> r@ == header_values(
                self.payload.headers@,
                n@,
            )[0],
            header_values(self.payload.headers@, n@).len() == 0 ==> r@.len() == 0,
    {
        let h = self.headers(n);
        if h.len() > 0 {
            h[0]
        } else {
            proof {
                reveal_strlit("");
            }
            ""
        }
    }

    /// The `Subject` header, or an empty string.
    pub fn subject(&self) -> (r: &str)
        ensures
            header_values(self.payload.headers@, "subject"@).len() > 0 ==> r@ == header_values(
                self.payload.headers@,
                "subject"@,
            )[0],
            header_values(self.payload.headers@, "subject"@).len() == 0 ==> r@.len() == 0,
    {
        self.header_or_blank("subject")
    }

    /// The `X-Mailer` header, or an empty string.
    pub fn mailer(&self) -> (r: &str)
        ensures
            header_values(self.payload.headers@, "x-mailer"@).len() > 0 ==> r@ == header_values(
                self.payload.headers@,
                "x-mailer"@,
            )[0],
            header_values(self.payload.headers@, "x-mailer"@).len() == 0 ==> r@.len() == 0,
    {
        self.header_or_blank("x-mailer")
    }
}

#[verifier::external_type_specification]
#[verifier::external_body]
pub struct ExDecodeError(base64::DecodeError);

/// What URL-safe base64 with padding decodes the bytes `b` to; `None` where
/// they are no such text.
pub uninterp spec fn url_safe_decoded(b: Seq<u8>) -> Option<Seq<u8>>;

/// Relies on base64's `decode_config` with `URL_SAFE`; it panics only where
/// the length plus 3, or plus 7, overflows.
#[verifier::external_body]
fn decode_url_safe(b: &[u8]) -> (r: Result<Vec<u8>, base64::DecodeError>)
    requires
        b.len() <= usize::MAX - 7,
    ensures
        r matches Ok(v) ==> url_safe_decoded(b@) == Some(v@),
        r is Err ==> url_safe_decoded(b@) is None,
{
    base64::decode_config(b, base64::URL_SAFE)
}

/// Why the raw text of a message could not be decoded.
#[derive(Debug, Clone, Copy, PartialEq, Eq, Structural)]
pub enum RawError {
    /// It is not URL-safe base64.
    NotBase64,
}

/// A message in raw form: its RFC 822 text, in URL-safe base64.
#[derive(Debug)]
pub struct MessageRaw {
    pub id: String,
    pub thread_id: String,
    pub label_ids: HashSet<String>,
    pub history_id: u64,
    pub internal_date: u64,
    raw: String,
}

impl MessageRaw {
    pub fn new(
        id: String,
        thread_id: String,
        label_ids: HashSet<String>,
        history_id: u64,
        internal_date: u64,
        raw: String,
    ) -> (r: MessageRaw)
        ensures
            r.raw_text()@ == raw@,
    {
        MessageRaw { id, thread_id, label_ids, history_id, internal_date, raw }
    }

    pub closed spec fn raw_text(&self) -> String {
        self.raw
    }

    /// The encoded text, as it came.
    pub fn raw_encoded(&self) -> (r: &str)
        ensures
            r@ == self.raw_text()@,
    {
        self.raw.as_str()
    }

    /// The message's RFC 822 text.
    pub fn raw(&self) -> (r: Result<Vec<u8>, RawError>)
        requires
            encode_utf8(self.raw_text()@).len() <= usize::MAX - 7,
        ensures
            r matches Ok(v) ==> url_safe_decoded(encode_utf8(self.raw_text()@)) == Some(v@),
            r is Err ==> url_safe_decoded(encode_utf8(self.raw_text()@)) is None,
    {
        match decode_url_safe(self.raw.as_str().as_bytes()) {
            Ok(v) => Ok(v),
            Err(_) => Err(RawError::NotBase64),
        }
    }
}

} // verus!

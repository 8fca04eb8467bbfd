//! Listing message ids, page by page.

use vstd::prelude::*;
use vstd::string::StringExecFns;
use crate::cursor::{initial, opt_str, page_done, page_failed, next_step, Cursor, Step};
use crate::util::{append_decimal, decimal_text};

verus! {

/// A message as the listing names it.
#[derive(Debug)]
pub struct RMessage {
    id: String,
    thread_id: String,
}

impl View for RMessage {
    type V = (Seq<char>, Seq<char>);

    closed spec fn view(&self) -> (Seq<char>, Seq<char>) {
        (self.id@, self.thread_id@)
    }
}

impl RMessage {
    pub fn new(id: String, thread_id: String) -> (r: RMessage)
        ensures
            r@ == (id@, thread_id@),
    {
        RMessage { id, thread_id }
    }

    pub fn id(&self) -> (r: &str)
        ensures
            r@ == self@.0,
    {
        self.id.as_str()
    }

    pub fn thread_id(&self) -> (r: &str)
        ensures
            r@ == self@.1,
    {
        self.thread_id.as_str()
    }
}

/// One page of the message listing.
#[derive(Debug)]
pub struct RMessages {
    pub messages: Vec<RMessage>,
    pub next_page_token: Option<String>,
    pub result_size_estimate: u64,
}

/// The settings of a message listing, as plain values.
pub struct MessagesSettings {
    pub perpage: Option<u32>,
    pub q: Option<Seq<char>>,
    pub spamtrash: bool,
    pub labels: Seq<Seq<char>>,
    pub resume: Option<Seq<char>>,
}

/// What to list: a search query, labels, spam and trash, the page size, and
/// where to resume.
pub struct MessagesConfig {
    perpage: Option<u32>,
    q: Option<String>,
    spamtrash: bool,
    label_ids: Vec<String>,
    resume_from_token: Option<String>,
}

pub open spec fn labels_view(v: Seq<String>) -> Seq<Seq<char>> {
    v.map_values(|s: String| s@)
}

impl View for MessagesConfig {
    type V = MessagesSettings;

    closed spec fn view(&self) -> MessagesSettings {
        MessagesSettings {
            perpage: self.perpage,
            q: opt_str(self.q),
            spamtrash: self.spamtrash,
            labels: labels_view(self.label_ids@),
            resume: opt_str(self.resume_from_token),
        }
    }
}

/// `labels` with `l` added at the end, unless it is there already.
pub open spec fn with_label(labels: Seq<Seq<char>>, l: Seq<char>) -> Seq<Seq<char>> {
    if labels.contains(l) {
        labels
    } else {
        labels.push(l)
    }
}

/// Adds `s` to `v` unless it is there already.
pub fn push_unique(v: &mut Vec<String>, s: String)
    ensures
        labels_view(final(v)@) == with_label(labels_view(old(v)@), s@),
{
    let ghost lv = labels_view(v@);
    let mut i: usize = 0;
    while i < v.len()
        invariant
            i <= v.len(),
            lv == labels_view(v@),
            forall|k: int| 0 <= k < i ==> v@[k]@ != s@,
        decreases v.len() - i,
    {
        if v[i] == s {
            assert(lv[i as int] == s@);
            assert(lv.contains(s@));
            return;
        }
        i = i + 1;
    }
    assert(!lv.contains(s@)) by {
        if lv.contains(s@) {
            let k = choose|k: int| 0 <= k < lv.len() && lv[k] == s@;
            assert(v@[k]@ == lv[k]);
        }
    }
    v.push(s);
    assert(labels_view(v@) =~= lv.push(s@));
}

/// The query of a page request: `q`, `includeSpamTrash`, each `labelIds`,
/// `pageToken` and `maxResults`, each where it applies.
pub open spec fn messages_query(c: MessagesSettings, token: Option<Seq<char>>) -> Seq<
    (Seq<char>, Seq<char>),
> {
    (match c.q {
        Some(q) => seq![("q"@, q)],
        None => Seq::empty(),
    }) + (if c.spamtrash {
        seq![("includeSpamTrash"@, "true"@)]
    } else {
        Seq::empty()
    }) + c.labels.map_values(|l: Seq<char>| ("labelIds"@, l)) + (match token {
        Some(t) => seq![("pageToken"@, t)],
        None => Seq::empty(),
    }) + (match c.perpage {
        Some(n) => seq![("maxResults"@, decimal_text(n as nat))],
        None => Seq::empty(),
    })
}

pub open spec fn params_view(v: Seq<(String, String)>) -> Seq<(Seq<char>, Seq<char>)> {
    v.map_values(|p: (String, String)| (p.0@, p.1@))
}

/// Appends the parameter `name=value`.
pub fn push_param(v: &mut Vec<(String, String)>, name: &str, value: &str)
    ensures
        params_view(final(v)@) == params_view(old(v)@).push((name@, value@)),
{
    v.push((String::from_str(name), String::from_str(value)));
    assert(params_view(v@) =~= params_view(old(v)@).push((name@, value@)));
}

impl MessagesConfig {
    /// Every message, from the first page, at the server's page size.
    pub fn new() -> (r: MessagesConfig)
        ensures
            r@ == (MessagesSettings {
                perpage: None,
                q: None,
                spamtrash: false,
                labels: Seq::empty(),
                resume: None,
            }),
    {
        let r = MessagesConfig {
            perpage: None,
            q: None,
            spamtrash: false,
            label_ids: Vec::new(),
            resume_from_token: None,
        };
        assert(labels_view(r.label_ids@) =~= Seq::empty());
        r
    }

    /// Only messages that match the search query `s`.
    pub fn query(self, s: &str) -> (r: MessagesConfig)
        ensures
            r@ == (MessagesSettings { q: Some(s@), ..self@ }),
    {
        let mut c = self;
        c.q = Some(String::from_str(s));
        c
    }

    /// Whether spam and trash are listed too.
    pub fn include_spam_trash(self, i: bool) -> (r: MessagesConfig)
        ensures
            r@ == (MessagesSettings { spamtrash: i, ..self@ }),
    {
        let mut c = self;
        c.spamtrash = i;
        c
    }

    /// Start at the page that token `s` names.
    pub fn resume_from_token(self, s: &str) -> (r: MessagesConfig)
        ensures
            r@ == (MessagesSettings { resume: Some(s@), ..self@ }),
    {
        let mut c = self;
        c.resume_from_token = Some(String::from_str(s));
        c
    }

    /// Ask for pages of `n` messages.
    pub fn batch_size(self, n: u32) -> (r: MessagesConfig)
        ensures
            r@ == (MessagesSettings { perpage: Some(n), ..self@ }),
    {
        let mut c = self;
        c.perpage = Some(n);
        c
    }

    /// Forget the labels added so far.
    pub fn labels_clear(self) -> (r: MessagesConfig)
        ensures
            r@ == (MessagesSettings { labels: Seq::empty(), ..self@ }),
    {
        let mut c = self;
        c.label_ids.clear();
        assert(labels_view(c.label_ids@) =~= Seq::empty());
        c
    }

    /// Only messages with label `label_id` (and any others added).
    pub fn label_add(self, label_id: &str) -> (r: MessagesConfig)
        ensures
            r@ == (MessagesSettings { labels: with_label(self@.labels, label_id@), ..self@ }),
    {
        let mut c = self;
        push_unique(&mut c.label_ids, String::from_str(label_id));
        c
    }

    /// The query parameters of the request for the page that `page_token` names.
    pub fn page_query(&self, page_token: Option<&str>) -> (r: Vec<(String, String)>)
        ensures
            params_view(r@) == messages_query(self@, crate::batch::str_opt_view(page_token)),
    {
        let ghost c = self@;
        let mut v: Vec<(String, String)> = Vec::new();
        match &self.q {
            Some(q) => push_param(&mut v, "q", q.as_str()),
            None => {},
        }
        if self.spamtrash {
            push_param(&mut v, "includeSpamTrash", "true");
        }
        let ghost mid = params_view(v@);
        let mut i: usize = 0;
        while i < self.label_ids.len()
            invariant
                i <= self.label_ids.len(),
                c == self@,
                params_view(v@) == mid + c.labels.subrange(0, i as int).map_values(
                    |l: Seq<char>| ("labelIds"@, l),
                ),
            decreases self.label_ids.len() - i,
        {
            push_param(&mut v, "labelIds", self.label_ids[i].as_str());
            i = i + 1;
            assert(c.labels.subrange(0, i as int).map_values(|l: Seq<char>| ("labelIds"@, l)) =~= c.labels.subrange(0, i - 1).map_values(|l: Seq<char>| ("labelIds"@, l)).push(("labelIds"@, self.label_ids@[i - 1]@)));
        }
        assert(c.labels.subrange(0, c.labels.len() as int) =~= c.labels);
        match page_token {
            Some(t) => push_param(&mut v, "pageToken", t),
            None => {},
        }
        match self.perpage {
            Some(n) => {
                let mut s = String::new();
                append_decimal(&mut s, n as u64);
                push_param(&mut v, "maxResults", s.as_str());
            },
            None => {},
        }
        assert(params_view(v@) =~= messages_query(c, crate::batch::str_opt_view(page_token)));
        v
    }

    /// A stream over the listing that these settings describe.
    pub fn start(self) -> (r: Messages)
        ensures
            r.config()@ == self@,
            r.cursor()@ == initial::<RMessage>(self@.resume),
    {
        let start = match &self.resume_from_token {
            Some(t) => Some(t.clone()),
            None => None,
        };
        Messages { c: self, cursor: Cursor::new(start) }
    }
}

/// A stream of the messages of a listing, resumable at page boundaries.
pub struct Messages {
    c: MessagesConfig,
    cursor: Cursor<RMessage>,
}

impl Messages {
    pub closed spec fn config(&self) -> MessagesConfig {
        self.c
    }

    pub closed spec fn cursor(&self) -> Cursor<RMessage> {
        self.cursor
    }

    /// The settings of the listing.
    pub fn settings(&self) -> (r: &MessagesConfig)
        ensures
            r@ == self.config()@,
    {
        &self.c
    }

    /// The next message, the end, a page to fetch, or a fetch to wait for.
    pub fn next(&mut self) -> (r: Step<RMessage>)
        ensures
            (final(self).cursor()@, r@) == next_step(old(self).cursor()@),
            final(self).config()@ == old(self).config()@,
    {
        self.cursor.next()
    }

    /// Whether a page fetch is under way.
    pub fn is_fetching(&self) -> (r: bool)
        ensures
            r == self.cursor()@.fetching,
    {
        self.cursor.is_fetching()
    }

    /// Takes in the page that the fetch under way returned.
    pub fn fetch_succeeded(&mut self, page: RMessages)
        requires
            old(self).cursor()@.fetching,
        ensures
            final(self).cursor()@ == page_done(
                old(self).cursor()@,
                page.messages@,
                opt_str(page.next_page_token),
                None,
            ),
            final(self).config()@ == old(self).config()@,
    {
        self.cursor.fetch_succeeded(page.messages, page.next_page_token, None);
    }

    /// Records that the fetch under way failed; it may be tried again.
    pub fn fetch_failed(&mut self)
        requires
            old(self).cursor()@.fetching,
        ensures
            final(self).cursor()@ == page_failed(old(self).cursor()@),
            final(self).config()@ == old(self).config()@,
    {
        self.cursor.fetch_failed();
    }

    /// Where to resume later without losing an unread message: the token of
    /// the page that the buffered messages came from.
    pub fn resume_token(&self) -> (r: Option<String>)
        ensures
            opt_str(r) == self.cursor()@.previous,
    {
        self.cursor.resume_token()
    }
}

} // verus!

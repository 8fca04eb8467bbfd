//! Listing mailbox history records, page by page.

use vstd::prelude::*;
use vstd::string::StringExecFns;
use std::collections::HashSet;
use crate::cursor::{initial, opt_str, page_done, page_failed, next_step, Cursor, Step};
use crate::messages::{labels_view, params_view, push_param, push_unique, with_label, RMessage};
use crate::util::{append_decimal, decimal_text};

verus! {

/// A message as a history record names it.
#[derive(Debug)]
pub struct RHistoryMessage {
    pub id: String,
    pub thread_id: String,
    pub label_ids: HashSet<String>,
}

#[derive(Debug)]
pub struct RHistoryMessageWrap {
    pub message: RHistoryMessage,
}

#[derive(Debug)]
pub struct RHistoryLabels {
    pub label_ids: Vec<String>,
    pub message: RHistoryMessage,
}

/// One change to the mailbox.
#[derive(Debug)]
pub struct RHistoryRecord {
    pub id: u64,
    pub messages: Vec<RMessage>,
    pub messages_added: Option<Vec<RHistoryMessageWrap>>,
    pub messages_deleted: Option<Vec<RHistoryMessageWrap>>,
    pub labels_removed: Option<Vec<RHistoryLabels>>,
    pub labels_added: Option<Vec<RHistoryLabels>>,
}

/// One page of the history listing, with the mailbox's current history id.
#[derive(Debug)]
pub struct RHistory {
    pub history: Vec<RHistoryRecord>,
    pub next_page_token: Option<String>,
    pub history_id: u64,
}

/// The settings of a history listing, as plain values.
pub struct HistorySettings {
    pub perpage: Option<u32>,
    pub label: Option<Seq<char>>,
    pub types: Seq<Seq<char>>,
    pub start_at: u64,
}

/// What history to list: from which history id, of which types and label,
/// and the page size.
pub struct HistoryConfig {
    perpage: Option<u32>,
    label_id: Option<String>,
    history_types: Vec<String>,
    start_at: u64,
}

impl View for HistoryConfig {
    type V = HistorySettings;

    closed spec fn view(&self) -> HistorySettings {
        HistorySettings {
            perpage: self.perpage,
            label: opt_str(self.label_id),
            types: labels_view(self.history_types@),
            start_at: self.start_at,
        }
    }
}

/// The query of a page request: `startHistoryId`, `labelId`, each
/// `historyTypes`, `pageToken` and `maxResults`, each where it applies.
pub open spec fn history_query(c: HistorySettings, token: Option<Seq<char>>) -> Seq<
    (Seq<char>, Seq<char>),
> {
    seq![("startHistoryId"@, decimal_text(c.start_at as nat))] + (match c.label {
        Some(l) => seq![("labelId"@, l)],
        None => Seq::empty(),
    }) + c.types.map_values(|t: Seq<char>| ("historyTypes"@, t)) + (match token {
        Some(t) => seq![("pageToken"@, t)],
        None => Seq::empty(),
    }) + (match c.perpage {
        Some(n) => seq![("maxResults"@, decimal_text(n as nat))],
        None => Seq::empty(),
    })
}

impl HistoryConfig {
    /// Every change after history id `start_at`, at the server's page size.
    pub fn new(start_at: u64) -> (r: HistoryConfig)
        ensures
            r@ == (HistorySettings {
                perpage: None,
                label: None,
                types: Seq::empty(),
                start_at,
            }),
    {
        let r = HistoryConfig { perpage: None, label_id: None, history_types: Vec::new(), start_at };
        assert(labels_view(r.history_types@) =~= Seq::empty());
        r
    }

    /// Ask for pages of `n` records.
    pub fn batch_size(self, n: u32) -> (r: HistoryConfig)
        ensures
            r@ == (HistorySettings { perpage: Some(n), ..self@ }),
    {
        let mut c = self;
        c.perpage = Some(n);
        c
    }

    /// Forget the history types added so far.
    pub fn history_types_clear(self) -> (r: HistoryConfig)
        ensures
            r@ == (HistorySettings { types: Seq::empty(), ..self@ }),
    {
        let mut c = self;
        c.history_types.clear();
        assert(labels_view(c.history_types@) =~= Seq::empty());
        c
    }

    /// Only records of type `history_type` (and any others added).
    pub fn history_type_add(self, history_type: &str) -> (r: HistoryConfig)
        ensures
            r@ == (HistorySettings { types: with_label(self@.types, history_type@), ..self@ }),
    {
        let mut c = self;
        push_unique(&mut c.history_types, String::from_str(history_type));
        c
    }

    /// Only records that concern label `label_id`.
    pub fn label(self, label_id: &str) -> (r: HistoryConfig)
        ensures
            r@ == (HistorySettings { label: Some(label_id@), ..self@ }),
    {
        let mut c = self;
        c.label_id = Some(String::from_str(label_id));
        c
    }

    /// The query parameters of the request for the page that `page_token` names.
    pub fn page_query(&self, page_token: Option<&str>) -> (r: Vec<(String, String)>)
        ensures
            params_view(r@) == history_query(self@, crate::batch::str_opt_view(page_token)),
    {
        let ghost c = self@;
        let mut v: Vec<(String, String)> = Vec::new();
        let mut s = String::new();
        append_decimal(&mut s, self.start_at);
        push_param(&mut v, "startHistoryId", s.as_str());
        match &self.label_id {
            Some(l) => push_param(&mut v, "labelId", l.as_str()),
            None => {},
        }
        let ghost mid = params_view(v@);
        let mut i: usize = 0;
        while i < self.history_types.len()
            invariant
                i <= self.history_types.len(),
                c == self@,
                params_view(v@) == mid + c.types.subrange(0, i as int).map_values(
                    |t: Seq<char>| ("historyTypes"@, t),
                ),
            decreases self.history_types.len() - i,
        {
            push_param(&mut v, "historyTypes", self.history_types[i].as_str());
            i = i + 1;
            assert(c.types.subrange(0, i as int).map_values(|t: Seq<char>| ("historyTypes"@, t)) =~= c.types.subrange(0, i - 1).map_values(|t: Seq<char>| ("historyTypes"@, t)).push(("historyTypes"@, self.history_types@[i - 1]@)));
        }
        assert(c.types.subrange(0, c.types.len() as int) =~= c.types);
        match page_token {
            Some(t) => push_param(&mut v, "pageToken", t),
            None => {},
        }
        match self.perpage {
            Some(n) => {
                let mut s = String::new();
                append_decimal(&mut s, n as u64);
                push_param(&mut v, "maxResults", s.as_str());
            },
            None => {},
        }
        assert(params_view(v@) =~= history_query(c, crate::batch::str_opt_view(page_token)));
        v
    }

    /// A stream over the history that these settings describe.
    pub fn start(self) -> (r: History)
        ensures
            r.config()@ == self@,
            r.cursor()@ == initial::<RHistoryRecord>(None),
            r.wf(),
    {
        History { c: self, cursor: Cursor::new(None) }
    }
}

/// A stream of history records; once it ends, `final_id` gives the history
/// id of the mailbox as of the last page.
pub struct History {
    c: HistoryConfig,
    cursor: Cursor<RHistoryRecord>,
}

impl History {
    pub closed spec fn config(&self) -> HistoryConfig {
        self.c
    }

    pub closed spec fn cursor(&self) -> Cursor<RHistoryRecord> {
        self.cursor
    }

    /// Once the last page is in, its history id is kept.
    pub open spec fn wf(&self) -> bool {
        self.cursor()@.finished ==> self.cursor()@.marker is Some
    }

    /// The settings of the listing.
    pub fn settings(&self) -> (r: &HistoryConfig)
        ensures
            r@ == self.config()@,
    {
        &self.c
    }

    /// The next record, the end, a page to fetch, or a fetch to wait for.
    pub fn next(&mut self) -> (r: Step<RHistoryRecord>)
        requires
            old(self).wf(),
        ensures
            final(self).wf(),
            (final(self).cursor()@, r@) == next_step(old(self).cursor()@),
            final(self).config()@ == old(self).config()@,
    {
        self.cursor.next()
    }

    /// Whether a page fetch is under way.
    pub fn is_fetching(&self) -> (r: bool)
        ensures
            r == self.cursor()@.fetching,
    {
        self.cursor.is_fetching()
    }

    /// Takes in the page that the fetch under way returned; on the last page
    /// its history id becomes the final id.
    pub fn fetch_succeeded(&mut self, page: RHistory)
        requires
            old(self).cursor()@.fetching,
        ensures
            final(self).wf(),
            final(self).cursor()@ == page_done(
                old(self).cursor()@,
                page.history@,
                opt_str(page.next_page_token),
                Some(page.history_id),
            ),
            final(self).config()@ == old(self).config()@,
    {
        self.cursor.fetch_succeeded(page.history, page.next_page_token, Some(page.history_id));
    }

    /// Records that the fetch under way failed; it may be tried again.
    pub fn fetch_failed(&mut self)
        requires
            old(self).wf(),
            old(self).cursor()@.fetching,
        ensures
            final(self).wf(),
            final(self).cursor()@ == page_failed(old(self).cursor()@),
            final(self).config()@ == old(self).config()@,
    {
        self.cursor.fetch_failed();
    }

    /// Whether the last page has been fetched.
    pub fn is_finished(&self) -> (r: bool)
        ensures
            r == self.cursor()@.finished,
    {
        self.cursor.is_finished()
    }

    /// The history id that the last page reported.
    pub fn final_id(&self) -> (r: u64)
        requires
            self.wf(),
            self.cursor()@.finished,
        ensures
            self.cursor()@.marker == Some(r),
    {
        match self.cursor.terminal_marker() {
            Some(id) => id,
            None => 0,
        }
    }
}

} // verus!

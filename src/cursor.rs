//! A resumable, single-flight stream over a paged listing.
//!
//! The cursor makes no calls of its own. `next` says what to do: hand out an
//! item, report the end, fetch a page with a given token, or wait for the
//! fetch already under way. Whoever runs the fetch reports back through
//! `fetch_succeeded` or `fetch_failed`.

use vstd::prelude::*;
use std::collections::VecDeque;

verus! {

/// What the caller of `next` is to do.
#[derive(Debug)]
pub enum Step<T> {
    /// The next item, in the order the server returned them.
    Item(T),
    /// The listing is exhausted.
    End,
    /// Fetch the page for this token (the first page where there is none).
    Fetch(Option<String>),
    /// A fetch is under way: wait for it to settle.
    Wait,
}

/// The state of a cursor, as plain values.
pub struct CursorState<T> {
    pub current: Option<Seq<char>>,
    pub previous: Option<Seq<char>>,
    pub finished: bool,
    pub marker: Option<u64>,
    pub buffer: Seq<T>,
    pub fetching: bool,
}

pub enum StepView<T> {
    Item(T),
    End,
    Fetch(Option<Seq<char>>),
    Wait,
}

pub open spec fn opt_str(o: Option<String>) -> Option<Seq<char>> {
    match o {
        Some(s) => Some(s@),
        None => None,
    }
}

impl<T> View for Step<T> {
    type V = StepView<T>;

    open spec fn view(&self) -> StepView<T> {
        match self {
            Step::Item(x) => StepView::Item(*x),
            Step::End => StepView::End,
            Step::Fetch(t) => StepView::Fetch(opt_str(*t)),
            Step::Wait => StepView::Wait,
        }
    }
}

/// A cursor over a paged listing, holding the fetched items not yet handed out.
pub struct Cursor<T> {
    current_token: Option<String>,
    previous_token: Option<String>,
    finished: bool,
    terminal_marker: Option<u64>,
    buffer: VecDeque<T>,
    fetching: bool,
}

impl<T> View for Cursor<T> {
    type V = CursorState<T>;

    closed spec fn view(&self) -> CursorState<T> {
        CursorState {
            current: opt_str(self.current_token),
            previous: opt_str(self.previous_token),
            finished: self.finished,
            marker: self.terminal_marker,
            buffer: self.buffer@,
            fetching: self.fetching,
        }
    }
}

/// The state a cursor starts in, at `start` (the first page where it is `None`).
pub open spec fn initial<T>(start: Option<Seq<char>>) -> CursorState<T> {
    CursorState {
        current: start,
        previous: None,
        finished: false,
        marker: None,
        buffer: Seq::empty(),
        fetching: false,
    }
}

/// One call of `next`: the state after it and what it says to do.
pub open spec fn next_step<T>(s: CursorState<T>) -> (CursorState<T>, StepView<T>) {
    if s.buffer.len() > 0 {
        (CursorState { buffer: s.buffer.drop_first(), ..s }, StepView::Item(s.buffer[0]))
    } else if s.finished {
        (s, StepView::End)
    } else if s.fetching {
        (s, StepView::Wait)
    } else {
        (CursorState { fetching: true, ..s }, StepView::Fetch(s.current))
    }
}

/// The state after the fetch under way returned `items`, the token of the
/// page after it (`None` on the last page) and the page's `marker`.
pub open spec fn page_done<T>(
    s: CursorState<T>,
    items: Seq<T>,
    next: Option<Seq<char>>,
    marker: Option<u64>,
) -> CursorState<T> {
    CursorState {
        current: next,
        previous: s.current,
        finished: next is None,
        marker: if next is None {
            marker
        } else {
            s.marker
        },
        buffer: s.buffer + items,
        fetching: false,
    }
}

/// The state after the fetch under way failed: it may be tried again from
/// the same place.
pub open spec fn page_failed<T>(s: CursorState<T>) -> CursorState<T> {
    CursorState { fetching: false, ..s }
}

fn clone_token(t: &Option<String>) -> (r: Option<String>)
    ensures
        r == *t,
{
    match t {
        Some(s) => Some(s.clone()),
        None => None,
    }
}

impl<T> Cursor<T> {
    /// A cursor at `start`: the first page where it is `None`.
    pub fn new(start: Option<String>) -> (r: Cursor<T>)
        ensures
            r@ == initial::<T>(opt_str(start)),
    {
        Cursor {
            current_token: start,
            previous_token: None,
            finished: false,
            terminal_marker: None,
            buffer: VecDeque::new(),
            fetching: false,
        }
    }

    /// Hands out the next buffered item, reports the end, asks for a fetch,
    /// or asks to wait for the fetch under way.
    pub fn next(&mut self) -> (r: Step<T>)
        ensures
            (final(self)@, r@) == next_step(old(self)@),
            old(self)@.finished && old(self)@.buffer.len() == 0 ==> r is End && final(self)@ == old(self)@,
    {
        match self.buffer.pop_front() {
            Some(x) => {
                assert(self.buffer@ =~= old(self)@.buffer.drop_first());
                return Step::Item(x);
            },
            None => {},
        }
        if self.finished {
            Step::End
        } else if self.fetching {
            Step::Wait
        } else {
            self.fetching = true;
            Step::Fetch(clone_token(&self.current_token))
        }
    }

    /// Whether a fetch is under way.
    pub fn is_fetching(&self) -> (r: bool)
        ensures
            r == self@.fetching,
    {
        self.fetching
    }

    /// Takes in the page that the fetch under way returned.
    pub fn fetch_succeeded(&mut self, items: Vec<T>, next_token: Option<String>, marker: Option<u64>)
        requires
            old(self)@.fetching,
        ensures
            final(self)@ == page_done(old(self)@, items@, opt_str(next_token), marker),
            final(self)@.previous == old(self)@.current,
    {
        let ghost all = items@;
        let mut items = items;
        let mut page: VecDeque<T> = VecDeque::new();
        while items.len() > 0
            invariant
                items@ + page@ == all,
            decreases items.len(),
        {
            let ghost before = items@;
            let x = items.pop().unwrap();
            page.push_front(x);
            assert(items@ + page@ =~= all) by {
                assert(before =~= items@.push(x));
            }
        }
        assert(page@ =~= all);
        self.buffer.append(&mut page);
        let prev = clone_token(&self.current_token);
        self.previous_token = prev;
        self.finished = next_token.is_none();
        if self.finished {
            self.terminal_marker = marker;
        }
        self.current_token = next_token;
        self.fetching = false;
    }

    /// Records that the fetch under way failed; the position is kept.
    pub fn fetch_failed(&mut self)
        requires
            old(self)@.fetching,
        ensures
            final(self)@ == page_failed(old(self)@),
    {
        self.fetching = false;
    }

    /// The token of the page that the buffered items came from: where to
    /// resume so that no unread item is lost.
    pub fn resume_token(&self) -> (r: Option<String>)
        ensures
            opt_str(r) == self@.previous,
    {
        clone_token(&self.previous_token)
    }

    /// Whether the last page has been fetched.
    pub fn is_finished(&self) -> (r: bool)
        ensures
            r == self@.finished,
    {
        self.finished
    }

    /// The marker of the last page, once it has been fetched.
    pub fn terminal_marker(&self) -> (r: Option<u64>)
        ensures
            r == self@.marker,
    {
        self.terminal_marker
    }
}

/// Once the last page is in, `next` never asks for a fetch again and the
/// cursor stays finished; once its buffer is empty as well, every further
/// `next` reports the end and leaves the cursor as it was.
pub proof fn lemma_end_is_final<T>(s: CursorState<T>)
    requires
        s.finished,
    ensures
        !(next_step(s).1 is Fetch),
        next_step(s).0.finished,
        s.buffer.len() == 0 ==> next_step(s).0 == s && next_step(s).1 is End,
{
}

/// The resume token after a page came in is the token that fetched it, and
/// handing out that page's items leaves it so.
pub proof fn lemma_resume_follows_fetch<T>(
    s: CursorState<T>,
    items: Seq<T>,
    next: Option<Seq<char>>,
    marker: Option<u64>,
)
    requires
        s.buffer.len() == 0,
        !s.finished,
        !s.fetching,
    ensures
        next_step(s).1 == StepView::<T>::Fetch(s.current),
        page_done(next_step(s).0, items, next, marker).previous == s.current,
        forall|t: CursorState<T>|
            #![trigger next_step(t)]
            next_step(t).0.previous == t.previous && next_step(t).0.current == t.current,
{
}

} // verus!

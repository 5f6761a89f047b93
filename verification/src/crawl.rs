//! The resumable crawl: accumulated state, the per-iteration decisions of the
//! controller, and a model of a whole crawl run with its durability laws.
//!
//! The controller itself never performs I/O. The surrounding driver restores
//! the prior state, asks [`CrawlState::is_complete`] and [`CrawlState::next_token`]
//! what to request, performs the one remote fetch, and reports the outcome to
//! [`CrawlState::append_page`]; the returned decision tells it when to write a
//! checkpoint and when to stop.

use vstd::prelude::*;
use crate::record::{Page, PageView};

verus! {

/// A checkpoint is written after every multiple of this many accumulated
/// pages, bounding redone work after an ungraceful kill.
pub const CHECKPOINT_INTERVAL: usize = 10;

/// The ordered pages accumulated by one crawl so far; the unit that the
/// checkpoint store persists and restores wholesale.
pub struct CrawlState {
    pub pages: Vec<Page>,
}

impl View for CrawlState {
    type V = Seq<PageView>;

    open spec fn view(&self) -> Seq<PageView> {
        self.pages.deep_view()
    }
}

/// The crawl is complete exactly when the most recent page carries no
/// continuation token.
pub open spec fn crawl_complete(pages: Seq<PageView>) -> bool {
    pages.len() > 0 && pages.last().next_page_token is None
}

/// The continuation token the next page request must carry: the last page's
/// token, or the empty string when no page has been fetched yet.
pub open spec fn resume_token(pages: Seq<PageView>) -> Seq<char> {
    if pages.len() == 0 {
        Seq::empty()
    } else {
        pages.last().next_page_token.unwrap()
    }
}

/// What the driver must do after one page was appended.
#[derive(PartialEq, Eq, Structural, Clone, Copy, Debug)]
pub enum AppendDecision {
    /// Write a checkpoint and stop fetching: the interrupt signal was seen.
    SaveAndStop,
    /// Write a checkpoint and keep fetching: the periodic cadence was reached.
    SaveAndContinue,
    /// Keep fetching without a checkpoint.
    Continue,
}

/// The decision taken right after the crawl holds `n` pages, with the
/// interrupt flag as polled at that safe point: an interrupt always wins,
/// otherwise a checkpoint is due at every multiple of the cadence.
pub open spec fn append_decision(n: nat, interrupted: bool) -> AppendDecision {
    if interrupted {
        AppendDecision::SaveAndStop
    } else if n % (CHECKPOINT_INTERVAL as nat) == 0 {
        AppendDecision::SaveAndContinue
    } else {
        AppendDecision::Continue
    }
}

impl CrawlState {
    /// The empty state a crawl starts from when no checkpoint exists.
    pub fn new() -> (s: CrawlState)
        ensures
            s@ == Seq::<PageView>::empty(),
    {
        let s = CrawlState { pages: Vec::new() };
        proof {
            assert(s@ =~= Seq::<PageView>::empty());
        }
        s
    }

    /// A state restored from previously persisted pages.
    pub fn from_pages(pages: Vec<Page>) -> (s: CrawlState)
        ensures
            s@ == pages.deep_view(),
    {
        CrawlState { pages }
    }

    pub fn len(&self) -> (n: usize)
        ensures
            n == self@.len(),
    {
        self.pages.len()
    }

    /// True when the accumulated pages end in a page without a continuation
    /// token, the crawl's only terminal signal.
    pub fn is_complete(&self) -> (r: bool)
        ensures
            r == crawl_complete(self@),
    {
        match self.pages.last() {
            None => false,
            Some(last) => last.next_page_token.is_none(),
        }
    }

    /// The token for the next page request; the empty string asks for the
    /// first page. Resuming never re-fetches what is already held: the
    /// request continues exactly where the last page left off.
    pub fn next_token(&self) -> (t: String)
        requires
            !crawl_complete(self@),
        ensures
            t@ == resume_token(self@),
    {
        match self.pages.last() {
            None => {
                let t = String::new();
                proof {
                    assert(t@ =~= resume_token(self@));
                }
                t
            }
            Some(last) => match &last.next_page_token {
                Some(token) => token.clone(),
                None => {
                    // unreachable: the state is not complete
                    proof {
                        assert(false);
                    }
                    String::new()
                }
            },
        }
    }

    /// Records one successfully fetched page and decides what the driver does
    /// next, from the interrupt flag polled at this page boundary.
    pub fn append_page(&mut self, page: Page, interrupted: bool) -> (d: AppendDecision)
        ensures
            final(self)@ == old(self)@.push(page@),
            d == append_decision(old(self)@.len() + 1, interrupted),
    {
        let ghost prev = self@;
        self.pages.push(page);
        proof {
            assert(self@ =~= prev.push(self.pages[prev.len() as int]@));
        }
        if interrupted {
            AppendDecision::SaveAndStop
        } else if self.pages.len() % CHECKPOINT_INTERVAL == 0 {
            AppendDecision::SaveAndContinue
        } else {
            AppendDecision::Continue
        }
    }
}

/// One outcome of a page request, as seen by the crawl loop: a page together
/// with the interrupt flag polled right after it was appended, or a remote
/// failure (the remote call's own retries are assumed exhausted; it is not
/// retried here).
pub enum FetchEvent {
    Fetched { page: PageView, interrupted: bool },
    Failed,
}

/// Everything observable of one crawl run: the continuation tokens of the
/// requests issued, the states handed to the checkpoint store, in order, and
/// the state held when the run stopped.
pub struct RunTrace {
    pub requests: Seq<Seq<char>>,
    pub saves: Seq<Seq<PageView>>,
    pub state: Seq<PageView>,
}

/// The whole crawl loop as a mathematical function of the restored state and
/// the stream of fetch outcomes. It mirrors the driver exactly: while the
/// state is not complete it issues one request with [`resume_token`]; a
/// failure checkpoints what was gathered and aborts; a fetched page is
/// appended and [`append_decision`] says whether to checkpoint and whether to
/// stop; a complete state is checkpointed and the run is done. A run with a
/// spent event stream stops without a further save (the process ended some
/// other way; the cadence bounds what such an ending can lose).
pub open spec fn crawl_run(pages: Seq<PageView>, events: Seq<FetchEvent>) -> RunTrace
    decreases events.len(),
{
    if crawl_complete(pages) {
        RunTrace { requests: Seq::empty(), saves: seq![pages], state: pages }
    } else if events.len() == 0 {
        RunTrace { requests: Seq::empty(), saves: Seq::empty(), state: pages }
    } else {
        let tok = resume_token(pages);
        match events[0] {
            FetchEvent::Failed => RunTrace {
                requests: seq![tok],
                saves: seq![pages],
                state: pages,
            },
            FetchEvent::Fetched { page, interrupted } => {
                let grown = pages.push(page);
                if append_decision(grown.len(), interrupted) == AppendDecision::SaveAndStop {
                    RunTrace { requests: seq![tok], saves: seq![grown], state: grown }
                } else {
                    let rest = crawl_run(grown, events.skip(1));
                    let here: Seq<Seq<PageView>> = if append_decision(grown.len(), interrupted)
                        == AppendDecision::SaveAndContinue {
                        seq![grown]
                    } else {
                        Seq::empty()
                    };
                    RunTrace {
                        requests: seq![tok] + rest.requests,
                        saves: here + rest.saves,
                        state: rest.state,
                    }
                }
            }
        }
    }
}

/// Resume correctness, part one: restarting from a state whose last page
/// carries a continuation token issues its first request with exactly that
/// token — never a token of an earlier page — and what that request fetches
/// becomes the next page, directly after the pages already held.
pub proof fn lemma_resume_uses_last_token(pages: Seq<PageView>, events: Seq<FetchEvent>)
    requires
        pages.len() > 0,
        pages.last().next_page_token is Some,
        events.len() > 0,
    ensures
        crawl_run(pages, events).requests.len() > 0,
        crawl_run(pages, events).requests[0] == pages.last().next_page_token.unwrap(),
        match events[0] {
            FetchEvent::Fetched { page, interrupted } => crawl_run(pages, events).state.len()
                > pages.len() && crawl_run(pages, events).state[pages.len() as int] == page,
            FetchEvent::Failed => true,
        },
{
    match events[0] {
        FetchEvent::Failed => {}
        FetchEvent::Fetched { page, interrupted } => {
            let grown = pages.push(page);
            if append_decision(grown.len(), interrupted) != AppendDecision::SaveAndStop {
                lemma_run_preserves_prefix(grown, events.skip(1));
                let rest = crawl_run(grown, events.skip(1));
                assert(rest.state.take(grown.len() as int)[pages.len() as int]
                    == rest.state[pages.len() as int]);
            }
        }
    }
}

/// Interrupt durability: when the interrupt flag is first seen right after
/// some page was appended, before any cadence checkpoint was due, the run
/// writes exactly one checkpoint, holding exactly the pages fetched so far,
/// and issues no further request.
pub proof fn lemma_interrupt_durability(pages: Seq<PageView>, events: Seq<FetchEvent>)
    requires
        !crawl_complete(pages),
        events.len() >= 1,
        pages.len() + events.len() < CHECKPOINT_INTERVAL as nat,
        forall|i: int|
            0 <= i < events.len() ==> match #[trigger] events[i] {
                FetchEvent::Fetched { page, interrupted } => (interrupted <==> i == events.len()
                    - 1) && (i < events.len() - 1 ==> page.next_page_token is Some),
                FetchEvent::Failed => false,
            },
    ensures
        crawl_run(pages, events).state.len() == pages.len() + events.len(),
        crawl_run(pages, events).saves =~= seq![crawl_run(pages, events).state],
        crawl_run(pages, events).requests.len() == events.len(),
    decreases events.len(),
{
    let tr = crawl_run(pages, events);
    assert(events[0] matches FetchEvent::Fetched { .. });
    match events[0] {
        FetchEvent::Failed => {}
        FetchEvent::Fetched { page, interrupted } => {
            let grown = pages.push(page);
            if events.len() == 1 {
                assert(interrupted);
                assert(append_decision(grown.len(), interrupted) == AppendDecision::SaveAndStop);
            } else {
                assert(!interrupted);
                assert(grown.len() % (CHECKPOINT_INTERVAL as nat) != 0);
                assert(append_decision(grown.len(), interrupted) == AppendDecision::Continue);
                assert(!crawl_complete(grown));
                let tail = events.skip(1);
                assert forall|i: int|
                    0 <= i < tail.len() implies match #[trigger] tail[i] {
                        FetchEvent::Fetched { page, interrupted } => (interrupted <==> i
                            == tail.len() - 1) && (i < tail.len() - 1
                            ==> page.next_page_token is Some),
                        FetchEvent::Failed => false,
                    } by {
                    assert(tail[i] == events[i + 1]);
                }
                lemma_interrupt_durability(grown, tail);
            }
        }
    }
}

/// True when some checkpoint in `saves` holds exactly `m` pages.
pub open spec fn has_save_of_len(saves: Seq<Seq<PageView>>, m: nat) -> bool {
    exists|j: int| 0 <= j < saves.len() && (#[trigger] saves[j]).len() == m
}

/// Checkpoint cadence: a crawl that runs to completion without interruption
/// or failure writes the checkpoint store at least once, writes it after
/// every multiple of [`CHECKPOINT_INTERVAL`] accumulated pages, and writes the
/// full final state last.
pub proof fn lemma_checkpoint_cadence(pages: Seq<PageView>, events: Seq<FetchEvent>)
    requires
        !crawl_complete(pages),
        events.len() >= 1,
        forall|i: int|
            0 <= i < events.len() ==> match #[trigger] events[i] {
                FetchEvent::Fetched { page, interrupted } => !interrupted && (
                page.next_page_token is Some <==> i < events.len() - 1),
                FetchEvent::Failed => false,
            },
    ensures
        crawl_run(pages, events).state.len() == pages.len() + events.len(),
        crawl_run(pages, events).saves.len() >= 1,
        crawl_run(pages, events).saves.last() == crawl_run(pages, events).state,
        forall|m: nat|
            pages.len() < m <= pages.len() + events.len() && m % (CHECKPOINT_INTERVAL as nat) == 0
                ==> #[trigger] has_save_of_len(crawl_run(pages, events).saves, m),
    decreases events.len(),
{
    let tr = crawl_run(pages, events);
    assert(events[0] matches FetchEvent::Fetched { .. });
    match events[0] {
        FetchEvent::Failed => {}
        FetchEvent::Fetched { page, interrupted } => {
            let grown = pages.push(page);
            assert(append_decision(grown.len(), interrupted) != AppendDecision::SaveAndStop);
            let rest = crawl_run(grown, events.skip(1));
            let here: Seq<Seq<PageView>> = if append_decision(grown.len(), interrupted)
                == AppendDecision::SaveAndContinue {
                seq![grown]
            } else {
                Seq::empty()
            };
            if events.len() == 1 {
                assert(page.next_page_token is None);
                assert(crawl_complete(grown));
                assert(rest.saves =~= seq![grown]);
                assert(tr.saves =~= here + seq![grown]);
                assert(tr.saves.last() == grown);
                assert forall|m: nat|
                    pages.len() < m <= pages.len() + events.len() && m % (
                    CHECKPOINT_INTERVAL as nat) == 0 implies #[trigger] has_save_of_len(
                    tr.saves,
                    m,
                ) by {
                    assert(m == grown.len());
                    assert(tr.saves[tr.saves.len() - 1].len() == m);
                }
            } else {
                assert(page.next_page_token is Some);
                assert(!crawl_complete(grown));
                let tail = events.skip(1);
                assert forall|i: int|
                    0 <= i < tail.len() implies match #[trigger] tail[i] {
                        FetchEvent::Fetched { page, interrupted } => !interrupted && (
                        page.next_page_token is Some <==> i < tail.len() - 1),
                        FetchEvent::Failed => false,
                    } by {
                    assert(tail[i] == events[i + 1]);
                }
                lemma_checkpoint_cadence(grown, tail);
                assert(tr.saves =~= here + rest.saves);
                assert(tr.saves.last() == rest.saves.last());
                assert forall|m: nat|
                    pages.len() < m <= pages.len() + events.len() && m % (
                    CHECKPOINT_INTERVAL as nat) == 0 implies #[trigger] has_save_of_len(
                    tr.saves,
                    m,
                ) by {
                    if m == grown.len() {
                        assert(here =~= seq![grown]);
                        assert(tr.saves[0].len() == m);
                    } else {
                        assert(grown.len() < m <= grown.len() + tail.len());
                        assert(has_save_of_len(rest.saves, m));
                        let j = choose|j: int|
                            0 <= j < rest.saves.len() && (#[trigger] rest.saves[j]).len() == m;
                        assert(tr.saves[here.len() + j].len() == m);
                    }
                }
            }
        }
    }
}

/// Resume correctness, part two: a run only ever appends, so the restored
/// pages stay an untouched prefix of the final state and of every checkpoint
/// written — pages already held are never re-fetched or replaced.
pub proof fn lemma_run_preserves_prefix(pages: Seq<PageView>, events: Seq<FetchEvent>)
    ensures
        crawl_run(pages, events).state.len() >= pages.len(),
        crawl_run(pages, events).state.take(pages.len() as int) == pages,
        forall|j: int|
            0 <= j < crawl_run(pages, events).saves.len() ==> {
                let s = #[trigger] crawl_run(pages, events).saves[j];
                s.len() >= pages.len() && s.take(pages.len() as int) == pages
            },
    decreases events.len(),
{
    assert(pages.take(pages.len() as int) =~= pages);
    if crawl_complete(pages) {
    } else if events.len() == 0 {
    } else {
        match events[0] {
            FetchEvent::Failed => {}
            FetchEvent::Fetched { page, interrupted } => {
                let grown = pages.push(page);
                assert(grown.take(pages.len() as int) =~= pages);
                if append_decision(grown.len(), interrupted) == AppendDecision::SaveAndStop {
                } else {
                    lemma_run_preserves_prefix(grown, events.skip(1));
                    let rest = crawl_run(grown, events.skip(1));
                    assert forall|j: int| 0 <= j < rest.saves.len() implies {
                        let s = #[trigger] rest.saves[j];
                        s.len() >= pages.len() && s.take(pages.len() as int) == pages
                    } by {
                        assert(rest.saves[j].take(grown.len() as int) == grown);
                        assert(rest.saves[j].take(pages.len() as int)
                            =~= rest.saves[j].take(grown.len() as int).take(pages.len() as int));
                    }
                }
            }
        }
    }
}

} // verus!

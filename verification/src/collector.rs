use vstd::prelude::*;
use vstd::string::StringExecFns;
use crate::item::{Item, ids_distinct, seq_contains_id, contains_id};

verus! {

/// Which remote ranking the collector requests; orthogonal to everything
/// else the collector does.
#[derive(Clone, Copy, PartialEq, Eq, Structural)]
pub enum OrderingMode {
    Hot,
    Latest,
    Top,
}

/// Pagination position within one collection run: either not yet
/// positioned (before the first page arrives, or while no item has been
/// appended yet), or advancing forward from a token derived from the last
/// item appended.
pub enum CursorState {
    Start,
    Advancing { token: String },
}

/// What the surrounding program must do next on behalf of the collector.
pub enum Action {
    /// Wait for the configured inter-request interval, then report the
    /// wait back through `record_pause`.
    Pause,
    /// Request one page of at most `page_size` items from the source,
    /// continuing from `cursor` (`None` before any item was seen), and
    /// hand the page back through `ingest_page`.
    Fetch { page_size: usize, cursor: Option<String> },
    /// The run is over; take the result through `finish`.
    Done,
}

/// The items of `page` appended to `acc` in source order, where each page
/// item whose identifier already occurs — in `acc` or among the page items
/// appended before it — is dropped.
pub open spec fn dedup_append(acc: Seq<Item>, page: Seq<Item>) -> Seq<Item>
    decreases page.len(),
{
    if page.len() == 0 {
        acc
    } else if seq_contains_id(acc, page[0].id@) {
        dedup_append(acc, page.drop_first())
    } else {
        dedup_append(acc.push(page[0]), page.drop_first())
    }
}

/// One bounded collection run against a paginated, sliding-window source:
/// the result collection, the dedup state implicit in it, the cursor, and
/// the pacing and termination bookkeeping. The surrounding program drives
/// it by asking for the next action, performing it, and reporting back.
pub struct Collector {
    /// Items accepted so far, in source order, identifiers all distinct.
    pub items: Vec<Item>,
    /// The ranking this run requests from the source.
    pub mode: OrderingMode,
    /// How many items the run is asked to deliver.
    pub target: usize,
    /// Where the next page continues from.
    pub cursor: CursorState,
    /// The source returned an empty page: no more new items will surface.
    pub exhausted: bool,
    /// A pacing delay is owed before the next fetch.
    pub pause_due: bool,
    /// Pages ingested so far.
    pub pages_fetched: u64,
    /// Pacing delays recorded so far.
    pub delays_done: u64,
    /// Page items dropped because their identifier was already seen.
    pub duplicates: u64,
}

impl Collector {
    /// Every state the collector can reach: no two accepted items share
    /// an identifier, and a pacing delay has been recorded between any
    /// two consecutive page fetches.
    pub open spec fn wf(self) -> bool {
        &&& ids_distinct(self.items@)
        &&& self.pages_fetched == self.delays_done + (if self.pause_due {
            1int
        } else {
            0int
        })
    }

    /// The run is over: the source is exhausted or the target is reached.
    pub open spec fn done_spec(self) -> bool {
        self.exhausted || self.items@.len() >= self.target
    }

    /// Size of the next page to request: the remote maximum of 100, or
    /// what is still missing if that is less.
    pub open spec fn page_size_spec(self) -> int {
        let remaining = self.target - self.items@.len();
        if remaining < 100 {
            remaining
        } else {
            100
        }
    }

    /// A fresh run: nothing collected, cursor unset, no pages, no delays.
    pub fn new(mode: OrderingMode, target: usize) -> (c: Collector)
        ensures
            c.wf(),
            c.items@ == Seq::<Item>::empty(),
            c.mode == mode,
            c.target == target,
            c.cursor is Start,
            !c.exhausted,
            !c.pause_due,
            c.pages_fetched == 0,
            c.delays_done == 0,
            c.duplicates == 0,
    {
        Collector {
            items: Vec::new(),
            mode,
            target,
            cursor: CursorState::Start,
            exhausted: false,
            pause_due: false,
            pages_fetched: 0,
            delays_done: 0,
            duplicates: 0,
        }
    }

    /// The run is over: the source is exhausted or the target is reached.
    pub fn is_done(&self) -> (r: bool)
        ensures
            r == self.done_spec(),
    {
        self.exhausted || self.items.len() >= self.target
    }

    /// What the surrounding program must do next: finish when the run is
    /// over, pace when a delay is owed, otherwise fetch the next page at
    /// the current cursor.
    pub fn next_action(&self) -> (a: Action)
        ensures
            self.done_spec() ==> a is Done,
            !self.done_spec() && self.pause_due ==> a is Pause,
            !self.done_spec() && !self.pause_due ==> {
                &&& a is Fetch
                &&& a->page_size == self.page_size_spec()
                &&& (self.cursor is Start ==> a->cursor is None)
                &&& (self.cursor matches CursorState::Advancing { token } ==> (a->cursor
                    matches Some(t) && t@ == token@))
            },
    {
        if self.is_done() {
            Action::Done
        } else if self.pause_due {
            Action::Pause
        } else {
            let remaining = self.target - self.items.len();
            let page_size = if remaining < 100 {
                remaining
            } else {
                100
            };
            let cursor = match &self.cursor {
                CursorState::Start => None,
                CursorState::Advancing { token } => Some(token.clone()),
            };
            Action::Fetch { page_size, cursor }
        }
    }

    /// Records the pacing delay the surrounding program has just
    /// performed; everything else is unchanged.
    pub fn record_pause(&mut self)
        requires
            old(self).wf(),
            old(self).pause_due,
        ensures
            final(self).wf(),
            !final(self).pause_due,
            final(self).delays_done == old(self).delays_done + 1,
            final(self).items == old(self).items,
            final(self).mode == old(self).mode,
            final(self).target == old(self).target,
            final(self).cursor == old(self).cursor,
            final(self).exhausted == old(self).exhausted,
            final(self).pages_fetched == old(self).pages_fetched,
            final(self).duplicates == old(self).duplicates,
    {
        self.delays_done = self.delays_done + 1;
        self.pause_due = false;
    }

    /// Ingests one page from the source, in source order: items whose
    /// identifier was already seen are dropped and counted as duplicates,
    /// the rest are appended; the cursor advances to a token derived from
    /// the last item appended; an empty page marks the source exhausted;
    /// and a pacing delay becomes due before the next fetch.
    pub fn ingest_page(&mut self, page: Vec<Item>)
        requires
            old(self).wf(),
            !old(self).done_spec(),
            !old(self).pause_due,
            old(self).pages_fetched < u64::MAX,
            old(self).duplicates + page@.len() <= u64::MAX,
        ensures
            final(self).wf(),
            final(self).items@ == dedup_append(old(self).items@, page@),
            final(self).exhausted == (page@.len() == 0),
            final(self).pause_due,
            final(self).pages_fetched == old(self).pages_fetched + 1,
            final(self).delays_done == old(self).delays_done,
            final(self).duplicates == old(self).duplicates + page@.len() - (
            final(self).items@.len() - old(self).items@.len()),
            final(self).mode == old(self).mode,
            final(self).target == old(self).target,
            final(self).items@.len() > old(self).items@.len() ==> {
                &&& final(self).cursor is Advancing
                &&& final(self).cursor->token@ == "t3_"@ + final(self).items@.last().id@
            },
            final(self).items@.len() == old(self).items@.len() ==> final(self).cursor == old(self).cursor,
    {
        let ghost pseq = page@;
        let empty_page = page.len() == 0;
        let old_len = self.items.len();
        let mut page = page;
        let ghost mut k: int = 0;

        while page.len() > 0
            invariant
                0 <= k <= pseq.len(),
                page@ == pseq.skip(k),
                self.items@ == dedup_append(old(self).items@, pseq.take(k)),
                ids_distinct(self.items@),
                old_len == old(self).items@.len(),
                old_len <= self.items@.len(),
                self.duplicates == old(self).duplicates + k - (self.items@.len() - old_len),
                old(self).duplicates + pseq.len() <= u64::MAX,
                self.mode == old(self).mode,
                self.target == old(self).target,
                self.cursor == old(self).cursor,
                self.exhausted == old(self).exhausted,
                self.pause_due == old(self).pause_due,
                self.pages_fetched == old(self).pages_fetched,
                self.delays_done == old(self).delays_done,
            decreases page@.len(),
        {
            let it = page.remove(0);
            proof {
                assert(it == pseq[k]);
                assert(page@ =~= pseq.skip(k + 1));
                assert(pseq.take(k + 1) =~= pseq.take(k).push(pseq[k]));
                lemma_dedup_append_push(old(self).items@, pseq.take(k), pseq[k]);
            }
            if contains_id(&self.items, &it.id) {
                self.duplicates = self.duplicates + 1;
            } else {
                proof {
                    lemma_push_fresh_keeps_distinct(self.items@, it);
                }
                self.items.push(it);
            }
            proof {
                k = k + 1;
            }
        }
        proof {
            assert(pseq.take(k) =~= pseq);
        }

        if self.items.len() > old_len {
            let last = &self.items[self.items.len() - 1];
            let token = "t3_".to_owned().concat(last.id.as_str());
            self.cursor = CursorState::Advancing { token };
        }
        self.exhausted = empty_page;
        self.pages_fetched = self.pages_fetched + 1;
        self.pause_due = true;
    }

    /// Ends the run: the collection, trimmed to the target count. The
    /// result has the full target length unless the source was exhausted,
    /// and never two items with one identifier.
    pub fn finish(self) -> (r: Vec<Item>)
        requires
            self.wf(),
            self.done_spec(),
        ensures
            ids_distinct(r@),
            r@.len() <= self.target,
            !self.exhausted ==> r@.len() == self.target,
            r@ == if self.items@.len() <= self.target {
                self.items@
            } else {
                self.items@.take(self.target as int)
            },
    {
        let mut items = self.items;
        items.truncate(self.target);
        proof {
            if self.target as int <= self.items@.len() {
                lemma_take_keeps_distinct(self.items@, self.target as int);
            }
        }
        items
    }
}

/// Appending an item whose identifier does not yet occur keeps the
/// identifiers distinct.
proof fn lemma_push_fresh_keeps_distinct(s: Seq<Item>, it: Item)
    requires
        ids_distinct(s),
        !seq_contains_id(s, it.id@),
    ensures
        ids_distinct(s.push(it)),
{
    let t = s.push(it);
    assert forall|i: int, j: int| 0 <= i < j < t.len() implies t[i].id@ != t[j].id@ by {
        if j == s.len() {
            assert(t[i] == s[i]);
            assert(!(s[i].id@ == it.id@)) by {
                if s[i].id@ == it.id@ {
                    assert(seq_contains_id(s, it.id@));
                }
            }
        } else {
            assert(t[i] == s[i] && t[j] == s[j]);
        }
    }
}

/// A prefix of a sequence with distinct identifiers has distinct
/// identifiers.
proof fn lemma_take_keeps_distinct(s: Seq<Item>, n: int)
    requires
        ids_distinct(s),
        0 <= n <= s.len(),
    ensures
        ids_distinct(s.take(n)),
{
    let t = s.take(n);
    assert forall|i: int, j: int| 0 <= i < j < t.len() implies t[i].id@ != t[j].id@ by {
        assert(t[i] == s[i] && t[j] == s[j]);
    }
}

/// Deduplicating appends distribute over extending the page by one item:
/// the item lands at the end exactly when its identifier is still fresh
/// with respect to everything accumulated before it.
proof fn lemma_dedup_append_push(acc: Seq<Item>, s: Seq<Item>, x: Item)
    ensures
        dedup_append(acc, s.push(x)) == if seq_contains_id(dedup_append(acc, s), x.id@) {
            dedup_append(acc, s)
        } else {
            dedup_append(acc, s).push(x)
        },
    decreases s.len(),
{
    if s.len() == 0 {
        assert(s.push(x)[0] == x);
        assert(s.push(x).drop_first() =~= Seq::<Item>::empty());
        assert(dedup_append(acc, Seq::<Item>::empty()) == acc);
        assert(dedup_append(acc.push(x), Seq::<Item>::empty()) == acc.push(x));
        assert(dedup_append(acc, s) == acc);
    } else {
        assert(s.push(x)[0] == s[0]);
        assert(s.push(x).drop_first() =~= s.drop_first().push(x));
        if seq_contains_id(acc, s[0].id@) {
            lemma_dedup_append_push(acc, s.drop_first(), x);
        } else {
            lemma_dedup_append_push(acc.push(s[0]), s.drop_first(), x);
        }
    }
}

/// Deduplication law: however the pages overlap what was already
/// collected — or themselves — a collection with distinct identifiers
/// still has distinct identifiers after a deduplicating append.
pub proof fn lemma_dedup_append_distinct(acc: Seq<Item>, page: Seq<Item>)
    requires
        ids_distinct(acc),
    ensures
        ids_distinct(dedup_append(acc, page)),
    decreases page.len(),
{
    if page.len() > 0 {
        if seq_contains_id(acc, page[0].id@) {
            lemma_dedup_append_distinct(acc, page.drop_first());
        } else {
            lemma_push_fresh_keeps_distinct(acc, page[0]);
            lemma_dedup_append_distinct(acc.push(page[0]), page.drop_first());
        }
    }
}

/// Pacing law: in every reachable collector state at least
/// `pages_fetched - 1` pacing delays have been recorded, so across `N`
/// page fetches at least `N - 1` delays separate consecutive remote
/// calls.
pub proof fn lemma_pacing(c: Collector)
    requires
        c.wf(),
    ensures
        c.pages_fetched <= c.delays_done + 1,
{
}

} // verus!

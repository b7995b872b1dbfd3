//! The datagrams that wait for a frame, in two levels of priority.
use crate::frame::{Data, DataEntry};
use crate::MTU;
use std::collections::VecDeque;
use vstd::prelude::*;

verus! {

/// A datagram that waits for a frame. A reliable one waits as long as it takes.
#[derive(Debug)]
pub struct SendEntry {
    pub data: DataEntry,
    pub reliable: bool,
}

/// Two queues: what has high priority leaves first.
#[derive(Debug)]
pub struct SendQueue {
    high_priority: VecDeque<SendEntry>,
    low_priority: VecDeque<SendEntry>,
}

/// The contents of a send queue, each level from front to back.
#[verifier::ext_equal]
pub struct SendQueueView {
    pub high: Seq<SendEntry>,
    pub low: Seq<SendEntry>,
}

/// The entries of `s` whose flag in `kept` is set, in order.
pub open spec fn select<A>(s: Seq<A>, kept: Seq<bool>) -> Seq<A>
    decreases s.len(),
{
    if s.len() == 0 {
        Seq::empty()
    } else if kept[s.len() - 1] {
        select(s.drop_last(), kept).push(s.last())
    } else {
        select(s.drop_last(), kept)
    }
}

/// `kept` is an answer that `f` may give about the entries of `s`, one by one.
pub open spec fn answers<F: FnMut(&SendEntry) -> bool>(
    f: F,
    s: Seq<SendEntry>,
    kept: Seq<bool>,
) -> bool {
    &&& kept.len() == s.len()
    &&& forall|i: int|
        #![trigger kept[i]]
        0 <= i < s.len() ==> call_ensures(f, (&s[i],), kept[i])
}

/// Only the flags of the entries themselves matter to a selection.
proof fn lemma_select_prefix<A>(s: Seq<A>, a: Seq<bool>, b: Seq<bool>)
    requires
        s.len() <= a.len(),
        s.len() <= b.len(),
        forall|i: int| 0 <= i < s.len() ==> a[i] == b[i],
    ensures
        select(s, a) == select(s, b),
    decreases s.len(),
{
    if s.len() > 0 {
        lemma_select_prefix(s.drop_last(), a, b);
    }
}

/// A selection by the value of a predicate is a filter.
pub proof fn lemma_select_is_filter<A>(s: Seq<A>, kept: Seq<bool>, p: spec_fn(A) -> bool)
    requires
        kept.len() == s.len(),
        forall|i: int| 0 <= i < s.len() ==> kept[i] == p(s[i]),
    ensures
        select(s, kept) == s.filter(p),
    decreases s.len(),
{
    reveal(Seq::filter);
    if s.len() > 0 {
        lemma_select_is_filter(s.drop_last(), kept.drop_last(), p);
        lemma_select_prefix(s.drop_last(), kept, kept.drop_last());
    }
}

/// Every datagram fits a frame of its own.
pub open spec fn all_fit(entries: Seq<SendEntry>) -> bool {
    forall|i: int|
        0 <= i < entries.len() ==> Data::HEADER_SIZE_BYTES + (
        #[trigger] entries[i]).data.bytes@.len() <= MTU
}

impl SendQueueView {
    /// All entries in the order in which they leave.
    pub open spec fn order(self) -> Seq<SendEntry> {
        self.high + self.low
    }

    /// The contents after the first `n` entries have left.
    pub open spec fn without_front(self, n: nat) -> SendQueueView {
        if n <= self.high.len() {
            SendQueueView { high: self.high.skip(n as int), low: self.low }
        } else {
            SendQueueView { high: Seq::empty(), low: self.low.skip(n - self.high.len()) }
        }
    }

    /// The contents without the unreliable entries.
    pub open spec fn reliable_only(self) -> SendQueueView {
        SendQueueView {
            high: self.high.filter(|e: SendEntry| e.reliable),
            low: self.low.filter(|e: SendEntry| e.reliable),
        }
    }
}

impl View for SendQueue {
    type V = SendQueueView;

    closed spec fn view(&self) -> SendQueueView {
        SendQueueView { high: self.high_priority@, low: self.low_priority@ }
    }
}

impl SendEntry {
    pub fn new(data: DataEntry, reliable: bool) -> (entry: Self)
        ensures
            entry.data == data,
            entry.reliable == reliable,
    {
        Self { data, reliable }
    }
}

/// Keeps the entries of `queue` for which `f` returns true.
fn retain_in<F>(queue: &mut VecDeque<SendEntry>, f: F) where F: FnMut(&SendEntry) -> bool
    requires
        forall|i: int|
            #![trigger old(queue)@[i]]
            0 <= i < old(queue)@.len() ==> call_requires(f, (&old(queue)@[i],)),
    ensures
        exists|kept: Seq<bool>| #[trigger]
            answers(f, old(queue)@, kept) && final(queue)@ == select(old(queue)@, kept),
{
    let ghost asked = f;
    let mut f = f;
    let mut left: usize = queue.len();
    let ghost all = queue@;
    let ghost mut kept: Seq<bool> = Seq::empty();
    assert(all.take(0) =~= Seq::empty());
    while left > 0
        invariant
            f == asked,
            all == old(queue)@,
            left <= all.len(),
            kept.len() == all.len() - left,
            queue@ == all.skip(all.len() - left) + select(all.take(all.len() - left), kept),
            forall|i: int|
                #![trigger all[i]]
                0 <= i < all.len() ==> call_requires(f, (&all[i],)),
            forall|i: int|
                #![trigger kept[i]]
                0 <= i < kept.len() ==> call_ensures(f, (&all[i],), kept[i]),
        decreases left,
    {
        let ghost done: int = all.len() - left;
        let ghost selected = select(all.take(done), kept);
        assert(queue@[0] == all[done]);
        if let Some(entry) = queue.pop_front() {
            assert(queue@ =~= all.skip(done + 1) + selected);
            let keep = f(&entry);
            proof {
                let next = kept.push(keep);
                assert(all.take(done + 1).drop_last() =~= all.take(done));
                lemma_select_prefix(all.take(done), kept, next);
                kept = next;
            }
            if keep {
                queue.push_back(entry);
                assert(queue@ =~= all.skip(done + 1) + selected.push(entry));
            }
        }
        left -= 1;
    }
    proof {
        assert(all.take(all.len() as int) =~= all);
        assert(all.skip(all.len() as int) =~= Seq::empty());
        assert(queue@ =~= select(all, kept));
        assert(answers(f, all, kept));
    }
}

/// Whether every datagram of `queue` fits a frame of its own.
fn queue_fits(queue: &VecDeque<SendEntry>) -> (fits: bool)
    ensures
        fits == all_fit(queue@),
{
    let mut i: usize = 0;
    while i < queue.len()
        invariant
            i <= queue@.len(),
            forall|j: int|
                0 <= j < i ==> Data::HEADER_SIZE_BYTES + (#[trigger] queue@[j]).data.bytes@.len()
                    <= MTU,
        decreases queue@.len() - i,
    {
        if queue[i].data.encoded_size() > MTU - Data::HEADER_SIZE_BYTES {
            return false;
        }
        i += 1;
    }
    true
}

impl SendQueue {
    pub fn new() -> (queue: Self)
        ensures
            queue@ == (SendQueueView { high: Seq::empty(), low: Seq::empty() }),
    {
        Self { high_priority: VecDeque::new(), low_priority: VecDeque::new() }
    }

    pub fn push_high_priority(&mut self, entry: SendEntry)
        ensures
            final(self)@ == (SendQueueView { high: old(self)@.high.push(entry), ..old(self)@ }),
    {
        self.high_priority.push_back(entry);
    }

    pub fn push_low_priority(&mut self, entry: SendEntry)
        ensures
            final(self)@ == (SendQueueView { low: old(self)@.low.push(entry), ..old(self)@ }),
    {
        self.low_priority.push_back(entry);
    }

    pub fn is_empty(&self) -> (empty: bool)
        ensures
            empty == (self@.order().len() == 0),
    {
        self.high_priority.len() == 0 && self.low_priority.len() == 0
    }

    /// The entry that leaves next.
    pub fn front(&self) -> (entry: Option<&SendEntry>)
        ensures
            entry == (if self@.order().len() > 0 {
                Some(&self@.order()[0])
            } else {
                None
            }),
    {
        if self.high_priority.len() > 0 {
            Some(&self.high_priority[0])
        } else if self.low_priority.len() > 0 {
            Some(&self.low_priority[0])
        } else {
            None
        }
    }

    /// Takes out the entry that leaves next.
    pub fn pop_front(&mut self) -> (entry: Option<SendEntry>)
        ensures
            entry == (if old(self)@.order().len() > 0 {
                Some(old(self)@.order()[0])
            } else {
                None
            }),
            final(self)@ == (if old(self)@.order().len() > 0 {
                old(self)@.without_front(1)
            } else {
                old(self)@
            }),
    {
        if self.high_priority.len() > 0 {
            self.high_priority.pop_front()
        } else {
            self.low_priority.pop_front()
        }
    }

    /// Keeps the entries for which `f` returns true, and asks it once about each.
    pub fn retain<F>(&mut self, f: F) where F: FnMut(&SendEntry) -> bool + Copy
        requires
            forall|i: int|
                #![trigger old(self)@.order()[i]]
                0 <= i < old(self)@.order().len() ==> call_requires(f, (&old(self)@.order()[i],)),
        ensures
            exists|kept: Seq<bool>| #[trigger]
                answers(f, old(self)@.high, kept) && final(self)@.high == select(
                    old(self)@.high,
                    kept,
                ),
            exists|kept: Seq<bool>| #[trigger]
                answers(f, old(self)@.low, kept) && final(self)@.low == select(
                    old(self)@.low,
                    kept,
                ),
    {
        assert forall|i: int| #![trigger self.high_priority@[i]]
            0 <= i < self.high_priority@.len() implies call_requires(
            f,
            (&self.high_priority@[i],),
        ) by {
            assert(self@.order()[i] == self.high_priority@[i]);
        }
        assert forall|i: int| #![trigger self.low_priority@[i]]
            0 <= i < self.low_priority@.len() implies call_requires(
            f,
            (&self.low_priority@[i],),
        ) by {
            assert(self@.order()[self.high_priority@.len() + i] == self.low_priority@[i]);
        }
        retain_in(&mut self.high_priority, f);
        let ghost kept = choose|kept: Seq<bool>| #[trigger]
            answers(f, old(self)@.high, kept) && self@.high == select(old(self)@.high, kept);
        retain_in(&mut self.low_priority, f);
        assert(answers(f, old(self)@.high, kept));
    }

    /// Whether every datagram fits a frame of its own.
    pub fn datagrams_fit(&self) -> (fit: bool)
        ensures
            fit == all_fit(self@.order()),
    {
        let fit = queue_fits(&self.high_priority) && queue_fits(&self.low_priority);
        proof {
            let order = self@.order();
            let n = self@.high.len();
            if fit {
                assert forall|i: int| 0 <= i < order.len() implies Data::HEADER_SIZE_BYTES + (
                #[trigger] order[i]).data.bytes@.len() <= MTU by {
                    assert(order[i] == if i < n {
                        self@.high[i]
                    } else {
                        self@.low[i - n]
                    });
                }
            }
            if all_fit(order) {
                assert forall|i: int| 0 <= i < n implies Data::HEADER_SIZE_BYTES + (
                #[trigger] self@.high[i]).data.bytes@.len() <= MTU by {
                    assert(order[i] == self@.high[i]);
                }
                assert forall|i: int| 0 <= i < self@.low.len() implies Data::HEADER_SIZE_BYTES + (
                #[trigger] self@.low[i]).data.bytes@.len() <= MTU by {
                    assert(order[n + i] == self@.low[i]);
                }
            }
        }
        fit
    }
}

} // verus!

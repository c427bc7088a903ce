//! The broadcaster's decisions: which input lines get a sequence id, and when
//! to stop reading. Only the broadcaster mints ids; providers never do.

use vstd::prelude::*;

verus! {

/// How many requests a run sends when nothing else is configured.
pub fn default_count() -> (r: usize)
    ensures
        r == 1000,
{
    1_000
}

/// The ids handed out for a stream of lines, given which of them parsed:
/// each parsed line gets the next id until `max_count` ids are out; lines
/// that did not parse get none.
pub open spec fn delivered(parsed: Seq<bool>, max_count: nat) -> Seq<u64>
    decreases parsed.len(),
{
    if parsed.len() == 0 {
        Seq::empty()
    } else {
        let prev = delivered(parsed.drop_last(), max_count);
        if parsed.last() && prev.len() < max_count {
            prev.push(prev.len() as u64)
        } else {
            prev
        }
    }
}

/// What the broadcaster has seen: whether each line so far parsed.
pub struct BroadcastState {
    pub seen: Seq<bool>,
    pub max_count: nat,
}

pub open spec fn sent_count(s: BroadcastState) -> nat {
    delivered(s.seen, s.max_count).len()
}

/// What to do with a line just read.
#[derive(Clone, Copy, Debug, PartialEq, Eq, Structural)]
pub enum LineAction {
    /// Hand the parsed request to every provider under this id.
    Deliver(u64),
    /// The line did not parse: report it and read on.
    Skip,
    /// The limit is reached: close every provider's queue.
    Stop,
}

pub struct Broadcaster {
    sent: usize,
    max_count: usize,
    seen: Ghost<Seq<bool>>,
}

impl View for Broadcaster {
    type V = BroadcastState;

    closed spec fn view(&self) -> BroadcastState {
        BroadcastState { seen: self.seen@, max_count: self.max_count as nat }
    }
}

impl Broadcaster {
    #[verifier::type_invariant]
    spec fn inv(&self) -> bool {
        &&& self.sent == delivered(self.seen@, self.max_count as nat).len()
        &&& self.sent <= self.max_count
    }

    pub fn new(max_count: usize) -> (r: Broadcaster)
        ensures
            r@.seen == Seq::<bool>::empty(),
            r@.max_count == max_count,
    {
        Broadcaster { sent: 0, max_count, seen: Ghost(Seq::empty()) }
    }

    /// How many requests have been delivered.
    pub fn sent(&self) -> (r: usize)
        ensures
            r == sent_count(self@),
    {
        proof {
            use_type_invariant(self);
        }
        self.sent
    }

    /// Whether the limit is reached, so that no more lines are read.
    pub fn is_done(&self) -> (r: bool)
        ensures
            r == (sent_count(self@) >= self@.max_count),
    {
        proof {
            use_type_invariant(self);
        }
        self.sent >= self.max_count
    }

    /// Decides on one input line, given whether it parsed. A parsed line gets
    /// the next id; a malformed one is skipped and uses up no id; once the
    /// limit is reached every line is refused and the state stays put.
    pub fn on_line(&mut self, parsed: bool) -> (r: LineAction)
        ensures
            sent_count(old(self)@) >= old(self)@.max_count ==> r == LineAction::Stop
                && final(self)@ == old(self)@,
            sent_count(old(self)@) < old(self)@.max_count ==> {
                &&& final(self)@.seen == old(self)@.seen.push(parsed)
                &&& final(self)@.max_count == old(self)@.max_count
                &&& parsed ==> r == LineAction::Deliver(sent_count(old(self)@) as u64)
                &&& !parsed ==> r == LineAction::Skip
            },
    {
        proof {
            use_type_invariant(&*self);
        }
        if self.sent >= self.max_count {
            return LineAction::Stop;
        }
        let ghost seen = self.seen@.push(parsed);
        assert(seen.drop_last() =~= self.seen@);
        if parsed {
            let id = self.sent as u64;
            *self = Broadcaster { sent: self.sent + 1, max_count: self.max_count, seen: Ghost(seen) };
            LineAction::Deliver(id)
        } else {
            self.seen = Ghost(seen);
            LineAction::Skip
        }
    }
}

/// Ids are handed out as 0, 1, 2, ... with no gap, whatever malformed lines
/// come between the parsed ones, and never more than the limit.
pub proof fn lemma_ids_without_gaps(parsed: Seq<bool>, max_count: nat)
    requires
        max_count <= u64::MAX,
    ensures
        delivered(parsed, max_count).len() <= max_count,
        forall|i: int|
            0 <= i < delivered(parsed, max_count).len() ==> #[trigger] delivered(
                parsed,
                max_count,
            )[i] == i,
    decreases parsed.len(),
{
    if parsed.len() > 0 {
        lemma_ids_without_gaps(parsed.drop_last(), max_count);
        let prev = delivered(parsed.drop_last(), max_count);
        assert forall|i: int| 0 <= i < delivered(parsed, max_count).len() implies #[trigger] delivered(
            parsed,
            max_count,
        )[i] == i by {
            if i < prev.len() {
                assert(prev[i] == i);
            }
        }
    }
}

} // verus!

//! A provider's results: one entry per sequence id, kept in the order the
//! requests arrived. Filled by that provider's worker and nobody else.

use vstd::prelude::*;
use crate::broadcast::{delivered, lemma_ids_without_gaps};
use crate::envelope::{Envelope, EnvelopeModel, call_count};
use crate::outcome::{Outcome, OutcomeModel, models};

verus! {

/// What one provider recorded for one request.
pub struct Entry {
    pub seq: u64,
    pub request: Envelope,
    /// One outcome per call of the request, in the order of the calls.
    pub outcomes: Vec<Outcome>,
    pub elapsed_ms: u64,
}

pub struct EntryModel {
    pub seq: u64,
    pub request: EnvelopeModel,
    pub outcomes: Seq<OutcomeModel>,
    pub elapsed_ms: u64,
}

impl View for Entry {
    type V = EntryModel;

    open spec fn view(&self) -> EntryModel {
        EntryModel {
            seq: self.seq,
            request: self.request@,
            outcomes: models(self.outcomes@),
            elapsed_ms: self.elapsed_ms,
        }
    }
}

pub open spec fn entry_models(v: Seq<Entry>) -> Seq<EntryModel> {
    v.map_values(|e: Entry| e@)
}

/// Sequence ids strictly increase along the entries, so none occurs twice.
pub open spec fn ids_increasing(s: Seq<EntryModel>) -> bool {
    forall|i: int, j: int| 0 <= i < j < s.len() ==> s[i].seq < s[j].seq
}

/// The id the next entry is expected to carry: one past the last, or zero.
pub open spec fn next_expected(s: Seq<EntryModel>) -> int {
    if s.len() == 0 {
        0
    } else {
        s.last().seq + 1
    }
}

/// The first entry with the given id, if any.
pub open spec fn lookup(s: Seq<EntryModel>, seq: u64) -> Option<EntryModel>
    decreases s.len(),
{
    if s.len() == 0 {
        None
    } else if s[0].seq == seq {
        Some(s[0])
    } else {
        lookup(s.drop_first(), seq)
    }
}

/// In a result set, looking up the id of an entry finds that entry.
pub proof fn lemma_lookup_own(s: Seq<EntryModel>, i: int)
    requires
        ids_increasing(s),
        0 <= i < s.len(),
    ensures
        lookup(s, s[i].seq) == Some(s[i]),
    decreases s.len(),
{
    if i > 0 {
        assert(s[0].seq < s[i].seq);
        assert(s.drop_first()[i - 1] == s[i]);
        lemma_lookup_own(s.drop_first(), i - 1);
    }
}

/// Two lists of entries that differ at most in their elapsed times.
pub open spec fn same_records(a: Seq<EntryModel>, b: Seq<EntryModel>) -> bool {
    &&& a.len() == b.len()
    &&& forall|i: int|
        0 <= i < a.len() ==> {
            &&& (#[trigger] a[i]).seq == b[i].seq
            &&& a[i].request == b[i].request
            &&& a[i].outcomes == b[i].outcomes
        }
}

/// Looking an id up in lists that differ only in elapsed times finds
/// corresponding entries.
pub proof fn lemma_lookup_same(a: Seq<EntryModel>, b: Seq<EntryModel>, seq: u64)
    requires
        same_records(a, b),
    ensures
        lookup(a, seq) is None <==> lookup(b, seq) is None,
        lookup(a, seq) matches Some(x) ==> lookup(b, seq) matches Some(y) && x.seq == y.seq
            && x.request == y.request && x.outcomes == y.outcomes,
    decreases a.len(),
{
    if a.len() > 0 {
        assert(a[0].seq == b[0].seq);
        if a[0].seq != seq {
            assert forall|i: int| 0 <= i < a.drop_first().len() implies {
                &&& (#[trigger] a.drop_first()[i]).seq == b.drop_first()[i].seq
                &&& a.drop_first()[i].request == b.drop_first()[i].request
                &&& a.drop_first()[i].outcomes == b.drop_first()[i].outcomes
            } by {
                assert(a[i + 1].seq == b[i + 1].seq);
            }
            lemma_lookup_same(a.drop_first(), b.drop_first(), seq);
        }
    }
}

/// A worker that records, in arrival order, exactly the ids the broadcaster
/// handed out finds each one to be the next expected id, so every record
/// succeeds with nothing skipped; the ids of its result set are then exactly
/// the ids broadcast, each once.
pub proof fn lemma_complete_delivery(parsed: Seq<bool>, max_count: nat, s: Seq<EntryModel>)
    requires
        max_count <= u64::MAX,
        s.len() == delivered(parsed, max_count).len(),
        forall|i: int| 0 <= i < s.len() ==> (#[trigger] s[i]).seq == delivered(parsed, max_count)[i],
    ensures
        forall|i: int| 0 <= i < s.len() ==> (#[trigger] s[i]).seq == next_expected(s.take(i)),
        ids_increasing(s),
        s.map_values(|e: EntryModel| e.seq).to_set() == delivered(parsed, max_count).to_set(),
{
    lemma_ids_without_gaps(parsed, max_count);
    let d = delivered(parsed, max_count);
    assert forall|i: int| 0 <= i < s.len() implies (#[trigger] s[i]).seq == next_expected(s.take(i)) by {
        assert(d[i] == i);
        if i > 0 {
            assert(d[i - 1] == i - 1);
            assert(s.take(i).last() == s[i - 1]);
        }
    }
    assert forall|i: int, j: int| 0 <= i < j < s.len() implies s[i].seq < s[j].seq by {
        assert(d[i] == i);
        assert(d[j] == j);
    }
    assert(s.map_values(|e: EntryModel| e.seq) =~= d);
}

/// Why an entry was not recorded.
#[derive(Clone, Copy, Debug, PartialEq, Eq, Structural)]
pub enum RecordError {
    /// The id is not past the last recorded one: a duplicate or a reordering.
    OutOfOrder,
    /// The number of outcomes differs from the number of calls in the request.
    ShapeMismatch,
}

/// A provider's mapping from sequence id to request, outcomes and time.
pub struct ResultSet {
    entries: Vec<Entry>,
}

impl View for ResultSet {
    type V = Seq<EntryModel>;

    closed spec fn view(&self) -> Seq<EntryModel> {
        entry_models(self.entries@)
    }
}

impl ResultSet {
    #[verifier::type_invariant]
    spec fn inv(&self) -> bool {
        ids_increasing(entry_models(self.entries@))
    }

    pub fn new() -> (r: ResultSet)
        ensures
            r@ == Seq::<EntryModel>::empty(),
    {
        let r = ResultSet { entries: Vec::new() };
        assert(r@ =~= Seq::<EntryModel>::empty());
        r
    }

    /// The recorded entries, in order; their ids strictly increase.
    pub fn entries(&self) -> (r: &Vec<Entry>)
        ensures
            entry_models(r@) == self@,
            ids_increasing(self@),
    {
        proof {
            use_type_invariant(self);
        }
        &self.entries
    }

    pub fn len(&self) -> (r: usize)
        ensures
            r == self@.len(),
    {
        self.entries.len()
    }

    /// Records the outcomes of one request. It is refused when the number of
    /// outcomes does not match the request's calls, or when the id is not
    /// past the last one recorded. On success, returns how many ids were
    /// skipped since the last entry (non-zero only when deliveries were lost).
    pub fn record(
        &mut self,
        seq: u64,
        request: Envelope,
        outcomes: Vec<Outcome>,
        elapsed_ms: u64,
    ) -> (r: Result<u64, RecordError>)
        ensures
            r is Ok <==> (outcomes@.len() == call_count(request@) && seq >= next_expected(
                old(self)@,
            )),
            r is Ok ==> final(self)@ == old(self)@.push(
                EntryModel {
                    seq,
                    request: request@,
                    outcomes: models(outcomes@),
                    elapsed_ms,
                },
            ),
            r matches Ok(skipped) ==> skipped == seq - next_expected(old(self)@),
            r matches Err(e) ==> final(self)@ == old(self)@ && (e == RecordError::ShapeMismatch
                <==> outcomes@.len() != call_count(request@)),
    {
        proof {
            use_type_invariant(&*self);
        }
        if outcomes.len() != request.calls() {
            return Err(RecordError::ShapeMismatch);
        }
        let n = self.entries.len();
        let next: u64 = if n == 0 {
            0
        } else {
            let last = self.entries[n - 1].seq;
            if last == u64::MAX {
                return Err(RecordError::OutOfOrder);
            }
            last + 1
        };
        proof {
            if n > 0 {
                assert(entry_models(self.entries@).last() == self.entries@[n - 1]@);
            }
        }
        if seq < next {
            return Err(RecordError::OutOfOrder);
        }
        let ghost before = self@;
        let entry = Entry { seq, request, outcomes, elapsed_ms };
        let mut taken = ResultSet::new();
        std::mem::swap(self, &mut taken);
        let mut entries = taken.entries;
        entries.push(entry);
        assert(entry_models(entries@) =~= before.push(entry@));
        *self = ResultSet { entries };
        Ok(seq - next)
    }

    /// The entry recorded under `seq`, if any.
    pub fn find(&self, seq: u64) -> (r: Option<&Entry>)
        ensures
            match r {
                Some(e) => lookup(self@, seq) == Some(e@),
                None => lookup(self@, seq) is None,
            },
    {
        let ghost s = self@;
        let mut i: usize = 0;
        assert(s.subrange(0, s.len() as int) =~= s);
        while i < self.entries.len()
            invariant
                s == entry_models(self.entries@),
                0 <= i <= s.len(),
                lookup(s, seq) == lookup(s.subrange(i as int, s.len() as int), seq),
            decreases self.entries.len() - i,
        {
            assert(s.subrange(i as int, s.len() as int)[0] == self.entries@[i as int]@);
            if self.entries[i].seq == seq {
                return Some(&self.entries[i]);
            }
            assert(s.subrange(i as int, s.len() as int).drop_first() =~= s.subrange(
                i + 1,
                s.len() as int,
            ));
            i += 1;
        }
        assert(s.subrange(i as int, s.len() as int) =~= Seq::<EntryModel>::empty());
        None
    }
}

} // verus!

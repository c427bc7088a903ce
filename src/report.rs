//! The comparison pass: every other provider's entries are diffed against the
//! baseline's (the first provider), and all outcomes are counted by text.

use vstd::prelude::*;
use crate::outcome::{Outcome, OutcomeModel, models, outcomes_agree, replies_agree, replies_match, duplicate_all};
use crate::results::{Entry, EntryModel, ResultSet, entry_models, lookup, ids_increasing, lemma_lookup_own, same_records, lemma_lookup_same};
use crate::tally::{
    tally_entries,
    reply_key,
    all_succeeded,
    Tables,
    Tally,
    tally_of,
    tally_sets,
    no_counts,
    entry_total,
    bounded,
    tally_keys,
};

verus! {

/// One provider's label (its address) and its results.
pub struct ProviderResults {
    pub label: String,
    pub results: ResultSet,
}

pub struct ProviderModel {
    pub label: Seq<char>,
    pub results: Seq<EntryModel>,
}

impl View for ProviderResults {
    type V = ProviderModel;

    open spec fn view(&self) -> ProviderModel {
        ProviderModel { label: self.label@, results: self.results@ }
    }
}

pub open spec fn provider_models(v: Seq<ProviderResults>) -> Seq<ProviderModel> {
    v.map_values(|p: ProviderResults| p@)
}

pub open spec fn result_sets(ps: Seq<ProviderModel>) -> Seq<Seq<EntryModel>> {
    ps.map_values(|p: ProviderModel| p.results)
}

/// How a provider's record for one id departs from the baseline's.
pub enum MismatchDetail {
    /// The provider has no entry for the id.
    Missing,
    /// The outcomes differ; both are kept.
    Differs { baseline: Vec<Outcome>, compared: Vec<Outcome> },
}

pub enum DetailModel {
    Missing,
    Differs { baseline: Seq<OutcomeModel>, compared: Seq<OutcomeModel> },
}

pub struct Mismatch {
    pub seq: u64,
    pub provider: String,
    pub detail: MismatchDetail,
}

pub struct MismatchModel {
    pub seq: u64,
    pub provider: Seq<char>,
    pub detail: DetailModel,
}

impl View for Mismatch {
    type V = MismatchModel;

    open spec fn view(&self) -> MismatchModel {
        MismatchModel {
            seq: self.seq,
            provider: self.provider@,
            detail: match self.detail {
                MismatchDetail::Missing => DetailModel::Missing,
                MismatchDetail::Differs { baseline, compared } => DetailModel::Differs {
                    baseline: models(baseline@),
                    compared: models(compared@),
                },
            },
        }
    }
}

pub open spec fn mismatch_models(v: Seq<Mismatch>) -> Seq<MismatchModel> {
    v.map_values(|m: Mismatch| m@)
}

/// The mismatch, if any, of one provider against one baseline entry.
pub open spec fn mismatch_of(b: EntryModel, other: ProviderModel) -> Option<MismatchModel> {
    match lookup(other.results, b.seq) {
        None => Some(MismatchModel { seq: b.seq, provider: other.label, detail: DetailModel::Missing }),
        Some(e) => if replies_agree(b.outcomes, e.outcomes) {
            None
        } else {
            Some(
                MismatchModel {
                    seq: b.seq,
                    provider: other.label,
                    detail: DetailModel::Differs { baseline: b.outcomes, compared: e.outcomes },
                },
            )
        },
    }
}

/// The mismatches of the given providers against one baseline entry, in
/// provider order.
pub open spec fn row(b: EntryModel, others: Seq<ProviderModel>) -> Seq<MismatchModel>
    decreases others.len(),
{
    if others.len() == 0 {
        Seq::empty()
    } else {
        let p = row(b, others.drop_last());
        match mismatch_of(b, others.last()) {
            Some(m) => p.push(m),
            None => p,
        }
    }
}

/// All mismatches: baseline entry by baseline entry, provider by provider.
pub open spec fn scan(bs: Seq<EntryModel>, others: Seq<ProviderModel>) -> Seq<MismatchModel>
    decreases bs.len(),
{
    if bs.len() == 0 {
        Seq::empty()
    } else {
        scan(bs.drop_last(), others) + row(bs.last(), others)
    }
}

/// A provider holds a different request than the baseline under the same id.
pub open spec fn conflicts(b: EntryModel, other: ProviderModel) -> bool {
    lookup(other.results, b.seq) matches Some(e) && e.request != b.request
}

/// Every id means the same request for every provider that has it.
pub open spec fn requests_consistent(bs: Seq<EntryModel>, others: Seq<ProviderModel>) -> bool {
    forall|i: int, j: int|
        0 <= i < bs.len() && 0 <= j < others.len() ==> !conflicts(#[trigger] bs[i], #[trigger] others[j])
}

/// The providers compared against the first one.
pub open spec fn others_of(ps: Seq<ProviderModel>) -> Seq<ProviderModel> {
    if ps.len() == 0 {
        Seq::empty()
    } else {
        ps.subrange(1, ps.len() as int)
    }
}

pub open spec fn baseline_of(ps: Seq<ProviderModel>) -> Seq<EntryModel> {
    if ps.len() == 0 {
        Seq::empty()
    } else {
        ps[0].results
    }
}

/// The result of a comparison pass.
pub struct ComparisonReport {
    pub mismatches: Vec<Mismatch>,
    /// How often each reply that succeeded throughout occurred, over all
    /// providers, keyed by its bodies in call order.
    pub successes: Tally,
    /// How often each reply with a failure occurred, over all providers,
    /// keyed by its texts (bodies and failure messages) in call order.
    pub errors: Tally,
}

/// What a report says: the mismatches and the two tables.
pub struct ReportModel {
    pub mismatches: Seq<MismatchModel>,
    pub successes: Map<Seq<Seq<char>>, nat>,
    pub errors: Map<Seq<Seq<char>>, nat>,
}

impl View for ComparisonReport {
    type V = ReportModel;

    open spec fn view(&self) -> ReportModel {
        ReportModel {
            mismatches: mismatch_models(self.mismatches@),
            successes: tally_of(self.successes),
            errors: tally_of(self.errors),
        }
    }
}

/// The report owed for these providers: mismatches against the first one,
/// and every reply counted once per request per provider.
pub open spec fn expected_report(ps: Seq<ProviderModel>) -> ReportModel {
    ReportModel {
        mismatches: scan(baseline_of(ps), others_of(ps)),
        successes: tally_sets(no_counts(), result_sets(ps), true),
        errors: tally_sets(no_counts(), result_sets(ps), false),
    }
}

/// Two lists of providers with the same labels, in the same order, whose
/// results differ at most in elapsed times.
pub open spec fn same_providers(a: Seq<ProviderModel>, b: Seq<ProviderModel>) -> bool {
    &&& a.len() == b.len()
    &&& forall|j: int|
        0 <= j < a.len() ==> (#[trigger] a[j]).label == b[j].label && same_records(
            a[j].results,
            b[j].results,
        )
}

proof fn lemma_drop_last_same(a: Seq<EntryModel>, b: Seq<EntryModel>)
    requires
        same_records(a, b),
        a.len() > 0,
    ensures
        same_records(a.drop_last(), b.drop_last()),
{
    assert forall|i: int| 0 <= i < a.drop_last().len() implies {
        &&& (#[trigger] a.drop_last()[i]).seq == b.drop_last()[i].seq
        &&& a.drop_last()[i].request == b.drop_last()[i].request
        &&& a.drop_last()[i].outcomes == b.drop_last()[i].outcomes
    } by {
        assert(a[i].seq == b[i].seq);
    }
}

proof fn lemma_row_same(b1: EntryModel, b2: EntryModel, o1: Seq<ProviderModel>, o2: Seq<ProviderModel>)
    requires
        b1.seq == b2.seq,
        b1.request == b2.request,
        b1.outcomes == b2.outcomes,
        same_providers(o1, o2),
    ensures
        row(b1, o1) == row(b2, o2),
        forall|j: int| 0 <= j < o1.len() ==> conflicts(b1, #[trigger] o1[j]) == conflicts(b2, o2[j]),
    decreases o1.len(),
{
    assert forall|j: int| 0 <= j < o1.len() implies conflicts(b1, #[trigger] o1[j]) == conflicts(b2, o2[j]) by {
        assert(o1[j].label == o2[j].label);
        lemma_lookup_same(o1[j].results, o2[j].results, b1.seq);
    }
    if o1.len() > 0 {
        assert forall|j: int| 0 <= j < o1.drop_last().len() implies (#[trigger] o1.drop_last()[j]).label
            == o2.drop_last()[j].label && same_records(o1.drop_last()[j].results, o2.drop_last()[j].results) by {
            assert(o1[j].label == o2[j].label);
        }
        lemma_row_same(b1, b2, o1.drop_last(), o2.drop_last());
        assert(o1.last().label == o2.last().label);
        lemma_lookup_same(o1.last().results, o2.last().results, b1.seq);
    }
}

proof fn lemma_scan_same(
    bs1: Seq<EntryModel>,
    bs2: Seq<EntryModel>,
    o1: Seq<ProviderModel>,
    o2: Seq<ProviderModel>,
)
    requires
        same_records(bs1, bs2),
        same_providers(o1, o2),
    ensures
        scan(bs1, o1) == scan(bs2, o2),
        requests_consistent(bs1, o1) == requests_consistent(bs2, o2),
    decreases bs1.len(),
{
    assert forall|i: int, j: int| 0 <= i < bs1.len() && 0 <= j < o1.len() implies conflicts(
        #[trigger] bs1[i],
        #[trigger] o1[j],
    ) == conflicts(bs2[i], o2[j]) by {
        assert(bs1[i].seq == bs2[i].seq);
        lemma_row_same(bs1[i], bs2[i], o1, o2);
    }
    if requests_consistent(bs1, o1) {
        assert forall|i: int, j: int| 0 <= i < bs2.len() && 0 <= j < o2.len() implies !conflicts(
            #[trigger] bs2[i],
            #[trigger] o2[j],
        ) by {
            assert(!conflicts(bs1[i], o1[j]));
        }
    }
    if requests_consistent(bs2, o2) {
        assert forall|i: int, j: int| 0 <= i < bs1.len() && 0 <= j < o1.len() implies !conflicts(
            #[trigger] bs1[i],
            #[trigger] o1[j],
        ) by {
            assert(!conflicts(bs2[i], o2[j]));
        }
    }
    if bs1.len() > 0 {
        lemma_drop_last_same(bs1, bs2);
        lemma_scan_same(bs1.drop_last(), bs2.drop_last(), o1, o2);
        assert(bs1.last().seq == bs2.last().seq);
        lemma_row_same(bs1.last(), bs2.last(), o1, o2);
    }
}

proof fn lemma_tally_entries_same(m: Map<Seq<Seq<char>>, nat>, a: Seq<EntryModel>, b: Seq<EntryModel>, w: bool)
    requires
        same_records(a, b),
    ensures
        tally_entries(m, a, w) == tally_entries(m, b, w),
    decreases a.len(),
{
    if a.len() > 0 {
        lemma_drop_last_same(a, b);
        lemma_tally_entries_same(m, a.drop_last(), b.drop_last(), w);
        assert(a.last().outcomes == b.last().outcomes);
    }
}

proof fn lemma_tally_sets_same(m: Map<Seq<Seq<char>>, nat>, a: Seq<ProviderModel>, b: Seq<ProviderModel>, w: bool)
    requires
        same_providers(a, b),
    ensures
        tally_sets(m, result_sets(a), w) == tally_sets(m, result_sets(b), w),
    decreases a.len(),
{
    if a.len() > 0 {
        assert(result_sets(a).drop_last() =~= result_sets(a.drop_last()));
        assert(result_sets(b).drop_last() =~= result_sets(b.drop_last()));
        assert forall|j: int| 0 <= j < a.drop_last().len() implies (#[trigger] a.drop_last()[j]).label
            == b.drop_last()[j].label && same_records(a.drop_last()[j].results, b.drop_last()[j].results) by {
            assert(a[j].label == b[j].label);
        }
        lemma_tally_sets_same(m, a.drop_last(), b.drop_last(), w);
        assert(a.last().label == b.last().label);
        lemma_tally_entries_same(
            tally_sets(m, result_sets(a.drop_last()), w),
            a.last().results,
            b.last().results,
            w,
        );
    }
}

/// Two comparison runs over providers with the same labels whose results
/// differ at most in elapsed times give the same verdict on consistency, the
/// same mismatches in the same order and the same tables: nothing but the
/// recorded ids, requests and outcomes decides a report.
pub proof fn lemma_comparison_repeatable(ps1: Seq<ProviderModel>, ps2: Seq<ProviderModel>)
    requires
        same_providers(ps1, ps2),
    ensures
        expected_report(ps1) == expected_report(ps2),
        requests_consistent(baseline_of(ps1), others_of(ps1)) == requests_consistent(
            baseline_of(ps2),
            others_of(ps2),
        ),
{
    if ps1.len() > 0 {
        assert(ps1[0].label == ps2[0].label);
        assert forall|j: int| 0 <= j < others_of(ps1).len() implies (#[trigger] others_of(ps1)[j]).label
            == others_of(ps2)[j].label && same_records(others_of(ps1)[j].results, others_of(ps2)[j].results) by {
            assert(ps1[j + 1].label == ps2[j + 1].label);
        }
        lemma_scan_same(baseline_of(ps1), baseline_of(ps2), others_of(ps1), others_of(ps2));
    }
    lemma_tally_sets_same(no_counts(), ps1, ps2, true);
    lemma_tally_sets_same(no_counts(), ps1, ps2, false);
}

/// The same id maps to different requests for two providers: the requests
/// were not broadcast faithfully.
#[derive(Debug)]
pub struct Inconsistency {
    pub seq: u64,
    pub provider: String,
}

impl ComparisonReport {
    /// Exactly one distinct successful reply and no failure at all.
    pub fn fully_consistent(&self) -> (r: bool)
        ensures
            r == (tally_of(self.successes).dom().len() == 1 && tally_of(self.errors).dom().len()
                == 0),
    {
        tally_keys(&self.successes) == 1 && tally_keys(&self.errors) == 0
    }
}

/// Appends the mismatches of every provider but the first against one
/// baseline entry, or fails on a provider that holds another request under
/// the same id.
fn compare_entry(
    b: &Entry,
    providers: &Vec<ProviderResults>,
    out: &mut Vec<Mismatch>,
) -> (r: Result<(), Inconsistency>)
    requires
        providers@.len() >= 1,
    ensures
        r is Ok <==> forall|j: int|
            0 <= j < others_of(provider_models(providers@)).len() ==> !conflicts(
                b@,
                #[trigger] others_of(provider_models(providers@))[j],
            ),
        r matches Err(e) ==> exists|j: int|
            0 <= j < others_of(provider_models(providers@)).len() && conflicts(
                b@,
                #[trigger] others_of(provider_models(providers@))[j],
            ) && e.seq == b@.seq && e.provider@ == others_of(provider_models(providers@))[j].label,
        r is Ok ==> mismatch_models(final(out)@) == mismatch_models(old(out)@) + row(
            b@,
            others_of(provider_models(providers@)),
        ),
{
    let ghost ps = provider_models(providers@);
    let ghost others = others_of(ps);
    let ghost start = mismatch_models(out@);
    let mut j: usize = 1;
    assert(others.take(0) =~= Seq::<ProviderModel>::empty());
    while j < providers.len()
        invariant
            1 <= j <= providers.len(),
            ps == provider_models(providers@),
            others == others_of(ps),
            mismatch_models(out@) == start + row(b@, others.take(j - 1)),
            forall|k: int| 0 <= k < j - 1 ==> !conflicts(b@, #[trigger] others[k]),
        decreases providers.len() - j,
    {
        let ghost o = others.take(j as int);
        assert(o.drop_last() =~= others.take(j - 1));
        assert(o.last() == providers@[j as int]@);
        let other = &providers[j];
        match other.results.find(b.seq) {
            None => {
                let ghost before = out@;
                out.push(Mismatch { seq: b.seq, provider: other.label.clone(), detail: MismatchDetail::Missing });
                assert(mismatch_models(out@) =~= mismatch_models(before).push(out@.last()@));
            },
            Some(e) => {
                if !e.request.same_as(&b.request) {
                    assert(conflicts(b@, others[j - 1]));
                    return Err(Inconsistency { seq: b.seq, provider: other.label.clone() });
                }
                if !replies_match(&b.outcomes, &e.outcomes) {
                    let ghost before = out@;
                    let baseline = duplicate_all(&b.outcomes);
                    let compared = duplicate_all(&e.outcomes);
                    out.push(
                        Mismatch {
                            seq: b.seq,
                            provider: other.label.clone(),
                            detail: MismatchDetail::Differs { baseline, compared },
                        },
                    );
                    assert(mismatch_models(out@) =~= mismatch_models(before).push(out@.last()@));
                }
            },
        }
        j += 1;
    }
    assert(others.take(j - 1) =~= others);
    Ok(())
}

/// Diffs every provider against the first, and counts every reply once per
/// request per provider. It fails, naming the id and the provider, when one
/// id stands for different requests at two providers.
pub fn compare(providers: &Vec<ProviderResults>) -> (r: Result<ComparisonReport, Inconsistency>)
    requires
        entry_total(result_sets(provider_models(providers@))) < usize::MAX,
    ensures
        r is Ok <==> requests_consistent(
            baseline_of(provider_models(providers@)),
            others_of(provider_models(providers@)),
        ),
        r matches Ok(rep) ==> rep@ == expected_report(provider_models(providers@)),
        r matches Err(e) ==> exists|i: int, j: int|
            0 <= i < baseline_of(provider_models(providers@)).len() && 0 <= j < others_of(
                provider_models(providers@),
            ).len() && conflicts(
                #[trigger] baseline_of(provider_models(providers@))[i],
                #[trigger] others_of(provider_models(providers@))[j],
            ) && e.seq == baseline_of(provider_models(providers@))[i].seq && e.provider@
                == others_of(provider_models(providers@))[j].label,
{
    let ghost ps = provider_models(providers@);
    let mut mismatches: Vec<Mismatch> = Vec::new();
    if providers.len() > 0 {
        let base = providers[0].results.entries();
        let ghost bs = baseline_of(ps);
        assert(bs == entry_models(base@));
        let mut i: usize = 0;
        assert(bs.take(0) =~= Seq::<EntryModel>::empty());
        while i < base.len()
            invariant
                0 <= i <= base.len(),
                providers@.len() >= 1,
                ps == provider_models(providers@),
                bs == entry_models(base@),
                bs == baseline_of(ps),
                mismatch_models(mismatches@) == scan(bs.take(i as int), others_of(ps)),
                forall|a: int, k: int|
                    0 <= a < i && 0 <= k < others_of(ps).len() ==> !conflicts(
                        #[trigger] bs[a],
                        #[trigger] others_of(ps)[k],
                    ),
            decreases base.len() - i,
        {
            assert(bs.take(i + 1).drop_last() =~= bs.take(i as int));
            assert(bs.take(i + 1).last() == base@[i as int]@);
            match compare_entry(&base[i], providers, &mut mismatches) {
                Ok(()) => {},
                Err(e) => {
                    proof {
                        let j = choose|j: int|
                            0 <= j < others_of(ps).len() && conflicts(
                                base@[i as int]@,
                                #[trigger] others_of(ps)[j],
                            ) && e.seq == base@[i as int]@.seq && e.provider@ == others_of(ps)[j].label;
                        assert(conflicts(bs[i as int], others_of(ps)[j]));
                    }
                    return Err(e);
                },
            }
            i += 1;
        }
        assert(bs.take(i as int) =~= bs);
    } else {
        assert(mismatch_models(mismatches@) =~= Seq::<MismatchModel>::empty());
    }
    let mut tables = Tables::new();
    let ghost sets = result_sets(ps);
    let mut p: usize = 0;
    assert(sets.take(0) =~= Seq::<Seq<EntryModel>>::empty());
    while p < providers.len()
        invariant
            0 <= p <= providers.len(),
            ps == provider_models(providers@),
            sets == result_sets(ps),
            mismatch_models(mismatches@) == scan(baseline_of(ps), others_of(ps)),
            entry_total(sets) < usize::MAX,
            entry_total(sets.take(p as int)) <= entry_total(sets),
            tally_of(tables.successes) == tally_sets(no_counts(), sets.take(p as int), true),
            tally_of(tables.errors) == tally_sets(no_counts(), sets.take(p as int), false),
            bounded(tally_of(tables.successes), entry_total(sets.take(p as int))),
            bounded(tally_of(tables.errors), entry_total(sets.take(p as int))),
        decreases providers.len() - p,
    {
        assert(sets.take(p + 1).drop_last() =~= sets.take(p as int));
        assert(sets.take(p + 1).last() == providers@[p as int].results@);
        proof {
            lemma_sets_total_prefix(sets, p + 1);
        }
        let es = providers[p].results.entries();
        assert(es@.len() == sets[p as int].len());
        tables.count_entries(es, Ghost(entry_total(sets.take(p as int))));
        p += 1;
    }
    assert(sets.take(p as int) =~= sets);
    let rep = ComparisonReport { mismatches, successes: tables.successes, errors: tables.errors };
    assert(rep@ == expected_report(ps));
    Ok(rep)
}

proof fn lemma_row_empty(s: Seq<EntryModel>, i: int, others: Seq<ProviderModel>)
    requires
        ids_increasing(s),
        0 <= i < s.len(),
        forall|j: int| 0 <= j < others.len() ==> same_records(s, (#[trigger] others[j]).results),
    ensures
        row(s[i], others) == Seq::<MismatchModel>::empty(),
        forall|j: int| 0 <= j < others.len() ==> !conflicts(s[i], #[trigger] others[j]),
    decreases others.len(),
{
    lemma_lookup_own(s, i);
    assert forall|k: int| 0 <= k < s[i].outcomes.len() implies outcomes_agree(
        #[trigger] s[i].outcomes[k],
        s[i].outcomes[k],
    ) by {}
    if others.len() > 0 {
        lemma_row_empty(s, i, others.drop_last());
        lemma_lookup_same(s, others.last().results, s[i].seq);
        assert forall|j: int| 0 <= j < others.len() implies !conflicts(s[i], #[trigger] others[j]) by {
            if j < others.len() - 1 {
                assert(others.drop_last()[j] == others[j]);
            }
        }
    }
}

proof fn lemma_scan_empty(s: Seq<EntryModel>, n: int, others: Seq<ProviderModel>)
    requires
        ids_increasing(s),
        0 <= n <= s.len(),
        forall|j: int| 0 <= j < others.len() ==> same_records(s, (#[trigger] others[j]).results),
    ensures
        scan(s.take(n), others) == Seq::<MismatchModel>::empty(),
        requests_consistent(s.take(n), others),
    decreases n,
{
    if n > 0 {
        lemma_scan_empty(s, n - 1, others);
        assert(s.take(n).drop_last() =~= s.take(n - 1));
        lemma_row_empty(s, n - 1, others);
        assert(scan(s.take(n), others) =~= Seq::<MismatchModel>::empty());
        assert forall|i: int, j: int|
            0 <= i < n && 0 <= j < others.len() implies !conflicts(
            #[trigger] s.take(n)[i],
            #[trigger] others[j],
        ) by {
            if i < n - 1 {
                assert(s.take(n - 1)[i] == s.take(n)[i]);
            }
        }
    }
}

/// Every request, at every provider, got a reply that succeeded throughout
/// and is counted under `k`.
pub open spec fn all_replies_are(sets: Seq<Seq<EntryModel>>, k: Seq<Seq<char>>) -> bool {
    forall|p: int, e: int|
        0 <= p < sets.len() && 0 <= e < sets[p].len() ==> {
            &&& reply_key((#[trigger] sets[p][e]).outcomes) == k
            &&& all_succeeded(sets[p][e].outcomes)
        }
}

pub open spec fn count_in(m: Map<Seq<Seq<char>>, nat>, k: Seq<Seq<char>>) -> nat {
    if m.contains_key(k) {
        m[k]
    } else {
        0
    }
}

proof fn lemma_uniform_entries(m: Map<Seq<Seq<char>>, nat>, es: Seq<EntryModel>, k: Seq<Seq<char>>)
    requires
        forall|e: int|
            0 <= e < es.len() ==> reply_key((#[trigger] es[e]).outcomes) == k && all_succeeded(
                es[e].outcomes,
            ),
    ensures
        tally_entries(m, es, false) == m,
        tally_entries(m, es, true) == if es.len() > 0 {
            m.insert(k, count_in(m, k) + es.len())
        } else {
            m
        },
    decreases es.len(),
{
    if es.len() > 0 {
        let prev = es.drop_last();
        assert forall|e: int| 0 <= e < prev.len() implies reply_key((#[trigger] prev[e]).outcomes) == k
            && all_succeeded(prev[e].outcomes) by {
            assert(prev[e] == es[e]);
        }
        lemma_uniform_entries(m, prev, k);
        assert(es.last() == es[es.len() - 1]);
        assert(tally_entries(m, es, true) =~= m.insert(k, count_in(m, k) + es.len()));
    }
}

proof fn lemma_uniform_sets(m: Map<Seq<Seq<char>>, nat>, sets: Seq<Seq<EntryModel>>, k: Seq<Seq<char>>)
    requires
        all_replies_are(sets, k),
    ensures
        tally_sets(m, sets, false) == m,
        tally_sets(m, sets, true) == if entry_total(sets) > 0 {
            m.insert(k, count_in(m, k) + entry_total(sets))
        } else {
            m
        },
    decreases sets.len(),
{
    if sets.len() > 0 {
        let prev = sets.drop_last();
        assert forall|p: int, e: int| 0 <= p < prev.len() && 0 <= e < prev[p].len() implies {
            &&& reply_key((#[trigger] prev[p][e]).outcomes) == k
            &&& all_succeeded(prev[p][e].outcomes)
        } by {
            assert(prev[p] == sets[p]);
        }
        lemma_uniform_sets(m, prev, k);
        let last = sets.last();
        assert forall|e: int| 0 <= e < last.len() implies reply_key((#[trigger] last[e]).outcomes) == k
            && all_succeeded(last[e].outcomes) by {
            assert(sets[sets.len() - 1][e] == last[e]);
        }
        lemma_uniform_entries(tally_sets(m, prev, true), last, k);
        lemma_uniform_entries(tally_sets(m, prev, false), last, k);
        assert(tally_sets(m, sets, true) =~= if entry_total(sets) > 0 {
            m.insert(k, count_in(m, k) + entry_total(sets))
        } else {
            m
        });
    }
}

/// Providers that recorded the same ids, requests and outcomes (their
/// elapsed times may differ) show no mismatch and no inconsistency. When
/// moreover every request got one and the same reply `k`, succeeding
/// throughout, the table of successes holds `k` alone, counted once per
/// request per provider, and the table of errors is empty: the run is fully
/// consistent.
pub proof fn lemma_identical_providers_agree(ps: Seq<ProviderModel>, k: Seq<Seq<char>>)
    requires
        ps.len() >= 2,
        ids_increasing(ps[0].results),
        forall|j: int| 0 <= j < ps.len() ==> same_records(ps[0].results, (#[trigger] ps[j]).results),
    ensures
        scan(baseline_of(ps), others_of(ps)) == Seq::<MismatchModel>::empty(),
        requests_consistent(baseline_of(ps), others_of(ps)),
        all_replies_are(result_sets(ps), k) && entry_total(result_sets(ps)) > 0 ==> {
            &&& tally_sets(no_counts(), result_sets(ps), true) == no_counts().insert(
                k,
                entry_total(result_sets(ps)),
            )
            &&& tally_sets(no_counts(), result_sets(ps), true).dom().len() == 1
            &&& tally_sets(no_counts(), result_sets(ps), false).dom().len() == 0
        },
{
    let s = ps[0].results;
    let others = others_of(ps);
    assert forall|j: int| 0 <= j < others.len() implies same_records(s, (#[trigger] others[j]).results) by {
        assert(others[j] == ps[j + 1]);
    }
    lemma_scan_empty(s, s.len() as int, others);
    assert(s.take(s.len() as int) =~= s);
    if all_replies_are(result_sets(ps), k) && entry_total(result_sets(ps)) > 0 {
        lemma_uniform_sets(no_counts(), result_sets(ps), k);
        assert(no_counts().insert(k, entry_total(result_sets(ps))).dom() =~= set![k]);
        assert(no_counts().dom() =~= Set::<Seq<Seq<char>>>::empty());
    }
}

proof fn lemma_sets_total_prefix(sets: Seq<Seq<EntryModel>>, n: int)
    requires
        0 <= n <= sets.len(),
    ensures
        entry_total(sets.take(n)) <= entry_total(sets),
    decreases sets.len(),
{
    if n < sets.len() {
        assert(sets.drop_last().take(n) =~= sets.take(n));
        lemma_sets_total_prefix(sets.drop_last(), n);
    } else {
        assert(sets.take(n) =~= sets);
    }
}

} // verus!

//! Frequency tables of replies, kept in a `counter::Counter`. Each request
//! counts once per provider, under the ordered list of its outcomes' texts,
//! so a batch is one key.

use vstd::prelude::*;
use counter::Counter;
use crate::outcome::{Outcome, OutcomeModel, models};
use crate::results::EntryModel;

verus! {

#[verifier::external_type_specification]
#[verifier::external_body]
#[verifier::reject_recursive_types(T)]
#[verifier::reject_recursive_types(N)]
pub struct ExCounter<T: std::hash::Hash + Eq, N>(Counter<T, N>);

/// A table of how often each reply occurred, a reply being the list of its
/// outcomes' texts.
pub type Tally = Counter<Vec<String>, usize>;

/// The counts a counter holds, key by key.
pub uninterp spec fn tally_of(c: Tally) -> Map<Seq<Seq<char>>, nat>;

/// Relies on `counter::Counter::new`: a counter with no keys.
#[verifier::external_body]
fn new_tally() -> (r: Tally)
    ensures
        tally_of(r) == no_counts(),
{
    Counter::new()
}

/// Relies on `counter::Counter::update`: each item adds one to its key's count,
/// starting from zero for a new key. Keys are equal when their strings are,
/// one by one (`Vec`'s `==`).
#[verifier::external_body]
fn tally_add(c: &mut Tally, key: Vec<String>)
    requires
        tally_of(*old(c)).contains_key(texts(key@)) ==> tally_of(*old(c))[texts(key@)]
            < usize::MAX,
    ensures
        tally_of(*final(c)) == bump(tally_of(*old(c)), texts(key@)),
{
    c.update(Some(key))
}

/// Relies on `HashMap::len`, reached through `Counter`'s `Deref`: the number
/// of keys held.
#[verifier::external_body]
pub(crate) fn tally_keys(c: &Tally) -> (r: usize)
    ensures
        r == tally_of(*c).dom().len(),
{
    c.len()
}

/// The texts of a list of strings.
pub open spec fn texts(v: Seq<String>) -> Seq<Seq<char>> {
    v.map_values(|s: String| s@)
}

/// The table before anything is counted.
pub open spec fn no_counts() -> Map<Seq<Seq<char>>, nat> {
    Map::empty()
}

/// One more occurrence of `k`.
pub open spec fn bump(m: Map<Seq<Seq<char>>, nat>, k: Seq<Seq<char>>) -> Map<Seq<Seq<char>>, nat> {
    m.insert(
        k,
        if m.contains_key(k) {
            m[k] + 1
        } else {
            1
        },
    )
}

/// The text of an outcome: its body, or its failure message.
pub open spec fn outcome_text(o: OutcomeModel) -> Seq<char> {
    match o {
        OutcomeModel::Success(b) => b,
        OutcomeModel::Failure(_, m) => m,
    }
}

/// The key a reply is counted under: its outcomes' texts, in order.
pub open spec fn reply_key(os: Seq<OutcomeModel>) -> Seq<Seq<char>> {
    os.map_values(|o: OutcomeModel| outcome_text(o))
}

/// A reply goes to the table of successes when every call of it succeeded,
/// and to the table of errors otherwise.
pub open spec fn all_succeeded(os: Seq<OutcomeModel>) -> bool {
    forall|i: int| 0 <= i < os.len() ==> (#[trigger] os[i]) is Success
}

/// Counts each entry's reply once, in the table that `successes` selects.
pub open spec fn tally_entries(m: Map<Seq<Seq<char>>, nat>, es: Seq<EntryModel>, successes: bool) -> Map<
    Seq<Seq<char>>,
    nat,
>
    decreases es.len(),
{
    if es.len() == 0 {
        m
    } else {
        let p = tally_entries(m, es.drop_last(), successes);
        if all_succeeded(es.last().outcomes) == successes {
            bump(p, reply_key(es.last().outcomes))
        } else {
            p
        }
    }
}

pub open spec fn tally_sets(m: Map<Seq<Seq<char>>, nat>, sets: Seq<Seq<EntryModel>>, successes: bool) -> Map<
    Seq<Seq<char>>,
    nat,
>
    decreases sets.len(),
{
    if sets.len() == 0 {
        m
    } else {
        tally_entries(tally_sets(m, sets.drop_last(), successes), sets.last(), successes)
    }
}

/// How many entries the result sets hold in all.
pub open spec fn entry_total(sets: Seq<Seq<EntryModel>>) -> nat
    decreases sets.len(),
{
    if sets.len() == 0 {
        0
    } else {
        entry_total(sets.drop_last()) + sets.last().len()
    }
}

/// No key is counted more than `n` times.
pub open spec fn bounded(m: Map<Seq<Seq<char>>, nat>, n: nat) -> bool {
    forall|k: Seq<Seq<char>>| #[trigger] m.contains_key(k) ==> m[k] <= n
}

/// The key of a reply, and whether every call of it succeeded.
fn reply_key_of(os: &Vec<Outcome>) -> (r: (Vec<String>, bool))
    ensures
        texts(r.0@) == reply_key(models(os@)),
        r.1 == all_succeeded(models(os@)),
{
    let ghost ms = models(os@);
    let mut key: Vec<String> = Vec::new();
    let mut ok = true;
    let mut i: usize = 0;
    while i < os.len()
        invariant
            0 <= i <= os.len(),
            ms == models(os@),
            key@.len() == i,
            forall|k: int| 0 <= k < i ==> (#[trigger] key@[k])@ == outcome_text(ms[k]),
            ok == (forall|k: int| 0 <= k < i ==> (#[trigger] ms[k]) is Success),
        decreases os.len() - i,
    {
        assert(ms[i as int] == os@[i as int]@);
        match &os[i] {
            Outcome::Success(b) => key.push(b.clone()),
            Outcome::Failure(_, m) => {
                ok = false;
                key.push(m.clone());
            },
        }
        proof {
            if !ok {
                if ms[i as int] is Success {
                    let k = choose|k: int| 0 <= k < i && !(#[trigger] ms[k] is Success);
                    assert(!(ms[k] is Success));
                }
            }
        }
        i += 1;
    }
    assert(texts(key@) =~= reply_key(ms));
    (key, ok)
}

/// A pair of frequency tables: replies that succeeded throughout, and
/// replies with at least one failure.
pub(crate) struct Tables {
    pub successes: Tally,
    pub errors: Tally,
}

impl Tables {
    pub(crate) fn new() -> (r: Tables)
        ensures
            tally_of(r.successes) == no_counts(),
            tally_of(r.errors) == no_counts(),
    {
        Tables { successes: new_tally(), errors: new_tally() }
    }

    /// Counts the reply of every entry once.
    pub(crate) fn count_entries(&mut self, es: &Vec<crate::results::Entry>, Ghost(done): Ghost<nat>)
        requires
            bounded(tally_of(old(self).successes), done),
            bounded(tally_of(old(self).errors), done),
            done + es@.len() < usize::MAX,
        ensures
            tally_of(final(self).successes) == tally_entries(
                tally_of(old(self).successes),
                crate::results::entry_models(es@),
                true,
            ),
            tally_of(final(self).errors) == tally_entries(
                tally_of(old(self).errors),
                crate::results::entry_models(es@),
                false,
            ),
            bounded(tally_of(final(self).successes), done + es@.len()),
            bounded(tally_of(final(self).errors), done + es@.len()),
    {
        let ghost s0 = tally_of(self.successes);
        let ghost e0 = tally_of(self.errors);
        let ghost ms = crate::results::entry_models(es@);
        let mut i: usize = 0;
        while i < es.len()
            invariant
                0 <= i <= es.len(),
                ms == crate::results::entry_models(es@),
                done + es@.len() < usize::MAX,
                tally_of(self.successes) == tally_entries(s0, ms.take(i as int), true),
                tally_of(self.errors) == tally_entries(e0, ms.take(i as int), false),
                bounded(tally_of(self.successes), (done + i) as nat),
                bounded(tally_of(self.errors), (done + i) as nat),
            decreases es.len() - i,
        {
            assert(ms.take(i + 1).drop_last() =~= ms.take(i as int));
            assert(ms.take(i + 1).last() == es@[i as int]@);
            let (key, ok) = reply_key_of(&es[i].outcomes);
            if ok {
                tally_add(&mut self.successes, key);
            } else {
                tally_add(&mut self.errors, key);
            }
            i += 1;
        }
        assert(ms.take(i as int) =~= ms);
    }
}

} // verus!

//! Building the provider pool: addresses that do not parse are rejected, and
//! providers whose chain identity differs from the first one identified are
//! dropped. Neither stops the run.

use vstd::prelude::*;

verus! {

#[verifier::external_type_specification]
#[verifier::external_body]
pub struct ExUrl(reqwest::Url);

/// Whether `url::Url::parse` accepts the text as an absolute URL.
pub uninterp spec fn url_parses(s: Seq<char>) -> bool;

/// Relies on `url::Url::parse` (re-exported as `reqwest::Url`): it accepts or
/// refuses the text depending on the text alone, and refuses the empty text.
#[verifier::external_body]
fn parse_url(s: &str) -> (r: Option<reqwest::Url>)
    ensures
        r is Some == url_parses(s@),
        s@.len() == 0 ==> r is None,
{
    reqwest::Url::parse(s).ok()
}

/// A provider address together with the connection target parsed from it.
pub struct Endpoint {
    pub address: String,
    pub target: reqwest::Url,
}

/// The addresses, split into those that parse and those that do not.
pub struct ParsedEndpoints {
    pub endpoints: Vec<Endpoint>,
    pub rejected: Vec<String>,
}

pub open spec fn accepted_addresses(s: Seq<Seq<char>>) -> Seq<Seq<char>>
    decreases s.len(),
{
    if s.len() == 0 {
        Seq::empty()
    } else if url_parses(s.last()) {
        accepted_addresses(s.drop_last()).push(s.last())
    } else {
        accepted_addresses(s.drop_last())
    }
}

pub open spec fn rejected_addresses(s: Seq<Seq<char>>) -> Seq<Seq<char>>
    decreases s.len(),
{
    if s.len() == 0 {
        Seq::empty()
    } else if url_parses(s.last()) {
        rejected_addresses(s.drop_last())
    } else {
        rejected_addresses(s.drop_last()).push(s.last())
    }
}

pub open spec fn texts(v: Seq<String>) -> Seq<Seq<char>> {
    v.map_values(|s: String| s@)
}

pub open spec fn endpoint_addresses(v: Seq<Endpoint>) -> Seq<Seq<char>> {
    v.map_values(|e: Endpoint| e.address@)
}

/// Parses every address, keeping the order. Those that parse become
/// endpoints; the others are handed back to be reported.
pub fn parse_endpoints(addresses: &Vec<String>) -> (r: ParsedEndpoints)
    ensures
        endpoint_addresses(r.endpoints@) == accepted_addresses(texts(addresses@)),
        texts(r.rejected@) == rejected_addresses(texts(addresses@)),
{
    let mut endpoints: Vec<Endpoint> = Vec::new();
    let mut rejected: Vec<String> = Vec::new();
    let mut i: usize = 0;
    while i < addresses.len()
        invariant
            0 <= i <= addresses.len(),
            endpoint_addresses(endpoints@) == accepted_addresses(texts(addresses@.take(i as int))),
            texts(rejected@) == rejected_addresses(texts(addresses@.take(i as int))),
        decreases addresses.len() - i,
    {
        let ghost before = texts(addresses@.take(i as int));
        let ghost after = texts(addresses@.take(i + 1));
        assert(after.drop_last() =~= before);
        assert(after.last() == addresses@[i as int]@);
        let address = &addresses[i];
        match parse_url(address.as_str()) {
            Some(target) => {
                endpoints.push(Endpoint { address: address.clone(), target });
                assert(endpoint_addresses(endpoints@) =~= accepted_addresses(after));
            },
            None => {
                rejected.push(address.clone());
                assert(texts(rejected@) =~= rejected_addresses(after));
            },
        }
        i += 1;
    }
    assert(addresses@.take(i as int) =~= addresses@);
    ParsedEndpoints { endpoints, rejected }
}

/// The chain identity of the first provider that reported one.
pub open spec fn first_identity(ids: Seq<Option<u64>>) -> Option<u64>
    decreases ids.len(),
{
    if ids.len() == 0 {
        None
    } else if ids[0] is Some {
        ids[0]
    } else {
        first_identity(ids.drop_first())
    }
}

/// The identity the pool is checked against (zero when nobody reported one,
/// in which case no provider is kept).
pub open spec fn baseline_chain(ids: Seq<Option<u64>>) -> u64 {
    match first_identity(ids) {
        Some(c) => c,
        None => 0,
    }
}

/// The positions of the providers that reported the chain identity `chain`.
pub open spec fn kept_positions(ids: Seq<Option<u64>>, chain: u64) -> Seq<usize>
    decreases ids.len(),
{
    if ids.len() == 0 {
        Seq::empty()
    } else if ids.last() == Some(chain) {
        kept_positions(ids.drop_last(), chain).push((ids.len() - 1) as usize)
    } else {
        kept_positions(ids.drop_last(), chain)
    }
}

proof fn lemma_all_kept(ids: Seq<Option<u64>>, chain: u64)
    requires
        forall|i: int| 0 <= i < ids.len() ==> #[trigger] ids[i] == Some(chain),
    ensures
        kept_positions(ids, chain).len() == ids.len(),
    decreases ids.len(),
{
    if ids.len() > 0 {
        lemma_all_kept(ids.drop_last(), chain);
    }
}

proof fn lemma_one_dropped(ids: Seq<Option<u64>>, chain: u64, k: int)
    requires
        0 <= k < ids.len(),
        ids[k] != Some(chain),
        forall|i: int| 0 <= i < ids.len() && i != k ==> #[trigger] ids[i] == Some(chain),
    ensures
        kept_positions(ids, chain).len() == ids.len() - 1,
    decreases ids.len(),
{
    if k == ids.len() - 1 {
        assert forall|i: int| 0 <= i < ids.drop_last().len() implies #[trigger] ids.drop_last()[i]
            == Some(chain) by {
            assert(ids.drop_last()[i] == ids[i]);
        }
        lemma_all_kept(ids.drop_last(), chain);
    } else {
        assert forall|i: int| 0 <= i < ids.drop_last().len() && i != k implies #[trigger] ids.drop_last()[i]
            == Some(chain) by {
            assert(ids.drop_last()[i] == ids[i]);
        }
        lemma_one_dropped(ids.drop_last(), chain, k);
    }
}

/// When every provider was reached and all but one report the first
/// provider's chain, the pool keeps all of them but that one.
pub proof fn lemma_foreign_chain_dropped(ids: Seq<Option<u64>>, k: int)
    requires
        0 < k < ids.len(),
        ids[0] is Some,
        ids[k] is Some,
        ids[k] != ids[0],
        forall|i: int| 0 <= i < ids.len() && i != k ==> #[trigger] ids[i] == ids[0],
    ensures
        first_identity(ids) == ids[0],
        kept_positions(ids, baseline_chain(ids)).len() == ids.len() - 1,
{
    lemma_one_dropped(ids, ids[0]->0, k);
}

/// Why a provider left the pool.
#[derive(Clone, Copy, Debug, PartialEq, Eq, Structural)]
pub enum PoolWarning {
    /// It could not be reached, or did not report its identity.
    Unreachable(usize),
    /// It serves another chain than the first provider identified.
    WrongChain { position: usize, expected: u64, found: u64 },
}

pub open spec fn pool_warnings(ids: Seq<Option<u64>>, chain: u64) -> Seq<PoolWarning>
    decreases ids.len(),
{
    if ids.len() == 0 {
        Seq::empty()
    } else {
        let prev = pool_warnings(ids.drop_last(), chain);
        let p = (ids.len() - 1) as usize;
        match ids.last() {
            None => prev.push(PoolWarning::Unreachable(p)),
            Some(c) => if c == chain {
                prev
            } else {
                prev.push(PoolWarning::WrongChain { position: p, expected: chain, found: c })
            },
        }
    }
}

/// The providers that stay in the pool, by position, and why the others left.
pub struct PoolSelection {
    pub chain: Option<u64>,
    pub kept: Vec<usize>,
    pub warnings: Vec<PoolWarning>,
}

impl PoolSelection {
    /// Whether at least two providers remain, so that a comparison is made.
    pub fn can_compare(&self) -> (r: bool)
        ensures
            r == (self.kept@.len() >= 2),
    {
        self.kept.len() >= 2
    }
}

fn find_first_identity(ids: &Vec<Option<u64>>) -> (r: Option<u64>)
    ensures
        r == first_identity(ids@),
{
    let mut i: usize = 0;
    assert(ids@.subrange(0, ids@.len() as int) =~= ids@);
    while i < ids.len()
        invariant
            0 <= i <= ids.len(),
            first_identity(ids@) == first_identity(ids@.subrange(i as int, ids@.len() as int)),
        decreases ids.len() - i,
    {
        assert(ids@.subrange(i as int, ids@.len() as int)[0] == ids@[i as int]);
        if ids[i].is_some() {
            return ids[i];
        }
        assert(ids@.subrange(i as int, ids@.len() as int).drop_first() =~= ids@.subrange(
            i + 1,
            ids@.len() as int,
        ));
        i += 1;
    }
    assert(ids@.subrange(i as int, ids@.len() as int) =~= Seq::<Option<u64>>::empty());
    None
}

/// Given the chain identity each provider reported (`None` when it could not
/// be reached), keeps those on the chain of the first provider identified,
/// in order, and gives a warning for each other one.
pub fn select_providers(ids: &Vec<Option<u64>>) -> (r: PoolSelection)
    ensures
        r.chain == first_identity(ids@),
        r.kept@ == kept_positions(ids@, baseline_chain(ids@)),
        r.warnings@ == pool_warnings(ids@, baseline_chain(ids@)),
{
    let chain = find_first_identity(ids);
    let c: u64 = match chain {
        Some(c) => c,
        None => 0,
    };
    let mut kept: Vec<usize> = Vec::new();
    let mut warnings: Vec<PoolWarning> = Vec::new();
    let mut i: usize = 0;
    while i < ids.len()
        invariant
            0 <= i <= ids.len(),
            kept@ == kept_positions(ids@.take(i as int), c),
            warnings@ == pool_warnings(ids@.take(i as int), c),
        decreases ids.len() - i,
    {
        let ghost after = ids@.take(i + 1);
        assert(after.drop_last() =~= ids@.take(i as int));
        assert(after.last() == ids@[i as int]);
        match ids[i] {
            None => warnings.push(PoolWarning::Unreachable(i)),
            Some(found) => {
                if found == c {
                    kept.push(i);
                } else {
                    warnings.push(PoolWarning::WrongChain { position: i, expected: c, found });
                }
            },
        }
        i += 1;
    }
    assert(ids@.take(i as int) =~= ids@);
    PoolSelection { chain, kept, warnings }
}

} // verus!

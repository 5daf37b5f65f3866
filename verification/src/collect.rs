//! One collection: which validators to look up, and how the results are gathered and
//! put in order.

use vstd::prelude::*;
use vstd::seq_lib::*;
use vstd::string::*;

use crate::config::AppConfig;
use crate::keys;
use crate::keys::is_hex_32;
use crate::ordering;
use crate::ordering::{stable_sort, Ranked};
use crate::resolution::{AddressView, Resolution, ResolutionView};
use crate::text::{copy_opt, same_text};

verus! {

/// What the validators clock tells of a chain.
pub struct ChainInfo {
    pub id: String,
    pub name: String,
    pub color: String,
    pub token_symbol: String,
    pub rpc_label: Option<String>,
}

/// The reply of the validators clock.
pub struct ClockResponse {
    pub chain: ChainInfo,
    pub fetched_at: u64,
    pub current_set: ValidatorSet,
}

/// The validators of the current round.
pub struct ValidatorSet {
    pub round_id: u64,
    pub round_color: Option<String>,
    pub total: usize,
    pub main: usize,
    pub validators: Vec<ValidatorApi>,
}

/// What the validators clock tells of a validator.
pub struct ValidatorApi {
    pub public_key: String,
    pub adnl_addr: Option<String>,
    pub wallet: Option<String>,
    pub source: Option<ValidatorSource>,
    pub contract_type: Option<String>,
    pub stake: Option<String>,
    pub weight: Option<String>,
}

/// The contract that a validator's stake comes from.
pub struct ValidatorSource {
    pub address: String,
    pub contract_type_hash: Option<String>,
}

/// A validator with its resolution.
pub struct FullValidator {
    pub validator_public_key: String,
    pub adnl_addr: Option<String>,
    pub wallet: Option<String>,
    pub source_address: Option<String>,
    pub source_contract_type_hash: Option<String>,
    pub contract_type: Option<String>,
    pub stake: Option<String>,
    pub weight: Option<String>,
    pub resolution: Resolution,
}

/// The address of the validators clock for a chain.
pub open spec fn clock_url(base_url: Seq<char>, chain: Seq<char>) -> Seq<char> {
    base_url + "/api/chains/"@ + chain + "/clock"@
}

/// Writes the address of the validators clock for the configured chain.
pub fn source_url(config: &AppConfig) -> (r: String)
    ensures
        r@ == clock_url(config.base_url@, config.chain@),
{
    let mut r: String = config.base_url.clone();
    r.append("/api/chains/");
    r.append(config.chain.as_str());
    r.append("/clock");
    r
}

/// The message for a reply on another chain than the configured one.
pub open spec fn other_chain_text(expected: Seq<char>, got: Seq<char>) -> Seq<char> {
    "expected chain id "@ + expected + ", got "@ + got
}

/// Refuses a reply on another chain than the configured one.
pub fn check_chain(config: &AppConfig, clock: &ClockResponse) -> (r: Result<(), String>)
    ensures
        match r {
            Ok(_) => clock.chain.id@ == config.chain@,
            Err(message) => {
                &&& clock.chain.id@ != config.chain@
                &&& message@ == other_chain_text(config.chain@, clock.chain.id@)
            },
        },
{
    if same_text(clock.chain.id.as_str(), config.chain.as_str()) {
        Ok(())
    } else {
        let mut message: String = "expected chain id ".to_owned();
        message.append(config.chain.as_str());
        message.append(", got ");
        message.append(clock.chain.id.as_str());
        Err(message)
    }
}

/// A configured count of which at least one is needed.
pub fn at_least_one(n: usize) -> (r: usize)
    ensures
        r == (if n == 0 {
            1
        } else {
            n
        }),
{
    if n == 0 {
        1
    } else {
        n
    }
}

/// What is to be done for a validator: nothing more, or a lookup of its address.
pub enum LookupPlan {
    Settled(Resolution),
    Lookup(String),
}

/// Decides what is to be done for a validator. Only an address of 64 hexadecimal
/// digits is looked up.
pub fn lookup_plan(validator: &ValidatorApi) -> (r: LookupPlan)
    ensures
        match validator.adnl_addr {
            None => r matches LookupPlan::Settled(resolution) && resolution@
                == ResolutionView::missing_adnl(),
            Some(adnl_addr) => if keys::is_hex_key(adnl_addr@) {
                r == LookupPlan::Lookup(adnl_addr)
            } else {
                r matches LookupPlan::Settled(resolution) && resolution@
                    == ResolutionView::invalid_adnl(adnl_addr@)
            },
        },
{
    match &validator.adnl_addr {
        None => LookupPlan::Settled(Resolution::missing_adnl()),
        Some(adnl_addr) => if !is_hex_32(adnl_addr.as_str()) {
            LookupPlan::Settled(Resolution::invalid_adnl(adnl_addr.as_str()))
        } else {
            LookupPlan::Lookup(adnl_addr.clone())
        },
    }
}

/// A validator of the clock with its resolution.
pub open spec fn is_full_validator(
    full: FullValidator,
    validator: ValidatorApi,
    resolution: Resolution,
) -> bool {
    &&& full.validator_public_key == validator.public_key
    &&& full.adnl_addr == validator.adnl_addr
    &&& full.wallet == validator.wallet
    &&& full.source_address == (match validator.source {
        Some(source) => Some(source.address),
        None => None,
    })
    &&& full.source_contract_type_hash == (match validator.source {
        Some(source) => source.contract_type_hash,
        None => None,
    })
    &&& full.contract_type == validator.contract_type
    &&& full.stake == validator.stake
    &&& full.weight == validator.weight
    &&& full.resolution == resolution
}

/// Puts a validator of the clock and its resolution together.
pub fn full_validator(validator: &ValidatorApi, resolution: Resolution) -> (r: FullValidator)
    ensures
        is_full_validator(r, *validator, resolution),
        r.validator_public_key@ == validator.public_key@,
        r.adnl_addr == validator.adnl_addr,
        r.wallet == validator.wallet,
        validator.source matches Some(source) ==> r.source_address == Some(source.address)
            && r.source_contract_type_hash == source.contract_type_hash,
        validator.source is None ==> r.source_address is None && r.source_contract_type_hash is None,
        r.contract_type == validator.contract_type,
        r.stake == validator.stake,
        r.weight == validator.weight,
        r.resolution == resolution,
{
    FullValidator {
        validator_public_key: validator.public_key.clone(),
        adnl_addr: copy_opt(&validator.adnl_addr),
        wallet: copy_opt(&validator.wallet),
        source_address: match &validator.source {
            Some(source) => Some(source.address.clone()),
            None => None,
        },
        source_contract_type_hash: match &validator.source {
            Some(source) => copy_opt(&source.contract_type_hash),
            None => None,
        },
        contract_type: copy_opt(&validator.contract_type),
        stake: copy_opt(&validator.stake),
        weight: copy_opt(&validator.weight),
        resolution,
    }
}

/// A resolved validator and its place among the validators of the clock.
pub struct Arrival {
    pub index: usize,
    pub validator: FullValidator,
}

impl View for Arrival {
    type V = Arrival;

    open spec fn view(&self) -> Arrival {
        *self
    }
}

impl Ranked for Arrival {
    open spec fn before(a: Arrival, b: Arrival) -> bool {
        a.index < b.index
    }

    proof fn before_is_irreflexive(a: Arrival) {
    }

    proof fn before_is_transitive(a: Arrival, b: Arrival, c: Arrival) {
    }

    proof fn before_separates(a: Arrival, b: Arrival, c: Arrival) {
    }

    fn comes_before(&self, other: &Self) -> (r: bool) {
        self.index < other.index
    }
}

/// Whether `validators` are those of `arrivals`, by index.
pub open spec fn by_index(arrivals: Seq<Arrival>, validators: Seq<FullValidator>) -> bool {
    exists|sorted: Seq<Arrival>|
        {
            &&& #[trigger] ordering::stably_sorted::<Arrival>(arrivals, sorted)
            &&& validators == sorted.map_values(|arrival: Arrival| arrival.validator)
        }
}

/// How a resolution is counted.
#[derive(Clone, Copy, PartialEq, Eq, Structural, Debug)]
pub enum Tally {
    Resolved,
    Missing,
    Invalid,
    Failed,
}

/// How a resolution with a status is counted.
pub open spec fn tally_of(status: Seq<char>) -> Tally {
    if status == "resolved"@ {
        Tally::Resolved
    } else if status == "missing_adnl"@ {
        Tally::Missing
    } else if status == "invalid_adnl"@ {
        Tally::Invalid
    } else {
        Tally::Failed
    }
}

fn tally(status: &str) -> (r: Tally)
    ensures
        r == tally_of(status@),
{
    if same_text(status, "resolved") {
        Tally::Resolved
    } else if same_text(status, "missing_adnl") {
        Tally::Missing
    } else if same_text(status, "invalid_adnl") {
        Tally::Invalid
    } else {
        Tally::Failed
    }
}

/// How many arrivals are counted as `kind`.
pub open spec fn tally_count(arrivals: Seq<Arrival>, kind: Tally) -> nat {
    arrivals.filter(
        |arrival: Arrival| tally_of(arrival.validator.resolution.status@) == kind,
    ).len()
}

/// How far the lookups are.
#[derive(Clone, Copy, PartialEq, Eq, Structural, Debug)]
pub struct ResolveProgress {
    pub done: usize,
    pub total: usize,
    pub resolved: usize,
    pub missing: usize,
    pub invalid: usize,
    pub failed: usize,
}

/// Whether `progress` tells of `arrivals` out of `total`.
pub open spec fn is_progress(
    progress: ResolveProgress,
    arrivals: Seq<Arrival>,
    total: usize,
) -> bool {
    &&& progress.done == arrivals.len()
    &&& progress.total == total
    &&& progress.resolved == tally_count(arrivals, Tally::Resolved)
    &&& progress.missing == tally_count(arrivals, Tally::Missing)
    &&& progress.invalid == tally_count(arrivals, Tally::Invalid)
    &&& progress.failed == tally_count(arrivals, Tally::Failed)
}

/// The resolved validators as they arrive, in whatever order.
pub struct Collector {
    progress: ResolveProgress,
    arrivals: Vec<Arrival>,
}

pub struct CollectorView {
    pub total: usize,
    pub arrivals: Seq<Arrival>,
}

impl Collector {
    #[verifier::type_invariant]
    spec fn well_formed(self) -> bool {
        &&& is_progress(self.progress, self.arrivals@, self.progress.total)
        &&& self.progress.resolved + self.progress.missing + self.progress.invalid
            + self.progress.failed == self.progress.done
    }
}

impl View for Collector {
    type V = CollectorView;

    closed spec fn view(&self) -> CollectorView {
        CollectorView { total: self.progress.total, arrivals: self.arrivals@ }
    }
}

proof fn lemma_tally_push(arrivals: Seq<Arrival>, arrival: Arrival, kind: Tally)
    ensures
        tally_count(arrivals.push(arrival), kind) == tally_count(arrivals, kind) + (if tally_of(
            arrival.validator.resolution.status@,
        ) == kind {
            1int
        } else {
            0
        }),
{
    reveal(Seq::filter);
    assert(arrivals.push(arrival).drop_last() =~= arrivals);
}

impl Collector {
    /// A collector for `total` validators.
    pub fn new(total: usize) -> (r: Collector)
        ensures
            r@ == (CollectorView { total, arrivals: Seq::empty() }),
    {
        proof {
            reveal(Seq::filter);
        }
        Collector {
            progress: ResolveProgress {
                done: 0,
                total,
                resolved: 0,
                missing: 0,
                invalid: 0,
                failed: 0,
            },
            arrivals: Vec::new(),
        }
    }

    /// Takes a resolved validator. The progress is given back when it is due: with
    /// the last validator, and with every 25th.
    pub fn record(self, arrival: Arrival) -> (r: (Collector, Option<ResolveProgress>))
        ensures
            r.0@ == (CollectorView { arrivals: self@.arrivals.push(arrival), ..self@ }),
            r.1 is Some <==> (r.0@.arrivals.len() == self@.total || r.0@.arrivals.len() % 25 == 0),
            r.1 matches Some(progress) ==> is_progress(progress, r.0@.arrivals, self@.total),
    {
        proof {
            use_type_invariant(&self);
            lemma_tally_push(self.arrivals@, arrival, Tally::Resolved);
            lemma_tally_push(self.arrivals@, arrival, Tally::Missing);
            lemma_tally_push(self.arrivals@, arrival, Tally::Invalid);
            lemma_tally_push(self.arrivals@, arrival, Tally::Failed);
        }
        let kind: Tally = tally(arrival.validator.resolution.status.as_str());
        let mut arrivals: Vec<Arrival> = self.arrivals;
        arrivals.push(arrival);
        let mut progress: ResolveProgress = self.progress;
        progress.done = arrivals.len();
        match kind {
            Tally::Resolved => {
                progress.resolved = progress.resolved + 1;
            },
            Tally::Missing => {
                progress.missing = progress.missing + 1;
            },
            Tally::Invalid => {
                progress.invalid = progress.invalid + 1;
            },
            Tally::Failed => {
                progress.failed = progress.failed + 1;
            },
        }
        let report: Option<ResolveProgress> = if progress.done == progress.total || progress.done
            % 25 == 0 {
            Some(progress)
        } else {
            None
        };
        (Collector { progress, arrivals }, report)
    }

    /// The validators in the order of the clock.
    pub fn finish(self) -> (r: Vec<FullValidator>)
        ensures
            by_index(self@.arrivals, r@),
    {
        let ghost arrivals = self.arrivals@;
        let sorted: Vec<Arrival> = stable_sort(self.arrivals);
        proof {
            assert(ordering::shown(arrivals) =~= arrivals);
            assert(ordering::shown(sorted@) =~= sorted@);
        }
        let ghost all = sorted@;
        let ghost validator_of = |arrival: Arrival| arrival.validator;
        let mut r: Vec<FullValidator> = Vec::new();
        for arrival in it: sorted
            invariant
                it.seq() == all,
                r@.len() == it.index(),
                forall|j: int| 0 <= j < r@.len() ==> #[trigger] r@[j] == all[j].validator,
        {
            r.push(arrival.validator);
        }
        assert(r@ =~= all.map_values(validator_of));
        assert(by_index(arrivals, r@));
        r
    }
}

/// Whether each index below `n` arrived once, and nothing else.
pub open spec fn covers(arrivals: Seq<Arrival>, n: nat) -> bool {
    &&& arrivals.len() == n
    &&& forall|i: int| 0 <= i < n ==> (#[trigger] arrivals[i]).index < n
    &&& forall|i: int, j: int|
        0 <= i < j < n ==> (#[trigger] arrivals[i]).index != (#[trigger] arrivals[j]).index
}

proof fn lemma_rising_indices(sorted: Seq<Arrival>, k: int)
    requires
        forall|i: int| 0 <= i < sorted.len() ==> (#[trigger] sorted[i]).index < sorted.len(),
        forall|i: int, j: int|
            0 <= i < j < sorted.len() ==> (#[trigger] sorted[i]).index < (#[trigger] sorted[j]).index,
        0 <= k < sorted.len(),
    ensures
        sorted[k].index >= k,
    decreases k,
{
    if k > 0 {
        lemma_rising_indices(sorted, k - 1);
        assert(sorted[k - 1].index < sorted[k].index);
    }
}

proof fn lemma_rising_indices_end(sorted: Seq<Arrival>, k: int)
    requires
        forall|i: int| 0 <= i < sorted.len() ==> (#[trigger] sorted[i]).index < sorted.len(),
        forall|i: int, j: int|
            0 <= i < j < sorted.len() ==> (#[trigger] sorted[i]).index < (#[trigger] sorted[j]).index,
        0 <= k < sorted.len(),
    ensures
        sorted[k].index <= k,
    decreases sorted.len() - k,
{
    if k < sorted.len() - 1 {
        lemma_rising_indices_end(sorted, k + 1);
        assert(sorted[k].index < sorted[k + 1].index);
    }
}

/// Where the validator of each index arrived once, the report lists the validators by
/// index, in whatever order they arrived.
pub proof fn law_validators_keep_their_places(
    arrivals: Seq<Arrival>,
    validators: Seq<FullValidator>,
    k: int,
)
    requires
        covers(arrivals, arrivals.len()),
        by_index(arrivals, validators),
        0 <= k < arrivals.len(),
    ensures
        validators.len() == arrivals.len(),
        validators[arrivals[k].index as int] == arrivals[k].validator,
{
    let n = arrivals.len();
    let sorted = choose|sorted: Seq<Arrival>|
        {
            &&& #[trigger] ordering::stably_sorted::<Arrival>(arrivals, sorted)
            &&& validators == sorted.map_values(|arrival: Arrival| arrival.validator)
        };
    sorted.to_multiset_ensures();
    arrivals.to_multiset_ensures();
    assert(sorted.len() == n);
    assert(arrivals.no_duplicates()) by {
        assert forall|i: int, j: int| 0 <= i < n && 0 <= j < n && i != j implies arrivals[i]
            != arrivals[j] by {
            if i < j {
                assert(arrivals[i].index != arrivals[j].index);
            } else {
                assert(arrivals[j].index != arrivals[i].index);
            }
        }
    }
    arrivals.lemma_multiset_has_no_duplicates();
    assert forall|x: Arrival| #[trigger] sorted.to_multiset().contains(x) implies sorted.to_multiset().count(
        x,
    ) == 1 by {
        assert(arrivals.to_multiset().contains(x));
    }
    sorted.lemma_multiset_has_no_duplicates_conv();
    assert forall|i: int| 0 <= i < n implies arrivals.contains(#[trigger] sorted[i]) by {
        to_multiset_contains(sorted, sorted[i]);
        to_multiset_contains(arrivals, sorted[i]);
        assert(sorted.contains(sorted[i]));
    }
    assert forall|i: int| 0 <= i < n implies (#[trigger] sorted[i]).index < n by {
        assert(arrivals.contains(sorted[i]));
    }
    assert forall|i: int, j: int| 0 <= i < j < n implies (#[trigger] sorted[i]).index < (
    #[trigger] sorted[j]).index by {
        assert(!<Arrival as Ranked>::before(sorted[j], sorted[i]));
        assert(arrivals.contains(sorted[i]));
        assert(arrivals.contains(sorted[j]));
        let a = choose|a: int| 0 <= a < n && arrivals[a] == sorted[i];
        let b = choose|b: int| 0 <= b < n && arrivals[b] == sorted[j];
        if a < b {
            assert(arrivals[a].index != arrivals[b].index);
        } else if b < a {
            assert(arrivals[b].index != arrivals[a].index);
        } else {
            assert(sorted[i] == sorted[j]);
        }
    }
    to_multiset_contains(arrivals, arrivals[k]);
    to_multiset_contains(sorted, arrivals[k]);
    assert(arrivals.contains(arrivals[k]));
    let at = choose|at: int| 0 <= at < n && sorted[at] == arrivals[k];
    lemma_rising_indices(sorted, at);
    lemma_rising_indices_end(sorted, at);
    assert(sorted[at].index == at);
}

/// Every validator that arrived is counted once.
pub proof fn law_each_arrival_is_counted_once(arrivals: Seq<Arrival>)
    ensures
        tally_count(arrivals, Tally::Resolved) + tally_count(arrivals, Tally::Missing)
            + tally_count(arrivals, Tally::Invalid) + tally_count(arrivals, Tally::Failed)
            == arrivals.len(),
    decreases arrivals.len(),
{
    reveal(Seq::filter);
    if arrivals.len() > 0 {
        law_each_arrival_is_counted_once(arrivals.drop_last());
    }
}

/// The resolutions are counted by how they came about.
pub proof fn law_resolutions_are_told_apart(
    address: AddressView,
    error: Seq<char>,
    adnl_addr: Seq<char>,
)
    ensures
        tally_of(ResolutionView::resolved(address).status) == Tally::Resolved,
        tally_of(ResolutionView::failed(error).status) == Tally::Failed,
        tally_of(ResolutionView::missing_adnl().status) == Tally::Missing,
        tally_of(ResolutionView::invalid_adnl(adnl_addr).status) == Tally::Invalid,
{
    reveal_strlit("resolved");
    reveal_strlit("failed");
    reveal_strlit("missing_adnl");
    reveal_strlit("invalid_adnl");
    assert("invalid_adnl"@[0] == 'i');
    assert("missing_adnl"@[0] == 'm');
    assert("resolved"@.len() == 8);
    assert("failed"@.len() == 6);
}

/// A full validator holds what the clock told of the validator, field by field, and the
/// resolution that was found.
pub proof fn law_full_validator_keeps_what_the_clock_told(
    full: FullValidator,
    validator: ValidatorApi,
    resolution: Resolution,
)
    requires
        is_full_validator(full, validator, resolution),
    ensures
        full.validator_public_key@ == validator.public_key@,
        full.adnl_addr == validator.adnl_addr,
        full.wallet == validator.wallet,
        validator.source matches Some(source) ==> full.source_address == Some(source.address)
            && full.source_contract_type_hash == source.contract_type_hash,
        validator.source is None ==> full.source_address is None
            && full.source_contract_type_hash is None,
        full.contract_type == validator.contract_type,
        full.stake == validator.stake,
        full.weight == validator.weight,
        full.resolution == resolution,
{
}

/// Two validators of the clock that are put together alike are told alike, and have the
/// same resolution.
pub proof fn law_full_validators_tell_validators_apart(
    full: FullValidator,
    one: ValidatorApi,
    other: ValidatorApi,
    resolution: Resolution,
    found: Resolution,
)
    requires
        is_full_validator(full, one, resolution),
        is_full_validator(full, other, found),
    ensures
        one.public_key == other.public_key,
        one.adnl_addr == other.adnl_addr,
        one.wallet == other.wallet,
        one.contract_type == other.contract_type,
        one.stake == other.stake,
        one.weight == other.weight,
        one.source is Some <==> other.source is Some,
        one.source matches Some(source) ==> source.address == other.source->0.address
            && source.contract_type_hash == other.source->0.contract_type_hash,
        resolution == found,
{
}

/// The address of the clock and the message for another chain hold what they are made of.
pub proof fn law_clock_texts(one: Seq<char>, other: Seq<char>)
    ensures
        clock_url(one, other) == one + "/api/chains/"@ + other + "/clock"@,
        other_chain_text(one, other) == "expected chain id "@ + one + ", got "@ + other,
{
}

/// Whatever arrived is in the list that comes out, as often as it arrived and nothing
/// else, and of two validators the one with the smaller index comes first.
pub proof fn law_every_arrival_comes_out(
    arrivals: Seq<Arrival>,
    validators: Seq<FullValidator>,
)
    requires
        by_index(arrivals, validators),
    ensures
        exists|sorted: Seq<Arrival>|
            {
                &&& #[trigger] sorted.to_multiset() == arrivals.to_multiset()
                &&& sorted.len() == validators.len()
                &&& forall|i: int|
                    0 <= i < sorted.len() ==> validators[i] == (#[trigger] sorted[i]).validator
                &&& forall|i: int, j: int|
                    0 <= i < j < sorted.len() ==> (#[trigger] sorted[i]).index <= (
                    #[trigger] sorted[j]).index
            },
        validators.len() == arrivals.len(),
{
    let sorted = choose|sorted: Seq<Arrival>|
        {
            &&& #[trigger] ordering::stably_sorted::<Arrival>(arrivals, sorted)
            &&& validators == sorted.map_values(|arrival: Arrival| arrival.validator)
        };
    assert(sorted.to_multiset() == arrivals.to_multiset());
    sorted.to_multiset_ensures();
    arrivals.to_multiset_ensures();
    assert forall|i: int, j: int| 0 <= i < j < sorted.len() implies (#[trigger] sorted[i]).index
        <= (#[trigger] sorted[j]).index by {
        assert(!<Arrival as Ranked>::before(sorted[j], sorted[i]));
    }
}

/// The progress tells how many arrived out of how many, and how many of them have which
/// status; whatever is none of the three others counts as failed.
pub proof fn law_progress_counts_statuses(
    progress: ResolveProgress,
    arrivals: Seq<Arrival>,
    total: usize,
)
    requires
        is_progress(progress, arrivals, total),
    ensures
        progress.done == arrivals.len(),
        progress.total == total,
        progress.resolved == arrivals.filter(
            |a: Arrival| a.validator.resolution.status@ == "resolved"@,
        ).len(),
        progress.missing == arrivals.filter(
            |a: Arrival| a.validator.resolution.status@ == "missing_adnl"@,
        ).len(),
        progress.invalid == arrivals.filter(
            |a: Arrival| a.validator.resolution.status@ == "invalid_adnl"@,
        ).len(),
        progress.resolved + progress.missing + progress.invalid + progress.failed == progress.done,
{
    reveal_strlit("resolved");
    reveal_strlit("missing_adnl");
    reveal_strlit("invalid_adnl");
    assert("invalid_adnl"@[0] == 'i');
    assert("missing_adnl"@[0] == 'm');
    assert("resolved"@.len() == 8);
    assert("missing_adnl"@.len() == 12);
    assert((|a: Arrival| a.validator.resolution.status@ == "resolved"@) =~= (|arrival: Arrival|
        tally_of(arrival.validator.resolution.status@) == Tally::Resolved));
    assert((|a: Arrival| a.validator.resolution.status@ == "missing_adnl"@) =~= (|arrival: Arrival|
        tally_of(arrival.validator.resolution.status@) == Tally::Missing));
    assert((|a: Arrival| a.validator.resolution.status@ == "invalid_adnl"@) =~= (|arrival: Arrival|
        tally_of(arrival.validator.resolution.status@) == Tally::Invalid));
    law_each_arrival_is_counted_once(arrivals);
}

} // verus!

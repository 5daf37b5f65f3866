//! What a collection reports, what it remembers for the next one, and whether there
//! is a next one.

use vstd::prelude::*;
use vstd::string::*;
use vstd::utf8::*;

use crate::collect;
use crate::collect::{ChainInfo, ClockResponse, FullValidator};
use crate::config;
use crate::config::{resolver_kind, AppConfig};
use crate::geo::GeoRecord;
use crate::keyed::TextMap;
use crate::ordering;
use crate::paths;
use crate::resolution::ResolutionView;
use crate::text;
use crate::validator_map;
use crate::validator_map::{build_map_nodes, CachedMapNode, MapNode};

verus! {

/// What the collector remembers between collections.
#[derive(Clone, Copy, PartialEq, Eq, Structural, Debug)]
pub struct RuntimeState {
    pub last_time_full_check: u64,
    pub last_success_at: u64,
    pub last_generated_at: u64,
    pub last_validators_total: usize,
    pub last_validators_with_adnl: usize,
    pub last_resolved_total: usize,
    pub last_map_nodes: usize,
    pub last_geo_lookups: usize,
}

impl Default for RuntimeState {
    fn default() -> (r: Self)
        ensures
            r == (RuntimeState {
                last_time_full_check: 0,
                last_success_at: 0,
                last_generated_at: 0,
                last_validators_total: 0,
                last_validators_with_adnl: 0,
                last_resolved_total: 0,
                last_map_nodes: 0,
                last_geo_lookups: 0,
            }),
    {
        RuntimeState {
            last_time_full_check: 0,
            last_success_at: 0,
            last_generated_at: 0,
            last_validators_total: 0,
            last_validators_with_adnl: 0,
            last_resolved_total: 0,
            last_map_nodes: 0,
            last_geo_lookups: 0,
        }
    }
}

/// How the addresses of a report were resolved.
pub struct ResolverMetadata {
    pub kind: String,
    pub attempted_network_resolution: bool,
    pub global_config_path: String,
    pub local_adnl_addr: String,
    pub bootstrap_nodes: usize,
    pub lookup_policy: String,
}

/// The full report of a collection.
pub struct FullOutput {
    pub schema_version: u32,
    pub chain: ChainInfo,
    pub source_url: String,
    pub fetched_at: u64,
    pub generated_at: u64,
    pub round_id: u64,
    pub round_color: Option<String>,
    pub validators_total: usize,
    pub validators_main: usize,
    pub validators_with_adnl: usize,
    pub resolved_total: usize,
    pub map_nodes: usize,
    pub resolver: ResolverMetadata,
    pub validators: Vec<FullValidator>,
}

/// How many validators have an ADNL address.
pub open spec fn with_adnl(validators: Seq<FullValidator>) -> nat {
    validators.filter(|v: FullValidator| v.adnl_addr is Some).len()
}

/// How many validators were resolved to an address.
pub open spec fn resolved_count(validators: Seq<FullValidator>) -> nat {
    validators.filter(|v: FullValidator| v.resolution@.is_resolved()).len()
}

/// The validators that have an ADNL address, and those that were resolved.
pub fn count_validators(validators: &Vec<FullValidator>) -> (r: (usize, usize))
    ensures
        r.0 == with_adnl(validators@),
        r.1 == resolved_count(validators@),
{
    let ghost has_adnl = |v: FullValidator| v.adnl_addr is Some;
    let ghost is_resolved = |v: FullValidator| v.resolution@.is_resolved();
    let mut with: usize = 0;
    let mut resolved: usize = 0;
    let mut i: usize = 0;
    proof {
        reveal(Seq::filter);
        assert(validators@.take(0).len() == 0);
    }
    while i < validators.len()
        invariant
            i <= validators@.len(),
            has_adnl == (|v: FullValidator| v.adnl_addr is Some),
            is_resolved == (|v: FullValidator| v.resolution@.is_resolved()),
            with == validators@.take(i as int).filter(has_adnl).len(),
            resolved == validators@.take(i as int).filter(is_resolved).len(),
            with <= i,
            resolved <= i,
        decreases validators@.len() - i,
    {
        proof {
            reveal(Seq::filter);
            assert(validators@.take(i + 1).drop_last() =~= validators@.take(i as int));
        }
        if validators[i].adnl_addr.is_some() {
            with = with + 1;
        }
        if validators[i].resolution.is_resolved() {
            resolved = resolved + 1;
        }
        i = i + 1;
    }
    assert(validators@.take(i as int) =~= validators@);
    (with, resolved)
}

/// The time since `then`, or nothing where `then` lies ahead.
pub open spec fn elapsed(now: u64, then: u64) -> int {
    if now >= then {
        now - then
    } else {
        0
    }
}

/// Whether every ip is looked up again: once the configured time has passed since
/// this was last done.
pub open spec fn refresh_due(config: AppConfig, state: RuntimeState, now: u64) -> bool {
    elapsed(now, state.last_time_full_check) >= config.full_geo_refresh_secs
}

/// Whether every ip is looked up again.
pub fn full_geo_refresh_due(config: &AppConfig, state: &RuntimeState, now: u64) -> (r: bool)
    ensures
        r == refresh_due(*config, *state, now),
{
    now.saturating_sub(state.last_time_full_check) >= config.full_geo_refresh_secs
}

/// Whether `report` is the report at `now` of what the clock told and what was found.
pub open spec fn is_report(
    report: FullOutput,
    config: AppConfig,
    clock: ClockResponse,
    validators: Vec<FullValidator>,
    map_nodes: usize,
    bootstrap_nodes: usize,
    now: u64,
) -> bool {
    &&& report.schema_version == 1
    &&& report.chain == clock.chain
    &&& report.source_url@ == collect::clock_url(config.base_url@, config.chain@)
    &&& report.fetched_at == clock.fetched_at
    &&& report.generated_at == now
    &&& report.round_id == clock.current_set.round_id
    &&& report.round_color == clock.current_set.round_color
    &&& report.validators_total == clock.current_set.total
    &&& report.validators_main == clock.current_set.main
    &&& report.validators_with_adnl == with_adnl(validators@)
    &&& report.resolved_total == resolved_count(validators@)
    &&& report.map_nodes == map_nodes
    &&& report.resolver.kind@ == config::resolver_kind_of(config.chain@)
    &&& report.resolver.attempted_network_resolution
    &&& report.resolver.global_config_path@ == paths::lossy_text(
        config.resolver.global_config_path@,
    )
    &&& valid_utf8(config.resolver.global_config_path@) ==> report.resolver.global_config_path@
        == decode_utf8(config.resolver.global_config_path@)
    &&& report.resolver.local_adnl_addr == config.resolver.local_adnl_addr
    &&& report.resolver.bootstrap_nodes == bootstrap_nodes
    &&& report.resolver.lookup_policy@ == "all-bootstrap-peers-full-search"@
    &&& report.validators == validators
}

/// Writes the report of a collection.
pub fn full_output(
    config: &AppConfig,
    clock: ClockResponse,
    validators: Vec<FullValidator>,
    map_nodes: usize,
    bootstrap_nodes: usize,
    now: u64,
) -> (r: FullOutput)
    ensures
        is_report(r, *config, clock, validators, map_nodes, bootstrap_nodes, now),
{
    let (validators_with_adnl, resolved_total): (usize, usize) = count_validators(&validators);
    FullOutput {
        schema_version: 1,
        chain: clock.chain,
        source_url: collect::source_url(config),
        fetched_at: clock.fetched_at,
        generated_at: now,
        round_id: clock.current_set.round_id,
        round_color: clock.current_set.round_color,
        validators_total: clock.current_set.total,
        validators_main: clock.current_set.main,
        validators_with_adnl,
        resolved_total,
        map_nodes,
        resolver: ResolverMetadata {
            kind: resolver_kind(config.chain.as_str()).to_owned(),
            attempted_network_resolution: true,
            global_config_path: config.resolver.global_config_path.display(),
            local_adnl_addr: config.resolver.local_adnl_addr.clone(),
            bootstrap_nodes,
            lookup_policy: "all-bootstrap-peers-full-search".to_owned(),
        },
        validators,
    }
}

/// What is remembered after a collection that succeeded at `now`. The time of the
/// last full geo refresh moves only where there was one.
pub open spec fn state_after(
    state: RuntimeState,
    output: FullOutput,
    geo_lookups: usize,
    full_geo_refresh: bool,
    now: u64,
) -> RuntimeState {
    RuntimeState {
        last_time_full_check: if full_geo_refresh {
            now
        } else {
            state.last_time_full_check
        },
        last_success_at: now,
        last_generated_at: now,
        last_validators_total: output.validators_total,
        last_validators_with_adnl: output.validators_with_adnl,
        last_resolved_total: output.resolved_total,
        last_map_nodes: output.map_nodes,
        last_geo_lookups: geo_lookups,
    }
}

/// Remembers a collection that succeeded at `now`.
pub fn next_state(
    state: RuntimeState,
    output: &FullOutput,
    geo_lookups: usize,
    full_geo_refresh: bool,
    now: u64,
) -> (r: RuntimeState)
    ensures
        r == state_after(state, *output, geo_lookups, full_geo_refresh, now),
{
    let last_time_full_check: u64 = if full_geo_refresh {
        now
    } else {
        state.last_time_full_check
    };
    RuntimeState {
        last_time_full_check,
        last_success_at: now,
        last_generated_at: now,
        last_validators_total: output.validators_total,
        last_validators_with_adnl: output.validators_with_adnl,
        last_resolved_total: output.resolved_total,
        last_map_nodes: output.map_nodes,
        last_geo_lookups: geo_lookups,
    }
}

/// What a collection leaves behind.
pub struct Conclusion {
    pub output: FullOutput,
    pub map_nodes: Vec<MapNode>,
    pub map_cache: TextMap<CachedMapNode>,
    pub state: RuntimeState,
}

/// Concludes a collection at `now`: makes the map, writes the report on it and on the
/// validators, and remembers both.
pub fn conclude(
    config: &AppConfig,
    clock: ClockResponse,
    validators: Vec<FullValidator>,
    bootstrap_nodes: usize,
    geo_cache: &TextMap<GeoRecord>,
    map_cache: TextMap<CachedMapNode>,
    state: RuntimeState,
    geo_lookups: usize,
    full_geo_refresh: bool,
    now: u64,
) -> (r: Conclusion)
    ensures
        is_report(
            r.output,
            *config,
            clock,
            validators,
            r.map_nodes.len(),
            bootstrap_nodes,
            now,
        ),
        ({
            let input = validator_map::MapInput {
                peers: validator_map::peers_of(validators@),
                addresses: validator_map::addresses_of(validators@),
                geo: geo_cache@,
                now,
                stale_after: config.map_stale_after_secs,
            };
            &&& r.map_cache@ == input.cache_after(map_cache@, validators@.len())
            &&& ordering::stably_sorted::<MapNode>(
                input.nodes(map_cache@, validators@.len()),
                ordering::shown(r.map_nodes@),
            )
        }),
        forall|i: int|
            0 <= i < validators@.len() && is_ascii_chars(
                (#[trigger] validators@[i]).validator_public_key@,
            ) ==> validator_map::peers_of(validators@)[i]
                == validators@[i].validator_public_key@.map_values(
                |c: char| text::ascii_lower(c),
            ),
        r.state == state_after(state, r.output, geo_lookups, full_geo_refresh, now),
{
    let (map_nodes, map_cache): (Vec<MapNode>, TextMap<CachedMapNode>) = build_map_nodes(
        config,
        &validators,
        geo_cache,
        map_cache,
        now,
    );
    let output: FullOutput = full_output(
        config,
        clock,
        validators,
        map_nodes.len(),
        bootstrap_nodes,
        now,
    );
    let state: RuntimeState = next_state(state, &output, geo_lookups, full_geo_refresh, now);
    Conclusion { output, map_nodes, map_cache, state }
}

/// What comes after a collection.
#[derive(Clone, Copy, PartialEq, Eq, Structural, Debug)]
pub enum AfterCollection {
    /// End with the error of the collection.
    Fail,
    /// End.
    Stop,
    /// Collect again after this many seconds.
    Sleep(u64),
}

/// Decides what comes after a collection: a single one ends with its outcome, and
/// otherwise there is a next one, whether this one failed or not.
pub fn after_collection(config: &AppConfig, once: bool, failed: bool) -> (r: AfterCollection)
    ensures
        r == (if !once {
            AfterCollection::Sleep(config.interval_secs)
        } else if failed {
            AfterCollection::Fail
        } else {
            AfterCollection::Stop
        }),
{
    if failed && once {
        return AfterCollection::Fail;
    }
    if once {
        AfterCollection::Stop
    } else {
        AfterCollection::Sleep(config.interval_secs)
    }
}

/// After a collection with a full geo refresh the next one is due once the configured
/// time has passed since, and no earlier; a collection without one leaves the wait as
/// it was.
pub proof fn law_full_refresh_waits(
    config: AppConfig,
    state: RuntimeState,
    output: FullOutput,
    geo_lookups: usize,
    now: u64,
    later: u64,
)
    requires
        now <= later || config.full_geo_refresh_secs > 0,
    ensures
        refresh_due(config, state_after(state, output, geo_lookups, true, now), later)
            <==> later - now >= config.full_geo_refresh_secs,
        refresh_due(config, state_after(state, output, geo_lookups, false, now), later)
            <==> refresh_due(config, state, later),
{
}

/// Where validators without an ADNL address are settled as such, no more validators
/// are resolved than have an address.
pub proof fn law_resolved_validators_have_adnl(validators: Seq<FullValidator>)
    requires
        forall|i: int|
            0 <= i < validators.len() && (#[trigger] validators[i]).adnl_addr is None
                ==> validators[i].resolution@ == ResolutionView::missing_adnl(),
    ensures
        resolved_count(validators) <= with_adnl(validators),
    decreases validators.len(),
{
    reveal(Seq::filter);
    if validators.len() > 0 {
        let shorter = validators.drop_last();
        assert forall|i: int|
            0 <= i < shorter.len() && (#[trigger] shorter[i]).adnl_addr is None implies shorter[i].resolution@
            == ResolutionView::missing_adnl() by {
            assert(shorter[i] == validators[i]);
        }
        law_resolved_validators_have_adnl(shorter);
        let last = validators[validators.len() - 1];
        assert(last == validators.last());
        reveal_strlit("resolved");
        reveal_strlit("missing_adnl");
        if last.adnl_addr is None {
            assert(last.resolution@.status.len() == 12);
            assert(!last.resolution@.is_resolved());
        }
    }
}

/// The time since an earlier moment reaches from it to now; of a moment ahead nothing has
/// passed.
pub proof fn law_elapsed_time(now: u64, then: u64)
    ensures
        elapsed(now, then) >= 0,
        then <= now ==> then + elapsed(now, then) == now,
        then > now ==> elapsed(now, then) == 0,
{
}

/// A full refresh is due if and only if the configured time has passed since the last one;
/// with no time configured it always is.
pub proof fn law_full_refresh_is_due_after_its_time(
    config: AppConfig,
    state: RuntimeState,
    now: u64,
)
    ensures
        refresh_due(config, state, now) <==> config.full_geo_refresh_secs == 0
            || state.last_time_full_check + config.full_geo_refresh_secs <= now,
{
}

/// How many validators a report says have an ADNL address and were resolved.
pub proof fn law_validators_are_counted(validators: Seq<FullValidator>)
    ensures
        with_adnl(validators) == validators.filter(|v: FullValidator| !(v.adnl_addr is None)).len(),
        resolved_count(validators) == validators.filter(
            |v: FullValidator|
                v.resolution.status@ == "resolved"@ && v.resolution.addresses@.len() >= 1,
        ).len(),
{
    assert((|v: FullValidator| !(v.adnl_addr is None)) =~= (|v: FullValidator|
        v.adnl_addr is Some));
    assert((|v: FullValidator|
        v.resolution.status@ == "resolved"@ && v.resolution.addresses@.len() >= 1) =~= (|
        v: FullValidator,
    | v.resolution@.is_resolved()));
}

/// A report tells what the clock told, when it was made, what was found and how, and holds
/// the validators as they were found.
pub proof fn law_report_tells_what_was_found(
    report: FullOutput,
    config: AppConfig,
    clock: ClockResponse,
    validators: Vec<FullValidator>,
    map_nodes: usize,
    bootstrap_nodes: usize,
    now: u64,
)
    requires
        is_report(report, config, clock, validators, map_nodes, bootstrap_nodes, now),
    ensures
        report.schema_version == 1,
        report.chain == clock.chain,
        report.source_url@ == config.base_url@ + "/api/chains/"@ + config.chain@ + "/clock"@,
        report.fetched_at == clock.fetched_at,
        report.generated_at == now,
        report.round_id == clock.current_set.round_id,
        report.round_color == clock.current_set.round_color,
        report.validators_total == clock.current_set.total,
        report.validators_main == clock.current_set.main,
        report.validators_with_adnl == validators@.filter(
            |v: FullValidator| !(v.adnl_addr is None),
        ).len(),
        report.resolved_total == validators@.filter(
            |v: FullValidator|
                v.resolution.status@ == "resolved"@ && v.resolution.addresses@.len() >= 1,
        ).len(),
        report.map_nodes == map_nodes,
        config.chain@ == "everscale"@ ==> report.resolver.kind@ == "ever-dht"@,
        config.chain@ == "ton"@ ==> report.resolver.kind@ == "ton-dht"@,
        config.chain@ != "everscale"@ && config.chain@ != "ton"@ ==> report.resolver.kind@
            == "adnl-dht"@,
        report.resolver.attempted_network_resolution,
        report.resolver.global_config_path@ == paths::lossy_text(
            config.resolver.global_config_path.bytes@,
        ),
        report.resolver.local_adnl_addr@ == config.resolver.local_adnl_addr@,
        report.resolver.bootstrap_nodes == bootstrap_nodes,
        report.resolver.lookup_policy@ == "all-bootstrap-peers-full-search"@,
        report.validators@ == validators@,
{
    law_validators_are_counted(validators@);
    config::law_resolver_is_named_by_chain(config.chain@);
}

/// What is remembered of a collection is its time and the numbers of its report; the time
/// of the last full refresh is that of the collection where it made one, and stays where it
/// did not.
pub proof fn law_state_remembers_the_report(
    state: RuntimeState,
    output: FullOutput,
    geo_lookups: usize,
    full_geo_refresh: bool,
    now: u64,
)
    ensures
        ({
            let after = state_after(state, output, geo_lookups, full_geo_refresh, now);
            &&& full_geo_refresh ==> after.last_time_full_check == now
            &&& !full_geo_refresh ==> after.last_time_full_check == state.last_time_full_check
            &&& after.last_success_at == now
            &&& after.last_generated_at == now
            &&& after.last_validators_total == output.validators_total
            &&& after.last_validators_with_adnl == output.validators_with_adnl
            &&& after.last_resolved_total == output.resolved_total
            &&& after.last_map_nodes == output.map_nodes
            &&& after.last_geo_lookups == geo_lookups
        }),
{
}

} // verus!

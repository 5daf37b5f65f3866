use everscale_address_resolver::collect::{
    at_least_one, check_chain, full_validator, lookup_plan, source_url, Arrival, ChainInfo,
    ClockResponse, Collector, FullValidator, LookupPlan, ValidatorApi, ValidatorSet,
    ValidatorSource,
};
use everscale_address_resolver::config::{AppConfig, GeoConfig, ResolverConfig};
use everscale_address_resolver::geo::{Coordinate, GeoRecord, GeoRefresh};
use everscale_address_resolver::keyed::TextMap;
use everscale_address_resolver::paths::FilePath;
use everscale_address_resolver::report::{
    after_collection, conclude, count_validators, full_geo_refresh_due, full_output, next_state,
    AfterCollection, RuntimeState,
};
use everscale_address_resolver::resolution::{Resolution, ResolvedAddress};
use everscale_address_resolver::validator_map::{
    build_map_nodes, map_node_for_address, map_nodes_of_peers, CachedMapNode, MapNode,
};

fn path(text: &str) -> FilePath {
    FilePath { bytes: text.as_bytes().to_vec() }
}

fn config() -> AppConfig {
    AppConfig {
        base_url: "https://clock.example".to_owned(),
        chain: "everscale".to_owned(),
        interval_secs: 300,
        full_geo_refresh_secs: 3600,
        state: path("state.json"),
        output: path("full.json"),
        map_output: path("nodes.json"),
        map_cache: path("cache.json"),
        map_stale_after_secs: 3600,
        compact: false,
        resolver: ResolverConfig {
            global_config_path: path("/etc/global.json"),
            local_adnl_addr: "0.0.0.0:4191".to_owned(),
            lookup_timeout_secs: 30,
            workers: 16,
        },
        geo: GeoConfig {
            endpoint: "http://geo.example".to_owned(),
            batch_size: 100,
            cache: path("geo.json"),
        },
    }
}

fn api(public_key: &str, adnl_addr: Option<&str>) -> ValidatorApi {
    ValidatorApi {
        public_key: public_key.to_owned(),
        adnl_addr: adnl_addr.map(|a| a.to_owned()),
        wallet: Some("wallet".to_owned()),
        source: Some(ValidatorSource {
            address: "source".to_owned(),
            contract_type_hash: Some("hash".to_owned()),
        }),
        contract_type: None,
        stake: Some("10".to_owned()),
        weight: Some("20".to_owned()),
    }
}

fn clock(validators: Vec<ValidatorApi>) -> ClockResponse {
    ClockResponse {
        chain: ChainInfo {
            id: "everscale".to_owned(),
            name: "Everscale".to_owned(),
            color: "#fff".to_owned(),
            token_symbol: "EVER".to_owned(),
            rpc_label: None,
        },
        fetched_at: 11,
        current_set: ValidatorSet {
            round_id: 12,
            round_color: Some("red".to_owned()),
            total: 13,
            main: 14,
            validators,
        },
    }
}

fn at(ip: &str) -> Resolution {
    Resolution::resolved(ResolvedAddress {
        ip: ip.to_owned(),
        port: 1,
        version: "udp4".to_owned(),
    })
}

fn full(public_key: &str, resolution: Resolution) -> FullValidator {
    full_validator(&api(public_key, Some("adnl")), resolution)
}

fn record(ip: &str, country: &str, city: &str, degrees: Option<f64>) -> GeoRecord {
    GeoRecord {
        status: "success".to_owned(),
        message: None,
        query: ip.to_owned(),
        country: Some(country.to_owned()),
        country_code: None,
        region_name: None,
        city: Some(city.to_owned()),
        lat: degrees.map(|d| Coordinate { bits: d.to_bits() }),
        lon: degrees.map(|d| Coordinate { bits: (-d).to_bits() }),
        isp: None,
        org: None,
        as_name: None,
    }
}

fn geo(records: Vec<GeoRecord>) -> TextMap<GeoRecord> {
    let mut cache = TextMap::new();
    for record in records {
        cache.insert(record.query.clone(), record);
    }
    cache
}

fn peers(nodes: &[MapNode]) -> Vec<String> {
    nodes.iter().map(|node| node.peer.clone()).collect()
}

#[test]
fn source_url_names_the_chain() {
    assert_eq!(source_url(&config()), "https://clock.example/api/chains/everscale/clock");
}

#[test]
fn other_chain_is_refused() {
    assert!(check_chain(&config(), &clock(vec![])).is_ok());
    let mut other = clock(vec![]);
    other.chain.id = "ton".to_owned();
    assert_eq!(
        check_chain(&config(), &other).unwrap_err(),
        "expected chain id everscale, got ton"
    );
}

#[test]
fn counts_are_at_least_one() {
    assert_eq!(at_least_one(0), 1);
    assert_eq!(at_least_one(1), 1);
    assert_eq!(at_least_one(16), 16);
}

#[test]
fn only_hex_addresses_are_looked_up() {
    match lookup_plan(&api("k", None)) {
        LookupPlan::Settled(resolution) => assert_eq!(resolution.status, "missing_adnl"),
        _ => panic!("nothing to look up"),
    }
    match lookup_plan(&api("k", Some("abc"))) {
        LookupPlan::Settled(resolution) => {
            assert_eq!(resolution.status, "invalid_adnl");
            assert_eq!(
                resolution.error.as_deref(),
                Some("adnl_addr must be 32 bytes hex, got abc")
            );
        }
        _ => panic!("nothing to look up"),
    }
    let good = "Ab".repeat(32);
    match lookup_plan(&api("k", Some(&good))) {
        LookupPlan::Lookup(adnl_addr) => assert_eq!(adnl_addr, good),
        _ => panic!("expected a lookup"),
    }
}

#[test]
fn full_validator_keeps_what_the_clock_told() {
    let full = full_validator(&api("Key", Some("adnl")), at("1.1.1.1"));
    assert_eq!(full.validator_public_key, "Key");
    assert_eq!(full.adnl_addr.as_deref(), Some("adnl"));
    assert_eq!(full.wallet.as_deref(), Some("wallet"));
    assert_eq!(full.source_address.as_deref(), Some("source"));
    assert_eq!(full.source_contract_type_hash.as_deref(), Some("hash"));
    assert_eq!(full.contract_type, None);
    assert_eq!(full.stake.as_deref(), Some("10"));
    assert_eq!(full.weight.as_deref(), Some("20"));
    assert_eq!(full.resolution.addresses[0].ip, "1.1.1.1");
    let mut plain = api("Key", None);
    plain.source = None;
    let full = full_validator(&plain, Resolution::missing_adnl());
    assert_eq!(full.source_address, None);
    assert_eq!(full.source_contract_type_hash, None);
}

#[test]
fn validators_come_out_in_the_order_of_the_clock() {
    let order = [3usize, 0, 4, 1, 2];
    let mut collector = Collector::new(order.len());
    for index in order {
        let validator = full(&format!("key {index}"), at("1.1.1.1"));
        collector = collector.record(Arrival { index, validator }).0;
    }
    let keys: Vec<String> =
        collector.finish().into_iter().map(|v| v.validator_public_key).collect();
    assert_eq!(keys, vec!["key 0", "key 1", "key 2", "key 3", "key 4"]);
}

#[test]
fn progress_is_told_every_25_and_at_the_end() {
    let mut collector = Collector::new(60);
    let mut told = vec![];
    for index in 0..60usize {
        let resolution = match index % 4 {
            0 => at("1.1.1.1"),
            1 => Resolution::missing_adnl(),
            2 => Resolution::invalid_adnl("x"),
            _ => Resolution::failed("y".to_owned()),
        };
        let (next, progress) =
            collector.record(Arrival { index, validator: full("k", resolution) });
        collector = next;
        if let Some(p) = progress {
            assert_eq!(p.total, 60);
            assert_eq!(p.resolved + p.missing + p.invalid + p.failed, p.done);
            told.push((p.done, p.resolved, p.missing, p.invalid, p.failed));
        }
    }
    assert_eq!(told, vec![(25, 7, 6, 6, 6), (50, 13, 13, 12, 12), (60, 15, 15, 15, 15)]);
}

#[test]
fn validators_are_counted() {
    let mut validators = vec![
        full("a", at("1.1.1.1")),
        full("b", Resolution::failed("x".to_owned())),
        full_validator(&api("c", None), Resolution::missing_adnl()),
    ];
    assert_eq!(count_validators(&validators), (2, 1));
    validators.clear();
    assert_eq!(count_validators(&validators), (0, 0));
}

#[test]
fn full_refresh_comes_after_the_configured_time() {
    let mut state = RuntimeState::default();
    assert_eq!(state.last_time_full_check, 0);
    assert!(full_geo_refresh_due(&config(), &state, 1_700_000_000));
    state.last_time_full_check = 10_000;
    assert!(!full_geo_refresh_due(&config(), &state, 13_599));
    assert!(full_geo_refresh_due(&config(), &state, 13_600));
    assert!(!full_geo_refresh_due(&config(), &state, 9_000));
}

#[test]
fn report_tells_what_was_found() {
    let validators = vec![full("a", at("1.1.1.1")), full("b", Resolution::missing_adnl())];
    let output = full_output(&config(), clock(vec![]), validators, 7, 8, 99);
    assert_eq!(output.schema_version, 1);
    assert_eq!(output.chain.name, "Everscale");
    assert_eq!(output.source_url, "https://clock.example/api/chains/everscale/clock");
    assert_eq!((output.fetched_at, output.generated_at, output.round_id), (11, 99, 12));
    assert_eq!(output.round_color.as_deref(), Some("red"));
    assert_eq!((output.validators_total, output.validators_main), (13, 14));
    assert_eq!((output.validators_with_adnl, output.resolved_total), (2, 1));
    assert_eq!(output.map_nodes, 7);
    assert_eq!(output.resolver.kind, "ever-dht");
    assert!(output.resolver.attempted_network_resolution);
    assert_eq!(output.resolver.global_config_path, "/etc/global.json");
    assert_eq!(output.resolver.local_adnl_addr, "0.0.0.0:4191");
    assert_eq!(output.resolver.bootstrap_nodes, 8);
    assert_eq!(output.resolver.lookup_policy, "all-bootstrap-peers-full-search");
    assert_eq!(output.validators.len(), 2);

    let before = RuntimeState { last_time_full_check: 5, ..RuntimeState::default() };
    let kept = next_state(before, &output, 3, false, 99);
    assert_eq!(kept.last_time_full_check, 5);
    assert_eq!((kept.last_success_at, kept.last_generated_at), (99, 99));
    assert_eq!(kept.last_validators_total, 13);
    assert_eq!(kept.last_validators_with_adnl, 2);
    assert_eq!(kept.last_resolved_total, 1);
    assert_eq!(kept.last_map_nodes, 7);
    assert_eq!(kept.last_geo_lookups, 3);
    assert_eq!(next_state(before, &output, 3, true, 99).last_time_full_check, 99);
}

#[test]
fn a_single_collection_ends_with_its_outcome() {
    assert_eq!(after_collection(&config(), true, true), AfterCollection::Fail);
    assert_eq!(after_collection(&config(), true, false), AfterCollection::Stop);
    assert_eq!(after_collection(&config(), false, true), AfterCollection::Sleep(300));
    assert_eq!(after_collection(&config(), false, false), AfterCollection::Sleep(300));
}

#[test]
fn ips_are_looked_up_once_and_in_order() {
    let mut two = at("9.9.9.9");
    two.addresses.push(at("10.0.0.1").addresses.pop().unwrap());
    let validators = vec![
        full("a", two),
        full("b", at("1.1.1.1")),
        full("c", at("9.9.9.9")),
        full("d", Resolution::missing_adnl()),
        full("e", at("5.5.5.5")),
    ];
    let cache = geo(vec![record("5.5.5.5", "X", "Y", None)]);
    let mut refresh = GeoRefresh::start(cache, &validators, false, 2);
    assert_eq!(refresh.next_batch().unwrap(), vec!["1.1.1.1", "10.0.0.1"]);
    let mut failed = record("10.0.0.1", "F", "F", None);
    failed.status = "fail".to_owned();
    refresh = refresh.absorb(vec![record("1.1.1.1", "A", "B", Some(1.5)), failed]);
    assert_eq!(refresh.next_batch().unwrap(), vec!["9.9.9.9"]);
    refresh = refresh.absorb(vec![record("9.9.9.9", "C", "D", Some(2.5))]);
    assert!(refresh.next_batch().is_none());
    let (cache, lookups) = refresh.finish();
    assert_eq!(lookups, 3);
    let keys: Vec<String> = cache.into_entries().into_iter().map(|(key, _)| key).collect();
    assert_eq!(keys, vec!["1.1.1.1", "5.5.5.5", "9.9.9.9"]);
}

#[test]
fn full_refresh_asks_for_cached_ips_too() {
    let validators = vec![full("a", at("5.5.5.5"))];
    let cached = || geo(vec![record("5.5.5.5", "X", "Y", None)]);
    assert!(GeoRefresh::start(cached(), &validators, false, 100).next_batch().is_none());
    let refresh = GeoRefresh::start(cached(), &validators, true, 0);
    assert_eq!(refresh.next_batch().unwrap(), vec!["5.5.5.5"]);
    let refresh = refresh.absorb(vec![record("5.5.5.5", "New", "Z", None)]);
    let (cache, lookups) = refresh.finish();
    assert_eq!(lookups, 1);
    assert_eq!(cache.get("5.5.5.5").unwrap().country.as_deref(), Some("New"));
}

#[test]
fn nodes_need_coordinates() {
    let address = at("1.1.1.1").addresses.pop().unwrap();
    let node = map_node_for_address(
        "peer",
        &address,
        &geo(vec![record("1.1.1.1", "A", "B", Some(1.25))]),
    )
    .unwrap();
    assert_eq!(node.peer, "peer");
    assert_eq!(node.ip, "1.1.1.1");
    assert_eq!((node.country.as_str(), node.city.as_str(), node.isp.as_str()), ("A", "B", ""));
    assert_eq!(f64::from_bits(node.lat.bits), 1.25);
    assert_eq!(f64::from_bits(node.lon.bits), -1.25);

    assert!(map_node_for_address("peer", &address, &geo(vec![])).is_none());
    let without = geo(vec![record("1.1.1.1", "A", "B", None)]);
    assert!(map_node_for_address("peer", &address, &without).is_none());
    let mut half = record("1.1.1.1", "A", "B", Some(1.0));
    half.lon = None;
    assert!(map_node_for_address("peer", &address, &geo(vec![half])).is_none());
    let mut bare = record("1.1.1.1", "A", "B", Some(1.0));
    bare.country = None;
    bare.city = None;
    let node = map_node_for_address("peer", &address, &geo(vec![bare])).unwrap();
    assert_eq!((node.country.as_str(), node.city.as_str()), ("", ""));
}

#[test]
fn map_is_sorted_and_peers_are_lower_case() {
    let cache = geo(vec![
        record("1.1.1.1", "B", "x", Some(1.0)),
        record("2.2.2.2", "A", "y", Some(2.0)),
        record("3.3.3.3", "A", "x", Some(3.0)),
        record("4.4.4.4", "A", "x", Some(4.0)),
    ]);
    let validators = vec![
        full("KEY1", at("1.1.1.1")),
        full("Key2", at("2.2.2.2")),
        full("kEy4", at("4.4.4.4")),
        full("\u{c9}", at("3.3.3.3")),
        full("key3", at("3.3.3.3")),
        full("nowhere", at("8.8.8.8")),
    ];
    let (nodes, cached) = build_map_nodes(&config(), &validators, &cache, TextMap::new(), 50);
    assert_eq!(peers(&nodes), vec!["key3", "\u{e9}", "key4", "key2", "key1"]);
    let entries = cached.into_entries();
    let keys: Vec<&str> = entries.iter().map(|(key, _)| key.as_str()).collect();
    assert_eq!(keys, vec!["key1", "key2", "key3", "key4", "\u{e9}"]);
    assert!(entries.iter().all(|(_, cached)| cached.observed_at == 50));
}

#[test]
fn first_address_with_a_record_counts() {
    let cache = geo(vec![
        record("1.1.1.1", "A", "x", None),
        record("2.2.2.2", "B", "y", Some(2.0)),
        record("3.3.3.3", "C", "z", Some(3.0)),
    ]);
    let mut resolution = at("0.0.0.0");
    for ip in ["1.1.1.1", "2.2.2.2", "3.3.3.3"] {
        resolution.addresses.push(at(ip).addresses.pop().unwrap());
    }
    let (nodes, _) =
        build_map_nodes(&config(), &vec![full("k", resolution)], &cache, TextMap::new(), 1);
    assert_eq!(nodes.len(), 1);
    assert_eq!(nodes[0].ip, "2.2.2.2");
}

fn placed_at(now: u64) -> TextMap<CachedMapNode> {
    let cache = geo(vec![record("1.1.1.1", "A", "x", Some(1.0))]);
    let validators = vec![full("K", at("1.1.1.1"))];
    build_map_nodes(&config(), &validators, &cache, TextMap::new(), now).1
}

#[test]
fn validator_stays_on_the_map_for_the_grace_period() {
    let gone = || vec![full("K", Resolution::failed("x".to_owned()))];
    for (now, stays) in [(1000, true), (4600, true), (4601, false), (900, true)] {
        let (nodes, cached) =
            build_map_nodes(&config(), &gone(), &geo(vec![]), placed_at(1000), now);
        assert_eq!(nodes.len(), if stays { 1 } else { 0 }, "at {now}");
        if stays {
            assert_eq!(nodes[0].ip, "1.1.1.1");
        }
        assert_eq!(cached.get("k").unwrap().observed_at, 1000);
    }
}

#[test]
fn cached_node_of_another_peer_is_not_shown() {
    let validators = vec![full("Other", Resolution::failed("x".to_owned()))];
    let (nodes, cached) =
        build_map_nodes(&config(), &validators, &geo(vec![]), placed_at(1000), 1001);
    assert!(nodes.is_empty());
    assert!(cached.contains_key("k"));
}

#[test]
fn nodes_that_tie_keep_their_order() {
    let mut first = record("1.1.1.1", "A", "x", Some(1.0));
    first.isp = Some("first".to_owned());
    let validators = vec![
        full("k", at("1.1.1.1")),
        full("K", Resolution::failed("x".to_owned())),
    ];
    let names = vec!["same".to_owned(), "same".to_owned()];
    let (nodes, _) = map_nodes_of_peers(
        &config(),
        &names,
        &validators,
        &geo(vec![first]),
        TextMap::new(),
        7,
    );
    assert_eq!(peers(&nodes), vec!["same", "same"]);
    assert!(nodes.iter().all(|node| node.isp == "first"));
}

#[test]
fn conclusion_ties_map_report_and_state() {
    let cache = geo(vec![record("1.1.1.1", "A", "x", Some(1.0))]);
    let validators = vec![full("K", at("1.1.1.1")), full("L", at("2.2.2.2"))];
    let conclusion = conclude(
        &config(),
        clock(vec![]),
        validators,
        4,
        &cache,
        TextMap::new(),
        RuntimeState::default(),
        2,
        true,
        77,
    );
    assert_eq!(conclusion.map_nodes.len(), 1);
    assert_eq!(conclusion.output.map_nodes, 1);
    assert_eq!(conclusion.output.resolver.bootstrap_nodes, 4);
    assert_eq!(conclusion.state.last_map_nodes, 1);
    assert_eq!(conclusion.state.last_geo_lookups, 2);
    assert_eq!(conclusion.state.last_time_full_check, 77);
    assert_eq!(conclusion.state.last_resolved_total, 2);
    assert!(conclusion.map_cache.contains_key("k"));
}

#[test]
fn validator_survives_several_maps() {
    let gone = vec![
        full("Other", Resolution::missing_adnl()),
        full("K", Resolution::failed("x".to_owned())),
    ];
    let mut cache = placed_at(1000);
    for (now, stays) in [(1300, true), (2500, true), (4600, true), (4601, false), (9000, false)] {
        let (nodes, next) = build_map_nodes(&config(), &gone, &geo(vec![]), cache, now);
        cache = next;
        let shown = if stays { vec!["k".to_owned()] } else { vec![] };
        assert_eq!(peers(&nodes), shown, "at {now}");
    }
}

#[test]
fn namesake_placed_last_is_cached() {
    let records = geo(vec![
        record("1.1.1.1", "A", "x", Some(1.0)),
        record("2.2.2.2", "A", "x", Some(2.0)),
    ]);
    let validators = vec![
        full("K", at("1.1.1.1")),
        full("k", at("2.2.2.2")),
        full("K", Resolution::failed("x".to_owned())),
    ];
    let (nodes, cached) = build_map_nodes(&config(), &validators, &records, TextMap::new(), 5);
    let ips: Vec<&str> = nodes.iter().map(|node| node.ip.as_str()).collect();
    assert_eq!(ips, vec!["1.1.1.1", "2.2.2.2", "2.2.2.2"]);
    assert_eq!(cached.get("k").unwrap().node.ip, "2.2.2.2");
}

#[test]
fn last_successful_record_of_an_ip_is_cached() {
    let validators = vec![full("a", at("1.1.1.1"))];
    let cache = geo(vec![record("7.7.7.7", "Kept", "K", None)]);
    let mut failed = record("1.1.1.1", "Third", "C", None);
    failed.status = "fail".to_owned();
    let refresh = GeoRefresh::start(cache, &validators, true, 10).absorb(vec![
        record("1.1.1.1", "First", "A", None),
        record("1.1.1.1", "Second", "B", None),
        failed,
    ]);
    let (cache, _) = refresh.finish();
    assert_eq!(cache.get("1.1.1.1").unwrap().country.as_deref(), Some("Second"));
    assert_eq!(cache.get("7.7.7.7").unwrap().country.as_deref(), Some("Kept"));
}

#[test]
fn each_ip_is_asked_in_one_batch() {
    let validators: Vec<FullValidator> =
        (0..23).map(|i| full("v", at(&format!("10.0.0.{:02}", i % 11)))).collect();
    let mut refresh = GeoRefresh::start(TextMap::new(), &validators, false, 4);
    let mut asked: Vec<String> = vec![];
    let mut sizes = vec![];
    while let Some(batch) = refresh.next_batch() {
        sizes.push(batch.len());
        asked.extend(batch);
        refresh = refresh.absorb(vec![]);
    }
    let expected: Vec<String> = (0..11).map(|i| format!("10.0.0.{i:02}")).collect();
    assert_eq!(asked, expected);
    assert_eq!(sizes, vec![4, 4, 3]);
    assert_eq!(refresh.finish().1, 11);
}

#[test]
fn last_success_counts_across_batches() {
    let validators = vec![full("a", at("1.1.1.1")), full("b", at("2.2.2.2"))];
    let cache = geo(vec![record("7.7.7.7", "Kept", "K", None)]);
    let mut failed = record("2.2.2.2", "Failed", "C", None);
    failed.status = "fail".to_owned();
    let refresh = GeoRefresh::start(cache, &validators, true, 1)
        .absorb(vec![
            record("1.1.1.1", "First", "A", None),
            record("2.2.2.2", "Early", "B", None),
        ])
        .absorb(vec![failed, record("1.1.1.1", "Second", "D", None)]);
    assert!(refresh.next_batch().is_none());
    let (cache, lookups) = refresh.finish();
    assert_eq!(lookups, 2);
    assert_eq!(cache.get("1.1.1.1").unwrap().country.as_deref(), Some("Second"));
    assert_eq!(cache.get("2.2.2.2").unwrap().country.as_deref(), Some("Early"));
    assert_eq!(cache.get("7.7.7.7").unwrap().country.as_deref(), Some("Kept"));
}

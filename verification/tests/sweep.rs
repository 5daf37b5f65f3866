use everscale_address_resolver::bootstrap::{preset_nodes, warmup_stats};
use everscale_address_resolver::resolution::ResolvedAddress;
use everscale_address_resolver::sweep::{Addition, Ping, Search, Sweep, SweepAction, SweepEvent};

fn found(ip: &str) -> SweepEvent {
    SweepEvent::Searched(Search::Found(ResolvedAddress {
        ip: ip.to_owned(),
        port: 1,
        version: "udp4".to_owned(),
    }))
}

fn missing() -> SweepEvent {
    SweepEvent::Searched(Search::Missing)
}

fn peer(id: &str) -> SweepEvent {
    SweepEvent::Added(Addition::Peer(id.to_owned()))
}

/// Steps through the events, checking each request that they answer.
fn walk(bootstrap: usize, steps: Vec<(SweepAction, SweepEvent)>) -> Sweep {
    let mut sweep = Sweep::start(bootstrap);
    for (action, event) in steps {
        assert_eq!(sweep.action(), action);
        sweep = sweep.step(event);
    }
    sweep
}

#[test]
fn first_search_can_end_the_sweep() {
    let sweep = walk(2, vec![(SweepAction::Search, found("1.1.1.1"))]);
    assert_eq!(sweep.action(), SweepAction::Finished);
    assert_eq!(sweep.finish().ok().unwrap().ip, "1.1.1.1");
}

#[test]
fn address_is_missing_only_after_every_peer() {
    let sweep = walk(
        3,
        vec![
            (SweepAction::Search, missing()),
            (SweepAction::PingBootstrap(0), SweepEvent::Pinged(Ping::Responded)),
            (SweepAction::Search, missing()),
            (SweepAction::PingBootstrap(1), SweepEvent::Pinged(Ping::Silent)),
            (SweepAction::Search, missing()),
            (
                SweepAction::PingBootstrap(2),
                SweepEvent::Pinged(Ping::Failed("refused".to_owned())),
            ),
            (SweepAction::Search, missing()),
            (SweepAction::ListKnown, SweepEvent::Listed(Some(4))),
            (SweepAction::AddKnown(0), peer("a")),
            (SweepAction::AddKnown(1), SweepEvent::Added(Addition::Skipped)),
            (SweepAction::AddKnown(2), peer("a")),
            (SweepAction::AddKnown(3), peer("b")),
            (SweepAction::PingKnown(0), SweepEvent::Pinged(Ping::Silent)),
            (SweepAction::Search, missing()),
            (SweepAction::PingKnown(3), SweepEvent::Pinged(Ping::Responded)),
            (SweepAction::Search, missing()),
        ],
    );
    assert_eq!(sweep.action(), SweepAction::Finished);
    assert_eq!(
        sweep.finish().err().unwrap(),
        "address not found after checking 3 bootstrap DHT peers (1 responsive); \
         bootstrap #2 did not respond; bootstrap #3: refused"
    );
}

#[test]
fn report_without_messages() {
    let sweep = walk(
        1,
        vec![
            (SweepAction::Search, missing()),
            (SweepAction::PingBootstrap(0), SweepEvent::Pinged(Ping::Responded)),
            (SweepAction::Search, missing()),
            (SweepAction::ListKnown, SweepEvent::Listed(Some(0))),
        ],
    );
    assert_eq!(
        sweep.finish().err().unwrap(),
        "address not found after checking 1 bootstrap DHT peers (1 responsive)"
    );
}

#[test]
fn address_behind_a_bootstrap_peer() {
    let sweep = walk(
        2,
        vec![
            (SweepAction::Search, missing()),
            (SweepAction::PingBootstrap(0), SweepEvent::Pinged(Ping::Silent)),
            (SweepAction::Search, found("2.2.2.2")),
        ],
    );
    assert_eq!(sweep.finish().ok().unwrap().ip, "2.2.2.2");
}

#[test]
fn address_behind_a_known_node() {
    let sweep = walk(
        0,
        vec![
            (SweepAction::Search, missing()),
            (SweepAction::ListKnown, SweepEvent::Listed(Some(1))),
            (SweepAction::AddKnown(0), peer("k")),
            (SweepAction::PingKnown(0), SweepEvent::Pinged(Ping::Failed("x".to_owned()))),
            (SweepAction::Search, found("3.3.3.3")),
        ],
    );
    assert_eq!(sweep.finish().ok().unwrap().ip, "3.3.3.3");
}

#[test]
fn errors_end_the_sweep() {
    let failed = SweepEvent::Searched(Search::Failed("broken".to_owned()));
    let sweep = walk(1, vec![(SweepAction::Search, failed)]);
    assert_eq!(sweep.action(), SweepAction::Finished);
    assert_eq!(sweep.finish().err().unwrap(), "broken");

    let sweep = walk(
        0,
        vec![
            (SweepAction::Search, missing()),
            (SweepAction::ListKnown, SweepEvent::Listed(None)),
        ],
    );
    assert_eq!(sweep.finish().err().unwrap(), "failed to read known DHT nodes");

    let sweep = walk(
        0,
        vec![
            (SweepAction::Search, missing()),
            (SweepAction::ListKnown, SweepEvent::Listed(Some(2))),
            (SweepAction::AddKnown(0), SweepEvent::Added(Addition::Failed)),
        ],
    );
    assert_eq!(sweep.finish().err().unwrap(), "failed to add known DHT node");
}

#[test]
fn sweep_takes_a_bounded_number_of_answers() {
    for bootstrap in 0..4usize {
        for listed in 0..4usize {
            let mut sweep = Sweep::start(bootstrap);
            let mut taken = 0;
            loop {
                let event = match sweep.action() {
                    SweepAction::Search => missing(),
                    SweepAction::PingBootstrap(_) | SweepAction::PingKnown(_) => {
                        SweepEvent::Pinged(Ping::Responded)
                    }
                    SweepAction::ListKnown => SweepEvent::Listed(Some(listed)),
                    SweepAction::AddKnown(i) => peer(&format!("node {i}")),
                    SweepAction::Finished => break,
                };
                sweep = sweep.step(event);
                taken += 1;
            }
            assert_eq!(taken, 2 + 2 * bootstrap + 3 * listed);
        }
    }
}

#[test]
fn sweep_starts_from_a_readable_address() {
    let (key, sweep) = Sweep::for_address(&"0f".repeat(32), 1).ok().unwrap();
    assert_eq!(key, vec![0x0f; 32]);
    assert_eq!(sweep.action(), SweepAction::Search);
    assert_eq!(Sweep::for_address("0g", 1).err().unwrap(), "invalid adnl hex");
    assert_eq!(Sweep::for_address("0f", 1).err().unwrap(), "adnl key must be 32 bytes");
}

#[test]
fn warmup_counts_the_answers() {
    let stats = warmup_stats(&vec![true, false, true], Some(9));
    assert_eq!(
        (stats.checked, stats.responsive, stats.errors, stats.known_nodes),
        (3, 2, 1, 9)
    );
    assert_eq!(warmup_stats(&vec![], None).known_nodes, 0);
}

#[test]
fn bootstrap_needs_a_peer() {
    assert_eq!(preset_nodes(&vec![false, true, true]).ok().unwrap(), vec![1, 2]);
    let error = preset_nodes(&vec![false]).err().unwrap();
    assert_eq!(error.message(), "bootstrap config has no valid DHT static nodes");
    assert!(preset_nodes(&vec![]).is_err());
}

#[test]
fn known_nodes_are_read_only_after_every_peer() {
    let sweep = walk(
        2,
        vec![
            (SweepAction::Search, missing()),
            (SweepAction::PingBootstrap(0), SweepEvent::Pinged(Ping::Silent)),
            (SweepAction::Search, missing()),
            (SweepAction::PingBootstrap(1), SweepEvent::Pinged(Ping::Responded)),
            (SweepAction::Search, missing()),
            (SweepAction::ListKnown, SweepEvent::Listed(None)),
        ],
    );
    assert_eq!(sweep.action(), SweepAction::Finished);
    assert_eq!(sweep.finish().err().unwrap(), "failed to read known DHT nodes");
}

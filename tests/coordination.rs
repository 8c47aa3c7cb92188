use nom_nom_ring::bootstrap::{bootstrap, ring_plan, Registry};
use nom_nom_ring::fork::ForkRef;
use nom_nom_ring::ids::{Endpoint, ForkId, Id, ThinkerId, TokenId};
use nom_nom_ring::messages::{VisualizerForkState, VisualizerMessages, VisualizerThinkerAvailableTokenState, VisualizerThinkerState};
use nom_nom_ring::thinker::ThinkerRef;
use nom_nom_ring::visualizer::{Visualizer, VisualizerRef};

fn ep(port: u16) -> Endpoint {
    Endpoint { ip: 1, port, v6: false }
}

fn ring(n: usize) -> (Vec<ThinkerRef>, Vec<ForkRef>) {
    let ts = (0..n)
        .map(|i| {
            let id: ThinkerId = Id::from_value(10 + i as u128);
            ThinkerRef { address: ep(100 + i as u16), id }
        })
        .collect();
    let fs = (0..n)
        .map(|i| {
            let id: ForkId = Id::from_value(50 + i as u128);
            ForkRef { address: ep(200 + i as u16), id }
        })
        .collect();
    (ts, fs)
}

#[test]
fn registry_takes_expected_nodes_only() {
    let (ts, fs) = ring(3);
    let mut r = Registry::new(2);
    assert!(r.register_thinker(ts[0]));
    assert!(r.register_fork(fs[0]));
    assert!(!r.is_complete());
    assert!(r.register_thinker(ts[1]));
    assert!(!r.register_thinker(ts[2]));
    assert!(r.register_fork(fs[1]));
    assert!(!r.register_fork(fs[2]));
    assert!(r.is_complete());
    assert_eq!(r.thinkers.len(), 2);
}

#[test]
fn ring_plan_pairs_forks_and_successors() {
    let (ts, fs) = ring(4);
    let ids: Vec<TokenId> = vec![Id::from_value(900), Id::from_value(901)];
    let vis = Some(VisualizerRef { address: ep(9) });
    let plan = ring_plan(&ts, &fs, &ids, 2, vis);
    assert_eq!(plan.len(), 4);
    let (to, p) = &plan[3];
    assert_eq!(to.port, 103);
    assert_eq!(p.forks[0].id.value, 53);
    assert_eq!(p.forks[1].id.value, 50);
    let next: Vec<u128> = p.next_thinkers.iter().map(|t| t.id.value).collect();
    assert_eq!(next, vec![10, 11]);
    assert!(p.token.is_none());
    assert_eq!(p.visualizer, vis);
    let (_, p0) = &plan[0];
    let t = p0.token.unwrap();
    assert_eq!((t.id.value, t.version, t.issuer.value), (900, 0, 10));
    let (_, p1) = &plan[1];
    assert_eq!(p1.token.unwrap().id.value, 901);
    assert_eq!(p1.available_tokens.len(), 2);
    assert_eq!(p1.available_tokens[1].issuer.value, 11);
    let next: Vec<u128> = p1.next_thinkers.iter().map(|t| t.id.value).collect();
    assert_eq!(next, vec![12, 13]);
}

#[test]
fn bootstrap_assigns_every_node_once() {
    let (ts, fs) = ring(5);
    let plan = bootstrap(&ts, &fs, 1, 4, None);
    assert_eq!(plan.len(), 5);
    let mut ports: Vec<u16> = plan.iter().map(|(to, _)| to.port).collect();
    ports.sort();
    assert_eq!(ports, vec![100, 101, 102, 103, 104]);
    let mut first_forks: Vec<u128> = plan.iter().map(|(_, p)| p.forks[0].id.value).collect();
    first_forks.sort();
    assert_eq!(first_forks, vec![50, 51, 52, 53, 54]);
    assert_eq!(plan.iter().filter(|(_, p)| p.token.is_some()).count(), 1);
    for (i, (_, p)) in plan.iter().enumerate() {
        assert_eq!(p.forks[1].id.value, plan[(i + 1) % 5].1.forks[0].id.value);
        assert_eq!(p.next_thinkers[0].address, plan[(i + 1) % 5].0);
    }
}

#[test]
fn visualizer_records_reports() {
    let (ts, fs) = ring(2);
    let mut v = Visualizer::new(&ts, &fs, 0);
    assert!(matches!(v.forks[1].state, VisualizerForkState::Unused));
    v.handle_message(40, &VisualizerMessages::ForkStateChanged { id: Id::from_value(51), state: VisualizerForkState::Used(Id::from_value(11)) });
    assert!(matches!(v.forks[1].state, VisualizerForkState::Used(t) if t.value == 11));
    assert_eq!(v.forks[1].last_seen, 40);
    assert_eq!(v.forks[0].last_seen, 0);
    v.handle_message(
        60,
        &VisualizerMessages::ThinkerStateChanged {
            id: Id::from_value(10),
            state: VisualizerThinkerState::Hungry,
            token_state: vec![VisualizerThinkerAvailableTokenState::Passive { not_seen_for_ms: 7 }],
        },
    );
    assert!(matches!(v.thinkers[0].state, VisualizerThinkerState::Hungry));
    assert_eq!(v.thinkers[0].token_states.len(), 1);
    assert_eq!(v.thinkers[0].last_seen, 60);
    assert!(matches!(v.thinkers[1].state, VisualizerThinkerState::Thinking));
    v.handle_message(80, &VisualizerMessages::ForkStateChanged { id: Id::from_value(99), state: VisualizerForkState::Unused });
    assert!(matches!(v.forks[1].state, VisualizerForkState::Used(_)));
}

#[test]
fn bootstrap_order_is_random() {
    let (ts, fs) = ring(5);
    let mut reordered = false;
    for _ in 0..20 {
        let plan = bootstrap(&ts, &fs, 0, 2, None);
        let ports: Vec<u16> = plan.iter().map(|(to, _)| to.port).collect();
        if ports != vec![100, 101, 102, 103, 104] {
            reordered = true;
        }
    }
    assert!(reordered);
}

#[test]
fn more_tokens_than_thinkers_gives_each_one() {
    let (ts, fs) = ring(3);
    let ids: Vec<TokenId> = vec![Id::from_value(900), Id::from_value(901), Id::from_value(902), Id::from_value(903)];
    let plan = ring_plan(&ts, &fs, &ids, 2, None);
    for (i, (_, p)) in plan.iter().enumerate() {
        assert_eq!(p.token.unwrap().id.value, 900 + i as u128);
        assert_eq!(p.available_tokens.len(), 3);
    }
    let plan = bootstrap(&ts, &fs, 7, 2, None);
    assert!(plan.iter().all(|(_, p)| p.token.is_some()));
    assert_eq!(plan[0].1.available_tokens.len(), 3);
}

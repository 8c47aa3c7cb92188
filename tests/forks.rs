use nom_nom_ring::fork::{Fork, ForkState};
use nom_nom_ring::ids::{Endpoint, ForkId, Id, ThinkerId};
use nom_nom_ring::messages::{ForkMessages, ThinkerForkState, ThinkerMessage, VisualizerForkState};
use nom_nom_ring::KEEP_ALIVE_TIMEOUT_MS;

fn tid(v: u128) -> ThinkerId {
    Id::from_value(v)
}

fn fork() -> Fork {
    let id: ForkId = Id::from_value(900);
    Fork::new(id)
}

fn ep(port: u16) -> Endpoint {
    Endpoint { ip: 0x7f00_0001, port, v6: false }
}

fn status(reply: Option<ThinkerMessage>) -> ThinkerForkState {
    match reply {
        Some(ThinkerMessage::ForkAlive { id, state }) => {
            assert_eq!(id.value, 900);
            state
        }
        _ => panic!("expected a fork-alive answer"),
    }
}

fn owner(f: &Fork) -> Option<u128> {
    match f.state {
        ForkState::Used { owner, .. } => Some(owner.value),
        ForkState::Unused => None,
    }
}

#[test]
fn first_keep_alive_queues_then_grants() {
    let mut f = fork();
    assert_eq!(status(f.handle_message(0, ForkMessages::KeepAlive(tid(1)))), ThinkerForkState::Queued);
    assert_eq!(f.queue.len(), 1);
    assert_eq!(owner(&f), None);
    f.update(50);
    assert_eq!(owner(&f), Some(1));
    assert_eq!(f.queue.len(), 0);
    assert_eq!(status(f.handle_message(100, ForkMessages::KeepAlive(tid(1)))), ThinkerForkState::Taken);
    match f.state {
        ForkState::Used { lease_until, .. } => assert_eq!(lease_until, 100 + KEEP_ALIVE_TIMEOUT_MS),
        ForkState::Unused => panic!("fork should be used"),
    }
}

#[test]
fn second_thinker_waits_in_queue() {
    let mut f = fork();
    f.handle_message(0, ForkMessages::KeepAlive(tid(1)));
    f.update(0);
    assert_eq!(status(f.handle_message(50, ForkMessages::KeepAlive(tid(2)))), ThinkerForkState::Queued);
    f.update(50);
    assert_eq!(owner(&f), Some(1));
    assert_eq!(f.queue.len(), 1);
    f.handle_message(100, ForkMessages::Release(tid(1)));
    assert_eq!(owner(&f), None);
    f.update(100);
    assert_eq!(owner(&f), Some(2));
}

#[test]
fn release_from_non_owner_is_ignored() {
    let mut f = fork();
    f.handle_message(0, ForkMessages::KeepAlive(tid(1)));
    f.update(0);
    assert!(f.handle_message(10, ForkMessages::Release(tid(2))).is_none());
    assert_eq!(owner(&f), Some(1));
}

#[test]
fn many_keep_alives_in_one_tick_act_as_one() {
    let mut once = fork();
    let mut many = fork();
    once.handle_message(0, ForkMessages::KeepAlive(tid(8)));
    once.update(0);
    many.handle_message(0, ForkMessages::KeepAlive(tid(8)));
    many.update(0);
    let inbox_once = vec![(ep(1), ForkMessages::KeepAlive(tid(5)))];
    let inbox_many = vec![
        (ep(1), ForkMessages::KeepAlive(tid(5))),
        (ep(1), ForkMessages::KeepAlive(tid(5))),
        (ep(1), ForkMessages::KeepAlive(tid(5))),
        (ep(1), ForkMessages::KeepAlive(tid(5))),
    ];
    let r1 = once.tick(40, &inbox_once);
    let r4 = many.tick(40, &inbox_many);
    assert_eq!(r1.len(), 1);
    assert_eq!(r4.len(), 4);
    assert_eq!(owner(&once), owner(&many));
    assert_eq!(once.queue.len(), many.queue.len());
    assert_eq!(once.queue[0].thinker.value, many.queue[0].thinker.value);
    assert_eq!(once.queue[0].last_seen, many.queue[0].last_seen);
    for (to, m) in r4 {
        assert_eq!(to, ep(1));
        assert_eq!(status(Some(m)), ThinkerForkState::Queued);
    }
}

#[test]
fn owner_keep_alives_are_idempotent() {
    let mut f = fork();
    f.handle_message(0, ForkMessages::KeepAlive(tid(1)));
    f.update(0);
    let r = f.tick(500, &vec![(ep(2), ForkMessages::KeepAlive(tid(1))), (ep(2), ForkMessages::KeepAlive(tid(1)))]);
    assert_eq!(r.len(), 2);
    assert_eq!(owner(&f), Some(1));
    assert_eq!(f.queue.len(), 0);
}

#[test]
fn silent_owner_loses_the_fork() {
    let mut f = fork();
    f.handle_message(0, ForkMessages::KeepAlive(tid(1)));
    f.update(0);
    f.update(KEEP_ALIVE_TIMEOUT_MS);
    assert_eq!(owner(&f), Some(1));
    f.update(KEEP_ALIVE_TIMEOUT_MS + 1);
    assert_eq!(owner(&f), None);
    assert!(matches!(f.visualizer_state(), VisualizerForkState::Unused));
}

#[test]
fn stale_queue_entries_are_evicted() {
    let mut f = fork();
    f.handle_message(0, ForkMessages::KeepAlive(tid(1)));
    f.update(0);
    f.handle_message(0, ForkMessages::KeepAlive(tid(2)));
    f.handle_message(1500, ForkMessages::KeepAlive(tid(1)));
    f.update(KEEP_ALIVE_TIMEOUT_MS + 100);
    assert_eq!(owner(&f), Some(1));
    assert_eq!(f.queue.len(), 0);
}

#[test]
fn stale_head_is_skipped_on_grant() {
    let mut f = fork();
    f.handle_message(0, ForkMessages::KeepAlive(tid(1)));
    f.handle_message(0, ForkMessages::KeepAlive(tid(2)));
    f.handle_message(1000, ForkMessages::KeepAlive(tid(3)));
    f.handle_message(2500, ForkMessages::KeepAlive(tid(2)));
    f.update(2600);
    assert_eq!(owner(&f), Some(2));
    assert_eq!(f.queue.len(), 1);
    assert_eq!(f.queue[0].thinker.value, 3);
    match f.visualizer_state() {
        VisualizerForkState::Used(t) => assert_eq!(t.value, 2),
        VisualizerForkState::Unused => panic!("fork should be used"),
    }
}

use nom_nom_ring::bootstrap::ring_plan;
use nom_nom_ring::fork::{Fork, ForkRef, ForkState};
use nom_nom_ring::ids::{Endpoint, ForkId, Id, ThinkerId, TokenId};
use nom_nom_ring::messages::{ForkMessages, ThinkerMessage};
use nom_nom_ring::thinker::{
    HungryTokenState, Outbound, Thinker, ThinkerConfig, ThinkerRef, ThinkerState,
};
use nom_nom_ring::{
    KEEP_ALIVE_TIMEOUT_MS, MAX_EATING_TIME_MS, MAX_THINKING_TIME_MS, MIN_EATING_TIME_MS,
    MIN_THINKING_TIME_MS, TICK_INTERVAL_MS, TOKEN_TIMEOUT_MS,
};

const RING: usize = 5;

fn thinker_ep(i: usize) -> Endpoint {
    Endpoint { ip: 0x7f00_0001, port: 4000 + i as u16, v6: false }
}

fn fork_ep(i: usize) -> Endpoint {
    Endpoint { ip: 0x7f00_0001, port: 5000 + i as u16, v6: false }
}

fn thinker_id(i: usize) -> ThinkerId {
    Id::from_value(100 + i as u128)
}

/// An in-process ring: every node ticks once per interval, and what is sent
/// during one tick arrives at the next, unless the network drops it.
struct Sim {
    now: u64,
    seed: u64,
    loss_pct: u64,
    drop_next_token: bool,
    thinkers: Vec<Option<Thinker>>,
    forks: Vec<Fork>,
    thinker_inbox: Vec<Vec<(Endpoint, ThinkerMessage)>>,
    fork_inbox: Vec<Vec<(Endpoint, ForkMessages)>>,
    eating_starts: usize,
    seen_versions: Vec<Vec<u32>>,
    max_version: u32,
}

fn roll(seed: &mut u64) -> u64 {
    *seed = seed.wrapping_mul(6364136223846793005).wrapping_add(1442695040888963407);
    (*seed >> 33) % 100
}

fn duration(seed: &mut u64, lo: u64, hi: u64) -> u64 {
    *seed = seed.wrapping_mul(6364136223846793005).wrapping_add(1442695040888963407);
    lo + (*seed >> 33) % (hi - lo + 1)
}

fn refs() -> (Vec<ThinkerRef>, Vec<ForkRef>) {
    let ts = (0..RING).map(|i| ThinkerRef { address: thinker_ep(i), id: thinker_id(i) }).collect();
    let fs = (0..RING)
        .map(|i| {
            let id: ForkId = Id::from_value(200 + i as u128);
            ForkRef { address: fork_ep(i), id }
        })
        .collect();
    (ts, fs)
}

impl Sim {
    fn new(loss_pct: u64, seed: u64) -> Sim {
        let (ts, fs) = refs();
        let token: TokenId = Id::from_value(777);
        let plan = ring_plan(&ts, &fs, &vec![token], RING - 1, None);
        let mut seed = seed;
        let thinkers = plan
            .iter()
            .enumerate()
            .map(|(i, (_, p))| {
                let think = duration(&mut seed, MIN_THINKING_TIME_MS, MAX_THINKING_TIME_MS);
                Some(Thinker::with_thinking_time(thinker_id(i), p, 0, think))
            })
            .collect();
        let forks = (0..RING).map(|i| Fork::new(Id::from_value(200 + i as u128))).collect();
        Sim {
            now: 0,
            seed,
            loss_pct,
            drop_next_token: false,
            thinkers,
            forks,
            thinker_inbox: (0..RING).map(|_| Vec::new()).collect(),
            fork_inbox: (0..RING).map(|_| Vec::new()).collect(),
            eating_starts: 0,
            seen_versions: (0..RING).map(|_| vec![0]).collect(),
            max_version: 0,
        }
    }

    fn lost(&mut self) -> bool {
        roll(&mut self.seed) < self.loss_pct
    }

    fn route(&mut self, from: Endpoint, out: Vec<Outbound>) {
        for o in out {
            if self.lost() {
                continue;
            }
            match o {
                Outbound::ToFork { to, message } => {
                    let i = (to.port - 5000) as usize;
                    self.fork_inbox[i].push((from, message));
                }
                Outbound::ToThinker { to, message } => {
                    if self.drop_next_token && matches!(message, ThinkerMessage::Token(_)) {
                        self.drop_next_token = false;
                        continue;
                    }
                    let i = (to.port - 4000) as usize;
                    self.thinker_inbox[i].push((from, message));
                }
            }
        }
    }

    fn step(&mut self) {
        self.now += TICK_INTERVAL_MS;
        let now = self.now;
        let mut fork_out = Vec::new();
        for i in 0..RING {
            let inbox = std::mem::take(&mut self.fork_inbox[i]);
            fork_out.push(self.forks[i].tick(now, &inbox));
        }
        let mut thinker_out = Vec::new();
        for i in 0..RING {
            let inbox = std::mem::take(&mut self.thinker_inbox[i]);
            let think = duration(&mut self.seed, MIN_THINKING_TIME_MS, MAX_THINKING_TIME_MS);
            let eat = duration(&mut self.seed, MIN_EATING_TIME_MS, MAX_EATING_TIME_MS);
            match &mut self.thinkers[i] {
                Some(t) => {
                    let was_eating = matches!(t.state, ThinkerState::Eating { .. });
                    let out = t.tick_with(now, &inbox, think, eat);
                    if !was_eating && matches!(t.state, ThinkerState::Eating { .. }) {
                        self.eating_starts += 1;
                    }
                    thinker_out.push(out);
                }
                None => thinker_out.push(Vec::new()),
            }
        }
        for (i, replies) in fork_out.into_iter().enumerate() {
            for (to, m) in replies {
                if self.lost() {
                    continue;
                }
                let j = (to.port - 4000) as usize;
                self.thinker_inbox[j].push((fork_ep(i), m));
            }
        }
        for (i, out) in thinker_out.into_iter().enumerate() {
            self.route(thinker_ep(i), out);
        }
        self.check_safety();
    }

    fn eating(&self, i: usize) -> bool {
        matches!(&self.thinkers[i], Some(t) if matches!(t.state, ThinkerState::Eating { .. }))
    }

    fn check_safety(&mut self) {
        for i in 0..RING {
            assert!(
                !(self.eating(i) && self.eating((i + 1) % RING)),
                "thinkers {} and {} share a fork and both eat at {}",
                i,
                (i + 1) % RING,
                self.now
            );
        }
        let mut held: Vec<(u128, u32)> = Vec::new();
        for t in self.thinkers.iter().flatten() {
            let token = match t.state {
                ThinkerState::Hungry { token_state: HungryTokenState::TokenHeld(t) } => Some(t),
                ThinkerState::WaitingForForks { token, .. } => Some(token),
                ThinkerState::Eating { token, .. } => Some(token),
                _ => None,
            };
            if let Some(tok) = token {
                let key = (tok.id.value, tok.version);
                assert!(!held.contains(&key), "two thinkers hold token version {:?} at {}", key, self.now);
                held.push(key);
            }
        }
        for i in 0..RING {
            if let Some(t) = &self.thinkers[i] {
                let v = t.slots[0].last_ref.version;
                let last = *self.seen_versions[i].last().unwrap();
                assert!(v >= last, "thinker {} saw version {} after {}", i, v, last);
                if v != last {
                    self.seen_versions[i].push(v);
                }
                self.max_version = self.max_version.max(v);
            }
        }
    }

    fn run_for(&mut self, ms: u64) {
        let end = self.now + ms;
        while self.now < end {
            self.step();
        }
    }

    fn token_holder(&self) -> Option<usize> {
        (0..RING).find(|&i| {
            matches!(&self.thinkers[i], Some(t) if !matches!(
                t.state,
                ThinkerState::Thinking { .. } | ThinkerState::Hungry { token_state: HungryTokenState::WaitingForToken }
            ))
        })
    }
}

#[test]
fn happy_ring_keeps_eating() {
    let mut sim = Sim::new(0, 1);
    sim.run_for(60_000);
    assert!(sim.eating_starts >= 10, "only {} meals", sim.eating_starts);
    assert_eq!(sim.max_version, 0);
}

#[test]
fn dropped_token_is_regenerated_once() {
    let mut sim = Sim::new(0, 2);
    sim.run_for(10_000);
    let meals = sim.eating_starts;
    sim.drop_next_token = true;
    while sim.drop_next_token {
        sim.step();
    }
    sim.run_for(TOKEN_TIMEOUT_MS + RING as u64 * TICK_INTERVAL_MS + 2_000);
    for i in 0..RING {
        assert_eq!(sim.seen_versions[i], vec![0, 1], "thinker {}", i);
    }
    sim.run_for(20_000);
    assert_eq!(sim.max_version, 1);
    assert!(sim.eating_starts > meals + 3);
}

#[test]
fn crash_while_eating_frees_forks_and_regenerates() {
    let mut sim = Sim::new(0, 3);
    sim.run_for(5_000);
    while !(0..RING).any(|i| sim.eating(i)) {
        sim.step();
    }
    let victim = (0..RING).find(|&i| sim.eating(i)).unwrap();
    sim.thinkers[victim] = None;
    let crash = sim.now;
    let forks = [victim, (victim + 1) % RING];
    while forks.iter().any(|&f| matches!(sim.forks[f].state, ForkState::Used { .. })) {
        sim.step();
        assert!(sim.now <= crash + KEEP_ALIVE_TIMEOUT_MS + 3 * TICK_INTERVAL_MS);
    }
    while sim.max_version == 0 {
        sim.step();
        assert!(sim.now <= crash + TOKEN_TIMEOUT_MS + RING as u64 * 2 * TICK_INTERVAL_MS);
    }
    let meals = sim.eating_starts;
    sim.run_for(30_000);
    assert_eq!(sim.max_version, 1);
    assert!(sim.eating_starts > meals + 3);
}

#[test]
fn high_loss_keeps_safety() {
    let mut sim = Sim::new(70, 4);
    sim.run_for(60_000);
}

#[test]
fn concurrent_regeneration_elects_larger_issuer() {
    let mut sim = Sim::new(0, 5);
    for i in 0..RING {
        let t = sim.thinkers[i].as_mut().unwrap();
        t.state = ThinkerState::Thinking { until: 1_000_000 };
        t.slots[0].last_seen = if i == 1 || i == 3 { 0 } else { 1_000 };
    }
    sim.now = TOKEN_TIMEOUT_MS;
    sim.run_for(2 * TICK_INTERVAL_MS);
    sim.run_for(RING as u64 * 4 * TICK_INTERVAL_MS);
    for i in 0..RING {
        let t = sim.thinkers[i].as_ref().unwrap();
        assert_eq!(t.slots[0].last_ref.version, 1, "thinker {}", i);
        assert_eq!(t.slots[0].last_ref.issuer.value, 103, "thinker {}", i);
        assert_eq!(sim.seen_versions[i], vec![0, 1]);
    }
}

#[test]
fn restarted_thinker_rejoins_the_ring() {
    let mut sim = Sim::new(0, 6);
    sim.run_for(5_000);
    let victim = 2;
    let saved = {
        let t = sim.thinkers[victim].as_ref().unwrap();
        let (ts, fs) = refs();
        ThinkerConfig {
            id: t.id,
            local_address: thinker_ep(victim),
            forks: [fs[victim], fs[(victim + 1) % RING]],
            next_thinkers: (1..RING).map(|j| ts[(victim + j) % RING]).collect(),
            available_tokens: t.slots.iter().map(|s| s.last_ref).collect(),
            visualizer: None,
        }
    };
    sim.thinkers[victim] = None;
    sim.run_for(2 * TOKEN_TIMEOUT_MS);
    let predecessor = (victim + RING - 1) % RING;
    let pred = sim.thinkers[predecessor].as_ref().unwrap();
    assert!(pred.successors[0].last_seen + KEEP_ALIVE_TIMEOUT_MS < sim.now);
    let restarted = Thinker::restart(&saved, sim.now, MIN_THINKING_TIME_MS);
    assert!(matches!(restarted.state, ThinkerState::Thinking { .. }));
    sim.thinkers[victim] = Some(restarted);
    sim.thinker_inbox[victim].clear();
    let back = sim.now;
    sim.run_for(TOKEN_TIMEOUT_MS);
    let pred = sim.thinkers[predecessor].as_ref().unwrap();
    assert!(pred.successors[0].last_seen + 4 * TICK_INTERVAL_MS >= sim.now);
    assert!(pred.successors[0].last_seen > back);
    let meals = sim.eating_starts;
    sim.run_for(30_000);
    assert!(sim.eating_starts > meals + 3);
    assert!(sim.token_holder().is_some() || sim.eating_starts > meals);
}

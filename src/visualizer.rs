use crate::fork::ForkRef;
use crate::ids::Endpoint;
use crate::messages::{
    VisualizerForkState, VisualizerMessages, VisualizerThinkerAvailableTokenState,
    VisualizerThinkerState,
};
use crate::thinker::ThinkerRef;
use vstd::prelude::*;

verus! {

/// Where the visualizer listens.
#[derive(Clone, Copy, Debug, PartialEq, Eq, Structural)]
pub struct VisualizerRef {
    pub address: Endpoint,
}

/// The last report of one thinker.
pub struct ThinkerRow {
    pub thinker: ThinkerRef,
    pub state: VisualizerThinkerState,
    pub token_states: Vec<VisualizerThinkerAvailableTokenState>,
    pub last_seen: u64,
}

/// The last report of one fork.
#[derive(Clone, Copy)]
pub struct ForkRow {
    pub fork: ForkRef,
    pub state: VisualizerForkState,
    pub last_seen: u64,
}

/// The state of the ring as last reported, one row per node.
pub struct Visualizer {
    pub thinkers: Vec<ThinkerRow>,
    pub forks: Vec<ForkRow>,
}

pub struct ThinkerRowView {
    pub thinker: ThinkerRef,
    pub state: VisualizerThinkerState,
    pub token_states: Seq<VisualizerThinkerAvailableTokenState>,
    pub last_seen: u64,
}

pub open spec fn row_view(r: ThinkerRow) -> ThinkerRowView {
    ThinkerRowView {
        thinker: r.thinker,
        state: r.state,
        token_states: r.token_states@,
        last_seen: r.last_seen,
    }
}

pub struct VisualizerView {
    pub thinkers: Seq<ThinkerRowView>,
    pub forks: Seq<ForkRow>,
}

impl View for Visualizer {
    type V = VisualizerView;

    open spec fn view(&self) -> VisualizerView {
        VisualizerView {
            thinkers: self.thinkers@.map_values(|r: ThinkerRow| row_view(r)),
            forks: self.forks@,
        }
    }
}

/// A report about a node the visualizer does not know changes nothing.
pub open spec fn after_report(v: VisualizerView, now: u64, m: VisualizerMessages) -> VisualizerView {
    match m {
        VisualizerMessages::Init { .. } => v,
        VisualizerMessages::ForkStateChanged { id, state } => VisualizerView {
            forks: v.forks.map_values(
                |r: ForkRow|
                    if r.fork.id.value == id.value {
                        ForkRow { state, last_seen: now, ..r }
                    } else {
                        r
                    },
            ),
            ..v
        },
        VisualizerMessages::ThinkerStateChanged { id, state, token_state } => VisualizerView {
            thinkers: v.thinkers.map_values(
                |r: ThinkerRowView|
                    if r.thinker.id.value == id.value {
                        ThinkerRowView { state, token_states: token_state@, last_seen: now, ..r }
                    } else {
                        r
                    },
            ),
            ..v
        },
    }
}

impl Visualizer {
    /// A table of the given nodes, all thinking or unused, last heard of
    /// at `now`.
    pub fn new(thinkers: &Vec<ThinkerRef>, forks: &Vec<ForkRef>, now: u64) -> (r: Self)
        ensures
            r@.thinkers.len() == thinkers@.len(),
            r@.forks.len() == forks@.len(),
            forall|i: int|
                0 <= i < thinkers@.len() ==> #[trigger] r@.thinkers[i] == (ThinkerRowView {
                    thinker: thinkers@[i],
                    state: VisualizerThinkerState::Thinking,
                    token_states: seq![],
                    last_seen: now,
                }),
            forall|i: int|
                0 <= i < forks@.len() ==> #[trigger] r@.forks[i] == (ForkRow {
                    fork: forks@[i],
                    state: VisualizerForkState::Unused,
                    last_seen: now,
                }),
    {
        let mut rows: Vec<ThinkerRow> = Vec::new();
        let mut i: usize = 0;
        while i < thinkers.len()
            invariant
                i <= thinkers@.len(),
                rows@.len() == i,
                forall|j: int|
                    0 <= j < i ==> #[trigger] row_view(rows@[j]) == (ThinkerRowView {
                        thinker: thinkers@[j],
                        state: VisualizerThinkerState::Thinking,
                        token_states: seq![],
                        last_seen: now,
                    }),
            decreases thinkers@.len() - i,
        {
            let empty: Vec<VisualizerThinkerAvailableTokenState> = Vec::new();
            assert(empty@ =~= seq![]);
            rows.push(
                ThinkerRow {
                    thinker: thinkers[i],
                    state: VisualizerThinkerState::Thinking,
                    token_states: empty,
                    last_seen: now,
                },
            );
            i += 1;
        }
        let mut fork_rows: Vec<ForkRow> = Vec::new();
        let mut i: usize = 0;
        while i < forks.len()
            invariant
                i <= forks@.len(),
                fork_rows@.len() == i,
                forall|j: int|
                    0 <= j < i ==> #[trigger] fork_rows@[j] == (ForkRow {
                        fork: forks@[j],
                        state: VisualizerForkState::Unused,
                        last_seen: now,
                    }),
            decreases forks@.len() - i,
        {
            fork_rows.push(
                ForkRow { fork: forks[i], state: VisualizerForkState::Unused, last_seen: now },
            );
            i += 1;
        }
        Visualizer { thinkers: rows, forks: fork_rows }
    }

    /// Records a report received at `now`.
    pub fn handle_message(&mut self, now: u64, message: &VisualizerMessages)
        ensures
            final(self)@ == after_report(old(self)@, now, *message),
    {
        match message {
            VisualizerMessages::Init { .. } => {},
            VisualizerMessages::ForkStateChanged { id, state } => {
                let ghost f0 = self.forks@;
                let mut i: usize = 0;
                while i < self.forks.len()
                    invariant
                        i <= self.forks@.len() == f0.len(),
                        f0 == old(self).forks@,
                        self.thinkers == old(self).thinkers,
                        forall|j: int|
                            0 <= j < i ==> #[trigger] self.forks@[j] == (if f0[j].fork.id.value
                                == id.value {
                                ForkRow { state: *state, last_seen: now, ..f0[j] }
                            } else {
                                f0[j]
                            }),
                        forall|j: int| i <= j < f0.len() ==> #[trigger] self.forks@[j] == f0[j],
                    decreases f0.len() - i,
                {
                    let r = self.forks[i];
                    if r.fork.id.value == id.value {
                        self.forks.set(i, ForkRow { state: *state, last_seen: now, ..r });
                    }
                    i += 1;
                }
                assert(self@.forks =~= after_report(old(self)@, now, *message).forks);
                assert(self@.thinkers =~= old(self)@.thinkers);
            },
            VisualizerMessages::ThinkerStateChanged { id, state, token_state } => {
                let ghost t0 = self.thinkers@;
                let mut i: usize = 0;
                while i < self.thinkers.len()
                    invariant
                        i <= self.thinkers@.len() == t0.len(),
                        t0 == old(self).thinkers@,
                        self.forks == old(self).forks,
                        forall|j: int|
                            0 <= j < i ==> #[trigger] row_view(self.thinkers@[j]) == (if t0[j].thinker.id.value
                                == id.value {
                                ThinkerRowView {
                                    state: *state,
                                    token_states: token_state@,
                                    last_seen: now,
                                    ..row_view(t0[j])
                                }
                            } else {
                                row_view(t0[j])
                            }),
                        forall|j: int| i <= j < t0.len() ==> #[trigger] self.thinkers@[j] == t0[j],
                    decreases t0.len() - i,
                {
                    if self.thinkers[i].thinker.id.value == id.value {
                        let row = ThinkerRow {
                            thinker: self.thinkers[i].thinker,
                            state: *state,
                            token_states: token_state.clone(),
                            last_seen: now,
                        };
                        self.thinkers.set(i, row);
                    }
                    i += 1;
                }
                assert(self@.thinkers =~= after_report(old(self)@, now, *message).thinkers);
            },
        }
    }
}

} // verus!

use crate::fork::ForkRef;
use crate::ids::{ForkId, ThinkerId};
use crate::thinker::ThinkerRef;
use crate::token::{Token, TokenProposal, TokenRef};
use crate::visualizer::VisualizerRef;
use vstd::prelude::*;

verus! {

/// A thinker's standing at a fork, as the fork reports it.
#[derive(Clone, Copy, Debug, PartialEq, Eq, Structural)]
pub enum ThinkerForkState {
    Taken,
    Queued,
}

/// What a fork receives.
#[derive(Clone, Copy)]
pub enum ForkMessages {
    Init(Option<VisualizerRef>),
    /// Asks for the fork, keeps the place in its queue, or renews the lease.
    KeepAlive(ThinkerId),
    Release(ThinkerId),
}

/// What a thinker receives once it runs.
pub enum ThinkerMessage {
    Init(InitThinkerParams),
    ForkAlive { id: ForkId, state: ThinkerForkState },
    ThinkerAliveRequest(ThinkerId),
    ThinkerAliveResponse(ThinkerId),
    Token(Token),
    TokenAliveBroadcast { token_ref: TokenRef, broadcast_issuer: ThinkerId },
    ProposeToken(TokenProposal),
}

/// What the bootstrap coordinator tells a thinker.
pub struct InitThinkerParams {
    pub token: Option<Token>,
    pub forks: [ForkRef; 2],
    pub next_thinkers: Vec<ThinkerRef>,
    pub visualizer: Option<VisualizerRef>,
    pub available_tokens: Vec<TokenRef>,
}

/// What the bootstrap coordinator receives.
pub enum InitMessages {
    ForkRequest(ForkId),
    ThinkerRequest(ThinkerId),
    VisualizerRequest,
}

/// What the visualizer receives.
#[allow(inconsistent_fields)]
pub enum VisualizerMessages {
    Init { thinkers: Vec<ThinkerRef>, forks: Vec<ForkRef> },
    ForkStateChanged { id: ForkId, state: VisualizerForkState },
    ThinkerStateChanged {
        id: ThinkerId,
        state: VisualizerThinkerState,
        token_state: Vec<VisualizerThinkerAvailableTokenState>,
    },
}

#[derive(Clone, Copy)]
pub enum VisualizerForkState {
    Unused,
    Used(ThinkerId),
}

#[derive(Clone, Copy)]
pub enum VisualizerThinkerState {
    Thinking,
    Hungry,
    WaitingForForks { token: TokenRef },
    Eating { token: TokenRef },
}

/// A thinker's view of one token slot, for display.
#[derive(Clone, Copy, Debug, PartialEq, Eq, Structural)]
pub enum VisualizerThinkerAvailableTokenState {
    Passive { not_seen_for_ms: u64 },
    Propose { token_version: u32, propose_version: u32 },
}

} // verus!

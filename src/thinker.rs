use crate::fork::{fresh, is_fresh, later, later_by, ForkRef};
use crate::ids::{Endpoint, ForkId, ThinkerId, TokenId};
use crate::messages::{
    ForkMessages, InitThinkerParams, ThinkerForkState, ThinkerMessage,
    VisualizerThinkerAvailableTokenState, VisualizerThinkerState,
};
use crate::token::{outranks, ref_of, token_of, Token, TokenPriority, TokenProposal, TokenRef};
use crate::visualizer::VisualizerRef;
use crate::{
    KEEP_ALIVE_TIMEOUT_MS, MAX_EATING_TIME_MS, MAX_THINKING_TIME_MS, MIN_EATING_TIME_MS,
    MIN_THINKING_TIME_MS, TOKEN_TIMEOUT_MS,
};
use rand::Rng;
use vstd::prelude::*;

verus! {

/// How a node names a thinker: its identifier and where it listens.
#[derive(Clone, Copy)]
pub struct ThinkerRef {
    pub address: Endpoint,
    pub id: ThinkerId,
}

/// A ring successor and when it last answered a liveness probe.
#[derive(Clone, Copy)]
pub struct Successor {
    pub thinker: ThinkerRef,
    pub last_seen: u64,
}

/// Whether this thinker merely remembers a token or is trying to replace it.
#[derive(Clone, Copy)]
pub enum SlotMode {
    Passive,
    Proposing(TokenProposal),
}

/// What a thinker remembers of one token of the ring.
#[derive(Clone, Copy)]
pub struct TokenSlot {
    pub last_ref: TokenRef,
    pub last_seen: u64,
    pub proposal_version: u32,
    pub mode: SlotMode,
}

#[derive(Clone, Copy)]
pub enum HungryTokenState {
    WaitingForToken,
    TokenHeld(Token),
}

/// A fork's answer as last heard while waiting for it.
#[derive(Clone, Copy)]
pub struct ForkProgress {
    pub status: ThinkerForkState,
    pub last_seen: u64,
}

#[derive(Clone, Copy)]
pub enum ThinkerState {
    Thinking { until: u64 },
    Hungry { token_state: HungryTokenState },
    WaitingForForks { token: Token, first: ForkProgress, second: ForkProgress },
    Eating { token: Token, until: u64, first_seen: u64, second_seen: u64 },
}

/// A message to send, with where it goes.
#[allow(inconsistent_fields)]
pub enum Outbound {
    ToFork { to: Endpoint, message: ForkMessages },
    ToThinker { to: Endpoint, message: ThinkerMessage },
}

/// One philosopher: its forks, what it knows of the ring, and its phase.
pub struct Thinker {
    pub id: ThinkerId,
    pub first_fork: ForkRef,
    pub second_fork: ForkRef,
    pub successors: Vec<Successor>,
    pub slots: Vec<TokenSlot>,
    pub state: ThinkerState,
}

pub struct ThinkerView {
    pub id: ThinkerId,
    pub first_fork: ForkRef,
    pub second_fork: ForkRef,
    pub successors: Seq<Successor>,
    pub slots: Seq<TokenSlot>,
    pub state: ThinkerState,
}

impl View for Thinker {
    type V = ThinkerView;

    open spec fn view(&self) -> ThinkerView {
        ThinkerView {
            id: self.id,
            first_fork: self.first_fork,
            second_fork: self.second_fork,
            successors: self.successors@,
            slots: self.slots@,
            state: self.state,
        }
    }
}

/// What a thinker saves to rejoin the ring after a crash.
pub struct ThinkerConfig {
    pub id: ThinkerId,
    pub local_address: Endpoint,
    pub forks: [ForkRef; 2],
    pub next_thinkers: Vec<ThinkerRef>,
    pub available_tokens: Vec<TokenRef>,
    pub visualizer: Option<VisualizerRef>,
}

pub open spec fn fresh_successor(t: ThinkerRef, now: u64) -> Successor {
    Successor { thinker: t, last_seen: now }
}

pub open spec fn passive_slot(r: TokenRef, now: u64) -> TokenSlot {
    TokenSlot { last_ref: r, last_seen: now, proposal_version: 0, mode: SlotMode::Passive }
}

/// A thinker that starts at `now`: all successors fresh, all slots passive
/// and just seen; hungry with the token it was given, else thinking.
pub open spec fn initial(
    id: ThinkerId,
    first_fork: ForkRef,
    second_fork: ForkRef,
    next: Seq<ThinkerRef>,
    tokens: Seq<TokenRef>,
    token: Option<Token>,
    now: u64,
    think_ms: u64,
) -> ThinkerView {
    ThinkerView {
        id,
        first_fork,
        second_fork,
        successors: next.map_values(|t: ThinkerRef| fresh_successor(t, now)),
        slots: tokens.map_values(|r: TokenRef| passive_slot(r, now)),
        state: match token {
            Some(t) => ThinkerState::Hungry { token_state: HungryTokenState::TokenHeld(t) },
            None => ThinkerState::Thinking { until: later(now, think_ms) },
        },
    }
}

fn fresh_successors(next: &Vec<ThinkerRef>, now: u64) -> (r: Vec<Successor>)
    ensures
        r@ == next@.map_values(|t: ThinkerRef| fresh_successor(t, now)),
{
    let mut r: Vec<Successor> = Vec::new();
    let mut i: usize = 0;
    while i < next.len()
        invariant
            i <= next@.len(),
            r@ == next@.subrange(0, i as int).map_values(|t: ThinkerRef| fresh_successor(t, now)),
        decreases next@.len() - i,
    {
        r.push(Successor { thinker: next[i], last_seen: now });
        proof {
            assert(next@.subrange(0, i + 1).map_values(|t: ThinkerRef| fresh_successor(t, now))
                =~= r@);
        }
        i += 1;
    }
    assert(next@.subrange(0, next@.len() as int) =~= next@);
    r
}

fn passive_slots(tokens: &Vec<TokenRef>, now: u64) -> (r: Vec<TokenSlot>)
    ensures
        r@ == tokens@.map_values(|t: TokenRef| passive_slot(t, now)),
{
    let mut r: Vec<TokenSlot> = Vec::new();
    let mut i: usize = 0;
    while i < tokens.len()
        invariant
            i <= tokens@.len(),
            r@ == tokens@.subrange(0, i as int).map_values(|t: TokenRef| passive_slot(t, now)),
        decreases tokens@.len() - i,
    {
        r.push(
            TokenSlot { last_ref: tokens[i], last_seen: now, proposal_version: 0, mode: SlotMode::Passive },
        );
        proof {
            assert(tokens@.subrange(0, i + 1).map_values(|t: TokenRef| passive_slot(t, now))
                =~= r@);
        }
        i += 1;
    }
    assert(tokens@.subrange(0, tokens@.len() as int) =~= tokens@);
    r
}

/// A successor that may take a message: heard from recently, and not the
/// one to avoid.
pub open spec fn usable(s: Successor, now: u64, avoid: Option<Endpoint>) -> bool {
    is_fresh(s.last_seen, now, KEEP_ALIVE_TIMEOUT_MS) && avoid != Some(s.thinker.address)
}

/// The first usable successor at or after position `i`.
pub open spec fn first_usable_from(s: Seq<Successor>, now: u64, avoid: Option<Endpoint>, i: int) -> Option<int>
    decreases s.len() - i,
{
    if i < 0 || i >= s.len() {
        None
    } else if usable(s[i], now, avoid) {
        Some(i)
    } else {
        first_usable_from(s, now, avoid, i + 1)
    }
}

/// Where a message is forwarded: the first fresh successor other than
/// `avoid`, or `avoid` itself when it is the only fresh one.
pub open spec fn next_hop(s: Seq<Successor>, now: u64, avoid: Option<Endpoint>) -> Option<int> {
    match first_usable_from(s, now, avoid, 0) {
        Some(j) => Some(j),
        None => first_usable_from(s, now, None, 0),
    }
}

/// The position of the slot that remembers token `id`.
pub open spec fn slot_from(slots: Seq<TokenSlot>, id: TokenId, i: int) -> Option<int>
    decreases slots.len() - i,
{
    if i < 0 || i >= slots.len() {
        None
    } else if slots[i].last_ref.id.value == id.value {
        Some(i)
    } else {
        slot_from(slots, id, i + 1)
    }
}

pub open spec fn slot_of(slots: Seq<TokenSlot>, id: TokenId) -> Option<int> {
    slot_from(slots, id, 0)
}

proof fn lemma_first_usable_bounds(s: Seq<Successor>, now: u64, avoid: Option<Endpoint>, i: int)
    ensures
        first_usable_from(s, now, avoid, i) matches Some(j) ==> i <= j < s.len(),
    decreases s.len() - i,
{
    if 0 <= i < s.len() && !usable(s[i], now, avoid) {
        lemma_first_usable_bounds(s, now, avoid, i + 1);
    }
}

proof fn lemma_slot_from_bounds(slots: Seq<TokenSlot>, id: TokenId, i: int)
    ensures
        slot_from(slots, id, i) matches Some(j) ==> i <= j < slots.len()
            && slots[j].last_ref.id.value == id.value,
    decreases slots.len() - i,
{
    if 0 <= i < slots.len() && slots[i].last_ref.id.value != id.value {
        lemma_slot_from_bounds(slots, id, i + 1);
    }
}

fn first_usable(s: &Vec<Successor>, now: u64, avoid: Option<Endpoint>) -> (r: Option<usize>)
    ensures
        r matches Some(j) ==> first_usable_from(s@, now, avoid, 0) == Some(j as int),
        r is None ==> first_usable_from(s@, now, avoid, 0) is None,
{
    let mut i: usize = 0;
    while i < s.len()
        invariant
            i <= s@.len(),
            first_usable_from(s@, now, avoid, 0) == first_usable_from(s@, now, avoid, i as int),
        decreases s@.len() - i,
    {
        let c = s[i];
        if fresh(c.last_seen, now, KEEP_ALIVE_TIMEOUT_MS) && avoid != Some(c.thinker.address) {
            return Some(i);
        }
        i += 1;
    }
    None
}

/// Position of the successor that a message goes to, if any is fresh.
pub fn next_hop_index(s: &Vec<Successor>, now: u64, avoid: Option<Endpoint>) -> (r: Option<usize>)
    ensures
        r matches Some(j) ==> j < s@.len() && next_hop(s@, now, avoid) == Some(j as int),
        r is None ==> next_hop(s@, now, avoid) is None,
{
    proof {
        lemma_first_usable_bounds(s@, now, avoid, 0);
        lemma_first_usable_bounds(s@, now, None, 0);
    }
    match first_usable(s, now, avoid) {
        Some(j) => Some(j),
        None => first_usable(s, now, None),
    }
}

/// Position of the slot that remembers token `id`, if any.
pub fn slot_index(slots: &Vec<TokenSlot>, id: TokenId) -> (r: Option<usize>)
    ensures
        r matches Some(j) ==> j < slots@.len() && slot_of(slots@, id) == Some(j as int)
            && slots@[j as int].last_ref.id.value == id.value,
        r is None ==> slot_of(slots@, id) is None,
{
    proof {
        lemma_slot_from_bounds(slots@, id, 0);
    }
    let mut i: usize = 0;
    while i < slots.len()
        invariant
            i <= slots@.len(),
            slot_of(slots@, id) == slot_from(slots@, id, i as int),
        decreases slots@.len() - i,
    {
        if slots[i].last_ref.id.value == id.value {
            return Some(i);
        }
        i += 1;
    }
    None
}

/// The message `m` sent to the next hop, or nothing when no successor is
/// fresh.
pub open spec fn send_next(s: Seq<Successor>, now: u64, avoid: Option<Endpoint>, m: ThinkerMessage) -> Seq<Outbound> {
    match next_hop(s, now, avoid) {
        Some(j) => seq![Outbound::ToThinker { to: s[j].thinker.address, message: m }],
        None => seq![],
    }
}

/// The token this thinker holds, in any phase that holds one.
pub open spec fn held_token(st: ThinkerState) -> Option<Token> {
    match st {
        ThinkerState::Hungry { token_state: HungryTokenState::TokenHeld(t) } => Some(t),
        ThinkerState::WaitingForForks { token, .. } => Some(token),
        ThinkerState::Eating { token, .. } => Some(token),
        _ => None,
    }
}

pub open spec fn same_ref(a: TokenRef, b: TokenRef) -> bool {
    a.id.value == b.id.value && a.version == b.version && a.issuer.value == b.issuer.value
}

/// A slot that has just seen evidence of the live reference `r`: it
/// remembers `r`, refreshes its clock, and gives up any proposal.
pub open spec fn seen(slot: TokenSlot, r: TokenRef, now: u64) -> TokenSlot {
    TokenSlot { last_ref: r, last_seen: now, proposal_version: slot.proposal_version, mode: SlotMode::Passive }
}

pub open spec fn bumped(x: u32) -> u32 {
    if x < u32::MAX {
        (x + 1) as u32
    } else {
        x
    }
}

pub open spec fn is_waiting_for_token(st: ThinkerState) -> bool {
    st matches ThinkerState::Hungry { token_state: HungryTokenState::WaitingForToken }
}

/// Receiving the token `t` from `from`: an outdated or unknown token is
/// dropped; a hungry thinker keeps it for the next tick; a copy of the
/// token already held is dropped; any other thinker passes it on.
pub open spec fn on_token(v: ThinkerView, now: u64, t: Token, from: Endpoint) -> (ThinkerView, Seq<Outbound>) {
    match slot_of(v.slots, t.id) {
        None => (v, seq![]),
        Some(k) => if outranks(v.slots[k].last_ref, ref_of(t)) {
            (v, seq![])
        } else {
            let v1 = ThinkerView { slots: v.slots.update(k, seen(v.slots[k], ref_of(t), now)), ..v };
            if is_waiting_for_token(v.state) {
                (
                    ThinkerView {
                        state: ThinkerState::Hungry { token_state: HungryTokenState::TokenHeld(t) },
                        ..v1
                    },
                    seq![],
                )
            } else if held_token(v.state) matches Some(h) && same_ref(ref_of(h), ref_of(t)) {
                (v1, seq![])
            } else {
                (v1, send_next(v.successors, now, Some(from), ThinkerMessage::Token(t)))
            }
        },
    }
}

/// Receiving a token-alive broadcast: the slot is refreshed, and learns the
/// broadcast reference unless it already knows a newer one; the broadcast
/// goes one hop further unless it is back at its origin.
pub open spec fn on_broadcast(v: ThinkerView, now: u64, r: TokenRef, b: ThinkerId) -> (ThinkerView, Seq<Outbound>) {
    match slot_of(v.slots, r.id) {
        None => (v, seq![]),
        Some(k) => {
            let slot = v.slots[k];
            let refreshed = if outranks(slot.last_ref, r) {
                TokenSlot { last_seen: now, ..slot }
            } else {
                seen(slot, r, now)
            };
            let v1 = ThinkerView { slots: v.slots.update(k, refreshed), ..v };
            if b.value == v.id.value {
                (v1, seq![])
            } else {
                match next_hop(v.successors, now, None) {
                    Some(j) => if v.successors[j].thinker.id.value == b.value {
                        (v1, seq![])
                    } else {
                        (
                            v1,
                            seq![
                                Outbound::ToThinker {
                                    to: v.successors[j].thinker.address,
                                    message: ThinkerMessage::TokenAliveBroadcast {
                                        token_ref: r,
                                        broadcast_issuer: b,
                                    },
                                },
                            ],
                        )
                    },
                    None => (v1, seq![]),
                }
            }
        },
    }
}

pub open spec fn same_proposal(q: TokenProposal, p: TokenProposal) -> bool {
    q.propose_version == p.propose_version && same_ref(q.proposed_token, p.proposed_token)
}

/// This thinker is proposing exactly `p`.
pub open spec fn proposing(slot: TokenSlot, p: TokenProposal) -> bool {
    slot.mode matches SlotMode::Proposing(q) && same_proposal(q, p)
}

/// Receiving a proposal. Proposals that do not outrank the remembered
/// token are dropped. Back at its issuer, still current, a proposal is
/// committed: the new token is kept by a hungry issuer and passed on
/// otherwise. A stranger's proposal refreshes the slot; a thinker proposing
/// a weaker replacement steps down; the proposal goes on unless it is
/// weaker than this thinker's own.
pub open spec fn on_proposal(v: ThinkerView, now: u64, p: TokenProposal) -> (ThinkerView, Seq<Outbound>) {
    let r = p.proposed_token;
    match slot_of(v.slots, r.id) {
        None => (v, seq![]),
        Some(k) => {
            let slot = v.slots[k];
            if !outranks(r, slot.last_ref) {
                (v, seq![])
            } else if r.issuer.value == v.id.value {
                if proposing(slot, p) {
                    let t = token_of(p);
                    let v1 = ThinkerView {
                        slots: v.slots.update(
                            k,
                            TokenSlot {
                                last_ref: r,
                                last_seen: now,
                                proposal_version: bumped(slot.proposal_version),
                                mode: SlotMode::Passive,
                            },
                        ),
                        ..v
                    };
                    if is_waiting_for_token(v.state) {
                        (
                            ThinkerView {
                                state: ThinkerState::Hungry { token_state: HungryTokenState::TokenHeld(t) },
                                ..v1
                            },
                            seq![],
                        )
                    } else {
                        (v1, send_next(v.successors, now, None, ThinkerMessage::Token(t)))
                    }
                } else {
                    (v, seq![])
                }
            } else {
                match slot.mode {
                    SlotMode::Proposing(q) => if outranks(r, q.proposed_token) {
                        (
                            ThinkerView {
                                slots: v.slots.update(
                                    k,
                                    TokenSlot { last_seen: now, mode: SlotMode::Passive, ..slot },
                                ),
                                ..v
                            },
                            send_next(v.successors, now, None, ThinkerMessage::ProposeToken(p)),
                        )
                    } else {
                        (
                            ThinkerView {
                                slots: v.slots.update(k, TokenSlot { last_seen: now, ..slot }),
                                ..v
                            },
                            seq![],
                        )
                    },
                    SlotMode::Passive => (
                        ThinkerView {
                            slots: v.slots.update(k, TokenSlot { last_seen: now, ..slot }),
                            ..v
                        },
                        send_next(v.successors, now, None, ThinkerMessage::ProposeToken(p)),
                    ),
                }
            }
        },
    }
}

pub open spec fn progress_after(p: ForkProgress, mine: bool, status: ThinkerForkState, now: u64) -> ForkProgress {
    if mine {
        ForkProgress { status, last_seen: now }
    } else {
        p
    }
}

/// A fork's answer: while waiting, it records the fork's latest word; while
/// eating, only a confirmation of ownership refreshes the fork.
pub open spec fn on_fork_alive(v: ThinkerView, now: u64, id: ForkId, status: ThinkerForkState) -> ThinkerView {
    let m1 = v.first_fork.id.value == id.value;
    let m2 = v.second_fork.id.value == id.value;
    match v.state {
        ThinkerState::WaitingForForks { token, first, second } => ThinkerView {
            state: ThinkerState::WaitingForForks {
                token,
                first: progress_after(first, m1, status, now),
                second: progress_after(second, m2, status, now),
            },
            ..v
        },
        ThinkerState::Eating { token, until, first_seen, second_seen } => if status
            == ThinkerForkState::Taken {
            ThinkerView {
                state: ThinkerState::Eating {
                    token,
                    until,
                    first_seen: if m1 { now } else { first_seen },
                    second_seen: if m2 { now } else { second_seen },
                },
                ..v
            }
        } else {
            v
        },
        _ => v,
    }
}

pub open spec fn answered(s: Successor, peer: ThinkerId, now: u64) -> Successor {
    if s.thinker.id.value == peer.value {
        Successor { last_seen: now, ..s }
    } else {
        s
    }
}

/// A liveness answer refreshes the successor that sent it.
pub open spec fn on_alive_response(v: ThinkerView, now: u64, peer: ThinkerId) -> ThinkerView {
    ThinkerView { successors: v.successors.map_values(|s: Successor| answered(s, peer, now)), ..v }
}

/// One received message, from `from`, at `now`.
pub open spec fn after_message(v: ThinkerView, now: u64, m: ThinkerMessage, from: Endpoint) -> (ThinkerView, Seq<Outbound>) {
    match m {
        ThinkerMessage::Init(_) => (v, seq![]),
        ThinkerMessage::ForkAlive { id, state } => (on_fork_alive(v, now, id, state), seq![]),
        ThinkerMessage::ThinkerAliveRequest(_) => (
            v,
            seq![
                Outbound::ToThinker { to: from, message: ThinkerMessage::ThinkerAliveResponse(v.id) },
            ],
        ),
        ThinkerMessage::ThinkerAliveResponse(peer) => (on_alive_response(v, now, peer), seq![]),
        ThinkerMessage::Token(t) => on_token(v, now, t, from),
        ThinkerMessage::TokenAliveBroadcast { token_ref, broadcast_issuer } => on_broadcast(
            v,
            now,
            token_ref,
            broadcast_issuer,
        ),
        ThinkerMessage::ProposeToken(p) => on_proposal(v, now, p),
    }
}

/// Where the probes stop: just past the second fresh successor, or at the
/// end of the list when fewer than two are fresh.
pub open spec fn probe_end(s: Seq<Successor>, now: u64, i: int, found: nat) -> int
    decreases s.len() - i,
{
    if i < 0 || i >= s.len() {
        s.len() as int
    } else if is_fresh(s[i].last_seen, now, KEEP_ALIVE_TIMEOUT_MS) {
        if found >= 1 {
            i + 1
        } else {
            probe_end(s, now, i + 1, found + 1)
        }
    } else {
        probe_end(s, now, i + 1, found)
    }
}

proof fn lemma_probe_end_past(s: Seq<Successor>, now: u64, i: int, found: nat)
    requires
        i >= s.len(),
    ensures
        probe_end(s, now, i, found) == s.len(),
{
}

pub open spec fn probe_to(c: Successor, me: ThinkerId) -> Outbound {
    Outbound::ToThinker { to: c.thinker.address, message: ThinkerMessage::ThinkerAliveRequest(me) }
}

/// Liveness probes go to every successor up to the second fresh one, so
/// that a successor counted dead is asked again and can come back.
pub open spec fn probes(v: ThinkerView, now: u64) -> Seq<Outbound> {
    v.successors.subrange(0, probe_end(v.successors, now, 0, 0)).map_values(
        |c: Successor| probe_to(c, v.id),
    )
}

/// A passive slot silent for longer than the token timeout starts a
/// proposal for the next version, under a new proposal number.
pub open spec fn timed_out(slot: TokenSlot, now: u64, me: ThinkerId) -> TokenSlot {
    if slot.mode is Passive && !is_fresh(slot.last_seen, now, TOKEN_TIMEOUT_MS)
        && slot.last_ref.version < u32::MAX && slot.proposal_version < u32::MAX {
        let pv = (slot.proposal_version + 1) as u32;
        TokenSlot {
            proposal_version: pv,
            mode: SlotMode::Proposing(
                TokenProposal {
                    proposed_token: TokenRef {
                        id: slot.last_ref.id,
                        version: (slot.last_ref.version + 1) as u32,
                        issuer: me,
                    },
                    propose_version: pv,
                },
            ),
            ..slot
        }
    } else {
        slot
    }
}

/// The proposals of the proposing slots, in slot order, all sent to `to`.
pub open spec fn proposal_msgs(slots: Seq<TokenSlot>, to: Endpoint) -> Seq<Outbound>
    decreases slots.len(),
{
    if slots.len() == 0 {
        seq![]
    } else {
        let earlier = proposal_msgs(slots.drop_last(), to);
        match slots.last().mode {
            SlotMode::Proposing(q) => earlier.push(
                Outbound::ToThinker { to, message: ThinkerMessage::ProposeToken(q) },
            ),
            SlotMode::Passive => earlier,
        }
    }
}

pub open spec fn proposals(v: ThinkerView, now: u64) -> Seq<Outbound> {
    match next_hop(v.successors, now, None) {
        Some(j) => proposal_msgs(v.slots, v.successors[j].thinker.address),
        None => seq![],
    }
}

pub open spec fn keep_alives(v: ThinkerView) -> Seq<Outbound> {
    seq![
        Outbound::ToFork { to: v.first_fork.address, message: ForkMessages::KeepAlive(v.id) },
        Outbound::ToFork { to: v.second_fork.address, message: ForkMessages::KeepAlive(v.id) },
    ]
}

pub open spec fn releases(v: ThinkerView) -> Seq<Outbound> {
    seq![
        Outbound::ToFork { to: v.first_fork.address, message: ForkMessages::Release(v.id) },
        Outbound::ToFork { to: v.second_fork.address, message: ForkMessages::Release(v.id) },
    ]
}

pub open spec fn broadcast(v: ThinkerView, now: u64, t: Token) -> Seq<Outbound> {
    send_next(
        v.successors,
        now,
        None,
        ThinkerMessage::TokenAliveBroadcast { token_ref: ref_of(t), broadcast_issuer: v.id },
    )
}

/// Holding a token refreshes its slot; a token outranked by what the slot
/// has since seen is given up, and with it any forks asked for.
pub open spec fn check_held(v: ThinkerView, now: u64) -> (ThinkerView, Seq<Outbound>) {
    match held_token(v.state) {
        None => (v, seq![]),
        Some(t) => match slot_of(v.slots, t.id) {
            None => (v, seq![]),
            Some(k) => {
                let slot = v.slots[k];
                let v1 = ThinkerView {
                    slots: v.slots.update(k, TokenSlot { last_seen: now, ..slot }),
                    ..v
                };
                if outranks(slot.last_ref, ref_of(t)) {
                    (
                        ThinkerView {
                            state: ThinkerState::Hungry {
                                token_state: HungryTokenState::WaitingForToken,
                            },
                            ..v1
                        },
                        if v.state is Hungry {
                            seq![]
                        } else {
                            releases(v)
                        },
                    )
                } else {
                    (v1, seq![])
                }
            },
        },
    }
}

pub open spec fn becomes(v: ThinkerView, st: ThinkerState) -> ThinkerView {
    ThinkerView { state: st, ..v }
}

pub open spec fn gives_up(v: ThinkerView, now: u64, t: Token) -> (ThinkerView, Seq<Outbound>) {
    (
        becomes(v, ThinkerState::Hungry { token_state: HungryTokenState::WaitingForToken }),
        releases(v) + send_next(v.successors, now, None, ThinkerMessage::Token(t)),
    )
}

/// The phase transition of a tick.
pub open spec fn phase(v: ThinkerView, now: u64, think_ms: u64, eat_ms: u64) -> (ThinkerView, Seq<Outbound>) {
    match v.state {
        ThinkerState::Thinking { until } => if now >= until {
            (becomes(v, ThinkerState::Hungry { token_state: HungryTokenState::WaitingForToken }), seq![])
        } else {
            (v, seq![])
        },
        ThinkerState::Hungry { token_state: HungryTokenState::WaitingForToken } => (v, seq![]),
        ThinkerState::Hungry { token_state: HungryTokenState::TokenHeld(t) } => (
            becomes(
                v,
                ThinkerState::WaitingForForks {
                    token: t,
                    first: ForkProgress { status: ThinkerForkState::Queued, last_seen: now },
                    second: ForkProgress { status: ThinkerForkState::Queued, last_seen: now },
                },
            ),
            keep_alives(v) + broadcast(v, now, t),
        ),
        ThinkerState::WaitingForForks { token, first, second } => if !is_fresh(
            first.last_seen,
            now,
            KEEP_ALIVE_TIMEOUT_MS,
        ) || !is_fresh(second.last_seen, now, KEEP_ALIVE_TIMEOUT_MS) {
            gives_up(v, now, token)
        } else if first.status == ThinkerForkState::Taken && second.status
            == ThinkerForkState::Taken {
            (
                becomes(
                    v,
                    ThinkerState::Eating {
                        token,
                        until: later(now, eat_ms),
                        first_seen: first.last_seen,
                        second_seen: second.last_seen,
                    },
                ),
                keep_alives(v) + broadcast(v, now, token),
            )
        } else {
            (v, keep_alives(v) + broadcast(v, now, token))
        },
        ThinkerState::Eating { token, until, first_seen, second_seen } => if now >= until {
            (
                becomes(v, ThinkerState::Thinking { until: later(now, think_ms) }),
                send_next(v.successors, now, None, ThinkerMessage::Token(token)) + releases(v),
            )
        } else if !is_fresh(first_seen, now, KEEP_ALIVE_TIMEOUT_MS) && !is_fresh(
            second_seen,
            now,
            KEEP_ALIVE_TIMEOUT_MS,
        ) {
            gives_up(v, now, token)
        } else {
            (v, keep_alives(v) + broadcast(v, now, token))
        },
    }
}

/// The thinker's own step at a tick.
pub open spec fn update(v: ThinkerView, now: u64, think_ms: u64, eat_ms: u64) -> (ThinkerView, Seq<Outbound>) {
    let out1 = probes(v, now);
    let v2 = ThinkerView { slots: v.slots.map_values(|sl: TokenSlot| timed_out(sl, now, v.id)), ..v };
    let out2 = proposals(v2, now);
    let v3 = check_held(v2, now).0;
    let out3 = check_held(v2, now).1;
    let v4 = phase(v3, now, think_ms, eat_ms).0;
    let out4 = phase(v3, now, think_ms, eat_ms).1;
    (v4, out1 + out2 + out3 + out4)
}

/// Every slot still names the same token, by a reference that the earlier
/// one does not outrank (so at a version no lower than before), and its
/// proposal number has not gone down.
pub open spec fn slots_advance(a: Seq<TokenSlot>, b: Seq<TokenSlot>) -> bool {
    &&& a.len() == b.len()
    &&& forall|i: int|
        0 <= i < a.len() ==> #[trigger] b[i].last_ref.id.value == a[i].last_ref.id.value
            && a[i].last_ref.version <= b[i].last_ref.version && !outranks(
            a[i].last_ref,
            b[i].last_ref,
        ) && a[i].proposal_version <= b[i].proposal_version
}

proof fn lemma_update_advances(v: ThinkerView, now: u64, think_ms: u64, eat_ms: u64)
    ensures
        slots_advance(v.slots, update(v, now, think_ms, eat_ms).0.slots),
{
    let v2 = ThinkerView { slots: v.slots.map_values(|sl: TokenSlot| timed_out(sl, now, v.id)), ..v };
    if let Some(t) = held_token(v2.state) {
        lemma_slot_from_bounds(v2.slots, t.id, 0);
    }
}

/// The thinker after the messages of one tick, each with its sender, in
/// order of arrival, and everything they made it send.
pub open spec fn after_messages(v: ThinkerView, now: u64, ms: Seq<(Endpoint, ThinkerMessage)>) -> (ThinkerView, Seq<Outbound>)
    decreases ms.len(),
{
    if ms.len() == 0 {
        (v, seq![])
    } else {
        let before = after_messages(v, now, ms.drop_last());
        let last = after_message(before.0, now, ms.last().1, ms.last().0);
        (last.0, before.1 + last.1)
    }
}

/// A whole tick: the messages, then the thinker's own step.
pub open spec fn after_tick(
    v: ThinkerView,
    now: u64,
    ms: Seq<(Endpoint, ThinkerMessage)>,
    think_ms: u64,
    eat_ms: u64,
) -> (ThinkerView, Seq<Outbound>) {
    let handled = after_messages(v, now, ms);
    let stepped = update(handled.0, now, think_ms, eat_ms);
    (stepped.0, handled.1 + stepped.1)
}

proof fn lemma_message_advances(v: ThinkerView, now: u64, m: ThinkerMessage, from: Endpoint)
    ensures
        slots_advance(v.slots, after_message(v, now, m, from).0.slots),
{
    match m {
        ThinkerMessage::Token(t) => lemma_slot_from_bounds(v.slots, t.id, 0),
        ThinkerMessage::TokenAliveBroadcast { token_ref, .. } => lemma_slot_from_bounds(
            v.slots,
            token_ref.id,
            0,
        ),
        ThinkerMessage::ProposeToken(p) => lemma_slot_from_bounds(v.slots, p.proposed_token.id, 0),
        _ => {},
    }
}

/// Versions only move forward: if two steps each keep every slot on its
/// token at a version no lower than before, so do both together.
pub proof fn lemma_advance_transitive(a: Seq<TokenSlot>, b: Seq<TokenSlot>, c: Seq<TokenSlot>)
    requires
        slots_advance(a, b),
        slots_advance(b, c),
    ensures
        slots_advance(a, c),
{
    assert forall|i: int| 0 <= i < a.len() implies #[trigger] c[i].last_ref.id.value
        == a[i].last_ref.id.value && a[i].last_ref.version <= c[i].last_ref.version && !outranks(
        a[i].last_ref,
        c[i].last_ref,
    ) && a[i].proposal_version <= c[i].proposal_version by {
        assert(b[i].last_ref.id.value == a[i].last_ref.id.value);
        assert(c[i].last_ref.id.value == b[i].last_ref.id.value);
    }
}

/// The versions a thinker remembers never decrease, over any messages of a
/// tick and its own step, whatever durations it draws.
pub proof fn lemma_tick_advances(
    v: ThinkerView,
    now: u64,
    ms: Seq<(Endpoint, ThinkerMessage)>,
    think_ms: u64,
    eat_ms: u64,
)
    ensures
        slots_advance(v.slots, after_messages(v, now, ms).0.slots),
        slots_advance(v.slots, after_tick(v, now, ms, think_ms, eat_ms).0.slots),
    decreases ms.len(),
{
    if ms.len() == 0 {
        assert(slots_advance(v.slots, v.slots));
    } else {
        let before = after_messages(v, now, ms.drop_last());
        lemma_tick_advances(v, now, ms.drop_last(), think_ms, eat_ms);
        lemma_message_advances(before.0, now, ms.last().1, ms.last().0);
        lemma_advance_transitive(v.slots, before.0.slots, after_messages(v, now, ms).0.slots);
    }
    let handled = after_messages(v, now, ms).0;
    lemma_update_advances(handled, now, think_ms, eat_ms);
    lemma_advance_transitive(v.slots, handled.slots, update(handled, now, think_ms, eat_ms).0.slots);
}

/// A thinker starts eating only out of waiting for its forks, and only once
/// both forks have reported it as their owner and both have been heard from
/// within the keep-alive timeout.
pub proof fn lemma_eats_only_with_both_forks(v: ThinkerView, now: u64, think_ms: u64, eat_ms: u64)
    requires
        !(v.state is Eating),
        update(v, now, think_ms, eat_ms).0.state is Eating,
    ensures
        v.state matches ThinkerState::WaitingForForks { first, second, .. } && first.status
            == ThinkerForkState::Taken && second.status == ThinkerForkState::Taken && is_fresh(
            first.last_seen,
            now,
            KEEP_ALIVE_TIMEOUT_MS,
        ) && is_fresh(second.last_seen, now, KEEP_ALIVE_TIMEOUT_MS),
{
    let v2 = ThinkerView { slots: v.slots.map_values(|sl: TokenSlot| timed_out(sl, now, v.id)), ..v };
    if let Some(t) = held_token(v2.state) {
        lemma_slot_from_bounds(v2.slots, t.id, 0);
    }
}

/// Handling a message never starts a meal.
pub proof fn lemma_message_never_starts_eating(v: ThinkerView, now: u64, m: ThinkerMessage, from: Endpoint)
    requires
        !(v.state is Eating),
    ensures
        !(after_message(v, now, m, from).0.state is Eating),
{
}

/// A new version of a token comes into being only when a thinker commits a
/// proposal it issued itself: a proposal that changes what a slot remembers
/// leaves there that very proposal, issued by this thinker.
pub proof fn lemma_commit_by_issuer_only(v: ThinkerView, now: u64, p: TokenProposal, from: Endpoint, k: int)
    requires
        0 <= k < v.slots.len(),
        after_message(v, now, ThinkerMessage::ProposeToken(p), from).0.slots[k].last_ref
            != v.slots[k].last_ref,
    ensures
        after_message(v, now, ThinkerMessage::ProposeToken(p), from).0.slots[k].last_ref
            == p.proposed_token,
        p.proposed_token.issuer.value == v.id.value,
{
    lemma_slot_from_bounds(v.slots, p.proposed_token.id, 0);
}

/// `out` is exactly `m`, sent to the successor of `v` that `next` is.
pub open spec fn passes_to(out: Seq<Outbound>, v: ThinkerView, now: u64, m: ThinkerMessage, next: ThinkerView) -> bool {
    exists|j: int|
        next_hop(v.successors, now, None) == Some(j) && #[trigger] v.successors[j].thinker.id.value
            == next.id.value && out == seq![
            Outbound::ToThinker { to: v.successors[j].thinker.address, message: m },
        ]
}

/// `v` hands its messages to `next`: its next fresh successor is `next`.
pub open spec fn hands_to(v: ThinkerView, now: u64, next: ThinkerView) -> bool {
    next_hop(v.successors, now, None) matches Some(j) && v.successors[j].thinker.id.value
        == next.id.value
}

/// The token slot of `v` for the token that `p` proposes, outranked by `p`.
pub open spec fn outranked_by(v: ThinkerView, p: TokenProposal) -> bool {
    slot_of(v.slots, p.proposed_token.id) matches Some(k) && outranks(
        p.proposed_token,
        v.slots[k].last_ref,
    )
}

/// A proposal goes once around a ring of fresh thinkers and comes back as
/// the token. The ring starts at the issuer, which is still proposing `p`;
/// every other thinker is passive for that token; each thinker hands its
/// messages to the next and the last to the issuer; and `p` outranks what
/// each of them remembers. Then every other thinker passes `p` on,
/// unchanged, to the next, and the issuer, receiving it, commits: its slot
/// remembers the new version and is passive again under a new proposal
/// number; a hungry issuer holds the token, any other passes it on to the
/// next thinker.
pub proof fn lemma_proposal_round_trip_ring(ring: Seq<ThinkerView>, now: u64, p: TokenProposal, from: Endpoint)
    requires
        ring.len() >= 1,
        forall|i: int| 0 <= i < ring.len() ==> outranked_by(#[trigger] ring[i], p),
        forall|i: int|
            0 <= i < ring.len() ==> hands_to(
                #[trigger] ring[i],
                now,
                ring[if i + 1 < ring.len() {
                    i + 1
                } else {
                    0
                }],
            ),
        forall|i: int|
            1 <= i < ring.len() ==> (#[trigger] ring[i]).id.value != p.proposed_token.issuer.value,
        forall|i: int|
            1 <= i < ring.len() ==> match slot_of((#[trigger] ring[i]).slots, p.proposed_token.id) {
                Some(k) => ring[i].slots[k].mode is Passive,
                None => false,
            },
        ring[0].id.value == p.proposed_token.issuer.value,
        match slot_of(ring[0].slots, p.proposed_token.id) {
            Some(k) => proposing(ring[0].slots[k], p),
            None => false,
        },
    ensures
        forall|i: int|
            1 <= i < ring.len() ==> passes_to(
                after_message(#[trigger] ring[i], now, ThinkerMessage::ProposeToken(p), from).1,
                ring[i],
                now,
                ThinkerMessage::ProposeToken(p),
                ring[if i + 1 < ring.len() {
                    i + 1
                } else {
                    0
                }],
            ),
        is_waiting_for_token(ring[0].state) ==> after_message(
            ring[0],
            now,
            ThinkerMessage::ProposeToken(p),
            from,
        ).0.state == (ThinkerState::Hungry {
            token_state: HungryTokenState::TokenHeld(token_of(p)),
        }),
        !is_waiting_for_token(ring[0].state) ==> passes_to(
            after_message(ring[0], now, ThinkerMessage::ProposeToken(p), from).1,
            ring[0],
            now,
            ThinkerMessage::Token(token_of(p)),
            ring[if 1 < ring.len() {
                1
            } else {
                0
            }],
        ),
        token_of(p).version == p.proposed_token.version,
        after_message(ring[0], now, ThinkerMessage::ProposeToken(p), from).0.slots[slot_of(
            ring[0].slots,
            p.proposed_token.id,
        )->Some_0] == (TokenSlot {
            last_ref: p.proposed_token,
            last_seen: now,
            proposal_version: bumped(ring[0].slots[slot_of(ring[0].slots, p.proposed_token.id)->Some_0].proposal_version),
            mode: SlotMode::Passive,
        }),
{
    assert forall|i: int| 1 <= i < ring.len() implies passes_to(
        after_message(#[trigger] ring[i], now, ThinkerMessage::ProposeToken(p), from).1,
        ring[i],
        now,
        ThinkerMessage::ProposeToken(p),
        ring[if i + 1 < ring.len() {
            i + 1
        } else {
            0
        }],
    ) by {
        lemma_hop(
            ring[i],
            ring[if i + 1 < ring.len() {
                i + 1
            } else {
                0
            }],
            now,
            p,
            from,
        );
    }
    assert(outranked_by(ring[0], p));
    lemma_slot_from_bounds(ring[0].slots, p.proposed_token.id, 0);
    assert(hands_to(
        ring[0],
        now,
        ring[if 1 < ring.len() {
            1
        } else {
            0
        }],
    ));
    if !is_waiting_for_token(ring[0].state) {
        let j = next_hop(ring[0].successors, now, None)->Some_0;
        assert(ring[0].successors[j].thinker.id.value == ring[if 1 < ring.len() {
            1
        } else {
            0
        }].id.value);
    }
}

proof fn lemma_hop(v: ThinkerView, next: ThinkerView, now: u64, p: TokenProposal, from: Endpoint)
    requires
        outranked_by(v, p),
        hands_to(v, now, next),
        v.id.value != p.proposed_token.issuer.value,
        match slot_of(v.slots, p.proposed_token.id) {
            Some(k) => v.slots[k].mode is Passive,
            None => false,
        },
    ensures
        passes_to(
            after_message(v, now, ThinkerMessage::ProposeToken(p), from).1,
            v,
            now,
            ThinkerMessage::ProposeToken(p),
            next,
        ),
{
    let j = next_hop(v.successors, now, None)->Some_0;
    lemma_slot_from_bounds(v.slots, p.proposed_token.id, 0);
    assert(v.successors[j].thinker.id.value == next.id.value);
}

/// Two distinct thinkers that each bring a new version of the same token
/// into being bring different versions: each commits its own proposal, so
/// the two references differ at least in their issuer.
pub proof fn lemma_commits_distinct(
    a: ThinkerView,
    pa: TokenProposal,
    ka: int,
    b: ThinkerView,
    pb: TokenProposal,
    kb: int,
    now: u64,
    from: Endpoint,
)
    requires
        a.id.value != b.id.value,
        0 <= ka < a.slots.len(),
        0 <= kb < b.slots.len(),
        after_message(a, now, ThinkerMessage::ProposeToken(pa), from).0.slots[ka].last_ref
            != a.slots[ka].last_ref,
        after_message(b, now, ThinkerMessage::ProposeToken(pb), from).0.slots[kb].last_ref
            != b.slots[kb].last_ref,
    ensures
        after_message(a, now, ThinkerMessage::ProposeToken(pa), from).0.slots[ka].last_ref
            != after_message(b, now, ThinkerMessage::ProposeToken(pb), from).0.slots[kb].last_ref,
{
    lemma_commit_by_issuer_only(a, now, pa, from, ka);
    lemma_commit_by_issuer_only(b, now, pb, from, kb);
}

fn is_high(p: Option<TokenPriority>) -> (r: bool)
    ensures
        r == (p == Some(TokenPriority::High)),
{
    match p {
        Some(TokenPriority::High) => true,
        _ => false,
    }
}

fn refs_equal(a: &TokenRef, b: &TokenRef) -> (r: bool)
    ensures
        r == same_ref(*a, *b),
{
    a.id.value == b.id.value && a.version == b.version && a.issuer.value == b.issuer.value
}

fn held(st: &ThinkerState) -> (r: Option<Token>)
    ensures
        r == held_token(*st),
{
    match st {
        ThinkerState::Hungry { token_state: HungryTokenState::TokenHeld(t) } => Some(*t),
        ThinkerState::WaitingForForks { token, .. } => Some(*token),
        ThinkerState::Eating { token, .. } => Some(*token),
        _ => None,
    }
}

fn waiting_for_token(st: &ThinkerState) -> (r: bool)
    ensures
        r == is_waiting_for_token(*st),
{
    match st {
        ThinkerState::Hungry { token_state: HungryTokenState::WaitingForToken } => true,
        _ => false,
    }
}

/// The phase as the visualizer shows it.
pub open spec fn shown_state(st: ThinkerState) -> VisualizerThinkerState {
    match st {
        ThinkerState::Thinking { .. } => VisualizerThinkerState::Thinking,
        ThinkerState::Hungry { .. } => VisualizerThinkerState::Hungry,
        ThinkerState::WaitingForForks { token, .. } => VisualizerThinkerState::WaitingForForks {
            token: ref_of(token),
        },
        ThinkerState::Eating { token, .. } => VisualizerThinkerState::Eating { token: ref_of(token) },
    }
}

/// A slot as the visualizer shows it: how long its token has not been seen,
/// or the versions of the proposal under way.
pub open spec fn shown_slot(sl: TokenSlot, now: u64) -> VisualizerThinkerAvailableTokenState {
    match sl.mode {
        SlotMode::Passive => VisualizerThinkerAvailableTokenState::Passive {
            not_seen_for_ms: if now >= sl.last_seen {
                (now - sl.last_seen) as u64
            } else {
                0
            },
        },
        SlotMode::Proposing(q) => VisualizerThinkerAvailableTokenState::Propose {
            token_version: q.proposed_token.version,
            propose_version: q.propose_version,
        },
    }
}

/// Relies on rand::rng and Rng::random_range over an inclusive range: the
/// value drawn lies within the bounds; the call panics only on an empty range.
#[verifier::external_body]
fn random_between(low: u64, high: u64) -> (r: u64)
    requires
        low <= high,
    ensures
        low <= r <= high,
{
    rand::rng().random_range(low..=high)
}

impl Thinker {
    /// The phase as the visualizer shows it.
    pub fn visualizer_state(&self) -> (r: VisualizerThinkerState)
        ensures
            r == shown_state(self.state),
    {
        match self.state {
            ThinkerState::Thinking { .. } => VisualizerThinkerState::Thinking,
            ThinkerState::Hungry { .. } => VisualizerThinkerState::Hungry,
            ThinkerState::WaitingForForks { token, .. } => VisualizerThinkerState::WaitingForForks {
                token: TokenRef::from(token),
            },
            ThinkerState::Eating { token, .. } => VisualizerThinkerState::Eating {
                token: TokenRef::from(token),
            },
        }
    }

    /// Every token slot as the visualizer shows it, at `now`.
    pub fn token_states(&self, now: u64) -> (r: Vec<VisualizerThinkerAvailableTokenState>)
        ensures
            r@ == self.slots@.map_values(|sl: TokenSlot| shown_slot(sl, now)),
    {
        let mut r: Vec<VisualizerThinkerAvailableTokenState> = Vec::new();
        let mut i: usize = 0;
        while i < self.slots.len()
            invariant
                i <= self.slots@.len(),
                r@ =~= self.slots@.subrange(0, i as int).map_values(|sl: TokenSlot| shown_slot(sl, now)),
            decreases self.slots@.len() - i,
        {
            let sl = self.slots[i];
            let shown = match sl.mode {
                SlotMode::Passive => VisualizerThinkerAvailableTokenState::Passive {
                    not_seen_for_ms: if now >= sl.last_seen {
                        now - sl.last_seen
                    } else {
                        0
                    },
                },
                SlotMode::Proposing(q) => VisualizerThinkerAvailableTokenState::Propose {
                    token_version: q.proposed_token.version,
                    propose_version: q.propose_version,
                },
            };
            r.push(shown);
            i += 1;
            assert(r@ =~= self.slots@.subrange(0, i as int).map_values(|sl: TokenSlot| shown_slot(sl, now)));
        }
        assert(self.slots@.subrange(0, self.slots@.len() as int) =~= self.slots@);
        r
    }

    /// A thinker as the bootstrap coordinator set it up at `now`: fresh
    /// successors, passive token slots, holding the initial token if it was
    /// given one and thinking for `think_ms` otherwise.
    pub fn with_thinking_time(id: ThinkerId, params: &InitThinkerParams, now: u64, think_ms: u64) -> (r: Self)
        ensures
            r@ == initial(id, params.forks[0], params.forks[1], params.next_thinkers@, params.available_tokens@, params.token, now, think_ms),
    {
        Thinker {
            id,
            first_fork: params.forks[0],
            second_fork: params.forks[1],
            successors: fresh_successors(&params.next_thinkers, now),
            slots: passive_slots(&params.available_tokens, now),
            state: match params.token {
                Some(t) => ThinkerState::Hungry { token_state: HungryTokenState::TokenHeld(t) },
                None => ThinkerState::Thinking { until: later_by(now, think_ms) },
            },
        }
    }

    /// A thinker as set up by the bootstrap coordinator, with a random
    /// thinking time.
    pub fn new(id: ThinkerId, params: &InitThinkerParams, now: u64) -> (r: Self)
        ensures
            exists|think_ms: u64|
                MIN_THINKING_TIME_MS <= think_ms <= MAX_THINKING_TIME_MS && r@ == initial(
                    id,
                    params.forks[0],
                    params.forks[1],
                    params.next_thinkers@,
                    params.available_tokens@,
                    params.token,
                    now,
                    think_ms,
                ),
    {
        let think_ms = random_between(MIN_THINKING_TIME_MS, MAX_THINKING_TIME_MS);
        Thinker::with_thinking_time(id, params, now, think_ms)
    }

    /// A thinker restarted from its saved configuration: thinking, holding
    /// no token; whatever it held is regenerated by the ring.
    pub fn restart(config: &ThinkerConfig, now: u64, think_ms: u64) -> (r: Self)
        ensures
            r@ == initial(config.id, config.forks[0], config.forks[1], config.next_thinkers@, config.available_tokens@, None, now, think_ms),
            r@.state is Thinking,
    {
        Thinker {
            id: config.id,
            first_fork: config.forks[0],
            second_fork: config.forks[1],
            successors: fresh_successors(&config.next_thinkers, now),
            slots: passive_slots(&config.available_tokens, now),
            state: ThinkerState::Thinking { until: later_by(now, think_ms) },
        }
    }

    /// A thinker restarted from its saved configuration, thinking for a
    /// random time within the bounds.
    pub fn rejoin(config: &ThinkerConfig, now: u64) -> (r: Self)
        ensures
            exists|think_ms: u64|
                MIN_THINKING_TIME_MS <= think_ms <= MAX_THINKING_TIME_MS && r@ == initial(
                    config.id,
                    config.forks[0],
                    config.forks[1],
                    config.next_thinkers@,
                    config.available_tokens@,
                    None,
                    now,
                    think_ms,
                ),
    {
        let think_ms = random_between(MIN_THINKING_TIME_MS, MAX_THINKING_TIME_MS);
        Thinker::restart(config, now, think_ms)
    }

    /// One tick with the given durations for a phase that starts: every
    /// message received since the last tick, each with its sender, then the
    /// thinker's own step. Returns what is to be sent.
    pub fn tick_with(
        &mut self,
        now: u64,
        inbox: &Vec<(Endpoint, ThinkerMessage)>,
        think_ms: u64,
        eat_ms: u64,
    ) -> (r: Vec<Outbound>)
        ensures
            (final(self)@, r@) == after_tick(old(self)@, now, inbox@, think_ms, eat_ms),
            slots_advance(old(self)@.slots, final(self)@.slots),
    {
        let mut out: Vec<Outbound> = Vec::new();
        let mut i: usize = 0;
        while i < inbox.len()
            invariant
                i <= inbox@.len(),
                (self@, out@) == after_messages(old(self)@, now, inbox@.subrange(0, i as int)),
            decreases inbox@.len() - i,
        {
            proof {
                assert(inbox@.subrange(0, i + 1).drop_last() =~= inbox@.subrange(0, i as int));
            }
            let from = inbox[i].0;
            let mut sent = self.handle_message(now, &inbox[i].1, from);
            out.append(&mut sent);
            i += 1;
        }
        assert(inbox@.subrange(0, inbox@.len() as int) =~= inbox@);
        let mut stepped = self.update_state(now, think_ms, eat_ms);
        out.append(&mut stepped);
        proof {
            lemma_tick_advances(old(self)@, now, inbox@, think_ms, eat_ms);
        }
        out
    }

    /// One tick, drawing the length of a thinking or eating phase that
    /// starts at random within its bounds.
    pub fn tick(&mut self, now: u64, inbox: &Vec<(Endpoint, ThinkerMessage)>) -> (r: Vec<Outbound>)
        ensures
            exists|think_ms: u64, eat_ms: u64|
                MIN_THINKING_TIME_MS <= think_ms <= MAX_THINKING_TIME_MS && MIN_EATING_TIME_MS
                    <= eat_ms <= MAX_EATING_TIME_MS && (final(self)@, r@) == after_tick(
                    old(self)@,
                    now,
                    inbox@,
                    think_ms,
                    eat_ms,
                ),
            slots_advance(old(self)@.slots, final(self)@.slots),
    {
        let think_ms = random_between(MIN_THINKING_TIME_MS, MAX_THINKING_TIME_MS);
        let eat_ms = random_between(MIN_EATING_TIME_MS, MAX_EATING_TIME_MS);
        self.tick_with(now, inbox, think_ms, eat_ms)
    }
}

impl Thinker {
    fn send_next(&self, now: u64, avoid: Option<Endpoint>, m: ThinkerMessage, out: &mut Vec<Outbound>)
        ensures
            final(out)@ == old(out)@ + send_next(self.successors@, now, avoid, m),
    {
        let ghost m0 = m;
        match next_hop_index(&self.successors, now, avoid) {
            Some(j) => {
                assert(next_hop(self.successors@, now, avoid) == Some(j as int));
                out.push(Outbound::ToThinker { to: self.successors[j].thinker.address, message: m });
                assert(send_next(self.successors@, now, avoid, m0) == seq![Outbound::ToThinker { to: self.successors@[j as int].thinker.address, message: m0 }]);
                assert(out@ =~= old(out)@ + send_next(self.successors@, now, avoid, m0));
            },
            None => {
                assert(out@ =~= old(out)@ + send_next(self.successors@, now, avoid, m0));
            },
        }
    }

    fn on_token(&mut self, now: u64, t: Token, from: Endpoint) -> (r: Vec<Outbound>)
        ensures
            (final(self)@, r@) == on_token(old(self)@, now, t, from),
    {
        let mut out: Vec<Outbound> = Vec::new();
        assert(out@ =~= seq![]);
        let k = match slot_index(&self.slots, t.id) {
            None => return out,
            Some(k) => k,
        };
        let slot = self.slots[k];
        let tr = TokenRef::from(t);
        if is_high(slot.last_ref.priority(&tr)) {
            return out;
        }
        self.slots.set(
            k,
            TokenSlot {
                last_ref: tr,
                last_seen: now,
                proposal_version: slot.proposal_version,
                mode: SlotMode::Passive,
            },
        );
        if waiting_for_token(&self.state) {
            self.state = ThinkerState::Hungry { token_state: HungryTokenState::TokenHeld(t) };
            return out;
        }
        match held(&self.state) {
            Some(h) => {
                if refs_equal(&TokenRef::from(h), &tr) {
                    return out;
                }
            },
            None => {},
        }
        self.send_next(now, Some(from), ThinkerMessage::Token(t), &mut out);
        assert(out@ =~= send_next(self.successors@, now, Some(from), ThinkerMessage::Token(t)));
        out
    }

    fn on_broadcast(&mut self, now: u64, r: TokenRef, b: ThinkerId) -> (out: Vec<Outbound>)
        ensures
            (final(self)@, out@) == on_broadcast(old(self)@, now, r, b),
    {
        let mut out: Vec<Outbound> = Vec::new();
        assert(out@ =~= seq![]);
        let k = match slot_index(&self.slots, r.id) {
            None => return out,
            Some(k) => k,
        };
        let slot = self.slots[k];
        if is_high(slot.last_ref.priority(&r)) {
            self.slots.set(k, TokenSlot { last_seen: now, ..slot });
        } else {
            self.slots.set(
                k,
                TokenSlot {
                    last_ref: r,
                    last_seen: now,
                    proposal_version: slot.proposal_version,
                    mode: SlotMode::Passive,
                },
            );
        }
        if b.value == self.id.value {
            return out;
        }
        match next_hop_index(&self.successors, now, None) {
            Some(j) => {
                let next = self.successors[j].thinker;
                if next.id.value != b.value {
                    out.push(
                        Outbound::ToThinker {
                            to: next.address,
                            message: ThinkerMessage::TokenAliveBroadcast {
                                token_ref: r,
                                broadcast_issuer: b,
                            },
                        },
                    );
                }
            },
            None => {},
        }
        out
    }

    fn on_proposal(&mut self, now: u64, p: TokenProposal) -> (out: Vec<Outbound>)
        ensures
            (final(self)@, out@) == on_proposal(old(self)@, now, p),
    {
        let mut out: Vec<Outbound> = Vec::new();
        assert(out@ =~= seq![]);
        let r = p.proposed_token;
        let k = match slot_index(&self.slots, r.id) {
            None => return out,
            Some(k) => k,
        };
        let slot = self.slots[k];
        if !is_high(r.priority(&slot.last_ref)) {
            return out;
        }
        if r.issuer.value == self.id.value {
            let mine = match slot.mode {
                SlotMode::Proposing(q) => q.propose_version == p.propose_version && refs_equal(
                    &q.proposed_token,
                    &p.proposed_token,
                ),
                SlotMode::Passive => false,
            };
            if !mine {
                return out;
            }
            let t = Token::from(p);
            let pv = if slot.proposal_version < u32::MAX {
                slot.proposal_version + 1
            } else {
                slot.proposal_version
            };
            self.slots.set(
                k,
                TokenSlot { last_ref: r, last_seen: now, proposal_version: pv, mode: SlotMode::Passive },
            );
            if waiting_for_token(&self.state) {
                self.state = ThinkerState::Hungry { token_state: HungryTokenState::TokenHeld(t) };
                return out;
            }
            self.send_next(now, None, ThinkerMessage::Token(t), &mut out);
            assert(out@ =~= send_next(self.successors@, now, None, ThinkerMessage::Token(t)));
            return out;
        }
        match slot.mode {
            SlotMode::Proposing(q) => {
                if is_high(r.priority(&q.proposed_token)) {
                    self.slots.set(k, TokenSlot { last_seen: now, mode: SlotMode::Passive, ..slot });
                    self.send_next(now, None, ThinkerMessage::ProposeToken(p), &mut out);
                    assert(out@ =~= send_next(
                        self.successors@,
                        now,
                        None,
                        ThinkerMessage::ProposeToken(p),
                    ));
                } else {
                    self.slots.set(k, TokenSlot { last_seen: now, ..slot });
                }
            },
            SlotMode::Passive => {
                self.slots.set(k, TokenSlot { last_seen: now, ..slot });
                self.send_next(now, None, ThinkerMessage::ProposeToken(p), &mut out);
                assert(out@ =~= send_next(
                    self.successors@,
                    now,
                    None,
                    ThinkerMessage::ProposeToken(p),
                ));
            },
        }
        out
    }

    fn on_fork_alive(&mut self, now: u64, id: ForkId, status: ThinkerForkState)
        ensures
            final(self)@ == on_fork_alive(old(self)@, now, id, status),
    {
        let m1 = self.first_fork.id.value == id.value;
        let m2 = self.second_fork.id.value == id.value;
        match self.state {
            ThinkerState::WaitingForForks { token, first, second } => {
                let first = if m1 {
                    ForkProgress { status, last_seen: now }
                } else {
                    first
                };
                let second = if m2 {
                    ForkProgress { status, last_seen: now }
                } else {
                    second
                };
                self.state = ThinkerState::WaitingForForks { token, first, second };
            },
            ThinkerState::Eating { token, until, first_seen, second_seen } => {
                if status == ThinkerForkState::Taken {
                    self.state = ThinkerState::Eating {
                        token,
                        until,
                        first_seen: if m1 {
                            now
                        } else {
                            first_seen
                        },
                        second_seen: if m2 {
                            now
                        } else {
                            second_seen
                        },
                    };
                }
            },
            _ => {},
        }
    }

    fn on_alive_response(&mut self, now: u64, peer: ThinkerId)
        ensures
            final(self)@ == on_alive_response(old(self)@, now, peer),
    {
        let ghost s0 = self.successors@;
        let mut i: usize = 0;
        while i < self.successors.len()
            invariant
                i <= self.successors@.len(),
                self.successors@.len() == s0.len(),
                self.id == old(self).id,
                self.first_fork == old(self).first_fork,
                self.second_fork == old(self).second_fork,
                self.slots == old(self).slots,
                self.state == old(self).state,
                s0 == old(self).successors@,
                forall|j: int| 0 <= j < i ==> self.successors@[j] == answered(s0[j], peer, now),
                forall|j: int| i <= j < s0.len() ==> self.successors@[j] == s0[j],
            decreases s0.len() - i,
        {
            let c = self.successors[i];
            if c.thinker.id.value == peer.value {
                self.successors.set(i, Successor { last_seen: now, ..c });
            }
            i += 1;
        }
        assert(self.successors@ =~= s0.map_values(|s: Successor| answered(s, peer, now)));
    }

    /// Handles one received message, from `from`, at `now`; returns what
    /// is to be sent. A token is never acted on here: a hungry thinker keeps
    /// it for its next tick.
    pub fn handle_message(&mut self, now: u64, message: &ThinkerMessage, from: Endpoint) -> (r: Vec<Outbound>)
        ensures
            (final(self)@, r@) == after_message(old(self)@, now, *message, from),
            slots_advance(old(self)@.slots, final(self)@.slots),
    {
        proof {
            lemma_message_advances(self@, now, *message, from);
        }
        match message {
            ThinkerMessage::Init(_) => {
                let out: Vec<Outbound> = Vec::new();
                assert(out@ =~= seq![]);
                out
            },
            ThinkerMessage::ForkAlive { id, state } => {
                self.on_fork_alive(now, *id, *state);
                let out: Vec<Outbound> = Vec::new();
                assert(out@ =~= seq![]);
                out
            },
            ThinkerMessage::ThinkerAliveRequest(_) => {
                let mut out: Vec<Outbound> = Vec::new();
                out.push(
                    Outbound::ToThinker {
                        to: from,
                        message: ThinkerMessage::ThinkerAliveResponse(self.id),
                    },
                );
                assert(out@ =~= seq![
                    Outbound::ToThinker {
                        to: from,
                        message: ThinkerMessage::ThinkerAliveResponse(self.id),
                    },
                ]);
                out
            },
            ThinkerMessage::ThinkerAliveResponse(peer) => {
                self.on_alive_response(now, *peer);
                let out: Vec<Outbound> = Vec::new();
                assert(out@ =~= seq![]);
                out
            },
            ThinkerMessage::Token(t) => self.on_token(now, *t, from),
            ThinkerMessage::TokenAliveBroadcast { token_ref, broadcast_issuer } => self.on_broadcast(
                now,
                *token_ref,
                *broadcast_issuer,
            ),
            ThinkerMessage::ProposeToken(p) => self.on_proposal(now, *p),
        }
    }

    fn probe(&self, now: u64, out: &mut Vec<Outbound>)
        ensures
            final(out)@ == old(out)@ + probes(self@, now),
    {
        let ghost s = self.successors@;
        let ghost o0 = out@;
        let mut i: usize = 0;
        let mut found: u64 = 0;
        let mut done = false;
        while i < self.successors.len() && !done
            invariant
                s == self.successors@,
                i <= s.len(),
                found <= 1,
                !done ==> probe_end(s, now, 0, 0) == probe_end(s, now, i as int, found as nat),
                done ==> probe_end(s, now, 0, 0) == i,
                out@ == o0 + s.subrange(0, i as int).map_values(|c: Successor| probe_to(c, self.id)),
            decreases s.len() - i,
        {
            let c = self.successors[i];
            out.push(
                Outbound::ToThinker {
                    to: c.thinker.address,
                    message: ThinkerMessage::ThinkerAliveRequest(self.id),
                },
            );
            proof {
                assert(s.subrange(0, i + 1).map_values(|c: Successor| probe_to(c, self.id))
                    =~= s.subrange(0, i as int).map_values(|c: Successor| probe_to(c, self.id)).push(
                    probe_to(c, self.id),
                ));
            }
            if fresh(c.last_seen, now, KEEP_ALIVE_TIMEOUT_MS) {
                if found >= 1 {
                    done = true;
                } else {
                    found = 1;
                }
            }
            i += 1;
        }
        proof {
            if !done {
                lemma_probe_end_past(s, now, i as int, found as nat);
            }
            assert(probes(self@, now) == s.subrange(0, i as int).map_values(
                |c: Successor| probe_to(c, self.id),
            ));
        }
    }

    fn start_proposals(&mut self, now: u64)
        ensures
            final(self)@ == (ThinkerView {
                slots: old(self)@.slots.map_values(|sl: TokenSlot| timed_out(sl, now, old(self).id)),
                ..old(self)@
            }),
    {
        let ghost s0 = self.slots@;
        let mut i: usize = 0;
        while i < self.slots.len()
            invariant
                i <= self.slots@.len(),
                self.slots@.len() == s0.len(),
                self.id == old(self).id,
                self.first_fork == old(self).first_fork,
                self.second_fork == old(self).second_fork,
                self.successors == old(self).successors,
                self.state == old(self).state,
                s0 == old(self).slots@,
                forall|j: int| 0 <= j < i ==> self.slots@[j] == timed_out(s0[j], now, self.id),
                forall|j: int| i <= j < s0.len() ==> self.slots@[j] == s0[j],
            decreases s0.len() - i,
        {
            let sl = self.slots[i];
            let passive = match sl.mode {
                SlotMode::Passive => true,
                SlotMode::Proposing(_) => false,
            };
            if passive && !fresh(sl.last_seen, now, TOKEN_TIMEOUT_MS) && sl.last_ref.version
                < u32::MAX && sl.proposal_version < u32::MAX {
                let pv = sl.proposal_version + 1;
                let proposal = sl.last_ref.generate_proposal(self.id, pv);
                self.slots.set(
                    i,
                    TokenSlot { proposal_version: pv, mode: SlotMode::Proposing(proposal), ..sl },
                );
            }
            i += 1;
        }
        assert(self.slots@ =~= s0.map_values(|sl: TokenSlot| timed_out(sl, now, self.id)));
    }

    fn send_proposals(&self, now: u64, out: &mut Vec<Outbound>)
        ensures
            final(out)@ == old(out)@ + proposals(self@, now),
    {
        let to = match next_hop_index(&self.successors, now, None) {
            Some(j) => self.successors[j].thinker.address,
            None => {
                assert(out@ =~= old(out)@ + proposals(self@, now));
                return ;
            },
        };
        let ghost sl = self.slots@;
        let ghost o0 = out@;
        let mut i: usize = 0;
        while i < self.slots.len()
            invariant
                sl == self.slots@,
                i <= sl.len(),
                out@ == o0 + proposal_msgs(sl.subrange(0, i as int), to),
            decreases sl.len() - i,
        {
            proof {
                assert(sl.subrange(0, i + 1).drop_last() =~= sl.subrange(0, i as int));
            }
            match self.slots[i].mode {
                SlotMode::Proposing(q) => {
                    out.push(Outbound::ToThinker { to, message: ThinkerMessage::ProposeToken(q) });
                },
                SlotMode::Passive => {},
            }
            proof {
                assert(out@ =~= o0 + proposal_msgs(sl.subrange(0, i + 1), to));
            }
            i += 1;
        }
        assert(sl.subrange(0, sl.len() as int) =~= sl);
    }

    fn push_fork_messages(&self, keep: bool, out: &mut Vec<Outbound>)
        ensures
            final(out)@ == old(out)@ + (if keep {
                keep_alives(self@)
            } else {
                releases(self@)
            }),
    {
        let m = if keep {
            ForkMessages::KeepAlive(self.id)
        } else {
            ForkMessages::Release(self.id)
        };
        out.push(Outbound::ToFork { to: self.first_fork.address, message: m });
        out.push(Outbound::ToFork { to: self.second_fork.address, message: m });
        assert(out@ =~= old(out)@ + (if keep {
            keep_alives(self@)
        } else {
            releases(self@)
        }));
    }

    fn check_held(&mut self, now: u64, out: &mut Vec<Outbound>)
        ensures
            final(self)@ == check_held(old(self)@, now).0,
            final(out)@ == old(out)@ + check_held(old(self)@, now).1,
    {
        let t = match held(&self.state) {
            Some(t) => t,
            None => {
                assert(out@ =~= old(out)@ + seq![]);
                return ;
            },
        };
        let k = match slot_index(&self.slots, t.id) {
            Some(k) => k,
            None => {
                assert(out@ =~= old(out)@ + seq![]);
                return ;
            },
        };
        let slot = self.slots[k];
        self.slots.set(k, TokenSlot { last_seen: now, ..slot });
        if is_high(slot.last_ref.priority(&TokenRef::from(t))) {
            let hungry = match self.state {
                ThinkerState::Hungry { .. } => true,
                _ => false,
            };
            self.state = ThinkerState::Hungry { token_state: HungryTokenState::WaitingForToken };
            if hungry {
                assert(out@ =~= old(out)@ + seq![]);
            } else {
                self.push_fork_messages(false, out);
            }
        } else {
            assert(out@ =~= old(out)@ + seq![]);
        }
    }

    fn phase(&mut self, now: u64, think_ms: u64, eat_ms: u64, out: &mut Vec<Outbound>)
        ensures
            final(self)@ == phase(old(self)@, now, think_ms, eat_ms).0,
            final(out)@ == old(out)@ + phase(old(self)@, now, think_ms, eat_ms).1,
    {
        let ghost o0 = out@;
        match self.state {
            ThinkerState::Thinking { until } => {
                if now >= until {
                    self.state = ThinkerState::Hungry {
                        token_state: HungryTokenState::WaitingForToken,
                    };
                }
                assert(out@ =~= o0 + seq![]);
            },
            ThinkerState::Hungry { token_state } => match token_state {
                HungryTokenState::WaitingForToken => {
                    assert(out@ =~= o0 + seq![]);
                },
                HungryTokenState::TokenHeld(t) => {
                    self.push_fork_messages(true, out);
                    self.send_next(
                        now,
                        None,
                        ThinkerMessage::TokenAliveBroadcast {
                            token_ref: TokenRef::from(t),
                            broadcast_issuer: self.id,
                        },
                        out,
                    );
                    self.state = ThinkerState::WaitingForForks {
                        token: t,
                        first: ForkProgress { status: ThinkerForkState::Queued, last_seen: now },
                        second: ForkProgress { status: ThinkerForkState::Queued, last_seen: now },
                    };
                    assert(out@ =~= o0 + (keep_alives(old(self)@) + broadcast(old(self)@, now, t)));
                },
            },
            ThinkerState::WaitingForForks { token, first, second } => {
                if !fresh(first.last_seen, now, KEEP_ALIVE_TIMEOUT_MS) || !fresh(
                    second.last_seen,
                    now,
                    KEEP_ALIVE_TIMEOUT_MS,
                ) {
                    self.push_fork_messages(false, out);
                    self.send_next(now, None, ThinkerMessage::Token(token), out);
                    self.state = ThinkerState::Hungry {
                        token_state: HungryTokenState::WaitingForToken,
                    };
                    assert(out@ =~= o0 + (releases(old(self)@) + send_next(
                        old(self)@.successors,
                        now,
                        None,
                        ThinkerMessage::Token(token),
                    )));
                } else if first.status == ThinkerForkState::Taken && second.status
                    == ThinkerForkState::Taken {
                    self.push_fork_messages(true, out);
                    self.send_next(
                        now,
                        None,
                        ThinkerMessage::TokenAliveBroadcast {
                            token_ref: TokenRef::from(token),
                            broadcast_issuer: self.id,
                        },
                        out,
                    );
                    self.state = ThinkerState::Eating {
                        token,
                        until: later_by(now, eat_ms),
                        first_seen: first.last_seen,
                        second_seen: second.last_seen,
                    };
                    assert(out@ =~= o0 + (keep_alives(old(self)@) + broadcast(old(self)@, now, token)));
                } else {
                    self.push_fork_messages(true, out);
                    self.send_next(
                        now,
                        None,
                        ThinkerMessage::TokenAliveBroadcast {
                            token_ref: TokenRef::from(token),
                            broadcast_issuer: self.id,
                        },
                        out,
                    );
                    assert(out@ =~= o0 + (keep_alives(old(self)@) + broadcast(old(self)@, now, token)));
                }
            },
            ThinkerState::Eating { token, until, first_seen, second_seen } => {
                if now >= until {
                    self.send_next(now, None, ThinkerMessage::Token(token), out);
                    self.push_fork_messages(false, out);
                    self.state = ThinkerState::Thinking { until: later_by(now, think_ms) };
                    assert(out@ =~= o0 + (send_next(
                        old(self)@.successors,
                        now,
                        None,
                        ThinkerMessage::Token(token),
                    ) + releases(old(self)@)));
                } else if !fresh(first_seen, now, KEEP_ALIVE_TIMEOUT_MS) && !fresh(
                    second_seen,
                    now,
                    KEEP_ALIVE_TIMEOUT_MS,
                ) {
                    self.push_fork_messages(false, out);
                    self.send_next(now, None, ThinkerMessage::Token(token), out);
                    self.state = ThinkerState::Hungry {
                        token_state: HungryTokenState::WaitingForToken,
                    };
                    assert(out@ =~= o0 + (releases(old(self)@) + send_next(
                        old(self)@.successors,
                        now,
                        None,
                        ThinkerMessage::Token(token),
                    )));
                } else {
                    self.push_fork_messages(true, out);
                    self.send_next(
                        now,
                        None,
                        ThinkerMessage::TokenAliveBroadcast {
                            token_ref: TokenRef::from(token),
                            broadcast_issuer: self.id,
                        },
                        out,
                    );
                    assert(out@ =~= o0 + (keep_alives(old(self)@) + broadcast(old(self)@, now, token)));
                }
            },
        }
    }

    /// The thinker's own step at a tick, once the messages are handled:
    /// liveness probes, loss detection and proposals, the check that the
    /// held token is still current, and the phase transition. A new
    /// thinking phase lasts `think_ms`, a meal `eat_ms`.
    pub fn update_state(&mut self, now: u64, think_ms: u64, eat_ms: u64) -> (r: Vec<Outbound>)
        ensures
            (final(self)@, r@) == update(old(self)@, now, think_ms, eat_ms),
            slots_advance(old(self)@.slots, final(self)@.slots),
    {
        let mut out: Vec<Outbound> = Vec::new();
        let ghost o0 = out@;
        self.probe(now, &mut out);
        self.start_proposals(now);
        self.send_proposals(now, &mut out);
        self.check_held(now, &mut out);
        self.phase(now, think_ms, eat_ms, &mut out);
        proof {
            assert(out@ =~= update(old(self)@, now, think_ms, eat_ms).1);
            lemma_update_advances(old(self)@, now, think_ms, eat_ms);
        }
        out
    }
}

} // verus!

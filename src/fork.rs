use crate::ids::{Endpoint, ForkId, ThinkerId};
use crate::messages::{ForkMessages, ThinkerForkState, ThinkerMessage, VisualizerForkState};
use crate::KEEP_ALIVE_TIMEOUT_MS;
use vstd::prelude::*;

verus! {

/// How a thinker names a fork: its identifier and where it listens.
#[derive(Clone, Copy)]
pub struct ForkRef {
    pub address: Endpoint,
    pub id: ForkId,
}

/// A thinker waiting for the fork, and when it was last heard from.
#[derive(Clone, Copy)]
pub struct QueueEntry {
    pub thinker: ThinkerId,
    pub last_seen: u64,
}

/// Whether the fork is held, by whom, and until when the lease runs.
#[derive(Clone, Copy)]
pub enum ForkState {
    Unused,
    Used { owner: ThinkerId, lease_until: u64 },
}

/// One fork: a lease over a single resource and a queue of thinkers that
/// want it.
pub struct Fork {
    pub id: ForkId,
    pub state: ForkState,
    pub queue: Vec<QueueEntry>,
}

pub struct ForkView {
    pub id: ForkId,
    pub state: ForkState,
    pub queue: Seq<QueueEntry>,
}

impl View for Fork {
    type V = ForkView;

    open spec fn view(&self) -> ForkView {
        ForkView { id: self.id, state: self.state, queue: self.queue@ }
    }
}

/// `now` plus `d`, held at the largest instant.
pub open spec fn later(now: u64, d: u64) -> u64 {
    if now + d > u64::MAX {
        u64::MAX
    } else {
        (now + d) as u64
    }
}

/// Something last heard of at `last_seen` is still alive at `now`.
pub open spec fn is_fresh(last_seen: u64, now: u64, timeout: u64) -> bool {
    now <= last_seen + timeout
}

/// `now` plus `d`, held at the largest instant.
pub fn later_by(now: u64, d: u64) -> (r: u64)
    ensures
        r == later(now, d),
{
    if now > u64::MAX - d {
        u64::MAX
    } else {
        now + d
    }
}

/// Whether something last heard of at `last_seen` is still alive at `now`.
pub fn fresh(last_seen: u64, now: u64, timeout: u64) -> (r: bool)
    ensures
        r == is_fresh(last_seen, now, timeout),
{
    now <= last_seen || now - last_seen <= timeout
}

pub open spec fn is_owner(s: ForkState, t: ThinkerId) -> bool {
    match s {
        ForkState::Used { owner, .. } => owner.value == t.value,
        ForkState::Unused => false,
    }
}

pub open spec fn queued(q: Seq<QueueEntry>, t: ThinkerId) -> bool {
    exists|i: int| 0 <= i < q.len() && q[i].thinker.value == t.value
}

/// The queue after hearing from `t` at `now`: its entry refreshed, or a new
/// entry at the tail.
pub open spec fn refresh_queue(q: Seq<QueueEntry>, t: ThinkerId, now: u64) -> Seq<QueueEntry> {
    if queued(q, t) {
        q.map_values(
            |e: QueueEntry|
                if e.thinker.value == t.value {
                    QueueEntry { thinker: t, last_seen: now }
                } else {
                    e
                },
        )
    } else {
        q.push(QueueEntry { thinker: t, last_seen: now })
    }
}

/// The fork after a keep-alive from `t`: the owner's lease is renewed; any
/// other thinker is queued or refreshed in the queue.
pub open spec fn after_keep_alive(f: ForkView, t: ThinkerId, now: u64) -> ForkView {
    if is_owner(f.state, t) {
        ForkView {
            state: ForkState::Used { owner: t, lease_until: later(now, KEEP_ALIVE_TIMEOUT_MS) },
            ..f
        }
    } else {
        ForkView { queue: refresh_queue(f.queue, t, now), ..f }
    }
}

/// The standing reported back to `t` after its keep-alive.
pub open spec fn keep_alive_status(f: ForkView, t: ThinkerId) -> ThinkerForkState {
    if is_owner(f.state, t) {
        ThinkerForkState::Taken
    } else {
        ThinkerForkState::Queued
    }
}

/// The fork after a release from `t`: only the owner can release.
pub open spec fn after_release(f: ForkView, t: ThinkerId) -> ForkView {
    if is_owner(f.state, t) {
        ForkView { state: ForkState::Unused, ..f }
    } else {
        f
    }
}

pub open spec fn after_message(f: ForkView, now: u64, m: ForkMessages) -> ForkView {
    match m {
        ForkMessages::KeepAlive(t) => after_keep_alive(f, t, now),
        ForkMessages::Release(t) => after_release(f, t),
        ForkMessages::Init(_) => f,
    }
}

pub open spec fn reply_to(f: ForkView, m: ForkMessages) -> Option<ThinkerMessage> {
    match m {
        ForkMessages::KeepAlive(t) => Some(
            ThinkerMessage::ForkAlive { id: f.id, state: keep_alive_status(f, t) },
        ),
        _ => None,
    }
}

pub open spec fn fresh_entry(now: u64) -> spec_fn(QueueEntry) -> bool {
    |e: QueueEntry| is_fresh(e.last_seen, now, KEEP_ALIVE_TIMEOUT_MS)
}

/// The state once an expired lease is dropped.
pub open spec fn lease_checked(s: ForkState, now: u64) -> ForkState {
    match s {
        ForkState::Used { lease_until, .. } => if now > lease_until {
            ForkState::Unused
        } else {
            s
        },
        ForkState::Unused => s,
    }
}

/// The fork's own step at a tick: an expired lease is dropped, stale queue
/// entries are evicted, and an unused fork goes to the head of the queue.
pub open spec fn after_update(f: ForkView, now: u64) -> ForkView {
    let s = lease_checked(f.state, now);
    let q = f.queue.filter(fresh_entry(now));
    if s is Unused && q.len() > 0 {
        ForkView {
            id: f.id,
            state: ForkState::Used {
                owner: q[0].thinker,
                lease_until: later(now, KEEP_ALIVE_TIMEOUT_MS),
            },
            queue: q.drop_first(),
        }
    } else {
        ForkView { id: f.id, state: s, queue: q }
    }
}

/// The fork after the messages of one tick, each with its sender, in order
/// of arrival.
pub open spec fn after_messages(f: ForkView, now: u64, ms: Seq<(Endpoint, ForkMessages)>) -> ForkView
    decreases ms.len(),
{
    if ms.len() == 0 {
        f
    } else {
        after_message(after_messages(f, now, ms.drop_last()), now, ms.last().1)
    }
}

/// The answers to the messages of one tick, each addressed to its sender.
pub open spec fn replies(f: ForkView, now: u64, ms: Seq<(Endpoint, ForkMessages)>) -> Seq<
    (Endpoint, ThinkerMessage),
>
    decreases ms.len(),
{
    if ms.len() == 0 {
        seq![]
    } else {
        let earlier = replies(f, now, ms.drop_last());
        match reply_to(after_messages(f, now, ms.drop_last()), ms.last().1) {
            Some(m) => earlier.push((ms.last().0, m)),
            None => earlier,
        }
    }
}

/// The fork after a whole tick: the messages, then its own step.
pub open spec fn after_tick(f: ForkView, now: u64, ms: Seq<(Endpoint, ForkMessages)>) -> ForkView {
    after_update(after_messages(f, now, ms), now)
}

/// Keep-alives from one thinker within a tick are idempotent: any number
/// of them, from any sender address, leave the fork as one does.
pub proof fn lemma_keep_alive_idempotent(
    f: ForkView,
    now: u64,
    t: ThinkerId,
    ms: Seq<(Endpoint, ForkMessages)>,
)
    requires
        ms.len() >= 1,
        forall|i: int| 0 <= i < ms.len() ==> #[trigger] ms[i].1 == ForkMessages::KeepAlive(t),
    ensures
        after_messages(f, now, ms) == after_keep_alive(f, t, now),
        forall|i: int|
            0 <= i < ms.len() ==> keep_alive_status(
                after_messages(f, now, ms.subrange(0, i)),
                t,
            ) == keep_alive_status(f, t),
    decreases ms.len(),
{
    if ms.len() == 1 {
        assert(ms.drop_last().len() == 0);
    } else {
        let init = ms.drop_last();
        assert forall|i: int| 0 <= i < init.len() implies #[trigger] init[i].1
            == ForkMessages::KeepAlive(t) by {
            assert(init[i] == ms[i]);
        }
        lemma_keep_alive_idempotent(f, now, t, init);
        assert(ms.last().1 == ForkMessages::KeepAlive(t));
        lemma_keep_alive_twice(f, t, now);
    }
    assert forall|i: int| 0 <= i < ms.len() implies keep_alive_status(
        after_messages(f, now, ms.subrange(0, i)),
        t,
    ) == keep_alive_status(f, t) by {
        if i > 0 {
            let pre = ms.subrange(0, i);
            assert forall|j: int| 0 <= j < pre.len() implies #[trigger] pre[j].1
                == ForkMessages::KeepAlive(t) by {
                assert(pre[j] == ms[j]);
            }
            lemma_keep_alive_idempotent(f, now, t, pre);
        }
    }
}

/// A fork tells at most one thinker that it holds the fork: the owner.
pub proof fn lemma_taken_only_for_owner(f: ForkView, a: ThinkerId, b: ThinkerId)
    requires
        keep_alive_status(f, a) == ThinkerForkState::Taken,
        keep_alive_status(f, b) == ThinkerForkState::Taken,
    ensures
        a.value == b.value,
        is_owner(f.state, a),
{
}

/// Messages alone never give the fork to anyone: whoever owns it after the
/// messages of a tick already owned it before them.
pub proof fn lemma_messages_grant_nothing(f: ForkView, now: u64, ms: Seq<(Endpoint, ForkMessages)>, t: ThinkerId)
    requires
        is_owner(after_messages(f, now, ms).state, t),
    ensures
        is_owner(f.state, t),
    decreases ms.len(),
{
    if ms.len() > 0 {
        lemma_messages_grant_nothing(f, now, ms.drop_last(), t);
    }
}

/// Within one tick, a fork answers "taken" only to the thinker that owned
/// it when the tick began.
pub proof fn lemma_taken_within_tick(f: ForkView, now: u64, ms: Seq<(Endpoint, ForkMessages)>, i: int, t: ThinkerId)
    requires
        0 <= i < ms.len(),
        ms[i].1 == ForkMessages::KeepAlive(t),
        keep_alive_status(after_messages(f, now, ms.subrange(0, i)), t) == ThinkerForkState::Taken,
    ensures
        is_owner(f.state, t),
{
    lemma_messages_grant_nothing(f, now, ms.subrange(0, i), t);
}

pub open spec fn releases_from(m: ForkMessages, o: ThinkerId) -> bool {
    m matches ForkMessages::Release(t) && t.value == o.value
}

pub open spec fn keeps_alive_from(m: ForkMessages, o: ThinkerId) -> bool {
    m matches ForkMessages::KeepAlive(t) && t.value == o.value
}

proof fn lemma_owner_kept(f: ForkView, now: u64, ms: Seq<(Endpoint, ForkMessages)>, o: ThinkerId, l: u64)
    requires
        f.state == (ForkState::Used { owner: o, lease_until: l }),
        forall|i: int| 0 <= i < ms.len() ==> !releases_from(#[trigger] ms[i].1, o),
    ensures
        after_messages(f, now, ms).state matches ForkState::Used { owner, lease_until } && owner.value
            == o.value && (lease_until == l || lease_until >= now),
    decreases ms.len(),
{
    if ms.len() > 0 {
        let init = ms.drop_last();
        assert forall|i: int| 0 <= i < init.len() implies !releases_from(#[trigger] init[i].1, o) by {
            assert(init[i] == ms[i]);
        }
        lemma_owner_kept(f, now, init, o, l);
        assert(!releases_from(ms[ms.len() - 1].1, o));
    }
}

/// A fork changes hands only when its owner releases it or its lease has
/// run out: if the owner at the start of a tick no longer owns the fork after
/// it, the tick brought the owner's release, or came after the lease's end.
pub proof fn lemma_owner_changes_only_on_release_or_expiry(
    f: ForkView,
    now: u64,
    ms: Seq<(Endpoint, ForkMessages)>,
    o: ThinkerId,
    l: u64,
)
    requires
        f.state == (ForkState::Used { owner: o, lease_until: l }),
        !is_owner(after_tick(f, now, ms).state, o),
    ensures
        (exists|i: int| 0 <= i < ms.len() && releases_from(#[trigger] ms[i].1, o)) || now > l,
{
    if !(exists|i: int| 0 <= i < ms.len() && releases_from(#[trigger] ms[i].1, o)) {
        lemma_owner_kept(f, now, ms, o, l);
    }
}

proof fn lemma_silent_owner_kept(f: ForkView, now: u64, ms: Seq<(Endpoint, ForkMessages)>, o: ThinkerId, l: u64)
    requires
        f.state == (ForkState::Used { owner: o, lease_until: l }),
        forall|i: int| 0 <= i < f.queue.len() ==> #[trigger] f.queue[i].thinker.value != o.value,
        forall|i: int| 0 <= i < ms.len() ==> !keeps_alive_from(#[trigger] ms[i].1, o),
    ensures
        after_messages(f, now, ms).state == (ForkState::Used { owner: o, lease_until: l })
            || after_messages(f, now, ms).state is Unused,
        forall|i: int|
            0 <= i < after_messages(f, now, ms).queue.len() ==> #[trigger] after_messages(
                f,
                now,
                ms,
            ).queue[i].thinker.value != o.value,
    decreases ms.len(),
{
    if ms.len() > 0 {
        let init = ms.drop_last();
        assert forall|i: int| 0 <= i < init.len() implies !keeps_alive_from(#[trigger] init[i].1, o) by {
            assert(init[i] == ms[i]);
        }
        lemma_silent_owner_kept(f, now, init, o, l);
        assert(!keeps_alive_from(ms[ms.len() - 1].1, o));
        let g = after_messages(f, now, init);
        if let ForkMessages::KeepAlive(t) = ms.last().1 {
            if !is_owner(g.state, t) {
                let q = refresh_queue(g.queue, t, now);
                assert forall|i: int| 0 <= i < q.len() implies #[trigger] q[i].thinker.value
                    != o.value by {
                    if queued(g.queue, t) {
                        assert(q[i].thinker.value == t.value || q[i] == g.queue[i]);
                    } else if i < g.queue.len() {
                        assert(q[i] == g.queue[i]);
                    }
                }
            }
        }
    }
}

/// A silent owner loses the fork at the first tick after its lease: with no
/// keep-alive from the owner, a tick at a time past the lease leaves the fork
/// unused or held by another thinker.
pub proof fn lemma_silent_owner_loses_fork(
    f: ForkView,
    now: u64,
    ms: Seq<(Endpoint, ForkMessages)>,
    o: ThinkerId,
    l: u64,
)
    requires
        fork_wf(f),
        f.state == (ForkState::Used { owner: o, lease_until: l }),
        now > l,
        forall|i: int| 0 <= i < ms.len() ==> !keeps_alive_from(#[trigger] ms[i].1, o),
    ensures
        !is_owner(after_tick(f, now, ms).state, o),
{
    assert forall|i: int| 0 <= i < f.queue.len() implies #[trigger] f.queue[i].thinker.value
        != o.value by {
        assert(!is_owner(f.state, f.queue[i].thinker));
    }
    lemma_silent_owner_kept(f, now, ms, o, l);
    let g = after_messages(f, now, ms);
    let q = g.queue.filter(fresh_entry(now));
    if q.len() > 0 {
        assert(q.contains(q[0]));
        g.queue.lemma_filter_contains_rev(fresh_entry(now), q[0]);
        let j = choose|j: int| 0 <= j < g.queue.len() && g.queue[j] == q[0];
        assert(g.queue[j].thinker.value != o.value);
    }
}

pub open spec fn heard_by(q: Seq<QueueEntry>, now: u64) -> bool {
    forall|i: int| 0 <= i < q.len() ==> #[trigger] q[i].last_seen <= now
}

proof fn lemma_messages_keep_times_past(f: ForkView, now: u64, ms: Seq<(Endpoint, ForkMessages)>)
    requires
        heard_by(f.queue, now),
    ensures
        heard_by(after_messages(f, now, ms).queue, now),
    decreases ms.len(),
{
    if ms.len() > 0 {
        lemma_messages_keep_times_past(f, now, ms.drop_last());
        let g = after_messages(f, now, ms.drop_last());
        if let ForkMessages::KeepAlive(t) = ms.last().1 {
            if !is_owner(g.state, t) {
                let q = refresh_queue(g.queue, t, now);
                assert forall|i: int| 0 <= i < q.len() implies #[trigger] q[i].last_seen <= now by {
                    if !queued(g.queue, t) && i < g.queue.len() {
                        assert(q[i] == g.queue[i]);
                    }
                }
            }
        }
    }
}

/// With a clock that never runs backwards, a tick keeps every queued
/// thinker's last contact at or before the present, whatever messages
/// arrive, in any order and with any repeats or losses.
pub proof fn lemma_tick_keeps_times_past(f: ForkView, now: u64, ms: Seq<(Endpoint, ForkMessages)>)
    requires
        heard_by(f.queue, now),
    ensures
        heard_by(after_tick(f, now, ms).queue, now),
{
    lemma_messages_keep_times_past(f, now, ms);
    let g = after_messages(f, now, ms);
    let q = g.queue.filter(fresh_entry(now));
    assert forall|i: int| 0 <= i < q.len() implies #[trigger] q[i].last_seen <= now by {
        assert(q.contains(q[i]));
        g.queue.lemma_filter_contains_rev(fresh_entry(now), q[i]);
    }
    if lease_checked(g.state, now) is Unused && q.len() > 0 {
        assert forall|i: int| 0 <= i < q.drop_first().len() implies #[trigger] q.drop_first()[i].last_seen <= now by {
            assert(q.drop_first()[i] == q[i + 1]);
        }
    }
}

proof fn lemma_keep_alive_twice(f: ForkView, t: ThinkerId, now: u64)
    ensures
        after_keep_alive(after_keep_alive(f, t, now), t, now) == after_keep_alive(f, t, now),
        keep_alive_status(after_keep_alive(f, t, now), t) == keep_alive_status(f, t),
{
    if !is_owner(f.state, t) {
        let q = f.queue;
        let q1 = refresh_queue(q, t, now);
        if queued(q, t) {
            let i = choose|i: int| 0 <= i < q.len() && q[i].thinker.value == t.value;
            assert(q1[i].thinker.value == t.value);
            assert(refresh_queue(q1, t, now) =~= q1);
        } else {
            assert(q1[q.len() as int].thinker.value == t.value);
            assert(refresh_queue(q1, t, now) =~= q1);
        }
    }
}

/// The queue names each thinker once, and never the owner.
pub open spec fn fork_wf(f: ForkView) -> bool {
    &&& forall|i: int, j: int|
        0 <= i < j < f.queue.len() ==> #[trigger] f.queue[i].thinker.value != #[trigger] f.queue[j].thinker.value
    &&& forall|i: int| 0 <= i < f.queue.len() ==> !is_owner(f.state, #[trigger] f.queue[i].thinker)
}

impl Fork {
    pub open spec fn wf(&self) -> bool {
        fork_wf(self@)
    }

    /// The fork's state as the visualizer shows it.
    pub fn visualizer_state(&self) -> (r: VisualizerForkState)
        ensures
            r == (match self.state {
                ForkState::Unused => VisualizerForkState::Unused,
                ForkState::Used { owner, .. } => VisualizerForkState::Used(owner),
            }),
    {
        match self.state {
            ForkState::Unused => VisualizerForkState::Unused,
            ForkState::Used { owner, .. } => VisualizerForkState::Used(owner),
        }
    }

    /// An unused fork with an empty queue.
    pub fn new(id: ForkId) -> (r: Self)
        ensures
            r.wf(),
            r@.id == id,
            r@.state is Unused,
            r@.queue.len() == 0,
    {
        Fork { id, state: ForkState::Unused, queue: Vec::new() }
    }

    fn keep_alive(&mut self, t: ThinkerId, now: u64) -> (r: ThinkerForkState)
        requires
            old(self).wf(),
        ensures
            final(self).wf(),
            final(self)@ == after_keep_alive(old(self)@, t, now),
            r == keep_alive_status(old(self)@, t),
    {
        let is_owner = match self.state {
            ForkState::Used { owner, .. } => owner.value == t.value,
            ForkState::Unused => false,
        };
        if is_owner {
            self.state = ForkState::Used {
                owner: t,
                lease_until: later_by(now, KEEP_ALIVE_TIMEOUT_MS),
            };
            return ThinkerForkState::Taken;
        }
        let ghost q0 = self.queue@;
        let ghost upd = |e: QueueEntry|
            if e.thinker.value == t.value {
                QueueEntry { thinker: t, last_seen: now }
            } else {
                e
            };
        let mut found = false;
        let mut i: usize = 0;
        while i < self.queue.len()
            invariant
                i <= self.queue.len(),
                self.queue@.len() == q0.len(),
                self.id == old(self).id,
                self.state == old(self).state,
                upd == (|e: QueueEntry|
                    if e.thinker.value == t.value {
                        QueueEntry { thinker: t, last_seen: now }
                    } else {
                        e
                    }),
                forall|j: int| 0 <= j < i ==> self.queue@[j] == upd(q0[j]),
                forall|j: int| i <= j < q0.len() ==> self.queue@[j] == q0[j],
                found <==> exists|j: int| 0 <= j < i && q0[j].thinker.value == t.value,
            decreases q0.len() - i,
        {
            if self.queue[i].thinker.value == t.value {
                assert(q0[i as int].thinker.value == t.value);
                self.queue.set(i, QueueEntry { thinker: t, last_seen: now });
                found = true;
            }
            i += 1;
        }
        if found {
            assert(self.queue@ =~= q0.map_values(upd));
        } else {
            assert(self.queue@ =~= q0);
            self.queue.push(QueueEntry { thinker: t, last_seen: now });
        }
        ThinkerForkState::Queued
    }

    fn release(&mut self, t: ThinkerId)
        requires
            old(self).wf(),
        ensures
            final(self).wf(),
            final(self)@ == after_release(old(self)@, t),
    {
        let is_owner = match self.state {
            ForkState::Used { owner, .. } => owner.value == t.value,
            ForkState::Unused => false,
        };
        if is_owner {
            self.state = ForkState::Unused;
        }
    }

    /// Handles one message at `now`; a keep-alive is answered with the
    /// sender's standing.
    pub fn handle_message(&mut self, now: u64, message: ForkMessages) -> (r: Option<
        ThinkerMessage,
    >)
        requires
            old(self).wf(),
        ensures
            final(self).wf(),
            final(self)@ == after_message(old(self)@, now, message),
            r == reply_to(old(self)@, message),
    {
        match message {
            ForkMessages::KeepAlive(t) => {
                let state = self.keep_alive(t, now);
                Some(ThinkerMessage::ForkAlive { id: self.id, state })
            },
            ForkMessages::Release(t) => {
                self.release(t);
                None
            },
            ForkMessages::Init(_) => None,
        }
    }

    /// One tick: every message received since the last tick, each with its
    /// sender, then the fork's own step. Returns the answers to send.
    pub fn tick(&mut self, now: u64, inbox: &Vec<(Endpoint, ForkMessages)>) -> (r: Vec<
        (Endpoint, ThinkerMessage),
    >)
        requires
            old(self).wf(),
        ensures
            final(self).wf(),
            final(self)@ == after_tick(old(self)@, now, inbox@),
            r@ == replies(old(self)@, now, inbox@),
    {
        let mut out: Vec<(Endpoint, ThinkerMessage)> = Vec::new();
        let mut i: usize = 0;
        while i < inbox.len()
            invariant
                i <= inbox.len(),
                self.wf(),
                self@ == after_messages(old(self)@, now, inbox@.subrange(0, i as int)),
                out@ == replies(old(self)@, now, inbox@.subrange(0, i as int)),
            decreases inbox.len() - i,
        {
            let (from, message) = inbox[i];
            proof {
                assert(inbox@.subrange(0, i + 1).drop_last() =~= inbox@.subrange(0, i as int));
            }
            let reply = self.handle_message(now, message);
            match reply {
                Some(m) => out.push((from, m)),
                None => {},
            }
            i += 1;
        }
        assert(inbox@.subrange(0, inbox@.len() as int) =~= inbox@);
        self.update(now);
        out
    }

    /// The fork's own step at a tick, after the messages are handled.
    pub fn update(&mut self, now: u64)
        requires
            old(self).wf(),
        ensures
            final(self).wf(),
            final(self)@ == after_update(old(self)@, now),
    {
        let s = match self.state {
            ForkState::Used { lease_until, .. } => if now > lease_until {
                ForkState::Unused
            } else {
                self.state
            },
            ForkState::Unused => self.state,
        };
        let ghost q0 = self.queue@;
        let ghost pred = fresh_entry(now);
        let mut q: Vec<QueueEntry> = Vec::new();
        let mut i: usize = 0;
        while i < self.queue.len()
            invariant
                i <= self.queue.len(),
                self.queue@ == q0,
                pred == fresh_entry(now),
                q@ == q0.subrange(0, i as int).filter(pred),
                forall|a: int, b: int|
                    0 <= a < b < q@.len() ==> #[trigger] q@[a].thinker.value != #[trigger] q@[b].thinker.value,
                forall|a: int|
                    0 <= a < q@.len() ==> exists|b: int|
                        0 <= b < i && #[trigger] q@[a] == q0[b],
                fork_wf(old(self)@),
                old(self)@.queue == q0,
            decreases q0.len() - i,
        {
            let e = self.queue[i];
            proof {
                reveal(Seq::filter);
                assert(q0.subrange(0, i + 1).drop_last() =~= q0.subrange(0, i as int));
            }
            let keep = fresh(e.last_seen, now, KEEP_ALIVE_TIMEOUT_MS);
            proof {
                let upto = q0.subrange(0, i + 1);
                assert(upto.last() == e);
                assert(pred(e) == keep);
                if keep {
                    assert(upto.filter(pred) == q0.subrange(0, i as int).filter(pred).push(e));
                } else {
                    assert(upto.filter(pred) == q0.subrange(0, i as int).filter(pred));
                }
            }
            if keep {
                proof {
                    assert forall|a: int| 0 <= a < q@.len() implies q@[a].thinker.value
                        != e.thinker.value by {
                        let b = choose|b: int| 0 <= b < i && q@[a] == q0[b];
                        assert(q0[b].thinker.value != q0[i as int].thinker.value);
                    }
                }
                q.push(e);
            }
            i += 1;
        }
        assert(q0.subrange(0, q0.len() as int) =~= q0);
        self.state = s;
        self.queue = q;
        if matches!(self.state, ForkState::Unused) && self.queue.len() > 0 {
            let head = self.queue.remove(0);
            self.state = ForkState::Used {
                owner: head.thinker,
                lease_until: later_by(now, KEEP_ALIVE_TIMEOUT_MS),
            };
            assert(self.queue@ =~= q@.drop_first());
        }
    }
}

} // verus!

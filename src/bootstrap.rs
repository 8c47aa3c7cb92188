use crate::fork::ForkRef;
use crate::ids::{Endpoint, Id, TokenId};
use crate::messages::InitThinkerParams;
use crate::thinker::ThinkerRef;
use crate::token::{ref_of, Token, TokenRef};
use crate::visualizer::VisualizerRef;
use rand::seq::SliceRandom;
use vstd::prelude::*;

verus! {

/// The nodes that have announced themselves to the bootstrap coordinator.
pub struct Registry {
    pub expected: usize,
    pub thinkers: Vec<ThinkerRef>,
    pub forks: Vec<ForkRef>,
}

impl Registry {
    pub open spec fn wf(&self) -> bool {
        self.thinkers@.len() <= self.expected && self.forks@.len() <= self.expected
    }

    /// A registry waiting for `expected` thinkers and as many forks.
    pub fn new(expected: usize) -> (r: Self)
        ensures
            r.wf(),
            r.expected == expected,
            r.thinkers@.len() == 0,
            r.forks@.len() == 0,
    {
        Registry { expected, thinkers: Vec::new(), forks: Vec::new() }
    }

    /// Records a thinker while places are left; says whether it was taken.
    pub fn register_thinker(&mut self, t: ThinkerRef) -> (r: bool)
        requires
            old(self).wf(),
        ensures
            final(self).wf(),
            final(self).expected == old(self).expected,
            final(self).forks == old(self).forks,
            r == (old(self).thinkers@.len() < old(self).expected),
            final(self).thinkers@ == (if r {
                old(self).thinkers@.push(t)
            } else {
                old(self).thinkers@
            }),
    {
        if self.thinkers.len() < self.expected {
            self.thinkers.push(t);
            true
        } else {
            false
        }
    }

    /// Records a fork while places are left; says whether it was taken.
    pub fn register_fork(&mut self, f: ForkRef) -> (r: bool)
        requires
            old(self).wf(),
        ensures
            final(self).wf(),
            final(self).expected == old(self).expected,
            final(self).thinkers == old(self).thinkers,
            r == (old(self).forks@.len() < old(self).expected),
            final(self).forks@ == (if r {
                old(self).forks@.push(f)
            } else {
                old(self).forks@
            }),
    {
        if self.forks.len() < self.expected {
            self.forks.push(f);
            true
        } else {
            false
        }
    }

    /// Every thinker and every fork has announced itself.
    pub fn is_complete(&self) -> (r: bool)
        ensures
            r == (self.thinkers@.len() == self.expected && self.forks@.len() == self.expected),
    {
        self.thinkers.len() == self.expected && self.forks.len() == self.expected
    }
}

/// Position `i` on a ring of `n`, for `0 <= i < 2 * n`.
pub open spec fn around(i: int, n: int) -> int {
    if i >= n {
        i - n
    } else {
        i
    }
}

/// The token that thinker `i` starts with: token `i`, issued by it, while
/// there are tokens left.
pub open spec fn start_token(ts: Seq<ThinkerRef>, ids: Seq<TokenId>, i: int) -> Option<Token> {
    if i < ids.len() {
        Some(Token { id: ids[i], version: 0, issuer: ts[i].id })
    } else {
        None
    }
}

/// The smaller of two lengths.
pub open spec fn fewer(a: nat, b: nat) -> nat {
    if a < b {
        a
    } else {
        b
    }
}

/// The tokens of the ring, as every thinker first knows them: one for each
/// thinker that starts with a token.
pub open spec fn ring_tokens(ts: Seq<ThinkerRef>, ids: Seq<TokenId>) -> Seq<TokenRef> {
    Seq::new(fewer(ids.len(), ts.len()), |i: int| TokenRef { id: ids[i], version: 0, issuer: ts[i].id })
}

/// What thinker `i` of the ring `ts` is told: forks `i` and `i + 1`, its
/// `k` successors in ring order, and the tokens.
pub open spec fn assigned(
    p: InitThinkerParams,
    ts: Seq<ThinkerRef>,
    fs: Seq<ForkRef>,
    ids: Seq<TokenId>,
    k: int,
    visualizer: Option<VisualizerRef>,
    i: int,
) -> bool {
    let n = ts.len() as int;
    &&& p.token == start_token(ts, ids, i)
    &&& p.forks[0] == fs[i]
    &&& p.forks[1] == fs[around(i + 1, n)]
    &&& p.next_thinkers@ == Seq::new(k as nat, |j: int| ts[around(i + j + 1, n)])
    &&& p.visualizer == visualizer
    &&& p.available_tokens@ == ring_tokens(ts, ids)
}

/// The whole assignment: one message per thinker, in ring order, addressed
/// to that thinker.
pub open spec fn is_plan(
    r: Seq<(Endpoint, InitThinkerParams)>,
    ts: Seq<ThinkerRef>,
    fs: Seq<ForkRef>,
    ids: Seq<TokenId>,
    k: int,
    visualizer: Option<VisualizerRef>,
) -> bool {
    &&& r.len() == ts.len()
    &&& forall|i: int|
        0 <= i < r.len() ==> #[trigger] r[i].0 == ts[i].address && assigned(
            r[i].1,
            ts,
            fs,
            ids,
            k,
            visualizer,
            i,
        )
}

fn ring_token_refs(thinkers: &Vec<ThinkerRef>, token_ids: &Vec<TokenId>) -> (r: Vec<TokenRef>)
    ensures
        r@ == ring_tokens(thinkers@, token_ids@),
{
    let held = if token_ids.len() < thinkers.len() {
        token_ids.len()
    } else {
        thinkers.len()
    };
    let mut r: Vec<TokenRef> = Vec::new();
    let mut i: usize = 0;
    while i < held
        invariant
            held == fewer(token_ids@.len(), thinkers@.len()),
            i <= held,
            r@ =~= Seq::new(i as nat, |x: int| TokenRef { id: token_ids@[x], version: 0, issuer: thinkers@[x].id }),
        decreases held - i,
    {
        r.push(TokenRef { id: token_ids[i], version: 0, issuer: thinkers[i].id });
        i += 1;
        assert(r@ =~= Seq::new(i as nat, |x: int| TokenRef { id: token_ids@[x], version: 0, issuer: thinkers@[x].id }));
    }
    assert(r@ =~= ring_tokens(thinkers@, token_ids@));
    r
}

fn successors_of(thinkers: &Vec<ThinkerRef>, i: usize, k: usize) -> (r: Vec<ThinkerRef>)
    requires
        i < thinkers@.len(),
        k < thinkers@.len(),
    ensures
        r@ == Seq::new(k as nat, |j: int| thinkers@[around(i + j + 1, thinkers@.len() as int)]),
{
    let n = thinkers.len();
    let mut r: Vec<ThinkerRef> = Vec::new();
    let mut j: usize = 0;
    while j < k
        invariant
            n == thinkers@.len(),
            i < n,
            j <= k < n,
            r@ =~= Seq::new(j as nat, |x: int| thinkers@[around(i + x + 1, n as int)]),
        decreases k - j,
    {
        let idx = if j + 1 >= n - i {
            j + 1 - (n - i)
        } else {
            i + j + 1
        };
        r.push(thinkers[idx]);
        j += 1;
        assert(r@ =~= Seq::new(j as nat, |x: int| thinkers@[around(i + x + 1, n as int)]));
    }
    r
}

/// Assigns the ring in the order given: thinker `i` gets forks `i` and
/// `i + 1`, its `next_amount` successors, and token `i` while tokens last;
/// tokens beyond the number of thinkers are left out; every thinker learns
/// every token handed out. Returns the message for each thinker,
/// addressed to it.
pub fn ring_plan(
    thinkers: &Vec<ThinkerRef>,
    forks: &Vec<ForkRef>,
    token_ids: &Vec<TokenId>,
    next_amount: usize,
    visualizer: Option<VisualizerRef>,
) -> (r: Vec<(Endpoint, InitThinkerParams)>)
    requires
        forks@.len() == thinkers@.len(),
        next_amount < thinkers@.len(),
    ensures
        is_plan(r@, thinkers@, forks@, token_ids@, next_amount as int, visualizer),
{
    let n = thinkers.len();
    let mut r: Vec<(Endpoint, InitThinkerParams)> = Vec::new();
    let mut i: usize = 0;
    while i < n
        invariant
            n == thinkers@.len() == forks@.len(),
            next_amount < n,
            i <= n,
            r@.len() == i,
            forall|x: int|
                0 <= x < i ==> #[trigger] r@[x].0 == thinkers@[x].address && assigned(
                    r@[x].1,
                    thinkers@,
                    forks@,
                    token_ids@,
                    next_amount as int,
                    visualizer,
                    x,
                ),
        decreases n - i,
    {
        let token = if i < token_ids.len() {
            Some(Token { id: token_ids[i], version: 0, issuer: thinkers[i].id })
        } else {
            None
        };
        let second = if i + 1 == n {
            0
        } else {
            i + 1
        };
        let params = InitThinkerParams {
            token,
            forks: [forks[i], forks[second]],
            next_thinkers: successors_of(thinkers, i, next_amount),
            visualizer,
            available_tokens: ring_token_refs(thinkers, token_ids),
        };
        r.push((thinkers[i].address, params));
        i += 1;
    }
    r
}

/// Relies on rand's SliceRandom::shuffle with rand::rng: it swaps elements
/// in place, so the result is a permutation of the input.
#[verifier::external_body]
fn shuffle<T>(v: &mut Vec<T>)
    ensures
        final(v)@.to_multiset() == old(v)@.to_multiset(),
{
    v.shuffle(&mut rand::rng());
}

/// Assigns the ring in a random order of the registered thinkers and forks,
/// with one new token for each of the first `amount_tokens` thinkers (all of
/// them, if there are fewer), each first held by the thinker it goes to.
pub fn bootstrap(
    thinkers: &Vec<ThinkerRef>,
    forks: &Vec<ForkRef>,
    amount_tokens: usize,
    next_amount: usize,
    visualizer: Option<VisualizerRef>,
) -> (r: Vec<(Endpoint, InitThinkerParams)>)
    requires
        forks@.len() == thinkers@.len(),
        next_amount < thinkers@.len(),
    ensures
        exists|ts: Seq<ThinkerRef>, fs: Seq<ForkRef>, ids: Seq<TokenId>|
            ts.to_multiset() == thinkers@.to_multiset() && fs.to_multiset()
                == forks@.to_multiset() && ids.len() == fewer(amount_tokens as nat, thinkers@.len())
                && is_plan(
                r@,
                ts,
                fs,
                ids,
                next_amount as int,
                visualizer,
            ),
{
    let mut ts = thinkers.clone();
    let mut fs = forks.clone();
    assert(ts@ == thinkers@);
    assert(fs@ == forks@);
    shuffle(&mut ts);
    shuffle(&mut fs);
    proof {
        vstd::seq_lib::to_multiset_len(ts@);
        vstd::seq_lib::to_multiset_len(thinkers@);
        vstd::seq_lib::to_multiset_len(fs@);
        vstd::seq_lib::to_multiset_len(forks@);
    }
    let held = if amount_tokens < thinkers.len() {
        amount_tokens
    } else {
        thinkers.len()
    };
    let mut ids: Vec<TokenId> = Vec::new();
    let mut i: usize = 0;
    while i < held
        invariant
            i <= held,
            ids@.len() == i,
        decreases held - i,
    {
        ids.push(Id::random());
        i += 1;
    }
    ring_plan(&ts, &fs, &ids, next_amount, visualizer)
}

} // verus!

use crate::ids::{Id, ThinkerId, TokenId};
use vstd::prelude::*;

verus! {

/// The eating token itself. Its `id` survives regenerations; `version` grows
/// with each regeneration; `issuer` is the thinker that produced the version.
#[derive(Clone, Copy)]
pub struct Token {
    pub id: TokenId,
    pub version: u32,
    pub issuer: ThinkerId,
}

/// A reference to one version of a token, as remembered and compared.
#[derive(Clone, Copy)]
pub struct TokenRef {
    pub id: TokenId,
    pub version: u32,
    pub issuer: ThinkerId,
}

/// A candidate replacement for a token believed lost.
#[derive(Clone, Copy)]
pub struct TokenProposal {
    pub proposed_token: TokenRef,
    pub propose_version: u32,
}

/// How one reference to a token ranks against another to the same token.
#[derive(Clone, Copy, Debug, PartialEq, Eq, Structural)]
pub enum TokenPriority {
    High,
    Equal,
    Low,
}

/// The priority of `a` against `b`: none across distinct tokens; otherwise
/// the higher version wins, and on equal versions the larger issuer.
pub open spec fn priority_of(a: TokenRef, b: TokenRef) -> Option<TokenPriority> {
    if a.id.value != b.id.value {
        None
    } else if a.version > b.version {
        Some(TokenPriority::High)
    } else if a.version < b.version {
        Some(TokenPriority::Low)
    } else if a.issuer.value > b.issuer.value {
        Some(TokenPriority::High)
    } else if a.issuer.value < b.issuer.value {
        Some(TokenPriority::Low)
    } else {
        Some(TokenPriority::Equal)
    }
}

/// `a` is a strictly newer reference to the same token than `b`.
pub open spec fn outranks(a: TokenRef, b: TokenRef) -> bool {
    priority_of(a, b) == Some(TokenPriority::High)
}

/// The reference that names the token `t`.
pub open spec fn ref_of(t: Token) -> TokenRef {
    TokenRef { id: t.id, version: t.version, issuer: t.issuer }
}

/// The token that a committed proposal becomes.
pub open spec fn token_of(p: TokenProposal) -> Token {
    Token {
        id: p.proposed_token.id,
        version: p.proposed_token.version,
        issuer: p.proposed_token.issuer,
    }
}

impl PartialEq for TokenRef {
    fn eq(&self, other: &Self) -> (r: bool) {
        self.id.value == other.id.value && self.version == other.version
            && self.issuer.value == other.issuer.value
    }
}

impl vstd::std_specs::cmp::PartialEqSpecImpl for TokenRef {
    open spec fn obeys_eq_spec() -> bool {
        true
    }

    open spec fn eq_spec(&self, other: &Self) -> bool {
        self.id.value == other.id.value && self.version == other.version
            && self.issuer.value == other.issuer.value
    }
}

impl Token {
    /// A new token, at version 0, issued by `issuer`.
    pub fn create(issuer: ThinkerId) -> (r: Self)
        ensures
            r.version == 0,
            r.issuer == issuer,
    {
        Token { id: Id::random(), version: 0, issuer }
    }

    /// The priority of this token against a remembered reference.
    pub fn priority(&self, other: &TokenRef) -> (r: Option<TokenPriority>)
        ensures
            r == priority_of(ref_of(*self), *other),
    {
        TokenRef::from(*self).priority(other)
    }
}

impl From<TokenProposal> for Token {
    fn from(value: TokenProposal) -> (r: Self) {
        Token {
            id: value.proposed_token.id,
            version: value.proposed_token.version,
            issuer: value.proposed_token.issuer,
        }
    }
}

impl vstd::std_specs::convert::FromSpecImpl<TokenProposal> for Token {
    open spec fn obeys_from_spec() -> bool {
        true
    }

    open spec fn from_spec(v: TokenProposal) -> Token {
        token_of(v)
    }
}

impl From<Token> for TokenRef {
    fn from(value: Token) -> (r: Self) {
        TokenRef { id: value.id, version: value.version, issuer: value.issuer }
    }
}

impl vstd::std_specs::convert::FromSpecImpl<Token> for TokenRef {
    open spec fn obeys_from_spec() -> bool {
        true
    }

    open spec fn from_spec(v: Token) -> TokenRef {
        ref_of(v)
    }
}

impl TokenRef {
    /// Compares two references; `None` when they name different tokens.
    pub fn priority(&self, other: &Self) -> (r: Option<TokenPriority>)
        ensures
            r == priority_of(*self, *other),
    {
        if self.id.value != other.id.value {
            return None;
        }
        if self.version > other.version {
            Some(TokenPriority::High)
        } else if self.version < other.version {
            Some(TokenPriority::Low)
        } else if self.issuer.value > other.issuer.value {
            Some(TokenPriority::High)
        } else if self.issuer.value < other.issuer.value {
            Some(TokenPriority::Low)
        } else {
            Some(TokenPriority::Equal)
        }
    }

    /// A proposal to replace this token by its next version, issued by
    /// `issuer` under the given proposal number.
    pub fn generate_proposal(&self, issuer: ThinkerId, proposal_version: u32) -> (r:
        TokenProposal)
        requires
            self.version < u32::MAX,
        ensures
            r.proposed_token.id == self.id,
            r.proposed_token.version == self.version + 1,
            r.proposed_token.issuer == issuer,
            r.propose_version == proposal_version,
    {
        TokenProposal {
            proposed_token: TokenRef { id: self.id, version: self.version + 1, issuer },
            propose_version: proposal_version,
        }
    }
}

/// Two references to the same token are always comparable, and the
/// comparison is antisymmetric: `a` ranks high against `b` exactly when `b`
/// ranks low against `a`, and equal exactly when both are the same reference.
pub proof fn lemma_priority_antisymmetric(a: TokenRef, b: TokenRef)
    requires
        a.id == b.id,
    ensures
        priority_of(a, b) is Some,
        priority_of(a, b) == Some(TokenPriority::High) <==> priority_of(b, a) == Some(
            TokenPriority::Low,
        ),
        priority_of(a, b) == Some(TokenPriority::Equal) <==> a == b,
{
}

/// References to distinct tokens are incomparable.
pub proof fn lemma_priority_distinct_tokens(a: TokenRef, b: TokenRef)
    requires
        a.id != b.id,
    ensures
        priority_of(a, b) is None,
{
}

/// Outranking is transitive, so the priority order is a strict total order
/// on the references to one token.
pub proof fn lemma_outranks_transitive(a: TokenRef, b: TokenRef, c: TokenRef)
    requires
        outranks(a, b),
        outranks(b, c),
    ensures
        outranks(a, c),
{
}

/// A proposal generated from a reference outranks that reference.
pub proof fn lemma_proposal_outranks(r: TokenRef, p: TokenProposal)
    requires
        p.proposed_token.id == r.id,
        p.proposed_token.version == r.version + 1,
    ensures
        outranks(p.proposed_token, r),
{
}

} // verus!

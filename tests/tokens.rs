use nom_nom_ring::ids::{Id, ThinkerId, TokenId};
use nom_nom_ring::token::{Token, TokenPriority, TokenProposal, TokenRef};

fn tref(id: u128, version: u32, issuer: u128) -> TokenRef {
    TokenRef { id: Id::from_value(id), version, issuer: Id::from_value(issuer) }
}

#[test]
fn higher_version_wins() {
    let a = tref(7, 3, 1);
    let b = tref(7, 2, 9);
    assert_eq!(a.priority(&b), Some(TokenPriority::High));
    assert_eq!(b.priority(&a), Some(TokenPriority::Low));
}

#[test]
fn larger_issuer_breaks_ties() {
    let a = tref(7, 2, 5);
    let b = tref(7, 2, 3);
    assert_eq!(a.priority(&b), Some(TokenPriority::High));
    assert_eq!(b.priority(&a), Some(TokenPriority::Low));
}

#[test]
fn same_reference_is_equal() {
    let a = tref(7, 2, 5);
    assert_eq!(a.priority(&tref(7, 2, 5)), Some(TokenPriority::Equal));
    assert!(a == tref(7, 2, 5));
    assert!(a != tref(7, 2, 6));
}

#[test]
fn distinct_tokens_are_incomparable() {
    assert_eq!(tref(7, 2, 5).priority(&tref(8, 2, 5)), None);
    assert_eq!(tref(7, 0, 0).priority(&tref(8, 9, 9)), None);
}

#[test]
fn proposal_names_next_version() {
    let r = tref(7, 4, 1);
    let issuer: ThinkerId = Id::from_value(42);
    let p = r.generate_proposal(issuer, 11);
    assert_eq!(p.propose_version, 11);
    assert_eq!(p.proposed_token.version, 5);
    assert_eq!(p.proposed_token.id.value, 7);
    assert_eq!(p.proposed_token.issuer.value, 42);
    assert_eq!(p.proposed_token.priority(&r), Some(TokenPriority::High));
}

#[test]
fn committed_proposal_becomes_token() {
    let p = TokenProposal { proposed_token: tref(7, 5, 42), propose_version: 3 };
    let t = Token::from(p);
    assert_eq!(t.id.value, 7);
    assert_eq!(t.version, 5);
    assert_eq!(t.issuer.value, 42);
    let back = TokenRef::from(t);
    assert!(back == tref(7, 5, 42));
    assert_eq!(t.priority(&tref(7, 4, 99)), Some(TokenPriority::High));
}

#[test]
fn created_token_starts_at_version_zero() {
    let issuer: ThinkerId = Id::from_value(3);
    let a = Token::create(issuer);
    let b = Token::create(issuer);
    assert_eq!(a.version, 0);
    assert_eq!(a.issuer.value, 3);
    assert_ne!(a.id.value, b.id.value);
}

#[test]
fn random_ids_are_version_four_uuids() {
    let a: TokenId = Id::random();
    let b: TokenId = Id::random();
    assert_ne!(a.value, b.value);
    assert_eq!((a.value >> 76) & 0xF, 4);
    assert_eq!((a.value >> 62) & 0x3, 2);
    assert!(a == a.clone());
    assert!(a != b);
}

use token_ledger::ledger::Token;
use token_ledger::ledger::TokenError;

#[test]
fn scenario_basic_flow() {
    let mut t = Token::new(
        "Example Token".to_string(),
        "EXT".to_string(),
        1_000_000,
        "owner".to_string(),
    );
    assert_eq!(t.transfer("owner", "user1", 1000), Ok(()));
    assert_eq!(t.mint("user2", 500, "owner"), Ok(()));
    assert_eq!(t.balance_of("owner"), 999_000);
    assert_eq!(t.balance_of("user1"), 1000);
    assert_eq!(t.balance_of("user2"), 500);
    assert_eq!(t.total_supply(), 1_000_500);
}

#[test]
fn overdraw_transfer_fails_unchanged() {
    let mut t = Token::new("Tok".to_string(), "TOK".to_string(), 1000, "user1".to_string());
    assert_eq!(t.balance_of("user1"), 1000);
    assert_eq!(
        t.transfer("user1", "user2", 5000),
        Err(TokenError::InsufficientBalance)
    );
    assert_eq!(t.balance_of("user1"), 1000);
    assert_eq!(t.balance_of("user2"), 0);
    assert_eq!(t.total_supply(), 1000);
}

#[test]
fn unauthorized_mint_fails_unchanged() {
    let mut t = Token::new("Tok".to_string(), "TOK".to_string(), 1000, "owner".to_string());
    assert_eq!(t.mint("x", 100, "not_owner"), Err(TokenError::Unauthorized));
    assert_eq!(t.total_supply(), 1000);
    assert_eq!(t.balance_of("x"), 0);
    assert_eq!(t.owner(), "owner");
}

#[test]
fn conservation_across_transfers() {
    let mut t = Token::new("Tok".to_string(), "TOK".to_string(), 10_000, "a".to_string());
    assert_eq!(t.transfer("a", "b", 4000), Ok(()));
    assert_eq!(t.transfer("b", "c", 1500), Ok(()));
    assert_eq!(t.transfer("c", "a", 1500), Ok(()));
    assert_eq!(t.transfer("a", "a", 700), Ok(()));
    assert_eq!(t.transfer("b", "c", 9999), Err(TokenError::InsufficientBalance));
    assert_eq!(t.total_supply(), 10_000);
    assert_eq!(
        t.balance_of("a") + t.balance_of("b") + t.balance_of("c"),
        10_000
    );
}

#[test]
fn mint_then_burn_restores() {
    let mut t = Token::new("Tok".to_string(), "TOK".to_string(), 500, "owner".to_string());
    assert_eq!(t.transfer("owner", "holder", 200), Ok(()));
    let before_balance = t.balance_of("holder");
    let before_supply = t.total_supply();
    assert_eq!(t.mint("holder", 77, "owner"), Ok(()));
    assert_eq!(t.balance_of("holder"), 277);
    assert_eq!(t.total_supply(), 577);
    assert_eq!(t.burn("holder", 77), Ok(()));
    assert_eq!(t.balance_of("holder"), before_balance);
    assert_eq!(t.total_supply(), before_supply);
}

#[test]
fn burn_insufficient_fails_unchanged() {
    let mut t = Token::new("Tok".to_string(), "TOK".to_string(), 50, "owner".to_string());
    assert_eq!(t.burn("owner", 51), Err(TokenError::InsufficientBalance));
    assert_eq!(t.balance_of("owner"), 50);
    assert_eq!(t.total_supply(), 50);
}

#[test]
fn burn_needs_no_authorization() {
    let mut t = Token::new("Tok".to_string(), "TOK".to_string(), 300, "owner".to_string());
    assert_eq!(t.transfer("owner", "victim", 100), Ok(()));
    assert_eq!(t.burn("victim", 40), Ok(()));
    assert_eq!(t.balance_of("victim"), 60);
    assert_eq!(t.total_supply(), 260);
}

#[test]
fn self_transfer_keeps_balance() {
    let mut t = Token::new("Tok".to_string(), "TOK".to_string(), 900, "solo".to_string());
    assert_eq!(t.transfer("solo", "solo", 900), Ok(()));
    assert_eq!(t.balance_of("solo"), 900);
    assert_eq!(t.total_supply(), 900);
    assert_eq!(
        t.transfer("solo", "solo", 901),
        Err(TokenError::InsufficientBalance)
    );
    assert_eq!(t.balance_of("solo"), 900);
}

#[test]
fn unauthorized_ownership_transfer_fails() {
    let mut t = Token::new("Tok".to_string(), "TOK".to_string(), 10, "owner".to_string());
    assert_eq!(
        t.transfer_ownership("usurper".to_string(), "usurper"),
        Err(TokenError::Unauthorized)
    );
    assert_eq!(t.owner(), "owner");
}

#[test]
fn ownership_transfer_moves_the_capability() {
    let mut t = Token::new("Tok".to_string(), "TOK".to_string(), 10, "first".to_string());
    assert_eq!(t.transfer_ownership("second".to_string(), "first"), Ok(()));
    assert_eq!(t.owner(), "second");
    assert_eq!(t.mint("anyone", 5, "first"), Err(TokenError::Unauthorized));
    assert_eq!(t.mint("anyone", 5, "second"), Ok(()));
    assert_eq!(t.balance_of("anyone"), 5);
    assert_eq!(t.total_supply(), 15);
}

#[test]
fn zero_initial_supply() {
    let mut t = Token::new("Tok".to_string(), "TOK".to_string(), 0, "owner".to_string());
    assert_eq!(t.balance_of("owner"), 0);
    assert_eq!(t.total_supply(), 0);
    assert_eq!(t.transfer("owner", "other", 0), Ok(()));
    assert_eq!(t.transfer("owner", "other", 1), Err(TokenError::InsufficientBalance));
}

#[test]
fn zero_amount_mint_succeeds() {
    let mut t = Token::new("Tok".to_string(), "TOK".to_string(), 5, "owner".to_string());
    assert_eq!(t.mint("somewhere", 0, "owner"), Ok(()));
    assert_eq!(t.balance_of("somewhere"), 0);
    assert_eq!(t.total_supply(), 5);
}

#[test]
fn unknown_accounts_read_zero() {
    let t = Token::new("Tok".to_string(), "TOK".to_string(), 5, "owner".to_string());
    assert_eq!(t.balance_of("never-seen"), 0);
    assert_eq!(t.balance_of(""), 0);
}

#[test]
fn transfer_of_whole_maximum_supply() {
    let mut t = Token::new("Tok".to_string(), "TOK".to_string(), u64::MAX, "owner".to_string());
    assert_eq!(t.transfer("owner", "vault", u64::MAX), Ok(()));
    assert_eq!(t.balance_of("owner"), 0);
    assert_eq!(t.balance_of("vault"), u64::MAX);
    assert_eq!(t.total_supply(), u64::MAX);
}

#[test]
fn non_ascii_account_names() {
    let mut t = Token::new("Tok".to_string(), "TOK".to_string(), 100, "所有者".to_string());
    assert_eq!(t.balance_of("所有者"), 100);
    assert_eq!(t.transfer("所有者", "útilisateur", 30), Ok(()));
    assert_eq!(t.balance_of("útilisateur"), 30);
    assert_eq!(t.balance_of("utilisateur"), 0);
    assert_eq!(t.mint("所有", 7, "所有者"), Ok(()));
    assert_eq!(t.balance_of("所有"), 7);
    assert_eq!(t.total_supply(), 107);
}

#[test]
fn metadata_getters() {
    let t = Token::new(
        "Example Token".to_string(),
        "EXT".to_string(),
        1,
        "owner".to_string(),
    );
    assert_eq!(t.name(), "Example Token");
    assert_eq!(t.symbol(), "EXT");
    assert_eq!(t.owner(), "owner");
}

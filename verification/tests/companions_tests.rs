use token_ledger::erc20::{Erc20, Error as Erc20Error};
use token_ledger::erc721::{Erc721, Error as Erc721Error};
use token_ledger::game_contract::{Error as GameError, GameContract};

#[test]
fn erc20_bootstrap_hands_supply_to_creator() {
    let c = Erc20::new(1, 1_000);
    assert_eq!(c.total_supply(), 1_000);
    assert_eq!(c.balance_of(1), 1_000);
    assert_eq!(c.balance_of(2), 0);
}

#[test]
fn erc20_default_uses_max_supply() {
    let c = Erc20::default(1);
    assert_eq!(c.total_supply(), u128::MAX);
    assert_eq!(c.balance_of(1), u128::MAX);
}

#[test]
fn erc20_transfer_moves_and_conserves() {
    let mut c = Erc20::new(1, 1_000);
    let ev = c.transfer(1, 2, 300).unwrap();
    assert_eq!(ev.from, Some(1));
    assert_eq!(ev.to, Some(2));
    assert_eq!(ev.value, 300);
    assert_eq!(c.balance_of(1), 700);
    assert_eq!(c.balance_of(2), 300);
    assert_eq!(c.balance_of(1) + c.balance_of(2), c.total_supply());
}

#[test]
fn erc20_transfer_errors() {
    let mut c = Erc20::new(1, 1_000);
    assert_eq!(c.transfer(1, 1, 10), Err(Erc20Error::AttemptingSelfTransfer));
    assert_eq!(c.transfer(1, 2, 1_001), Err(Erc20Error::InsufficientBalance));
    assert_eq!(c.transfer(2, 3, 1), Err(Erc20Error::InsufficientBalance));
}

#[test]
fn erc20_allowance_flow() {
    let mut c = Erc20::new(1, 1_000);
    let ev = c.approve(1, 2, 400).unwrap();
    assert_eq!(ev.owner, 1);
    assert_eq!(ev.spender, 2);
    assert_eq!(ev.value, 400);
    assert_eq!(c.allowance(1, 2), 400);
    // The spender moves part of the allowance to a third account.
    c.transfer_from(2, 1, 3, 150).unwrap();
    assert_eq!(c.balance_of(1), 850);
    assert_eq!(c.balance_of(3), 150);
    assert_eq!(c.allowance(1, 2), 250);
    // Beyond the remaining allowance.
    assert_eq!(c.transfer_from(2, 1, 3, 251), Err(Erc20Error::InsufficientAllowance));
}

#[test]
fn erc20_approve_errors() {
    let mut c = Erc20::new(1, 1_000);
    assert_eq!(c.approve(1, 1, 10), Err(Erc20Error::AttemptingSelfAllowance));
    assert_eq!(c.approve(1, 2, 1_001), Err(Erc20Error::InsufficientBalance));
    assert_eq!(c.transfer_from(2, 1, 1, 1), Err(Erc20Error::AttemptingSelfTransfer));
}

#[test]
fn game_bootstrap_funds_pool() {
    let c = GameContract::new(1, 2);
    assert_eq!(c.remained_currency_pool(), Ok(10_000_000_000_000_000_000));
}

#[test]
fn game_buy_currency() {
    let mut c = GameContract::new(1, 2);
    c.buy_game_currency(3, 100, 100).unwrap();
    assert_eq!(c.remained_currency_pool(), Ok(10_000_000_000_000_000_000 - 100));
}

#[test]
fn game_buy_errors() {
    let mut c = GameContract::new(1, 2);
    assert_eq!(c.buy_game_currency(3, 99, 100), Err(GameError::NotEnough));
    assert_eq!(
        c.buy_game_currency(3, u128::MAX, u64::MAX),
        Err(GameError::TooMuch)
    );
}

#[test]
fn game_mint_assigns_sequential_ids() {
    let mut c = GameContract::new(1, 2);
    assert_eq!(c.mint(3), Ok(2));
    assert_eq!(c.mint(4), Ok(3));
}

#[test]
fn erc721_mint_and_owner() {
    let mut c = Erc721::new(1);
    let ev = c
        .mint(4, 100, String::from("excalibur"), String::from("stone"))
        .unwrap();
    assert_eq!(ev.from, Some(0));
    assert_eq!(ev.to, Some(4));
    assert_eq!(ev.id.len(), 32);
    assert_eq!(c.owner_of("excalibur"), Some(4));
    assert_eq!(c.balance_of(4), 1);
    // The same generation string cannot be minted twice.
    assert_eq!(
        c.mint(5, 100, String::from("excalibur"), String::from("other")),
        Err(Erc721Error::TokenAlreadyExists)
    );
}

#[test]
fn erc721_mint_errors() {
    let mut c = Erc721::new(1);
    assert_eq!(
        c.mint(0, 100, String::from("a"), String::from("b")),
        Err(Erc721Error::AccountToBurn)
    );
    assert_eq!(
        c.mint(4, 99, String::from("a"), String::from("b")),
        Err(Erc721Error::NotEnoughFee)
    );
}

#[test]
fn erc721_transfer_needs_the_phrase() {
    let mut c = Erc721::new(1);
    c.mint(4, 100, String::from("excalibur"), String::from("stone"))
        .unwrap();
    assert_eq!(
        c.transfer(4, 100, 5, String::from("excalibur"), String::from("wrong")),
        Err(Erc721Error::NotTokenOwner)
    );
    let ev = c
        .transfer(4, 100, 5, String::from("excalibur"), String::from("stone"))
        .unwrap();
    assert_eq!(ev.from, Some(4));
    assert_eq!(ev.to, Some(5));
    assert_eq!(c.owner_of("excalibur"), Some(5));
    assert_eq!(c.balance_of(4), 0);
    assert_eq!(c.balance_of(5), 1);
}

#[test]
fn erc721_change_phrase_rotates_the_gate() {
    let mut c = Erc721::new(1);
    c.mint(4, 100, String::from("excalibur"), String::from("stone"))
        .unwrap();
    c.change_phrase(4, String::from("excalibur"), String::from("stone"), String::from("lake"))
        .unwrap();
    assert_eq!(
        c.transfer(4, 100, 5, String::from("excalibur"), String::from("stone")),
        Err(Erc721Error::NotTokenOwner)
    );
    assert!(c.transfer(4, 100, 5, String::from("excalibur"), String::from("lake")).is_ok());
}

#[test]
fn erc721_burn_removes_the_token() {
    let mut c = Erc721::new(1);
    c.mint(4, 100, String::from("excalibur"), String::from("stone"))
        .unwrap();
    assert_eq!(
        c.burn(5, 100, String::from("excalibur"), String::from("stone")),
        Err(Erc721Error::NotTokenOwner)
    );
    c.burn(4, 100, String::from("excalibur"), String::from("stone"))
        .unwrap();
    assert_eq!(c.owner_of("excalibur"), None);
    assert_eq!(c.balance_of(4), 0);
    // Burning freed the generation string for a new mint.
    assert!(c.mint(6, 100, String::from("excalibur"), String::from("new")).is_ok());
}

#[test]
fn erc721_operator_transfer() {
    let mut c = Erc721::new(1);
    c.mint(4, 100, String::from("excalibur"), String::from("stone"))
        .unwrap();
    // Without any approval a third party cannot move the token.
    assert_eq!(
        c.transfer_from(6, 100, 4, 5, String::from("excalibur")),
        Err(Erc721Error::NotApproved)
    );
    // A per-token approval admits the operator.
    let grant = c
        .approve(4, 6, String::from("excalibur"), String::from("stone"))
        .unwrap();
    assert!(grant.is_some());
    // Approving the same account again changes nothing.
    let again = c
        .approve(4, 6, String::from("excalibur"), String::from("stone"))
        .unwrap();
    assert!(again.is_none());
    assert_eq!(c.get_approved("excalibur").unwrap(), vec![6]);
    c.transfer_from(6, 100, 4, 5, String::from("excalibur")).unwrap();
    assert_eq!(c.owner_of("excalibur"), Some(5));
    // The transfer dropped the per-token approvals.
    assert!(c.get_approved("excalibur").is_none());
}

#[test]
fn erc721_operator_approval_for_all() {
    let mut c = Erc721::new(1);
    c.mint(4, 100, String::from("excalibur"), String::from("stone"))
        .unwrap();
    // The phrase proofs are checked before anything is recorded.
    assert_eq!(
        c.set_approval_for_all(
            4,
            6,
            true,
            &vec![(String::from("excalibur"), String::from("wrong"))],
        ),
        Err(Erc721Error::NotTokenOwner)
    );
    c.set_approval_for_all(
        4,
        6,
        true,
        &vec![(String::from("excalibur"), String::from("stone"))],
    )
    .unwrap();
    assert!(c.is_approved_for_all(4, 6));
    c.transfer_from(6, 100, 4, 5, String::from("excalibur")).unwrap();
    assert_eq!(c.owner_of("excalibur"), Some(5));
    // Revocation removes the delegation.
    c.set_approval_for_all(4, 6, false, &vec![]).unwrap();
    assert!(!c.is_approved_for_all(4, 6));
}

#[test]
fn erc721_collect_funded_all_is_founder_only() {
    let c = Erc721::new(1);
    assert_eq!(c.founder(), 1);
    assert_eq!(c.collect_funded_all(2, true), Err(Erc721Error::FounderOnly));
    assert_eq!(c.collect_funded_all(1, false), Err(Erc721Error::NotEnoughBalance));
    assert_eq!(c.collect_funded_all(1, true), Ok(()));
}

#[test]
fn erc721_self_and_burn_account_checks() {
    let mut c = Erc721::new(1);
    c.mint(4, 100, String::from("excalibur"), String::from("stone"))
        .unwrap();
    assert_eq!(
        c.transfer(4, 100, 4, String::from("excalibur"), String::from("stone")),
        Err(Erc721Error::TrasnferToSelf)
    );
    assert_eq!(
        c.transfer(4, 100, 0, String::from("excalibur"), String::from("stone")),
        Err(Erc721Error::AccountToBurn)
    );
    assert_eq!(
        c.approve(4, 4, String::from("excalibur"), String::from("stone")),
        Err(Erc721Error::ApproveForSelf)
    );
    assert_eq!(
        c.transfer(4, 99, 5, String::from("excalibur"), String::from("stone")),
        Err(Erc721Error::NotEnoughFee)
    );
}

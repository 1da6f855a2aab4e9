use token_ledger::erc1155::{
    AmountOption, CallbackOutcome, Erc1155Contract, Error, TokenKind,
};

const FOUNDER: u128 = 1;
const POOL: u128 = 2;

fn ledger_with_supply(supply: u128) -> Erc1155Contract {
    Erc1155Contract::new(FOUNDER, POOL, AmountOption::Fixed(supply), String::new())
}

/// A ledger with the currency, one non-fungible type (id 1), and an owner
/// account funded with enough currency for a few mint fees.
fn ledger_with_nft_type(owner: u128, funding: u128) -> Erc1155Contract {
    let mut c = ledger_with_supply(1_000_000);
    let id = c
        .create_token_type(FOUNDER, String::from("Sword"), TokenKind::Nft, AmountOption::NoSupply)
        .unwrap();
    assert_eq!(id, 1);
    c.buy_currency(owner, funding, funding).unwrap();
    c
}

#[test]
fn bootstrap_creates_currency_type() {
    let c = ledger_with_supply(1_000_000);
    let types = c.get_token_types_list().unwrap();
    assert_eq!(types.len(), 1);
    assert_eq!(types[0].0, 0);
    assert_eq!(types[0].1, String::from("SKMiZ"));
    assert_eq!(types[0].2, TokenKind::Ft);
    assert_eq!(c.remained_currency_pool(), 1_000_000);
    assert_eq!(c.balance_of(POOL, 0), 1_000_000);
}

#[test]
fn currency_name_override_is_kept() {
    let c = Erc1155Contract::new(FOUNDER, POOL, AmountOption::Max, String::from("Gold"));
    let d = c.describe(0).unwrap();
    assert_eq!(d.0, String::from("Gold"));
    assert_eq!(d.1, TokenKind::Ft);
    assert_eq!(c.remained_currency_pool(), u128::MAX);
}

#[test]
fn fixed_price_purchase_moves_currency() {
    // A buyer attaches a payment of at least 500 and receives 500 currency.
    let mut c = ledger_with_supply(1_000_000);
    let buyer = 3;
    let bought = c.buy_currency_500(buyer, 500).unwrap();
    assert_eq!(bought, 500);
    assert_eq!(c.balance_of(buyer, 0), 500);
    assert_eq!(c.remained_currency_pool(), 999_500);
}

#[test]
fn purchase_underpaid_is_rejected() {
    let mut c = ledger_with_supply(1_000_000);
    assert_eq!(c.buy_currency_500(3, 499), Err(Error::NotEnoughFee));
    assert_eq!(c.buy_currency(3, 9, 10), Err(Error::NotEnoughFee));
    assert_eq!(c.remained_currency_pool(), 1_000_000);
}

#[test]
fn purchase_beyond_pool_is_rejected() {
    let mut c = ledger_with_supply(100);
    assert_eq!(c.buy_currency(3, 200, 200), Err(Error::NotAvailable));
    assert_eq!(c.remained_currency_pool(), 100);
}

#[test]
fn create_token_type_needs_founder() {
    let mut c = ledger_with_supply(0);
    assert_eq!(
        c.create_token_type(3, String::from("X"), TokenKind::Ft, AmountOption::NoSupply),
        Err(Error::PermissionDenied)
    );
}

#[test]
fn create_token_type_rejects_empty_name() {
    let mut c = ledger_with_supply(0);
    assert_eq!(
        c.create_token_type(FOUNDER, String::new(), TokenKind::Ft, AmountOption::NoSupply),
        Err(Error::WrongArgument)
    );
}

#[test]
fn describe_unassigned_is_not_found() {
    let c = ledger_with_supply(0);
    assert_eq!(c.describe(7), Err(Error::NotFound));
}

#[test]
fn mint_derives_the_blake2_identity() {
    // The identity handed back must be the BLAKE2b-256 digest of the seed,
    // as the execution environment's own hasher computes it.
    let owner = 4;
    let mut c = ledger_with_nft_type(owner, 600);
    let id = c.mint(owner, 1, String::from("sword-01")).unwrap();
    let mut expected = [0u8; 32];
    ink_env::hash_bytes::<ink_env::hash::Blake2x256>("sword-01".as_bytes(), &mut expected);
    assert_eq!(id, expected.to_vec());
    assert_ne!(id, "sword-01".as_bytes().to_vec());
    assert_eq!(id.len(), 32);
}

#[test]
fn mint_records_instance_and_charges_fee() {
    let owner = 4;
    let mut c = ledger_with_nft_type(owner, 600);
    let id = c.mint(owner, 1, String::from("sword-01")).unwrap();
    let owned = c.get_nft_owned_list(owner, 1).unwrap();
    assert_eq!(owned, vec![id]);
    assert_eq!(c.balance_of(owner, 1), 1);
    // The fixed fee of 100 moved from the owner to the pool.
    assert_eq!(c.balance_of(owner, 0), 500);
    assert_eq!(c.remained_currency_pool(), 1_000_000 - 600 + 100);
}

#[test]
fn mint_same_seed_twice_already_exists() {
    let owner = 4;
    let mut c = ledger_with_nft_type(owner, 600);
    c.mint(owner, 1, String::from("sword-01")).unwrap();
    assert_eq!(c.mint(owner, 1, String::from("sword-01")), Err(Error::AlreadyExist));
    // The failed attempt left no trace: the fee was charged only once.
    assert_eq!(c.balance_of(owner, 0), 500);
    assert_eq!(c.get_nft_owned_list(owner, 1).unwrap().len(), 1);
}

#[test]
fn mint_same_seed_by_other_caller_succeeds() {
    let owner = 4;
    let other = 5;
    let mut c = ledger_with_nft_type(owner, 600);
    c.buy_currency(other, 600, 600).unwrap();
    let id1 = c.mint(owner, 1, String::from("sword-01")).unwrap();
    let id2 = c.mint(other, 1, String::from("sword-01")).unwrap();
    assert_eq!(id1, id2);
    assert_eq!(c.get_nft_owned_list(owner, 1).unwrap(), vec![id1.clone()]);
    assert_eq!(c.get_nft_owned_list(other, 1).unwrap(), vec![id2]);
}

#[test]
fn mint_errors() {
    let owner = 4;
    let mut c = ledger_with_nft_type(owner, 600);
    // Unassigned id.
    assert_eq!(c.mint(owner, 9, String::from("s")), Err(Error::NotFound));
    // Empty seed.
    assert_eq!(c.mint(owner, 1, String::new()), Err(Error::WrongArgument));
    // A fungible token cannot be minted.
    assert_eq!(c.mint(owner, 0, String::from("s")), Err(Error::NotFound));
    // An unfunded caller cannot pay the fee.
    assert_eq!(c.mint(6, 1, String::from("s")), Err(Error::NotEnoughFee));
}

#[test]
fn balance_of_batch_is_a_cross_product() {
    let owner = 4;
    let mut c = ledger_with_nft_type(owner, 600);
    c.mint(owner, 1, String::from("sword-01")).unwrap();
    let rows = c.balance_of_batch(&vec![owner, POOL, 9], &vec![0, 1]);
    assert_eq!(rows.len(), 3);
    assert_eq!(rows[0], vec![500, 1]);
    assert_eq!(rows[1], vec![1_000_000 - 600 + 100, 0]);
    assert_eq!(rows[2], vec![0, 0]);
}

#[test]
fn nft_list_absence_differs_from_empty() {
    let c = ledger_with_supply(0);
    assert!(c.get_nft_owned_list(9, 0).is_none());
}

#[test]
fn transfer_accepted_by_plain_account() {
    let owner = 4;
    let to = 7;
    let mut c = ledger_with_nft_type(owner, 600);
    let id = c.mint(owner, 1, String::from("sword-01")).unwrap();
    let pending = c
        .safe_transfer_from_prepare(owner, owner, to, 1, 1, String::from("sword-01"))
        .unwrap();
    // Custody is already committed before the acceptance callback runs.
    assert_eq!(c.balance_of(owner, 1), 0);
    assert_eq!(c.balance_of(to, 1), 1);
    assert_eq!(pending.data, "sword-01".as_bytes().to_vec());
    let events = c.transfer_resolve(&pending, &CallbackOutcome::NoCode).unwrap();
    assert_eq!(events.len(), 1);
    assert_eq!(events[0].operator, Some(owner));
    assert_eq!(events[0].from, Some(owner));
    assert_eq!(events[0].to, Some(to));
    assert_eq!(events[0].token_id, 1);
    assert_eq!(events[0].value, 1);
    assert_eq!(c.get_nft_owned_list(to, 1).unwrap(), vec![id]);
    assert_eq!(c.get_nft_owned_list(owner, 1).unwrap(), Vec::<Vec<u8>>::new());
}

#[test]
fn transfer_accepted_by_magic_bytes() {
    let owner = 4;
    let mut c = ledger_with_nft_type(owner, 600);
    c.buy_currency(owner, 100, 100).unwrap();
    let pending = c
        .safe_transfer_from_prepare(owner, owner, 7, 0, 50, String::new())
        .unwrap();
    let outcome = CallbackOutcome::Returned(vec![0xf2, 0x3a, 0x6e, 0x61]);
    assert!(c.transfer_resolve(&pending, &outcome).is_ok());
    assert_eq!(c.balance_of(7, 0), 50);
}

#[test]
fn transfer_rejected_is_rolled_back() {
    let owner = 4;
    let to = 7;
    let mut c = ledger_with_nft_type(owner, 600);
    let id = c.mint(owner, 1, String::from("sword-01")).unwrap();
    let before_owner = c.balance_of(owner, 0);
    let pending = c
        .safe_transfer_from_prepare(owner, owner, to, 1, 1, String::from("sword-01"))
        .unwrap();
    // A short or wrong acknowledgement rejects the transfer.
    let outcome = CallbackOutcome::Returned(vec![0xf2, 0x3a]);
    assert_eq!(c.transfer_resolve(&pending, &outcome), Err(Error::TransferDenied));
    // The custody change was undone in full.
    assert_eq!(c.balance_of(owner, 1), 1);
    assert_eq!(c.balance_of(to, 1), 0);
    assert_eq!(c.get_nft_owned_list(owner, 1).unwrap(), vec![id]);
    assert_eq!(c.balance_of(owner, 0), before_owner);
}

#[test]
fn transfer_failed_callback_is_rolled_back() {
    let owner = 4;
    let mut c = ledger_with_nft_type(owner, 600);
    let pending = c
        .safe_transfer_from_prepare(owner, owner, 7, 0, 50, String::new())
        .unwrap();
    assert_eq!(
        c.transfer_resolve(&pending, &CallbackOutcome::Failed),
        Err(Error::TransferDenied)
    );
    assert_eq!(c.balance_of(7, 0), 0);
    assert_eq!(c.balance_of(owner, 0), 600);
}

#[test]
fn rollback_infeasible_reports_inconsistency() {
    // A reentrant-style move of the committed funds during the callback
    // makes the rollback impossible; the resolve step reports it and the
    // committed state stands.
    let owner = 4;
    let thief = 8;
    let mut c = ledger_with_nft_type(owner, 600);
    let pending = c
        .safe_transfer_from_prepare(owner, owner, 7, 0, 50, String::new())
        .unwrap();
    // Account 7 forwards the received funds before the outer resolve.
    let inner = c
        .safe_transfer_from_prepare(7, 7, thief, 0, 50, String::new())
        .unwrap();
    c.transfer_resolve(&inner, &CallbackOutcome::NoCode).unwrap();
    assert_eq!(
        c.transfer_resolve(&pending, &CallbackOutcome::Failed),
        Err(Error::StorageInconsistency)
    );
    assert_eq!(c.balance_of(thief, 0), 50);
    assert_eq!(c.balance_of(owner, 0), 550);
}

#[test]
fn transfer_address_checks() {
    let owner = 4;
    let mut c = ledger_with_nft_type(owner, 600);
    c.buy_currency(owner, 100, 100).unwrap();
    assert_eq!(
        c.safe_transfer_from_prepare(owner, owner, 0, 0, 1, String::new())
            .unwrap_err(),
        Error::BadAdress
    );
    assert_eq!(
        c.safe_transfer_from_prepare(owner, owner, owner, 0, 1, String::new())
            .unwrap_err(),
        Error::SelfOperation
    );
    assert_eq!(
        c.safe_transfer_from_prepare(owner, owner, 7, 0, 701, String::new())
            .unwrap_err(),
        Error::NotAvailable
    );
}

#[test]
fn operator_without_grant_is_denied() {
    // The owner grants a limited approval over the token with no
    // instances; the operator still cannot move anything.
    let owner = 4;
    let operator = 6;
    let mut c = ledger_with_nft_type(owner, 600);
    c.mint(owner, 1, String::from("sword-01")).unwrap();
    let events = c
        .set_approval(owner, operator, &vec![(1, Some(Vec::<String>::new()))])
        .unwrap();
    assert!(events.is_empty());
    assert_eq!(
        c.safe_transfer_from_prepare(operator, owner, 7, 1, 1, String::from("sword-01"))
            .unwrap_err(),
        Error::PermissionDenied
    );
}

#[test]
fn operator_with_instance_grant_can_transfer() {
    let owner = 4;
    let operator = 6;
    let mut c = ledger_with_nft_type(owner, 600);
    c.mint(owner, 1, String::from("sword-01")).unwrap();
    let events = c
        .set_approval(owner, operator, &vec![(1, Some(vec![String::from("sword-01")]))])
        .unwrap();
    assert_eq!(events.len(), 1);
    assert_eq!(events[0].owner, owner);
    assert_eq!(events[0].operator, operator);
    assert_eq!(events[0].id, 1);
    assert_eq!(
        c.is_approved(owner, operator, Some(1), Some(String::from("sword-01"))),
        Ok(true)
    );
    // Whatever the operator itself had delegated to the sender will be
    // revoked by the executed transfer.
    c.set_approval_for_all(operator, owner, true).unwrap();
    let pending = c
        .safe_transfer_from_prepare(operator, owner, 7, 1, 1, String::from("sword-01"))
        .unwrap();
    c.transfer_resolve(&pending, &CallbackOutcome::NoCode).unwrap();
    assert_eq!(c.balance_of(7, 1), 1);
    // The transfer revoked the approval entry of (caller, from) in full.
    assert_eq!(c.is_approved_for_all(operator, owner), false);
}

#[test]
fn grant_of_unowned_instance_is_denied() {
    let owner = 4;
    let operator = 6;
    let mut c = ledger_with_nft_type(owner, 600);
    c.mint(owner, 1, String::from("sword-01")).unwrap();
    assert_eq!(
        c.set_approval(owner, operator, &vec![(1, Some(vec![String::from("axe-99")]))]),
        Err(Error::PermissionDenied)
    );
}

#[test]
fn approval_grant_argument_errors() {
    let owner = 4;
    let mut c = ledger_with_nft_type(owner, 600);
    assert_eq!(
        c.set_approval(owner, 0, &vec![]),
        Err(Error::BadAdress)
    );
    assert_eq!(
        c.set_approval(owner, owner, &vec![]),
        Err(Error::SelfOperation)
    );
    // A non-fungible entry without a seed list is unanswerable.
    assert_eq!(
        c.set_approval(owner, 6, &vec![(1, None)]),
        Err(Error::WrongArgument)
    );
    // An unassigned token id.
    assert_eq!(
        c.set_approval(owner, 6, &vec![(9, Some(vec![]))]),
        Err(Error::NotFound)
    );
}

#[test]
fn full_scope_approves_everything() {
    let owner = 4;
    let operator = 6;
    let mut c = ledger_with_nft_type(owner, 600);
    c.mint(owner, 1, String::from("sword-01")).unwrap();
    let ev = c.set_approval_for_all(owner, operator, true).unwrap();
    assert!(ev.approved);
    assert!(c.is_approved_for_all(owner, operator));
    assert_eq!(c.is_approved(owner, operator, None, None), Ok(true));
    assert_eq!(c.is_approved(owner, operator, Some(1), None), Ok(true));
    // Toggling back to limited keeps the (empty) list, which approves
    // nothing.
    c.set_approval_for_all(owner, operator, false).unwrap();
    assert_eq!(c.is_approved(owner, operator, None, None), Err(Error::WrongArgument));
    assert_eq!(c.is_approved(owner, operator, Some(0), None), Ok(false));
    assert_eq!(c.is_approved_for_all(owner, operator), false);
}

#[test]
fn set_approval_for_all_argument_errors() {
    let mut c = ledger_with_supply(0);
    assert_eq!(c.set_approval_for_all(4, 0, true), Err(Error::BadAdress));
    assert_eq!(c.set_approval_for_all(4, 4, true), Err(Error::SelfOperation));
}

#[test]
fn resolve_on_never_granted_pair_answers_no() {
    let c = ledger_with_supply(0);
    assert_eq!(c.is_approved(4, 6, Some(0), None), Ok(false));
    assert_eq!(c.is_approved_for_all(4, 6), false);
}

#[test]
fn batch_transfer_moves_all_items_atomically() {
    let owner = 4;
    let to = 7;
    let mut c = ledger_with_nft_type(owner, 600);
    c.mint(owner, 1, String::from("sword-01")).unwrap();
    c.buy_currency(owner, 200, 200).unwrap();
    let pending = c
        .safe_batch_transfer_from_prepare(
            owner,
            owner,
            to,
            vec![0, 1],
            vec![30, 1],
            vec![String::from("x"), String::from("sword-01")],
        )
        .unwrap();
    assert!(pending.batch);
    // The per-item auxiliary strings, joined by the delimiter.
    assert_eq!(pending.data, "x|sword-01".as_bytes().to_vec());
    let outcome = CallbackOutcome::Returned(vec![0xbc, 0x19, 0x7c, 0x81]);
    let events = c.transfer_resolve(&pending, &outcome).unwrap();
    assert_eq!(events.len(), 2);
    assert_eq!(c.balance_of(to, 0), 30);
    assert_eq!(c.balance_of(to, 1), 1);
}

#[test]
fn batch_transfer_failing_item_aborts_whole_batch() {
    let owner = 4;
    let mut c = ledger_with_nft_type(owner, 600);
    c.mint(owner, 1, String::from("sword-01")).unwrap();
    // The second item transfers an instance the owner does not hold, so
    // the first item must not commit either.
    assert_eq!(
        c.safe_batch_transfer_from_prepare(
            owner,
            owner,
            7,
            vec![0, 1],
            vec![30, 1],
            vec![String::from("x"), String::from("ghost")],
        )
        .unwrap_err(),
        Error::NotFound
    );
    assert_eq!(c.balance_of(owner, 0), 500);
    assert_eq!(c.balance_of(owner, 1), 1);
    assert_eq!(c.balance_of(7, 0), 0);
}

#[test]
fn batch_transfer_shape_errors() {
    let owner = 4;
    let mut c = ledger_with_nft_type(owner, 600);
    assert_eq!(
        c.safe_batch_transfer_from_prepare(owner, owner, 7, vec![], vec![], vec![])
            .unwrap_err(),
        Error::WrongArgument
    );
    assert_eq!(
        c.safe_batch_transfer_from_prepare(
            owner,
            owner,
            7,
            vec![0],
            vec![1, 2],
            vec![String::new()],
        )
        .unwrap_err(),
        Error::WrongArgument
    );
}

#[test]
fn batch_transfer_by_operator_needs_full_scope() {
    let owner = 4;
    let operator = 6;
    let mut c = ledger_with_nft_type(owner, 600);
    c.buy_currency(owner, 100, 100).unwrap();
    assert_eq!(
        c.safe_batch_transfer_from_prepare(
            operator,
            owner,
            7,
            vec![0],
            vec![10],
            vec![String::new()],
        )
        .unwrap_err(),
        Error::PermissionDenied
    );
    c.set_approval_for_all(owner, operator, true).unwrap();
    let pending = c
        .safe_batch_transfer_from_prepare(
            operator,
            owner,
            7,
            vec![0],
            vec![10],
            vec![String::new()],
        )
        .unwrap();
    c.transfer_resolve(&pending, &CallbackOutcome::NoCode).unwrap();
    assert_eq!(c.balance_of(7, 0), 10);
}

#[test]
fn fungible_conservation_across_transfer() {
    let owner = 4;
    let mut c = ledger_with_nft_type(owner, 600);
    c.buy_currency(owner, 100, 100).unwrap();
    let before = c.balance_of(owner, 0) + c.balance_of(7, 0);
    let pending = c
        .safe_transfer_from_prepare(owner, owner, 7, 0, 60, String::new())
        .unwrap();
    c.transfer_resolve(&pending, &CallbackOutcome::NoCode).unwrap();
    assert_eq!(c.balance_of(owner, 0) + c.balance_of(7, 0), before);
}

#[test]
fn reentrant_double_spend_is_impossible() {
    // Custody is committed before the acceptance callback, so a recipient
    // that re-enters the ledger during the callback finds the sender's
    // balance already debited and cannot move more than what the sender
    // held at the start.
    let owner = 4;
    let mut c = ledger_with_nft_type(owner, 600);
    let outer = c
        .safe_transfer_from_prepare(owner, owner, 7, 0, 400, String::new())
        .unwrap();
    // The reentrant attempt during the callback: another 400 of the same
    // funds.  Only 200 remain, so it fails.
    assert_eq!(
        c.safe_transfer_from_prepare(owner, owner, 8, 0, 400, String::new())
            .unwrap_err(),
        Error::NotAvailable
    );
    c.transfer_resolve(&outer, &CallbackOutcome::NoCode).unwrap();
    assert_eq!(c.balance_of(7, 0) + c.balance_of(8, 0), 400);
}

#[test]
fn receiver_callbacks_answer_the_magic() {
    let mut c = ledger_with_supply(0);
    assert_eq!(c.on_received(1, 2, 0, 1, vec![]), vec![0xf2, 0x3a, 0x6e, 0x61]);
    assert_eq!(
        c.on_batch_received(1, 2, vec![0], vec![1], vec![]),
        vec![0xbc, 0x19, 0x7c, 0x81]
    );
}

use token_vault::balances::{Balances, Entry};
use token_vault::identity::Identity;
use token_vault::vault::{
    deposit_in_vault, initialize_vault, settle, withdraw_from_vault, DepositInVault, ErrorCode,
    InitializeVault, TransferRequest, Vault, WithdrawFromVault,
};

fn id(n: u8) -> Identity {
    Identity::new([n; 32])
}

const PROGRAM: u8 = 200;
const VAULT_HOLDING: u8 = 201;

fn holding_of(who: u8) -> Identity {
    id(who.wrapping_add(100))
}

fn deposit(vault: Vault, who: u8, amount: u64) -> (Vault, Result<TransferRequest, ErrorCode>) {
    let mut ctx = DepositInVault {
        vault,
        from_ata: holding_of(who),
        to_ata: id(VAULT_HOLDING),
        owner: id(who),
        token_program: id(PROGRAM),
    };
    let outcome = deposit_in_vault(&mut ctx, amount);
    (ctx.vault, outcome)
}

fn withdraw(vault: Vault, who: u8, amount: u64) -> (Vault, Result<TransferRequest, ErrorCode>) {
    let mut ctx = WithdrawFromVault {
        vault,
        from_ata: id(VAULT_HOLDING),
        to_ata: holding_of(who),
        owner: id(who),
        token_program: id(PROGRAM),
    };
    let outcome = withdraw_from_vault(&mut ctx, amount);
    (ctx.vault, outcome)
}

fn entry(who: u8, amount: u64) -> Entry {
    Entry { owner: id(who), amount }
}

fn vault_of(total: u64, entries: Vec<Entry>) -> Vault {
    Vault {
        manager: id(9),
        total_balance: total,
        user_balances: Balances::from_entries(entries).unwrap(),
    }
}

fn sum_of_entries(vault: &Vault) -> u128 {
    vault.user_balances.entries().iter().map(|e| e.amount as u128).sum()
}

#[test]
fn initialize_makes_an_empty_vault() {
    let mut ctx = InitializeVault { vault: vault_of(77, vec![entry(1, 77)]), user: id(5) };
    assert_eq!(initialize_vault(&mut ctx), Ok(()));
    assert_eq!(ctx.user, id(5));
    assert_eq!(ctx.vault.manager, id(5));
    assert_eq!(ctx.vault.total_balance, 0);
    assert_eq!(ctx.vault.user_balances.len(), 0);
    assert_eq!(ctx.vault.user_balances.entries(), vec![]);
    assert_eq!(ctx.vault, Vault::new(id(5)));
}

#[test]
fn two_depositors_scenario() {
    let (a, b) = (1u8, 2u8);
    let vault = Vault::new(id(9));
    assert_eq!(vault.total_balance, 0);
    assert_eq!(vault.user_balances.entries(), vec![]);

    let (vault, outcome) = deposit(vault, a, 100);
    assert!(outcome.is_ok());
    assert_eq!(vault.total_balance, 100);
    assert_eq!(vault.user_balances.entries(), vec![entry(a, 100)]);

    let (vault, outcome) = deposit(vault, b, 50);
    assert!(outcome.is_ok());
    assert_eq!(vault.total_balance, 150);
    assert_eq!(vault.user_balances.entries(), vec![entry(a, 100), entry(b, 50)]);

    let (vault, outcome) = withdraw(vault, a, 100);
    assert!(outcome.is_ok());
    assert_eq!(vault.total_balance, 50);
    assert_eq!(vault.user_balances.entries(), vec![entry(b, 50)]);
    assert_eq!(vault.user_balances.get(&id(a)), None);

    let (vault, outcome) = withdraw(vault, a, 1);
    assert_eq!(outcome, Err(ErrorCode::NoDepositRecord));
    assert_eq!(vault.total_balance, 50);
    assert_eq!(vault.user_balances.entries(), vec![entry(b, 50)]);
    assert_eq!(vault.manager, id(9));
}

#[test]
fn deposit_asks_for_one_transfer_towards_the_vault() {
    let (vault, outcome) = deposit(Vault::new(id(9)), 1, 40);
    assert_eq!(
        outcome,
        Ok(TransferRequest {
            token_program: id(PROGRAM),
            from: holding_of(1),
            to: id(VAULT_HOLDING),
            authority: id(1),
            amount: 40,
        })
    );
    assert_eq!(vault.user_balances.get(&id(1)), Some(40));
}

#[test]
fn withdrawal_asks_for_one_transfer_towards_the_depositor() {
    let (vault, outcome) = withdraw(vault_of(40, vec![entry(1, 40)]), 1, 15);
    assert_eq!(
        outcome,
        Ok(TransferRequest {
            token_program: id(PROGRAM),
            from: id(VAULT_HOLDING),
            to: holding_of(1),
            authority: id(1),
            amount: 15,
        })
    );
    assert_eq!(vault.total_balance, 25);
    assert_eq!(vault.user_balances.get(&id(1)), Some(25));
}

#[test]
fn deposit_adds_to_an_existing_entry() {
    let (vault, outcome) = deposit(vault_of(30, vec![entry(1, 10), entry(2, 20)]), 2, 5);
    assert!(outcome.is_ok());
    assert_eq!(vault.total_balance, 35);
    assert_eq!(vault.user_balances.entries(), vec![entry(1, 10), entry(2, 25)]);
}

#[test]
fn deposit_past_the_largest_total_is_refused() {
    let before = vault_of(u64::MAX - 5, vec![entry(1, u64::MAX - 5)]);
    let (after, outcome) = deposit(before.clone(), 2, 6);
    assert_eq!(outcome, Err(ErrorCode::Overflow));
    assert_eq!(after, before);
    assert_eq!(after.total_balance, u64::MAX - 5);
    assert_eq!(after.user_balances.get(&id(2)), None);
}

#[test]
fn deposit_up_to_the_largest_total_is_taken() {
    let (after, outcome) = deposit(vault_of(u64::MAX - 5, vec![entry(1, u64::MAX - 5)]), 2, 5);
    assert!(outcome.is_ok());
    assert_eq!(after.total_balance, u64::MAX);
    assert_eq!(after.user_balances.entries(), vec![entry(1, u64::MAX - 5), entry(2, 5)]);
}

#[test]
fn deposit_past_the_largest_balance_is_refused() {
    let before = vault_of(10, vec![entry(1, u64::MAX)]);
    let (after, outcome) = deposit(before.clone(), 1, 1);
    assert_eq!(outcome, Err(ErrorCode::Overflow));
    assert_eq!(after, before);
    assert_eq!(after.total_balance, 10);
}

#[test]
fn withdrawing_more_than_recorded_is_refused() {
    let before = vault_of(150, vec![entry(1, 100), entry(2, 50)]);
    let (after, outcome) = withdraw(before.clone(), 2, 51);
    assert_eq!(outcome, Err(ErrorCode::InsufficientUserBalance));
    assert_eq!(after, before);
    assert_eq!(after.total_balance, 150);
    assert_eq!(after.user_balances.entries(), vec![entry(1, 100), entry(2, 50)]);
}

#[test]
fn withdrawing_the_exact_balance_removes_the_entry() {
    let (after, outcome) = withdraw(vault_of(150, vec![entry(1, 100), entry(2, 50)]), 2, 50);
    assert!(outcome.is_ok());
    assert_eq!(after.total_balance, 100);
    assert_eq!(after.user_balances.get(&id(2)), None);
    assert_eq!(after.user_balances.entries(), vec![entry(1, 100)]);
    assert_eq!(after.user_balances.len(), 1);
}

#[test]
fn withdrawing_a_part_keeps_the_entry() {
    let (after, outcome) = withdraw(vault_of(150, vec![entry(1, 100), entry(2, 50)]), 1, 99);
    assert!(outcome.is_ok());
    assert_eq!(after.total_balance, 51);
    assert_eq!(after.user_balances.entries(), vec![entry(1, 1), entry(2, 50)]);
}

#[test]
fn withdrawing_without_an_entry_is_refused() {
    let before = vault_of(100, vec![entry(1, 100)]);
    let (after, outcome) = withdraw(before.clone(), 3, 0);
    assert_eq!(outcome, Err(ErrorCode::NoDepositRecord));
    assert_eq!(after, before);
    let (_, outcome) = withdraw(Vault::new(id(9)), 1, 10);
    assert_eq!(outcome, Err(ErrorCode::NoDepositRecord));
}

#[test]
fn withdrawing_more_than_the_total_is_refused() {
    let before = vault_of(5, vec![entry(1, 10)]);
    let (after, outcome) = withdraw(before.clone(), 1, 6);
    assert_eq!(outcome, Err(ErrorCode::Underflow));
    assert_eq!(after, before);
    assert_eq!(after.user_balances.get(&id(1)), Some(10));
}

#[test]
fn deposit_then_withdraw_gives_back_the_vault() {
    let before = vault_of(30, vec![entry(1, 10), entry(3, 20)]);
    for who in [1u8, 2, 3] {
        let (between, outcome) = deposit(before.clone(), who, 7);
        assert!(outcome.is_ok());
        assert_eq!(between.total_balance, 37);
        let (after, outcome) = withdraw(between, who, 7);
        assert!(outcome.is_ok());
        assert_eq!(after.total_balance, before.total_balance);
        assert_eq!(after.user_balances.get(&id(who)), before.user_balances.get(&id(who)));
        assert_eq!(after, before);
    }
}

#[test]
fn withdraw_then_deposit_gives_back_the_vault() {
    let before = vault_of(30, vec![entry(1, 10), entry(3, 20)]);
    for (who, amount) in [(1u8, 10u64), (3, 4)] {
        let (between, outcome) = withdraw(before.clone(), who, amount);
        assert!(outcome.is_ok());
        let (after, outcome) = deposit(between, who, amount);
        assert!(outcome.is_ok());
        assert_eq!(after, before);
    }
}

#[test]
fn total_stays_the_sum_of_the_entries() {
    let mut vault = Vault::new(id(9));
    let steps: [(bool, u8, u64); 8] = [
        (true, 3, 500),
        (true, 1, 20),
        (false, 3, 120),
        (true, 2, 7),
        (false, 1, 21),
        (false, 1, 20),
        (true, 3, 1),
        (false, 2, 7),
    ];
    for (is_deposit, who, amount) in steps {
        let (next, _) = if is_deposit {
            deposit(vault, who, amount)
        } else {
            withdraw(vault, who, amount)
        };
        vault = next;
        assert_eq!(vault.total_balance as u128, sum_of_entries(&vault));
        assert!(vault.user_balances.entries().iter().all(|e| e.amount > 0));
    }
    assert_eq!(vault.total_balance, 381);
    assert_eq!(vault.user_balances.entries(), vec![entry(3, 381)]);
}

#[test]
fn deposit_of_nothing_by_a_new_depositor_makes_no_entry() {
    let (vault, outcome) = deposit(Vault::new(id(9)), 1, 0);
    assert_eq!(
        outcome,
        Ok(TransferRequest {
            token_program: id(PROGRAM),
            from: holding_of(1),
            to: id(VAULT_HOLDING),
            authority: id(1),
            amount: 0,
        })
    );
    assert_eq!(vault.total_balance, 0);
    assert_eq!(vault.user_balances.get(&id(1)), None);
    assert_eq!(vault.user_balances.len(), 0);
    assert_eq!(vault.user_balances.entries(), vec![]);
    assert_eq!(vault, Vault::new(id(9)));
    let (vault, outcome) = withdraw(vault, 1, 0);
    assert_eq!(outcome, Err(ErrorCode::NoDepositRecord));
    assert_eq!(vault.user_balances.entries(), vec![]);
}

#[test]
fn deposit_of_nothing_leaves_other_entries_alone() {
    let before = vault_of(30, vec![entry(1, 10), entry(3, 20)]);
    let (after, outcome) = deposit(before.clone(), 2, 0);
    assert!(outcome.is_ok());
    assert_eq!(after, before);
    let (after, outcome) = deposit(before.clone(), 3, 0);
    assert!(outcome.is_ok());
    assert_eq!(after, before);
    assert!(after.user_balances.entries().iter().all(|e| e.amount > 0));
}

#[test]
fn entries_come_in_the_order_of_their_owners() {
    let mut vault = Vault::new(id(9));
    for who in [5u8, 1, 4, 2, 3] {
        vault = deposit(vault, who, who as u64 * 10).0;
    }
    assert_eq!(
        vault.user_balances.entries(),
        vec![entry(1, 10), entry(2, 20), entry(3, 30), entry(4, 40), entry(5, 50)]
    );
    assert_eq!(vault.total_balance, 150);
    assert_eq!(vault.user_balances.len(), 5);
}

#[test]
fn settle_keeps_the_change_only_where_the_transfer_was_made() {
    let before = vault_of(10, vec![entry(1, 10)]);
    let (after, outcome) = deposit(before.clone(), 1, 5);
    assert!(outcome.is_ok());
    assert_eq!(settle(before.clone(), after.clone(), true), after);
    assert_eq!(settle(before.clone(), after.clone(), false), before);
    assert_ne!(after, before);
}

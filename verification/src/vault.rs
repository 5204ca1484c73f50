//! The vault: the aggregate balance, the balances of the depositors, and the
//! three transitions that make and change them.

use vstd::prelude::*;
use crate::balances::Balances;
use crate::identity::Identity;

verus! {

/// Why a transition was refused.
#[derive(Clone, Copy, Debug, PartialEq, Eq)]
pub enum ErrorCode {
    /// An addition to the total or to a depositor's balance would leave the
    /// range of the amounts.
    Overflow,
    /// A subtraction from the total or from a depositor's balance would go
    /// below zero.
    Underflow,
    /// The withdrawal asks for more than the depositor has on record.
    InsufficientUserBalance,
    /// The withdrawal is for a depositor without an entry.
    NoDepositRecord,
}

/// The record of one pool: who made it, how much it holds, and how much of
/// that belongs to each depositor.
#[derive(Debug, PartialEq, Eq)]
pub struct Vault {
    pub manager: Identity,
    pub total_balance: u64,
    pub user_balances: Balances,
}

/// A vault as a mathematical value.
pub struct VaultView {
    pub manager: Identity,
    pub total_balance: u64,
    pub balances: Map<Identity, u64>,
}

/// A request to the transfer service: move `amount` from one holding to
/// another on the authority of `authority`.
#[derive(Clone, Copy, Debug, PartialEq, Eq)]
pub struct TransferRequest {
    pub token_program: Identity,
    pub from: Identity,
    pub to: Identity,
    pub authority: Identity,
    pub amount: u64,
}

/// What making a vault works on: the record to fill and the one who makes it.
#[derive(Debug, PartialEq, Eq)]
pub struct InitializeVault {
    pub vault: Vault,
    pub user: Identity,
}

/// What a deposit works on: the vault, the depositor's holding that gives, the
/// vault's holding that takes, the depositor, and the transfer service.
#[derive(Debug, PartialEq, Eq)]
pub struct DepositInVault {
    pub vault: Vault,
    pub from_ata: Identity,
    pub to_ata: Identity,
    pub owner: Identity,
    pub token_program: Identity,
}

/// What a withdrawal works on: the vault, the vault's holding that gives, the
/// depositor's holding that takes, the depositor, and the transfer service.
#[derive(Debug, PartialEq, Eq)]
pub struct WithdrawFromVault {
    pub vault: Vault,
    pub from_ata: Identity,
    pub to_ata: Identity,
    pub owner: Identity,
    pub token_program: Identity,
}

/// The outcome of a step that is refused for the reason `e`.
pub open spec fn refused(e: ErrorCode) -> Result<TransferRequest, ErrorCode> {
    Err(e)
}

impl VaultView {
    /// The balance of `who`: zero where `who` has no entry.
    pub open spec fn balance_of(self, who: Identity) -> u64 {
        if self.has_entry(who) {
            self.balances[who]
        } else {
            0
        }
    }

    /// `who` has an entry.
    pub open spec fn has_entry(self, who: Identity) -> bool {
        self.balances.contains_key(who)
    }

    /// No entry holds zero.
    pub open spec fn no_empty_entry(self) -> bool {
        forall|who: Identity| #[trigger]
            self.balances.contains_key(who) ==> self.balances[who] > 0
    }

    /// The vault after `who` has deposited `amount`, or the reason for which
    /// the deposit is refused. A deposit of nothing makes no entry.
    pub open spec fn deposit(self, who: Identity, amount: u64) -> Result<VaultView, ErrorCode> {
        if self.total_balance + amount > u64::MAX || self.balance_of(who) + amount > u64::MAX {
            Err(ErrorCode::Overflow)
        } else {
            Ok(
                VaultView {
                    manager: self.manager,
                    total_balance: (self.total_balance + amount) as u64,
                    balances: if self.balance_of(who) + amount == 0 {
                        self.balances
                    } else {
                        self.balances.insert(who, (self.balance_of(who) + amount) as u64)
                    },
                },
            )
        }
    }

    /// The vault after `who` has withdrawn `amount`, or the reason for which
    /// the withdrawal is refused.
    pub open spec fn withdraw(self, who: Identity, amount: u64) -> Result<VaultView, ErrorCode> {
        if !self.has_entry(who) {
            Err(ErrorCode::NoDepositRecord)
        } else if amount > self.balances[who] {
            Err(ErrorCode::InsufficientUserBalance)
        } else if amount > self.total_balance {
            Err(ErrorCode::Underflow)
        } else {
            Ok(
                VaultView {
                    manager: self.manager,
                    total_balance: (self.total_balance - amount) as u64,
                    balances: if amount == self.balances[who] {
                        self.balances.remove(who)
                    } else {
                        self.balances.insert(who, (self.balances[who] - amount) as u64)
                    },
                },
            )
        }
    }
}

impl View for Vault {
    type V = VaultView;

    open spec fn view(&self) -> VaultView {
        VaultView {
            manager: self.manager,
            total_balance: self.total_balance,
            balances: self.user_balances@,
        }
    }
}

impl Vault {
    /// The total is the sum of the balances of all depositors.
    pub open spec fn balanced(&self) -> bool {
        self.total_balance == self.user_balances.sum()
    }

    /// An empty vault of `manager`.
    pub fn new(manager: Identity) -> (vault: Vault)
        ensures
            vault.manager == manager,
            vault.total_balance == 0,
            vault@.balances == Map::<Identity, u64>::empty(),
            vault.balanced(),
            vault@.no_empty_entry(),
    {
        Vault { manager, total_balance: 0, user_balances: Balances::new() }
    }
}

impl Clone for Vault {
    /// A copy with the same manager, total and entries.
    fn clone(&self) -> (copy: Vault)
        ensures
            copy@ == self@,
    {
        Vault {
            manager: self.manager,
            total_balance: self.total_balance,
            user_balances: self.user_balances.clone(),
        }
    }
}

/// Makes the vault of `ctx` an empty vault whose manager is the user of `ctx`.
/// This never fails.
pub fn initialize_vault(ctx: &mut InitializeVault) -> (done: Result<(), ErrorCode>)
    ensures
        done is Ok,
        final(ctx).user == old(ctx).user,
        final(ctx).vault.manager == old(ctx).user,
        final(ctx).vault.total_balance == 0,
        final(ctx).vault@.balances == Map::<Identity, u64>::empty(),
        final(ctx).vault.balanced(),
        final(ctx).vault@.no_empty_entry(),
{
    ctx.vault = Vault::new(ctx.user);
    Ok(())
}

/// Records a deposit of `amount` by the owner of `ctx` and returns the
/// transfer that has to be made for it: `amount`, from the depositor's holding
/// to the vault's, on the depositor's authority.
///
/// The deposit is refused with `Overflow` where the total or the depositor's
/// balance would pass the largest amount; the vault is then left as it was.
/// A deposit that leaves the depositor with nothing makes no entry.
pub fn deposit_in_vault(ctx: &mut DepositInVault, amount: u64) -> (outcome: Result<
    TransferRequest,
    ErrorCode,
>)
    ensures
        match outcome {
            Ok(request) => {
                &&& old(ctx).vault@.deposit(old(ctx).owner, amount) == Ok::<VaultView, ErrorCode>(
                    final(ctx).vault@,
                )
                &&& request == (TransferRequest {
                    token_program: old(ctx).token_program,
                    from: old(ctx).from_ata,
                    to: old(ctx).to_ata,
                    authority: old(ctx).owner,
                    amount,
                })
            },
            Err(e) => {
                &&& old(ctx).vault@.deposit(old(ctx).owner, amount) == Err::<VaultView, ErrorCode>(
                    e,
                )
                &&& *final(ctx) == *old(ctx)
            },
        },
        final(ctx).from_ata == old(ctx).from_ata,
        final(ctx).to_ata == old(ctx).to_ata,
        final(ctx).owner == old(ctx).owner,
        final(ctx).token_program == old(ctx).token_program,
        old(ctx).vault.total_balance + amount > u64::MAX ==> outcome == refused(
            ErrorCode::Overflow,
        ),
        old(ctx).vault.balanced() ==> final(ctx).vault.balanced(),
        old(ctx).vault@.no_empty_entry() ==> final(ctx).vault@.no_empty_entry(),
{
    let new_total: u64 = match ctx.vault.total_balance.checked_add(amount) {
        Some(sum) => sum,
        None => {
            return Err(ErrorCode::Overflow);
        },
    };
    let current: u64 = match ctx.vault.user_balances.get(&ctx.owner) {
        Some(recorded) => recorded,
        None => 0,
    };
    let new_balance: u64 = match current.checked_add(amount) {
        Some(sum) => sum,
        None => {
            return Err(ErrorCode::Overflow);
        },
    };
    ctx.vault.total_balance = new_total;
    if new_balance != 0 {
        ctx.vault.user_balances.set(ctx.owner, new_balance);
    }
    Ok(
        TransferRequest {
            token_program: ctx.token_program,
            from: ctx.from_ata,
            to: ctx.to_ata,
            authority: ctx.owner,
            amount,
        },
    )
}

/// Records a withdrawal of `amount` by the owner of `ctx` and returns the
/// transfer that has to be made for it: `amount`, from the vault's holding to
/// the depositor's, on the depositor's authority.
///
/// The withdrawal is refused with `NoDepositRecord` where the owner has no
/// entry, with `InsufficientUserBalance` where `amount` is more than the
/// entry holds, and with `Underflow` where it is more than the total; the
/// vault is then left as it was. An entry that comes down to zero is removed.
pub fn withdraw_from_vault(ctx: &mut WithdrawFromVault, amount: u64) -> (outcome: Result<
    TransferRequest,
    ErrorCode,
>)
    ensures
        match outcome {
            Ok(request) => {
                &&& old(ctx).vault@.withdraw(old(ctx).owner, amount) == Ok::<VaultView, ErrorCode>(
                    final(ctx).vault@,
                )
                &&& request == (TransferRequest {
                    token_program: old(ctx).token_program,
                    from: old(ctx).from_ata,
                    to: old(ctx).to_ata,
                    authority: old(ctx).owner,
                    amount,
                })
            },
            Err(e) => {
                &&& old(ctx).vault@.withdraw(old(ctx).owner, amount) == Err::<VaultView, ErrorCode>(
                    e,
                )
                &&& *final(ctx) == *old(ctx)
            },
        },
        final(ctx).from_ata == old(ctx).from_ata,
        final(ctx).to_ata == old(ctx).to_ata,
        final(ctx).owner == old(ctx).owner,
        final(ctx).token_program == old(ctx).token_program,
        !old(ctx).vault@.has_entry(old(ctx).owner) ==> outcome == refused(
            ErrorCode::NoDepositRecord,
        ),
        old(ctx).vault@.has_entry(old(ctx).owner) && amount > old(ctx).vault@.balance_of(
            old(ctx).owner,
        ) ==> outcome == refused(ErrorCode::InsufficientUserBalance),
        old(ctx).vault.balanced() ==> final(ctx).vault.balanced() && outcome != refused(
            ErrorCode::Underflow,
        ),
        old(ctx).vault.balanced() && old(ctx).vault@.has_entry(old(ctx).owner)
            && old(ctx).vault@.balance_of(old(ctx).owner) == amount ==> outcome is Ok
            && !final(ctx).vault@.has_entry(old(ctx).owner),
        old(ctx).vault@.no_empty_entry() ==> final(ctx).vault@.no_empty_entry(),
{
    let current: u64 = match ctx.vault.user_balances.get(&ctx.owner) {
        Some(recorded) => recorded,
        None => {
            return Err(ErrorCode::NoDepositRecord);
        },
    };
    if amount > current {
        return Err(ErrorCode::InsufficientUserBalance);
    }
    let new_balance: u64 = match current.checked_sub(amount) {
        Some(rest) => rest,
        None => {
            return Err(ErrorCode::Underflow);
        },
    };
    proof {
        use_type_invariant(&ctx.vault.user_balances);
        ctx.vault.user_balances.lemma_balance_within_sum(ctx.owner);
    }
    let new_total: u64 = match ctx.vault.total_balance.checked_sub(amount) {
        Some(rest) => rest,
        None => {
            return Err(ErrorCode::Underflow);
        },
    };
    if new_balance == 0 {
        ctx.vault.user_balances.remove(&ctx.owner);
    } else {
        ctx.vault.user_balances.set(ctx.owner, new_balance);
    }
    ctx.vault.total_balance = new_total;
    Ok(
        TransferRequest {
            token_program: ctx.token_program,
            from: ctx.from_ata,
            to: ctx.to_ata,
            authority: ctx.owner,
            amount,
        },
    )
}

/// The vault that a step leaves behind once the transfer service has
/// answered: the changed vault where the transfer was made, the vault as it
/// was before the step where it was not.
pub fn settle(before: Vault, after: Vault, transfer_made: bool) -> (kept: Vault)
    ensures
        kept == if transfer_made { after } else { before },
{
    if transfer_made {
        after
    } else {
        before
    }
}

} // verus!

//! What holds of the transitions taken together.

use vstd::prelude::*;
use crate::identity::Identity;
use crate::vault::{ErrorCode, VaultView};

verus! {

/// A deposit followed by a withdrawal of the same amount by the same
/// depositor, where the deposit is of more than nothing or the depositor has
/// an entry, is never refused, and gives back the total and the depositor's
/// balance from before the deposit. Manager and the entries of all other
/// depositors are as before too, and where the vault had no entry that holds
/// zero, the whole vault is as it was.
pub proof fn law_deposit_then_withdraw(vault: VaultView, who: Identity, amount: u64)
    requires
        vault.deposit(who, amount) is Ok,
        amount > 0 || vault.has_entry(who),
    ensures
        ({
            let between = vault.deposit(who, amount).unwrap();
            let back = between.withdraw(who, amount);
            &&& back is Ok
            &&& back.unwrap().total_balance == vault.total_balance
            &&& back.unwrap().balance_of(who) == vault.balance_of(who)
            &&& back.unwrap().manager == vault.manager
            &&& back.unwrap().balances.remove(who) == vault.balances.remove(who)
            &&& vault.no_empty_entry() ==> back.unwrap() == vault
        }),
{
    let between = vault.deposit(who, amount).unwrap();
    let back = between.withdraw(who, amount).unwrap();
    assert(back.balances.remove(who) =~= vault.balances.remove(who));
    if vault.no_empty_entry() {
        assert(back.balances =~= vault.balances);
    }
}

/// A deposit of nothing by a depositor without an entry leaves the vault as
/// it was: no entry is made, and a withdrawal of nothing that follows it is
/// refused for want of a record.
pub proof fn law_deposit_of_nothing(vault: VaultView, who: Identity)
    requires
        !vault.has_entry(who),
    ensures
        vault.deposit(who, 0) == Ok::<VaultView, ErrorCode>(vault),
        vault.withdraw(who, 0) == Err::<VaultView, ErrorCode>(ErrorCode::NoDepositRecord),
{
}

/// A withdrawal followed by a deposit of the same amount by the same
/// depositor is never refused, and gives back the total and the depositor's
/// balance from before the withdrawal. Where the depositor's entry held more
/// than nothing, the whole vault is as it was.
pub proof fn law_withdraw_then_deposit(vault: VaultView, who: Identity, amount: u64)
    requires
        vault.withdraw(who, amount) is Ok,
    ensures
        ({
            let between = vault.withdraw(who, amount).unwrap();
            let back = between.deposit(who, amount);
            &&& back is Ok
            &&& back.unwrap().total_balance == vault.total_balance
            &&& back.unwrap().balance_of(who) == vault.balance_of(who)
            &&& back.unwrap().manager == vault.manager
            &&& back.unwrap().balances.remove(who) == vault.balances.remove(who)
            &&& vault.balance_of(who) > 0 ==> back.unwrap() == vault
        }),
{
    let between = vault.withdraw(who, amount).unwrap();
    let back = between.deposit(who, amount).unwrap();
    assert(back.balances.remove(who) =~= vault.balances.remove(who));
    if vault.balance_of(who) > 0 {
        assert(back.balances =~= vault.balances);
    }
}

} // verus!

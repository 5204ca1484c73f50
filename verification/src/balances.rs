//! The per-depositor balances of a vault: a map from identity to amount whose
//! entries are kept, and enumerated, in the order of their identities.

use vstd::prelude::*;
use std::collections::BTreeMap;
use vstd::std_specs::btree::increasing_seq;
use vstd::std_specs::cmp::OrdSpec;
use vstd::std_specs::iter::IteratorSpec;
use crate::identity::{
    Identity,
    Placement,
    key_less,
    key_of,
    lemma_key_order,
    lemma_less_is_strict,
    lemma_less_is_transitive,
    lemma_same_bytes,
};

verus! {

broadcast use {vstd::std_specs::btree::group_btree_axioms, vstd::laws_cmp::group_laws_cmp};

/// One depositor's recorded balance.
#[derive(Clone, Copy, Debug, PartialEq, Eq)]
pub struct Entry {
    pub owner: Identity,
    pub amount: u64,
}

/// Every entry's owner comes strictly before the owners of all later entries.
/// In such a listing no owner occurs twice.
pub open spec fn strictly_ordered(s: Seq<Entry>) -> bool {
    forall|i: int, j: int|
        #![trigger s[i], s[j]]
        0 <= i < j < s.len() ==> s[i].owner.precedes(s[j].owner)
}

/// Some entry of `s` belongs to `who`.
pub open spec fn holds(s: Seq<Entry>, who: Identity) -> bool {
    exists|i: int| 0 <= i < s.len() && #[trigger] s[i].owner == who
}

/// The position of an entry of `who` in `s`, where there is one.
pub open spec fn position_of(s: Seq<Entry>, who: Identity) -> int {
    choose|i: int| 0 <= i < s.len() && #[trigger] s[i].owner == who
}

/// The map from owner to amount that a listing stands for.
pub open spec fn balance_map(s: Seq<Entry>) -> Map<Identity, u64> {
    Map::new(|who: Identity| holds(s, who), |who: Identity| s[position_of(s, who)].amount)
}

/// The sum of all amounts of a map with finitely many owners.
pub open spec fn total_of(m: Map<Identity, u64>) -> nat
    decreases m.dom().len(),
    when m.dom().finite()
{
    if m.dom().len() == 0 {
        0
    } else {
        let who = m.dom().choose();
        m[who] as nat + total_of(m.remove(who))
    }
}

/// Each stored entry is found under the key of its owner.
pub open spec fn keyed(stored: Map<(u128, u128), Entry>) -> bool {
    forall|k: (u128, u128)| #[trigger] stored.contains_key(k) ==> key_of(stored[k].owner@) == k
}

/// The map from owner to amount that stored entries stand for.
pub open spec fn amounts_of(stored: Map<(u128, u128), Entry>) -> Map<Identity, u64> {
    Map::new(
        |who: Identity| stored.contains_key(key_of(who@)),
        |who: Identity| stored[key_of(who@)].amount,
    )
}

/// The balances of all depositors of one vault.
///
/// The entries are held in an ordered map under the keys of their owners, so
/// that each owner has at most one entry and an enumeration goes by the order
/// of the owners, whatever the order in which the entries were made.
#[derive(Debug, PartialEq, Eq)]
pub struct Balances {
    entries: BTreeMap<(u128, u128), Entry>,
}

impl View for Balances {
    type V = Map<Identity, u64>;

    closed spec fn view(&self) -> Map<Identity, u64> {
        amounts_of(self.entries@)
    }
}

impl Balances {
    /// Each entry is stored under the key of its owner, and the owners are as
    /// many as the stored entries.
    #[verifier::type_invariant]
    pub closed spec fn sound(&self) -> bool {
        &&& keyed(self.entries@)
        &&& self@.dom().finite()
        &&& self@.dom().len() == self.entries@.dom().len()
    }

    /// The sum of all recorded amounts.
    pub open spec fn sum(&self) -> nat {
        total_of(self@)
    }

    /// The amount recorded for `who`: nothing where `who` has no entry.
    pub open spec fn balance_of(&self, who: Identity) -> u64 {
        if self@.contains_key(who) {
            self@[who]
        } else {
            0
        }
    }

    /// The entry of `who`, if there is one.
    pub open spec fn record_of(&self, who: Identity) -> Option<u64> {
        if self@.contains_key(who) {
            Some(self@[who])
        } else {
            None
        }
    }

    /// Balances without any entry.
    pub fn new() -> (b: Balances)
        ensures
            b@ == Map::<Identity, u64>::empty(),
            b.sum() == 0,
    {
        proof {
            lemma_amounts_of_nothing();
        }
        Balances { entries: BTreeMap::new() }
    }

    /// The number of entries.
    pub fn len(&self) -> (n: usize)
        ensures
            self@.dom().finite(),
            n == self@.len(),
    {
        proof {
            use_type_invariant(self);
        }
        self.entries.len()
    }

    /// The amount recorded for `who`, if `who` has an entry.
    pub fn get(&self, who: &Identity) -> (found: Option<u64>)
        ensures
            found == self.record_of(*who),
    {
        let key = who.key();
        match self.entries.get(&key) {
            Some(entry) => Some(entry.amount),
            None => None,
        }
    }

    /// Records `amount` for `who`, in place of what was recorded before.
    pub fn set(&mut self, who: Identity, amount: u64)
        ensures
            final(self)@ == old(self)@.insert(who, amount),
            final(self).sum() == old(self).sum() - old(self).balance_of(who) + amount,
    {
        proof {
            use_type_invariant(&*self);
            lemma_amounts_of_nothing();
        }
        let mut entries: BTreeMap<(u128, u128), Entry> = BTreeMap::new();
        std::mem::swap(&mut entries, &mut self.entries);
        let ghost before = entries@;
        let key = who.key();
        entries.insert(key, Entry { owner: who, amount });
        proof {
            lemma_amounts_insert(before, Entry { owner: who, amount });
            lemma_total_insert(amounts_of(before), who, amount);
        }
        self.entries = entries;
    }

    /// Removes the entry of `who`, and returns the amount that it held.
    pub fn remove(&mut self, who: &Identity) -> (prior: Option<u64>)
        ensures
            final(self)@ == old(self)@.remove(*who),
            prior == old(self).record_of(*who),
            final(self).sum() == old(self).sum() - old(self).balance_of(*who),
    {
        proof {
            use_type_invariant(&*self);
            lemma_amounts_of_nothing();
        }
        let mut entries: BTreeMap<(u128, u128), Entry> = BTreeMap::new();
        std::mem::swap(&mut entries, &mut self.entries);
        let ghost before = entries@;
        let key = who.key();
        let gone = entries.remove(&key);
        proof {
            lemma_amounts_remove(before, *who);
            if amounts_of(before).contains_key(*who) {
                lemma_total_remove(amounts_of(before), *who);
            } else {
                assert(amounts_of(before).remove(*who) =~= amounts_of(before));
            }
        }
        self.entries = entries;
        match gone {
            Some(entry) => Some(entry.amount),
            None => None,
        }
    }

    /// All entries, in the order of their owners.
    pub fn entries(&self) -> (list: Vec<Entry>)
        ensures
            strictly_ordered(list@),
            balance_map(list@) == self@,
            list@.len() == self@.len(),
    {
        proof {
            use_type_invariant(self);
        }
        let mut list: Vec<Entry> = Vec::new();
        let walk = self.entries.iter();
        let ghost all = walk.remaining();
        for pair in it: walk
            invariant
                list.len() == it.index(),
                it.seq() == all,
                forall|j: int|
                    0 <= j < list.len() ==> (#[trigger] list[j]) == *all[j].1,
        {
            list.push(*pair.1);
        }
        proof {
            let keys = all.map_values(|kv: (&(u128, u128), &Entry)| *kv.0);
            lemma_increasing_keys(keys);
            assert forall|k: (u128, u128)| self.entries@.contains_key(k) implies exists|i: int|
                0 <= i < keys.len() && #[trigger] keys[i] == k by {
                assert(all.contains((&k, &self.entries@[k])));
                let i = choose|i: int| 0 <= i < all.len() && all[i] == (&k, &self.entries@[k]);
                assert(keys[i] == k);
            }
            lemma_listing(self.entries@, keys, list@);
        }
        list
    }

    /// Makes balances of the given entries, which must be in the strict order
    /// of their owners: `None` where they are not.
    pub fn from_entries(entries: Vec<Entry>) -> (made: Option<Balances>)
        ensures
            made is Some <==> strictly_ordered(entries@),
            made is Some ==> made.unwrap()@ == balance_map(entries@),
    {
        let mut made = Balances::new();
        assert(balance_map(entries@.take(0)) =~= Map::<Identity, u64>::empty());
        let mut i: usize = 0;
        while i < entries.len()
            invariant
                0 <= i <= entries.len(),
                strictly_ordered(entries@.take(i as int)),
                made@ == balance_map(entries@.take(i as int)),
            decreases entries.len() - i,
        {
            let ghost so_far = entries@.take(i as int);
            let ghost next = entries@[i as int];
            if i > 0 {
                match entries[i - 1].owner.compare(&entries[i].owner) {
                    Placement::Before => {},
                    _ => {
                        assert(!entries@[i - 1].owner.precedes(next.owner));
                        return None;
                    },
                }
            }
            made.set(entries[i].owner, entries[i].amount);
            proof {
                assert(entries@.take(i + 1) =~= so_far.push(next));
                assert forall|k: int| 0 <= k < so_far.len() implies (
                #[trigger] so_far[k]).owner.precedes(next.owner) by {
                    if k < i - 1 {
                        assert(so_far[k].owner.precedes(so_far[i - 1].owner));
                        lemma_less_is_transitive(
                            so_far[k].owner@,
                            so_far[i - 1].owner@,
                            next.owner@,
                        );
                    }
                }
                lemma_map_push(so_far, next);
            }
            i = i + 1;
        }
        assert(entries@.take(i as int) =~= entries@);
        Some(made)
    }

    /// What is recorded for one owner is no more than the sum of all that is
    /// recorded.
    pub proof fn lemma_balance_within_sum(&self, who: Identity)
        requires
            self.sound(),
        ensures
            self@.dom().finite(),
            self.balance_of(who) <= self.sum(),
    {
        if self@.contains_key(who) {
            lemma_total_remove(self@, who);
        }
    }
}

impl Clone for Balances {
    /// A copy with the same entries.
    fn clone(&self) -> (copy: Balances)
        ensures
            copy@ == self@,
    {
        proof {
            use_type_invariant(self);
        }
        Balances { entries: self.entries.clone() }
    }
}

/// The sum of a map is the amount of any one owner and the sum of the rest.
pub proof fn lemma_total_remove(m: Map<Identity, u64>, who: Identity)
    requires
        m.dom().finite(),
        m.contains_key(who),
    ensures
        total_of(m) == m[who] + total_of(m.remove(who)),
    decreases m.dom().len(),
{
    let first = m.dom().choose();
    if first != who {
        lemma_total_remove(m.remove(first), who);
        lemma_total_remove(m.remove(who), first);
        assert(m.remove(first).remove(who) =~= m.remove(who).remove(first));
    }
}

/// Recording an amount for an owner changes the sum by the difference to what
/// was recorded for that owner before.
pub proof fn lemma_total_insert(m: Map<Identity, u64>, who: Identity, amount: u64)
    requires
        m.dom().finite(),
    ensures
        total_of(m.insert(who, amount)) + (if m.contains_key(who) {
            m[who]
        } else {
            0
        }) == total_of(m) + amount,
{
    let after = m.insert(who, amount);
    lemma_total_remove(after, who);
    assert(after.remove(who) =~= m.remove(who));
    if m.contains_key(who) {
        lemma_total_remove(m, who);
    } else {
        assert(m.remove(who) =~= m);
    }
}

/// Where nothing is stored, nothing is recorded for anyone.
pub proof fn lemma_amounts_of_nothing()
    ensures
        amounts_of(Map::<(u128, u128), Entry>::empty()) == Map::<Identity, u64>::empty(),
{
    assert(amounts_of(Map::<(u128, u128), Entry>::empty()) =~= Map::<Identity, u64>::empty());
}

/// Storing an entry under the key of its owner records its amount for that
/// owner and changes nothing else.
pub proof fn lemma_amounts_insert(stored: Map<(u128, u128), Entry>, e: Entry)
    requires
        keyed(stored),
    ensures
        keyed(stored.insert(key_of(e.owner@), e)),
        amounts_of(stored.insert(key_of(e.owner@), e)) == amounts_of(stored).insert(
            e.owner,
            e.amount,
        ),
        amounts_of(stored).contains_key(e.owner) <==> stored.contains_key(key_of(e.owner@)),
{
    let after = stored.insert(key_of(e.owner@), e);
    assert forall|who: Identity| #[trigger]
        key_of(who@) == key_of(e.owner@) implies who == e.owner by {
        lemma_key_order(who@, e.owner@);
        lemma_same_bytes(who, e.owner);
    }
    assert(amounts_of(after) =~= amounts_of(stored).insert(e.owner, e.amount));
}

/// Taking out what is stored under the key of an owner removes that owner's
/// entry and changes nothing else.
pub proof fn lemma_amounts_remove(stored: Map<(u128, u128), Entry>, who: Identity)
    requires
        keyed(stored),
    ensures
        keyed(stored.remove(key_of(who@))),
        amounts_of(stored.remove(key_of(who@))) == amounts_of(stored).remove(who),
        amounts_of(stored).contains_key(who) <==> stored.contains_key(key_of(who@)),
{
    let after = stored.remove(key_of(who@));
    assert forall|other: Identity| #[trigger]
        key_of(other@) == key_of(who@) implies other == who by {
        lemma_key_order(other@, who@);
        lemma_same_bytes(other, who);
    }
    assert(amounts_of(after) =~= amounts_of(stored).remove(who));
}

/// Keys that an ordered map hands out one after the other grow.
proof fn lemma_increasing_keys(keys: Seq<(u128, u128)>)
    requires
        increasing_seq(keys),
    ensures
        forall|i: int, j: int|
            0 <= i < j < keys.len() ==> key_less(#[trigger] keys[i], #[trigger] keys[j]),
{
    assert forall|i: int, j: int| 0 <= i < j < keys.len() implies key_less(
        #[trigger] keys[i],
        #[trigger] keys[j],
    ) by {
        assert(keys[i].cmp_spec(&keys[j]) is Less);
    }
}

/// The entries of a map, taken in the order of their keys, are in the order of
/// their owners and stand for the amounts of the map.
proof fn lemma_listing(stored: Map<(u128, u128), Entry>, keys: Seq<(u128, u128)>, list: Seq<Entry>)
    requires
        keyed(stored),
        keys.len() == list.len(),
        forall|i: int, j: int|
            0 <= i < j < keys.len() ==> key_less(#[trigger] keys[i], #[trigger] keys[j]),
        forall|i: int|
            0 <= i < keys.len() ==> stored.contains_key(#[trigger] keys[i]) && stored[keys[i]]
                == list[i],
        forall|k: (u128, u128)|
            stored.contains_key(k) ==> exists|i: int|
                0 <= i < keys.len() && #[trigger] keys[i] == k,
    ensures
        strictly_ordered(list),
        balance_map(list) == amounts_of(stored),
{
    assert forall|i: int, j: int| 0 <= i < j < list.len() implies list[i].owner.precedes(
        list[j].owner,
    ) by {
        assert(key_less(keys[i], keys[j]));
        lemma_key_order(list[i].owner@, list[j].owner@);
    }
    assert(strictly_ordered(list));
    let listed = balance_map(list);
    let kept = amounts_of(stored);
    assert forall|who: Identity| #[trigger] listed.dom().contains(who) implies kept.dom().contains(
        who,
    ) && listed[who] == kept[who] by {
        let i = position_of(list, who);
        assert(stored.contains_key(keys[i]));
        assert(key_of(who@) == keys[i]);
        lemma_map_of_entry(list, i);
    }
    assert forall|who: Identity| #[trigger] kept.dom().contains(who) implies listed.dom().contains(
        who,
    ) by {
        let k = key_of(who@);
        assert(stored.contains_key(k));
        let i = choose|i: int| 0 <= i < keys.len() && #[trigger] keys[i] == k;
        lemma_key_order(list[i].owner@, who@);
        lemma_same_bytes(list[i].owner, who);
        assert(list[i].owner == who);
        assert(holds(list, who));
    }
    assert(listed.dom() =~= kept.dom());
    assert(listed =~= kept);
}

/// In an ordered listing an owner is found at one position only.
pub proof fn lemma_position_is_unique(s: Seq<Entry>, i: int, j: int)
    requires
        strictly_ordered(s),
        0 <= i < s.len(),
        0 <= j < s.len(),
        s[i].owner == s[j].owner,
    ensures
        i == j,
{
    if i < j {
        assert(s[i].owner.precedes(s[j].owner));
        lemma_less_is_strict(s[i].owner@, s[j].owner@);
    } else if j < i {
        assert(s[j].owner.precedes(s[i].owner));
        lemma_less_is_strict(s[j].owner@, s[i].owner@);
    }
}

/// The map of an ordered listing gives each entry's owner that entry's amount.
pub proof fn lemma_map_of_entry(s: Seq<Entry>, i: int)
    requires
        strictly_ordered(s),
        0 <= i < s.len(),
    ensures
        balance_map(s).contains_key(s[i].owner),
        balance_map(s)[s[i].owner] == s[i].amount,
{
    let who = s[i].owner;
    assert(holds(s, who));
    lemma_position_is_unique(s, i, position_of(s, who));
}

/// An entry whose owner comes after all owners of an ordered listing can be
/// put at its end: the listing stays ordered, and its map gets that owner.
pub proof fn lemma_map_push(s: Seq<Entry>, e: Entry)
    requires
        strictly_ordered(s),
        forall|k: int| 0 <= k < s.len() ==> (#[trigger] s[k]).owner.precedes(e.owner),
    ensures
        strictly_ordered(s.push(e)),
        balance_map(s.push(e)) == balance_map(s).insert(e.owner, e.amount),
{
    let t = s.push(e);
    let m = balance_map(s).insert(e.owner, e.amount);
    assert forall|a: int, b: int| 0 <= a < b < t.len() implies t[a].owner.precedes(
        t[b].owner,
    ) by {
        if b < s.len() {
            assert(t[a] == s[a] && t[b] == s[b]);
        } else {
            assert(t[a] == s[a]);
        }
    }
    assert(t[s.len() as int] == e);
    lemma_map_of_entry(t, s.len() as int);
    assert forall|who: Identity| balance_map(t).contains_key(who) implies m.contains_key(who)
        && balance_map(t)[who] == m[who] by {
        let k = position_of(t, who);
        lemma_map_of_entry(t, k);
        if k < s.len() {
            assert(s[k] == t[k]);
            lemma_map_of_entry(s, k);
        }
    }
    assert forall|who: Identity| m.contains_key(who) implies balance_map(t).contains_key(who) by {
        if who != e.owner {
            let k = position_of(s, who);
            assert(t[k].owner == who);
        }
    }
    assert(balance_map(t) =~= m);
}

} // verus!

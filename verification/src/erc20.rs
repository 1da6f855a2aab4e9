//! The fungible-only companion ledger: scalar balances per account, an
//! allowance table for third-party transfers, and a fixed total supply.
//!
//! The whole supply is handed to the creating account; transfers only
//! redistribute it.  The sum of all balances equals the total supply at
//! every step, which also rules out overflow on any credit.

use vstd::prelude::*;
use crate::pair_map::PairMap;

verus! {

/// Failures an operation can report.
#[derive(Debug, PartialEq, Eq, Structural, Clone, Copy)]
pub enum Error {
    InsufficientBalance,
    AttemptingSelfTransfer,
    InsufficientAllowance,
    AttemptingSelfAllowance,
}

/// Record of one executed transfer, handed back for notification.
#[derive(Debug, PartialEq, Eq, Clone, Copy)]
pub struct Transfer {
    pub from: Option<u128>,
    pub to: Option<u128>,
    pub value: u128,
}

/// Record of one allowance grant.
#[derive(Debug, PartialEq, Eq, Clone, Copy)]
pub struct Approval {
    pub owner: u128,
    pub spender: u128,
    pub value: u128,
}

/// Whether some entry of `s` belongs to account `a`.
pub open spec fn acc_has(s: Seq<(u128, u128)>, a: u128) -> bool {
    exists|i: int| 0 <= i < s.len() && #[trigger] s[i].0 == a
}

/// An index of `s` belonging to `a` (unique when accounts are distinct).
pub open spec fn acc_at(s: Seq<(u128, u128)>, a: u128) -> int {
    choose|i: int| 0 <= i < s.len() && #[trigger] s[i].0 == a
}

/// No two entries of `s` belong to the same account.
pub open spec fn acc_distinct(s: Seq<(u128, u128)>) -> bool {
    forall|i: int, j: int| 0 <= i < j < s.len() ==> #[trigger] s[i].0 != #[trigger] s[j].0
}

/// The balance map described by an entry sequence.
pub open spec fn acc_map(s: Seq<(u128, u128)>) -> Map<u128, u128> {
    Map::new(|a: u128| acc_has(s, a), |a: u128| s[acc_at(s, a)].1)
}

/// The sum of all recorded balances.
pub open spec fn sum_balances(s: Seq<(u128, u128)>) -> int
    decreases s.len(),
{
    if s.len() == 0 {
        0
    } else {
        sum_balances(s.drop_last()) + s.last().1
    }
}

/// Under distinct accounts, any index belonging to `a` is the index the
/// map reads.
proof fn lemma_acc_index(s: Seq<(u128, u128)>, i: int)
    requires
        acc_distinct(s),
        0 <= i < s.len(),
    ensures
        acc_has(s, s[i].0),
        acc_at(s, s[i].0) == i,
        acc_map(s).contains_key(s[i].0),
        acc_map(s)[s[i].0] == s[i].1,
{
    let a = s[i].0;
    assert(acc_has(s, a));
    let j = acc_at(s, a);
    if i != j {
        if i < j {
            assert(s[i].0 != s[j].0);
        } else {
            assert(s[j].0 != s[i].0);
        }
    }
}

proof fn lemma_sum_nonneg(s: Seq<(u128, u128)>)
    ensures
        sum_balances(s) >= 0,
    decreases s.len(),
{
    if s.len() > 0 {
        lemma_sum_nonneg(s.drop_last());
    }
}

/// Replacing the value of one entry shifts the sum by the difference.
proof fn lemma_sum_update(s: Seq<(u128, u128)>, i: int, v: u128)
    requires
        0 <= i < s.len(),
    ensures
        sum_balances(s.update(i, (s[i].0, v))) == sum_balances(s) - s[i].1 + v,
    decreases s.len(),
{
    let s2 = s.update(i, (s[i].0, v));
    if i == s.len() - 1 {
        assert(s2.drop_last() =~= s.drop_last());
        assert(s2.last() == (s[i].0, v));
    } else {
        assert(s2.drop_last() =~= s.drop_last().update(i, (s[i].0, v)));
        assert(s.drop_last()[i] == s[i]);
        lemma_sum_update(s.drop_last(), i, v);
        assert(s2.last() == s.last());
    }
}

/// Appending an entry adds its value to the sum.
proof fn lemma_sum_push(s: Seq<(u128, u128)>, a: u128, v: u128)
    ensures
        sum_balances(s.push((a, v))) == sum_balances(s) + v,
{
    assert(s.push((a, v)).drop_last() =~= s);
    assert(s.push((a, v)).last() == (a, v));
}

/// Any single balance is bounded by the sum.
proof fn lemma_sum_entry_bound(s: Seq<(u128, u128)>, i: int)
    requires
        0 <= i < s.len(),
    ensures
        s[i].1 <= sum_balances(s),
    decreases s.len(),
{
    if i == s.len() - 1 {
        lemma_sum_nonneg(s.drop_last());
    } else {
        assert(s.drop_last()[i] == s[i]);
        lemma_sum_entry_bound(s.drop_last(), i);
    }
}

/// Any two distinct balances together are bounded by the sum.
proof fn lemma_sum_two_entries(s: Seq<(u128, u128)>, i: int, j: int)
    requires
        0 <= i < j < s.len(),
    ensures
        s[i].1 + s[j].1 <= sum_balances(s),
    decreases s.len(),
{
    if j == s.len() - 1 {
        assert(s.drop_last()[i] == s[i]);
        lemma_sum_entry_bound(s.drop_last(), i);
    } else {
        assert(s.drop_last()[i] == s[i]);
        assert(s.drop_last()[j] == s[j]);
        lemma_sum_two_entries(s.drop_last(), i, j);
    }
}

/// Abstract state of the fungible ledger.
#[verifier::ext_equal]
pub struct Erc20V {
    /// The fixed total supply.
    pub total: u128,
    /// Balance per account.
    pub balances: Map<u128, u128>,
    /// Remaining allowance per (owner, spender).
    pub allowances: Map<(u128, u128), u128>,
}

/// Balance of `a`; 0 when nothing was ever recorded.
pub open spec fn bal20(v: Erc20V, a: u128) -> u128 {
    if v.balances.contains_key(a) {
        v.balances[a]
    } else {
        0
    }
}

/// Allowance of `spender` over `owner`'s balance; 0 when never granted.
pub open spec fn allowance20(v: Erc20V, owner: u128, spender: u128) -> u128 {
    if v.allowances.contains_key((owner, spender)) {
        v.allowances[(owner, spender)]
    } else {
        0
    }
}

/// Move `value` from `from` to `to` (the accounts differ); the sum
/// invariant makes the credit safe.
pub open spec fn move20(v: Erc20V, from: u128, to: u128, value: u128) -> Result<Erc20V, Error> {
    if bal20(v, from) < value {
        Err(Error::InsufficientBalance)
    } else {
        Ok(Erc20V {
            balances: v.balances
                .insert(from, (bal20(v, from) - value) as u128)
                .insert(to, (bal20(v, to) + value) as u128),
            ..v
        })
    }
}

/// State after a transfer out of the caller's own balance.
pub open spec fn transfer_spec(v: Erc20V, caller: u128, to: u128, value: u128) -> Result<Erc20V, Error> {
    if caller == to {
        Err(Error::AttemptingSelfTransfer)
    } else {
        move20(v, caller, to, value)
    }
}

/// State after a third-party transfer: the caller spends its allowance
/// from `from`, which shrinks by the transferred value.
pub open spec fn transfer_from_spec(v: Erc20V, caller: u128, from: u128, to: u128, value: u128) -> Result<Erc20V, Error> {
    if from == to {
        Err(Error::AttemptingSelfTransfer)
    } else if allowance20(v, from, caller) < value {
        Err(Error::InsufficientAllowance)
    } else {
        match move20(v, from, to, value) {
            Ok(v1) => Ok(Erc20V {
                allowances: v1.allowances.insert(
                    (from, caller),
                    (allowance20(v, from, caller) - value) as u128,
                ),
                ..v1
            }),
            Err(e) => Err(e),
        }
    }
}

/// State after granting an allowance, bounded by the owner's balance.
pub open spec fn approve_spec(v: Erc20V, caller: u128, spender: u128, value: u128) -> Result<Erc20V, Error> {
    if caller == spender {
        Err(Error::AttemptingSelfAllowance)
    } else if bal20(v, caller) < value {
        Err(Error::InsufficientBalance)
    } else {
        Ok(Erc20V { allowances: v.allowances.insert((caller, spender), value), ..v })
    }
}

/// The fungible-only ledger.
pub struct Erc20 {
    total_supply: u128,
    balances: Vec<(u128, u128)>,
    allowance: PairMap<u128>,
}

impl View for Erc20 {
    type V = Erc20V;

    closed spec fn view(&self) -> Erc20V {
        Erc20V {
            total: self.total_supply,
            balances: acc_map(self.balances@),
            allowances: self.allowance@,
        }
    }
}

impl Erc20 {
    /// One entry per account, and the balances sum to the total supply.
    pub closed spec fn wf(&self) -> bool {
        &&& acc_distinct(self.balances@)
        &&& self.allowance.wf()
        &&& sum_balances(self.balances@) == self.total_supply
    }

    /// Create the ledger with the whole supply held by `caller`.
    pub fn new(caller: u128, init_supply: u128) -> (r: Self)
        ensures
            r.wf(),
            r@.total == init_supply,
            r@.balances == Map::<u128, u128>::empty().insert(caller, init_supply),
            r@.allowances == Map::<(u128, u128), u128>::empty(),
    {
        let mut balances: Vec<(u128, u128)> = Vec::new();
        balances.push((caller, init_supply));
        let r = Erc20 { total_supply: init_supply, balances, allowance: PairMap::new() };
        proof {
            assert(r.balances@ =~= Seq::<(u128, u128)>::empty().push((caller, init_supply)));
            lemma_sum_push(Seq::<(u128, u128)>::empty(), caller, init_supply);
            assert forall|a: u128| true implies
                (acc_has(r.balances@, a) == (a == caller)) by {
                if acc_has(r.balances@, a) {
                    let i = acc_at(r.balances@, a);
                }
                if a == caller {
                    assert(r.balances@[0].0 == a);
                }
            }
            assert forall|a: u128| acc_has(r.balances@, a) implies
                acc_map(r.balances@)[a] == init_supply by {
                lemma_acc_index(r.balances@, 0);
            }
            assert(r@.balances =~= Map::<u128, u128>::empty().insert(caller, init_supply));
        }
        r
    }

    /// Create the ledger with the maximum representable supply.
    pub fn default(caller: u128) -> (r: Self)
        ensures
            r.wf(),
            r@.total == u128::MAX,
            r@.balances == Map::<u128, u128>::empty().insert(caller, u128::MAX),
            r@.allowances == Map::<(u128, u128), u128>::empty(),
    {
        Erc20::new(caller, u128::MAX)
    }

    /// Index of the entry belonging to `a`, if any.
    fn find_acc(&self, a: u128) -> (r: Option<usize>)
        requires
            acc_distinct(self.balances@),
        ensures
            match r {
                Some(i) => i < self.balances@.len() && self.balances@[i as int].0 == a
                    && acc_at(self.balances@, a) == i as int
                    && self@.balances.contains_key(a)
                    && self@.balances[a] == self.balances@[i as int].1,
                None => !self@.balances.contains_key(a),
            },
    {
        let n = self.balances.len();
        let mut i: usize = 0;
        while i < n
            invariant
                acc_distinct(self.balances@),
                n == self.balances@.len(),
                0 <= i <= n,
                forall|j: int| 0 <= j < i ==> #[trigger] self.balances@[j].0 != a,
            decreases n - i,
        {
            if self.balances[i].0 == a {
                proof {
                    lemma_acc_index(self.balances@, i as int);
                }
                return Some(i);
            }
            i += 1;
        }
        proof {
            assert(!acc_has(self.balances@, a));
        }
        None
    }

    /// Balance of `owner`; 0 when nothing was ever recorded.
    pub fn balance_of(&self, owner: u128) -> (r: u128)
        requires
            self.wf(),
        ensures
            r == bal20(self@, owner),
    {
        match self.find_acc(owner) {
            Some(i) => self.balances[i].1,
            None => 0,
        }
    }

    /// The fixed total supply.
    pub fn total_supply(&self) -> (r: u128)
        requires
            self.wf(),
        ensures
            r == self@.total,
    {
        self.total_supply
    }

    /// Remaining allowance of `spender` over `owner`'s balance.
    pub fn allowance(&self, owner: u128, spender: u128) -> (r: u128)
        requires
            self.wf(),
        ensures
            r == allowance20(self@, owner, spender),
    {
        match self.allowance.get(owner, spender) {
            Some(v) => *v,
            None => 0,
        }
    }

    /// Write `a`'s balance, keeping one entry per account.
    fn set_balance(&mut self, a: u128, v: u128)
        requires
            acc_distinct(old(self).balances@),
        ensures
            acc_distinct(final(self).balances@),
            acc_map(final(self).balances@) == acc_map(old(self).balances@).insert(a, v),
            sum_balances(final(self).balances@) == sum_balances(old(self).balances@)
                - bal20(old(self)@, a) + v,
            final(self).total_supply == old(self).total_supply,
            final(self).allowance == old(self).allowance,
    {
        let ghost s0 = self.balances@;
        match self.find_acc(a) {
            Some(i) => {
                self.balances[i] = (a, v);
                proof {
                    let s1 = self.balances@;
                    assert(s1 == s0.update(i as int, (a, v)));
                    assert(s0[i as int].0 == a);
                    lemma_sum_update(s0, i as int, v);
                    assert forall|p: int, q: int| 0 <= p < q < s1.len() implies
                        s1[p].0 != s1[q].0 by {
                        assert(s0[p].0 != s0[q].0);
                    }
                    assert forall|x: u128| true implies
                        (acc_has(s1, x) == acc_map(s0).insert(a, v).dom().contains(x)) by {
                        if x == a {
                            assert(s1[i as int].0 == x);
                            assert(acc_has(s1, x));
                        } else {
                            if acc_has(s1, x) {
                                let j = acc_at(s1, x);
                                assert(s0[j].0 == x);
                                assert(acc_has(s0, x));
                            }
                            if acc_has(s0, x) {
                                let j = acc_at(s0, x);
                                assert(j != i as int);
                                assert(s1[j].0 == x);
                                assert(acc_has(s1, x));
                            }
                        }
                    }
                    assert forall|x: u128| acc_has(s1, x) implies
                        acc_map(s1)[x] == acc_map(s0).insert(a, v)[x] by {
                        if x == a {
                            lemma_acc_index(s1, i as int);
                        } else {
                            let j = acc_at(s1, x);
                            assert(0 <= j < s1.len() && s1[j].0 == x);
                            assert(j != i as int);
                            lemma_acc_index(s1, j);
                            lemma_acc_index(s0, j);
                        }
                    }
                    assert(acc_map(s1) =~= acc_map(s0).insert(a, v));
                }
            },
            None => {
                self.balances.push((a, v));
                proof {
                    let s1 = self.balances@;
                    assert(s1 == s0.push((a, v)));
                    lemma_sum_push(s0, a, v);
                    assert forall|p: int, q: int| 0 <= p < q < s1.len() implies
                        s1[p].0 != s1[q].0 by {
                        if q == s1.len() - 1 {
                            assert(s1[p] == s0[p]);
                            assert(acc_has(s0, s0[p].0));
                        } else {
                            assert(s0[p].0 != s0[q].0);
                        }
                    }
                    assert forall|x: u128| true implies
                        (acc_has(s1, x) == acc_map(s0).insert(a, v).dom().contains(x)) by {
                        if x == a {
                            assert(s1[s1.len() - 1].0 == x);
                            assert(acc_has(s1, x));
                        } else {
                            if acc_has(s1, x) {
                                let j = acc_at(s1, x);
                                assert(j != s1.len() - 1);
                                assert(s0[j].0 == x);
                                assert(acc_has(s0, x));
                            }
                            if acc_has(s0, x) {
                                let j = acc_at(s0, x);
                                assert(s1[j].0 == x);
                                assert(acc_has(s1, x));
                            }
                        }
                    }
                    assert forall|x: u128| acc_has(s1, x) implies
                        acc_map(s1)[x] == acc_map(s0).insert(a, v)[x] by {
                        if x == a {
                            lemma_acc_index(s1, s1.len() - 1);
                        } else {
                            let j = acc_at(s1, x);
                            assert(0 <= j < s1.len() && s1[j].0 == x);
                            assert(j != s1.len() - 1);
                            lemma_acc_index(s1, j);
                            lemma_acc_index(s0, j);
                        }
                    }
                    assert(acc_map(s1) =~= acc_map(s0).insert(a, v));
                }
            },
        }
    }

    /// Move `value` between two distinct accounts.  The credit cannot
    /// overflow: both balances are bounded by the fixed total supply.
    fn move_balance(&mut self, from: u128, to: u128, value: u128) -> (r: Result<(), Error>)
        requires
            old(self).wf(),
            from != to,
        ensures
            final(self).wf(),
            match r {
                Ok(u) => move20(old(self)@, from, to, value) == Ok::<Erc20V, Error>(final(self)@),
                Err(e) => move20(old(self)@, from, to, value) == Err::<Erc20V, Error>(e)
                    && final(self)@ == old(self)@,
            },
    {
        let ghost v0 = self@;
        let ghost s0 = self.balances@;
        let bf = self.balance_of(from);
        if bf < value {
            return Err(Error::InsufficientBalance);
        }
        let bt = self.balance_of(to);
        proof {
            // The credited balance stays within the total supply.
            if value > 0 {
                assert(acc_has(s0, from));
                let i = acc_at(s0, from);
                assert(s0[i].0 == from && s0[i].1 == bf);
                if acc_has(s0, to) {
                    let j = acc_at(s0, to);
                    assert(s0[j].0 == to && s0[j].1 == bt);
                    assert(i != j);
                    if i < j {
                        lemma_sum_two_entries(s0, i, j);
                    } else {
                        lemma_sum_two_entries(s0, j, i);
                    }
                } else {
                    lemma_sum_entry_bound(s0, i);
                }
            }
            assert(bt + value <= u128::MAX);
        }
        self.set_balance(from, bf - value);
        self.set_balance(to, bt + value);
        proof {
            assert(self@ =~= (Erc20V {
                balances: v0.balances
                    .insert(from, (bal20(v0, from) - value) as u128)
                    .insert(to, (bal20(v0, to) + value) as u128),
                ..v0
            }));
        }
        Ok(())
    }

    /// Transfer out of the caller's own balance.
    pub fn transfer(&mut self, caller: u128, to: u128, value: u128) -> (r: Result<Transfer, Error>)
        requires
            old(self).wf(),
        ensures
            final(self).wf(),
            match r {
                Ok(ev) => transfer_spec(old(self)@, caller, to, value)
                    == Ok::<Erc20V, Error>(final(self)@)
                    && ev == (Transfer { from: Some(caller), to: Some(to), value }),
                Err(e) => transfer_spec(old(self)@, caller, to, value)
                    == Err::<Erc20V, Error>(e)
                    && final(self)@ == old(self)@,
            },
    {
        if caller == to {
            return Err(Error::AttemptingSelfTransfer);
        }
        match self.move_balance(caller, to, value) {
            Ok(_) => Ok(Transfer { from: Some(caller), to: Some(to), value }),
            Err(e) => Err(e),
        }
    }

    /// Third-party transfer: the caller spends its allowance from `from`.
    pub fn transfer_from(&mut self, caller: u128, from: u128, to: u128, value: u128) -> (r: Result<Transfer, Error>)
        requires
            old(self).wf(),
        ensures
            final(self).wf(),
            match r {
                Ok(ev) => transfer_from_spec(old(self)@, caller, from, to, value)
                    == Ok::<Erc20V, Error>(final(self)@)
                    && ev == (Transfer { from: Some(from), to: Some(to), value }),
                Err(e) => transfer_from_spec(old(self)@, caller, from, to, value)
                    == Err::<Erc20V, Error>(e)
                    && final(self)@ == old(self)@,
            },
    {
        let ghost v0 = self@;
        if from == to {
            return Err(Error::AttemptingSelfTransfer);
        }
        let allowed = self.allowance(from, caller);
        if allowed < value {
            return Err(Error::InsufficientAllowance);
        }
        match self.move_balance(from, to, value) {
            Ok(_) => {},
            Err(e) => {
                return Err(e);
            },
        }
        self.allowance.insert(from, caller, allowed - value);
        proof {
            match move20(v0, from, to, value) {
                Ok(v1) => {
                    assert(self@ =~= (Erc20V {
                        allowances: v1.allowances.insert(
                            (from, caller),
                            (allowance20(v0, from, caller) - value) as u128,
                        ),
                        ..v1
                    }));
                },
                Err(_) => {
                    assert(false);
                },
            }
        }
        Ok(Transfer { from: Some(from), to: Some(to), value })
    }

    /// Grant `spender` an allowance, bounded by the caller's balance.
    pub fn approve(&mut self, caller: u128, spender: u128, value: u128) -> (r: Result<Approval, Error>)
        requires
            old(self).wf(),
        ensures
            final(self).wf(),
            match r {
                Ok(ev) => approve_spec(old(self)@, caller, spender, value)
                    == Ok::<Erc20V, Error>(final(self)@)
                    && ev == (Approval { owner: caller, spender, value }),
                Err(e) => approve_spec(old(self)@, caller, spender, value)
                    == Err::<Erc20V, Error>(e)
                    && final(self)@ == old(self)@,
            },
    {
        let ghost v0 = self@;
        if caller == spender {
            return Err(Error::AttemptingSelfAllowance);
        }
        if self.balance_of(caller) < value {
            return Err(Error::InsufficientBalance);
        }
        self.allowance.insert(caller, spender, value);
        proof {
            assert(self@ =~= (Erc20V {
                allowances: v0.allowances.insert((caller, spender), value),
                ..v0
            }));
        }
        Ok(Approval { owner: caller, spender, value })
    }
}

/// Any two accounts' balances together never exceed the fixed total
/// supply: the whole supply only ever gets redistributed, which is also
/// why crediting a balance can never overflow.
pub proof fn lemma_balances_within_supply(c: &Erc20, a: u128, b: u128)
    requires
        c.wf(),
        a != b,
    ensures
        bal20(c@, a) + bal20(c@, b) <= c@.total,
{
    let s = c.balances@;
    if acc_has(s, a) {
        let i = acc_at(s, a);
        lemma_acc_index(s, i);
        if acc_has(s, b) {
            let j = acc_at(s, b);
            lemma_acc_index(s, j);
            if i < j {
                lemma_sum_two_entries(s, i, j);
            } else {
                lemma_sum_two_entries(s, j, i);
            }
        } else {
            lemma_sum_entry_bound(s, i);
        }
    } else if acc_has(s, b) {
        let j = acc_at(s, b);
        lemma_acc_index(s, j);
        lemma_sum_entry_bound(s, j);
    } else {
        lemma_sum_nonneg(s);
    }
}

/// Conservation: a transfer leaves the sum of the two parties' balances
/// unchanged and touches no other account.
pub proof fn lemma_erc20_conservation(v: Erc20V, v2: Erc20V, from: u128, to: u128, value: u128)
    requires
        from != to,
        bal20(v, to) + value <= u128::MAX,
        move20(v, from, to, value) == Ok::<Erc20V, Error>(v2),
    ensures
        bal20(v2, from) == bal20(v, from) - value,
        bal20(v2, to) == bal20(v, to) + value,
        bal20(v2, from) + bal20(v2, to) == bal20(v, from) + bal20(v, to),
        forall|a: u128| a != from && a != to ==> #[trigger] bal20(v2, a) == bal20(v, a),
{
}

} // verus!

//! The game-currency companion ledger: one fungible currency bought from a
//! pre-funded pool, and bare non-fungible markers minted one per new id.
//!
//! A balance entry either carries a fungible amount or marks ownership of
//! a non-fungible token; mixing the two is reported as an inconsistency.

use vstd::prelude::*;
use crate::pair_map::PairMap;

verus! {

/// Failures an operation can report.
#[derive(Debug, PartialEq, Eq, Structural, Clone, Copy)]
pub enum Error {
    StorageInconsistency,
    OperationInconsistency,
    Overflow,
    Underflow,
    NotEnough,
    TooMuch,
}

/// What a balance entry holds: a marker for a non-fungible token, or a
/// fungible amount.
#[derive(Debug, PartialEq, Eq, Structural, Clone, Copy)]
pub enum TokenBalanceOption {
    NonFungible,
    Amount(u64),
}

impl vstd::view::DeepView for TokenBalanceOption {
    type V = TokenBalanceOption;

    open spec fn deep_view(&self) -> TokenBalanceOption {
        *self
    }
}

impl crate::pair_map::DeepCopy for TokenBalanceOption {
    fn deep_copy(&self) -> (r: Self)
        ensures
            r.deep_view() == self.deep_view(),
    {
        *self
    }
}

/// Abstract value of an approval entry.
pub enum ApprovalOptionV {
    Limited(Seq<u64>),
    All,
}

/// Breadth of an approval: the listed token ids, or everything.
pub enum ApprovalOption {
    Limited(Vec<u64>),
    All,
}

impl vstd::view::DeepView for ApprovalOption {
    type V = ApprovalOptionV;

    open spec fn deep_view(&self) -> ApprovalOptionV {
        match self {
            ApprovalOption::Limited(v) => ApprovalOptionV::Limited(v@),
            ApprovalOption::All => ApprovalOptionV::All,
        }
    }
}

/// The fungible game currency's token id.
pub const GAME_CURRENCY_ID: u64 = 0;

/// Currency credited to the pool at creation.
pub const GAME_CURRENCY_INITIAL_AMOUNT: u64 = 10_000_000_000_000_000_000;

/// Abstract state of the game ledger.
#[verifier::ext_equal]
pub struct GameV {
    pub founder: u128,
    pub pool_account: u128,
    pub variety: u64,
    pub balances: Map<(u128, u128), TokenBalanceOption>,
    pub approvals: Map<(u128, u128), ApprovalOptionV>,
}

/// What the pool still holds, when its entry is intact.
pub open spec fn pool_spec(v: GameV) -> Result<u64, Error> {
    if !v.balances.contains_key((v.pool_account, GAME_CURRENCY_ID as u128)) {
        Err(Error::StorageInconsistency)
    } else {
        match v.balances[(v.pool_account, GAME_CURRENCY_ID as u128)] {
            TokenBalanceOption::NonFungible => Err(Error::StorageInconsistency),
            TokenBalanceOption::Amount(b) => Ok(b),
        }
    }
}

/// Move a fungible amount of the currency, or hand over a non-fungible
/// marker.  Currency moves are checked against underflow and overflow and
/// are a no-op when the two accounts coincide; a marker simply changes
/// owner.
pub open spec fn game_transfer_spec(
    v: GameV,
    t: u64,
    from: u128,
    to: u128,
    amount: TokenBalanceOption,
) -> Result<GameV, Error> {
    if t == GAME_CURRENCY_ID {
        match amount {
            TokenBalanceOption::NonFungible => Err(Error::OperationInconsistency),
            TokenBalanceOption::Amount(mv) => {
                let kf = (from, t as u128);
                let kt = (to, t as u128);
                if !v.balances.contains_key(kf) {
                    Err(Error::OperationInconsistency)
                } else {
                    match v.balances[kf] {
                        TokenBalanceOption::NonFungible => Err(Error::StorageInconsistency),
                        TokenBalanceOption::Amount(b) => {
                            if b < mv {
                                Err(Error::Underflow)
                            } else if v.balances.contains_key(kt)
                                && v.balances[kt] is NonFungible {
                                Err(Error::StorageInconsistency)
                            } else if from == to {
                                Ok(v)
                            } else {
                                let b2 = if v.balances.contains_key(kt) {
                                    v.balances[kt]->Amount_0
                                } else {
                                    0
                                };
                                if b2 + mv > u64::MAX {
                                    Err(Error::Overflow)
                                } else {
                                    Ok(GameV {
                                        balances: v.balances
                                            .insert(kf, TokenBalanceOption::Amount((b - mv) as u64))
                                            .insert(kt, TokenBalanceOption::Amount((b2 + mv) as u64)),
                                        ..v
                                    })
                                }
                            }
                        },
                    }
                }
            },
        }
    } else {
        Ok(GameV {
            balances: v.balances
                .remove((from, t as u128))
                .insert((to, t as u128), TokenBalanceOption::NonFungible),
            ..v
        })
    }
}

/// State after buying `amount` currency from the pool: the attached
/// payment must cover it and the pool must hold it.
pub open spec fn buy_game_currency_spec(
    v: GameV,
    caller: u128,
    transferred_value: u128,
    amount: u64,
) -> Result<GameV, Error> {
    if transferred_value < amount as u128 {
        Err(Error::NotEnough)
    } else {
        match pool_spec(v) {
            Err(e) => Err(e),
            Ok(max) => {
                if amount > max {
                    Err(Error::TooMuch)
                } else {
                    game_transfer_spec(v, GAME_CURRENCY_ID, v.pool_account, caller, TokenBalanceOption::Amount(amount))
                }
            },
        }
    }
}

/// State and new id after minting: the next id is assigned to the caller
/// as a non-fungible marker.
pub open spec fn game_mint_spec(v: GameV, caller: u128) -> Result<(GameV, u64), Error> {
    if v.variety == u64::MAX {
        Err(Error::Overflow)
    } else {
        let next = (v.variety + 1) as u64;
        Ok(
            (
                GameV {
                    variety: next,
                    balances: v.balances.insert((caller, next as u128), TokenBalanceOption::NonFungible),
                    ..v
                },
                next,
            ),
        )
    }
}

/// Internal consistency: ids ever assigned start at 1, currency entries
/// carry amounts, and the pool's currency entry exists.
pub open spec fn game_wf(v: GameV) -> bool {
    &&& v.variety >= 1
    &&& v.balances.contains_key((v.pool_account, GAME_CURRENCY_ID as u128))
    &&& forall|k: (u128, u128)| #[trigger] v.balances.contains_key(k) && k.1 == GAME_CURRENCY_ID as u128
        ==> v.balances[k] is Amount
}

/// The game ledger.
pub struct GameContract {
    founder: u128,
    pool_account: u128,
    token_variety: u64,
    balances: PairMap<TokenBalanceOption>,
    approvals: PairMap<ApprovalOption>,
}

impl View for GameContract {
    type V = GameV;

    closed spec fn view(&self) -> GameV {
        GameV {
            founder: self.founder,
            pool_account: self.pool_account,
            variety: self.token_variety,
            balances: self.balances@,
            approvals: self.approvals@,
        }
    }
}

impl GameContract {
    /// The concrete tables are well-formed and the state is consistent.
    pub closed spec fn wf(&self) -> bool {
        &&& self.balances.wf()
        &&& self.approvals.wf()
        &&& game_wf(self@)
    }

    /// Create the ledger with the initial currency supply in the pool.
    pub fn new(founder: u128, pool_account: u128) -> (r: Self)
        ensures
            r.wf(),
            r@.founder == founder,
            r@.pool_account == pool_account,
            r@.variety == 1,
            r@.balances == Map::<(u128, u128), TokenBalanceOption>::empty().insert(
                (pool_account, GAME_CURRENCY_ID as u128),
                TokenBalanceOption::Amount(GAME_CURRENCY_INITIAL_AMOUNT),
            ),
            r@.approvals == Map::<(u128, u128), ApprovalOptionV>::empty(),
    {
        let mut balances: PairMap<TokenBalanceOption> = PairMap::new();
        balances.insert(
            pool_account,
            GAME_CURRENCY_ID as u128,
            TokenBalanceOption::Amount(GAME_CURRENCY_INITIAL_AMOUNT),
        );
        GameContract {
            founder,
            pool_account,
            token_variety: 1,
            balances,
            approvals: PairMap::new(),
        }
    }

    /// Currency still held by the pool.
    pub fn remained_currency_pool(&self) -> (r: Result<u64, Error>)
        requires
            self.wf(),
        ensures
            r == pool_spec(self@),
            r is Ok,
    {
        match self.balances.get(self.pool_account, GAME_CURRENCY_ID as u128) {
            None => Err(Error::StorageInconsistency),
            Some(b) => match b {
                TokenBalanceOption::NonFungible => Err(Error::StorageInconsistency),
                TokenBalanceOption::Amount(n) => Ok(*n),
            },
        }
    }

    /// Buy `amount` currency from the pool at a one-to-one rate;
    /// `transferred_value` is the outside payment attached to the call.
    pub fn buy_game_currency(&mut self, caller: u128, transferred_value: u128, amount: u64) -> (r: Result<(), Error>)
        requires
            old(self).wf(),
        ensures
            final(self).wf(),
            match r {
                Ok(u) => buy_game_currency_spec(old(self)@, caller, transferred_value, amount)
                    == Ok::<GameV, Error>(final(self)@),
                Err(e) => buy_game_currency_spec(old(self)@, caller, transferred_value, amount)
                    == Err::<GameV, Error>(e)
                    && final(self)@ == old(self)@,
            },
    {
        if transferred_value < amount as u128 {
            return Err(Error::NotEnough);
        }
        let max = match self.remained_currency_pool() {
            Ok(m) => m,
            Err(e) => {
                return Err(e);
            },
        };
        if amount > max {
            return Err(Error::TooMuch);
        }
        let pool = self.pool_account;
        self.do_transfer_token(GAME_CURRENCY_ID, pool, caller, TokenBalanceOption::Amount(amount))
    }

    /// Mint the next non-fungible id for `caller`.
    pub fn mint(&mut self, caller: u128) -> (r: Result<u64, Error>)
        requires
            old(self).wf(),
        ensures
            final(self).wf(),
            match r {
                Ok(id) => game_mint_spec(old(self)@, caller)
                    == Ok::<(GameV, u64), Error>((final(self)@, id)),
                Err(e) => game_mint_spec(old(self)@, caller) == Err::<(GameV, u64), Error>(e)
                    && final(self)@ == old(self)@,
            },
    {
        let ghost v0 = self@;
        if self.token_variety == u64::MAX {
            return Err(Error::Overflow);
        }
        let next = self.token_variety + 1;
        self.balances.insert(caller, next as u128, TokenBalanceOption::NonFungible);
        self.token_variety = next;
        proof {
            match game_mint_spec(v0, caller) {
                Ok((v2, id)) => {
                    assert(self@ =~= v2);
                    assert forall|k: (u128, u128)| #[trigger] self@.balances.contains_key(k)
                        && k.1 == GAME_CURRENCY_ID as u128 implies self@.balances[k] is Amount by {
                        assert(k != (caller, next as u128));
                        assert(v0.balances.contains_key(k));
                    }
                },
                Err(_) => {
                    assert(false);
                },
            }
        }
        Ok(next)
    }

    /// Move currency or hand over a non-fungible marker; see
    /// [`game_transfer_spec`].  The whole move is checked before anything
    /// is written, so a failure leaves no partial effect.
    fn do_transfer_token(
        &mut self,
        token_id: u64,
        from: u128,
        to: u128,
        amount: TokenBalanceOption,
    ) -> (r: Result<(), Error>)
        requires
            old(self).wf(),
        ensures
            final(self).wf(),
            match r {
                Ok(u) => game_transfer_spec(old(self)@, token_id, from, to, amount)
                    == Ok::<GameV, Error>(final(self)@),
                Err(e) => game_transfer_spec(old(self)@, token_id, from, to, amount)
                    == Err::<GameV, Error>(e)
                    && final(self)@ == old(self)@,
            },
    {
        let ghost v0 = self@;
        if token_id == GAME_CURRENCY_ID {
            let mv = match amount {
                TokenBalanceOption::NonFungible => {
                    return Err(Error::OperationInconsistency);
                },
                TokenBalanceOption::Amount(b) => b,
            };
            let b = match self.balances.get(from, token_id as u128) {
                None => {
                    return Err(Error::OperationInconsistency);
                },
                Some(TokenBalanceOption::NonFungible) => {
                    return Err(Error::StorageInconsistency);
                },
                Some(TokenBalanceOption::Amount(b)) => *b,
            };
            if b < mv {
                return Err(Error::Underflow);
            }
            let b2 = match self.balances.get(to, token_id as u128) {
                None => 0,
                Some(TokenBalanceOption::NonFungible) => {
                    return Err(Error::StorageInconsistency);
                },
                Some(TokenBalanceOption::Amount(b2)) => *b2,
            };
            if from == to {
                return Ok(());
            }
            if b2 > u64::MAX - mv {
                return Err(Error::Overflow);
            }
            self.balances.insert(from, token_id as u128, TokenBalanceOption::Amount(b - mv));
            self.balances.insert(to, token_id as u128, TokenBalanceOption::Amount(b2 + mv));
            proof {
                match game_transfer_spec(v0, token_id, from, to, amount) {
                    Ok(v2) => {
                        assert(self@ =~= v2);
                        assert forall|k: (u128, u128)| #[trigger] self@.balances.contains_key(k)
                            && k.1 == GAME_CURRENCY_ID as u128 implies self@.balances[k] is Amount by {
                            if k != (from, token_id as u128) && k != (to, token_id as u128) {
                                assert(v0.balances.contains_key(k));
                            }
                        }
                    },
                    Err(_) => {
                        assert(false);
                    },
                }
            }
            Ok(())
        } else {
            self.balances.remove(from, token_id as u128);
            self.balances.insert(to, token_id as u128, TokenBalanceOption::NonFungible);
            proof {
                match game_transfer_spec(v0, token_id, from, to, amount) {
                    Ok(v2) => {
                        assert(self@ =~= v2);
                        assert(self@.balances.contains_key((self@.pool_account, GAME_CURRENCY_ID as u128)));
                        assert forall|k: (u128, u128)| #[trigger] self@.balances.contains_key(k)
                            && k.1 == GAME_CURRENCY_ID as u128 implies self@.balances[k] is Amount by {
                            assert(k != (to, token_id as u128));
                            assert(v0.balances.contains_key(k));
                        }
                    },
                    Err(_) => {
                        assert(false);
                    },
                }
            }
            Ok(())
        }
    }
}

} // verus!

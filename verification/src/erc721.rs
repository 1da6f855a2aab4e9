//! The collectible-only companion ledger: uniquely named tokens gated by a
//! secret phrase.
//!
//! A token is named by the digest of its generation string, owned by
//! exactly one account, and guarded by the digest of a phrase: changing
//! hands, burning or re-phrasing a token needs the current phrase.  An
//! integer count per account mirrors how many tokens it holds.

use vstd::prelude::*;
use crate::pair_map::{PairMap, u128_list_contains, copy_u128_list};
use crate::byte_map::ByteMap;
use crate::hashing::{identity_of, seed_identity, lemma_bytes_deep_view, lemma_u128s_deep_view};

verus! {

/// Failures an operation can report.
#[derive(Debug, PartialEq, Eq, Structural, Clone, Copy)]
pub enum Error {
    ReachingMax,
    ReachingMin,
    StorageDataInconsistency,
    TokenAlreadyExists,
    TokenNotFound,
    NotTokenOwner,
    NotApproved,
    ApproveForSelf,
    TrasnferToSelf,
    AccountToBurn,
    NotEnoughFee,
    FounderOnly,
    NotEnoughBalance,
}

/// Record of one custody change, handed back for notification.
#[derive(Debug, PartialEq, Eq)]
pub struct Transfer {
    pub from: Option<u128>,
    pub to: Option<u128>,
    pub id: Vec<u8>,
}

/// Record of one per-token approval grant.
#[derive(Debug, PartialEq, Eq)]
pub struct Approval {
    pub from: u128,
    pub to: u128,
    pub id: Vec<u8>,
}

/// Record of a whole-collection approval toggle.
#[derive(Debug, PartialEq, Eq, Clone, Copy)]
pub struct ApprovalForAll {
    pub from: u128,
    pub to: u128,
    pub approved: bool,
}

/// Fee, in attached payment units, for minting a token.
pub const MINT_FEE: u128 = 100;

/// Fee for burning a token.
pub const BURN_FEE: u128 = 100;

/// Fee for transferring a token.
pub const TRANSFER_FEE: u128 = 100;

/// Abstract state of the collectible ledger.
#[verifier::ext_equal]
pub struct Erc721V {
    /// Account that deployed the ledger; the only one allowed to collect
    /// the funds it accumulated.
    pub founder: u128,
    /// The null account, standing for creation and destruction.
    pub burn_account: u128,
    /// Owner per token id.
    pub owners: Map<Seq<u8>, u128>,
    /// Secret-phrase digest per token id.
    pub secrets: Map<Seq<u8>, Seq<u8>>,
    /// Mirrored number of tokens held per account.
    pub counts: Map<u128, u32>,
    /// Accounts approved per token id.
    pub approvals: Map<Seq<u8>, Seq<u128>>,
    /// Whole-collection delegations, keyed by (owner, operator).
    pub operator_approvals: Map<(u128, u128), bool>,
}

/// Mirrored count of `a`; 0 when nothing was ever recorded.
pub open spec fn count_of(v: Erc721V, a: u128) -> u32 {
    if v.counts.contains_key(a) {
        v.counts[a]
    } else {
        0
    }
}

/// Accounts approved for token `id`; empty when none were.
pub open spec fn approved_of(v: Erc721V, id: Seq<u8>) -> Seq<u128> {
    if v.approvals.contains_key(id) {
        v.approvals[id]
    } else {
        Seq::empty()
    }
}

/// Whether `operator` holds a whole-collection delegation from `owner`.
pub open spec fn operator_approved(v: Erc721V, owner: u128, operator: u128) -> bool {
    v.operator_approvals.contains_key((owner, operator))
}

/// Whether `operator` may move token `id` of `owner`: a delegation over
/// the whole collection, or a per-token approval.
pub open spec fn is_approved_721(v: Erc721V, owner: u128, id: Seq<u8>, operator: u128) -> bool {
    operator_approved(v, owner, operator) || approved_of(v, id).contains(operator)
}

/// The owner-and-phrase gate shared by the phrase-guarded operations:
/// which error, if any, stops `caller` from acting on the token of `gen`
/// with `phrase`.
pub open spec fn gate_check(v: Erc721V, caller: u128, gen: Seq<char>, phrase: Seq<char>) -> Result<(), Error> {
    let id = identity_of(gen);
    if !v.owners.contains_key(id) {
        Err(Error::TokenNotFound)
    } else if v.owners[id] != caller {
        Err(Error::NotTokenOwner)
    } else if !v.secrets.contains_key(id) {
        Err(Error::StorageDataInconsistency)
    } else if v.secrets[id] != identity_of(phrase) {
        Err(Error::NotTokenOwner)
    } else {
        Ok(())
    }
}

/// State after minting: the token of `gen` must be new, its id not yet
/// used as a phrase digest key, and the caller's count must have room.
pub open spec fn mint_spec(v: Erc721V, caller: u128, paid: u128, gen: Seq<char>, phrase: Seq<char>) -> Result<Erc721V, Error> {
    if caller == v.burn_account {
        Err(Error::AccountToBurn)
    } else if paid < MINT_FEE {
        Err(Error::NotEnoughFee)
    } else {
        let id = identity_of(gen);
        let secret = identity_of(phrase);
        if v.owners.contains_key(id) {
            Err(Error::TokenAlreadyExists)
        } else if v.secrets.contains_key(secret) {
            Err(Error::StorageDataInconsistency)
        } else if count_of(v, caller) == u32::MAX {
            Err(Error::ReachingMax)
        } else {
            Ok(Erc721V {
                owners: v.owners.insert(id, caller),
                secrets: v.secrets.insert(id, secret),
                counts: v.counts.insert(caller, (count_of(v, caller) + 1) as u32),
                ..v
            })
        }
    }
}

/// State after burning: the phrase-gated token disappears together with
/// its secret and approvals, and the owner's count shrinks.
pub open spec fn burn_spec(v: Erc721V, caller: u128, paid: u128, gen: Seq<char>, phrase: Seq<char>) -> Result<Erc721V, Error> {
    let id = identity_of(gen);
    match gate_check(v, caller, gen, phrase) {
        Err(e) => Err(e),
        Ok(u) => {
            if paid < BURN_FEE {
                Err(Error::NotEnoughFee)
            } else if !v.counts.contains_key(caller) {
                Err(Error::StorageDataInconsistency)
            } else if v.counts[caller] == 0 {
                Err(Error::ReachingMin)
            } else {
                Ok(Erc721V {
                    owners: v.owners.remove(id),
                    secrets: v.secrets.remove(id),
                    counts: v.counts.insert(caller, (v.counts[caller] - 1) as u32),
                    approvals: v.approvals.remove(id),
                    ..v
                })
            }
        },
    }
}

/// State after replacing the phrase of a token the caller owns.
pub open spec fn change_phrase_spec(v: Erc721V, caller: u128, gen: Seq<char>, current_phrase: Seq<char>, new_phrase: Seq<char>) -> Result<Erc721V, Error> {
    let id = identity_of(gen);
    match gate_check(v, caller, gen, current_phrase) {
        Err(e) => Err(e),
        Ok(u) => Ok(Erc721V { secrets: v.secrets.insert(id, identity_of(new_phrase)), ..v }),
    }
}

/// Move token `id` from `from` to `to`: its approvals are dropped, the
/// counts shift by one, and `to` becomes the owner.
pub open spec fn move_token_spec(v: Erc721V, from: u128, to: u128, id: Seq<u8>) -> Result<Erc721V, Error> {
    if !v.counts.contains_key(from) {
        Err(Error::StorageDataInconsistency)
    } else if v.counts[from] == 0 {
        Err(Error::ReachingMin)
    } else if count_of(v, to) == u32::MAX {
        Err(Error::ReachingMax)
    } else {
        Ok(Erc721V {
            owners: v.owners.insert(id, to),
            counts: v.counts
                .insert(from, (v.counts[from] - 1) as u32)
                .insert(to, (count_of(v, to) + 1) as u32),
            approvals: v.approvals.remove(id),
            ..v
        })
    }
}

/// State after the owner transfers its phrase-gated token.
pub open spec fn transfer_spec(v: Erc721V, caller: u128, paid: u128, to: u128, gen: Seq<char>, phrase: Seq<char>) -> Result<Erc721V, Error> {
    let id = identity_of(gen);
    match gate_check(v, caller, gen, phrase) {
        Err(e) => Err(e),
        Ok(u) => {
            if caller == to {
                Err(Error::TrasnferToSelf)
            } else if to == v.burn_account {
                Err(Error::AccountToBurn)
            } else if paid < TRANSFER_FEE {
                Err(Error::NotEnoughFee)
            } else {
                move_token_spec(v, caller, to, id)
            }
        },
    }
}

/// State after a third-party transfer: the caller must be the owner or
/// approved for the token, and no phrase is needed.
pub open spec fn transfer_from_spec(v: Erc721V, caller: u128, paid: u128, from: u128, to: u128, gen: Seq<char>) -> Result<Erc721V, Error> {
    let id = identity_of(gen);
    if !v.owners.contains_key(id) {
        Err(Error::TokenNotFound)
    } else if v.owners[id] != from {
        Err(Error::StorageDataInconsistency)
    } else if caller != from && !is_approved_721(v, from, id, caller) {
        Err(Error::NotApproved)
    } else if from == to {
        Err(Error::TrasnferToSelf)
    } else if to == v.burn_account {
        Err(Error::AccountToBurn)
    } else if paid < TRANSFER_FEE {
        Err(Error::NotEnoughFee)
    } else {
        move_token_spec(v, from, to, id)
    }
}

/// State after recording a per-token approval; an already-listed account
/// leaves the state unchanged.
pub open spec fn approve_spec(v: Erc721V, caller: u128, to: u128, gen: Seq<char>, phrase: Seq<char>) -> Result<Erc721V, Error> {
    let id = identity_of(gen);
    match gate_check(v, caller, gen, phrase) {
        Err(e) => Err(e),
        Ok(u) => {
            if to == v.burn_account {
                Err(Error::AccountToBurn)
            } else if to == caller {
                Err(Error::ApproveForSelf)
            } else if approved_of(v, id).contains(to) {
                Ok(v)
            } else {
                Ok(Erc721V { approvals: v.approvals.insert(id, approved_of(v, id).push(to)), ..v })
            }
        },
    }
}

/// Check one sequence of (generation, phrase) pairs against the stored
/// secrets.
pub open spec fn check_pairs(v: Erc721V, pairs: Seq<(Seq<char>, Seq<char>)>) -> Result<(), Error>
    decreases pairs.len(),
{
    if pairs.len() == 0 {
        Ok(())
    } else {
        let id = identity_of(pairs[0].0);
        if !v.secrets.contains_key(id) {
            Err(Error::StorageDataInconsistency)
        } else if v.secrets[id] != identity_of(pairs[0].1) {
            Err(Error::NotTokenOwner)
        } else {
            check_pairs(v, pairs.drop_first())
        }
    }
}

/// State after toggling a whole-collection delegation, gated by a list of
/// phrase proofs.
pub open spec fn set_approval_for_all_spec(
    v: Erc721V,
    caller: u128,
    to: u128,
    approved: bool,
    pairs: Seq<(Seq<char>, Seq<char>)>,
) -> Result<Erc721V, Error> {
    if caller == to {
        Err(Error::ApproveForSelf)
    } else {
        match check_pairs(v, pairs) {
            Err(e) => Err(e),
            Ok(u) => {
                if to == v.burn_account || caller == v.burn_account {
                    Err(Error::AccountToBurn)
                } else if approved {
                    Ok(Erc721V {
                        operator_approvals: v.operator_approvals.insert((caller, to), true),
                        ..v
                    })
                } else {
                    Ok(Erc721V {
                        operator_approvals: v.operator_approvals.remove((caller, to)),
                        ..v
                    })
                }
            },
        }
    }
}

/// The collectible ledger.
pub struct Erc721 {
    founder: u128,
    burn_account: u128,
    token_owners: ByteMap<u128>,
    token_secrets: ByteMap<Vec<u8>>,
    owned_tokens_count: PairMap<u32>,
    token_approvals: ByteMap<Vec<u128>>,
    operator_approvals: PairMap<bool>,
}

impl View for Erc721 {
    type V = Erc721V;

    closed spec fn view(&self) -> Erc721V {
        Erc721V {
            founder: self.founder,
            burn_account: self.burn_account,
            owners: self.token_owners@,
            secrets: self.token_secrets@,
            counts: Map::new(
                |a: u128| self.owned_tokens_count@.contains_key((a, 0)),
                |a: u128| self.owned_tokens_count@[(a, 0)],
            ),
            approvals: self.token_approvals@,
            operator_approvals: self.operator_approvals@,
        }
    }
}

impl Erc721 {
    /// The concrete tables are well-formed.
    pub closed spec fn wf(&self) -> bool {
        &&& self.token_owners.wf()
        &&& self.token_secrets.wf()
        &&& self.owned_tokens_count.wf()
        &&& self.token_approvals.wf()
        &&& self.operator_approvals.wf()
    }

    /// Create the ledger; the null account stands for creation and burn.
    pub fn new(founder: u128) -> (r: Self)
        ensures
            r.wf(),
            r@.founder == founder,
            r@.burn_account == 0,
            r@.owners == Map::<Seq<u8>, u128>::empty(),
            r@.secrets == Map::<Seq<u8>, Seq<u8>>::empty(),
            r@.counts == Map::<u128, u32>::empty(),
            r@.approvals == Map::<Seq<u8>, Seq<u128>>::empty(),
            r@.operator_approvals == Map::<(u128, u128), bool>::empty(),
    {
        let r = Erc721 {
            founder,
            burn_account: 0,
            token_owners: ByteMap::new(),
            token_secrets: ByteMap::new(),
            owned_tokens_count: PairMap::new(),
            token_approvals: ByteMap::new(),
            operator_approvals: PairMap::new(),
        };
        proof {
            assert(r@.counts =~= Map::<u128, u32>::empty());
        }
        r
    }

    /// The account that deployed the ledger.
    pub fn founder(&self) -> (r: u128)
        ensures
            r == self@.founder,
    {
        self.founder
    }

    /// Whether `caller` may collect the ledger's accumulated funds, and
    /// how the outcome of the committer's native transfer reads.
    pub fn collect_funded_all(&self, caller: u128, transfer_succeeded: bool) -> (r: Result<(), Error>)
        ensures
            r == (if caller != self@.founder {
                Err::<(), Error>(Error::FounderOnly)
            } else if !transfer_succeeded {
                Err::<(), Error>(Error::NotEnoughBalance)
            } else {
                Ok::<(), Error>(())
            }),
    {
        if caller != self.founder {
            return Err(Error::FounderOnly);
        }
        if !transfer_succeeded {
            return Err(Error::NotEnoughBalance);
        }
        Ok(())
    }

    /// Mirrored number of tokens `owner` holds.
    pub fn balance_of(&self, owner: u128) -> (r: u32)
        requires
            self.wf(),
        ensures
            r == count_of(self@, owner),
    {
        match self.owned_tokens_count.get(owner, 0) {
            Some(c) => *c,
            None => 0,
        }
    }

    /// Owner of the token generated from `gen`, if it exists.
    pub fn owner_of(&self, gen: &str) -> (r: Option<u128>)
        requires
            self.wf(),
        ensures
            match r {
                Some(a) => self@.owners.contains_key(identity_of(gen@))
                    && a == self@.owners[identity_of(gen@)],
                None => !self@.owners.contains_key(identity_of(gen@)),
            },
    {
        let id = seed_identity(gen);
        match self.token_owners.get(&id) {
            Some(a) => Some(*a),
            None => None,
        }
    }

    /// The accounts approved for the token generated from `gen`.
    pub fn get_approved(&self, gen: &str) -> (r: Option<Vec<u128>>)
        requires
            self.wf(),
        ensures
            match r {
                Some(l) => self@.approvals.contains_key(identity_of(gen@))
                    && l@ == self@.approvals[identity_of(gen@)],
                None => !self@.approvals.contains_key(identity_of(gen@)),
            },
    {
        let id = seed_identity(gen);
        match self.token_approvals.get(&id) {
            Some(l) => {
                proof {
                    lemma_u128s_deep_view(*l);
                }
                Some(copy_u128_list(l))
            },
            None => None,
        }
    }

    /// Whether `operator` holds a whole-collection delegation from `owner`.
    pub fn is_approved_for_all(&self, owner: u128, operator: u128) -> (r: bool)
        requires
            self.wf(),
        ensures
            r == operator_approved(self@, owner, operator),
    {
        self.operator_approvals.contains(owner, operator)
    }

    /// Replace the phrase of a token the caller owns, proving the current
    /// one.
    pub fn change_phrase(&mut self, caller: u128, gen: String, current_phrase: String, new_phrase: String) -> (r: Result<(), Error>)
        requires
            old(self).wf(),
        ensures
            final(self).wf(),
            match r {
                Ok(u) => change_phrase_spec(old(self)@, caller, gen@, current_phrase@, new_phrase@)
                    == Ok::<Erc721V, Error>(final(self)@),
                Err(e) => change_phrase_spec(old(self)@, caller, gen@, current_phrase@, new_phrase@)
                    == Err::<Erc721V, Error>(e)
                    && final(self)@ == old(self)@,
            },
    {
        let ghost v0 = self@;
        let id = seed_identity(gen.as_str());
        match self.gate(caller, &id, current_phrase.as_str()) {
            Ok(_) => {},
            Err(e) => {
                return Err(e);
            },
        }
        let secret = seed_identity(new_phrase.as_str());
        proof {
            lemma_bytes_deep_view(secret);
        }
        self.token_secrets.insert(&id, secret);
        proof {
            assert(self@ =~= (Erc721V {
                secrets: v0.secrets.insert(identity_of(gen@), identity_of(new_phrase@)),
                ..v0
            }));
        }
        Ok(())
    }

    /// Run the owner-and-phrase gate for the token `id` derived from a
    /// generation string.
    fn gate(&self, caller: u128, id: &Vec<u8>, phrase: &str) -> (r: Result<(), Error>)
        requires
            self.wf(),
        ensures
            forall|g: Seq<char>| identity_of(g) == id@
                ==> r == #[trigger] gate_check(self@, caller, g, phrase@),
    {
        let owner = match self.token_owners.get(id) {
            None => {
                return Err(Error::TokenNotFound);
            },
            Some(a) => *a,
        };
        if owner != caller {
            return Err(Error::NotTokenOwner);
        }
        let secret = seed_identity(phrase);
        match self.token_secrets.get(id) {
            None => Err(Error::StorageDataInconsistency),
            Some(s) => {
                proof {
                    lemma_bytes_deep_view(*s);
                }
                let matches = crate::hashing::bytes_eq(s, &secret);
                if !matches {
                    return Err(Error::NotTokenOwner);
                }
                Ok(())
            },
        }
    }

    /// Mint the token generated from `gen`, guarded by `phrase`;
    /// `transferred_value` is the payment attached to the call.
    pub fn mint(&mut self, caller: u128, transferred_value: u128, gen: String, phrase: String) -> (r: Result<Transfer, Error>)
        requires
            old(self).wf(),
        ensures
            final(self).wf(),
            match r {
                Ok(ev) => mint_spec(old(self)@, caller, transferred_value, gen@, phrase@)
                    == Ok::<Erc721V, Error>(final(self)@)
                    && ev.from == Some(old(self)@.burn_account)
                    && ev.to == Some(caller)
                    && ev.id@ == identity_of(gen@),
                Err(e) => mint_spec(old(self)@, caller, transferred_value, gen@, phrase@)
                    == Err::<Erc721V, Error>(e)
                    && final(self)@ == old(self)@,
            },
    {
        let ghost v0 = self@;
        if caller == self.burn_account {
            return Err(Error::AccountToBurn);
        }
        if transferred_value < MINT_FEE {
            return Err(Error::NotEnoughFee);
        }
        let id = seed_identity(gen.as_str());
        let secret = seed_identity(phrase.as_str());
        if self.token_owners.contains(&id) {
            return Err(Error::TokenAlreadyExists);
        }
        if self.token_secrets.contains(&secret) {
            return Err(Error::StorageDataInconsistency);
        }
        let count = self.balance_of(caller);
        if count == u32::MAX {
            return Err(Error::ReachingMax);
        }
        proof {
            lemma_bytes_deep_view(secret);
        }
        self.owned_tokens_count.insert(caller, 0, count + 1);
        self.token_owners.insert(&id, caller);
        self.token_secrets.insert(&id, secret);
        proof {
            assert(self@.counts =~= v0.counts.insert(caller, (count_of(v0, caller) + 1) as u32));
            assert(self@ =~= (Erc721V {
                owners: v0.owners.insert(identity_of(gen@), caller),
                secrets: v0.secrets.insert(identity_of(gen@), identity_of(phrase@)),
                counts: v0.counts.insert(caller, (count_of(v0, caller) + 1) as u32),
                ..v0
            }));
        }
        Ok(Transfer { from: Some(self.burn_account), to: Some(caller), id })
    }

    /// Burn the phrase-gated token generated from `gen`.
    pub fn burn(&mut self, caller: u128, transferred_value: u128, gen: String, phrase: String) -> (r: Result<Transfer, Error>)
        requires
            old(self).wf(),
        ensures
            final(self).wf(),
            match r {
                Ok(ev) => burn_spec(old(self)@, caller, transferred_value, gen@, phrase@)
                    == Ok::<Erc721V, Error>(final(self)@)
                    && ev.from == Some(caller)
                    && ev.to == Some(old(self)@.burn_account)
                    && ev.id@ == identity_of(gen@),
                Err(e) => burn_spec(old(self)@, caller, transferred_value, gen@, phrase@)
                    == Err::<Erc721V, Error>(e)
                    && final(self)@ == old(self)@,
            },
    {
        let ghost v0 = self@;
        let id = seed_identity(gen.as_str());
        match self.gate(caller, &id, phrase.as_str()) {
            Ok(_) => {},
            Err(e) => {
                return Err(e);
            },
        }
        if transferred_value < BURN_FEE {
            return Err(Error::NotEnoughFee);
        }
        let count = match self.owned_tokens_count.get(caller, 0) {
            None => {
                return Err(Error::StorageDataInconsistency);
            },
            Some(c) => *c,
        };
        if count == 0 {
            return Err(Error::ReachingMin);
        }
        self.token_approvals.remove(&id);
        self.owned_tokens_count.insert(caller, 0, count - 1);
        self.token_owners.remove(&id);
        self.token_secrets.remove(&id);
        proof {
            assert(self@.counts =~= v0.counts.insert(caller, (v0.counts[caller] - 1) as u32));
            assert(self@ =~= (Erc721V {
                owners: v0.owners.remove(identity_of(gen@)),
                secrets: v0.secrets.remove(identity_of(gen@)),
                counts: v0.counts.insert(caller, (v0.counts[caller] - 1) as u32),
                approvals: v0.approvals.remove(identity_of(gen@)),
                ..v0
            }));
        }
        Ok(Transfer { from: Some(caller), to: Some(self.burn_account), id })
    }

    /// Move the token `id` between two distinct accounts.
    fn move_token(&mut self, from: u128, to: u128, id: &Vec<u8>) -> (r: Result<(), Error>)
        requires
            old(self).wf(),
            from != to,
        ensures
            final(self).wf(),
            match r {
                Ok(u) => move_token_spec(old(self)@, from, to, id@) == Ok::<Erc721V, Error>(final(self)@),
                Err(e) => move_token_spec(old(self)@, from, to, id@) == Err::<Erc721V, Error>(e)
                    && final(self)@ == old(self)@,
            },
    {
        let ghost v0 = self@;
        let cf = match self.owned_tokens_count.get(from, 0) {
            None => {
                return Err(Error::StorageDataInconsistency);
            },
            Some(c) => *c,
        };
        if cf == 0 {
            return Err(Error::ReachingMin);
        }
        let ct = self.balance_of(to);
        if ct == u32::MAX {
            return Err(Error::ReachingMax);
        }
        self.token_approvals.remove(id);
        self.owned_tokens_count.insert(from, 0, cf - 1);
        self.owned_tokens_count.insert(to, 0, ct + 1);
        self.token_owners.insert(id, to);
        proof {
            assert(self@.counts =~= v0.counts
                .insert(from, (v0.counts[from] - 1) as u32)
                .insert(to, (count_of(v0, to) + 1) as u32));
            assert(self@ =~= (Erc721V {
                owners: v0.owners.insert(id@, to),
                counts: v0.counts
                    .insert(from, (v0.counts[from] - 1) as u32)
                    .insert(to, (count_of(v0, to) + 1) as u32),
                approvals: v0.approvals.remove(id@),
                ..v0
            }));
        }
        Ok(())
    }

    /// Transfer the caller's phrase-gated token.
    pub fn transfer(&mut self, caller: u128, transferred_value: u128, to: u128, gen: String, phrase: String) -> (r: Result<Transfer, Error>)
        requires
            old(self).wf(),
        ensures
            final(self).wf(),
            match r {
                Ok(ev) => transfer_spec(old(self)@, caller, transferred_value, to, gen@, phrase@)
                    == Ok::<Erc721V, Error>(final(self)@)
                    && ev.from == Some(caller)
                    && ev.to == Some(to)
                    && ev.id@ == identity_of(gen@),
                Err(e) => transfer_spec(old(self)@, caller, transferred_value, to, gen@, phrase@)
                    == Err::<Erc721V, Error>(e)
                    && final(self)@ == old(self)@,
            },
    {
        let id = seed_identity(gen.as_str());
        match self.gate(caller, &id, phrase.as_str()) {
            Ok(_) => {},
            Err(e) => {
                return Err(e);
            },
        }
        if caller == to {
            return Err(Error::TrasnferToSelf);
        }
        if to == self.burn_account {
            return Err(Error::AccountToBurn);
        }
        if transferred_value < TRANSFER_FEE {
            return Err(Error::NotEnoughFee);
        }
        match self.move_token(caller, to, &id) {
            Ok(_) => Ok(Transfer { from: Some(caller), to: Some(to), id }),
            Err(e) => Err(e),
        }
    }

    /// Third-party transfer of a token, by its owner or an approved
    /// account, without a phrase.
    pub fn transfer_from(&mut self, caller: u128, transferred_value: u128, from: u128, to: u128, gen: String) -> (r: Result<Transfer, Error>)
        requires
            old(self).wf(),
        ensures
            final(self).wf(),
            match r {
                Ok(ev) => transfer_from_spec(old(self)@, caller, transferred_value, from, to, gen@)
                    == Ok::<Erc721V, Error>(final(self)@)
                    && ev.from == Some(from)
                    && ev.to == Some(to)
                    && ev.id@ == identity_of(gen@),
                Err(e) => transfer_from_spec(old(self)@, caller, transferred_value, from, to, gen@)
                    == Err::<Erc721V, Error>(e)
                    && final(self)@ == old(self)@,
            },
    {
        let id = seed_identity(gen.as_str());
        let owner = match self.token_owners.get(&id) {
            None => {
                return Err(Error::TokenNotFound);
            },
            Some(a) => *a,
        };
        if owner != from {
            return Err(Error::StorageDataInconsistency);
        }
        if caller != owner {
            let all = self.operator_approvals.contains(owner, caller);
            let listed = if all {
                true
            } else {
                match self.token_approvals.get(&id) {
                    Some(l) => {
                        proof {
                            lemma_u128s_deep_view(*l);
                        }
                        u128_list_contains(l, caller)
                    },
                    None => false,
                }
            };
            proof {
                if !self@.approvals.contains_key(id@) {
                    assert(approved_of(self@, id@) =~= Seq::<u128>::empty());
                }
            }
            if !listed {
                return Err(Error::NotApproved);
            }
        }
        if from == to {
            return Err(Error::TrasnferToSelf);
        }
        if to == self.burn_account {
            return Err(Error::AccountToBurn);
        }
        if transferred_value < TRANSFER_FEE {
            return Err(Error::NotEnoughFee);
        }
        match self.move_token(from, to, &id) {
            Ok(_) => Ok(Transfer { from: Some(from), to: Some(to), id }),
            Err(e) => Err(e),
        }
    }

    /// Approve `to` for the caller's phrase-gated token.  The grant record
    /// is returned when the account was newly listed.
    pub fn approve(&mut self, caller: u128, to: u128, gen: String, phrase: String) -> (r: Result<Option<Approval>, Error>)
        requires
            old(self).wf(),
        ensures
            final(self).wf(),
            match r {
                Ok(ev) => approve_spec(old(self)@, caller, to, gen@, phrase@)
                    == Ok::<Erc721V, Error>(final(self)@)
                    && (ev is Some <==> !approved_of(old(self)@, identity_of(gen@)).contains(to))
                    && (ev matches Some(a) ==> a.from == caller && a.to == to && a.id@ == identity_of(gen@)),
                Err(e) => approve_spec(old(self)@, caller, to, gen@, phrase@)
                    == Err::<Erc721V, Error>(e)
                    && final(self)@ == old(self)@,
            },
    {
        let ghost v0 = self@;
        let id = seed_identity(gen.as_str());
        match self.gate(caller, &id, phrase.as_str()) {
            Ok(_) => {},
            Err(e) => {
                return Err(e);
            },
        }
        if to == self.burn_account {
            return Err(Error::AccountToBurn);
        }
        if to == caller {
            return Err(Error::ApproveForSelf);
        }
        let new_list: Option<Vec<u128>> = match self.token_approvals.get(&id) {
            Some(l) => {
                proof {
                    lemma_u128s_deep_view(*l);
                }
                if u128_list_contains(l, to) {
                    None
                } else {
                    let mut l2 = copy_u128_list(l);
                    l2.push(to);
                    Some(l2)
                }
            },
            None => {
                let mut l2: Vec<u128> = Vec::new();
                l2.push(to);
                proof {
                    assert(approved_of(v0, id@) =~= Seq::<u128>::empty());
                }
                Some(l2)
            },
        };
        match new_list {
            None => Ok(None),
            Some(l2) => {
                proof {
                    assert(l2@ =~= approved_of(v0, id@).push(to));
                    lemma_u128s_deep_view(l2);
                }
                self.token_approvals.insert(&id, l2);
                proof {
                    assert(self@ =~= (Erc721V {
                        approvals: v0.approvals.insert(identity_of(gen@), approved_of(v0, identity_of(gen@)).push(to)),
                        ..v0
                    }));
                }
                Ok(Some(Approval { from: caller, to, id }))
            },
        }
    }

    /// Toggle a whole-collection delegation, proving a list of phrases.
    pub fn set_approval_for_all(
        &mut self,
        caller: u128,
        to: u128,
        approved: bool,
        pairs: &Vec<(String, String)>,
    ) -> (r: Result<ApprovalForAll, Error>)
        requires
            old(self).wf(),
        ensures
            final(self).wf(),
            match r {
                Ok(ev) => set_approval_for_all_spec(old(self)@, caller, to, approved, pairs.deep_view())
                    == Ok::<Erc721V, Error>(final(self)@)
                    && ev == (ApprovalForAll { from: caller, to, approved }),
                Err(e) => set_approval_for_all_spec(old(self)@, caller, to, approved, pairs.deep_view())
                    == Err::<Erc721V, Error>(e)
                    && final(self)@ == old(self)@,
            },
    {
        let ghost v0 = self@;
        let ghost pv = pairs.deep_view();
        if caller == to {
            return Err(Error::ApproveForSelf);
        }
        let n = pairs.len();
        proof {
            assert(pv.skip(0) =~= pv);
        }
        let mut i: usize = 0;
        while i < n
            invariant
                self.wf(),
                self@ == v0,
                v0 == old(self)@,
                n == pairs@.len(),
                pv == pairs.deep_view(),
                caller != to,
                0 <= i <= n,
                check_pairs(v0, pv) == check_pairs(v0, pv.skip(i as int)),
            decreases n - i,
        {
            let ghost p_i = pv.skip(i as int);
            proof {
                assert(p_i[0] == pv[i as int]);
                assert(pairs.deep_view()[i as int]
                    == (pairs@[i as int].0@, pairs@[i as int].1@));
            }
            let id = seed_identity(pairs[i].0.as_str());
            let secret = seed_identity(pairs[i].1.as_str());
            match self.token_secrets.get(&id) {
                None => {
                    proof {
                        assert(check_pairs(v0, p_i) == Err::<(), Error>(Error::StorageDataInconsistency));
                    }
                    return Err(Error::StorageDataInconsistency);
                },
                Some(s) => {
                    proof {
                        lemma_bytes_deep_view(*s);
                    }
                    let matches = crate::hashing::bytes_eq(s, &secret);
                    if !matches {
                        proof {
                            assert(check_pairs(v0, p_i) == Err::<(), Error>(Error::NotTokenOwner));
                        }
                        return Err(Error::NotTokenOwner);
                    }
                },
            }
            proof {
                assert(p_i.drop_first() =~= pv.skip(i + 1));
            }
            i += 1;
        }
        proof {
            assert(pv.skip(n as int) =~= Seq::<(Seq<char>, Seq<char>)>::empty());
            assert(check_pairs(v0, pv) == Ok::<(), Error>(()));
        }
        if to == self.burn_account || caller == self.burn_account {
            return Err(Error::AccountToBurn);
        }
        if approved {
            self.operator_approvals.insert(caller, to, true);
            proof {
                assert(self@ =~= (Erc721V {
                    operator_approvals: v0.operator_approvals.insert((caller, to), true),
                    ..v0
                }));
            }
        } else {
            self.operator_approvals.remove(caller, to);
            proof {
                assert(self@ =~= (Erc721V {
                    operator_approvals: v0.operator_approvals.remove((caller, to)),
                    ..v0
                }));
            }
        }
        Ok(ApprovalForAll { from: caller, to, approved })
    }
}

} // verus!

//! The multi-asset ledger: type registry, balance and instance-ownership
//! storage, operator approvals, minting and the safe-transfer protocol.
//!
//! The ledger is a deterministic in-memory rules engine.  An outer committer
//! supplies the caller account and any value it attached to the call, runs
//! the recipient-acceptance callback between [`Erc1155Contract::safe_transfer_from_prepare`]
//! and [`Erc1155Contract::transfer_resolve`], and forwards the returned
//! transfer records to whatever notification channel it uses.

use vstd::prelude::*;
use vstd::string::StringExecFns;
use vstd::string::StrSliceExecFns;
use crate::pair_map::{PairMap, DeepCopy, u128_list_contains, copy_u128_list};
use crate::hashing::{identity_of, seed_identity, bytes_eq, id_list_contains, id_list_find, copy_bytes, copy_id_list};

verus! {

/// Failures an operation can report.
#[derive(Debug, PartialEq, Eq, Structural, Clone, Copy)]
pub enum Error {
    PermissionDenied,
    NotFound,
    AlreadyExist,
    WrongArgument,
    NotEnoughFee,
    NotAvailable,
    BadAdress,
    SelfOperation,
    Overflow,
    Underflow,
    StorageInconsistency,
    TransferDenied,
}

/// Breadth of an operator approval.
#[derive(Debug, PartialEq, Eq, Structural, Clone, Copy)]
pub enum ApprovalScope {
    /// Authority only over the listed token ids.
    Limited,
    /// Authority over every asset of the owner.
    Full,
}

/// Kind of a registered token type.
#[derive(Debug, PartialEq, Eq, Structural, Clone, Copy)]
pub enum TokenKind {
    Ft,
    Nft,
}

/// Initial-supply policy for a newly created fungible type.
#[derive(Debug, PartialEq, Eq, Structural, Clone, Copy)]
pub enum AmountOption {
    NoSupply,
    Fixed(u128),
    Max,
}

/// Record of one committed transfer, handed back for notification.
#[derive(Debug, PartialEq, Eq, Clone, Copy)]
pub struct TransferSingle {
    pub operator: Option<u128>,
    pub from: Option<u128>,
    pub to: Option<u128>,
    pub token_id: u128,
    pub value: u128,
}

/// Record of one per-token approval grant.
#[derive(Debug, PartialEq, Eq, Clone, Copy)]
pub struct Approval {
    pub owner: u128,
    pub operator: u128,
    pub id: u128,
}

/// Record of a whole-collection approval toggle.
#[derive(Debug, PartialEq, Eq, Clone, Copy)]
pub struct ApprovalForAll {
    pub owner: u128,
    pub operator: u128,
    pub approved: bool,
}

impl vstd::view::DeepView for TokenKind {
    type V = TokenKind;

    open spec fn deep_view(&self) -> TokenKind {
        *self
    }
}

/// An owner's approval entry for one operator: the scope and the token list.
pub struct ApprovalRecord {
    pub scope: ApprovalScope,
    pub tokens: Vec<u128>,
}

impl vstd::view::DeepView for ApprovalRecord {
    type V = (ApprovalScope, Seq<u128>);

    open spec fn deep_view(&self) -> (ApprovalScope, Seq<u128>) {
        (self.scope, self.tokens@)
    }
}

impl DeepCopy for ApprovalRecord {
    fn deep_copy(&self) -> (r: Self)
        ensures
            r.deep_view() == self.deep_view(),
    {
        ApprovalRecord { scope: self.scope, tokens: copy_u128_list(&self.tokens) }
    }
}

impl DeepCopy for Vec<Vec<u8>> {
    fn deep_copy(&self) -> (r: Self)
        ensures
            r.deep_view() == self.deep_view(),
    {
        copy_id_list(self)
    }
}

/// The identifier of the bootstrap currency type.
pub const CURRENCY_TOKEN_ID: u128 = 0;

/// Fee debited, in currency units, for minting a non-fungible instance.
pub const MINT_FEE: u128 = 100;

/// Amount bought by the fixed-price purchase shortcut.
pub const BUY_AMOUNT_500: u128 = 500;

/// Currency name used when the constructor is given an empty override.
pub open spec fn default_currency_name() -> Seq<char> {
    "SKMiZ"@
}

/// No element occurs twice.
pub open spec fn distinct_seq<T>(s: Seq<T>) -> bool {
    forall|i: int, j: int| 0 <= i < j < s.len() ==> s[i] != s[j]
}

/// Abstract state of the ledger.
#[verifier::ext_equal]
pub struct LedgerV {
    /// Account that deployed the ledger; the only one allowed to create types.
    pub founder: u128,
    /// The ledger's own account: initial-supply custody, fee pool.
    pub pool_account: u128,
    /// Number of assigned token ids; ids run from 0 to `variety - 1`.
    pub variety: u128,
    /// Name and kind per assigned id, in creation order.
    pub types: Seq<(Seq<char>, TokenKind)>,
    /// Fungible balances (and mirrored instance counts), keyed by (account, token).
    pub balances: Map<(u128, u128), u128>,
    /// Instance identities held, keyed by (account, token); a missing entry
    /// means the account never held that token.
    pub nfts: Map<(u128, u128), Seq<Seq<u8>>>,
    /// Operator approvals, keyed by (owner, operator).
    pub approvals: Map<(u128, u128), (ApprovalScope, Seq<u128>)>,
    /// Per-instance approvals, keyed by (owner, operator).
    pub nft_approvals: Map<(u128, u128), Seq<Seq<u8>>>,
}

/// Balance of `a` for token `t`; 0 when no entry exists.
pub open spec fn bal_in(v: LedgerV, a: u128, t: u128) -> u128 {
    if v.balances.contains_key((a, t)) {
        v.balances[(a, t)]
    } else {
        0
    }
}

/// Instance identities `a` holds of token `t`; empty when no entry exists.
pub open spec fn holdings_in(v: LedgerV, a: u128, t: u128) -> Seq<Seq<u8>> {
    if v.nfts.contains_key((a, t)) {
        v.nfts[(a, t)]
    } else {
        Seq::empty()
    }
}

/// Whether `t` is an assigned non-fungible token id.
pub open spec fn is_nft_token(v: LedgerV, t: u128) -> bool {
    t < v.variety && v.types[t as int].1 == TokenKind::Nft
}

/// Operator-approval table, keyed by (owner, operator).
pub type ApprovalMapV = Map<(u128, u128), (ApprovalScope, Seq<u128>)>;

/// Identity-list table, keyed by a pair of accounts or account and token.
pub type IdListMapV = Map<(u128, u128), Seq<Seq<u8>>>;

/// Every token list of an approval table is duplicate-free.
pub open spec fn approval_lists_distinct(a: ApprovalMapV) -> bool {
    forall|k: (u128, u128)| #[trigger] a.contains_key(k) ==> distinct_seq(a[k].1)
}

/// Every identity list of a table is duplicate-free.
pub open spec fn id_lists_distinct(n: IdListMapV) -> bool {
    forall|k: (u128, u128)| #[trigger] n.contains_key(k) ==> distinct_seq(n[k])
}

/// Internal consistency of a ledger state: every assigned id has a registry
/// entry, identity lists and approval lists hold no duplicates, instance
/// entries exist only for assigned non-fungible ids, and the integer balance
/// of a non-fungible token mirrors the size of the instance set.
pub open spec fn view_wf(v: LedgerV) -> bool {
    &&& v.types.len() == v.variety
    &&& v.variety >= 1
    &&& v.types[0].1 == TokenKind::Ft
    &&& forall|k: (u128, u128)| #[trigger] v.balances.contains_key(k) ==> k.1 < v.variety
    &&& forall|k: (u128, u128)| #[trigger] v.nfts.contains_key(k)
        ==> is_nft_token(v, k.1) && distinct_seq(v.nfts[k])
    &&& forall|a: u128, t: u128| is_nft_token(v, t)
        ==> #[trigger] bal_in(v, a, t) == holdings_in(v, a, t).len()
    &&& approval_lists_distinct(v.approvals)
    &&& id_lists_distinct(v.nft_approvals)
}

/// Whether `(owner, operator)` have an instance approval for identity `id`.
pub open spec fn instance_approved(v: LedgerV, owner: u128, operator: u128, id: Seq<u8>) -> bool {
    v.nft_approvals.contains_key((owner, operator))
        && v.nft_approvals[(owner, operator)].contains(id)
}

/// Approval resolution: whether `operator` may act on `owner`'s assets,
/// optionally narrowed to one token id and one instance seed.
///
/// No entry answers no; a full-scope entry answers yes regardless of the
/// arguments; a limited-scope entry needs a token id (else the question is
/// unanswerable), answers by the listed ids for a fungible token, and for a
/// non-fungible token additionally needs a seed whose derived identity has
/// an instance approval.
pub open spec fn resolve_spec(
    v: LedgerV,
    owner: u128,
    operator: u128,
    op_token: Option<u128>,
    op_gen: Option<Seq<char>>,
) -> Result<bool, Error> {
    if !v.approvals.contains_key((owner, operator)) {
        Ok(false)
    } else if v.approvals[(owner, operator)].0 == ApprovalScope::Full {
        Ok(true)
    } else {
        match op_token {
            Option::None => Err(Error::WrongArgument),
            Option::Some(t) => {
                if t >= v.variety {
                    Err(Error::NotFound)
                } else if v.types[t as int].1 == TokenKind::Ft {
                    Ok(v.approvals[(owner, operator)].1.contains(t))
                } else {
                    match op_gen {
                        Option::None => Err(Error::WrongArgument),
                        Option::Some(g) => Ok(
                            v.approvals[(owner, operator)].1.contains(t)
                                && instance_approved(v, owner, operator, identity_of(g)),
                        ),
                    }
                }
            },
        }
    }
}

/// State after toggling the whole-collection approval of
/// `(caller, operator)`: an existing entry keeps its token list and changes
/// scope; a missing entry is created full-scope only when delegating.
pub open spec fn set_approval_for_all_spec(
    v: LedgerV,
    caller: u128,
    operator: u128,
    approved: bool,
) -> Result<LedgerV, Error> {
    if operator == 0 {
        Err(Error::BadAdress)
    } else if operator == caller {
        Err(Error::SelfOperation)
    } else if v.approvals.contains_key((caller, operator)) {
        Ok(LedgerV {
            approvals: v.approvals.insert(
                (caller, operator),
                (
                    if approved { ApprovalScope::Full } else { ApprovalScope::Limited },
                    v.approvals[(caller, operator)].1,
                ),
            ),
            ..v
        })
    } else if approved {
        Ok(LedgerV {
            approvals: v.approvals.insert((caller, operator), (ApprovalScope::Full, Seq::empty())),
            ..v
        })
    } else {
        Ok(v)
    }
}

/// Move `amt` units of token `t` from `from` to `to`.  Debiting below zero
/// fails, crediting beyond the integer width fails, and a move onto the
/// same account leaves the state unchanged (after the availability check),
/// so no units are ever created or destroyed.  Balance entries persist even
/// at zero.
pub open spec fn move_tokens_m(v: LedgerV, from: u128, to: u128, t: u128, amt: u128) -> Result<LedgerV, Error> {
    if bal_in(v, from, t) < amt {
        Err(Error::NotAvailable)
    } else if from == to {
        Ok(v)
    } else if bal_in(v, to, t) + amt > u128::MAX {
        Err(Error::Overflow)
    } else {
        Ok(LedgerV {
            balances: v.balances
                .insert((from, t), (bal_in(v, from, t) - amt) as u128)
                .insert((to, t), (bal_in(v, to, t) + amt) as u128),
            ..v
        })
    }
}

/// Record a freshly owned instance: the identity joins the holding list and
/// the mirrored integer balance grows by one.
pub open spec fn add_instance_holding(v: LedgerV, a: u128, t: u128, id: Seq<u8>) -> LedgerV {
    LedgerV {
        nfts: v.nfts.insert((a, t), holdings_in(v, a, t).push(id)),
        balances: v.balances.insert((a, t), (bal_in(v, a, t) + 1) as u128),
        ..v
    }
}

/// State and derived identity after `caller` mints an instance of the
/// non-fungible token `t` from seed `gen`: the mint fee moves from the
/// caller to the pool, and the identity must be new to the caller's set.
pub open spec fn mint_spec(v: LedgerV, caller: u128, t: u128, gen: Seq<char>) -> Result<(LedgerV, Seq<u8>), Error> {
    if t >= v.variety {
        Err(Error::NotFound)
    } else if gen.len() == 0 {
        Err(Error::WrongArgument)
    } else if v.types[t as int].1 != TokenKind::Nft {
        Err(Error::NotFound)
    } else {
        match move_tokens_m(v, caller, v.pool_account, CURRENCY_TOKEN_ID, MINT_FEE) {
            Err(_) => Err(Error::NotEnoughFee),
            Ok(v1) => {
                let id = identity_of(gen);
                if holdings_in(v, caller, t).contains(id) {
                    Err(Error::AlreadyExist)
                } else if bal_in(v1, caller, t) == u128::MAX {
                    Err(Error::Overflow)
                } else {
                    Ok((add_instance_holding(v1, caller, t, id), id))
                }
            },
        }
    }
}

/// State and amount after `caller` buys `how_much` currency from the pool
/// at a one-to-one rate, having attached `paid` units of outside payment.
pub open spec fn buy_spec(v: LedgerV, caller: u128, paid: u128, how_much: u128) -> Result<(LedgerV, u128), Error> {
    if paid < how_much {
        Err(Error::NotEnoughFee)
    } else {
        match move_tokens_m(v, v.pool_account, caller, CURRENCY_TOKEN_ID, how_much) {
            Ok(v1) => Ok((v1, how_much)),
            Err(e) => Err(e),
        }
    }
}

/// State and assigned id after the founder registers a new token type.
/// A fungible type has its whole initial supply credited to the pool
/// account (possibly a zero entry); a non-fungible type starts empty.
pub open spec fn create_type_spec(
    v: LedgerV,
    caller: u128,
    name: Seq<char>,
    kind: TokenKind,
    initial: AmountOption,
) -> Result<(LedgerV, u128), Error> {
    if caller != v.founder {
        Err(Error::PermissionDenied)
    } else if name.len() == 0 {
        Err(Error::WrongArgument)
    } else if v.variety == u128::MAX {
        Err(Error::Overflow)
    } else {
        let id = v.variety;
        let v1 = LedgerV {
            variety: (v.variety + 1) as u128,
            types: v.types.push((name, kind)),
            ..v
        };
        match kind {
            TokenKind::Ft => Ok(
                (
                    LedgerV {
                        balances: v1.balances.insert((v.pool_account, id), initial_supply_of(initial)),
                        ..v1
                    },
                    id,
                ),
            ),
            TokenKind::Nft => Ok((v1, id)),
        }
    }
}

/// Registering a new token type keeps the ledger well-formed.
proof fn lemma_wf_create_type(
    v: LedgerV,
    caller: u128,
    name: Seq<char>,
    kind: TokenKind,
    initial: AmountOption,
)
    requires
        view_wf(v),
    ensures
        match create_type_spec(v, caller, name, kind, initial) {
            Ok((v2, id)) => view_wf(v2),
            Err(_) => true,
        },
{
    match create_type_spec(v, caller, name, kind, initial) {
        Ok((v2, id)) => {
            assert(v2.types.len() == v2.variety);
            assert(v2.types[0] == v.types[0]);
            assert forall|k: (u128, u128)| #[trigger] v2.balances.contains_key(k) implies
                k.1 < v2.variety by {
                if k != (v.pool_account, id) {
                    assert(v.balances.contains_key(k));
                }
            }
            assert forall|k: (u128, u128)| #[trigger] v2.nfts.contains_key(k) implies
                is_nft_token(v2, k.1) && distinct_seq(v2.nfts[k]) by {
                assert(v.nfts.contains_key(k));
                assert(is_nft_token(v, k.1));
                assert(v2.types[k.1 as int] == v.types[k.1 as int]);
            }
            assert forall|a: u128, t: u128| is_nft_token(v2, t) implies
                #[trigger] bal_in(v2, a, t) == holdings_in(v2, a, t).len() by {
                if t == id {
                    assert(!v.balances.contains_key((a, t)));
                    assert(!v.nfts.contains_key((a, t)));
                    assert(bal_in(v2, a, t) == 0);
                    assert(holdings_in(v2, a, t) =~= Seq::<Seq<u8>>::empty());
                } else {
                    assert(t < v.variety);
                    assert(v2.types[t as int] == v.types[t as int]);
                    assert(is_nft_token(v, t));
                    assert(bal_in(v2, a, t) == bal_in(v, a, t));
                    assert(holdings_in(v2, a, t) == holdings_in(v, a, t));
                }
            }
        },
        Err(_) => {},
    }
}

/// Moving units of a fungible token keeps the ledger well-formed and
/// touches nothing but the two balance entries.
proof fn lemma_wf_move_tokens(v: LedgerV, from: u128, to: u128, t: u128, amt: u128)
    requires
        view_wf(v),
        t < v.variety,
        !is_nft_token(v, t),
    ensures
        match move_tokens_m(v, from, to, t, amt) {
            Ok(v1) => view_wf(v1),
            Err(_) => true,
        },
{
    match move_tokens_m(v, from, to, t, amt) {
        Ok(v1) => {
            assert forall|k: (u128, u128)| #[trigger] v1.balances.contains_key(k) implies
                k.1 < v1.variety by {
                if k != (from, t) && k != (to, t) {
                    assert(v.balances.contains_key(k));
                }
            }
            assert forall|k: (u128, u128)| #[trigger] v1.nfts.contains_key(k) implies
                is_nft_token(v1, k.1) && distinct_seq(v1.nfts[k]) by {
                assert(v.nfts.contains_key(k));
                assert(is_nft_token(v, k.1));
            }
            assert forall|a: u128, t2: u128| is_nft_token(v1, t2) implies
                #[trigger] bal_in(v1, a, t2) == holdings_in(v1, a, t2).len() by {
                assert(is_nft_token(v, t2));
                assert(t2 != t);
                assert(bal_in(v1, a, t2) == bal_in(v, a, t2));
                assert(holdings_in(v1, a, t2) == holdings_in(v, a, t2));
            }
        },
        Err(_) => {},
    }
}

/// Adding a fresh instance to an account keeps the ledger well-formed.
proof fn lemma_wf_add_instance(v: LedgerV, a: u128, t: u128, id: Seq<u8>)
    requires
        view_wf(v),
        is_nft_token(v, t),
        !holdings_in(v, a, t).contains(id),
        bal_in(v, a, t) < u128::MAX,
    ensures
        view_wf(add_instance_holding(v, a, t, id)),
{
    let v1 = add_instance_holding(v, a, t, id);
    let l = holdings_in(v, a, t).push(id);
    assert(distinct_seq(holdings_in(v, a, t)));
    assert forall|i: int, j: int| 0 <= i < j < l.len() implies l[i] != l[j] by {
        if j == l.len() - 1 {
            assert(l[i] == holdings_in(v, a, t)[i]);
            assert(holdings_in(v, a, t).contains(holdings_in(v, a, t)[i]));
        }
    }
    assert forall|k: (u128, u128)| #[trigger] v1.balances.contains_key(k) implies
        k.1 < v1.variety by {
        if k != (a, t) {
            assert(v.balances.contains_key(k));
        }
    }
    assert forall|k: (u128, u128)| #[trigger] v1.nfts.contains_key(k) implies
        is_nft_token(v1, k.1) && distinct_seq(v1.nfts[k]) by {
        if k != (a, t) {
            assert(v.nfts.contains_key(k));
            assert(is_nft_token(v, k.1));
        }
    }
    assert forall|a2: u128, t2: u128| is_nft_token(v1, t2) implies
        #[trigger] bal_in(v1, a2, t2) == holdings_in(v1, a2, t2).len() by {
        assert(is_nft_token(v, t2));
        if a2 == a && t2 == t {
            assert(bal_in(v1, a2, t2) == bal_in(v, a, t) + 1);
            assert(holdings_in(v1, a2, t2) =~= l);
        } else {
            assert(bal_in(v1, a2, t2) == bal_in(v, a2, t2));
            assert(holdings_in(v1, a2, t2) == holdings_in(v, a2, t2));
        }
    }
}

/// One transfer item: token id, amount, and the generation seed naming the
/// instance for a non-fungible token (ignored for a fungible one).
pub type ItemsV = Seq<(u128, u128, Seq<char>)>;

/// The parallel id, value and seed lists of a batch as one item sequence.
pub open spec fn zip3(ids: Seq<u128>, vals: Seq<u128>, gens: Seq<Seq<char>>) -> ItemsV {
    Seq::new(ids.len(), |i: int| (ids[i], vals[i], gens[i]))
}

/// The position of `id` in `l` (unique when `l` is duplicate-free).
pub open spec fn id_index_of(l: Seq<Seq<u8>>, id: Seq<u8>) -> int {
    choose|i: int| 0 <= i < l.len() && l[i] == id
}

/// `l` without `id`: the last element takes its slot.
pub open spec fn remove_id(l: Seq<Seq<u8>>, id: Seq<u8>) -> Seq<Seq<u8>> {
    l.update(id_index_of(l, id), l.last()).drop_last()
}

/// What removing an identity from a duplicate-free list leaves behind.
proof fn lemma_remove_id(l: Seq<Seq<u8>>, id: Seq<u8>)
    requires
        distinct_seq(l),
        l.contains(id),
    ensures
        remove_id(l, id).len() == l.len() - 1,
        distinct_seq(remove_id(l, id)),
        !remove_id(l, id).contains(id),
        forall|x: Seq<u8>| x != id ==> #[trigger] remove_id(l, id).contains(x) == l.contains(x),
{
    let i = id_index_of(l, id);
    assert(0 <= i < l.len() && l[i] == id);
    let r = remove_id(l, id);
    assert(r.len() == l.len() - 1);
    assert forall|p: int| 0 <= p < r.len() implies
        #[trigger] r[p] == (if p == i { l[l.len() - 1] } else { l[p] }) by {}
    assert forall|p: int, q: int| 0 <= p < q < r.len() implies r[p] != r[q] by {
        let p0 = if p == i { l.len() - 1 } else { p };
        let q0 = if q == i { l.len() - 1 } else { q };
        assert(r[p] == l[p0] && r[q] == l[q0]);
        assert(p0 != q0);
    }
    assert forall|p: int| 0 <= p < r.len() implies r[p] != id by {
        let p0 = if p == i { l.len() - 1 } else { p };
        assert(r[p] == l[p0]);
        if p == i {
            assert(i != l.len() - 1);
        }
        assert(p0 != i);
        if l[p0] == id {
            if p0 < i {
                assert(l[p0] != l[i]);
            } else {
                assert(l[i] != l[p0]);
            }
        }
    }
    if r.contains(id) {
        let p = choose|p: int| 0 <= p < r.len() && r[p] == id;
        assert(r[p] != id);
    }
    assert forall|x: Seq<u8>| x != id implies #[trigger] r.contains(x) == l.contains(x) by {
        if r.contains(x) {
            let p = choose|p: int| 0 <= p < r.len() && r[p] == x;
            let p0 = if p == i { l.len() - 1 } else { p };
            assert(l[p0] == x);
            assert(l.contains(x));
        }
        if l.contains(x) {
            let p0 = choose|p0: int| 0 <= p0 < l.len() && l[p0] == x;
            assert(p0 != i);
            if p0 == l.len() - 1 {
                assert(i != l.len() - 1);
                assert(i < r.len());
                assert(r[i] == l[p0]);
                assert(r.contains(x));
            } else {
                assert(r[p0] == l[p0]);
                assert(r.contains(x));
            }
        }
    }
}

/// Move instance `id` of token `t` from `from`'s list into `to`'s.
pub open spec fn move_instance(v: LedgerV, from: u128, to: u128, t: u128, id: Seq<u8>) -> LedgerV {
    LedgerV {
        nfts: v.nfts
            .insert((from, t), remove_id(holdings_in(v, from, t), id))
            .insert((to, t), holdings_in(v, to, t).push(id)),
        ..v
    }
}

/// Commit one transfer item: debit `from`, credit `to`, and for a
/// non-fungible token move the instance named by the seed, exactly one
/// unit at a time, never duplicating an identity within one account.
pub open spec fn commit_one(v: LedgerV, from: u128, to: u128, t: u128, amt: u128, gen: Seq<char>) -> Result<LedgerV, Error> {
    if bal_in(v, from, t) < amt {
        Err(Error::NotAvailable)
    } else if bal_in(v, to, t) + amt > u128::MAX {
        Err(Error::Overflow)
    } else {
        let v1 = LedgerV {
            balances: v.balances
                .insert((from, t), (bal_in(v, from, t) - amt) as u128)
                .insert((to, t), (bal_in(v, to, t) + amt) as u128),
            ..v
        };
        if t >= v.variety {
            Err(Error::NotFound)
        } else if v.types[t as int].1 == TokenKind::Ft {
            Ok(v1)
        } else if amt != 1 {
            Err(Error::WrongArgument)
        } else {
            let id = identity_of(gen);
            if !holdings_in(v, from, t).contains(id) {
                Err(Error::NotFound)
            } else if holdings_in(v, to, t).contains(id) {
                Err(Error::AlreadyExist)
            } else {
                Ok(move_instance(v1, from, to, t, id))
            }
        }
    }
}

/// Commit a batch of items in order; the first failure aborts the whole
/// batch.
pub open spec fn commit_items(v: LedgerV, from: u128, to: u128, items: ItemsV) -> Result<LedgerV, Error>
    decreases items.len(),
{
    if items.len() == 0 {
        Ok(v)
    } else {
        match commit_one(v, from, to, items[0].0, items[0].1, items[0].2) {
            Ok(v1) => commit_items(v1, from, to, items.drop_first()),
            Err(e) => Err(e),
        }
    }
}

/// Committing one item between two distinct accounts keeps the ledger
/// well-formed.
proof fn lemma_wf_commit_one(v: LedgerV, from: u128, to: u128, t: u128, amt: u128, gen: Seq<char>)
    requires
        view_wf(v),
        from != to,
    ensures
        match commit_one(v, from, to, t, amt, gen) {
            Ok(v2) => view_wf(v2),
            Err(_) => true,
        },
{
    match commit_one(v, from, to, t, amt, gen) {
        Ok(v2) => {
            let bf = bal_in(v, from, t);
            let bt = bal_in(v, to, t);
            let v1 = LedgerV {
                balances: v.balances
                    .insert((from, t), (bf - amt) as u128)
                    .insert((to, t), (bt + amt) as u128),
                ..v
            };
            assert forall|k: (u128, u128)| #[trigger] v1.balances.contains_key(k) implies
                k.1 < v1.variety by {
                if k != (from, t) && k != (to, t) {
                    assert(v.balances.contains_key(k));
                }
            }
            if v.types[t as int].1 == TokenKind::Ft {
                assert(v2 == v1);
                assert forall|k: (u128, u128)| #[trigger] v2.nfts.contains_key(k) implies
                    is_nft_token(v2, k.1) && distinct_seq(v2.nfts[k]) by {
                    assert(v.nfts.contains_key(k));
                    assert(is_nft_token(v, k.1));
                }
                assert forall|a2: u128, t2: u128| is_nft_token(v2, t2) implies
                    #[trigger] bal_in(v2, a2, t2) == holdings_in(v2, a2, t2).len() by {
                    assert(is_nft_token(v, t2));
                    assert(t2 != t);
                    assert(bal_in(v2, a2, t2) == bal_in(v, a2, t2));
                    assert(holdings_in(v2, a2, t2) == holdings_in(v, a2, t2));
                }
            } else {
                let id = identity_of(gen);
                let lf = holdings_in(v, from, t);
                let lt = holdings_in(v, to, t);
                assert(is_nft_token(v, t));
                assert(distinct_seq(lf)) by {
                    if v.nfts.contains_key((from, t)) {
                        assert(v.nfts.contains_key((from, t)));
                    }
                }
                assert(distinct_seq(lt)) by {
                    if v.nfts.contains_key((to, t)) {
                        assert(v.nfts.contains_key((to, t)));
                    }
                }
                lemma_remove_id(lf, id);
                assert(v2 == move_instance(v1, from, to, t, id));
                assert(holdings_in(v1, from, t) == lf);
                assert(holdings_in(v1, to, t) == lt);
                let ltp = lt.push(id);
                assert forall|i: int, j: int| 0 <= i < j < ltp.len() implies ltp[i] != ltp[j] by {
                    if j == ltp.len() - 1 {
                        assert(ltp[i] == lt[i]);
                        assert(lt.contains(lt[i]));
                    }
                }
                assert forall|k: (u128, u128)| #[trigger] v2.balances.contains_key(k) implies
                    k.1 < v2.variety by {
                    assert(v1.balances.contains_key(k));
                }
                assert forall|k: (u128, u128)| #[trigger] v2.nfts.contains_key(k) implies
                    is_nft_token(v2, k.1) && distinct_seq(v2.nfts[k]) by {
                    if k != (from, t) && k != (to, t) {
                        assert(v.nfts.contains_key(k));
                        assert(is_nft_token(v, k.1));
                    }
                }
                assert(bal_in(v, from, t) == lf.len());
                assert(bal_in(v, to, t) == lt.len());
                assert forall|a2: u128, t2: u128| is_nft_token(v2, t2) implies
                    #[trigger] bal_in(v2, a2, t2) == holdings_in(v2, a2, t2).len() by {
                    assert(is_nft_token(v, t2));
                    if t2 == t && a2 == from {
                        assert(bal_in(v2, a2, t2) == bf - 1);
                        assert(holdings_in(v2, a2, t2) == remove_id(lf, id));
                    } else if t2 == t && a2 == to {
                        assert(bal_in(v2, a2, t2) == bt + 1);
                        assert(holdings_in(v2, a2, t2) == ltp);
                    } else {
                        assert(bal_in(v2, a2, t2) == bal_in(v, a2, t2));
                        assert(holdings_in(v2, a2, t2) == holdings_in(v, a2, t2));
                    }
                }
            }
        },
        Err(_) => {},
    }
}

/// Committing a batch between two distinct accounts keeps the ledger
/// well-formed.
proof fn lemma_wf_commit_items(v: LedgerV, from: u128, to: u128, items: ItemsV)
    requires
        view_wf(v),
        from != to,
    ensures
        match commit_items(v, from, to, items) {
            Ok(v2) => view_wf(v2),
            Err(_) => true,
        },
    decreases items.len(),
{
    if items.len() == 0 {
    } else {
        lemma_wf_commit_one(v, from, to, items[0].0, items[0].1, items[0].2);
        match commit_one(v, from, to, items[0].0, items[0].1, items[0].2) {
            Ok(v1) => {
                lemma_wf_commit_items(v1, from, to, items.drop_first());
            },
            Err(_) => {},
        }
    }
}

/// The acknowledgement bytes expected from a single-item recipient callback.
pub open spec fn single_magic() -> Seq<u8> {
    seq![0xf2u8, 0x3au8, 0x6eu8, 0x61u8]
}

/// The acknowledgement bytes expected from a batch recipient callback.
pub open spec fn batch_magic() -> Seq<u8> {
    seq![0xbcu8, 0x19u8, 0x7cu8, 0x81u8]
}

/// What the recipient's acceptance callback came back with.
pub enum CallbackOutcome {
    /// The callback returned these bytes.
    Returned(Vec<u8>),
    /// The recipient address holds no executable code: a plain account,
    /// which accepts trivially.
    NoCode,
    /// The call itself failed.
    Failed,
}

/// Whether an acceptance-callback outcome lets the transfer stand: a plain
/// account always does, a returning callback only with the exact magic
/// bytes of the used selector, and a failed call never.
pub open spec fn acceptance_ok(outcome: CallbackOutcome, batch: bool) -> bool {
    match outcome {
        CallbackOutcome::NoCode => true,
        CallbackOutcome::Failed => false,
        CallbackOutcome::Returned(bytes) => bytes@ == if batch {
            batch_magic()
        } else {
            single_magic()
        },
    }
}

/// The data payload of a batch acceptance callback: the UTF-8 bytes of the
/// per-item auxiliary strings, joined by a delimiter byte.
pub open spec fn joined_payload(gens: Seq<Seq<char>>) -> Seq<u8>
    decreases gens.len(),
{
    if gens.len() == 0 {
        Seq::empty()
    } else if gens.len() == 1 {
        vstd::utf8::encode_utf8(gens[0])
    } else {
        vstd::utf8::encode_utf8(gens[0]) + seq![124u8] + joined_payload(gens.drop_first())
    }
}

/// Appending one more string to a join moves the delimiter in front of it.
proof fn lemma_joined_push(s: Seq<Seq<char>>, x: Seq<char>)
    ensures
        joined_payload(s.push(x)) == if s.len() == 0 {
            vstd::utf8::encode_utf8(x)
        } else {
            joined_payload(s) + seq![124u8] + vstd::utf8::encode_utf8(x)
        },
    decreases s.len(),
{
    let p = s.push(x);
    if s.len() == 0 {
        assert(p.len() == 1);
        assert(p[0] == x);
    } else {
        assert(p[0] == s[0]);
        assert(p.drop_first() =~= s.drop_first().push(x));
        lemma_joined_push(s.drop_first(), x);
        if s.len() == 1 {
            assert(s.drop_first().len() == 0);
            assert(joined_payload(p)
                == vstd::utf8::encode_utf8(s[0]) + seq![124u8] + vstd::utf8::encode_utf8(x));
            assert(joined_payload(s) == vstd::utf8::encode_utf8(s[0]));
        } else {
            assert(joined_payload(p)
                == vstd::utf8::encode_utf8(p[0]) + seq![124u8] + joined_payload(p.drop_first()));
            assert(joined_payload(p.drop_first())
                == joined_payload(s.drop_first()) + seq![124u8] + vstd::utf8::encode_utf8(x));
            assert(joined_payload(s)
                == vstd::utf8::encode_utf8(s[0]) + seq![124u8] + joined_payload(s.drop_first()));
            assert((vstd::utf8::encode_utf8(s[0]) + seq![124u8]
                + (joined_payload(s.drop_first()) + seq![124u8] + vstd::utf8::encode_utf8(x)))
                =~= (joined_payload(s) + seq![124u8] + vstd::utf8::encode_utf8(x)));
        }
    }
}

/// The joined data payload of a batch, as bytes.
pub fn join_gens(gens: &Vec<String>) -> (r: Vec<u8>)
    ensures
        r@ == joined_payload(gens.deep_view()),
{
    let mut r: Vec<u8> = Vec::new();
    let n = gens.len();
    proof {
        assert(gens.deep_view().subrange(0, 0) =~= Seq::<Seq<char>>::empty());
    }
    let mut i: usize = 0;
    while i < n
        invariant
            n == gens@.len(),
            0 <= i <= n,
            r@ == joined_payload(gens.deep_view().subrange(0, i as int)),
        decreases n - i,
    {
        let ghost pre = gens.deep_view().subrange(0, i as int);
        if i > 0 {
            r.push(124);
        }
        let mut bs = gens[i].as_str().as_bytes_vec();
        proof {
            assert(gens.deep_view()[i as int] == gens@[i as int]@);
            assert(bs@ == vstd::utf8::encode_utf8(gens.deep_view()[i as int]));
        }
        r.append(&mut bs);
        proof {
            assert(gens.deep_view().subrange(0, i + 1) =~= pre.push(gens.deep_view()[i as int]));
            lemma_joined_push(pre, gens.deep_view()[i as int]);
            if i == 0 {
                assert(r@ =~= joined_payload(pre.push(gens.deep_view()[i as int])));
            } else {
                assert(r@ =~= joined_payload(pre) + seq![124u8]
                    + vstd::utf8::encode_utf8(gens.deep_view()[i as int]));
            }
        }
        i += 1;
    }
    proof {
        assert(gens.deep_view().subrange(0, n as int) =~= gens.deep_view());
    }
    r
}

/// Authorization of a single transfer: the owner may always move its own
/// assets; anyone else needs a positive approval resolution, any negative
/// or failing answer reading as denied.
pub open spec fn single_auth_ok(v: LedgerV, caller: u128, from: u128, t: u128, gen: Seq<char>) -> bool {
    caller == from || resolve_spec(
        v,
        from,
        caller,
        Some(t),
        if gen.len() > 0 {
            Some(gen)
        } else {
            None
        },
    ) == Ok::<bool, Error>(true)
}

/// Authorization of a batch transfer: the owner, or an operator whose
/// whole-collection resolution answers yes.
pub open spec fn batch_auth_ok(v: LedgerV, caller: u128, from: u128) -> bool {
    caller == from || resolve_spec(v, from, caller, None, None) == Ok::<bool, Error>(true)
}

/// State after the commit phase of a single transfer.
pub open spec fn single_prepare_spec(
    v: LedgerV,
    caller: u128,
    from: u128,
    to: u128,
    t: u128,
    amt: u128,
    gen: Seq<char>,
) -> Result<LedgerV, Error> {
    if !single_auth_ok(v, caller, from, t, gen) {
        Err(Error::PermissionDenied)
    } else if to == 0 {
        Err(Error::BadAdress)
    } else if to == from {
        Err(Error::SelfOperation)
    } else {
        commit_one(v, from, to, t, amt, gen)
    }
}

/// State after the commit phase of a batch transfer.
pub open spec fn batch_prepare_spec(
    v: LedgerV,
    caller: u128,
    from: u128,
    to: u128,
    ids: Seq<u128>,
    vals: Seq<u128>,
    gens: Seq<Seq<char>>,
) -> Result<LedgerV, Error> {
    if !batch_auth_ok(v, caller, from) {
        Err(Error::PermissionDenied)
    } else if to == 0 {
        Err(Error::BadAdress)
    } else if to == from {
        Err(Error::SelfOperation)
    } else if ids.len() == 0 {
        Err(Error::WrongArgument)
    } else if ids.len() != vals.len() || ids.len() != gens.len() {
        Err(Error::WrongArgument)
    } else {
        commit_items(v, from, to, zip3(ids, vals, gens))
    }
}

/// Drop the approval and instance-approval entries of `(caller, from)`:
/// the whole-pair revocation that follows every executed transfer.
pub open spec fn clear_pair_approvals(v: LedgerV, caller: u128, from: u128) -> LedgerV {
    LedgerV {
        approvals: v.approvals.remove((caller, from)),
        nft_approvals: v.nft_approvals.remove((caller, from)),
        ..v
    }
}

/// The transfer records a committed transfer produces, one per item.
pub open spec fn transfer_records(caller: u128, from: u128, to: u128, ids: Seq<u128>, vals: Seq<u128>) -> Seq<TransferSingle> {
    Seq::new(ids.len(), |i: int| TransferSingle {
        operator: Some(caller),
        from: Some(from),
        to: Some(to),
        token_id: ids[i],
        value: vals[i],
    })
}

/// Add `t` to the limited-scope token list of `(owner, operator)`,
/// creating the entry when missing and keeping the list duplicate-free.
pub open spec fn add_token_m(a: ApprovalMapV, owner: u128, operator: u128, t: u128) -> ApprovalMapV {
    let k = (owner, operator);
    if a.contains_key(k) {
        if a[k].1.contains(t) {
            a
        } else {
            a.insert(k, (a[k].0, a[k].1.push(t)))
        }
    } else {
        a.insert(k, (ApprovalScope::Limited, seq![t]))
    }
}

/// Add identity `id` to the instance-approval list of `(owner, operator)`.
pub open spec fn add_instance_m(n: IdListMapV, owner: u128, operator: u128, id: Seq<u8>) -> IdListMapV {
    let k = (owner, operator);
    if n.contains_key(k) {
        if n[k].contains(id) {
            n
        } else {
            n.insert(k, n[k].push(id))
        }
    } else {
        n.insert(k, seq![id])
    }
}

/// Result of a grant walk: the two updated approval tables and the grant
/// records produced along the way.
pub type GrantResultV = Result<(ApprovalMapV, IdListMapV, Seq<Approval>), Error>;

/// Record, one seed at a time, instance approvals over token `t` for the
/// identities derived from `gs`; each identity must currently be owned
/// (present in `owned`), and each grant also lists `t` itself.
pub open spec fn grant_instances_m(
    a: ApprovalMapV,
    n: IdListMapV,
    owned: Seq<Seq<u8>>,
    owner: u128,
    operator: u128,
    t: u128,
    gs: Seq<Seq<char>>,
) -> GrantResultV
    decreases gs.len(),
{
    if gs.len() == 0 {
        Ok((a, n, Seq::empty()))
    } else {
        let id = identity_of(gs[0]);
        if !owned.contains(id) {
            Err(Error::PermissionDenied)
        } else {
            let n1 = add_instance_m(n, owner, operator, id);
            let a1 = add_token_m(a, owner, operator, t);
            match grant_instances_m(a1, n1, owned, owner, operator, t, gs.drop_first()) {
                Ok((a2, n2, es)) => Ok(
                    (a2, n2, seq![Approval { owner, operator, id: t }] + es),
                ),
                Err(e) => Err(e),
            }
        }
    }
}

/// Process a sequence of grant entries: a fungible id joins the limited
/// list directly; a non-fungible id needs a seed list, an existing holding
/// entry, and ownership of each derived identity.
pub open spec fn grant_entries_m(
    v: LedgerV,
    a: ApprovalMapV,
    n: IdListMapV,
    caller: u128,
    operator: u128,
    entries: Seq<(u128, Option<Seq<Seq<char>>>)>,
) -> GrantResultV
    decreases entries.len(),
{
    if entries.len() == 0 {
        Ok((a, n, Seq::empty()))
    } else {
        let t = entries[0].0;
        if t >= v.variety {
            Err(Error::NotFound)
        } else if v.types[t as int].1 == TokenKind::Ft {
            let a1 = add_token_m(a, caller, operator, t);
            match grant_entries_m(v, a1, n, caller, operator, entries.drop_first()) {
                Ok((a2, n2, es)) => Ok(
                    (a2, n2, seq![Approval { owner: caller, operator, id: t }] + es),
                ),
                Err(e) => Err(e),
            }
        } else {
            match entries[0].1 {
                Option::None => Err(Error::WrongArgument),
                Option::Some(gs) => {
                    if !v.nfts.contains_key((caller, t)) {
                        Err(Error::NotFound)
                    } else {
                        match grant_instances_m(a, n, v.nfts[(caller, t)], caller, operator, t, gs) {
                            Ok((a1, n1, es1)) => match grant_entries_m(
                                v,
                                a1,
                                n1,
                                caller,
                                operator,
                                entries.drop_first(),
                            ) {
                                Ok((a2, n2, es2)) => Ok((a2, n2, es1 + es2)),
                                Err(e) => Err(e),
                            },
                            Err(e) => Err(e),
                        }
                    }
                },
            }
        }
    }
}

/// State and grant records after `caller` grants `operator` the listed
/// approvals.
pub open spec fn set_approval_spec(
    v: LedgerV,
    caller: u128,
    operator: u128,
    entries: Seq<(u128, Option<Seq<Seq<char>>>)>,
) -> Result<(LedgerV, Seq<Approval>), Error> {
    if operator == 0 {
        Err(Error::BadAdress)
    } else if caller == operator {
        Err(Error::SelfOperation)
    } else {
        match grant_entries_m(v, v.approvals, v.nft_approvals, caller, operator, entries) {
            Ok((a, n, es)) => Ok((LedgerV { approvals: a, nft_approvals: n, ..v }, es)),
            Err(e) => Err(e),
        }
    }
}

/// `add_token_m` keeps every token list duplicate-free.
proof fn lemma_add_token_distinct(a: ApprovalMapV, owner: u128, operator: u128, t: u128)
    requires
        approval_lists_distinct(a),
    ensures
        approval_lists_distinct(add_token_m(a, owner, operator, t)),
{
    let k = (owner, operator);
    let a1 = add_token_m(a, owner, operator, t);
    assert forall|k2: (u128, u128)| #[trigger] a1.contains_key(k2) implies
        distinct_seq(a1[k2].1) by {
        if k2 == k {
            if a.contains_key(k) {
                assert(distinct_seq(a[k].1));
                if !a[k].1.contains(t) {
                    let l = a[k].1.push(t);
                    assert forall|i: int, j: int| 0 <= i < j < l.len() implies l[i] != l[j] by {
                        if j == l.len() - 1 {
                            assert(l[i] == a[k].1[i]);
                            assert(a[k].1.contains(a[k].1[i]));
                        }
                    }
                }
            }
        } else {
            assert(a.contains_key(k2));
        }
    }
}

/// `add_instance_m` keeps every identity list duplicate-free.
proof fn lemma_add_instance_distinct(n: IdListMapV, owner: u128, operator: u128, id: Seq<u8>)
    requires
        id_lists_distinct(n),
    ensures
        id_lists_distinct(add_instance_m(n, owner, operator, id)),
{
    let k = (owner, operator);
    let n1 = add_instance_m(n, owner, operator, id);
    assert forall|k2: (u128, u128)| #[trigger] n1.contains_key(k2) implies
        distinct_seq(n1[k2]) by {
        if k2 == k {
            if n.contains_key(k) {
                assert(distinct_seq(n[k]));
                if !n[k].contains(id) {
                    let l = n[k].push(id);
                    assert forall|i: int, j: int| 0 <= i < j < l.len() implies l[i] != l[j] by {
                        if j == l.len() - 1 {
                            assert(l[i] == n[k][i]);
                            assert(n[k].contains(n[k][i]));
                        }
                    }
                }
            }
        } else {
            assert(n.contains_key(k2));
        }
    }
}

/// A grant walk over seeds keeps both tables duplicate-free.
proof fn lemma_grant_instances_distinct(
    a: ApprovalMapV,
    n: IdListMapV,
    owned: Seq<Seq<u8>>,
    owner: u128,
    operator: u128,
    t: u128,
    gs: Seq<Seq<char>>,
)
    requires
        approval_lists_distinct(a),
        id_lists_distinct(n),
    ensures
        match grant_instances_m(a, n, owned, owner, operator, t, gs) {
            Ok((a2, n2, _)) => approval_lists_distinct(a2) && id_lists_distinct(n2),
            Err(_) => true,
        },
    decreases gs.len(),
{
    if gs.len() == 0 {
    } else {
        let id = identity_of(gs[0]);
        if owned.contains(id) {
            let n1 = add_instance_m(n, owner, operator, id);
            let a1 = add_token_m(a, owner, operator, t);
            lemma_add_instance_distinct(n, owner, operator, id);
            lemma_add_token_distinct(a, owner, operator, t);
            lemma_grant_instances_distinct(a1, n1, owned, owner, operator, t, gs.drop_first());
        }
    }
}

/// A grant walk over entries keeps both tables duplicate-free.
proof fn lemma_grant_entries_distinct(
    v: LedgerV,
    a: ApprovalMapV,
    n: IdListMapV,
    caller: u128,
    operator: u128,
    entries: Seq<(u128, Option<Seq<Seq<char>>>)>,
)
    requires
        approval_lists_distinct(a),
        id_lists_distinct(n),
    ensures
        match grant_entries_m(v, a, n, caller, operator, entries) {
            Ok((a2, n2, _)) => approval_lists_distinct(a2) && id_lists_distinct(n2),
            Err(_) => true,
        },
    decreases entries.len(),
{
    if entries.len() == 0 {
    } else {
        let t = entries[0].0;
        if t < v.variety {
            if v.types[t as int].1 == TokenKind::Ft {
                let a1 = add_token_m(a, caller, operator, t);
                lemma_add_token_distinct(a, caller, operator, t);
                lemma_grant_entries_distinct(v, a1, n, caller, operator, entries.drop_first());
            } else {
                match entries[0].1 {
                    Option::None => {},
                    Option::Some(gs) => {
                        if v.nfts.contains_key((caller, t)) {
                            lemma_grant_instances_distinct(
                                a,
                                n,
                                v.nfts[(caller, t)],
                                caller,
                                operator,
                                t,
                                gs,
                            );
                            match grant_instances_m(
                                a,
                                n,
                                v.nfts[(caller, t)],
                                caller,
                                operator,
                                t,
                                gs,
                            ) {
                                Ok((a1, n1, _)) => {
                                    lemma_grant_entries_distinct(
                                        v,
                                        a1,
                                        n1,
                                        caller,
                                        operator,
                                        entries.drop_first(),
                                    );
                                },
                                Err(_) => {},
                            }
                        }
                    },
                }
            }
        }
    }
}

/// Replacing only the approval tables of a well-formed state, by tables
/// whose lists are duplicate-free, keeps the state well-formed.
proof fn lemma_wf_with_approval_maps(v0: LedgerV, v1: LedgerV)
    requires
        view_wf(v0),
        v1.founder == v0.founder,
        v1.pool_account == v0.pool_account,
        v1.variety == v0.variety,
        v1.types == v0.types,
        v1.balances == v0.balances,
        v1.nfts == v0.nfts,
        approval_lists_distinct(v1.approvals),
        id_lists_distinct(v1.nft_approvals),
    ensures
        view_wf(v1),
{
    assert forall|k: (u128, u128)| #[trigger] v1.balances.contains_key(k) implies
        k.1 < v1.variety by {
        assert(v0.balances.contains_key(k));
    }
    assert forall|k: (u128, u128)| #[trigger] v1.nfts.contains_key(k) implies
        is_nft_token(v1, k.1) && distinct_seq(v1.nfts[k]) by {
        assert(v0.nfts.contains_key(k));
    }
    assert forall|a: u128, t: u128| is_nft_token(v1, t) implies
        #[trigger] bal_in(v1, a, t) == holdings_in(v1, a, t).len() by {
        assert(bal_in(v1, a, t) == bal_in(v0, a, t));
        assert(holdings_in(v1, a, t) == holdings_in(v0, a, t));
        assert(is_nft_token(v0, t));
    }
}

/// Add `t` to the limited token list held in a working approval table.
fn add_token_approval(work: &mut PairMap<ApprovalRecord>, owner: u128, operator: u128, t: u128)
    requires
        old(work).wf(),
    ensures
        final(work).wf(),
        final(work)@ == add_token_m(old(work)@, owner, operator, t),
{
    let decision: Option<ApprovalRecord> = match work.get(owner, operator) {
        Some(rec) => {
            if u128_list_contains(&rec.tokens, t) {
                None
            } else {
                let mut ts = copy_u128_list(&rec.tokens);
                ts.push(t);
                Some(ApprovalRecord { scope: rec.scope, tokens: ts })
            }
        },
        None => {
            let mut ts: Vec<u128> = Vec::new();
            ts.push(t);
            Some(ApprovalRecord { scope: ApprovalScope::Limited, tokens: ts })
        },
    };
    match decision {
        Some(rec) => {
            proof {
                if old(work)@.contains_key((owner, operator)) {
                    assert(rec.deep_view()
                        == (old(work)@[(owner, operator)].0, old(work)@[(owner, operator)].1.push(t)));
                } else {
                    assert(rec.tokens@ =~= seq![t]);
                }
            }
            work.insert(owner, operator, rec);
        },
        None => {},
    }
}

/// Add `id` to the instance-approval list held in a working table.
fn add_instance_approval(work: &mut PairMap<Vec<Vec<u8>>>, owner: u128, operator: u128, id: &Vec<u8>)
    requires
        old(work).wf(),
    ensures
        final(work).wf(),
        final(work)@ == add_instance_m(old(work)@, owner, operator, id@),
{
    let decision: Option<Vec<Vec<u8>>> = match work.get(owner, operator) {
        Some(l) => {
            if id_list_contains(l, id) {
                None
            } else {
                let mut l2 = copy_id_list(l);
                let ghost d0 = l2.deep_view();
                let ghost v0 = l2@;
                let cb = copy_bytes(id);
                l2.push(cb);
                proof {
                    assert(l2@ == v0.push(cb));
                    assert forall|j: int| 0 <= j < d0.len() implies l2.deep_view()[j] == d0[j] by {
                        assert(l2@[j] == v0[j]);
                    }
                    assert(l2.deep_view()[d0.len() as int] == cb@);
                    assert(l2.deep_view() =~= d0.push(id@));
                }
                Some(l2)
            }
        },
        None => {
            let mut l2: Vec<Vec<u8>> = Vec::new();
            let cb = copy_bytes(id);
            l2.push(cb);
            proof {
                assert(l2@ == Seq::<Vec<u8>>::empty().push(cb));
                assert(l2.deep_view()[0] == cb@);
                assert(l2.deep_view() =~= seq![id@]);
            }
            Some(l2)
        },
    };
    match decision {
        Some(l2) => {
            proof {
                if old(work)@.contains_key((owner, operator)) {
                    assert(l2.deep_view() =~= old(work)@[(owner, operator)].push(id@));
                } else {
                    assert(l2.deep_view() =~= seq![id@]);
                }
            }
            work.insert(owner, operator, l2);
        },
        None => {},
    }
}

/// Walk one seed list for [`Erc1155Contract::set_approval`], recording the
/// grants in the working tables and appending the produced records to `evs`.
fn apply_grant_instances(
    work_a: &mut PairMap<ApprovalRecord>,
    work_n: &mut PairMap<Vec<Vec<u8>>>,
    owned: &Vec<Vec<u8>>,
    owner: u128,
    operator: u128,
    t: u128,
    gens: &Vec<String>,
    evs: &mut Vec<Approval>,
) -> (r: Result<(), Error>)
    requires
        old(work_a).wf(),
        old(work_n).wf(),
    ensures
        final(work_a).wf(),
        final(work_n).wf(),
        match r {
            Ok(u) => grant_instances_m(
                old(work_a)@,
                old(work_n)@,
                owned.deep_view(),
                owner,
                operator,
                t,
                gens.deep_view(),
            ) == Ok::<_, Error>(
                (
                    final(work_a)@,
                    final(work_n)@,
                    final(evs)@.subrange(old(evs)@.len() as int, final(evs)@.len() as int),
                ),
            ) && final(evs)@.len() >= old(evs)@.len()
                && final(evs)@.subrange(0, old(evs)@.len() as int) == old(evs)@,
            Err(e) => grant_instances_m(
                old(work_a)@,
                old(work_n)@,
                owned.deep_view(),
                owner,
                operator,
                t,
                gens.deep_view(),
            ) == Err::<(ApprovalMapV, IdListMapV, Seq<Approval>), Error>(e),
        },
{
    let ghost a0 = work_a@;
    let ghost n0 = work_n@;
    let ghost e0 = evs@;
    let ghost ownedv = owned.deep_view();
    let ghost gsv = gens.deep_view();
    let m = gens.len();
    proof {
        assert(gsv.skip(0) =~= gsv);
        assert(e0.subrange(0, e0.len() as int) =~= e0);
        match grant_instances_m(a0, n0, ownedv, owner, operator, t, gsv) {
            Ok((a2, n2, es)) => {
                assert(e0.subrange(e0.len() as int, e0.len() as int) + es =~= es);
            },
            Err(_) => {},
        }
    }
    let mut i: usize = 0;
    while i < m
        invariant
            work_a.wf(),
            work_n.wf(),
            m == gens@.len(),
            gsv == gens.deep_view(),
            ownedv == owned.deep_view(),
            a0 == old(work_a)@,
            n0 == old(work_n)@,
            e0 == old(evs)@,
            0 <= i <= m,
            evs@.len() >= e0.len(),
            evs@.subrange(0, e0.len() as int) == e0,
            grant_instances_m(a0, n0, ownedv, owner, operator, t, gsv)
                == (match grant_instances_m(work_a@, work_n@, ownedv, owner, operator, t, gsv.skip(i as int)) {
                    Ok((a2, n2, es)) => Ok::<_, Error>(
                        (a2, n2, evs@.subrange(e0.len() as int, evs@.len() as int) + es),
                    ),
                    Err(e) => Err(e),
                }),
        decreases m - i,
    {
        let ghost gs_i = gsv.skip(i as int);
        proof {
            assert(gsv.len() == m);
            assert(gs_i.len() == m - i);
            assert(gs_i[0] == gsv[i as int]);
            assert(gens.deep_view()[i as int] == gens@[i as int]@);
        }
        let id = seed_identity(gens[i].as_str());
        let present = id_list_contains(owned, &id);
        if !present {
            proof {
                assert(grant_instances_m(work_a@, work_n@, ownedv, owner, operator, t, gs_i)
                    == Err::<(ApprovalMapV, IdListMapV, Seq<Approval>), Error>(Error::PermissionDenied));
            }
            return Err(Error::PermissionDenied);
        }
        let ghost a_i = work_a@;
        let ghost n_i = work_n@;
        let ghost evs_i = evs@;
        add_instance_approval(work_n, owner, operator, &id);
        add_token_approval(work_a, owner, operator, t);
        evs.push(Approval { owner, operator, id: t });
        proof {
            assert(gs_i.drop_first() =~= gsv.skip(i + 1));
            assert(work_n@ == add_instance_m(n_i, owner, operator, identity_of(gsv[i as int])));
            assert(work_a@ == add_token_m(a_i, owner, operator, t));
            assert(evs@ == evs_i.push(Approval { owner, operator, id: t }));
            assert(evs@.subrange(0, e0.len() as int) =~= e0);
            let pre = evs_i.subrange(e0.len() as int, evs_i.len() as int);
            let pre2 = evs@.subrange(e0.len() as int, evs@.len() as int);
            assert(pre2 =~= pre + seq![Approval { owner, operator, id: t }]);
            match grant_instances_m(work_a@, work_n@, ownedv, owner, operator, t, gsv.skip(i + 1)) {
                Ok((a2, n2, es)) => {
                    assert(grant_instances_m(a_i, n_i, ownedv, owner, operator, t, gs_i)
                        == Ok::<_, Error>((a2, n2, seq![Approval { owner, operator, id: t }] + es)));
                    assert(pre + (seq![Approval { owner, operator, id: t }] + es)
                        =~= pre2 + es);
                },
                Err(e) => {
                    assert(grant_instances_m(a_i, n_i, ownedv, owner, operator, t, gs_i)
                        == Err::<(ApprovalMapV, IdListMapV, Seq<Approval>), Error>(e));
                },
            }
        }
        i += 1;
    }
    proof {
        assert(gsv.skip(m as int) =~= Seq::<Seq<char>>::empty());
        assert(grant_instances_m(work_a@, work_n@, ownedv, owner, operator, t, gsv.skip(m as int))
            == Ok::<_, Error>((work_a@, work_n@, Seq::<Approval>::empty())));
        assert(evs@.subrange(e0.len() as int, evs@.len() as int) + Seq::<Approval>::empty()
            =~= evs@.subrange(e0.len() as int, evs@.len() as int));
    }
    Ok(())
}

/// A transfer whose custody change is already committed and whose
/// recipient-acceptance callback is still outstanding.  Produced by the
/// prepare step; the committer performs the callback with `data` and hands
/// the outcome to the resolve step.
#[derive(Debug)]
pub struct PendingTransfer {
    pub caller: u128,
    pub from: u128,
    pub to: u128,
    pub token_ids: Vec<u128>,
    pub values: Vec<u128>,
    pub gens: Vec<String>,
    pub batch: bool,
    pub data: Vec<u8>,
}

/// Whether an acceptance outcome lets the transfer stand.
pub fn acceptance_check(outcome: &CallbackOutcome, batch: bool) -> (r: bool)
    ensures
        r == acceptance_ok(*outcome, batch),
{
    match outcome {
        CallbackOutcome::NoCode => true,
        CallbackOutcome::Failed => false,
        CallbackOutcome::Returned(bytes) => {
            let mut expected: Vec<u8> = Vec::new();
            if batch {
                expected.push(0xbc);
                expected.push(0x19);
                expected.push(0x7c);
                expected.push(0x81);
                proof {
                    assert(expected@ =~= batch_magic());
                }
            } else {
                expected.push(0xf2);
                expected.push(0x3a);
                expected.push(0x6e);
                expected.push(0x61);
                proof {
                    assert(expected@ =~= single_magic());
                }
            }
            bytes_eq(bytes, &expected)
        },
    }
}

/// The ledger: registry, balance store, approval engine and transfer
/// protocol behind one state value.
pub struct Erc1155Contract {
    founder: u128,
    pool_account: u128,
    variety_of_tokens: u128,
    token_infos: Vec<(String, TokenKind)>,
    balances: PairMap<u128>,
    nfts: PairMap<Vec<Vec<u8>>>,
    approvals: PairMap<ApprovalRecord>,
    nft_approvals: PairMap<Vec<Vec<u8>>>,
}

impl View for Erc1155Contract {
    type V = LedgerV;

    closed spec fn view(&self) -> LedgerV {
        LedgerV {
            founder: self.founder,
            pool_account: self.pool_account,
            variety: self.variety_of_tokens,
            types: self.token_infos.deep_view(),
            balances: self.balances@,
            nfts: self.nfts@,
            approvals: self.approvals@,
            nft_approvals: self.nft_approvals@,
        }
    }
}

/// Initial pool credit selected by an [`AmountOption`].
pub open spec fn initial_supply_of(a: AmountOption) -> u128 {
    match a {
        AmountOption::NoSupply => 0,
        AmountOption::Fixed(n) => n,
        AmountOption::Max => u128::MAX,
    }
}

impl Erc1155Contract {
    /// The concrete tables are well-formed and describe a consistent state.
    pub closed spec fn wf(&self) -> bool {
        &&& self.balances.wf()
        &&& self.nfts.wf()
        &&& self.approvals.wf()
        &&& self.nft_approvals.wf()
        &&& view_wf(self@)
    }

    /// Create the ledger.  The bootstrap registers token id 0 as the fungible
    /// currency, named by the override when that is non-empty, and credits
    /// the selected initial supply to the ledger's own account.
    pub fn new(
        founder: u128,
        pool_account: u128,
        initial_amount: AmountOption,
        currency_name_override: String,
    ) -> (r: Self)
        ensures
            r.wf(),
            r@.founder == founder,
            r@.pool_account == pool_account,
            r@.variety == 1,
            r@.types == seq![
                (
                    if currency_name_override@.len() > 0 {
                        currency_name_override@
                    } else {
                        default_currency_name()
                    },
                    TokenKind::Ft,
                ),
            ],
            r@.balances == Map::<(u128, u128), u128>::empty()
                .insert((pool_account, CURRENCY_TOKEN_ID), initial_supply_of(initial_amount)),
            r@.nfts == Map::<(u128, u128), Seq<Seq<u8>>>::empty(),
            r@.approvals == Map::<(u128, u128), (ApprovalScope, Seq<u128>)>::empty(),
            r@.nft_approvals == Map::<(u128, u128), Seq<Seq<u8>>>::empty(),
    {
        let name = if currency_name_override.as_str().unicode_len() > 0 {
            currency_name_override
        } else {
            String::from_str("SKMiZ")
        };
        let supply = match initial_amount {
            AmountOption::NoSupply => 0,
            AmountOption::Fixed(n) => n,
            AmountOption::Max => u128::MAX,
        };
        let mut token_infos: Vec<(String, TokenKind)> = Vec::new();
        token_infos.push((name, TokenKind::Ft));
        let mut balances: PairMap<u128> = PairMap::new();
        balances.insert(pool_account, CURRENCY_TOKEN_ID, supply);
        let r = Erc1155Contract {
            founder,
            pool_account,
            variety_of_tokens: 1,
            token_infos,
            balances,
            nfts: PairMap::new(),
            approvals: PairMap::new(),
            nft_approvals: PairMap::new(),
        };
        proof {
            assert(r.token_infos.deep_view() =~= seq![
                (
                    if currency_name_override@.len() > 0 {
                        currency_name_override@
                    } else {
                        default_currency_name()
                    },
                    TokenKind::Ft,
                ),
            ]);
            assert(view_wf(r@));
        }
        r
    }

    /// Balance of `owner` for `token_id`; 0 when nothing was ever recorded.
    pub fn balance_of(&self, owner: u128, token_id: u128) -> (r: u128)
        requires
            self.wf(),
        ensures
            r == bal_in(self@, owner, token_id),
    {
        match self.balances.get(owner, token_id) {
            Some(b) => *b,
            None => 0,
        }
    }

    /// The cross product of balances: one row per owner, one column per token id.
    pub fn balance_of_batch(&self, owners: &Vec<u128>, token_ids: &Vec<u128>) -> (r: Vec<Vec<u128>>)
        requires
            self.wf(),
        ensures
            r@.len() == owners@.len(),
            forall|i: int| 0 <= i < owners@.len() ==> #[trigger] r@[i]@.len() == token_ids@.len(),
            forall|i: int, j: int| 0 <= i < owners@.len() && 0 <= j < token_ids@.len()
                ==> #[trigger] r@[i]@[j] == bal_in(self@, owners@[i], token_ids@[j]),
    {
        let mut rows: Vec<Vec<u128>> = Vec::new();
        let n = owners.len();
        let mut i: usize = 0;
        while i < n
            invariant
                self.wf(),
                n == owners@.len(),
                0 <= i <= n,
                rows@.len() == i,
                forall|p: int| 0 <= p < i ==> #[trigger] rows@[p]@.len() == token_ids@.len(),
                forall|p: int, q: int| 0 <= p < i && 0 <= q < token_ids@.len()
                    ==> #[trigger] rows@[p]@[q] == bal_in(self@, owners@[p], token_ids@[q]),
            decreases n - i,
        {
            let mut row: Vec<u128> = Vec::new();
            let m = token_ids.len();
            let mut j: usize = 0;
            while j < m
                invariant
                    self.wf(),
                    m == token_ids@.len(),
                    n == owners@.len(),
                    i < n,
                    0 <= j <= m,
                    row@.len() == j,
                    forall|q: int| 0 <= q < j
                        ==> #[trigger] row@[q] == bal_in(self@, owners@[i as int], token_ids@[q]),
                decreases m - j,
            {
                row.push(self.balance_of(owners[i], token_ids[j]));
                j += 1;
            }
            rows.push(row);
            i += 1;
        }
        rows
    }

    /// The instance identities `owner` holds of `token_id`.  `None` means the
    /// account never held that token, as opposed to holding an empty set.
    pub fn get_nft_owned_list(&self, owner: u128, token_id: u128) -> (r: Option<Vec<Vec<u8>>>)
        requires
            self.wf(),
        ensures
            match r {
                Some(l) => self@.nfts.contains_key((owner, token_id))
                    && l.deep_view() == holdings_in(self@, owner, token_id),
                None => !self@.nfts.contains_key((owner, token_id)),
            },
    {
        match self.nfts.get(owner, token_id) {
            Some(l) => Some(copy_id_list(l)),
            None => None,
        }
    }

    /// Name and kind of an assigned token id.
    pub fn describe(&self, token_id: u128) -> (r: Result<(String, TokenKind), Error>)
        requires
            self.wf(),
        ensures
            match r {
                Ok(d) => token_id < self@.variety
                    && d.0@ == self@.types[token_id as int].0
                    && d.1 == self@.types[token_id as int].1,
                Err(e) => e == Error::NotFound && token_id >= self@.variety,
            },
    {
        let n = self.token_infos.len();
        proof {
            assert(self.token_infos.deep_view().len() == self.token_infos@.len());
            assert(self@.variety == n);
        }
        if token_id >= n as u128 {
            return Err(Error::NotFound);
        }
        let i = token_id as usize;
        proof {
            assert(self.token_infos.deep_view()[i as int] == (self.token_infos@[i as int].0@, self.token_infos@[i as int].1));
        }
        let entry = &self.token_infos[i];
        Ok((entry.0.clone(), entry.1))
    }

    /// Every assigned token id with its name and kind, in creation order.
    /// The registry cannot lose an assigned id, so this always succeeds.
    pub fn get_token_types_list(&self) -> (r: Result<Vec<(u128, String, TokenKind)>, Error>)
        requires
            self.wf(),
        ensures
            match r {
                Ok(l) => {
                    &&& l@.len() == self@.variety
                    &&& forall|i: int| 0 <= i < l@.len()
                        ==> (#[trigger] l@[i]).0 == i && l@[i].1@ == self@.types[i].0
                            && l@[i].2 == self@.types[i].1
                },
                Err(_) => false,
            },
    {
        let mut list: Vec<(u128, String, TokenKind)> = Vec::new();
        let n = self.token_infos.len();
        proof {
            assert(self.token_infos.deep_view().len() == self.token_infos@.len());
        }
        let mut i: usize = 0;
        while i < n
            invariant
                self.wf(),
                n == self.token_infos@.len(),
                n == self@.variety,
                n == self@.types.len(),
                0 <= i <= n,
                list@.len() == i,
                forall|p: int| 0 <= p < i
                    ==> (#[trigger] list@[p]).0 == p && list@[p].1@ == self@.types[p].0
                        && list@[p].2 == self@.types[p].1,
            decreases n - i,
        {
            let entry = &self.token_infos[i];
            proof {
                assert(self.token_infos.deep_view()[i as int]
                    == (self.token_infos@[i as int].0@, self.token_infos@[i as int].1));
            }
            list.push((i as u128, entry.0.clone(), entry.1));
            i += 1;
        }
        Ok(list)
    }

    /// Currency still held by the ledger's own pool account.
    pub fn remained_currency_pool(&self) -> (r: u128)
        requires
            self.wf(),
        ensures
            r == bal_in(self@, self@.pool_account, CURRENCY_TOKEN_ID),
    {
        self.balance_of(self.pool_account, CURRENCY_TOKEN_ID)
    }

    /// Resolve whether `operator` may act on `owner`'s assets; see
    /// [`resolve_spec`] for the full answer table.
    pub fn is_approved(
        &self,
        owner: u128,
        operator: u128,
        token_id: Option<u128>,
        nft_gen: Option<String>,
    ) -> (r: Result<bool, Error>)
        requires
            self.wf(),
        ensures
            r == resolve_spec(self@, owner, operator, token_id, nft_gen.deep_view()),
    {
        let rec = match self.approvals.get(owner, operator) {
            None => {
                return Ok(false);
            },
            Some(rec) => rec,
        };
        proof {
            assert(rec.deep_view() == self@.approvals[(owner, operator)]);
        }
        match rec.scope {
            ApprovalScope::Full => Ok(true),
            ApprovalScope::Limited => {
                let t = match token_id {
                    None => {
                        return Err(Error::WrongArgument);
                    },
                    Some(t) => t,
                };
                let n = self.token_infos.len();
                proof {
                    assert(self.token_infos.deep_view().len() == self.token_infos@.len());
                }
                if t >= n as u128 {
                    return Err(Error::NotFound);
                }
                let i = t as usize;
                proof {
                    assert(self.token_infos.deep_view()[i as int]
                        == (self.token_infos@[i as int].0@, self.token_infos@[i as int].1));
                }
                let kind = self.token_infos[i].1;
                let listed = u128_list_contains(&rec.tokens, t);
                match kind {
                    TokenKind::Ft => Ok(listed),
                    TokenKind::Nft => {
                        let g = match nft_gen {
                            None => {
                                return Err(Error::WrongArgument);
                            },
                            Some(g) => g,
                        };
                        if !listed {
                            return Ok(false);
                        }
                        let id = seed_identity(g.as_str());
                        match self.nft_approvals.get(owner, operator) {
                            None => Ok(false),
                            Some(ids) => Ok(id_list_contains(ids, &id)),
                        }
                    },
                }
            },
        }
    }

    /// Whether `operator` holds a full-scope delegation from `owner`.
    pub fn is_approved_for_all(&self, owner: u128, operator: u128) -> (r: bool)
        requires
            self.wf(),
        ensures
            r == (self@.approvals.contains_key((owner, operator))
                && self@.approvals[(owner, operator)].0 == ApprovalScope::Full),
    {
        match self.is_approved(owner, operator, None, None) {
            Ok(b) => b,
            Err(_) => false,
        }
    }

    /// Register a new token type; only the founder may do so.  Returns the
    /// id assigned to it.
    pub fn create_token_type(
        &mut self,
        caller: u128,
        name: String,
        token_kind: TokenKind,
        initial_amount: AmountOption,
    ) -> (r: Result<u128, Error>)
        requires
            old(self).wf(),
        ensures
            final(self).wf(),
            match r {
                Ok(id) => create_type_spec(old(self)@, caller, name@, token_kind, initial_amount)
                    == Ok::<(LedgerV, u128), Error>((final(self)@, id)),
                Err(e) => create_type_spec(old(self)@, caller, name@, token_kind, initial_amount)
                    == Err::<(LedgerV, u128), Error>(e)
                    && final(self)@ == old(self)@,
            },
    {
        let ghost v0 = self@;
        if caller != self.founder {
            return Err(Error::PermissionDenied);
        }
        if name.as_str().unicode_len() == 0 {
            return Err(Error::WrongArgument);
        }
        if self.variety_of_tokens == u128::MAX {
            return Err(Error::Overflow);
        }
        let id = self.variety_of_tokens;
        let ghost nm = name@;
        let ghost d0 = self.token_infos.deep_view();
        let ghost tv0 = self.token_infos@;
        self.variety_of_tokens = id + 1;
        self.token_infos.push((name, token_kind));
        proof {
            assert(self.token_infos@ == tv0.push((self.token_infos@[tv0.len() as int].0, token_kind)));
            assert forall|j: int| 0 <= j < d0.len() implies self.token_infos.deep_view()[j] == d0[j] by {
                assert(self.token_infos@[j] == tv0[j]);
            }
            assert(self.token_infos.deep_view()[d0.len() as int]
                == (self.token_infos@[d0.len() as int].0@, self.token_infos@[d0.len() as int].1));
            assert(self.token_infos.deep_view() =~= d0.push((nm, token_kind)));
        }
        match token_kind {
            TokenKind::Ft => {
                let supply = match initial_amount {
                    AmountOption::NoSupply => 0,
                    AmountOption::Fixed(n) => n,
                    AmountOption::Max => u128::MAX,
                };
                self.balances.insert(self.pool_account, id, supply);
            },
            TokenKind::Nft => {},
        }
        proof {
            match create_type_spec(v0, caller, nm, token_kind, initial_amount) {
                Ok((v2, id2)) => {
                    assert(self@ =~= v2);
                    lemma_wf_create_type(v0, caller, nm, token_kind, initial_amount);
                },
                Err(_) => {
                    assert(false);
                },
            }
        }
        Ok(id)
    }

    /// Move fungible units between two balance entries.
    fn move_tokens(&mut self, from: u128, to: u128, t: u128, amt: u128) -> (r: Result<(), Error>)
        requires
            old(self).wf(),
            t < old(self)@.variety,
            !is_nft_token(old(self)@, t),
        ensures
            final(self).wf(),
            match r {
                Ok(u) => move_tokens_m(old(self)@, from, to, t, amt)
                    == Ok::<LedgerV, Error>(final(self)@),
                Err(e) => move_tokens_m(old(self)@, from, to, t, amt)
                    == Err::<LedgerV, Error>(e)
                    && final(self)@ == old(self)@,
            },
    {
        let ghost v0 = self@;
        let bal_from = self.balance_of(from, t);
        if bal_from < amt {
            return Err(Error::NotAvailable);
        }
        if from == to {
            return Ok(());
        }
        let bal_to = self.balance_of(to, t);
        if bal_to > u128::MAX - amt {
            return Err(Error::Overflow);
        }
        self.balances.insert(from, t, bal_from - amt);
        self.balances.insert(to, t, bal_to + amt);
        proof {
            assert(self@ =~= (LedgerV {
                balances: v0.balances
                    .insert((from, t), (bal_in(v0, from, t) - amt) as u128)
                    .insert((to, t), (bal_in(v0, to, t) + amt) as u128),
                ..v0
            }));
            lemma_wf_move_tokens(v0, from, to, t, amt);
        }
        Ok(())
    }

    /// Buy `how_much` currency from the pool at a one-to-one rate; `transferred_value`
    /// is the outside payment the committer observed on the call.
    pub fn buy_currency(&mut self, caller: u128, transferred_value: u128, how_much: u128) -> (r: Result<u128, Error>)
        requires
            old(self).wf(),
        ensures
            final(self).wf(),
            match r {
                Ok(amount) => buy_spec(old(self)@, caller, transferred_value, how_much)
                    == Ok::<(LedgerV, u128), Error>((final(self)@, amount)),
                Err(e) => buy_spec(old(self)@, caller, transferred_value, how_much)
                    == Err::<(LedgerV, u128), Error>(e)
                    && final(self)@ == old(self)@,
            },
    {
        if transferred_value < how_much {
            return Err(Error::NotEnoughFee);
        }
        proof {
            assert(!is_nft_token(self@, CURRENCY_TOKEN_ID));
        }
        match self.move_tokens(self.pool_account, caller, CURRENCY_TOKEN_ID, how_much) {
            Ok(_) => Ok(how_much),
            Err(e) => Err(e),
        }
    }

    /// Buy the fixed amount of currency.
    pub fn buy_currency_500(&mut self, caller: u128, transferred_value: u128) -> (r: Result<u128, Error>)
        requires
            old(self).wf(),
        ensures
            final(self).wf(),
            match r {
                Ok(amount) => buy_spec(old(self)@, caller, transferred_value, BUY_AMOUNT_500)
                    == Ok::<(LedgerV, u128), Error>((final(self)@, amount)),
                Err(e) => buy_spec(old(self)@, caller, transferred_value, BUY_AMOUNT_500)
                    == Err::<(LedgerV, u128), Error>(e)
                    && final(self)@ == old(self)@,
            },
    {
        self.buy_currency(caller, transferred_value, BUY_AMOUNT_500)
    }

    /// Mint a non-fungible instance of `token_id` for `caller` from the
    /// seed `gen`: the fixed fee moves to the pool, the derived identity
    /// must be new to the caller's set, and nothing changes on failure.
    pub fn mint(&mut self, caller: u128, token_id: u128, gen: String) -> (r: Result<Vec<u8>, Error>)
        requires
            old(self).wf(),
        ensures
            final(self).wf(),
            match r {
                Ok(id) => mint_spec(old(self)@, caller, token_id, gen@)
                    == Ok::<(LedgerV, Seq<u8>), Error>((final(self)@, id@)),
                Err(e) => mint_spec(old(self)@, caller, token_id, gen@)
                    == Err::<(LedgerV, Seq<u8>), Error>(e)
                    && final(self)@ == old(self)@,
            },
    {
        let ghost v0 = self@;
        let n = self.token_infos.len();
        proof {
            assert(self.token_infos.deep_view().len() == self.token_infos@.len());
        }
        if token_id >= n as u128 {
            return Err(Error::NotFound);
        }
        if gen.as_str().unicode_len() == 0 {
            return Err(Error::WrongArgument);
        }
        let kind = self.token_infos[token_id as usize].1;
        proof {
            assert(self.token_infos.deep_view()[token_id as int]
                == (self.token_infos@[token_id as int].0@, self.token_infos@[token_id as int].1));
        }
        match kind {
            TokenKind::Ft => {
                return Err(Error::NotFound);
            },
            TokenKind::Nft => {},
        }
        // Check fee feasibility before touching anything, so that a later
        // rejection leaves no partial effect.
        let pool = self.pool_account;
        let bal_caller = self.balance_of(caller, CURRENCY_TOKEN_ID);
        if bal_caller < MINT_FEE {
            return Err(Error::NotEnoughFee);
        }
        if caller != pool {
            let bal_pool = self.balance_of(pool, CURRENCY_TOKEN_ID);
            if bal_pool > u128::MAX - MINT_FEE {
                return Err(Error::NotEnoughFee);
            }
        }
        let id = seed_identity(gen.as_str());
        let already = match self.nfts.get(caller, token_id) {
            Some(l) => id_list_contains(l, &id),
            None => false,
        };
        if already {
            return Err(Error::AlreadyExist);
        }
        let bal_t = self.balance_of(caller, token_id);
        if bal_t == u128::MAX {
            return Err(Error::Overflow);
        }
        // Commit: fee first, then the instance and its mirrored count.
        proof {
            assert(!is_nft_token(v0, CURRENCY_TOKEN_ID));
        }
        let fee_moved = self.move_tokens(caller, pool, CURRENCY_TOKEN_ID, MINT_FEE);
        let ghost v1 = self@;
        proof {
            assert(move_tokens_m(v0, caller, pool, CURRENCY_TOKEN_ID, MINT_FEE)
                == Ok::<LedgerV, Error>(v1));
        }
        match fee_moved {
            Ok(_) => {},
            Err(_) => {
                proof {
                    assert(false);
                }
                return Err(Error::NotEnoughFee);
            },
        }
        let new_list: Vec<Vec<u8>> = match self.nfts.get(caller, token_id) {
            Some(l) => {
                let mut l2 = copy_id_list(l);
                let ghost d0 = l2.deep_view();
                let ghost lv0 = l2@;
                let cb = copy_bytes(&id);
                l2.push(cb);
                proof {
                    assert(l2@ == lv0.push(cb));
                    assert forall|j: int| 0 <= j < d0.len() implies l2.deep_view()[j] == d0[j] by {
                        assert(l2@[j] == lv0[j]);
                    }
                    assert(l2.deep_view()[d0.len() as int] == cb@);
                    assert(l2.deep_view() =~= holdings_in(v1, caller, token_id).push(id@));
                }
                l2
            },
            None => {
                let mut l2: Vec<Vec<u8>> = Vec::new();
                let cb = copy_bytes(&id);
                l2.push(cb);
                proof {
                    assert(l2@ == Seq::<Vec<u8>>::empty().push(cb));
                    assert(l2.deep_view()[0] == cb@);
                    assert(holdings_in(v1, caller, token_id) =~= Seq::<Seq<u8>>::empty());
                    assert(l2.deep_view() =~= holdings_in(v1, caller, token_id).push(id@));
                }
                l2
            },
        };
        self.nfts.insert(caller, token_id, new_list);
        self.balances.insert(caller, token_id, bal_t + 1);
        proof {
            assert(bal_in(v1, caller, token_id) == bal_t);
            assert(self@ =~= add_instance_holding(v1, caller, token_id, id@));
            assert(holdings_in(v1, caller, token_id) == holdings_in(v0, caller, token_id));
            lemma_wf_move_tokens(v0, caller, pool, CURRENCY_TOKEN_ID, MINT_FEE);
            lemma_wf_add_instance(v1, caller, token_id, id@);
        }
        Ok(id)
    }

    /// Apply a batch of transfer items to working copies of the balance and
    /// holding tables, and install them only when every item commits: the
    /// batch is all-or-nothing.
    fn commit_batch(
        &mut self,
        from: u128,
        to: u128,
        ids: &Vec<u128>,
        vals: &Vec<u128>,
        gens: &Vec<String>,
    ) -> (r: Result<(), Error>)
        requires
            old(self).wf(),
            from != to,
            ids@.len() == vals@.len(),
            ids@.len() == gens@.len(),
        ensures
            final(self).wf(),
            match r {
                Ok(u) => commit_items(old(self)@, from, to, zip3(ids@, vals@, gens.deep_view()))
                    == Ok::<LedgerV, Error>(final(self)@),
                Err(e) => commit_items(old(self)@, from, to, zip3(ids@, vals@, gens.deep_view()))
                    == Err::<LedgerV, Error>(e)
                    && final(self)@ == old(self)@,
            },
    {
        let ghost v0 = self@;
        let ghost items = zip3(ids@, vals@, gens.deep_view());
        let mut wb = self.balances.duplicate();
        let mut wn = self.nfts.duplicate();
        let n = ids.len();
        let n_types = self.token_infos.len();
        proof {
            assert(items.skip(0) =~= items);
            assert(self.token_infos.deep_view().len() == self.token_infos@.len());
            assert((LedgerV { balances: wb@, nfts: wn@, ..v0 }) =~= v0);
        }
        let mut i: usize = 0;
        while i < n
            invariant
                self.wf(),
                self@ == v0,
                v0 == old(self)@,
                wb.wf(),
                wn.wf(),
                from != to,
                n == ids@.len(),
                n == vals@.len(),
                n == gens@.len(),
                items == zip3(ids@, vals@, gens.deep_view()),
                n_types == v0.variety,
                n_types == self.token_infos@.len(),
                0 <= i <= n,
                view_wf(LedgerV { balances: wb@, nfts: wn@, ..v0 }),
                commit_items(v0, from, to, items) == commit_items(
                    LedgerV { balances: wb@, nfts: wn@, ..v0 },
                    from,
                    to,
                    items.skip(i as int),
                ),
            decreases n - i,
        {
            let ghost cur = LedgerV { balances: wb@, nfts: wn@, ..v0 };
            let ghost its = items.skip(i as int);
            let t = ids[i];
            let amt = vals[i];
            proof {
                assert(its[0] == items[i as int]);
                assert(items[i as int] == (ids@[i as int], vals@[i as int], gens.deep_view()[i as int]));
                assert(gens.deep_view()[i as int] == gens@[i as int]@);
            }
            let ghost gv = gens.deep_view()[i as int];
            let bf = match wb.get(from, t) {
                Some(b) => *b,
                None => 0,
            };
            proof {
                assert(bf == bal_in(cur, from, t));
            }
            if bf < amt {
                proof {
                    assert(commit_one(cur, from, to, t, amt, gv)
                        == Err::<LedgerV, Error>(Error::NotAvailable));
                }
                return Err(Error::NotAvailable);
            }
            let bt = match wb.get(to, t) {
                Some(b) => *b,
                None => 0,
            };
            proof {
                assert(bt == bal_in(cur, to, t));
            }
            if bt > u128::MAX - amt {
                proof {
                    assert(commit_one(cur, from, to, t, amt, gv)
                        == Err::<LedgerV, Error>(Error::Overflow));
                }
                return Err(Error::Overflow);
            }
            wb.insert(from, t, bf - amt);
            wb.insert(to, t, bt + amt);
            let ghost v1c = LedgerV { balances: wb@, nfts: wn@, ..v0 };
            proof {
                assert(v1c.balances == cur.balances
                    .insert((from, t), (bal_in(cur, from, t) - amt) as u128)
                    .insert((to, t), (bal_in(cur, to, t) + amt) as u128));
            }
            if t >= n_types as u128 {
                proof {
                    assert(commit_one(cur, from, to, t, amt, gv)
                        == Err::<LedgerV, Error>(Error::NotFound));
                }
                return Err(Error::NotFound);
            }
            let kind = self.token_infos[t as usize].1;
            proof {
                assert(self.token_infos.deep_view()[t as int]
                    == (self.token_infos@[t as int].0@, self.token_infos@[t as int].1));
                assert(cur.types[t as int].1 == kind);
            }
            match kind {
                TokenKind::Ft => {
                    proof {
                        assert(commit_one(cur, from, to, t, amt, gv) == Ok::<LedgerV, Error>(v1c));
                        assert(its.drop_first() =~= items.skip(i + 1));
                        lemma_wf_commit_one(cur, from, to, t, amt, gv);
                    }
                },
                TokenKind::Nft => {
                    if amt != 1 {
                        proof {
                            assert(commit_one(cur, from, to, t, amt, gv)
                                == Err::<LedgerV, Error>(Error::WrongArgument));
                        }
                        return Err(Error::WrongArgument);
                    }
                    let id = seed_identity(gens[i].as_str());
                    proof {
                        assert(id@ == identity_of(gv));
                    }
                    let has_from = match wn.get(from, t) {
                        Some(l) => id_list_contains(l, &id),
                        None => false,
                    };
                    proof {
                        if !wn@.contains_key((from, t)) {
                            assert(holdings_in(cur, from, t) =~= Seq::<Seq<u8>>::empty());
                        }
                        assert(has_from == holdings_in(cur, from, t).contains(id@));
                    }
                    if !has_from {
                        proof {
                            assert(commit_one(cur, from, to, t, amt, gv)
                                == Err::<LedgerV, Error>(Error::NotFound));
                        }
                        return Err(Error::NotFound);
                    }
                    let to_has = match wn.get(to, t) {
                        Some(l) => id_list_contains(l, &id),
                        None => false,
                    };
                    proof {
                        if !wn@.contains_key((to, t)) {
                            assert(holdings_in(cur, to, t) =~= Seq::<Seq<u8>>::empty());
                        }
                        assert(to_has == holdings_in(cur, to, t).contains(id@));
                    }
                    if to_has {
                        proof {
                            assert(commit_one(cur, from, to, t, amt, gv)
                                == Err::<LedgerV, Error>(Error::AlreadyExist));
                        }
                        return Err(Error::AlreadyExist);
                    }
                    let mut fl = match wn.get(from, t) {
                        Some(l) => copy_id_list(l),
                        None => {
                            proof {
                                assert(false);
                            }
                            Vec::new()
                        },
                    };
                    let ghost flv = fl.deep_view();
                    proof {
                        assert(flv == holdings_in(cur, from, t));
                        assert(cur.nfts.contains_key((from, t)));
                        assert(distinct_seq(flv));
                    }
                    let idx = match id_list_find(&fl, &id) {
                        Some(idx) => idx,
                        None => {
                            proof {
                                assert(false);
                            }
                            0
                        },
                    };
                    let ghost flsh = fl@;
                    fl.swap_remove(idx);
                    proof {
                        assert(fl@ == flsh.update(idx as int, flsh.last()).drop_last());
                        assert forall|j: int| 0 <= j < fl@.len() implies
                            #[trigger] fl.deep_view()[j] == (if j == idx as int {
                                flv[flv.len() - 1]
                            } else {
                                flv[j]
                            }) by {
                            if j == idx as int {
                                assert(fl@[j] == flsh[flsh.len() - 1]);
                            } else {
                                assert(fl@[j] == flsh[j]);
                            }
                        }
                        let ci = id_index_of(flv, id@);
                        assert(flv.contains(id@));
                        assert(0 <= ci < flv.len() && flv[ci] == id@);
                        assert(flv[idx as int] == id@);
                        if ci != idx as int {
                            if ci < idx as int {
                                assert(flv[ci] != flv[idx as int]);
                            } else {
                                assert(flv[idx as int] != flv[ci]);
                            }
                        }
                        assert(ci == idx as int);
                        assert(fl.deep_view() =~= remove_id(flv, id@));
                    }
                    wn.insert(from, t, fl);
                    let mut tl = match wn.get(to, t) {
                        Some(l) => copy_id_list(l),
                        None => Vec::new(),
                    };
                    let ghost tlv = tl.deep_view();
                    proof {
                        assert(tlv == holdings_in(cur, to, t));
                    }
                    let cb = copy_bytes(&id);
                    let ghost tlsh = tl@;
                    tl.push(cb);
                    proof {
                        assert(tl@ == tlsh.push(cb));
                        assert forall|j: int| 0 <= j < tlv.len() implies tl.deep_view()[j] == tlv[j] by {
                            assert(tl@[j] == tlsh[j]);
                        }
                        assert(tl.deep_view()[tlv.len() as int] == cb@);
                        assert(tl.deep_view() =~= tlv.push(id@));
                    }
                    wn.insert(to, t, tl);
                    proof {
                        let v2 = LedgerV { balances: wb@, nfts: wn@, ..v0 };
                        assert(holdings_in(v1c, from, t) == holdings_in(cur, from, t));
                        assert(holdings_in(v1c, to, t) == holdings_in(cur, to, t));
                        assert(v2 =~= move_instance(v1c, from, to, t, id@));
                        assert(commit_one(cur, from, to, t, amt, gv) == Ok::<LedgerV, Error>(v2));
                        assert(its.drop_first() =~= items.skip(i + 1));
                        lemma_wf_commit_one(cur, from, to, t, amt, gv);
                    }
                },
            }
            i += 1;
        }
        proof {
            assert(items.skip(n as int) =~= Seq::<(u128, u128, Seq<char>)>::empty());
        }
        let ghost bf2 = wb@;
        let ghost nf2 = wn@;
        self.balances = wb;
        self.nfts = wn;
        proof {
            assert(self@ =~= (LedgerV { balances: bf2, nfts: nf2, ..v0 }));
        }
        Ok(())
    }

    /// The commit phase of a single transfer: authorization, address
    /// checks, and the atomic custody change.  The returned pending record
    /// carries the data payload for the recipient callback; the transfer is
    /// finished by [`Erc1155Contract::transfer_resolve`].
    pub fn safe_transfer_from_prepare(
        &mut self,
        caller: u128,
        from: u128,
        to: u128,
        token_id: u128,
        amount: u128,
        gen: String,
    ) -> (r: Result<PendingTransfer, Error>)
        requires
            old(self).wf(),
        ensures
            final(self).wf(),
            match r {
                Ok(p) => single_prepare_spec(old(self)@, caller, from, to, token_id, amount, gen@)
                    == Ok::<LedgerV, Error>(final(self)@)
                    && p.caller == caller && p.from == from && p.to == to && p.batch == false
                    && p.token_ids@ == seq![token_id]
                    && p.values@ == seq![amount]
                    && p.gens.deep_view() == seq![gen@]
                    && p.data@ == vstd::utf8::encode_utf8(gen@)
                    && from != to,
                Err(e) => single_prepare_spec(old(self)@, caller, from, to, token_id, amount, gen@)
                    == Err::<LedgerV, Error>(e)
                    && final(self)@ == old(self)@,
            },
    {
        let ghost v0 = self@;
        if caller != from {
            let gen_opt: Option<String> = if gen.as_str().unicode_len() > 0 {
                Some(gen.clone())
            } else {
                None
            };
            proof {
                assert(gen_opt.deep_view() == (if gen@.len() > 0 {
                    Some(gen@)
                } else {
                    None::<Seq<char>>
                }));
            }
            let approved = self.is_approved(from, caller, Some(token_id), gen_opt);
            let ok = match approved {
                Ok(b) => b,
                Err(_) => false,
            };
            if !ok {
                return Err(Error::PermissionDenied);
            }
        }
        if to == 0 {
            return Err(Error::BadAdress);
        }
        if to == from {
            return Err(Error::SelfOperation);
        }
        let mut ids: Vec<u128> = Vec::new();
        ids.push(token_id);
        let mut vals: Vec<u128> = Vec::new();
        vals.push(amount);
        let mut gens: Vec<String> = Vec::new();
        let data = gen.as_str().as_bytes_vec();
        gens.push(gen);
        proof {
            assert(ids@ =~= seq![token_id]);
            assert(vals@ =~= seq![amount]);
            assert(gens.deep_view() =~= seq![gens@[0]@]);
            let items = zip3(ids@, vals@, gens.deep_view());
            assert(items.len() == 1);
            assert(items[0] == (token_id, amount, gens@[0]@));
            assert(items.drop_first() =~= Seq::<(u128, u128, Seq<char>)>::empty());
            match commit_one(v0, from, to, token_id, amount, gens@[0]@) {
                Ok(v1) => {
                    assert(commit_items(v1, from, to, items.drop_first())
                        == Ok::<LedgerV, Error>(v1));
                    assert(commit_items(v0, from, to, items) == Ok::<LedgerV, Error>(v1));
                },
                Err(e) => {
                    assert(commit_items(v0, from, to, items) == Err::<LedgerV, Error>(e));
                },
            }
        }
        match self.commit_batch(from, to, &ids, &vals, &gens) {
            Ok(_) => Ok(PendingTransfer {
                caller,
                from,
                to,
                token_ids: ids,
                values: vals,
                gens,
                batch: false,
                data,
            }),
            Err(e) => Err(e),
        }
    }

    /// The commit phase of a batch transfer: one authorization for the
    /// whole batch, the shape checks, and the atomic item-by-item custody
    /// change, with the joined data payload for the batch callback.
    pub fn safe_batch_transfer_from_prepare(
        &mut self,
        caller: u128,
        from: u128,
        to: u128,
        token_ids: Vec<u128>,
        values: Vec<u128>,
        gens: Vec<String>,
    ) -> (r: Result<PendingTransfer, Error>)
        requires
            old(self).wf(),
        ensures
            final(self).wf(),
            match r {
                Ok(p) => batch_prepare_spec(
                    old(self)@,
                    caller,
                    from,
                    to,
                    token_ids@,
                    values@,
                    gens.deep_view(),
                ) == Ok::<LedgerV, Error>(final(self)@)
                    && p.caller == caller && p.from == from && p.to == to && p.batch == true
                    && p.token_ids@ == token_ids@
                    && p.values@ == values@
                    && p.gens.deep_view() == gens.deep_view()
                    && p.data@ == joined_payload(gens.deep_view())
                    && from != to
                    && p.token_ids@.len() == p.values@.len()
                    && p.token_ids@.len() == p.gens@.len(),
                Err(e) => batch_prepare_spec(
                    old(self)@,
                    caller,
                    from,
                    to,
                    token_ids@,
                    values@,
                    gens.deep_view(),
                ) == Err::<LedgerV, Error>(e)
                    && final(self)@ == old(self)@,
            },
    {
        if caller != from {
            let approved = self.is_approved(from, caller, None, None);
            let ok = match approved {
                Ok(b) => b,
                Err(_) => false,
            };
            if !ok {
                return Err(Error::PermissionDenied);
            }
        }
        if to == 0 {
            return Err(Error::BadAdress);
        }
        if to == from {
            return Err(Error::SelfOperation);
        }
        if token_ids.len() == 0 {
            return Err(Error::WrongArgument);
        }
        if token_ids.len() != values.len() || token_ids.len() != gens.len() {
            return Err(Error::WrongArgument);
        }
        let data = join_gens(&gens);
        match self.commit_batch(from, to, &token_ids, &values, &gens) {
            Ok(_) => Ok(PendingTransfer {
                caller,
                from,
                to,
                token_ids,
                values,
                gens,
                batch: true,
                data,
            }),
            Err(e) => Err(e),
        }
    }

    /// The resolve phase of a transfer, given the recipient's acceptance
    /// outcome.  On acceptance the approval pair of (caller, from) is
    /// revoked in full and one transfer record per item is handed back; on
    /// rejection the committed custody change is rolled back atomically,
    /// reporting the rejection, or — should a reentrant operation have
    /// made the rollback infeasible — a consistency failure with the state
    /// left as committed.
    pub fn transfer_resolve(
        &mut self,
        pending: &PendingTransfer,
        outcome: &CallbackOutcome,
    ) -> (r: Result<Vec<TransferSingle>, Error>)
        requires
            old(self).wf(),
            pending.from != pending.to,
            pending.token_ids@.len() == pending.values@.len(),
            pending.token_ids@.len() == pending.gens@.len(),
        ensures
            final(self).wf(),
            match r {
                Ok(evs) => acceptance_ok(*outcome, pending.batch)
                    && final(self)@ == clear_pair_approvals(old(self)@, pending.caller, pending.from)
                    && evs@ == transfer_records(
                        pending.caller,
                        pending.from,
                        pending.to,
                        pending.token_ids@,
                        pending.values@,
                    ),
                Err(e) => !acceptance_ok(*outcome, pending.batch) && match e {
                    Error::TransferDenied => commit_items(
                        old(self)@,
                        pending.to,
                        pending.from,
                        zip3(pending.token_ids@, pending.values@, pending.gens.deep_view()),
                    ) == Ok::<LedgerV, Error>(final(self)@),
                    Error::StorageInconsistency => commit_items(
                        old(self)@,
                        pending.to,
                        pending.from,
                        zip3(pending.token_ids@, pending.values@, pending.gens.deep_view()),
                    ) is Err && final(self)@ == old(self)@,
                    _ => false,
                },
            },
    {
        let ghost v0 = self@;
        let accepted = acceptance_check(outcome, pending.batch);
        if accepted {
            self.approvals.remove(pending.caller, pending.from);
            self.nft_approvals.remove(pending.caller, pending.from);
            proof {
                assert(self@ =~= clear_pair_approvals(v0, pending.caller, pending.from));
                assert forall|k: (u128, u128)| #[trigger] self@.approvals.contains_key(k) implies
                    distinct_seq(self@.approvals[k].1) by {
                    assert(v0.approvals.contains_key(k));
                }
                assert forall|k: (u128, u128)| #[trigger] self@.nft_approvals.contains_key(k) implies
                    distinct_seq(self@.nft_approvals[k]) by {
                    assert(v0.nft_approvals.contains_key(k));
                }
                lemma_wf_with_approval_maps(v0, self@);
            }
            let mut evs: Vec<TransferSingle> = Vec::new();
            let n = pending.token_ids.len();
            let mut i: usize = 0;
            while i < n
                invariant
                    n == pending.token_ids@.len(),
                    n == pending.values@.len(),
                    0 <= i <= n,
                    evs@.len() == i,
                    forall|j: int| 0 <= j < i ==> #[trigger] evs@[j] == (TransferSingle {
                        operator: Some(pending.caller),
                        from: Some(pending.from),
                        to: Some(pending.to),
                        token_id: pending.token_ids@[j],
                        value: pending.values@[j],
                    }),
                decreases n - i,
            {
                evs.push(TransferSingle {
                    operator: Some(pending.caller),
                    from: Some(pending.from),
                    to: Some(pending.to),
                    token_id: pending.token_ids[i],
                    value: pending.values[i],
                });
                i += 1;
            }
            proof {
                assert(evs@ =~= transfer_records(
                    pending.caller,
                    pending.from,
                    pending.to,
                    pending.token_ids@,
                    pending.values@,
                ));
            }
            Ok(evs)
        } else {
            match self.commit_batch(pending.to, pending.from, &pending.token_ids, &pending.values, &pending.gens) {
                Ok(_) => Err(Error::TransferDenied),
                Err(_) => Err(Error::StorageInconsistency),
            }
        }
    }

    /// The single-item receiver callback of the ledger itself: every
    /// transfer is accepted by answering the magic acknowledgement bytes.
    pub fn on_received(
        &mut self,
        _operator: u128,
        _from: u128,
        _token_id: u128,
        _value: u128,
        _data: Vec<u8>,
    ) -> (r: Vec<u8>)
        ensures
            r@ == single_magic(),
    {
        let mut r: Vec<u8> = Vec::new();
        r.push(0xf2);
        r.push(0x3a);
        r.push(0x6e);
        r.push(0x61);
        proof {
            assert(r@ =~= single_magic());
        }
        r
    }

    /// The batch receiver callback of the ledger itself: accepts too.
    pub fn on_batch_received(
        &mut self,
        _operator: u128,
        _from: u128,
        _token_ids: Vec<u128>,
        _values: Vec<u128>,
        _data: Vec<u8>,
    ) -> (r: Vec<u8>)
        ensures
            r@ == batch_magic(),
    {
        let mut r: Vec<u8> = Vec::new();
        r.push(0xbc);
        r.push(0x19);
        r.push(0x7c);
        r.push(0x81);
        proof {
            assert(r@ =~= batch_magic());
        }
        r
    }

    /// Grant `operator` approvals over the listed tokens: fungible ids join
    /// the limited-scope list; for non-fungible ids every given seed must
    /// derive an identity that `caller` currently owns, which then receives
    /// an instance approval.  Nothing is recorded when any entry fails.
    pub fn set_approval(
        &mut self,
        caller: u128,
        operator: u128,
        approved_tokens: &Vec<(u128, Option<Vec<String>>)>,
    ) -> (r: Result<Vec<Approval>, Error>)
        requires
            old(self).wf(),
        ensures
            final(self).wf(),
            match r {
                Ok(evs) => set_approval_spec(old(self)@, caller, operator, approved_tokens.deep_view())
                    == Ok::<(LedgerV, Seq<Approval>), Error>((final(self)@, evs@)),
                Err(e) => set_approval_spec(old(self)@, caller, operator, approved_tokens.deep_view())
                    == Err::<(LedgerV, Seq<Approval>), Error>(e)
                    && final(self)@ == old(self)@,
            },
    {
        if operator == 0 {
            return Err(Error::BadAdress);
        }
        if caller == operator {
            return Err(Error::SelfOperation);
        }
        let ghost v0 = self@;
        let ghost entv = approved_tokens.deep_view();
        let mut work_a = self.approvals.duplicate();
        let mut work_n = self.nft_approvals.duplicate();
        let mut evs: Vec<Approval> = Vec::new();
        let n_entries = approved_tokens.len();
        let n_types = self.token_infos.len();
        proof {
            assert(entv.skip(0) =~= entv);
            match grant_entries_m(v0, v0.approvals, v0.nft_approvals, caller, operator, entv) {
                Ok((a2, n2, es)) => {
                    assert(Seq::<Approval>::empty() + es =~= es);
                },
                Err(_) => {},
            }
            assert(self.token_infos.deep_view().len() == self.token_infos@.len());
        }
        let mut i: usize = 0;
        while i < n_entries
            invariant
                self.wf(),
                self@ == v0,
                v0 == old(self)@,
                operator != 0,
                caller != operator,
                work_a.wf(),
                work_n.wf(),
                n_entries == approved_tokens@.len(),
                entv == approved_tokens.deep_view(),
                n_types == self.token_infos@.len(),
                n_types == v0.variety,
                0 <= i <= n_entries,
                grant_entries_m(v0, v0.approvals, v0.nft_approvals, caller, operator, entv)
                    == (match grant_entries_m(v0, work_a@, work_n@, caller, operator, entv.skip(i as int)) {
                        Ok((a2, n2, es)) => Ok::<_, Error>((a2, n2, evs@ + es)),
                        Err(e) => Err(e),
                    }),
            decreases n_entries - i,
        {
            let ghost ent_i = entv.skip(i as int);
            proof {
                assert(ent_i[0] == entv[i as int]);
                assert(approved_tokens.deep_view()[i as int]
                    == (approved_tokens@[i as int].0, approved_tokens@[i as int].1.deep_view()));
            }
            let t = approved_tokens[i].0;
            if t >= n_types as u128 {
                proof {
                    assert(grant_entries_m(v0, work_a@, work_n@, caller, operator, ent_i)
                        == Err::<(ApprovalMapV, IdListMapV, Seq<Approval>), Error>(Error::NotFound));
                }
                return Err(Error::NotFound);
            }
            let kind = self.token_infos[t as usize].1;
            proof {
                assert(self.token_infos.deep_view()[t as int]
                    == (self.token_infos@[t as int].0@, self.token_infos@[t as int].1));
                assert(v0.types[t as int].1 == kind);
            }
            match kind {
                TokenKind::Ft => {
                    let ghost a_i = work_a@;
                    let ghost evs_i = evs@;
                    add_token_approval(&mut work_a, caller, operator, t);
                    evs.push(Approval { owner: caller, operator, id: t });
                    proof {
                        assert(ent_i.drop_first() =~= entv.skip(i + 1));
                        let ev = Approval { owner: caller, operator, id: t };
                        match grant_entries_m(v0, work_a@, work_n@, caller, operator, entv.skip(i + 1)) {
                            Ok((a2, n2, es)) => {
                                assert(grant_entries_m(v0, a_i, work_n@, caller, operator, ent_i)
                                    == Ok::<_, Error>((a2, n2, seq![ev] + es)));
                                assert(evs_i + (seq![ev] + es) =~= evs@ + es);
                            },
                            Err(e) => {
                                assert(grant_entries_m(v0, a_i, work_n@, caller, operator, ent_i)
                                    == Err::<(ApprovalMapV, IdListMapV, Seq<Approval>), Error>(e));
                            },
                        }
                    }
                },
                TokenKind::Nft => {
                    match &approved_tokens[i].1 {
                        None => {
                            proof {
                                assert(grant_entries_m(v0, work_a@, work_n@, caller, operator, ent_i)
                                    == Err::<(ApprovalMapV, IdListMapV, Seq<Approval>), Error>(
                                        Error::WrongArgument,
                                    ));
                            }
                            return Err(Error::WrongArgument);
                        },
                        Some(gs) => {
                            proof {
                                assert(approved_tokens@[i as int].1.deep_view()
                                    == Some(gs.deep_view()));
                            }
                            let owned = match self.nfts.get(caller, t) {
                                None => {
                                    proof {
                                        assert(!v0.nfts.contains_key((caller, t)));
                                        assert(grant_entries_m(v0, work_a@, work_n@, caller, operator, ent_i)
                                            == Err::<(ApprovalMapV, IdListMapV, Seq<Approval>), Error>(
                                                Error::NotFound,
                                            ));
                                    }
                                    return Err(Error::NotFound);
                                },
                                Some(l) => l,
                            };
                            let ghost a_i = work_a@;
                            let ghost n_i = work_n@;
                            let ghost evs_i = evs@;
                            match apply_grant_instances(
                                &mut work_a,
                                &mut work_n,
                                owned,
                                caller,
                                operator,
                                t,
                                gs,
                                &mut evs,
                            ) {
                                Ok(_) => {
                                    proof {
                                        assert(ent_i.drop_first() =~= entv.skip(i + 1));
                                        assert(owned.deep_view() == v0.nfts[(caller, t)]);
                                        let delta = evs@.subrange(evs_i.len() as int, evs@.len() as int);
                                        assert(grant_instances_m(a_i, n_i, v0.nfts[(caller, t)], caller, operator, t, gs.deep_view())
                                            == Ok::<_, Error>((work_a@, work_n@, delta)));
                                        assert(evs@.subrange(0, evs_i.len() as int) == evs_i);
                                        match grant_entries_m(v0, work_a@, work_n@, caller, operator, entv.skip(i + 1)) {
                                            Ok((a2, n2, es)) => {
                                                assert(grant_entries_m(v0, a_i, n_i, caller, operator, ent_i)
                                                    == Ok::<_, Error>((a2, n2, delta + es)));
                                                assert(evs_i + (delta + es) =~= evs@ + es);
                                            },
                                            Err(e) => {
                                                assert(grant_entries_m(v0, a_i, n_i, caller, operator, ent_i)
                                                    == Err::<(ApprovalMapV, IdListMapV, Seq<Approval>), Error>(e));
                                            },
                                        }
                                    }
                                },
                                Err(e) => {
                                    proof {
                                        assert(owned.deep_view() == v0.nfts[(caller, t)]);
                                        assert(grant_instances_m(a_i, n_i, v0.nfts[(caller, t)], caller, operator, t, gs.deep_view())
                                            == Err::<(ApprovalMapV, IdListMapV, Seq<Approval>), Error>(e));
                                        assert(grant_entries_m(v0, a_i, n_i, caller, operator, ent_i)
                                            == Err::<(ApprovalMapV, IdListMapV, Seq<Approval>), Error>(e));
                                    }
                                    return Err(e);
                                },
                            }
                        },
                    }
                },
            }
            i += 1;
        }
        proof {
            assert(entv.skip(n_entries as int) =~= Seq::<(u128, Option<Seq<Seq<char>>>)>::empty());
            assert(grant_entries_m(v0, work_a@, work_n@, caller, operator, entv.skip(n_entries as int))
                == Ok::<_, Error>((work_a@, work_n@, Seq::<Approval>::empty())));
            assert(evs@ + Seq::<Approval>::empty() =~= evs@);
        }
        let ghost af = work_a@;
        let ghost nf = work_n@;
        self.approvals = work_a;
        self.nft_approvals = work_n;
        proof {
            assert(self@ =~= (LedgerV { approvals: af, nft_approvals: nf, ..v0 }));
            lemma_grant_entries_distinct(v0, v0.approvals, v0.nft_approvals, caller, operator, entv);
            lemma_wf_with_approval_maps(v0, self@);
        }
        Ok(evs)
    }

    /// Toggle the whole-collection delegation from `caller` to `operator`.
    pub fn set_approval_for_all(
        &mut self,
        caller: u128,
        operator: u128,
        approved: bool,
    ) -> (r: Result<ApprovalForAll, Error>)
        requires
            old(self).wf(),
        ensures
            final(self).wf(),
            match r {
                Ok(ev) => set_approval_for_all_spec(old(self)@, caller, operator, approved)
                    == Ok::<LedgerV, Error>(final(self)@)
                    && ev == (ApprovalForAll { owner: caller, operator, approved }),
                Err(e) => set_approval_for_all_spec(old(self)@, caller, operator, approved)
                    == Err::<LedgerV, Error>(e)
                    && final(self)@ == old(self)@,
            },
    {
        if operator == 0 {
            return Err(Error::BadAdress);
        }
        if operator == caller {
            return Err(Error::SelfOperation);
        }
        let ghost v0 = self@;
        let scope = if approved { ApprovalScope::Full } else { ApprovalScope::Limited };
        let existing: Option<Vec<u128>> = match self.approvals.get(caller, operator) {
            Some(rec) => Some(copy_u128_list(&rec.tokens)),
            None => None,
        };
        match existing {
            Some(tokens) => {
                let ghost toks = tokens@;
                self.approvals.insert(caller, operator, ApprovalRecord { scope, tokens });
                proof {
                    assert(self@ =~= (LedgerV {
                        approvals: v0.approvals.insert((caller, operator), (scope, toks)),
                        ..v0
                    }));
                    assert(toks == v0.approvals[(caller, operator)].1);
                    lemma_wf_after_approval_insert(v0, self@, caller, operator, scope, toks);
                }
            },
            None => {
                if approved {
                    self.approvals.insert(
                        caller,
                        operator,
                        ApprovalRecord { scope: ApprovalScope::Full, tokens: Vec::new() },
                    );
                    proof {
                        assert(self@ =~= (LedgerV {
                            approvals: v0.approvals.insert(
                                (caller, operator),
                                (ApprovalScope::Full, Seq::empty()),
                            ),
                            ..v0
                        }));
                        lemma_wf_after_approval_insert(
                            v0,
                            self@,
                            caller,
                            operator,
                            ApprovalScope::Full,
                            Seq::empty(),
                        );
                    }
                }
            },
        }
        Ok(ApprovalForAll { owner: caller, operator, approved })
    }
}

/// Inserting an approval entry whose token list has no duplicates keeps the
/// ledger well-formed.
proof fn lemma_wf_after_approval_insert(
    v0: LedgerV,
    v1: LedgerV,
    owner: u128,
    operator: u128,
    scope: ApprovalScope,
    toks: Seq<u128>,
)
    requires
        view_wf(v0),
        distinct_seq(toks),
        v1 == (LedgerV { approvals: v0.approvals.insert((owner, operator), (scope, toks)), ..v0 }),
    ensures
        view_wf(v1),
{
    assert forall|k: (u128, u128)| #[trigger] v1.balances.contains_key(k) implies
        k.1 < v1.variety by {
        assert(v0.balances.contains_key(k));
    }
    assert forall|a: u128, t: u128| is_nft_token(v1, t) implies
        #[trigger] bal_in(v1, a, t) == holdings_in(v1, a, t).len() by {
        assert(bal_in(v1, a, t) == bal_in(v0, a, t));
        assert(holdings_in(v1, a, t) == holdings_in(v0, a, t));
        assert(is_nft_token(v0, t));
    }
    assert forall|k: (u128, u128)| #[trigger] v1.approvals.contains_key(k) implies
        distinct_seq(v1.approvals[k].1) by {
        if k != (owner, operator) {
            assert(v0.approvals.contains_key(k));
        }
    }
}

/// A well-formed ledger's abstract state meets the public consistency
/// conditions: every assigned id has a registry entry, identity and
/// approval lists are duplicate-free, instance entries belong to assigned
/// non-fungible ids, and the integer balance of a non-fungible token
/// mirrors the size of the instance set.
pub proof fn lemma_wf_view(c: &Erc1155Contract)
    requires
        c.wf(),
    ensures
        view_wf(c@),
{
}

/// Conservation under one committed transfer item: the sender is debited
/// and the recipient credited by exactly the transferred amount, their sum
/// is unchanged, and every other account's balance of that token stays as
/// it was.
pub proof fn lemma_transfer_conservation(
    v: LedgerV,
    v2: LedgerV,
    from: u128,
    to: u128,
    t: u128,
    amt: u128,
    gen: Seq<char>,
)
    requires
        from != to,
        commit_one(v, from, to, t, amt, gen) == Ok::<LedgerV, Error>(v2),
    ensures
        bal_in(v2, from, t) == bal_in(v, from, t) - amt,
        bal_in(v2, to, t) == bal_in(v, to, t) + amt,
        bal_in(v2, from, t) + bal_in(v2, to, t) == bal_in(v, from, t) + bal_in(v, to, t),
        forall|a: u128| a != from && a != to ==> #[trigger] bal_in(v2, a, t) == bal_in(v, a, t),
{
    let bf = bal_in(v, from, t);
    let bt = bal_in(v, to, t);
    let b2 = v.balances
        .insert((from, t), (bf - amt) as u128)
        .insert((to, t), (bt + amt) as u128);
    assert(v2.balances == b2);
}

/// Conservation across a whole committed batch: for every token, the sum
/// of the sender's and the recipient's balances is unchanged, and every
/// other account's balance of that token stays as it was.
pub proof fn lemma_batch_conservation(
    v: LedgerV,
    v2: LedgerV,
    from: u128,
    to: u128,
    items: ItemsV,
    t: u128,
)
    requires
        from != to,
        commit_items(v, from, to, items) == Ok::<LedgerV, Error>(v2),
    ensures
        bal_in(v2, from, t) + bal_in(v2, to, t) == bal_in(v, from, t) + bal_in(v, to, t),
        forall|a: u128| a != from && a != to ==> #[trigger] bal_in(v2, a, t) == bal_in(v, a, t),
    decreases items.len(),
{
    if items.len() == 0 {
    } else {
        match commit_one(v, from, to, items[0].0, items[0].1, items[0].2) {
            Ok(v1) => {
                if items[0].0 == t {
                    lemma_transfer_conservation(v, v1, from, to, t, items[0].1, items[0].2);
                } else {
                    assert forall|a: u128| true implies #[trigger] bal_in(v1, a, t) == bal_in(v, a, t) by {
                        assert((a, t) != (from, items[0].0) && (a, t) != (to, items[0].0));
                    }
                }
                lemma_batch_conservation(v1, v2, from, to, items.drop_first(), t);
            },
            Err(_) => {
                assert(false);
            },
        }
    }
}

/// A committed non-fungible transfer moves exactly the identity named by
/// the seed: the sender's set loses it, the recipient's set gains it, no
/// other holding of any account changes, and afterwards only the recipient
/// of the two holds it.
pub proof fn lemma_nft_transfer_moves_identity(
    v: LedgerV,
    v2: LedgerV,
    from: u128,
    to: u128,
    t: u128,
    gen: Seq<char>,
)
    requires
        view_wf(v),
        from != to,
        is_nft_token(v, t),
        commit_one(v, from, to, t, 1, gen) == Ok::<LedgerV, Error>(v2),
    ensures
        holdings_in(v, from, t).contains(identity_of(gen)),
        !holdings_in(v, to, t).contains(identity_of(gen)),
        !holdings_in(v2, from, t).contains(identity_of(gen)),
        holdings_in(v2, to, t).contains(identity_of(gen)),
        holdings_in(v2, from, t).len() == holdings_in(v, from, t).len() - 1,
        holdings_in(v2, to, t).len() == holdings_in(v, to, t).len() + 1,
        forall|x: Seq<u8>| x != identity_of(gen)
            ==> #[trigger] holdings_in(v2, from, t).contains(x) == holdings_in(v, from, t).contains(x),
        forall|x: Seq<u8>| x != identity_of(gen)
            ==> #[trigger] holdings_in(v2, to, t).contains(x) == holdings_in(v, to, t).contains(x),
        forall|a: u128, t2: u128| a != from && a != to
            ==> #[trigger] holdings_in(v2, a, t2) == holdings_in(v, a, t2),
{
    let id = identity_of(gen);
    let lf = holdings_in(v, from, t);
    let lt = holdings_in(v, to, t);
    assert(distinct_seq(lf)) by {
        if v.nfts.contains_key((from, t)) {
            assert(v.nfts.contains_key((from, t)));
        }
    }
    lemma_remove_id(lf, id);
    assert(holdings_in(v2, from, t) == remove_id(lf, id));
    assert(holdings_in(v2, to, t) == lt.push(id));
    assert(lt.push(id)[lt.len() as int] == id);
    assert(lt.push(id).contains(id));
    assert forall|x: Seq<u8>| x != id implies
        #[trigger] holdings_in(v2, to, t).contains(x) == lt.contains(x) by {
        let ltp = lt.push(id);
        if ltp.contains(x) {
            let j = choose|j: int| 0 <= j < ltp.len() && ltp[j] == x;
            assert(j != lt.len());
            assert(lt[j] == x);
            assert(lt.contains(x));
        }
        if lt.contains(x) {
            let j = choose|j: int| 0 <= j < lt.len() && lt[j] == x;
            assert(ltp[j] == x);
            assert(ltp.contains(x));
        }
    }
}

/// Minting the same seed again: the same caller is refused with the
/// duplicate error, as long as the fee can still be paid.
pub proof fn lemma_mint_same_seed_same_caller(
    v: LedgerV,
    v2: LedgerV,
    caller: u128,
    t: u128,
    gen: Seq<char>,
    id: Seq<u8>,
)
    requires
        mint_spec(v, caller, t, gen) == Ok::<(LedgerV, Seq<u8>), Error>((v2, id)),
        bal_in(v2, caller, CURRENCY_TOKEN_ID) >= MINT_FEE,
        caller == v2.pool_account
            || bal_in(v2, v2.pool_account, CURRENCY_TOKEN_ID) + MINT_FEE <= u128::MAX,
    ensures
        mint_spec(v2, caller, t, gen) == Err::<(LedgerV, Seq<u8>), Error>(Error::AlreadyExist),
{
    let idg = identity_of(gen);
    assert(holdings_in(v2, caller, t).contains(idg)) by {
        let l2 = holdings_in(v2, caller, t);
        assert(l2[l2.len() - 1] == idg);
    }
}

/// Minting the same seed by a different caller succeeds: identity
/// collisions across owners are allowed.  The second caller must be able
/// to pay the fee, must not already hold the identity, and must have room
/// in the mirrored count.
pub proof fn lemma_mint_same_seed_other_caller(
    v: LedgerV,
    v2: LedgerV,
    c1: u128,
    c2: u128,
    t: u128,
    gen: Seq<char>,
    id: Seq<u8>,
)
    requires
        mint_spec(v, c1, t, gen) == Ok::<(LedgerV, Seq<u8>), Error>((v2, id)),
        c2 != c1,
        bal_in(v2, c2, CURRENCY_TOKEN_ID) >= MINT_FEE,
        c2 == v2.pool_account
            || bal_in(v2, v2.pool_account, CURRENCY_TOKEN_ID) + MINT_FEE <= u128::MAX,
        !holdings_in(v2, c2, t).contains(identity_of(gen)),
        bal_in(v2, c2, t) < u128::MAX,
    ensures
        mint_spec(v2, c2, t, gen) is Ok,
{
}

/// Full scope approves any token and any instance, whatever the further
/// arguments of the query.
pub proof fn lemma_full_scope_approves_all(
    v: LedgerV,
    owner: u128,
    operator: u128,
    op_token: Option<u128>,
    op_gen: Option<Seq<char>>,
)
    requires
        v.approvals.contains_key((owner, operator)),
        v.approvals[(owner, operator)].0 == ApprovalScope::Full,
    ensures
        resolve_spec(v, owner, operator, op_token, op_gen) == Ok::<bool, Error>(true),
{
}

/// Limited scope over an empty token list approves nothing: no query
/// resolves to a positive answer.
pub proof fn lemma_limited_empty_approves_nothing(
    v: LedgerV,
    owner: u128,
    operator: u128,
    op_token: Option<u128>,
    op_gen: Option<Seq<char>>,
)
    requires
        v.approvals.contains_key((owner, operator)) ==> (
            v.approvals[(owner, operator)].0 == ApprovalScope::Limited
            && v.approvals[(owner, operator)].1.len() == 0
        ),
    ensures
        resolve_spec(v, owner, operator, op_token, op_gen) != Ok::<bool, Error>(true),
{
    if v.approvals.contains_key((owner, operator)) {
        let list = v.approvals[(owner, operator)].1;
        assert forall|t: u128| !(#[trigger] list.contains(t)) by {
            if list.contains(t) {
                let j = choose|j: int| 0 <= j < list.len() && list[j] == t;
            }
        }
    }
}

/// Granting an instance approval over an instance the granting owner does
/// not hold fails with a permission error.
pub proof fn lemma_grant_unowned_instance_denied(
    v: LedgerV,
    caller: u128,
    operator: u128,
    t: u128,
    g: Seq<char>,
)
    requires
        operator != 0,
        caller != operator,
        t < v.variety,
        v.types[t as int].1 == TokenKind::Nft,
        v.nfts.contains_key((caller, t)),
        !v.nfts[(caller, t)].contains(identity_of(g)),
    ensures
        set_approval_spec(v, caller, operator, seq![(t, Some(seq![g]))])
            == Err::<(LedgerV, Seq<Approval>), Error>(Error::PermissionDenied),
{
    let entries = seq![(t, Some(seq![g]))];
    assert(entries[0] == (t, Some(seq![g])));
    let gs = seq![g];
    assert(gs[0] == g);
    assert(grant_instances_m(v.approvals, v.nft_approvals, v.nfts[(caller, t)], caller, operator, t, gs)
        == Err::<(ApprovalMapV, IdListMapV, Seq<Approval>), Error>(Error::PermissionDenied));
}

/// No double spend through reentrancy: custody is committed before the
/// recipient callback runs, so the outer transfer and any transfer a
/// reentrant call commits from the same sender can together move no more
/// than the sender's balance before the outer transfer began.
pub proof fn lemma_no_double_spend(
    v: LedgerV,
    v1: LedgerV,
    v2: LedgerV,
    from: u128,
    to1: u128,
    to2: u128,
    t: u128,
    amt1: u128,
    amt2: u128,
    g1: Seq<char>,
    g2: Seq<char>,
)
    requires
        from != to1,
        from != to2,
        commit_one(v, from, to1, t, amt1, g1) == Ok::<LedgerV, Error>(v1),
        commit_one(v1, from, to2, t, amt2, g2) == Ok::<LedgerV, Error>(v2),
    ensures
        amt1 + amt2 <= bal_in(v, from, t),
{
    lemma_transfer_conservation(v, v1, from, to1, t, amt1, g1);
    lemma_transfer_conservation(v1, v2, from, to2, t, amt2, g2);
}

} // verus!

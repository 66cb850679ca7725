use vstd::prelude::*;

use crate::error::LedgerError;
use crate::pages::{PagesModel, lemma_insert, lemma_owners, lemma_remove};
use crate::Address;
use crate::total::{lemma_total_nonneg, lemma_total_point, total};

verus! {

/// Abstract state of the ledger.
pub struct LedgerModel {
    pub admin: Option<Address>,
    /// The id the next `mint` hands out; ids start at 1.
    pub next_asset_id: u64,
    /// (owner, asset) to amount; a missing entry is a balance of zero.
    pub balances: Map<(Address, u64), u64>,
    /// Total supply of each minted asset.
    pub supply: Map<u64, u64>,
    /// Admin at the time each asset was minted.
    pub creators: Map<u64, Address>,
    /// Paginated owner list of each minted asset.
    pub owners: Map<u64, PagesModel>,
    /// (owner, asset) pairs with a positive balance, for lookups by owner.
    pub holdings: Set<(Address, u64)>,
    /// (owner, operator) to blanket approval.
    pub approvals: Map<(Address, Address), bool>,
    /// (owner, operator, asset) to spend budget.
    pub allowances: Map<(Address, Address, u64), u64>,
    pub asset_uris: Map<u64, Seq<char>>,
    pub contract_uri: Option<Seq<char>>,
}

/// Sum of a list of amounts.
pub open spec fn sum_amounts(s: Seq<u64>) -> int
    decreases s.len(),
{
    if s.len() == 0 {
        0
    } else {
        sum_amounts(s.drop_last()) + s.last()
    }
}

impl LedgerModel {
    pub open spec fn balance(self, o: Address, a: u64) -> u64 {
        if self.balances.contains_key((o, a)) {
            self.balances[(o, a)]
        } else {
            0
        }
    }

    /// Balance of every account in asset `a`, as a function.
    pub open spec fn bal_fn(self, a: u64) -> spec_fn(Address) -> int {
        |o: Address| self.balance(o, a) as int
    }

    pub open spec fn asset_exists(self, a: u64) -> bool {
        self.supply.contains_key(a)
    }

    pub open spec fn supply_of(self, a: u64) -> u64 {
        if self.supply.contains_key(a) {
            self.supply[a]
        } else {
            0
        }
    }

    pub open spec fn is_owner(self, o: Address, a: u64) -> bool {
        self.owners.contains_key(a) && self.owners[a].is_owner(o)
    }

    /// The owners of `a` in page order; empty for an asset never minted.
    pub open spec fn owners_of(self, a: u64) -> Seq<Address> {
        if self.owners.contains_key(a) {
            self.owners[a].owners()
        } else {
            Seq::empty()
        }
    }

    pub open spec fn owner_count(self, a: u64) -> u32 {
        if self.owners.contains_key(a) {
            self.owners[a].count
        } else {
            0
        }
    }

    pub open spec fn approved(self, o: Address, op: Address) -> bool {
        self.approvals.contains_key((o, op)) && self.approvals[(o, op)]
    }

    pub open spec fn allowance(self, o: Address, op: Address, a: u64) -> u64 {
        if self.allowances.contains_key((o, op, a)) {
            self.allowances[(o, op, a)]
        } else {
            0
        }
    }

    /// The ledger's invariant but for supply conservation: assets are the
    /// ids `1..next_asset_id`, each with a well-formed owner list; an account
    /// is on that list, and in `holdings`, exactly when its balance is
    /// positive.
    pub open spec fn wf_shape(self) -> bool {
        &&& self.next_asset_id >= 1
        &&& forall|a: u64| #[trigger]
            self.supply.contains_key(a) <==> 1 <= a < self.next_asset_id
        &&& forall|a: u64| #[trigger]
            self.owners.contains_key(a) <==> self.supply.contains_key(a)
        &&& forall|a: u64| #[trigger]
            self.creators.contains_key(a) <==> self.supply.contains_key(a)
        &&& forall|a: u64| #[trigger] self.owners.contains_key(a) ==> self.owners[a].wf()
        &&& forall|o: Address, a: u64|
            #![trigger self.balance(o, a)]
            #![trigger self.is_owner(o, a)]
            self.balance(o, a) > 0 <==> self.is_owner(o, a)
        &&& forall|o: Address, a: u64| #[trigger]
            self.holdings.contains((o, a)) <==> self.balance(o, a) > 0
    }

    /// Supply conservation: the supply of each asset is the sum of its
    /// owners' balances.
    pub open spec fn sums_ok(self) -> bool {
        forall|a: u64| #[trigger]
            self.supply.contains_key(a) ==> self.supply[a] == total(
                self.owners_of(a),
                self.bal_fn(a),
            )
    }

    pub open spec fn wf(self) -> bool {
        self.wf_shape() && self.sums_ok()
    }

    /// `amt` more of `a` for `r`, who joins the owner list if new.
    pub open spec fn credit(self, a: u64, r: Address, amt: u64) -> LedgerModel {
        let b = self.balance(r, a);
        if b == 0 {
            LedgerModel {
                balances: self.balances.insert((r, a), (b + amt) as u64),
                owners: self.owners.insert(a, self.owners[a].insert(r)),
                holdings: self.holdings.insert((r, a)),
                ..self
            }
        } else {
            LedgerModel { balances: self.balances.insert((r, a), (b + amt) as u64), ..self }
        }
    }

    /// `amt` less of `a` for `o`, who leaves the owner list at zero.
    pub open spec fn debit(self, a: u64, o: Address, amt: u64) -> LedgerModel {
        let b = self.balance(o, a);
        if b - amt == 0 {
            LedgerModel {
                balances: self.balances.insert((o, a), (b - amt) as u64),
                owners: self.owners.insert(a, self.owners[a].remove(o)),
                holdings: self.holdings.remove((o, a)),
                ..self
            }
        } else {
            LedgerModel { balances: self.balances.insert((o, a), (b - amt) as u64), ..self }
        }
    }

    /// `r` can be credited without a counter of the owner list overflowing.
    pub open spec fn can_credit(self, a: u64, r: Address) -> bool {
        self.balance(r, a) > 0 || self.owners[a].can_admit()
    }

    /// Why moving `amt` of `a` from `from` to `to` fails, if it does.
    pub open spec fn move_error(self, from: Address, to: Address, a: u64, amt: u64) -> Option<
        LedgerError,
    > {
        if amt == 0 {
            Some(LedgerError::ZeroAmount)
        } else if from == to {
            Some(LedgerError::SelfTransfer)
        } else if self.balance(from, a) < amt {
            Some(LedgerError::InsufficientBalance)
        } else if !self.can_credit(a, to) {
            Some(LedgerError::Overflow)
        } else {
            None
        }
    }

    /// Moving `amt` of `a` from `from` to `to`, with the owner lists kept.
    pub open spec fn move_tokens(self, from: Address, to: Address, a: u64, amt: u64) -> Result<
        LedgerModel,
        LedgerError,
    > {
        match self.move_error(from, to, a, amt) {
            Some(e) => Err(e),
            None => Ok(self.credit(a, to, amt).debit(a, from, amt)),
        }
    }

    /// The spend rule of a third-party transfer: the owner acting alone must
    /// sign; a blanket approval lets any amount through; otherwise the
    /// allowance must cover the amount and is reduced by it.
    pub open spec fn spend(
        self,
        signers: Seq<Address>,
        op: Address,
        from: Address,
        a: u64,
        amt: u64,
    ) -> Result<LedgerModel, LedgerError> {
        if op == from {
            if signers.contains(from) {
                Ok(self)
            } else {
                Err(LedgerError::Unauthorized)
            }
        } else if self.approved(from, op) {
            Ok(self)
        } else if self.allowance(from, op, a) < amt {
            Err(LedgerError::InsufficientAllowance)
        } else {
            Ok(
                LedgerModel {
                    allowances: self.allowances.insert(
                        (from, op, a),
                        (self.allowance(from, op, a) - amt) as u64,
                    ),
                    ..self
                },
            )
        }
    }

    /// A third-party transfer: the spend rule, then the move.
    pub open spec fn transfer_from_step(
        self,
        signers: Seq<Address>,
        op: Address,
        from: Address,
        to: Address,
        a: u64,
        amt: u64,
    ) -> Result<LedgerModel, LedgerError> {
        match self.spend(signers, op, from, a, amt) {
            Err(e) => Err(e),
            Ok(m) => m.move_tokens(from, to, a, amt),
        }
    }

    /// Third-party transfers of the pairs of `ids` and `amts` in order; the
    /// first failure is the result.
    pub open spec fn batch(
        self,
        signers: Seq<Address>,
        op: Address,
        from: Address,
        to: Address,
        ids: Seq<u64>,
        amts: Seq<u64>,
    ) -> Result<LedgerModel, LedgerError>
        decreases ids.len(),
    {
        if ids.len() == 0 {
            Ok(self)
        } else {
            match self.batch(signers, op, from, to, ids.drop_last(), amts.drop_last()) {
                Err(e) => Err(e),
                Ok(m) => m.transfer_from_step(signers, op, from, to, ids.last(), amts.last()),
            }
        }
    }

    /// Credits each recipient in order.
    pub open spec fn credit_all(self, a: u64, rs: Seq<Address>, amts: Seq<u64>) -> LedgerModel
        decreases rs.len(),
    {
        if rs.len() == 0 {
            self
        } else {
            self.credit_all(a, rs.drop_last(), amts.drop_last()).credit(a, rs.last(), amts.last())
        }
    }

    /// Each credit of `credit_all` finds room on the owner list.
    pub open spec fn admits_all(self, a: u64, rs: Seq<Address>, amts: Seq<u64>) -> bool
        decreases rs.len(),
    {
        if rs.len() == 0 {
            true
        } else {
            self.admits_all(a, rs.drop_last(), amts.drop_last()) && self.credit_all(
                a,
                rs.drop_last(),
                amts.drop_last(),
            ).can_credit(a, rs.last())
        }
    }
}

/// The sum over a duplicate-free sequence of non-negative values is at least
/// the values at any two distinct points in it.
pub proof fn lemma_total_ge(s: Seq<Address>, f: spec_fn(Address) -> int, x: Address, y: Address)
    requires
        s.no_duplicates(),
        forall|z: Address| #[trigger] f(z) >= 0,
        x != y,
    ensures
        total(s, f) >= (if s.contains(x) { f(x) } else { 0 }) + (if s.contains(y) {
            f(y)
        } else {
            0
        }),
{
    let g = |z: Address| if z == x { 0 } else { f(z) };
    let h = |z: Address| if z == x || z == y { 0 } else { f(z) };
    lemma_total_point(s, g, f, x);
    lemma_total_point(s, h, g, y);
    lemma_total_nonneg(s, h);
}

/// A balance never exceeds the supply; nor do two balances together.
pub proof fn lemma_balance_le_supply(m: LedgerModel, a: u64, x: Address, y: Address)
    requires
        m.wf(),
        m.asset_exists(a),
        x != y,
    ensures
        m.balance(x, a) + m.balance(y, a) <= m.supply_of(a),
        m.balance(x, a) <= m.supply_of(a),
{
    assert(m.owners.contains_key(a));
    lemma_owners(m.owners[a]);
    assert(m.is_owner(x, a) == m.owners_of(a).contains(x));
    assert(m.is_owner(y, a) == m.owners_of(a).contains(y));
    lemma_total_ge(m.owners_of(a), m.bal_fn(a), x, y);
}

/// A credit keeps the shape invariant and adds `amt` to the sum of the
/// asset's balances; other assets keep their owners and balances.
pub proof fn lemma_credit(m: LedgerModel, a: u64, r: Address, amt: u64)
    requires
        m.wf_shape(),
        m.asset_exists(a),
        m.balance(r, a) + amt <= u64::MAX,
        amt > 0,
        m.can_credit(a, r),
    ensures
        m.credit(a, r, amt).wf_shape(),
        total(m.credit(a, r, amt).owners_of(a), m.credit(a, r, amt).bal_fn(a)) == total(
            m.owners_of(a),
            m.bal_fn(a),
        ) + amt,
        forall|a2: u64|
            a2 != a ==> #[trigger] m.credit(a, r, amt).owners_of(a2) == m.owners_of(a2)
                && m.credit(a, r, amt).bal_fn(a2) == m.bal_fn(a2),
{
    let m2 = m.credit(a, r, amt);
    let ix = m.owners[a];
    assert(m.owners.contains_key(a));
    lemma_owners(ix);
    assert forall|a2: u64| a2 != a implies #[trigger] m2.owners_of(a2) == m.owners_of(a2)
        && m2.bal_fn(a2) == m.bal_fn(a2) by {
        assert(m2.bal_fn(a2) =~= m.bal_fn(a2));
    }
    if m.balance(r, a) == 0 {
        assert(!ix.is_owner(r));
        lemma_insert(ix, r, m2.bal_fn(a));
        lemma_total_point(ix.owners(), m.bal_fn(a), m2.bal_fn(a), r);
        assert(!ix.owners().contains(r));
    } else {
        lemma_total_point(ix.owners(), m.bal_fn(a), m2.bal_fn(a), r);
        assert(ix.owners().contains(r));
    }
    assert forall|o: Address, a2: u64| #[trigger] m2.balance(o, a2) > 0 <==> m2.is_owner(o, a2) by {
        assert(m.balance(o, a2) > 0 <==> m.is_owner(o, a2));
    }
    assert forall|o: Address, a2: u64| #[trigger]
        m2.holdings.contains((o, a2)) <==> m2.balance(o, a2) > 0 by {
        assert(m.holdings.contains((o, a2)) <==> m.balance(o, a2) > 0);
    }
}

/// A debit keeps the shape invariant and takes `amt` from the sum of the
/// asset's balances; other assets keep their owners and balances.
pub proof fn lemma_debit(m: LedgerModel, a: u64, o: Address, amt: u64)
    requires
        m.wf_shape(),
        m.asset_exists(a),
        m.balance(o, a) >= amt,
        amt > 0,
    ensures
        m.debit(a, o, amt).wf_shape(),
        total(m.debit(a, o, amt).owners_of(a), m.debit(a, o, amt).bal_fn(a)) == total(
            m.owners_of(a),
            m.bal_fn(a),
        ) - amt,
        forall|a2: u64|
            a2 != a ==> #[trigger] m.debit(a, o, amt).owners_of(a2) == m.owners_of(a2)
                && m.debit(a, o, amt).bal_fn(a2) == m.bal_fn(a2),
{
    let m2 = m.debit(a, o, amt);
    let ix = m.owners[a];
    assert(m.owners.contains_key(a));
    lemma_owners(ix);
    assert(m.is_owner(o, a));
    assert(ix.owners().contains(o));
    assert forall|a2: u64| a2 != a implies #[trigger] m2.owners_of(a2) == m.owners_of(a2)
        && m2.bal_fn(a2) == m.bal_fn(a2) by {
        assert(m2.bal_fn(a2) =~= m.bal_fn(a2));
    }
    lemma_total_point(ix.owners(), m.bal_fn(a), m2.bal_fn(a), o);
    if m.balance(o, a) - amt == 0 {
        lemma_remove(ix, o, m2.bal_fn(a));
    }
    assert forall|x: Address, a2: u64| #[trigger] m2.balance(x, a2) > 0 <==> m2.is_owner(x, a2) by {
        assert(m.balance(x, a2) > 0 <==> m.is_owner(x, a2));
    }
    assert forall|x: Address, a2: u64| #[trigger]
        m2.holdings.contains((x, a2)) <==> m2.balance(x, a2) > 0 by {
        assert(m.holdings.contains((x, a2)) <==> m.balance(x, a2) > 0);
    }
}

impl LedgerModel {
    /// A fresh ledger: no admin, no assets, ids starting at 1.
    pub open spec fn empty() -> LedgerModel {
        LedgerModel {
            admin: None,
            next_asset_id: 1,
            balances: Map::empty(),
            supply: Map::empty(),
            creators: Map::empty(),
            owners: Map::empty(),
            holdings: Set::empty(),
            approvals: Map::empty(),
            allowances: Map::empty(),
            asset_uris: Map::empty(),
            contract_uri: None,
        }
    }

    /// The allowance of `op` on `o`'s asset `a` set to `amount`, whatever it
    /// was.
    pub open spec fn with_allowance(self, o: Address, op: Address, a: u64, amount: u64) -> LedgerModel {
        LedgerModel { allowances: self.allowances.insert((o, op, a), amount), ..self }
    }

    /// Why an admin-only operation is refused, if it is.
    pub open spec fn admin_error(self, signers: Seq<Address>) -> Option<LedgerError> {
        match self.admin {
            None => Some(LedgerError::NotInitialized),
            Some(ad) => if signers.contains(ad) {
                None
            } else {
                Some(LedgerError::Unauthorized)
            },
        }
    }

    /// Why `mint` is refused, if it is.
    pub open spec fn mint_error(self, signers: Seq<Address>, amt: u64) -> Option<LedgerError> {
        if self.admin_error(signers) is Some {
            self.admin_error(signers)
        } else if amt == 0 {
            Some(LedgerError::ZeroAmount)
        } else if self.next_asset_id == u64::MAX {
            Some(LedgerError::Overflow)
        } else {
            None
        }
    }

    /// A new asset with id `next_asset_id`, all of it held by `to`.
    pub open spec fn minted(self, to: Address, amt: u64) -> LedgerModel {
        let id = self.next_asset_id;
        LedgerModel {
            next_asset_id: (id + 1) as u64,
            balances: self.balances.insert((to, id), amt),
            supply: self.supply.insert(id, amt),
            creators: self.creators.insert(id, self.admin.unwrap()),
            owners: self.owners.insert(
                id,
                PagesModel {
                    pages: Map::empty(),
                    page_count: 0,
                    hint: None,
                    location: Map::empty(),
                    count: 0,
                }.insert(to),
            ),
            holdings: self.holdings.insert((to, id)),
            ..self
        }
    }

    /// Why `mint_to` is refused, if it is.
    pub open spec fn mint_to_error(
        self,
        signers: Seq<Address>,
        a: u64,
        rs: Seq<Address>,
        amts: Seq<u64>,
    ) -> Option<LedgerError> {
        if self.admin_error(signers) is Some {
            self.admin_error(signers)
        } else if a == 0 {
            Some(LedgerError::ReservedAssetId)
        } else if !self.asset_exists(a) {
            Some(LedgerError::AssetNotFound)
        } else if rs.len() != amts.len() {
            Some(LedgerError::LengthMismatch)
        } else if rs.len() == 0 {
            Some(LedgerError::NoRecipients)
        } else if exists|i: int| 0 <= i < amts.len() && amts[i] == 0 {
            Some(LedgerError::ZeroAmount)
        } else if self.supply_of(a) + sum_amounts(amts) > u64::MAX || !self.admits_all(
            a,
            rs,
            amts,
        ) {
            Some(LedgerError::Overflow)
        } else {
            None
        }
    }

    /// Each recipient credited in order, and the supply raised by the total.
    pub open spec fn minted_to(self, a: u64, rs: Seq<Address>, amts: Seq<u64>) -> LedgerModel {
        LedgerModel {
            supply: self.supply.insert(a, (self.supply_of(a) + sum_amounts(amts)) as u64),
            ..self.credit_all(a, rs, amts)
        }
    }

    /// An owner's own transfer: `from` must sign.
    pub open spec fn transfer_step(
        self,
        signers: Seq<Address>,
        from: Address,
        to: Address,
        a: u64,
        amt: u64,
    ) -> Result<LedgerModel, LedgerError> {
        if !signers.contains(from) {
            Err(LedgerError::Unauthorized)
        } else {
            self.move_tokens(from, to, a, amt)
        }
    }

    /// The asset ids in `1..n` that `o` holds, in increasing order.
    pub open spec fn assets_held(self, o: Address, n: u64) -> Seq<u64>
        decreases n,
    {
        if n <= 1 {
            Seq::empty()
        } else if self.holdings.contains((o, (n - 1) as u64)) {
            self.assets_held(o, (n - 1) as u64).push((n - 1) as u64)
        } else {
            self.assets_held(o, (n - 1) as u64)
        }
    }
}

/// Two states with the same balances have the same balance functions.
pub proof fn lemma_same_balances(m1: LedgerModel, m2: LedgerModel)
    requires
        m1.balances == m2.balances,
    ensures
        forall|a: u64| #[trigger] m1.bal_fn(a) == m2.bal_fn(a),
{
    assert forall|a: u64| #[trigger] m1.bal_fn(a) == m2.bal_fn(a) by {
        assert(m1.bal_fn(a) =~= m2.bal_fn(a));
    }
}

/// The invariant only reads ids, balances, supplies, creators, owner lists
/// and holdings; a state that agrees on those with a well-formed one is
/// well-formed.
pub proof fn lemma_wf_frame(m1: LedgerModel, m2: LedgerModel)
    requires
        m1.wf(),
        m1.next_asset_id == m2.next_asset_id,
        m1.balances == m2.balances,
        m1.supply == m2.supply,
        m1.creators == m2.creators,
        m1.owners == m2.owners,
        m1.holdings == m2.holdings,
    ensures
        m2.wf(),
{
    lemma_same_balances(m1, m2);
    assert forall|o: Address, a2: u64| #[trigger] m2.balance(o, a2) == m1.balance(o, a2) by {}
    assert forall|a2: u64| #[trigger] m2.owners_of(a2) == m1.owners_of(a2) by {}
}

/// A successful move keeps the invariant.
pub proof fn lemma_move(m: LedgerModel, from: Address, to: Address, a: u64, amt: u64)
    requires
        m.wf(),
        m.move_error(from, to, a, amt) is None,
    ensures
        m.move_tokens(from, to, a, amt) is Ok,
        m.move_tokens(from, to, a, amt).unwrap().wf(),
        m.balance(to, a) + amt <= u64::MAX,
        m.asset_exists(a),
{
    assert(m.balance(from, a) > 0);
    assert(m.is_owner(from, a));
    lemma_balance_le_supply(m, a, from, to);
    lemma_credit(m, a, to, amt);
    let m1 = m.credit(a, to, amt);
    assert(m1.balance(from, a) == m.balance(from, a));
    lemma_debit(m1, a, from, amt);
    let m2 = m1.debit(a, from, amt);
    assert forall|a2: u64| #[trigger] m2.supply.contains_key(a2) implies m2.supply[a2] == total(
        m2.owners_of(a2),
        m2.bal_fn(a2),
    ) by {
        assert(m.supply.contains_key(a2));
        if a2 != a {
            assert(m1.owners_of(a2) == m.owners_of(a2) && m1.bal_fn(a2) == m.bal_fn(a2));
            assert(m2.owners_of(a2) == m1.owners_of(a2) && m2.bal_fn(a2) == m1.bal_fn(a2));
        }
    }
}

/// A successful third-party transfer keeps the invariant.
pub proof fn lemma_transfer_from_step(
    m: LedgerModel,
    signers: Seq<Address>,
    op: Address,
    from: Address,
    to: Address,
    a: u64,
    amt: u64,
)
    requires
        m.wf(),
    ensures
        m.transfer_from_step(signers, op, from, to, a, amt) is Ok ==> m.transfer_from_step(
            signers,
            op,
            from,
            to,
            a,
            amt,
        ).unwrap().wf(),
{
    if let Ok(m1) = m.spend(signers, op, from, a, amt) {
        lemma_wf_frame(m, m1);
        if m1.move_error(from, to, a, amt) is None {
            lemma_move(m1, from, to, a, amt);
        }
    }
}

/// Why setting an asset's URI is refused, if it is: the caller must sign
/// and be the admin or the asset's creator.
pub open spec fn uri_error(m: LedgerModel, signers: Seq<Address>, caller: Address, a: u64) -> Option<
    LedgerError,
> {
    if !signers.contains(caller) {
        Some(LedgerError::Unauthorized)
    } else if !m.asset_exists(a) {
        Some(LedgerError::AssetNotFound)
    } else if m.admin is None {
        Some(LedgerError::NotInitialized)
    } else if caller != m.admin.unwrap() && !(m.creators.contains_key(a) && caller == m.creators[a]) {
        Some(LedgerError::Unauthorized)
    } else {
        None
    }
}

/// A mint keeps the invariant.
pub proof fn lemma_mint(m: LedgerModel, signers: Seq<Address>, to: Address, amt: u64)
    requires
        m.wf(),
        m.mint_error(signers, amt) is None,
    ensures
        m.minted(to, amt).wf(),
{
    let id = m.next_asset_id;
    let m2 = m.minted(to, amt);
    let e = PagesModel {
        pages: Map::empty(),
        page_count: 0,
        hint: None,
        location: Map::empty(),
        count: 0,
    };
    assert(e.owners() =~= Seq::<Address>::empty());
    assert(!e.hint_has_room());
    assert(e.insert_target() == 0);
    lemma_insert(e, to, m2.bal_fn(id));
    assert(!m.owners.contains_key(id));
    assert forall|o: Address| m.balance(o, id) == 0 by {
        assert(!m.is_owner(o, id));
    }
    assert forall|a2: u64| a2 != id implies #[trigger] m2.owners_of(a2) == m.owners_of(a2)
        && m2.bal_fn(a2) == m.bal_fn(a2) by {
        assert(m2.bal_fn(a2) =~= m.bal_fn(a2));
    }
    assert forall|o: Address, a2: u64| #[trigger] m2.balance(o, a2) > 0 <==> m2.is_owner(o, a2) by {
        assert(m.balance(o, a2) > 0 <==> m.is_owner(o, a2));
    }
    assert forall|o: Address, a2: u64| #[trigger]
        m2.holdings.contains((o, a2)) <==> m2.balance(o, a2) > 0 by {
        assert(m.holdings.contains((o, a2)) <==> m.balance(o, a2) > 0);
    }
    assert forall|a2: u64| #[trigger] m2.supply.contains_key(a2) implies m2.supply[a2] == total(
        m2.owners_of(a2),
        m2.bal_fn(a2),
    ) by {
        if a2 != id {
            assert(m.supply.contains_key(a2));
        }
    }
}

/// A balance is at most the sum of its asset's balances.
pub proof fn lemma_balance_le_total(m: LedgerModel, a: u64, x: Address)
    requires
        m.wf_shape(),
        m.asset_exists(a),
    ensures
        m.balance(x, a) <= total(m.owners_of(a), m.bal_fn(a)),
{
    assert(m.owners.contains_key(a));
    lemma_owners(m.owners[a]);
    assert(m.is_owner(x, a) == m.owners_of(a).contains(x));
    let y: Address = if x == 0 { 1 } else { 0 };
    lemma_total_ge(m.owners_of(a), m.bal_fn(a), x, y);
}

/// Amounts add up: a prefix sums to no more than the whole, and one more
/// element adds its amount.
pub proof fn lemma_sum_prefix(s: Seq<u64>, i: int)
    requires
        0 <= i < s.len(),
    ensures
        sum_amounts(s.take(i + 1)) == sum_amounts(s.take(i)) + s[i],
        sum_amounts(s.take(i + 1)) <= sum_amounts(s),
    decreases s.len(),
{
    assert(s.take(i + 1).drop_last() =~= s.take(i));
    if i + 1 < s.len() {
        lemma_sum_prefix(s.drop_last(), i);
        assert(s.drop_last().take(i + 1) =~= s.take(i + 1));
        assert(s.drop_last().take(i) =~= s.take(i));
    } else {
        assert(s.take(i + 1) =~= s);
    }
}

/// Admission of a whole list implies admission of its prefixes.
pub proof fn lemma_admits_prefix(m: LedgerModel, a: u64, rs: Seq<Address>, amts: Seq<u64>, k: int)
    requires
        0 <= k <= rs.len(),
        rs.len() == amts.len(),
        m.admits_all(a, rs, amts),
    ensures
        m.admits_all(a, rs.take(k), amts.take(k)),
    decreases rs.len(),
{
    if k == rs.len() {
        assert(rs.take(k) =~= rs);
        assert(amts.take(k) =~= amts);
    } else {
        lemma_admits_prefix(m, a, rs.drop_last(), amts.drop_last(), k);
        assert(rs.drop_last().take(k) =~= rs.take(k));
        assert(amts.drop_last().take(k) =~= amts.take(k));
    }
}

/// Once a prefix of a batch fails, the batch fails with that error.
pub proof fn lemma_batch_err_prefix(
    m: LedgerModel,
    signers: Seq<Address>,
    op: Address,
    from: Address,
    to: Address,
    ids: Seq<u64>,
    amts: Seq<u64>,
    k: int,
)
    requires
        0 <= k <= ids.len(),
        ids.len() == amts.len(),
        m.batch(signers, op, from, to, ids.take(k), amts.take(k)) is Err,
    ensures
        m.batch(signers, op, from, to, ids, amts) == m.batch(
            signers,
            op,
            from,
            to,
            ids.take(k),
            amts.take(k),
        ),
    decreases ids.len(),
{
    if k == ids.len() {
        assert(ids.take(k) =~= ids);
        assert(amts.take(k) =~= amts);
    } else {
        assert(ids.drop_last().take(k) =~= ids.take(k));
        assert(amts.drop_last().take(k) =~= amts.take(k));
        lemma_batch_err_prefix(m, signers, op, from, to, ids.drop_last(), amts.drop_last(), k);
    }
}

/// Closing a run of credits: setting the asset's supply to the new sum of
/// its balances restores the invariant.
pub proof fn lemma_raise_supply(m0: LedgerModel, w: LedgerModel, a: u64, s: u64)
    requires
        m0.wf(),
        m0.asset_exists(a),
        w.wf_shape(),
        w.supply == m0.supply,
        total(w.owners_of(a), w.bal_fn(a)) == s,
        forall|a2: u64| a2 != a ==> #[trigger] w.owners_of(a2) == m0.owners_of(a2),
        forall|o: Address, a2: u64| a2 != a ==> #[trigger] w.balance(o, a2) == m0.balance(o, a2),
    ensures
        (LedgerModel { supply: w.supply.insert(a, s), ..w }).wf(),
{
    let m2 = LedgerModel { supply: w.supply.insert(a, s), ..w };
    assert forall|a2: u64| #[trigger] m2.supply.contains_key(a2)
        <==> w.supply.contains_key(a2) by {}
    lemma_same_balances(w, m2);
    assert forall|o: Address, a2: u64| #[trigger] m2.balance(o, a2) > 0 <==> m2.is_owner(o, a2) by {
        assert(w.balance(o, a2) > 0 <==> w.is_owner(o, a2));
    }
    assert forall|o: Address, a2: u64| #[trigger]
        m2.holdings.contains((o, a2)) <==> m2.balance(o, a2) > 0 by {
        assert(w.holdings.contains((o, a2)) <==> w.balance(o, a2) > 0);
    }
    assert forall|a2: u64| #[trigger] m2.supply.contains_key(a2) implies m2.supply[a2] == total(
        m2.owners_of(a2),
        m2.bal_fn(a2),
    ) by {
        if a2 != a {
            assert(m0.supply.contains_key(a2));
            assert(w.owners_of(a2) == m0.owners_of(a2));
            assert(w.bal_fn(a2) =~= m0.bal_fn(a2));
            assert(m2.owners_of(a2) == w.owners_of(a2));
        }
    }
}

} // verus!

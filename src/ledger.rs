use vstd::prelude::*;

use std::collections::{BTreeMap, BTreeSet};

use crate::error::LedgerError;
use crate::model::{
    LedgerModel, lemma_admits_prefix, lemma_balance_le_total, lemma_batch_err_prefix, lemma_credit,
    lemma_mint, lemma_move, lemma_raise_supply, lemma_sum_prefix, lemma_transfer_from_step,
    lemma_wf_frame, sum_amounts, uri_error,
};
use crate::pages::OwnerIndex;
use crate::Address;
use crate::total::total;

verus! {

/// The fractional-ownership ledger: balances and supplies per asset, the
/// paginated owner list of each asset, and the approvals and allowances
/// that let operators move an owner's tokens.
///
/// Operations that need a signature take `signers`, the accounts that
/// signed the invocation. Every operation either succeeds or returns an
/// error and leaves the ledger as it was.
pub struct FractionalizationContract {
    admin: Option<Address>,
    next_asset_id: u64,
    balances: BTreeMap<(Address, u64), u64>,
    supply: BTreeMap<u64, u64>,
    creators: BTreeMap<u64, Address>,
    indices: BTreeMap<u64, OwnerIndex>,
    holdings: BTreeSet<(Address, u64)>,
    approvals: BTreeMap<(Address, Address), bool>,
    allowances: BTreeMap<(Address, Address, u64), u64>,
    asset_uris: BTreeMap<u64, String>,
    contract_uri: Option<String>,
}

impl View for FractionalizationContract {
    type V = LedgerModel;

    closed spec fn view(&self) -> LedgerModel {
        LedgerModel {
            admin: self.admin,
            next_asset_id: self.next_asset_id,
            balances: self.balances@,
            supply: self.supply@,
            creators: self.creators@,
            owners: self.indices@.map_values(|ix: OwnerIndex| ix@),
            holdings: self.holdings@,
            approvals: self.approvals@,
            allowances: self.allowances@,
            asset_uris: self.asset_uris@.map_values(|s: String| s@),
            contract_uri: match self.contract_uri {
                Some(s) => Some(s@),
                None => None,
            },
        }
    }
}

/// Whether `x` is among `signers`.
fn is_signed(signers: &Vec<Address>, x: Address) -> (r: bool)
    ensures
        r == signers@.contains(x),
{
    let mut i: usize = 0;
    while i < signers.len()
        invariant
            i <= signers.len(),
            forall|j: int| 0 <= j < i ==> signers@[j] != x,
        decreases signers.len() - i,
    {
        if signers[i] == x {
            return true;
        }
        i = i + 1;
    }
    false
}

impl FractionalizationContract {
    /// The ledger's invariant.
    pub open spec fn wf(&self) -> bool {
        self@.wf()
    }

    /// A fresh ledger with no admin and no assets.
    pub fn new() -> (r: Self)
        ensures
            r@ == LedgerModel::empty(),
            r.wf(),
    {
        let r = FractionalizationContract {
            admin: None,
            next_asset_id: 1,
            balances: BTreeMap::new(),
            supply: BTreeMap::new(),
            creators: BTreeMap::new(),
            indices: BTreeMap::new(),
            holdings: BTreeSet::new(),
            approvals: BTreeMap::new(),
            allowances: BTreeMap::new(),
            asset_uris: BTreeMap::new(),
            contract_uri: None,
        };
        assert(r@.owners =~= Map::empty());
        assert(r@.asset_uris =~= Map::empty());
        r
    }

    /// A copy to work on, for operations that must be all-or-nothing.
    fn snapshot(&self) -> (r: Self)
        ensures
            r@ == self@,
    {
        let contract_uri = match &self.contract_uri {
            Some(s) => Some(s.clone()),
            None => None,
        };
        FractionalizationContract {
            admin: self.admin,
            next_asset_id: self.next_asset_id,
            balances: self.balances.clone(),
            supply: self.supply.clone(),
            creators: self.creators.clone(),
            indices: self.indices.clone(),
            holdings: self.holdings.clone(),
            approvals: self.approvals.clone(),
            allowances: self.allowances.clone(),
            asset_uris: self.asset_uris.clone(),
            contract_uri,
        }
    }

    /// Balance of `owner` in `asset_id`; 0 for any unknown pair.
    pub fn balance_of(&self, owner: Address, asset_id: u64) -> (r: u64)
        ensures
            r == self@.balance(owner, asset_id),
    {
        match self.balances.get(&(owner, asset_id)) {
            Some(b) => *b,
            None => 0,
        }
    }

    /// Total supply of `asset_id`; 0 for an asset never minted.
    pub fn asset_supply(&self, asset_id: u64) -> (r: u64)
        ensures
            r == self@.supply_of(asset_id),
    {
        match self.supply.get(&asset_id) {
            Some(s) => *s,
            None => 0,
        }
    }

    /// Whether `asset_id` has been minted.
    pub fn asset_exists(&self, asset_id: u64) -> (r: bool)
        ensures
            r == self@.asset_exists(asset_id),
    {
        self.supply.contains_key(&asset_id)
    }

    /// The id the next `mint` will hand out.
    pub fn next_asset_id(&self) -> (r: u64)
        ensures
            r == self@.next_asset_id,
    {
        self.next_asset_id
    }

    /// Balances of the pairs `(owners[i], asset_ids[i])`.
    pub fn balance_of_batch(&self, owners: &Vec<Address>, asset_ids: &Vec<u64>) -> (r: Result<
        Vec<u64>,
        LedgerError,
    >)
        ensures
            owners@.len() != asset_ids@.len() ==> r == Err::<Vec<u64>, LedgerError>(
                LedgerError::LengthMismatch,
            ),
            owners@.len() == asset_ids@.len() ==> r is Ok && r.unwrap()@.len() == owners@.len()
                && forall|i: int|
                0 <= i < owners@.len() ==> #[trigger] r.unwrap()@[i] == self@.balance(
                    owners@[i],
                    asset_ids@[i],
                ),
    {
        if owners.len() != asset_ids.len() {
            return Err(LedgerError::LengthMismatch);
        }
        let mut out: Vec<u64> = Vec::new();
        let mut i: usize = 0;
        while i < owners.len()
            invariant
                i <= owners.len(),
                owners@.len() == asset_ids@.len(),
                out@.len() == i,
                forall|j: int|
                    0 <= j < i ==> #[trigger] out@[j] == self@.balance(owners@[j], asset_ids@[j]),
            decreases owners.len() - i,
        {
            let b = self.balance_of(owners[i], asset_ids[i]);
            out.push(b);
            i = i + 1;
        }
        Ok(out)
    }

    /// Number of owners of `asset_id`.
    pub fn get_asset_owner_count(&self, asset_id: u64) -> (r: u32)
        ensures
            r == self@.owner_count(asset_id),
    {
        match self.indices.get(&asset_id) {
            Some(ix) => ix.count(),
            None => 0,
        }
    }

    /// Whether `owner` is on the owner list of `asset_id`.
    pub fn owns_asset(&self, owner: Address, asset_id: u64) -> (r: bool)
        ensures
            r == self@.is_owner(owner, asset_id),
    {
        match self.indices.get(&asset_id) {
            Some(ix) => ix.is_owner(owner),
            None => false,
        }
    }

    /// Whether `asset_id` is among the assets recorded for `owner`.
    pub fn has_assets(&self, owner: Address, asset_id: u64) -> (r: bool)
        ensures
            r == self@.holdings.contains((owner, asset_id)),
    {
        self.holdings.contains(&(owner, asset_id))
    }

    /// The owners of `asset_id`, page by page in index order.
    pub fn asset_owners(&self, asset_id: u64) -> (r: Vec<Address>)
        ensures
            r@ == self@.owners_of(asset_id),
    {
        match self.indices.get(&asset_id) {
            Some(ix) => ix.owners(),
            None => Vec::new(),
        }
    }

    /// The assets `owner` holds, found by testing every id from 1 to the
    /// last one minted.
    pub fn owner_assets(&self, owner: Address) -> (r: Vec<u64>)
        ensures
            r@ == self@.assets_held(owner, self@.next_asset_id),
    {
        let mut out: Vec<u64> = Vec::new();
        let n = self.next_asset_id;
        let mut a: u64 = 1;
        if n <= 1 {
            return out;
        }
        while a < n
            invariant
                1 <= a <= n,
                n == self@.next_asset_id,
                out@ == self@.assets_held(owner, a),
            decreases n - a,
        {
            if self.holdings.contains(&(owner, a)) {
                out.push(a);
            }
            a = a + 1;
        }
        out
    }

    /// Whether `operator` holds a blanket approval from `owner`.
    pub fn is_approved_for_all(&self, owner: Address, operator: Address) -> (r: bool)
        ensures
            r == self@.approved(owner, operator),
    {
        match self.approvals.get(&(owner, operator)) {
            Some(b) => *b,
            None => false,
        }
    }

    /// What `operator` may still spend of `owner`'s `asset_id`.
    pub fn allowance(&self, owner: Address, operator: Address, asset_id: u64) -> (r: u64)
        ensures
            r == self@.allowance(owner, operator, asset_id),
    {
        match self.allowances.get(&(owner, operator, asset_id)) {
            Some(v) => *v,
            None => 0,
        }
    }

    /// Grants or withdraws a blanket approval; `owner` must sign.
    pub fn set_approval_for_all(
        &mut self,
        signers: &Vec<Address>,
        owner: Address,
        operator: Address,
        approved: bool,
    ) -> (r: Result<(), LedgerError>)
        requires
            old(self).wf(),
        ensures
            final(self).wf(),
            signers@.contains(owner) ==> r is Ok && final(self)@ == (LedgerModel {
                approvals: old(self)@.approvals.insert((owner, operator), approved),
                ..old(self)@
            }),
            !signers@.contains(owner) ==> r == Err::<(), LedgerError>(LedgerError::Unauthorized)
                && final(self)@ == old(self)@,
    {
        if !is_signed(signers, owner) {
            return Err(LedgerError::Unauthorized);
        }
        self.approvals.insert((owner, operator), approved);
        proof {
            lemma_wf_frame(old(self)@, self@);
        }
        Ok(())
    }

    /// Sets the allowance of `operator` on `owner`'s `asset_id` to `amount`,
    /// replacing any earlier one; `owner` must sign.
    pub fn approve(
        &mut self,
        signers: &Vec<Address>,
        owner: Address,
        operator: Address,
        asset_id: u64,
        amount: u64,
    ) -> (r: Result<(), LedgerError>)
        requires
            old(self).wf(),
        ensures
            final(self).wf(),
            signers@.contains(owner) ==> r is Ok && final(self)@ == old(self)@.with_allowance(
                owner,
                operator,
                asset_id,
                amount,
            ),
            !signers@.contains(owner) ==> r == Err::<(), LedgerError>(LedgerError::Unauthorized)
                && final(self)@ == old(self)@,
    {
        if !is_signed(signers, owner) {
            return Err(LedgerError::Unauthorized);
        }
        self.allowances.insert((owner, operator, asset_id), amount);
        proof {
            lemma_wf_frame(old(self)@, self@);
        }
        Ok(())
    }

    /// Puts `o` on the owner list of `a` and records `a` among its assets.
    fn add_owner_to_asset(&mut self, a: u64, o: Address)
        requires
            old(self)@.owners.contains_key(a),
            old(self)@.owners[a].wf(),
            old(self)@.owners[a].is_owner(o) || old(self)@.owners[a].can_admit(),
        ensures
            final(self)@ == (LedgerModel {
                owners: old(self)@.owners.insert(a, old(self)@.owners[a].insert(o)),
                holdings: old(self)@.holdings.insert((o, a)),
                ..old(self)@
            }),
    {
        let mut ix = self.indices.remove(&a).unwrap();
        ix.add_owner(o);
        self.indices.insert(a, ix);
        self.holdings.insert((o, a));
        assert(self@.owners =~= old(self)@.owners.insert(a, old(self)@.owners[a].insert(o)));
    }

    /// Takes `o` off the owner list of `a` and drops `a` from its assets.
    fn remove_owner_from_asset(&mut self, a: u64, o: Address)
        requires
            old(self)@.owners.contains_key(a),
            old(self)@.owners[a].wf(),
        ensures
            final(self)@ == (LedgerModel {
                owners: old(self)@.owners.insert(a, old(self)@.owners[a].remove(o)),
                holdings: old(self)@.holdings.remove((o, a)),
                ..old(self)@
            }),
    {
        let mut ix = self.indices.remove(&a).unwrap();
        ix.remove_owner(o);
        self.indices.insert(a, ix);
        self.holdings.remove(&(o, a));
        assert(self@.owners =~= old(self)@.owners.insert(a, old(self)@.owners[a].remove(o)));
    }

    /// Whether `r` can be credited in `a` without an owner-list counter
    /// overflowing.
    fn can_credit(&self, a: u64, r: Address) -> (b: bool)
        requires
            self@.owners.contains_key(a),
        ensures
            b == self@.can_credit(a, r),
    {
        if self.balance_of(r, a) > 0 {
            return true;
        }
        let ix = self.indices.get(&a).unwrap();
        ix.can_admit()
    }

    /// Raises `r`'s balance of `a` by `amt`; a new holder joins the owner
    /// list.
    fn credit(&mut self, a: u64, r: Address, amt: u64)
        requires
            old(self)@.owners.contains_key(a),
            old(self)@.owners[a].wf(),
            old(self)@.can_credit(a, r),
            old(self)@.balance(r, a) + amt <= u64::MAX,
        ensures
            final(self)@ == old(self)@.credit(a, r, amt),
    {
        let b = self.balance_of(r, a);
        self.balances.insert((r, a), b + amt);
        if b == 0 {
            self.add_owner_to_asset(a, r);
        }
    }

    /// Lowers `o`'s balance of `a` by `amt`; at zero `o` leaves the owner
    /// list.
    fn debit(&mut self, a: u64, o: Address, amt: u64)
        requires
            old(self)@.owners.contains_key(a),
            old(self)@.owners[a].wf(),
            old(self)@.balance(o, a) >= amt,
        ensures
            final(self)@ == old(self)@.debit(a, o, amt),
    {
        let b = self.balance_of(o, a);
        self.balances.insert((o, a), b - amt);
        if b - amt == 0 {
            self.remove_owner_from_asset(a, o);
        }
    }

    /// Why moving `amount` of `asset_id` from `from` to `to` would fail.
    fn move_error(&self, from: Address, to: Address, asset_id: u64, amount: u64) -> (r: Option<
        LedgerError,
    >)
        requires
            self.wf(),
        ensures
            r == self@.move_error(from, to, asset_id, amount),
    {
        if amount == 0 {
            return Some(LedgerError::ZeroAmount);
        }
        if from == to {
            return Some(LedgerError::SelfTransfer);
        }
        if self.balance_of(from, asset_id) < amount {
            return Some(LedgerError::InsufficientBalance);
        }
        proof {
            assert(self@.balance(from, asset_id) > 0);
            assert(self@.is_owner(from, asset_id));
        }
        if !self.can_credit(asset_id, to) {
            return Some(LedgerError::Overflow);
        }
        None
    }

    /// Moves `amount` of `asset_id` from `from` to `to`, keeping the owner
    /// lists: `to` joins if new, `from` leaves at zero.
    fn transfer_internal(&mut self, from: Address, to: Address, asset_id: u64, amount: u64) -> (r:
        Result<(), LedgerError>)
        requires
            old(self).wf(),
        ensures
            final(self).wf(),
            match old(self)@.move_tokens(from, to, asset_id, amount) {
                Ok(m) => r is Ok && final(self)@ == m,
                Err(e) => r == Err::<(), LedgerError>(e) && final(self)@ == old(self)@,
            },
    {
        if let Some(e) = self.move_error(from, to, asset_id, amount) {
            return Err(e);
        }
        proof {
            lemma_move(self@, from, to, asset_id, amount);
            lemma_credit(self@, asset_id, to, amount);
        }
        self.credit(asset_id, to, amount);
        proof {
            assert(self@.owners.contains_key(asset_id));
        }
        self.debit(asset_id, from, amount);
        Ok(())
    }

    /// An owner moves `amount` of its own `asset_id` to `to`; `from` must
    /// sign.
    pub fn transfer(
        &mut self,
        signers: &Vec<Address>,
        from: Address,
        to: Address,
        asset_id: u64,
        amount: u64,
    ) -> (r: Result<(), LedgerError>)
        requires
            old(self).wf(),
        ensures
            final(self).wf(),
            match old(self)@.transfer_step(signers@, from, to, asset_id, amount) {
                Ok(m) => r is Ok && final(self)@ == m,
                Err(e) => r == Err::<(), LedgerError>(e) && final(self)@ == old(self)@,
            },
    {
        if !is_signed(signers, from) {
            return Err(LedgerError::Unauthorized);
        }
        self.transfer_internal(from, to, asset_id, amount)
    }

    /// `operator` moves `amount` of `from`'s `asset_id` to `to`. Where
    /// `operator` is `from`, `from` must sign; a blanket approval lets any
    /// amount through untouched; otherwise the allowance must cover the
    /// amount and is reduced by exactly that.
    pub fn transfer_from(
        &mut self,
        signers: &Vec<Address>,
        operator: Address,
        from: Address,
        to: Address,
        asset_id: u64,
        amount: u64,
    ) -> (r: Result<(), LedgerError>)
        requires
            old(self).wf(),
        ensures
            final(self).wf(),
            match old(self)@.transfer_from_step(signers@, operator, from, to, asset_id, amount) {
                Ok(m) => r is Ok && final(self)@ == m,
                Err(e) => r == Err::<(), LedgerError>(e) && final(self)@ == old(self)@,
            },
    {
        let mut spend_from: Option<u64> = None;
        if operator != from {
            if !self.is_approved_for_all(from, operator) {
                let allowance = self.allowance(from, operator, asset_id);
                if allowance < amount {
                    return Err(LedgerError::InsufficientAllowance);
                }
                spend_from = Some(allowance);
            }
        } else if !is_signed(signers, from) {
            return Err(LedgerError::Unauthorized);
        }
        if let Some(e) = self.move_error(from, to, asset_id, amount) {
            return Err(e);
        }
        let ghost m0 = self@;
        proof {
            lemma_transfer_from_step(m0, signers@, operator, from, to, asset_id, amount);
        }
        if let Some(allowance) = spend_from {
            self.allowances.insert((from, operator, asset_id), allowance - amount);
            proof {
                let m1 = m0.spend(signers@, operator, from, asset_id, amount).unwrap();
                assert(self@ == m1);
                lemma_wf_frame(m0, m1);
            }
        }
        self.transfer_internal(from, to, asset_id, amount)
    }
}

impl FractionalizationContract {
    /// The admin, once it has signed.
    fn require_admin_auth(&self, signers: &Vec<Address>) -> (r: Result<Address, LedgerError>)
        ensures
            match self@.admin_error(signers@) {
                Some(e) => r == Err::<Address, LedgerError>(e),
                None => r == Ok::<Address, LedgerError>(self@.admin.unwrap()),
            },
    {
        match self.admin {
            None => Err(LedgerError::NotInitialized),
            Some(admin) => {
                if is_signed(signers, admin) {
                    Ok(admin)
                } else {
                    Err(LedgerError::Unauthorized)
                }
            },
        }
    }

    /// Sets the admin once; `admin` must sign.
    pub fn initialize(&mut self, signers: &Vec<Address>, admin: Address) -> (r: Result<
        (),
        LedgerError,
    >)
        requires
            old(self).wf(),
        ensures
            final(self).wf(),
            old(self)@.admin is Some ==> r == Err::<(), LedgerError>(
                LedgerError::AlreadyInitialized,
            ) && final(self)@ == old(self)@,
            old(self)@.admin is None && !signers@.contains(admin) ==> r == Err::<(), LedgerError>(
                LedgerError::Unauthorized,
            ) && final(self)@ == old(self)@,
            old(self)@.admin is None && signers@.contains(admin) ==> r is Ok && final(self)@ == (
            LedgerModel { admin: Some(admin), ..old(self)@ }),
    {
        if self.admin.is_some() {
            return Err(LedgerError::AlreadyInitialized);
        }
        if !is_signed(signers, admin) {
            return Err(LedgerError::Unauthorized);
        }
        self.admin = Some(admin);
        proof {
            lemma_wf_frame(old(self)@, self@);
        }
        Ok(())
    }

    /// The admin.
    pub fn get_admin(&self) -> (r: Result<Address, LedgerError>)
        ensures
            match self@.admin {
                Some(a) => r == Ok::<Address, LedgerError>(a),
                None => r == Err::<Address, LedgerError>(LedgerError::NotInitialized),
            },
    {
        match self.admin {
            Some(a) => Ok(a),
            None => Err(LedgerError::NotInitialized),
        }
    }

    /// Hands the admin role to `new_admin`; the admin and `current_admin`
    /// must sign.
    pub fn transfer_admin(
        &mut self,
        signers: &Vec<Address>,
        current_admin: Address,
        new_admin: Address,
    ) -> (r: Result<(), LedgerError>)
        requires
            old(self).wf(),
        ensures
            final(self).wf(),
            old(self)@.admin_error(signers@) is Some ==> r == Err::<(), LedgerError>(
                old(self)@.admin_error(signers@).unwrap(),
            ) && final(self)@ == old(self)@,
            old(self)@.admin_error(signers@) is None && !signers@.contains(current_admin) ==> r
                == Err::<(), LedgerError>(LedgerError::Unauthorized) && final(self)@ == old(
                self,
            )@,
            old(self)@.admin_error(signers@) is None && signers@.contains(current_admin) ==> r is Ok
                && final(self)@ == (LedgerModel { admin: Some(new_admin), ..old(self)@ }),
    {
        if let Err(e) = self.require_admin_auth(signers) {
            return Err(e);
        }
        if !is_signed(signers, current_admin) {
            return Err(LedgerError::Unauthorized);
        }
        self.admin = Some(new_admin);
        proof {
            lemma_wf_frame(old(self)@, self@);
        }
        Ok(())
    }

    /// Creates an asset with id `next_asset_id`, all `num_tokens` of it held
    /// by `to`, with the admin as creator; the admin must sign.
    pub fn mint(&mut self, signers: &Vec<Address>, to: Address, num_tokens: u64) -> (r: Result<
        u64,
        LedgerError,
    >)
        requires
            old(self).wf(),
        ensures
            final(self).wf(),
            match old(self)@.mint_error(signers@, num_tokens) {
                Some(e) => r == Err::<u64, LedgerError>(e) && final(self)@ == old(self)@,
                None => r == Ok::<u64, LedgerError>(old(self)@.next_asset_id) && final(self)@
                    == old(self)@.minted(to, num_tokens),
            },
    {
        let admin = match self.require_admin_auth(signers) {
            Ok(a) => a,
            Err(e) => return Err(e),
        };
        if num_tokens == 0 {
            return Err(LedgerError::ZeroAmount);
        }
        let asset_id = self.next_asset_id;
        if asset_id == u64::MAX {
            return Err(LedgerError::Overflow);
        }
        proof {
            lemma_mint(self@, signers@, to, num_tokens);
        }
        self.next_asset_id = asset_id + 1;
        self.balances.insert((to, asset_id), num_tokens);
        self.supply.insert(asset_id, num_tokens);
        self.creators.insert(asset_id, admin);
        let mut ix = OwnerIndex::new();
        ix.add_owner(to);
        self.indices.insert(asset_id, ix);
        self.holdings.insert((to, asset_id));
        assert(self@.owners =~= old(self)@.minted(to, num_tokens).owners);
        Ok(asset_id)
    }

    /// Adds `amounts[i]` of the existing `asset_id` to `recipients[i]`, in
    /// order, and raises the supply by the total; the admin must sign. The
    /// credits run on a copy of the ledger that replaces it only once all
    /// of them have gone through.
    #[verifier::loop_isolation(false)]
    pub fn mint_to(
        &mut self,
        signers: &Vec<Address>,
        asset_id: u64,
        recipients: &Vec<Address>,
        amounts: &Vec<u64>,
    ) -> (r: Result<(), LedgerError>)
        requires
            old(self).wf(),
        ensures
            final(self).wf(),
            match old(self)@.mint_to_error(signers@, asset_id, recipients@, amounts@) {
                Some(e) => r == Err::<(), LedgerError>(e) && final(self)@ == old(self)@,
                None => r is Ok && final(self)@ == old(self)@.minted_to(
                    asset_id,
                    recipients@,
                    amounts@,
                ),
            },
    {
        if let Err(e) = self.require_admin_auth(signers) {
            return Err(e);
        }
        if asset_id == 0 {
            return Err(LedgerError::ReservedAssetId);
        }
        if !self.asset_exists(asset_id) {
            return Err(LedgerError::AssetNotFound);
        }
        if recipients.len() != amounts.len() {
            return Err(LedgerError::LengthMismatch);
        }
        if recipients.len() == 0 {
            return Err(LedgerError::NoRecipients);
        }
        let n = amounts.len();
        let mut i: usize = 0;
        while i < n
            invariant
                i <= n,
                n == amounts@.len(),
                forall|j: int| 0 <= j < i ==> amounts@[j] != 0,
            decreases n - i,
        {
            if amounts[i] == 0 {
                return Err(LedgerError::ZeroAmount);
            }
            i = i + 1;
        }
        let supply = self.asset_supply(asset_id);
        let mut sum: u64 = 0;
        i = 0;
        while i < n
            invariant
                i <= n,
                n == amounts@.len(),
                sum == sum_amounts(amounts@.take(i as int)),
                supply + sum <= u64::MAX,
            decreases n - i,
        {
            proof {
                lemma_sum_prefix(amounts@, i as int);
            }
            if amounts[i] > u64::MAX - supply - sum {
                proof {
                    lemma_sum_prefix(amounts@, i as int);
                }
                return Err(LedgerError::Overflow);
            }
            sum = sum + amounts[i];
            i = i + 1;
        }
        assert(amounts@.take(n as int) =~= amounts@);
        let ghost m0 = self@;
        let mut work = self.snapshot();
        i = 0;
        assert(recipients@.take(0) =~= Seq::<Address>::empty());
        assert(amounts@.take(0) =~= Seq::<u64>::empty());
        while i < n
            invariant
                i <= n,
                n == amounts@.len(),
                n == recipients@.len(),
                m0 == old(self)@,
                m0.wf(),
                m0.asset_exists(asset_id),
                forall|j: int| 0 <= j < n ==> amounts@[j] != 0,
                supply == m0.supply_of(asset_id),
                sum == sum_amounts(amounts@),
                supply + sum <= u64::MAX,
                work@ == m0.credit_all(
                    asset_id,
                    recipients@.take(i as int),
                    amounts@.take(i as int),
                ),
                m0.admits_all(asset_id, recipients@.take(i as int), amounts@.take(i as int)),
                work@.wf_shape(),
                work@.supply == m0.supply,
                work@.next_asset_id == m0.next_asset_id,
                total(work@.owners_of(asset_id), work@.bal_fn(asset_id)) == supply
                    + sum_amounts(amounts@.take(i as int)),
                forall|a2: u64| a2 != asset_id ==> #[trigger] work@.owners_of(a2) == m0.owners_of(a2),
                forall|o: Address, a2: u64|
                    a2 != asset_id ==> #[trigger] work@.balance(o, a2) == m0.balance(o, a2),
            decreases n - i,
        {
            let r = recipients[i];
            let amt = amounts[i];
            let ghost before = work@;
            assert(recipients@.take(i + 1).drop_last() =~= recipients@.take(i as int));
            assert(amounts@.take(i + 1).drop_last() =~= amounts@.take(i as int));
            proof {
                lemma_sum_prefix(amounts@, i as int);
                assert(work@.owners.contains_key(asset_id));
            }
            if !work.can_credit(asset_id, r) {
                proof {
                    if m0.admits_all(asset_id, recipients@, amounts@) {
                        lemma_admits_prefix(m0, asset_id, recipients@, amounts@, i + 1);
                    }
                }
                return Err(LedgerError::Overflow);
            }
            proof {
                lemma_balance_le_total(work@, asset_id, r);
                lemma_credit(work@, asset_id, r, amt);
            }
            work.credit(asset_id, r, amt);
            proof {
                assert forall|a2: u64| a2 != asset_id implies #[trigger] work@.owners_of(a2)
                    == m0.owners_of(a2) by {
                    assert(before.credit(asset_id, r, amt).owners_of(a2) == before.owners_of(a2));
                    assert(before.owners_of(a2) == m0.owners_of(a2));
                }
                assert forall|o: Address, a2: u64| a2 != asset_id implies #[trigger] work@.balance(
                    o,
                    a2,
                ) == m0.balance(o, a2) by {
                    assert(before.balance(o, a2) == m0.balance(o, a2));
                }
            }
            i = i + 1;
        }
        assert(recipients@.take(n as int) =~= recipients@);
        let ghost w = work@;
        work.supply.insert(asset_id, supply + sum);
        proof {
            lemma_raise_supply(m0, w, asset_id, (supply + sum) as u64);
        }
        *self = work;
        Ok(())
    }

    /// Third-party transfers of the pairs `(asset_ids[i], amounts[i])` from
    /// `from` to `to`, in order, all or nothing: on the first failure the
    /// ledger is left as it was.
    #[verifier::loop_isolation(false)]
    pub fn batch_transfer_from(
        &mut self,
        signers: &Vec<Address>,
        operator: Address,
        from: Address,
        to: Address,
        asset_ids: &Vec<u64>,
        amounts: &Vec<u64>,
    ) -> (r: Result<(), LedgerError>)
        requires
            old(self).wf(),
        ensures
            final(self).wf(),
            asset_ids@.len() != amounts@.len() ==> r == Err::<(), LedgerError>(
                LedgerError::LengthMismatch,
            ) && final(self)@ == old(self)@,
            asset_ids@.len() == amounts@.len() ==> match old(self)@.batch(
                signers@,
                operator,
                from,
                to,
                asset_ids@,
                amounts@,
            ) {
                Ok(m) => r is Ok && final(self)@ == m,
                Err(e) => r == Err::<(), LedgerError>(e) && final(self)@ == old(self)@,
            },
    {
        if asset_ids.len() != amounts.len() {
            return Err(LedgerError::LengthMismatch);
        }
        let ghost m0 = self@;
        let mut work = self.snapshot();
        let n = asset_ids.len();
        let mut i: usize = 0;
        assert(asset_ids@.take(0) =~= Seq::<u64>::empty());
        assert(amounts@.take(0) =~= Seq::<u64>::empty());
        while i < n
            invariant
                i <= n,
                n == asset_ids@.len(),
                n == amounts@.len(),
                m0 == old(self)@,
                work.wf(),
                m0.batch(signers@, operator, from, to, asset_ids@.take(i as int), amounts@.take(i as int))
                    == Ok::<LedgerModel, LedgerError>(work@),
            decreases n - i,
        {
            assert(asset_ids@.take(i + 1).drop_last() =~= asset_ids@.take(i as int));
            assert(amounts@.take(i + 1).drop_last() =~= amounts@.take(i as int));
            let r = work.transfer_from(signers, operator, from, to, asset_ids[i], amounts[i]);
            if let Err(e) = r {
                proof {
                    lemma_batch_err_prefix(
                        m0,
                        signers@,
                        operator,
                        from,
                        to,
                        asset_ids@,
                        amounts@,
                        i + 1,
                    );
                }
                return Err(e);
            }
            i = i + 1;
        }
        assert(asset_ids@.take(n as int) =~= asset_ids@);
        assert(amounts@.take(n as int) =~= amounts@);
        *self = work;
        Ok(())
    }
}

impl FractionalizationContract {
    /// Sets the metadata URI of an existing asset; the caller must sign and
    /// be the admin or the asset's creator.
    pub fn set_asset_uri(
        &mut self,
        signers: &Vec<Address>,
        caller: Address,
        asset_id: u64,
        uri: String,
    ) -> (r: Result<(), LedgerError>)
        requires
            old(self).wf(),
        ensures
            final(self).wf(),
            match uri_error(old(self)@, signers@, caller, asset_id) {
                Some(e) => r == Err::<(), LedgerError>(e) && final(self)@ == old(self)@,
                None => r is Ok && final(self)@ == (LedgerModel {
                    asset_uris: old(self)@.asset_uris.insert(asset_id, uri@),
                    ..old(self)@
                }),
            },
    {
        if !is_signed(signers, caller) {
            return Err(LedgerError::Unauthorized);
        }
        if !self.asset_exists(asset_id) {
            return Err(LedgerError::AssetNotFound);
        }
        let admin = match self.admin {
            Some(a) => a,
            None => return Err(LedgerError::NotInitialized),
        };
        let is_creator = match self.creators.get(&asset_id) {
            Some(c) => *c == caller,
            None => false,
        };
        if caller != admin && !is_creator {
            return Err(LedgerError::Unauthorized);
        }
        self.asset_uris.insert(asset_id, uri);
        proof {
            lemma_wf_frame(old(self)@, self@);
        }
        assert(self@.asset_uris =~= old(self)@.asset_uris.insert(asset_id, uri@));
        Ok(())
    }

    /// The metadata URI of `asset_id`, if one was set.
    pub fn asset_uri(&self, asset_id: u64) -> (r: Option<String>)
        ensures
            r is Some == self@.asset_uris.contains_key(asset_id),
            r is Some ==> r.unwrap()@ == self@.asset_uris[asset_id],
    {
        match self.asset_uris.get(&asset_id) {
            Some(s) => Some(s.clone()),
            None => None,
        }
    }

    /// Sets the ledger's own metadata URI; the admin and `caller` must sign.
    pub fn set_contract_uri(&mut self, signers: &Vec<Address>, caller: Address, uri: String) -> (r:
        Result<(), LedgerError>)
        requires
            old(self).wf(),
        ensures
            final(self).wf(),
            old(self)@.admin_error(signers@) is Some ==> r == Err::<(), LedgerError>(
                old(self)@.admin_error(signers@).unwrap(),
            ) && final(self)@ == old(self)@,
            old(self)@.admin_error(signers@) is None && !signers@.contains(caller) ==> r == Err::<
                (),
                LedgerError,
            >(LedgerError::Unauthorized) && final(self)@ == old(self)@,
            old(self)@.admin_error(signers@) is None && signers@.contains(caller) ==> r is Ok
                && final(self)@ == (LedgerModel { contract_uri: Some(uri@), ..old(self)@ }),
    {
        if let Err(e) = self.require_admin_auth(signers) {
            return Err(e);
        }
        if !is_signed(signers, caller) {
            return Err(LedgerError::Unauthorized);
        }
        self.contract_uri = Some(uri);
        proof {
            lemma_wf_frame(old(self)@, self@);
        }
        Ok(())
    }

    /// The ledger's own metadata URI, if one was set.
    pub fn contract_uri(&self) -> (r: Option<String>)
        ensures
            r is Some == self@.contract_uri is Some,
            r is Some ==> r.unwrap()@ == self@.contract_uri.unwrap(),
    {
        match &self.contract_uri {
            Some(s) => Some(s.clone()),
            None => None,
        }
    }

    /// The admin at the time `asset_id` was minted.
    pub fn get_asset_creator(&self, asset_id: u64) -> (r: Option<Address>)
        ensures
            r == (if self@.creators.contains_key(asset_id) {
                Some(self@.creators[asset_id])
            } else {
                None
            }),
    {
        match self.creators.get(&asset_id) {
            Some(c) => Some(*c),
            None => None,
        }
    }
}

} // verus!

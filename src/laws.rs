use vstd::prelude::*;

use crate::model::LedgerModel;
use crate::pages::lemma_owners;
use crate::Address;
use crate::total::total;

verus! {

/// Supply conservation. In a well-formed ledger state (the state `new`
/// returns, kept by every operation) the supply of each asset is the sum of
/// the balances on its owner list, and that list holds every account with a
/// positive balance exactly once, so the sum runs over all holders.
pub proof fn supply_conservation(m: LedgerModel, a: u64)
    requires
        m.wf(),
    ensures
        m.supply_of(a) == total(m.owners_of(a), m.bal_fn(a)),
        m.owners_of(a).no_duplicates(),
        forall|o: Address| #[trigger] m.balance(o, a) > 0 ==> m.owners_of(a).contains(o),
{
    membership(m, a);
    if !m.supply.contains_key(a) {
        assert(!m.owners.contains_key(a));
    }
}

/// Membership consistency. An account owns an asset exactly when its
/// balance is positive, exactly when it is on the asset's owner list, and
/// exactly when the asset is recorded among its holdings; the owner list
/// has no duplicates.
pub proof fn membership_consistency(m: LedgerModel, o: Address, a: u64)
    requires
        m.wf(),
    ensures
        m.is_owner(o, a) == (m.balance(o, a) > 0),
        m.is_owner(o, a) == m.owners_of(a).contains(o),
        m.holdings.contains((o, a)) == (m.balance(o, a) > 0),
        m.owners_of(a).no_duplicates(),
{
    membership(m, a);
}

/// Owner count. The cached owner count of an asset is the length of its
/// owner list.
pub proof fn owner_count_matches(m: LedgerModel, a: u64)
    requires
        m.wf(),
    ensures
        m.owner_count(a) == m.owners_of(a).len(),
{
    if m.owners.contains_key(a) {
        assert(m.owners[a].wf());
    }
}

/// Approving is an overwrite: approving `x` twice in a row leaves an
/// allowance of exactly `x`, the same state as approving once.
pub proof fn approve_overwrites(m: LedgerModel, o: Address, op: Address, a: u64, x: u64)
    ensures
        m.with_allowance(o, op, a, x).with_allowance(o, op, a, x).allowance(o, op, a) == x,
        m.with_allowance(o, op, a, x).with_allowance(o, op, a, x) == m.with_allowance(o, op, a, x),
{
    assert(m.with_allowance(o, op, a, x).with_allowance(o, op, a, x).allowances =~= m.with_allowance(
        o,
        op,
        a,
        x,
    ).allowances);
}

proof fn membership(m: LedgerModel, a: u64)
    requires
        m.wf(),
    ensures
        m.owners_of(a).no_duplicates(),
        forall|o: Address| #[trigger] m.owners_of(a).contains(o) == m.is_owner(o, a),
{
    if m.owners.contains_key(a) {
        lemma_owners(m.owners[a]);
    } else {
        assert forall|o: Address| #[trigger] m.owners_of(a).contains(o) == m.is_owner(o, a) by {}
    }
}

} // verus!

use fractcore::{Address, FractionalizationContract, LedgerError};

const ADMIN: Address = 1;

/// Every account these cases use signs every call.
fn everyone() -> Vec<Address> {
    (1..=64).collect()
}

fn setup() -> (FractionalizationContract, Address, Vec<Address>) {
    let mut ledger = FractionalizationContract::new();
    let s = everyone();
    ledger.initialize(&s, ADMIN).unwrap();
    (ledger, ADMIN, s)
}

fn initialize_case() {
    let (ledger, admin, _s) = setup();
    assert_eq!(ledger.get_admin(), Ok(admin));
    assert_eq!(ledger.next_asset_id(), 1);
}

fn double_initialization_case() {
    let (mut ledger, _admin, s) = setup();
    let new_admin: Address = 2;
    assert_eq!(ledger.initialize(&s, new_admin), Err(LedgerError::AlreadyInitialized));
}

fn mint_new_asset_case() {
    let (mut ledger, _admin, s) = setup();
    let recipient: Address = 2;
    let asset_id = ledger.mint(&s, recipient, 100).unwrap();
    assert_eq!(asset_id, 1);
    assert_eq!(ledger.balance_of(recipient, asset_id), 100);
    assert_eq!(ledger.asset_supply(asset_id), 100);
    assert_eq!(ledger.get_asset_owner_count(asset_id), 1);
    assert!(ledger.owns_asset(recipient, asset_id));
    assert!(ledger.has_assets(recipient, asset_id));
    assert_eq!(ledger.next_asset_id(), 2);
    let owners = ledger.asset_owners(asset_id);
    assert_eq!(owners.len(), 1);
    assert_eq!(owners[0], recipient);
    let assets = ledger.owner_assets(recipient);
    assert_eq!(assets.len(), 1);
    assert_eq!(assets[0], asset_id);
}

fn mint_to_existing_asset_case() {
    let (mut ledger, _admin, s) = setup();
    let original_owner: Address = 2;
    let new_owner1: Address = 3;
    let new_owner2: Address = 4;
    let asset_id = ledger.mint(&s, original_owner, 100).unwrap();
    let recipients = vec![original_owner, new_owner1, new_owner2];
    let amounts = vec![50, 75, 25];
    ledger.mint_to(&s, asset_id, &recipients, &amounts).unwrap();
    assert_eq!(ledger.balance_of(original_owner, asset_id), 150);
    assert_eq!(ledger.balance_of(new_owner1, asset_id), 75);
    assert_eq!(ledger.balance_of(new_owner2, asset_id), 25);
    assert_eq!(ledger.asset_supply(asset_id), 250);
    assert_eq!(ledger.get_asset_owner_count(asset_id), 3);
    let owners = ledger.asset_owners(asset_id);
    assert_eq!(owners.len(), 3);
    assert!(owners.contains(&original_owner));
    assert!(owners.contains(&new_owner1));
    assert!(owners.contains(&new_owner2));
}

fn transfer_with_list_updates_case() {
    let (mut ledger, _admin, s) = setup();
    let from: Address = 2;
    let to: Address = 3;
    let asset_id = ledger.mint(&s, from, 100).unwrap();
    let owners = ledger.asset_owners(asset_id);
    assert_eq!(owners.len(), 1);
    assert_eq!(owners[0], from);
    ledger.transfer(&s, from, to, asset_id, 30).unwrap();
    let owners = ledger.asset_owners(asset_id);
    assert_eq!(owners.len(), 2);
    assert_eq!(ledger.get_asset_owner_count(asset_id), 2);
    assert!(owners.contains(&from));
    assert!(owners.contains(&to));
    let to_assets = ledger.owner_assets(to);
    assert_eq!(to_assets.len(), 1);
    assert_eq!(to_assets[0], asset_id);
}

fn transfer_all_tokens_removes_from_lists_case() {
    let (mut ledger, _admin, s) = setup();
    let from: Address = 2;
    let to: Address = 3;
    let asset_id = ledger.mint(&s, from, 100).unwrap();
    ledger.transfer(&s, from, to, asset_id, 100).unwrap();
    let owners = ledger.asset_owners(asset_id);
    assert_eq!(owners.len(), 1);
    assert_eq!(owners[0], to);
    assert_eq!(ledger.get_asset_owner_count(asset_id), 1);
    assert_eq!(ledger.owner_assets(from).len(), 0);
    let to_assets = ledger.owner_assets(to);
    assert_eq!(to_assets.len(), 1);
    assert_eq!(to_assets[0], asset_id);
}

fn multiple_assets_per_owner_case() {
    let (mut ledger, _admin, s) = setup();
    let owner: Address = 2;
    let asset1 = ledger.mint(&s, owner, 100).unwrap();
    let asset2 = ledger.mint(&s, owner, 200).unwrap();
    let asset3 = ledger.mint(&s, owner, 300).unwrap();
    let assets = ledger.owner_assets(owner);
    assert_eq!(assets.len(), 3);
    assert!(assets.contains(&asset1));
    assert!(assets.contains(&asset2));
    assert!(assets.contains(&asset3));
    for asset_id in [asset1, asset2, asset3] {
        let owners = ledger.asset_owners(asset_id);
        assert_eq!(owners.len(), 1);
        assert_eq!(owners[0], owner);
    }
}

fn complex_transfer_scenario_with_lists_case() {
    let (mut ledger, _admin, s) = setup();
    let user1: Address = 2;
    let user2: Address = 3;
    let user3: Address = 4;
    let asset_id = ledger.mint(&s, user1, 1000).unwrap();
    let recipients = vec![user1, user2, user3];
    let amounts = vec![500, 300, 200];
    ledger.mint_to(&s, asset_id, &recipients, &amounts).unwrap();
    assert_eq!(ledger.asset_owners(asset_id).len(), 3);
    assert_eq!(ledger.get_asset_owner_count(asset_id), 3);
    ledger.transfer(&s, user1, user2, asset_id, 100).unwrap();
    ledger.transfer(&s, user3, user1, asset_id, 50).unwrap();
    assert_eq!(ledger.asset_owners(asset_id).len(), 3);
    ledger.transfer(&s, user3, user2, asset_id, 150).unwrap();
    assert_eq!(ledger.asset_owners(asset_id).len(), 2);
    assert_eq!(ledger.get_asset_owner_count(asset_id), 2);
    assert_eq!(ledger.owner_assets(user3).len(), 0);
    let user1_assets = ledger.owner_assets(user1);
    assert_eq!(user1_assets.len(), 1);
    assert_eq!(user1_assets[0], asset_id);
    let user2_assets = ledger.owner_assets(user2);
    assert_eq!(user2_assets.len(), 1);
    assert_eq!(user2_assets[0], asset_id);
}

fn empty_lists_for_new_users_case() {
    let (ledger, _admin, _s) = setup();
    let user: Address = 2;
    assert_eq!(ledger.owner_assets(user).len(), 0);
    assert_eq!(ledger.asset_owners(999).len(), 0);
}

fn list_consistency_with_approvals_case() {
    let (mut ledger, _admin, s) = setup();
    let owner: Address = 2;
    let operator: Address = 3;
    let recipient: Address = 4;
    let asset_id = ledger.mint(&s, owner, 100).unwrap();
    ledger.set_approval_for_all(&s, owner, operator, true).unwrap();
    ledger.transfer_from(&s, operator, owner, recipient, asset_id, 30).unwrap();
    assert_eq!(ledger.asset_owners(asset_id).len(), 2);
    assert_eq!(ledger.owner_assets(owner).len(), 1);
    assert_eq!(ledger.owner_assets(recipient).len(), 1);
}

fn mint_zero_tokens_case() {
    let (mut ledger, _admin, s) = setup();
    let recipient: Address = 2;
    assert_eq!(ledger.mint(&s, recipient, 0), Err(LedgerError::ZeroAmount));
}

fn mint_to_zero_asset_id_case() {
    let (mut ledger, _admin, s) = setup();
    let recipient: Address = 2;
    let recipients = vec![recipient];
    let amounts = vec![100];
    assert_eq!(ledger.mint_to(&s, 0, &recipients, &amounts), Err(LedgerError::ReservedAssetId));
}

fn mint_to_nonexistent_asset_case() {
    let (mut ledger, _admin, s) = setup();
    let recipient: Address = 2;
    let recipients = vec![recipient];
    let amounts = vec![100];
    assert_eq!(ledger.mint_to(&s, 999, &recipients, &amounts), Err(LedgerError::AssetNotFound));
}

fn transfer_zero_tokens_case() {
    let (mut ledger, _admin, s) = setup();
    let from: Address = 2;
    let to: Address = 3;
    let asset_id = ledger.mint(&s, from, 100).unwrap();
    assert_eq!(ledger.transfer(&s, from, to, asset_id, 0), Err(LedgerError::ZeroAmount));
}

fn transfer_insufficient_balance_case() {
    let (mut ledger, _admin, s) = setup();
    let from: Address = 2;
    let to: Address = 3;
    let asset_id = ledger.mint(&s, from, 50).unwrap();
    assert_eq!(
        ledger.transfer(&s, from, to, asset_id, 100),
        Err(LedgerError::InsufficientBalance)
    );
}

fn transfer_to_self_case() {
    let (mut ledger, _admin, s) = setup();
    let owner: Address = 2;
    let asset_id = ledger.mint(&s, owner, 100).unwrap();
    assert_eq!(ledger.transfer(&s, owner, owner, asset_id, 30), Err(LedgerError::SelfTransfer));
}

fn approval_for_all_case() {
    let (mut ledger, _admin, s) = setup();
    let owner: Address = 2;
    let operator: Address = 3;
    let recipient: Address = 4;
    let asset_id = ledger.mint(&s, owner, 100).unwrap();
    ledger.set_approval_for_all(&s, owner, operator, true).unwrap();
    assert!(ledger.is_approved_for_all(owner, operator));
    ledger.transfer_from(&s, operator, owner, recipient, asset_id, 30).unwrap();
    assert_eq!(ledger.balance_of(owner, asset_id), 70);
    assert_eq!(ledger.balance_of(recipient, asset_id), 30);
    ledger.set_approval_for_all(&s, owner, operator, false).unwrap();
    assert!(!ledger.is_approved_for_all(owner, operator));
}

fn specific_allowance_case() {
    let (mut ledger, _admin, s) = setup();
    let owner: Address = 2;
    let operator: Address = 3;
    let recipient: Address = 4;
    let asset_id = ledger.mint(&s, owner, 100).unwrap();
    ledger.approve(&s, owner, operator, asset_id, 50).unwrap();
    assert_eq!(ledger.allowance(owner, operator, asset_id), 50);
    ledger.transfer_from(&s, operator, owner, recipient, asset_id, 30).unwrap();
    assert_eq!(ledger.balance_of(owner, asset_id), 70);
    assert_eq!(ledger.balance_of(recipient, asset_id), 30);
    assert_eq!(ledger.allowance(owner, operator, asset_id), 20);
    ledger.transfer_from(&s, operator, owner, recipient, asset_id, 20).unwrap();
    assert_eq!(ledger.allowance(owner, operator, asset_id), 0);
}

fn insufficient_allowance_case() {
    let (mut ledger, _admin, s) = setup();
    let owner: Address = 2;
    let operator: Address = 3;
    let recipient: Address = 4;
    let asset_id = ledger.mint(&s, owner, 100).unwrap();
    ledger.approve(&s, owner, operator, asset_id, 30).unwrap();
    assert_eq!(
        ledger.transfer_from(&s, operator, owner, recipient, asset_id, 50),
        Err(LedgerError::InsufficientAllowance)
    );
}

fn balance_of_batch_case() {
    let (mut ledger, _admin, s) = setup();
    let user1: Address = 2;
    let user2: Address = 3;
    let asset1 = ledger.mint(&s, user1, 100).unwrap();
    let asset2 = ledger.mint(&s, user2, 200).unwrap();
    let owners = vec![user1, user2, user1];
    let asset_ids = vec![asset1, asset2, asset2];
    let balances = ledger.balance_of_batch(&owners, &asset_ids).unwrap();
    assert_eq!(balances[0], 100);
    assert_eq!(balances[1], 200);
    assert_eq!(balances[2], 0);
}

fn batch_transfer_case() {
    let (mut ledger, _admin, s) = setup();
    let owner: Address = 2;
    let operator: Address = 3;
    let recipient: Address = 4;
    let asset1 = ledger.mint(&s, owner, 100).unwrap();
    let asset2 = ledger.mint(&s, owner, 200).unwrap();
    ledger.set_approval_for_all(&s, owner, operator, true).unwrap();
    let asset_ids = vec![asset1, asset2];
    let amounts = vec![30, 50];
    ledger.batch_transfer_from(&s, operator, owner, recipient, &asset_ids, &amounts).unwrap();
    assert_eq!(ledger.balance_of(owner, asset1), 70);
    assert_eq!(ledger.balance_of(owner, asset2), 150);
    assert_eq!(ledger.balance_of(recipient, asset1), 30);
    assert_eq!(ledger.balance_of(recipient, asset2), 50);
    assert_eq!(ledger.asset_owners(asset1).len(), 2);
    assert_eq!(ledger.asset_owners(asset2).len(), 2);
    assert_eq!(ledger.owner_assets(recipient).len(), 2);
}

fn asset_metadata_case() {
    let (mut ledger, admin, s) = setup();
    let recipient: Address = 2;
    let asset_id = ledger.mint(&s, recipient, 100).unwrap();
    let uri = String::from("https://example.com/metadata/1");
    ledger.set_asset_uri(&s, admin, asset_id, uri.clone()).unwrap();
    assert_eq!(ledger.asset_uri(asset_id).unwrap(), uri);
}

fn contract_metadata_case() {
    let (mut ledger, admin, s) = setup();
    let contract_uri = String::from("https://example.com/contract-metadata");
    ledger.set_contract_uri(&s, admin, contract_uri.clone()).unwrap();
    assert_eq!(ledger.contract_uri().unwrap(), contract_uri);
}

fn admin_management_case() {
    let (mut ledger, admin, s) = setup();
    let new_admin: Address = 2;
    assert_eq!(ledger.get_admin(), Ok(admin));
    ledger.transfer_admin(&s, admin, new_admin).unwrap();
    assert_eq!(ledger.get_admin(), Ok(new_admin));
}

fn asset_creator_tracking_case() {
    let (mut ledger, admin, s) = setup();
    let recipient: Address = 2;
    let asset_id = ledger.mint(&s, recipient, 100).unwrap();
    assert_eq!(ledger.get_asset_creator(asset_id).unwrap(), admin);
}

fn asset_existence_checks_case() {
    let (mut ledger, _admin, s) = setup();
    let owner: Address = 2;
    assert!(!ledger.asset_exists(999));
    assert_eq!(ledger.asset_supply(999), 0);
    assert_eq!(ledger.get_asset_owner_count(999), 0);
    assert!(!ledger.owns_asset(owner, 999));
    let asset_id = ledger.mint(&s, owner, 100).unwrap();
    assert!(ledger.asset_exists(asset_id));
    assert_eq!(ledger.asset_supply(asset_id), 100);
    assert_eq!(ledger.get_asset_owner_count(asset_id), 1);
    assert!(ledger.owns_asset(owner, asset_id));
}

#[test]
fn test_test_initialize() {
    initialize_case();
}

#[test]
fn test_test_double_initialization() {
    double_initialization_case();
}

#[test]
fn test_test_mint_new_asset() {
    mint_new_asset_case();
}

#[test]
fn test_test_mint_to_existing_asset() {
    mint_to_existing_asset_case();
}

#[test]
fn test_test_transfer_with_list_updates() {
    transfer_with_list_updates_case();
}

#[test]
fn test_test_transfer_all_tokens_removes_from_lists() {
    transfer_all_tokens_removes_from_lists_case();
}

#[test]
fn test_test_multiple_assets_per_owner() {
    multiple_assets_per_owner_case();
}

#[test]
fn test_test_complex_transfer_scenario_with_lists() {
    complex_transfer_scenario_with_lists_case();
}

#[test]
fn test_test_empty_lists_for_new_users() {
    empty_lists_for_new_users_case();
}

#[test]
fn test_test_list_consistency_with_approvals() {
    list_consistency_with_approvals_case();
}

#[test]
fn test_test_mint_zero_tokens() {
    mint_zero_tokens_case();
}

#[test]
fn test_test_mint_to_zero_asset_id() {
    mint_to_zero_asset_id_case();
}

#[test]
fn test_test_mint_to_nonexistent_asset() {
    mint_to_nonexistent_asset_case();
}

#[test]
fn test_test_transfer_zero_tokens() {
    transfer_zero_tokens_case();
}

#[test]
fn test_test_transfer_insufficient_balance() {
    transfer_insufficient_balance_case();
}

#[test]
fn test_test_transfer_to_self() {
    transfer_to_self_case();
}

#[test]
fn test_test_approval_for_all() {
    approval_for_all_case();
}

#[test]
fn test_test_specific_allowance() {
    specific_allowance_case();
}

#[test]
fn test_test_insufficient_allowance() {
    insufficient_allowance_case();
}

#[test]
fn test_test_balance_of_batch() {
    balance_of_batch_case();
}

#[test]
fn test_test_batch_transfer() {
    batch_transfer_case();
}

#[test]
fn test_test_asset_metadata() {
    asset_metadata_case();
}

#[test]
fn test_test_contract_metadata() {
    contract_metadata_case();
}

#[test]
fn test_test_admin_management() {
    admin_management_case();
}

#[test]
fn test_test_asset_creator_tracking() {
    asset_creator_tracking_case();
}

#[test]
fn test_test_asset_existence_checks() {
    asset_existence_checks_case();
}

#[test]
fn integration_tests_test_mint_to_existing_asset() {
    mint_to_existing_asset_case();
}

#[test]
fn integration_tests_test_transfer_with_list_updates() {
    transfer_with_list_updates_case();
}

#[test]
fn integration_tests_test_transfer_all_tokens_removes_from_lists() {
    transfer_all_tokens_removes_from_lists_case();
}

#[test]
fn integration_tests_test_multiple_assets_per_owner() {
    multiple_assets_per_owner_case();
}

#[test]
fn integration_tests_test_complex_transfer_scenario_with_lists() {
    complex_transfer_scenario_with_lists_case();
}

#[test]
fn integration_tests_test_empty_lists_for_new_users() {
    empty_lists_for_new_users_case();
}

#[test]
fn integration_tests_test_list_consistency_with_approvals() {
    list_consistency_with_approvals_case();
}

#[test]
fn unit_tests_test_initialize() {
    initialize_case();
}

#[test]
fn unit_tests_test_double_initialization() {
    double_initialization_case();
}

#[test]
fn unit_tests_test_mint_new_asset() {
    mint_new_asset_case();
}

#[test]
fn unit_tests_test_mint_zero_tokens() {
    mint_zero_tokens_case();
}

#[test]
fn unit_tests_test_mint_to_zero_asset_id() {
    mint_to_zero_asset_id_case();
}

#[test]
fn unit_tests_test_mint_to_nonexistent_asset() {
    mint_to_nonexistent_asset_case();
}

#[test]
fn unit_tests_test_transfer_zero_tokens() {
    transfer_zero_tokens_case();
}

#[test]
fn unit_tests_test_transfer_insufficient_balance() {
    transfer_insufficient_balance_case();
}

#[test]
fn unit_tests_test_transfer_to_self() {
    transfer_to_self_case();
}

#[test]
fn unit_tests_test_approval_for_all() {
    approval_for_all_case();
}

#[test]
fn unit_tests_test_specific_allowance() {
    specific_allowance_case();
}

#[test]
fn unit_tests_test_insufficient_allowance() {
    insufficient_allowance_case();
}

#[test]
fn unit_tests_test_balance_of_batch() {
    balance_of_batch_case();
}

#[test]
fn unit_tests_test_batch_transfer() {
    batch_transfer_case();
}

#[test]
fn unit_tests_test_asset_metadata() {
    asset_metadata_case();
}

#[test]
fn unit_tests_test_contract_metadata() {
    contract_metadata_case();
}

#[test]
fn unit_tests_test_admin_management() {
    admin_management_case();
}

#[test]
fn unit_tests_test_asset_creator_tracking() {
    asset_creator_tracking_case();
}

#[test]
fn unit_tests_test_asset_existence_checks() {
    asset_existence_checks_case();
}

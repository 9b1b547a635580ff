use sputnik_nft_staking::{Contract, GovernanceCall, StakingError, TransferResult, Withdrawal};

const PERIOD: u64 = 1000;

fn s(x: &str) -> String {
    x.to_string()
}

fn contract_with(weights: &[(&str, u128)]) -> Contract {
    let w: Vec<(String, u128)> = weights.iter().map(|(t, w)| (s(t), *w)).collect();
    Contract::new(s("owner"), w, PERIOD)
}

fn stake(c: &mut Contract, nft: &str, who: &str) {
    assert_eq!(c.nft_on_transfer(&s(nft), &s(who), &s(who), &s(nft), &s("")), Ok(false));
}

#[test]
fn scenario_deposit_withdraw_failed_transfer() {
    let mut c = contract_with(&[("nft1", 2)]);
    stake(&mut c, "nft1", "user");
    assert_eq!(c.nft_total_supply(), Some(1));
    assert_eq!(c.total_voting_power(), Some(2));
    assert_eq!(c.nft_balance_of(&s("user")), Some(1));

    let w = c.withdraw(&s("user"), &s("nft1"), 1, 0).unwrap();
    assert_eq!(w, Withdrawal { receiver_id: s("user"), token_id: s("nft1"), amount: 1 });
    assert_eq!(c.nft_balance_of(&s("user")), Some(0));
    assert_eq!(c.total_voting_power(), Some(0));

    let r = c.exchange_callback_post_withdraw(&s("user"), &s("nft1"), 1, &vec![TransferResult::Failed]);
    assert_eq!(r, Ok(()));
    assert_eq!(c.nft_balance_of(&s("user")), Some(1));
    assert_eq!(c.total_voting_power(), Some(2));
    assert_eq!(c.staked_amount(&s("user"), &s("nft1")), 1);
}

#[test]
fn scenario_delegate_undelegate_cooldown() {
    let mut c = contract_with(&[("nft1", 2)]);
    stake(&mut c, "nft1", "u");
    let r = c.delegate(&s("u"), &s("v"), &s("nft1"), 1, 0);
    assert_eq!(r, Ok(GovernanceCall::Delegate { account_id: s("v"), amount: 2 }));
    assert_eq!(c.delegated_amount(&s("u"), &s("nft1"), &s("v")), 1);
    assert_eq!(c.next_action_timestamp(&s("u")), PERIOD);

    let r = c.undelegate(&s("u"), &s("v"), &s("nft1"), 1, PERIOD);
    assert_eq!(r, Ok(GovernanceCall::Undelegate { account_id: s("v"), amount: 2 }));
    assert_eq!(c.delegated_amount(&s("u"), &s("nft1"), &s("v")), 0);

    let r = c.delegate(&s("u"), &s("v"), &s("nft1"), 1, PERIOD + 1);
    assert_eq!(r, Err(StakingError::CooldownActive));
    assert_eq!(c.delegated_amount(&s("u"), &s("nft1"), &s("v")), 0);
}

#[test]
fn successful_transfer_keeps_debit() {
    let mut c = contract_with(&[("nft1", 2)]);
    stake(&mut c, "nft1", "user");
    c.withdraw(&s("user"), &s("nft1"), 1, 0).unwrap();
    let r = c.exchange_callback_post_withdraw(&s("user"), &s("nft1"), 1, &vec![TransferResult::Successful]);
    assert_eq!(r, Ok(()));
    assert_eq!(c.nft_balance_of(&s("user")), Some(0));
    assert_eq!(c.nft_total_supply(), Some(0));
}

#[test]
fn callback_needs_exactly_one_result() {
    let mut c = contract_with(&[("nft1", 2)]);
    stake(&mut c, "nft1", "user");
    c.withdraw(&s("user"), &s("nft1"), 1, 0).unwrap();
    assert_eq!(
        c.exchange_callback_post_withdraw(&s("user"), &s("nft1"), 1, &vec![]),
        Err(StakingError::CallbackArityViolation)
    );
    assert_eq!(
        c.exchange_callback_post_withdraw(
            &s("user"),
            &s("nft1"),
            1,
            &vec![TransferResult::Failed, TransferResult::Failed]
        ),
        Err(StakingError::CallbackArityViolation)
    );
    assert_eq!(c.nft_balance_of(&s("user")), Some(0));
}

#[test]
fn totals_and_voting_power_over_several_tokens() {
    let mut c = contract_with(&[("nft1", 2), ("nft4", 7), ("nft5", 0)]);
    stake(&mut c, "nft1", "alice");
    stake(&mut c, "nft4", "alice");
    stake(&mut c, "nft5", "alice");
    stake(&mut c, "nft4", "bob");
    assert_eq!(c.nft_total_supply(), Some(4));
    assert_eq!(c.nft_balance_of(&s("alice")), Some(3));
    assert_eq!(c.nft_balance_of(&s("bob")), Some(1));
    assert_eq!(c.nft_balance_of(&s("nobody")), Some(0));
    assert_eq!(c.total_voting_power(), Some(2 + 7 + 7));
    assert_eq!(c.total_amount_of(&s("nft4")), 2);
    assert_eq!(
        c.staked_amount(&s("alice"), &s("nft4")) + c.staked_amount(&s("bob"), &s("nft4")),
        c.total_amount_of(&s("nft4"))
    );
    let user = c.get_user(&s("alice"));
    assert_eq!(user.vote_amounts.len(), 3);
    assert_eq!(user.next_action_timestamp, 0);
}

#[test]
fn deposit_from_unregistered_contract_is_refused() {
    let mut c = contract_with(&[("nft1", 2)]);
    assert_eq!(
        c.nft_on_transfer(&s("other"), &s("u"), &s("u"), &s("other"), &s("")),
        Err(StakingError::InvalidToken)
    );
    assert_eq!(c.nft_total_supply(), Some(0));
}

#[test]
fn deposit_with_message_is_refused() {
    let mut c = contract_with(&[("nft1", 2)]);
    assert_eq!(
        c.nft_on_transfer(&s("nft1"), &s("u"), &s("u"), &s("nft1"), &s("hello")),
        Err(StakingError::InvalidMessage)
    );
    assert_eq!(c.nft_balance_of(&s("u")), Some(0));
}

#[test]
fn token_with_weight_zero_is_accepted_without_power() {
    let mut c = contract_with(&[("nft5", 0)]);
    stake(&mut c, "nft5", "u");
    assert_eq!(c.nft_total_supply(), Some(1));
    assert_eq!(c.total_voting_power(), Some(0));
}

#[test]
fn withdraw_more_than_staked_is_refused() {
    let mut c = contract_with(&[("nft1", 2)]);
    stake(&mut c, "nft1", "u");
    assert_eq!(c.withdraw(&s("u"), &s("nft1"), 2, 0), Err(StakingError::InsufficientBalance));
    assert_eq!(c.withdraw(&s("v"), &s("nft1"), 1, 0), Err(StakingError::InsufficientBalance));
    assert_eq!(c.nft_balance_of(&s("u")), Some(1));
}

#[test]
fn withdraw_of_token_that_names_no_contract_is_refused() {
    let mut c = contract_with(&[("nft1", 2)]);
    assert_eq!(c.nft_on_transfer(&s("nft1"), &s("u"), &s("u"), &s("TEST_NFT"), &s("")), Ok(false));
    assert_eq!(c.withdraw(&s("u"), &s("TEST_NFT"), 1, 0), Err(StakingError::InvalidToken));
    assert_eq!(c.nft_balance_of(&s("u")), Some(1));
    assert!(c.withdraw(&s("u"), &s("nft1"), 0, 0).is_ok());
}

#[test]
fn withdraw_during_cooldown_is_refused() {
    let mut c = contract_with(&[("nft1", 2)]);
    stake(&mut c, "nft1", "u");
    c.delegate(&s("u"), &s("v"), &s("nft1"), 1, 10).unwrap();
    assert_eq!(c.withdraw(&s("u"), &s("nft1"), 1, 10 + PERIOD - 1), Err(StakingError::CooldownActive));
    assert!(c.withdraw(&s("u"), &s("nft1"), 1, 10 + PERIOD).is_ok());
}

#[test]
fn undelegate_floors_at_zero() {
    let mut c = contract_with(&[("nft1", 3)]);
    c.delegate(&s("u"), &s("v"), &s("nft1"), 2, 0).unwrap();
    let r = c.undelegate(&s("u"), &s("v"), &s("nft1"), 5, PERIOD);
    assert_eq!(r, Ok(GovernanceCall::Undelegate { account_id: s("v"), amount: 15 }));
    assert_eq!(c.delegated_amount(&s("u"), &s("nft1"), &s("v")), 0);
    assert_eq!(c.next_action_timestamp(&s("u")), 2 * PERIOD);
}

#[test]
fn delegations_to_different_targets_are_kept_apart() {
    let mut c = contract_with(&[("nft1", 1)]);
    c.delegate(&s("u"), &s("v"), &s("nft1"), 2, 0).unwrap();
    c.delegate(&s("u"), &s("w"), &s("nft1"), 3, PERIOD).unwrap();
    c.delegate(&s("u"), &s("v"), &s("nft1"), 4, 2 * PERIOD).unwrap();
    assert_eq!(c.delegated_amount(&s("u"), &s("nft1"), &s("v")), 6);
    assert_eq!(c.delegated_amount(&s("u"), &s("nft1"), &s("w")), 3);
    assert_eq!(c.get_user(&s("u")).delegated_amounts.len(), 2);
}

#[test]
fn unregistered_token_delegates_no_weight() {
    let mut c = contract_with(&[("nft1", 2)]);
    let r = c.delegate(&s("u"), &s("v"), &s("nft9"), 4, 0);
    assert_eq!(r, Ok(GovernanceCall::Delegate { account_id: s("v"), amount: 0 }));
}

#[test]
fn weighted_amount_overflow_is_refused() {
    let mut c = contract_with(&[("nft1", 2)]);
    assert_eq!(c.delegate(&s("u"), &s("v"), &s("nft1"), u128::MAX, 0), Err(StakingError::AmountOverflow));
    assert_eq!(c.next_action_timestamp(&s("u")), 0);
    assert_eq!(c.undelegate(&s("u"), &s("v"), &s("nft1"), u128::MAX, 0), Err(StakingError::AmountOverflow));
}

#[test]
fn only_owner_adopts_tokens() {
    let mut c = contract_with(&[("nft1", 2)]);
    assert_eq!(c.adopt_new_nfts(&s("someone"), vec![(s("NFT_7"), 22)]), Err(StakingError::NotOwner));
    assert_eq!(c.vote_weight(&s("NFT_7")), 0);
    assert_eq!(c.adopt_new_nfts(&s("owner"), vec![(s("NFT_6"), 22)]), Ok(()));
    assert_eq!(c.vote_weight(&s("NFT_6")), 22);
    assert_eq!(c.vote_weight(&s("nft1")), 2);
}

#[test]
fn latest_registration_wins() {
    let mut c = contract_with(&[("nft1", 2), ("nft2", 5)]);
    c.adopt_new_nfts(&s("owner"), vec![(s("nft1"), 3)]).unwrap();
    c.adopt_new_nfts(&s("owner"), vec![(s("nft1"), 9)]).unwrap();
    assert_eq!(c.vote_weight(&s("nft1")), 9);
    assert_eq!(c.vote_weight(&s("nft2")), 5);
    c.adopt_new_nfts(&s("owner"), vec![(s("nft3"), 1), (s("nft3"), 4)]).unwrap();
    assert_eq!(c.vote_weight(&s("nft3")), 4);
    stake(&mut c, "nft3", "u");
    assert_eq!(c.total_voting_power(), Some(4));
}

#[test]
fn new_contract_is_empty() {
    let c = Contract::new(s("owner"), vec![(s("a"), 1), (s("a"), 6)], 7);
    assert_eq!(c.unstake_period(), 7);
    assert_eq!(c.vote_weight(&s("a")), 6);
    assert_eq!(c.nft_total_supply(), Some(0));
    assert_eq!(c.total_voting_power(), Some(0));
    let u = c.get_user(&s("x"));
    assert!(u.vote_amounts.is_empty() && u.delegated_amounts.is_empty());
}

#[test]
fn voting_power_overflow_reads_as_none() {
    let mut c = contract_with(&[("nft1", u128::MAX)]);
    stake(&mut c, "nft1", "u");
    assert_eq!(c.total_voting_power(), Some(u128::MAX));
    stake(&mut c, "nft1", "v");
    assert_eq!(c.total_voting_power(), None);
    assert_eq!(c.nft_total_supply(), Some(2));
}

#[test]
fn test_basics() {
    let period: u64 = 1000;
    let owner = s("owner");
    let (nft1, nft4, nft5) = (s("nft1"), s("nft4"), s("nft5"));
    let user2 = s("user2");
    let user3 = s("user3");
    let mut contract = Contract::new(
        owner.clone(),
        vec![(nft1.clone(), 2), (nft4.clone(), 7), (nft5.clone(), 0)],
        period,
    );

    for nft in [&nft1, &nft4, &nft5] {
        assert_eq!(contract.nft_on_transfer(nft, &user2, &user2, nft, &s("")), Ok(false));
    }
    assert_eq!(contract.nft_total_supply(), Some(3));
    assert_eq!(contract.nft_balance_of(&user2), Some(3));
    assert_eq!(contract.total_voting_power(), Some(9));

    contract.withdraw(&user2, &nft4, 1, 0).unwrap();
    assert_eq!(contract.nft_total_supply(), Some(2));
    assert_eq!(contract.nft_balance_of(&user2), Some(2));
    assert_eq!(contract.total_voting_power(), Some(2));

    contract.delegate(&user2, &user3, &nft1, 1, 0).unwrap();
    assert_eq!(contract.delegated_amount(&user2, &nft1, &user3), 1);
    let user = contract.get_user(&user2);
    assert_eq!(user.next_action_timestamp, period);

    contract.undelegate(&user2, &user3, &nft1, 1, period).unwrap();
    assert_eq!(contract.delegated_amount(&user2, &nft1, &user3), 0);
    assert_eq!(contract.total_voting_power(), Some(2));

    let nft6 = s("NFT_6");
    assert_eq!(contract.adopt_new_nfts(&owner, vec![(nft6.clone(), 22)]), Ok(()));
    assert_eq!(contract.vote_weight(&nft6), 22, "Token added improperly.");

    let mut other = Contract::new(owner.clone(), vec![], period);
    let r = other.adopt_new_nfts(&user2, vec![(s("NFT_7"), 22)]);
    assert!(r.is_err(), "nft adopted when it shouldn't");
}

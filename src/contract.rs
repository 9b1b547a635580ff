//! The staking contract's state and the operations on it.

use vstd::prelude::*;

use crate::account_id::{is_account_id, valid_account_id};
use crate::table::{
    add_to, amount_in, amount_of, checked_sum, contains_key, distinct_keys, entry_of, put_all,
    sum_of, take_from, weighted_sum,
};
use crate::user::{delegated_in, set_delegated, User};

verus! {

/// Why an operation was refused. A refused operation changes nothing.
#[derive(Debug, Clone, Copy, PartialEq, Eq, Structural)]
pub enum StakingError {
    /// An administrative operation by someone other than the owner.
    NotOwner,
    /// A token that is not recognised where recognition is required.
    InvalidToken,
    /// A deposit notification that carried a message.
    InvalidMessage,
    /// A withdrawal of more than is staked.
    InsufficientBalance,
    /// An action before the account's cooldown has elapsed.
    CooldownActive,
    /// A withdrawal callback that did not receive exactly one outcome.
    CallbackArityViolation,
    /// An amount that does not fit in 128 bits.
    AmountOverflow,
}

/// Outcome of a token transfer, as delivered to the withdrawal callback.
#[derive(Debug, Clone, Copy, PartialEq, Eq, Structural)]
pub enum TransferResult {
    Successful,
    Failed,
}

/// A call to forward to the governance service.
#[derive(Debug, PartialEq, Eq)]
pub enum GovernanceCall {
    /// Add `amount` of voting weight to `account_id`.
    Delegate { account_id: String, amount: u128 },
    /// Remove `amount` of voting weight from `account_id`.
    Undelegate { account_id: String, amount: u128 },
}

/// A token transfer to request from the custody contract `token_id`, whose
/// outcome must then be handed to `Contract::exchange_callback_post_withdraw`.
#[derive(Debug, PartialEq, Eq)]
pub struct Withdrawal {
    pub receiver_id: String,
    pub token_id: String,
    pub amount: u128,
}

/// The staking contract.
pub struct Contract {
    /// Account allowed to register tokens.
    owner_id: String,
    /// Voting weight per registered token id.
    token_ids_with_vote_weights: Vec<(String, u128)>,
    /// Record of each account that has staked or delegated.
    users: Vec<(String, User)>,
    /// Total staked amount per token id.
    total_amount: Vec<(String, u128)>,
    /// Cooldown that each delegate or undelegate starts.
    unstake_period: u64,
}

/// The record of `account`, if any (the latest one wins).
pub open spec fn user_of(users: Seq<(String, User)>, account: Seq<char>) -> Option<User>
    decreases users.len(),
{
    if users.len() == 0 {
        None
    } else if users.last().0@ == account {
        Some(users.last().1)
    } else {
        user_of(users.drop_last(), account)
    }
}

/// Sum over all records of the amount of `token` staked.
pub open spec fn staked_sum(users: Seq<(String, User)>, token: Seq<char>) -> nat
    decreases users.len(),
{
    if users.len() == 0 {
        0
    } else {
        staked_sum(users.drop_last(), token) + users.last().1.staked(token)
    }
}

/// No account has two records.
pub open spec fn distinct_accounts(users: Seq<(String, User)>) -> bool {
    forall|i: int, j: int|
        0 <= i < users.len() && 0 <= j < users.len() && i != j ==> users[i].0@ != users[j].0@
}

proof fn lemma_user_absent(users: Seq<(String, User)>, account: Seq<char>)
    requires
        forall|i: int| 0 <= i < users.len() ==> users[i].0@ != account,
    ensures
        user_of(users, account) == None::<User>,
    decreases users.len(),
{
    if users.len() > 0 {
        lemma_user_absent(users.drop_last(), account);
    }
}

proof fn lemma_user_at(users: Seq<(String, User)>, i: int)
    requires
        distinct_accounts(users),
        0 <= i < users.len(),
    ensures
        user_of(users, users[i].0@) == Some(users[i].1),
    decreases users.len(),
{
    if i < users.len() - 1 {
        lemma_user_at(users.drop_last(), i);
    }
}

proof fn lemma_user_update(
    users: Seq<(String, User)>,
    i: int,
    e: (String, User),
    account: Seq<char>,
    token: Seq<char>,
)
    requires
        distinct_accounts(users),
        0 <= i < users.len(),
        e.0@ == users[i].0@,
    ensures
        distinct_accounts(users.update(i, e)),
        user_of(users.update(i, e), account) == if account == e.0@ {
            Some(e.1)
        } else {
            user_of(users, account)
        },
        staked_sum(users.update(i, e), token) == staked_sum(users, token) - users[i].1.staked(
            token,
        ) + e.1.staked(token),
    decreases users.len(),
{
    let s2 = users.update(i, e);
    assert(distinct_accounts(s2)) by {
        assert forall|a: int, b: int|
            0 <= a < s2.len() && 0 <= b < s2.len() && a != b implies s2[a].0@ != s2[b].0@ by {
            assert(s2[a].0@ == users[a].0@);
            assert(s2[b].0@ == users[b].0@);
        }
    }
    if i == users.len() - 1 {
        assert(s2.drop_last() =~= users.drop_last());
    } else {
        assert(s2.drop_last() =~= users.drop_last().update(i, e));
        lemma_user_update(users.drop_last(), i, e, account, token);
    }
}

proof fn lemma_user_push(
    users: Seq<(String, User)>,
    e: (String, User),
    account: Seq<char>,
    token: Seq<char>,
)
    requires
        distinct_accounts(users),
        forall|i: int| 0 <= i < users.len() ==> users[i].0@ != e.0@,
    ensures
        distinct_accounts(users.push(e)),
        user_of(users.push(e), account) == if account == e.0@ {
            Some(e.1)
        } else {
            user_of(users, account)
        },
        staked_sum(users.push(e), token) == staked_sum(users, token) + e.1.staked(token),
{
    let s2 = users.push(e);
    assert(s2.drop_last() =~= users);
    assert(distinct_accounts(s2)) by {
        assert forall|a: int, b: int|
            0 <= a < s2.len() && 0 <= b < s2.len() && a != b implies s2[a].0@ != s2[b].0@ by {
            if a < users.len() && b < users.len() {
                assert(s2[a] == users[a]);
                assert(s2[b] == users[b]);
            }
        }
    }
}

proof fn lemma_staked_le_sum(users: Seq<(String, User)>, i: int, token: Seq<char>)
    requires
        0 <= i < users.len(),
    ensures
        users[i].1.staked(token) <= staked_sum(users, token),
    decreases users.len(),
{
    if i < users.len() - 1 {
        lemma_staked_le_sum(users.drop_last(), i, token);
    }
}

proof fn lemma_users_update(users: Seq<(String, User)>, i: int, e: (String, User))
    requires
        distinct_accounts(users),
        0 <= i < users.len(),
        e.0@ == users[i].0@,
    ensures
        distinct_accounts(users.update(i, e)),
        forall|a: Seq<char>| #[trigger]
            user_of(users.update(i, e), a) == if a == e.0@ {
                Some(e.1)
            } else {
                user_of(users, a)
            },
        forall|t: Seq<char>| #[trigger]
            staked_sum(users.update(i, e), t) == staked_sum(users, t) - users[i].1.staked(t)
                + e.1.staked(t),
        user_of(users, e.0@) == Some(users[i].1),
{
    let t0 = Seq::<char>::empty();
    lemma_user_update(users, i, e, t0, t0);
    lemma_user_at(users, i);
    assert forall|a: Seq<char>| #[trigger]
        user_of(users.update(i, e), a) == if a == e.0@ {
            Some(e.1)
        } else {
            user_of(users, a)
        } by {
        lemma_user_update(users, i, e, a, t0);
    }
    assert forall|t: Seq<char>| #[trigger]
        staked_sum(users.update(i, e), t) == staked_sum(users, t) - users[i].1.staked(t)
            + e.1.staked(t) by {
        lemma_user_update(users, i, e, t0, t);
    }
}

proof fn lemma_users_push(users: Seq<(String, User)>, e: (String, User))
    requires
        distinct_accounts(users),
        forall|i: int| 0 <= i < users.len() ==> users[i].0@ != e.0@,
    ensures
        distinct_accounts(users.push(e)),
        forall|a: Seq<char>| #[trigger]
            user_of(users.push(e), a) == if a == e.0@ {
                Some(e.1)
            } else {
                user_of(users, a)
            },
        forall|t: Seq<char>| #[trigger]
            staked_sum(users.push(e), t) == staked_sum(users, t) + e.1.staked(t),
        user_of(users, e.0@) == None::<User>,
{
    let t0 = Seq::<char>::empty();
    lemma_user_push(users, e, t0, t0);
    lemma_user_absent(users, e.0@);
    assert forall|a: Seq<char>| #[trigger]
        user_of(users.push(e), a) == if a == e.0@ {
            Some(e.1)
        } else {
            user_of(users, a)
        } by {
        lemma_user_push(users, e, a, t0);
    }
    assert forall|t: Seq<char>| #[trigger]
        staked_sum(users.push(e), t) == staked_sum(users, t) + e.1.staked(t) by {
        lemma_user_push(users, e, t0, t);
    }
}

/// `c` asks the governance service to add `amount` of weight to `account`.
pub open spec fn is_delegate_call(c: GovernanceCall, account: Seq<char>, amount: nat) -> bool {
    match c {
        GovernanceCall::Delegate { account_id, amount: w } => account_id@ == account && w
            == amount,
        _ => false,
    }
}

/// `c` asks the governance service to remove `amount` of weight from `account`.
pub open spec fn is_undelegate_call(c: GovernanceCall, account: Seq<char>, amount: nat) -> bool {
    match c {
        GovernanceCall::Undelegate { account_id, amount: w } => account_id@ == account && w
            == amount,
        _ => false,
    }
}

proof fn lemma_weighted_prefix_step(totals: Seq<(String, u128)>, weights: Seq<(String, u128)>, j: int)
    requires
        0 <= j < totals.len(),
    ensures
        weighted_sum(totals.take(j + 1), weights) == weighted_sum(totals.take(j), weights)
            + (totals[j].1 as nat) * amount_of(weights, totals[j].0@),
{
    assert(totals.take(j + 1).drop_last() =~= totals.take(j));
}

proof fn lemma_weighted_prefix_le(totals: Seq<(String, u128)>, weights: Seq<(String, u128)>, j: int)
    requires
        0 <= j <= totals.len(),
    ensures
        weighted_sum(totals.take(j), weights) <= weighted_sum(totals, weights),
    decreases totals.len() - j,
{
    if j == totals.len() {
        assert(totals.take(j) =~= totals);
    } else {
        lemma_weighted_prefix_step(totals, weights, j);
        assert((totals[j].1 as nat) * amount_of(weights, totals[j].0@) >= 0) by (nonlinear_arith);
        lemma_weighted_prefix_le(totals, weights, j + 1);
    }
}

impl Contract {
    /// The state's invariant: keys are unique in every table, and for every
    /// token the amounts staked by all accounts add up to the token's total.
    pub closed spec fn wf(&self) -> bool {
        &&& distinct_keys(self.token_ids_with_vote_weights@)
        &&& distinct_keys(self.total_amount@)
        &&& distinct_accounts(self.users@)
        &&& forall|i: int| 0 <= i < self.users@.len() ==> (#[trigger] self.users@[i]).1.wf()
        &&& forall|t: Seq<char>|
            #[trigger] staked_sum(self.users@, t) == amount_of(self.total_amount@, t)
    }

    /// The owner, who alone may register tokens.
    pub closed spec fn owner(&self) -> Seq<char> {
        self.owner_id@
    }

    /// The cooldown that each delegate or undelegate starts.
    pub closed spec fn cooldown(&self) -> nat {
        self.unstake_period as nat
    }

    /// Whether `token` is registered (possibly with weight zero).
    pub closed spec fn registered(&self, token: Seq<char>) -> bool {
        entry_of(self.token_ids_with_vote_weights@, token) is Some
    }

    /// The voting weight of `token`: zero when it is not registered.
    pub closed spec fn weight_of(&self, token: Seq<char>) -> nat {
        amount_of(self.token_ids_with_vote_weights@, token)
    }

    /// The record of `account`, if it has one.
    pub closed spec fn record(&self, account: Seq<char>) -> Option<User> {
        user_of(self.users@, account)
    }

    /// Amount of `token` staked by `account`.
    pub open spec fn staked(&self, account: Seq<char>, token: Seq<char>) -> nat {
        match self.record(account) {
            Some(u) => u.staked(token),
            None => 0,
        }
    }

    /// Amount of `token` that `account` has delegated to `target`.
    pub open spec fn delegated(&self, account: Seq<char>, token: Seq<char>, target: Seq<char>) -> nat {
        match self.record(account) {
            Some(u) => u.delegated(token, target),
            None => 0,
        }
    }

    /// The instant from which `account` may act again.
    pub open spec fn eligible_at(&self, account: Seq<char>) -> nat {
        match self.record(account) {
            Some(u) => u.next_action_timestamp as nat,
            None => 0,
        }
    }

    /// Amount of `token` staked by everyone.
    pub closed spec fn total_staked(&self, token: Seq<char>) -> nat {
        amount_of(self.total_amount@, token)
    }

    /// Sum over all accounts of the amount of `token` they staked.
    pub closed spec fn staked_by_all(&self, token: Seq<char>) -> nat {
        staked_sum(self.users@, token)
    }

    /// Number of tokens staked, all token ids together.
    pub closed spec fn supply(&self) -> nat {
        sum_of(self.total_amount@)
    }

    /// Sum over the token ids of the total staked times the token's weight.
    pub closed spec fn voting_power(&self) -> nat {
        weighted_sum(self.total_amount@, self.token_ids_with_vote_weights@)
    }

    /// Number of tokens staked by `account`, all token ids together.
    pub open spec fn balance(&self, account: Seq<char>) -> nat {
        match self.record(account) {
            Some(u) => sum_of(u.vote_amounts@),
            None => 0,
        }
    }

    /// Registry, owner and cooldown are as in `before`.
    pub open spec fn keeps_config(&self, before: Contract) -> bool {
        &&& self.owner() == before.owner()
        &&& self.cooldown() == before.cooldown()
        &&& forall|t: Seq<char>|
            #![trigger self.registered(t)]
            #![trigger self.weight_of(t)]
            self.registered(t) == before.registered(t) && self.weight_of(t) == before.weight_of(t)
    }

    /// Each token of `updates` is registered with its weight there (a later
    /// entry wins over an earlier one), and every other token keeps what it
    /// had in `before`: nothing is unregistered.
    pub open spec fn registry_extended(&self, before: Contract, updates: Seq<(String, u128)>) -> bool {
        &&& forall|t: Seq<char>| #[trigger]
            self.registered(t) == (entry_of(updates, t) is Some || before.registered(t))
        &&& forall|t: Seq<char>| #[trigger]
            self.weight_of(t) == match entry_of(updates, t) {
                Some(w) => w as nat,
                None => before.weight_of(t),
            }
    }

    /// Stakes and totals are as in `before`.
    pub open spec fn keeps_ledger(&self, before: Contract) -> bool {
        &&& forall|a: Seq<char>, t: Seq<char>| #[trigger]
            self.staked(a, t) == before.staked(a, t)
        &&& forall|t: Seq<char>| #[trigger] self.total_staked(t) == before.total_staked(t)
        &&& forall|a: Seq<char>| #[trigger] self.balance(a) == before.balance(a)
        &&& self.supply() == before.supply()
        &&& self.voting_power() == before.voting_power()
    }

    /// Delegations and cooldowns are as in `before`.
    pub open spec fn keeps_delegations(&self, before: Contract) -> bool {
        &&& forall|a: Seq<char>, t: Seq<char>, g: Seq<char>| #[trigger]
            self.delegated(a, t, g) == before.delegated(a, t, g)
        &&& forall|a: Seq<char>| #[trigger] self.eligible_at(a) == before.eligible_at(a)
    }

    /// The stake of `account` in `token`, and the token's total, moved by
    /// `delta` from `before`; every other stake and total is unchanged.
    pub open spec fn ledger_moved(
        &self,
        before: Contract,
        account: Seq<char>,
        token: Seq<char>,
        delta: int,
    ) -> bool {
        &&& forall|a: Seq<char>, t: Seq<char>| #[trigger]
            self.staked(a, t) == if a == account && t == token {
                before.staked(a, t) + delta
            } else {
                before.staked(a, t) as int
            }
        &&& forall|t: Seq<char>| #[trigger]
            self.total_staked(t) == if t == token {
                before.total_staked(t) + delta
            } else {
                before.total_staked(t) as int
            }
        &&& forall|a: Seq<char>| #[trigger]
            self.balance(a) == if a == account {
                before.balance(a) + delta
            } else {
                before.balance(a) as int
            }
        &&& self.supply() == before.supply() + delta
        &&& self.voting_power() == before.voting_power() + delta * before.weight_of(token)
    }
    /// Position of the record of `account`, or `None` when it has none.
    fn find_user(&self, account: &String) -> (r: Option<usize>)
        ensures
            match r {
                Some(i) => i < self.users@.len() && self.users@[i as int].0@ == account@,
                None => forall|i: int|
                    0 <= i < self.users@.len() ==> self.users@[i].0@ != account@,
            },
    {
        let mut i: usize = 0;
        while i < self.users.len()
            invariant
                i <= self.users@.len(),
                forall|j: int| 0 <= j < i ==> self.users@[j].0@ != account@,
            decreases self.users@.len() - i,
        {
            if self.users[i].0 == *account {
                return Some(i);
            }
            i += 1;
        }
        None
    }

    /// Credits `amount` of `token` to `account` and to the token's total,
    /// creating the account's record if it has none.
    fn internal_deposit(&mut self, account: &String, token: &String, amount: u128)
        requires
            old(self).wf(),
            old(self).total_staked(token@) + amount <= u128::MAX,
        ensures
            final(self).wf(),
            final(self).ledger_moved(*old(self), account@, token@, amount as int),
            final(self).keeps_config(*old(self)),
            final(self).keeps_delegations(*old(self)),
    {
        let ghost users0 = self.users@;
        match self.find_user(account) {
            Some(i) => {
                let (id, mut u) = self.users.remove(i);
                proof {
                    lemma_staked_le_sum(users0, i as int, token@);
                    assert(u == users0[i as int].1);
                }
                add_to(&mut u.vote_amounts, token, amount);
                self.users.insert(i, (id, u));
                proof {
                    assert(self.users@ =~= users0.update(i as int, (id, u)));
                    lemma_users_update(users0, i as int, (id, u));
                }
            },
            None => {
                let mut u = User::new();
                add_to(&mut u.vote_amounts, token, amount);
                let e = (account.clone(), u);
                self.users.push(e);
                proof {
                    lemma_users_push(users0, e);
                }
            },
        }
        add_to(&mut self.total_amount, token, amount);
    }

    /// Debits `amount` of `token` from `account` and from the token's total.
    fn internal_withdraw(&mut self, account: &String, token: &String, amount: u128)
        requires
            old(self).wf(),
            amount <= old(self).staked(account@, token@),
        ensures
            final(self).wf(),
            final(self).ledger_moved(*old(self), account@, token@, -(amount as int)),
            final(self).keeps_config(*old(self)),
            final(self).keeps_delegations(*old(self)),
    {
        let ghost users0 = self.users@;
        match self.find_user(account) {
            Some(i) => {
                let (id, mut u) = self.users.remove(i);
                proof {
                    lemma_user_at(users0, i as int);
                    lemma_staked_le_sum(users0, i as int, token@);
                    assert(u == users0[i as int].1);
                }
                take_from(&mut u.vote_amounts, token, amount);
                self.users.insert(i, (id, u));
                proof {
                    assert(self.users@ =~= users0.update(i as int, (id, u)));
                    lemma_users_update(users0, i as int, (id, u));
                }
                take_from(&mut self.total_amount, token, amount);
                proof {
                    let x = self.weight_of(token@);
                    assert(-(amount as int) * x == -(amount * x)) by (nonlinear_arith);
                }
            },
            None => {
                proof {
                    lemma_user_absent(users0, account@);
                    let x = self.weight_of(token@);
                    assert(-(amount as int) * x == 0) by (nonlinear_arith)
                        requires
                            amount == 0,
                    ;
                }
            },
        }
    }
    /// Records `value` as what `account` delegates of `token` to `target`,
    /// and locks `account` until `until`.
    fn internal_set_delegation(
        &mut self,
        account: &String,
        token: &String,
        target: &String,
        value: u128,
        until: u64,
    )
        requires
            old(self).wf(),
        ensures
            final(self).wf(),
            final(self).keeps_config(*old(self)),
            final(self).keeps_ledger(*old(self)),
            forall|a: Seq<char>, t: Seq<char>, g: Seq<char>| #[trigger]
                final(self).delegated(a, t, g) == if a == account@ && t == token@ && g == target@ {
                    value as nat
                } else {
                    old(self).delegated(a, t, g)
                },
            forall|a: Seq<char>| #[trigger]
                final(self).eligible_at(a) == if a == account@ {
                    until as nat
                } else {
                    old(self).eligible_at(a)
                },
    {
        let ghost users0 = self.users@;
        match self.find_user(account) {
            Some(i) => {
                let (id, mut u) = self.users.remove(i);
                proof {
                    assert(u == users0[i as int].1);
                }
                set_delegated(&mut u.delegated_amounts, token, target, value);
                u.next_action_timestamp = until;
                self.users.insert(i, (id, u));
                proof {
                    assert(self.users@ =~= users0.update(i as int, (id, u)));
                    lemma_users_update(users0, i as int, (id, u));
                }
            },
            None => {
                let mut u = User::new();
                set_delegated(&mut u.delegated_amounts, token, target, value);
                u.next_action_timestamp = until;
                let e = (account.clone(), u);
                self.users.push(e);
                proof {
                    lemma_users_push(users0, e);
                }
            },
        }
    }

    /// Amount of `token` that `account` has delegated to `target`.
    pub fn delegated_amount(&self, account: &String, token: &String, target: &String) -> (r: u128)
        requires
            self.wf(),
        ensures
            r == self.delegated(account@, token@, target@),
    {
        match self.find_user(account) {
            Some(i) => {
                proof {
                    lemma_user_at(self.users@, i as int);
                }
                delegated_in(&self.users[i].1.delegated_amounts, token, target)
            },
            None => {
                proof {
                    lemma_user_absent(self.users@, account@);
                }
                0
            },
        }
    }

    /// The instant from which `account` may delegate, undelegate or withdraw.
    pub fn next_action_timestamp(&self, account: &String) -> (r: u64)
        requires
            self.wf(),
        ensures
            r == self.eligible_at(account@),
    {
        match self.find_user(account) {
            Some(i) => {
                proof {
                    lemma_user_at(self.users@, i as int);
                }
                self.users[i].1.next_action_timestamp
            },
            None => {
                proof {
                    lemma_user_absent(self.users@, account@);
                }
                0
            },
        }
    }

    /// Voting weight of `token`: zero when it is not registered.
    pub fn vote_weight(&self, token: &String) -> (r: u128)
        requires
            self.wf(),
        ensures
            r == self.weight_of(token@),
    {
        amount_in(&self.token_ids_with_vote_weights, token)
    }

    /// The account allowed to register tokens.
    pub fn owner_id(&self) -> (r: &String)
        ensures
            r@ == self.owner(),
    {
        &self.owner_id
    }

    /// The cooldown that each delegate or undelegate starts.
    pub fn unstake_period(&self) -> (r: u64)
        ensures
            r == self.cooldown(),
    {
        self.unstake_period
    }

    /// `sender_id` delegates `amount` of `token_id` to `account_id` at instant
    /// `now`. Refused while the sender's cooldown runs; otherwise the
    /// delegation grows by `amount`, the sender is locked for the cooldown,
    /// and `amount` times the token's weight is to be added to `account_id`'s
    /// weight in the governance service.
    pub fn delegate(
        &mut self,
        sender_id: &String,
        account_id: &String,
        token_id: &String,
        amount: u128,
        now: u64,
    ) -> (r: Result<GovernanceCall, StakingError>)
        requires
            old(self).wf(),
            now + old(self).cooldown() <= u64::MAX,
        ensures
            final(self).wf(),
            (r == Err::<GovernanceCall, StakingError>(StakingError::CooldownActive)) <==> now
                < old(self).eligible_at(sender_id@),
            (r == Err::<GovernanceCall, StakingError>(StakingError::AmountOverflow)) <==> (now
                >= old(self).eligible_at(sender_id@) && (amount * old(self).weight_of(token_id@)
                > u128::MAX || old(self).delegated(sender_id@, token_id@, account_id@) + amount
                > u128::MAX)),
            r is Ok <==> (now >= old(self).eligible_at(sender_id@) && amount * old(self).weight_of(
                token_id@,
            ) <= u128::MAX && old(self).delegated(sender_id@, token_id@, account_id@) + amount
                <= u128::MAX),
            r is Err ==> *final(self) == *old(self),
            r is Ok ==> {
                &&& is_delegate_call(
                    r->Ok_0,
                    account_id@,
                    (amount * old(self).weight_of(token_id@)) as nat,
                )
                &&& final(self).keeps_config(*old(self))
                &&& final(self).keeps_ledger(*old(self))
                &&& forall|a: Seq<char>, t: Seq<char>, g: Seq<char>| #[trigger]
                    final(self).delegated(a, t, g) == if a == sender_id@ && t == token_id@ && g
                        == account_id@ {
                        old(self).delegated(a, t, g) + amount
                    } else {
                        old(self).delegated(a, t, g) as int
                    }
                &&& forall|a: Seq<char>| #[trigger]
                    final(self).eligible_at(a) == if a == sender_id@ {
                        now + old(self).cooldown()
                    } else {
                        old(self).eligible_at(a) as int
                    }
            },
    {
        if now < self.next_action_timestamp(sender_id) {
            return Err(StakingError::CooldownActive);
        }
        let weight = self.vote_weight(token_id);
        let weighted = match amount.checked_mul(weight) {
            Some(w) => w,
            None => {
                return Err(StakingError::AmountOverflow);
            },
        };
        let current = self.delegated_amount(sender_id, token_id, account_id);
        let value = match current.checked_add(amount) {
            Some(v) => v,
            None => {
                return Err(StakingError::AmountOverflow);
            },
        };
        let until = now + self.unstake_period;
        self.internal_set_delegation(sender_id, token_id, account_id, value, until);
        Ok(GovernanceCall::Delegate { account_id: account_id.clone(), amount: weighted })
    }

    /// `sender_id` takes back `amount` of `token_id` delegated to `account_id`
    /// at instant `now`. Refused while the sender's cooldown runs; otherwise
    /// the delegation shrinks by `amount` (to zero at least), the sender is
    /// locked for the cooldown, and `amount` times the token's weight is to be
    /// removed from `account_id`'s weight in the governance service.
    pub fn undelegate(
        &mut self,
        sender_id: &String,
        account_id: &String,
        token_id: &String,
        amount: u128,
        now: u64,
    ) -> (r: Result<GovernanceCall, StakingError>)
        requires
            old(self).wf(),
            now + old(self).cooldown() <= u64::MAX,
        ensures
            final(self).wf(),
            (r == Err::<GovernanceCall, StakingError>(StakingError::CooldownActive)) <==> now
                < old(self).eligible_at(sender_id@),
            (r == Err::<GovernanceCall, StakingError>(StakingError::AmountOverflow)) <==> (now
                >= old(self).eligible_at(sender_id@) && amount * old(self).weight_of(token_id@)
                > u128::MAX),
            r is Ok <==> (now >= old(self).eligible_at(sender_id@) && amount * old(self).weight_of(
                token_id@,
            ) <= u128::MAX),
            r is Err ==> *final(self) == *old(self),
            r is Ok ==> {
                &&& is_undelegate_call(
                    r->Ok_0,
                    account_id@,
                    (amount * old(self).weight_of(token_id@)) as nat,
                )
                &&& final(self).keeps_config(*old(self))
                &&& final(self).keeps_ledger(*old(self))
                &&& forall|a: Seq<char>, t: Seq<char>, g: Seq<char>| #[trigger]
                    final(self).delegated(a, t, g) == if a == sender_id@ && t == token_id@ && g
                        == account_id@ {
                        if old(self).delegated(a, t, g) >= amount {
                            old(self).delegated(a, t, g) - amount
                        } else {
                            0
                        }
                    } else {
                        old(self).delegated(a, t, g) as int
                    }
                &&& forall|a: Seq<char>| #[trigger]
                    final(self).eligible_at(a) == if a == sender_id@ {
                        now + old(self).cooldown()
                    } else {
                        old(self).eligible_at(a) as int
                    }
            },
    {
        if now < self.next_action_timestamp(sender_id) {
            return Err(StakingError::CooldownActive);
        }
        let weight = self.vote_weight(token_id);
        let weighted = match amount.checked_mul(weight) {
            Some(w) => w,
            None => {
                return Err(StakingError::AmountOverflow);
            },
        };
        let current = self.delegated_amount(sender_id, token_id, account_id);
        let value = if current >= amount {
            current - amount
        } else {
            0
        };
        let until = now + self.unstake_period;
        self.internal_set_delegation(sender_id, token_id, account_id, value, until);
        Ok(GovernanceCall::Undelegate { account_id: account_id.clone(), amount: weighted })
    }
    /// A contract owned by `owner_id`, with the tokens and weights of
    /// `token_ids_with_vote_weights` registered (a later entry wins over an
    /// earlier one with the same token), nothing staked, and a cooldown of
    /// `unstake_period`.
    pub fn new(
        owner_id: String,
        token_ids_with_vote_weights: Vec<(String, u128)>,
        unstake_period: u64,
    ) -> (r: Contract)
        ensures
            r.wf(),
            r.owner() == owner_id@,
            r.cooldown() == unstake_period,
            forall|t: Seq<char>| #[trigger]
                r.registered(t) == (entry_of(token_ids_with_vote_weights@, t) is Some),
            forall|t: Seq<char>| #[trigger]
                r.weight_of(t) == amount_of(token_ids_with_vote_weights@, t),
            forall|a: Seq<char>| #[trigger] r.record(a) == None::<User>,
            forall|t: Seq<char>| #[trigger] r.total_staked(t) == 0,
            r.supply() == 0,
            r.voting_power() == 0,
    {
        let mut weights: Vec<(String, u128)> = Vec::new();
        put_all(&mut weights, &token_ids_with_vote_weights);
        let r = Contract {
            owner_id,
            token_ids_with_vote_weights: weights,
            users: Vec::new(),
            total_amount: Vec::new(),
            unstake_period,
        };
        proof {
            assert forall|t: Seq<char>| #[trigger] r.registered(t) == (entry_of(
                token_ids_with_vote_weights@,
                t,
            ) is Some) by {
                assert(entry_of(Seq::<(String, u128)>::empty(), t) == None::<u128>);
            }
            assert forall|t: Seq<char>| #[trigger]
                r.weight_of(t) == amount_of(token_ids_with_vote_weights@, t) by {
                assert(entry_of(Seq::<(String, u128)>::empty(), t) == None::<u128>);
            }
        }
        r
    }

    /// The owner `caller` registers each token of `token_ids_and_weights`
    /// with its weight (a later entry wins over an earlier one with the same
    /// token). Tokens already registered and not listed keep their weight.
    pub fn adopt_new_nfts(
        &mut self,
        caller: &String,
        token_ids_and_weights: Vec<(String, u128)>,
    ) -> (r: Result<(), StakingError>)
        requires
            old(self).wf(),
        ensures
            final(self).wf(),
            (r == Err::<(), StakingError>(StakingError::NotOwner)) <==> caller@ != old(
                self,
            ).owner(),
            r is Ok <==> caller@ == old(self).owner(),
            r is Err ==> *final(self) == *old(self),
            r is Ok ==> {
                &&& final(self).registry_extended(*old(self), token_ids_and_weights@)
                &&& final(self).owner() == old(self).owner()
                &&& final(self).cooldown() == old(self).cooldown()
                &&& forall|a: Seq<char>| #[trigger] final(self).record(a) == old(self).record(a)
                &&& forall|t: Seq<char>| #[trigger]
                    final(self).total_staked(t) == old(self).total_staked(t)
                &&& final(self).supply() == old(self).supply()
            },
    {
        if *caller != self.owner_id {
            return Err(StakingError::NotOwner);
        }
        put_all(&mut self.token_ids_with_vote_weights, &token_ids_and_weights);
        Ok(())
    }

    /// Amount of `token` staked by `account`.
    pub fn staked_amount(&self, account: &String, token: &String) -> (r: u128)
        requires
            self.wf(),
        ensures
            r == self.staked(account@, token@),
    {
        match self.find_user(account) {
            Some(i) => {
                proof {
                    lemma_user_at(self.users@, i as int);
                }
                amount_in(&self.users[i].1.vote_amounts, token)
            },
            None => {
                proof {
                    lemma_user_absent(self.users@, account@);
                }
                0
            },
        }
    }

    /// Amount of `token` staked by everyone.
    pub fn total_amount_of(&self, token: &String) -> (r: u128)
        requires
            self.wf(),
        ensures
            r == self.total_staked(token@),
    {
        amount_in(&self.total_amount, token)
    }

    /// Notification from the token contract `predecessor_id` that `sender_id`
    /// transferred it the token `token_id` with the message `msg`. The token
    /// contract must be registered and the message empty; then one unit of
    /// `token_id` is staked for `sender_id`, and the token is kept
    /// (`Ok(false)`: nothing is to be returned).
    pub fn nft_on_transfer(
        &mut self,
        predecessor_id: &String,
        sender_id: &String,
        _previous_owner_id: &String,
        token_id: &String,
        msg: &String,
    ) -> (r: Result<bool, StakingError>)
        requires
            old(self).wf(),
        ensures
            final(self).wf(),
            (r == Err::<bool, StakingError>(StakingError::InvalidToken)) <==> !old(
                self,
            ).registered(predecessor_id@),
            (r == Err::<bool, StakingError>(StakingError::InvalidMessage)) <==> (old(
                self,
            ).registered(predecessor_id@) && msg@.len() > 0),
            (r == Err::<bool, StakingError>(StakingError::AmountOverflow)) <==> (old(
                self,
            ).registered(predecessor_id@) && msg@.len() == 0 && old(self).total_staked(token_id@)
                + 1 > u128::MAX),
            r is Ok <==> (old(self).registered(predecessor_id@) && msg@.len() == 0 && old(
                self,
            ).total_staked(token_id@) + 1 <= u128::MAX),
            r is Err ==> *final(self) == *old(self),
            r is Ok ==> {
                &&& r == Ok::<bool, StakingError>(false)
                &&& final(self).ledger_moved(*old(self), sender_id@, token_id@, 1)
                &&& final(self).keeps_config(*old(self))
                &&& final(self).keeps_delegations(*old(self))
            },
    {
        if !contains_key(&self.token_ids_with_vote_weights, predecessor_id) {
            return Err(StakingError::InvalidToken);
        }
        if !msg.as_str().is_empty() {
            return Err(StakingError::InvalidMessage);
        }
        if self.total_amount_of(token_id) == u128::MAX {
            return Err(StakingError::AmountOverflow);
        }
        self.internal_deposit(sender_id, token_id, 1);
        Ok(false)
    }

    /// `sender_id` withdraws `amount` of `token_id` at instant `now`. Refused
    /// while the sender's cooldown runs, when less is staked, or when the
    /// token id does not name a token contract. Otherwise the stake is
    /// debited at once and the transfer back to the sender is to be
    /// requested; its outcome goes to `exchange_callback_post_withdraw`.
    pub fn withdraw(
        &mut self,
        sender_id: &String,
        token_id: &String,
        amount: u128,
        now: u64,
    ) -> (r: Result<Withdrawal, StakingError>)
        requires
            old(self).wf(),
        ensures
            final(self).wf(),
            (r == Err::<Withdrawal, StakingError>(StakingError::CooldownActive)) <==> now < old(
                self,
            ).eligible_at(sender_id@),
            (r == Err::<Withdrawal, StakingError>(StakingError::InsufficientBalance)) <==> (now
                >= old(self).eligible_at(sender_id@) && old(self).staked(sender_id@, token_id@)
                < amount),
            (r == Err::<Withdrawal, StakingError>(StakingError::InvalidToken)) <==> (now >= old(
                self,
            ).eligible_at(sender_id@) && old(self).staked(sender_id@, token_id@) >= amount
                && !is_account_id(token_id@)),
            r is Ok <==> (now >= old(self).eligible_at(sender_id@) && old(self).staked(
                sender_id@,
                token_id@,
            ) >= amount && is_account_id(token_id@)),
            r is Err ==> *final(self) == *old(self),
            r is Ok ==> {
                &&& r->Ok_0.receiver_id@ == sender_id@
                &&& r->Ok_0.token_id@ == token_id@
                &&& r->Ok_0.amount == amount
                &&& final(self).ledger_moved(*old(self), sender_id@, token_id@, -(amount as int))
                &&& final(self).keeps_config(*old(self))
                &&& final(self).keeps_delegations(*old(self))
            },
    {
        if now < self.next_action_timestamp(sender_id) {
            return Err(StakingError::CooldownActive);
        }
        if self.staked_amount(sender_id, token_id) < amount {
            return Err(StakingError::InsufficientBalance);
        }
        if !valid_account_id(token_id) {
            return Err(StakingError::InvalidToken);
        }
        self.internal_withdraw(sender_id, token_id, amount);
        Ok(Withdrawal { receiver_id: sender_id.clone(), token_id: token_id.clone(), amount })
    }

    /// Completes the withdrawal of `amount` of `token_id` by `sender_id`,
    /// given the outcomes of its transfer. Exactly one outcome must come. On
    /// success the debit stands; on failure the stake is credited back.
    pub fn exchange_callback_post_withdraw(
        &mut self,
        sender_id: &String,
        token_id: &String,
        amount: u128,
        results: &Vec<TransferResult>,
    ) -> (r: Result<(), StakingError>)
        requires
            old(self).wf(),
        ensures
            final(self).wf(),
            (r == Err::<(), StakingError>(StakingError::CallbackArityViolation)) <==> results@.len()
                != 1,
            (r == Err::<(), StakingError>(StakingError::AmountOverflow)) <==> (results@.len() == 1
                && results@[0] == TransferResult::Failed && old(self).total_staked(token_id@)
                + amount > u128::MAX),
            r is Ok <==> (results@.len() == 1 && !(results@[0] == TransferResult::Failed && old(
                self,
            ).total_staked(token_id@) + amount > u128::MAX)),
            r is Err ==> *final(self) == *old(self),
            (r is Ok && results@[0] == TransferResult::Successful) ==> *final(self) == *old(self),
            (r is Ok && results@[0] == TransferResult::Failed) ==> {
                &&& final(self).ledger_moved(*old(self), sender_id@, token_id@, amount as int)
                &&& final(self).keeps_config(*old(self))
                &&& final(self).keeps_delegations(*old(self))
            },
    {
        if results.len() != 1 {
            return Err(StakingError::CallbackArityViolation);
        }
        match results[0] {
            TransferResult::Successful => Ok(()),
            TransferResult::Failed => {
                if self.total_amount_of(token_id) > u128::MAX - amount {
                    return Err(StakingError::AmountOverflow);
                }
                self.internal_deposit(sender_id, token_id, amount);
                Ok(())
            },
        }
    }

    /// Number of tokens staked, all token ids together; `None` when that
    /// number does not fit in `u128`.
    pub fn nft_total_supply(&self) -> (r: Option<u128>)
        ensures
            r == if self.supply() <= u128::MAX {
                Some(self.supply() as u128)
            } else {
                None::<u128>
            },
    {
        checked_sum(&self.total_amount)
    }

    /// Sum over the token ids of the amount staked times the token's weight;
    /// `None` when that sum does not fit in `u128`.
    pub fn total_voting_power(&self) -> (r: Option<u128>)
        requires
            self.wf(),
        ensures
            r == if self.voting_power() <= u128::MAX {
                Some(self.voting_power() as u128)
            } else {
                None::<u128>
            },
    {
        let totals = &self.total_amount;
        let weights = &self.token_ids_with_vote_weights;
        let mut sum: u128 = 0;
        let mut i: usize = 0;
        proof {
            assert(totals@.take(0) =~= Seq::<(String, u128)>::empty());
        }
        while i < totals.len()
            invariant
                i <= totals@.len(),
                totals@ == self.total_amount@,
                weights@ == self.token_ids_with_vote_weights@,
                distinct_keys(weights@),
                sum == weighted_sum(totals@.take(i as int), weights@),
            decreases totals@.len() - i,
        {
            proof {
                lemma_weighted_prefix_step(totals@, weights@, i as int);
            }
            let w = amount_in(weights, &totals[i].0);
            let p = match totals[i].1.checked_mul(w) {
                Some(p) => p,
                None => {
                    proof {
                        lemma_weighted_prefix_le(totals@, weights@, i + 1);
                    }
                    return None;
                },
            };
            match sum.checked_add(p) {
                Some(s) => {
                    sum = s;
                },
                None => {
                    proof {
                        lemma_weighted_prefix_le(totals@, weights@, i + 1);
                    }
                    return None;
                },
            }
            i += 1;
        }
        proof {
            assert(totals@.take(i as int) =~= totals@);
        }
        Some(sum)
    }

    /// Number of tokens staked by `account_id`, all token ids together;
    /// `None` when that number does not fit in `u128`.
    pub fn nft_balance_of(&self, account_id: &String) -> (r: Option<u128>)
        requires
            self.wf(),
        ensures
            r == if self.balance(account_id@) <= u128::MAX {
                Some(self.balance(account_id@) as u128)
            } else {
                None::<u128>
            },
    {
        match self.find_user(account_id) {
            Some(i) => {
                proof {
                    lemma_user_at(self.users@, i as int);
                }
                checked_sum(&self.users[i].1.vote_amounts)
            },
            None => {
                proof {
                    lemma_user_absent(self.users@, account_id@);
                }
                Some(0)
            },
        }
    }

    /// The record of `account_id`; an empty one when it has none.
    pub fn get_user(&self, account_id: &String) -> (r: User)
        requires
            self.wf(),
        ensures
            r.wf(),
            match self.record(account_id@) {
                Some(u) => r.vote_amounts@ == u.vote_amounts@ && r.delegated_amounts@
                    == u.delegated_amounts@ && r.next_action_timestamp == u.next_action_timestamp,
                None => r.vote_amounts@.len() == 0 && r.delegated_amounts@.len() == 0
                    && r.next_action_timestamp == 0,
            },
    {
        match self.find_user(account_id) {
            Some(i) => {
                proof {
                    lemma_user_at(self.users@, i as int);
                }
                self.users[i].1.copy()
            },
            None => {
                proof {
                    lemma_user_absent(self.users@, account_id@);
                }
                User::new()
            },
        }
    }
}


/// Conservation: in every well-formed state (and every operation keeps the
/// state well-formed) the amounts of a token staked by all accounts add up to
/// the token's recorded total.
pub proof fn lemma_conservation(c: Contract, token: Seq<char>)
    requires
        c.wf(),
    ensures
        c.staked_by_all(token) == c.total_staked(token),
{
}

/// Compensation: when a withdrawal of `amount` of `token` by `account` is
/// followed by the credit back of a failed transfer, the account's stake of
/// every token, every token's total, every balance and the total voting power
/// are exactly what they were before the withdrawal.
pub proof fn lemma_compensation(
    before: Contract,
    debited: Contract,
    after: Contract,
    account: Seq<char>,
    token: Seq<char>,
    amount: u128,
)
    requires
        debited.ledger_moved(before, account, token, -(amount as int)),
        debited.keeps_config(before),
        after.ledger_moved(debited, account, token, amount as int),
    ensures
        after.staked(account, token) == before.staked(account, token),
        forall|a: Seq<char>, t: Seq<char>| #[trigger] after.staked(a, t) == before.staked(a, t),
        forall|t: Seq<char>| #[trigger] after.total_staked(t) == before.total_staked(t),
        forall|a: Seq<char>| #[trigger] after.balance(a) == before.balance(a),
        after.supply() == before.supply(),
        after.voting_power() == before.voting_power(),
{
    assert(debited.weight_of(token) == before.weight_of(token));
    let x = before.weight_of(token);
    assert(-(amount as int) * x + amount * x == 0) by (nonlinear_arith);
    assert forall|a: Seq<char>, t: Seq<char>| #[trigger] after.staked(a, t) == before.staked(a, t) by {
        assert(after.staked(a, t) == if a == account && t == token {
            debited.staked(a, t) + amount
        } else {
            debited.staked(a, t) as int
        });
        assert(debited.staked(a, t) == if a == account && t == token {
            before.staked(a, t) - amount
        } else {
            before.staked(a, t) as int
        });
    }
    assert forall|t: Seq<char>| #[trigger] after.total_staked(t) == before.total_staked(t) by {
        assert(after.total_staked(t) == if t == token {
            debited.total_staked(t) + amount
        } else {
            debited.total_staked(t) as int
        });
        assert(debited.total_staked(t) == if t == token {
            before.total_staked(t) - amount
        } else {
            before.total_staked(t) as int
        });
    }
    assert forall|a: Seq<char>| #[trigger] after.balance(a) == before.balance(a) by {
        assert(after.balance(a) == if a == account {
            debited.balance(a) + amount
        } else {
            debited.balance(a) as int
        });
        assert(debited.balance(a) == if a == account {
            before.balance(a) - amount
        } else {
            before.balance(a) as int
        });
    }
}

/// Registering a token twice: the later weight is the one in effect, and no
/// token registered before either registration is dropped.
pub proof fn lemma_latest_weight_wins(
    c0: Contract,
    c1: Contract,
    c2: Contract,
    first: Seq<(String, u128)>,
    second: Seq<(String, u128)>,
    token: Seq<char>,
    w1: u128,
    w2: u128,
)
    requires
        c1.registry_extended(c0, first),
        c2.registry_extended(c1, second),
        entry_of(first, token) == Some(w1),
        entry_of(second, token) == Some(w2),
    ensures
        c2.registered(token),
        c2.weight_of(token) == w2,
        forall|t: Seq<char>| c0.registered(t) ==> #[trigger] c2.registered(t),
        forall|t: Seq<char>| c1.registered(t) ==> #[trigger] c2.registered(t),
{
    assert forall|t: Seq<char>| c0.registered(t) implies #[trigger] c2.registered(t) by {
        assert(c1.registered(t));
    }
}

} // verus!

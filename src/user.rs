//! One staker's record: staked amounts per token, delegations and the
//! instant from which the next action is allowed.

use vstd::prelude::*;

use crate::table::{amount_of, copy_entries, distinct_keys};

verus! {

/// A staker's record.
pub struct User {
    /// Staked amount per token id.
    pub vote_amounts: Vec<(String, u128)>,
    /// Delegated amount per (token id, delegate account).
    pub delegated_amounts: Vec<(String, String, u128)>,
    /// No delegate, undelegate or withdraw may start before this instant.
    pub next_action_timestamp: u64,
}

/// The delegation entry for `(token, target)`, if any (the latest one wins).
pub open spec fn delegation_of(
    entries: Seq<(String, String, u128)>,
    token: Seq<char>,
    target: Seq<char>,
) -> Option<u128>
    decreases entries.len(),
{
    if entries.len() == 0 {
        None
    } else if entries.last().0@ == token && entries.last().1@ == target {
        Some(entries.last().2)
    } else {
        delegation_of(entries.drop_last(), token, target)
    }
}

/// Amount delegated for `token` to `target`, zero when absent.
pub open spec fn delegated_of(
    entries: Seq<(String, String, u128)>,
    token: Seq<char>,
    target: Seq<char>,
) -> nat {
    match delegation_of(entries, token, target) {
        Some(v) => v as nat,
        None => 0,
    }
}

/// No (token, target) pair occurs twice.
pub open spec fn distinct_pairs(entries: Seq<(String, String, u128)>) -> bool {
    forall|i: int, j: int|
        0 <= i < entries.len() && 0 <= j < entries.len() && i != j ==> !(entries[i].0@
            == entries[j].0@ && entries[i].1@ == entries[j].1@)
}

impl User {
    pub open spec fn wf(&self) -> bool {
        distinct_keys(self.vote_amounts@) && distinct_pairs(self.delegated_amounts@)
    }

    /// Amount of `token` staked by this user.
    pub open spec fn staked(&self, token: Seq<char>) -> nat {
        amount_of(self.vote_amounts@, token)
    }

    /// Amount of `token` delegated by this user to `target`.
    pub open spec fn delegated(&self, token: Seq<char>, target: Seq<char>) -> nat {
        delegated_of(self.delegated_amounts@, token, target)
    }

    /// A record with nothing staked or delegated and no cooldown.
    pub fn new() -> (r: User)
        ensures
            r.wf(),
            r.vote_amounts@.len() == 0,
            r.delegated_amounts@.len() == 0,
            r.next_action_timestamp == 0,
    {
        User { vote_amounts: Vec::new(), delegated_amounts: Vec::new(), next_action_timestamp: 0 }
    }
}

proof fn lemma_delegation_absent(
    entries: Seq<(String, String, u128)>,
    token: Seq<char>,
    target: Seq<char>,
)
    requires
        forall|i: int|
            0 <= i < entries.len() ==> !(entries[i].0@ == token && entries[i].1@ == target),
    ensures
        delegation_of(entries, token, target) == None::<u128>,
    decreases entries.len(),
{
    if entries.len() > 0 {
        lemma_delegation_absent(entries.drop_last(), token, target);
    }
}

proof fn lemma_delegation_at(entries: Seq<(String, String, u128)>, i: int)
    requires
        distinct_pairs(entries),
        0 <= i < entries.len(),
    ensures
        delegation_of(entries, entries[i].0@, entries[i].1@) == Some(entries[i].2),
    decreases entries.len(),
{
    if i < entries.len() - 1 {
        lemma_delegation_at(entries.drop_last(), i);
    }
}

proof fn lemma_delegation_update(
    entries: Seq<(String, String, u128)>,
    i: int,
    e: (String, String, u128),
    token: Seq<char>,
    target: Seq<char>,
)
    requires
        distinct_pairs(entries),
        0 <= i < entries.len(),
        e.0@ == entries[i].0@,
        e.1@ == entries[i].1@,
    ensures
        distinct_pairs(entries.update(i, e)),
        delegation_of(entries.update(i, e), token, target) == if token == e.0@ && target
            == e.1@ {
            Some(e.2)
        } else {
            delegation_of(entries, token, target)
        },
    decreases entries.len(),
{
    let s2 = entries.update(i, e);
    assert(distinct_pairs(s2)) by {
        assert forall|a: int, b: int|
            0 <= a < s2.len() && 0 <= b < s2.len() && a != b implies !(s2[a].0@ == s2[b].0@
            && s2[a].1@ == s2[b].1@) by {
            assert(s2[a].0@ == entries[a].0@ && s2[a].1@ == entries[a].1@);
            assert(s2[b].0@ == entries[b].0@ && s2[b].1@ == entries[b].1@);
        }
    }
    if i == entries.len() - 1 {
        assert(s2.drop_last() =~= entries.drop_last());
    } else {
        assert(s2.drop_last() =~= entries.drop_last().update(i, e));
        lemma_delegation_update(entries.drop_last(), i, e, token, target);
    }
}

proof fn lemma_delegation_push(
    entries: Seq<(String, String, u128)>,
    e: (String, String, u128),
    token: Seq<char>,
    target: Seq<char>,
)
    requires
        distinct_pairs(entries),
        forall|i: int|
            0 <= i < entries.len() ==> !(entries[i].0@ == e.0@ && entries[i].1@ == e.1@),
    ensures
        distinct_pairs(entries.push(e)),
        delegation_of(entries.push(e), token, target) == if token == e.0@ && target == e.1@ {
            Some(e.2)
        } else {
            delegation_of(entries, token, target)
        },
{
    let s2 = entries.push(e);
    assert(s2.drop_last() =~= entries);
    assert(distinct_pairs(s2)) by {
        assert forall|a: int, b: int|
            0 <= a < s2.len() && 0 <= b < s2.len() && a != b implies !(s2[a].0@ == s2[b].0@
            && s2[a].1@ == s2[b].1@) by {
            if a < entries.len() && b < entries.len() {
                assert(s2[a] == entries[a]);
                assert(s2[b] == entries[b]);
            }
        }
    }
}

/// Position of the `(token, target)` entry, or `None` when there is none.
fn find_pair(entries: &Vec<(String, String, u128)>, token: &String, target: &String) -> (r:
    Option<usize>)
    ensures
        match r {
            Some(i) => i < entries@.len() && entries@[i as int].0@ == token@ && entries@[i as int].1@
                == target@,
            None => forall|i: int|
                0 <= i < entries@.len() ==> !(entries@[i].0@ == token@ && entries@[i].1@
                    == target@),
        },
{
    let mut i: usize = 0;
    while i < entries.len()
        invariant
            i <= entries@.len(),
            forall|j: int|
                0 <= j < i ==> !(entries@[j].0@ == token@ && entries@[j].1@ == target@),
        decreases entries@.len() - i,
    {
        if entries[i].0 == *token && entries[i].1 == *target {
            return Some(i);
        }
        i += 1;
    }
    None
}

/// Amount delegated for `token` to `target`, zero when absent.
pub fn delegated_in(entries: &Vec<(String, String, u128)>, token: &String, target: &String) -> (r:
    u128)
    requires
        distinct_pairs(entries@),
    ensures
        r == delegated_of(entries@, token@, target@),
{
    match find_pair(entries, token, target) {
        Some(i) => {
            proof {
                lemma_delegation_at(entries@, i as int);
            }
            entries[i].2
        },
        None => {
            proof {
                lemma_delegation_absent(entries@, token@, target@);
            }
            0
        },
    }
}

/// Records `value` as the amount delegated for `token` to `target`.
pub fn set_delegated(
    entries: &mut Vec<(String, String, u128)>,
    token: &String,
    target: &String,
    value: u128,
)
    requires
        distinct_pairs(old(entries)@),
    ensures
        distinct_pairs(final(entries)@),
        forall|t: Seq<char>, a: Seq<char>|
            #[trigger] delegated_of(final(entries)@, t, a) == if t == token@ && a == target@ {
                value as nat
            } else {
                delegated_of(old(entries)@, t, a)
            },
{
    let e = (token.clone(), target.clone(), value);
    match find_pair(entries, token, target) {
        Some(i) => {
            proof {
                assert forall|t: Seq<char>, a: Seq<char>| true implies #[trigger] delegated_of(
                    entries@.update(i as int, e),
                    t,
                    a,
                ) == if t == token@ && a == target@ {
                    value as nat
                } else {
                    delegated_of(entries@, t, a)
                } by {
                    lemma_delegation_update(entries@, i as int, e, t, a);
                }
                lemma_delegation_update(entries@, i as int, e, token@, target@);
            }
            entries.set(i, e);
        },
        None => {
            proof {
                assert forall|t: Seq<char>, a: Seq<char>| true implies #[trigger] delegated_of(
                    entries@.push(e),
                    t,
                    a,
                ) == if t == token@ && a == target@ {
                    value as nat
                } else {
                    delegated_of(entries@, t, a)
                } by {
                    lemma_delegation_push(entries@, e, t, a);
                }
                lemma_delegation_push(entries@, e, token@, target@);
            }
            entries.push(e);
        },
    }
}

impl User {
    /// A copy of this record.
    pub fn copy(&self) -> (r: User)
        ensures
            r.vote_amounts@ == self.vote_amounts@,
            r.delegated_amounts@ == self.delegated_amounts@,
            r.next_action_timestamp == self.next_action_timestamp,
    {
        let mut d: Vec<(String, String, u128)> = Vec::new();
        let mut i: usize = 0;
        while i < self.delegated_amounts.len()
            invariant
                i <= self.delegated_amounts@.len(),
                d@ =~= self.delegated_amounts@.take(i as int),
            decreases self.delegated_amounts@.len() - i,
        {
            let e = &self.delegated_amounts[i];
            d.push((e.0.clone(), e.1.clone(), e.2));
            i += 1;
        }
        proof {
            assert(self.delegated_amounts@.take(i as int) =~= self.delegated_amounts@);
        }
        User {
            vote_amounts: copy_entries(&self.vote_amounts),
            delegated_amounts: d,
            next_action_timestamp: self.next_action_timestamp,
        }
    }
}

} // verus!

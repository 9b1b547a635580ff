//! Lists of `(key, amount)` entries with distinct keys, read as maps from
//! key to amount where a missing key reads as zero.

use vstd::prelude::*;

verus! {

/// The entry stored under `key`, if any (the latest one wins).
pub open spec fn entry_of(entries: Seq<(String, u128)>, key: Seq<char>) -> Option<u128>
    decreases entries.len(),
{
    if entries.len() == 0 {
        None
    } else if entries.last().0@ == key {
        Some(entries.last().1)
    } else {
        entry_of(entries.drop_last(), key)
    }
}

/// The amount stored under `key`, zero when the key is absent.
pub open spec fn amount_of(entries: Seq<(String, u128)>, key: Seq<char>) -> nat {
    match entry_of(entries, key) {
        Some(v) => v as nat,
        None => 0,
    }
}

/// Sum of all amounts in the list.
pub open spec fn sum_of(entries: Seq<(String, u128)>) -> nat
    decreases entries.len(),
{
    if entries.len() == 0 {
        0
    } else {
        sum_of(entries.drop_last()) + entries.last().1 as nat
    }
}

/// Sum over the entries of `totals` of amount times the weight in `weights`.
pub open spec fn weighted_sum(totals: Seq<(String, u128)>, weights: Seq<(String, u128)>) -> nat
    decreases totals.len(),
{
    if totals.len() == 0 {
        0
    } else {
        weighted_sum(totals.drop_last(), weights) + (totals.last().1 as nat) * amount_of(
            weights,
            totals.last().0@,
        )
    }
}

/// No key occurs twice.
pub open spec fn distinct_keys(entries: Seq<(String, u128)>) -> bool {
    forall|i: int, j: int|
        0 <= i < entries.len() && 0 <= j < entries.len() && i != j ==> entries[i].0@
            != entries[j].0@
}

pub proof fn lemma_entry_absent(entries: Seq<(String, u128)>, key: Seq<char>)
    requires
        forall|i: int| 0 <= i < entries.len() ==> entries[i].0@ != key,
    ensures
        entry_of(entries, key) == None::<u128>,
    decreases entries.len(),
{
    if entries.len() > 0 {
        lemma_entry_absent(entries.drop_last(), key);
    }
}

pub proof fn lemma_entry_at(entries: Seq<(String, u128)>, i: int)
    requires
        distinct_keys(entries),
        0 <= i < entries.len(),
    ensures
        entry_of(entries, entries[i].0@) == Some(entries[i].1),
    decreases entries.len(),
{
    if i < entries.len() - 1 {
        assert(entries.last().0@ != entries[i].0@);
        lemma_entry_at(entries.drop_last(), i);
    }
}

/// Replacing the entry at `i` by one with the same key changes that key alone.
pub proof fn lemma_entry_update(
    entries: Seq<(String, u128)>,
    i: int,
    e: (String, u128),
    key: Seq<char>,
)
    requires
        distinct_keys(entries),
        0 <= i < entries.len(),
        e.0@ == entries[i].0@,
    ensures
        distinct_keys(entries.update(i, e)),
        entry_of(entries.update(i, e), key) == if key == e.0@ {
            Some(e.1)
        } else {
            entry_of(entries, key)
        },
        sum_of(entries.update(i, e)) == sum_of(entries) - entries[i].1 + e.1,
    decreases entries.len(),
{
    let s2 = entries.update(i, e);
    assert(distinct_keys(s2)) by {
        assert forall|a: int, b: int|
            0 <= a < s2.len() && 0 <= b < s2.len() && a != b implies s2[a].0@ != s2[b].0@ by {
            assert(s2[a].0@ == entries[a].0@);
            assert(s2[b].0@ == entries[b].0@);
        }
    }
    if i == entries.len() - 1 {
        assert(s2.drop_last() =~= entries.drop_last());
    } else {
        assert(s2.drop_last() =~= entries.drop_last().update(i, e));
        lemma_entry_update(entries.drop_last(), i, e, key);
        if key == e.0@ {
            assert(entries.last().0@ != entries[i].0@);
        }
    }
}

/// Appending an entry under a fresh key adds that key alone.
pub proof fn lemma_entry_push(entries: Seq<(String, u128)>, e: (String, u128), key: Seq<char>)
    requires
        distinct_keys(entries),
        forall|i: int| 0 <= i < entries.len() ==> entries[i].0@ != e.0@,
    ensures
        distinct_keys(entries.push(e)),
        entry_of(entries.push(e), key) == if key == e.0@ {
            Some(e.1)
        } else {
            entry_of(entries, key)
        },
        sum_of(entries.push(e)) == sum_of(entries) + e.1,
        forall|w: Seq<(String, u128)>| #[trigger]
            weighted_sum(entries.push(e), w) == weighted_sum(entries, w) + e.1 * amount_of(
                w,
                e.0@,
            ),
{
    let s2 = entries.push(e);
    assert(s2.drop_last() =~= entries);
    assert(distinct_keys(s2)) by {
        assert forall|a: int, b: int|
            0 <= a < s2.len() && 0 <= b < s2.len() && a != b implies s2[a].0@ != s2[b].0@ by {
            if a < entries.len() && b < entries.len() {
                assert(s2[a] == entries[a]);
                assert(s2[b] == entries[b]);
            }
        }
    }
}

/// Replacing the entry at `i` by one with the same key changes the weighted
/// sum by the difference of the two amounts times that key's weight.
pub proof fn lemma_weighted_update(
    entries: Seq<(String, u128)>,
    i: int,
    e: (String, u128),
    w: Seq<(String, u128)>,
)
    requires
        0 <= i < entries.len(),
        e.0@ == entries[i].0@,
    ensures
        weighted_sum(entries.update(i, e), w) == weighted_sum(entries, w) - entries[i].1
            * amount_of(w, e.0@) + e.1 * amount_of(w, e.0@),
    decreases entries.len(),
{
    let s2 = entries.update(i, e);
    if i == entries.len() - 1 {
        assert(s2.drop_last() =~= entries.drop_last());
    } else {
        assert(s2.drop_last() =~= entries.drop_last().update(i, e));
        lemma_weighted_update(entries.drop_last(), i, e, w);
    }
}

/// Position of `key` in the list, or `None` when no entry has that key.
pub fn find_key(entries: &Vec<(String, u128)>, key: &String) -> (r: Option<usize>)
    ensures
        match r {
            Some(i) => i < entries@.len() && entries@[i as int].0@ == key@,
            None => forall|i: int| 0 <= i < entries@.len() ==> entries@[i].0@ != key@,
        },
{
    let mut i: usize = 0;
    while i < entries.len()
        invariant
            i <= entries@.len(),
            forall|j: int| 0 <= j < i ==> entries@[j].0@ != key@,
        decreases entries@.len() - i,
    {
        if entries[i].0 == *key {
            return Some(i);
        }
        i += 1;
    }
    None
}

/// The amount stored under `key`, zero when absent.
pub fn amount_in(entries: &Vec<(String, u128)>, key: &String) -> (r: u128)
    requires
        distinct_keys(entries@),
    ensures
        r == amount_of(entries@, key@),
{
    match find_key(entries, key) {
        Some(i) => {
            proof {
                lemma_entry_at(entries@, i as int);
            }
            entries[i].1
        },
        None => {
            proof {
                lemma_entry_absent(entries@, key@);
            }
            0
        },
    }
}

/// Whether some entry has the key `key`.
pub fn contains_key(entries: &Vec<(String, u128)>, key: &String) -> (r: bool)
    ensures
        r == (entry_of(entries@, key@) is Some),
{
    match find_key(entries, key) {
        Some(i) => {
            proof {
                lemma_entry_some(entries@, i as int);
            }
            true
        },
        None => {
            proof {
                lemma_entry_absent(entries@, key@);
            }
            false
        },
    }
}

pub proof fn lemma_entry_some(entries: Seq<(String, u128)>, i: int)
    requires
        0 <= i < entries.len(),
    ensures
        entry_of(entries, entries[i].0@) is Some,
    decreases entries.len(),
{
    if i < entries.len() - 1 && entries.last().0@ != entries[i].0@ {
        lemma_entry_some(entries.drop_last(), i);
    }
}

/// Stores `value` under `key`, replacing what was there.
pub fn put(entries: &mut Vec<(String, u128)>, key: &String, value: u128)
    requires
        distinct_keys(old(entries)@),
    ensures
        distinct_keys(final(entries)@),
        forall|k: Seq<char>|
            #[trigger] entry_of(final(entries)@, k) == if k == key@ {
                Some(value)
            } else {
                entry_of(old(entries)@, k)
            },
{
    let e = (key.clone(), value);
    match find_key(entries, key) {
        Some(i) => {
            proof {
                assert forall|k: Seq<char>| true implies #[trigger] entry_of(
                    entries@.update(i as int, e),
                    k,
                ) == if k == key@ {
                    Some(value)
                } else {
                    entry_of(entries@, k)
                } by {
                    lemma_entry_update(entries@, i as int, e, k);
                }
                lemma_entry_update(entries@, i as int, e, key@);
            }
            entries.set(i, e);
        },
        None => {
            proof {
                assert forall|k: Seq<char>| true implies #[trigger] entry_of(entries@.push(e), k)
                    == if k == key@ {
                    Some(value)
                } else {
                    entry_of(entries@, k)
                } by {
                    lemma_entry_push(entries@, e, k);
                }
                lemma_entry_push(entries@, e, key@);
            }
            entries.push(e);
        },
    }
}

/// Adds `amount` to what is stored under `key`.
pub fn add_to(entries: &mut Vec<(String, u128)>, key: &String, amount: u128)
    requires
        distinct_keys(old(entries)@),
        amount_of(old(entries)@, key@) + amount <= u128::MAX,
    ensures
        distinct_keys(final(entries)@),
        forall|k: Seq<char>|
            #[trigger] amount_of(final(entries)@, k) == if k == key@ {
                (amount_of(old(entries)@, k) + amount) as nat
            } else {
                amount_of(old(entries)@, k)
            },
        sum_of(final(entries)@) == sum_of(old(entries)@) + amount,
        forall|w: Seq<(String, u128)>| #[trigger]
            weighted_sum(final(entries)@, w) == weighted_sum(old(entries)@, w) + amount
                * amount_of(w, key@),
{
    match find_key(entries, key) {
        Some(i) => {
            proof {
                lemma_entry_at(entries@, i as int);
            }
            let e = (key.clone(), entries[i].1 + amount);
            proof {
                assert forall|w: Seq<(String, u128)>| #[trigger]
                    weighted_sum(entries@.update(i as int, e), w) == weighted_sum(entries@, w) +
                        amount * amount_of(w, key@) by {
                    lemma_weighted_update(entries@, i as int, e, w);
                    let x = amount_of(w, key@);
                    assert(e.1 * x == entries@[i as int].1 * x + amount * x) by (nonlinear_arith)
                        requires
                            e.1 == entries@[i as int].1 + amount,
                    ;
                }
                assert forall|k: Seq<char>| true implies #[trigger] amount_of(
                    entries@.update(i as int, e),
                    k,
                ) == if k == key@ {
                    (amount_of(entries@, k) + amount) as nat
                } else {
                    amount_of(entries@, k)
                } by {
                    lemma_entry_update(entries@, i as int, e, k);
                }
                lemma_entry_update(entries@, i as int, e, key@);
            }
            entries.set(i, e);
        },
        None => {
            let e = (key.clone(), amount);
            proof {
                lemma_entry_absent(entries@, key@);
                assert forall|k: Seq<char>| true implies #[trigger] amount_of(entries@.push(e), k)
                    == if k == key@ {
                    (amount_of(entries@, k) + amount) as nat
                } else {
                    amount_of(entries@, k)
                } by {
                    lemma_entry_push(entries@, e, k);
                }
                lemma_entry_push(entries@, e, key@);
            }
            entries.push(e);
        },
    }
}

/// Takes `amount` from what is stored under `key`.
pub fn take_from(entries: &mut Vec<(String, u128)>, key: &String, amount: u128)
    requires
        distinct_keys(old(entries)@),
        amount <= amount_of(old(entries)@, key@),
    ensures
        distinct_keys(final(entries)@),
        forall|k: Seq<char>|
            #[trigger] amount_of(final(entries)@, k) == if k == key@ {
                (amount_of(old(entries)@, k) - amount) as nat
            } else {
                amount_of(old(entries)@, k)
            },
        sum_of(final(entries)@) == sum_of(old(entries)@) - amount,
        forall|w: Seq<(String, u128)>| #[trigger]
            weighted_sum(final(entries)@, w) == weighted_sum(old(entries)@, w) - amount
                * amount_of(w, key@),
{
    match find_key(entries, key) {
        Some(i) => {
            proof {
                lemma_entry_at(entries@, i as int);
            }
            let e = (key.clone(), entries[i].1 - amount);
            proof {
                assert forall|w: Seq<(String, u128)>| #[trigger]
                    weighted_sum(entries@.update(i as int, e), w) == weighted_sum(entries@, w) -
                        amount * amount_of(w, key@) by {
                    lemma_weighted_update(entries@, i as int, e, w);
                    let x = amount_of(w, key@);
                    assert(e.1 * x == entries@[i as int].1 * x - amount * x) by (nonlinear_arith)
                        requires
                            e.1 == entries@[i as int].1 - amount,
                    ;
                }
                assert forall|k: Seq<char>| true implies #[trigger] amount_of(
                    entries@.update(i as int, e),
                    k,
                ) == if k == key@ {
                    (amount_of(entries@, k) - amount) as nat
                } else {
                    amount_of(entries@, k)
                } by {
                    lemma_entry_update(entries@, i as int, e, k);
                }
                lemma_entry_update(entries@, i as int, e, key@);
            }
            entries.set(i, e);
        },
        None => {
            proof {
                lemma_entry_absent(entries@, key@);
                assert forall|k: Seq<char>| true implies #[trigger] amount_of(entries@, k) == if k
                    == key@ {
                    (amount_of(entries@, k) - amount) as nat
                } else {
                    amount_of(entries@, k)
                } by {}
                assert forall|w: Seq<(String, u128)>| #[trigger]
                    weighted_sum(entries@, w) == weighted_sum(entries@, w) - amount * amount_of(
                        w,
                        key@,
                    ) by {
                    let x = amount_of(w, key@);
                    assert(amount * x == 0) by (nonlinear_arith)
                        requires
                            amount == 0,
                    ;
                }
            }
        },
    }
}

proof fn lemma_sum_prefix_step(entries: Seq<(String, u128)>, j: int)
    requires
        0 <= j < entries.len(),
    ensures
        sum_of(entries.take(j + 1)) == sum_of(entries.take(j)) + entries[j].1,
{
    assert(entries.take(j + 1).drop_last() =~= entries.take(j));
}

proof fn lemma_sum_prefix_le(entries: Seq<(String, u128)>, j: int)
    requires
        0 <= j <= entries.len(),
    ensures
        sum_of(entries.take(j)) <= sum_of(entries),
    decreases entries.len() - j,
{
    if j == entries.len() {
        assert(entries.take(j) =~= entries);
    } else {
        lemma_sum_prefix_step(entries, j);
        lemma_sum_prefix_le(entries, j + 1);
    }
}

/// Sum of all amounts, or `None` when it does not fit in `u128`.
pub fn checked_sum(entries: &Vec<(String, u128)>) -> (r: Option<u128>)
    ensures
        r == if sum_of(entries@) <= u128::MAX {
            Some(sum_of(entries@) as u128)
        } else {
            None::<u128>
        },
{
    let mut sum: u128 = 0;
    let mut i: usize = 0;
    proof {
        assert(entries@.take(0) =~= Seq::<(String, u128)>::empty());
    }
    while i < entries.len()
        invariant
            i <= entries@.len(),
            sum == sum_of(entries@.take(i as int)),
        decreases entries@.len() - i,
    {
        proof {
            lemma_sum_prefix_step(entries@, i as int);
        }
        match sum.checked_add(entries[i].1) {
            Some(s) => {
                sum = s;
            },
            None => {
                proof {
                    lemma_sum_prefix_le(entries@, i + 1);
                }
                return None;
            },
        }
        i += 1;
    }
    proof {
        assert(entries@.take(i as int) =~= entries@);
    }
    Some(sum)
}

proof fn lemma_entry_prefix_step(entries: Seq<(String, u128)>, j: int, key: Seq<char>)
    requires
        0 <= j < entries.len(),
    ensures
        entry_of(entries.take(j + 1), key) == if key == entries[j].0@ {
            Some(entries[j].1)
        } else {
            entry_of(entries.take(j), key)
        },
{
    assert(entries.take(j + 1).drop_last() =~= entries.take(j));
}

/// Stores every entry of `updates` in turn, so a later entry wins over an
/// earlier one with the same key.
pub fn put_all(entries: &mut Vec<(String, u128)>, updates: &Vec<(String, u128)>)
    requires
        distinct_keys(old(entries)@),
    ensures
        distinct_keys(final(entries)@),
        forall|k: Seq<char>|
            #[trigger] entry_of(final(entries)@, k) == match entry_of(updates@, k) {
                Some(v) => Some(v),
                None => entry_of(old(entries)@, k),
            },
{
    let ghost start = entries@;
    let mut i: usize = 0;
    proof {
        assert(updates@.take(0) =~= Seq::<(String, u128)>::empty());
    }
    while i < updates.len()
        invariant
            i <= updates@.len(),
            distinct_keys(entries@),
            forall|k: Seq<char>|
                #[trigger] entry_of(entries@, k) == match entry_of(updates@.take(i as int), k) {
                    Some(v) => Some(v),
                    None => entry_of(start, k),
                },
        decreases updates@.len() - i,
    {
        put(entries, &updates[i].0, updates[i].1);
        proof {
            assert forall|k: Seq<char>| #[trigger]
                entry_of(entries@, k) == match entry_of(updates@.take(i + 1), k) {
                    Some(v) => Some(v),
                    None => entry_of(start, k),
                } by {
                lemma_entry_prefix_step(updates@, i as int, k);
            }
        }
        i += 1;
    }
    proof {
        assert(updates@.take(i as int) =~= updates@);
    }
}

/// A copy of the list.
pub fn copy_entries(entries: &Vec<(String, u128)>) -> (r: Vec<(String, u128)>)
    ensures
        r@ == entries@,
{
    let mut r: Vec<(String, u128)> = Vec::new();
    let mut i: usize = 0;
    while i < entries.len()
        invariant
            i <= entries@.len(),
            r@ =~= entries@.take(i as int),
        decreases entries@.len() - i,
    {
        r.push((entries[i].0.clone(), entries[i].1));
        i += 1;
    }
    proof {
        assert(entries@.take(i as int) =~= entries@);
    }
    r
}

} // verus!

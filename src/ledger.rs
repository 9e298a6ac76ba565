use vstd::prelude::*;

verus! {

/// A user's account: the funds that are free to be reserved or withdrawn.
#[derive(Debug, Clone)]
pub struct Account {
    pub user_name: String,
    pub balance: u64,
}

/// The sum of a sequence of integers.
pub open spec fn sum(s: Seq<int>) -> int
    decreases s.len(),
{
    if s.len() == 0 {
        0
    } else {
        sum(s.drop_last()) + s.last()
    }
}

pub open spec fn all_nonneg(s: Seq<int>) -> bool {
    forall|i: int| 0 <= i < s.len() ==> s[i] >= 0
}

/// The free funds of all accounts together.
pub open spec fn total_balance(accts: Seq<Account>) -> int {
    sum(accts.map_values(|a: Account| a.balance as int))
}

/// The free funds of the user `name` (zero where the user has no account).
pub open spec fn balance_of(accts: Seq<Account>, name: Seq<char>) -> int {
    sum(shares(accts, name))
}

/// Each account's balance where it belongs to `name`, else zero.
pub open spec fn shares(accts: Seq<Account>, name: Seq<char>) -> Seq<int> {
    accts.map_values(|a: Account| if a.user_name@ == name { a.balance as int } else { 0 })
}

pub open spec fn has_account(accts: Seq<Account>, name: Seq<char>) -> bool {
    exists|i: int| 0 <= i < accts.len() && accts[i].user_name@ == name
}

/// No two accounts belong to the same user.
pub open spec fn names_unique(accts: Seq<Account>) -> bool {
    forall|i: int, j: int|
        0 <= i < j < accts.len() ==> accts[i].user_name@ != accts[j].user_name@
}

pub proof fn lemma_sum_push(s: Seq<int>, v: int)
    ensures
        sum(s.push(v)) == sum(s) + v,
{
    assert(s.push(v).drop_last() =~= s);
}

pub proof fn lemma_sum_update(s: Seq<int>, k: int, v: int)
    requires
        0 <= k < s.len(),
    ensures
        sum(s.update(k, v)) == sum(s) - s[k] + v,
    decreases s.len(),
{
    if k == s.len() - 1 {
        assert(s.update(k, v).drop_last() =~= s.drop_last());
    } else {
        assert(s.update(k, v).drop_last() =~= s.drop_last().update(k, v));
        lemma_sum_update(s.drop_last(), k, v);
    }
}

pub proof fn lemma_sum_nonneg(s: Seq<int>)
    requires
        all_nonneg(s),
    ensures
        sum(s) >= 0,
    decreases s.len(),
{
    if s.len() > 0 {
        lemma_sum_nonneg(s.drop_last());
    }
}

/// With no negative term, the sum bounds each term.
pub proof fn lemma_sum_ge_term(s: Seq<int>, k: int)
    requires
        all_nonneg(s),
        0 <= k < s.len(),
    ensures
        sum(s) >= s[k],
{
    lemma_sum_update(s, k, 0);
    lemma_sum_nonneg(s.update(k, 0));
}

/// With no negative term, the sum bounds any two distinct terms together.
pub proof fn lemma_sum_ge_two_terms(s: Seq<int>, k1: int, k2: int)
    requires
        all_nonneg(s),
        0 <= k1 < s.len(),
        0 <= k2 < s.len(),
        k1 != k2,
    ensures
        sum(s) >= s[k1] + s[k2],
{
    lemma_sum_update(s, k1, 0);
    lemma_sum_ge_term(s.update(k1, 0), k2);
}

pub proof fn lemma_sum_zeros(s: Seq<int>)
    requires
        forall|i: int| 0 <= i < s.len() ==> s[i] == 0,
    ensures
        sum(s) == 0,
    decreases s.len(),
{
    if s.len() > 0 {
        lemma_sum_zeros(s.drop_last());
    }
}

/// The balance of one account bounds the funds of all accounts.
pub proof fn lemma_balance_le_total(accts: Seq<Account>, k: int)
    requires
        0 <= k < accts.len(),
    ensures
        accts[k].balance <= total_balance(accts),
{
    let m = accts.map_values(|a: Account| a.balance as int);
    lemma_sum_ge_term(m, k);
}

pub proof fn lemma_total_balance_nonneg(accts: Seq<Account>)
    ensures
        total_balance(accts) >= 0,
{
    lemma_sum_nonneg(accts.map_values(|a: Account| a.balance as int));
}

/// Where names are unique, a user's balance is that of their account.
pub proof fn lemma_balance_of_account(accts: Seq<Account>, k: int)
    requires
        names_unique(accts),
        0 <= k < accts.len(),
    ensures
        balance_of(accts, accts[k].user_name@) == accts[k].balance,
{
    let name = accts[k].user_name@;
    let m = shares(accts, name);
    assert forall|i: int| 0 <= i < m.update(k, 0).len() implies #[trigger] m.update(k, 0)[i] == 0 by {
        if i != k {
            assert(accts[i].user_name@ != name);
        }
    }
    lemma_sum_update(m, k, 0);
    lemma_sum_zeros(m.update(k, 0));
}

/// A user without an account has no funds.
pub proof fn lemma_balance_of_absent(accts: Seq<Account>, name: Seq<char>)
    requires
        !has_account(accts, name),
    ensures
        balance_of(accts, name) == 0,
{
    let m = shares(accts, name);
    assert forall|i: int| 0 <= i < m.len() implies #[trigger] m[i] == 0 by {
        assert(accts[i].user_name@ != name);
    }
    lemma_sum_zeros(m);
}

/// Setting the balance of account `k`: the totals move by the difference.
proof fn lemma_set_balance(accts: Seq<Account>, k: int, a: Account)
    requires
        0 <= k < accts.len(),
        a.user_name@ == accts[k].user_name@,
    ensures
        total_balance(accts.update(k, a)) == total_balance(accts) - accts[k].balance + a.balance,
        balance_of(accts.update(k, a), a.user_name@) == balance_of(accts, a.user_name@)
            - accts[k].balance + a.balance,
        forall|n: Seq<char>|
            n != a.user_name@ ==> #[trigger] balance_of(accts.update(k, a), n) == balance_of(accts, n),
{
    let t = accts.map_values(|x: Account| x.balance as int);
    assert(accts.update(k, a).map_values(|x: Account| x.balance as int) =~= t.update(k, a.balance as int));
    lemma_sum_update(t, k, a.balance as int);
    assert forall|n: Seq<char>| #[trigger] balance_of(accts.update(k, a), n) == balance_of(accts, n)
        - (if n == a.user_name@ { accts[k].balance as int } else { 0 })
        + (if n == a.user_name@ { a.balance as int } else { 0 }) by {
        let m = accts.map_values(|x: Account| if x.user_name@ == n { x.balance as int } else { 0 });
        assert(accts.update(k, a).map_values(|x: Account| if x.user_name@ == n { x.balance as int } else { 0 })
            =~= m.update(k, if n == a.user_name@ { a.balance as int } else { 0 }));
        lemma_sum_update(m, k, if n == a.user_name@ { a.balance as int } else { 0 });
    }
}

/// Appending an account with no funds changes no balance.
proof fn lemma_push_empty(accts: Seq<Account>, a: Account)
    requires
        a.balance == 0,
    ensures
        total_balance(accts.push(a)) == total_balance(accts),
        forall|n: Seq<char>| #[trigger] balance_of(accts.push(a), n) == balance_of(accts, n),
{
    let t = accts.map_values(|x: Account| x.balance as int);
    assert(accts.push(a).map_values(|x: Account| x.balance as int) =~= t.push(0));
    lemma_sum_push(t, 0);
    assert forall|n: Seq<char>| #[trigger] balance_of(accts.push(a), n) == balance_of(accts, n) by {
        let m = accts.map_values(|x: Account| if x.user_name@ == n { x.balance as int } else { 0 });
        assert(accts.push(a).map_values(|x: Account| if x.user_name@ == n { x.balance as int } else { 0 })
            =~= m.push(0));
        lemma_sum_push(m, 0);
    }
}

/// The index of `name`'s account, if the user has one.
pub fn find_account(accts: &Vec<Account>, name: &String) -> (r: Option<usize>)
    ensures
        match r {
            Some(i) => i < accts@.len() && accts@[i as int].user_name@ == name@,
            None => !has_account(accts@, name@),
        },
{
    let mut i: usize = 0;
    while i < accts.len()
        invariant
            i <= accts@.len(),
            forall|j: int| 0 <= j < i ==> accts@[j].user_name@ != name@,
        decreases accts@.len() - i,
    {
        if accts[i].user_name == *name {
            return Some(i);
        }
        i = i + 1;
    }
    None
}

/// Finds `name`'s account, opening one with no funds where there is none.
/// Returns its index and whether it was there before.
pub fn ensure_account(accts: &mut Vec<Account>, name: &String) -> (r: (usize, bool))
    requires
        names_unique(old(accts)@),
    ensures
        names_unique(final(accts)@),
        r.0 < final(accts)@.len(),
        final(accts)@[r.0 as int].user_name@ == name@,
        r.1 == has_account(old(accts)@, name@),
        total_balance(final(accts)@) == total_balance(old(accts)@),
        forall|n: Seq<char>| #[trigger] balance_of(final(accts)@, n) == balance_of(old(accts)@, n),
        forall|n: Seq<char>|
            #[trigger] has_account(final(accts)@, n) == (has_account(old(accts)@, n) || n == name@),
{
    match find_account(accts, name) {
        Some(i) => {
            assert forall|n: Seq<char>|
                #[trigger] has_account(accts@, n) == (has_account(accts@, n) || n == name@) by {
                if n == name@ {
                    assert(accts@[i as int].user_name@ == n);
                }
            }
            (i, true)
        },
        None => {
            let a = Account { user_name: name.clone(), balance: 0 };
            proof {
                lemma_push_empty(accts@, a);
            }
            let ghost before = accts@;
            accts.push(a);
            assert forall|n: Seq<char>|
                #[trigger] has_account(accts@, n) == (has_account(before, n) || n == name@) by {
                if has_account(before, n) {
                    let j = choose|j: int| 0 <= j < before.len() && before[j].user_name@ == n;
                    assert(accts@[j].user_name@ == n);
                }
                if n == name@ {
                    assert(accts@[before.len() as int].user_name@ == n);
                }
                if has_account(accts@, n) && n != name@ {
                    let j = choose|j: int| 0 <= j < accts@.len() && accts@[j].user_name@ == n;
                    assert(before[j].user_name@ == n);
                }
            }
            (accts.len() - 1, false)
        },
    }
}

/// Adds `amount` to the account at `k`.
pub fn add_to(accts: &mut Vec<Account>, k: usize, amount: u64)
    requires
        k < old(accts)@.len(),
        total_balance(old(accts)@) + amount <= u64::MAX,
    ensures
        final(accts)@.len() == old(accts)@.len(),
        forall|j: int| 0 <= j < final(accts)@.len() ==> #[trigger] final(accts)@[j].user_name@
            == old(accts)@[j].user_name@,
        total_balance(final(accts)@) == total_balance(old(accts)@) + amount,
        forall|n: Seq<char>| #[trigger] has_account(final(accts)@, n) == has_account(old(accts)@, n),
        balance_of(final(accts)@, old(accts)@[k as int].user_name@) == balance_of(
            old(accts)@,
            old(accts)@[k as int].user_name@,
        ) + amount,
        forall|n: Seq<char>|
            n != old(accts)@[k as int].user_name@ ==> #[trigger] balance_of(final(accts)@, n)
                == balance_of(old(accts)@, n),
{
    proof {
        lemma_balance_le_total(accts@, k as int);
    }
    let nb = accts[k].balance + amount;
    let ghost before = accts@;
    let a = Account { user_name: accts[k].user_name.clone(), balance: nb };
    proof {
        lemma_set_balance(before, k as int, a);
    }
    accts.set(k, a);
    assert(accts@ =~= before.update(k as int, a));
    assert forall|n: Seq<char>| #[trigger] has_account(accts@, n) == has_account(before, n) by {
        if has_account(before, n) {
            let j = choose|j: int| 0 <= j < before.len() && before[j].user_name@ == n;
            assert(accts@[j].user_name@ == n);
        }
        if has_account(accts@, n) {
            let j = choose|j: int| 0 <= j < accts@.len() && accts@[j].user_name@ == n;
            assert(before[j].user_name@ == n);
        }
    }
}

/// Takes `amount` from the account at `k`, which holds at least that much.
pub fn take_from(accts: &mut Vec<Account>, k: usize, amount: u64)
    requires
        k < old(accts)@.len(),
        old(accts)@[k as int].balance >= amount,
    ensures
        final(accts)@.len() == old(accts)@.len(),
        forall|j: int| 0 <= j < final(accts)@.len() ==> #[trigger] final(accts)@[j].user_name@
            == old(accts)@[j].user_name@,
        final(accts)@[k as int].balance == old(accts)@[k as int].balance - amount,
        total_balance(final(accts)@) == total_balance(old(accts)@) - amount,
        balance_of(final(accts)@, old(accts)@[k as int].user_name@) == balance_of(
            old(accts)@,
            old(accts)@[k as int].user_name@,
        ) - amount,
        forall|n: Seq<char>|
            n != old(accts)@[k as int].user_name@ ==> #[trigger] balance_of(final(accts)@, n)
                == balance_of(old(accts)@, n),
{
    let nb = accts[k].balance - amount;
    let ghost before = accts@;
    let a = Account { user_name: accts[k].user_name.clone(), balance: nb };
    proof {
        lemma_set_balance(before, k as int, a);
    }
    accts.set(k, a);
    assert(accts@ =~= before.update(k as int, a));
}

} // verus!

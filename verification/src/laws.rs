//! The account-level guarantees, stated over the ledger's map model: the
//! same maps the operations' contracts are written in.  Each law reads a
//! sequence of calls off those contracts.  The save/load round trip lives
//! beside the storage type itself
//! ([`crate::storage::law_save_load_round_trip`]).

use vstd::prelude::*;

verus! {

/// Creating an account gives it balance 0: after `add_user(n)` on a ledger
/// that does not hold `n` (or holds it at 0, where the duplicate is
/// refused and nothing changes), reading `n` yields 0.
pub proof fn law_create_then_balance(m: Map<Seq<char>, int>, n: Seq<char>)
    requires
        !m.contains_key(n) || m[n] == 0,
    ensures
        ({
            let m1 = if m.contains_key(n) {
                m
            } else {
                m.insert(n, 0)
            };
            m1.contains_key(n) && m1[n] == 0
        }),
{
}

/// Creating the same account twice: the second `add_user(n)` finds `n`
/// present, signals the duplicate and leaves the ledger as the first call
/// made it, with `n` still at 0.
pub proof fn law_create_twice(m: Map<Seq<char>, int>, n: Seq<char>)
    requires
        !m.contains_key(n),
    ensures
        ({
            let m1 = m.insert(n, 0);
            let m2 = if m1.contains_key(n) {
                m1
            } else {
                m1.insert(n, 0)
            };
            m1.contains_key(n) && m2 == m1 && m2[n] == 0
        }),
{
}

/// Depositing onto an existing account raises exactly its balance by
/// exactly the amount: after `deposit(n, a)`, reading `n` yields the old
/// balance plus `a`, and every other account is untouched.
pub proof fn law_deposit_adds(m: Map<Seq<char>, int>, n: Seq<char>, a: int)
    requires
        m.contains_key(n),
        a >= 0,
    ensures
        m.insert(n, m[n] + a)[n] == m[n] + a,
        forall|k: Seq<char>| k != n ==> m.insert(n, m[n] + a).contains_key(k)
            == m.contains_key(k),
        forall|k: Seq<char>| k != n && m.contains_key(k) ==> m.insert(n, m[n] + a)[k] == m[k],
{
}

/// A successful withdrawal lowers exactly the balance by exactly the
/// amount; `withdraw`'s own contract states the success condition as an
/// if-and-only-if (`balance >= amount`) and that failure changes nothing.
pub proof fn law_withdraw_subtracts(m: Map<Seq<char>, int>, n: Seq<char>, a: int)
    requires
        m.contains_key(n),
        m[n] >= a,
    ensures
        m.insert(n, m[n] - a)[n] == m[n] - a,
        forall|k: Seq<char>| k != n ==> m.insert(n, m[n] - a).contains_key(k)
            == m.contains_key(k),
        forall|k: Seq<char>| k != n && m.contains_key(k) ==> m.insert(n, m[n] - a)[k] == m[k],
{
}

/// After a removal the account is gone: reading `n` finds nothing, a
/// second removal finds nothing to remove, and no other account moved.
/// That the removal returned the exact prior balance is `remove_user`'s
/// own contract.
pub proof fn law_remove_then_absent(m: Map<Seq<char>, int>, n: Seq<char>)
    requires
        m.contains_key(n),
    ensures
        !m.remove(n).contains_key(n),
        forall|k: Seq<char>| k != n ==> m.remove(n).contains_key(k) == m.contains_key(k),
        forall|k: Seq<char>| k != n && m.contains_key(k) ==> m.remove(n)[k] == m[k],
{
}

} // verus!

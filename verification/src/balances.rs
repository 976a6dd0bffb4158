use vstd::prelude::*;

verus! {

/// Why a transfer was rejected. Both variants describe well-formed requests
/// that the ledger refuses; neither is a crash.
#[derive(Clone, Copy, Debug, PartialEq, Eq, Structural)]
pub enum ErrorKind {
    /// The amount exceeds the caller's current balance.
    InsufficientFunds,
    /// Crediting the receiver would exceed the largest representable balance.
    Overflow,
}

impl ErrorKind {
    /// A human-readable description of the error.
    pub fn message(&self) -> (r: &'static str)
        ensures
            *self == ErrorKind::InsufficientFunds ==> r@ == "Not enough funds."@,
            *self == ErrorKind::Overflow ==> r@ == "Overflow."@,
    {
        match self {
            ErrorKind::InsufficientFunds => "Not enough funds.",
            ErrorKind::Overflow => "Overflow.",
        }
    }
}

/// The balance that `who` holds in `entries`: the value paired with the first
/// key equal to `who`, or 0 when no key matches. An absent account therefore
/// has balance 0 without a stored entry.
spec fn bal_in(entries: Seq<(String, u128)>, who: Seq<char>) -> u128
    decreases entries.len(),
{
    if entries.len() == 0 {
        0
    } else if entries[0].0@ == who {
        entries[0].1
    } else {
        bal_in(entries.drop_first(), who)
    }
}

/// The sum of every stored balance, as an unbounded integer.
spec fn total_in(entries: Seq<(String, u128)>) -> int
    decreases entries.len(),
{
    if entries.len() == 0 {
        0
    } else {
        total_in(entries.drop_last()) + entries.last().1
    }
}

/// The outcome `transfer` decides from the caller's and receiver's balances,
/// both read before any write: a shortfall is reported first, then a credit
/// that would not fit, and otherwise the transfer goes through. When the
/// caller and the receiver are the same account (`same_account`), the credit
/// lands on the debited balance and restores it, so it cannot overflow.
pub open spec fn transfer_outcome(
    same_account: bool,
    caller_balance: u128,
    to_balance: u128,
    amount: u128,
) -> Result<(), ErrorKind> {
    if amount > caller_balance {
        Err(ErrorKind::InsufficientFunds)
    } else if !same_account && to_balance + amount > u128::MAX {
        Err(ErrorKind::Overflow)
    } else {
        Ok(())
    }
}

/// An in-memory ledger: a mapping from account identifier to unsigned
/// 128-bit balance. Accounts without an entry hold balance 0.
pub struct Pallet {
    balances: Vec<(String, u128)>,
}

impl Pallet {
    /// Each account identifier is stored at most once.
    pub closed spec fn wf(self) -> bool {
        forall|i: int, j: int|
            0 <= i < j < self.balances@.len() ==> self.balances@[i].0@ != self.balances@[j].0@
    }

    /// The balance of `who`: the stored value, or 0 when `who` has no entry.
    pub closed spec fn balance_of(self, who: Seq<char>) -> u128 {
        bal_in(self.balances@, who)
    }

    /// Whether the ledger stores an entry for `who`.
    pub closed spec fn known(self, who: Seq<char>) -> bool {
        exists|i: int| 0 <= i < self.balances@.len() && self.balances@[i].0@ == who
    }

    /// The sum of all stored balances.
    pub closed spec fn total(self) -> int {
        total_in(self.balances@)
    }

    /// Construct an empty ledger: no account is known and every balance is 0.
    pub fn new() -> (r: Pallet)
        ensures
            r.wf(),
            forall|who: Seq<char>| r.balance_of(who) == 0,
            forall|who: Seq<char>| !r.known(who),
            r.total() == 0,
    {
        Pallet { balances: Vec::new() }
    }

    /// Read the balance of `who`. Pure: the ledger is unchanged, so repeated
    /// reads without an intervening write return the same value.
    pub fn balance(&self, who: &String) -> (r: u128)
        ensures
            r == self.balance_of(who@),
    {
        match find_account(&self.balances, who) {
            Some(i) => {
                proof {
                    lemma_bal_first_match(self.balances@, who@, i as int);
                }
                self.balances[i].1
            },
            None => {
                proof {
                    lemma_bal_no_match(self.balances@, who@);
                }
                0
            },
        }
    }

    /// Unconditionally set the balance of `who` to `amount`, inserting or
    /// overwriting its entry. This is the only operation that moves the
    /// total over all accounts (transfers conserve it); it moves by the
    /// difference between the new and the old balance of `who`.
    pub fn set_balance(&mut self, who: &String, amount: u128)
        requires
            old(self).wf(),
        ensures
            final(self).wf(),
            final(self).balance_of(who@) == amount,
            forall|k: Seq<char>| k != who@ ==> final(self).balance_of(k) == old(self).balance_of(k),
            final(self).total() == old(self).total() - old(self).balance_of(who@) + amount,
            forall|k: Seq<char>| final(self).known(k) <==> (old(self).known(k) || k == who@),
    {
        let key = who.clone();
        match find_account(&self.balances, who) {
            Some(i) => {
                self.balances[i] = (key, amount);
                proof {
                    let s = old(self).balances@;
                    let t = self.balances@;
                    let p = t[i as int];
                    assert(t == s.update(i as int, p));
                    assert forall|m: int| 0 <= m < t.len() implies t[m].0@ == s[m].0@ by {
                        if m != i {
                            assert(t[m] == s[m]);
                        }
                    }
                    lemma_bal_first_match(t, who@, i as int);
                    assert forall|k: Seq<char>| k != who@ implies bal_in(t, k) == bal_in(s, k) by {
                        lemma_bal_update_other(s, i as int, p, k);
                    }
                    lemma_total_update(s, i as int, p);
                    lemma_bal_first_match(s, who@, i as int);
                    assert forall|k: Seq<char>|
                        self.known(k) <==> (old(self).known(k) || k == who@) by {
                        if self.known(k) {
                            let m = choose|m: int| 0 <= m < t.len() && t[m].0@ == k;
                            assert(s[m].0@ == k);
                        }
                        if old(self).known(k) {
                            let m = choose|m: int| 0 <= m < s.len() && s[m].0@ == k;
                            assert(t[m].0@ == k);
                        }
                        if k == who@ {
                            assert(t[i as int].0@ == k);
                        }
                    }
                }
            },
            None => {
                self.balances.push((key, amount));
                proof {
                    let s = old(self).balances@;
                    let t = self.balances@;
                    let p = t[s.len() as int];
                    assert(t == s.push(p));
                    assert forall|j: int| 0 <= j < s.len() implies t[j] == s[j] by {}
                    lemma_bal_first_match(t, who@, s.len() as int);
                    assert forall|k: Seq<char>| k != who@ implies bal_in(t, k) == bal_in(s, k) by {
                        lemma_bal_push_other(s, p, k);
                    }
                    lemma_total_push(s, p);
                    lemma_bal_no_match(s, who@);
                    assert forall|m: int, m2: int| 0 <= m < m2 < t.len() implies t[m].0@
                        != t[m2].0@ by {
                        if m2 < s.len() {
                            assert(s[m].0@ != s[m2].0@);
                        } else {
                            assert(s[m].0@ != who@);
                        }
                    }
                    assert forall|k: Seq<char>|
                        self.known(k) <==> (old(self).known(k) || k == who@) by {
                        if self.known(k) {
                            let m = choose|m: int| 0 <= m < t.len() && t[m].0@ == k;
                            if m < s.len() {
                                assert(s[m].0@ == k);
                            }
                        }
                        if old(self).known(k) {
                            let m = choose|m: int| 0 <= m < s.len() && s[m].0@ == k;
                            assert(t[m].0@ == k);
                        }
                        if k == who@ {
                            assert(t[s.len() as int].0@ == k);
                        }
                    }
                }
            },
        }
    }

    /// Move `amount` from `caller` to `to`, or fail without touching the
    /// ledger. Both balances are read before any write; the checks reject a
    /// shortfall or an overflowing credit before either write happens, and a
    /// failed transfer leaves the ledger unchanged. On success the caller
    /// loses exactly `amount`, the receiver gains exactly `amount`, and the
    /// total over all accounts is conserved. When `caller` and `to` are the
    /// same account the debit and the credit target one entry, the credit of
    /// `amount` against the debited balance restores the original, and the
    /// balance ends unchanged; that credit cannot overflow, so a
    /// self-transfer succeeds exactly when the amount is covered.
    pub fn transfer(
        &mut self,
        caller: &String,
        to: &String,
        amount: u128,
    ) -> (r: Result<(), ErrorKind>)
        requires
            old(self).wf(),
        ensures
            final(self).wf(),
            r == transfer_outcome(
                caller@ == to@,
                old(self).balance_of(caller@),
                old(self).balance_of(to@),
                amount,
            ),
            r is Ok && caller@ != to@ ==> final(self).balance_of(caller@) == old(self).balance_of(
                caller@,
            ) - amount,
            r is Ok && caller@ != to@ ==> final(self).balance_of(to@) == old(self).balance_of(to@)
                + amount,
            r is Ok && caller@ == to@ ==> final(self).balance_of(caller@) == old(self).balance_of(
                caller@,
            ),
            r is Ok ==> forall|k: Seq<char>|
                k != caller@ && k != to@ ==> final(self).balance_of(k) == old(self).balance_of(k),
            r is Ok ==> final(self).total() == old(self).total(),
            r is Ok ==> forall|k: Seq<char>|
                final(self).known(k) <==> (old(self).known(k) || k == caller@ || k == to@),
            !(r is Ok) ==> *final(self) == *old(self),
    {
        let caller_balance: u128 = self.balance(caller);
        let to_balance: u128 = self.balance(to);
        let new_caller_balance: u128 = match caller_balance.checked_sub(amount) {
            Some(v) => v,
            None => {
                return Err(ErrorKind::InsufficientFunds);
            },
        };
        if *caller == *to {
            // the debit and the credit hit the same entry: crediting `amount`
            // back onto the debited balance restores the original value
            self.set_balance(caller, caller_balance);
            return Ok(());
        }
        let new_to_balance: u128 = match to_balance.checked_add(amount) {
            Some(v) => v,
            None => {
                return Err(ErrorKind::Overflow);
            },
        };
        self.set_balance(caller, new_caller_balance);
        self.set_balance(to, new_to_balance);
        Ok(())
    }
}

/// An account the ledger does not know holds balance 0.
pub proof fn lemma_unknown_account_balance(ledger: Pallet, who: Seq<char>)
    requires
        !ledger.known(who),
    ensures
        ledger.balance_of(who) == 0,
{
    lemma_bal_no_match(ledger.balances@, who);
}

/// A self-transfer succeeds exactly when the amount is covered, and a
/// shortfall is reported as `InsufficientFunds`: overflow cannot occur, since
/// the credit lands on the balance the debit just left. Together with
/// `transfer`'s contract, a successful self-transfer leaves the balance
/// unchanged.
pub proof fn lemma_self_transfer_outcome(balance: u128, amount: u128)
    ensures
        transfer_outcome(true, balance, balance, amount) is Ok <==> amount <= balance,
        amount > balance ==> transfer_outcome(true, balance, balance, amount) == Err::<
            (),
            ErrorKind,
        >(ErrorKind::InsufficientFunds),
{
}

/// The index of the entry for `who`, if one exists; entries before the
/// returned index do not match.
fn find_account(entries: &Vec<(String, u128)>, who: &String) -> (r: Option<usize>)
    ensures
        match r {
            Some(i) => 0 <= i < entries@.len() && entries@[i as int].0@ == who@
                && forall|j: int| 0 <= j < i ==> entries@[j].0@ != who@,
            None => forall|j: int| 0 <= j < entries@.len() ==> entries@[j].0@ != who@,
        },
{
    let n: usize = entries.len();
    let mut i: usize = 0;
    while i < n
        invariant
            n == entries@.len(),
            i <= n,
            forall|j: int| 0 <= j < i ==> entries@[j].0@ != who@,
        decreases n - i,
    {
        if entries[i].0 == *who {
            return Some(i);
        }
        i += 1;
    }
    None
}

/// `bal_in` returns the value stored at the first matching index.
proof fn lemma_bal_first_match(entries: Seq<(String, u128)>, who: Seq<char>, i: int)
    requires
        0 <= i < entries.len(),
        entries[i].0@ == who,
        forall|j: int| 0 <= j < i ==> entries[j].0@ != who,
    ensures
        bal_in(entries, who) == entries[i].1,
    decreases i,
{
    if i > 0 {
        assert forall|j: int| 0 <= j < i - 1 implies entries.drop_first()[j].0@ != who by {
            assert(entries.drop_first()[j] == entries[j + 1]);
        }
        lemma_bal_first_match(entries.drop_first(), who, i - 1);
    }
}

/// Replacing the entry at an index changes no other account's balance, as
/// long as neither the old nor the new key at that index is the account read.
proof fn lemma_bal_update_other(
    entries: Seq<(String, u128)>,
    i: int,
    p: (String, u128),
    k: Seq<char>,
)
    requires
        0 <= i < entries.len(),
        entries[i].0@ != k,
        p.0@ != k,
    ensures
        bal_in(entries.update(i, p), k) == bal_in(entries, k),
    decreases entries.len(),
{
    let t = entries.update(i, p);
    if i == 0 {
        assert(t.drop_first() =~= entries.drop_first());
    } else {
        assert(t[0] == entries[0]);
        if entries[0].0@ != k {
            assert(t.drop_first() =~= entries.drop_first().update(i - 1, p));
            lemma_bal_update_other(entries.drop_first(), i - 1, p, k);
        }
    }
}

/// Appending an entry with a different key changes no other account's balance.
proof fn lemma_bal_push_other(entries: Seq<(String, u128)>, p: (String, u128), k: Seq<char>)
    requires
        p.0@ != k,
    ensures
        bal_in(entries.push(p), k) == bal_in(entries, k),
    decreases entries.len(),
{
    if entries.len() == 0 {
        assert(entries.push(p)[0] == p);
        assert(entries.push(p).drop_first() =~= Seq::<(String, u128)>::empty());
        assert(bal_in(Seq::<(String, u128)>::empty(), k) == 0);
    } else {
        assert(entries.push(p)[0] == entries[0]);
        if entries[0].0@ != k {
            assert(entries.push(p).drop_first() =~= entries.drop_first().push(p));
            lemma_bal_push_other(entries.drop_first(), p, k);
        } else {
            assert(bal_in(entries, k) == entries[0].1);
            assert(bal_in(entries.push(p), k) == entries.push(p)[0].1);
        }
    }
}

/// Replacing the entry at an index moves the total by the difference of the
/// new and old values there.
proof fn lemma_total_update(entries: Seq<(String, u128)>, i: int, p: (String, u128))
    requires
        0 <= i < entries.len(),
    ensures
        total_in(entries.update(i, p)) == total_in(entries) - entries[i].1 + p.1,
    decreases entries.len(),
{
    let t = entries.update(i, p);
    if i == entries.len() - 1 {
        assert(t.drop_last() =~= entries.drop_last());
        assert(t.last() == p);
    } else {
        assert(t.drop_last() =~= entries.drop_last().update(i, p));
        assert(t.last() == entries.last());
        lemma_total_update(entries.drop_last(), i, p);
    }
}

/// Appending an entry adds its value to the total.
proof fn lemma_total_push(entries: Seq<(String, u128)>, p: (String, u128))
    ensures
        total_in(entries.push(p)) == total_in(entries) + p.1,
{
    assert(entries.push(p).drop_last() =~= entries);
    assert(entries.push(p).last() == p);
}

/// When no entry matches, `bal_in` falls back to 0.
proof fn lemma_bal_no_match(entries: Seq<(String, u128)>, who: Seq<char>)
    requires
        forall|j: int| 0 <= j < entries.len() ==> entries[j].0@ != who,
    ensures
        bal_in(entries, who) == 0,
    decreases entries.len(),
{
    if entries.len() > 0 {
        assert forall|j: int| 0 <= j < entries.len() - 1 implies entries.drop_first()[j].0@ != who by {
            assert(entries.drop_first()[j] == entries[j + 1]);
        }
        lemma_bal_no_match(entries.drop_first(), who);
    }
}

} // verus!

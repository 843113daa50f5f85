//! The account store: a mapping from account names to integer balances.
//!
//! The store is modelled as a `Map<Seq<char>, int>` from name to balance;
//! every operation's contract is stated over that model.

use vstd::prelude::*;
use crate::errors::BankError;

verus! {

/// An account name.
pub type Name = String;

/// A balance amount measured in whole integer units.
///
/// The type itself performs no validation: negative balances are
/// representable, and non-negativity is enforced only by the withdraw
/// operation's funds check.
#[derive(Copy, Clone, PartialEq, Eq, Structural, Debug, PartialOrd, Ord)]
pub struct Balance(i64);

impl View for Balance {
    type V = int;

    closed spec fn view(&self) -> int {
        self.0 as int
    }
}

impl Balance {
    /// Wraps an integer amount.
    pub fn new(init: i64) -> (r: Self)
        ensures
            r@ == init as int,
    {
        Balance(init)
    }

    /// Reads the underlying integer back.
    pub fn value(&self) -> (r: i64)
        ensures
            r as int == self@,
    {
        self.0
    }
}

impl Default for Balance {
    /// The zero balance.
    fn default() -> (r: Self)
        ensures
            r@ == 0,
    {
        Balance(0)
    }
}

/// One in-place balance mutation: add or subtract an amount.
pub enum Operation {
    Deposit(i64),
    Withdraw(i64),
}

/// The balance reached from `v` after applying `ops` in order.
pub open spec fn ops_result(v: int, ops: Seq<Operation>) -> int
    decreases ops.len(),
{
    if ops.len() == 0 {
        v
    } else {
        match ops.last() {
            Operation::Deposit(a) => ops_result(v, ops.drop_last()) + a,
            Operation::Withdraw(a) => ops_result(v, ops.drop_last()) - a,
        }
    }
}

/// Whether an amount fits in the balance type.
pub open spec fn in_i64(v: int) -> bool {
    i64::MIN <= v <= i64::MAX
}

/// Every balance holds a value of the balance type.
pub proof fn lemma_balance_range(b: Balance)
    ensures
        in_i64(b@),
{
}

impl Balance {
    /// Applies a batch of operations in order, unconditionally; returns
    /// the (always empty) list of operations that could not be applied.
    pub fn apply_operations(&mut self, ops: &[Operation]) -> (failed: Vec<Operation>)
        requires
            forall|i: int| 0 <= i <= ops@.len() ==> in_i64(ops_result(old(self)@, #[trigger] ops@.take(i))),
        ensures
            final(self)@ == ops_result(old(self)@, ops@),
            failed@.len() == 0,
    {
        let failed_ops: Vec<Operation> = Vec::new();
        let n = ops.len();
        let mut i: usize = 0;
        while i < n
            invariant
                n == ops@.len(),
                i <= n,
                self@ == ops_result(old(self)@, ops@.take(i as int)),
                forall|k: int| 0 <= k <= ops@.len() ==> in_i64(ops_result(old(self)@, #[trigger] ops@.take(k))),
            decreases n - i,
        {
            proof {
                assert(ops@.take(i + 1).drop_last() =~= ops@.take(i as int));
                assert(ops@.take(i + 1).last() == ops@[i as int]);
            }
            match ops[i] {
                Operation::Deposit(val) => {
                    self.0 = self.0 + val;
                }
                Operation::Withdraw(val) => {
                    self.0 = self.0 - val;
                }
            }
            i = i + 1;
        }
        proof {
            assert(ops@.take(n as int) =~= ops@);
        }
        failed_ops
    }
}

/// The name-to-balance map described by a sequence of account entries.
pub open spec fn map_of(s: Seq<(Name, Balance)>) -> Map<Seq<char>, int>
    decreases s.len(),
{
    if s.len() == 0 {
        Map::empty()
    } else {
        map_of(s.drop_last()).insert(s.last().0@, s.last().1@)
    }
}

/// The (name, balance) views of a sequence of account entries.
pub open spec fn pairs_views(s: Seq<(Name, Balance)>) -> Seq<(Seq<char>, int)> {
    s.map_values(|p: (Name, Balance)| (p.0@, p.1@))
}

/// No two entries share a name.
pub open spec fn distinct_names(s: Seq<(Name, Balance)>) -> bool {
    forall|i: int, j: int| 0 <= i < j < s.len() ==> s[i].0@ != s[j].0@
}

/// A key is in the map iff some entry carries that name.
pub proof fn lemma_map_of_contains(s: Seq<(Name, Balance)>, k: Seq<char>)
    ensures
        map_of(s).contains_key(k) <==> exists|i: int| 0 <= i < s.len() && s[i].0@ == k,
    decreases s.len(),
{
    if s.len() > 0 {
        lemma_map_of_contains(s.drop_last(), k);
        if s.last().0@ == k {
            assert(s[s.len() - 1].0@ == k);
        } else if map_of(s).contains_key(k) {
            let i = choose|i: int| 0 <= i < s.drop_last().len() && s.drop_last()[i].0@ == k;
            assert(s[i].0@ == k);
        } else if exists|i: int| 0 <= i < s.len() && s[i].0@ == k {
            let i = choose|i: int| 0 <= i < s.len() && s[i].0@ == k;
            assert(s.drop_last()[i].0@ == k);
        }
    }
}

/// With distinct names, the map sends each entry's name to its balance.
pub proof fn lemma_map_of_index(s: Seq<(Name, Balance)>, i: int)
    requires
        distinct_names(s),
        0 <= i < s.len(),
    ensures
        map_of(s).contains_key(s[i].0@),
        map_of(s)[s[i].0@] == s[i].1@,
    decreases s.len(),
{
    if i == s.len() - 1 {
    } else {
        lemma_map_of_index(s.drop_last(), i);
        assert(s.drop_last()[i] == s[i]);
        assert(s.last().0@ != s[i].0@);
    }
}

/// Replacing the balance of entry `i` updates just that name in the map.
pub proof fn lemma_map_of_update(s: Seq<(Name, Balance)>, i: int, b: Balance)
    requires
        distinct_names(s),
        0 <= i < s.len(),
    ensures
        map_of(s.update(i, (s[i].0, b))) == map_of(s).insert(s[i].0@, b@),
        distinct_names(s.update(i, (s[i].0, b))),
    decreases s.len(),
{
    let t = s.update(i, (s[i].0, b));
    assert(distinct_names(t)) by {
        assert(forall|x: int| 0 <= x < s.len() ==> t[x].0@ == s[x].0@);
    }
    if i == s.len() - 1 {
        assert(t.drop_last() =~= s.drop_last());
        assert(map_of(t) =~= map_of(s).insert(s[i].0@, b@));
    } else {
        lemma_map_of_update(s.drop_last(), i, b);
        assert(t.drop_last() =~= s.drop_last().update(i, (s[i].0, b)));
        assert(s.last().0@ != s[i].0@);
        assert(map_of(t) =~= map_of(s).insert(s[i].0@, b@));
    }
}

/// Removing entry `i` removes just that name from the map.
pub proof fn lemma_map_of_remove(s: Seq<(Name, Balance)>, i: int)
    requires
        distinct_names(s),
        0 <= i < s.len(),
    ensures
        map_of(s.remove(i)) == map_of(s).remove(s[i].0@),
        distinct_names(s.remove(i)),
    decreases s.len(),
{
    let t = s.remove(i);
    assert(distinct_names(t)) by {
        assert(forall|x: int| 0 <= x < t.len() ==> t[x] == (if x < i { s[x] } else { s[x + 1] }));
    }
    if i == s.len() - 1 {
        assert(t =~= s.drop_last());
        lemma_map_of_contains(s.drop_last(), s[i].0@);
        assert(forall|j: int| 0 <= j < s.drop_last().len() ==> s.drop_last()[j].0@ != s[i].0@);
        assert(!map_of(s.drop_last()).contains_key(s[i].0@));
        assert(map_of(t) =~= map_of(s).remove(s[i].0@));
    } else {
        lemma_map_of_remove(s.drop_last(), i);
        assert(t.drop_last() =~= s.drop_last().remove(i));
        assert(t.last() == s.last());
        assert(s.last().0@ != s[i].0@);
        assert(map_of(t) =~= map_of(s).remove(s[i].0@));
    }
}

/// Success of a deposit: the account must exist.
pub open spec fn deposit_ok(m: Map<Seq<char>, int>, name: Seq<char>) -> bool {
    m.contains_key(name)
}

/// The store after a deposit; unchanged when the account is absent.
pub open spec fn deposit_post(m: Map<Seq<char>, int>, name: Seq<char>, amount: int) -> Map<
    Seq<char>,
    int,
> {
    if m.contains_key(name) {
        m.insert(name, m[name] + amount)
    } else {
        m
    }
}

/// The deposited sum stays within the balance type.
pub open spec fn deposit_fits(m: Map<Seq<char>, int>, name: Seq<char>, amount: int) -> bool {
    m.contains_key(name) ==> in_i64(m[name] + amount)
}

/// Success of a withdrawal: the account exists and holds enough.
pub open spec fn withdraw_ok(m: Map<Seq<char>, int>, name: Seq<char>, amount: int) -> bool {
    m.contains_key(name) && m[name] >= amount
}

/// The store after a withdrawal; unchanged on failure.
pub open spec fn withdraw_post(m: Map<Seq<char>, int>, name: Seq<char>, amount: int) -> Map<
    Seq<char>,
    int,
> {
    if withdraw_ok(m, name, amount) {
        m.insert(name, m[name] - amount)
    } else {
        m
    }
}

/// The error a failed withdrawal reports.
pub open spec fn withdraw_err(m: Map<Seq<char>, int>, name: Seq<char>) -> BankError {
    if m.contains_key(name) {
        BankError::FundsLimit
    } else {
        BankError::UserNotFound
    }
}

/// The remaining difference stays within the balance type.
pub open spec fn withdraw_fits(m: Map<Seq<char>, int>, name: Seq<char>, amount: int) -> bool {
    withdraw_ok(m, name, amount) ==> in_i64(m[name] - amount)
}

/// Success of adding a user: the name must be free.
pub open spec fn add_user_ok(m: Map<Seq<char>, int>, name: Seq<char>) -> bool {
    !m.contains_key(name)
}

/// The store after adding a user; unchanged when the name is taken.
pub open spec fn add_user_post(m: Map<Seq<char>, int>, name: Seq<char>) -> Map<Seq<char>, int> {
    if m.contains_key(name) {
        m
    } else {
        m.insert(name, 0)
    }
}

/// The store after removing a user; unchanged when the name is absent.
pub open spec fn remove_user_post(m: Map<Seq<char>, int>, name: Seq<char>) -> Map<Seq<char>, int> {
    if m.contains_key(name) {
        m.remove(name)
    } else {
        m
    }
}

/// The account store: each name is held by exactly one account.
pub struct Storage {
    accounts: Vec<(Name, Balance)>,
}

impl View for Storage {
    type V = Map<Seq<char>, int>;

    closed spec fn view(&self) -> Map<Seq<char>, int> {
        map_of(self.accounts@)
    }
}

impl Storage {
    /// The store's invariant: account names are unique.
    pub closed spec fn wf(&self) -> bool {
        distinct_names(self.accounts@)
    }

    /// The account entries in their stored order.
    pub closed spec fn entries(&self) -> Seq<(Name, Balance)> {
        self.accounts@
    }

    /// The entries carry distinct names and describe exactly the
    /// store's contents.
    pub proof fn lemma_entries(&self)
        requires
            self.wf(),
        ensures
            map_of(self.entries()) == self@,
            distinct_names(self.entries()),
    {
    }

    /// Creates a new empty store.
    pub fn new() -> (s: Self)
        ensures
            s.wf(),
            s@ == Map::<Seq<char>, int>::empty(),
    {
        Storage { accounts: Vec::new() }
    }

    /// The index of the account named `name`, if any.
    fn position_of(&self, name: &Name) -> (r: Option<usize>)
        ensures
            match r {
                Some(i) => i < self.accounts@.len() && self.accounts@[i as int].0@ == name@,
                None => forall|j: int|
                    0 <= j < self.accounts@.len() ==> self.accounts@[j].0@ != name@,
            },
    {
        let n = self.accounts.len();
        let mut i: usize = 0;
        while i < n
            invariant
                n == self.accounts@.len(),
                i <= n,
                forall|j: int| 0 <= j < i ==> self.accounts@[j].0@ != name@,
            decreases n - i,
        {
            if self.accounts[i].0 == *name {
                return Some(i);
            }
            i = i + 1;
        }
        None
    }

    /// Inserts `name` with a zero balance iff it is not already present;
    /// returns the newly created balance, or nothing when the name is taken.
    pub fn add_user(&mut self, name: Name) -> (r: Option<Balance>)
        requires
            old(self).wf(),
        ensures
            final(self).wf(),
            final(self)@ == add_user_post(old(self)@, name@),
            r is Some <==> add_user_ok(old(self)@, name@),
            r matches Some(b) ==> b@ == 0,
    {
        proof {
            lemma_map_of_contains(self.accounts@, name@);
        }
        match self.position_of(&name) {
            Some(_) => None,
            None => {
                let ghost pre = self.accounts@;
                self.accounts.push((name, Balance(0)));
                proof {
                    assert(self.accounts@.drop_last() =~= pre);
                    assert(distinct_names(self.accounts@));
                }
                Some(Balance(0))
            },
        }
    }

    /// Removes `name` if present, returning its last balance;
    /// returns nothing when the name is absent.
    pub fn remove_user(&mut self, name: &Name) -> (r: Option<Balance>)
        requires
            old(self).wf(),
        ensures
            final(self).wf(),
            final(self)@ == remove_user_post(old(self)@, name@),
            r is Some <==> old(self)@.contains_key(name@),
            r matches Some(b) ==> b@ == old(self)@[name@],
    {
        proof {
            lemma_map_of_contains(self.accounts@, name@);
        }
        match self.position_of(name) {
            Some(i) => {
                proof {
                    lemma_map_of_index(self.accounts@, i as int);
                    lemma_map_of_remove(self.accounts@, i as int);
                }
                let pair = self.accounts.remove(i);
                Some(pair.1)
            },
            None => None,
        }
    }

    /// Read-only lookup of the balance held under `name`.
    pub fn get_balance(&self, name: &Name) -> (r: Option<Balance>)
        requires
            self.wf(),
        ensures
            r is Some <==> self@.contains_key(name@),
            r matches Some(b) ==> b@ == self@[name@],
    {
        proof {
            lemma_map_of_contains(self.accounts@, name@);
        }
        match self.position_of(name) {
            Some(i) => {
                proof {
                    lemma_map_of_index(self.accounts@, i as int);
                }
                Some(self.accounts[i].1)
            },
            None => None,
        }
    }

    /// Adds `amount` to the balance of `name` unconditionally;
    /// fails iff the account is absent.
    pub fn deposit(&mut self, name: &Name, amount: Balance) -> (r: Result<(), BankError>)
        requires
            old(self).wf(),
            deposit_fits(old(self)@, name@, amount@),
        ensures
            final(self).wf(),
            final(self)@ == deposit_post(old(self)@, name@, amount@),
            r is Ok <==> deposit_ok(old(self)@, name@),
            r is Err ==> r == Result::<(), BankError>::Err(BankError::UserNotFound),
    {
        proof {
            lemma_map_of_contains(self.accounts@, name@);
        }
        match self.position_of(name) {
            Some(i) => {
                proof {
                    lemma_map_of_index(self.accounts@, i as int);
                    lemma_map_of_update(
                        self.accounts@,
                        i as int,
                        Balance(
                            (self.accounts@[i as int].1.0 + amount.0) as i64,
                        ),
                    );
                }
                let b = self.accounts[i].1;
                self.accounts[i].1 = Balance(b.0 + amount.0);
                Ok(())
            },
            None => Err(BankError::UserNotFound),
        }
    }

    /// Subtracts `amount` from the balance of `name` when it holds enough;
    /// fails with `UserNotFound` or `FundsLimit` otherwise.
    pub fn withdraw(&mut self, name: &Name, amount: Balance) -> (r: Result<(), BankError>)
        requires
            old(self).wf(),
            withdraw_fits(old(self)@, name@, amount@),
        ensures
            final(self).wf(),
            final(self)@ == withdraw_post(old(self)@, name@, amount@),
            r is Ok <==> withdraw_ok(old(self)@, name@, amount@),
            !withdraw_ok(old(self)@, name@, amount@) ==> r == Result::<(), BankError>::Err(
                withdraw_err(old(self)@, name@),
            ),
    {
        proof {
            lemma_map_of_contains(self.accounts@, name@);
        }
        match self.position_of(name) {
            Some(i) => {
                proof {
                    lemma_map_of_index(self.accounts@, i as int);
                }
                let b = self.accounts[i].1;
                if b.0 >= amount.0 {
                    proof {
                        lemma_map_of_update(
                            self.accounts@,
                            i as int,
                            Balance((self.accounts@[i as int].1.0 - amount.0) as i64),
                        );
                    }
                    self.accounts[i].1 = Balance(b.0 - amount.0);
                    Ok(())
                } else {
                    Err(BankError::FundsLimit)
                }
            },
            None => Err(BankError::UserNotFound),
        }
    }

    /// A snapshot of every account as a (name, balance) pair.
    pub fn get_all(&self) -> (r: Vec<(Name, Balance)>)
        requires
            self.wf(),
        ensures
            map_of(r@) == self@,
            distinct_names(r@),
            pairs_views(r@) == pairs_views(self.entries()),
            forall|i: int|
                0 <= i < r@.len() ==> self@.contains_key(#[trigger] r@[i].0@) && r@[i].1@
                    == self@[r@[i].0@],
            forall|k: Seq<char>|
                self@.contains_key(k) ==> exists|i: int| 0 <= i < r@.len() && #[trigger] r@[i].0@ == k,
    {
        let n = self.accounts.len();
        let mut out: Vec<(Name, Balance)> = Vec::new();
        let mut i: usize = 0;
        while i < n
            invariant
                n == self.accounts@.len(),
                i <= n,
                out@.len() == i,
                forall|j: int|
                    0 <= j < i ==> #[trigger] out@[j].0@ == self.accounts@[j].0@ && out@[j].1
                        == self.accounts@[j].1,
            decreases n - i,
        {
            let name = self.accounts[i].0.clone();
            out.push((name, self.accounts[i].1));
            i = i + 1;
        }
        proof {
            lemma_map_of_congruent(out@, self.accounts@);
            assert(pairs_views(out@) =~= pairs_views(self.accounts@));
            assert forall|i: int| 0 <= i < out@.len() implies self@.contains_key(
                #[trigger] out@[i].0@,
            ) && out@[i].1@ == self@[out@[i].0@] by {
                lemma_map_of_index(self.accounts@, i);
            }
            assert forall|k: Seq<char>| self@.contains_key(k) implies exists|i: int|
                0 <= i < out@.len() && #[trigger] out@[i].0@ == k by {
                lemma_map_of_contains(self.accounts@, k);
                let i = choose|i: int|
                    0 <= i < self.accounts@.len() && self.accounts@[i].0@ == k;
                assert(out@[i].0@ == k);
            }
        }
        out
    }
}

/// The sum of a sequence of amounts.
pub open spec fn sum_of(amts: Seq<int>) -> int
    decreases amts.len(),
{
    if amts.len() == 0 {
        0
    } else {
        sum_of(amts.drop_last()) + amts.last()
    }
}

/// The store after depositing each amount in turn into one account.
pub open spec fn deposits_post(m: Map<Seq<char>, int>, name: Seq<char>, amts: Seq<int>) -> Map<
    Seq<char>,
    int,
>
    decreases amts.len(),
{
    if amts.len() == 0 {
        m
    } else {
        deposit_post(deposits_post(m, name, amts.drop_last()), name, amts.last())
    }
}

/// A sequence of deposits into an initially zero account leaves it
/// holding exactly the sum of the amounts.
pub proof fn lemma_deposits_sum(m: Map<Seq<char>, int>, name: Seq<char>, amts: Seq<int>)
    requires
        m.contains_key(name),
        m[name] == 0,
    ensures
        deposits_post(m, name, amts).contains_key(name),
        deposits_post(m, name, amts)[name] == sum_of(amts),
    decreases amts.len(),
{
    if amts.len() > 0 {
        lemma_deposits_sum(m, name, amts.drop_last());
    }
}

/// Adding a user twice reports "already exists" the second time and
/// leaves the account exactly as the first call created it: when the
/// name was free, its balance after both calls is still zero.
pub proof fn lemma_add_user_twice(m: Map<Seq<char>, int>, name: Seq<char>)
    ensures
        add_user_post(m, name).contains_key(name),
        !add_user_ok(add_user_post(m, name), name),
        add_user_post(add_user_post(m, name), name) == add_user_post(m, name),
        add_user_ok(m, name) ==> add_user_post(add_user_post(m, name), name)[name] == 0,
{
}

/// Removing an absent user changes nothing; removing a present one
/// erases the account, so a later lookup finds nothing under its name.
pub proof fn lemma_remove_user(m: Map<Seq<char>, int>, name: Seq<char>)
    ensures
        !m.contains_key(name) ==> remove_user_post(m, name) == m,
        !remove_user_post(m, name).contains_key(name),
{
}

/// Entry sequences equal under the view are sent to the same map.
pub proof fn lemma_map_of_congruent(a: Seq<(Name, Balance)>, b: Seq<(Name, Balance)>)
    requires
        a.len() == b.len(),
        forall|i: int| 0 <= i < a.len() ==> a[i].0@ == b[i].0@ && a[i].1@ == b[i].1@,
    ensures
        map_of(a) == map_of(b),
    decreases a.len(),
{
    if a.len() > 0 {
        lemma_map_of_congruent(a.drop_last(), b.drop_last());
        assert(map_of(a) =~= map_of(b));
    }
}

} // verus!

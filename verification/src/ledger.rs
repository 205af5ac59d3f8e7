use vstd::prelude::*;
use vstd::map::*;
use crate::model::LedgerView;
use crate::text::str_eq;

verus! {

/// Why an operation was refused.
#[derive(Clone, Copy, Debug, PartialEq, Eq, Structural)]
pub enum TokenError {
    /// A transfer or burn asked for more than the source account holds.
    InsufficientBalance,
    /// A mint or ownership transfer came from a caller other than the owner.
    Unauthorized,
}

/// Whether some entry carries the account `a`.
spec fn has_account(s: Seq<(Seq<char>, u64)>, a: Seq<char>) -> bool {
    exists|i: int| 0 <= i < s.len() && s[i].0 == a
}

/// The index of the entry carrying the account `a`.
spec fn account_index(s: Seq<(Seq<char>, u64)>, a: Seq<char>) -> int {
    choose|i: int| 0 <= i < s.len() && s[i].0 == a
}

/// The balances that the entries denote, as a partial map.
spec fn balances_map(s: Seq<(Seq<char>, u64)>) -> Map<Seq<char>, nat> {
    Map::new(
        |a: Seq<char>| has_account(s, a),
        |a: Seq<char>| s[account_index(s, a)].1 as nat,
    )
}

/// Whether no two entries carry the same account.
spec fn distinct_accounts(s: Seq<(Seq<char>, u64)>) -> bool {
    forall|i: int, j: int| 0 <= i < j < s.len() ==> s[i].0 != s[j].0
}

/// The sum of all stored balances.
spec fn balance_total(s: Seq<(Seq<char>, u64)>) -> int
    decreases s.len(),
{
    if s.len() == 0 {
        0
    } else {
        balance_total(s.drop_last()) + s.last().1
    }
}

/// A fungible-token ledger: a named asset with a total supply, per-account
/// balances, and an owner who alone may mint and hand over ownership.
pub struct Token {
    name: String,
    symbol: String,
    total_supply: u64,
    balances: Vec<(String, u64)>,
    owner: String,
}

impl View for Token {
    type V = LedgerView;

    closed spec fn view(&self) -> LedgerView {
        LedgerView {
            name: self.name@,
            symbol: self.symbol@,
            total_supply: self.total_supply as nat,
            owner: self.owner@,
            balances: balances_map(self.entries()),
        }
    }
}

impl Token {
    /// The stored account/balance pairs, as mathematical values.
    spec fn entries(self) -> Seq<(Seq<char>, u64)> {
        self.balances@.map_values(|p: (String, u64)| (p.0@, p.1))
    }

    /// Well-formed: no account is stored twice, and the stored total supply
    /// is the sum of all stored balances. Construction establishes this and
    /// every operation preserves it.
    pub closed spec fn wf(self) -> bool {
        &&& distinct_accounts(self.entries())
        &&& balance_total(self.entries()) == self.total_supply
    }

    /// Creates a ledger whose whole initial supply belongs to `owner`.
    pub fn new(name: String, symbol: String, initial_supply: u64, owner: String) -> (t: Token)
        ensures
            t.wf(),
            t@ == LedgerView::initial(name@, symbol@, initial_supply as nat, owner@),
    {
        let mut balances: Vec<(String, u64)> = Vec::new();
        balances.push((owner.clone(), initial_supply));
        let t = Token { name, symbol, total_supply: initial_supply, balances, owner };
        proof {
            let s = t.entries();
            assert(s.len() == 1);
            assert(s[0] == (t.owner@, initial_supply));
            assert(balance_total(s) == initial_supply) by {
                assert(s.drop_last().len() == 0);
                assert(balance_total(s.drop_last()) == 0);
                assert(s.last() == s[0]);
            }
            assert_maps_equal!(
                balances_map(s),
                Map::empty().insert(t.owner@, initial_supply as nat),
                a => {
                    if has_account(s, a) {
                        let i = account_index(s, a);
                        assert(0 <= i < 1 && s[i].0 == a);
                    }
                    if a == t.owner@ {
                        assert(s[0].0 == a);
                        assert(has_account(s, a));
                    }
                }
            );
        }
        t
    }

    /// The index of the entry holding `account`, if one exists.
    fn find(&self, account: &str) -> (r: Option<usize>)
        ensures
            match r {
                Some(i) => i < self.entries().len() && self.entries()[i as int].0 == account@,
                None => !has_account(self.entries(), account@),
            },
    {
        let n = self.balances.len();
        let mut i: usize = 0;
        while i < n
            invariant
                n == self.balances.len(),
                i <= n,
                forall|j: int| 0 <= j < i ==> self.entries()[j].0 != account@,
            decreases n - i,
        {
            assert(self.entries()[i as int] == (self.balances@[i as int].0@, self.balances@[
                i as int
            ].1));
            if str_eq(self.balances[i].0.as_str(), account) {
                return Some(i);
            }
            i += 1;
        }
        None
    }

    /// The stored balance of `account`, zero when no entry exists.
    fn stored_balance(&self, account: &str) -> (r: u64)
        requires
            distinct_accounts(self.entries()),
        ensures
            r == self@.balance_of(account@),
    {
        match self.find(account) {
            Some(i) => {
                proof {
                    lemma_distinct_lookup(self.entries(), account@, i as int);
                }
                self.balances[i].1
            },
            None => 0,
        }
    }

    /// Balance of an account; accounts never credited hold zero.
    pub fn balance_of(&self, account: &str) -> (r: u64)
        requires
            self.wf(),
        ensures
            r == self@.balance_of(account@),
    {
        self.stored_balance(account)
    }

    /// The asset's display name.
    pub fn name(&self) -> (r: &str)
        ensures
            r@ == self@.name,
    {
        self.name.as_str()
    }

    /// The asset's ticker symbol.
    pub fn symbol(&self) -> (r: &str)
        ensures
            r@ == self@.symbol,
    {
        self.symbol.as_str()
    }

    /// The account that holds the administrative capability.
    pub fn owner(&self) -> (r: &str)
        ensures
            r@ == self@.owner,
    {
        self.owner.as_str()
    }

    /// The number of units in circulation.
    pub fn total_supply(&self) -> (r: u64)
        ensures
            r == self@.total_supply,
    {
        self.total_supply
    }

    /// Stores `value` as the balance of `account`, updating the entry in
    /// place or appending one.
    fn set_balance(&mut self, account: &str, value: u64)
        requires
            distinct_accounts(old(self).entries()),
        ensures
            distinct_accounts(final(self).entries()),
            balances_map(final(self).entries()) == balances_map(old(self).entries()).insert(
                account@,
                value as nat,
            ),
            balance_total(final(self).entries()) == balance_total(old(self).entries())
                - old(self)@.balance_of(account@) + value,
            final(self).name == old(self).name,
            final(self).symbol == old(self).symbol,
            final(self).owner == old(self).owner,
            final(self).total_supply == old(self).total_supply,
    {
        let ghost s0 = self.entries();
        match self.find(account) {
            Some(i) => {
                proof {
                    lemma_distinct_lookup(s0, account@, i as int);
                }
                self.balances[i].1 = value;
                proof {
                    assert(self.entries() =~= s0.update(i as int, (s0[i as int].0, value)));
                    lemma_total_update(s0, i as int, (s0[i as int].0, value));
                    lemma_map_update(s0, i as int, value);
                }
            },
            None => {
                self.balances.push((String::from_str(account), value));
                proof {
                    assert(self.entries() =~= s0.push((account@, value)));
                    lemma_total_push(s0, (account@, value));
                    lemma_map_push(s0, account@, value);
                }
            },
        }
    }

    /// Moves `amount` from `sender` to `recipient`. Fails, mutating nothing,
    /// exactly when `sender` holds less than `amount`; the total supply is
    /// never changed.
    pub fn transfer(&mut self, sender: &str, recipient: &str, amount: u64) -> (r: Result<
        (),
        TokenError,
    >)
        requires
            old(self).wf(),
        ensures
            final(self).wf(),
            final(self)@ == old(self)@.transfer(sender@, recipient@, amount as nat),
            r is Ok <==> amount <= old(self)@.balance_of(sender@),
            r is Err ==> r == Err::<(), TokenError>(TokenError::InsufficientBalance),
    {
        let sender_balance = self.stored_balance(sender);
        if sender_balance < amount {
            return Err(TokenError::InsufficientBalance);
        }
        let ghost v0 = self@;
        let ghost s0 = self.entries();
        let debited = sender_balance - amount;
        self.set_balance(sender, debited);
        proof {
            assert(self@ == v0.debit(sender@, amount as nat));
        }
        let recipient_balance = self.stored_balance(recipient);
        proof {
            if recipient@ != sender@ {
                if has_account(s0, sender@) && has_account(s0, recipient@) {
                    let i = account_index(s0, sender@);
                    let j = account_index(s0, recipient@);
                    assert(0 <= i < s0.len() && s0[i].0 == sender@);
                    assert(0 <= j < s0.len() && s0[j].0 == recipient@);
                    lemma_distinct_lookup(s0, sender@, i);
                    lemma_distinct_lookup(s0, recipient@, j);
                    lemma_total_two(s0, i, j);
                } else if !has_account(s0, sender@) {
                    assert(sender_balance == 0);
                }
            }
            assert(recipient_balance + amount <= u64::MAX);
        }
        self.set_balance(recipient, recipient_balance + amount);
        proof {
            assert(self@ == v0.transfer(sender@, recipient@, amount as nat));
        }
        Ok(())
    }

    /// Creates `amount` new units for `to` and grows the total supply by the
    /// same amount. Fails, mutating nothing, exactly when `caller` is not the
    /// owner.
    pub fn mint(&mut self, to: &str, amount: u64, caller: &str) -> (r: Result<(), TokenError>)
        requires
            old(self).wf(),
            caller@ == old(self)@.owner ==> old(self)@.total_supply + amount <= u64::MAX,
        ensures
            final(self).wf(),
            final(self)@ == old(self)@.mint(to@, amount as nat, caller@),
            r is Ok <==> caller@ == old(self)@.owner,
            r is Err ==> r == Err::<(), TokenError>(TokenError::Unauthorized),
    {
        if !str_eq(caller, self.owner.as_str()) {
            return Err(TokenError::Unauthorized);
        }
        let ghost v0 = self@;
        let ghost s0 = self.entries();
        let to_balance = self.stored_balance(to);
        proof {
            lemma_balance_le_total(s0, to@);
        }
        self.set_balance(to, to_balance + amount);
        self.total_supply = self.total_supply + amount;
        proof {
            assert(self@ == v0.mint(to@, amount as nat, caller@));
        }
        Ok(())
    }

    /// Destroys `amount` units held by `from` and shrinks the total supply
    /// by the same amount. Fails, mutating nothing, exactly when `from` holds
    /// less than `amount`.
    pub fn burn(&mut self, from: &str, amount: u64) -> (r: Result<(), TokenError>)
        requires
            old(self).wf(),
        ensures
            final(self).wf(),
            final(self)@ == old(self)@.burn(from@, amount as nat),
            r is Ok <==> amount <= old(self)@.balance_of(from@),
            r is Err ==> r == Err::<(), TokenError>(TokenError::InsufficientBalance),
    {
        let from_balance = self.stored_balance(from);
        if from_balance < amount {
            return Err(TokenError::InsufficientBalance);
        }
        let ghost v0 = self@;
        let ghost s0 = self.entries();
        proof {
            lemma_balance_le_total(s0, from@);
        }
        self.set_balance(from, from_balance - amount);
        self.total_supply = self.total_supply - amount;
        proof {
            assert(self@ == v0.burn(from@, amount as nat));
        }
        Ok(())
    }

    /// Hands the administrative capability to `new_owner`. Fails, mutating
    /// nothing, exactly when `caller` is not the owner.
    pub fn transfer_ownership(&mut self, new_owner: String, caller: &str) -> (r: Result<
        (),
        TokenError,
    >)
        requires
            old(self).wf(),
        ensures
            final(self).wf(),
            final(self)@ == old(self)@.transfer_ownership(new_owner@, caller@),
            r is Ok <==> caller@ == old(self)@.owner,
            r is Err ==> r == Err::<(), TokenError>(TokenError::Unauthorized),
    {
        if !str_eq(caller, self.owner.as_str()) {
            return Err(TokenError::Unauthorized);
        }
        self.owner = new_owner;
        Ok(())
    }
}

/// Under well-formedness no single balance exceeds the total supply: the
/// total supply is the sum of all balances, and balances are non-negative.
pub proof fn lemma_balance_within_supply(t: Token, account: Seq<char>)
    requires
        t.wf(),
    ensures
        t@.balance_of(account) <= t@.total_supply,
{
    lemma_balance_le_total(t.entries(), account);
}

/// A balance read off the entries never exceeds their sum.
proof fn lemma_balance_le_total(s: Seq<(Seq<char>, u64)>, a: Seq<char>)
    requires
        distinct_accounts(s),
    ensures
        balance_total(s) >= 0,
        has_account(s, a) ==> balances_map(s)[a] <= balance_total(s),
{
    lemma_total_nonneg(s);
    if has_account(s, a) {
        let i = account_index(s, a);
        assert(0 <= i < s.len() && s[i].0 == a);
        lemma_distinct_lookup(s, a, i);
        lemma_total_one(s, i);
    }
}

/// The sum of stored balances is non-negative.
proof fn lemma_total_nonneg(s: Seq<(Seq<char>, u64)>)
    ensures
        balance_total(s) >= 0,
    decreases s.len(),
{
    if s.len() > 0 {
        lemma_total_nonneg(s.drop_last());
    }
}

/// The sum of stored balances bounds each single balance.
proof fn lemma_total_one(s: Seq<(Seq<char>, u64)>, i: int)
    requires
        0 <= i < s.len(),
    ensures
        balance_total(s) >= s[i].1,
    decreases s.len(),
{
    if i == s.len() - 1 {
        lemma_total_nonneg(s.drop_last());
    } else {
        lemma_total_one(s.drop_last(), i);
        assert(s.drop_last()[i] == s[i]);
    }
}

/// The sum of stored balances bounds the sum of any two distinct balances.
proof fn lemma_total_two(s: Seq<(Seq<char>, u64)>, i: int, j: int)
    requires
        0 <= i < s.len(),
        0 <= j < s.len(),
        i != j,
    ensures
        balance_total(s) >= s[i].1 + s[j].1,
    decreases s.len(),
{
    if i == s.len() - 1 {
        lemma_total_one(s.drop_last(), j);
        assert(s.drop_last()[j] == s[j]);
    } else if j == s.len() - 1 {
        lemma_total_one(s.drop_last(), i);
        assert(s.drop_last()[i] == s[i]);
    } else {
        lemma_total_two(s.drop_last(), i, j);
        assert(s.drop_last()[i] == s[i]);
        assert(s.drop_last()[j] == s[j]);
    }
}

/// Updating the entry at `i` moves the sum by the difference of the old and
/// new balance.
proof fn lemma_total_update(s: Seq<(Seq<char>, u64)>, i: int, e: (Seq<char>, u64))
    requires
        0 <= i < s.len(),
    ensures
        balance_total(s.update(i, e)) == balance_total(s) - s[i].1 + e.1,
    decreases s.len(),
{
    let s2 = s.update(i, e);
    if i == s.len() - 1 {
        assert(s2.drop_last() =~= s.drop_last());
        assert(s2.last() == e);
    } else {
        lemma_total_update(s.drop_last(), i, e);
        assert(s2.drop_last() =~= s.drop_last().update(i, e));
        assert(s2.last() == s.last());
        assert(s.drop_last()[i] == s[i]);
    }
}

/// Appending an entry grows the sum by its balance.
proof fn lemma_total_push(s: Seq<(Seq<char>, u64)>, e: (Seq<char>, u64))
    ensures
        balance_total(s.push(e)) == balance_total(s) + e.1,
{
    assert(s.push(e).drop_last() =~= s);
    assert(s.push(e).last() == e);
}

/// Overwriting the balance at `i` denotes inserting into the balances map.
proof fn lemma_map_update(s: Seq<(Seq<char>, u64)>, i: int, v: u64)
    requires
        distinct_accounts(s),
        0 <= i < s.len(),
    ensures
        distinct_accounts(s.update(i, (s[i].0, v))),
        balances_map(s.update(i, (s[i].0, v))) == balances_map(s).insert(s[i].0, v as nat),
{
    let a0 = s[i].0;
    let s2 = s.update(i, (a0, v));
    assert(forall|k: int| 0 <= k < s2.len() ==> s2[k].0 == s[k].0);
    assert(distinct_accounts(s2));
    lemma_distinct_lookup(s2, a0, i);
    assert_maps_equal!(
        balances_map(s2),
        balances_map(s).insert(a0, v as nat),
        a => {
            if a == a0 {
                assert(has_account(s, a0));
            } else {
                if has_account(s2, a) {
                    let k = account_index(s2, a);
                    assert(0 <= k < s2.len() && s2[k].0 == a);
                    assert(s[k].0 == a);
                    lemma_distinct_lookup(s2, a, k);
                    lemma_distinct_lookup(s, a, k);
                    assert(k != i);
                    assert(s2[k].1 == s[k].1);
                }
                if has_account(s, a) {
                    let k = account_index(s, a);
                    assert(0 <= k < s.len() && s[k].0 == a);
                    assert(s2[k].0 == a);
                    lemma_distinct_lookup(s2, a, k);
                    lemma_distinct_lookup(s, a, k);
                    assert(k != i);
                    assert(s2[k].1 == s[k].1);
                }
            }
        }
    );
}

/// Appending an entry for a fresh account denotes inserting into the
/// balances map.
proof fn lemma_map_push(s: Seq<(Seq<char>, u64)>, a0: Seq<char>, v: u64)
    requires
        distinct_accounts(s),
        !has_account(s, a0),
    ensures
        distinct_accounts(s.push((a0, v))),
        balances_map(s.push((a0, v))) == balances_map(s).insert(a0, v as nat),
{
    let s2 = s.push((a0, v));
    assert(forall|k: int| 0 <= k < s.len() ==> s2[k] == s[k]);
    assert(s2[s.len() as int] == (a0, v));
    assert forall|i: int, j: int| 0 <= i < j < s2.len() implies s2[i].0 != s2[j].0 by {
        if j == s.len() {
            if s[i].0 == a0 {
                assert(has_account(s, a0));
            }
        }
    }
    lemma_distinct_lookup(s2, a0, s.len() as int);
    assert_maps_equal!(
        balances_map(s2),
        balances_map(s).insert(a0, v as nat),
        a => {
            if a != a0 {
                if has_account(s2, a) {
                    let k = account_index(s2, a);
                    assert(0 <= k < s2.len() && s2[k].0 == a);
                    assert(k != s.len());
                    assert(s[k].0 == a);
                    lemma_distinct_lookup(s2, a, k);
                    lemma_distinct_lookup(s, a, k);
                }
                if has_account(s, a) {
                    let k = account_index(s, a);
                    assert(0 <= k < s.len() && s[k].0 == a);
                    assert(s2[k].0 == a);
                    lemma_distinct_lookup(s2, a, k);
                    lemma_distinct_lookup(s, a, k);
                }
            }
        }
    );
}

/// In a run of entries without repeated accounts, the entry at any index
/// holding `a` is the entry that the balances map reads.
proof fn lemma_distinct_lookup(s: Seq<(Seq<char>, u64)>, a: Seq<char>, i: int)
    requires
        distinct_accounts(s),
        0 <= i < s.len(),
        s[i].0 == a,
    ensures
        has_account(s, a),
        account_index(s, a) == i,
        balances_map(s)[a] == s[i].1 as nat,
{
    assert(has_account(s, a));
    let j = account_index(s, a);
    assert(0 <= j < s.len() && s[j].0 == a);
    if i < j {
        assert(s[i].0 != s[j].0);
    } else if j < i {
        assert(s[j].0 != s[i].0);
    }
}

} // verus!

use vstd::prelude::*;

verus! {

/// Mathematical state of a ledger: what a [`crate::ledger::Token`] denotes.
///
/// Account identities are character sequences, amounts are natural numbers,
/// and the balances are a partial map: an account outside the map's domain
/// holds a balance of zero.
pub ghost struct LedgerView {
    pub name: Seq<char>,
    pub symbol: Seq<char>,
    pub total_supply: nat,
    pub owner: Seq<char>,
    pub balances: Map<Seq<char>, nat>,
}

/// One ledger operation, for stating laws about operation sequences.
pub ghost enum Operation {
    Transfer { sender: Seq<char>, recipient: Seq<char>, amount: nat },
    Mint { to: Seq<char>, amount: nat, caller: Seq<char> },
    Burn { from: Seq<char>, amount: nat },
    TransferOwnership { new_owner: Seq<char>, caller: Seq<char> },
}

impl LedgerView {
    /// The ledger produced by construction: the whole initial supply is
    /// credited to the owner.
    pub open spec fn initial(
        name: Seq<char>,
        symbol: Seq<char>,
        initial_supply: nat,
        owner: Seq<char>,
    ) -> LedgerView {
        LedgerView {
            name,
            symbol,
            total_supply: initial_supply,
            owner,
            balances: Map::empty().insert(owner, initial_supply),
        }
    }

    /// Balance of an account; accounts without an entry hold zero.
    pub open spec fn balance_of(self, account: Seq<char>) -> nat {
        if self.balances.dom().contains(account) {
            self.balances[account]
        } else {
            0
        }
    }

    /// Removes `amount` from `account`, leaving the total supply alone.
    pub open spec fn debit(self, account: Seq<char>, amount: nat) -> LedgerView
        recommends
            amount <= self.balance_of(account),
    {
        LedgerView {
            balances: self.balances.insert(account, (self.balance_of(account) - amount) as nat),
            ..self
        }
    }

    /// Adds `amount` to `account`, leaving the total supply alone.
    pub open spec fn credit(self, account: Seq<char>, amount: nat) -> LedgerView {
        LedgerView {
            balances: self.balances.insert(account, self.balance_of(account) + amount),
            ..self
        }
    }

    /// Moves `amount` from `sender` to `recipient`; a ledger whose sender
    /// lacks the funds is returned unchanged.
    pub open spec fn transfer(
        self,
        sender: Seq<char>,
        recipient: Seq<char>,
        amount: nat,
    ) -> LedgerView {
        if amount <= self.balance_of(sender) {
            self.debit(sender, amount).credit(recipient, amount)
        } else {
            self
        }
    }

    /// Creates `amount` new units for `to`; only the owner may call, and any
    /// other caller leaves the ledger unchanged.
    pub open spec fn mint(self, to: Seq<char>, amount: nat, caller: Seq<char>) -> LedgerView {
        if caller == self.owner {
            LedgerView { total_supply: self.total_supply + amount, ..self.credit(to, amount) }
        } else {
            self
        }
    }

    /// Destroys `amount` units held by `from`; a ledger whose account lacks
    /// the funds is returned unchanged.
    pub open spec fn burn(self, from: Seq<char>, amount: nat) -> LedgerView
        recommends
            amount <= self.total_supply,
    {
        if amount <= self.balance_of(from) {
            LedgerView { total_supply: (self.total_supply - amount) as nat, ..self.debit(from, amount) }
        } else {
            self
        }
    }

    /// Hands the administrative capability to `new_owner`; only the owner may
    /// call, and any other caller leaves the ledger unchanged.
    pub open spec fn transfer_ownership(
        self,
        new_owner: Seq<char>,
        caller: Seq<char>,
    ) -> LedgerView {
        if caller == self.owner {
            LedgerView { owner: new_owner, ..self }
        } else {
            self
        }
    }

    /// The ledger after one operation.
    pub open spec fn step(self, op: Operation) -> LedgerView {
        match op {
            Operation::Transfer { sender, recipient, amount } => self.transfer(
                sender,
                recipient,
                amount,
            ),
            Operation::Mint { to, amount, caller } => self.mint(to, amount, caller),
            Operation::Burn { from, amount } => self.burn(from, amount),
            Operation::TransferOwnership { new_owner, caller } => self.transfer_ownership(
                new_owner,
                caller,
            ),
        }
    }

    /// The ledger after a sequence of operations, applied first to last.
    pub open spec fn run(self, ops: Seq<Operation>) -> LedgerView
        decreases ops.len(),
    {
        if ops.len() == 0 {
            self
        } else {
            self.step(ops[0]).run(ops.drop_first())
        }
    }
}

/// Whether every operation in the sequence is a transfer.
pub open spec fn all_transfers(ops: Seq<Operation>) -> bool {
    forall|i: int| 0 <= i < ops.len() ==> ops[i] is Transfer
}

/// Conservation: a single transfer never changes the total supply.
pub proof fn lemma_transfer_preserves_supply(
    v: LedgerView,
    sender: Seq<char>,
    recipient: Seq<char>,
    amount: nat,
)
    ensures
        v.transfer(sender, recipient, amount).total_supply == v.total_supply,
{
}

/// Conservation: a sequence of transfers, of any length and in any order,
/// never changes the total supply.
pub proof fn lemma_transfers_conserve_supply(v: LedgerView, ops: Seq<Operation>)
    requires
        all_transfers(ops),
    ensures
        v.run(ops).total_supply == v.total_supply,
    decreases ops.len(),
{
    if ops.len() > 0 {
        assert(forall|i: int|
            0 <= i < ops.drop_first().len() ==> ops.drop_first()[i] == ops[i + 1]);
        lemma_transfers_conserve_supply(v.step(ops[0]), ops.drop_first());
    }
}

/// Mint/burn symmetry: minting an amount to an account and then burning the
/// same amount from it restores the prior total supply and the prior balance
/// of that account.
pub proof fn lemma_mint_burn_symmetry(v: LedgerView, to: Seq<char>, amount: nat)
    ensures
        v.mint(to, amount, v.owner).burn(to, amount).total_supply == v.total_supply,
        v.mint(to, amount, v.owner).burn(to, amount).balance_of(to) == v.balance_of(to),
{
    let minted = v.mint(to, amount, v.owner);
    assert(minted.balance_of(to) == v.balance_of(to) + amount);
}

/// Overdraw rejection: a transfer or burn that asks for more than the account
/// holds leaves the ledger exactly as it was. Together with the balances
/// being natural numbers, no operation drives a balance or the total supply
/// below zero.
pub proof fn lemma_overdraw_rejected(
    v: LedgerView,
    sender: Seq<char>,
    recipient: Seq<char>,
    amount: nat,
)
    requires
        amount > v.balance_of(sender),
    ensures
        v.transfer(sender, recipient, amount) == v,
        v.burn(sender, amount) == v,
{
}

/// Authorization gate: minting or transferring ownership under any caller
/// other than the owner leaves the ledger — total supply, balances, and owner
/// — exactly as it was.
pub proof fn lemma_authorization_gate(
    v: LedgerView,
    to: Seq<char>,
    amount: nat,
    new_owner: Seq<char>,
    caller: Seq<char>,
)
    requires
        caller != v.owner,
    ensures
        v.mint(to, amount, caller) == v,
        v.transfer_ownership(new_owner, caller) == v,
{
}

/// Self-transfer idempotence: a transfer from an account to itself, with
/// sufficient balance, leaves every balance and the total supply unchanged.
pub proof fn lemma_self_transfer(v: LedgerView, account: Seq<char>, amount: nat)
    requires
        amount <= v.balance_of(account),
    ensures
        forall|a: Seq<char>|
            v.transfer(account, account, amount).balance_of(a) == v.balance_of(a),
        v.transfer(account, account, amount).total_supply == v.total_supply,
{
    let moved = v.transfer(account, account, amount);
    assert forall|a: Seq<char>| moved.balance_of(a) == v.balance_of(a) by {
        if a == account {
            assert(moved.balance_of(a) == v.balance_of(account));
        }
    }
}

} // verus!

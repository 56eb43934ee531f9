//! The bank: its accounts, the rules by which one deposit, withdrawal or
//! transfer changes them, and the counters of completed and failed entries.

use crate::ledger::text::{
    account_line, account_text, counters_line, counters_text, deposit_message, deposit_text,
    transfer_message, transfer_text, withdraw_message, withdraw_text,
};
use crate::ledger::laws::{lemma_deposit, lemma_transfer, lemma_withdraw};
use vstd::prelude::*;

verus! {

/// What a ledger entry asks for.
#[derive(Clone, Copy, Debug, PartialEq, Eq, Structural)]
pub enum Mode {
    Deposit,
    Withdraw,
    Transfer,
}

/// One account: the number it was given when the bank was set up, and its
/// balance.
#[derive(Clone, Copy, Debug)]
pub struct Account {
    account_id: i32,
    balance: i32,
}

/// The accounts of a bank and its two counters.
pub struct Bank {
    num: i32,
    num_succ: i32,
    num_fail: i32,
    accounts: Vec<Account>,
}

/// A bank as the contracts see it: the balance of each account, by account
/// number, and how many entries completed and failed so far.
#[verifier::ext_equal]
pub struct BankState {
    pub balances: Seq<int>,
    pub succ: int,
    pub fail: int,
}

/// What running one ledger entry produced, as the contracts see it.
#[verifier::ext_equal]
pub struct OutcomeView {
    pub ledger_id: int,
    pub mode: Mode,
    pub accounts: Seq<int>,
    pub amount: int,
    pub succeeded: bool,
    pub message: Seq<char>,
}

/// What running one ledger entry produced.
#[derive(Debug)]
pub struct Outcome {
    /// The number of the entry in the ledger.
    pub ledger_id: i32,
    /// What the entry asked for.
    pub mode: Mode,
    /// The accounts the entry touches, see [`lock_order`].
    pub accounts: Vec<i32>,
    /// The amount the entry names.
    pub amount: i32,
    /// Whether the entry was carried out.
    pub succeeded: bool,
    /// The line to show for the entry.
    pub message: String,
}

/// The sum of a sequence of balances.
pub open spec fn total(balances: Seq<int>) -> int
    decreases balances.len(),
{
    if balances.len() == 0 {
        0
    } else {
        total(balances.drop_last()) + balances.last()
    }
}

/// The accounts that a move of funds from `src_id` to `dest_id` touches, in
/// ascending order and each once. A host that guards every account with a lock
/// of its own takes the locks in this order, whichever account pays.
pub open spec fn lock_order_of(src_id: int, dest_id: int) -> Seq<int> {
    if src_id == dest_id {
        seq![src_id]
    } else if src_id < dest_id {
        seq![src_id, dest_id]
    } else {
        seq![dest_id, src_id]
    }
}

impl BankState {
    /// No balance is negative.
    pub open spec fn nonnegative(self) -> bool {
        forall|i: int| 0 <= i < self.balances.len() ==> 0 <= #[trigger] self.balances[i]
    }

    /// Every number is one that the bank's fields can hold.
    pub open spec fn in_range(self) -> bool {
        &&& self.balances.len() <= i32::MAX
        &&& forall|i: int|
            0 <= i < self.balances.len() ==> i32::MIN <= #[trigger] self.balances[i] <= i32::MAX
        &&& 0 <= self.succ <= i32::MAX
        &&& 0 <= self.fail <= i32::MAX
    }

    /// The bank has an account with this number.
    pub open spec fn has_account(self, id: int) -> bool {
        0 <= id < self.balances.len()
    }

    /// The account holds at least `amount`.
    pub open spec fn covers(self, id: int, amount: int) -> bool {
        self.balances[id] >= amount
    }

    /// The state with `delta` added to one balance.
    pub open spec fn apply_delta(self, id: int, delta: int) -> BankState {
        BankState { balances: self.balances.update(id, self.balances[id] + delta), ..self }
    }

    /// The state with one more completed entry.
    pub open spec fn record_succ(self) -> BankState {
        BankState { succ: self.succ + 1, ..self }
    }

    /// The state with one more failed entry.
    pub open spec fn record_fail(self) -> BankState {
        BankState { fail: self.fail + 1, ..self }
    }

    /// The state after a deposit, which always completes.
    pub open spec fn deposit(self, id: int, amount: int) -> BankState {
        self.apply_delta(id, amount).record_succ()
    }

    /// The state after a withdrawal: the balance is reduced if it covers the
    /// amount, and left alone otherwise.
    pub open spec fn withdraw(self, id: int, amount: int) -> BankState {
        if self.covers(id, amount) {
            self.apply_delta(id, -amount).record_succ()
        } else {
            self.record_fail()
        }
    }

    /// The state after a transfer: if the paying account covers the amount it
    /// is debited and then the receiving account is credited, so a transfer
    /// from an account to itself leaves its balance as it was; otherwise no
    /// balance changes.
    pub open spec fn transfer(self, src_id: int, dest_id: int, amount: int) -> BankState {
        if self.covers(src_id, amount) {
            self.apply_delta(src_id, -amount).apply_delta(dest_id, amount).record_succ()
        } else {
            self.record_fail()
        }
    }

    /// A deposit stays within what the fields can hold.
    pub open spec fn deposit_fits(self, id: int, amount: int) -> bool {
        self.balances[id] + amount <= i32::MAX && self.succ < i32::MAX
    }

    /// A withdrawal stays within what the fields can hold.
    pub open spec fn withdraw_fits(self, id: int, amount: int) -> bool {
        if self.covers(id, amount) {
            self.succ < i32::MAX
        } else {
            self.fail < i32::MAX
        }
    }

    /// A transfer stays within what the fields can hold.
    pub open spec fn transfer_fits(self, src_id: int, dest_id: int, amount: int) -> bool {
        if self.covers(src_id, amount) {
            &&& src_id != dest_id ==> self.balances[dest_id] + amount <= i32::MAX
            &&& self.succ < i32::MAX
        } else {
            self.fail < i32::MAX
        }
    }
}

impl View for Outcome {
    type V = OutcomeView;

    open spec fn view(&self) -> OutcomeView {
        OutcomeView {
            ledger_id: self.ledger_id as int,
            mode: self.mode,
            accounts: self.accounts@.map_values(|a: i32| a as int),
            amount: self.amount as int,
            succeeded: self.succeeded,
            message: self.message@,
        }
    }
}

/// The outcome of a deposit.
pub open spec fn deposit_outcome(
    worker_id: int,
    ledger_id: int,
    account_id: int,
    amount: int,
) -> OutcomeView {
    OutcomeView {
        ledger_id,
        mode: Mode::Deposit,
        accounts: seq![account_id],
        amount,
        succeeded: true,
        message: deposit_message(worker_id, ledger_id, amount, account_id),
    }
}

/// The outcome of a withdrawal from a bank in state `s`.
pub open spec fn withdraw_outcome(
    s: BankState,
    worker_id: int,
    ledger_id: int,
    account_id: int,
    amount: int,
) -> OutcomeView {
    OutcomeView {
        ledger_id,
        mode: Mode::Withdraw,
        accounts: seq![account_id],
        amount,
        succeeded: s.covers(account_id, amount),
        message: withdraw_message(
            worker_id,
            ledger_id,
            amount,
            account_id,
            s.covers(account_id, amount),
        ),
    }
}

/// The outcome of a transfer in a bank in state `s`.
pub open spec fn transfer_outcome(
    s: BankState,
    worker_id: int,
    ledger_id: int,
    src_id: int,
    dest_id: int,
    amount: int,
) -> OutcomeView {
    OutcomeView {
        ledger_id,
        mode: Mode::Transfer,
        accounts: lock_order_of(src_id, dest_id),
        amount,
        succeeded: s.covers(src_id, amount),
        message: transfer_message(
            worker_id,
            ledger_id,
            amount,
            src_id,
            dest_id,
            s.covers(src_id, amount),
        ),
    }
}

/// The lines of the account listing for a bank in state `s`: one per account,
/// then the counters.
pub open spec fn listing(s: BankState) -> Seq<Seq<char>> {
    Seq::new(s.balances.len(), |i: int| account_line(i, s.balances[i])).push(
        counters_line(s.succ, s.fail),
    )
}

/// Lists the accounts that a move of funds from `src_id` to `dest_id`
/// touches, in the order in which their locks are taken.
pub fn lock_order(src_id: i32, dest_id: i32) -> (order: Vec<i32>)
    ensures
        order@.map_values(|a: i32| a as int) == lock_order_of(src_id as int, dest_id as int),
{
    let mut order: Vec<i32> = Vec::new();
    if src_id == dest_id {
        order.push(src_id);
    } else if src_id < dest_id {
        order.push(src_id);
        order.push(dest_id);
    } else {
        order.push(dest_id);
        order.push(src_id);
    }
    order
}

impl Account {
    /// The number of the account.
    pub closed spec fn id(&self) -> int {
        self.account_id as int
    }

    /// What the account holds.
    pub closed spec fn funds(&self) -> int {
        self.balance as int
    }

    /// Returns the number of the account.
    pub fn account_id(&self) -> (id: i32)
        ensures
            id == self.id(),
    {
        self.account_id
    }

    /// Returns what the account holds.
    pub fn balance(&self) -> (balance: i32)
        ensures
            balance == self.funds(),
    {
        self.balance
    }
}

impl View for Bank {
    type V = BankState;

    closed spec fn view(&self) -> BankState {
        BankState {
            balances: Seq::new(self.accounts@.len(), |i: int| self.accounts@[i].balance as int),
            succ: self.num_succ as int,
            fail: self.num_fail as int,
        }
    }
}

impl Clone for Bank {
    /// A second bank in the same state.
    fn clone(&self) -> (copy: Bank)
        ensures
            copy@ == self@,
            self.wf() ==> copy.wf(),
    {
        let mut accounts: Vec<Account> = Vec::new();
        let mut i: usize = 0;
        while i < self.accounts.len()
            invariant
                i <= self.accounts@.len(),
                accounts@ == self.accounts@.take(i as int),
            decreases self.accounts@.len() - i,
        {
            accounts.push(self.accounts[i]);
            i = i + 1;
        }
        assert(accounts@ == self.accounts@);
        Bank { num: self.num, num_succ: self.num_succ, num_fail: self.num_fail, accounts }
    }
}

impl Bank {
    /// The accounts are numbered by their place, and the count of accounts is
    /// kept.
    pub closed spec fn numbered(&self) -> bool {
        &&& self.num == self.accounts@.len()
        &&& forall|i: int|
            0 <= i < self.accounts@.len() ==> (#[trigger] self.accounts@[i]).account_id == i
    }

    /// The bank is well formed: its accounts are numbered from zero, no
    /// balance is negative, and no counter is.
    pub open spec fn wf(&self) -> bool {
        &&& self.numbered()
        &&& self@.nonnegative()
        &&& self@.in_range()
    }

    /// A bank without accounts whose counters are zero.
    pub fn new() -> (bank: Bank)
        ensures
            bank.wf(),
            bank@ == (BankState { balances: Seq::empty(), succ: 0, fail: 0 }),
    {
        Bank { num: 0, num_succ: 0, num_fail: 0, accounts: Vec::new() }
    }

    /// Creates the accounts of the bank, numbered from zero, each with a
    /// balance of zero. The accounts of a bank are created once; a count that
    /// is not positive creates none.
    pub fn bank(&mut self, n: i32)
        requires
            old(self).wf(),
            old(self)@.balances.len() == 0,
        ensures
            final(self).wf(),
            final(self)@ =~= (BankState {
                balances: Seq::new(
                    if n > 0 {
                        n as nat
                    } else {
                        0
                    },
                    |i: int| 0int,
                ),
                ..old(self)@
            }),
    {
        let mut i: i32 = 0;
        while i < n
            invariant
                0 <= i,
                n > 0 ==> i <= n,
                n <= 0 ==> i == 0,
                self.accounts@.len() == i,
                forall|j: int| 0 <= j < i ==> (#[trigger] self.accounts@[j]).account_id == j,
                forall|j: int| 0 <= j < i ==> (#[trigger] self.accounts@[j]).balance == 0,
                self.num_succ == old(self).num_succ,
                self.num_fail == old(self).num_fail,
            decreases n - i,
        {
            let a = Account { account_id: i, balance: 0 };
            self.accounts.push(a);
            i = i + 1;
        }
        self.num = i;
        proof {
            assert forall|j: int| 0 <= j < self@.balances.len() implies #[trigger] self@.balances[j]
                == 0 by {
                assert(self.accounts@[j].balance == 0);
            }
        }
    }

    /// Returns how many accounts the bank has.
    pub fn num_accounts(&self) -> (n: i32)
        requires
            self.wf(),
        ensures
            n == self@.balances.len(),
    {
        self.num
    }

    /// Returns the accounts, each in the place of its number.
    pub fn accounts(&self) -> (accounts: &Vec<Account>)
        requires
            self.wf(),
        ensures
            accounts@.len() == self@.balances.len(),
            forall|i: int|
                0 <= i < accounts@.len() ==> (#[trigger] accounts@[i]).id() == i && accounts@[i].funds()
                    == self@.balances[i],
    {
        &self.accounts
    }

    /// Returns how many entries completed.
    pub fn success_count(&self) -> (n: i32)
        ensures
            n == self@.succ,
    {
        self.num_succ
    }

    /// Returns how many entries failed.
    pub fn failure_count(&self) -> (n: i32)
        ensures
            n == self@.fail,
    {
        self.num_fail
    }

    /// Returns the balance of an account, which is never negative.
    pub fn get_balance(&self, id: i32) -> (balance: i32)
        requires
            self.wf(),
            self@.has_account(id as int),
        ensures
            balance == self@.balances[id as int],
            balance >= 0,
    {
        assert(0 <= self@.balances[id as int]);
        self.accounts[id as usize].balance
    }

    /// Returns the balance of every account, by account number.
    pub fn balances(&self) -> (balances: Vec<i32>)
        requires
            self.wf(),
        ensures
            balances@.map_values(|b: i32| b as int) == self@.balances,
    {
        let mut balances: Vec<i32> = Vec::new();
        let mut i: usize = 0;
        while i < self.accounts.len()
            invariant
                i <= self.accounts@.len(),
                balances@.len() == i,
                forall|j: int| 0 <= j < i ==> #[trigger] balances@[j] == self.accounts@[j].balance,
            decreases self.accounts@.len() - i,
        {
            balances.push(self.accounts[i].balance);
            i = i + 1;
        }
        balances
    }

    /// Adds `delta`, which may be negative, to the balance of an account. The
    /// caller has made sure that the balance covers a negative `delta`.
    pub fn apply_delta(&mut self, id: i32, delta: i32)
        requires
            old(self).wf(),
            old(self)@.has_account(id as int),
            0 <= old(self)@.balances[id as int] + delta <= i32::MAX,
        ensures
            final(self).wf(),
            final(self)@ == old(self)@.apply_delta(id as int, delta as int),
    {
        let balance: i32 = self.accounts[id as usize].balance;
        self.accounts.set(id as usize, Account { account_id: id, balance: balance + delta });
        proof {
            assert(self@.balances =~= old(self)@.balances.update(
                id as int,
                old(self)@.balances[id as int] + delta,
            ));
            assert forall|i: int| 0 <= i < self@.balances.len() implies 0
                <= #[trigger] self@.balances[i] by {
                assert(0 <= old(self)@.balances[i]);
            }
        }
    }

    /// Counts one more completed entry.
    pub fn record_succ(&mut self)
        requires
            old(self).wf(),
            old(self)@.succ < i32::MAX,
        ensures
            final(self).wf(),
            final(self)@ == old(self)@.record_succ(),
    {
        self.num_succ = self.num_succ + 1;
    }

    /// Counts one more failed entry.
    pub fn record_fail(&mut self)
        requires
            old(self).wf(),
            old(self)@.fail < i32::MAX,
        ensures
            final(self).wf(),
            final(self)@ == old(self)@.record_fail(),
    {
        self.num_fail = self.num_fail + 1;
    }

    /// Deposits `amount` into an account. A deposit always completes.
    pub fn deposit(&mut self, worker_id: i32, ledger_id: i32, account_id: i32, amount: i32) -> (outcome:
        Outcome)
        requires
            old(self).wf(),
            old(self)@.has_account(account_id as int),
            amount >= 0,
            old(self)@.deposit_fits(account_id as int, amount as int),
        ensures
            final(self).wf(),
            final(self)@ == old(self)@.deposit(account_id as int, amount as int),
            outcome@ == deposit_outcome(
                worker_id as int,
                ledger_id as int,
                account_id as int,
                amount as int,
            ),
            total(final(self)@.balances) == total(old(self)@.balances) + amount,
            final(self)@.succ == old(self)@.succ + 1,
            final(self)@.fail == old(self)@.fail,
    {
        proof {
            lemma_deposit(self@, account_id as int, amount as int);
        }
        self.apply_delta(account_id, amount);
        self.record_succ();
        let mut accounts: Vec<i32> = Vec::new();
        accounts.push(account_id);
        Outcome {
            ledger_id,
            mode: Mode::Deposit,
            accounts,
            amount,
            succeeded: true,
            message: deposit_text(worker_id, ledger_id, amount, account_id),
        }
    }

    /// Withdraws `amount` from an account if its balance covers the amount;
    /// otherwise the withdrawal fails and the balance stays as it was.
    pub fn withdraw(&mut self, worker_id: i32, ledger_id: i32, account_id: i32, amount: i32) -> (outcome:
        Outcome)
        requires
            old(self).wf(),
            old(self)@.has_account(account_id as int),
            amount >= 0,
            old(self)@.withdraw_fits(account_id as int, amount as int),
        ensures
            final(self).wf(),
            final(self)@ == old(self)@.withdraw(account_id as int, amount as int),
            outcome@ == withdraw_outcome(
                old(self)@,
                worker_id as int,
                ledger_id as int,
                account_id as int,
                amount as int,
            ),
            outcome.succeeded ==> total(final(self)@.balances) == total(old(self)@.balances)
                - amount,
            !outcome.succeeded ==> final(self)@.balances == old(self)@.balances,
            final(self)@.succ + final(self)@.fail == old(self)@.succ + old(self)@.fail + 1,
            final(self)@.succ >= old(self)@.succ,
            final(self)@.fail >= old(self)@.fail,
    {
        proof {
            lemma_withdraw(self@, account_id as int, amount as int);
        }
        let succeeded: bool = amount <= self.get_balance(account_id);
        if succeeded {
            self.apply_delta(account_id, -amount);
            self.record_succ();
        } else {
            self.record_fail();
        }
        let mut accounts: Vec<i32> = Vec::new();
        accounts.push(account_id);
        Outcome {
            ledger_id,
            mode: Mode::Withdraw,
            accounts,
            amount,
            succeeded,
            message: withdraw_text(worker_id, ledger_id, amount, account_id, succeeded),
        }
    }

    /// Moves `amount` from one account to another if the paying account
    /// covers the amount; otherwise the transfer fails and no balance
    /// changes.
    pub fn transfer(
        &mut self,
        worker_id: i32,
        ledger_id: i32,
        src_id: i32,
        dest_id: i32,
        amount: i32,
    ) -> (outcome: Outcome)
        requires
            old(self).wf(),
            old(self)@.has_account(src_id as int),
            old(self)@.has_account(dest_id as int),
            amount >= 0,
            old(self)@.transfer_fits(src_id as int, dest_id as int, amount as int),
        ensures
            final(self).wf(),
            final(self)@ == old(self)@.transfer(src_id as int, dest_id as int, amount as int),
            outcome@ == transfer_outcome(
                old(self)@,
                worker_id as int,
                ledger_id as int,
                src_id as int,
                dest_id as int,
                amount as int,
            ),
            total(final(self)@.balances) == total(old(self)@.balances),
            !outcome.succeeded ==> final(self)@.balances == old(self)@.balances,
            final(self)@.succ + final(self)@.fail == old(self)@.succ + old(self)@.fail + 1,
            final(self)@.succ >= old(self)@.succ,
            final(self)@.fail >= old(self)@.fail,
    {
        proof {
            lemma_transfer(self@, src_id as int, dest_id as int, amount as int);
        }
        let succeeded: bool = amount <= self.get_balance(src_id);
        if succeeded {
            self.apply_delta(src_id, -amount);
            self.apply_delta(dest_id, amount);
            self.record_succ();
        } else {
            self.record_fail();
        }
        Outcome {
            ledger_id,
            mode: Mode::Transfer,
            accounts: lock_order(src_id, dest_id),
            amount,
            succeeded,
            message: transfer_text(worker_id, ledger_id, amount, src_id, dest_id, succeeded),
        }
    }

    /// Writes the account listing: one line for each account, then the line
    /// with the counters.
    pub fn print_account(&self) -> (lines: Vec<String>)
        requires
            self.wf(),
        ensures
            lines@.map_values(|l: String| l@) == listing(self@),
    {
        let mut lines: Vec<String> = Vec::new();
        let mut i: usize = 0;
        while i < self.accounts.len()
            invariant
                self.wf(),
                i <= self.accounts@.len(),
                lines@.len() == i,
                forall|j: int|
                    0 <= j < i ==> (#[trigger] lines@[j])@ == account_line(j, self@.balances[j]),
            decreases self.accounts@.len() - i,
        {
            let a: Account = self.accounts[i];
            lines.push(account_text(a.account_id, a.balance));
            i = i + 1;
        }
        lines.push(counters_text(self.num_succ, self.num_fail));
        lines
    }
}

} // verus!

//! The ledger: its entries, how they are handed to workers, and how they are
//! run against a bank.

pub mod bank;
pub mod laws;
pub mod parse;
pub mod text;

use crate::ledger::bank::{
    deposit_outcome, total, transfer_outcome, withdraw_outcome, Bank, BankState, Mode, Outcome,
    OutcomeView,
};
use crate::ledger::laws::{
    flow, lemma_fresh_total, lemma_run_result, lemma_step_conserves, lemma_step_counts,
    lemma_step_keeps_accounts, net_flow,
};
use crate::ledger::parse::{
    field, field_start, find_field_end, find_field_start, has_field, parse_number, read_number,
};
use vstd::arithmetic::div_mod::{lemma_fundamental_div_mod, lemma_fundamental_div_mod_converse};
use vstd::prelude::*;
use vstd::utf8::encode_utf8;

verus! {

/// How many accounts a bank has when it is set up for a run.
pub const NUM_ACCOUNTS: i32 = 10;

/// One entry of the ledger. `to` matters for a transfer only.
#[derive(Clone, Copy, Debug, PartialEq, Eq, Structural)]
pub struct Ledger {
    pub from: i32,
    pub to: i32,
    pub amount: i32,
    pub mode: Mode,
    pub ledger_id: i32,
}

/// A ledger entry together with the worker that runs it.
#[derive(Clone, Copy, Debug, PartialEq, Eq, Structural)]
pub struct Assignment {
    pub worker_id: i32,
    pub entry: Ledger,
}

/// Why a ledger was not run.
#[derive(Clone, Copy, Debug, PartialEq, Eq, Structural)]
pub enum LedgerError {
    /// The number of workers is not positive.
    InvalidWorkerCount,
    /// The entry with this number names an account that the bank does not
    /// have, or a negative amount.
    InvalidEntry(i32),
    /// Running the entry with this number would take a balance or a counter
    /// past what it can hold.
    Overflow(i32),
    /// The line with this number, counting from zero, does not write an
    /// entry that the bank can run.
    MalformedLine(usize),
}

/// What a run leaves behind: the balance of every account, the counters, and
/// the outcome of every entry in the order in which the entries ran.
#[derive(Debug)]
pub struct FinalReport {
    pub balances: Vec<i32>,
    pub success_count: i32,
    pub failure_count: i32,
    pub outcomes: Vec<Outcome>,
}

/// The outcomes as the contracts see them.
pub open spec fn outcome_views(outcomes: Seq<Outcome>) -> Seq<OutcomeView> {
    outcomes.map_values(|o: Outcome| o@)
}

impl Ledger {
    /// The entry can be run on a bank with `num_accounts` accounts: the
    /// accounts it touches exist and its amount is not negative.
    pub open spec fn valid(self, num_accounts: int) -> bool {
        &&& 0 <= self.from < num_accounts
        &&& self.mode == Mode::Transfer ==> 0 <= self.to < num_accounts
        &&& self.amount >= 0
    }

    /// Tells whether the entry can be run on a bank with `num_accounts`
    /// accounts.
    pub fn is_valid(&self, num_accounts: i32) -> (valid: bool)
        ensures
            valid == self.valid(num_accounts as int),
    {
        let accounts_exist: bool = match self.mode {
            Mode::Transfer => 0 <= self.from && self.from < num_accounts && 0 <= self.to && self.to
                < num_accounts,
            _ => 0 <= self.from && self.from < num_accounts,
        };
        accounts_exist && self.amount >= 0
    }
}

impl FinalReport {
    /// The state of the bank that the report shows.
    pub open spec fn state(&self) -> BankState {
        BankState {
            balances: self.balances@.map_values(|b: i32| b as int),
            succ: self.success_count as int,
            fail: self.failure_count as int,
        }
    }
}

impl BankState {
    /// A bank of `n` accounts that has run nothing yet.
    pub open spec fn fresh(n: nat) -> BankState {
        BankState { balances: Seq::new(n, |i: int| 0int), succ: 0, fail: 0 }
    }

    /// The state after running one entry.
    pub open spec fn step(self, e: Ledger) -> BankState {
        match e.mode {
            Mode::Deposit => self.deposit(e.from as int, e.amount as int),
            Mode::Withdraw => self.withdraw(e.from as int, e.amount as int),
            Mode::Transfer => self.transfer(e.from as int, e.to as int, e.amount as int),
        }
    }

    /// Running the entry stays within what the bank's fields can hold.
    pub open spec fn step_fits(self, e: Ledger) -> bool {
        match e.mode {
            Mode::Deposit => self.deposit_fits(e.from as int, e.amount as int),
            Mode::Withdraw => self.withdraw_fits(e.from as int, e.amount as int),
            Mode::Transfer => self.transfer_fits(e.from as int, e.to as int, e.amount as int),
        }
    }

    /// The outcome of running one entry for a worker.
    pub open spec fn outcome(self, worker_id: int, e: Ledger) -> OutcomeView {
        match e.mode {
            Mode::Deposit => deposit_outcome(
                worker_id,
                e.ledger_id as int,
                e.from as int,
                e.amount as int,
            ),
            Mode::Withdraw => withdraw_outcome(
                self,
                worker_id,
                e.ledger_id as int,
                e.from as int,
                e.amount as int,
            ),
            Mode::Transfer => transfer_outcome(
                self,
                worker_id,
                e.ledger_id as int,
                e.from as int,
                e.to as int,
                e.amount as int,
            ),
        }
    }
}

/// The first entry of the ledger that cannot be run on a bank with
/// `num_accounts` accounts, if there is one.
pub open spec fn first_invalid(ledger: Seq<Ledger>, num_accounts: int) -> Option<Ledger>
    decreases ledger.len(),
{
    if ledger.len() == 0 {
        None
    } else if !ledger[0].valid(num_accounts) {
        Some(ledger[0])
    } else {
        first_invalid(ledger.drop_first(), num_accounts)
    }
}

/// The order in which a ledger is handed out: entries leave the ledger from
/// its end, and the workers take them in turn, the first worker again after
/// the last.
pub open spec fn plan(ledger: Seq<Ledger>, num_workers: int) -> Seq<Assignment> {
    Seq::new(
        ledger.len(),
        |k: int|
            Assignment { worker_id: (k % num_workers) as i32, entry: ledger[ledger.len() - 1 - k] },
    )
}

/// The state of a bank after the assignments have run one after the other.
pub open spec fn run_state(s: BankState, assignments: Seq<Assignment>) -> BankState
    decreases assignments.len(),
{
    if assignments.len() == 0 {
        s
    } else {
        run_state(s.step(assignments[0].entry), assignments.drop_first())
    }
}

/// The outcomes of the assignments when they run one after the other.
pub open spec fn run_outcomes(s: BankState, assignments: Seq<Assignment>) -> Seq<OutcomeView>
    decreases assignments.len(),
{
    if assignments.len() == 0 {
        Seq::empty()
    } else {
        seq![s.outcome(assignments[0].worker_id as int, assignments[0].entry)] + run_outcomes(
            s.step(assignments[0].entry),
            assignments.drop_first(),
        )
    }
}

/// The first entry that does not fit when the assignments run one after the
/// other, if there is one.
pub open spec fn first_unfit(s: BankState, assignments: Seq<Assignment>) -> Option<Ledger>
    decreases assignments.len(),
{
    if assignments.len() == 0 {
        None
    } else if !s.step_fits(assignments[0].entry) {
        Some(assignments[0].entry)
    } else {
        first_unfit(s.step(assignments[0].entry), assignments.drop_first())
    }
}

/// What running a ledger with `num_workers` workers on a bank in state `s`
/// gives: the state and the outcomes, or the reason why nothing was run.
pub open spec fn run_result(s: BankState, num_workers: int, ledger: Seq<Ledger>) -> Result<
    (BankState, Seq<OutcomeView>),
    LedgerError,
> {
    if num_workers <= 0 {
        Err(LedgerError::InvalidWorkerCount)
    } else if let Some(e) = first_invalid(ledger, s.balances.len() as int) {
        Err(LedgerError::InvalidEntry(e.ledger_id))
    } else if let Some(e) = first_unfit(s, plan(ledger, num_workers)) {
        Err(LedgerError::Overflow(e.ledger_id))
    } else {
        Ok((run_state(s, plan(ledger, num_workers)), run_outcomes(s, plan(ledger, num_workers))))
    }
}

impl Bank {
    /// Tells whether running the entry now stays within what the bank's
    /// fields can hold.
    pub fn fits(&self, entry: &Ledger) -> (fits: bool)
        requires
            self.wf(),
            entry.valid(self@.balances.len() as int),
        ensures
            fits == self@.step_fits(*entry),
    {
        match entry.mode {
            Mode::Deposit => {
                self.get_balance(entry.from) <= i32::MAX - entry.amount && self.success_count()
                    < i32::MAX
            },
            Mode::Withdraw => {
                if entry.amount <= self.get_balance(entry.from) {
                    self.success_count() < i32::MAX
                } else {
                    self.failure_count() < i32::MAX
                }
            },
            Mode::Transfer => {
                if entry.amount <= self.get_balance(entry.from) {
                    (entry.from == entry.to || self.get_balance(entry.to) <= i32::MAX
                        - entry.amount) && self.success_count() < i32::MAX
                } else {
                    self.failure_count() < i32::MAX
                }
            },
        }
    }

    /// Runs one entry for a worker: the deposit, withdrawal or transfer that
    /// the entry asks for.
    pub fn execute(&mut self, worker_id: i32, entry: &Ledger) -> (outcome: Outcome)
        requires
            old(self).wf(),
            entry.valid(old(self)@.balances.len() as int),
            old(self)@.step_fits(*entry),
        ensures
            final(self).wf(),
            final(self)@ == old(self)@.step(*entry),
            outcome@ == old(self)@.outcome(worker_id as int, *entry),
            total(final(self)@.balances) == total(old(self)@.balances) + flow(outcome@),
            final(self)@.succ + final(self)@.fail == old(self)@.succ + old(self)@.fail + 1,
    {
        proof {
            lemma_step_conserves(self@, worker_id as int, *entry);
            lemma_step_counts(self@, worker_id as int, *entry);
        }
        match entry.mode {
            Mode::Deposit => self.deposit(worker_id, entry.ledger_id, entry.from, entry.amount),
            Mode::Withdraw => self.withdraw(worker_id, entry.ledger_id, entry.from, entry.amount),
            Mode::Transfer => self.transfer(
                worker_id,
                entry.ledger_id,
                entry.from,
                entry.to,
                entry.amount,
            ),
        }
    }
}

/// Hands the entries of a ledger to `num_workers` workers: the entries leave
/// the ledger from its end, each is handed out once, and the workers take them
/// in turn. A number of workers that is not positive is refused.
pub fn assign_workers(num_workers: i32, ledger: Vec<Ledger>) -> (res: Result<
    Vec<Assignment>,
    LedgerError,
>)
    ensures
        match res {
            Ok(assignments) => num_workers > 0 && assignments@ == plan(
                ledger@,
                num_workers as int,
            ),
            Err(e) => num_workers <= 0 && e == LedgerError::InvalidWorkerCount,
        },
{
    if num_workers <= 0 {
        return Err(LedgerError::InvalidWorkerCount);
    }
    let ghost entries = ledger@;
    let mut ledger = ledger;
    let mut assignments: Vec<Assignment> = Vec::new();
    let mut worker_id: i32 = 0;
    while ledger.len() > 0
        invariant
            num_workers > 0,
            ledger@.len() + assignments@.len() == entries.len(),
            ledger@ == entries.take(ledger@.len() as int),
            0 <= worker_id < num_workers,
            worker_id == assignments@.len() as int % num_workers as int,
            forall|k: int|
                0 <= k < assignments@.len() ==> #[trigger] assignments@[k] == plan(
                    entries,
                    num_workers as int,
                )[k],
        decreases ledger@.len(),
    {
        let ghost k = assignments@.len() as int;
        let entry = ledger.pop().unwrap();
        assignments.push(Assignment { worker_id, entry });
        proof {
            lemma_next_worker(k, num_workers as int);
        }
        worker_id = worker_id + 1;
        if worker_id >= num_workers {
            worker_id = 0;
        }
    }
    Ok(assignments)
}

/// The worker after worker `k % n` is worker `(k + 1) % n`: the next one, or
/// the first again after the last.
proof fn lemma_next_worker(k: int, n: int)
    requires
        0 <= k,
        0 < n,
    ensures
        (k + 1) % n == if k % n + 1 >= n {
            0
        } else {
            k % n + 1
        },
{
    lemma_fundamental_div_mod(k, n);
    let q = k / n;
    let r = k % n;
    if r + 1 >= n {
        assert(k + 1 == (q + 1) * n + 0) by (nonlinear_arith)
            requires
                k == n * q + r,
                r + 1 == n,
        ;
        lemma_fundamental_div_mod_converse(k + 1, n, q + 1, 0);
    } else {
        assert(k + 1 == q * n + (r + 1)) by (nonlinear_arith)
            requires
                k == n * q + r,
        ;
        lemma_fundamental_div_mod_converse(k + 1, n, q, r + 1);
    }
}

/// Runs a ledger on a bank with `num_workers` workers, one entry after the
/// other in the order in which [`assign_workers`] hands them out.
///
/// Nothing is run, and the bank stays as it was, if the number of workers is
/// not positive, if an entry names an account that the bank does not have or
/// a negative amount, or if an entry would take a balance or a counter past
/// what it can hold. An entry that asks for more than an account holds fails
/// and the run goes on.
pub fn run(bank: &mut Bank, num_workers: i32, ledger: Vec<Ledger>) -> (res: Result<
    Vec<Outcome>,
    LedgerError,
>)
    requires
        old(bank).wf(),
    ensures
        final(bank).wf(),
        match res {
            Ok(outcomes) => run_result(old(bank)@, num_workers as int, ledger@) == Ok::<
                (BankState, Seq<OutcomeView>),
                LedgerError,
            >((final(bank)@, outcome_views(outcomes@))),
            Err(e) => run_result(old(bank)@, num_workers as int, ledger@) == Err::<
                (BankState, Seq<OutcomeView>),
                LedgerError,
            >(e) && final(bank)@ == old(bank)@,
        },
        res matches Ok(outcomes) ==> {
            &&& outcomes@.len() == ledger@.len()
            &&& final(bank)@.succ + final(bank)@.fail == old(bank)@.succ + old(bank)@.fail
                + ledger@.len()
            &&& total(final(bank)@.balances) == total(old(bank)@.balances) + net_flow(
                outcome_views(outcomes@),
            )
        },
{
    if num_workers <= 0 {
        return Err(LedgerError::InvalidWorkerCount);
    }
    let num_accounts: i32 = bank.num_accounts();
    let mut i: usize = 0;
    assert(ledger@.skip(0) == ledger@);
    while i < ledger.len()
        invariant
            *bank == *old(bank),
            bank.wf(),
            num_workers > 0,
            num_accounts == bank@.balances.len(),
            i <= ledger@.len(),
            first_invalid(ledger@, num_accounts as int) == first_invalid(
                ledger@.skip(i as int),
                num_accounts as int,
            ),
            forall|j: int| 0 <= j < i ==> (#[trigger] ledger@[j]).valid(num_accounts as int),
        decreases ledger@.len() - i,
    {
        assert(ledger@.skip(i as int).drop_first() == ledger@.skip(i as int + 1));
        if !ledger[i].is_valid(num_accounts) {
            return Err(LedgerError::InvalidEntry(ledger[i].ledger_id));
        }
        i = i + 1;
    }
    let ghost entries = ledger@;
    let ghost start = bank@;
    let assignments = match assign_workers(num_workers, ledger) {
        Ok(assignments) => assignments,
        Err(e) => {
            return Err(e);
        },
    };
    let mut trial = bank.clone();
    let mut outcomes: Vec<Outcome> = Vec::new();
    let mut k: usize = 0;
    assert(assignments@.skip(0) == assignments@);
    assert(outcome_views(outcomes@) + run_outcomes(start, assignments@) == run_outcomes(
        start,
        assignments@,
    ));
    while k < assignments.len()
        invariant
            *bank == *old(bank),
            bank.wf(),
            start == bank@,
            num_workers > 0,
            entries == ledger@,
            entries.len() == assignments@.len(),
            assignments@ == plan(entries, num_workers as int),
            first_invalid(entries, num_accounts as int) is None,
            num_accounts == start.balances.len(),
            k <= assignments@.len(),
            trial.wf(),
            trial@.balances.len() == num_accounts,
            forall|j: int|
                0 <= j < assignments@.len() ==> (#[trigger] assignments@[j]).entry.valid(
                    num_accounts as int,
                ),
            first_unfit(start, assignments@) == first_unfit(trial@, assignments@.skip(k as int)),
            run_state(start, assignments@) == run_state(trial@, assignments@.skip(k as int)),
            run_outcomes(start, assignments@) == outcome_views(outcomes@) + run_outcomes(
                trial@,
                assignments@.skip(k as int),
            ),
        decreases assignments@.len() - k,
    {
        let a: Assignment = assignments[k];
        assert(assignments@.skip(k as int).drop_first() == assignments@.skip(k as int + 1));
        assert(assignments@.skip(k as int)[0] == a);
        if !trial.fits(&a.entry) {
            return Err(LedgerError::Overflow(a.entry.ledger_id));
        }
        let ghost before = trial@;
        let outcome = trial.execute(a.worker_id, &a.entry);
        proof {
            lemma_step_keeps_accounts(before, a.entry);
            assert(outcome_views(outcomes@.push(outcome)) == outcome_views(outcomes@) + seq![
                outcome@,
            ]);
        }
        outcomes.push(outcome);
        k = k + 1;
    }
    proof {
        lemma_run_result(start, num_workers as int, entries);
    }
    *bank = trial;
    Ok(outcomes)
}

/// Sets up a bank of [`NUM_ACCOUNTS`] accounts, runs the ledger on it with
/// `num_workers` workers as [`run`] does, and reports what the run left
/// behind.
pub fn init_bank_workers(num_workers: i32, ledger: Vec<Ledger>) -> (res: Result<
    FinalReport,
    LedgerError,
>)
    ensures
        match res {
            Ok(report) => run_result(
                BankState::fresh(NUM_ACCOUNTS as nat),
                num_workers as int,
                ledger@,
            ) == Ok::<(BankState, Seq<OutcomeView>), LedgerError>(
                (report.state(), outcome_views(report.outcomes@)),
            ),
            Err(e) => run_result(
                BankState::fresh(NUM_ACCOUNTS as nat),
                num_workers as int,
                ledger@,
            ) == Err::<(BankState, Seq<OutcomeView>), LedgerError>(e),
        },
        res matches Ok(report) ==> {
            &&& report.outcomes@.len() == ledger@.len()
            &&& report.success_count + report.failure_count == ledger@.len()
            &&& total(report.state().balances) == net_flow(outcome_views(report.outcomes@))
            &&& report.state().nonnegative()
        },
{
    proof {
        lemma_fresh_total(NUM_ACCOUNTS as nat);
    }
    let mut bank = Bank::new();
    bank.bank(NUM_ACCOUNTS);
    match run(&mut bank, num_workers, ledger) {
        Ok(outcomes) => Ok(
            FinalReport {
                balances: bank.balances(),
                success_count: bank.success_count(),
                failure_count: bank.failure_count(),
                outcomes,
            },
        ),
        Err(e) => Err(e),
    }
}

/// What a mode code asks for: `0` a deposit, `1` a withdrawal, any other
/// code a transfer.
pub open spec fn mode_of(code: int) -> Mode {
    if code == 0 {
        Mode::Deposit
    } else if code == 1 {
        Mode::Withdraw
    } else {
        Mode::Transfer
    }
}

/// The entry that a line writes: four numbers with white space between them,
/// the paying account, the receiving account, the amount and the mode code,
/// which is `0`, `1` or `2`. White space may open the line, and what follows
/// the fourth number is not read. A line writes no entry if it has fewer
/// fields, if one of the four writes no number, if the mode code is another,
/// or if a bank of [`NUM_ACCOUNTS`] accounts cannot run the entry: the amount
/// is negative, or an account that the entry touches does not exist.
pub open spec fn parse_entry(line: Seq<u8>, ledger_id: i32) -> Option<Ledger> {
    if !has_field(line, 3) {
        None
    } else {
        match (
            parse_number(field(line, 0)),
            parse_number(field(line, 1)),
            parse_number(field(line, 2)),
            parse_number(field(line, 3)),
        ) {
            (Some(from), Some(to), Some(amount), Some(code)) => {
                let entry = Ledger { from, to, amount, mode: mode_of(code as int), ledger_id };
                if 0 <= code <= 2 && entry.valid(NUM_ACCOUNTS as int) {
                    Some(entry)
                } else {
                    None
                }
            },
            _ => None,
        }
    }
}

/// The bytes of every line.
pub open spec fn line_texts(lines: Seq<String>) -> Seq<Seq<u8>> {
    lines.map_values(|l: String| encode_utf8(l@))
}

/// Each of the first `n` lines writes an entry.
pub open spec fn well_formed_until(texts: Seq<Seq<u8>>, n: int) -> bool {
    forall|i: int| 0 <= i < n ==> parse_entry(#[trigger] texts[i], i as i32) is Some
}

/// The entries that the first `n` lines write, numbered from zero in the
/// order of the lines.
pub open spec fn entries_of(texts: Seq<Seq<u8>>, n: int) -> Seq<Ledger> {
    Seq::new(n as nat, |i: int| parse_entry(texts[i], i as i32)->0)
}

/// Tells what a mode code asks for.
pub fn mode_from_code(code: i32) -> (mode: Mode)
    ensures
        mode == mode_of(code as int),
{
    if code == 0 {
        Mode::Deposit
    } else if code == 1 {
        Mode::Withdraw
    } else {
        Mode::Transfer
    }
}

/// Reads the entry that a line writes and gives it the number `ledger_id`.
pub fn parse_line(line: &[u8], ledger_id: i32) -> (entry: Option<Ledger>)
    ensures
        entry == parse_entry(line@, ledger_id),
{
    proof {
        reveal_with_fuel(field_start, 4);
    }
    let start0: usize = find_field_start(line, 0);
    let end0: usize = find_field_end(line, start0);
    let start1: usize = find_field_start(line, end0);
    let end1: usize = find_field_end(line, start1);
    let start2: usize = find_field_start(line, end1);
    let end2: usize = find_field_end(line, start2);
    let start3: usize = find_field_start(line, end2);
    if start3 >= line.len() {
        return None;
    }
    let end3: usize = find_field_end(line, start3);
    let from = read_number(line, start0, end0);
    let to = read_number(line, start1, end1);
    let amount = read_number(line, start2, end2);
    let code = read_number(line, start3, end3);
    match (from, to, amount, code) {
        (Some(from), Some(to), Some(amount), Some(code)) => {
            let entry = Ledger { from, to, amount, mode: mode_from_code(code), ledger_id };
            if 0 <= code && code <= 2 && entry.is_valid(NUM_ACCOUNTS) {
                Some(entry)
            } else {
                None
            }
        },
        _ => None,
    }
}

/// Reads a ledger from its lines and appends its entries to `ledger`,
/// numbered from zero in the order of the lines. Every entry that is appended
/// can be run on a bank of [`NUM_ACCOUNTS`] accounts. Reading stops at the
/// first line that does not write such an entry; the entries of the lines
/// before it have been appended.
pub fn load_ledger(ledger: &mut Vec<Ledger>, lines: &Vec<String>) -> (res: Result<(), LedgerError>)
    requires
        lines@.len() <= i32::MAX,
    ensures
        match res {
            Ok(_) => {
                &&& well_formed_until(line_texts(lines@), lines@.len() as int)
                &&& final(ledger)@ == old(ledger)@ + entries_of(
                    line_texts(lines@),
                    lines@.len() as int,
                )
            },
            Err(LedgerError::MalformedLine(k)) => {
                &&& k < lines@.len()
                &&& well_formed_until(line_texts(lines@), k as int)
                &&& parse_entry(line_texts(lines@)[k as int], k as i32) is None
                &&& final(ledger)@ == old(ledger)@ + entries_of(line_texts(lines@), k as int)
            },
            Err(_) => false,
        },
        final(ledger)@.len() >= old(ledger)@.len(),
        forall|i: int|
            old(ledger)@.len() <= i < final(ledger)@.len() ==> (#[trigger] final(ledger)@[i]).valid(
                NUM_ACCOUNTS as int,
            ),
{
    let ghost texts = line_texts(lines@);
    let mut ledger_id: i32 = 0;
    let mut i: usize = 0;
    assert(ledger@ == old(ledger)@ + entries_of(texts, 0));
    while i < lines.len()
        invariant
            i <= lines@.len() <= i32::MAX,
            ledger_id == i,
            texts == line_texts(lines@),
            well_formed_until(texts, i as int),
            ledger@ == old(ledger)@ + entries_of(texts, i as int),
            forall|j: int|
                old(ledger)@.len() <= j < ledger@.len() ==> (#[trigger] ledger@[j]).valid(
                    NUM_ACCOUNTS as int,
                ),
        decreases lines@.len() - i,
    {
        let line = lines[i].as_str().as_bytes();
        assert(line@ == texts[i as int]);
        match parse_line(line, ledger_id) {
            Some(entry) => {
                assert(entries_of(texts, i as int).push(entry) == entries_of(texts, i + 1));
                ledger.push(entry);
            },
            None => {
                return Err(LedgerError::MalformedLine(i));
            },
        }
        ledger_id = ledger_id + 1;
        i = i + 1;
    }
    Ok(())
}

} // verus!

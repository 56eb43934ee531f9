//! What holds of every run: funds are conserved, no balance turns negative,
//! every entry is counted once, and entries on separate accounts may change
//! places.

use crate::ledger::bank::{lock_order_of, total, BankState, Mode, OutcomeView};
use crate::ledger::{
    first_invalid, first_unfit, plan, run_outcomes, run_result, run_state, Assignment, Ledger,
};
use vstd::prelude::*;

verus! {

/// What one outcome adds to the funds in the bank: the amount of a deposit
/// that completed, minus the amount of a withdrawal that completed, and
/// nothing for a transfer or a failed entry.
pub open spec fn flow(o: OutcomeView) -> int {
    if !o.succeeded {
        0
    } else {
        match o.mode {
            Mode::Deposit => o.amount,
            Mode::Withdraw => -o.amount,
            Mode::Transfer => 0,
        }
    }
}

/// What a sequence of outcomes adds to the funds in the bank.
pub open spec fn net_flow(outcomes: Seq<OutcomeView>) -> int
    decreases outcomes.len(),
{
    if outcomes.len() == 0 {
        0
    } else {
        flow(outcomes[0]) + net_flow(outcomes.drop_first())
    }
}

/// How many of the outcomes are of entries that completed.
pub open spec fn successes(outcomes: Seq<OutcomeView>) -> int
    decreases outcomes.len(),
{
    if outcomes.len() == 0 {
        0
    } else {
        (if outcomes[0].succeeded {
            1int
        } else {
            0int
        }) + successes(outcomes.drop_first())
    }
}

/// Every assignment holds an entry that can be run on a bank with
/// `num_accounts` accounts.
pub open spec fn all_valid(assignments: Seq<Assignment>, num_accounts: int) -> bool {
    forall|i: int|
        0 <= i < assignments.len() ==> (#[trigger] assignments[i]).entry.valid(num_accounts)
}

/// The accounts that an entry reads or changes.
pub open spec fn touches(e: Ledger, id: int) -> bool {
    id == e.from || (e.mode == Mode::Transfer && id == e.to)
}

/// No account is touched by both entries.
pub open spec fn disjoint(a: Ledger, b: Ledger) -> bool {
    forall|id: int| !(touches(a, id) && touches(b, id))
}

/// Changing one balance changes the sum of the balances by as much.
pub proof fn lemma_total_update(balances: Seq<int>, id: int, value: int)
    requires
        0 <= id < balances.len(),
    ensures
        total(balances.update(id, value)) == total(balances) - balances[id] + value,
    decreases balances.len(),
{
    let updated = balances.update(id, value);
    if id == balances.len() - 1 {
        assert(updated.drop_last() == balances.drop_last());
    } else {
        assert(updated.drop_last() == balances.drop_last().update(id, value));
        lemma_total_update(balances.drop_last(), id, value);
    }
}

/// Running one entry changes the funds in the bank by the flow of its
/// outcome: a deposit adds its amount, a withdrawal that completes takes its
/// amount away, and a transfer or a failed entry changes nothing.
pub proof fn lemma_step_conserves(s: BankState, worker_id: int, e: Ledger)
    requires
        e.valid(s.balances.len() as int),
    ensures
        total(s.step(e).balances) == total(s.balances) + flow(s.outcome(worker_id, e)),
{
    let from = e.from as int;
    let amount = e.amount as int;
    match e.mode {
        Mode::Deposit => {
            lemma_total_update(s.balances, from, s.balances[from] + amount);
        },
        Mode::Withdraw => {
            if s.covers(from, amount) {
                lemma_total_update(s.balances, from, s.balances[from] - amount);
            }
        },
        Mode::Transfer => {
            if s.covers(from, amount) {
                let to = e.to as int;
                let debited = s.apply_delta(from, -amount);
                lemma_total_update(s.balances, from, s.balances[from] - amount);
                lemma_total_update(debited.balances, to, debited.balances[to] + amount);
            }
        },
    }
}

/// Running one entry on a bank without a negative balance leaves no balance
/// negative, and neither adds an account nor removes one.
pub proof fn lemma_step_nonnegative(s: BankState, e: Ledger)
    requires
        s.nonnegative(),
        e.valid(s.balances.len() as int),
    ensures
        s.step(e).nonnegative(),
        s.step(e).balances.len() == s.balances.len(),
{
    match e.mode {
        Mode::Deposit => lemma_deposit(s, e.from as int, e.amount as int),
        Mode::Withdraw => lemma_withdraw(s, e.from as int, e.amount as int),
        Mode::Transfer => lemma_transfer(s, e.from as int, e.to as int, e.amount as int),
    }
}

/// Running one entry counts it once: as completed if its outcome says so, and
/// as failed otherwise.
pub proof fn lemma_step_counts(s: BankState, worker_id: int, e: Ledger)
    ensures
        s.step(e).succ == s.succ + if s.outcome(worker_id, e).succeeded {
            1int
        } else {
            0int
        },
        s.step(e).fail == s.fail + if s.outcome(worker_id, e).succeeded {
            0int
        } else {
            1int
        },
{
}

/// After the first entry of a run the bank has the accounts it had, so the
/// entries that are left can still be run.
pub proof fn lemma_rest_valid(s: BankState, assignments: Seq<Assignment>)
    requires
        all_valid(assignments, s.balances.len() as int),
        assignments.len() > 0,
    ensures
        s.step(assignments[0].entry).balances.len() == s.balances.len(),
        all_valid(assignments.drop_first(), s.step(assignments[0].entry).balances.len() as int),
{
    let rest = assignments.drop_first();
    lemma_step_keeps_accounts(s, assignments[0].entry);
    assert forall|i: int| 0 <= i < rest.len() implies (#[trigger] rest[i]).entry.valid(
        s.balances.len() as int,
    ) by {
        assert(rest[i] == assignments[i + 1]);
    }
}

/// A run of two entries is the one step after the other.
pub proof fn lemma_run_two(s: BankState, a: Assignment, b: Assignment)
    ensures
        run_state(s, seq![a, b]) == s.step(a.entry).step(b.entry),
{
    let last = s.step(a.entry).step(b.entry);
    assert(seq![a, b].drop_first() == seq![b]);
    assert(seq![b].drop_first() == Seq::<Assignment>::empty());
    assert(run_state(last, Seq::<Assignment>::empty()) == last);
    assert(run_state(s.step(a.entry), seq![b]) == last);
}

/// What holds of every deposit of an amount that is not negative into an
/// account that exists: no balance turns negative, the funds in the bank grow
/// by the amount, and the deposit is counted once, as completed.
pub proof fn lemma_deposit(s: BankState, id: int, amount: int)
    requires
        s.nonnegative(),
        s.has_account(id),
        amount >= 0,
    ensures
        s.deposit(id, amount).nonnegative(),
        s.deposit(id, amount).balances.len() == s.balances.len(),
        total(s.deposit(id, amount).balances) == total(s.balances) + amount,
        s.deposit(id, amount).succ == s.succ + 1,
        s.deposit(id, amount).fail == s.fail,
{
    let t = s.deposit(id, amount);
    lemma_total_update(s.balances, id, s.balances[id] + amount);
    assert forall|i: int| 0 <= i < t.balances.len() implies 0 <= #[trigger] t.balances[i] by {
        assert(0 <= s.balances[i]);
        assert(0 <= s.balances[id]);
    }
}

/// What holds of every withdrawal of an amount that is not negative from an
/// account that exists, whether it completes or fails: no balance turns
/// negative; the funds in the bank fall by the amount if the account covers
/// it and stay as they are otherwise; and the withdrawal is counted once, as
/// completed in the first case and as failed in the second.
pub proof fn lemma_withdraw(s: BankState, id: int, amount: int)
    requires
        s.nonnegative(),
        s.has_account(id),
        amount >= 0,
    ensures
        s.withdraw(id, amount).nonnegative(),
        s.withdraw(id, amount).balances.len() == s.balances.len(),
        s.covers(id, amount) ==> total(s.withdraw(id, amount).balances) == total(s.balances)
            - amount,
        !s.covers(id, amount) ==> s.withdraw(id, amount).balances == s.balances,
        s.withdraw(id, amount).succ + s.withdraw(id, amount).fail == s.succ + s.fail + 1,
        s.withdraw(id, amount).succ == s.succ + if s.covers(id, amount) {
            1int
        } else {
            0int
        },
        s.withdraw(id, amount).fail >= s.fail,
{
    let t = s.withdraw(id, amount);
    if s.covers(id, amount) {
        lemma_total_update(s.balances, id, s.balances[id] - amount);
    }
    assert forall|i: int| 0 <= i < t.balances.len() implies 0 <= #[trigger] t.balances[i] by {
        assert(0 <= s.balances[i]);
    }
}

/// What holds of every transfer of an amount that is not negative between
/// accounts that exist, whether it completes or fails: no balance turns
/// negative, so the paying account is never taken below zero; the funds in
/// the bank stay as they are; a transfer that fails changes no balance; and
/// the transfer is counted once, as completed if the paying account covers
/// the amount and as failed otherwise.
pub proof fn lemma_transfer(s: BankState, src_id: int, dest_id: int, amount: int)
    requires
        s.nonnegative(),
        s.has_account(src_id),
        s.has_account(dest_id),
        amount >= 0,
    ensures
        s.transfer(src_id, dest_id, amount).nonnegative(),
        s.transfer(src_id, dest_id, amount).balances.len() == s.balances.len(),
        total(s.transfer(src_id, dest_id, amount).balances) == total(s.balances),
        !s.covers(src_id, amount) ==> s.transfer(src_id, dest_id, amount).balances == s.balances,
        s.transfer(src_id, dest_id, amount).succ + s.transfer(src_id, dest_id, amount).fail
            == s.succ + s.fail + 1,
        s.transfer(src_id, dest_id, amount).succ == s.succ + if s.covers(src_id, amount) {
            1int
        } else {
            0int
        },
        s.transfer(src_id, dest_id, amount).fail >= s.fail,
{
    let t = s.transfer(src_id, dest_id, amount);
    if s.covers(src_id, amount) {
        let debited = s.apply_delta(src_id, -amount);
        lemma_total_update(s.balances, src_id, s.balances[src_id] - amount);
        lemma_total_update(debited.balances, dest_id, debited.balances[dest_id] + amount);
        assert forall|i: int| 0 <= i < t.balances.len() implies 0 <= #[trigger] t.balances[i] by {
            assert(0 <= s.balances[i]);
            assert(0 <= debited.balances[i]);
            assert(0 <= debited.balances[dest_id]);
        }
    }
}

/// Funds are conserved over a run, whatever the order of the entries and
/// whoever runs them: the sum of the balances afterwards is the sum before,
/// plus the deposits that completed, minus the withdrawals that completed.
pub proof fn lemma_run_conserves(s: BankState, assignments: Seq<Assignment>)
    requires
        all_valid(assignments, s.balances.len() as int),
    ensures
        total(run_state(s, assignments).balances) == total(s.balances) + net_flow(
            run_outcomes(s, assignments),
        ),
    decreases assignments.len(),
{
    if assignments.len() > 0 {
        let first = assignments[0];
        let rest = assignments.drop_first();
        let next = s.step(first.entry);
        let outcome = s.outcome(first.worker_id as int, first.entry);
        let later = run_outcomes(next, rest);
        lemma_step_conserves(s, first.worker_id as int, first.entry);
        lemma_rest_valid(s, assignments);
        lemma_run_conserves(next, rest);
        assert((seq![outcome] + later).drop_first() == later);
    }
}

/// Running one entry neither adds an account nor removes one.
pub proof fn lemma_step_keeps_accounts(s: BankState, e: Ledger)
    requires
        e.valid(s.balances.len() as int),
    ensures
        s.step(e).balances.len() == s.balances.len(),
{
    let from = e.from as int;
    let amount = e.amount as int;
    if e.mode == Mode::Transfer && s.covers(from, amount) {
        let debited = s.apply_delta(from, -amount);
        assert(debited.balances.len() == s.balances.len());
    }
}

/// Every entry of a run is counted once: there is one outcome for each
/// assignment, the count of completed entries grows by the outcomes that
/// completed, and the count of failed entries by the others.
pub proof fn lemma_run_counts(s: BankState, assignments: Seq<Assignment>)
    ensures
        run_outcomes(s, assignments).len() == assignments.len(),
        run_state(s, assignments).succ == s.succ + successes(run_outcomes(s, assignments)),
        run_state(s, assignments).fail == s.fail + assignments.len() - successes(
            run_outcomes(s, assignments),
        ),
        run_state(s, assignments).succ + run_state(s, assignments).fail == s.succ + s.fail
            + assignments.len(),
    decreases assignments.len(),
{
    if assignments.len() > 0 {
        let first = assignments[0];
        let rest = assignments.drop_first();
        let next = s.step(first.entry);
        let outcome = s.outcome(first.worker_id as int, first.entry);
        let later = run_outcomes(next, rest);
        lemma_step_counts(s, first.worker_id as int, first.entry);
        lemma_run_counts(next, rest);
        assert((seq![outcome] + later).drop_first() == later);
    }
}

/// No balance is negative at any point of a run: not after the first entry,
/// not after any number of them, and not at the end.
pub proof fn lemma_run_nonnegative(s: BankState, assignments: Seq<Assignment>, done: int)
    requires
        s.nonnegative(),
        all_valid(assignments, s.balances.len() as int),
        0 <= done <= assignments.len(),
    ensures
        run_state(s, assignments.take(done)).nonnegative(),
        run_state(s, assignments.take(done)).balances.len() == s.balances.len(),
    decreases done,
{
    let prefix = assignments.take(done);
    if done > 0 {
        let first = assignments[0];
        let rest = assignments.drop_first();
        let next = s.step(first.entry);
        lemma_step_nonnegative(s, first.entry);
        lemma_rest_valid(s, assignments);
        lemma_run_nonnegative(next, rest, done - 1);
        assert(prefix[0] == first);
        assert(prefix.drop_first() == rest.take(done - 1));
    }
}

/// A run of two parts is the run of the second part on what the first part
/// left behind.
pub proof fn lemma_run_in_parts(s: BankState, first: Seq<Assignment>, second: Seq<Assignment>)
    ensures
        run_state(s, first + second) == run_state(run_state(s, first), second),
    decreases first.len(),
{
    if first.len() == 0 {
        assert(first + second == second);
    } else {
        assert((first + second)[0] == first[0]);
        assert((first + second).drop_first() == first.drop_first() + second);
        lemma_run_in_parts(s.step(first[0].entry), first.drop_first(), second);
    }
}

/// Two entries that touch separate accounts may run in either order: the bank
/// ends in the same state, and neither entry's outcome depends on whether the
/// other ran before it.
pub proof fn lemma_disjoint_entries_commute(s: BankState, worker_id: int, a: Ledger, b: Ledger)
    requires
        a.valid(s.balances.len() as int),
        b.valid(s.balances.len() as int),
        disjoint(a, b),
    ensures
        s.step(a).step(b) == s.step(b).step(a),
        s.step(b).outcome(worker_id, a) == s.outcome(worker_id, a),
        s.step(a).outcome(worker_id, b) == s.outcome(worker_id, b),
{
    let a_from = a.from as int;
    let b_from = b.from as int;
    assert(!(touches(a, a_from) && touches(b, a_from)));
    assert(!(touches(a, b_from) && touches(b, b_from)));
    if a.mode == Mode::Transfer {
        assert(!(touches(a, a.to as int) && touches(b, a.to as int)));
    }
    if b.mode == Mode::Transfer {
        assert(!(touches(a, b.to as int) && touches(b, b.to as int)));
    }
    lemma_step_keeps_accounts(s, a);
    lemma_step_keeps_accounts(s, b);
    assert(s.step(a).step(b).balances =~= s.step(b).step(a).balances);
}

/// In a run, two neighbouring entries that touch separate accounts may change
/// places, and the bank ends in the same state.
pub proof fn lemma_swap_neighbours(
    s: BankState,
    before: Seq<Assignment>,
    a: Assignment,
    b: Assignment,
    after: Seq<Assignment>,
)
    requires
        all_valid(before, s.balances.len() as int),
        a.entry.valid(s.balances.len() as int),
        b.entry.valid(s.balances.len() as int),
        disjoint(a.entry, b.entry),
    ensures
        run_state(s, before + seq![a, b] + after) == run_state(s, before + seq![b, a] + after),
{
    let mid = run_state(s, before);
    assert(before.take(before.len() as int) == before);
    lemma_run_keeps_accounts(s, before);
    lemma_disjoint_entries_commute(mid, 0, a.entry, b.entry);
    lemma_run_two(mid, a, b);
    lemma_run_two(mid, b, a);
    lemma_run_in_parts(s, before, seq![a, b]);
    lemma_run_in_parts(s, before, seq![b, a]);
    lemma_run_in_parts(s, before + seq![a, b], after);
    lemma_run_in_parts(s, before + seq![b, a], after);
}

/// A run neither adds an account nor removes one.
pub proof fn lemma_run_keeps_accounts(s: BankState, assignments: Seq<Assignment>)
    requires
        all_valid(assignments, s.balances.len() as int),
    ensures
        run_state(s, assignments).balances.len() == s.balances.len(),
    decreases assignments.len(),
{
    if assignments.len() > 0 {
        let rest = assignments.drop_first();
        let next = s.step(assignments[0].entry);
        lemma_rest_valid(s, assignments);
        lemma_run_keeps_accounts(next, rest);
    }
}

/// `first_invalid` finds nothing exactly when every entry can be run, and
/// what it finds is an entry that cannot be run and has only entries that can
/// be run before it.
pub proof fn lemma_first_invalid(ledger: Seq<Ledger>, num_accounts: int)
    ensures
        first_invalid(ledger, num_accounts) is None <==> forall|i: int|
            0 <= i < ledger.len() ==> (#[trigger] ledger[i]).valid(num_accounts),
        first_invalid(ledger, num_accounts) matches Some(e) ==> exists|i: int|
            0 <= i < ledger.len() && #[trigger] ledger[i] == e && !e.valid(num_accounts) && forall|
                j: int,
            |
                0 <= j < i ==> (#[trigger] ledger[j]).valid(num_accounts),
    decreases ledger.len(),
{
    if ledger.len() > 0 {
        let rest = ledger.drop_first();
        lemma_first_invalid(rest, num_accounts);
        if ledger[0].valid(num_accounts) {
            assert forall|i: int| 0 <= i < rest.len() implies (#[trigger] rest[i]) == ledger[i
                + 1] by {}
            if first_invalid(rest, num_accounts) is None {
                assert forall|i: int| 0 <= i < ledger.len() implies (#[trigger] ledger[i]).valid(
                    num_accounts,
                ) by {
                    if i > 0 {
                        assert(rest[i - 1].valid(num_accounts));
                    }
                }
            } else {
                let e = first_invalid(rest, num_accounts)->0;
                let i = choose|i: int|
                    0 <= i < rest.len() && #[trigger] rest[i] == e && !e.valid(num_accounts)
                        && forall|j: int| 0 <= j < i ==> (#[trigger] rest[j]).valid(num_accounts);
                assert(ledger[i + 1] == e);
                assert forall|j: int| 0 <= j < i + 1 implies (#[trigger] ledger[j]).valid(
                    num_accounts,
                ) by {
                    if j > 0 {
                        assert(rest[j - 1].valid(num_accounts));
                    }
                }
            }
        } else {
            assert(ledger[0] == ledger[0]);
        }
    }
}

/// The plan hands out every entry of the ledger once, so where every entry
/// can be run, every assignment can.
pub proof fn lemma_plan_valid(ledger: Seq<Ledger>, num_workers: int, num_accounts: int)
    requires
        first_invalid(ledger, num_accounts) is None,
    ensures
        all_valid(plan(ledger, num_workers), num_accounts),
        plan(ledger, num_workers).len() == ledger.len(),
{
    lemma_first_invalid(ledger, num_accounts);
    let assignments = plan(ledger, num_workers);
    assert forall|i: int| 0 <= i < assignments.len() implies (#[trigger] assignments[i]).entry.valid(
        num_accounts,
    ) by {
        assert(assignments[i].entry == ledger[ledger.len() - 1 - i]);
    }
}

/// A bank that has run nothing holds no funds.
pub proof fn lemma_fresh_total(n: nat)
    ensures
        total(BankState::fresh(n).balances) == 0,
        BankState::fresh(n).nonnegative(),
    decreases n,
{
    if n > 0 {
        assert(BankState::fresh(n).balances.drop_last() == BankState::fresh(
            (n - 1) as nat,
        ).balances);
        lemma_fresh_total((n - 1) as nat);
    }
}

/// What holds of every ledger that was run, with any number of workers: there
/// is one outcome for each entry, the two counters together grew by the number
/// of entries, the funds in the bank changed by the deposits and withdrawals
/// that completed, and no balance is negative.
pub proof fn lemma_run_result(s: BankState, num_workers: int, ledger: Seq<Ledger>)
    requires
        s.nonnegative(),
        run_result(s, num_workers, ledger) is Ok,
    ensures
        ({
            let (t, outcomes) = run_result(s, num_workers, ledger)->Ok_0;
            &&& outcomes.len() == ledger.len()
            &&& t.succ == s.succ + successes(outcomes)
            &&& t.fail == s.fail + ledger.len() - successes(outcomes)
            &&& t.succ + t.fail == s.succ + s.fail + ledger.len()
            &&& total(t.balances) == total(s.balances) + net_flow(outcomes)
            &&& t.nonnegative()
            &&& t.balances.len() == s.balances.len()
        }),
{
    let assignments = plan(ledger, num_workers);
    lemma_plan_valid(ledger, num_workers, s.balances.len() as int);
    lemma_run_counts(s, assignments);
    lemma_run_conserves(s, assignments);
    lemma_run_nonnegative(s, assignments, assignments.len() as int);
    assert(assignments.take(assignments.len() as int) == assignments);
}

/// The entries of the assignments, in their order.
pub open spec fn entries(assignments: Seq<Assignment>) -> Seq<Ledger> {
    assignments.map_values(|a: Assignment| a.entry)
}

/// Who runs an entry does not matter to the bank: two runs of the same
/// entries in the same order leave the same state, and stop at the same entry
/// if one does not fit.
pub proof fn lemma_workers_do_not_matter(
    s: BankState,
    first: Seq<Assignment>,
    second: Seq<Assignment>,
)
    requires
        entries(first) == entries(second),
    ensures
        run_state(s, first) == run_state(s, second),
        first_unfit(s, first) == first_unfit(s, second),
    decreases first.len(),
{
    assert(first.len() == entries(first).len());
    assert(second.len() == entries(second).len());
    if first.len() > 0 {
        assert(first[0].entry == entries(first)[0]);
        assert(second[0].entry == entries(second)[0]);
        assert(entries(first.drop_first()) == entries(second.drop_first())) by {
            assert forall|i: int| 0 <= i < first.len() - 1 implies entries(first.drop_first())[i]
                == entries(second.drop_first())[i] by {
                assert(first.drop_first()[i].entry == entries(first)[i + 1]);
                assert(second.drop_first()[i].entry == entries(second)[i + 1]);
            }
        }
        lemma_workers_do_not_matter(s.step(first[0].entry), first.drop_first(), second.drop_first());
    }
}

/// A ledger run with any number of workers leaves the bank as a run with any
/// other number does, one worker among them, and is refused for the same
/// reason where it is refused.
pub proof fn lemma_any_number_of_workers(s: BankState, ledger: Seq<Ledger>, n: int, m: int)
    requires
        n > 0,
        m > 0,
    ensures
        match (run_result(s, n, ledger), run_result(s, m, ledger)) {
            (Ok(a), Ok(b)) => a.0 == b.0,
            (Err(x), Err(y)) => x == y,
            _ => false,
        },
{
    assert(entries(plan(ledger, n)) == entries(plan(ledger, m)));
    lemma_workers_do_not_matter(s, plan(ledger, n), plan(ledger, m));
}

/// The accounts of a transfer are taken in one order, whichever of the two
/// pays: ascending, and an account that pays itself is taken once.
pub proof fn lemma_lock_order_is_fixed(a: int, b: int)
    ensures
        lock_order_of(a, b) == lock_order_of(b, a),
        forall|i: int, j: int|
            0 <= i < j < lock_order_of(a, b).len() ==> lock_order_of(a, b)[i] < lock_order_of(
                a,
                b,
            )[j],
        lock_order_of(a, b).contains(a),
        lock_order_of(a, b).contains(b),
        forall|id: int| lock_order_of(a, b).contains(id) ==> id == a || id == b,
{
    let order = lock_order_of(a, b);
    if a == b {
        assert(order[0] == a);
    } else if a < b {
        assert(order[0] == a && order[1] == b);
    } else {
        assert(order[0] == b && order[1] == a);
    }
}

} // verus!

//! Decimal text for the numbers that appear in messages and reports.

use vstd::prelude::*;
use vstd::string::*;

verus! {

/// The character that stands for a single decimal digit.
pub open spec fn digit_char(d: int) -> char {
    if d == 0 {
        '0'
    } else if d == 1 {
        '1'
    } else if d == 2 {
        '2'
    } else if d == 3 {
        '3'
    } else if d == 4 {
        '4'
    } else if d == 5 {
        '5'
    } else if d == 6 {
        '6'
    } else if d == 7 {
        '7'
    } else if d == 8 {
        '8'
    } else {
        '9'
    }
}

/// The decimal digits of a natural number, most significant first, without
/// leading zeros.
pub open spec fn decimal_nat(n: nat) -> Seq<char>
    decreases n,
{
    if n < 10 {
        seq![digit_char(n as int)]
    } else {
        decimal_nat(n / 10).push(digit_char((n % 10) as int))
    }
}

/// The decimal text of an integer: a minus sign for a negative number, then
/// its digits.
pub open spec fn decimal(n: int) -> Seq<char> {
    if n < 0 {
        seq!['-'] + decimal_nat((-n) as nat)
    } else {
        decimal_nat(n as nat)
    }
}

fn digit_str(d: u32) -> (s: &'static str)
    requires
        d < 10,
    ensures
        s@ == seq![digit_char(d as int)],
{
    proof {
        reveal_strlit("0");
        reveal_strlit("1");
        reveal_strlit("2");
        reveal_strlit("3");
        reveal_strlit("4");
        reveal_strlit("5");
        reveal_strlit("6");
        reveal_strlit("7");
        reveal_strlit("8");
        reveal_strlit("9");
    }
    if d == 0 {
        "0"
    } else if d == 1 {
        "1"
    } else if d == 2 {
        "2"
    } else if d == 3 {
        "3"
    } else if d == 4 {
        "4"
    } else if d == 5 {
        "5"
    } else if d == 6 {
        "6"
    } else if d == 7 {
        "7"
    } else if d == 8 {
        "8"
    } else {
        "9"
    }
}

fn append_decimal_nat(s: &mut String, n: u32)
    ensures
        final(s)@ == old(s)@ + decimal_nat(n as nat),
    decreases n,
{
    if n >= 10 {
        append_decimal_nat(s, n / 10);
    }
    s.append(digit_str(n % 10));
}

/// Appends the decimal text of `n` to `s`.
pub fn append_decimal(s: &mut String, n: i32)
    ensures
        final(s)@ == old(s)@ + decimal(n as int),
{
    if n < 0 {
        let m: i64 = -(n as i64);
        s.append("-");
        proof {
            reveal_strlit("-");
        }
        append_decimal_nat(s, m as u32);
    } else {
        append_decimal_nat(s, n as u32);
    }
}

/// How every message opens: the worker, whether it completed the entry, and
/// the entry's number.
pub open spec fn headline(worker_id: int, ledger_id: int, succeeded: bool) -> Seq<char> {
    "Worker "@ + decimal(worker_id) + (if succeeded {
        " completed ledger "@
    } else {
        " failed to complete ledger "@
    }) + decimal(ledger_id) + ": "@
}

/// The message for a deposit, which always completes.
pub open spec fn deposit_message(worker_id: int, ledger_id: int, amount: int, account_id: int) -> Seq<
    char,
> {
    headline(worker_id, ledger_id, true) + "deposit "@ + decimal(amount) + " into account "@
        + decimal(account_id)
}

/// The message for a withdrawal that completed or failed.
pub open spec fn withdraw_message(
    worker_id: int,
    ledger_id: int,
    amount: int,
    account_id: int,
    succeeded: bool,
) -> Seq<char> {
    headline(worker_id, ledger_id, succeeded) + "withdraw "@ + decimal(amount)
        + " from account "@ + decimal(account_id)
}

/// The message for a transfer that completed or failed.
pub open spec fn transfer_message(
    worker_id: int,
    ledger_id: int,
    amount: int,
    src_id: int,
    dest_id: int,
    succeeded: bool,
) -> Seq<char> {
    headline(worker_id, ledger_id, succeeded) + "transfer "@ + decimal(amount)
        + " from account "@ + decimal(src_id) + " to account "@ + decimal(dest_id)
}

/// One line of the account listing.
pub open spec fn account_line(account_id: int, balance: int) -> Seq<char> {
    "ID# "@ + decimal(account_id) + " | "@ + decimal(balance)
}

/// The line that closes the account listing.
pub open spec fn counters_line(succeeded: int, failed: int) -> Seq<char> {
    "Success: "@ + decimal(succeeded) + " Fails: "@ + decimal(failed)
}

fn headline_text(worker_id: i32, ledger_id: i32, succeeded: bool) -> (s: String)
    ensures
        s@ == headline(worker_id as int, ledger_id as int, succeeded),
{
    let mut s = String::from_str("Worker ");
    append_decimal(&mut s, worker_id);
    if succeeded {
        s.append(" completed ledger ");
    } else {
        s.append(" failed to complete ledger ");
    }
    append_decimal(&mut s, ledger_id);
    s.append(": ");
    s
}

/// Writes the message for a deposit.
pub fn deposit_text(worker_id: i32, ledger_id: i32, amount: i32, account_id: i32) -> (s: String)
    ensures
        s@ == deposit_message(worker_id as int, ledger_id as int, amount as int, account_id as int),
{
    let mut s = headline_text(worker_id, ledger_id, true);
    s.append("deposit ");
    append_decimal(&mut s, amount);
    s.append(" into account ");
    append_decimal(&mut s, account_id);
    s
}

/// Writes the message for a withdrawal.
pub fn withdraw_text(
    worker_id: i32,
    ledger_id: i32,
    amount: i32,
    account_id: i32,
    succeeded: bool,
) -> (s: String)
    ensures
        s@ == withdraw_message(
            worker_id as int,
            ledger_id as int,
            amount as int,
            account_id as int,
            succeeded,
        ),
{
    let mut s = headline_text(worker_id, ledger_id, succeeded);
    s.append("withdraw ");
    append_decimal(&mut s, amount);
    s.append(" from account ");
    append_decimal(&mut s, account_id);
    s
}

/// Writes the message for a transfer.
pub fn transfer_text(
    worker_id: i32,
    ledger_id: i32,
    amount: i32,
    src_id: i32,
    dest_id: i32,
    succeeded: bool,
) -> (s: String)
    ensures
        s@ == transfer_message(
            worker_id as int,
            ledger_id as int,
            amount as int,
            src_id as int,
            dest_id as int,
            succeeded,
        ),
{
    let mut s = headline_text(worker_id, ledger_id, succeeded);
    s.append("transfer ");
    append_decimal(&mut s, amount);
    s.append(" from account ");
    append_decimal(&mut s, src_id);
    s.append(" to account ");
    append_decimal(&mut s, dest_id);
    s
}

/// Writes one line of the account listing.
pub fn account_text(account_id: i32, balance: i32) -> (s: String)
    ensures
        s@ == account_line(account_id as int, balance as int),
{
    let mut s = String::from_str("ID# ");
    append_decimal(&mut s, account_id);
    s.append(" | ");
    append_decimal(&mut s, balance);
    s
}

/// Writes the line that closes the account listing.
pub fn counters_text(succeeded: i32, failed: i32) -> (s: String)
    ensures
        s@ == counters_line(succeeded as int, failed as int),
{
    let mut s = String::from_str("Success: ");
    append_decimal(&mut s, succeeded);
    s.append(" Fails: ");
    append_decimal(&mut s, failed);
    s
}

} // verus!

use bank_ledger::ledger::bank::Mode;
use bank_ledger::ledger::parse::{find_field_end, find_field_start, is_space_byte, read_number};
use bank_ledger::ledger::text::{
    account_text, append_decimal, counters_text, deposit_text, transfer_text, withdraw_text,
};
use bank_ledger::ledger::{
    init_bank_workers, load_ledger, mode_from_code, parse_line, Ledger, LedgerError, NUM_ACCOUNTS,
};

fn decimal(n: i32) -> String {
    let mut s = String::new();
    append_decimal(&mut s, n);
    s
}

#[test]
fn append_decimal_writes_what_display_writes() {
    for n in [0, 1, 9, 10, 11, 99, 100, 101, 12345, 2147483647, -1, -9, -10, -2147483647, -2147483648] {
        assert_eq!(decimal(n), format!("{}", n));
    }
}

#[test]
fn append_decimal_keeps_what_was_there() {
    let mut s = String::from("x=");
    append_decimal(&mut s, -407);
    assert_eq!(s, "x=-407");
}

#[test]
fn messages_have_their_wording() {
    assert_eq!(deposit_text(1, 2, 3, 4), "Worker 1 completed ledger 2: deposit 3 into account 4");
    assert_eq!(
        withdraw_text(1, 2, 3, 4, true),
        "Worker 1 completed ledger 2: withdraw 3 from account 4"
    );
    assert_eq!(
        withdraw_text(10, 20, 30, 4, false),
        "Worker 10 failed to complete ledger 20: withdraw 30 from account 4"
    );
    assert_eq!(
        transfer_text(1, 2, 3, 4, 5, true),
        "Worker 1 completed ledger 2: transfer 3 from account 4 to account 5"
    );
    assert_eq!(
        transfer_text(1, 2, 3, 4, 5, false),
        "Worker 1 failed to complete ledger 2: transfer 3 from account 4 to account 5"
    );
    assert_eq!(account_text(7, 1200), "ID# 7 | 1200");
    assert_eq!(counters_text(3, 14), "Success: 3 Fails: 14");
}

#[test]
fn is_space_byte_knows_white_space() {
    for b in [b' ', b'\t', b'\n', 11u8, 12u8, b'\r'] {
        assert!(is_space_byte(b), "{}", b);
    }
    for b in [0u8, 8, 14, 31, 33, b'0', b'-', b'a', 160, 255] {
        assert!(!is_space_byte(b), "{}", b);
    }
}

#[test]
fn find_field_end_stops_at_the_first_white_space() {
    let line = b"12 345 \t6";
    assert_eq!(find_field_end(line, 0), 2);
    assert_eq!(find_field_end(line, 2), 2);
    assert_eq!(find_field_end(line, 3), 6);
    assert_eq!(find_field_end(line, 6), 6);
    assert_eq!(find_field_end(line, 7), 7);
    assert_eq!(find_field_end(line, 8), 9);
    assert_eq!(find_field_end(line, 9), 9);
}

#[test]
fn find_field_start_skips_all_the_white_space() {
    let line = b"  12 \t 345  ";
    assert_eq!(find_field_start(line, 0), 2);
    assert_eq!(find_field_start(line, 2), 2);
    assert_eq!(find_field_start(line, 4), 7);
    assert_eq!(find_field_start(line, 10), 12);
    assert_eq!(find_field_start(line, 12), 12);
}

#[test]
fn read_number_reads_what_an_i32_parses() {
    for text in [
        "0", "7", "007", "+5", "-5", "-0", "2147483647", "-2147483648", "2147483648",
        "-2147483649", "99999999999999999999", "", "+", "-", "1a", "a1", " 1", "1 ", "--1", "+-1",
        "1.5", "0000000000000000000012",
    ] {
        let bytes = text.as_bytes();
        assert_eq!(read_number(bytes, 0, bytes.len()), text.parse::<i32>().ok(), "{:?}", text);
    }
}

#[test]
fn read_number_reads_a_part_of_the_line() {
    let line = b"ab-42cd";
    assert_eq!(read_number(line, 2, 5), Some(-42));
    assert_eq!(read_number(line, 3, 5), Some(42));
    assert_eq!(read_number(line, 2, 6), None);
    assert_eq!(read_number(line, 4, 4), None);
}

#[test]
fn mode_from_code_maps_the_codes() {
    assert_eq!(mode_from_code(0), Mode::Deposit);
    assert_eq!(mode_from_code(1), Mode::Withdraw);
    assert_eq!(mode_from_code(2), Mode::Transfer);
    assert_eq!(mode_from_code(3), Mode::Transfer);
    assert_eq!(mode_from_code(-1), Mode::Transfer);
}

#[test]
fn parse_line_reads_four_fields() {
    assert_eq!(
        parse_line(b"3 4 250 2", 6),
        Some(Ledger { from: 3, to: 4, amount: 250, mode: Mode::Transfer, ledger_id: 6 })
    );
    assert_eq!(
        parse_line(b"0 0 0 0", 0),
        Some(Ledger { from: 0, to: 0, amount: 0, mode: Mode::Deposit, ledger_id: 0 })
    );
    assert_eq!(
        parse_line(b"+9 +2 3 1", 1),
        Some(Ledger { from: 9, to: 2, amount: 3, mode: Mode::Withdraw, ledger_id: 1 })
    );
}

#[test]
fn parse_line_takes_any_white_space_between_fields() {
    let expected = Some(Ledger { from: 0, to: 1, amount: 50, mode: Mode::Transfer, ledger_id: 0 });
    assert_eq!(parse_line(b"0 1 50 2", 0), expected);
    assert_eq!(parse_line(b"0  1 50 2", 0), expected);
    assert_eq!(parse_line(b"0\t1\t50\t2", 0), expected);
    assert_eq!(parse_line(b"0 \t 1\t\t50   2", 0), expected);
    assert_eq!(parse_line(b" 0 1 50 2", 0), expected);
    assert_eq!(parse_line(b"\t 0 1 50 2 \t", 0), expected);
    assert_eq!(parse_line(b"0 1 50 2\r", 0), expected);
    assert_eq!(
        parse_line(b"1  2 3 0", 4),
        Some(Ledger { from: 1, to: 2, amount: 3, mode: Mode::Deposit, ledger_id: 4 })
    );
    assert_eq!(
        parse_line(b"1\t2\t3\t0", 4),
        Some(Ledger { from: 1, to: 2, amount: 3, mode: Mode::Deposit, ledger_id: 4 })
    );
    assert_eq!(
        parse_line(b" 1 2 3 0", 4),
        Some(Ledger { from: 1, to: 2, amount: 3, mode: Mode::Deposit, ledger_id: 4 })
    );
}

#[test]
fn parse_line_splits_as_split_whitespace_does() {
    for text in ["0 1 50 2", "0  1 50 2", "0\t1\t50\t2", " 0 1 50 2 ", "7\t\t8 \t 9\t1 x"] {
        let fields: Vec<i32> =
            text.split_whitespace().take(4).map(|f| f.parse::<i32>().unwrap()).collect();
        let entry = parse_line(text.as_bytes(), 0).unwrap();
        assert_eq!(vec![entry.from, entry.to, entry.amount], fields[0..3].to_vec(), "{:?}", text);
    }
}

#[test]
fn parse_line_does_not_read_past_the_fourth_field() {
    assert_eq!(
        parse_line(b"1 2 3 0 what follows", 2),
        Some(Ledger { from: 1, to: 2, amount: 3, mode: Mode::Deposit, ledger_id: 2 })
    );
    assert_eq!(
        parse_line(b"1 2 3 0 ", 2),
        Some(Ledger { from: 1, to: 2, amount: 3, mode: Mode::Deposit, ledger_id: 2 })
    );
}

#[test]
fn parse_line_refuses_malformed_lines() {
    for line in [
        "", " ", "\t", "1", "1 2", "1 2 3", "1 2 3 ", "1 2 x 0", "1 2 3 0x", "1 2 -3 0",
        "1 2 3000000000 0", "a b c d", "1,2,3,0", "1 2 3.0 0", "1 2 3 0.0", "1 2 \u{a0}3 0",
    ] {
        assert_eq!(parse_line(line.as_bytes(), 0), None, "{:?}", line);
    }
}

#[test]
fn parse_line_refuses_a_mode_code_that_is_none_of_the_three() {
    assert!(parse_line(b"0 1 5 0", 0).is_some());
    assert!(parse_line(b"0 1 5 1", 0).is_some());
    assert!(parse_line(b"0 1 5 2", 0).is_some());
    for line in ["0 1 5 3", "0 1 5 7", "0 1 5 -1", "0 1 5 2147483647"] {
        assert_eq!(parse_line(line.as_bytes(), 0), None, "{:?}", line);
    }
}

#[test]
fn parse_line_refuses_an_account_that_does_not_exist() {
    assert!(parse_line(b"9 0 5 0", 0).is_some());
    assert!(parse_line(b"9 9 5 2", 0).is_some());
    for line in ["10 0 5 0", "-1 0 5 0", "10 0 5 1", "-1 0 5 1", "10 0 5 2", "0 10 5 2", "0 -1 5 2"] {
        assert_eq!(parse_line(line.as_bytes(), 0), None, "{:?}", line);
    }
}

#[test]
fn parse_line_does_not_look_at_the_receiving_account_of_a_deposit_or_withdrawal() {
    assert_eq!(
        parse_line(b"3 99 5 0", 0),
        Some(Ledger { from: 3, to: 99, amount: 5, mode: Mode::Deposit, ledger_id: 0 })
    );
    assert_eq!(
        parse_line(b"3 -4 5 1", 0),
        Some(Ledger { from: 3, to: -4, amount: 5, mode: Mode::Withdraw, ledger_id: 0 })
    );
}

#[test]
fn load_ledger_numbers_the_entries_from_zero() {
    let lines = vec!["1 2 30 2".to_string(), "4 0 5 0".to_string(), "9 9 1 1".to_string()];
    let mut ledger: Vec<Ledger> = Vec::new();
    assert_eq!(load_ledger(&mut ledger, &lines), Ok(()));
    assert_eq!(
        ledger,
        vec![
            Ledger { from: 1, to: 2, amount: 30, mode: Mode::Transfer, ledger_id: 0 },
            Ledger { from: 4, to: 0, amount: 5, mode: Mode::Deposit, ledger_id: 1 },
            Ledger { from: 9, to: 9, amount: 1, mode: Mode::Withdraw, ledger_id: 2 },
        ]
    );
}

#[test]
fn load_ledger_appends_to_what_is_there() {
    let kept = Ledger { from: 7, to: 7, amount: 7, mode: Mode::Deposit, ledger_id: 70 };
    let mut ledger = vec![kept];
    assert_eq!(load_ledger(&mut ledger, &vec!["1 1 1 1".to_string()]), Ok(()));
    assert_eq!(ledger.len(), 2);
    assert_eq!(ledger[0], kept);
    assert_eq!(ledger[1].ledger_id, 0);
}

#[test]
fn load_ledger_stops_at_the_first_malformed_line() {
    let lines = vec![
        "1 2 30 2".to_string(),
        "1 2 30".to_string(),
        "4 0 5 0".to_string(),
        "bad".to_string(),
    ];
    let mut ledger: Vec<Ledger> = Vec::new();
    assert_eq!(load_ledger(&mut ledger, &lines), Err(LedgerError::MalformedLine(1)));
    assert_eq!(
        ledger,
        vec![Ledger { from: 1, to: 2, amount: 30, mode: Mode::Transfer, ledger_id: 0 }]
    );
}

#[test]
fn load_ledger_reads_no_lines_to_no_entries() {
    let mut ledger: Vec<Ledger> = Vec::new();
    assert_eq!(load_ledger(&mut ledger, &Vec::new()), Ok(()));
    assert!(ledger.is_empty());
}

#[test]
fn load_ledger_refuses_a_line_that_is_not_ascii() {
    let mut ledger: Vec<Ledger> = Vec::new();
    let lines = vec!["1 2 3 0".to_string(), "1 2 \u{663} 0".to_string()];
    assert_eq!(load_ledger(&mut ledger, &lines), Err(LedgerError::MalformedLine(1)));
    assert_eq!(ledger.len(), 1);
}

#[test]
fn load_ledger_reads_fields_between_any_white_space() {
    let expected = vec![Ledger { from: 0, to: 1, amount: 50, mode: Mode::Transfer, ledger_id: 0 }];
    for line in ["0  1 50 2", "0\t1\t50\t2", " 0 1 50 2"] {
        let mut ledger: Vec<Ledger> = Vec::new();
        assert_eq!(load_ledger(&mut ledger, &vec![line.to_string()]), Ok(()), "{:?}", line);
        assert_eq!(ledger, expected, "{:?}", line);
    }
}

#[test]
fn load_ledger_refuses_what_a_bank_cannot_run() {
    for line in ["0 1 -5 0", "0 1 5 7", "10 1 5 0", "0 10 5 2", "0 1 5", "0 1 five 0"] {
        let lines = vec!["1 2 3 0".to_string(), line.to_string(), "4 5 6 1".to_string()];
        let mut ledger: Vec<Ledger> = Vec::new();
        assert_eq!(
            load_ledger(&mut ledger, &lines),
            Err(LedgerError::MalformedLine(1)),
            "{:?}",
            line
        );
        assert_eq!(
            ledger,
            vec![Ledger { from: 1, to: 2, amount: 3, mode: Mode::Deposit, ledger_id: 0 }]
        );
    }
}

#[test]
fn what_load_ledger_reads_can_be_run() {
    let lines = vec!["0 1 50 0".to_string(), "0\t1  20 2".to_string(), " 1 0 100 1".to_string()];
    let mut ledger: Vec<Ledger> = Vec::new();
    assert_eq!(load_ledger(&mut ledger, &lines), Ok(()));
    assert!(ledger.iter().all(|e| e.is_valid(NUM_ACCOUNTS)));
    let report = init_bank_workers(2, ledger).unwrap();
    assert_eq!(report.success_count + report.failure_count, 3);
}

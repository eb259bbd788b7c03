use expenses::account::{Summary, Transaction};
use expenses::amount::{cents_string, dec_string, parse_amount, signed_cents_string};
use expenses::parse::ParseError;
use expenses::report::{expenses, InputFile};
use expenses::style::{bold, underline, Style};

fn txn(entry: &str, amount: i64, beneficiary: &str, kind: &str, message: &str) -> Transaction {
    Transaction {
        entry_date: entry.to_string(),
        month: entry.chars().skip(3).collect(),
        value_date: entry.to_string(),
        payment_date: entry.to_string(),
        amount,
        beneficiary: beneficiary.to_string(),
        account_number: String::new(),
        bic: String::new(),
        transaction: kind.to_string(),
        reference_number: String::new(),
        originator_reference: String::new(),
        message: message.to_string(),
        card_number: String::new(),
        receipt: String::new(),
    }
}

#[test]
fn amount_parsing() {
    assert_eq!(parse_amount("200,00"), Some(20000));
    assert_eq!(parse_amount("-2,60"), Some(-260));
    assert_eq!(parse_amount("+1,5"), Some(150));
    assert_eq!(parse_amount("10.01"), Some(1001));
    assert_eq!(parse_amount("7"), Some(700));
    assert_eq!(parse_amount("-0,05"), Some(-5));
    assert_eq!(parse_amount(""), None);
    assert_eq!(parse_amount("abc"), None);
    assert_eq!(parse_amount("1,234"), None);
    assert_eq!(parse_amount("1,2,3"), None);
    assert_eq!(parse_amount(","), None);
    assert_eq!(parse_amount("-"), None);
    // Beyond the magnitude limit of 10^12 cents.
    assert_eq!(parse_amount("99999999999999,00"), None);
}

#[test]
fn amount_formatting() {
    assert_eq!(signed_cents_string(20000), "+200.00");
    assert_eq!(signed_cents_string(-380), "-3.80");
    assert_eq!(signed_cents_string(0), "+0.00");
    assert_eq!(signed_cents_string(17874), "+178.74");
    assert_eq!(cents_string(2126), "21.26");
    assert_eq!(cents_string(0), "0.00");
    assert_eq!(cents_string(760), "7.60");
    assert_eq!(dec_string(0), "0");
    assert_eq!(dec_string(120450), "120450");
}

#[test]
fn summary_profit_and_combine() {
    let a = Summary {
        income: 30000,
        expenses: 31106,
    };
    assert_eq!(a.profit(), -1106);
    let b = Summary {
        income: 500,
        expenses: 250,
    };
    let ab = a.combine(&b);
    let ba = b.combine(&a);
    assert_eq!(ab.income, 30500);
    assert_eq!(ab.expenses, 31356);
    assert_eq!(ab.income, ba.income);
    assert_eq!(ab.expenses, ba.expenses);
    let zero = Summary::default();
    assert_eq!(zero.profit(), 0);
}

#[test]
fn transaction_message_composition() {
    let t = txn("14.05.2018", 20000, "Employer", "Deposit", "HELSINKI");
    assert_eq!(t.message(), "Employer - Deposit HELSINKI");
    let anonymous = txn("14.05.2018", -500, "", "Card payment", "HELSINKI");
    assert_eq!(anonymous.message(), "Card payment HELSINKI");
    let mut out: Vec<String> = vec![];
    anonymous.print(&mut out);
    assert_eq!(out, vec!["        14.05.2018: -5.00 (Card payment HELSINKI)"]);
    let mut short: Vec<String> = vec![];
    anonymous.print_short(&mut short);
    assert_eq!(short, vec!["        14.05.2018: 5.00"]);
}

#[test]
fn emphasis_markers() {
    assert_eq!(bold(Style::Markup, "x"), "<b>x</b>");
    assert_eq!(underline(Style::Markup, "x"), "<u>x</u>");
    assert_eq!(bold(Style::Terminal, "x"), "\u{1b}[1mx\u{1b}[0m");
    assert_eq!(underline(Style::Terminal, "x"), "\u{1b}[4mx\u{1b}[0m");
}

#[test]
fn malformed_amount_is_fatal_with_context() {
    let lines = vec![
        "Tilinumero\tFI1234567890123456".to_string(),
        "H".to_string(),
        "H".to_string(),
        "H".to_string(),
        "02.05.2018\t02.05.2018\t02.05.2018\tabc\tShop\t\t\tCard purchase\t\t\t\t\t"
            .to_string(),
    ];
    let mut output: Vec<String> = vec![];
    let files = vec![InputFile {
        name: "bad.txt".to_string(),
        lines,
    }];
    let res = expenses(&mut output, Style::Markup, &files);
    match res {
        Err(ParseError::BadAmount { line, raw }) => {
            assert_eq!(line, 4);
            assert_eq!(raw, "abc");
        }
        other => panic!("expected a bad-amount error, got {:?}", other.is_ok()),
    }
    // Only the progress line was written.
    assert_eq!(output, vec!["Reading file bad.txt"]);
}

#[test]
fn zero_amount_rows_are_not_expenses() {
    // A zero-amount row is neither income nor expense: it must not make a
    // counterparty recur, nor appear among a month's displayed rows.
    let row = |entry: &str, amount: &str| {
        format!(
            "{e}\t{e}\t{e}\t{a}\tIso Tiger Oy\t\t\tCard purchase\t\t\tHELSINKI\t\t",
            e = entry,
            a = amount
        )
    };
    let lines = vec![
        "Tilinumero\tFI1234567890123456".to_string(),
        "H".to_string(),
        "H".to_string(),
        "H".to_string(),
        row("02.05.2018", "0,00"),
        row("03.05.2018", "-2,60"),
    ];
    let mut output: Vec<String> = vec![];
    let files = vec![InputFile {
        name: "zero.txt".to_string(),
        lines,
    }];
    let res = expenses(&mut output, Style::Markup, &files);
    assert!(res.is_ok());
    assert!(output.iter().any(|l| l == "Transactions: 2"));
    // Only one expense under the key, so nothing recurs.
    assert!(!output.iter().any(|l| l.contains("Total:")));
    // The zero-amount row is not displayed in the month block.
    assert!(!output.iter().any(|l| l.contains("02.05.2018:")));
    assert!(output
        .iter()
        .any(|l| l == "        03.05.2018: -2.60 (Iso Tiger Oy - Card purchase HELSINKI)"));
    assert!(output.iter().any(|l| l == "    Expenses: -2.60"));
    assert!(output.iter().any(|l| l == "      Income: +0.00"));
}

#[test]
fn missing_account_number_is_fatal() {
    let lines = vec!["no-tabs-here".to_string()];
    let mut output: Vec<String> = vec![];
    let files = vec![InputFile {
        name: "hdr.txt".to_string(),
        lines,
    }];
    let res = expenses(&mut output, Style::Markup, &files);
    assert!(matches!(res, Err(ParseError::MissingAccountNumber)));
}

#[test]
fn short_rows_are_skipped_silently() {
    let lines = vec![
        "Tilinumero\tFI1234567890123456".to_string(),
        "H".to_string(),
        "H".to_string(),
        "H".to_string(),
        "only\tfour\tfields\there".to_string(),
        "".to_string(),
    ];
    let mut output: Vec<String> = vec![];
    let files = vec![InputFile {
        name: "skip.txt".to_string(),
        lines,
    }];
    let res = expenses(&mut output, Style::Markup, &files);
    assert!(res.is_ok());
    assert!(output.iter().any(|l| l == "Transactions: 0"));
}

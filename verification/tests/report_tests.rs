use expenses::report::{expenses, InputFile};
use expenses::style::Style;

fn row(entry: &str, amount: &str, beneficiary: &str, kind: &str, message: &str) -> String {
    format!(
        "{e}\t{e}\t{e}\t{a}\t{b}\t\t\t{k}\t\t\t{m}\t\t",
        e = entry,
        a = amount,
        b = beneficiary,
        k = kind,
        m = message
    )
}

fn file(name: &str, lines: Vec<String>) -> InputFile {
    InputFile {
        name: name.to_string(),
        lines,
    }
}

#[test]
fn empty_file() {
    let mut output: Vec<String> = vec![];
    let files = vec![file(
        "./data/empty_transactions.txt",
        vec!["Tilinumero\tFI1234567890123456".to_string()],
    )];
    let res = expenses(&mut output, Style::Markup, &files);
    assert!(res.is_ok());

    let correct = vec![
        "Reading file ./data/empty_transactions.txt",
        "",
        "",
        "     Account: FI1234567890123456",
        "Transactions: 0",
        "",
        "",
        "<u>Summary:</u>",
        "",
        "      Income: +0.00",
        "    Expenses: -0.00",
        "      <u>Profit: +0.00</u>",
        "",
        "",
        "<u>Months:</u>",
        "",
        "",
        "<u>Recurrent payments:</u>",
        "",
    ];

    assert_eq!(correct.len(), output.len());
    for (line, correct) in output.iter().zip(correct) {
        assert_eq!(correct, line);
    }
}

#[test]
fn one_month_one_account() {
    let lines = vec![
        "Tilinumero\tFI1234567890123456".to_string(),
        "Header".to_string(),
        "Header".to_string(),
        "Header".to_string(),
        row("02.05.2018", "-2,60", "Iso Tiger Oy", "Card purchase", "HELSINKI"),
        row(
            "02.05.2018",
            "-8,46",
            "TWILIO",
            "Card purchase",
            "USD          10,01 8778894546 KURSSI: 1,1832",
        ),
        row("03.05.2018", "-3,80", "RTE Kahvilat Oy", "Card purchase", "HELSINKI"),
        row("12.05.2018", "-2,60", "Iso Tiger Oy", "Card purchase", "HELSINKI"),
        row("14.05.2018", "200,00", "Employer", "Deposit", "HELSINKI"),
        row("23.05.2018", "-3,80", "RTE Kahvilat Oy", "Card purchase", "HELSINKI"),
    ];
    let mut output: Vec<String> = vec![];
    let files = vec![file("./data/nordea_one_month_one_account_transactions.txt", lines)];
    let res = expenses(&mut output, Style::Markup, &files);
    assert!(res.is_ok());

    let correct = vec![
        "Reading file ./data/nordea_one_month_one_account_transactions.txt",
        "",
        "",
        "     Account: FI1234567890123456",
        "Transactions: 6",
        "      Period: 02.05.2018 - 23.05.2018",
        "",
        "",
        "<u>Summary:</u>",
        "",
        "      Income: +200.00",
        "    Expenses: -21.26",
        "      <u>Profit: +178.74</u>",
        "",
        "",
        "<u>Months:</u>",
        "",
        "    <b>05.2018:</b>",
        "        14.05.2018: +200.00 (Employer - Deposit HELSINKI)",
        "",
        "        02.05.2018: -8.46 (TWILIO - Card purchase USD          10,01 8778894546 KURSSI: 1,1832)",
        "        03.05.2018: -3.80 (RTE Kahvilat Oy - Card purchase HELSINKI)",
        "        23.05.2018: -3.80 (RTE Kahvilat Oy - Card purchase HELSINKI)",
        "        02.05.2018: -2.60 (Iso Tiger Oy - Card purchase HELSINKI)",
        "        12.05.2018: -2.60 (Iso Tiger Oy - Card purchase HELSINKI)",
        "",
        "      Income: +200.00",
        "    Expenses: -21.26",
        "      <u>Profit: +178.74</u>",
        "",
        "",
        "<u>Recurrent payments:</u>",
        "",
        "    <b>RTE Kahvilat Oy</b>:    <u>Total: 7.60</u>",
        "        03.05.2018: 3.80",
        "        23.05.2018: 3.80",
        "    <b>Iso Tiger Oy</b>:       <u>Total: 5.20</u>",
        "        02.05.2018: 2.60",
        "        12.05.2018: 2.60",
    ];

    assert_eq!(correct.len(), output.len());
    for (line, correct) in output.iter().zip(correct) {
        assert_eq!(correct, line);
    }
}

#[test]
fn one_month_two_accounts() {
    let lines_one = vec![
        "Tilinumero\tFI1234567890123456".to_string(),
        "Header".to_string(),
        "Header".to_string(),
        "Header".to_string(),
        row("02.05.2018", "-2,60", "Iso Tiger Oy", "Card purchase", "HELSINKI"),
        row(
            "02.05.2018",
            "-8,46",
            "TWILIO",
            "Card purchase",
            "USD          10,01 8778894546 KURSSI: 1,1832",
        ),
        row("24.05.2018", "-300,00", "James Bond", "Own transfer", ""),
    ];
    let lines_two = vec![
        "Tilinumero\tFI9876543210123456".to_string(),
        "Header".to_string(),
        "Header".to_string(),
        "Header".to_string(),
        row("24.05.2018", "300,00", "James Bond", "", ""),
    ];
    let mut output: Vec<String> = vec![];
    let files = vec![
        file(
            "./data/nordea_one_month_one_account_transactions_simple.txt",
            lines_one,
        ),
        file(
            "./data/nordea_one_month_one_account_transactions_simple_two.txt",
            lines_two,
        ),
    ];
    let res = expenses(&mut output, Style::Markup, &files);
    assert!(res.is_ok());

    let correct = vec![
        "Reading file ./data/nordea_one_month_one_account_transactions_simple.txt",
        "",
        "",
        "     Account: FI1234567890123456",
        "Transactions: 3",
        "      Period: 02.05.2018 - 24.05.2018",
        "",
        "",
        "<u>Summary:</u>",
        "",
        "      Income: +0.00",
        "    Expenses: -311.06",
        "      <u>Profit: -311.06</u>",
        "",
        "",
        "<u>Months:</u>",
        "",
        "    <b>05.2018:</b>",
        "        24.05.2018: -300.00 (James Bond - Own transfer)",
        "        02.05.2018: -8.46 (TWILIO - Card purchase USD          10,01 8778894546 KURSSI: 1,1832)",
        "        02.05.2018: -2.60 (Iso Tiger Oy - Card purchase HELSINKI)",
        "",
        "      Income: +0.00",
        "    Expenses: -311.06",
        "      <u>Profit: -311.06</u>",
        "",
        "",
        "<u>Recurrent payments:</u>",
        "",
        "Reading file ./data/nordea_one_month_one_account_transactions_simple_two.txt",
        "",
        "",
        "     Account: FI9876543210123456",
        "Transactions: 1",
        "      Period: 24.05.2018 - 24.05.2018",
        "",
        "",
        "<u>Summary:</u>",
        "",
        "      Income: +300.00",
        "    Expenses: -0.00",
        "      <u>Profit: +300.00</u>",
        "",
        "",
        "<u>Months:</u>",
        "",
        "    <b>05.2018:</b>",
        "        24.05.2018: +300.00 (James Bond -)",
        "",
        "",
        "      Income: +300.00",
        "    Expenses: -0.00",
        "      <u>Profit: +300.00</u>",
        "",
        "",
        "<u>Recurrent payments:</u>",
        "",
        "------------------------",
        "<u>Summary across accounts:</u>",
        "      Income: +300.00",
        "    Expenses: -311.06",
        "      <u>Profit: -11.06</u>",
        "------------------------",
    ];

    assert_eq!(correct.len(), output.len());
    for (line, correct) in output.iter().zip(correct) {
        assert_eq!(correct, line);
    }
}

#[test]
fn months_display_in_reverse_lexicographic_order() {
    // The month keys sort as strings, not as dates: "01.2019" < "12.2018",
    // so the display (reverse order) shows 12.2018 before 01.2019.
    let lines = vec![
        "Tilinumero\tFI1234567890123456".to_string(),
        "Header".to_string(),
        "Header".to_string(),
        "Header".to_string(),
        row("05.12.2018", "-1,00", "A", "Card purchase", ""),
        row("05.01.2019", "-2,00", "B", "Card purchase", ""),
    ];
    let mut output: Vec<String> = vec![];
    let files = vec![file("./data/two_months.txt", lines)];
    let res = expenses(&mut output, Style::Markup, &files);
    assert!(res.is_ok());

    let pos_dec = output
        .iter()
        .position(|l| l == "    <b>12.2018:</b>")
        .expect("12.2018 heading");
    let pos_jan = output
        .iter()
        .position(|l| l == "    <b>01.2019:</b>")
        .expect("01.2019 heading");
    assert!(pos_dec < pos_jan);
}

#[test]
fn expense_cap_does_not_affect_totals() {
    // Twelve expenses in one month: only ten rows print, all twelve count.
    let mut lines = vec![
        "Tilinumero\tFI1234567890123456".to_string(),
        "Header".to_string(),
        "Header".to_string(),
        "Header".to_string(),
    ];
    for i in 1..=12 {
        lines.push(row(
            &format!("{:02}.05.2018", i),
            &format!("-{},00", i),
            "Shop",
            "Card purchase",
            "",
        ));
    }
    let mut output: Vec<String> = vec![];
    let files = vec![file("./data/many_expenses.txt", lines)];
    let res = expenses(&mut output, Style::Markup, &files);
    assert!(res.is_ok());

    // 1 + 2 + ... + 12 = 78.
    assert!(output.iter().any(|l| l == "    Expenses: -78.00"));
    // The two smallest magnitudes fall past the cap of ten printed rows.
    assert!(!output
        .iter()
        .any(|l| l.starts_with("        ") && l.contains(": -1.00 ")));
    assert!(!output
        .iter()
        .any(|l| l.starts_with("        ") && l.contains(": -2.00 ")));
    assert!(output
        .iter()
        .any(|l| l.starts_with("        ") && l.contains(": -3.00 ")));
    assert!(output
        .iter()
        .any(|l| l.starts_with("        ") && l.contains(": -12.00 ")));
}

#[test]
fn grand_total_independent_of_file_order() {
    let make = |flip: bool| {
        let a = file(
            "a.txt",
            vec![
                "Tilinumero\tFI1111".to_string(),
                "H".to_string(),
                "H".to_string(),
                "H".to_string(),
                row("02.05.2018", "-2,60", "Iso Tiger Oy", "Card purchase", ""),
            ],
        );
        let b = file(
            "b.txt",
            vec![
                "Tilinumero\tFI2222".to_string(),
                "H".to_string(),
                "H".to_string(),
                "H".to_string(),
                row("03.05.2018", "300,00", "Employer", "Deposit", ""),
            ],
        );
        if flip {
            vec![b, a]
        } else {
            vec![a, b]
        }
    };
    let mut out1: Vec<String> = vec![];
    let t1 = expenses(&mut out1, Style::Markup, &make(false)).unwrap();
    let mut out2: Vec<String> = vec![];
    let t2 = expenses(&mut out2, Style::Markup, &make(true)).unwrap();
    assert_eq!(t1.income, t2.income);
    assert_eq!(t1.expenses, t2.expenses);
    assert_eq!(t1.income, 30000);
    assert_eq!(t1.expenses, 260);
}

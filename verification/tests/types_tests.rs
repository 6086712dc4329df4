use beanrust::date::Date;
use beanrust::decimal::Decimal;
use beanrust::types::{Amount, Posting, Transaction, TransactionFlag};
use beanrust::types::sum_amounts_it;

fn num(s: &str) -> Decimal {
    Decimal::from_str_exact(s).unwrap()
}

#[test]
fn test_sum_amounts() {
    let empty: Vec<Amount> = vec![];
    assert!(sum_amounts_it(&empty).is_err());
    assert_eq!(
        sum_amounts_it(&vec![
            Amount::new(num("100"), "USD".to_string()),
            Amount::new(num("-50"), "USD".to_string())
        ])
        .unwrap(),
        Amount::new(num("50"), "USD".to_string())
    );
    assert_eq!(
        sum_amounts_it(&vec![Amount::new(num("-50"), "USD".to_string())]).unwrap(),
        Amount::new(num("-50"), "USD".to_string())
    );

    assert!(sum_amounts_it(&vec![
        Amount::new(num("100"), "USD".to_string()),
        Amount::new(num("-50"), "CHF".to_string())
    ])
    .is_err());
}

#[test]
fn test_sum_amounts_error_names_both_currencies() {
    let err = sum_amounts_it(&vec![
        Amount::new(num("100"), "USD".to_string()),
        Amount::new(num("-50"), "CHF".to_string()),
    ])
    .unwrap_err();
    assert_eq!(err, "Multiple currencies in given amounts: USD and CHF");
}

#[test]
fn test_sum_amounts_mixed_scales() {
    let sum = sum_amounts_it(&vec![
        Amount::new(num("1.50"), "USD".to_string()),
        Amount::new(num("2"), "USD".to_string()),
        Amount::new(num("-0.25"), "USD".to_string()),
    ])
    .unwrap();
    assert_eq!(sum.number, num("3.25"));
    assert_eq!(sum.currency, "USD");
}

#[test]
fn types_test_transaction_check() {
    let mut t = Transaction {
        date: Date::new(2023, 1, 1),
        flag: TransactionFlag::OK,
        payee: None,
        narration: None,
        postings: vec![],
    };
    assert!(t.check().is_ok());
    let account = "Assets:Cash".to_string();
    t.postings.push(Posting {
        account: account.clone(),
        amount: Amount::new(num("100"), "USD".to_string()),
        price: None,
        cost: None,
    });
    assert!(t.check().is_err());
    t.postings.push(Posting {
        account,
        amount: Amount::new(num("-100"), "USD".to_string()),
        price: None,
        cost: None,
    });
    assert!(t.check().is_ok());
}

#[test]
fn transaction_test_transaction_check() {
    let mut t = Transaction {
        date: Date::new(2023, 1, 1),
        flag: TransactionFlag::OK,
        payee: None,
        narration: None,
        postings: vec![],
    };
    assert!(t.check().is_ok());
    let account = "Assets:Cash".to_string();
    t.postings.push(Posting {
        account: account.clone(),
        amount: Amount::new(num("100"), "USD".to_string()),
        price: None,
        cost: None,
    });
    assert!(t.check().is_err());
    t.postings.push(Posting {
        account,
        amount: Amount::new(num("-100"), "USD".to_string()),
        price: None,
        cost: None,
    });
    assert!(t.check().is_ok());
}

#[test]
fn test_check_mixed_currencies_fails() {
    let t = Transaction {
        date: Date::new(2023, 1, 1),
        flag: TransactionFlag::OK,
        payee: None,
        narration: None,
        postings: vec![
            Posting {
                account: "Assets:A".to_string(),
                amount: Amount::new(num("5"), "USD".to_string()),
                price: None,
                cost: None,
            },
            Posting {
                account: "Assets:B".to_string(),
                amount: Amount::new(num("-5"), "CHF".to_string()),
                price: None,
                cost: None,
            },
        ],
    };
    assert!(t.check().is_err());
}

#[test]
fn test_check_balances_across_scales() {
    let t = Transaction {
        date: Date::new(2023, 1, 1),
        flag: TransactionFlag::OK,
        payee: None,
        narration: None,
        postings: vec![
            Posting {
                account: "Assets:A".to_string(),
                amount: Amount::new(num("2.50"), "USD".to_string()),
                price: None,
                cost: None,
            },
            Posting {
                account: "Assets:B".to_string(),
                amount: Amount::new(num("-2.5"), "USD".to_string()),
                price: None,
                cost: None,
            },
        ],
    };
    assert!(t.check().is_ok());
}

#[test]
fn test_entry_variant_date() {
    let c = beanrust::types::Commodity {
        date: Date::new(2020, 6, 15),
        currency: "CHF".to_string(),
    };
    let ev = beanrust::types::EntryVariant::Commodity(c);
    assert_eq!(ev.date(), Date::new(2020, 6, 15));
}

#[test]
fn test_decimal_literals() {
    assert_eq!(num("5"), Decimal::new(5, 0));
    assert_eq!(num("-5.1234"), Decimal::new(-51234, 4));
    assert_eq!(num(".5"), Decimal::new(5, 1));
    assert_eq!(num("+3.10"), Decimal::new(310, 2));
    assert!(Decimal::from_str_exact("5,67").is_none());
    assert!(Decimal::from_str_exact("").is_none());
    assert!(Decimal::from_str_exact("-").is_none());
    assert!(Decimal::from_str_exact("5.").is_none());
    assert!(Decimal::from_str_exact("1.2.3").is_none());
    // more fractional digits than the maximum scale
    assert!(Decimal::from_str_exact("0.00000000000000000000000000001").is_none());
}

#[test]
fn test_decimal_value_equality() {
    assert_eq!(Decimal::new(120, 2), Decimal::new(12, 1));
    assert_ne!(Decimal::new(120, 2), Decimal::new(12, 0));
    assert_eq!(Decimal::new(0, 5), Decimal::new(0, 0));
}

#[test]
fn test_decimal_add_and_abs() {
    let a = Decimal::new(150, 2);
    let b = Decimal::new(-2, 0);
    let sum = a.checked_add(b).unwrap();
    assert_eq!(sum, Decimal::new(-50, 2));
    assert_eq!(Decimal::new(-7, 1).abs(), Decimal::new(7, 1));
    assert_eq!(Decimal::new(7, 1).abs(), Decimal::new(7, 1));
}

#[test]
fn test_decimal_division() {
    let q = Decimal::new(60, 0).checked_div(Decimal::new(6, 0)).unwrap();
    assert_eq!(q, Decimal::new(10, 0));
    let q = Decimal::new(63, 1).checked_div(Decimal::new(10, 0)).unwrap();
    assert_eq!(q, Decimal::new(63, 2));
    assert!(Decimal::new(1, 0).checked_div(Decimal::new(0, 0)).is_none());
}

#[test]
fn test_date_validity() {
    assert!(Date::from_str("2024-02-29").is_some());
    assert!(Date::from_str("2023-02-29").is_none());
    assert!(Date::from_str("2023-13-01").is_none());
    assert!(Date::from_str("2023-00-10").is_none());
    assert!(Date::from_str("2023-04-31").is_none());
    assert!(Date::from_str("2023-4-1").is_none());
    let d = Date::from_str("2023-04-30").unwrap();
    assert_eq!(d, Date::new(2023, 4, 30));
}

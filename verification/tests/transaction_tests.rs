use beanrust::date::Date;
use beanrust::decimal::Decimal;
use beanrust::parser::transaction_parsing::{parse_flag, parse_price_and_cost};
use beanrust::types::{Amount, CostType, Posting, Transaction, TransactionFlag};

#[test]
fn test_tryfrom_transaction() -> Result<(), String> {
    let result = Transaction::try_from("2022-05-03 *")?;
    assert_eq!(result.postings.len(), 0);
    assert_eq!(result.date, Date::new(2022, 5, 3));
    assert_eq!(result.flag, TransactionFlag::OK);

    let result: Transaction =
        Transaction::try_from("2022-05-03 *\n    Assets:Cash 5   CHF\n    Assets:Cash2   5.1234 USD  ")?;
    assert_eq!(result.postings.len(), 2);
    assert_eq!(result.postings[0].account, "Assets:Cash");
    assert_eq!(result.postings[0].amount.number, Decimal::new(5, 0));
    assert_eq!(result.postings[0].amount.currency, "CHF");
    assert!(result.postings[0].price.is_none());
    assert!(result.postings[0].cost.is_none());
    assert_eq!(result.postings[1].account, "Assets:Cash2");
    assert_eq!(result.postings[1].amount.number, Decimal::new(51234, 4));
    assert_eq!(result.postings[1].amount.currency, "USD");
    assert!(result.postings[1].price.is_none());
    assert!(result.postings[1].cost.is_none());

    assert_eq!(result.date, Date::new(2022, 5, 3));
    assert_eq!(result.flag, TransactionFlag::OK);

    let result: Transaction =
        Transaction::try_from("2022-05-03 *\n    Assets:Cash 5   CHF ; foobar\n    ")?;
    assert_eq!(result.postings.len(), 1);
    assert_eq!(result.postings[0].account, "Assets:Cash");
    assert_eq!(result.postings[0].amount.number, Decimal::new(5, 0));
    assert_eq!(result.postings[0].amount.currency, "CHF");
    assert!(result.postings[0].price.is_none());
    assert!(result.postings[0].cost.is_none());
    assert_eq!(result.date, Date::new(2022, 5, 3));
    assert_eq!(result.flag, TransactionFlag::OK);

    let result: Transaction = Transaction::try_from(
        "2022-05-03 *\n    Assets:Cash 5   CHF {3 USD} ; foobar\n Assets:Cash -6USD @@ 60 CHF   ",
    )?;
    assert_eq!(result.postings.len(), 2);
    assert!(result.postings[0].price.is_none());
    assert!(result.postings[1].cost.is_none());

    let cost = match &result.postings[0].cost {
        Some(CostType::Known(c)) => Some(c),
        _ => None,
    }
    .unwrap();
    let price = result.postings[1].price.as_ref().unwrap();
    assert_eq!(price.amount, Amount::new(Decimal::new(10, 0), "CHF".to_string()));
    assert_eq!(cost.amount, Amount::new(Decimal::new(3, 0), "USD".to_string()));

    assert_eq!(result.date, Date::new(2022, 5, 3));
    assert_eq!(result.flag, TransactionFlag::OK);

    let result = Transaction::try_from(
        "2024-10-05 *
  Assets:Depot:Cash   -100 CHF
  Assets:Depot:AMD      1 AMD {100 CHF}  ",
    );
    assert!(result.is_ok());

    Ok(())
}

#[test]
fn test_parse_flag() {
    assert_eq!(parse_flag("*"), Some(TransactionFlag::OK));
    assert_eq!(parse_flag("!"), Some(TransactionFlag::Error));
    assert_eq!(parse_flag("x"), None);
}

#[test]
fn test_parse_price_and_cost() -> Result<(), String> {
    let success = vec![
        ("@3USD", Some((Decimal::new(3, 0), "USD", true)), None),
        ("@ 3.5 USD", Some((Decimal::new(35, 1), "USD", true)), None),
        ("  @@ 50   USD ", Some((Decimal::new(50, 0), "USD", false)), None),
        (
            " @ 1 USD {{ 6.3CHF}}",
            Some((Decimal::new(1, 0), "USD", true)),
            Some((Decimal::new(63, 1), "CHF", false)),
        ),
        (
            " @ 1 USD {6 CHF}",
            Some((Decimal::new(1, 0), "USD", true)),
            Some((Decimal::new(6, 0), "CHF", true)),
        ),
        (" {6 CHF}", None, Some((Decimal::new(6, 0), "CHF", true))),
        (" ", None, None),
        (
            " @@ 3USD {{60CHF}}",
            Some((Decimal::new(3, 0), "USD", false)),
            Some((Decimal::new(60, 0), "CHF", false)),
        ),
    ];
    let errors = vec![
        "5 USD",
        "{7 CHF",
        "{7 CHF }}",
        "{{7 CHF}",
        "@ CHF",
        "9 USD }",
        "@ 3 USD {5",
        "@ 5 CHF @@ 50 CHF",
        "@@ 50 CHF @ 3 usd",
        "{5 USD} {{ 20 CHF}}",
        "@ 5 USD {30 USD} {{3 chf}}",
        "{3 CHF  } @@ 5 USD",
    ];
    for (inp, expected_price, expected_cost) in success {
        let (price, cost) = parse_price_and_cost(inp)?;
        assert_eq!(price.is_some(), expected_price.is_some(), "failed to parse {}", inp);
        assert_eq!(cost.is_some(), expected_cost.is_some(), "failed to parse {}", inp);
        if let Some(res) = price {
            let expected = expected_price.unwrap();
            assert_eq!(res.data.amount.number, expected.0, "failed to parse {}. Got {:?}", inp, res);
            assert_eq!(
                res.data.amount.currency, expected.1,
                "failed to parse {}. Got {:?}",
                inp, res
            );
            assert_eq!(res.per_unit, expected.2, "failed to parse {}", inp);
        }
        if let Some(res) = cost {
            let expected = expected_cost.unwrap();
            let cost = match &res.data {
                CostType::Known(res) => Some(res),
                _ => None,
            }
            .unwrap();
            assert_eq!(cost.amount.number, expected.0, "failed to parse {}. Got {:?}", inp, res);
            assert_eq!(cost.amount.currency, expected.1, "failed to parse {}. Got {:?}", inp, res);
            assert_eq!(res.per_unit, expected.2, "failed to parse {}", inp);
        }
    }
    for inp in errors {
        assert!(parse_price_and_cost(inp).is_err());
    }
    Ok(())
}

#[test]
fn test_automatic_cost_placeholder() {
    let (price, cost) = parse_price_and_cost(" {}").unwrap();
    assert!(price.is_none());
    let cost = cost.unwrap();
    assert!(matches!(cost.data, CostType::Automatic));

    let (price, cost) = parse_price_and_cost("{{}}").unwrap();
    assert!(price.is_none());
    assert!(matches!(cost.unwrap().data, CostType::Automatic));

    let (price, cost) = parse_price_and_cost("{ }").unwrap();
    assert!(price.is_none());
    assert!(matches!(cost.unwrap().data, CostType::Automatic));
}

#[test]
fn test_posting_normalizes_total_cost() {
    // a per-unit price of 1 USD, and a 6.3 CHF total cost spread over the
    // posting's own ten units
    let p = Posting::try_from("Assets:Depot 10 CHF @ 1 USD {{ 6.3CHF}}").unwrap();
    assert_eq!(p.account, "Assets:Depot");
    assert_eq!(p.amount.number, Decimal::new(10, 0));
    let price = p.price.unwrap();
    assert_eq!(price.amount.number, Decimal::new(1, 0));
    assert_eq!(price.amount.currency, "USD");
    match p.cost.unwrap() {
        CostType::Known(c) => {
            assert_eq!(c.amount.number, Decimal::new(63, 2));
            assert_eq!(c.amount.currency, "CHF");
        }
        CostType::Automatic => panic!("expected a known cost"),
    }
}

#[test]
fn test_posting_zero_amount_cannot_normalize() {
    assert!(Posting::try_from("Assets:Depot 0 CHF @@ 5 USD").is_err());
    // per-unit clauses need no division, so a zero amount is fine
    assert!(Posting::try_from("Assets:Depot 0 CHF @ 5 USD").is_ok());
}

#[test]
fn test_header_payee_and_narration() {
    let t = Transaction::try_from("2022-05-03 * \"grocer\" \"weekly shop\"").unwrap();
    assert_eq!(t.payee, Some("grocer".to_string()));
    assert_eq!(t.narration, Some("weekly shop".to_string()));

    let t = Transaction::try_from("2022-05-03 * \"only\"").unwrap();
    assert_eq!(t.payee, None);
    assert_eq!(t.narration, Some("only".to_string()));

    let t = Transaction::try_from("2022-05-03 !").unwrap();
    assert_eq!(t.payee, None);
    assert_eq!(t.narration, None);
    assert_eq!(t.flag, TransactionFlag::Error);

    assert!(Transaction::try_from("2022-05-03 * bare").is_err());
    assert!(Transaction::try_from("2022-05-03 * \"a\" \"b\" \"c\"").is_err());
    // a quote on one end only is not a double-quoted string
    assert!(Transaction::try_from("2022-05-03 * foo\"").is_err());
    assert!(Transaction::try_from("2022-05-03 * \"unterminated").is_err());
    // the empty quoted string is one
    let t = Transaction::try_from("2022-05-03 * \"\"").unwrap();
    assert_eq!(t.payee, None);
    assert_eq!(t.narration, Some("".to_string()));
}

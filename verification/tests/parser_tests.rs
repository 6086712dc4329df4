use beanrust::date::Date;
use beanrust::decimal::Decimal;
use beanrust::parser::{consume_amount, date_and_cmd, ParsedEntries, StatementParser};
use beanrust::types::{Amount, EntryVariant, Open, TransactionFlag};

#[test]
fn test_consume_amount() {
    let (amnt, remain) = consume_amount("5 CHF some remaining").unwrap();
    assert_eq!(amnt.number, Decimal::new(5, 0));
    assert_eq!(amnt.currency, "CHF");
    assert_eq!(remain, " some remaining");

    let (amnt, remain) = consume_amount("-5.1234 USD some remaining").unwrap();
    assert_eq!(amnt.number, Decimal::new(-51234, 4));
    assert_eq!(amnt.currency, "USD");
    assert_eq!(remain, " some remaining");

    let (amnt, remain) = consume_amount("5 BTC").unwrap();
    assert_eq!(amnt.number, Decimal::new(5, 0));
    assert_eq!(amnt.currency, "BTC");
    assert_eq!(remain, "");

    let (amnt, remain) = consume_amount("5BTC").unwrap();
    assert_eq!(amnt.number, Decimal::new(5, 0));
    assert_eq!(amnt.currency, "BTC");
    assert_eq!(remain, "");

    assert!(consume_amount("5").is_err());
    assert!(consume_amount("CHF").is_err());
    assert!(consume_amount("CHF 5").is_err());
    assert!(consume_amount("5,67 CHF").is_err());
}

#[test]
fn test_amount_try_from() {
    let a = Amount::try_from("100     USD  ").unwrap();
    assert_eq!(a.number, Decimal::new(100, 0));
    assert_eq!(a.currency, "USD");

    let a = Amount::try_from("-0.43 USD").unwrap();
    assert_eq!(a.number, Decimal::new(-43, 2));
    assert_eq!(a.currency, "USD");

    assert!(Amount::try_from("100").is_err());
    assert!(Amount::try_from("USD").is_err());
    assert!(Amount::try_from("100 USD extra").is_err());
}

#[test]
fn test_parse_entry() {
    let entry = StatementParser::new("2024-01-01 open Assets:Depot:META META")
        .parse_entry()
        .unwrap();
    let entry = match entry {
        EntryVariant::Open(o) => Ok(o),
        _ => Err("Incorrect return"),
    }
    .unwrap();
    assert_eq!(entry.date, Date::new(2024, 1, 1));
    assert_eq!(entry.account, "Assets:Depot:META");
    assert_eq!(entry.allowed_currencies, Some(vec!["META".to_string()]));
}

#[test]
fn parser_test_parse_entry() {
    let entry = StatementParser::new("2024-01-01 open Assets:Depot:META META")
        .parse_entry()
        .unwrap();
    let entry = match entry {
        EntryVariant::Open(o) => Ok(o),
        _ => Err("Incorrect return"),
    }
    .unwrap();
    assert_eq!(entry.date, Date::new(2024, 1, 1));
    assert_eq!(entry.account, "Assets:Depot:META");
    assert_eq!(entry.allowed_currencies, Some(vec!["META".to_string()]));
}

#[test]
fn test_parse_with_comment_at_end() {
    let entry = StatementParser::new("2024-01-01 close Assets:Depot ; some comment here * * ")
        .parse_entry()
        .unwrap();
    let entry = match entry {
        EntryVariant::Close(o) => Ok(o),
        _ => Err("Incorrect return"),
    }
    .unwrap();
    assert_eq!(entry.date, Date::new(2024, 1, 1));
    assert_eq!(entry.account, "Assets:Depot");
}

#[test]
fn parser_test_parse_with_comment_at_end() {
    let entry = StatementParser::new("2024-01-01 close Assets:Depot ; some comment here * * ")
        .parse_entry()
        .unwrap();
    let entry = match entry {
        EntryVariant::Close(o) => Ok(o),
        _ => Err("Incorrect return"),
    }
    .unwrap();
    assert_eq!(entry.date, Date::new(2024, 1, 1));
    assert_eq!(entry.account, "Assets:Depot");
}

#[test]
fn test_parse_open() {
    let entry = StatementParser::new("")
        .parse_open(Date::new(2022, 1, 1), "Assets:Depot:META META")
        .unwrap();
    assert_eq!(entry.date, Date::new(2022, 1, 1));
    assert_eq!(entry.account, "Assets:Depot:META");
    assert_eq!(entry.allowed_currencies, Some(vec!["META".to_string()]));

    let entry = StatementParser::new("")
        .parse_open(Date::new(2022, 2, 1), "Assets:Depot:Cash")
        .unwrap();

    assert_eq!(entry.date, Date::new(2022, 2, 1));
    assert_eq!(entry.account, "Assets:Depot:Cash");
    assert_eq!(entry.allowed_currencies, None);
}

#[test]
fn parser_test_parse_open() {
    let entry = StatementParser::new("")
        .parse_open(Date::new(2022, 1, 1), "Assets:Depot:META META")
        .unwrap();
    assert_eq!(entry.date, Date::new(2022, 1, 1));
    assert_eq!(entry.account, "Assets:Depot:META");
    assert_eq!(entry.allowed_currencies, Some(vec!["META".to_string()]));

    let entry = StatementParser::new("")
        .parse_open(Date::new(2022, 2, 1), "Assets:Depot:Cash")
        .unwrap();

    assert_eq!(entry.date, Date::new(2022, 2, 1));
    assert_eq!(entry.account, "Assets:Depot:Cash");
    assert_eq!(entry.allowed_currencies, None);
}

#[test]
fn test_parse_close() {
    let entry = StatementParser::new("")
        .parse_close(Date::new(2022, 1, 1), "Assets:Depot:META  ")
        .unwrap();

    assert_eq!(entry.date, Date::new(2022, 1, 1));
    assert_eq!(entry.account, "Assets:Depot:META");
}

#[test]
fn parser_test_parse_close() {
    let entry = StatementParser::new("")
        .parse_close(Date::new(2022, 1, 1), "Assets:Depot:META  ")
        .unwrap();

    assert_eq!(entry.date, Date::new(2022, 1, 1));
    assert_eq!(entry.account, "Assets:Depot:META");
}

#[test]
fn test_parse_balance() {
    let entry = StatementParser::new("")
        .parse_balance(Date::new(2022, 1, 1), "Assets:Depot:META 5 CHF ")
        .unwrap();

    assert_eq!(entry.date, Date::new(2022, 1, 1));
    assert_eq!(entry.account, "Assets:Depot:META");
    assert_eq!(entry.amount.number, Decimal::new(5, 0));
    assert_eq!(entry.amount.currency, "CHF");

    let entry = StatementParser::new("")
        .parse_balance(Date::new(2022, 1, 1), "Assets:Depot -5.123456 CHF")
        .unwrap();

    assert_eq!(entry.date, Date::new(2022, 1, 1));
    assert_eq!(entry.account, "Assets:Depot");
    assert_eq!(entry.amount.number, Decimal::new(-5123456, 6));
    assert_eq!(entry.amount.currency, "CHF");

    let entry = StatementParser::new("").parse_balance(Date::new(2022, 1, 1), "Assets:Depot  ");
    assert!(entry.is_err());

    let entry = StatementParser::new("").parse_balance(Date::new(2022, 1, 1), "Assets:Depot 3 ");
    assert!(entry.is_err());

    let entry =
        StatementParser::new("").parse_balance(Date::new(2022, 1, 1), "Assets:Depot usd chf ");
    assert!(entry.is_err());

    let entry = StatementParser::new("2024-10-03   balance Assets:Depot:Cash 0 CHF")
        .parse_entry()
        .unwrap();
    let entry = match entry {
        EntryVariant::Balance(o) => Ok(o),
        _ => Err("Incorrect return"),
    }
    .unwrap();
    assert_eq!(entry.date, Date::new(2024, 10, 3));
    assert_eq!(entry.account, "Assets:Depot:Cash");
    assert_eq!(entry.amount.number, Decimal::new(0, 0));
    assert_eq!(entry.amount.currency, "CHF");
}

#[test]
fn parser_test_parse_balance() {
    let entry = StatementParser::new("")
        .parse_balance(Date::new(2022, 1, 1), "Assets:Depot:META 5 CHF ")
        .unwrap();

    assert_eq!(entry.date, Date::new(2022, 1, 1));
    assert_eq!(entry.account, "Assets:Depot:META");
    assert_eq!(entry.amount.number, Decimal::new(5, 0));
    assert_eq!(entry.amount.currency, "CHF");

    let entry = StatementParser::new("")
        .parse_balance(Date::new(2022, 1, 1), "Assets:Depot -5.123456 CHF")
        .unwrap();

    assert_eq!(entry.date, Date::new(2022, 1, 1));
    assert_eq!(entry.account, "Assets:Depot");
    assert_eq!(entry.amount.number, Decimal::new(-5123456, 6));
    assert_eq!(entry.amount.currency, "CHF");

    let entry = StatementParser::new("").parse_balance(Date::new(2022, 1, 1), "Assets:Depot  ");
    assert!(entry.is_err());

    let entry = StatementParser::new("").parse_balance(Date::new(2022, 1, 1), "Assets:Depot 3 ");
    assert!(entry.is_err());

    let entry =
        StatementParser::new("").parse_balance(Date::new(2022, 1, 1), "Assets:Depot usd chf ");
    assert!(entry.is_err());

    let entry = StatementParser::new("2024-10-03   balance Assets:Depot:Cash 0 CHF")
        .parse_entry()
        .unwrap();
    let entry = match entry {
        EntryVariant::Balance(o) => Ok(o),
        _ => Err("Incorrect return"),
    }
    .unwrap();
    assert_eq!(entry.date, Date::new(2024, 10, 3));
    assert_eq!(entry.account, "Assets:Depot:Cash");
    assert_eq!(entry.amount.number, Decimal::new(0, 0));
    assert_eq!(entry.amount.currency, "CHF");
}

#[test]
fn test_parsed_entries() {
    let mut entries = ParsedEntries::default();
    assert!(entries.is_empty());
    assert_eq!(entries.len(), 0);
    entries.open.push(Open {
        date: Date::new(2024, 1, 1),
        account: "Assets:Cash".to_string(),
        allowed_currencies: None,
    });
    assert!(!entries.is_empty());
    assert_eq!(entries.len(), 1);
}

#[test]
fn parser_test_parsed_entries() {
    let mut entries = ParsedEntries::default();
    assert!(entries.is_empty());
    assert_eq!(entries.len(), 0);
    entries.open.push(Open {
        date: Date::new(2024, 1, 1),
        account: "Assets:Cash".to_string(),
        allowed_currencies: None,
    });
    assert!(!entries.is_empty());
    assert_eq!(entries.len(), 1);
}

#[test]
fn test_date_and_cmd() {
    let (d, cmd, remain) = date_and_cmd("2024-01-01 open Assets:Cash").unwrap();
    assert_eq!(d, Date::new(2024, 1, 1));
    assert_eq!(cmd, "open");
    assert_eq!(remain, " Assets:Cash");

    let (d, cmd, remain) = date_and_cmd("2024-01-01    open   Assets:Cash   ").unwrap();
    assert_eq!(d, Date::new(2024, 1, 1));
    assert_eq!(cmd, "open");
    assert_eq!(remain, "   Assets:Cash   ");

    let (d, cmd, remain) = date_and_cmd("2024-01-01 open").unwrap();
    assert_eq!(d, Date::new(2024, 1, 1));
    assert_eq!(cmd, "open");
    assert_eq!(remain, "");

    let (d, cmd, remain) = date_and_cmd("2024-01-01 *\n").unwrap();
    assert_eq!(d, Date::new(2024, 1, 1));
    assert_eq!(cmd, "*");
    assert_eq!(remain, "\n");

    let (d, cmd, remain) = date_and_cmd("2024-01-01 * \n fo bar").unwrap();
    assert_eq!(d, Date::new(2024, 1, 1));
    assert_eq!(cmd, "*");
    assert_eq!(remain, " \n fo bar");

    let res = date_and_cmd("2024-01-01");
    assert!(res.is_err());

    let res = date_and_cmd("open Assets:Cash");
    assert!(res.is_err());
}

#[test]
fn test_parse_transaction() {
    let mut entry = StatementParser::new(
        "2024-10-05 *
  Assets:Depot:Cash   -100 CHF
  Assets:Depot:AMD      1 AMD {100 CHF}  ",
    );
    let parsed = entry.parse_entry().unwrap();
    let t = match parsed {
        EntryVariant::Transaction(o) => Ok(o),
        _ => Err("Incorrect return"),
    }
    .unwrap();
    assert_eq!(t.date, Date::new(2024, 10, 5));
    assert_eq!(t.flag, TransactionFlag::OK);
    assert_eq!(t.postings.len(), 2);
    assert_eq!(t.postings[0].account, "Assets:Depot:Cash");
    assert_eq!(t.postings[0].amount.number, Decimal::new(-100, 0));
    assert_eq!(t.postings[0].amount.currency, "CHF");
    assert!(t.postings[0].price.is_none());
    assert!(t.postings[0].cost.is_none());
    assert_eq!(t.postings[1].account, "Assets:Depot:AMD");
    assert_eq!(t.postings[1].amount.number, Decimal::new(1, 0));
    assert_eq!(t.postings[1].amount.currency, "AMD");
    assert!(t.postings[1].price.is_none());
    assert!(t.postings[1].cost.is_some());
    if let Some(beanrust::types::CostType::Known(c)) = &t.postings[1].cost {
        assert_eq!(c.amount.number, Decimal::new(100, 0));
        assert_eq!(c.amount.currency, "CHF");
    } else {
        panic!("Cost not parsed correctly");
    }
}

#[test]
fn test_parse_account() {
    let (acc, rem) = StatementParser::new("")
        .parse_account("Assets:Depot:META META", true)
        .unwrap();
    assert_eq!(acc, "Assets:Depot:META".to_string());
    assert_eq!(rem, Some("META".to_string()));
    let result = StatementParser::new("").parse_account("Assets:Depot:META META", false);
    assert!(result.is_err());

    let (acc, rem) = StatementParser::new("").parse_account("Assets:Depot:Cash", true).unwrap();
    assert_eq!(acc, "Assets:Depot:Cash".to_string());
    assert_eq!(rem, None);
    let (acc, rem) = StatementParser::new("").parse_account("Assets:Depot:Cash", false).unwrap();
    assert_eq!(acc, "Assets:Depot:Cash".to_string());
    assert_eq!(rem, None);

    let result = StatementParser::new("").parse_account("", false);
    assert!(result.is_err());
}

#[test]
fn test_balance_amount_grammar() {
    // the amount portion goes through the Amount Grammar: an alphabetic
    // currency, adjacency allowed, trailing input an error
    assert!(StatementParser::new("")
        .parse_balance(Date::new(2022, 1, 1), "Assets:Cash 5 US1")
        .is_err());
    let entry = StatementParser::new("")
        .parse_balance(Date::new(2022, 1, 1), "Assets:Cash 5CHF")
        .unwrap();
    assert_eq!(entry.amount.number, Decimal::new(5, 0));
    assert_eq!(entry.amount.currency, "CHF");
    assert!(StatementParser::new("")
        .parse_balance(Date::new(2022, 1, 1), "Assets:Cash 5 CHF extra")
        .is_err());
}

#[test]
fn test_unknown_command() {
    let res = StatementParser::new("2024-01-01 widget Assets:Cash").parse_entry();
    assert!(res.is_err());
    assert_eq!(
        res.unwrap_err().failed_statement,
        "2024-01-01 widget Assets:Cash"
    );
}

#[test]
fn test_parse_commodity_entry() {
    let entry = StatementParser::new("2017-12-01 commodity AMD").parse_entry().unwrap();
    let c = match entry {
        EntryVariant::Commodity(c) => Ok(c),
        _ => Err("Incorrect return"),
    }
    .unwrap();
    assert_eq!(c.date, Date::new(2017, 12, 1));
    assert_eq!(c.currency, "AMD");

    assert!(StatementParser::new("2017-12-01 commodity").parse_entry().is_err());
    assert!(StatementParser::new("2017-12-01 commodity A B").parse_entry().is_err());
}

#[test]
fn test_parse_price_entry() {
    let entry = StatementParser::new("2024-10-03 price META 1.23 CHF").parse_entry().unwrap();
    let p = match entry {
        EntryVariant::PriceEntry(p) => Ok(p),
        _ => Err("Incorrect return"),
    }
    .unwrap();
    assert_eq!(p.date, Date::new(2024, 10, 3));
    assert_eq!(p.currency, "META");
    assert_eq!(p.amount.number, Decimal::new(123, 2));
    assert_eq!(p.amount.currency, "CHF");
}

#[test]
fn test_bad_date_is_error() {
    assert!(StatementParser::new("2024-02-30 open Assets:Cash").parse_entry().is_err());
    assert!(StatementParser::new("2024-1-01 open Assets:Cash").parse_entry().is_err());
}

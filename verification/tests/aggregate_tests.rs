use beanrust::parser::parse_entries_from_string;

#[test]
fn test_parse_ledger_with_unknown_directives() {
    let input = "2024-01-01 open Assets:Cash USD
2024-01-02 open Assets:Bank
2024-01-03 widget Something:Odd
2024-01-04 balance Assets:Cash xx CHF
2024-01-05 close Assets:Bank
2024-01-06 commodity CHF
2024-01-07 price CHF 1.02 USD
2024-01-08 balance Assets:Cash 5 USD";
    let entries = parse_entries_from_string(input).unwrap();
    assert_eq!(entries.open.len(), 2);
    assert_eq!(entries.close.len(), 1);
    assert_eq!(entries.commodity.len(), 1);
    assert_eq!(entries.price.len(), 1);
    assert_eq!(entries.balance.len(), 1);
    assert_eq!(entries.transactions.len(), 0);
    assert_eq!(entries.unhandled_entries.len(), 2);
    assert_eq!(entries.unhandled_entries[0], "2024-01-03 widget Something:Odd");
    assert_eq!(entries.unhandled_entries[1], "2024-01-04 balance Assets:Cash xx CHF");
}

#[test]
fn test_parse_ledger_with_transaction() {
    let input = "2017-12-01 commodity AMD
2024-10-03 balance Assets:Depot:Cash 0 CHF
; comment

2024-10-04 *
; comment in transaction
  Assets:Depot:Cash   2100 CHF
  Assets:Foo -500 CHF
  Income:Salary -1600 CHF
2017-12-06 commodity AMD";
    let entries = parse_entries_from_string(input).unwrap();
    assert_eq!(entries.commodity.len(), 2);
    assert_eq!(entries.balance.len(), 1);
    assert_eq!(entries.transactions.len(), 1);
    assert_eq!(entries.unhandled_entries.len(), 0);
    let t = &entries.transactions[0];
    assert_eq!(t.postings.len(), 3);
    assert!(t.check().is_ok());
}

#[test]
fn test_parse_segmentation_error_is_fatal() {
    let err = parse_entries_from_string("2024-01-01 open Assets:Cash\nnot a statement")
        .unwrap_err();
    assert_eq!(err.failed_statement, "not a statement");
}

#[test]
fn test_parse_empty_input() {
    let entries = parse_entries_from_string("").unwrap();
    assert!(entries.is_empty());
    assert_eq!(entries.unhandled_entries.len(), 0);
}

use beanrust::parser::statement_iterator::{
    is_multiline_statement_start, LineIterator, StatementIterator, TokenIterator,
};

#[test]
fn test_statement_iterator() {
    let data = "
        2017-12-01 commodity AMD
2024-10-03 balance Assets:Depot:Cash 0 CHF
; comment

2024-10-04 *
; comment in transaction
  Assets:Depot:Cash   2100 CHF
  Assets:Foo -500 CHF
  Income:Salary -1600 CHF
2017-12-06 commodity AMD
2024-10-04 *
foo bar
2024-10-04 *
foo bar3
  2024-01-01 close Assets:Depot ; some comment here * * 
;foo";
    let mut iterator = StatementIterator::new(data);
    assert_eq!(iterator.next(), Some(Ok("        2017-12-01 commodity AMD".to_string())));
    assert_eq!(
        iterator.next(),
        Some(Ok("2024-10-03 balance Assets:Depot:Cash 0 CHF".to_string()))
    );
    assert_eq!(
        iterator.next(),
        Some(Ok("2024-10-04 *
; comment in transaction
  Assets:Depot:Cash   2100 CHF
  Assets:Foo -500 CHF
  Income:Salary -1600 CHF"
            .to_string()))
    );
    assert_eq!(iterator.next(), Some(Ok("2017-12-06 commodity AMD".to_string())));
    assert_eq!(iterator.next(), Some(Ok("2024-10-04 *\nfoo bar".to_string())));
    assert_eq!(iterator.next(), Some(Ok("2024-10-04 *\nfoo bar3".to_string())));
    assert_eq!(
        iterator.next(),
        Some(Ok("  2024-01-01 close Assets:Depot ; some comment here * * ".to_string()))
    );

    assert_eq!(iterator.next(), None);
}

#[test]
fn statement_iterator_test_statement_iterator() {
    let data = "
        2017-12-01 commodity AMD
2024-10-03 balance Assets:Depot:Cash 0 CHF
; comment

2024-10-04 *
; comment in transaction
  Assets:Depot:Cash   2100 CHF
  Assets:Foo -500 CHF
  Income:Salary -1600 CHF
2017-12-06 commodity AMD
2024-10-04 *
foo bar
2024-10-04 *
foo bar3";
    let mut iterator = StatementIterator::new(data);
    assert_eq!(iterator.next(), Some(Ok("        2017-12-01 commodity AMD".to_string())));
    assert_eq!(
        iterator.next(),
        Some(Ok("2024-10-03 balance Assets:Depot:Cash 0 CHF".to_string()))
    );
    assert_eq!(
        iterator.next(),
        Some(Ok("2024-10-04 *
; comment in transaction
  Assets:Depot:Cash   2100 CHF
  Assets:Foo -500 CHF
  Income:Salary -1600 CHF"
            .to_string()))
    );
    assert_eq!(iterator.next(), Some(Ok("2017-12-06 commodity AMD".to_string())));
    assert_eq!(iterator.next(), Some(Ok("2024-10-04 *\nfoo bar".to_string())));
    assert_eq!(iterator.next(), Some(Ok("2024-10-04 *\nfoo bar3".to_string())));

    assert_eq!(iterator.next(), None);
}

#[test]
fn test_segmenter_four_statements() {
    let data = "2017-12-01 commodity AMD\n2024-10-03 balance Assets:Depot:Cash 0 CHF\n; comment\n\n2024-10-04 *\n; comment in transaction\n  Assets:Depot:Cash   2100 CHF\n  Assets:Foo -500 CHF\n  Income:Salary -1600 CHF\n2017-12-06 commodity AMD";
    let mut it = StatementIterator::new(data);
    let mut statements: Vec<String> = Vec::new();
    while let Some(s) = it.next() {
        statements.push(s.unwrap());
    }
    assert_eq!(statements.len(), 4);
    assert_eq!(statements[0], "2017-12-01 commodity AMD");
    assert_eq!(statements[1], "2024-10-03 balance Assets:Depot:Cash 0 CHF");
    assert_eq!(
        statements[2],
        "2024-10-04 *\n; comment in transaction\n  Assets:Depot:Cash   2100 CHF\n  Assets:Foo -500 CHF\n  Income:Salary -1600 CHF"
    );
    assert_eq!(statements[3], "2017-12-06 commodity AMD");
}

#[test]
fn test_segmenter_reports_bad_line() {
    let mut iterator = StatementIterator::new("2017-12-01 commodity AMD\nnot a statement");
    assert_eq!(iterator.next(), Some(Ok("2017-12-01 commodity AMD".to_string())));
    let err = iterator.next().unwrap().unwrap_err();
    assert_eq!(err.failed_statement, "not a statement");
    assert_eq!(iterator.next(), None);
}

#[test]
fn test_regex_multiline() {
    let multi_positive = vec![
        "2024-10-04 *",
        "2024-10-04 * \"some text\"",
        "2024-10-04   * \"some text\" ; comments",
        "2024-10-04   *\"some text\"   \"some text\" #comments",
    ];
    let multi_negative = vec![
        "2024-10-04 close Foo:Bar",
        "; 2024-10-04 * ",
        "# 2024-10-04 * ",
        "2024-10-04 close Foo:Bar ; comments * important *",
        "****2024-10-04 close Foo:Bar ; comments * important *",
    ];
    for line in multi_positive {
        assert!(is_multiline_statement_start(line), "line should match: `{}`", line);
    }
    for line in multi_negative {
        assert!(!is_multiline_statement_start(line), "line should NOT match: `{}`", line);
    }
}

#[test]
fn test_line_iterator() {
    let mut iterator = LineIterator::new("");
    assert_eq!(iterator.next(), None);

    let data = "foo\n\nbar\n";
    let mut it = LineIterator::new(data);
    let mut results: Vec<(usize, usize)> = Vec::new();
    while let Some(l) = it.next() {
        results.push(l);
    }
    assert_eq!(results, [(0, 3), (4, 4), (5, 8)]);
    assert_eq!(&data[results[0].0..results[0].1], "foo");
    assert_eq!(&data[results[1].0..results[1].1], "");
    assert_eq!(&data[results[2].0..results[2].1], "bar");
}

#[test]
fn statement_iterator_test_line_iterator() {
    let mut iterator = LineIterator::new("");
    assert_eq!(iterator.next(), None);

    let data = "foo\n\nbar\n";
    let mut it = LineIterator::new(data);
    let mut results: Vec<(usize, usize)> = Vec::new();
    while let Some(l) = it.next() {
        results.push(l);
    }
    assert_eq!(results, [(0, 3), (4, 4), (5, 8)]);
    assert_eq!(&data[results[0].0..results[0].1], "foo");
    assert_eq!(&data[results[1].0..results[1].1], "");
    assert_eq!(&data[results[2].0..results[2].1], "bar");
}

fn collect_tokens(data: &str) -> Vec<String> {
    let mut it = TokenIterator::new(data);
    let mut v: Vec<String> = Vec::new();
    while let Some(t) = it.next() {
        v.push(t);
    }
    v
}

#[test]
fn test_token_iterator() {
    let mut iterator = TokenIterator::new("");
    assert_eq!(iterator.next(), None);

    assert_eq!(collect_tokens("  foo   bar  baz   "), vec!["foo", "bar", "baz"]);

    assert_eq!(collect_tokens("  $oo  öar  üa"), vec!["$oo", "öar", "üa"]);

    assert_eq!(
        collect_tokens("5.123478 USD {} @ 1 CHF"),
        vec!["5.123478", "USD", "{}", "@", "1", "CHF"]
    );

    assert_eq!(collect_tokens("5.123478 USD ; omg "), vec!["5.123478", "USD"]);
    assert_eq!(collect_tokens("5.123478 USD # omg "), vec!["5.123478", "USD"]);

    let mut it = TokenIterator::new("  foo   bar  baz ; og  ");
    assert_eq!(it.remaining(), "foo   bar  baz");
    it.next();
    assert_eq!(it.remaining(), "bar  baz");
}

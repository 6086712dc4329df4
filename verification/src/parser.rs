//! Parsing a ledger: statements to typed entries.
pub mod statement_iterator;
pub mod transaction_parsing;

use crate::date::Date;
use crate::decimal::Decimal;
use crate::text::{
    alpha_char, comment_cut, first_from, spec_is_comment_char, trim_comment_spec, trim_spec,
    trim_start_spec, ws_char,
};
use crate::types::Amount;
use vstd::prelude::*;

verus! {

/// A failure to read one statement: a short context message together with
/// the complete original statement text, kept for the caller's diagnostics.
#[derive(Debug, PartialEq, Clone)]
pub struct ParseError {
    pub context: String,
    pub failed_statement: String,
}

/// Whether `c` introduces an end-of-line comment.
pub fn is_comment_char(c: char) -> (r: bool)
    ensures
        r == spec_is_comment_char(c),
{
    c == ';' || c == '#'
}

/// Cuts `data` at the rightmost comment character of its last physical
/// line; earlier lines are never touched.
pub fn trim_comment_at_end<'a>(data: &'a str) -> (r: &'a str)
    ensures
        r@ == trim_comment_spec(data@),
{
    let n = data.unicode_len();
    let mut idx: usize = n;
    while idx > 0
        invariant
            0 <= idx <= n,
            n == data@.len(),
            forall|i: int| idx <= i < n ==> (#[trigger] data@[i]) != '\n' && !spec_is_comment_char(
                data@[i],
            ),
        decreases idx,
    {
        let c = data.get_char(idx - 1);
        if c == '\n' {
            proof {
                crate::text::lemma_cut_scan(data@, idx as int);
                assert(data@.take(idx as int).len() == idx as int);
                assert(data@.take(idx as int).last() == '\n');
                assert(comment_cut(data@.take(idx as int)) == -1);
                assert(trim_comment_spec(data@) == data@);
            }
            return data;
        }
        if is_comment_char(c) {
            proof {
                crate::text::lemma_cut_scan(data@, idx as int);
                assert(data@.take(idx as int).len() == idx as int);
                assert(data@.take(idx as int).last() == data@[idx - 1]);
                assert(data@[idx - 1] != '\n');
                assert(comment_cut(data@.take(idx as int)) == idx - 1);
                assert(comment_cut(data@) == idx - 1);
            }
            let r = data.substring_char(0, idx - 1);
            proof {
                assert(r@ =~= trim_comment_spec(data@));
            }
            return r;
        }
        idx = idx - 1;
    }
    proof {
        crate::text::lemma_cut_scan(data@, 0);
        assert(data@.take(0) =~= Seq::<char>::empty());
    }
    data
}

/// How a statement's head is read: after leading whitespace, the date runs
/// to the first space; the command is the next whitespace-delimited word.
pub open spec fn dc_head(s: Seq<char>) -> Seq<char> {
    trim_start_spec(s)
}

pub open spec fn dc_sp(s: Seq<char>) -> int {
    first_from(dc_head(s), 0, |c: char| c == ' ')
}

pub open spec fn dc_date_str(s: Seq<char>) -> Seq<char> {
    dc_head(s).take(dc_sp(s))
}

pub open spec fn dc_r1(s: Seq<char>) -> Seq<char> {
    trim_start_spec(dc_head(s).skip(dc_sp(s) + 1))
}

pub open spec fn dc_we(s: Seq<char>) -> int {
    first_from(dc_r1(s), 0, |c: char| ws_char(c))
}

pub open spec fn dc_cmd(s: Seq<char>) -> Seq<char> {
    dc_r1(s).take(dc_we(s))
}

pub open spec fn dc_rem(s: Seq<char>) -> Seq<char> {
    if dc_we(s) == dc_r1(s).len() {
        Seq::<char>::empty()
    } else {
        dc_r1(s).skip(dc_we(s))
    }
}

pub open spec fn dc_ok(s: Seq<char>) -> bool {
    &&& dc_sp(s) < dc_head(s).len()
    &&& crate::date::date_lit_ok(dc_date_str(s))
    &&& dc_cmd(s).len() > 0
}

pub open spec fn dc_date(s: Seq<char>) -> Date {
    Date {
        year: crate::date::date_lit_year(dc_date_str(s)) as u32,
        month: crate::date::date_lit_month(dc_date_str(s)) as u32,
        day: crate::date::date_lit_day(dc_date_str(s)) as u32,
    }
}

/// Splits a statement into its leading date, the command word (or flag) and
/// the untouched rest of the text.
pub fn date_and_cmd<'a>(statement: &'a str) -> (r: Result<(Date, &'a str, &'a str), String>)
    ensures
        (r is Ok) <==> dc_ok(statement@),
        r matches Ok(p) ==> {
            &&& p.0 == dc_date(statement@)
            &&& p.0.wf()
            &&& p.1@ == dc_cmd(statement@)
            &&& p.2@ == dc_rem(statement@)
        },
{
    let ghost s = statement@;
    let t0 = crate::text::trim_start_str(statement);
    let n0 = t0.unicode_len();
    let mut sp: usize = 0;
    while sp < n0 && t0.get_char(sp) != ' '
        invariant
            0 <= sp <= n0,
            n0 == t0@.len(),
            t0@ == dc_head(s),
            forall|i: int| 0 <= i < sp ==> (#[trigger] t0@[i]) != ' ',
        decreases n0 - sp,
    {
        sp = sp + 1;
    }
    proof {
        crate::text::lemma_first_from_shift(t0@, 0, sp as int, |c: char| c == ' ');
        crate::text::lemma_first_from(t0@, sp as int, |c: char| c == ' ');
        assert(dc_sp(s) == sp as int);
    }
    if sp == n0 {
        return Err(String::from_str("No date in entry"));
    }
    let date_str = t0.substring_char(0, sp);
    proof {
        assert(date_str@ =~= dc_date_str(s));
    }
    let date = match Date::from_str(date_str) {
        Some(d) => d,
        None => {
            return Err(String::from_str("unable to parse date"));
        }
    };
    let rem0 = t0.substring_char(sp + 1, n0);
    proof {
        assert(rem0@ =~= dc_head(s).skip(dc_sp(s) + 1));
    }
    let r1 = crate::text::trim_start_str(rem0);
    let n1 = r1.unicode_len();
    let mut we: usize = 0;
    while we < n1 && !crate::text::is_ws(r1.get_char(we))
        invariant
            0 <= we <= n1,
            n1 == r1@.len(),
            r1@ == dc_r1(s),
            forall|i: int| 0 <= i < we ==> !ws_char(#[trigger] r1@[i]),
        decreases n1 - we,
    {
        we = we + 1;
    }
    proof {
        crate::text::lemma_first_from_shift(r1@, 0, we as int, |c: char| ws_char(c));
        crate::text::lemma_first_from(r1@, we as int, |c: char| ws_char(c));
        assert(dc_we(s) == we as int);
    }
    let cmd = r1.substring_char(0, we);
    proof {
        assert(cmd@ =~= dc_cmd(s));
    }
    if we == 0 {
        return Err(String::from_str("No command in entry"));
    }
    let rem_final = if we == n1 {
        let r = r1.substring_char(n1, n1);
        proof {
            assert(r@ =~= dc_rem(s));
        }
        r
    } else {
        let r = r1.substring_char(we, n1);
        proof {
            assert(r@ =~= dc_rem(s));
        }
        r
    };
    Ok((date, cmd, rem_final))
}

/// How `<number><currency>` text is read: the currency is the maximal
/// alphabetic run starting at the first alphabetic character, the number is
/// everything before it, trimmed.
pub open spec fn ca_i(s: Seq<char>) -> int {
    first_from(s, 0, |c: char| alpha_char(c))
}

pub open spec fn ca_j(s: Seq<char>) -> int {
    first_from(s, ca_i(s), |c: char| !alpha_char(c))
}

pub open spec fn ca_num_str(s: Seq<char>) -> Seq<char> {
    trim_spec(s.take(ca_i(s)))
}

pub open spec fn ca_currency(s: Seq<char>) -> Seq<char> {
    s.subrange(ca_i(s), ca_j(s))
}

pub open spec fn ca_ok(s: Seq<char>) -> bool {
    &&& ca_i(s) < s.len()
    &&& crate::decimal::lit_ok(ca_num_str(s))
    &&& crate::decimal::lit_scale(ca_num_str(s)) <= crate::decimal::MAX_SCALE as nat
    &&& -crate::decimal::MAX_MANTISSA <= crate::decimal::lit_mantissa(ca_num_str(s))
        <= crate::decimal::MAX_MANTISSA
}

pub open spec fn ca_number(s: Seq<char>) -> Decimal {
    Decimal {
        mantissa: crate::decimal::lit_mantissa(ca_num_str(s)) as i128,
        scale: crate::decimal::lit_scale(ca_num_str(s)) as u32,
    }
}

/// Reads one amount `<number><currency>` (the space optional) off the front
/// of `input` and returns the rest of the text untouched.
pub fn consume_amount<'a>(input: &'a str) -> (r: Result<(Amount, &'a str), String>)
    ensures
        (r is Ok) <==> ca_ok(input@),
        r matches Ok(p) ==> {
            &&& p.0.number == ca_number(input@)
            &&& p.0.currency@ == ca_currency(input@)
            &&& p.0.wf()
            &&& p.0.currency@.len() > 0
            &&& forall|k: int| 0 <= k < p.0.currency@.len() ==> alpha_char(
                #[trigger] p.0.currency@[k],
            )
            &&& p.1@ == input@.skip(ca_j(input@))
        },
{
    let ghost s = input@;
    let n = input.unicode_len();
    let mut i: usize = 0;
    while i < n && !crate::text::is_alpha(input.get_char(i))
        invariant
            0 <= i <= n,
            n == s.len(),
            s == input@,
            forall|k: int| 0 <= k < i ==> !alpha_char(#[trigger] s[k]),
        decreases n - i,
    {
        i = i + 1;
    }
    proof {
        crate::text::lemma_first_from_shift(s, 0, i as int, |c: char| alpha_char(c));
        crate::text::lemma_first_from(s, i as int, |c: char| alpha_char(c));
        assert(ca_i(s) == i as int);
    }
    if i == n {
        let mut msg = String::from_str("No currency found: ");
        msg.append(input);
        return Err(msg);
    }
    let mut j: usize = i;
    while j < n && crate::text::is_alpha(input.get_char(j))
        invariant
            i <= j <= n,
            n == s.len(),
            s == input@,
            forall|k: int| i <= k < j ==> alpha_char(#[trigger] s[k]),
        decreases n - j,
    {
        j = j + 1;
    }
    proof {
        crate::text::lemma_first_from_shift(s, i as int, j as int, |c: char| !alpha_char(c));
        crate::text::lemma_first_from(s, j as int, |c: char| !alpha_char(c));
        assert(ca_j(s) == j as int);
    }
    let num_part = crate::text::trim_str(input.substring_char(0, i));
    proof {
        assert(num_part@ == trim_spec(s.take(i as int)));
    }
    let number = match Decimal::from_str_exact(num_part) {
        Some(d) => d,
        None => {
            let mut msg = String::from_str("unable to parse amount number: ");
            msg.append(input);
            return Err(msg);
        }
    };
    let currency = String::from_str(input.substring_char(i, j));
    let rest = input.substring_char(j, n);
    proof {
        assert(currency@ =~= ca_currency(s));
        assert(rest@ =~= s.skip(ca_j(s)));
    }
    Ok((Amount { number, currency }, rest))
}

/// Everything one parse run produced, one collection per entry kind, plus
/// the raw text of every statement that could not be understood.
#[derive(Debug)]
pub struct ParsedEntries {
    pub open: Vec<crate::types::Open>,
    pub balance: Vec<crate::types::Balance>,
    pub close: Vec<crate::types::Close>,
    pub commodity: Vec<crate::types::Commodity>,
    pub price: Vec<crate::types::PriceEntry>,
    pub transactions: Vec<crate::types::Transaction>,
    pub unhandled_entries: Vec<String>,
}

impl ParsedEntries {
    /// How many entries the three core collections hold together.
    pub fn len(&self) -> (r: usize)
        requires
            self.open@.len() + self.balance@.len() + self.close@.len() <= usize::MAX,
        ensures
            r == self.open@.len() + self.balance@.len() + self.close@.len(),
    {
        self.open.len() + self.balance.len() + self.close.len()
    }

    pub fn is_empty(&self) -> (r: bool)
        requires
            self.open@.len() + self.balance@.len() + self.close@.len() <= usize::MAX,
        ensures
            r == (self.open@.len() + self.balance@.len() + self.close@.len() == 0),
    {
        self.len() == 0
    }

    /// Appends the entry to the collection of its kind, leaving the others
    /// untouched.
    pub fn push(&mut self, entry: crate::types::EntryVariant)
        ensures
            ({
                let o = *old(self);
                let n = *final(self);
                &&& entry matches crate::types::EntryVariant::Open(e) ==> n.open@ == o.open@.push(
                    e,
                ) && n.balance == o.balance && n.close == o.close && n.commodity == o.commodity
                    && n.price == o.price && n.transactions == o.transactions
                    && n.unhandled_entries == o.unhandled_entries
                &&& entry matches crate::types::EntryVariant::Balance(e) ==> n.balance@
                    == o.balance@.push(e) && n.open == o.open && n.close == o.close && n.commodity
                    == o.commodity && n.price == o.price && n.transactions == o.transactions
                    && n.unhandled_entries == o.unhandled_entries
                &&& entry matches crate::types::EntryVariant::Close(e) ==> n.close@
                    == o.close@.push(e) && n.open == o.open && n.balance == o.balance
                    && n.commodity == o.commodity && n.price == o.price && n.transactions
                    == o.transactions && n.unhandled_entries == o.unhandled_entries
                &&& entry matches crate::types::EntryVariant::Commodity(e) ==> n.commodity@
                    == o.commodity@.push(e) && n.open == o.open && n.balance == o.balance
                    && n.close == o.close && n.price == o.price && n.transactions
                    == o.transactions && n.unhandled_entries == o.unhandled_entries
                &&& entry matches crate::types::EntryVariant::PriceEntry(e) ==> n.price@
                    == o.price@.push(e) && n.open == o.open && n.balance == o.balance && n.close
                    == o.close && n.commodity == o.commodity && n.transactions == o.transactions
                    && n.unhandled_entries == o.unhandled_entries
                &&& entry matches crate::types::EntryVariant::Transaction(e) ==> n.transactions@
                    == o.transactions@.push(e) && n.open == o.open && n.balance == o.balance
                    && n.close == o.close && n.commodity == o.commodity && n.price == o.price
                    && n.unhandled_entries == o.unhandled_entries
            }),
    {
        match entry {
            crate::types::EntryVariant::Open(o) => self.open.push(o),
            crate::types::EntryVariant::Balance(b) => self.balance.push(b),
            crate::types::EntryVariant::Close(c) => self.close.push(c),
            crate::types::EntryVariant::Commodity(c) => self.commodity.push(c),
            crate::types::EntryVariant::PriceEntry(p) => self.price.push(p),
            crate::types::EntryVariant::Transaction(t) => self.transactions.push(t),
        }
    }

    /// Files a parse outcome: a success by its kind, a failure by its raw
    /// statement text.
    pub fn push_result(&mut self, entry: Result<crate::types::EntryVariant, ParseError>)
        ensures
            ({
                let o = *old(self);
                let n = *final(self);
                &&& entry matches Ok(ev) ==> {
                    &&& ev matches crate::types::EntryVariant::Open(e) ==> n.open@
                        == o.open@.push(e) && n.unhandled_entries == o.unhandled_entries
                    &&& ev matches crate::types::EntryVariant::Balance(e) ==> n.balance@
                        == o.balance@.push(e) && n.unhandled_entries == o.unhandled_entries
                    &&& ev matches crate::types::EntryVariant::Close(e) ==> n.close@
                        == o.close@.push(e) && n.unhandled_entries == o.unhandled_entries
                    &&& ev matches crate::types::EntryVariant::Commodity(e) ==> n.commodity@
                        == o.commodity@.push(e) && n.unhandled_entries == o.unhandled_entries
                    &&& ev matches crate::types::EntryVariant::PriceEntry(e) ==> n.price@
                        == o.price@.push(e) && n.unhandled_entries == o.unhandled_entries
                    &&& ev matches crate::types::EntryVariant::Transaction(e) ==> n.transactions@
                        == o.transactions@.push(e) && n.unhandled_entries == o.unhandled_entries
                    &&& !(ev matches crate::types::EntryVariant::Open(_)) ==> n.open == o.open
                    &&& !(ev matches crate::types::EntryVariant::Balance(_)) ==> n.balance
                        == o.balance
                    &&& !(ev matches crate::types::EntryVariant::Close(_)) ==> n.close == o.close
                    &&& !(ev matches crate::types::EntryVariant::Commodity(_)) ==> n.commodity
                        == o.commodity
                    &&& !(ev matches crate::types::EntryVariant::PriceEntry(_)) ==> n.price
                        == o.price
                    &&& !(ev matches crate::types::EntryVariant::Transaction(_))
                        ==> n.transactions == o.transactions
                }
                &&& entry matches Err(e) ==> n.unhandled_entries@ == o.unhandled_entries@.push(
                    e.failed_statement,
                ) && n.open == o.open && n.balance == o.balance && n.close == o.close
                    && n.commodity == o.commodity && n.price == o.price && n.transactions
                    == o.transactions
            }),
    {
        match entry {
            Ok(e) => self.push(e),
            Err(e) => {
                self.unhandled_entries.push(e.failed_statement);
            }
        }
    }
}

impl Default for ParsedEntries {
    fn default() -> (r: ParsedEntries)
        ensures
            r.open@.len() == 0,
            r.balance@.len() == 0,
            r.close@.len() == 0,
            r.commodity@.len() == 0,
            r.price@.len() == 0,
            r.transactions@.len() == 0,
            r.unhandled_entries@.len() == 0,
    {
        ParsedEntries {
            open: Vec::new(),
            balance: Vec::new(),
            close: Vec::new(),
            commodity: Vec::new(),
            price: Vec::new(),
            transactions: Vec::new(),
            unhandled_entries: Vec::new(),
        }
    }
}

/// No newline occurs in `s`: the shape of one physical line.
pub open spec fn single_line(s: Seq<char>) -> bool {
    forall|i: int| 0 <= i < s.len() ==> (#[trigger] s[i]) != '\n'
}

/// The tokens of a directive's payload: the trailing comment removed, the
/// text trimmed, then split on whitespace.
pub open spec fn stmt_tokens(s: Seq<char>) -> Seq<Seq<char>> {
    crate::parser::statement_iterator::tokens_of(trim_spec(trim_comment_spec(s)))
}

/// Parses one complete statement, which may span several lines for a
/// transaction.
pub struct StatementParser {
    pub statement: String,
}

impl StatementParser {
    pub fn new(statement: &str) -> (r: StatementParser)
        ensures
            r.statement@ == statement@,
    {
        StatementParser { statement: String::from_str(statement) }
    }

    /// An error that carries the whole statement for diagnostics.
    pub fn new_parse_err(&self, context: String) -> (r: ParseError)
        ensures
            r.context == context,
            r.failed_statement@ == self.statement@,
    {
        ParseError { context, failed_statement: self.statement.clone() }
    }

    /// The next token, or an error naming what was expected.
    pub fn get_next_token(
        &self,
        token_it: &mut crate::parser::statement_iterator::TokenIterator,
        token_type: &str,
    ) -> (r: Result<String, ParseError>)
        requires
            old(token_it).wf(),
        ensures
            final(token_it).wf(),
            final(token_it).data == old(token_it).data,
            (r is Ok) <==> old(token_it).toks().len() > 0,
            r matches Ok(t) ==> t@ == old(token_it).toks()[0] && final(token_it).toks() == old(
                token_it,
            ).toks().drop_first(),
            r is Err ==> *final(token_it) == *old(token_it),
            r matches Err(e) ==> e.failed_statement@ == self.statement@,
    {
        match token_it.next() {
            Some(t) => Ok(t),
            None => {
                let mut msg = String::from_str("No ");
                msg.append(token_type);
                msg.append(" found");
                Err(self.new_parse_err(msg))
            }
        }
    }

    /// An error when any token is left over.
    pub fn err_if_more_tokens(
        &self,
        token_it: &mut crate::parser::statement_iterator::TokenIterator,
        token_type: &str,
    ) -> (r: Result<(), ParseError>)
        requires
            old(token_it).wf(),
        ensures
            final(token_it).wf(),
            final(token_it).data == old(token_it).data,
            (r is Ok) <==> old(token_it).toks().len() == 0,
            r matches Err(e) ==> e.failed_statement@ == self.statement@,
    {
        match token_it.next() {
            Some(_) => {
                let mut msg = String::from_str("Unexpected remaining input in ");
                msg.append(token_type);
                msg.append(" parsing");
                Err(self.new_parse_err(msg))
            }
            None => Ok(()),
        }
    }

    /// `open <account> [<currency> ...]`.
    pub fn parse_open(&self, date: Date, remaining: &str) -> (r: Result<
        crate::types::Open,
        ParseError,
    >)
        requires
            single_line(remaining@),
        ensures
            ({
                let toks = stmt_tokens(remaining@);
                &&& (r is Ok) <==> toks.len() >= 1
                &&& r matches Err(e) ==> e.failed_statement@ == self.statement@
                &&& r matches Ok(o) ==> {
                    &&& o.date == date
                    &&& o.account@ == toks[0]
                    &&& toks.len() == 1 ==> o.allowed_currencies is None
                    &&& toks.len() > 1 ==> (o.allowed_currencies matches Some(v) && v@.len()
                        == toks.len() - 1 && (forall|k: int|
                        0 <= k < v@.len() ==> (#[trigger] v@[k])@ == toks[k + 1]))
                }
            }),
    {
        let ghost toks = stmt_tokens(remaining@);
        let mut it = crate::parser::statement_iterator::TokenIterator::new(remaining);
        let account = match self.get_next_token(&mut it, "account") {
            Ok(t) => t,
            Err(e) => {
                return Err(e);
            }
        };
        proof {
            assert(toks.drop_first() =~= toks.skip(1));
        }
        let mut currencies: Vec<String> = Vec::new();
        let ghost mut consumed: int = 1;
        loop
            invariant
                it.wf(),
                toks == stmt_tokens(remaining@),
                account@ == toks[0],
                1 <= consumed <= toks.len(),
                it.toks() == toks.skip(consumed),
                currencies@.len() == consumed - 1,
                forall|k: int| 0 <= k < currencies@.len() ==> (#[trigger] currencies@[k])@
                    == toks[k + 1],
            ensures
                toks.len() >= 1,
                account@ == toks[0],
                currencies@.len() == toks.len() - 1,
                forall|k: int| 0 <= k < currencies@.len() ==> (#[trigger] currencies@[k])@
                    == toks[k + 1],
            decreases toks.len() - consumed,
        {
            match it.next() {
                Some(t) => {
                    proof {
                        assert(toks.skip(consumed)[0] == toks[consumed]);
                        assert(toks.skip(consumed).drop_first() =~= toks.skip(consumed + 1));
                    }
                    currencies.push(t);
                    proof {
                        consumed = consumed + 1;
                    }
                }
                None => {
                    proof {
                        assert(toks.skip(consumed) =~= Seq::<Seq<char>>::empty());
                        assert(consumed == toks.len());
                    }
                    break;
                }
            }
        }
        if currencies.len() == 0 {
            Ok(crate::types::Open { date, account, allowed_currencies: None })
        } else {
            Ok(crate::types::Open { date, account, allowed_currencies: Some(currencies) })
        }
    }

    /// `close <account>`, with nothing after the account.
    pub fn parse_close(&self, date: Date, remaining: &str) -> (r: Result<
        crate::types::Close,
        ParseError,
    >)
        requires
            single_line(remaining@),
        ensures
            ({
                let toks = stmt_tokens(remaining@);
                &&& (r is Ok) <==> toks.len() == 1
                &&& r matches Err(e) ==> e.failed_statement@ == self.statement@
                &&& r matches Ok(c) ==> c.date == date && c.account@ == toks[0]
            }),
    {
        let mut it = crate::parser::statement_iterator::TokenIterator::new(remaining);
        let account = match self.get_next_token(&mut it, "close") {
            Ok(t) => t,
            Err(e) => {
                return Err(e);
            }
        };
        match self.err_if_more_tokens(&mut it, "close") {
            Ok(()) => Ok(crate::types::Close { date, account }),
            Err(e) => Err(e),
        }
    }

    /// `commodity <currency>`: the whole trimmed payload is one word.
    pub fn parse_commodity(&self, date: Date, remaining: &str) -> (r: Result<
        crate::types::Commodity,
        ParseError,
    >)
        ensures
            ({
                let t = trim_spec(remaining@);
                &&& (r is Ok) <==> (t.len() > 0 && (forall|i: int|
                    0 <= i < t.len() ==> (#[trigger] t[i]) != ' '))
                &&& r matches Err(e) ==> e.failed_statement@ == self.statement@
                &&& r matches Ok(c) ==> c.date == date && c.currency@ == t
            }),
    {
        let commodity = crate::text::trim_str(remaining);
        if commodity.unicode_len() == 0 {
            return Err(self.new_parse_err(String::from_str("No commodity specified in entry")));
        }
        if crate::text::contains_char(commodity, ' ') {
            return Err(
                self.new_parse_err(
                    String::from_str("unexpected remaining input in commodity parsing"),
                ),
            );
        }
        Ok(crate::types::Commodity { date, currency: String::from_str(commodity) })
    }

    /// A payload of the form `<name> <amount>`: the name runs to the first
    /// whitespace, and everything after it must be one amount in the Amount
    /// Grammar, with nothing else trailing.
    pub fn parse_str_and_price(&self, remaining: &str, token_type: &str) -> (r: Result<
        (String, Amount),
        ParseError,
    >)
        requires
            single_line(remaining@),
        ensures
            (r is Ok) <==> sp_ok(remaining@),
            r matches Err(e) ==> e.failed_statement@ == self.statement@,
            r matches Ok(p) ==> sp_fields_ok(remaining@, p.0@, p.1),
    {
        let cut = trim_comment_at_end(remaining);
        let u = crate::text::trim_str(cut);
        let ghost us = u@;
        proof {
            assert(us == sp_src(remaining@));
            crate::text::lemma_trim_spec(crate::text::trim_comment_spec(remaining@));
        }
        let n = u.unicode_len();
        if n == 0 {
            let mut msg = String::from_str("No ");
            msg.append(token_type);
            msg.append(" found");
            return Err(self.new_parse_err(msg));
        }
        let mut e: usize = 0;
        while e < n && !crate::text::is_ws(u.get_char(e))
            invariant
                0 <= e <= n,
                n == us.len(),
                us == u@,
                forall|i: int| 0 <= i < e ==> !ws_char(#[trigger] us[i]),
            decreases n - e,
        {
            e = e + 1;
        }
        proof {
            crate::text::lemma_first_from_shift(us, 0, e as int, |c: char| ws_char(c));
            crate::text::lemma_first_from(us, e as int, |c: char| ws_char(c));
            assert(sp_name_end(remaining@) == e as int);
        }
        let name = String::from_str(u.substring_char(0, e));
        proof {
            assert(name@ =~= sp_name(remaining@));
        }
        let rest = crate::text::after_ws(u, e);
        proof {
            assert(rest@ == sp_rest(remaining@));
        }
        match Amount::try_from(rest) {
            Ok(amount) => Ok((name, amount)),
            Err(e) => {
                let mut msg = String::from_str("unable to parse amount in ");
                msg.append(token_type);
                msg.append(" entry: ");
                msg.append(e.as_str());
                Err(self.new_parse_err(msg))
            }
        }
    }

    /// `balance <account> <number> <currency>`.
    pub fn parse_balance(&self, date: Date, remaining: &str) -> (r: Result<
        crate::types::Balance,
        ParseError,
    >)
        requires
            single_line(remaining@),
        ensures
            (r is Ok) <==> sp_ok(remaining@),
            r matches Err(e) ==> e.failed_statement@ == self.statement@,
            r matches Ok(b) ==> b.date == date && sp_fields_ok(
                remaining@,
                b.account@,
                b.amount,
            ),
    {
        match self.parse_str_and_price(remaining, "balance") {
            Ok((account, amount)) => Ok(crate::types::Balance { date, account, amount }),
            Err(e) => Err(e),
        }
    }

    /// `price <currency> <number> <currency>`.
    pub fn parse_price(&self, date: Date, remaining: &str) -> (r: Result<
        crate::types::PriceEntry,
        ParseError,
    >)
        requires
            single_line(remaining@),
        ensures
            (r is Ok) <==> sp_ok(remaining@),
            r matches Err(e) ==> e.failed_statement@ == self.statement@,
            r matches Ok(p) ==> p.date == date && sp_fields_ok(
                remaining@,
                p.currency@,
                p.amount,
            ),
    {
        match self.parse_str_and_price(remaining, "price") {
            Ok((currency, amount)) => Ok(crate::types::PriceEntry { date, currency, amount }),
            Err(e) => Err(e),
        }
    }

    /// An account name at the front of the payload; the rest is either
    /// allowed and handed back, or an error.
    pub fn parse_account(&self, remaining: &str, allow_remaining: bool) -> (r: Result<
        (String, Option<String>),
        ParseError,
    >)
        ensures
            ({
                let t = trim_spec(remaining@);
                let sp = first_from(t, 0, |c: char| c == ' ');
                &&& (r is Ok) <==> (t.len() > 0 && (sp == t.len() || allow_remaining))
                &&& r matches Ok(p) ==> {
                    &&& sp == t.len() ==> p.0@ == t && p.1 is None
                    &&& sp < t.len() ==> (p.1 matches Some(x) && x@ == t.skip(sp + 1) && p.0@
                        == t.take(sp))
                }
            }),
    {
        let input = crate::text::trim_str(remaining);
        let ghost t = input@;
        let n = input.unicode_len();
        let mut sp: usize = 0;
        while sp < n && input.get_char(sp) != ' '
            invariant
                0 <= sp <= n,
                n == t.len(),
                t == input@,
                forall|i: int| 0 <= i < sp ==> (#[trigger] t[i]) != ' ',
            decreases n - sp,
        {
            sp = sp + 1;
        }
        proof {
            crate::text::lemma_first_from_shift(t, 0, sp as int, |c: char| c == ' ');
            crate::text::lemma_first_from(t, sp as int, |c: char| c == ' ');
        }
        if sp == n {
            if n == 0 {
                return Err(
                    self.new_parse_err(String::from_str("No account specified in entry")),
                );
            }
            return Ok((String::from_str(input), None));
        }
        let rest = input.substring_char(sp + 1, n);
        if !allow_remaining {
            return Err(
                self.new_parse_err(
                    String::from_str("Unexpected remaining input in account parsing"),
                ),
            );
        }
        let acc = String::from_str(input.substring_char(0, sp));
        proof {
            assert(acc@ =~= t.take(sp as int));
            assert(rest@ =~= t.skip(sp as int + 1));
        }
        Ok((acc, Some(String::from_str(rest))))
    }
}

/// A statement's payload with its trailing comment removed: what the
/// directive parsers receive.
pub open spec fn entry_rem(s: Seq<char>) -> Seq<char> {
    trim_comment_spec(dc_rem(s))
}

/// The command word is a transaction flag.
pub open spec fn is_flag_cmd(s: Seq<char>) -> bool {
    dc_cmd(s) == "*"@ || dc_cmd(s) == "!"@
}

pub open spec fn entry_flag(s: Seq<char>) -> crate::types::TransactionFlag {
    if dc_cmd(s) == "*"@ {
        crate::types::TransactionFlag::OK
    } else {
        crate::types::TransactionFlag::Error
    }
}

/// The statements that certainly parse, by kind.
pub open spec fn stmt_open_ok(s: Seq<char>) -> bool {
    &&& dc_ok(s)
    &&& dc_cmd(s) == "open"@
    &&& single_line(entry_rem(s))
    &&& stmt_tokens(entry_rem(s)).len() >= 1
}

pub open spec fn stmt_close_ok(s: Seq<char>) -> bool {
    &&& dc_ok(s)
    &&& dc_cmd(s) == "close"@
    &&& single_line(entry_rem(s))
    &&& stmt_tokens(entry_rem(s)).len() == 1
}

pub open spec fn stmt_commodity_ok(s: Seq<char>) -> bool {
    &&& dc_ok(s)
    &&& dc_cmd(s) == "commodity"@
    &&& trim_spec(entry_rem(s)).len() > 0
    &&& forall|i: int| 0 <= i < trim_spec(entry_rem(s)).len() ==> (#[trigger] trim_spec(
        entry_rem(s),
    )[i]) != ' '
}

/// How a `<name> <amount>` payload is read: comment stripped and trimmed,
/// the name runs to the first whitespace, and the rest is one amount in the
/// Amount Grammar.
pub open spec fn sp_src(s: Seq<char>) -> Seq<char> {
    trim_spec(trim_comment_spec(s))
}

pub open spec fn sp_name_end(s: Seq<char>) -> int {
    first_from(sp_src(s), 0, |c: char| ws_char(c))
}

pub open spec fn sp_name(s: Seq<char>) -> Seq<char> {
    sp_src(s).take(sp_name_end(s))
}

pub open spec fn sp_rest(s: Seq<char>) -> Seq<char> {
    sp_src(s).skip(first_from(sp_src(s), sp_name_end(s), |c: char| !ws_char(c)))
}

/// The payload parses: a name is present, and what follows it is exactly
/// one amount with an alphabetic currency and nothing trailing.
pub open spec fn sp_ok(s: Seq<char>) -> bool {
    let rest = sp_rest(s);
    &&& sp_src(s).len() > 0
    &&& ca_ok(rest)
    &&& trim_spec(rest.skip(ca_j(rest))).len() == 0
}

/// What a parsed `<name> <amount>` payload pins down.
pub open spec fn sp_fields_ok(s: Seq<char>, name: Seq<char>, a: Amount) -> bool {
    let rest = sp_rest(s);
    &&& name == sp_name(s)
    &&& a.number == ca_number(rest)
    &&& a.currency@ == ca_currency(rest)
    &&& a.wf()
    &&& a.currency@.len() > 0
    &&& forall|k: int| 0 <= k < a.currency@.len() ==> alpha_char(#[trigger] a.currency@[k])
}

pub open spec fn stmt_balance_ok(s: Seq<char>) -> bool {
    &&& dc_ok(s)
    &&& dc_cmd(s) == "balance"@
    &&& single_line(entry_rem(s))
    &&& sp_ok(entry_rem(s))
}

pub open spec fn stmt_price_ok(s: Seq<char>) -> bool {
    &&& dc_ok(s)
    &&& dc_cmd(s) == "price"@
    &&& single_line(entry_rem(s))
    &&& sp_ok(entry_rem(s))
}

pub open spec fn stmt_txn_sure(s: Seq<char>) -> bool {
    &&& dc_ok(s)
    &&& is_flag_cmd(s)
    &&& crate::parser::transaction_parsing::txn_syntax_ok(entry_rem(s))
    &&& crate::parser::transaction_parsing::txn_divs_ok(entry_rem(s))
}

/// The statement's head parses and its command word is a transaction flag:
/// whatever the body holds, no other entry kind can come of it.
pub open spec fn stmt_flag_led(s: Seq<char>) -> bool {
    dc_ok(s) && is_flag_cmd(s)
}

/// Some reading of the statement certainly succeeds.
pub open spec fn stmt_sure(s: Seq<char>) -> bool {
    ||| stmt_open_ok(s)
    ||| stmt_close_ok(s)
    ||| stmt_commodity_ok(s)
    ||| stmt_balance_ok(s)
    ||| stmt_price_ok(s)
    ||| stmt_txn_sure(s)
}

/// What a parsed entry promises about the statement it came from.
pub open spec fn entry_matches(s: Seq<char>, ev: crate::types::EntryVariant) -> bool {
    let d = dc_date(s);
    let rem = entry_rem(s);
    let toks = stmt_tokens(rem);
    &&& dc_ok(s)
    &&& match ev {
        crate::types::EntryVariant::Open(o) => {
            &&& dc_cmd(s) == "open"@
            &&& single_line(rem)
            &&& toks.len() >= 1
            &&& o.date == d
            &&& o.account@ == toks[0]
            &&& toks.len() == 1 ==> o.allowed_currencies is None
            &&& toks.len() > 1 ==> (o.allowed_currencies matches Some(v) && v@.len() == toks.len()
                - 1 && (forall|k: int| 0 <= k < v@.len() ==> (#[trigger] v@[k])@ == toks[k + 1]))
        },
        crate::types::EntryVariant::Close(c) => {
            &&& dc_cmd(s) == "close"@
            &&& single_line(rem)
            &&& toks.len() == 1
            &&& c.date == d
            &&& c.account@ == toks[0]
        },
        crate::types::EntryVariant::Commodity(c) => {
            &&& dc_cmd(s) == "commodity"@
            &&& stmt_commodity_ok(s)
            &&& c.date == d
            &&& c.currency@ == trim_spec(rem)
        },
        crate::types::EntryVariant::Balance(b) => {
            &&& dc_cmd(s) == "balance"@
            &&& single_line(rem)
            &&& sp_ok(rem)
            &&& b.date == d
            &&& sp_fields_ok(rem, b.account@, b.amount)
        },
        crate::types::EntryVariant::PriceEntry(p) => {
            &&& dc_cmd(s) == "price"@
            &&& single_line(rem)
            &&& sp_ok(rem)
            &&& p.date == d
            &&& sp_fields_ok(rem, p.currency@, p.amount)
        },
        crate::types::EntryVariant::Transaction(t) => {
            &&& is_flag_cmd(s)
            &&& crate::parser::transaction_parsing::txn_matches(d, entry_flag(s), rem, t)
            &&& t.wf()
        },
    }
}

/// The command words and the flag characters are pairwise distinct.
pub proof fn lemma_cmd_words()
    ensures
        "open"@ != "close"@,
        "open"@ != "balance"@,
        "open"@ != "commodity"@,
        "open"@ != "price"@,
        "close"@ != "balance"@,
        "close"@ != "commodity"@,
        "close"@ != "price"@,
        "balance"@ != "commodity"@,
        "balance"@ != "price"@,
        "commodity"@ != "price"@,
        "*"@ != "open"@ && "*"@ != "close"@ && "*"@ != "balance"@ && "*"@ != "commodity"@ && "*"@
            != "price"@,
        "!"@ != "open"@ && "!"@ != "close"@ && "!"@ != "balance"@ && "!"@ != "commodity"@ && "!"@
            != "price"@,
        "*"@ != "!"@,
{
    reveal_strlit("open");
    reveal_strlit("close");
    reveal_strlit("balance");
    reveal_strlit("commodity");
    reveal_strlit("price");
    reveal_strlit("*");
    reveal_strlit("!");
    assert("open"@.len() == 4);
    assert("close"@.len() == 5);
    assert("balance"@.len() == 7);
    assert("commodity"@.len() == 9);
    assert("price"@.len() == 5);
    assert("*"@.len() == 1);
    assert("!"@.len() == 1);
    assert("close"@[0] == 'c');
    assert("price"@[0] == 'p');
    assert("*"@[0] == '*');
    assert("!"@[0] == '!');
}

impl StatementParser {
    /// The Entry Dispatcher: reads the date and command of the statement and
    /// routes to the matching directive parser or to the transaction
    /// assembler.  An unrecognized command, a bad date or a failing payload
    /// is an error carrying the whole statement.
    pub fn parse_entry(&mut self) -> (r: Result<crate::types::EntryVariant, ParseError>)
        ensures
            final(self).statement@ == old(self).statement@,
            ({
                let s = old(self).statement@;
                &&& r matches Ok(ev) ==> entry_matches(s, ev)
                &&& stmt_sure(s) ==> r is Ok
                &&& r matches Err(e) ==> e.failed_statement@ == s
            }),
    {
        let ghost s = self.statement@;
        proof {
            lemma_cmd_words();
        }
        let (date, cmd, remain) = match date_and_cmd(self.statement.as_str()) {
            Ok(p) => p,
            Err(e) => {
                let err = self.new_parse_err(e);
                return Err(err);
            }
        };
        let remaining = trim_comment_at_end(remain);
        match crate::parser::transaction_parsing::parse_flag(cmd) {
            Some(flag) => {
                return match crate::types::Transaction::try_from_parts(date, flag, remaining) {
                    Ok(t) => Ok(crate::types::EntryVariant::Transaction(t)),
                    Err(e) => {
                        let mut msg = String::from_str("unable to parse transaction: ");
                        msg.append(e.as_str());
                        Err(self.new_parse_err(msg))
                    }
                };
            }
            None => {}
        }
        if crate::text::str_eq(cmd, "open") {
            if crate::text::contains_char(remaining, '\n') {
                return Err(
                    self.new_parse_err(String::from_str("unexpected newline in open entry")),
                );
            }
            match self.parse_open(date, remaining) {
                Ok(o) => Ok(crate::types::EntryVariant::Open(o)),
                Err(e) => Err(e),
            }
        } else if crate::text::str_eq(cmd, "close") {
            if crate::text::contains_char(remaining, '\n') {
                return Err(
                    self.new_parse_err(String::from_str("unexpected newline in close entry")),
                );
            }
            match self.parse_close(date, remaining) {
                Ok(c) => Ok(crate::types::EntryVariant::Close(c)),
                Err(e) => Err(e),
            }
        } else if crate::text::str_eq(cmd, "balance") {
            if crate::text::contains_char(remaining, '\n') {
                return Err(
                    self.new_parse_err(String::from_str("unexpected newline in balance entry")),
                );
            }
            match self.parse_balance(date, remaining) {
                Ok(b) => Ok(crate::types::EntryVariant::Balance(b)),
                Err(e) => Err(e),
            }
        } else if crate::text::str_eq(cmd, "commodity") {
            match self.parse_commodity(date, remaining) {
                Ok(c) => Ok(crate::types::EntryVariant::Commodity(c)),
                Err(e) => Err(e),
            }
        } else if crate::text::str_eq(cmd, "price") {
            if crate::text::contains_char(remaining, '\n') {
                return Err(
                    self.new_parse_err(String::from_str("unexpected newline in price entry")),
                );
            }
            match self.parse_price(date, remaining) {
                Ok(p) => Ok(crate::types::EntryVariant::PriceEntry(p)),
                Err(e) => Err(e),
            }
        } else {
            let mut msg = String::from_str("Unknown command `");
            msg.append(cmd);
            msg.append("` in entry");
            Err(self.new_parse_err(msg))
        }
    }

    /// Routes a flagged statement body to the transaction assembler.
    pub fn parse_transaction(
        &self,
        date: Date,
        flag: crate::types::TransactionFlag,
        statement: &str,
    ) -> (r: Result<crate::types::Transaction, ParseError>)
        ensures
            !crate::parser::transaction_parsing::txn_syntax_ok(statement@) ==> r is Err,
            crate::parser::transaction_parsing::txn_syntax_ok(statement@)
                && crate::parser::transaction_parsing::txn_divs_ok(statement@) ==> r is Ok,
            r matches Ok(t) ==> crate::parser::transaction_parsing::txn_matches(
                date,
                flag,
                statement@,
                t,
            ) && t.wf(),
            r matches Err(e) ==> e.failed_statement@ == self.statement@,
    {
        match crate::types::Transaction::try_from_parts(date, flag, statement) {
            Ok(t) => Ok(t),
            Err(e) => {
                let mut msg = String::from_str("unable to parse transaction: ");
                msg.append(e.as_str());
                Err(self.new_parse_err(msg))
            }
        }
    }
}

/// How many statements of the list satisfy `p`.
pub open spec fn count_where(s: Seq<Seq<char>>, p: spec_fn(Seq<char>) -> bool) -> int
    decreases s.len(),
{
    if s.len() == 0 {
        0
    } else {
        count_where(s.drop_last(), p) + if p(s.last()) {
            1int
        } else {
            0int
        }
    }
}

/// The unhandled texts are statements of the input, verbatim, in input
/// order, each one a statement whose parse was not certain to succeed:
/// `src` lists their indices, strictly increasing.
pub open spec fn unhandled_from(
    stmts: Seq<Seq<char>>,
    unhandled: Seq<String>,
    src: Seq<int>,
) -> bool {
    &&& src.len() == unhandled.len()
    &&& forall|k: int| 0 <= k < src.len() ==> 0 <= #[trigger] src[k] < stmts.len()
    &&& forall|k: int| 0 <= k < src.len() - 1 ==> #[trigger] src[k] < src[k + 1]
    &&& forall|k: int| 0 <= k < src.len() ==> (#[trigger] unhandled[k])@ == stmts[src[k]]
    &&& forall|k: int| 0 <= k < src.len() ==> !stmt_sure(stmts[#[trigger] src[k]])
}

proof fn lemma_count_take(s: Seq<Seq<char>>, p: spec_fn(Seq<char>) -> bool, k: int)
    requires
        0 <= k < s.len(),
    ensures
        count_where(s.take(k + 1), p) == count_where(s.take(k), p) + if p(s[k]) {
            1int
        } else {
            0int
        },
{
    assert(s.take(k + 1).drop_last() =~= s.take(k));
    assert(s.take(k + 1).last() == s[k]);
}

/// The Parse Result Aggregator: drives the Statement Segmenter over the
/// whole input, parses each statement, and files every outcome.  One
/// statement's failure never stops the run; only a structural segmentation
/// error does, and it is returned rather than crashing.  Each of the five
/// directive collections ends up holding exactly one entry per statement of
/// its kind, and every statement lands in exactly one collection.
pub fn parse_entries_from_string(input: &str) -> (r: Result<ParsedEntries, ParseError>)
    ensures
        ({
            let stmts = crate::parser::statement_iterator::seg_statements(input@);
            &&& (r is Ok) <==> (stmts.1 is None)
            &&& r matches Ok(pe) ==> {
                &&& pe.open@.len() == count_where(stmts.0, |t: Seq<char>| stmt_open_ok(t))
                &&& pe.close@.len() == count_where(stmts.0, |t: Seq<char>| stmt_close_ok(t))
                &&& pe.balance@.len() == count_where(stmts.0, |t: Seq<char>| stmt_balance_ok(t))
                &&& pe.commodity@.len() == count_where(
                    stmts.0,
                    |t: Seq<char>| stmt_commodity_ok(t),
                )
                &&& pe.price@.len() == count_where(stmts.0, |t: Seq<char>| stmt_price_ok(t))
                &&& count_where(stmts.0, |t: Seq<char>| stmt_txn_sure(t))
                    <= pe.transactions@.len() <= count_where(
                    stmts.0,
                    |t: Seq<char>| stmt_flag_led(t),
                )
                &&& forall|i: int| 0 <= i < pe.transactions@.len() ==> (
                #[trigger] pe.transactions@[i]).wf()
                &&& pe.open@.len() + pe.balance@.len() + pe.close@.len() + pe.commodity@.len()
                    + pe.price@.len() + pe.transactions@.len() + pe.unhandled_entries@.len()
                    == stmts.0.len()
                &&& exists|src: Seq<int>| unhandled_from(stmts.0, pe.unhandled_entries@, src)
            }
        }),
{
    let ghost stmts = crate::parser::statement_iterator::seg_statements(input@);
    let mut it = crate::parser::statement_iterator::StatementIterator::new(input);
    let mut entries = ParsedEntries::default();
    let ghost mut k: int = 0;
    let ghost mut usrc: Seq<int> = Seq::<int>::empty();
    proof {
        assert(stmts.0.take(0) =~= Seq::<Seq<char>>::empty());
        lemma_cmd_words();
    }
    loop
        invariant
            it.wf(),
            stmts == crate::parser::statement_iterator::seg_statements(input@),
            0 <= k <= stmts.0.len(),
            it.remaining() == (stmts.0.skip(k), stmts.1),
            entries.open@.len() == count_where(stmts.0.take(k), |t: Seq<char>| stmt_open_ok(t)),
            entries.close@.len() == count_where(stmts.0.take(k), |t: Seq<char>| stmt_close_ok(t)),
            entries.balance@.len() == count_where(
                stmts.0.take(k),
                |t: Seq<char>| stmt_balance_ok(t),
            ),
            entries.commodity@.len() == count_where(
                stmts.0.take(k),
                |t: Seq<char>| stmt_commodity_ok(t),
            ),
            entries.price@.len() == count_where(stmts.0.take(k), |t: Seq<char>| stmt_price_ok(t)),
            count_where(stmts.0.take(k), |t: Seq<char>| stmt_txn_sure(t))
                <= entries.transactions@.len() <= count_where(
                stmts.0.take(k),
                |t: Seq<char>| stmt_flag_led(t),
            ),
            forall|i: int| 0 <= i < entries.transactions@.len() ==> (
            #[trigger] entries.transactions@[i]).wf(),
            entries.open@.len() + entries.balance@.len() + entries.close@.len()
                + entries.commodity@.len() + entries.price@.len() + entries.transactions@.len()
                + entries.unhandled_entries@.len() == k,
            unhandled_from(stmts.0, entries.unhandled_entries@, usrc),
            forall|j: int| 0 <= j < usrc.len() ==> #[trigger] usrc[j] < k,
        decreases stmts.0.len() - k,
    {
        match it.next() {
            None => {
                proof {
                    assert(stmts.0.skip(k).len() == 0);
                    assert(k == stmts.0.len());
                    assert(stmts.0.take(k) =~= stmts.0);
                    assert(unhandled_from(stmts.0, entries.unhandled_entries@, usrc));
                }
                return Ok(entries);
            }
            Some(Err(e)) => {
                return Err(e);
            }
            Some(Ok(stmt)) => {
                proof {
                    assert(stmts.0.skip(k)[0] == stmts.0[k]);
                    assert(stmts.0.skip(k).drop_first() =~= stmts.0.skip(k + 1));
                }
                let mut sp = StatementParser::new(stmt.as_str());
                let res = sp.parse_entry();
                proof {
                    // an entry of each kind comes back exactly when the
                    // statement reads as that kind
                    lemma_count_take(stmts.0, |t: Seq<char>| stmt_open_ok(t), k);
                    lemma_count_take(stmts.0, |t: Seq<char>| stmt_close_ok(t), k);
                    lemma_count_take(stmts.0, |t: Seq<char>| stmt_balance_ok(t), k);
                    lemma_count_take(stmts.0, |t: Seq<char>| stmt_commodity_ok(t), k);
                    lemma_count_take(stmts.0, |t: Seq<char>| stmt_price_ok(t), k);
                    lemma_count_take(stmts.0, |t: Seq<char>| stmt_txn_sure(t), k);
                    lemma_count_take(stmts.0, |t: Seq<char>| stmt_flag_led(t), k);
                    lemma_cmd_words();
                    let t = stmts.0[k];
                    match &res {
                        Ok(ev) => {
                            assert(entry_matches(t, *ev));
                            match ev {
                                crate::types::EntryVariant::Open(_) => {
                                    assert(stmt_open_ok(t));
                                    assert(!stmt_close_ok(t) && !stmt_balance_ok(t)
                                        && !stmt_commodity_ok(t) && !stmt_price_ok(t));
                                }
                                crate::types::EntryVariant::Close(_) => {
                                    assert(stmt_close_ok(t));
                                    assert(!stmt_open_ok(t) && !stmt_balance_ok(t)
                                        && !stmt_commodity_ok(t) && !stmt_price_ok(t));
                                }
                                crate::types::EntryVariant::Balance(_) => {
                                    assert(stmt_balance_ok(t));
                                    assert(!stmt_open_ok(t) && !stmt_close_ok(t)
                                        && !stmt_commodity_ok(t) && !stmt_price_ok(t));
                                }
                                crate::types::EntryVariant::Commodity(_) => {
                                    assert(stmt_commodity_ok(t));
                                    assert(!stmt_open_ok(t) && !stmt_close_ok(t)
                                        && !stmt_balance_ok(t) && !stmt_price_ok(t));
                                }
                                crate::types::EntryVariant::PriceEntry(_) => {
                                    assert(stmt_price_ok(t));
                                    assert(!stmt_open_ok(t) && !stmt_close_ok(t)
                                        && !stmt_balance_ok(t) && !stmt_commodity_ok(t));
                                }
                                crate::types::EntryVariant::Transaction(_) => {
                                    assert(!stmt_open_ok(t) && !stmt_close_ok(t)
                                        && !stmt_balance_ok(t) && !stmt_commodity_ok(t)
                                        && !stmt_price_ok(t));
                                }
                            }
                        }
                        Err(_) => {
                            assert(!stmt_sure(t));
                        }
                    }
                }
                proof {
                    if res is Err {
                        usrc = usrc.push(k);
                    }
                }
                entries.push_result(res);
                proof {
                    k = k + 1;
                }
            }
        }
    }
}

impl Amount {
    /// Reads a whole string as one amount, allowing surrounding whitespace
    /// and nothing else around it.
    pub fn try_from(input: &str) -> (r: Result<Amount, String>)
        ensures
            (r is Ok) <==> (ca_ok(input@) && trim_spec(input@.skip(ca_j(input@))).len() == 0),
            r matches Ok(a) ==> {
                &&& a.number == ca_number(input@)
                &&& a.currency@ == ca_currency(input@)
                &&& a.wf()
                &&& a.currency@.len() > 0
                &&& forall|k: int| 0 <= k < a.currency@.len() ==> alpha_char(
                    #[trigger] a.currency@[k],
                )
            },
    {
        let (amount, rest) = match consume_amount(input) {
            Ok(p) => p,
            Err(e) => {
                return Err(e);
            }
        };
        let rest_trimmed = crate::text::trim_str(rest);
        if rest_trimmed.unicode_len() != 0 {
            let mut msg = String::from_str("unexpected trailing input in amount: ");
            msg.append(rest);
            return Err(msg);
        }
        Ok(amount)
    }
}

} // verus!

//! The transaction grammar: the flag, the quoted payee/narration header,
//! posting lines, and the `@`/`@@` price and `{ }`/`{{ }}` cost clauses with
//! their normalization to per-unit form.
use crate::decimal::{exact_quot, pow10, Decimal, EXACT_DIV_BOUND, MAX_SCALE};
use crate::parser::{ca_currency, ca_j, ca_number, ca_ok, consume_amount};
use crate::text::{first_from, trim_spec, ws_char};
use crate::types::{Cost, CostType, Price, TransactionFlag};
use vstd::prelude::*;

verus! {

/// The transaction flag: `*` is cleared, `!` pending.
pub fn parse_flag(s: &str) -> (r: Option<TransactionFlag>)
    ensures
        s@ == "*"@ ==> r == Some(TransactionFlag::OK),
        s@ == "!"@ ==> r == Some(TransactionFlag::Error),
        s@ != "*"@ && s@ != "!"@ ==> r is None,
{
    proof {
        reveal_strlit("*");
        reveal_strlit("!");
        assert("*"@.len() == 1);
        assert("!"@.len() == 1);
        assert("*"@[0] == '*');
        assert("!"@[0] == '!');
        assert("*"@ != "!"@);
    }
    if crate::text::str_eq(s, "*") {
        Some(TransactionFlag::OK)
    } else if crate::text::str_eq(s, "!") {
        Some(TransactionFlag::Error)
    } else {
        None
    }
}

/// A parsed price or cost clause, remembering whether it was written in
/// per-unit or in total form.
#[derive(Debug, PartialEq, Clone)]
pub struct Parsed<T> {
    pub data: T,
    pub per_unit: bool,
}

/// The closing of a cost clause: the matching brace(s) followed by nothing
/// but whitespace.
pub open spec fn pc_close_ok(cl: Seq<char>, dbl: bool) -> bool {
    if dbl {
        cl.len() >= 2 && cl[0] == '}' && cl[1] == '}' && trim_spec(cl.skip(2)).len() == 0
    } else {
        cl.len() >= 1 && cl[0] == '}' && trim_spec(cl.skip(1)).len() == 0
    }
}

/// An optional cost clause and then the end of the text.  `None` is a parse
/// error; `Some(None)` is no clause at all; `Some(Some(None))` is the empty
/// `{}` clause; `Some(Some(Some((number, currency, per_unit))))` is a
/// written-out cost.
pub open spec fn pc_cost_then_end(rest: Seq<char>) -> Option<
    Option<Option<(Decimal, Seq<char>, bool)>>,
> {
    let w = rest.skip(first_from(rest, 0, |c: char| !ws_char(c)));
    if w.len() == 0 {
        Some(None)
    } else if w[0] != '{' {
        None
    } else {
        let dbl = w.len() > 1 && w[1] == '{';
        let inn = w.skip(
            first_from(
                w,
                if dbl {
                    2int
                } else {
                    1int
                },
                |c: char| !ws_char(c),
            ),
        );
        if inn.len() > 0 && inn[0] == '}' {
            if pc_close_ok(inn, dbl) {
                Some(Some(None))
            } else {
                None
            }
        } else if !ca_ok(inn) {
            None
        } else {
            let cl0 = inn.skip(ca_j(inn));
            let cl = cl0.skip(first_from(cl0, 0, |c: char| !ws_char(c)));
            if pc_close_ok(cl, dbl) {
                Some(Some(Some((ca_number(inn), ca_currency(inn), !dbl))))
            } else {
                None
            }
        }
    }
}

/// The whole clause text after a posting's amount: an optional price clause
/// (`@` per-unit, `@@` total), then an optional cost clause, then the end.
/// `None` is a parse error.
pub open spec fn pc_parse(raw: Seq<char>) -> Option<
    (Option<(Decimal, Seq<char>, bool)>, Option<Option<(Decimal, Seq<char>, bool)>>),
> {
    let t = trim_spec(raw);
    if t.len() == 0 {
        Some((None, None))
    } else if t[0] == '@' {
        let dbl = t.len() > 1 && t[1] == '@';
        let u = t.skip(
            first_from(
                t,
                if dbl {
                    2int
                } else {
                    1int
                },
                |c: char| !ws_char(c),
            ),
        );
        if !ca_ok(u) {
            None
        } else {
            match pc_cost_then_end(u.skip(ca_j(u))) {
                Some(c) => Some((Some((ca_number(u), ca_currency(u), !dbl)), c)),
                None => None,
            }
        }
    } else {
        match pc_cost_then_end(t) {
            Some(c) => {
                if c is None {
                    None
                } else {
                    Some((None, c))
                }
            }
            None => None,
        }
    }
}

fn close_ok(cl: &str, dbl: bool) -> (r: bool)
    ensures
        r == pc_close_ok(cl@, dbl),
{
    let n = cl.unicode_len();
    if dbl {
        if n < 2 || cl.get_char(0) != '}' || cl.get_char(1) != '}' {
            return false;
        }
        let rest = cl.substring_char(2, n);
        proof {
            assert(rest@ =~= cl@.skip(2));
        }
        crate::text::trim_str(rest).unicode_len() == 0
    } else {
        if n < 1 || cl.get_char(0) != '}' {
            return false;
        }
        let rest = cl.substring_char(1, n);
        proof {
            assert(rest@ =~= cl@.skip(1));
        }
        crate::text::trim_str(rest).unicode_len() == 0
    }
}

fn parse_cost_then_end(rest: &str) -> (r: Result<Option<Parsed<CostType>>, String>)
    ensures
        (r is Ok) <==> (pc_cost_then_end(rest@) is Some),
        r matches Ok(c) ==> (pc_cost_then_end(rest@) matches Some(sc) && {
            &&& (c is None) <==> (sc is None)
            &&& c matches Some(pc) ==> (sc matches Some(inner) && {
                &&& inner is None ==> pc.data is Automatic
                &&& inner matches Some(k) ==> (pc.data matches CostType::Known(cc) && cc.amount.number
                    == k.0 && cc.amount.currency@ == k.1 && cc.amount.wf() && pc.per_unit == k.2)
            })
        }),
{
    let w = crate::text::after_ws(rest, 0);
    let nw = w.unicode_len();
    if nw == 0 {
        return Ok(None);
    }
    if w.get_char(0) != '{' {
        let mut msg = String::from_str("unable to parse `");
        msg.append(rest);
        msg.append("`");
        return Err(msg);
    }
    let dbl = nw > 1 && w.get_char(1) == '{';
    let inn = crate::text::after_ws(w, if dbl { 2 } else { 1 });
    if inn.unicode_len() > 0 && inn.get_char(0) == '}' {
        if close_ok(inn, dbl) {
            Ok(Some(Parsed { data: CostType::Automatic, per_unit: !dbl }))
        } else {
            let mut msg = String::from_str("mismatched cost braces in `");
            msg.append(rest);
            msg.append("`");
            Err(msg)
        }
    } else {
        match consume_amount(inn) {
            Ok((amount, after)) => {
                let cl = crate::text::after_ws(after, 0);
                if close_ok(cl, dbl) {
                    Ok(Some(Parsed { data: CostType::Known(Cost { amount }), per_unit: !dbl }))
                } else {
                    let mut msg = String::from_str("unterminated cost clause in `");
                    msg.append(rest);
                    msg.append("`");
                    Err(msg)
                }
            }
            Err(e) => Err(e),
        }
    }
}

/// Reads the optional price (`@ amount` or `@@ amount`) and cost
/// (`{ amount }`, `{{ amount }}`, or the empty `{}` placeholder) clauses
/// that may follow a posting's amount.  The clauses keep their written
/// per-unit/total form; nothing is normalized here.  A blank input is no
/// clause at all; anything else that does not fit the grammar is an error.
pub fn parse_price_and_cost(input: &str) -> (r: Result<
    (Option<Parsed<Price>>, Option<Parsed<CostType>>),
    String,
>)
    ensures
        (r is Ok) <==> (pc_parse(input@) is Some),
        r matches Ok(pair) ==> (pc_parse(input@) matches Some(sp) && {
            &&& (pair.0 is Some) <==> (sp.0 is Some)
            &&& pair.0 matches Some(pp) ==> (sp.0 matches Some(k) && pp.data.amount.number == k.0
                && pp.data.amount.currency@ == k.1 && pp.data.amount.wf() && pp.per_unit == k.2)
            &&& (pair.1 is Some) <==> (sp.1 is Some)
            &&& pair.1 matches Some(pc) ==> (sp.1 matches Some(inner) && {
                &&& inner is None ==> pc.data is Automatic
                &&& inner matches Some(k) ==> (pc.data matches CostType::Known(cc) && cc.amount.number
                    == k.0 && cc.amount.currency@ == k.1 && cc.amount.wf() && pc.per_unit == k.2)
            })
        }),
{
    let t = crate::text::trim_str(input);
    let n = t.unicode_len();
    if n == 0 {
        return Ok((None, None));
    }
    if t.get_char(0) == '@' {
        let dbl = n > 1 && t.get_char(1) == '@';
        let u = crate::text::after_ws(t, if dbl { 2 } else { 1 });
        match consume_amount(u) {
            Ok((amount, rem)) => {
                match parse_cost_then_end(rem) {
                    Ok(cost) => {
                        Ok((Some(Parsed { data: Price { amount }, per_unit: !dbl }), cost))
                    }
                    Err(e) => Err(e),
                }
            }
            Err(e) => Err(e),
        }
    } else {
        match parse_cost_then_end(t) {
            Ok(cost) => {
                match cost {
                    Some(c) => Ok((None, Some(c))),
                    None => {
                        let mut msg = String::from_str("unable to parse `");
                        msg.append(t);
                        msg.append("`");
                        Err(msg)
                    }
                }
            }
            Err(e) => Err(e),
        }
    }
}

/// The quote-aware tokens of a transaction header, from position `i` on: a
/// token starting with a double quote runs through its closing quote (or to
/// the end if unterminated); any other token runs to the next whitespace.
pub open spec fn hdr_toks_from(s: Seq<char>, i: int) -> Seq<Seq<char>>
    decreases s.len() - i,
{
    if i < 0 || i >= s.len() {
        Seq::<Seq<char>>::empty()
    } else if ws_char(s[i]) {
        hdr_toks_from(s, i + 1)
    } else if s[i] == '"' {
        let e = first_from(s, i + 1, |c: char| c == '"');
        let q = if e < i + 1 {
            i + 1
        } else if e + 1 > s.len() {
            s.len() as int
        } else {
            e + 1
        };
        seq![s.subrange(i, q)] + hdr_toks_from(s, q)
    } else {
        let e = first_from(s, i, |c: char| ws_char(c));
        let q = if e <= i {
            i + 1
        } else if e > s.len() {
            s.len() as int
        } else {
            e
        };
        seq![s.subrange(i, q)] + hdr_toks_from(s, q)
    }
}

/// Skipping whitespace does not change the header tokens.
proof fn lemma_hdr_toks_ws_skip(s: Seq<char>, i: int, j: int)
    requires
        0 <= i <= j <= s.len(),
        forall|k: int| i <= k < j ==> ws_char(#[trigger] s[k]),
    ensures
        hdr_toks_from(s, i) == hdr_toks_from(s, j),
    decreases j - i,
{
    if i < j {
        lemma_hdr_toks_ws_skip(s, i + 1, j);
    }
}

/// The header text the tokens are read from: comment stripped, then
/// trimmed.
pub open spec fn hdr_src(h: Seq<char>) -> Seq<char> {
    trim_spec(crate::text::trim_comment_spec(h))
}

pub open spec fn header_tokens(h: Seq<char>) -> Seq<Seq<char>> {
    hdr_toks_from(hdr_src(h), 0)
}

/// A complete double-quoted string: opening and closing quote present.
pub open spec fn fully_quoted(t: Seq<char>) -> bool {
    t.len() >= 2 && t[0] == '"' && t[t.len() - 1] == '"'
}

/// The text between the delimiting quotes.
pub open spec fn hdr_val(t: Seq<char>) -> Seq<char> {
    t.subrange(1, t.len() - 1)
}

/// Every header token must be a double-quoted string, and at most two may
/// appear.
pub open spec fn header_ok(h: Seq<char>) -> bool {
    let toks = header_tokens(h);
    &&& toks.len() <= 2
    &&& forall|k: int| 0 <= k < toks.len() ==> fully_quoted(#[trigger] toks[k])
}

/// Reads the transaction header's quoted strings, quote-aware: none, a
/// narration alone, or a payee followed by a narration.  Any token that is
/// not a complete double-quoted string is an error, as is a third string.
pub fn parse_narration_and_payee(header: &str) -> (r: Result<
    (Option<String>, Option<String>),
    String,
>)
    requires
        crate::parser::single_line(header@),
    ensures
        (r is Ok) <==> header_ok(header@),
        r matches Ok(p) ==> ({
            let toks = header_tokens(header@);
            &&& toks.len() == 0 ==> p.0 is None && p.1 is None
            &&& toks.len() == 1 ==> (p.0 is None && (p.1 matches Some(x) && x@ == hdr_val(
                toks[0],
            )))
            &&& toks.len() == 2 ==> ((p.0 matches Some(x) && x@ == hdr_val(toks[0])) && (
            p.1 matches Some(y) && y@ == hdr_val(toks[1])))
        }),
{
    let ghost toks = header_tokens(header@);
    let cut = crate::parser::trim_comment_at_end(header);
    let t = crate::text::trim_str(cut);
    let ghost u = t@;
    proof {
        assert(u == hdr_src(header@));
    }
    let n = t.unicode_len();
    let mut pos: usize = 0;
    let ghost mut count: int = 0;
    let mut first: Option<String> = None;
    let mut second: Option<String> = None;
    loop
        invariant
            0 <= pos <= n,
            n == u.len(),
            u == t@,
            u == hdr_src(header@),
            toks == header_tokens(header@),
            0 <= count <= toks.len(),
            count <= 2,
            hdr_toks_from(u, pos as int) == toks.skip(count),
            forall|k: int| 0 <= k < count ==> fully_quoted(#[trigger] toks[k]),
            count == 0 ==> first is None && second is None,
            count == 1 ==> ((first matches Some(x) && x@ == hdr_val(toks[0])) && second is None),
            count == 2 ==> ((first matches Some(x) && x@ == hdr_val(toks[0])) && (
            second matches Some(y) && y@ == hdr_val(toks[1]))),
        ensures
            count == toks.len(),
            count <= 2,
            forall|k: int| 0 <= k < count ==> fully_quoted(#[trigger] toks[k]),
            count == 0 ==> first is None && second is None,
            count == 1 ==> ((first matches Some(x) && x@ == hdr_val(toks[0])) && second is None),
            count == 2 ==> ((first matches Some(x) && x@ == hdr_val(toks[0])) && (
            second matches Some(y) && y@ == hdr_val(toks[1]))),
        decreases n - pos,
    {
        let mut p = pos;
        while p < n && crate::text::is_ws(t.get_char(p))
            invariant
                pos <= p <= n,
                n == u.len(),
                u == t@,
                forall|i: int| pos <= i < p ==> ws_char(#[trigger] u[i]),
            decreases n - p,
        {
            p = p + 1;
        }
        proof {
            lemma_hdr_toks_ws_skip(u, pos as int, p as int);
        }
        if p >= n {
            proof {
                assert(hdr_toks_from(u, p as int) == Seq::<Seq<char>>::empty());
                assert(toks.skip(count).len() == 0);
                assert(count == toks.len());
            }
            break;
        }
        let tok_end: usize;
        if t.get_char(p) == '"' {
            let mut e = p + 1;
            while e < n && t.get_char(e) != '"'
                invariant
                    p + 1 <= e <= n,
                    n == u.len(),
                    u == t@,
                    forall|i: int| p + 1 <= i < e ==> (#[trigger] u[i]) != '"',
                decreases n - e,
            {
                e = e + 1;
            }
            proof {
                crate::text::lemma_first_from_shift(u, p + 1, e as int, |c: char| c == '"');
                crate::text::lemma_first_from(u, e as int, |c: char| c == '"');
                assert(first_from(u, p + 1, |c: char| c == '"') == e as int);
            }
            tok_end = if e < n {
                e + 1
            } else {
                n
            };
        } else {
            let mut e = p;
            while e < n && !crate::text::is_ws(t.get_char(e))
                invariant
                    p <= e <= n,
                    n == u.len(),
                    u == t@,
                    forall|i: int| p <= i < e ==> !ws_char(#[trigger] u[i]),
                decreases n - e,
            {
                e = e + 1;
            }
            proof {
                crate::text::lemma_first_from_shift(u, p as int, e as int, |c: char| ws_char(c));
                crate::text::lemma_first_from(u, e as int, |c: char| ws_char(c));
                assert(first_from(u, p as int, |c: char| ws_char(c)) == e as int);
            }
            tok_end = e;
        }
        proof {
            assert(hdr_toks_from(u, p as int) == seq![u.subrange(p as int, tok_end as int)]
                + hdr_toks_from(u, tok_end as int));
            assert(toks.skip(count)[0] == toks[count]);
            assert(toks[count] == u.subrange(p as int, tok_end as int));
            assert(toks.skip(count).drop_first() =~= toks.skip(count + 1));
        }
        let token = t.substring_char(p, tok_end);
        let tl = token.unicode_len();
        if tl < 2 || token.get_char(0) != '"' || token.get_char(tl - 1) != '"' {
            proof {
                assert(!fully_quoted(toks[count]));
            }
            let mut msg = String::from_str(
                "Invalid transaction header: narration/payee must be a double-quoted string in `",
            );
            msg.append(header);
            msg.append("`");
            return Err(msg);
        }
        if first.is_none() {
            let v = String::from_str(t.substring_char(p + 1, tok_end - 1));
            proof {
                assert(v@ =~= hdr_val(toks[count]));
            }
            first = Some(v);
        } else if second.is_none() {
            let v = String::from_str(t.substring_char(p + 1, tok_end - 1));
            proof {
                assert(v@ =~= hdr_val(toks[count]));
            }
            second = Some(v);
        } else {
            proof {
                assert(count == 2);
                assert(toks.len() >= 3);
            }
            let mut msg = String::from_str("Too many quoted strings in transaction header: `");
            msg.append(header);
            msg.append("`");
            return Err(msg);
        }
        proof {
            count = count + 1;
        }
        pos = tok_end;
    }
    if first.is_none() {
        Ok((None, None))
    } else if second.is_none() {
        Ok((None, first))
    } else {
        Ok((first, second))
    }
}

/// How a posting line is read: the account runs to the first space, the
/// amount comes next, and the price/cost clauses are whatever remains.
pub open spec fn po_sp(s: Seq<char>) -> int {
    first_from(s, 0, |c: char| c == ' ')
}

pub open spec fn po_acc(s: Seq<char>) -> Seq<char> {
    s.take(po_sp(s))
}

pub open spec fn po_rem(s: Seq<char>) -> Seq<char> {
    s.skip(po_sp(s) + 1)
}

pub open spec fn po_clause(s: Seq<char>) -> Seq<char> {
    po_rem(s).skip(ca_j(po_rem(s)))
}

/// The line fits the posting shape: an account, a readable amount, and
/// well-formed price/cost clauses.
pub open spec fn posting_syntax_ok(s: Seq<char>) -> bool {
    &&& po_sp(s) < s.len()
    &&& ca_ok(po_rem(s))
    &&& pc_parse(po_clause(s)) is Some
}

/// No clause uses the total (`@@`/`{{ }}`) form, so no division is needed.
pub open spec fn po_no_total(s: Seq<char>) -> bool {
    match pc_parse(po_clause(s)) {
        Some(pr) => {
            &&& (pr.0 matches Some(k) ==> k.2)
            &&& (pr.1 matches Some(inner) ==> (inner matches Some(k) ==> k.2))
        }
        None => true,
    }
}

/// The exact quotient of `a` by `b` is representable with a small
/// mantissa, so normalization is guaranteed to succeed on it.
pub open spec fn div_representable(a: Decimal, b: Decimal) -> bool {
    b.mantissa != 0 && exists|em: int, es: nat|
        -EXACT_DIV_BOUND <= em <= EXACT_DIV_BOUND && es <= MAX_SCALE as nat && #[trigger] exact_quot(
            a.mantissa as int,
            a.scale as nat,
            b.mantissa as int,
            b.scale as nat,
            em,
            es,
        )
}

/// Every total-form clause of the posting line divides exactly by the
/// posting's magnitude within the small-mantissa bound.
pub open spec fn po_divs_ok(s: Seq<char>) -> bool {
    let mag = crate::decimal::dec_abs(ca_number(po_rem(s)));
    match pc_parse(po_clause(s)) {
        Some(pr) => {
            &&& (pr.0 matches Some(k) ==> (k.2 || div_representable(k.0, mag)))
            &&& (pr.1 matches Some(inner) ==> (inner matches Some(k) ==> (k.2
                || div_representable(k.0, mag))))
        },
        None => true,
    }
}

/// The division used by normalization: whenever the exact quotient of `a`
/// by `b` is representable with a small mantissa, `q` denotes exactly it.
pub open spec fn div_exact_rel(a: Decimal, b: Decimal, q: Decimal) -> bool {
    forall|em: int, es: nat|
        -EXACT_DIV_BOUND <= em <= EXACT_DIV_BOUND && es <= MAX_SCALE as nat && #[trigger] exact_quot(
            a.mantissa as int,
            a.scale as nat,
            b.mantissa as int,
            b.scale as nat,
            em,
            es,
        ) ==> q.mantissa * pow10(es) == em * pow10(q.scale as nat)
}

/// What a parsed posting promises about the line it came from.  Total-form
/// prices and costs are normalized per-unit by dividing by the magnitude of
/// the posting's own amount.
pub open spec fn posting_matches(s: Seq<char>, p: crate::types::Posting) -> bool {
    let rem = po_rem(s);
    let mag = crate::decimal::dec_abs(ca_number(rem));
    &&& posting_syntax_ok(s)
    &&& p.account@ == po_acc(s)
    &&& p.amount.number == ca_number(rem)
    &&& p.amount.currency@ == ca_currency(rem)
    &&& p.wf()
    &&& pc_parse(po_clause(s)) matches Some(pr) ==> {
        &&& (p.price is Some) <==> (pr.0 is Some)
        &&& pr.0 matches Some(k) ==> (p.price matches Some(pp) && pp.amount.currency@ == k.1
            && pp.amount.wf() && (k.2 ==> pp.amount.number == k.0) && (!k.2 ==> div_exact_rel(
            k.0,
            mag,
            pp.amount.number,
        )))
        &&& (p.cost is Some) <==> (pr.1 is Some)
        &&& pr.1 matches Some(inner) ==> {
            &&& inner is None ==> (p.cost matches Some(ct) && ct is Automatic)
            &&& inner matches Some(k) ==> (p.cost matches Some(ct) && ct matches CostType::Known(
                cc,
            ) && cc.amount.currency@ == k.1 && cc.amount.wf() && (k.2 ==> cc.amount.number == k.0)
                && (!k.2 ==> div_exact_rel(k.0, mag, cc.amount.number)))
        }
    }
}

impl crate::types::Posting {
    /// Reads one posting line: `<account> <amount> [price] [cost]`, with the
    /// comment already stripped.  Total-form clauses are normalized against
    /// the posting's own amount; a zero amount cannot normalize a total form
    /// and is an error.
    pub fn try_from(input: &str) -> (r: Result<crate::types::Posting, String>)
        ensures
            !posting_syntax_ok(input@) ==> r is Err,
            posting_syntax_ok(input@) && po_divs_ok(input@) ==> r is Ok,
            posting_syntax_ok(input@) && !po_no_total(input@) && ca_number(
                po_rem(input@),
            ).mantissa == 0 ==> r is Err,
            r matches Ok(p) ==> posting_matches(input@, p),
    {
        let ghost s = input@;
        let n = input.unicode_len();
        let mut sp: usize = 0;
        while sp < n && input.get_char(sp) != ' '
            invariant
                0 <= sp <= n,
                n == s.len(),
                s == input@,
                forall|i: int| 0 <= i < sp ==> (#[trigger] s[i]) != ' ',
            decreases n - sp,
        {
            sp = sp + 1;
        }
        proof {
            crate::text::lemma_first_from_shift(s, 0, sp as int, |c: char| c == ' ');
            crate::text::lemma_first_from(s, sp as int, |c: char| c == ' ');
            assert(po_sp(s) == sp as int);
        }
        if sp == n {
            let mut msg = String::from_str("No account in posting: ");
            msg.append(input);
            return Err(msg);
        }
        let acc = input.substring_char(0, sp);
        let remstr = input.substring_char(sp + 1, n);
        proof {
            assert(acc@ =~= po_acc(s));
            assert(remstr@ =~= po_rem(s));
        }
        let (amount, clause) = match consume_amount(remstr) {
            Ok(p) => p,
            Err(e) => {
                return Err(e);
            }
        };
        let (price_raw, cost_raw) = match parse_price_and_cost(clause) {
            Ok(p) => p,
            Err(e) => {
                return Err(e);
            }
        };
        let mag = amount.number.abs();
        let price: Option<Price> = match price_raw {
            None => None,
            Some(pp) => {
                if pp.per_unit {
                    Some(pp.data)
                } else {
                    match pp.data.amount.number.checked_div(mag) {
                        Some(q) => Some(
                            Price {
                                amount: crate::types::Amount {
                                    number: q,
                                    currency: pp.data.amount.currency,
                                },
                            },
                        ),
                        None => {
                            return Err(
                                String::from_str("unable to normalize total price in posting"),
                            );
                        }
                    }
                }
            }
        };
        let cost: Option<CostType> = match cost_raw {
            None => None,
            Some(pc) => {
                match pc.data {
                    CostType::Automatic => Some(CostType::Automatic),
                    CostType::Known(cc) => {
                        if pc.per_unit {
                            Some(CostType::Known(cc))
                        } else {
                            match cc.amount.number.checked_div(mag) {
                                Some(q) => Some(
                                    CostType::Known(
                                        Cost {
                                            amount: crate::types::Amount {
                                                number: q,
                                                currency: cc.amount.currency,
                                            },
                                        },
                                    ),
                                ),
                                None => {
                                    return Err(
                                        String::from_str(
                                            "unable to normalize total cost in posting",
                                        ),
                                    );
                                }
                            }
                        }
                    }
                }
            }
        };
        Ok(crate::types::Posting { account: String::from_str(acc), amount, price, cost })
    }
}

/// The statement body splits at the first newline into the header and the
/// posting lines.
pub open spec fn tx_nl(s: Seq<char>) -> int {
    first_from(s, 0, |c: char| c == '\n')
}

pub open spec fn tx_header(s: Seq<char>) -> Seq<char> {
    s.take(tx_nl(s))
}

pub open spec fn tx_body(s: Seq<char>) -> Seq<char> {
    if tx_nl(s) == s.len() {
        Seq::<char>::empty()
    } else {
        s.skip(tx_nl(s) + 1)
    }
}

/// The posting lines of the body: each line stripped of its comment and
/// trimmed, blank results dropped.
pub open spec fn posting_lines(s: Seq<char>, pos: int) -> Seq<Seq<char>>
    decreases s.len() - pos,
{
    if pos < 0 || pos >= s.len() {
        Seq::<Seq<char>>::empty()
    } else {
        let e = crate::parser::statement_iterator::line_end(s, pos);
        let e2 = if e < pos {
            pos
        } else if e > s.len() {
            s.len() as int
        } else {
            e
        };
        let t = trim_spec(crate::text::trim_comment_spec(s.subrange(pos, e2)));
        let rest = posting_lines(s, crate::parser::statement_iterator::next_line(s, pos));
        if t.len() == 0 {
            rest
        } else {
            seq![t] + rest
        }
    }
}

/// The whole body fits the transaction shape: a quoted header and readable
/// posting lines.
pub open spec fn txn_syntax_ok(body: Seq<char>) -> bool {
    &&& header_ok(tx_header(body))
    &&& forall|i: int| 0 <= i < posting_lines(tx_body(body), 0).len() ==> posting_syntax_ok(
        #[trigger] posting_lines(tx_body(body), 0)[i],
    )
}

/// Every total-form clause of every posting line divides exactly within
/// the small-mantissa bound, so assembly is guaranteed to succeed.
pub open spec fn txn_divs_ok(body: Seq<char>) -> bool {
    forall|i: int| 0 <= i < posting_lines(tx_body(body), 0).len() ==> po_divs_ok(
        #[trigger] posting_lines(tx_body(body), 0)[i],
    )
}

/// What an assembled transaction promises about the body it came from.
pub open spec fn txn_matches(
    date: crate::date::Date,
    flag: TransactionFlag,
    body: Seq<char>,
    t: crate::types::Transaction,
) -> bool {
    let toks = header_tokens(tx_header(body));
    let lines = posting_lines(tx_body(body), 0);
    &&& t.date == date
    &&& t.flag == flag
    &&& header_ok(tx_header(body))
    &&& toks.len() == 0 ==> t.payee is None && t.narration is None
    &&& toks.len() == 1 ==> (t.payee is None && (t.narration matches Some(x) && x@ == hdr_val(
        toks[0],
    )))
    &&& toks.len() == 2 ==> ((t.payee matches Some(x) && x@ == hdr_val(toks[0])) && (
    t.narration matches Some(y) && y@ == hdr_val(toks[1])))
    &&& t.postings@.len() == lines.len()
    &&& forall|i: int| 0 <= i < lines.len() ==> posting_matches(
        lines[i],
        #[trigger] t.postings@[i],
    )
}

impl crate::types::Transaction {
    /// Assembles a transaction from its date, flag and body: the header's
    /// quoted strings become payee and narration, and every non-blank
    /// posting line one posting, in order.  A failing posting line fails the
    /// whole transaction.
    pub fn try_from_parts(
        date: crate::date::Date,
        flag: TransactionFlag,
        statement: &str,
    ) -> (r: Result<crate::types::Transaction, String>)
        ensures
            !txn_syntax_ok(statement@) ==> r is Err,
            txn_syntax_ok(statement@) && txn_divs_ok(statement@) ==> r is Ok,
            r matches Ok(t) ==> txn_matches(date, flag, statement@, t) && t.wf(),
    {
        let ghost s = statement@;
        let n = statement.unicode_len();
        let mut nl: usize = 0;
        while nl < n && statement.get_char(nl) != '\n'
            invariant
                0 <= nl <= n,
                n == s.len(),
                s == statement@,
                forall|i: int| 0 <= i < nl ==> (#[trigger] s[i]) != '\n',
            decreases n - nl,
        {
            nl = nl + 1;
        }
        proof {
            crate::text::lemma_first_from_shift(s, 0, nl as int, |c: char| c == '\n');
            crate::text::lemma_first_from(s, nl as int, |c: char| c == '\n');
            assert(tx_nl(s) == nl as int);
        }
        let header = statement.substring_char(0, nl);
        let body = if nl < n {
            statement.substring_char(nl + 1, n)
        } else {
            statement.substring_char(n, n)
        };
        proof {
            assert(header@ =~= tx_header(s));
            assert(body@ =~= tx_body(s));
        }
        let (payee, narration) = match parse_narration_and_payee(header) {
            Ok(p) => p,
            Err(e) => {
                return Err(e);
            }
        };
        let ghost plines = posting_lines(body@, 0);
        let nb = body.unicode_len();
        let mut pos: usize = 0;
        let mut postings: Vec<crate::types::Posting> = Vec::new();
        loop
            invariant
                0 <= pos <= nb,
                nb == body@.len(),
                s == statement@,
                body@ == tx_body(s),
                header_ok(tx_header(s)),
                plines == posting_lines(body@, 0),
                posting_lines(body@, pos as int) == plines.skip(postings@.len() as int),
                postings@.len() <= plines.len(),
                forall|i: int| 0 <= i < postings@.len() ==> posting_matches(
                    plines[i],
                    #[trigger] postings@[i],
                ),
                forall|i: int| 0 <= i < postings@.len() ==> (#[trigger] postings@[i]).wf(),
                txn_syntax_ok(s) && txn_divs_ok(s) ==> (forall|i: int|
                    0 <= i < plines.len() ==> posting_syntax_ok(#[trigger] plines[i])
                        && po_divs_ok(plines[i])),
            ensures
                postings@.len() == plines.len(),
                forall|i: int| 0 <= i < plines.len() ==> posting_matches(
                    plines[i],
                    #[trigger] postings@[i],
                ),
                forall|i: int| 0 <= i < postings@.len() ==> (#[trigger] postings@[i]).wf(),
            decreases nb - pos,
        {
            if pos >= nb {
                proof {
                    assert(posting_lines(body@, pos as int) =~= Seq::<Seq<char>>::empty());
                    assert(postings@.len() == plines.len());
                }
                break;
            }
            let start = pos;
            let mut e = start;
            while e < nb && body.get_char(e) != '\n'
                invariant
                    start <= e <= nb,
                    nb == body@.len(),
                    forall|i: int| start <= i < e ==> (#[trigger] body@[i]) != '\n',
                decreases nb - e,
            {
                e = e + 1;
            }
            proof {
                crate::text::lemma_first_from_shift(body@, start as int, e as int, |c: char|
                    c == '\n');
                crate::text::lemma_first_from(body@, e as int, |c: char| c == '\n');
                assert(crate::parser::statement_iterator::line_end(body@, start as int)
                    == e as int);
            }
            let nxt = if e < nb {
                e + 1
            } else {
                nb
            };
            let raw = body.substring_char(start, e);
            let sanitized = crate::text::trim_str(crate::parser::trim_comment_at_end(raw));
            proof {
                assert(raw@ =~= body@.subrange(start as int, e as int));
                assert(crate::parser::statement_iterator::next_line(body@, start as int)
                    == nxt as int);
            }
            if sanitized.unicode_len() == 0 {
                pos = nxt;
                continue;
            }
            proof {
                assert(posting_lines(body@, start as int) == seq![sanitized@] + posting_lines(
                    body@,
                    nxt as int,
                ));
                assert(plines.skip(postings@.len() as int)[0] == sanitized@);
                assert(plines[postings@.len() as int] == sanitized@);
                assert(plines.skip(postings@.len() as int).drop_first() =~= plines.skip(
                    postings@.len() as int + 1,
                ));
            }
            match crate::types::Posting::try_from(sanitized) {
                Ok(p) => {
                    postings.push(p);
                    pos = nxt;
                }
                Err(e) => {
                    proof {
                        // this line is readable with representable divisions
                        // only if the posting parse succeeds, so the body is not
                        assert(txn_syntax_ok(s) && txn_divs_ok(s) ==> false);
                    }
                    let mut msg = String::from_str("Unable to parse posting: ");
                    msg.append(e.as_str());
                    return Err(msg);
                }
            }
        }
        proof {
            assert forall|i: int| 0 <= i < posting_lines(tx_body(s), 0).len() implies
                posting_syntax_ok(#[trigger] posting_lines(tx_body(s), 0)[i]) by {
                assert(posting_matches(plines[i], postings@[i]));
            }
            assert(txn_syntax_ok(s));
        }
        Ok(crate::types::Transaction { date, flag, payee, narration, postings })
    }

    /// Reads a whole transaction statement: date, flag, header and postings.
    pub fn try_from(statement: &str) -> (r: Result<crate::types::Transaction, String>)
        ensures
            !crate::parser::dc_ok(statement@) ==> r is Err,
            crate::parser::dc_ok(statement@) && crate::parser::dc_cmd(statement@) != "*"@
                && crate::parser::dc_cmd(statement@) != "!"@ ==> r is Err,
            r matches Ok(t) ==> {
                &&& crate::parser::dc_ok(statement@)
                &&& (crate::parser::dc_cmd(statement@) == "*"@ || crate::parser::dc_cmd(statement@)
                    == "!"@)
                &&& txn_matches(
                    crate::parser::dc_date(statement@),
                    if crate::parser::dc_cmd(statement@) == "*"@ {
                        TransactionFlag::OK
                    } else {
                        TransactionFlag::Error
                    },
                    crate::parser::dc_rem(statement@),
                    t,
                )
                &&& t.wf()
            },
            ({
                let s = statement@;
                crate::parser::dc_ok(s) && (crate::parser::dc_cmd(s) == "*"@
                    || crate::parser::dc_cmd(s) == "!"@) && txn_syntax_ok(crate::parser::dc_rem(s))
                    && txn_divs_ok(crate::parser::dc_rem(s)) ==> r is Ok
            }),
    {
        let (date, flag_str, remain) = match crate::parser::date_and_cmd(statement) {
            Ok(p) => p,
            Err(e) => {
                return Err(e);
            }
        };
        let flag = match parse_flag(flag_str) {
            Some(f) => f,
            None => {
                let mut msg = String::from_str("Invalid flag: ");
                msg.append(flag_str);
                return Err(msg);
            }
        };
        proof {
            reveal_strlit("*");
            reveal_strlit("!");
        }
        Self::try_from_parts(date, flag, remain)
    }
}

} // verus!

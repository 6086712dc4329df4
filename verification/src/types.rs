//! The typed representation of a ledger: amounts, postings, transactions and
//! the directive entries, together with the double-entry balance check.
use crate::date::Date;
use crate::decimal::{
    aligned_sum, dec_eq, pow10, sum_scale, Decimal, MAX_MANTISSA,
};
use vstd::prelude::*;

verus! {

/// A number together with the currency it is denominated in.
#[derive(Debug, PartialEq, Clone)]
pub struct Amount {
    pub number: Decimal,
    pub currency: String,
}

impl Amount {
    pub open spec fn wf(self) -> bool {
        self.number.wf()
    }

    pub fn new(number: Decimal, currency: String) -> (r: Amount)
        ensures
            r.number == number,
            r.currency == currency,
    {
        Amount { number, currency }
    }
}

/// A transaction's cleared (`*`) or pending (`!`) marker.
#[derive(Debug, Clone, Copy, PartialEq, Eq, Structural)]
pub enum TransactionFlag {
    OK,
    Error,
}

/// A per-unit price attached to a posting (`@`/`@@` clause, normalized).
#[derive(Debug, PartialEq, Clone)]
pub struct Price {
    pub amount: Amount,
}

/// A per-unit acquisition cost attached to a posting (`{ }`/`{{ }}` clause,
/// normalized).
#[derive(Debug, PartialEq, Clone)]
pub struct Cost {
    pub amount: Amount,
}

/// A cost is either written out, or left as the empty `{}` placeholder to be
/// resolved by a later lot-matching pass outside this library.
#[derive(Debug, PartialEq, Clone)]
pub enum CostType {
    Known(Cost),
    Automatic,
}

/// One line of a transaction: a change to one account in one currency.
#[derive(Debug, PartialEq, Clone)]
pub struct Posting {
    pub account: String,
    pub amount: Amount,
    pub price: Option<Price>,
    pub cost: Option<CostType>,
}

#[derive(Debug, PartialEq, Clone)]
pub struct Transaction {
    pub date: Date,
    pub flag: TransactionFlag,
    pub payee: Option<String>,
    pub narration: Option<String>,
    pub postings: Vec<Posting>,
}

#[derive(Debug, PartialEq, Clone)]
pub struct Open {
    pub date: Date,
    pub account: String,
    pub allowed_currencies: Option<Vec<String>>,
}

#[derive(Debug, PartialEq, Clone)]
pub struct Close {
    pub date: Date,
    pub account: String,
}

#[derive(Debug, PartialEq, Clone)]
pub struct Balance {
    pub date: Date,
    pub account: String,
    pub amount: Amount,
}

#[derive(Debug, PartialEq, Clone)]
pub struct Commodity {
    pub date: Date,
    pub currency: String,
}

/// A declared market price for a currency.
#[derive(Debug, PartialEq, Clone)]
pub struct PriceEntry {
    pub date: Date,
    pub currency: String,
    pub amount: Amount,
}

/// Any single parsed ledger entry.
#[derive(Debug, PartialEq, Clone)]
pub enum EntryVariant {
    Transaction(Transaction),
    Balance(Balance),
    Open(Open),
    Close(Close),
    Commodity(Commodity),
    PriceEntry(PriceEntry),
}

impl EntryVariant {
    pub open spec fn spec_date(self) -> Date {
        match self {
            EntryVariant::Transaction(t) => t.date,
            EntryVariant::Balance(b) => b.date,
            EntryVariant::Open(o) => o.date,
            EntryVariant::Close(c) => c.date,
            EntryVariant::Commodity(c) => c.date,
            EntryVariant::PriceEntry(p) => p.date,
        }
    }

    pub fn date(&self) -> (r: Date)
        ensures
            r == self.spec_date(),
    {
        match self {
            EntryVariant::Transaction(t) => t.date,
            EntryVariant::Balance(b) => b.date,
            EntryVariant::Open(o) => o.date,
            EntryVariant::Close(c) => c.date,
            EntryVariant::Commodity(c) => c.date,
            EntryVariant::PriceEntry(p) => p.date,
        }
    }
}

/// The largest scale among the amounts; the scale their exact sum is
/// expressed at.
pub open spec fn max_scale_seq(s: Seq<Amount>) -> u32
    decreases s.len(),
{
    if s.len() == 0 {
        0u32
    } else {
        let rest = max_scale_seq(s.drop_last());
        if s.last().number.scale >= rest {
            s.last().number.scale
        } else {
            rest
        }
    }
}

/// The exact sum of the amounts' numbers, as a mantissa at scale `sc`.
pub open spec fn sum_mantissa_at(s: Seq<Amount>, sc: u32) -> int
    decreases s.len(),
{
    if s.len() == 0 {
        0
    } else {
        sum_mantissa_at(s.drop_last(), sc) + s.last().number.mantissa * pow10(
            (sc - s.last().number.scale) as nat,
        )
    }
}

pub open spec fn amounts_wf(s: Seq<Amount>) -> bool {
    forall|i: int| 0 <= i < s.len() ==> (#[trigger] s[i]).number.wf()
}

/// Index of the first amount whose currency differs from the first one
/// (`s.len()` when all agree).
pub open spec fn mismatch_from(s: Seq<Amount>, i: int) -> int
    decreases s.len() - i,
{
    if i < 0 || i >= s.len() {
        s.len() as int
    } else if s[i].currency@ != s[0].currency@ {
        i
    } else {
        mismatch_from(s, i + 1)
    }
}

pub open spec fn mismatch_at(s: Seq<Amount>) -> int {
    mismatch_from(s, 0)
}

proof fn lemma_mismatch_from(s: Seq<Amount>, i: int)
    requires
        0 <= i <= s.len(),
    ensures
        i <= mismatch_from(s, i) <= s.len(),
        mismatch_from(s, i) < s.len() ==> s[mismatch_from(s, i)].currency@ != s[0].currency@,
        forall|j: int| i <= j < mismatch_from(s, i) ==> (#[trigger] s[j]).currency@
            == s[0].currency@,
    decreases s.len() - i,
{
    if i < s.len() && s[i].currency@ == s[0].currency@ {
        lemma_mismatch_from(s, i + 1);
    }
}

/// Every running sum of a prefix stays within the 96-bit mantissa range, so
/// summation left to right never overflows.
pub open spec fn sums_in_range_upto(s: Seq<Amount>, m: int) -> bool {
    forall|k: int| 1 <= k <= m ==> -MAX_MANTISSA <= #[trigger] sum_mantissa_at(
        s.take(k),
        max_scale_seq(s.take(k)),
    ) <= MAX_MANTISSA
}

pub open spec fn sums_in_range(s: Seq<Amount>) -> bool {
    sums_in_range_upto(s, s.len() as int)
}

/// The message naming the two conflicting currencies.
pub open spec fn mismatch_message(s: Seq<Amount>) -> Seq<char> {
    "Multiple currencies in given amounts: "@ + s[0].currency@ + " and "@ + s[mismatch_at(
        s,
    )].currency@
}

proof fn lemma_max_scale_bounds(s: Seq<Amount>)
    ensures
        forall|j: int| 0 <= j < s.len() ==> (#[trigger] s[j]).number.scale <= max_scale_seq(s),
        amounts_wf(s) ==> max_scale_seq(s) <= crate::decimal::MAX_SCALE,
    decreases s.len(),
{
    if s.len() > 0 {
        lemma_max_scale_bounds(s.drop_last());
        assert(forall|j: int| 0 <= j < s.len() - 1 ==> s.drop_last()[j] == #[trigger] s[j]);
        assert(s.last() == s[s.len() - 1]);
        if amounts_wf(s) {
            assert(s[s.len() - 1].number.wf());
            assert(amounts_wf(s.drop_last()));
        }
    }
}

/// Re-expressing an exact sum at a larger scale multiplies the mantissa by
/// the corresponding power of ten.
proof fn lemma_sum_rescale(s: Seq<Amount>, s1: u32, s2: u32)
    requires
        s1 <= s2,
        forall|j: int| 0 <= j < s.len() ==> (#[trigger] s[j]).number.scale <= s1,
    ensures
        sum_mantissa_at(s, s2) == sum_mantissa_at(s, s1) * pow10((s2 - s1) as nat),
    decreases s.len(),
{
    let d = (s2 - s1) as nat;
    if s.len() == 0 {
        assert(0 * pow10(d) == 0) by (nonlinear_arith);
    } else {
        assert(forall|j: int| 0 <= j < s.len() - 1 ==> s.drop_last()[j] == #[trigger] s[j]);
        lemma_sum_rescale(s.drop_last(), s1, s2);
        let a = s.last();
        assert(a == s[s.len() - 1]);
        let e1 = (s1 - a.number.scale) as nat;
        crate::decimal::lemma_pow10_add(e1, d);
        assert((s2 - a.number.scale) as nat == e1 + d);
        let rest1 = sum_mantissa_at(s.drop_last(), s1);
        let m = a.number.mantissa as int;
        assert(m * (pow10(e1) * pow10(d)) == (m * pow10(e1)) * pow10(d)) by (nonlinear_arith);
        assert((rest1 + m * pow10(e1)) * pow10(d) == rest1 * pow10(d) + (m * pow10(e1)) * pow10(
            d,
        )) by (nonlinear_arith);
    }
}

/// Sums the amounts exactly, requiring them to share one currency.  The
/// result carries the first amount's currency and the exact mantissa of the
/// arithmetic sum of all the numbers.  Mixed currencies give an error whose
/// message names the first currency and the first one that differs from it;
/// a running sum that leaves the representable range gives an error as well.
pub fn sum_amounts_it(amounts: &Vec<Amount>) -> (r: Result<Amount, String>)
    requires
        amounts_wf(amounts@),
    ensures
        (r is Ok) <==> (amounts@.len() > 0 && mismatch_at(amounts@) == amounts@.len()
            && sums_in_range(amounts@)),
        r matches Ok(a) ==> {
            &&& a.currency@ == amounts@[0].currency@
            &&& a.number.scale == max_scale_seq(amounts@)
            &&& a.number.mantissa == sum_mantissa_at(amounts@, max_scale_seq(amounts@))
            &&& a.number.wf()
        },
        (amounts@.len() > 0 && mismatch_at(amounts@) < amounts@.len() && sums_in_range_upto(
            amounts@,
            mismatch_at(amounts@),
        )) ==> (r matches Err(e) && e@ == mismatch_message(amounts@)),
{
    let ghost s = amounts@;
    let n = amounts.len();
    if n == 0 {
        return Err(String::from_str("No amounts in transaction"));
    }
    proof {
        lemma_mismatch_from(s, 0);
        lemma_max_scale_bounds(s);
    }
    let mut total = Decimal::new(0, 0);
    let mut i: usize = 0;
    proof {
        assert(s.take(0) =~= Seq::<Amount>::empty());
    }
    while i < n
        invariant
            0 < n == s.len(),
            0 <= i <= n,
            s == amounts@,
            amounts_wf(s),
            mismatch_from(s, 0) >= i,
            total.wf(),
            total.scale == max_scale_seq(s.take(i as int)),
            total.mantissa == sum_mantissa_at(s.take(i as int), total.scale),
            sums_in_range_upto(s, i as int),
        decreases n - i,
    {
        let a = &amounts[i];
        if i > 0 && !(a.currency == amounts[0].currency) {
            proof {
                lemma_mismatch_from(s, 0);
                assert(mismatch_at(s) == i);
            }
            let mut msg = String::from_str("Multiple currencies in given amounts: ");
            msg.append(amounts[0].currency.as_str());
            msg.append(" and ");
            msg.append(a.currency.as_str());
            return Err(msg);
        }
        proof {
            // the currency at this index agrees with the first one
            lemma_mismatch_from(s, 0);
            assert(mismatch_at(s) >= i + 1) by {
                if mismatch_at(s) == i as int {
                    assert(s[i as int].currency@ == s[0].currency@);
                }
            }
            // extending the prefix by one amount
            let pref = s.take(i as int);
            let pref1 = s.take(i as int + 1);
            assert(pref1.drop_last() =~= pref);
            assert(pref1.last() == s[i as int]);
            lemma_max_scale_bounds(pref);
            lemma_sum_rescale(pref, max_scale_seq(pref), sum_scale(total, s[i as int].number));
            assert(max_scale_seq(pref1) == sum_scale(total, s[i as int].number));
            assert(sum_mantissa_at(pref1, max_scale_seq(pref1)) == aligned_sum(
                total,
                s[i as int].number,
            ));
        }
        match total.checked_add(a.number) {
            Some(t) => {
                proof {
                    assert forall|k: int| 1 <= k <= i + 1 implies -MAX_MANTISSA
                        <= #[trigger] sum_mantissa_at(s.take(k), max_scale_seq(s.take(k)))
                        <= MAX_MANTISSA by {
                        if k == i + 1 {
                            assert(sum_mantissa_at(s.take(k), max_scale_seq(s.take(k)))
                                == aligned_sum(total, s[i as int].number));
                        }
                    }
                }
                total = t;
            }
            None => {
                proof {
                    let k = i as int + 1;
                    assert(sum_mantissa_at(s.take(k), max_scale_seq(s.take(k))) == aligned_sum(
                        total,
                        s[i as int].number,
                    ));
                    assert(!sums_in_range(s));
                    assert(mismatch_at(s) >= k ==> !sums_in_range_upto(s, mismatch_at(s)));
                }
                return Err(String::from_str("Amount sum leaves the representable range"));
            }
        }
        i = i + 1;
    }
    proof {
        assert(s.take(n as int) =~= s);
        lemma_mismatch_from(s, 0);
    }
    Ok(Amount { number: total, currency: amounts[0].currency.clone() })
}

/// The amounts posted by a transaction, in order.
pub open spec fn posting_amounts(ps: Seq<Posting>) -> Seq<Amount> {
    ps.map_values(|p: Posting| p.amount)
}

impl Posting {
    pub open spec fn wf(self) -> bool {
        &&& self.amount.wf()
        &&& match self.price {
            Some(p) => p.amount.wf(),
            None => true,
        }
        &&& match self.cost {
            Some(CostType::Known(c)) => c.amount.wf(),
            _ => true,
        }
    }
}

impl Transaction {
    pub open spec fn wf(self) -> bool {
        forall|i: int| 0 <= i < self.postings@.len() ==> (#[trigger] self.postings@[i]).wf()
    }

    /// Whether the postings' amounts share one currency and sum exactly to
    /// zero: the double-entry balance invariant.
    pub open spec fn spec_balanced(self) -> bool {
        let s = posting_amounts(self.postings@);
        &&& mismatch_at(s) == s.len()
        &&& sum_mantissa_at(s, max_scale_seq(s)) == 0
    }

    /// The Balance Validator: trivially satisfied with no postings, and
    /// otherwise satisfied exactly when the per-currency sum of the posting
    /// amounts is exactly zero, with a single currency across all postings.
    /// A mixed-currency failure names both conflicting currencies; an
    /// imbalance failure reports the non-zero total.
    pub fn check(&self) -> (r: Result<(), String>)
        requires
            self.wf(),
        ensures
            (r is Ok) <==> (self.postings@.len() == 0 || (self.spec_balanced() && sums_in_range(
                posting_amounts(self.postings@),
            ))),
            ({
                let sa = posting_amounts(self.postings@);
                &&& (sa.len() > 0 && mismatch_at(sa) < sa.len() && sums_in_range_upto(
                    sa,
                    mismatch_at(sa),
                )) ==> (r matches Err(e) && e@
                    == "Invalid collection of amounts in postings: Error "@ + mismatch_message(sa))
                &&& (sa.len() > 0 && mismatch_at(sa) == sa.len() && sums_in_range(sa)
                    && sum_mantissa_at(sa, max_scale_seq(sa)) != 0) ==> (r matches Err(e) && e@
                    == "Transaction not balanced: total is "@ + crate::decimal::dec_text(
                    Decimal {
                        mantissa: sum_mantissa_at(sa, max_scale_seq(sa)) as i128,
                        scale: max_scale_seq(sa),
                    },
                ) + " "@ + sa[0].currency@)
            }),
    {
        let ghost sa = posting_amounts(self.postings@);
        if self.postings.len() == 0 {
            return Ok(());
        }
        let mut amounts: Vec<Amount> = Vec::new();
        let mut i: usize = 0;
        let n = self.postings.len();
        while i < n
            invariant
                0 <= i <= n,
                n == self.postings@.len(),
                self.wf(),
                sa == posting_amounts(self.postings@),
                amounts@ =~= sa.take(i as int),
            decreases n - i,
        {
            let p = &self.postings[i];
            amounts.push(Amount { number: p.amount.number, currency: p.amount.currency.clone() });
            proof {
                assert(amounts@.last() == sa[i as int]);
                assert(amounts@ =~= sa.take(i as int + 1));
            }
            i = i + 1;
        }
        proof {
            assert(amounts@ =~= sa);
            assert(amounts_wf(sa)) by {
                assert(forall|j: int|
                    0 <= j < sa.len() ==> #[trigger] sa[j] == self.postings@[j].amount);
            }
        }
        let sum = match sum_amounts_it(&amounts) {
            Ok(sum) => sum,
            Err(e) => {
                let mut msg = String::from_str(
                    "Invalid collection of amounts in postings: Error ",
                );
                msg.append(e.as_str());
                return Err(msg);
            }
        };
        proof {
            // comparing the sum against the zero decimal tests its mantissa
            assert(dec_eq(sum.number, Decimal { mantissa: 0i128, scale: 0u32 })
                <==> sum.number.mantissa == 0) by {
                assert(pow10(0) == 1) by {
                    reveal_with_fuel(pow10, 1);
                }
                assert(sum.number.mantissa * pow10(0) == sum.number.mantissa) by (nonlinear_arith)
                    requires
                        pow10(0) == 1,
                ;
                assert(0int * pow10(sum.number.scale as nat) == 0) by (nonlinear_arith);
            }
        }
        if !(sum.number == Decimal::new(0, 0)) {
            let mut msg = String::from_str("Transaction not balanced: total is ");
            msg.append(sum.number.to_text().as_str());
            msg.append(" ");
            msg.append(sum.currency.as_str());
            return Err(msg);
        }
        Ok(())
    }
}

} // verus!

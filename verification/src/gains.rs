//! Quotes and the gain computation: one trading day's price pair, and the
//! day's relative price change as an exact rational number.

use vstd::prelude::*;

verus! {

/// One trading day's opening and closing price for a symbol, in fixed-point
/// price units. The caller picks the scale (say, millionths of a currency
/// unit) and must use the same scale for both fields; the gain is a ratio,
/// so the scale cancels out.
#[derive(Clone, Copy, Debug, PartialEq, Eq, Structural)]
pub struct Quote {
    pub open_price: u64,
    pub close_price: u64,
}

/// A day's relative price change, as the exact rational number `num / den`.
#[derive(Clone, Copy, Debug, PartialEq, Eq, Structural)]
pub struct Gain {
    pub num: i128,
    pub den: u64,
}

impl Gain {
    /// A gain is well formed when its denominator is positive.
    pub open spec fn wf(self) -> bool {
        self.den > 0
    }

    /// The gain denotes the rational number zero.
    pub open spec fn is_zero(self) -> bool {
        self.num == 0
    }
}

/// The gain of a quote: zero when the opening price is zero, and otherwise
/// exactly `(close - open) / open`, the day's relative price change.
pub open spec fn spec_gain(q: Quote) -> Gain {
    if q.open_price == 0 {
        Gain { num: 0, den: 1 }
    } else {
        Gain { num: (q.close_price - q.open_price) as i128, den: q.open_price }
    }
}

/// The gains of a quote sequence, elementwise and in source order.
pub open spec fn gains_of(quotes: Seq<Quote>) -> Seq<Gain> {
    quotes.map_values(|q: Quote| spec_gain(q))
}

/// Converts one quote to the single gain value of the day.
pub fn get_gain(quote: Quote) -> (g: Gain)
    ensures
        g == spec_gain(quote),
{
    if quote.open_price == 0 {
        Gain { num: 0, den: 1 }
    } else {
        Gain {
            num: quote.close_price as i128 - quote.open_price as i128,
            den: quote.open_price,
        }
    }
}

/// Converts a day-ordered quote series into the gain series, preserving the
/// source order.
pub fn compute_gains(quotes: &Vec<Quote>) -> (gains: Vec<Gain>)
    ensures
        gains@ == gains_of(quotes@),
{
    let mut gains: Vec<Gain> = Vec::new();
    let mut i: usize = 0;
    while i < quotes.len()
        invariant
            i <= quotes.len(),
            gains@ == gains_of(quotes@.subrange(0, i as int)),
        decreases quotes.len() - i,
    {
        gains.push(get_gain(quotes[i]));
        i = i + 1;
        proof {
            assert(quotes@.subrange(0, i as int).drop_last() =~= quotes@.subrange(
                0,
                i as int - 1,
            ));
            assert(gains@ =~= gains_of(quotes@.subrange(0, i as int)));
        }
    }
    proof {
        assert(quotes@.subrange(0, quotes@.len() as int) =~= quotes@);
    }
    gains
}

/// The gain computation is total: every quote has a well-formed gain. A zero
/// opening price yields the zero gain whatever the closing price is, and a
/// nonzero opening price yields exactly `(close - open) / open`.
pub proof fn lemma_gain_total(q: Quote)
    ensures
        spec_gain(q).wf(),
        q.open_price == 0 ==> spec_gain(q).is_zero(),
        q.open_price != 0 ==> spec_gain(q).num == q.close_price - q.open_price,
        q.open_price != 0 ==> spec_gain(q).den == q.open_price,
{
}

} // verus!

//! The weighted selector: resolves a choice's options to a target link id by
//! a discrete weighted-random draw over their integer weights.

use vstd::prelude::*;
use vstd::string::StrSliceExecFns;
use crate::story::LinkProbabilityPair;

verus! {

/// Errors of weighted selection: an unparseable weight (identifying the
/// offending option), or a degenerate all-zero weight set.
#[derive(Debug)]
pub enum SelectError {
    Config { option_index: usize },
    Distribution,
}

/// Whether `c` is a decimal digit.
pub open spec fn is_digit(c: char) -> bool {
    48 <= c as int && c as int <= 57
}

/// The numeric value of a decimal digit.
pub open spec fn digit_val(c: char) -> int {
    c as int - 48
}

/// Whether `s` is non-empty and made of decimal digits alone.
pub open spec fn is_digit_text(s: Seq<char>) -> bool {
    s.len() > 0 && forall|i: int| 0 <= i < s.len() ==> is_digit(s[i])
}

/// The value of a sequence of decimal digits, most significant first.
pub open spec fn digits_val(s: Seq<char>) -> int
    decreases s.len(),
{
    if s.len() == 0 {
        0
    } else {
        digits_val(s.drop_last()) * 10 + digit_val(s.last())
    }
}

/// Whether `s` parses as a weight: decimal digits whose value fits in `u32`.
pub open spec fn parses_as_weight(s: Seq<char>) -> bool {
    is_digit_text(s) && digits_val(s) <= u32::MAX
}

/// The parsed weight of one option.
pub open spec fn option_weight(o: LinkProbabilityPair) -> int {
    digits_val(o.probability@)
}

proof fn lemma_digits_val_nonneg(s: Seq<char>)
    requires
        forall|i: int| 0 <= i < s.len() ==> is_digit(s[i]),
    ensures
        digits_val(s) >= 0,
    decreases s.len(),
{
    if s.len() > 0 {
        lemma_digits_val_nonneg(s.drop_last());
    }
}

/// A digit prefix never exceeds the value of the whole digit text.
proof fn lemma_digits_val_prefix_le(s: Seq<char>, k: int)
    requires
        0 <= k <= s.len(),
        forall|i: int| 0 <= i < s.len() ==> is_digit(s[i]),
    ensures
        digits_val(s.subrange(0, k)) <= digits_val(s),
    decreases s.len() - k,
{
    if k < s.len() {
        let p = s.subrange(0, k);
        let q = s.subrange(0, k + 1);
        assert(q.drop_last() =~= p);
        lemma_digits_val_nonneg(p);
        lemma_digits_val_prefix_le(s, k + 1);
    } else {
        assert(s.subrange(0, k) =~= s);
    }
}

/// Parses a non-negative integer weight from decimal text. Returns `None`
/// exactly when the text is empty, holds a non-digit, or overflows `u32`.
pub fn parse_weight(s: &str) -> (r: Option<u32>)
    ensures
        r is Some <==> parses_as_weight(s@),
        r matches Some(v) ==> v == digits_val(s@),
{
    let n = s.unicode_len();
    if n == 0 {
        return None;
    }
    let mut val: u32 = 0;
    for i in 0..n
        invariant
            n == s@.len(),
            forall|j: int| 0 <= j < i ==> is_digit(s@[j]),
            val == digits_val(s@.subrange(0, i as int)),
    {
        let c = s.get_char(i);
        let cv = c as u32;
        if cv < 48 || cv > 57 {
            return None;
        }
        let d: u32 = cv - 48;
        proof {
            assert(s@.subrange(0, i + 1).drop_last() =~= s@.subrange(0, i as int));
            assert(is_digit(s@[i as int]));
            assert(d == digit_val(s@[i as int]));
        }
        if val > (u32::MAX - d) / 10 {
            proof {
                assert(digits_val(s@.subrange(0, i + 1)) == val * 10 + d);
                assert(val * 10 + d > u32::MAX) by (nonlinear_arith)
                    requires val > (u32::MAX - d) / 10 && d <= 9;
                if forall|j: int| 0 <= j < s@.len() ==> is_digit(s@[j]) {
                    lemma_digits_val_prefix_le(s@, i + 1);
                }
            }
            return None;
        }
        proof {
            assert(val * 10 + d <= u32::MAX) by (nonlinear_arith)
                requires val <= (u32::MAX - d) / 10 && d <= 9;
        }
        val = val * 10 + d;
    }
    proof {
        assert(s@.subrange(0, n as int) =~= s@);
    }
    Some(val)
}

/// The sum of the first `k` parsed option weights.
pub open spec fn cum_weight(options: Seq<LinkProbabilityPair>, k: int) -> int
    decreases k,
{
    if k <= 0 {
        0
    } else {
        cum_weight(options, k - 1) + option_weight(options[k - 1])
    }
}

/// The sum of all parsed option weights.
pub open spec fn total_weight(options: Seq<LinkProbabilityPair>) -> int {
    cum_weight(options, options.len() as int)
}

/// Whether every option's weight text parses.
pub open spec fn all_weights_parse(options: Seq<LinkProbabilityPair>) -> bool {
    forall|i: int| 0 <= i < options.len() ==> parses_as_weight(#[trigger] options[i].probability@)
}

/// The sum of the first `k` weights of a parsed weight vector.
pub open spec fn cum_w(ws: Seq<u32>, k: int) -> int
    decreases k,
{
    if k <= 0 {
        0
    } else {
        cum_w(ws, k - 1) + ws[k - 1]
    }
}

/// Where each entry of `ws` is the parsed weight of the matching option, the
/// partial sums agree.
proof fn lemma_cum_w_matches(ws: Seq<u32>, options: Seq<LinkProbabilityPair>, k: int)
    requires
        0 <= k <= ws.len(),
        ws.len() == options.len(),
        forall|i: int| 0 <= i < ws.len() ==> ws[i] == option_weight(#[trigger] options[i]),
    ensures
        cum_w(ws, k) == cum_weight(options, k),
    decreases k,
{
    if k > 0 {
        lemma_cum_w_matches(ws, options, k - 1);
    }
}

/// Selects the option that a draw of `draw` from `[0, total)` lands on: the
/// unique index whose cumulative weight interval contains the draw. The
/// selected option always has a positive weight.
pub fn select_index(ws: &Vec<u32>, draw: u128) -> (i: usize)
    requires
        draw < cum_w(ws@, ws@.len() as int),
        cum_w(ws@, ws@.len() as int) <= u128::MAX,
    ensures
        i < ws@.len(),
        cum_w(ws@, i as int) <= draw < cum_w(ws@, i as int + 1),
        ws@[i as int] > 0,
{
    let n = ws.len();
    let mut acc: u128 = 0;
    for i in 0..n
        invariant
            n == ws@.len(),
            draw < cum_w(ws@, n as int),
            cum_w(ws@, n as int) <= u128::MAX,
            acc == cum_w(ws@, i as int),
            acc <= draw,
    {
        proof {
            lemma_cum_w_le_total(ws@, i as int + 1, n as int);
            assert(cum_w(ws@, i as int + 1) == cum_w(ws@, i as int) + ws@[i as int]);
        }
        let acc2: u128 = acc + ws[i] as u128;
        if draw < acc2 {
            return i;
        }
        acc = acc2;
    }
    proof {
        assert(false);
    }
    0
}

/// Partial sums are monotone in the number of summands.
proof fn lemma_cum_w_le_total(ws: Seq<u32>, k: int, n: int)
    requires
        0 <= k <= n <= ws.len(),
    ensures
        cum_w(ws, k) <= cum_w(ws, n),
    decreases n - k,
{
    if k < n {
        lemma_cum_w_le_total(ws, k + 1, n);
    }
}

/// Partial sums depend only on the entries they cover.
proof fn lemma_cum_w_prefix(a: Seq<u32>, b: Seq<u32>, k: int)
    requires
        0 <= k <= a.len(),
        k <= b.len(),
        forall|i: int| 0 <= i < k ==> a[i] == b[i],
    ensures
        cum_w(a, k) == cum_w(b, k),
    decreases k,
{
    if k > 0 {
        lemma_cum_w_prefix(a, b, k - 1);
    }
}

/// Relies on rand::random_range over `0..bound`: the draw lies in the
/// half-open range it is given.
#[verifier::external_body]
fn draw_below(bound: u128) -> (r: u128)
    requires
        bound > 0,
    ensures
        r < bound,
{
    rand::random_range(0..bound)
}

/// Resolves a choice's options to the id of the next link by a weighted
/// draw. An option of weight zero is never selected; a weight that does not
/// parse is a `Config` error naming the first offending option; a weight set
/// summing to zero (an empty set included) is a `Distribution` error.
pub fn resolve(options: &Vec<LinkProbabilityPair>) -> (r: Result<String, SelectError>)
    ensures
        match r {
            Ok(id) => {
                &&& all_weights_parse(options@)
                &&& total_weight(options@) > 0
                &&& exists|i: int|
                    0 <= i < options@.len() && id@ == #[trigger] options@[i].link@
                        && option_weight(options@[i]) > 0
            },
            Err(SelectError::Config { option_index }) => {
                &&& option_index < options@.len()
                &&& !parses_as_weight(options@[option_index as int].probability@)
                &&& forall|j: int|
                    0 <= j < option_index ==> parses_as_weight(
                        #[trigger] options@[j].probability@,
                    )
            },
            Err(SelectError::Distribution) => {
                all_weights_parse(options@) && total_weight(options@) == 0
            },
        },
        all_weights_parse(options@) && total_weight(options@) > 0 ==> r is Ok,
{
    let n = options.len();
    let mut ws: Vec<u32> = Vec::new();
    let mut total: u128 = 0;
    for i in 0..n
        invariant
            n == options@.len(),
            ws@.len() == i,
            forall|j: int| 0 <= j < i ==> ws@[j] == option_weight(#[trigger] options@[j]),
            forall|j: int|
                0 <= j < i ==> parses_as_weight(#[trigger] options@[j].probability@),
            total == cum_w(ws@, i as int),
            total <= i as u128 * 0xFFFF_FFFFu128,
    {
        let w = match parse_weight(options[i].probability.as_str()) {
            Some(w) => w,
            None => {
                return Err(SelectError::Config { option_index: i });
            },
        };
        proof {
            assert((i + 1) as u128 * 0xFFFF_FFFFu128 == i as u128 * 0xFFFF_FFFFu128
                + 0xFFFF_FFFFu128) by (nonlinear_arith);
            assert(i as u128 * 0xFFFF_FFFFu128 <= 0xFFFF_FFFF_FFFF_FFFFu128
                * 0xFFFF_FFFFu128) by (nonlinear_arith)
                requires i as u128 <= 0xFFFF_FFFF_FFFF_FFFFu128;
        }
        total = total + w as u128;
        let ghost prev = ws@;
        ws.push(w);
        proof {
            lemma_cum_w_prefix(prev, ws@, i as int);
        }
    }
    proof {
        lemma_cum_w_matches(ws@, options@, n as int);
    }
    if total == 0 {
        return Err(SelectError::Distribution);
    }
    let draw = draw_below(total);
    let i = select_index(&ws, draw);
    let picked = options[i].link.clone();
    proof {
        assert(picked@ == options@[i as int].link@);
        assert(option_weight(options@[i as int]) > 0);
    }
    Ok(picked)
}

} // verus!

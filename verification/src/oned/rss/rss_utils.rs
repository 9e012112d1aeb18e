//! The number that the widths of the elements of an RSS character stand
//! for.

use vstd::prelude::*;

verus! {

/// The number of ways to choose `r` things out of `n`.
pub open spec fn binomial(n: nat, r: nat) -> nat
    decreases n,
{
    if r == 0 {
        1
    } else if n == 0 {
        0
    } else {
        binomial((n - 1) as nat, (r - 1) as nat) + binomial((n - 1) as nat, r)
    }
}

/// The number of ways to choose `r` things out of `n`, and 1 where that
/// question has no meaning.
pub open spec fn combinations(n: int, r: int) -> int {
    if 0 <= r <= n {
        binomial(n as nat, r as nat) as int
    } else {
        1
    }
}

/// The smaller of `r` and `n - r`.
pub open spec fn smaller_choice(n: int, r: int) -> int {
    if n - r > r {
        r
    } else {
        n - r
    }
}

/// The first three entries of each row of Pascal's triangle.
pub proof fn lemma_binomial_small(n: nat)
    ensures
        binomial(n, 0) == 1,
        binomial(n, 1) == n,
        2 * binomial(n, 2) == n * (n - 1),
    decreases n,
{
    if n > 0 {
        lemma_binomial_small((n - 1) as nat);
        assert(n * (n - 1) == (n - 1) * (n - 2) + 2 * (n - 1)) by (nonlinear_arith);
    }
}

/// Nothing can be chosen in more ways than there are things to choose.
pub proof fn lemma_binomial_beyond(n: nat, r: nat)
    requires
        r > n,
    ensures
        binomial(n, r) == 0,
    decreases n,
{
    if n > 0 {
        lemma_binomial_beyond((n - 1) as nat, (r - 1) as nat);
        lemma_binomial_beyond((n - 1) as nat, r);
    }
}

/// To choose `r` things is to choose the `n - r` that are left.
pub proof fn lemma_binomial_symmetric(n: nat, r: nat)
    requires
        r <= n,
    ensures
        binomial(n, r) == binomial(n, (n - r) as nat),
    decreases n,
{
    if r == 0 {
        lemma_binomial_full(n);
    } else if r == n {
        lemma_binomial_full(n);
    } else {
        lemma_binomial_symmetric((n - 1) as nat, (r - 1) as nat);
        lemma_binomial_symmetric((n - 1) as nat, r);
    }
}

/// There is one way to choose everything.
pub proof fn lemma_binomial_full(n: nat)
    ensures
        binomial(n, n) == 1,
    decreases n,
{
    if n > 0 {
        lemma_binomial_full((n - 1) as nat);
        lemma_binomial_beyond((n - 1) as nat, n);
    }
}

/// Where at most two things are chosen or left, the number of ways is at
/// least 1 and at most the square of `n`.
pub proof fn lemma_combinations_bound(n: int, r: int)
    requires
        smaller_choice(n, r) <= 2,
    ensures
        1 <= combinations(n, r),
        n <= 1 ==> combinations(n, r) == 1,
        n >= 1 ==> combinations(n, r) <= n * n,
        (r <= 1 && n >= 1) ==> combinations(n, r) <= n,
{
    assert(n >= 1 ==> 1 <= n * n) by (nonlinear_arith);
    if 0 <= r <= n {
        let k = smaller_choice(n, r);
        lemma_binomial_symmetric(n as nat, r as nat);
        lemma_binomial_small(n as nat);
        assert(0 <= k <= 2);
        assert(binomial(n as nat, r as nat) == binomial(n as nat, k as nat));
        assert(n >= 1 ==> n <= n * n) by (nonlinear_arith);
        assert(n >= 2 ==> 2 <= n * (n - 1) <= 2 * (n * n)) by (nonlinear_arith);
        if k == 2 {
            assert(n >= 2);
            assert(2 * binomial(n as nat, 2) == n * (n - 1));
            if r <= 1 {
                assert(n - r == 2);
                assert(n <= 3);
                assert(n * (n - 1) <= 2 * n) by (nonlinear_arith)
                    requires
                        2 <= n <= 3,
                ;
            }
        } else if k == 1 {
            assert(n >= 1);
        }
    }
}

/// The number of ways to choose `r` things out of `n`; 1 where `r` is not
/// between 0 and `n`. At most two things may be chosen or left.
pub fn combins(n: i64, r: i64) -> (val: i64)
    requires
        -0x1_0000_0000 <= n <= 0x10_0000,
        -0x1_0000_0000 <= r <= 0x1_0000_0000,
        smaller_choice(n as int, r as int) <= 2,
    ensures
        val == combinations(n as int, r as int),
{
    let maxDenom: i64;
    let minDenom: i64;
    if n - r > r {
        minDenom = r;
        maxDenom = n - r;
    } else {
        minDenom = n - r;
        maxDenom = r;
    }
    let mut val: i64 = 1;
    let mut j: i64 = 1;
    let mut i: i64 = n;
    while i > maxDenom
        invariant
            n <= 0x10_0000,
            minDenom + maxDenom == n,
            minDenom <= 2,
            1 <= j,
            i == n - (j - 1),
            minDenom < 0 ==> j == 1 && val == 1 && i <= maxDenom,
            minDenom >= 0 ==> j <= minDenom + 1 && (i > maxDenom ==> n >= 1),
            minDenom >= 0 && n >= 0 ==> val == binomial(n as nat, (j - 1) as nat),
        decreases i - maxDenom,
    {
        proof {
            lemma_binomial_small(n as nat);
            assert(n * (n - 1) <= 0x100_0000_0000) by (nonlinear_arith)
                requires
                    1 <= n <= 0x10_0000,
            ;
            if j == 2 {
                assert(val * i == n * (n - 1)) by (nonlinear_arith)
                    requires
                        val == n,
                        i == n - 1,
                ;
            }
        }
        val = val * i;
        if j <= minDenom {
            val = val / j;
            j += 1;
        }
        i -= 1;
    }
    while j <= minDenom
        invariant
            minDenom <= 2,
            minDenom >= 0 ==> j == minDenom + 1,
            minDenom < 0 ==> j == 1 && val == 1,
            minDenom >= 0 && n >= 0 ==> val == binomial(n as nat, (j - 1) as nat),
        decreases minDenom + 1 - j,
    {
        val = val / j;
        j += 1;
    }
    proof {
        if 0 <= r <= n {
            lemma_binomial_symmetric(n as nat, r as nat);
            lemma_binomial_small(n as nat);
        }
    }
    val
}

/// The sum of `combinations(rest - m - 1, r)` over the widths `m` from
/// `cur + 1` to `top`.
pub open spec fn wide_total(rest: int, r: int, top: int, cur: int) -> int
    decreases top - cur,
{
    if cur >= top {
        0
    } else {
        wide_total(rest, r, top, cur + 1) + combinations(rest - (cur + 1) - 1, r)
    }
}

/// The number of characters that come before those in which element `bar`
/// is `elm + 1` modules wide or wider, among the characters of four
/// elements that share the elements before `bar`, where `n` modules are
/// left for element `bar` and those behind it: all ways to share out the
/// modules that are left behind a width of `elm`, less those in which no
/// element is one module wide where `no_narrow` forbids them, and less
/// those in which an element is wider than `max_width`. `narrow_free` says
/// that no element so far is one module wide.
pub open spec fn sub_value(
    n: int,
    elm: int,
    bar: int,
    max_width: int,
    no_narrow: bool,
    narrow_free: bool,
) -> int {
    let rest = n - elm;
    let all = combinations(rest - 1, 2 - bar);
    let kept = if no_narrow && narrow_free && rest - (3 - bar) >= 3 - bar {
        all - combinations(rest - (4 - bar), 2 - bar)
    } else {
        all
    };
    if bar < 2 {
        kept - wide_total(rest, 1 - bar, rest - (2 - bar), max_width) * (3 - bar)
    } else if rest > max_width {
        kept - 1
    } else {
        kept
    }
}

/// The sum of `sub_value` over the widths from 1 to `upto - 1` of element
/// `bar`. `wide_before` says that every element before `bar` is wider than
/// one module.
pub open spec fn bar_total(
    n: int,
    bar: int,
    max_width: int,
    no_narrow: bool,
    wide_before: bool,
    upto: int,
) -> int
    decreases upto,
{
    if upto <= 1 {
        0
    } else {
        bar_total(n, bar, max_width, no_narrow, wide_before, upto - 1) + sub_value(
            n,
            upto - 1,
            bar,
            max_width,
            no_narrow,
            wide_before && upto - 1 >= 2,
        )
    }
}

/// A width, or 1 where the width is less.
pub open spec fn at_least_one(w: int) -> int {
    if w < 1 {
        1
    } else {
        w
    }
}

/// The number that four element widths stand for: the place of the widths
/// among all characters of as many modules whose elements are at most
/// `max_width` wide and, where `no_narrow` holds, of which one is a single
/// module wide. It is the sum, over the first three elements, of the
/// characters that come before because that element is narrower.
pub open spec fn rss_value(widths: Seq<int>, max_width: int, no_narrow: bool) -> int {
    let n0 = widths[0] + widths[1] + widths[2] + widths[3];
    let n1 = n0 - at_least_one(widths[0]);
    let n2 = n1 - at_least_one(widths[1]);
    bar_total(n0, 0, max_width, no_narrow, true, at_least_one(widths[0])) + bar_total(
        n1,
        1,
        max_width,
        no_narrow,
        widths[0] > 1,
        at_least_one(widths[1]),
    ) + bar_total(
        n2,
        2,
        max_width,
        no_narrow,
        widths[0] > 1 && widths[1] > 1,
        at_least_one(widths[2]),
    )
}

/// What one width of one element can add to or take from the number of a
/// character of at most `limit` modules.
pub open spec fn step_bound(limit: int) -> int {
    5 * limit * limit + 3
}

/// The numbers of four element widths.
pub open spec fn widths_of(widths: [u32; 4]) -> Seq<int> {
    widths@.map_values(|w: u32| w as int)
}

proof fn lemma_product_step(count: int, step: int)
    by (nonlinear_arith)
    ensures
        (count + 1) * step == count * step + step,
        0 * step == 0,
{
}

proof fn lemma_product_monotone(a: int, b: int, step: int)
    by (nonlinear_arith)
    requires
        0 <= a <= b,
        0 <= step,
    ensures
        a * step <= b * step,
        0 <= a * step,
{
}

/// The sum of `combins(rest - m - 1, r)` over the widths `m` from `top`
/// down to the first above `maxWidth`.
fn wideTotal(rest: i64, r: i64, top: i64, maxWidth: i64, limit: i64) -> (lessVal: i64)
    requires
        1 <= limit <= 1020,
        -1024 <= rest <= limit,
        top <= rest,
        0 <= r <= 1,
        0 <= maxWidth,
    ensures
        lessVal == wide_total(rest as int, r as int, top as int, maxWidth as int),
        0 <= lessVal <= limit * limit,
{
    let mut lessVal: i64 = 0;
    let mut mxwElement: i64 = top;
    proof {
        lemma_product_step(0, limit as int);
        lemma_product_monotone(0, limit as int, limit as int);
    }
    if top <= maxWidth {
        return 0;
    }
    while mxwElement > maxWidth
        invariant
            1 <= limit <= 1020,
            -1024 <= rest <= limit,
            top <= rest,
            0 <= r <= 1,
            0 <= maxWidth <= mxwElement <= top,
            lessVal == wide_total(rest as int, r as int, top as int, mxwElement as int),
            0 <= lessVal <= (top - mxwElement) * limit,
            (top - mxwElement) * limit <= 1020 * 1020,
        decreases mxwElement - maxWidth,
    {
        proof {
            lemma_combinations_bound(rest - mxwElement - 1, r as int);
            lemma_product_step(top - mxwElement, limit as int);
            lemma_product_monotone(top - mxwElement + 1, limit as int, limit as int);
            lemma_product_monotone(limit as int, 1020, limit as int);
            lemma_product_monotone(limit as int, 1020, 1020);
        }
        lessVal = lessVal + combins(rest - mxwElement - 1, r);
        mxwElement -= 1;
    }
    proof {
        lemma_product_monotone(top - mxwElement, limit as int, limit as int);
    }
    lessVal
}

/// `sub_value` for one width of one element.
fn subValue(
    n: i64,
    elmWidth: i64,
    bar: i64,
    maxWidth: i64,
    noNarrow: bool,
    narrowFree: bool,
    limit: i64,
) -> (subVal: i64)
    requires
        1 <= limit <= 1020,
        -3 <= n <= limit,
        1 <= elmWidth <= 1020,
        0 <= bar <= 2,
        0 <= maxWidth,
    ensures
        subVal == sub_value(
            n as int,
            elmWidth as int,
            bar as int,
            maxWidth as int,
            noNarrow,
            narrowFree,
        ),
        -step_bound(limit as int) <= subVal <= step_bound(limit as int),
{
    let rest: i64 = n - elmWidth;
    proof {
        lemma_combinations_bound(rest - 1, 2 - bar);
        lemma_combinations_bound(rest - (4 - bar), 2 - bar);
        assert(limit * limit >= 1) by (nonlinear_arith)
            requires
                limit >= 1,
        ;
        if rest - 1 >= 1 {
            assert((rest - 1) * (rest - 1) <= limit * limit) by (nonlinear_arith)
                requires
                    1 <= rest - 1 <= limit,
            ;
        }
        if rest - (4 - bar) >= 1 {
            assert((rest - (4 - bar)) * (rest - (4 - bar)) <= limit * limit) by (nonlinear_arith)
                requires
                    1 <= rest - (4 - bar) <= limit,
            ;
        }
        assert(5 * limit * limit == 5 * (limit * limit)) by (nonlinear_arith);
        assert(limit * limit <= 1020 * 1020) by (nonlinear_arith)
            requires
                1 <= limit <= 1020,
        ;
    }
    let mut subVal: i64 = combins(rest - 1, 2 - bar);
    if noNarrow && narrowFree && rest - (3 - bar) >= 3 - bar {
        subVal = subVal - combins(rest - (4 - bar), 2 - bar);
    }
    if bar < 2 {
        let lessVal: i64 = wideTotal(rest, 1 - bar, rest - (2 - bar), maxWidth, limit);
        assert(lessVal * (3 - bar) <= 3 * (limit * limit) && lessVal * (3 - bar) >= 0)
            by (nonlinear_arith)
            requires
                0 <= lessVal <= limit * limit,
                1 <= 3 - bar <= 3,
        ;
        subVal = subVal - lessVal * (3 - bar);
    } else if rest > maxWidth {
        subVal = subVal - 1;
    }
    subVal
}

/// The sum of `sub_value` over the widths of element `bar` below `width`.
fn barTotal(
    n: i64,
    width: i64,
    bar: i64,
    maxWidth: i64,
    noNarrow: bool,
    wideBefore: bool,
    limit: i64,
) -> (val: i64)
    requires
        1 <= limit <= 1020,
        -3 <= n <= limit,
        0 <= width <= 255,
        0 <= bar <= 2,
        0 <= maxWidth,
    ensures
        val == bar_total(
            n as int,
            bar as int,
            maxWidth as int,
            noNarrow,
            wideBefore,
            at_least_one(width as int),
        ),
        -(width * step_bound(limit as int)) <= val <= width * step_bound(limit as int),
{
    let mut val: i64 = 0;
    let mut elmWidth: i64 = 1;
    let ghost step = step_bound(limit as int);
    proof {
        lemma_product_step(0, step);
        assert(0 < step <= 5 * 1020 * 1020 + 3) by (nonlinear_arith)
            requires
                step == 5 * limit * limit + 3,
                1 <= limit <= 1020,
        ;
        lemma_product_monotone(0, width as int, step);
    }
    while elmWidth < width
        invariant
            1 <= limit <= 1020,
            -3 <= n <= limit,
            0 <= width <= 255,
            0 <= bar <= 2,
            0 <= maxWidth,
            1 <= elmWidth,
            elmWidth <= at_least_one(width as int),
            step == step_bound(limit as int),
            0 < step <= 5 * 1020 * 1020 + 3,
            val == bar_total(
                n as int,
                bar as int,
                maxWidth as int,
                noNarrow,
                wideBefore,
                elmWidth as int,
            ),
            -((elmWidth - 1) * step) <= val <= (elmWidth - 1) * step,
            (elmWidth - 1) * step <= 255 * step,
        decreases width - elmWidth,
    {
        proof {
            lemma_product_step(elmWidth - 1, step);
            lemma_product_monotone(elmWidth as int, 255, step);
        }
        let subVal: i64 = subValue(
            n,
            elmWidth,
            bar,
            maxWidth,
            noNarrow,
            wideBefore && elmWidth >= 2,
            limit,
        );
        val = val + subVal;
        elmWidth += 1;
    }
    proof {
        lemma_product_monotone(elmWidth - 1, width as int, step);
    }
    val
}

/// The number that four element widths stand for.
pub fn getRSSvalue(widths: &[u32; 4], maxWidth: u32, noNarrow: bool) -> (val: i64)
    requires
        forall|i: int| 0 <= i < 4 ==> #[trigger] widths@[i] <= 255,
    ensures
        val == rss_value(widths_of(*widths), maxWidth as int, noNarrow),
        ({
            let n = widths@[0] + widths@[1] + widths@[2] + widths@[3];
            -(n * step_bound(n)) <= val <= n * step_bound(n)
        }),
{
    let w0: i64 = widths[0] as i64;
    let w1: i64 = widths[1] as i64;
    let w2: i64 = widths[2] as i64;
    let w3: i64 = widths[3] as i64;
    let total: i64 = w0 + w1 + w2 + w3;
    if total == 0 {
        assert(rss_value(widths_of(*widths), maxWidth as int, noNarrow) == 0) by {
            reveal_with_fuel(bar_total, 2);
        }
        return 0;
    }
    let limit: i64 = total;
    let mut n: i64 = total;
    let first: i64 = barTotal(n, w0, 0, maxWidth as i64, noNarrow, true, limit);
    n = n - (if w0 < 1 {
        1
    } else {
        w0
    });
    let second: i64 = barTotal(n, w1, 1, maxWidth as i64, noNarrow, w0 > 1, limit);
    n = n - (if w1 < 1 {
        1
    } else {
        w1
    });
    let third: i64 = barTotal(n, w2, 2, maxWidth as i64, noNarrow, w0 > 1 && w1 > 1, limit);
    proof {
        let step = step_bound(limit as int);
        assert(0 < step <= 5 * 1020 * 1020 + 3) by (nonlinear_arith)
            requires
                step == 5 * limit * limit + 3,
                1 <= limit <= 1020,
        ;
        assert(w0 * step + w1 * step + w2 * step <= total * step) by (nonlinear_arith)
            requires
                w0 + w1 + w2 <= total,
                0 <= step,
        ;
        assert(w0 * step + w1 * step + w2 * step <= 765 * step && 0 <= w0 * step && 0 <= w1 * step
            && 0 <= w2 * step) by (nonlinear_arith)
            requires
                0 <= w0 <= 255,
                0 <= w1 <= 255,
                0 <= w2 <= 255,
                0 <= step,
        ;
    }
    first + second + third
}

} // verus!

//! Decimal literals: the text form of fixed-point numbers.
//!
//! A literal is an optional sign; digits with an optional point before,
//! among or after them, at least one digit in all; and optionally an
//! exponent: `e` or `E`, an optional sign, and one or more digits. It stands
//! for the nine-decimal number nearest to what it writes, halves away from
//! zero.

use crate::fixed::{representable, round_div, Fixed, SCALE};
use vstd::prelude::*;

verus! {

/// The byte `+`.
pub const PLUS: u8 = 43;

/// The byte `-`.
pub const MINUS: u8 = 45;

/// The byte `.`.
pub const POINT: u8 = 46;

/// The byte `e`.
pub const LOWER_E: u8 = 101;

/// The byte `E`.
pub const UPPER_E: u8 = 69;

/// The byte `0`.
pub const DIGIT_ZERO: u8 = 48;

/// The byte `9`.
pub const DIGIT_NINE: u8 = 57;

/// Whether `b` is an ASCII decimal digit.
pub open spec fn is_digit(b: u8) -> bool {
    DIGIT_ZERO <= b <= DIGIT_NINE
}

/// The number of digits with which `s` begins.
pub open spec fn leading_digits(s: Seq<u8>) -> int
    decreases s.len(),
{
    if s.len() > 0 && is_digit(s[0]) {
        1 + leading_digits(s.drop_first())
    } else {
        0
    }
}

/// The number that the digits `s` write in base ten.
pub open spec fn digits_value(s: Seq<u8>) -> int
    decreases s.len(),
{
    if s.len() == 0 {
        0
    } else {
        10 * digits_value(s.drop_last()) + (s.last() - DIGIT_ZERO)
    }
}

/// The `n`-th power of ten.
pub open spec fn pow10(n: nat) -> int
    decreases n,
{
    if n == 0 {
        1
    } else {
        10 * pow10((n - 1) as nat)
    }
}

/// Whether a literal begins with a sign.
pub open spec fn has_sign(t: Seq<u8>) -> bool {
    t.len() > 0 && (t[0] == PLUS || t[0] == MINUS)
}

/// A literal without its sign.
pub open spec fn unsigned_part(t: Seq<u8>) -> Seq<u8> {
    if has_sign(t) {
        t.drop_first()
    } else {
        t
    }
}

/// The digits before the point of an unsigned literal.
pub open spec fn whole_digits(body: Seq<u8>) -> Seq<u8> {
    body.subrange(0, leading_digits(body))
}

/// What follows the digits before the point.
pub open spec fn after_whole(body: Seq<u8>) -> Seq<u8> {
    body.subrange(leading_digits(body), body.len() as int)
}

/// Whether a point follows the digits before it.
pub open spec fn has_point(body: Seq<u8>) -> bool {
    after_whole(body).len() > 0 && after_whole(body)[0] == POINT
}

/// What follows the point, or the digits before it where there is no point.
pub open spec fn after_point(body: Seq<u8>) -> Seq<u8> {
    if has_point(body) {
        after_whole(body).drop_first()
    } else {
        after_whole(body)
    }
}

/// The digits after the point; none where there is no point.
pub open spec fn fraction_digits(body: Seq<u8>) -> Seq<u8> {
    if has_point(body) {
        after_point(body).subrange(0, leading_digits(after_point(body)))
    } else {
        Seq::<u8>::empty()
    }
}

/// What follows the digits and the point: the exponent, if the literal is
/// well formed and has one.
pub open spec fn exponent_part(body: Seq<u8>) -> Seq<u8> {
    after_point(body).subrange(fraction_digits(body).len() as int, after_point(body).len() as int)
}

/// All digits of the literal, those before the point and those after it.
pub open spec fn mantissa(body: Seq<u8>) -> Seq<u8> {
    whole_digits(body) + fraction_digits(body)
}

/// The digits of an exponent, after its mark and its sign.
pub open spec fn exponent_digits(tail: Seq<u8>) -> Seq<u8> {
    unsigned_part(tail.drop_first())
}

/// Whether `tail` is empty or an exponent: a mark, an optional sign, and
/// one or more digits up to the end.
pub open spec fn exponent_well_formed(tail: Seq<u8>) -> bool {
    tail.len() == 0 || {
        &&& tail[0] == LOWER_E || tail[0] == UPPER_E
        &&& exponent_digits(tail).len() > 0
        &&& leading_digits(exponent_digits(tail)) == exponent_digits(tail).len()
    }
}

/// The power of ten that an exponent names; zero for no exponent.
pub open spec fn exponent_value(tail: Seq<u8>) -> int {
    if tail.len() == 0 {
        0
    } else if tail.len() > 1 && tail[1] == MINUS {
        -digits_value(exponent_digits(tail))
    } else {
        digits_value(exponent_digits(tail))
    }
}

/// Whether an unsigned literal has at least one digit, its digits and point
/// in their places, and nothing after them but an exponent.
pub open spec fn well_formed(body: Seq<u8>) -> bool {
    mantissa(body).len() > 0 && exponent_well_formed(exponent_part(body))
}

/// The digits `m`, read so that the first `p` of them count whole
/// billionths, rounded to the nearest billionth, halves away from zero: the
/// digit after the first `p` decides, and where `p` is negative even the
/// first digit lies too far down to count.
pub open spec fn scaled_value(m: Seq<u8>, p: int) -> int {
    if p >= m.len() {
        digits_value(m) * pow10((p - m.len()) as nat)
    } else if p >= 0 {
        digits_value(m.subrange(0, p)) + if m[p] >= DIGIT_ZERO + 5 {
            1int
        } else {
            0int
        }
    } else {
        0
    }
}

/// The billionths that a well-formed unsigned literal stands for: the
/// digits before the point count units, the exponent moves the point, and a
/// unit is a billion billionths.
pub open spec fn magnitude(body: Seq<u8>) -> int {
    scaled_value(
        mantissa(body),
        whole_digits(body).len() + exponent_value(exponent_part(body)) + 9,
    )
}

/// The raw count that the literal `t` stands for, if it is well formed and
/// the count is representable.
pub open spec fn decimal_raw(t: Seq<u8>) -> Option<int> {
    let body = unsigned_part(t);
    let m = magnitude(body);
    let v = if t.len() > 0 && t[0] == MINUS {
        -m
    } else {
        m
    };
    if well_formed(body) && representable(v) {
        Some(v)
    } else {
        None
    }
}

/// A sequence begins with exactly `k` digits when its first `k` bytes are
/// digits and the next one, if there is one, is not.
pub proof fn lemma_leading_digits(s: Seq<u8>, k: int)
    requires
        0 <= k <= s.len(),
        forall|j: int| 0 <= j < k ==> is_digit(#[trigger] s[j]),
        k < s.len() ==> !is_digit(s[k]),
    ensures
        leading_digits(s) == k,
    decreases k,
{
    if k > 0 {
        let tail = s.drop_first();
        assert forall|j: int| 0 <= j < k - 1 implies is_digit(#[trigger] tail[j]) by {
            assert(tail[j] == s[j + 1]);
        }
        if k - 1 < tail.len() {
            assert(tail[k - 1] == s[k]);
        }
        lemma_leading_digits(tail, k - 1);
    }
}

/// Digits write a number that is not negative and is below the power of ten
/// of their count.
pub proof fn lemma_digits_value_bounds(s: Seq<u8>)
    requires
        forall|j: int| 0 <= j < s.len() ==> is_digit(#[trigger] s[j]),
    ensures
        0 <= digits_value(s) < pow10(s.len()),
    decreases s.len(),
{
    if s.len() > 0 {
        let init = s.drop_last();
        assert forall|j: int| 0 <= j < init.len() implies is_digit(#[trigger] init[j]) by {
            assert(init[j] == s[j]);
        }
        lemma_digits_value_bounds(init);
        assert(is_digit(s[s.len() - 1]));
    }
}

/// Reading one more digit multiplies by ten and adds the digit.
pub proof fn lemma_digits_value_step(s: Seq<u8>, k: int)
    requires
        0 <= k < s.len(),
    ensures
        digits_value(s.subrange(0, k + 1)) == 10 * digits_value(s.subrange(0, k)) + (s[k]
            - DIGIT_ZERO),
{
    assert(s.subrange(0, k + 1).drop_last() =~= s.subrange(0, k));
}

/// Reading more digits never gives a smaller number.
pub proof fn lemma_digits_value_monotonic(s: Seq<u8>, i: int, j: int)
    requires
        0 <= i <= j <= s.len(),
        forall|k: int| 0 <= k < j ==> is_digit(#[trigger] s[k]),
    ensures
        0 <= digits_value(s.subrange(0, i)) <= digits_value(s.subrange(0, j)),
    decreases j - i,
{
    let head = s.subrange(0, i);
    assert forall|k: int| 0 <= k < head.len() implies is_digit(#[trigger] head[k]) by {
        assert(head[k] == s[k]);
    }
    lemma_digits_value_bounds(head);
    if i < j {
        lemma_digits_value_monotonic(s, i, j - 1);
        lemma_digits_value_step(s, j - 1);
        assert(is_digit(s[j - 1]));
    }
}

/// Digits written after other digits: the first are moved up by as many
/// places as there are of the second.
pub proof fn lemma_digits_value_concat(a: Seq<u8>, b: Seq<u8>)
    ensures
        digits_value(a + b) == digits_value(a) * pow10(b.len()) + digits_value(b),
    decreases b.len(),
{
    if b.len() == 0 {
        assert(a + b =~= a);
        assert(digits_value(a) * 1 == digits_value(a));
    } else {
        lemma_digits_value_concat(a, b.drop_last());
        assert((a + b).drop_last() =~= a + b.drop_last());
        assert((a + b).last() == b.last());
        let x = digits_value(a);
        let q = pow10(b.drop_last().len());
        assert(10 * (x * q) == x * (10 * q)) by (nonlinear_arith);
    }
}

/// The rounded reading of digits is the nearest whole number of billionths
/// to what they write: exact where no digit lies below the billionths, and
/// otherwise the quotient of the digits by the power of ten of the places
/// below, rounded to nearest with halves away from zero.
pub proof fn lemma_scaled_value_is_nearest(m: Seq<u8>, p: int)
    requires
        forall|j: int| 0 <= j < m.len() ==> is_digit(#[trigger] m[j]),
    ensures
        p >= m.len() ==> scaled_value(m, p) == digits_value(m) * pow10((p - m.len()) as nat),
        p < m.len() ==> scaled_value(m, p) == round_div(
            digits_value(m),
            pow10((m.len() - p) as nat),
        ),
{
    let len = m.len() as int;
    lemma_digits_value_bounds(m);
    if p < 0 {
        let d = pow10((len - p) as nat);
        lemma_pow10_monotonic((len + 1) as nat, (len - p) as nat);
        assert(pow10((len + 1) as nat) == 10 * pow10(len as nat));
        assert((digits_value(m) + d / 2) / d == 0) by (nonlinear_arith)
            requires
                0 <= digits_value(m),
                10 * digits_value(m) < d,
        ;
    } else if p < len {
        let g = (len - p) as nat;
        let head = m.subrange(0, p);
        let rest = m.subrange(p, len);
        let first = seq![m[p]];
        let below = m.subrange(p + 1, len);
        assert(m =~= head + rest);
        assert(rest =~= first + below);
        lemma_digits_value_concat(head, rest);
        lemma_digits_value_concat(first, below);
        assert(first.drop_last() =~= Seq::<u8>::empty());
        assert(digits_value(Seq::<u8>::empty()) == 0);
        assert(digits_value(first) == m[p] - DIGIT_ZERO);
        assert forall|j: int| 0 <= j < below.len() implies is_digit(#[trigger] below[j]) by {
            assert(below[j] == m[p + 1 + j]);
        }
        assert forall|j: int| 0 <= j < head.len() implies is_digit(#[trigger] head[j]) by {
            assert(head[j] == m[j]);
        }
        lemma_digits_value_bounds(below);
        lemma_digits_value_bounds(head);
        assert(is_digit(m[p]));
        let a = digits_value(head);
        let c = m[p] - DIGIT_ZERO;
        let b = digits_value(below);
        let q = pow10(below.len());
        let d = pow10(g);
        assert(d == 10 * q);
        lemma_pow10_monotonic(0, below.len());
        let t: int = if c >= 5 {
            1
        } else {
            0
        };
        assert(digits_value(m) == a * d + (c * q + b));
        assert(d / 2 == 5 * q);
        assert((a * d + (c * q + b) + 5 * q) / d == a + t) by (nonlinear_arith)
            requires
                d == 10 * q,
                q > 0,
                0 <= b < q,
                0 <= c <= 9,
                t == if c >= 5 {
                    1int
                } else {
                    0int
                },
                a >= 0,
        ;
        assert(a * d + (c * q + b) >= 0) by (nonlinear_arith)
            requires
                a >= 0,
                d > 0,
                c >= 0,
                q > 0,
                b >= 0,
        ;
    }
}

/// The powers of ten that bound the representable range.
pub proof fn lemma_pow10_high()
    ensures
        pow10(19) == 10_000_000_000_000_000_000,
        pow10(20) == 100_000_000_000_000_000_000,
{
    reveal_with_fuel(pow10, 21);
}

fn is_digit_byte(b: u8) -> (r: bool)
    ensures
        r == is_digit(b),
{
    DIGIT_ZERO <= b && b <= DIGIT_NINE
}

/// The place just after the digits that begin at `from`.
fn digits_end(token: &[u8], from: usize) -> (to: usize)
    requires
        from <= token@.len(),
    ensures
        from <= to <= token@.len(),
        to - from == leading_digits(token@.subrange(from as int, token@.len() as int)),
        forall|j: int| from <= j < to ==> is_digit(#[trigger] token@[j]),
        to < token@.len() ==> !is_digit(token@[to as int]),
{
    let n: usize = token.len();
    let mut to: usize = from;
    while to < n && is_digit_byte(token[to])
        invariant
            n == token@.len(),
            from <= to <= n,
            forall|j: int| from <= j < to ==> is_digit(#[trigger] token@[j]),
        decreases n - to,
    {
        to = to + 1;
    }
    proof {
        let s = token@.subrange(from as int, n as int);
        assert forall|j: int| 0 <= j < to - from implies is_digit(#[trigger] s[j]) by {
            assert(s[j] == token@[from + j]);
        }
        if to < n {
            assert(s[to - from] == token@[to as int]);
        }
        lemma_leading_digits(s, to - from);
    }
    to
}

/// The digits of two stretches of `token`, one after the other.
spec fn two_stretches(token: Seq<u8>, ws: int, we: int, fs: int, fe: int) -> Seq<u8> {
    token.subrange(ws, we) + token.subrange(fs, fe)
}

fn stretch_byte(token: &[u8], ws: usize, we: usize, fs: usize, fe: usize, i: usize) -> (b: u8)
    requires
        ws <= we <= fs <= fe <= token@.len(),
        i < (we - ws) + (fe - fs),
    ensures
        b == two_stretches(token@, ws as int, we as int, fs as int, fe as int)[i as int],
{
    if i < we - ws {
        token[ws + i]
    } else {
        token[fs + (i - (we - ws))]
    }
}

/// The number that the first `count` digits of two stretches write, unless
/// it reaches `limit`.
fn stretch_value(
    token: &[u8],
    ws: usize,
    we: usize,
    fs: usize,
    fe: usize,
    count: usize,
    limit: u128,
) -> (r: Option<u128>)
    requires
        ws <= we <= fs <= fe <= token@.len(),
        forall|j: int| ws <= j < we ==> is_digit(#[trigger] token@[j]),
        forall|j: int| fs <= j < fe ==> is_digit(#[trigger] token@[j]),
        count <= (we - ws) + (fe - fs),
        limit <= 1_000_000_000_000_000_000_000_000_000_000_000_000,
    ensures
        match r {
            Some(v) => v < limit && v == digits_value(
                two_stretches(token@, ws as int, we as int, fs as int, fe as int).subrange(
                    0,
                    count as int,
                ),
            ),
            None => digits_value(
                two_stretches(token@, ws as int, we as int, fs as int, fe as int).subrange(
                    0,
                    count as int,
                ),
            ) >= limit,
        },
{
    let ghost m = two_stretches(token@, ws as int, we as int, fs as int, fe as int);
    assert forall|j: int| 0 <= j < m.len() implies is_digit(#[trigger] m[j]) by {
        if j < we - ws {
            assert(m[j] == token@[ws + j]);
        } else {
            assert(m[j] == token@[fs + (j - (we - ws))]);
        }
    }
    if limit == 0 {
        proof {
            lemma_digits_value_monotonic(m, 0, count as int);
        }
        return None;
    }
    let mut acc: u128 = 0;
    let mut i: usize = 0;
    assert(m.subrange(0, 0) =~= Seq::<u8>::empty());
    while i < count
        invariant
            ws <= we <= fs <= fe <= token@.len(),
            m == two_stretches(token@, ws as int, we as int, fs as int, fe as int),
            forall|j: int| 0 <= j < m.len() ==> is_digit(#[trigger] m[j]),
            count <= (we - ws) + (fe - fs),
            m.len() == (we - ws) + (fe - fs),
            i <= count,
            limit <= 1_000_000_000_000_000_000_000_000_000_000_000_000,
            acc < limit,
            acc == digits_value(m.subrange(0, i as int)),
        decreases count - i,
    {
        let b: u8 = stretch_byte(token, ws, we, fs, fe, i);
        proof {
            lemma_digits_value_step(m, i as int);
            assert(is_digit(m[i as int]));
        }
        let next: u128 = acc * 10 + (b - DIGIT_ZERO) as u128;
        if next >= limit {
            proof {
                lemma_digits_value_monotonic(m, i + 1, count as int);
            }
            return None;
        }
        acc = next;
        i = i + 1;
    }
    Some(acc)
}

/// What is known of an exponent `e` after reading it: its magnitude, or
/// that it is too large to matter but for its sign.
spec fn exponent_known(exponent: Option<u128>, negative: bool, e: int) -> bool {
    match exponent {
        Some(ea) => ea < 1_000_000_000_000_000_000_000_000_000_000 && e == if negative {
            -ea
        } else {
            ea as int
        },
        None => if negative {
            e <= -1_000_000_000_000_000_000_000_000_000_000
        } else {
            e >= 1_000_000_000_000_000_000_000_000_000_000
        },
    }
}

/// Finds where the digits before the point end, and where the digits after
/// it begin and end.
fn read_layout(token: &[u8], ws: usize) -> (r: (usize, usize, usize))
    requires
        ws <= token@.len(),
    ensures
        ({
            let body = token@.subrange(ws as int, token@.len() as int);
            let (we, fs, fe) = r;
            &&& ws <= we <= fs <= fe <= token@.len()
            &&& forall|j: int| ws <= j < we ==> is_digit(#[trigger] token@[j])
            &&& forall|j: int| fs <= j < fe ==> is_digit(#[trigger] token@[j])
            &&& whole_digits(body) == token@.subrange(ws as int, we as int)
            &&& fraction_digits(body) == token@.subrange(fs as int, fe as int)
            &&& exponent_part(body) == token@.subrange(fe as int, token@.len() as int)
        }),
{
    let n: usize = token.len();
    let ghost body = token@.subrange(ws as int, n as int);
    let we: usize = digits_end(token, ws);
    assert(whole_digits(body) =~= token@.subrange(ws as int, we as int));
    assert(after_whole(body) =~= token@.subrange(we as int, n as int));
    let pointed: bool = we < n && token[we] == POINT;
    let fs: usize = if pointed {
        we + 1
    } else {
        we
    };
    assert(has_point(body) == pointed);
    assert(after_point(body) =~= token@.subrange(fs as int, n as int));
    let fe: usize = if pointed {
        digits_end(token, fs)
    } else {
        fs
    };
    assert(fraction_digits(body) =~= token@.subrange(fs as int, fe as int));
    assert(exponent_part(body) =~= token@.subrange(fe as int, n as int));
    (we, fs, fe)
}

/// Reads what follows the digits and the point: nothing, or an exponent.
fn read_exponent(token: &[u8], fe: usize) -> (r: Option<(Option<u128>, bool)>)
    requires
        fe <= token@.len(),
    ensures
        ({
            let tail = token@.subrange(fe as int, token@.len() as int);
            match r {
                Some((exponent, negative)) => exponent_well_formed(tail) && exponent_known(
                    exponent,
                    negative,
                    exponent_value(tail),
                ),
                None => !exponent_well_formed(tail),
            }
        }),
{
    let n: usize = token.len();
    let ghost tail = token@.subrange(fe as int, n as int);
    if fe == n {
        return Some((Some(0), false));
    }
    assert(tail[0] == token@[fe as int]);
    if token[fe] != LOWER_E && token[fe] != UPPER_E {
        return None;
    }
    let mark: usize = fe + 1;
    let negative: bool = mark < n && token[mark] == MINUS;
    let xs: usize = if mark < n && (token[mark] == PLUS || token[mark] == MINUS) {
        mark + 1
    } else {
        mark
    };
    assert(tail.drop_first() =~= token@.subrange(mark as int, n as int));
    assert(exponent_digits(tail) =~= token@.subrange(xs as int, n as int));
    if mark < n {
        assert(tail[1] == token@[mark as int]);
    }
    let xe: usize = digits_end(token, xs);
    if xe < n || xe == xs {
        return None;
    }
    let exponent: Option<u128> = stretch_value(
        token,
        xs,
        xe,
        xe,
        xe,
        xe - xs,
        1_000_000_000_000_000_000_000_000_000_000,
    );
    proof {
        let x = token@.subrange(xs as int, xe as int);
        assert(two_stretches(token@, xs as int, xe as int, xe as int, xe as int) =~= x);
        assert(x.subrange(0, x.len() as int) =~= x);
    }
    Some((exponent, negative))
}

/// Reads a decimal literal as the nearest number of nine decimals. Returns
/// `None` when the text is not a literal or stands for a number outside the
/// representable range. Names of infinities and of things that are not
/// numbers are no literals.
pub fn parse_decimal(token: &[u8]) -> (r: Option<Fixed>)
    ensures
        r.deep_view() == decimal_raw(token@),
{
    let n: usize = token.len();
    let negative: bool = n > 0 && token[0] == MINUS;
    let ws: usize = if n > 0 && (token[0] == PLUS || token[0] == MINUS) {
        1
    } else {
        0
    };
    let ghost body = unsigned_part(token@);
    assert(body =~= token@.subrange(ws as int, n as int));
    let (we, fs, fe) = read_layout(token, ws);
    if (we - ws) + (fe - fs) == 0 {
        return None;
    }
    let (exponent, exponent_negative) = match read_exponent(token, fe) {
        None => {
            return None;
        },
        Some(read) => read,
    };
    let mag: u128 = match scaled_magnitude(
        token,
        ws,
        we,
        fs,
        fe,
        exponent,
        exponent_negative,
        Ghost(exponent_value(exponent_part(body))),
    ) {
        None => {
            return None;
        },
        Some(mag) => mag,
    };
    let value: i128 = if negative {
        -(mag as i128)
    } else {
        mag as i128
    };
    if value < i64::MIN as i128 || value > i64::MAX as i128 {
        None
    } else {
        Some(Fixed { raw: value as i64 })
    }
}

/// `v` moved up by `shift` places, unless that reaches ten to the
/// nineteenth.
fn scale_up(v: u128, shift: i128) -> (r: Option<u128>)
    requires
        0 <= shift,
        v < 10_000_000_000_000_000_000,
    ensures
        match r {
            Some(scaled) => scaled == v * pow10(shift as nat) && scaled
                < 10_000_000_000_000_000_000,
            None => v * pow10(shift as nat) >= 10_000_000_000_000_000_000,
        },
{
    proof {
        lemma_pow10_high();
    }
    if v == 0 {
        assert(0 * pow10(shift as nat) == 0) by (nonlinear_arith);
        return Some(0);
    }
    if shift >= 20 {
        proof {
            lemma_scaled_up_bounds(v as int, shift as nat, 20);
        }
        return None;
    }
    let bound: u128 = 10_000_000_000_000_000_000;
    let mut cur: u128 = v;
    let mut j: i128 = 0;
    assert(v * pow10(0) == v) by (nonlinear_arith)
        requires
            pow10(0) == 1,
    ;
    while j < shift
        invariant
            0 <= j <= shift < 20,
            bound == 10_000_000_000_000_000_000,
            0 < v < bound,
            cur == v * pow10(j as nat),
            cur < bound,
        decreases shift - j,
    {
        proof {
            assert(v * (10 * pow10(j as nat)) == 10 * (v * pow10(j as nat))) by (nonlinear_arith);
        }
        cur = cur * 10;
        j = j + 1;
        if cur >= bound {
            proof {
                lemma_pow10_monotonic(j as nat, shift as nat);
                assert(v * pow10(j as nat) <= v * pow10(shift as nat)) by (nonlinear_arith)
                    requires
                        0 < v,
                        pow10(j as nat) <= pow10(shift as nat),
                ;
            }
            return None;
        }
    }
    Some(cur)
}

/// The billionths that the digits of two stretches stand for under an
/// exponent `e`, unless they reach ten to the nineteenth. The exponent is
/// given by its magnitude, or as too large to matter but for its sign.
fn scaled_magnitude(
    token: &[u8],
    ws: usize,
    we: usize,
    fs: usize,
    fe: usize,
    exponent: Option<u128>,
    exponent_negative: bool,
    Ghost(e): Ghost<int>,
) -> (r: Option<u128>)
    requires
        ws <= we <= fs <= fe <= token@.len(),
        forall|j: int| ws <= j < we ==> is_digit(#[trigger] token@[j]),
        forall|j: int| fs <= j < fe ==> is_digit(#[trigger] token@[j]),
        exponent_known(exponent, exponent_negative, e),
    ensures
        match r {
            Some(mag) => mag <= 10_000_000_000_000_000_000 && mag == scaled_value(
                two_stretches(token@, ws as int, we as int, fs as int, fe as int),
                (we - ws) + e + 9,
            ),
            None => scaled_value(
                two_stretches(token@, ws as int, we as int, fs as int, fe as int),
                (we - ws) + e + 9,
            ) >= 10_000_000_000_000_000_000,
        },
{
    let ghost m = two_stretches(token@, ws as int, we as int, fs as int, fe as int);
    let ghost p = (we - ws) + e + 9;
    let w: usize = we - ws;
    let len: usize = w + (fe - fs);
    let bound: u128 = 10_000_000_000_000_000_000;
    assert(m.subrange(0, m.len() as int) =~= m);
    match exponent {
        None => {
            if exponent_negative {
                Some(0)
            } else {
                match stretch_value(token, ws, we, fs, fe, len, bound) {
                    None => {
                        proof {
                            lemma_scaled_up_bounds(digits_value(m), (p - len) as nat, 0);
                        }
                        None
                    },
                    Some(v) => {
                        if v != 0 {
                            proof {
                                lemma_pow10_high();
                                lemma_scaled_up_bounds(digits_value(m), (p - len) as nat, 20);
                            }
                            None
                        } else {
                            assert(0 * pow10((p - len) as nat) == 0) by (nonlinear_arith);
                            Some(0)
                        }
                    },
                }
            }
        },
        Some(ea) => {
            let ev: i128 = if exponent_negative {
                -(ea as i128)
            } else {
                ea as i128
            };
            let pv: i128 = w as i128 + ev + 9;
            if pv < 0 {
                Some(0)
            } else if pv < len as i128 {
                let count: usize = pv as usize;
                match stretch_value(token, ws, we, fs, fe, count, bound) {
                    None => None,
                    Some(head) => {
                        let b: u8 = stretch_byte(token, ws, we, fs, fe, count);
                        if b >= DIGIT_ZERO + 5 {
                            Some(head + 1)
                        } else {
                            Some(head)
                        }
                    },
                }
            } else {
                match stretch_value(token, ws, we, fs, fe, len, bound) {
                    None => {
                        proof {
                            lemma_scaled_up_bounds(digits_value(m), (p - len) as nat, 0);
                        }
                        None
                    },
                    Some(v) => scale_up(v, pv - len as i128),
                }
            }
        },
    }
}

/// A number of at least one, moved up by at least `least` places, is at
/// least the power of ten of `least`; moved up by any number of places, it
/// is at least itself.
proof fn lemma_scaled_up_bounds(v: int, shift: nat, least: nat)
    requires
        0 <= v,
        least <= shift,
    ensures
        v * pow10(shift) >= v,
        v >= 1 ==> v * pow10(shift) >= pow10(least),
{
    lemma_pow10_monotonic(0, shift);
    lemma_pow10_monotonic(least, shift);
    assert(v * pow10(shift) >= v) by (nonlinear_arith)
        requires
            v >= 0,
            pow10(shift) >= 1,
    ;
    if v >= 1 {
        assert(v * pow10(shift) >= pow10(least)) by (nonlinear_arith)
            requires
                v >= 1,
                pow10(shift) >= pow10(least),
                pow10(least) > 0,
        ;
    }
}

/// The first ten powers of ten.
pub proof fn lemma_pow10_values()
    ensures
        pow10(0) == 1,
        pow10(1) == 10,
        pow10(2) == 100,
        pow10(3) == 1_000,
        pow10(4) == 10_000,
        pow10(5) == 100_000,
        pow10(6) == 1_000_000,
        pow10(7) == 10_000_000,
        pow10(8) == 100_000_000,
        pow10(9) == 1_000_000_000,
{
    reveal_with_fuel(pow10, 10);
}

/// Powers of ten grow with the exponent.
pub proof fn lemma_pow10_monotonic(a: nat, b: nat)
    requires
        a <= b,
    ensures
        0 < pow10(a) <= pow10(b),
    decreases b,
{
    if b == 0 {
    } else if a == b {
        lemma_pow10_monotonic((a - 1) as nat, (b - 1) as nat);
    } else {
        lemma_pow10_monotonic(a, (b - 1) as nat);
    }
}

/// The digits that write `n` in base ten, without leading zeros.
pub open spec fn digits_of(n: nat) -> Seq<u8>
    decreases n,
{
    if n < 10 {
        seq![(DIGIT_ZERO + n) as u8]
    } else {
        digits_of(n / 10).push((DIGIT_ZERO + n % 10) as u8)
    }
}

/// The last `width` digits that write `n` in base ten, with leading zeros.
pub open spec fn padded_digits(n: nat, width: nat) -> Seq<u8>
    decreases width,
{
    if width == 0 {
        Seq::<u8>::empty()
    } else {
        padded_digits(n / 10, (width - 1) as nat).push((DIGIT_ZERO + n % 10) as u8)
    }
}

/// The literal that writes the raw count `v`: a minus sign if it is
/// negative, the whole part, a point, and all nine decimals.
pub open spec fn decimal_text(v: int) -> Seq<u8> {
    let m = if v < 0 {
        -v
    } else {
        v
    };
    let sign = if v < 0 {
        seq![MINUS]
    } else {
        Seq::<u8>::empty()
    };
    sign + digits_of((m / (SCALE as int)) as nat) + seq![POINT] + padded_digits(
        (m % (SCALE as int)) as nat,
        9,
    )
}

/// The digits of a number are digits, and write that number.
pub proof fn lemma_digits_of(n: nat)
    ensures
        digits_of(n).len() >= 1,
        forall|j: int| 0 <= j < digits_of(n).len() ==> is_digit(#[trigger] digits_of(n)[j]),
        digits_value(digits_of(n)) == n,
    decreases n,
{
    if n < 10 {
        assert(digits_of(n).drop_last() =~= Seq::<u8>::empty());
        assert(digits_value(Seq::<u8>::empty()) == 0);
        assert(digits_of(n).last() == DIGIT_ZERO + n);
    } else {
        lemma_digits_of(n / 10);
        assert(digits_of(n).drop_last() =~= digits_of(n / 10));
        assert(digits_of(n).last() == DIGIT_ZERO + n % 10);
    }
}

/// The padded digits of a number that fits the width are digits, as many as
/// the width, and write that number.
pub proof fn lemma_padded_digits(n: nat, width: nat)
    requires
        n < pow10(width),
    ensures
        padded_digits(n, width).len() == width,
        forall|j: int|
            0 <= j < width ==> is_digit(#[trigger] padded_digits(n, width)[j]),
        digits_value(padded_digits(n, width)) == n,
    decreases width,
{
    if width > 0 {
        lemma_padded_digits(n / 10, (width - 1) as nat);
        assert(padded_digits(n, width).drop_last() =~= padded_digits(n / 10, (width - 1) as nat));
    }
}

/// Reading the literal that writes a number gives the number back.
pub proof fn lemma_text_round_trip(v: int)
    requires
        representable(v),
    ensures
        decimal_raw(decimal_text(v)) == Some(v),
{
    let s = SCALE as int;
    let m = if v < 0 {
        -v
    } else {
        v
    };
    let w = (m / s) as nat;
    let f = (m % s) as nat;
    let whole = digits_of(w);
    let frac = padded_digits(f, 9);
    let text = decimal_text(v);
    let body = whole + seq![POINT] + frac;
    lemma_digits_of(w);
    lemma_pow10_values();
    lemma_padded_digits(f, 9);
    assert(is_digit(whole[0]));
    if v < 0 {
        assert(text =~= seq![MINUS] + body);
        assert(text[0] == MINUS);
        assert(text.drop_first() =~= body);
    } else {
        assert(text =~= body);
        assert(text[0] == whole[0]);
    }
    assert(unsigned_part(text) == body);
    let p = whole.len() as int;
    assert forall|j: int| 0 <= j < p implies is_digit(#[trigger] body[j]) by {
        assert(body[j] == whole[j]);
    }
    assert(body[p] == POINT);
    lemma_leading_digits(body, p);
    assert(whole_digits(body) =~= whole);
    assert(after_whole(body) =~= seq![POINT] + frac);
    assert(has_point(body));
    assert(after_point(body) =~= frac);
    lemma_leading_digits(frac, 9);
    assert(fraction_digits(body) =~= frac);
    assert(exponent_part(body) =~= Seq::<u8>::empty());
    assert(mantissa(body) == whole + frac);
    lemma_digits_value_concat(whole, frac);
    assert(digits_value(whole + frac) * pow10(0) == digits_value(whole + frac)) by (nonlinear_arith)
        requires
            pow10(0) == 1,
    ;
    assert(magnitude(body) == w * s + f);
    assert(w * s + f == m) by (nonlinear_arith)
        requires
            w == m / s,
            f == m % s,
            s > 0,
    ;
}

fn push_digits(out: &mut Vec<u8>, n: u64)
    ensures
        final(out)@ == old(out)@ + digits_of(n as nat),
    decreases n,
{
    if n >= 10 {
        push_digits(out, n / 10);
    }
    out.push(DIGIT_ZERO + (n % 10) as u8);
    assert(final(out)@ =~= old(out)@ + digits_of(n as nat));
}

fn push_padded(out: &mut Vec<u8>, n: u64, width: usize)
    ensures
        final(out)@ == old(out)@ + padded_digits(n as nat, width as nat),
    decreases width,
{
    if width > 0 {
        push_padded(out, n / 10, width - 1);
        out.push(DIGIT_ZERO + (n % 10) as u8);
    }
    assert(final(out)@ =~= old(out)@ + padded_digits(n as nat, width as nat));
}

/// Writes a number as a decimal literal with all nine decimals.
pub fn format_decimal(v: Fixed) -> (text: Vec<u8>)
    ensures
        text@ == decimal_text(v@),
        decimal_raw(text@) == Some(v@),
{
    let negative: bool = v.raw < 0;
    let m: u64 = if negative {
        (-(v.raw + 1)) as u64 + 1
    } else {
        v.raw as u64
    };
    let mut text: Vec<u8> = Vec::new();
    if negative {
        text.push(MINUS);
    }
    push_digits(&mut text, m / (SCALE as u64));
    text.push(POINT);
    push_padded(&mut text, m % (SCALE as u64), 9);
    proof {
        assert(text@ =~= decimal_text(v@));
        lemma_text_round_trip(v@);
    }
    text
}

} // verus!

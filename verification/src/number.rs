//! Decimal numbers in text, read as fixed-point coordinates.
//!
//! A number is an optional sign, digits with an optional point among them,
//! and an optional exponent: `e` or `E`, an optional sign, and digits. At
//! least one digit stands before the exponent. The number is read in ticks
//! and rounded to the nearest tick, half a tick away from zero.

use crate::point::TICKS_PER_UNIT;
use vstd::prelude::*;

verus! {

/// The decimal places that a tick resolves: a unit holds ten to this power
/// ticks.
pub const TICK_PLACES: usize = 6;

/// The largest magnitude a coordinate can have: that of the least one.
pub const MAGNITUDE_LIMIT: u128 = 9_223_372_036_854_775_808;

/// Beyond this an exponent is read no further: it is larger than any text
/// is long.
pub const EXPONENT_LIMIT: u128 = 1_000_000_000_000_000_000_000_000_000_000;

/// The byte is one of `0` to `9`.
pub open spec fn is_digit(b: u8) -> bool {
    48 <= b <= 57
}

/// Every byte is a digit.
pub open spec fn all_digits(s: Seq<u8>) -> bool {
    forall|k: int| 0 <= k < s.len() ==> is_digit(#[trigger] s[k])
}

/// The number that a run of digits writes, most significant digit first.
pub open spec fn decimal(s: Seq<u8>) -> nat
    decreases s.len(),
{
    if s.len() == 0 {
        0
    } else {
        (decimal(s.drop_last()) * 10 + (s.last() - 48)) as nat
    }
}

/// Ten to the power `e`.
pub open spec fn pow10(e: nat) -> nat
    decreases e,
{
    if e == 0 {
        1
    } else {
        10 * pow10((e - 1) as nat)
    }
}

/// The position of the first occurrence of `b`, or the length where there
/// is none.
pub open spec fn first_of(s: Seq<u8>, b: u8) -> int
    decreases s.len(),
{
    if s.len() == 0 {
        0
    } else if s[0] == b {
        0
    } else {
        1 + first_of(s.skip(1), b)
    }
}

/// How many digits stand at the start of a text.
pub open spec fn digit_run(s: Seq<u8>) -> int
    decreases s.len(),
{
    if s.len() == 0 || !is_digit(s[0]) {
        0
    } else {
        1 + digit_run(s.skip(1))
    }
}

/// The text begins with a minus sign.
pub open spec fn is_negative(s: Seq<u8>) -> bool {
    s.len() > 0 && s[0] == 45
}

/// What stands behind the sign of a text, if it begins with one.
pub open spec fn unsigned_part(s: Seq<u8>) -> Seq<u8> {
    if s.len() > 0 && (s[0] == 45 || s[0] == 43) {
        s.skip(1)
    } else {
        s
    }
}

/// The digits of a field before its point.
pub open spec fn whole_part(field: Seq<u8>) -> Seq<u8> {
    let body = unsigned_part(field);
    body.take(digit_run(body))
}

/// What stands behind the digits before the point.
pub open spec fn after_whole(field: Seq<u8>) -> Seq<u8> {
    let body = unsigned_part(field);
    body.skip(digit_run(body))
}

/// A point follows the first digits of the field.
pub open spec fn has_point(field: Seq<u8>) -> bool {
    after_whole(field).len() > 0 && after_whole(field)[0] == 46
}

/// The digits of a field behind its point; none where it has no point.
pub open spec fn fraction_part(field: Seq<u8>) -> Seq<u8> {
    if has_point(field) {
        let behind = after_whole(field).skip(1);
        behind.take(digit_run(behind))
    } else {
        Seq::empty()
    }
}

/// What stands behind the digits of the field and its point.
pub open spec fn after_fraction(field: Seq<u8>) -> Seq<u8> {
    if has_point(field) {
        let behind = after_whole(field).skip(1);
        behind.skip(digit_run(behind))
    } else {
        after_whole(field)
    }
}

/// An `e` or `E` follows the digits of the field.
pub open spec fn has_exponent(field: Seq<u8>) -> bool {
    let tail = after_fraction(field);
    tail.len() > 0 && (tail[0] == 101 || tail[0] == 69)
}

/// What stands behind the `e` of the field: the exponent with its sign.
pub open spec fn exponent_part(field: Seq<u8>) -> Seq<u8> {
    after_fraction(field).skip(1)
}

/// The digits of the exponent.
pub open spec fn exponent_digits(field: Seq<u8>) -> Seq<u8> {
    let body = unsigned_part(exponent_part(field));
    body.take(digit_run(body))
}

/// What is left over behind the number that begins the field.
pub open spec fn after_number(field: Seq<u8>) -> Seq<u8> {
    if has_exponent(field) {
        let body = unsigned_part(exponent_part(field));
        body.skip(digit_run(body))
    } else {
        after_fraction(field)
    }
}

/// The field is written as a number: it has a digit before or behind its
/// point, its exponent, if it has one, has a digit, and nothing is left
/// over.
pub open spec fn is_number(field: Seq<u8>) -> bool {
    &&& whole_part(field).len() + fraction_part(field).len() >= 1
    &&& has_exponent(field) ==> exponent_digits(field).len() >= 1
    &&& after_number(field).len() == 0
}

/// The power of ten that the exponent of the field stands for; zero where
/// it has none.
pub open spec fn exponent_of(field: Seq<u8>) -> int {
    if !has_exponent(field) {
        0
    } else if is_negative(exponent_part(field)) {
        -(decimal(exponent_digits(field)) as int)
    } else {
        decimal(exponent_digits(field)) as int
    }
}

/// All the digits of the field before its exponent, the point left out.
pub open spec fn all_digits_of(field: Seq<u8>) -> Seq<u8> {
    whole_part(field) + fraction_part(field)
}

/// How many of the digits of the field stand for whole ticks: those before
/// the point, and as many more as a tick has places, shifted by the
/// exponent.
pub open spec fn places_kept(field: Seq<u8>) -> int {
    whole_part(field).len() + TICK_PLACES + exponent_of(field)
}

/// The number that the first `keep` of the digits write, followed by zeros
/// where the digits run out, and zero where none is kept.
pub open spec fn whole_ticks(all: Seq<u8>, keep: int) -> nat {
    if keep <= 0 {
        0
    } else if keep <= all.len() {
        decimal(all.take(keep))
    } else {
        decimal(all) * pow10((keep - all.len()) as nat)
    }
}

/// Whether the digits behind the first `keep` make up half a tick or more:
/// the first of them is a `5` or above.
pub open spec fn rounds_up(all: Seq<u8>, keep: int) -> bool {
    0 <= keep < all.len() && all[keep] >= 53
}

/// The digits read in ticks, where the first `keep` of them stand for whole
/// ticks: rounded to the nearest tick, half a tick upwards.
pub open spec fn magnitude(all: Seq<u8>, keep: int) -> nat {
    if rounds_up(all, keep) {
        whole_ticks(all, keep) + 1
    } else {
        whole_ticks(all, keep)
    }
}

/// The value of the field in ticks, its sign left aside.
pub open spec fn magnitude_of(field: Seq<u8>) -> nat {
    magnitude(all_digits_of(field), places_kept(field))
}

/// The value in ticks of a field that is written as a number.
pub open spec fn ticks_of(field: Seq<u8>) -> int {
    if is_negative(field) {
        -(magnitude_of(field) as int)
    } else {
        magnitude_of(field) as int
    }
}

/// What a field reads as: its value in ticks where it is written as a
/// number and the value fits a coordinate, and nothing otherwise.
pub open spec fn number_of(field: Seq<u8>) -> Option<i64> {
    if is_number(field) && i64::MIN <= ticks_of(field) <= i64::MAX {
        Some(ticks_of(field) as i64)
    } else {
        None
    }
}

/// A unit holds ten to the power [`TICK_PLACES`] ticks.
pub proof fn lemma_ticks_per_unit()
    ensures
        TICKS_PER_UNIT == pow10(TICK_PLACES as nat),
{
    reveal_with_fuel(pow10, 7);
}

/// The first occurrence lies within the text, and nothing before it is an
/// occurrence.
pub proof fn lemma_first_of(s: Seq<u8>, b: u8)
    ensures
        0 <= first_of(s, b) <= s.len(),
        first_of(s, b) < s.len() ==> s[first_of(s, b)] == b,
        forall|k: int| 0 <= k < first_of(s, b) ==> #[trigger] s[k] != b,
    decreases s.len(),
{
    if s.len() > 0 && s[0] != b {
        lemma_first_of(s.skip(1), b);
        assert forall|k: int| 0 <= k < first_of(s, b) implies #[trigger] s[k] != b by {
            if k > 0 {
                assert(s.skip(1)[k - 1] == s[k]);
            }
        }
    }
}

/// A position that holds `b`, with no `b` before it, is the first
/// occurrence; so is the length where no position holds `b`.
pub proof fn lemma_first_of_is(s: Seq<u8>, b: u8, at: int)
    requires
        0 <= at <= s.len(),
        at < s.len() ==> s[at] == b,
        forall|k: int| 0 <= k < at ==> #[trigger] s[k] != b,
    ensures
        first_of(s, b) == at,
{
    lemma_first_of(s, b);
    let f = first_of(s, b);
    if f < at {
        assert(s[f] != b);
    } else if at < f {
        assert(s[at] != b);
    }
}

/// The digits at the start of a text end within it, at its first byte
/// that is no digit.
pub proof fn lemma_digit_run(s: Seq<u8>)
    ensures
        0 <= digit_run(s) <= s.len(),
        digit_run(s) < s.len() ==> !is_digit(s[digit_run(s)]),
        forall|k: int| 0 <= k < digit_run(s) ==> is_digit(#[trigger] s[k]),
    decreases s.len(),
{
    if s.len() > 0 && is_digit(s[0]) {
        lemma_digit_run(s.skip(1));
        assert forall|k: int| 0 <= k < digit_run(s) implies is_digit(#[trigger] s[k]) by {
            if k > 0 {
                assert(s.skip(1)[k - 1] == s[k]);
            }
        }
    }
}

/// A position before which every byte is a digit, and which holds a byte
/// that is none or ends the text, is where the digits end.
pub proof fn lemma_digit_run_is(s: Seq<u8>, at: int)
    requires
        0 <= at <= s.len(),
        at < s.len() ==> !is_digit(s[at]),
        forall|k: int| 0 <= k < at ==> is_digit(#[trigger] s[k]),
    ensures
        digit_run(s) == at,
{
    lemma_digit_run(s);
    let r = digit_run(s);
    if r < at {
        assert(is_digit(s[r]));
    } else if at < r {
        assert(is_digit(s[at]));
    }
}

/// A longer run of digits writes a number at least as large.
pub proof fn lemma_decimal_grows(s: Seq<u8>, k: int)
    requires
        all_digits(s),
        0 <= k <= s.len(),
    ensures
        decimal(s.take(k)) <= decimal(s),
    decreases s.len() - k,
{
    if k == s.len() {
        assert(s.take(k) =~= s);
    } else {
        lemma_decimal_grows(s, k + 1);
        assert(s.take(k + 1).drop_last() =~= s.take(k));
        assert(is_digit(s[k]));
        assert(s.take(k + 1).last() == s[k]);
    }
}

/// Powers of ten are positive and grow with the exponent.
pub proof fn lemma_pow10_grows(a: nat, b: nat)
    requires
        a <= b,
    ensures
        1 <= pow10(a) <= pow10(b),
    decreases b,
{
    if b > 0 {
        if a < b {
            lemma_pow10_grows(a, (b - 1) as nat);
        } else {
            lemma_pow10_grows((a - 1) as nat, (b - 1) as nat);
        }
    }
}

/// Finds where the digits that begin at `from` end; gives `to` where they
/// reach it.
pub fn scan_digits(source: &[u8], from: usize, to: usize) -> (at: usize)
    requires
        from <= to <= source@.len(),
    ensures
        from <= at <= to,
        at - from == digit_run(source@.subrange(from as int, to as int)),
        all_digits(source@.subrange(from as int, at as int)),
{
    let ghost part = source@.subrange(from as int, to as int);
    let mut at: usize = from;
    while at < to && source[at] >= 48 && source[at] <= 57
        invariant
            from <= at <= to <= source@.len(),
            part == source@.subrange(from as int, to as int),
            forall|k: int| 0 <= k < at - from ==> is_digit(#[trigger] part[k]),
        decreases to - at,
    {
        at += 1;
    }
    proof {
        lemma_digit_run_is(part, at - from);
        let digits = source@.subrange(from as int, at as int);
        assert forall|k: int| 0 <= k < digits.len() implies is_digit(#[trigger] digits[k]) by {
            assert(part[k] == digits[k]);
        }
    }
    at
}

/// Reads the digits `from..to` as an exponent; one beyond the limit reads
/// as the limit.
fn read_exponent(source: &[u8], from: usize, to: usize) -> (value: u128)
    requires
        from <= to <= source@.len(),
        all_digits(source@.subrange(from as int, to as int)),
    ensures
        value <= EXPONENT_LIMIT,
        decimal(source@.subrange(from as int, to as int)) <= EXPONENT_LIMIT ==> value == decimal(
            source@.subrange(from as int, to as int),
        ),
        decimal(source@.subrange(from as int, to as int)) > EXPONENT_LIMIT ==> value
            == EXPONENT_LIMIT,
{
    let ghost digits = source@.subrange(from as int, to as int);
    let mut at: usize = from;
    let mut acc: u128 = 0;
    proof {
        assert(digits.take(0) =~= Seq::<u8>::empty());
    }
    while at < to
        invariant
            from <= at <= to <= source@.len(),
            digits == source@.subrange(from as int, to as int),
            all_digits(digits),
            acc <= EXPONENT_LIMIT,
            decimal(digits.take(at - from)) <= EXPONENT_LIMIT ==> acc == decimal(
                digits.take(at - from),
            ),
            decimal(digits.take(at - from)) > EXPONENT_LIMIT ==> acc == EXPONENT_LIMIT,
        decreases to - at,
    {
        proof {
            assert(digits.take(at - from + 1).drop_last() =~= digits.take(at - from));
            assert(digits.take(at - from + 1).last() == source@[at as int]);
            assert(is_digit(digits[at - from]));
        }
        let next: u128 = acc * 10 + (source[at] - 48) as u128;
        acc = if next > EXPONENT_LIMIT {
            EXPONENT_LIMIT
        } else {
            next
        };
        at += 1;
    }
    proof {
        assert(digits.take(to - from) =~= digits);
    }
    acc
}

/// The digits `a_from..a_to` followed by the digits `b_from..b_to`.
pub open spec fn joined(
    text: Seq<u8>,
    a_from: int,
    a_to: int,
    b_from: int,
    b_to: int,
) -> Seq<u8> {
    text.subrange(a_from, a_to) + text.subrange(b_from, b_to)
}

/// The digit at position `n` of the digits `a_from..a_to` followed by the
/// digits `b_from..b_to`.
fn joined_digit(
    source: &[u8],
    a_from: usize,
    a_to: usize,
    b_from: usize,
    b_to: usize,
    n: usize,
) -> (digit: u8)
    requires
        a_from <= a_to <= b_from <= b_to <= source@.len(),
        n < (a_to - a_from) + (b_to - b_from),
    ensures
        digit == joined(source@, a_from as int, a_to as int, b_from as int, b_to as int)[n as int],
{
    if n < a_to - a_from {
        source[a_from + n]
    } else {
        source[b_from + (n - (a_to - a_from))]
    }
}

/// Reads the first `count` of the digits `a_from..a_to` followed by the
/// digits `b_from..b_to` as one number; gives nothing where the number
/// exceeds the limit of a magnitude.
fn read_joined(
    source: &[u8],
    a_from: usize,
    a_to: usize,
    b_from: usize,
    b_to: usize,
    count: usize,
) -> (value: Option<u128>)
    requires
        a_from <= a_to <= b_from <= b_to <= source@.len(),
        all_digits(source@.subrange(a_from as int, a_to as int)),
        all_digits(source@.subrange(b_from as int, b_to as int)),
        count <= (a_to - a_from) + (b_to - b_from),
    ensures
        value matches Some(v) ==> v <= MAGNITUDE_LIMIT && v == decimal(
            joined(source@, a_from as int, a_to as int, b_from as int, b_to as int).take(
                count as int,
            ),
        ),
        value is None ==> decimal(
            joined(source@, a_from as int, a_to as int, b_from as int, b_to as int).take(
                count as int,
            ),
        ) > MAGNITUDE_LIMIT,
{
    let ghost all = joined(source@, a_from as int, a_to as int, b_from as int, b_to as int);
    let a_len: usize = a_to - a_from;
    let mut n: usize = 0;
    let mut acc: u128 = 0;
    proof {
        assert(all.take(0) =~= Seq::<u8>::empty());
        assert(all_digits(all));
        assert(all_digits(all.take(count as int)));
    }
    while n < count
        invariant
            a_from <= a_to <= b_from <= b_to <= source@.len(),
            a_len == a_to - a_from,
            n <= count <= a_len + (b_to - b_from),
            all == joined(source@, a_from as int, a_to as int, b_from as int, b_to as int),
            all_digits(all),
            all_digits(all.take(count as int)),
            acc <= MAGNITUDE_LIMIT,
            acc == decimal(all.take(n as int)),
        decreases count - n,
    {
        let digit: u8 = joined_digit(source, a_from, a_to, b_from, b_to, n);
        proof {
            assert(all.take(n + 1).drop_last() =~= all.take(n as int));
            assert(all.take(n + 1).last() == digit);
            assert(is_digit(all[n as int]));
        }
        let next: u128 = acc * 10 + (digit - 48) as u128;
        if next > MAGNITUDE_LIMIT {
            proof {
                assert(all.take(count as int).take(n + 1) =~= all.take(n + 1));
                lemma_decimal_grows(all.take(count as int), n + 1);
            }
            return None;
        }
        acc = next;
        n += 1;
    }
    Some(acc)
}

/// Appends `pad` zeros to a number; gives nothing where the result exceeds
/// the limit of a magnitude.
fn shift_up(value: u128, pad: u128) -> (shifted: Option<u128>)
    requires
        1 <= value <= MAGNITUDE_LIMIT,
    ensures
        shifted matches Some(v) ==> v <= MAGNITUDE_LIMIT && v == value * pow10(pad as nat),
        shifted is None ==> value * pow10(pad as nat) > MAGNITUDE_LIMIT,
{
    let mut acc: u128 = value;
    let mut done: u128 = 0;
    proof {
        assert(value * pow10(0) == value) by (nonlinear_arith)
            requires
                pow10(0) == 1,
        ;
    }
    while done < pad
        invariant
            done <= pad,
            1 <= value <= acc <= MAGNITUDE_LIMIT,
            acc == value * pow10(done as nat),
        decreases pad - done,
    {
        proof {
            assert(pow10((done + 1) as nat) == 10 * pow10(done as nat));
            assert(value * (10 * pow10(done as nat)) == (value * pow10(done as nat)) * 10)
                by (nonlinear_arith);
        }
        let next: u128 = acc * 10;
        if next > MAGNITUDE_LIMIT {
            proof {
                lemma_pow10_grows((done + 1) as nat, pad as nat);
                assert(value * pow10(pad as nat) >= value * pow10((done + 1) as nat))
                    by (nonlinear_arith)
                    requires
                        value >= 1,
                        pow10(pad as nat) >= pow10((done + 1) as nat),
                ;
            }
            return None;
        }
        acc = next;
        done += 1;
    }
    Some(acc)
}

/// Where the parts of a number lie in a text.
pub struct NumberLayout {
    /// Where the digits before the point begin, behind the sign.
    pub begin: usize,
    /// Where the digits before the point end.
    pub whole_to: usize,
    /// Where the digits behind the point begin.
    pub frac_from: usize,
    /// Where the digits behind the point end.
    pub frac_to: usize,
    /// Whether an exponent follows.
    pub has_exp: bool,
    /// Whether the exponent has a minus sign.
    pub exp_negative: bool,
    /// Where the digits of the exponent begin, behind its sign.
    pub exp_begin: usize,
    /// Where the digits of the exponent end.
    pub exp_to: usize,
}

/// The layout is that of the field `from..to` of the text.
pub open spec fn is_layout_of(layout: NumberLayout, text: Seq<u8>, from: int, to: int) -> bool {
    let field = text.subrange(from, to);
    &&& from <= layout.begin <= layout.whole_to <= layout.frac_from <= layout.frac_to
        <= layout.exp_begin <= layout.exp_to <= to
    &&& whole_part(field) == text.subrange(layout.begin as int, layout.whole_to as int)
    &&& fraction_part(field) == text.subrange(layout.frac_from as int, layout.frac_to as int)
    &&& layout.has_exp == has_exponent(field)
    &&& layout.has_exp ==> layout.exp_negative == is_negative(exponent_part(field))
    &&& layout.has_exp ==> exponent_digits(field) == text.subrange(
        layout.exp_begin as int,
        layout.exp_to as int,
    )
    &&& after_number(field).len() == to - layout.exp_to
    &&& all_digits(whole_part(field))
    &&& all_digits(fraction_part(field))
    &&& layout.has_exp ==> all_digits(exponent_digits(field))
}

/// Where the digits before the point lie, given where the digits behind
/// the sign end.
proof fn lemma_whole_part(text: Seq<u8>, from: int, to: int, begin: int, whole_to: int)
    requires
        0 <= from <= begin <= whole_to <= to <= text.len(),
        begin == if from < to && (text[from] == 45 || text[from] == 43) {
            from + 1
        } else {
            from
        },
        whole_to - begin == digit_run(text.subrange(begin, to)),
    ensures
        whole_part(text.subrange(from, to)) == text.subrange(begin, whole_to),
        after_whole(text.subrange(from, to)) == text.subrange(whole_to, to),
{
    let field = text.subrange(from, to);
    assert(unsigned_part(field) =~= text.subrange(begin, to));
    assert(whole_part(field) =~= text.subrange(begin, whole_to));
    assert(after_whole(field) =~= text.subrange(whole_to, to));
}

/// Where the digits behind the point lie, given where the digits that
/// follow the point end.
proof fn lemma_fraction_part(text: Seq<u8>, from: int, to: int, whole_to: int, frac_to: int)
    requires
        0 <= from <= whole_to <= to <= text.len(),
        after_whole(text.subrange(from, to)) == text.subrange(whole_to, to),
        whole_to < to && text[whole_to] == 46,
        whole_to + 1 <= frac_to <= to,
        frac_to - (whole_to + 1) == digit_run(text.subrange(whole_to + 1, to)),
    ensures
        has_point(text.subrange(from, to)),
        fraction_part(text.subrange(from, to)) == text.subrange(whole_to + 1, frac_to),
        after_fraction(text.subrange(from, to)) == text.subrange(frac_to, to),
{
    let field = text.subrange(from, to);
    assert(has_point(field));
    let behind = after_whole(field).skip(1);
    assert(behind =~= text.subrange(whole_to + 1, to));
    assert(fraction_part(field) =~= text.subrange(whole_to + 1, frac_to));
    assert(after_fraction(field) =~= text.subrange(frac_to, to));
}

/// Where the digits of the exponent lie, given where the digits behind
/// its sign end.
proof fn lemma_exponent_part(
    text: Seq<u8>,
    from: int,
    to: int,
    frac_to: int,
    exp_begin: int,
    exp_to: int,
)
    requires
        0 <= from <= frac_to < to <= text.len(),
        after_fraction(text.subrange(from, to)) == text.subrange(frac_to, to),
        text[frac_to] == 101 || text[frac_to] == 69,
        exp_begin == if frac_to + 1 < to && (text[frac_to + 1] == 45 || text[frac_to + 1] == 43) {
            frac_to + 2
        } else {
            frac_to + 1
        },
        exp_begin <= exp_to <= to,
        exp_to - exp_begin == digit_run(text.subrange(exp_begin, to)),
    ensures
        has_exponent(text.subrange(from, to)),
        is_negative(exponent_part(text.subrange(from, to))) == (frac_to + 1 < to && text[frac_to
            + 1] == 45),
        exponent_digits(text.subrange(from, to)) == text.subrange(exp_begin, exp_to),
        after_number(text.subrange(from, to)) == text.subrange(exp_to, to),
{
    let field = text.subrange(from, to);
    assert(has_exponent(field));
    let tail = exponent_part(field);
    assert(tail =~= text.subrange(frac_to + 1, to));
    assert(unsigned_part(tail) =~= text.subrange(exp_begin, to));
    assert(exponent_digits(field) =~= text.subrange(exp_begin, exp_to));
    assert(after_number(field) =~= text.subrange(exp_to, to));
}

/// Finds the parts of the number that begins the field `from..to`.
pub fn scan_number(source: &[u8], from: usize, to: usize) -> (layout: NumberLayout)
    requires
        from <= to <= source@.len(),
    ensures
        is_layout_of(layout, source@, from as int, to as int),
{
    let ghost text = source@;
    let ghost field = text.subrange(from as int, to as int);
    let begin: usize = if from < to && (source[from] == 45 || source[from] == 43) {
        from + 1
    } else {
        from
    };
    let whole_to: usize = scan_digits(source, begin, to);
    proof {
        lemma_whole_part(text, from as int, to as int, begin as int, whole_to as int);
    }
    let pointed: bool = whole_to < to && source[whole_to] == 46;
    let frac_from: usize = if pointed {
        whole_to + 1
    } else {
        whole_to
    };
    let frac_to: usize = if pointed {
        scan_digits(source, frac_from, to)
    } else {
        whole_to
    };
    proof {
        if pointed {
            lemma_fraction_part(text, from as int, to as int, whole_to as int, frac_to as int);
        } else {
            assert(!has_point(field));
            assert(text.subrange(frac_from as int, frac_to as int) =~= Seq::<u8>::empty());
        }
    }
    let has_exp: bool = frac_to < to && (source[frac_to] == 101 || source[frac_to] == 69);
    if !has_exp {
        proof {
            assert(!has_exponent(field));
        }
        return NumberLayout {
            begin,
            whole_to,
            frac_from,
            frac_to,
            has_exp,
            exp_negative: false,
            exp_begin: frac_to,
            exp_to: frac_to,
        };
    }
    let exp_from: usize = frac_to + 1;
    let exp_negative: bool = exp_from < to && source[exp_from] == 45;
    let exp_begin: usize = if exp_from < to && (source[exp_from] == 45 || source[exp_from] == 43) {
        exp_from + 1
    } else {
        exp_from
    };
    let exp_to: usize = scan_digits(source, exp_begin, to);
    proof {
        lemma_exponent_part(
            text,
            from as int,
            to as int,
            frac_to as int,
            exp_begin as int,
            exp_to as int,
        );
    }
    NumberLayout { begin, whole_to, frac_from, frac_to, has_exp, exp_negative, exp_begin, exp_to }
}

/// An exponent beyond the limit, read as the limit, changes nothing: the
/// value is zero either way, or too large either way.
proof fn lemma_far_exponent(all: Seq<u8>, keep: int, read: int)
    requires
        (keep < 0 && read < 0) || (keep > all.len() + 19 && read > all.len() + 19),
    ensures
        magnitude(all, keep) > MAGNITUDE_LIMIT <==> magnitude(all, read) > MAGNITUDE_LIMIT,
        magnitude(all, keep) <= MAGNITUDE_LIMIT ==> magnitude(all, keep) == magnitude(all, read),
{
    if keep > 0 {
        let a = (keep - all.len()) as nat;
        let b = (read - all.len()) as nat;
        lemma_pow10_grows(19, a);
        lemma_pow10_grows(19, b);
        reveal_with_fuel(pow10, 20);
        assert(pow10(19) == 10_000_000_000_000_000_000);
        let digits = decimal(all);
        if digits == 0 {
            assert(0 * pow10(a) == 0) by (nonlinear_arith);
            assert(0 * pow10(b) == 0) by (nonlinear_arith);
        } else {
            assert(digits * pow10(a) >= pow10(19)) by (nonlinear_arith)
                requires
                    digits >= 1,
                    pow10(a) >= pow10(19),
            ;
            assert(digits * pow10(b) >= pow10(19)) by (nonlinear_arith)
                requires
                    digits >= 1,
                    pow10(b) >= pow10(19),
            ;
        }
    }
}

/// Reads the digits `a_from..a_to` followed by the digits `b_from..b_to`
/// in ticks, where the first digits stand before the point and the power
/// of ten `exponent`, negative where `exp_negative` is set, shifts it.
/// Gives nothing where the value exceeds the limit of a magnitude.
fn read_magnitude(
    source: &[u8],
    a_from: usize,
    a_to: usize,
    b_from: usize,
    b_to: usize,
    exp_negative: bool,
    exponent: u128,
) -> (value: Option<u128>)
    requires
        a_from <= a_to <= b_from <= b_to <= source@.len(),
        all_digits(source@.subrange(a_from as int, a_to as int)),
        all_digits(source@.subrange(b_from as int, b_to as int)),
        exponent <= EXPONENT_LIMIT,
    ensures
        value matches Some(v) ==> v <= MAGNITUDE_LIMIT && v == magnitude(
            joined(source@, a_from as int, a_to as int, b_from as int, b_to as int),
            (a_to - a_from) + TICK_PLACES + if exp_negative {
                -(exponent as int)
            } else {
                exponent as int
            },
        ),
        value is None ==> magnitude(
            joined(source@, a_from as int, a_to as int, b_from as int, b_to as int),
            (a_to - a_from) + TICK_PLACES + if exp_negative {
                -(exponent as int)
            } else {
                exponent as int
            },
        ) > MAGNITUDE_LIMIT,
{
    let ghost all = joined(source@, a_from as int, a_to as int, b_from as int, b_to as int);
    let total: usize = (a_to - a_from) + (b_to - b_from);
    let reach: u128 = (a_to - a_from) as u128 + TICK_PLACES as u128;
    if exp_negative && exponent >= reach {
        if exponent == reach && total > 0 && joined_digit(source, a_from, a_to, b_from, b_to, 0)
            >= 53 {
            return Some(1);
        }
        return Some(0);
    }
    let keep: u128 = if exp_negative {
        reach - exponent
    } else {
        reach + exponent
    };
    if keep <= total as u128 {
        let count: usize = keep as usize;
        return match read_joined(source, a_from, a_to, b_from, b_to, count) {
            None => None,
            Some(ticks) => {
                if count < total && joined_digit(source, a_from, a_to, b_from, b_to, count)
                    >= 53 {
                    if ticks == MAGNITUDE_LIMIT {
                        None
                    } else {
                        Some(ticks + 1)
                    }
                } else {
                    Some(ticks)
                }
            },
        };
    }
    let ghost pad_all = (keep - total) as nat;
    proof {
        assert(all.take(total as int) =~= all);
        lemma_pow10_grows(0, pad_all);
    }
    match read_joined(source, a_from, a_to, b_from, b_to, total) {
        None => {
            proof {
                assert(decimal(all) * pow10(pad_all) >= decimal(all)) by (nonlinear_arith)
                    requires
                        pow10(pad_all) >= 1,
                ;
            }
            None
        },
        Some(digits) => {
            let pad: u128 = keep - total as u128;
            if digits == 0 {
                proof {
                    assert(0 * pow10(pad_all) == 0) by (nonlinear_arith);
                }
                Some(0)
            } else if pad > 19 {
                proof {
                    lemma_pow10_grows(19, pad_all);
                    reveal_with_fuel(pow10, 20);
                    assert(pow10(19) == 10_000_000_000_000_000_000);
                    assert(digits * pow10(pad_all) >= pow10(19)) by (nonlinear_arith)
                        requires
                            digits >= 1,
                            pow10(pad_all) >= pow10(19),
                    ;
                }
                None
            } else {
                shift_up(digits, pad)
            }
        },
    }
}

/// Reads the bytes `from..to` as a number in ticks.
pub fn parse_number(source: &[u8], from: usize, to: usize) -> (value: Option<i64>)
    requires
        from <= to <= source@.len(),
    ensures
        value == number_of(source@.subrange(from as int, to as int)),
{
    let ghost field = source@.subrange(from as int, to as int);
    let negative: bool = from < to && source[from] == 45;
    let layout: NumberLayout = scan_number(source, from, to);
    let digits: usize = (layout.whole_to - layout.begin) + (layout.frac_to - layout.frac_from);
    if digits < 1 || (layout.has_exp && layout.exp_to == layout.exp_begin) || layout.exp_to != to {
        return None;
    }
    let exponent: u128 = if layout.has_exp {
        read_exponent(source, layout.exp_begin, layout.exp_to)
    } else {
        0
    };
    let magnitude: Option<u128> = read_magnitude(
        source,
        layout.begin,
        layout.whole_to,
        layout.frac_from,
        layout.frac_to,
        layout.exp_negative,
        exponent,
    );
    proof {
        let all = all_digits_of(field);
        let read = (layout.whole_to - layout.begin) + TICK_PLACES + if layout.exp_negative {
            -(exponent as int)
        } else {
            exponent as int
        };
        assert(all == joined(
            source@,
            layout.begin as int,
            layout.whole_to as int,
            layout.frac_from as int,
            layout.frac_to as int,
        ));
        if places_kept(field) != read {
            lemma_far_exponent(all, places_kept(field), read);
        }
    }
    match magnitude {
        None => None,
        Some(m) => {
            if negative {
                Some((-(m as i128)) as i64)
            } else if m == MAGNITUDE_LIMIT {
                None
            } else {
                Some(m as i64)
            }
        },
    }
}

} // verus!

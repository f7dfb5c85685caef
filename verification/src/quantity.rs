//! Quantities: decimal numbers with a unit suffix.

use crate::double::{self, LIMIT};
use crate::text::{self, chars_of, trimmed};
use vstd::arithmetic::div_mod::{
    lemma_fundamental_div_mod, lemma_fundamental_div_mod_converse,
};
use vstd::prelude::*;
use vstd::string::*;

verus! {

/// Ten to the power `n`.
pub open spec fn pow10(n: nat) -> nat
    decreases n,
{
    if n == 0 {
        1
    } else {
        10 * pow10((n - 1) as nat)
    }
}

/// A decimal number: `digits * 10^-scale`, negated where `negative`.
pub struct Decimal {
    pub negative: bool,
    pub digits: Seq<char>,
    pub scale: int,
}

/// How many digits `s` starts with.
pub open spec fn digit_run(s: Seq<char>) -> nat
    decreases s.len(),
{
    if s.len() > 0 && text::is_digit(s[0]) {
        1 + digit_run(s.drop_first())
    } else {
        0
    }
}

/// `s` starts with a sign.
pub open spec fn has_sign(s: Seq<char>) -> bool {
    s.len() > 0 && (s[0] == '+' || s[0] == '-')
}

/// `s` starts with a minus sign.
pub open spec fn is_negated(s: Seq<char>) -> bool {
    s.len() > 0 && s[0] == '-'
}

/// `s` without the sign it may start with.
pub open spec fn unsigned(s: Seq<char>) -> Seq<char> {
    if has_sign(s) {
        s.skip(1)
    } else {
        s
    }
}

/// The exponent that `tail`, the part behind the digits, stands for: none is
/// 0, else it is `e` or `E` and a whole number.
pub open spec fn exponent_of(tail: Seq<char>) -> Option<int> {
    if tail.len() == 0 {
        Some(0)
    } else if tail[0] == 'e' || tail[0] == 'E' {
        let number = tail.skip(1);
        let digits = unsigned(number);
        if digits.len() > 0 && text::all_digits(digits) {
            if is_negated(number) {
                Some(-(text::digits_value(digits) as int))
            } else {
                Some(text::digits_value(digits) as int)
            }
        } else {
            None
        }
    } else {
        None
    }
}

/// The digits of `s` before the point.
pub open spec fn whole_part(s: Seq<char>) -> Seq<char> {
    unsigned(s).take(digit_run(unsigned(s)) as int)
}

/// What stands behind the digits before the point.
pub open spec fn after_whole(s: Seq<char>) -> Seq<char> {
    unsigned(s).skip(digit_run(unsigned(s)) as int)
}

/// `s` has a point behind its first digits.
pub open spec fn has_point(s: Seq<char>) -> bool {
    after_whole(s).len() > 0 && after_whole(s)[0] == '.'
}

/// The digits of `s` behind the point.
pub open spec fn fraction_part(s: Seq<char>) -> Seq<char> {
    if has_point(s) {
        let rest = after_whole(s).skip(1);
        rest.take(digit_run(rest) as int)
    } else {
        Seq::empty()
    }
}

/// What stands behind the digits of `s`.
pub open spec fn after_fraction(s: Seq<char>) -> Seq<char> {
    if has_point(s) {
        let rest = after_whole(s).skip(1);
        rest.skip(digit_run(rest) as int)
    } else {
        after_whole(s)
    }
}

/// The number that `s` writes: an optional sign, digits with at most one
/// point among them, and an optional exponent.
pub open spec fn decimal_of(s: Seq<char>) -> Option<Decimal> {
    let digits = whole_part(s) + fraction_part(s);
    match exponent_of(after_fraction(s)) {
        Some(exponent) => if digits.len() > 0 {
            Some(
                Decimal {
                    negative: is_negated(s),
                    digits,
                    scale: fraction_part(s).len() - exponent,
                },
            )
        } else {
            None
        },
        None => None,
    }
}

impl Decimal {
    /// The upper part of the number's size as a fraction.
    pub open spec fn upper(self) -> nat {
        if self.scale < 0 {
            text::digits_value(self.digits) * pow10((-self.scale) as nat)
        } else {
            text::digits_value(self.digits)
        }
    }

    /// The lower part of the number's size as a fraction.
    pub open spec fn lower(self) -> nat {
        if self.scale > 0 {
            pow10(self.scale as nat)
        } else {
            1
        }
    }
}

/// `magnitude`, negated where `negative`, or 0 where that is no `i64`.
pub open spec fn in_range_or_zero(negative: bool, magnitude: nat) -> int {
    let value = if negative {
        -(magnitude as int)
    } else {
        magnitude as int
    };
    if i64::MIN <= value <= i64::MAX {
        value
    } else {
        0
    }
}

/// `s` writes a whole number, without a point or an exponent, that is an
/// `i64`.
pub open spec fn is_whole(s: Seq<char>) -> bool {
    let value = text::digits_value(whole_part(s));
    &&& whole_part(s).len() > 0
    &&& after_whole(s).len() == 0
    &&& value <= i64::MAX || (is_negated(s) && value == i64::MAX + 1)
}

/// `mult` times the number that `s` writes; 0 where `s` is no number or the
/// result is no `i64`. A whole number is multiplied exactly. Any other is
/// taken, and multiplied, in double precision, and the product rounded to the
/// nearest whole number, a half away from zero.
pub open spec fn number_milli(s: Seq<char>, mult: nat) -> int {
    if is_whole(s) {
        in_range_or_zero(is_negated(s), text::digits_value(whole_part(s)) * mult)
    } else {
        match decimal_of(s) {
            Some(d) => in_range_or_zero(
                d.negative,
                double::nearest(d.upper(), d.lower()).times(mult).whole(),
            ),
            None => 0,
        }
    }
}

/// `s` ends with `suffix`.
pub open spec fn ends_with(s: Seq<char>, suffix: Seq<char>) -> bool {
    s.len() >= suffix.len() && s.skip(s.len() - suffix.len()) == suffix
}

/// `s` without its last `n` characters.
pub open spec fn without_last(s: Seq<char>, n: int) -> Seq<char> {
    s.take(s.len() - n)
}

/// The quantity `s` in thousandths. A suffix `m` stands for thousandths,
/// `Ki`, `Mi`, ... for powers of 1024, and `k`, `M`, ... for powers of 1000.
pub open spec fn quantity_milli(s: Seq<char>) -> int {
    if s.len() == 0 {
        0
    } else if ends_with(s, "m"@) {
        number_milli(without_last(s, 1), 1)
    } else if ends_with(s, "Ki"@) {
        number_milli(without_last(s, 2), 1_024_000)
    } else if ends_with(s, "Mi"@) {
        number_milli(without_last(s, 2), 1_048_576_000)
    } else if ends_with(s, "Gi"@) {
        number_milli(without_last(s, 2), 1_073_741_824_000)
    } else if ends_with(s, "Ti"@) {
        number_milli(without_last(s, 2), 1_099_511_627_776_000)
    } else if ends_with(s, "Pi"@) {
        number_milli(without_last(s, 2), 1_125_899_906_842_624_000)
    } else if ends_with(s, "Ei"@) {
        number_milli(without_last(s, 2), 1_152_921_504_606_846_976_000)
    } else if ends_with(s, "k"@) {
        number_milli(without_last(s, 1), 1_000_000)
    } else if ends_with(s, "M"@) {
        number_milli(without_last(s, 1), 1_000_000_000)
    } else if ends_with(s, "G"@) {
        number_milli(without_last(s, 1), 1_000_000_000_000)
    } else if ends_with(s, "T"@) {
        number_milli(without_last(s, 1), 1_000_000_000_000_000)
    } else if ends_with(s, "P"@) {
        number_milli(without_last(s, 1), 1_000_000_000_000_000_000)
    } else if ends_with(s, "E"@) {
        number_milli(without_last(s, 1), 1_000_000_000_000_000_000_000)
    } else {
        number_milli(s, 1000)
    }
}

/// The value of digits written lowest first.
spec fn low_value(s: Seq<u8>) -> nat
    decreases s.len(),
{
    if s.len() == 0 {
        0
    } else {
        low_value(s.drop_last()) + s.last() as nat * pow10((s.len() - 1) as nat)
    }
}

spec fn decimal_digits(s: Seq<u8>) -> bool {
    forall|i: int| 0 <= i < s.len() ==> #[trigger] s[i] < 10
}

proof fn lemma_pow10_positive(n: nat)
    ensures
        pow10(n) >= 1,
    decreases n,
{
    if n > 0 {
        lemma_pow10_positive((n - 1) as nat);
    }
}

proof fn lemma_pow10_sum(a: nat, b: nat)
    ensures
        pow10(a + b) == pow10(a) * pow10(b),
    decreases b,
{
    if b == 0 {
        assert(pow10(a) * 1 == pow10(a)) by (nonlinear_arith);
    } else {
        lemma_pow10_sum(a, (b - 1) as nat);
        let x = pow10(a);
        let y = pow10((b - 1) as nat);
        assert(10 * (x * y) == x * (10 * y)) by (nonlinear_arith);
        assert((a + b - 1) as nat == a + (b - 1) as nat);
    }
}

proof fn lemma_pow10_increases(a: nat, b: nat)
    requires
        a <= b,
    ensures
        pow10(a) <= pow10(b),
{
    lemma_pow10_sum(a, (b - a) as nat);
    lemma_pow10_positive((b - a) as nat);
    lemma_pow10_positive(a);
    let x = pow10(a);
    let y = pow10((b - a) as nat);
    assert(x <= x * y) by (nonlinear_arith)
        requires
            x >= 1,
            y >= 1,
    ;
}

proof fn lemma_low_value_bound(s: Seq<u8>)
    requires
        decimal_digits(s),
    ensures
        low_value(s) < pow10(s.len()),
    decreases s.len(),
{
    if s.len() > 0 {
        lemma_low_value_bound(s.drop_last());
        let p = pow10((s.len() - 1) as nat);
        let d = s.last() as nat;
        assert(d * p <= 9 * p) by (nonlinear_arith)
            requires
                d <= 9,
        ;
    }
}

/// Cutting digits written lowest first in two.
proof fn lemma_low_value_cut(s: Seq<u8>, k: int)
    requires
        0 <= k <= s.len(),
    ensures
        low_value(s) == low_value(s.take(k)) + low_value(s.skip(k)) * pow10(k as nat),
    decreases s.len() - k,
{
    let n = s.len() as int;
    if k == n {
        assert(s.take(k) =~= s);
        assert(s.skip(k) =~= Seq::<u8>::empty());
        assert(0 * pow10(k as nat) == 0) by (nonlinear_arith);
    } else {
        let t = s.drop_last();
        lemma_low_value_cut(t, k);
        assert(t.take(k) =~= s.take(k));
        assert(s.skip(k).drop_last() =~= t.skip(k));
        assert(s.skip(k).last() == s.last());
        let d = s.last() as nat;
        let a = pow10((n - 1 - k) as nat);
        let b = pow10(k as nat);
        lemma_pow10_sum((n - 1 - k) as nat, k as nat);
        assert((n - 1 - k) as nat + k as nat == (n - 1) as nat);
        let low = low_value(t.skip(k));
        assert((low + d * a) * b == low * b + d * (a * b)) by (nonlinear_arith);
    }
}

proof fn lemma_low_value_push(s: Seq<u8>, d: u8)
    ensures
        low_value(s.push(d)) == low_value(s) + d as nat * pow10(s.len()),
{
    assert(s.push(d).drop_last() =~= s);
}

/// Where the digits that start at `from` end.
fn scan_digits(chars: &Vec<char>, from: usize) -> (to: usize)
    requires
        from <= chars@.len(),
    ensures
        from <= to <= chars@.len(),
        to == from + digit_run(chars@.skip(from as int)),
        forall|i: int| from <= i < to ==> text::is_digit(#[trigger] chars@[i]),
{
    let mut i: usize = from;
    while i < chars.len() && 48 <= chars[i] as u32 && chars[i] as u32 <= 57
        invariant
            from <= i <= chars@.len(),
            digit_run(chars@.skip(from as int)) == (i - from) + digit_run(chars@.skip(i as int)),
            forall|j: int| from <= j < i ==> text::is_digit(#[trigger] chars@[j]),
        decreases chars@.len() - i,
    {
        assert(chars@.skip(i as int).drop_first() =~= chars@.skip(i + 1));
        i += 1;
    }
    i
}

/// The digits between two positions, as numbers, behind those of `digits`.
fn read_digits(chars: &Vec<char>, from: usize, to: usize, digits: &mut Vec<u8>)
    requires
        from <= to <= chars@.len(),
        forall|i: int| from <= i < to ==> text::is_digit(#[trigger] chars@[i]),
    ensures
        final(digits)@ == old(digits)@ + chars@.subrange(from as int, to as int).map_values(
            |c: char| text::digit_value(c) as u8,
        ),
{
    let ghost start = digits@;
    let mut i: usize = from;
    while i < to
        invariant
            from <= i <= to <= chars@.len(),
            forall|i: int| from <= i < to ==> text::is_digit(#[trigger] chars@[i]),
            digits@ =~= start + chars@.subrange(from as int, i as int).map_values(
                |c: char| text::digit_value(c) as u8,
            ),
        decreases to - i,
    {
        assert(text::is_digit(chars@[i as int]));
        let d: u8 = (chars[i] as u32 - 48) as u8;
        digits.push(d);
        i += 1;
    }
}

spec fn number_digits(s: Seq<char>) -> Seq<u8> {
    s.map_values(|c: char| text::digit_value(c) as u8)
}

/// The value of digits written highest first.
spec fn high_value(s: Seq<u8>) -> nat
    decreases s.len(),
{
    if s.len() == 0 {
        0
    } else {
        high_value(s.drop_last()) * 10 + s.last() as nat
    }
}

proof fn lemma_high_value(s: Seq<char>)
    requires
        text::all_digits(s),
    ensures
        high_value(number_digits(s)) == text::digits_value(s),
        decimal_digits(number_digits(s)),
    decreases s.len(),
{
    if s.len() > 0 {
        let t = s.drop_last();
        assert(text::all_digits(t));
        lemma_high_value(t);
        assert(number_digits(s).drop_last() =~= number_digits(t));
        assert(text::is_digit(s[s.len() - 1]));
    }
    assert forall|i: int| 0 <= i < number_digits(s).len() implies #[trigger] number_digits(s)[i]
        < 10 by {
        assert(text::is_digit(s[i]));
    }
}

proof fn lemma_high_value_cut(s: Seq<u8>, i: int)
    requires
        0 < i <= s.len(),
    ensures
        high_value(s.skip(i - 1)) == s[i - 1] as nat * pow10((s.len() - i) as nat) + high_value(
            s.skip(i),
        ),
    decreases s.len(),
{
    let n = s.len() as int;
    if i == n {
        assert(s.skip(n - 1) =~= seq![s[n - 1]]);
        assert(s.skip(n) =~= Seq::<u8>::empty());
        assert(s.skip(n - 1).drop_last() =~= Seq::<u8>::empty());
        assert(high_value(s.skip(n - 1).drop_last()) == 0);
        assert(high_value(s.skip(n)) == 0);
        assert(s[n - 1] as nat * 1 == s[n - 1] as nat) by (nonlinear_arith);
    } else {
        let t = s.drop_last();
        lemma_high_value_cut(t, i);
        assert(s.skip(i - 1).drop_last() =~= t.skip(i - 1));
        assert(s.skip(i).drop_last() =~= t.skip(i));
        assert(s.skip(i - 1).last() == s.last());
        assert(s.skip(i).last() == s.last());
        let d = s[i - 1] as nat;
        let p = pow10((n - 1 - i) as nat);
        let h = high_value(t.skip(i));
        assert(t[i - 1] == s[i - 1]);
        assert((d * p + h) * 10 == d * (10 * p) + h * 10) by (nonlinear_arith);
        assert(pow10((n - i) as nat) == 10 * p);
    }
}

/// The digits `digits`, written highest first, lowest first and without zeros
/// at the top.
fn lowest_first(digits: &Vec<u8>) -> (low: Vec<u8>)
    requires
        decimal_digits(digits@),
    ensures
        decimal_digits(low@),
        low_value(low@) == high_value(digits@),
        low@.len() > 0 ==> low@.last() > 0,
        low@.len() <= digits@.len(),
{
    let n: usize = digits.len();
    let mut low: Vec<u8> = Vec::new();
    let mut i: usize = n;
    proof {
        assert(digits@.skip(n as int) =~= Seq::<u8>::empty());
    }
    while i > 0
        invariant
            n == digits@.len(),
            i <= n,
            low@.len() == n - i,
            decimal_digits(digits@),
            decimal_digits(low@),
            low_value(low@) == high_value(digits@.skip(i as int)),
        decreases i,
    {
        let d: u8 = digits[i - 1];
        proof {
            assert(digits@[i - 1] < 10);
            lemma_low_value_push(low@, d);
            lemma_high_value_cut(digits@, i as int);
        }
        low.push(d);
        i -= 1;
    }
    assert(digits@.skip(0) =~= digits@);
    while low.len() > 0 && low[low.len() - 1] == 0
        invariant
            decimal_digits(low@),
            low@.len() <= digits@.len(),
            low_value(low@) == high_value(digits@),
        decreases low@.len(),
    {
        proof {
            let p = pow10((low@.len() - 1) as nat);
            assert(0 * p == 0) by (nonlinear_arith);
            assert(low@.last() == 0);
        }
        low.pop();
    }
    low
}

/// The digits of `factor` times the number, lowest first.
fn multiplied(digits: &Vec<u8>, factor: u8) -> (product: Vec<u8>)
    requires
        decimal_digits(digits@),
        1 <= factor <= 9,
    ensures
        decimal_digits(product@),
        low_value(product@) == factor * low_value(digits@),
{
    let n: usize = digits.len();
    let mut product: Vec<u8> = Vec::new();
    let mut carry: u8 = 0;
    let mut i: usize = 0;
    proof {
        assert(digits@.take(0) =~= Seq::<u8>::empty());
        assert(0 * pow10(0) == 0) by (nonlinear_arith);
        assert(factor * 0 == 0) by (nonlinear_arith);
    }
    while i < n
        invariant
            n == digits@.len(),
            i <= n,
            1 <= factor <= 9,
            product@.len() == i,
            decimal_digits(digits@),
            decimal_digits(product@),
            carry < 9,
            low_value(product@) + carry * pow10(i as nat) == factor * low_value(
                digits@.take(i as int),
            ),
        decreases n - i,
    {
        let d: u8 = digits[i];
        assert(digits@[i as int] < 10);
        assert(d * factor <= 81) by (nonlinear_arith)
            requires
                d <= 9,
                factor <= 9,
        ;
        let t: u8 = d * factor + carry;
        let low: u8 = t % 10;
        let next: u8 = t / 10;
        proof {
            let part = digits@.take(i as int);
            assert(digits@.take(i + 1) =~= part.push(d));
            lemma_low_value_push(part, d);
            lemma_low_value_push(product@, low);
            let p = pow10(i as nat);
            let v = low_value(product@);
            let w = low_value(part);
            assert(pow10((i + 1) as nat) == 10 * p);
            assert(v + low * p + next * (10 * p) == factor * (w + d * p)) by (nonlinear_arith)
                requires
                    v + carry * p == factor * w,
                    t == d * factor + carry,
                    t == 10 * next + low,
            ;
        }
        product.push(low);
        carry = next;
        i += 1;
    }
    proof {
        assert(digits@.take(n as int) =~= digits@);
        lemma_low_value_push(product@, carry);
        let p = pow10(n as nat);
        assert(0 * p == 0) by (nonlinear_arith);
    }
    if carry > 0 {
        product.push(carry);
    }
    product
}

proof fn lemma_zeros(s: Seq<u8>)
    requires
        forall|i: int| 0 <= i < s.len() ==> #[trigger] s[i] == 0,
    ensures
        low_value(s) == 0,
    decreases s.len(),
{
    if s.len() > 0 {
        let t = s.drop_last();
        assert forall|i: int| 0 <= i < t.len() implies #[trigger] t[i] == 0 by {
            assert(t[i] == s[i]);
        }
        lemma_zeros(t);
        let p = pow10((s.len() - 1) as nat);
        assert(0 * p == 0) by (nonlinear_arith);
        assert(s[s.len() - 1] == 0);
    }
}

/// A digit that is not zero shows in the value.
proof fn lemma_not_zero(s: Seq<u8>, i: int)
    requires
        0 <= i < s.len(),
        s[i] > 0,
    ensures
        low_value(s) >= pow10(i as nat),
    decreases s.len(),
{
    let p = pow10((s.len() - 1) as nat);
    let d = s.last() as nat;
    assert(d * p >= 0) by (nonlinear_arith);
    if i < s.len() - 1 {
        assert(s.drop_last()[i] == s[i]);
        lemma_not_zero(s.drop_last(), i);
    } else {
        assert(d * p >= p) by (nonlinear_arith)
            requires
                d >= 1,
        ;
    }
}

/// The digits of `10^zeros` times the number.
fn raised(digits: &Vec<u8>, zeros: u128) -> (product: Vec<u8>)
    requires
        decimal_digits(digits@),
    ensures
        decimal_digits(product@),
        low_value(product@) == low_value(digits@) * pow10(zeros as nat),
{
    let mut product: Vec<u8> = Vec::new();
    let mut i: u128 = 0;
    while i < zeros
        invariant
            i <= zeros,
            product@.len() == i,
            forall|j: int| 0 <= j < i ==> #[trigger] product@[j] == 0,
        decreases zeros - i,
    {
        product.push(0);
        i += 1;
    }
    let ghost start = product@;
    let mut j: usize = 0;
    while j < digits.len()
        invariant
            decimal_digits(digits@),
            start.len() == zeros,
            forall|k: int| 0 <= k < start.len() ==> #[trigger] start[k] == 0,
            j <= digits@.len(),
            product@ =~= start + digits@.take(j as int),
        decreases digits@.len() - j,
    {
        product.push(digits[j]);
        j += 1;
    }
    proof {
        assert(digits@.take(j as int) =~= digits@);
        lemma_low_value_cut(product@, zeros as int);
        assert(product@.take(zeros as int) =~= start);
        assert(product@.skip(zeros as int) =~= digits@);
        lemma_zeros(start);
        assert forall|k: int| 0 <= k < product@.len() implies #[trigger] product@[k] < 10 by {
            if k < zeros {
                assert(product@[k] == start[k]);
            } else {
                assert(product@[k] == digits@[k - zeros]);
            }
        }
    }
    product
}

/// The number that the digits from `from` on stand for, unless it is above
/// the limit.
fn value_from(product: &Vec<u8>, from: usize) -> (r: Option<u128>)
    requires
        decimal_digits(product@),
        from <= product@.len(),
    ensures
        r matches Some(v) ==> v == low_value(product@.skip(from as int)) && v <= LIMIT,
        r is None ==> low_value(product@.skip(from as int)) > LIMIT,
{
    let ghost tail = product@.skip(from as int);
    let mut value: u128 = 0;
    let mut i: usize = product.len();
    proof {
        assert(tail.skip(tail.len() as int) =~= Seq::<u8>::empty());
        assert(low_value(tail.skip(tail.len() as int)) == 0);
    }
    while i > from
        invariant
            tail == product@.skip(from as int),
            decimal_digits(product@),
            from <= i <= product@.len(),
            value == low_value(tail.skip(i - from)),
            value <= LIMIT,
        decreases i,
    {
        let d: u8 = product[i - 1];
        proof {
            let j = i - 1 - from;
            assert(tail.skip(j).len() >= 1);
            lemma_low_value_cut(tail.skip(j), 1);
            assert(tail.skip(j).take(1) =~= seq![d]);
            assert(seq![d].drop_last() =~= Seq::<u8>::empty());
            assert(low_value(seq![d].drop_last()) == 0);
            assert(pow10(0) == 1 && pow10(1) == 10 * pow10(0));
            assert(d as nat * 1 == d as nat) by (nonlinear_arith);
            assert(low_value(seq![d]) == d);
            assert(tail.skip(j).skip(1) =~= tail.skip(j + 1));
        }
        let next: u128 = value * 10 + d as u128;
        if next > LIMIT {
            proof {
                let j = i - 1 - from;
                lemma_low_value_cut(tail, j);
                let p = pow10(j as nat);
                lemma_pow10_positive(j as nat);
                assert(next <= next * p) by (nonlinear_arith)
                    requires
                        p >= 1,
                ;
            }
            return None;
        }
        value = next;
        i -= 1;
    }
    proof {
        assert(tail.skip(0) =~= tail);
    }
    Some(value)
}

/// A sign and a magnitude that stand for the exponent `e`; from the limit on
/// the magnitude is only a bound.
spec fn stands_for(negative: bool, magnitude: u128, e: int) -> bool {
    &&& magnitude <= EXPONENT_LIMIT
    &&& magnitude < EXPONENT_LIMIT ==> e == if negative {
        -(magnitude as int)
    } else {
        magnitude as int
    }
    &&& magnitude == EXPONENT_LIMIT && negative ==> e <= -(EXPONENT_LIMIT as int)
    &&& magnitude == EXPONENT_LIMIT && !negative ==> e >= EXPONENT_LIMIT as int
}

/// The exponent that the characters from `from` on stand for where they are
/// one.
fn read_exponent(chars: &Vec<char>, from: usize) -> (r: Option<(bool, u128)>)
    requires
        from <= chars@.len(),
    ensures
        (r is Some) == (exponent_of(chars@.skip(from as int)) is Some),
        r matches Some((negative, magnitude)) ==> stands_for(
            negative,
            magnitude,
            exponent_of(chars@.skip(from as int))->0,
        ),
{
    let ghost tail = chars@.skip(from as int);
    if from == chars.len() {
        return Some((false, 0));
    }
    assert(tail[0] == chars@[from as int]);
    if chars[from] != 'e' && chars[from] != 'E' {
        return None;
    }
    let ghost number = tail.skip(1);
    let mut i: usize = from + 1;
    let mut negative = false;
    if i < chars.len() {
        assert(number[0] == chars@[i as int]);
        if chars[i] == '-' {
            negative = true;
            i += 1;
        } else if chars[i] == '+' {
            i += 1;
        }
    }
    let start: usize = i;
    let ghost digits = unsigned(number);
    assert(digits =~= chars@.skip(start as int));
    if start == chars.len() {
        return None;
    }
    let mut magnitude: u128 = 0;
    proof {
        assert(digits.take(0) =~= Seq::<char>::empty());
    }
    while i < chars.len()
        invariant
            tail == chars@.skip(from as int),
            from < chars@.len(),
            tail[0] == 'e' || tail[0] == 'E',
            number == tail.skip(1),
            digits == unsigned(number),
            negative == is_negated(number),
            start < chars@.len(),
            digits == chars@.skip(start as int),
            start <= i <= chars@.len(),
            forall|j: int| start <= j < i ==> text::is_digit(#[trigger] chars@[j]),
            magnitude <= EXPONENT_LIMIT,
            magnitude < EXPONENT_LIMIT ==> magnitude == text::digits_value(digits.take(i - start)),
            magnitude == EXPONENT_LIMIT ==> text::digits_value(digits.take(i - start))
                >= EXPONENT_LIMIT,
        decreases chars@.len() - i,
    {
        let c: u32 = chars[i] as u32;
        if c < 48 || c > 57 {
            proof {
                assert(digits[i - start] == chars@[i as int]);
                assert(!text::is_digit(digits[i - start]));
            }
            return None;
        }
        proof {
            assert(digits.take(i + 1 - start).drop_last() =~= digits.take(i - start));
            assert(digits.take(i + 1 - start).last() == chars@[i as int]);
        }
        let next: u128 = magnitude * 10 + (c - 48) as u128;
        if next > EXPONENT_LIMIT {
            magnitude = EXPONENT_LIMIT;
        } else {
            magnitude = next;
        }
        i += 1;
    }
    proof {
        assert(digits.take(i - start) =~= digits);
        assert forall|j: int| 0 <= j < digits.len() implies text::is_digit(#[trigger] digits[j]) by {
            assert(text::is_digit(chars@[start + j]));
        }
    }
    Some((negative, magnitude))
}

/// More digits than any text has.
pub const EXPONENT_LIMIT: u128 = 1_000_000_000_000_000_000_000_000_000_000;

fn to_i64_or_zero(negative: bool, magnitude: u128) -> (r: i64)
    requires
        magnitude <= 4 * LIMIT,
    ensures
        r == in_range_or_zero(negative, magnitude as nat),
{
    let value: i128 = if negative {
        -(magnitude as i128)
    } else {
        magnitude as i128
    };
    if value < i64::MIN as i128 || value > i64::MAX as i128 {
        0
    } else {
        value as i64
    }
}

/// The whole part of a number is at least `c` where the number is.
proof fn lemma_whole_digits(s: Seq<u8>, k: nat, c: nat)
    requires
        decimal_digits(s),
        k <= s.len(),
    ensures
        (low_value(s) >= c * pow10(k)) == (low_value(s.skip(k as int)) >= c),
        low_value(s) == low_value(s.take(k as int)) + low_value(s.skip(k as int)) * pow10(k),
        low_value(s.take(k as int)) < pow10(k),
{
    lemma_low_value_cut(s, k as int);
    lemma_low_value_bound(s.take(k as int));
    let p = pow10(k);
    let q = low_value(s.skip(k as int));
    let r = low_value(s.take(k as int));
    if q >= c {
        assert(q * p >= c * p) by (nonlinear_arith)
            requires
                q >= c,
        ;
    } else {
        assert(r + q * p < c * p) by (nonlinear_arith)
            requires
                q + 1 <= c,
                r < p,
        ;
    }
}

/// Whether the number `digits * 10^-scale` is at least `c`.
fn is_at_least(digits: &Vec<u8>, scale: u128, c: u128) -> (b: bool)
    requires
        decimal_digits(digits@),
        1 <= c <= LIMIT,
    ensures
        b == (low_value(digits@) >= c * pow10(scale as nat)),
        b ==> scale < digits@.len() <= usize::MAX,
{
    if scale >= digits.len() as u128 {
        proof {
            lemma_low_value_bound(digits@);
            lemma_pow10_increases(digits@.len(), scale as nat);
            let p = pow10(scale as nat);
            assert(c * p >= p) by (nonlinear_arith)
                requires
                    c >= 1,
            ;
        }
        return false;
    }
    proof {
        lemma_whole_digits(digits@, scale as nat, c as nat);
    }
    match value_from(digits, scale as usize) {
        Some(q) => q >= c,
        None => true,
    }
}

/// Whether the digits below position `k` are all zero.
fn is_zero_below(digits: &Vec<u8>, k: usize) -> (b: bool)
    requires
        k <= digits@.len(),
    ensures
        b == (low_value(digits@.take(k as int)) == 0),
{
    let ghost part = digits@.take(k as int);
    let mut i: usize = 0;
    while i < k
        invariant
            part == digits@.take(k as int),
            i <= k <= digits@.len(),
            forall|j: int| 0 <= j < i ==> #[trigger] part[j] == 0,
        decreases k - i,
    {
        assert(part[i as int] == digits@[i as int]);
        if digits[i] != 0 {
            proof {
                lemma_not_zero(part, i as int);
                lemma_pow10_positive(i as nat);
            }
            return false;
        }
        i += 1;
    }
    proof {
        lemma_zeros(part);
    }
    true
}

/// `digits * 10^-scale` to the nearest whole number, a half to the even one.
fn rounded(digits: &Vec<u8>, scale: usize) -> (r: u128)
    requires
        decimal_digits(digits@),
        scale <= digits@.len(),
        low_value(digits@) < double::TWO_53 * pow10(scale as nat),
    ensures
        r == double::half_even(low_value(digits@), pow10(scale as nat)),
{
    let ghost n = low_value(digits@);
    let ghost p = pow10(scale as nat);
    let ghost q = low_value(digits@.skip(scale as int));
    let ghost r = low_value(digits@.take(scale as int));
    proof {
        lemma_whole_digits(digits@, scale as nat, double::TWO_53 as nat);
        assert(n == q * p + r);
        lemma_fundamental_div_mod_converse(n as int, p as int, q as int, r as int);
    }
    let whole: u128 = match value_from(digits, scale) {
        Some(v) => v,
        None => {
            return 0;
        },
    };
    if scale == 0 {
        assert(r == 0 && p == 1) by {
            assert(digits@.take(0) =~= Seq::<u8>::empty());
        }
        return whole;
    }
    let top: u8 = digits[scale - 1];
    let rest = !is_zero_below(digits, scale - 1);
    proof {
        let part = digits@.take(scale as int);
        assert(part.drop_last() =~= digits@.take(scale - 1));
        assert(part.last() == top);
        lemma_low_value_bound(part.drop_last());
        let h = pow10((scale - 1) as nat);
        let low = low_value(part.drop_last());
        assert(p == 10 * h && r == low + top * h);
        assert(digits@[scale - 1] < 10);
        if top < 5 {
            assert(2 * r < p) by (nonlinear_arith)
                requires
                    r == low + top * h,
                    top <= 4,
                    low < h,
                    p == 10 * h,
            ;
        } else if top > 5 {
            assert(2 * r > p) by (nonlinear_arith)
                requires
                    r == low + top * h,
                    top >= 6,
                    low >= 0,
                    h >= 1,
                    p == 10 * h,
            ;
        } else {
            assert(2 * r == p + 2 * low) by (nonlinear_arith)
                requires
                    r == low + top * h,
                    top == 5,
                    p == 10 * h,
            ;
        }
    }
    if top < 5 || (top == 5 && !rest && whole % 2 == 0) {
        whole
    } else {
        whole + 1
    }
}

proof fn lemma_halved(a: nat, b: nat, e: int, n: nat, p: nat)
    requires
        b > 0,
        double::over(a, e) * p == n * double::under(b, e),
    ensures
        double::over(a, e + 1) * (10 * p) == (5 * n) * double::under(b, e + 1),
{
    double::lemma_step(a, b, e);
    double::lemma_positive(a, b, e);
    let (x, y) = (double::over(a, e), double::under(b, e));
    let (u, v) = (double::over(a, e + 1), double::under(b, e + 1));
    assert((2 * (u * p)) * y == (n * v) * y) by (nonlinear_arith)
        requires
            u * (2 * y) == x * v,
            x * p == n * y,
    ;
    assert(2 * (u * p) == n * v) by (nonlinear_arith)
        requires
            (2 * (u * p)) * y == (n * v) * y,
            y > 0,
    ;
    assert(u * (10 * p) == (5 * n) * v) by (nonlinear_arith)
        requires
            2 * (u * p) == n * v,
    ;
}

proof fn lemma_doubled(a: nat, b: nat, e: int, n: nat, p: nat)
    requires
        b > 0,
        double::over(a, e) * p == n * double::under(b, e),
    ensures
        double::over(a, e - 1) * p == (2 * n) * double::under(b, e - 1),
{
    double::lemma_step(a, b, e - 1);
    double::lemma_positive(a, b, e);
    let (x, y) = (double::over(a, e), double::under(b, e));
    let (u, v) = (double::over(a, e - 1), double::under(b, e - 1));
    assert((u * p) * y == ((2 * n) * v) * y) by (nonlinear_arith)
        requires
            x * (2 * v) == u * y,
            x * p == n * y,
    ;
    assert(u * p == (2 * n) * v) by (nonlinear_arith)
        requires
            (u * p) * y == ((2 * n) * v) * y,
            y > 0,
    ;
}

/// How often a number below `10^25` can be halved before it is below `2^53`.
proof fn lemma_few_halvings(a: nat, b: nat, e: int, n: nat, p: nat)
    requires
        b > 0,
        p > 0,
        e >= 0,
        double::over(a, e) * p == n * double::under(b, e),
        n >= double::TWO_53 * p,
        a < 10_000_000_000_000_000_000_000_000 * b,
    ensures
        e < 10_000_000_000_000_000_000_000_000,
{
    double::lemma_pow2(e as nat);
    double::lemma_positive(a, b, e);
    let w = double::pow2(e as nat);
    let y = double::under(b, e);
    assert(y == b * w) by {
        if e == 0 {
            assert(b * 1 == b) by (nonlinear_arith);
        }
    }
    assert(a >= y) by (nonlinear_arith)
        requires
            a * p == n * y,
            n >= p,
            p > 0,
            y > 0,
    ;
    assert(w < 10_000_000_000_000_000_000_000_000) by (nonlinear_arith)
        requires
            a >= b * w,
            a < 10_000_000_000_000_000_000_000_000 * b,
            b > 0,
    ;
}

/// How often a number from `10^-22` on can be doubled before it is at least
/// `2^52`.
proof fn lemma_few_doublings(a: nat, b: nat, e: int, n: nat, p: nat)
    requires
        a > 0,
        b > 0,
        p > 0,
        e <= 0,
        double::over(a, e) * p == n * double::under(b, e),
        n < double::TWO_52 * p,
        a * 10_000_000_000_000_000_000_000 >= b,
    ensures
        -e < 45_035_996_273_704_960_000_000_000_000_000_000_000,
{
    double::lemma_pow2((-e) as nat);
    let w = double::pow2((-e) as nat);
    let x = double::over(a, e);
    assert(x == a * w) by {
        if e == 0 {
            assert(a * 1 == a) by (nonlinear_arith);
        }
    }
    assert(x < 4_503_599_627_370_496 * b) by (nonlinear_arith)
        requires
            x * p == n * b,
            n < 4_503_599_627_370_496 * p,
            p > 0,
            b > 0,
    ;
    assert(w < 45_035_996_273_704_960_000_000_000_000_000_000_000) by (nonlinear_arith)
        requires
            a * w < 4_503_599_627_370_496 * b,
            a * 10_000_000_000_000_000_000_000 >= b,
            a > 0,
    ;
}

/// The number `digits * 10^-scale` in double precision: mantissa and exponent.
#[verifier::loop_isolation(false)]
fn to_double(digits: Vec<u8>, scale: u128) -> (r: (u128, i128))
    requires
        decimal_digits(digits@),
        scale <= digits@.len() + 100,
        low_value(digits@) > 0,
        low_value(digits@) < 10_000_000_000_000_000_000_000_000 * pow10(scale as nat),
        low_value(digits@) * 10_000_000_000_000_000_000_000 >= pow10(scale as nat),
    ensures
        double::nearest(low_value(digits@), pow10(scale as nat)) == (double::Double {
            mantissa: r.0 as nat,
            exponent: r.1 as int,
        }),
        double::TWO_52 <= r.0 <= double::TWO_53,
        -45_035_996_273_704_960_000_000_000_000_000_000_000 <= r.1
            <= 10_000_000_000_000_000_000_000_000,
{
    let ghost a = low_value(digits@);
    let ghost b = pow10(scale as nat);
    let mut n: Vec<u8> = digits;
    let mut k: u128 = scale;
    let mut e: i128 = 0;
    proof {
        lemma_pow10_positive(scale as nat);
    }
    while is_at_least(&n, k, double::TWO_53)
        invariant
            decimal_digits(n@),
            0 <= e <= 10_000_000_000_000_000_000_000_000,
            double::over(a, e as int) * pow10(k as nat) == low_value(n@) * double::under(
                b,
                e as int,
            ),
            e > 0 ==> low_value(n@) >= double::TWO_52 * pow10(k as nat),
        decreases 10_000_000_000_000_000_000_000_000 - e,
    {
        proof {
            let p = pow10(k as nat);
            lemma_pow10_positive(k as nat);
            lemma_few_halvings(a, b, e as int, low_value(n@), p);
            lemma_halved(a, b, e as int, low_value(n@), p);
            assert(pow10((k + 1) as nat) == 10 * p);
        }
        n = multiplied(&n, 5);
        k += 1;
        e += 1;
    }
    while !is_at_least(&n, k, double::TWO_52)
        invariant
            decimal_digits(n@),
            -45_035_996_273_704_960_000_000_000_000_000_000_000 <= e
                <= 10_000_000_000_000_000_000_000_000,
            double::over(a, e as int) * pow10(k as nat) == low_value(n@) * double::under(
                b,
                e as int,
            ),
            e > 0 ==> low_value(n@) >= double::TWO_52 * pow10(k as nat),
            low_value(n@) < double::TWO_53 * pow10(k as nat),
        decreases 45_035_996_273_704_960_000_000_000_000_000_000_000 + e,
    {
        proof {
            let p = pow10(k as nat);
            lemma_pow10_positive(k as nat);
            lemma_few_doublings(a, b, e as int, low_value(n@), p);
            lemma_doubled(a, b, e as int, low_value(n@), p);
        }
        n = multiplied(&n, 2);
        e -= 1;
    }
    proof {
        let p = pow10(k as nat);
        lemma_pow10_positive(k as nat);
        double::lemma_exponent_same(a, b, e as int, low_value(n@), p);
        double::lemma_nearest(a, b, e as int);
        double::lemma_half_even(low_value(n@), p);
        assert(double::TWO_52 as nat * p <= low_value(n@));
        assert(low_value(n@) <= double::TWO_53 as nat * p);
    }
    let m: u128 = rounded(&n, k as usize);
    (m, e)
}

/// The parts of a number as they were read.
struct Reading {
    negative: bool,
    digits: Vec<u8>,
    fraction_len: usize,
    negative_exponent: bool,
    exponent: u128,
    plain: bool,
}

spec fn reads(r: Reading, s: Seq<char>) -> bool {
    &&& decimal_of(s) is Some
    &&& r.negative == is_negated(s)
    &&& r.fraction_len == fraction_part(s).len()
    &&& stands_for(r.negative_exponent, r.exponent, exponent_of(after_fraction(s))->0)
    &&& r.plain == (after_whole(s).len() == 0)
    &&& decimal_digits(r.digits@)
    &&& high_value(r.digits@) == text::digits_value(whole_part(s) + fraction_part(s))
}

/// The parts of the number that `chars` write.
#[verifier::spinoff_prover]
#[verifier::rlimit(40)]
fn read_number(chars: &Vec<char>) -> (r: Option<Reading>)
    ensures
        (r is Some) == (decimal_of(chars@) is Some),
        r matches Some(reading) ==> reads(reading, chars@),
{
    let ghost s = chars@;
    let mut i: usize = 0;
    let mut negative = false;
    if chars.len() > 0 {
        if chars[0] == '-' {
            negative = true;
            i = 1;
        } else if chars[0] == '+' {
            i = 1;
        }
    }
    assert(unsigned(s) =~= s.skip(i as int));
    let whole_end: usize = scan_digits(chars, i);
    assert(whole_part(s) =~= s.subrange(i as int, whole_end as int));
    assert(after_whole(s) =~= s.skip(whole_end as int));
    let mut digits: Vec<u8> = Vec::new();
    read_digits(chars, i, whole_end, &mut digits);
    assert(digits@ =~= number_digits(whole_part(s)));
    let mut end: usize = whole_end;
    let mut fraction_len: usize = 0;
    if whole_end < chars.len() && chars[whole_end] == '.' {
        assert(after_whole(s)[0] == '.');
        assert(after_whole(s).skip(1) =~= s.skip(whole_end + 1));
        end = scan_digits(chars, whole_end + 1);
        assert(fraction_part(s) =~= s.subrange(whole_end + 1, end as int));
        assert(after_fraction(s) =~= s.skip(end as int));
        read_digits(chars, whole_end + 1, end, &mut digits);
        fraction_len = end - (whole_end + 1);
    } else {
        proof {
            if has_point(s) {
                assert(after_whole(s)[0] == s[whole_end as int]);
            }
        }
    }
    proof {
        let all = whole_part(s) + fraction_part(s);
        assert(text::all_digits(all));
        assert(digits@ =~= number_digits(all));
        lemma_high_value(all);
    }
    if digits.len() == 0 {
        return None;
    }
    match read_exponent(chars, end) {
        Some((negative_exponent, exponent)) => Some(
            Reading {
                negative,
                digits,
                fraction_len,
                negative_exponent,
                exponent,
                plain: whole_end == chars.len(),
            },
        ),
        None => None,
    }
}

/// `mult` times `value`, negated where `negative`; 0 where that is no `i64`.
fn exact_product(negative: bool, value: u128, mult: u128) -> (r: i64)
    requires
        value <= LIMIT,
        1 <= mult <= 1_200_000_000_000_000_000_000,
    ensures
        r == in_range_or_zero(negative, (value * mult) as nat),
{
    let most: u128 = LIMIT / mult;
    proof {
        let left = LIMIT as int % mult as int;
        lemma_fundamental_div_mod(LIMIT as int, mult as int);
        assert(LIMIT == mult * most + left && 0 <= left && left < mult);
        if value > most {
            assert(value * mult > LIMIT) by (nonlinear_arith)
                requires
                    value >= most + 1,
                    LIMIT == mult * most + left,
                    left < mult,
            ;
        } else {
            assert(value * mult <= LIMIT) by (nonlinear_arith)
                requires
                    value <= most,
                    LIMIT == mult * most + left,
                    left >= 0,
                    mult >= 1,
            ;
        }
    }
    if value > most {
        return 0;
    }
    to_i64_or_zero(negative, value * mult)
}

/// How many places before the point a number starts at tells how large it is.
proof fn lemma_places(d: Decimal, n: nat)
    requires
        text::digits_value(d.digits) < pow10(n),
        n > 0,
        text::digits_value(d.digits) >= pow10((n - 1) as nat),
    ensures
        d.upper() > 0,
        d.lower() > 0,
        n - d.scale <= -22 ==> d.upper() * 10_000_000_000_000_000_000_000 < d.lower(),
        n - d.scale >= -21 ==> d.upper() * 10_000_000_000_000_000_000_000 >= d.lower(),
        n - d.scale >= 25 ==> d.upper() >= 18_446_744_073_709_551_616 * d.lower(),
        n - d.scale <= 24 ==> d.upper() < 10_000_000_000_000_000_000_000_000 * d.lower(),
{
    let v = text::digits_value(d.digits);
    let c = (n - 1) as nat;
    lemma_pow10_positive(c);
    assert(pow10(22) == 10_000_000_000_000_000_000_000 && pow10(24)
        == 1_000_000_000_000_000_000_000_000 && pow10(25) == 10_000_000_000_000_000_000_000_000)
        by {
        reveal_with_fuel(pow10, 26);
    }
    let up = d.upper();
    if d.scale >= 0 {
        let s = d.scale as nat;
        let b = pow10(s);
        assert(d.lower() == b);
        lemma_pow10_positive(s);
        lemma_pow10_sum(n, 22);
        lemma_pow10_sum(c, 22);
        lemma_pow10_sum(s, 24);
        if n - d.scale <= -22 {
            lemma_pow10_increases(n + 22, s);
        } else {
            lemma_pow10_increases(s, c + 22);
        }
        if n - d.scale >= 25 {
            lemma_pow10_increases(s + 24, c);
        } else if n - d.scale <= 24 {
            lemma_pow10_increases(n, s + 24);
        }
    } else {
        let s = (-d.scale) as nat;
        let w = pow10(s);
        lemma_pow10_positive(s);
        assert(up == v * w && d.lower() == 1);
        lemma_pow10_sum(n, s);
        lemma_pow10_sum(c, s);
        lemma_pow10_positive(c + s);
        let (x, y) = (pow10(n), pow10(c));
        assert(v * w < x * w) by (nonlinear_arith)
            requires
                v < x,
                w > 0,
        ;
        assert(v * w >= y * w) by (nonlinear_arith)
            requires
                v >= y,
        ;
        if n + s >= 25 {
            lemma_pow10_increases(24, c + s);
        }
        if n + s <= 24 {
            lemma_pow10_increases(n + s, 24);
        }
    }
}

/// `mult` times the number that was read, in double precision.
fn double_product(reading: &Reading, mult: u128, Ghost(d): Ghost<Decimal>) -> (r: i64)
    requires
        1 <= mult <= 1_200_000_000_000_000_000_000,
        decimal_digits(reading.digits@),
        high_value(reading.digits@) == text::digits_value(d.digits),
        reading.negative == d.negative,
        exists|x: int| #[trigger]
            stands_for(reading.negative_exponent, reading.exponent, x) && d.scale
                == reading.fraction_len - x,
    ensures
        r == in_range_or_zero(
            d.negative,
            double::nearest(d.upper(), d.lower()).times(mult as nat).whole(),
        ),
{
    let digits = lowest_first(&reading.digits);
    let ghost n = digits@.len();
    let len: i128 = digits.len() as i128;
    let exponent: i128 = reading.exponent as i128;
    let scale: i128 = if reading.negative_exponent {
        reading.fraction_len as i128 + exponent
    } else {
        reading.fraction_len as i128 - exponent
    };
    if digits.len() == 0 {
        proof {
            assert(text::digits_value(d.digits) == 0);
            assert(d.upper() == 0) by {
                let p = pow10((-d.scale) as nat);
                assert(0 * p == 0) by (nonlinear_arith);
            }
            double::lemma_zero(d.lower(), mult as nat);
        }
        return 0;
    }
    proof {
        lemma_low_value_bound(digits@);
        lemma_not_zero(digits@, n - 1);
        lemma_places(d, n);
    }
    if len - scale <= -22 {
        proof {
            double::lemma_small(d.upper(), d.lower(), mult as nat);
        }
        return 0;
    }
    if len - scale >= 25 {
        proof {
            assert(double::pow2(12) == 4096) by {
                reveal_with_fuel(double::pow2, 13);
            }
            double::lemma_large(d.upper(), d.lower(), mult as nat, 12);
        }
        return 0;
    }
    assert(scale == d.scale);
    let (m, e): (u128, i128) = if scale < 0 {
        let whole = raised(&digits, (-scale) as u128);
        to_double(whole, 0)
    } else {
        to_double(digits, scale as u128)
    };
    let magnitude: u128 = double::times_whole(m, e, mult);
    to_i64_or_zero(reading.negative, magnitude)
}

/// `mult` times the number written by `chars`; 0 where they are no number or
/// the result is no `i64`.
fn parse_number_milli(chars: &Vec<char>, mult: u128) -> (r: i64)
    requires
        1 <= mult <= 1_200_000_000_000_000_000_000,
    ensures
        r == number_milli(chars@, mult as nat),
{
    let reading = match read_number(chars) {
        Some(reading) => reading,
        None => {
            return 0;
        },
    };
    if reading.plain {
        proof {
            assert(whole_part(chars@) + fraction_part(chars@) =~= whole_part(chars@));
        }
        let digits = lowest_first(&reading.digits);
        assert(digits@.skip(0) =~= digits@);
        if let Some(value) = value_from(&digits, 0) {
            if value <= i64::MAX as u128 || (reading.negative && value == i64::MAX as u128 + 1) {
                return exact_product(reading.negative, value, mult);
            }
        }
    }
    double_product(&reading, mult, Ghost(decimal_of(chars@)->0))
}

/// The first `n` of `chars`.
fn first_chars(chars: &Vec<char>, n: usize) -> (r: Vec<char>)
    requires
        n <= chars@.len(),
    ensures
        r@ == chars@.take(n as int),
{
    let mut r: Vec<char> = Vec::new();
    let mut i: usize = 0;
    while i < n
        invariant
            i <= n <= chars@.len(),
            r@ == chars@.take(i as int),
        decreases n - i,
    {
        r.push(chars[i]);
        assert(r@ =~= chars@.take(i + 1));
        i += 1;
    }
    r
}

/// Whether `chars` end with `suffix`.
fn has_suffix(chars: &Vec<char>, suffix: &str) -> (b: bool)
    ensures
        b == ends_with(chars@, suffix@),
{
    let end = chars_of(suffix);
    let n: usize = chars.len();
    let m: usize = end.len();
    if n < m {
        return false;
    }
    let mut i: usize = 0;
    while i < m
        invariant
            n == chars@.len(),
            m == end@.len(),
            end@ == suffix@,
            m <= n,
            i <= m,
            forall|j: int| 0 <= j < i ==> chars@[n - m + j] == end@[j],
        decreases m - i,
    {
        if chars[n - m + i] != end[i] {
            proof {
                assert(chars@.skip(n - m)[i as int] != suffix@[i as int]);
            }
            return false;
        }
        i += 1;
    }
    proof {
        assert(chars@.skip(n - m) =~= suffix@);
    }
    true
}

/// A resource quantity in thousandths: "500m" is 500, "1" is 1000, "1.5" is
/// 1500, "128Mi" is 128 * 1024 * 1024 * 1000. Whole numbers are exact; others
/// are taken in double precision and rounded to the nearest thousandth. 0
/// where `s` is empty or no quantity.
pub fn parse_quantity_milli(s: &str) -> (r: i64)
    ensures
        r == quantity_milli(s@),
{
    proof {
        reveal_strlit("m");
        reveal_strlit("Ki");
        reveal_strlit("Mi");
        reveal_strlit("Gi");
        reveal_strlit("Ti");
        reveal_strlit("Pi");
        reveal_strlit("Ei");
        reveal_strlit("k");
        reveal_strlit("M");
        reveal_strlit("G");
        reveal_strlit("T");
        reveal_strlit("P");
        reveal_strlit("E");
    }
    let chars = chars_of(s);
    let n: usize = chars.len();
    if n == 0 {
        return 0;
    }
    if has_suffix(&chars, "m") {
        parse_number_milli(&first_chars(&chars, n - 1), 1)
    } else if has_suffix(&chars, "Ki") {
        parse_number_milli(&first_chars(&chars, n - 2), 1_024_000)
    } else if has_suffix(&chars, "Mi") {
        parse_number_milli(&first_chars(&chars, n - 2), 1_048_576_000)
    } else if has_suffix(&chars, "Gi") {
        parse_number_milli(&first_chars(&chars, n - 2), 1_073_741_824_000)
    } else if has_suffix(&chars, "Ti") {
        parse_number_milli(&first_chars(&chars, n - 2), 1_099_511_627_776_000)
    } else if has_suffix(&chars, "Pi") {
        parse_number_milli(&first_chars(&chars, n - 2), 1_125_899_906_842_624_000)
    } else if has_suffix(&chars, "Ei") {
        parse_number_milli(&first_chars(&chars, n - 2), 1_152_921_504_606_846_976_000)
    } else if has_suffix(&chars, "k") {
        parse_number_milli(&first_chars(&chars, n - 1), 1_000_000)
    } else if has_suffix(&chars, "M") {
        parse_number_milli(&first_chars(&chars, n - 1), 1_000_000_000)
    } else if has_suffix(&chars, "G") {
        parse_number_milli(&first_chars(&chars, n - 1), 1_000_000_000_000)
    } else if has_suffix(&chars, "T") {
        parse_number_milli(&first_chars(&chars, n - 1), 1_000_000_000_000_000)
    } else if has_suffix(&chars, "P") {
        parse_number_milli(&first_chars(&chars, n - 1), 1_000_000_000_000_000_000)
    } else if has_suffix(&chars, "E") {
        parse_number_milli(&first_chars(&chars, n - 1), 1_000_000_000_000_000_000_000)
    } else {
        parse_number_milli(&chars, 1000)
    }
}

/// The number that a pod capacity `s` stands for: digits, with a plus sign
/// before them or not, and white space around them or not. 0 where it is no
/// such number or does not fit 32 bits.
pub open spec fn pod_capacity(s: Seq<char>) -> nat {
    let t = text::trim(s);
    let digits = if t.len() > 0 && t[0] == '+' {
        t.skip(1)
    } else {
        t
    };
    if digits.len() > 0 && text::all_digits(digits) && text::digits_value(digits) <= u32::MAX {
        text::digits_value(digits)
    } else {
        0
    }
}

/// Parse a pod count such as "110". 0 where it is absent or no count, which
/// stands for an unknown capacity.
pub fn parse_pod_capacity(s: &str) -> (r: u32)
    ensures
        r == pod_capacity(s@),
{
    let t = trimmed(s);
    let mut i: usize = 0;
    if t.len() > 0 && t[0] == '+' {
        i = 1;
    }
    let start: usize = i;
    let ghost digits = t@.skip(start as int);
    assert(start == 0 ==> digits =~= t@);
    if start == t.len() {
        return 0;
    }
    let mut value: u64 = 0;
    proof {
        assert(digits.take(0) =~= Seq::<char>::empty());
    }
    while i < t.len()
        invariant
            t@ == text::trim(s@),
            digits == t@.skip(start as int),
            (start == 1) == (t@.len() > 0 && t@[0] == '+'),
            start == 0 || start == 1,
            start == 0 ==> digits == t@,
            start <= i <= t@.len(),
            start < t@.len(),
            value <= u32::MAX as u64 + 1,
            forall|j: int| start <= j < i ==> text::is_digit(#[trigger] t@[j]),
            value <= u32::MAX ==> value == text::digits_value(digits.take(i - start)),
            value > u32::MAX ==> text::digits_value(digits.take(i - start)) > u32::MAX,
        decreases t@.len() - i,
    {
        let c: u32 = t[i] as u32;
        if c < 48 || c > 57 {
            proof {
                assert(!text::is_digit(digits[i - start]));
            }
            return 0;
        }
        proof {
            assert(digits.take(i + 1 - start).drop_last() =~= digits.take(i - start));
            assert(digits.take(i + 1 - start).last() == t@[i as int]);
        }
        let next: u64 = value * 10 + (c - 48) as u64;
        if next > u32::MAX as u64 {
            value = u32::MAX as u64 + 1;
        } else {
            value = next;
        }
        i += 1;
    }
    proof {
        assert(digits.take(i - start) =~= digits);
        assert forall|j: int| 0 <= j < digits.len() implies text::is_digit(#[trigger] digits[j]) by {
            assert(text::is_digit(t@[start + j]));
        }
    }
    if value > u32::MAX as u64 {
        0
    } else {
        value as u32
    }
}

proof fn lemma_digit_run_of_digits(s: Seq<char>)
    requires
        text::all_digits(s),
    ensures
        digit_run(s) == s.len(),
    decreases s.len(),
{
    if s.len() > 0 {
        let tail = s.drop_first();
        assert(text::is_digit(s[0]));
        assert forall|i: int| 0 <= i < tail.len() implies text::is_digit(#[trigger] tail[i]) by {
            assert(tail[i] == s[i + 1]);
        }
        lemma_digit_run_of_digits(tail);
    }
}

proof fn lemma_whole_number(s: Seq<char>, mult: nat)
    requires
        s.len() > 0,
        text::all_digits(s),
        mult >= 1,
    ensures
        text::digits_value(s) <= i64::MAX ==> number_milli(s, mult) == in_range_or_zero(
            false,
            text::digits_value(s) * mult,
        ),
        text::digits_value(s) > i64::MAX ==> number_milli(s, mult) == 0,
{
    assert(text::is_digit(s[0]));
    assert(unsigned(s) == s);
    lemma_digit_run_of_digits(s);
    assert(whole_part(s) =~= s);
    assert(after_whole(s) =~= Seq::empty());
    assert(whole_part(s) + fraction_part(s) =~= s);
    if text::digits_value(s) > i64::MAX {
        let d = decimal_of(s)->0;
        assert(double::pow2(11) == 2048) by {
            reveal_with_fuel(double::pow2, 12);
        }
        double::lemma_large(d.upper(), d.lower(), mult, 11);
    }
}

/// A number with a fraction comes out as the nearest whole number of
/// thousandths, give or take one part in `2^51`: within a half, and as long as
/// there are no more than `2^50` of them, within one. Up to `2^62` of them are
/// never too many.
pub proof fn law_fractions_are_close(s: Seq<char>, mult: nat)
    requires
        decimal_of(s) is Some,
        !is_whole(s),
        mult >= 1,
        ({
            let d = decimal_of(s)->0;
            d.upper() * mult <= 4_611_686_018_427_387_904 * d.lower()
        }),
    ensures
        ({
            let d = decimal_of(s)->0;
            let r = number_milli(s, mult);
            let size = if r < 0 {
                -r
            } else {
                r
            };
            let off = size * d.lower() - d.upper() * mult;
            &&& r != 0 ==> (r < 0) == d.negative
            &&& 2 * double::TWO_52 * off <= double::TWO_52 * d.lower() + 4 * (d.upper() * mult)
            &&& -(2 * double::TWO_52 * off) <= double::TWO_52 * d.lower() + 4 * (d.upper() * mult)
            &&& d.upper() * mult <= 1_125_899_906_842_624 * d.lower() ==> -d.lower() <= off
                <= d.lower()
        }),
{
    let d = decimal_of(s)->0;
    let b = d.lower();
    if d.scale > 0 {
        lemma_pow10_positive(d.scale as nat);
    }
    double::law_products_are_close(d.upper(), b, mult);
    let w = double::nearest(d.upper(), b).times(mult).whole();
    let x = d.upper() * mult;
    let wb = w * b;
    assert(9_007_199_254_740_992 * (wb - x) <= 4_503_599_627_370_496 * b + 4 * x);
    assert(x <= 4_611_686_018_427_387_904 * b);
    assert(wb <= 4_700_000_000_000_000_000 * b);
    assert(w <= 4_700_000_000_000_000_000) by (nonlinear_arith)
        requires
            w * b <= 4_700_000_000_000_000_000 * b,
            b > 0,
    ;
}

/// Whole numbers are read exactly: as many thousands of thousandths, or with
/// the suffix `m` as many thousandths, where that is an `i64`.
pub proof fn law_whole_quantities_are_exact(s: Seq<char>)
    requires
        s.len() > 0,
        text::all_digits(s),
    ensures
        text::digits_value(s) * 1000 <= i64::MAX ==> quantity_milli(s) == text::digits_value(s)
            * 1000,
        text::digits_value(s) * 1000 > i64::MAX ==> quantity_milli(s) == 0,
        text::digits_value(s) <= i64::MAX ==> quantity_milli(s + "m"@) == text::digits_value(s),
        text::digits_value(s) > i64::MAX ==> quantity_milli(s + "m"@) == 0,
{
    reveal_strlit("m");
    reveal_strlit("Ki");
    reveal_strlit("Mi");
    reveal_strlit("Gi");
    reveal_strlit("Ti");
    reveal_strlit("Pi");
    reveal_strlit("Ei");
    reveal_strlit("k");
    reveal_strlit("M");
    reveal_strlit("G");
    reveal_strlit("T");
    reveal_strlit("P");
    reveal_strlit("E");
    let last = s[s.len() - 1];
    assert(text::is_digit(last));
    assert forall|suffix: Seq<char>|
        suffix.len() > 0 && !text::is_digit(suffix.last()) implies !#[trigger] ends_with(
        s,
        suffix,
    ) by {
        if ends_with(s, suffix) {
            let end = s.skip(s.len() - suffix.len());
            assert(end[suffix.len() - 1] == last);
        }
    }
    assert("m"@.last() == 'm' && "k"@.last() == 'k' && "M"@.last() == 'M');
    assert("G"@.last() == 'G' && "T"@.last() == 'T' && "P"@.last() == 'P' && "E"@.last() == 'E');
    assert("Ki"@.last() == 'i' && "Mi"@.last() == 'i' && "Gi"@.last() == 'i');
    assert("Ti"@.last() == 'i' && "Pi"@.last() == 'i' && "Ei"@.last() == 'i');
    lemma_whole_number(s, 1000);
    let t = s + "m"@;
    assert(t.skip(t.len() - 1) =~= "m"@);
    assert(ends_with(t, "m"@));
    assert(without_last(t, 1) =~= s);
    lemma_whole_number(s, 1);
}

proof fn lemma_own_suffix(s: Seq<char>, suffix: Seq<char>)
    ensures
        ends_with(s + suffix, suffix),
        without_last(s + suffix, suffix.len() as int) == s,
{
    let t = s + suffix;
    assert(t.skip(t.len() - suffix.len()) =~= suffix);
    assert(without_last(t, suffix.len() as int) =~= s);
}

/// A text whose last characters differ from a suffix does not end with it.
proof fn lemma_other_suffix(t: Seq<char>, suffix: Seq<char>, k: int)
    requires
        0 < k <= suffix.len(),
        t.len() < k || t[t.len() - k] != suffix[suffix.len() - k],
    ensures
        !ends_with(t, suffix),
{
    if ends_with(t, suffix) {
        let end = t.skip(t.len() - suffix.len());
        assert(end[suffix.len() - k] == t[t.len() - k]);
    }
}

proof fn lemma_scaled(s: Seq<char>, mult: nat)
    requires
        s.len() > 0,
        text::all_digits(s),
        mult >= 1,
    ensures
        text::digits_value(s) * mult <= i64::MAX ==> number_milli(s, mult) == text::digits_value(s)
            * mult,
        text::digits_value(s) * mult > i64::MAX ==> number_milli(s, mult) == 0,
{
    lemma_whole_number(s, mult);
    let v = text::digits_value(s);
    assert(v <= v * mult) by (nonlinear_arith)
        requires
            mult >= 1,
    ;
}

/// A whole number with a suffix is as many times the suffix: `Ki`, `Mi`, `Gi`,
/// `Ti` and `Pi` are the powers of 1024, and `k`, `M`, `G`, `T` and `P` those
/// of 1000, each in thousandths. What is no `i64` counts as nothing.
pub proof fn law_suffixes_scale(s: Seq<char>)
    requires
        s.len() > 0,
        text::all_digits(s),
    ensures
        ({
            let v = text::digits_value(s) as int;
            let read = |q: int, n: int| q == if n <= i64::MAX {
                n
            } else {
                0
            };
            &&& read(quantity_milli(s + "m"@), v)
            &&& read(quantity_milli(s + "Ki"@), v * (1024 * 1000))
            &&& read(quantity_milli(s + "Mi"@), v * (1024 * 1024 * 1000))
            &&& read(quantity_milli(s + "Gi"@), v * (1024 * 1024 * 1024 * 1000))
            &&& read(quantity_milli(s + "Ti"@), v * (1024 * 1024 * 1024 * 1024 * 1000))
            &&& read(quantity_milli(s + "Pi"@), v * (1024 * 1024 * 1024 * 1024 * 1024 * 1000))
            &&& read(quantity_milli(s + "k"@), v * (1000 * 1000))
            &&& read(quantity_milli(s + "M"@), v * (1000 * 1000 * 1000))
            &&& read(quantity_milli(s + "G"@), v * (1000 * 1000 * 1000 * 1000))
            &&& read(quantity_milli(s + "T"@), v * (1000 * 1000 * 1000 * 1000 * 1000))
            &&& read(quantity_milli(s + "P"@), v * (1000 * 1000 * 1000 * 1000 * 1000 * 1000))
            &&& read(quantity_milli(s), v * 1000)
        }),
{
    law_whole_quantities_are_exact(s);
    lemma_binary_suffixes(s);
    lemma_decimal_suffixes(s);
}

proof fn lemma_strings()
    ensures
        "m"@ == seq!['m'],
        "Ki"@ == seq!['K', 'i'],
        "Mi"@ == seq!['M', 'i'],
        "Gi"@ == seq!['G', 'i'],
        "Ti"@ == seq!['T', 'i'],
        "Pi"@ == seq!['P', 'i'],
        "Ei"@ == seq!['E', 'i'],
        "k"@ == seq!['k'],
        "M"@ == seq!['M'],
        "G"@ == seq!['G'],
        "T"@ == seq!['T'],
        "P"@ == seq!['P'],
        "E"@ == seq!['E'],
{
    reveal_strlit("m");
    reveal_strlit("Ki");
    reveal_strlit("Mi");
    reveal_strlit("Gi");
    reveal_strlit("Ti");
    reveal_strlit("Pi");
    reveal_strlit("Ei");
    reveal_strlit("k");
    reveal_strlit("M");
    reveal_strlit("G");
    reveal_strlit("T");
    reveal_strlit("P");
    reveal_strlit("E");
    assert("m"@ =~= seq!['m']);
    assert("Ki"@ =~= seq!['K', 'i']);
    assert("Mi"@ =~= seq!['M', 'i']);
    assert("Gi"@ =~= seq!['G', 'i']);
    assert("Ti"@ =~= seq!['T', 'i']);
    assert("Pi"@ =~= seq!['P', 'i']);
    assert("Ei"@ =~= seq!['E', 'i']);
    assert("k"@ =~= seq!['k']);
    assert("M"@ =~= seq!['M']);
    assert("G"@ =~= seq!['G']);
    assert("T"@ =~= seq!['T']);
    assert("P"@ =~= seq!['P']);
    assert("E"@ =~= seq!['E']);
}

#[verifier::spinoff_prover]
#[verifier::rlimit(50)]
proof fn lemma_binary(s: Seq<char>, c: char)
    requires
        s.len() > 0,
        c == 'K' || c == 'M' || c == 'G' || c == 'T' || c == 'P',
    ensures
        quantity_milli(s + seq![c, 'i']) == number_milli(
            s,
            if c == 'K' {
                1_024_000
            } else if c == 'M' {
                1_048_576_000
            } else if c == 'G' {
                1_073_741_824_000
            } else if c == 'T' {
                1_099_511_627_776_000
            } else {
                1_125_899_906_842_624_000
            },
        ),
{
    lemma_strings();
    let t = s + seq![c, 'i'];
    lemma_own_suffix(s, seq![c, 'i']);
    assert(t[t.len() - 1] == 'i' && t[t.len() - 2] == c);
    lemma_other_suffix(t, "m"@, 1);
    if c != 'K' {
        lemma_other_suffix(t, "Ki"@, 2);
    }
    if c != 'M' {
        lemma_other_suffix(t, "Mi"@, 2);
    }
    if c != 'G' {
        lemma_other_suffix(t, "Gi"@, 2);
    }
    if c != 'T' {
        lemma_other_suffix(t, "Ti"@, 2);
    }
    if c != 'P' {
        lemma_other_suffix(t, "Pi"@, 2);
    }
}

#[verifier::spinoff_prover]
#[verifier::rlimit(50)]
proof fn lemma_decimal(s: Seq<char>, c: char)
    requires
        s.len() > 0,
        c == 'k' || c == 'M' || c == 'G' || c == 'T' || c == 'P',
    ensures
        quantity_milli(s + seq![c]) == number_milli(
            s,
            if c == 'k' {
                1_000_000
            } else if c == 'M' {
                1_000_000_000
            } else if c == 'G' {
                1_000_000_000_000
            } else if c == 'T' {
                1_000_000_000_000_000
            } else {
                1_000_000_000_000_000_000
            },
        ),
{
    lemma_strings();
    let t = s + seq![c];
    lemma_own_suffix(s, seq![c]);
    assert(t[t.len() - 1] == c);
    lemma_other_suffix(t, "m"@, 1);
    lemma_other_suffix(t, "Ki"@, 1);
    lemma_other_suffix(t, "Mi"@, 1);
    lemma_other_suffix(t, "Gi"@, 1);
    lemma_other_suffix(t, "Ti"@, 1);
    lemma_other_suffix(t, "Pi"@, 1);
    lemma_other_suffix(t, "Ei"@, 1);
    if c != 'k' {
        lemma_other_suffix(t, "k"@, 1);
    }
    if c != 'M' {
        lemma_other_suffix(t, "M"@, 1);
    }
    if c != 'G' {
        lemma_other_suffix(t, "G"@, 1);
    }
    if c != 'T' {
        lemma_other_suffix(t, "T"@, 1);
    }
}

proof fn lemma_binary_suffixes(s: Seq<char>)
    requires
        s.len() > 0,
        text::all_digits(s),
    ensures
        quantity_milli(s + "Ki"@) == number_milli(s, 1_024_000),
        quantity_milli(s + "Mi"@) == number_milli(s, 1_048_576_000),
        quantity_milli(s + "Gi"@) == number_milli(s, 1_073_741_824_000),
        quantity_milli(s + "Ti"@) == number_milli(s, 1_099_511_627_776_000),
        quantity_milli(s + "Pi"@) == number_milli(s, 1_125_899_906_842_624_000),
        forall|mult: nat|
            mult >= 1 ==> #[trigger] number_milli(s, mult) == if text::digits_value(s) * mult
                <= i64::MAX {
                text::digits_value(s) * mult
            } else {
                0
            },
{
    lemma_strings();
    lemma_binary(s, 'K');
    lemma_binary(s, 'M');
    lemma_binary(s, 'G');
    lemma_binary(s, 'T');
    lemma_binary(s, 'P');
    assert forall|mult: nat| mult >= 1 implies #[trigger] number_milli(s, mult) == (
    if text::digits_value(s) * mult <= i64::MAX {
        text::digits_value(s) * mult
    } else {
        0
    }) by {
        lemma_scaled(s, mult);
    }
}

proof fn lemma_decimal_suffixes(s: Seq<char>)
    requires
        s.len() > 0,
        text::all_digits(s),
    ensures
        quantity_milli(s + "k"@) == number_milli(s, 1_000_000),
        quantity_milli(s + "M"@) == number_milli(s, 1_000_000_000),
        quantity_milli(s + "G"@) == number_milli(s, 1_000_000_000_000),
        quantity_milli(s + "T"@) == number_milli(s, 1_000_000_000_000_000),
        quantity_milli(s + "P"@) == number_milli(s, 1_000_000_000_000_000_000),
{
    lemma_strings();
    lemma_decimal(s, 'k');
    lemma_decimal(s, 'M');
    lemma_decimal(s, 'G');
    lemma_decimal(s, 'T');
    lemma_decimal(s, 'P');
}

proof fn lemma_digit_run_before(a: Seq<char>, rest: Seq<char>)
    requires
        text::all_digits(a),
        rest.len() == 0 || !text::is_digit(rest[0]),
    ensures
        digit_run(a + rest) == a.len(),
    decreases a.len(),
{
    let s = a + rest;
    if a.len() > 0 {
        let tail = a.drop_first();
        assert(text::is_digit(a[0]));
        assert(s[0] == a[0]);
        assert(s.drop_first() =~= tail + rest);
        assert forall|i: int| 0 <= i < tail.len() implies text::is_digit(#[trigger] tail[i]) by {
            assert(tail[i] == a[i + 1]);
        }
        lemma_digit_run_before(tail, rest);
    } else {
        assert(s =~= rest);
    }
}

/// Digits with a point among them are the number that the digits write without
/// it, divided by ten for each of them that stands behind it.
pub proof fn law_point_divides_by_tens(a: Seq<char>, b: Seq<char>)
    requires
        text::all_digits(a),
        text::all_digits(b),
        a.len() + b.len() > 0,
    ensures
        ({
            let s = a + seq!['.'] + b;
            &&& decimal_of(s) is Some
            &&& !decimal_of(s)->0.negative
            &&& decimal_of(s)->0.upper() == text::digits_value(a + b)
            &&& decimal_of(s)->0.lower() == pow10(b.len())
            &&& !is_whole(s)
        }),
{
    let s = a + seq!['.'] + b;
    let rest = seq!['.'] + b;
    assert(s =~= a + rest);
    if a.len() > 0 {
        assert(text::is_digit(a[0]));
        assert(s[0] == a[0]);
    } else {
        assert(s[0] == '.');
    }
    assert(unsigned(s) == s);
    assert(rest[0] == '.');
    lemma_digit_run_before(a, rest);
    assert(whole_part(s) =~= a);
    assert(after_whole(s) =~= rest);
    assert(rest.skip(1) =~= b);
    lemma_digit_run_of_digits(b);
    assert(fraction_part(s) =~= b);
    assert(after_fraction(s) =~= Seq::empty());
}

/// A minus sign negates a whole number.
pub proof fn law_sign_negates(s: Seq<char>)
    requires
        s.len() > 0,
        text::all_digits(s),
        text::digits_value(s) * 1000 <= i64::MAX,
    ensures
        quantity_milli(seq!['-'] + s) == -quantity_milli(s),
        quantity_milli(seq!['+'] + s) == quantity_milli(s),
{
    law_whole_quantities_are_exact(s);
    lemma_strings();
    lemma_signed(s, '-');
    lemma_signed(s, '+');
}

#[verifier::spinoff_prover]
#[verifier::rlimit(50)]
proof fn lemma_signed(s: Seq<char>, c: char)
    requires
        c == '-' || c == '+',
        s.len() > 0,
        text::all_digits(s),
        text::digits_value(s) * 1000 <= i64::MAX,
    ensures
        quantity_milli(seq![c] + s) == if c == '-' {
            -(text::digits_value(s) * 1000)
        } else {
            (text::digits_value(s) * 1000) as int
        },
{
    let t = seq![c] + s;
    assert(t[0] == c);
    assert(t.skip(1) =~= s);
    assert(unsigned(t) == s);
    lemma_digit_run_of_digits(s);
    assert(whole_part(t) =~= s);
    assert(after_whole(t) =~= Seq::empty());
    assert(is_whole(t));
    let last = t[t.len() - 1];
    assert(last == s[s.len() - 1]);
    assert(text::is_digit(s[s.len() - 1]));
    lemma_strings();
    lemma_other_suffix(t, "m"@, 1);
    lemma_other_suffix(t, "Ki"@, 1);
    lemma_other_suffix(t, "Mi"@, 1);
    lemma_other_suffix(t, "Gi"@, 1);
    lemma_other_suffix(t, "Ti"@, 1);
    lemma_other_suffix(t, "Pi"@, 1);
    lemma_other_suffix(t, "Ei"@, 1);
    lemma_other_suffix(t, "k"@, 1);
    lemma_other_suffix(t, "M"@, 1);
    lemma_other_suffix(t, "G"@, 1);
    lemma_other_suffix(t, "T"@, 1);
    lemma_other_suffix(t, "P"@, 1);
    lemma_other_suffix(t, "E"@, 1);
}

/// A pod capacity that is written in digits is that number where 32 bits hold
/// it, and unknown otherwise; the empty text is unknown too.
pub proof fn law_pod_capacity_is_the_number(s: Seq<char>)
    requires
        s.len() > 0,
        text::all_digits(s),
    ensures
        text::digits_value(s) <= u32::MAX ==> pod_capacity(s) == text::digits_value(s),
        text::digits_value(s) > u32::MAX ==> pod_capacity(s) == 0,
        pod_capacity(Seq::empty()) == 0,
{
    assert(text::is_digit(s[0]) && text::is_digit(s[s.len() - 1]));
    text::law_trimming_takes_white_space_alone(s);
    assert(text::trim(s) == s);
    assert(text::trim(Seq::<char>::empty()) =~= Seq::empty());
}

/// Digits with an exponent are the number that the digits write, times ten as
/// often as the exponent says; with a minus sign before it, divided by ten.
pub proof fn law_exponent_counts_tens(a: Seq<char>, b: Seq<char>)
    requires
        text::all_digits(a),
        text::all_digits(b),
        a.len() > 0,
        b.len() > 0,
    ensures
        ({
            let up = decimal_of(a + seq!['e'] + b);
            let down = decimal_of(a + seq!['e', '-'] + b);
            let n = text::digits_value(b);
            &&& up is Some && down is Some
            &&& up->0.upper() == text::digits_value(a) * pow10(n)
            &&& up->0.lower() == 1
            &&& down->0.upper() == text::digits_value(a)
            &&& down->0.lower() == pow10(n)
            &&& !is_whole(a + seq!['e'] + b) && !is_whole(a + seq!['e', '-'] + b)
        }),
{
    lemma_exponent(a, seq!['e'] + b);
    lemma_exponent(a, seq!['e', '-'] + b);
    assert(a + seq!['e'] + b =~= a + (seq!['e'] + b));
    assert(a + seq!['e', '-'] + b =~= a + (seq!['e', '-'] + b));
    let n = text::digits_value(b);
    let up = seq!['e'] + b;
    assert(up.skip(1) =~= b);
    assert(text::is_digit(b[0]));
    assert(unsigned(b) == b);
    assert(exponent_of(up) == Some(n as int));
    let down = seq!['e', '-'] + b;
    let signed = down.skip(1);
    assert(signed =~= seq!['-'] + b);
    assert(signed[0] == '-');
    assert(signed.skip(1) =~= b);
    assert(unsigned(signed) == b);
    assert(exponent_of(down) == Some(-(n as int)));
    let v = text::digits_value(a);
    assert(v * pow10(0) == v) by (nonlinear_arith)
        requires
            pow10(0) == 1,
    ;
}

proof fn lemma_exponent(a: Seq<char>, tail: Seq<char>)
    requires
        text::all_digits(a),
        a.len() > 0,
        tail.len() > 0,
        tail[0] == 'e',
    ensures
        ({
            let s = a + tail;
            &&& !is_negated(s)
            &&& whole_part(s) == a
            &&& fraction_part(s) == Seq::<char>::empty()
            &&& after_fraction(s) == tail
            &&& after_whole(s) == tail
            &&& whole_part(s) + fraction_part(s) == a
        }),
{
    let s = a + tail;
    assert(text::is_digit(a[0]));
    assert(s[0] == a[0]);
    assert(unsigned(s) == s);
    lemma_digit_run_before(a, tail);
    assert(whole_part(s) =~= a);
    assert(after_whole(s) =~= tail);
    assert(whole_part(s) + fraction_part(s) =~= a);
}

} // verus!

//! Reading and writing text.

use vstd::prelude::*;
use vstd::string::*;

verus! {

/// `String::push` puts `c` behind the characters that were there.
pub assume_specification[ String::push ](s: &mut String, c: char)
    ensures
        final(s)@ == old(s)@.push(c),
;

/// The characters of `s`.
pub fn chars_of(s: &str) -> (chars: Vec<char>)
    ensures
        chars@ == s@,
{
    let mut chars: Vec<char> = Vec::new();
    for c in it: s.chars()
        invariant
            chars@ == it.seq().take(it.index() as int),
            it.seq() == s@,
    {
        chars.push(c);
    }
    chars
}

/// The digit for `d` in bases up to 16.
pub open spec fn digit_char(d: nat) -> char {
    if d < 10 {
        (48 + d) as char
    } else {
        (87 + d) as char
    }
}

/// `n` written in `base`, without leading zeros.
pub open spec fn numeral(n: nat, base: nat) -> Seq<char>
    decreases n,
{
    if n < base || base < 2 {
        seq![digit_char(n)]
    } else {
        proof {
            assert(n / base < n) by (nonlinear_arith)
                requires
                    2 <= base <= n,
            ;
        }
        numeral(n / base, base).push(digit_char(n % base))
    }
}

/// A numeral has one value.
pub proof fn law_numerals_are_distinct(a: nat, b: nat, base: nat)
    requires
        2 <= base <= 16,
        numeral(a, base) == numeral(b, base),
    ensures
        a == b,
    decreases a,
{
    let s = numeral(a, base);
    let t = numeral(b, base);
    if a < base && b < base {
        assert(s[0] == digit_char(a) && t[0] == digit_char(b));
    } else if a >= base && b >= base {
        assert(a / base < a) by (nonlinear_arith)
            requires
                2 <= base <= a,
        ;
        let front = numeral(a / base, base);
        assert(s == front.push(digit_char(a % base)));
        assert(t == numeral(b / base, base).push(digit_char(b % base)));
        assert(s.drop_last() =~= front);
        assert(t.drop_last() =~= numeral(b / base, base));
        assert(s.last() == digit_char(a % base) && t.last() == digit_char(b % base));
        law_numerals_are_distinct(a / base, b / base, base);
        assert(a % base < base && b % base < base) by (nonlinear_arith)
            requires
                2 <= base,
        ;
        assert(a == base * (a / base) + a % base && b == base * (b / base) + b % base)
            by (nonlinear_arith)
            requires
                2 <= base,
        ;
    } else if a < base {
        lemma_numeral_length(b / base, base);
        assert(s.len() == 1 && t.len() > 1);
    } else {
        lemma_numeral_length(a / base, base);
        assert(t.len() == 1 && s.len() > 1);
    }
}

proof fn lemma_numeral_length(n: nat, base: nat)
    ensures
        numeral(n, base).len() >= 1,
{
}

/// Write `n` in `base`.
pub fn write_numeral(n: u128, base: u128) -> (s: String)
    requires
        2 <= base <= 16,
    ensures
        s@ == numeral(n as nat, base as nat),
    decreases n,
{
    if n < base {
        let mut s = String::new();
        s.push(write_digit(n));
        assert(s@ =~= seq![digit_char(n as nat)]);
        s
    } else {
        proof {
            assert(n / base < n) by (nonlinear_arith)
                requires
                    2 <= base <= n,
            ;
        }
        let mut s = write_numeral(n / base, base);
        s.push(write_digit(n % base));
        s
    }
}

fn write_digit(d: u128) -> (c: char)
    requires
        d < 16,
    ensures
        c == digit_char(d as nat),
{
    if d < 10 {
        (48 + d as u8) as char
    } else {
        (87 + d as u8) as char
    }
}

/// `n` in decimal, filled up with zeros on the left to `width` characters.
pub open spec fn padded(n: nat, width: nat) -> Seq<char> {
    let digits = numeral(n, 10);
    if digits.len() < width {
        Seq::new((width - digits.len()) as nat, |i: int| '0') + digits
    } else {
        digits
    }
}

/// Write `n` in decimal with at least `width` characters.
pub fn write_padded(n: u128, width: usize) -> (s: String)
    ensures
        s@ == padded(n as nat, width as nat),
{
    let digits = write_numeral(n, 10);
    let len: usize = digits.as_str().unicode_len();
    let mut s = String::new();
    let mut i: usize = len;
    while i < width
        invariant
            len == digits@.len(),
            len <= i,
            i <= width || i == len,
            s@ == Seq::new((i - len) as nat, |i: int| '0'),
        decreases width - i,
    {
        s.push('0');
        assert(s@ =~= Seq::new((i + 1 - len) as nat, |i: int| '0'));
        i += 1;
    }
    s.append(digits.as_str());
    assert(s@ =~= padded(n as nat, width as nat));
    s
}

/// `needle` occurs in `text` at position `i`.
pub open spec fn occurs_at(text: Seq<char>, needle: Seq<char>, i: int) -> bool {
    &&& 0 <= i
    &&& i + needle.len() <= text.len()
    &&& text.subrange(i, i + needle.len()) == needle
}

/// `needle` occurs in `text`.
pub open spec fn occurs(text: Seq<char>, needle: Seq<char>) -> bool {
    exists|i: int| occurs_at(text, needle, i)
}

/// Whether `needle` occurs in `text`.
pub fn contains_text(text: &str, needle: &str) -> (found: bool)
    ensures
        found == occurs(text@, needle@),
{
    let hay = chars_of(text);
    let pin = chars_of(needle);
    if pin.len() > hay.len() {
        return false;
    }
    let last: usize = hay.len() - pin.len();
    let mut i: usize = 0;
    while i <= last
        invariant
            hay@ == text@,
            pin@ == needle@,
            last + pin@.len() == hay@.len() <= usize::MAX,
            i <= last + 1,
            forall|j: int| 0 <= j < i ==> !occurs_at(text@, needle@, j),
        decreases last + 1 - i,
    {
        let mut k: usize = 0;
        while k < pin.len() && hay[i + k] == pin[k]
            invariant
                i <= last,
                last + pin@.len() == hay@.len() <= usize::MAX,
                k <= pin@.len(),
                forall|j: int| 0 <= j < k ==> hay@[i + j] == pin@[j],
            decreases pin@.len() - k,
        {
            k += 1;
        }
        if k == pin.len() {
            proof {
                assert(text@.subrange(i as int, i + needle@.len()) =~= needle@);
                assert(occurs_at(text@, needle@, i as int));
            }
            return true;
        }
        proof {
            if occurs_at(text@, needle@, i as int) {
                assert(text@.subrange(i as int, i + needle@.len())[k as int] == hay@[i + k]);
            }
        }
        if i == last {
            return false;
        }
        i += 1;
    }
    false
}

/// The characters with the Unicode property White_Space.
pub open spec fn is_white_space(c: char) -> bool {
    ||| 9 <= c as u32 <= 13
    ||| c as u32 == 32
    ||| c as u32 == 133
    ||| c as u32 == 160
    ||| c as u32 == 5760
    ||| 8192 <= c as u32 <= 8202
    ||| c as u32 == 8232
    ||| c as u32 == 8233
    ||| c as u32 == 8239
    ||| c as u32 == 8287
    ||| c as u32 == 12288
}

fn white_space(c: char) -> (b: bool)
    ensures
        b == is_white_space(c),
{
    let n: u32 = c as u32;
    (9 <= n && n <= 13) || n == 32 || n == 133 || n == 160 || n == 5760 || (8192 <= n && n
        <= 8202) || n == 8232 || n == 8233 || n == 8239 || n == 8287 || n == 12288
}

/// `s` without the white space at its start.
pub open spec fn trim_start(s: Seq<char>) -> Seq<char>
    decreases s.len(),
{
    if s.len() > 0 && is_white_space(s[0]) {
        trim_start(s.drop_first())
    } else {
        s
    }
}

/// `s` without the white space at its end.
pub open spec fn trim_end(s: Seq<char>) -> Seq<char>
    decreases s.len(),
{
    if s.len() > 0 && is_white_space(s.last()) {
        trim_end(s.drop_last())
    } else {
        s
    }
}

/// `s` without the white space at either end.
pub open spec fn trim(s: Seq<char>) -> Seq<char> {
    trim_end(trim_start(s))
}

/// The characters of `s` without the white space at either end.
pub fn trimmed(s: &str) -> (chars: Vec<char>)
    ensures
        chars@ == trim(s@),
{
    let all = chars_of(s);
    let n: usize = all.len();
    let mut lo: usize = 0;
    assert(all@.subrange(0, n as int) =~= all@);
    while lo < n && white_space(all[lo])
        invariant
            n == all@.len(),
            lo <= n,
            trim_start(all@) == trim_start(all@.subrange(lo as int, n as int)),
        decreases n - lo,
    {
        assert(all@.subrange(lo as int, n as int).drop_first() =~= all@.subrange(
            lo + 1,
            n as int,
        ));
        lo += 1;
    }
    let ghost body = trim_start(all@);
    assert(body == all@.subrange(lo as int, n as int));
    let mut hi: usize = n;
    while lo < hi && white_space(all[hi - 1])
        invariant
            n == all@.len(),
            lo <= hi <= n,
            trim_end(body) == trim_end(all@.subrange(lo as int, hi as int)),
        decreases hi - lo,
    {
        assert(all@.subrange(lo as int, hi as int).drop_last() =~= all@.subrange(
            lo as int,
            hi - 1,
        ));
        hi -= 1;
    }
    let mut chars: Vec<char> = Vec::new();
    let mut i: usize = lo;
    while i < hi
        invariant
            n == all@.len(),
            lo <= i <= hi <= n,
            chars@ == all@.subrange(lo as int, i as int),
        decreases hi - i,
    {
        chars.push(all[i]);
        assert(chars@ =~= all@.subrange(lo as int, i + 1));
        i += 1;
    }
    chars
}

/// The upper case of an ASCII letter; any other character as it is.
pub open spec fn upper(c: char) -> char {
    if 97 <= c as u32 <= 122 {
        ((c as u32) - 32) as char
    } else {
        c
    }
}

/// `s` with each ASCII letter in upper case.
pub open spec fn uppercase(s: Seq<char>) -> Seq<char> {
    s.map_values(|c: char| upper(c))
}

/// Write `s` with each ASCII letter in upper case.
pub fn to_uppercase(s: &str) -> (r: String)
    ensures
        r@ == uppercase(s@),
{
    let chars = chars_of(s);
    let mut r = String::new();
    let mut i: usize = 0;
    while i < chars.len()
        invariant
            chars@ == s@,
            i <= chars@.len(),
            r@ == uppercase(s@.take(i as int)),
        decreases chars@.len() - i,
    {
        let c = chars[i];
        let n: u32 = c as u32;
        if 97 <= n && n <= 122 {
            r.push((n as u8 - 32) as char);
        } else {
            r.push(c);
        }
        assert(r@ =~= uppercase(s@.take(i + 1)));
        i += 1;
    }
    assert(s@.take(i as int) =~= s@);
    r
}

/// The value of a string of decimal digits.
pub open spec fn digits_value(digits: Seq<char>) -> nat
    decreases digits.len(),
{
    if digits.len() == 0 {
        0
    } else {
        digits_value(digits.drop_last()) * 10 + digit_value(digits.last())
    }
}

/// The value of a decimal digit.
pub open spec fn digit_value(c: char) -> nat {
    (c as u32 - 48) as nat
}

/// A decimal digit.
pub open spec fn is_digit(c: char) -> bool {
    48 <= c as u32 <= 57
}

/// Decimal digits only.
pub open spec fn all_digits(s: Seq<char>) -> bool {
    forall|i: int| 0 <= i < s.len() ==> is_digit(#[trigger] s[i])
}

/// A number that is written in decimal reads back as the same number.
pub proof fn law_numerals_read_back(n: nat)
    ensures
        all_digits(numeral(n, 10)),
        numeral(n, 10).len() > 0,
        digits_value(numeral(n, 10)) == n,
    decreases n,
{
    let s = numeral(n, 10);
    if n < 10 {
        assert(s.drop_last() =~= Seq::<char>::empty());
        assert(s.last() == digit_char(n));
        assert(digits_value(s.drop_last()) == 0);
        assert forall|i: int| 0 <= i < s.len() implies is_digit(#[trigger] s[i]) by {
            assert(s[i] == digit_char(n));
        }
    } else {
        law_numerals_read_back(n / 10);
        let front = numeral(n / 10, 10);
        assert(s == front.push(digit_char(n % 10)));
        assert(s.drop_last() =~= front);
        assert forall|i: int| 0 <= i < s.len() implies is_digit(#[trigger] s[i]) by {
            if i < front.len() {
                assert(s[i] == front[i]);
            }
        }
    }
}

/// A text is found inside another wherever it stands there, and only then.
pub proof fn law_text_is_found_where_it_stands(
    before: Seq<char>,
    needle: Seq<char>,
    after: Seq<char>,
)
    ensures
        occurs(before + needle + after, needle),
        needle.len() > before.len() ==> !occurs(before, needle),
{
    let all = before + needle + after;
    assert(all.subrange(before.len() as int, (before.len() + needle.len()) as int) =~= needle);
    assert(occurs_at(all, needle, before.len() as int));
}

/// White space at the ends does not matter, and the rest is left as it is.
pub proof fn law_trimming_takes_white_space_alone(s: Seq<char>)
    ensures
        s.len() > 0 && !is_white_space(s[0]) && !is_white_space(s.last()) ==> trim(s) == s,
        trim(seq![' '] + s) == trim(s),
        s.len() > 0 && !is_white_space(s[0]) ==> trim(s.push(' ')) == trim(s),
{
    let t = seq![' '] + s;
    assert(t[0] == ' ');
    assert(t.drop_first() =~= s);
    if s.len() > 0 && !is_white_space(s[0]) {
        let u = s.push(' ');
        assert(u[0] == s[0]);
        assert(trim_start(u) == u);
        assert(u.last() == ' ');
        assert(u.drop_last() =~= s);
    }
}

/// Letters from `a` to `z` become those from `A` to `Z`, one for one.
pub proof fn law_upper_case(s: Seq<char>, i: int)
    requires
        0 <= i < s.len(),
    ensures
        uppercase(s).len() == s.len(),
        97 <= s[i] as u32 <= 122 ==> uppercase(s)[i] as u32 == s[i] as u32 - 32,
        !(97 <= s[i] as u32 <= 122) ==> uppercase(s)[i] == s[i],
        uppercase(uppercase(s)) == uppercase(s),
{
    assert(uppercase(uppercase(s)) =~= uppercase(s));
}

proof fn lemma_leading_zeros(zeros: nat, digits: Seq<char>)
    requires
        all_digits(digits),
    ensures
        digits_value(Seq::new(zeros, |i: int| '0') + digits) == digits_value(digits),
        all_digits(Seq::new(zeros, |i: int| '0') + digits),
    decreases zeros + digits.len(),
{
    let start = Seq::new(zeros, |i: int| '0');
    let all = start + digits;
    assert forall|i: int| 0 <= i < all.len() implies is_digit(#[trigger] all[i]) by {
        if i >= zeros {
            assert(all[i] == digits[i - zeros]);
        }
    }
    if digits.len() > 0 {
        let front = digits.drop_last();
        assert forall|i: int| 0 <= i < front.len() implies is_digit(#[trigger] front[i]) by {
            assert(front[i] == digits[i]);
        }
        lemma_leading_zeros(zeros, front);
        assert(all.drop_last() =~= start + front);
        assert(all.last() == digits.last());
    } else if zeros > 0 {
        let less = Seq::new((zeros - 1) as nat, |i: int| '0');
        lemma_leading_zeros((zeros - 1) as nat, digits);
        assert(all.drop_last() =~= less + digits);
        assert(all.last() == '0');
        assert(digits =~= Seq::<char>::empty());
    } else {
        assert(all =~= digits);
    }
}

/// A number that is padded to a width has at least that many characters, and
/// reads back as the same number.
pub proof fn law_padding_keeps_the_number(n: nat, width: nat)
    ensures
        padded(n, width).len() >= width,
        all_digits(padded(n, width)),
        digits_value(padded(n, width)) == n,
{
    let digits = numeral(n, 10);
    law_numerals_read_back(n);
    if digits.len() < width {
        lemma_leading_zeros((width - digits.len()) as nat, digits);
    }
}

} // verus!

//! Numbers as text.
use vstd::prelude::*;

verus! {

/// `String::push` appends the character and changes nothing else.
pub assume_specification[ String::push ](s: &mut String, c: char)
    ensures
        final(s)@ == old(s)@.push(c),
;

/// The character that stands for the digit `d`, in lower case.
pub open spec fn digit_char(d: nat) -> char {
    if d < 10 {
        (48 + d) as char
    } else {
        (87 + d) as char
    }
}

/// The number that the character `c` stands for.
pub open spec fn digit_value(c: char) -> nat {
    if c as nat >= 97 {
        (c as int - 87) as nat
    } else {
        (c as int - 48) as nat
    }
}

/// `n` written out in `base`, without leading zeros.
pub open spec fn digits(n: nat, base: nat) -> Seq<char>
    decreases n,
{
    if base < 2 || n < base {
        seq![digit_char(n)]
    } else {
        proof {
            assert(n / base < n) by (nonlinear_arith)
                requires
                    n >= base,
                    base >= 2,
            ;
        }
        digits(n / base, base).push(digit_char(n % base))
    }
}

/// `s` with as many zeros in front as it takes to reach `width`.
pub open spec fn padded(s: Seq<char>, width: nat) -> Seq<char> {
    if s.len() >= width {
        s
    } else {
        Seq::new((width - s.len()) as nat, |i: int| '0') + s
    }
}

/// The number that `s` writes out in `base`.
pub open spec fn value_of(s: Seq<char>, base: nat) -> nat
    decreases s.len(),
{
    if s.len() == 0 {
        0
    } else {
        value_of(s.drop_last(), base) * base + digit_value(s.last())
    }
}

/// A signed number in base ten.
pub open spec fn decimal(n: int) -> Seq<char> {
    if n < 0 {
        seq!['-'] + digits((-n) as nat, 10)
    } else {
        digits(n as nat, 10)
    }
}

/// Reading a number back gives what was written.
pub proof fn lemma_value_of_digits(n: nat, base: nat)
    requires
        2 <= base <= 16,
    ensures
        value_of(digits(n, base), base) == n,
    decreases n,
{
    if n < base {
        let s = digits(n, base);
        assert(s.drop_last() =~= Seq::<char>::empty());
        let none = value_of(s.drop_last(), base);
        assert(none * base == 0) by (nonlinear_arith)
            requires
                none == 0,
        ;
    } else {
        assert(n / base < n) by (nonlinear_arith)
            requires
                n >= base,
                base >= 2,
        ;
        lemma_value_of_digits(n / base, base);
        let s = digits(n, base);
        assert(s.drop_last() =~= digits(n / base, base));
        assert(n % base < base) by (nonlinear_arith)
            requires
                base >= 2,
        ;
        assert(n == (n / base) * base + n % base) by (nonlinear_arith)
            requires
                base >= 2,
        ;
    }
}

/// Zeros in front do not change the number.
pub proof fn lemma_value_of_padded(s: Seq<char>, width: nat, base: nat)
    ensures
        value_of(padded(s, width), base) == value_of(s, base),
    decreases s.len() + width,
{
    if s.len() < width {
        if s.len() == 0 {
            let zeros = padded(s, width);
            let fewer = padded(s, (width - 1) as nat);
            assert(zeros.drop_last() =~= fewer);
            assert(zeros.last() == '0');
            lemma_value_of_padded(s, (width - 1) as nat, base);
            assert(value_of(fewer, base) * base == 0) by (nonlinear_arith)
                requires
                    value_of(fewer, base) == 0,
            ;
        } else {
            lemma_value_of_padded(s.drop_last(), (width - 1) as nat, base);
            assert(padded(s, width).drop_last() =~= padded(s.drop_last(), (width - 1) as nat));
        }
    }
}

/// Two numbers that read the same, padded to the same width, are the same number.
pub proof fn lemma_padded_digits_distinct(m: nat, n: nat, width: nat, base: nat)
    requires
        2 <= base <= 16,
        padded(digits(m, base), width) == padded(digits(n, base), width),
    ensures
        m == n,
{
    lemma_value_of_padded(digits(m, base), width, base);
    lemma_value_of_padded(digits(n, base), width, base);
    lemma_value_of_digits(m, base);
    lemma_value_of_digits(n, base);
}

fn push_digit(out: &mut String, d: u8)
    requires
        d < 16,
    ensures
        final(out)@ == old(out)@.push(digit_char(d as nat)),
{
    if d < 10 {
        out.push((48 + d) as char);
    } else {
        out.push((87 + d) as char);
    }
}

/// Appends `n` in `base`.
pub fn push_digits(out: &mut String, n: u64, base: u64)
    requires
        2 <= base <= 16,
    ensures
        final(out)@ == old(out)@ + digits(n as nat, base as nat),
    decreases n,
{
    if n < base {
        push_digit(out, n as u8);
    } else {
        proof {
            assert(n / base < n) by (nonlinear_arith)
                requires
                    n >= base,
                    base >= 2,
            ;
            assert(n % base < base) by (nonlinear_arith)
                requires
                    base >= 2,
            ;
        }
        push_digits(out, n / base, base);
        push_digit(out, (n % base) as u8);
    }
}

/// Appends the text `s`.
pub fn push_text(out: &mut String, s: &str)
    ensures
        final(out)@ == old(out)@ + s@,
{
    out.append(s);
}

/// Appends `n` in base ten, with a sign where it is negative.
pub fn push_decimal(out: &mut String, n: i64)
    ensures
        final(out)@ == old(out)@ + decimal(n as int),
{
    if n < 0 {
        out.push('-');
        push_digits(out, (-(n as i128)) as u64, 10);
    } else {
        push_digits(out, n as u64, 10);
    }
}

/// Appends `n` in `base` with zeros in front to fill `width`.
pub fn push_padded(out: &mut String, n: u64, base: u64, width: usize)
    requires
        2 <= base <= 16,
    ensures
        final(out)@ == old(out)@ + padded(digits(n as nat, base as nat), width as nat),
{
    let len: usize = count_digits(n, base);
    let ghost start = out@;
    let mut i: usize = len;
    while i < width
        invariant
            len <= i,
            i <= width || i == len,
            out@ == start + Seq::new((i - len) as nat, |k: int| '0'),
        decreases width - i,
    {
        proof {
            assert(Seq::new((i - len) as nat, |k: int| '0').push('0') =~= Seq::new(
                (i + 1 - len) as nat,
                |k: int| '0',
            ));
        }
        out.push('0');
        i = i + 1;
    }
    push_digits(out, n, base);
}

/// The number of digits of `n` in `base`.
pub fn count_digits(n: u64, base: u64) -> (count: usize)
    requires
        2 <= base <= 16,
    ensures
        count == digits(n as nat, base as nat).len(),
        1 <= count <= 64,
{
    let mut count: usize = 1;
    let mut rest: u64 = n;
    proof {
        lemma_digits_short(n, base as nat);
    }
    while rest >= base
        invariant
            2 <= base <= 16,
            count >= 1,
            count - 1 + digits(rest as nat, base as nat).len() == digits(
                n as nat,
                base as nat,
            ).len(),
            digits(n as nat, base as nat).len() <= 64,
            digits(rest as nat, base as nat).len() >= 1,
        decreases rest,
    {
        proof {
            assert(rest / base < rest) by (nonlinear_arith)
                requires
                    rest >= base,
                    base >= 2,
            ;
            lemma_digits_short((rest / base), base as nat);
        }
        rest = rest / base;
        count = count + 1;
    }
    count
}

/// A 64-bit number has at least one and at most 64 digits.
pub proof fn lemma_digits_short(n: u64, base: nat)
    requires
        2 <= base <= 16,
    ensures
        1 <= digits(n as nat, base).len() <= 64,
{
    vstd::arithmetic::power2::lemma2_to64();
    lemma_digits_bound(n as nat, base, 64);
}

proof fn lemma_digits_bound(n: nat, base: nat, k: nat)
    requires
        2 <= base <= 16,
        k >= 1,
        n < vstd::arithmetic::power2::pow2(k),
    ensures
        1 <= digits(n, base).len() <= k,
    decreases k,
{
    if n >= base {
        assert(k > 1) by {
            if k == 1 {
                vstd::arithmetic::power2::lemma2_to64();
            }
        }
        vstd::arithmetic::power2::lemma_pow2_unfold(k);
        let half = vstd::arithmetic::power2::pow2((k - 1) as nat);
        assert(n / base < half) by (nonlinear_arith)
            requires
                n < 2 * half,
                base >= 2,
        ;
        lemma_digits_bound(n / base, base, (k - 1) as nat);
    }
}

/// The characters of a string.
pub fn chars_of(s: &str) -> (chars: Vec<char>)
    ensures
        chars@ == s@,
{
    let n: usize = s.unicode_len();
    let mut chars: Vec<char> = Vec::new();
    let mut i: usize = 0;
    while i < n
        invariant
            i <= n,
            n == s@.len(),
            chars@ == s@.take(i as int),
        decreases n - i,
    {
        chars.push(s.get_char(i));
        proof {
            assert(chars@ =~= s@.take(i + 1));
        }
        i = i + 1;
    }
    proof {
        assert(s@.take(i as int) =~= s@);
    }
    chars
}

/// Whether `c` is a decimal digit.
pub open spec fn is_digit(c: char) -> bool {
    '0' <= c && c <= '9'
}

/// The number that decimal digits write out.
pub open spec fn parse_digits(s: Seq<char>) -> Option<nat> {
    if s.len() > 0 && forall|i: int| 0 <= i < s.len() ==> is_digit(#[trigger] s[i]) {
        Some(value_of(s, 10))
    } else {
        None
    }
}

/// The number that an optional sign and decimal digits write out, where 32 bits can hold it.
pub open spec fn parse_signed(s: Seq<char>) -> Option<i32> {
    let (negative, digits) = if s.len() > 0 && s[0] == '-' {
        (true, s.drop_first())
    } else if s.len() > 0 && s[0] == '+' {
        (false, s.drop_first())
    } else {
        (false, s)
    };
    match parse_digits(digits) {
        None => None,
        Some(n) => {
            let value = if negative {
                -n
            } else {
                n as int
            };
            if i32::MIN <= value <= i32::MAX {
                Some(value as i32)
            } else {
                None
            }
        },
    }
}

/// A number with more digits in front of it is not smaller.
proof fn lemma_value_grows(s: Seq<char>, n: int)
    requires
        0 <= n <= s.len(),
    ensures
        value_of(s, 10) >= value_of(s.take(n), 10),
    decreases s.len(),
{
    if n == s.len() {
        assert(s.take(n) =~= s);
    } else {
        lemma_value_grows(s.drop_last(), n);
        assert(s.drop_last().take(n) =~= s.take(n));
        let v = value_of(s.drop_last(), 10);
        assert(v * 10 >= v) by (nonlinear_arith)
            requires
                v >= 0,
        ;
    }
}

/// Reads an optional sign and decimal digits.
pub fn read_signed(s: &Vec<char>) -> (n: Option<i32>)
    ensures
        n == parse_signed(s@),
{
    let mut start: usize = 0;
    let mut negative: bool = false;
    if s.len() > 0 && s[0] == '-' {
        start = 1;
        negative = true;
    } else if s.len() > 0 && s[0] == '+' {
        start = 1;
    }
    let ghost digits = s@.skip(start as int);
    proof {
        if start == 1 {
            assert(s@.drop_first() =~= digits);
        } else {
            assert(s@ =~= digits);
        }
    }
    if start == s.len() {
        return None;
    }
    let mut value: i64 = 0;
    let mut i: usize = start;
    proof {
        assert(digits.take(0) =~= Seq::empty());
    }
    while i < s.len()
        invariant
            start <= i <= s@.len(),
            start <= 1,
            digits == s@.skip(start as int),
            value == value_of(digits.take(i - start), 10),
            0 <= value <= 0x8000_0000,
            forall|k: int| 0 <= k < i - start ==> is_digit(#[trigger] digits[k]),
            digits == if s@.len() > 0 && (s@[0] == '-' || s@[0] == '+') {
                s@.drop_first()
            } else {
                s@
            },
            negative == (s@.len() > 0 && s@[0] == '-'),
        decreases s@.len() - i,
    {
        let c: char = s[i];
        assert(digits[i - start] == c);
        if c < '0' || c > '9' {
            return None;
        }
        let ghost upto = digits.take(i - start + 1);
        proof {
            assert(upto.drop_last() =~= digits.take(i - start));
            lemma_value_grows(digits, i - start + 1);
        }
        value = value * 10 + (c as u32 as i64 - 48);
        if value > 0x8000_0000 {
            return None;
        }
        i = i + 1;
    }
    proof {
        assert(digits.take(i - start) =~= digits);
    }
    if negative {
        Some((-value) as i32)
    } else if value == 0x8000_0000 {
        None
    } else {
        Some(value as i32)
    }
}

/// A number that was written out is read back.
pub proof fn lemma_digits_read_back(n: nat)
    ensures
        parse_digits(digits(n, 10)) == Some(n),
    decreases n,
{
    let s = digits(n, 10);
    lemma_value_of_digits(n, 10);
    assert forall|i: int| 0 <= i < s.len() implies is_digit(#[trigger] s[i]) by {
        if n >= 10 && i < s.len() - 1 {
            lemma_digits_read_back(n / 10);
            assert(s.drop_last() =~= digits(n / 10, 10));
            assert(s[i] == s.drop_last()[i]);
            assert(is_digit(digits(n / 10, 10)[i]));
        }
    }
}

/// The number that decimal digits write out, where 32 bits without a sign can hold it.
pub open spec fn parse_unsigned(s: Seq<char>) -> Option<u32> {
    match parse_digits(s) {
        Some(n) if n <= u32::MAX => Some(n as u32),
        _ => None,
    }
}

/// The number that decimal digits write out, where 64 bits without a sign can hold it.
pub open spec fn parse_long(s: Seq<char>) -> Option<u64> {
    match parse_digits(s) {
        Some(n) if n <= u64::MAX => Some(n as u64),
        _ => None,
    }
}

/// Reads the decimal digits of `s` from `start` up to `end`.
pub fn read_long(s: &Vec<char>, start: usize, end: usize) -> (n: Option<u64>)
    requires
        start <= end <= s@.len(),
    ensures
        n == parse_long(s@.subrange(start as int, end as int)),
{
    let ghost digits = s@.subrange(start as int, end as int);
    if start == end {
        return None;
    }
    let mut value: u128 = 0;
    let mut i: usize = start;
    proof {
        assert(digits.take(0) =~= Seq::empty());
    }
    while i < end
        invariant
            start <= i <= end <= s@.len(),
            digits == s@.subrange(start as int, end as int),
            value == value_of(digits.take(i - start), 10),
            value <= u64::MAX,
            forall|k: int| 0 <= k < i - start ==> is_digit(#[trigger] digits[k]),
        decreases end - i,
    {
        let c: char = s[i];
        assert(digits[i - start] == c);
        if c < '0' || c > '9' {
            return None;
        }
        proof {
            assert(digits.take(i - start + 1).drop_last() =~= digits.take(i - start));
            lemma_value_grows(digits, i - start + 1);
        }
        value = value * 10 + (c as u32 as u128 - 48);
        if value > 0xffff_ffff_ffff_ffff {
            return None;
        }
        i = i + 1;
    }
    proof {
        assert(digits.take(i - start) =~= digits);
    }
    Some(value as u64)
}

/// Reads the decimal digits of `s` from `start` on.
pub fn read_unsigned(s: &Vec<char>, start: usize) -> (n: Option<u32>)
    requires
        start <= s@.len(),
    ensures
        n == parse_unsigned(s@.skip(start as int)),
{
    let long = read_long(s, start, s.len());
    assert(s@.skip(start as int) =~= s@.subrange(start as int, s@.len() as int));
    match long {
        Some(n) => if n <= 0xffff_ffff {
            Some(n as u32)
        } else {
            None
        },
        None => None,
    }
}

/// The lower-case letter for an upper-case one; other characters as they are.
pub open spec fn lower_char(c: char) -> char {
    if 'A' <= c && c <= 'Z' {
        (c as int + 32) as char
    } else {
        c
    }
}

/// A string in lower case, as far as its letters are from A to Z.
pub open spec fn lower_text(s: Seq<char>) -> Seq<char> {
    s.map_values(|c: char| lower_char(c))
}

/// A string in lower case, as far as its letters are from A to Z.
pub fn to_lower(s: &Vec<char>) -> (lower: Vec<char>)
    ensures
        lower@ == lower_text(s@),
{
    let mut lower: Vec<char> = Vec::new();
    let mut i: usize = 0;
    while i < s.len()
        invariant
            i <= s@.len(),
            lower@.len() == i,
            forall|k: int| 0 <= k < i ==> #[trigger] lower@[k] == lower_char(s@[k]),
        decreases s@.len() - i,
    {
        let c: char = s[i];
        if c >= 'A' && c <= 'Z' {
            lower.push((c as u8 + 32) as char);
        } else {
            lower.push(c);
        }
        i = i + 1;
    }
    assert(lower@ =~= lower_text(s@));
    lower
}

/// Whether `s` is the text `t`.
pub fn same_text(s: &Vec<char>, t: &str) -> (same: bool)
    ensures
        same == (s@ == t@),
{
    let chars = chars_of(t);
    if s.len() != chars.len() {
        return false;
    }
    let mut i: usize = 0;
    while i < s.len()
        invariant
            i <= s@.len(),
            s@.len() == chars@.len(),
            chars@ == t@,
            forall|k: int| 0 <= k < i ==> s@[k] == chars@[k],
        decreases s@.len() - i,
    {
        if s[i] != chars[i] {
            return false;
        }
        i = i + 1;
    }
    assert(s@ =~= t@);
    true
}

/// The parts of `s` between the characters `sep`. There is always one part.
pub open spec fn split_at(s: Seq<char>, sep: char) -> Seq<Seq<char>>
    decreases s.len(),
{
    if s.len() == 0 {
        seq![Seq::empty()]
    } else {
        let parts = split_at(s.drop_last(), sep);
        if s.last() == sep {
            parts.push(Seq::empty())
        } else {
            parts.update(parts.len() - 1, parts.last().push(s.last()))
        }
    }
}

/// Reads a list of strings as sequences.
pub open spec fn deep_chars(v: Seq<Vec<char>>) -> Seq<Seq<char>> {
    v.map_values(|p: Vec<char>| p@)
}

/// Splitting gives at least one part and at most one more than there are characters.
pub proof fn lemma_split_len(s: Seq<char>, sep: char)
    ensures
        1 <= split_at(s, sep).len() <= s.len() + 1,
    decreases s.len(),
{
    if s.len() > 0 {
        lemma_split_len(s.drop_last(), sep);
    }
}

/// Splits `s` at the characters `sep`.
pub fn split_chars(s: &Vec<char>, sep: char) -> (parts: Vec<Vec<char>>)
    ensures
        deep_chars(parts@) == split_at(s@, sep),
{
    let mut parts: Vec<Vec<char>> = Vec::new();
    let mut last: Vec<char> = Vec::new();
    let mut i: usize = 0;
    proof {
        assert(s@.take(0) =~= Seq::empty());
        assert(deep_chars(parts@).push(last@) =~= seq![Seq::<char>::empty()]);
    }
    while i < s.len()
        invariant
            i <= s@.len(),
            deep_chars(parts@).push(last@) == split_at(s@.take(i as int), sep),
        decreases s@.len() - i,
    {
        let c: char = s[i];
        let ghost done = deep_chars(parts@);
        let ghost upto = s@.take(i + 1);
        proof {
            assert(upto.drop_last() =~= s@.take(i as int));
        }
        if c == sep {
            let ghost before = parts@;
            let ghost word = last@;
            parts.push(last);
            last = Vec::new();
            proof {
                assert(deep_chars(parts@) =~= done.push(word));
                assert(last@ =~= Seq::empty());
            }
        } else {
            let ghost word = last@;
            last.push(c);
            proof {
                assert(done.push(word).update(done.len() as int, word.push(c)) =~= done.push(
                    word.push(c),
                ));
            }
        }
        i = i + 1;
    }
    proof {
        assert(s@.take(i as int) =~= s@);
        assert(deep_chars(parts@.push(last)) =~= deep_chars(parts@).push(last@));
    }
    parts.push(last);
    parts
}

} // verus!

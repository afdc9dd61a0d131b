//! Texts: concatenation, decimal numerals and comparison, with their models
//! over sequences of characters.

use vstd::prelude::*;

verus! {

/// The characters of a text, one by one.
pub fn chars_of(s: &str) -> (r: Vec<char>)
    ensures
        r@ == s@,
{
    let mut out: Vec<char> = Vec::new();
    for c in it: s.chars()
        invariant
            out@ == it.seq().take(it.index() as int),
            it.seq() == s@,
    {
        out.push(c);
    }
    out
}

/// Whether two texts hold the same characters.
pub fn same_text(a: &str, b: &str) -> (r: bool)
    ensures
        r == (a@ == b@),
{
    let left: String = a.to_owned();
    let right: String = b.to_owned();
    left == right
}

/// A text followed by another.
pub fn join2(a: &str, b: &str) -> (r: String)
    ensures
        r@ == a@ + b@,
{
    let mut out: String = a.to_owned();
    out.append(b);
    out
}

/// Three texts in a row.
pub fn join3(a: &str, b: &str, c: &str) -> (r: String)
    ensures
        r@ == a@ + b@ + c@,
{
    let mut out: String = join2(a, b);
    out.append(c);
    out
}

/// The decimal digit of a value below ten.
pub open spec fn digit_char(d: nat) -> char {
    (('0' as u32 as nat + d) as u32) as char
}

/// The value of a decimal digit.
pub open spec fn digit_value(c: char) -> Option<nat> {
    if '0' <= c && c <= '9' {
        Some((c as u32 - '0' as u32) as nat)
    } else {
        None
    }
}

/// The decimal numeral of a number, without leading zeros.
pub open spec fn decimal(n: nat) -> Seq<char>
    decreases n,
{
    if n < 10 {
        seq![digit_char(n)]
    } else {
        decimal(n / 10).push(digit_char(n % 10))
    }
}

/// The numeral of one decimal digit.
fn digit_text(d: u128) -> (r: &'static str)
    requires
        d < 10,
    ensures
        r@ == seq![digit_char(d as nat)],
{
    proof {
        reveal_strlit("0");
        reveal_strlit("1");
        reveal_strlit("2");
        reveal_strlit("3");
        reveal_strlit("4");
        reveal_strlit("5");
        reveal_strlit("6");
        reveal_strlit("7");
        reveal_strlit("8");
        reveal_strlit("9");
    }
    match d {
        0 => "0",
        1 => "1",
        2 => "2",
        3 => "3",
        4 => "4",
        5 => "5",
        6 => "6",
        7 => "7",
        8 => "8",
        _ => "9",
    }
}

/// Writes a number in decimal.
pub fn decimal_text(n: u128) -> (r: String)
    ensures
        r@ == decimal(n as nat),
    decreases n,
{
    if n < 10 {
        digit_text(n).to_owned()
    } else {
        let mut out: String = decimal_text(n / 10);
        out.append(digit_text(n % 10));
        assert(out@ == decimal((n / 10) as nat).push(digit_char((n % 10) as nat)));
        out
    }
}

/// The decimal numeral of a signed number.
pub open spec fn signed_decimal(n: int) -> Seq<char> {
    if n < 0 {
        "-"@ + decimal((-n) as nat)
    } else {
        decimal(n as nat)
    }
}

/// Writes a signed number in decimal.
pub fn signed_decimal_text(n: i32) -> (r: String)
    ensures
        r@ == signed_decimal(n as int),
{
    if n < 0 {
        join2("-", decimal_text((-(n as i64)) as u128).as_str())
    } else {
        decimal_text(n as u128)
    }
}

/// The number that a run of decimal digits stands for; none where another
/// character stands among them. The empty run stands for zero.
pub open spec fn digits_value(s: Seq<char>) -> Option<nat>
    decreases s.len(),
{
    if s.len() == 0 {
        Some(0)
    } else {
        match (digits_value(s.drop_last()), digit_value(s.last())) {
            (Some(v), Some(d)) => Some(v * 10 + d),
            _ => None,
        }
    }
}

/// The number that a numeral stands for: at least one decimal digit, behind
/// an optional sign.
pub open spec fn integer_of(s: Seq<char>) -> Option<int> {
    if s.len() > 0 && (s[0] == '+' || s[0] == '-') {
        match digits_value(s.skip(1)) {
            Some(v) => if s.len() == 1 {
                None
            } else if s[0] == '-' {
                Some(-(v as int))
            } else {
                Some(v as int)
            },
            None => None,
        }
    } else if s.len() > 0 {
        match digits_value(s) {
            Some(v) => Some(v as int),
            None => None,
        }
    } else {
        None
    }
}

/// The 32-bit number that a numeral stands for; none where it stands for no
/// number or for one out of range.
pub open spec fn i32_of(s: Seq<char>) -> Option<i32> {
    match integer_of(s) {
        Some(v) => if i32::MIN <= v <= i32::MAX {
            Some(v as i32)
        } else {
            None
        },
        None => None,
    }
}

/// A run of digits stays without a value once another character stands in it.
proof fn lemma_digits_value_prefix(s: Seq<char>, n: int)
    requires
        0 <= n <= s.len(),
        digits_value(s.take(n)) is None,
    ensures
        digits_value(s) is None,
    decreases s.len(),
{
    if n < s.len() {
        assert(s.drop_last().take(n) =~= s.take(n));
        lemma_digits_value_prefix(s.drop_last(), n);
    } else {
        assert(s.take(n) =~= s);
    }
}

/// The value of a run of digits, as long as it is at most `limit`: then
/// `Some(Some(value))`; `Some(None)` where the value is larger, `None` where
/// the run holds another character.
fn digits_up_to(s: &Vec<char>, from: usize, limit: u128) -> (r: Option<Option<u128>>)
    requires
        from <= s@.len(),
        limit >= 10,
    ensures
        r == (match digits_value(s@.skip(from as int)) {
            Some(v) => Some(if v <= limit { Some(v as u128) } else { None }),
            None => None,
        }),
{
    let ghost run = s@.skip(from as int);
    let mut value: u128 = 0;
    let mut over: bool = false;
    let mut i: usize = from;
    assert(run.take(0) =~= Seq::<char>::empty());
    while i < s.len()
        invariant
            from <= i <= s@.len(),
            run == s@.skip(from as int),
            limit >= 10,
            value <= limit,
            digits_value(run.take(i - from)) is Some,
            !over ==> digits_value(run.take(i - from)) == Some(value as nat),
            over ==> digits_value(run.take(i - from))->0 > limit,
        decreases s@.len() - i,
    {
        let c: char = s[i];
        assert(run.take(i - from + 1).drop_last() =~= run.take(i - from));
        assert(run.take(i - from + 1).last() == c);
        if c < '0' || c > '9' {
            proof {
                lemma_digits_value_prefix(run, i - from + 1);
            }
            return None;
        }
        let d: u128 = (c as u32 - '0' as u32) as u128;
        if over || value > limit / 10 || value * 10 > limit - d {
            over = true;
        } else {
            value = value * 10 + d;
        }
        i = i + 1;
    }
    assert(run.take(i - from) =~= run);
    if over {
        Some(None)
    } else {
        Some(Some(value))
    }
}

/// Reads a numeral as an integer: whether it has a minus sign, and its size
/// where that is below 2^128.
pub fn read_integer(s: &str) -> (r: Option<(bool, Option<u128>)>)
    ensures
        match integer_of(s@) {
            None => r is None,
            Some(v) => match r {
                None => false,
                Some((negative, Some(size))) => v == if negative {
                    -(size as int)
                } else {
                    size as int
                },
                Some((negative, None)) => if negative {
                    v < -(u128::MAX as int)
                } else {
                    v > u128::MAX
                },
            },
        },
{
    let cs: Vec<char> = chars_of(s);
    if cs.len() == 0 {
        return None;
    }
    let signed: bool = cs[0] == '+' || cs[0] == '-';
    if signed && cs.len() == 1 {
        return None;
    }
    let from: usize = if signed {
        1
    } else {
        0
    };
    assert(cs@.skip(0) =~= cs@);
    match digits_up_to(&cs, from, u128::MAX) {
        Some(size) => Some((cs[0] == '-', size)),
        None => None,
    }
}

/// Reads a numeral as a 32-bit number.
pub fn parse_i32(s: &str) -> (r: Option<i32>)
    ensures
        r == i32_of(s@),
{
    let cs: Vec<char> = chars_of(s);
    if cs.len() == 0 {
        return None;
    }
    let first: char = cs[0];
    if first == '+' || first == '-' {
        if cs.len() == 1 {
            return None;
        }
        match digits_up_to(&cs, 1, 0x8000_0000) {
            Some(Some(v)) => {
                if first == '-' {
                    Some((-(v as i64)) as i32)
                } else if v <= 0x7fff_ffff {
                    Some(v as i32)
                } else {
                    None
                }
            },
            _ => None,
        }
    } else {
        assert(cs@.skip(0) =~= cs@);
        match digits_up_to(&cs, 0, 0x7fff_ffff) {
            Some(Some(v)) => Some(v as i32),
            _ => None,
        }
    }
}

/// The decimal numeral of a number stands for that number.
pub proof fn law_decimal_reads_back(n: nat)
    ensures
        digits_value(decimal(n)) == Some(n),
        decimal(n).len() > 0,
        '0' <= decimal(n)[0] <= '9',
        n <= i32::MAX ==> i32_of(decimal(n)) == Some(n as i32),
    decreases n,
{
    reveal_with_fuel(digits_value, 2);
    if n < 10 {
        assert(decimal(n).drop_last() =~= Seq::<char>::empty());
    } else {
        law_decimal_reads_back(n / 10);
        assert(decimal(n).drop_last() =~= decimal(n / 10));
        assert(decimal(n)[0] == decimal(n / 10)[0]);
    }
}

/// Whether a text comes before another in the order of their characters: at
/// the first difference it has the smaller character or ends.
pub open spec fn text_before(a: Seq<char>, b: Seq<char>) -> bool
    decreases a.len(),
{
    if b.len() == 0 {
        false
    } else if a.len() == 0 {
        true
    } else if a[0] == b[0] {
        text_before(a.skip(1), b.skip(1))
    } else {
        a[0] < b[0]
    }
}

/// Of two texts one comes before the other, or they are the same.
pub proof fn lemma_text_order(a: Seq<char>, b: Seq<char>)
    ensures
        !(text_before(a, b) && text_before(b, a)),
        a == b ==> !text_before(a, b),
        a != b ==> text_before(a, b) || text_before(b, a),
    decreases a.len(),
{
    if a.len() > 0 && b.len() > 0 && a[0] == b[0] {
        lemma_text_order(a.skip(1), b.skip(1));
        if a.skip(1) == b.skip(1) {
            assert(a =~= seq![a[0]] + a.skip(1));
            assert(b =~= seq![b[0]] + b.skip(1));
        }
    } else if a.len() == 0 && b.len() == 0 {
        assert(a =~= b);
    }
}

/// What comes before a text comes before all that follow it.
pub proof fn lemma_text_order_chain(a: Seq<char>, b: Seq<char>, c: Seq<char>)
    requires
        text_before(a, b),
        text_before(b, c),
    ensures
        text_before(a, c),
    decreases a.len(),
{
    if a.len() > 0 && a[0] == b[0] && b[0] == c[0] {
        lemma_text_order_chain(a.skip(1), b.skip(1), c.skip(1));
    }
}

/// Whether a text comes before another.
pub fn comes_before(a: &str, b: &str) -> (r: bool)
    ensures
        r == text_before(a@, b@),
{
    let x: Vec<char> = chars_of(a);
    let y: Vec<char> = chars_of(b);
    let mut i: usize = 0;
    assert(a@.skip(0) =~= a@);
    assert(b@.skip(0) =~= b@);
    while i < x.len() && i < y.len()
        invariant
            i <= x@.len(),
            i <= y@.len(),
            x@ == a@,
            y@ == b@,
            text_before(a@, b@) == text_before(a@.skip(i as int), b@.skip(i as int)),
        decreases x@.len() - i,
    {
        assert(a@.skip(i as int).skip(1) =~= a@.skip(i + 1));
        assert(b@.skip(i as int).skip(1) =~= b@.skip(i + 1));
        if x[i] != y[i] {
            return x[i] < y[i];
        }
        i = i + 1;
    }
    i < y.len()
}

/// A decimal numeral ends in the digit of the number modulo ten, before which
/// stands the numeral of the rest; no numeral of more than one digit begins
/// with a zero.
pub proof fn law_decimal(n: nat)
    ensures
        decimal(n).len() > 0,
        decimal(n).last() as int == 0x30 + n % 10,
        n < 10 ==> decimal(n).len() == 1,
        n >= 10 ==> decimal(n).drop_last() == decimal(n / 10),
        n > 0 ==> decimal(n)[0] as int != 0x30,
    decreases n,
{
    if n >= 10 {
        law_decimal(n / 10);
        assert(decimal(n).drop_last() =~= decimal(n / 10));
        assert(decimal(n)[0] == decimal(n / 10)[0]);
    }
}

/// The numeral of a negative number is a minus sign before that of its size;
/// the numeral of any 32-bit number stands for that number.
pub proof fn law_signed_decimal(n: int)
    ensures
        n < 0 ==> signed_decimal(n).len() > 0 && signed_decimal(n)[0] as int == 0x2d
            && signed_decimal(n).skip(1) == decimal((-n) as nat),
        n >= 0 ==> signed_decimal(n) == decimal(n as nat),
        -0x8000_0000 <= n <= 0x7fff_ffff ==> i32_of(signed_decimal(n)) == Some(n as i32),
{
    reveal_strlit("-");
    if n < 0 {
        law_decimal_reads_back((-n) as nat);
        assert(signed_decimal(n).skip(1) =~= decimal((-n) as nat));
    } else {
        law_decimal_reads_back(n as nat);
    }
}

/// Whether a character is a decimal digit.
pub open spec fn decimal_digit(c: char) -> bool {
    0x30 <= c as int <= 0x39
}

/// Where the digits of a numeral begin: behind its sign, where it has one.
pub open spec fn digits_from(s: Seq<char>) -> int {
    if s.len() > 0 && (s[0] as int == 0x2b || s[0] as int == 0x2d) {
        1
    } else {
        0
    }
}

/// A run of digits has a value just where every character is a digit.
proof fn lemma_digits(s: Seq<char>)
    ensures
        digits_value(s) is Some <==> forall|i: int| 0 <= i < s.len() ==> decimal_digit(#[trigger] s[i]),
    decreases s.len(),
{
    if s.len() > 0 {
        let past = s.drop_last();
        lemma_digits(past);
        if digits_value(s) is Some {
            assert forall|i: int| 0 <= i < s.len() implies decimal_digit(#[trigger] s[i]) by {
                if i < past.len() {
                    assert(decimal_digit(past[i]));
                }
            }
        }
        if forall|i: int| 0 <= i < s.len() ==> decimal_digit(#[trigger] s[i]) {
            assert forall|i: int| 0 <= i < past.len() implies decimal_digit(#[trigger] past[i]) by {
                assert(decimal_digit(s[i]));
            }
            assert(decimal_digit(s[s.len() - 1]));
        }
    }
}

/// A numeral stands for a number just where at least one digit, and nothing
/// else, follows its optional sign. It stands for a 32-bit number where that is
/// in range.
pub proof fn law_numeral(s: Seq<char>)
    ensures
        integer_of(s) is Some <==> s.len() > digits_from(s) && forall|i: int|
            digits_from(s) <= i < s.len() ==> decimal_digit(#[trigger] s[i]),
        i32_of(s) is Some <==> (integer_of(s) matches Some(v) && -0x8000_0000 <= v <= 0x7fff_ffff),
        i32_of(s) matches Some(n) ==> integer_of(s) == Some(n as int),
{
    let from = digits_from(s);
    let run = s.skip(from);
    lemma_digits(run);
    assert(s.skip(0) =~= s);
    if s.len() > from {
        if digits_value(run) is Some {
            assert forall|i: int| from <= i < s.len() implies decimal_digit(#[trigger] s[i]) by {
                assert(decimal_digit(run[i - from]));
            }
        }
        if forall|i: int| from <= i < s.len() ==> decimal_digit(#[trigger] s[i]) {
            assert forall|i: int| 0 <= i < run.len() implies decimal_digit(#[trigger] run[i]) by {
                assert(decimal_digit(s[i + from]));
            }
        }
    }
}

/// A digit alone stands for what it counts; a minus sign before digits turns
/// the number round, a plus sign leaves it; one more digit behind a numeral
/// makes it ten times as large and adds what the digit counts.
pub proof fn law_numeral_value(s: Seq<char>, c: char)
    requires
        decimal_digit(c),
    ensures
        s.len() == 0 ==> integer_of(s.push(c)) == Some(c as int - 0x30),
        s.len() == 1 && s[0] as int == 0x2b ==> integer_of(s.push(c)) == Some(c as int - 0x30),
        s.len() == 1 && s[0] as int == 0x2d ==> integer_of(s.push(c)) == Some(0x30 - c as int),
        s.len() > 0 ==> (integer_of(s) matches Some(v) ==> integer_of(s.push(c)) == Some(
            if s[0] as int == 0x2d {
                10 * v - (c as int - 0x30)
            } else {
                10 * v + (c as int - 0x30)
            },
        )),
{
    reveal_with_fuel(digits_value, 2);
    let now = s.push(c);
    assert(now.drop_last() =~= s);
    if s.len() > 0 {
        let run = now.skip(1);
        assert(run.drop_last() =~= s.skip(1));
        assert(run.last() == c);
    }
}

/// A text comes before another where they differ first at a place at which it
/// has the smaller character, or has ended.
pub proof fn law_text_order(a: Seq<char>, b: Seq<char>, k: int)
    requires
        0 <= k <= a.len(),
        k < b.len(),
        a.take(k) == b.take(k),
        k == a.len() || (a[k] as int) < b[k] as int,
    ensures
        text_before(a, b),
        !text_before(b, a),
    decreases k,
{
    lemma_text_order(a, b);
    if k > 0 {
        assert(a.take(k)[0] == a[0] && b.take(k)[0] == b[0]);
        assert(a.skip(1).take(k - 1) =~= a.take(k).skip(1));
        assert(b.skip(1).take(k - 1) =~= b.take(k).skip(1));
        law_text_order(a.skip(1), b.skip(1), k - 1);
    }
}

} // verus!

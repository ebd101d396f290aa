//! Numbers as text.
use crate::float::{lit, F64};
use crate::functions::{reads_all, reads_as};
use vstd::prelude::*;
use vstd::string::{StrSliceExecFns, StringExecFns};

verus! {

/// The sixteen digits in upper case.
pub open spec fn hex_digit(d: int) -> char {
    if d <= 0 {
        '0'
    } else if d == 1 {
        '1'
    } else if d == 2 {
        '2'
    } else if d == 3 {
        '3'
    } else if d == 4 {
        '4'
    } else if d == 5 {
        '5'
    } else if d == 6 {
        '6'
    } else if d == 7 {
        '7'
    } else if d == 8 {
        '8'
    } else if d == 9 {
        '9'
    } else if d == 10 {
        'A'
    } else if d == 11 {
        'B'
    } else if d == 12 {
        'C'
    } else if d == 13 {
        'D'
    } else if d == 14 {
        'E'
    } else {
        'F'
    }
}

/// The last `n` digits of a number in base 16.
pub open spec fn hex_tail(bits: int, n: nat) -> Seq<char>
    decreases n,
{
    if n == 0 {
        Seq::empty()
    } else {
        hex_tail(bits / 16, (n - 1) as nat).push(hex_digit(bits % 16))
    }
}

/// The bits of a number as sixteen digits.
pub open spec fn hex_spec(x: F64) -> Seq<char> {
    hex_tail(x.bits as int, 16)
}

/// The decimal digits of a number.
pub open spec fn decimal(n: nat) -> Seq<char>
    decreases n,
{
    if n < 10 {
        seq![hex_digit(n as int)]
    } else {
        decimal(n / 10).push(hex_digit((n % 10) as int))
    }
}

/// An integer in decimal, with a sign where it is negative.
pub open spec fn integer_spec(n: int) -> Seq<char> {
    if n < 0 {
        seq!['-'] + decimal((-n) as nat)
    } else {
        decimal(n as nat)
    }
}

fn digit_str(d: u64) -> (r: &'static str)
    requires
        d < 16,
    ensures
        r@ == seq![hex_digit(d as int)],
{
    proof {
        reveal_strlit("0");
        reveal_strlit("1");
        reveal_strlit("2");
        reveal_strlit("3");
        reveal_strlit("4");
        reveal_strlit("5");
        reveal_strlit("6");
        reveal_strlit("7");
        reveal_strlit("8");
        reveal_strlit("9");
        reveal_strlit("A");
        reveal_strlit("B");
        reveal_strlit("C");
        reveal_strlit("D");
        reveal_strlit("E");
        reveal_strlit("F");
    }
    let r: &'static str = if d == 0 {
        "0"
    } else if d == 1 {
        "1"
    } else if d == 2 {
        "2"
    } else if d == 3 {
        "3"
    } else if d == 4 {
        "4"
    } else if d == 5 {
        "5"
    } else if d == 6 {
        "6"
    } else if d == 7 {
        "7"
    } else if d == 8 {
        "8"
    } else if d == 9 {
        "9"
    } else if d == 10 {
        "A"
    } else if d == 11 {
        "B"
    } else if d == 12 {
        "C"
    } else if d == 13 {
        "D"
    } else if d == 14 {
        "E"
    } else {
        "F"
    };
    proof {
        assert(r@ =~= seq![hex_digit(d as int)]);
    }
    r
}

fn hex_rec(bits: u64, n: u64) -> (r: String)
    ensures
        r@ == hex_tail(bits as int, n as nat),
    decreases n,
{
    if n == 0 {
        let r = String::new();
        proof {
            assert(r@ =~= hex_tail(bits as int, 0));
        }
        r
    } else {
        let mut r = hex_rec(bits / 16, n - 1);
        let ghost before = r@;
        r.append(digit_str(bits % 16));
        proof {
            assert(r@ =~= before.push(hex_digit((bits % 16) as int)));
        }
        r
    }
}

/// The bits of a number as sixteen digits in upper case.
pub fn hex(x: F64) -> (r: String)
    ensures
        r@ == hex_spec(x),
{
    hex_rec(x.bits, 16)
}

fn decimal_rec(n: u64) -> (r: String)
    ensures
        r@ == decimal(n as nat),
    decreases n,
{
    if n < 10 {
        String::from_str(digit_str(n))
    } else {
        let mut r = decimal_rec(n / 10);
        let ghost before = r@;
        r.append(digit_str(n % 10));
        proof {
            assert(r@ =~= before.push(hex_digit((n % 10) as int)));
        }
        r
    }
}

/// An integer in decimal.
pub fn integer(n: i32) -> (r: String)
    ensures
        r@ == integer_spec(n as int),
{
    if n < 0 {
        proof {
            reveal_strlit("-");
        }
        let mut r = String::from_str("-");
        let digits = decimal_rec((-(n as i64)) as u64);
        r.append(digits.as_str());
        proof {
            assert("-"@ =~= seq!['-']);
        }
        r
    } else {
        decimal_rec(n as u64)
    }
}

/// What a hexadecimal digit, in either case, stands for.
pub open spec fn digit_value(c: char) -> Option<int> {
    if '0' <= c && c <= '9' {
        Some(c as int - '0' as int)
    } else if 'a' <= c && c <= 'f' {
        Some(c as int - 'a' as int + 10)
    } else if 'A' <= c && c <= 'F' {
        Some(c as int - 'A' as int + 10)
    } else {
        None
    }
}

/// The number that a row of hexadecimal digits stands for.
pub open spec fn hex_value(s: Seq<char>) -> Option<int>
    decreases s.len(),
{
    if s.len() == 0 {
        Some(0)
    } else {
        match (hex_value(s.drop_last()), digit_value(s.last())) {
            (Some(v), Some(d)) => Some(v * 16 + d),
            _ => None,
        }
    }
}

fn read_digit(c: char) -> (r: Option<u64>)
    ensures
        digit_value(c) is Some <==> r is Some,
        r matches Some(d) ==> digit_value(c) == Some(d as int) && d < 16,
{
    let v: u32 = c as u32;
    if '0' <= c && c <= '9' {
        Some((v - '0' as u32) as u64)
    } else if 'a' <= c && c <= 'f' {
        Some((v - 'a' as u32) as u64 + 10)
    } else if 'A' <= c && c <= 'F' {
        Some((v - 'A' as u32) as u64 + 10)
    } else {
        None
    }
}

/// Space as Unicode has it.
pub open spec fn is_space_spec(c: char) -> bool {
    ||| '\u{9}' <= c <= '\u{d}'
    ||| c == ' '
    ||| c == '\u{85}'
    ||| c == '\u{a0}'
    ||| c == '\u{1680}'
    ||| '\u{2000}' <= c <= '\u{200a}'
    ||| c == '\u{2028}'
    ||| c == '\u{2029}'
    ||| c == '\u{202f}'
    ||| c == '\u{205f}'
    ||| c == '\u{3000}'
}

/// Space as Unicode has it.
pub fn is_space(c: char) -> (r: bool)
    ensures
        r == is_space_spec(c),
{
    ('\u{9}' <= c && c <= '\u{d}') || c == ' ' || c == '\u{85}' || c == '\u{a0}' || c == '\u{1680}' || (
    '\u{2000}' <= c && c <= '\u{200a}') || c == '\u{2028}' || c == '\u{2029}' || c == '\u{202f}' || c
        == '\u{205f}' || c == '\u{3000}'
}

/// Without the space at the front.
pub open spec fn trim_front(s: Seq<char>) -> Seq<char>
    decreases s.len(),
{
    if s.len() > 0 && is_space_spec(s[0]) {
        trim_front(s.skip(1))
    } else {
        s
    }
}

/// Without the space at the back.
pub open spec fn trim_back(s: Seq<char>) -> Seq<char>
    decreases s.len(),
{
    if s.len() > 0 && is_space_spec(s.last()) {
        trim_back(s.drop_last())
    } else {
        s
    }
}

/// Without the space at both ends.
pub open spec fn trim_spec(s: Seq<char>) -> Seq<char> {
    trim_back(trim_front(s))
}

/// Without the space at both ends.
pub fn trim(s: &str) -> (r: &str)
    ensures
        r@ == trim_spec(s@),
{
    let n: usize = s.unicode_len();
    let mut i: usize = 0;
    proof {
        assert(s@.skip(0) =~= s@);
    }
    while i < n && is_space(s.get_char(i))
        invariant
            n == s@.len(),
            i <= n,
            trim_front(s@) == trim_front(s@.skip(i as int)),
        decreases n - i,
    {
        proof {
            assert(s@.skip(i as int).skip(1) =~= s@.skip(i + 1));
        }
        i = i + 1;
    }
    proof {
        assert(trim_front(s@) == s@.skip(i as int));
    }
    let mut j: usize = n;
    proof {
        assert(s@.subrange(i as int, n as int) =~= s@.skip(i as int));
    }
    while j > i && is_space(s.get_char(j - 1))
        invariant
            n == s@.len(),
            i <= j <= n,
            trim_back(s@.skip(i as int)) == trim_back(s@.subrange(i as int, j as int)),
        decreases j,
    {
        proof {
            assert(s@.subrange(i as int, j as int).drop_last() =~= s@.subrange(i as int, j - 1));
        }
        j = j - 1;
    }
    s.substring_char(i, j)
}

/// What sixteen hexadecimal digits, with space around them, stand for.
pub open spec fn parse_bits_spec(raw: Seq<char>) -> Option<F64> {
    let s = trim_spec(raw);
    if s.len() == 16 {
        match hex_value(s) {
            Some(v) => Some(lit(v as u64)),
            None => None,
        }
    } else {
        None
    }
}

/// `16^n` for `n` up to 16.
pub open spec fn sixteens(n: nat) -> int
    decreases n,
{
    if n == 0 {
        1
    } else {
        16 * sixteens((n - 1) as nat)
    }
}

proof fn lemma_hex_bound(s: Seq<char>)
    ensures
        hex_value(s) matches Some(v) ==> 0 <= v < sixteens(s.len()),
    decreases s.len(),
{
    if s.len() > 0 {
        lemma_hex_bound(s.drop_last());
    }
}

/// The number with the bits that sixteen hexadecimal digits give.
pub fn parse_bits(raw: &str) -> (r: Option<F64>)
    ensures
        r == parse_bits_spec(raw@),
{
    let s = trim(raw);
    let n: usize = s.unicode_len();
    if n != 16 {
        return None;
    }
    let mut v: u64 = 0;
    let mut i: usize = 0;
    proof {
        assert(s@.take(16) =~= s@);
        assert(sixteens(16) == 0x1_0000_0000_0000_0000) by {
            reveal_with_fuel(sixteens, 17);
        }
    }
    while i < 16
        invariant
            i <= 16,
            s@.len() == 16,
            s@.take(16) == s@,
            s@ == trim_spec(raw@),
            hex_value(s@.take(i as int)) == Some(v as int),
            sixteens(16) == 0x1_0000_0000_0000_0000,
        decreases 16 - i,
    {
        let ghost next = s@.take(i + 1);
        proof {
            assert(next.drop_last() =~= s@.take(i as int));
            lemma_hex_bound(s@.take(i as int));
            lemma_hex_bound(next);
            lemma_sixteens_grow((i + 1) as nat);
        }
        match read_digit(s.get_char(i)) {
            None => {
                proof {
                    lemma_prefix_none(s@, i + 1);
                }
                return None;
            },
            Some(d) => {
                v = v * 16 + d;
            },
        }
        i = i + 1;
    }
    Some(lit(v))
}

proof fn lemma_sixteens_grow(n: nat)
    requires
        n <= 16,
    ensures
        sixteens(n) <= sixteens(16),
        sixteens(n) > 0,
    decreases 16 - n,
{
    if n < 16 {
        lemma_sixteens_grow(n + 1);
    } else {
        reveal_with_fuel(sixteens, 17);
    }
}

proof fn lemma_prefix_none(s: Seq<char>, n: int)
    requires
        0 <= n <= s.len(),
        hex_value(s.take(n)) is None,
    ensures
        hex_value(s) is None,
    decreases s.len() - n,
{
    if n < s.len() {
        assert(s.take(n + 1).drop_last() =~= s.take(n));
        lemma_prefix_none(s, n + 1);
    } else {
        assert(s.take(n) =~= s);
    }
}

proof fn lemma_hex_tail(bits: int, n: nat)
    requires
        0 <= bits < sixteens(n),
    ensures
        hex_tail(bits, n).len() == n,
        hex_value(hex_tail(bits, n)) == Some(bits),
        forall|i: int| 0 <= i < n ==> !is_space_spec(#[trigger] hex_tail(bits, n)[i]),
    decreases n,
{
    if n > 0 {
        lemma_hex_tail(bits / 16, (n - 1) as nat);
        let s = hex_tail(bits, n);
        assert(s.drop_last() =~= hex_tail(bits / 16, (n - 1) as nat));
        assert(digit_value(hex_digit(bits % 16)) == Some(bits % 16));
    }
}

/// Writing the bits of a number and reading them back gives the number.
pub proof fn law_hex_round_trip(x: F64)
    ensures
        parse_bits_spec(hex_spec(x)) == Some(x),
        hex_spec(x).len() == 16,
{
    reveal_with_fuel(sixteens, 17);
    assert(sixteens(16) == 0x1_0000_0000_0000_0000);
    lemma_hex_tail(x.bits as int, 16);
    let s = hex_spec(x);
    assert(trim_front(s) == s);
    assert(trim_back(s) == s);
}

/// The text, without the space around it, is sixteen hexadecimal digits.
pub open spec fn is_bits(raw: Seq<char>) -> bool {
    parse_bits_spec(raw) is Some
}

/// What a text stands for: a number by its bits where it is sixteen hexadecimal digits,
/// else what `decimal` gives on it without the space around it.
pub open spec fn parse_number_spec(
    decimal: spec_fn(Seq<char>) -> Option<F64>,
    raw: Seq<char>,
) -> Option<F64> {
    if is_bits(raw) {
        parse_bits_spec(raw)
    } else {
        decimal(trim_spec(raw))
    }
}

/// The number that a text stands for, by its bits or as `read` reads it.
pub fn parse_number<P: Fn(&str) -> Option<F64>>(read: &P, raw: &str) -> (r: Option<F64>)
    requires
        reads_all(read),
    ensures
        forall|g: spec_fn(Seq<char>) -> Option<F64>| #[trigger]
            reads_as(read, g) ==> r == parse_number_spec(g, raw@),
{
    match parse_bits(raw) {
        Some(x) => Some(x),
        None => read(trim(raw)),
    }
}

} // verus!

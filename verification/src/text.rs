//! Characters and digits: the hexadecimal and decimal forms that identifiers and file names take.

use vstd::prelude::*;

verus! {

/// `String::push` of the standard library: appends one character.
pub assume_specification[ String::push ](s: &mut String, c: char)
    ensures
        final(s)@ == old(s)@.push(c),
;

/// The lowercase hexadecimal digit of `n`, for `n` below sixteen.
pub open spec fn hex_digit(n: int) -> char {
    if n < 10 {
        ('0' as int + n) as char
    } else {
        ('a' as int + n - 10) as char
    }
}

/// Two lowercase digits for each byte, the high half first.
pub open spec fn hex(bytes: Seq<u8>) -> Seq<char> {
    Seq::new(
        2 * bytes.len(),
        |i: int|
            hex_digit(
                if i % 2 == 0 {
                    bytes[i / 2] as int / 16
                } else {
                    bytes[i / 2] as int % 16
                },
            ),
    )
}

/// What a hexadecimal digit of either case is worth.
pub open spec fn hex_value(c: char) -> Option<int> {
    if '0' <= c <= '9' {
        Some(c as int - '0' as int)
    } else if 'a' <= c <= 'f' {
        Some(c as int - 'a' as int + 10)
    } else if 'A' <= c <= 'F' {
        Some(c as int - 'A' as int + 10)
    } else {
        None
    }
}

/// Every character is a hexadecimal digit.
pub open spec fn all_hex(s: Seq<char>) -> bool {
    forall|i: int| 0 <= i < s.len() ==> hex_value(#[trigger] s[i]) is Some
}

/// The bytes that an even number of hexadecimal digits spell.
pub open spec fn unhex(s: Seq<char>) -> Seq<u8> {
    Seq::new(
        s.len() / 2,
        |i: int| (hex_value(s[2 * i]).unwrap() * 16 + hex_value(s[2 * i + 1]).unwrap()) as u8,
    )
}

/// Parsing the printed form of some bytes gives those bytes back.
pub proof fn hex_round_trips(bytes: Seq<u8>)
    ensures
        hex(bytes).len() == 2 * bytes.len(),
        all_hex(hex(bytes)),
        unhex(hex(bytes)) == bytes,
{
    let s = hex(bytes);
    assert forall|i: int| 0 <= i < s.len() implies hex_value(#[trigger] s[i]) is Some by {
        let b = bytes[i / 2] as int;
        assert(0 <= b / 16 < 16 && 0 <= b % 16 < 16);
    }
    assert forall|i: int| 0 <= i < bytes.len() implies unhex(s)[i] == bytes[i] by {
        let b = bytes[i] as int;
        assert((2 * i) / 2 == i && (2 * i + 1) / 2 == i && (2 * i) % 2 == 0 && (2 * i + 1) % 2
            == 1);
        assert(0 <= b / 16 < 16 && 0 <= b % 16 < 16);
        assert(hex_value(s[2 * i]) == Some(b / 16));
        assert(hex_value(s[2 * i + 1]) == Some(b % 16));
    }
    assert(unhex(s) =~= bytes);
}

/// Different bytes print differently.
pub proof fn hex_is_injective(a: Seq<u8>, b: Seq<u8>)
    requires
        hex(a) == hex(b),
    ensures
        a == b,
{
    hex_round_trips(a);
    hex_round_trips(b);
}

pub(crate) fn hex_digit_of(n: u8) -> (c: char)
    requires
        n < 16,
    ensures
        c == hex_digit(n as int),
{
    if n < 10 {
        (48 + n) as char
    } else {
        (87 + n) as char
    }
}

/// Prints bytes as lowercase hexadecimal.
pub fn to_hex(bytes: &[u8]) -> (s: String)
    ensures
        s@ == hex(bytes@),
{
    let mut s = String::new();
    let n: usize = bytes.len();
    let mut i: usize = 0;
    while i < n
        invariant
            n == bytes@.len(),
            i <= n,
            s@ =~= hex(bytes@.take(i as int)),
        decreases n - i,
    {
        let b: u8 = bytes[i];
        s.push(hex_digit_of(b / 16));
        s.push(hex_digit_of(b % 16));
        proof {
            let t = bytes@.take(i as int + 1);
            assert forall|k: int| 0 <= k < 2 * i + 2 implies s@[k] == hex(t)[k] by {
                if k < 2 * i {
                    assert(t[k / 2] == bytes@.take(i as int)[k / 2]);
                }
            }
        }
        i = i + 1;
    }
    assert(bytes@.take(n as int) =~= bytes@);
    s
}

fn hex_value_of(c: char) -> (v: Option<u8>)
    ensures
        match v {
            Some(n) => hex_value(c) == Some(n as int) && n < 16,
            None => hex_value(c) is None,
        },
{
    if '0' <= c && c <= '9' {
        Some((c as u32 - '0' as u32) as u8)
    } else if 'a' <= c && c <= 'f' {
        Some((c as u32 - 'a' as u32 + 10) as u8)
    } else if 'A' <= c && c <= 'F' {
        Some((c as u32 - 'A' as u32 + 10) as u8)
    } else {
        None
    }
}

/// Reads thirty-two bytes from sixty-four hexadecimal digits of either case.
pub fn from_hex(s: &str) -> (r: Option<[u8; 32]>)
    ensures
        match r {
            Some(bytes) => s@.len() == 64 && all_hex(s@) && bytes@ == unhex(s@),
            None => s@.len() != 64 || !all_hex(s@),
        },
{
    if s.unicode_len() != 64 {
        return None;
    }
    let mut out: [u8; 32] = [0u8; 32];
    let mut i: usize = 0;
    while i < 32
        invariant
            i <= 32,
            s@.len() == 64,
            forall|k: int| 0 <= k < 2 * i ==> hex_value(#[trigger] s@[k]) is Some,
            forall|k: int| 0 <= k < i ==> #[trigger] out@[k] == unhex(s@)[k],
        decreases 32 - i,
    {
        let high = hex_value_of(s.get_char(2 * i));
        let low = hex_value_of(s.get_char(2 * i + 1));
        match (high, low) {
            (Some(h), Some(l)) => {
                out[i] = h * 16 + l;
            },
            _ => {
                return None;
            },
        }
        i = i + 1;
    }
    assert(out@ =~= unhex(s@));
    Some(out)
}

/// The decimal digits of `n`.
pub open spec fn decimal(n: nat) -> Seq<char>
    decreases n,
{
    if n < 10 {
        seq![hex_digit(n as int)]
    } else {
        decimal(n / 10).push(hex_digit((n % 10) as int))
    }
}

/// The decimal digits of `n`, with zeros in front up to `width`.
pub open spec fn padded(n: nat, width: nat) -> Seq<char> {
    if decimal(n).len() >= width {
        decimal(n)
    } else {
        Seq::new((width - decimal(n).len()) as nat, |i: int| '0') + decimal(n)
    }
}

/// Every character is a decimal digit.
pub open spec fn all_digits(s: Seq<char>) -> bool {
    forall|i: int| 0 <= i < s.len() ==> '0' <= #[trigger] s[i] <= '9'
}

/// What decimal digits are worth.
pub open spec fn decimal_value(s: Seq<char>) -> nat
    decreases s.len(),
{
    if s.len() == 0 {
        0
    } else {
        10 * decimal_value(s.drop_last()) + (s.last() as nat - '0' as nat) as nat
    }
}

/// The number that a text spells: an optional plus sign, and digits whose value fits.
pub open spec fn parsed_u64(s: Seq<char>) -> Option<u64> {
    let t = if s.len() > 0 && s[0] == '+' {
        s.skip(1)
    } else {
        s
    };
    if t.len() > 0 && all_digits(t) && decimal_value(t) <= u64::MAX {
        Some(decimal_value(t) as u64)
    } else {
        None
    }
}

/// Reading the digits of a number gives the number.
pub proof fn decimal_round_trips(n: nat)
    ensures
        decimal(n).len() > 0,
        all_digits(decimal(n)),
        decimal_value(decimal(n)) == n,
    decreases n,
{
    if n < 10 {
        assert(decimal(n).drop_last() =~= Seq::empty());
        reveal_with_fuel(decimal_value, 2);
    } else {
        decimal_round_trips(n / 10);
        assert(decimal(n).drop_last() =~= decimal(n / 10));
    }
}

proof fn lemma_zeros_in_front(k: nat, s: Seq<char>)
    requires
        all_digits(s),
    ensures
        all_digits(Seq::new(k, |i: int| '0') + s),
        decimal_value(Seq::new(k, |i: int| '0') + s) == decimal_value(s),
    decreases k + s.len(),
{
    let z = Seq::new(k, |i: int| '0');
    if s.len() == 0 {
        if k > 0 {
            let y = Seq::new((k - 1) as nat, |i: int| '0');
            assert((z + s).drop_last() =~= y + s);
            lemma_zeros_in_front((k - 1) as nat, s);
        } else {
            assert(z + s =~= s);
        }
    } else {
        assert((z + s).drop_last() =~= z + s.drop_last());
        assert forall|i: int| 0 <= i < s.drop_last().len() implies '0' <= #[trigger] s.drop_last()[i]
            <= '9' by {
            assert(s.drop_last()[i] == s[i]);
        }
        lemma_zeros_in_front(k, s.drop_last());
    }
}

/// The padded form of a number reads back as the number.
pub proof fn padded_round_trips(n: u64, width: nat)
    ensures
        parsed_u64(padded(n as nat, width)) == Some(n),
        padded(n as nat, width).len() > 0,
{
    decimal_round_trips(n as nat);
    let d = decimal(n as nat);
    if d.len() < width {
        lemma_zeros_in_front((width - d.len()) as nat, d);
    }
    assert(padded(n as nat, width)[0] != '+');
}

/// Prints a number in decimal.
pub fn to_decimal(n: u64) -> (s: String)
    ensures
        s@ == decimal(n as nat),
    decreases n,
{
    if n < 10 {
        let mut s = String::new();
        s.push(hex_digit_of(n as u8));
        assert(s@ =~= decimal(n as nat));
        s
    } else {
        let mut s = to_decimal(n / 10);
        s.push(hex_digit_of((n % 10) as u8));
        s
    }
}

/// Prints a number in decimal, with zeros in front up to `width`.
pub fn to_padded(n: u64, width: usize) -> (s: String)
    ensures
        s@ == padded(n as nat, width as nat),
{
    let digits = to_decimal(n);
    let len: usize = digits.as_str().unicode_len();
    let mut s = String::new();
    let mut i: usize = len;
    while i < width
        invariant
            len == decimal(n as nat).len(),
            len <= i,
            i <= width || i == len,
            s@ =~= Seq::new((i - len) as nat, |j: int| '0'),
        decreases width - i,
    {
        s.push('0');
        i = i + 1;
    }
    let out = s.concat(digits.as_str());
    assert(out@ =~= padded(n as nat, width as nat));
    out
}

/// Reads a number: an optional plus sign, and digits whose value fits.
pub fn parse_u64(s: &str) -> (r: Option<u64>)
    ensures
        r == parsed_u64(s@),
{
    let len: usize = s.unicode_len();
    if len == 0 {
        return None;
    }
    let start: usize = if s.get_char(0) == '+' {
        1
    } else {
        0
    };
    let ghost t = if start == 1 {
        s@.skip(1)
    } else {
        s@
    };
    proof {
        assert(t.take(0) =~= Seq::empty());
    }
    if start == len {
        assert(t.len() == 0);
        return None;
    }
    let mut value: u64 = 0;
    let mut i: usize = start;
    while i < len
        invariant
            len == s@.len(),
            start <= i <= len,
            start <= 1,
            t.len() == len - start,
            forall|k: int| 0 <= k < t.len() ==> t[k] == s@[k + start],
            all_digits(t.take(i - start)),
            value == decimal_value(t.take(i - start)),
            t == (if s@.len() > 0 && s@[0] == '+' {
                s@.skip(1)
            } else {
                s@
            }),
            t.len() > 0,
        decreases len - i,
    {
        let c = s.get_char(i);
        proof {
            assert(t.take(i - start + 1).drop_last() =~= t.take(i - start));
            assert(t[i - start] == c);
        }
        if c < '0' || c > '9' {
            assert(!all_digits(t));
            return None;
        }
        proof {
            lemma_value_grows(t, i - start + 1);
        }
        let digit: u64 = (c as u32 - '0' as u32) as u64;
        if value > 1844674407370955161 || value * 10 > u64::MAX - digit {
            return None;
        }
        value = value * 10 + digit;
        i = i + 1;
    }
    assert(t.take(len - start) =~= t);
    Some(value)
}

proof fn lemma_value_grows(s: Seq<char>, n: int)
    requires
        0 <= n <= s.len(),
    ensures
        all_digits(s) ==> decimal_value(s.take(n)) <= decimal_value(s),
    decreases s.len() - n,
{
    if n < s.len() {
        assert(s.take(n + 1).drop_last() =~= s.take(n));
        lemma_value_grows(s, n + 1);
    } else {
        assert(s.take(n) =~= s);
    }
}

/// Bytes are printed two characters each, the higher half first: the digits, and small letters from
/// `a` on.
pub proof fn bytes_print_as_two_small_digits_each(bytes: &[u8], s: String, i: int)
    requires
        call_ensures(to_hex, (bytes,), s),
        0 <= i < bytes@.len(),
    ensures
        s@.len() == 2 * bytes@.len(),
        ({
            let (high, low) = (bytes@[i] as int / 16, bytes@[i] as int % 16);
            &&& s@[2 * i] as int == (if high < 10 {
                48 + high
            } else {
                87 + high
            })
            &&& s@[2 * i + 1] as int == (if low < 10 {
                48 + low
            } else {
                87 + low
            })
        }),
{
    assert((2 * i) / 2 == i && (2 * i) % 2 == 0);
    assert((2 * i + 1) / 2 == i && (2 * i + 1) % 2 == 1);
}

/// A number prints as its digits, the highest first and none in front that is not needed.
pub proof fn a_number_prints_as_its_digits(n: u64, s: String)
    requires
        call_ensures(to_decimal, (n,), s),
    ensures
        s@.len() > 0,
        s@.last() as int == 48 + n % 10,
        n < 10 ==> s@.len() == 1,
        n >= 10 ==> s@.drop_last() == decimal(n as nat / 10) && s@[0] != '0',
{
    lemma_first_digit(n as nat);
    if n >= 10 {
        assert(s@.drop_last() =~= decimal(n as nat / 10));
    }
}

proof fn lemma_first_digit(n: nat)
    ensures
        decimal(n).len() > 0,
        n > 0 ==> decimal(n)[0] != '0',
    decreases n,
{
    if n >= 10 {
        lemma_first_digit(n / 10);
    }
}

/// An id is read from exactly sixty-four hexadecimal digits, capitals or not: byte by byte, the higher
/// half first.
pub proof fn an_id_is_read_digit_by_digit(s: &str, r: Option<[u8; 32]>, i: int)
    requires
        call_ensures(from_hex, (s,), r),
        0 <= i < 32,
    ensures
        r is Some <==> s@.len() == 64 && forall|k: int|
            0 <= k < 64 ==> '0' <= #[trigger] s@[k] <= '9' || 'a' <= s@[k] <= 'f' || 'A' <= s@[k]
                <= 'F',
        r is Some ==> r->Some_0@[i] == 16 * digit_worth(s@[2 * i]) + digit_worth(s@[2 * i + 1]),
{
    if r is None && s@.len() == 64 {
        let k = choose|k: int| 0 <= k < s@.len() && hex_value(#[trigger] s@[k]) is None;
        assert(hex_value(s@[k]) is None);
    }
    if r is Some {
        assert(hex_value(s@[2 * i]) is Some);
        assert(hex_value(s@[2 * i + 1]) is Some);
        assert forall|k: int| 0 <= k < 64 implies '0' <= #[trigger] s@[k] <= '9' || 'a' <= s@[k]
            <= 'f' || 'A' <= s@[k] <= 'F' by {
            assert(hex_value(s@[k]) is Some);
        }
    }
}

/// What a character is worth as a digit.
pub open spec fn digit_worth(c: char) -> int {
    if c <= '9' {
        c as int - 48
    } else if c <= 'F' {
        c as int - 55
    } else {
        c as int - 87
    }
}

} // verus!

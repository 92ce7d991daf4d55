//! Text: equality, hexadecimal and decimal notation.
use crate::bytes::bytes_eq;
use vstd::prelude::*;
use vstd::string::*;

verus! {

/// The lower-case hexadecimal digit of a number below sixteen.
pub open spec fn hex_digit(n: int) -> char {
    if n < 10 {
        (48 + n) as char
    } else {
        (87 + n) as char
    }
}

/// Two lower-case digits for each byte, the high one first.
pub open spec fn hex_text(b: Seq<u8>) -> Seq<char> {
    Seq::new(
        2 * b.len(),
        |i: int|
            if i % 2 == 0 {
                hex_digit(b[i / 2] as int / 16)
            } else {
                hex_digit(b[i / 2] as int % 16)
            },
    )
}

/// The value of a hexadecimal digit in either case.
pub open spec fn hex_value(c: char) -> Option<int> {
    if '0' <= c <= '9' {
        Some(c as int - 48)
    } else if 'a' <= c <= 'f' {
        Some(c as int - 87)
    } else if 'A' <= c <= 'F' {
        Some(c as int - 55)
    } else {
        None
    }
}

/// The bytes that a text of hexadecimal digit pairs stands for; `None` where a
/// character is no such digit or their number is odd.
pub open spec fn hex_parse(s: Seq<char>) -> Option<Seq<u8>> {
    if s.len() % 2 != 0 || exists|i: int| 0 <= i < s.len() && hex_value(#[trigger] s[i]) is None {
        None
    } else {
        Some(
            Seq::new(
                s.len() / 2,
                |i: int| (hex_value(s[2 * i])->0 * 16 + hex_value(s[2 * i + 1])->0) as u8,
            ),
        )
    }
}

/// Calls `hex::encode`, which writes two lower-case digits for each byte.
#[verifier::external_body]
pub(crate) fn hex_encode(b: &[u8]) -> (r: String)
    ensures
        r@ == hex_text(b@),
{
    hex::encode(b)
}

/// Calls `hex::decode`, which accepts digit pairs of either case and nothing
/// else.
#[verifier::external_body]
pub(crate) fn hex_decode(s: &str) -> (r: Option<Vec<u8>>)
    ensures
        match hex_parse(s@) {
            Some(b) => r matches Some(v) && v@ == b,
            None => r is None,
        },
{
    hex::decode(s).ok()
}

/// The bytes written in hexadecimal are read back.
pub proof fn law_hex_round_trip(b: Seq<u8>)
    ensures
        hex_parse(hex_text(b)) == Some(b),
{
    let s = hex_text(b);
    assert forall|i: int| 0 <= i < s.len() implies hex_value(#[trigger] s[i]) == Some(
        if i % 2 == 0 {
            b[i / 2] as int / 16
        } else {
            b[i / 2] as int % 16
        },
    ) by {
        let n = if i % 2 == 0 {
            b[i / 2] as int / 16
        } else {
            b[i / 2] as int % 16
        };
        assert(0 <= n < 16);
        assert(s[i] == hex_digit(n));
        if n < 10 {
            assert((48 + n) as char as int == 48 + n);
        } else {
            assert((87 + n) as char as int == 87 + n);
        }
    }
    let parsed = hex_parse(s)->0;
    assert forall|i: int| 0 <= i < b.len() implies #[trigger] parsed[i] == b[i] by {
        assert(hex_value(s[2 * i]) == Some(b[i] as int / 16));
        assert(hex_value(s[2 * i + 1]) == Some(b[i] as int % 16));
    }
    assert(parsed =~= b);
}

/// The decimal notation of a number.
pub open spec fn decimal_text(n: nat) -> Seq<char>
    decreases n,
{
    if n < 10 {
        seq![(48 + n) as char]
    } else {
        decimal_text(n / 10).push((48 + n % 10) as char)
    }
}

/// The digit of a number below ten, as text.
fn digit_text(n: u64) -> (r: &'static str)
    requires
        n < 10,
    ensures
        r@ == seq![(48 + n) as char],
{
    proof {
        reveal_strlit("0");
        reveal_strlit("1");
        reveal_strlit("2");
        reveal_strlit("3");
        reveal_strlit("4");
        reveal_strlit("5");
        reveal_strlit("6");
        reveal_strlit("7");
        reveal_strlit("8");
        reveal_strlit("9");
    }
    let r: &'static str = if n == 0 {
        "0"
    } else if n == 1 {
        "1"
    } else if n == 2 {
        "2"
    } else if n == 3 {
        "3"
    } else if n == 4 {
        "4"
    } else if n == 5 {
        "5"
    } else if n == 6 {
        "6"
    } else if n == 7 {
        "7"
    } else if n == 8 {
        "8"
    } else {
        "9"
    };
    assert(r@ =~= seq![(48 + n) as char]);
    r
}

/// The decimal notation of a number.
pub fn decimal(n: u64) -> (r: String)
    ensures
        r@ == decimal_text(n as nat),
    decreases n,
{
    if n < 10 {
        digit_text(n).to_owned()
    } else {
        let mut r = decimal(n / 10);
        r.append(digit_text(n % 10));
        assert(r@ =~= decimal_text(n as nat));
        r
    }
}

/// Whether the two texts are the same.
pub fn str_eq(a: &str, b: &str) -> (r: bool)
    ensures
        r == (a@ == b@),
{
    proof {
        vstd::utf8::encode_utf8_decode_utf8(a@);
        vstd::utf8::encode_utf8_decode_utf8(b@);
    }
    bytes_eq(a.as_bytes(), b.as_bytes())
}

/// The digits of the first `n` bytes.
pub open spec fn short_hex(b: Seq<u8>, n: int) -> Seq<char> {
    hex_text(b.take(n))
}

/// The value of decimal digits; `None` where a character is no digit.
pub open spec fn digits_value(s: Seq<char>) -> Option<nat>
    decreases s.len(),
{
    if s.len() == 0 {
        Some(0)
    } else if '0' <= s.last() <= '9' {
        match digits_value(s.drop_last()) {
            Some(n) => Some((10 * n + (s.last() as int - 48)) as nat),
            None => None,
        }
    } else {
        None
    }
}

/// The number that a text stands for in decimal notation: one digit or more,
/// possibly behind a plus sign. `None` where it is no such number, or too large.
pub open spec fn parsed_number(s: Seq<char>) -> Option<u64> {
    let t = if s.len() > 0 && s[0] == '+' {
        s.skip(1)
    } else {
        s
    };
    if t.len() == 0 {
        None
    } else {
        match digits_value(t) {
            Some(n) if n <= u64::MAX => Some(n as u64),
            _ => None,
        }
    }
}

proof fn lemma_digits_stop(s: Seq<char>, n: int)
    requires
        0 <= n <= s.len(),
        digits_value(s.take(n)) is None,
    ensures
        digits_value(s) is None,
    decreases s.len() - n,
{
    if n == s.len() {
        assert(s.take(n) =~= s);
    } else {
        assert(s.take(n + 1).drop_last() =~= s.take(n));
        lemma_digits_stop(s, n + 1);
    }
}

proof fn lemma_digits_grow(s: Seq<char>, n: int)
    requires
        0 <= n <= s.len(),
    ensures
        digits_value(s) matches Some(v) ==> digits_value(s.take(n)) matches Some(u) && u <= v,
    decreases s.len() - n,
{
    if n == s.len() {
        assert(s.take(n) =~= s);
    } else {
        assert(s.take(n + 1).drop_last() =~= s.take(n));
        lemma_digits_grow(s, n + 1);
    }
}

/// The number that a text stands for in decimal notation.
pub fn parse_number(s: &str) -> (r: Option<u64>)
    ensures
        r == parsed_number(s@),
{
    let total: usize = s.unicode_len();
    let from: usize = if total > 0 && s.get_char(0) == '+' {
        1
    } else {
        0
    };
    let ghost t = s@.skip(from as int);
    proof {
        if from == 0 {
            assert(t =~= s@);
        }
    }
    if from == total {
        return None;
    }
    let mut n: u64 = 0;
    let mut i: usize = from;
    assert(t.take(0) =~= Seq::empty());
    while i < total
        invariant
            from <= i <= total,
            total == s@.len(),
            t == s@.skip(from as int),
            digits_value(t.take(i - from)) == Some(n as nat),
            t.len() > 0,
            t == if s@.len() > 0 && s@[0] == '+' {
                s@.skip(1)
            } else {
                s@
            },
        decreases total - i,
    {
        let c = s.get_char(i);
        proof {
            assert(t.take(i - from + 1).drop_last() =~= t.take(i - from));
            assert(t.take(i - from + 1).last() == c);
        }
        if c < '0' || c > '9' {
            proof {
                lemma_digits_stop(t, i - from + 1);
            }
            return None;
        }
        let digit: u64 = (c as u32 - 48) as u64;
        if n > (u64::MAX - digit) / 10 {
            proof {
                lemma_digits_grow(t, i - from + 1);
                if digits_value(t) is Some {
                    assert(digits_value(t.take(i - from + 1)) == Some((10 * n + digit) as nat));
                    assert(10 * n + digit > u64::MAX);
                }
            }
            return None;
        }
        n = 10 * n + digit;
        i += 1;
    }
    assert(t.take(i - from) =~= t);
    Some(n)
}

/// A number in decimal notation is read back.
pub proof fn law_number_round_trip(n: u64)
    ensures
        parsed_number(decimal_text(n as nat)) == Some(n),
{
    let s = decimal_text(n as nat);
    lemma_decimal_value(n as nat);
    lemma_decimal_first(n as nat);
}

proof fn lemma_decimal_value(n: nat)
    ensures
        digits_value(decimal_text(n)) == Some(n),
    decreases n,
{
    reveal_with_fuel(digits_value, 2);
    let s = decimal_text(n);
    if n < 10 {
        assert((48 + n) as char as int == 48 + n);
        assert(s.drop_last() =~= Seq::empty());
    } else {
        lemma_decimal_value(n / 10);
        assert((48 + n % 10) as char as int == 48 + n % 10);
        assert(s.drop_last() =~= decimal_text(n / 10));
    }
}

proof fn lemma_decimal_first(n: nat)
    ensures
        decimal_text(n).len() > 0,
        decimal_text(n)[0] != '+',
    decreases n,
{
    if n < 10 {
        assert((48 + n) as char as int == 48 + n);
    } else {
        lemma_decimal_first(n / 10);
        assert(decimal_text(n)[0] == decimal_text(n / 10)[0]);
    }
}

/// What is left of a text behind a prefix that it starts with.
pub open spec fn behind(s: Seq<char>, prefix: Seq<char>) -> Option<Seq<char>> {
    if prefix.is_prefix_of(s) {
        Some(s.skip(prefix.len() as int))
    } else {
        None
    }
}

/// What is left of a text behind a prefix that it starts with.
pub fn strip_prefix<'a>(s: &'a str, prefix: &str) -> (r: Option<&'a str>)
    ensures
        match behind(s@, prefix@) {
            Some(t) => r matches Some(x) && x@ == t,
            None => r is None,
        },
{
    let n: usize = prefix.unicode_len();
    let total: usize = s.unicode_len();
    if n > total {
        return None;
    }
    let start = s.substring_char(0, n);
    proof {
        assert(start@ =~= s@.take(n as int));
        if prefix@.is_prefix_of(s@) {
            assert(s@.take(n as int) =~= prefix@);
        }
    }
    if str_eq(start, prefix) {
        let rest = s.substring_char(n, total);
        assert(rest@ =~= s@.skip(n as int));
        Some(rest)
    } else {
        None
    }
}

/// The position of the first slash from a position on.
pub open spec fn slash_from(s: Seq<char>, i: int) -> Option<int>
    decreases s.len() - i,
{
    if i < 0 || i >= s.len() {
        None
    } else if s[i] == '/' {
        Some(i)
    } else {
        slash_from(s, i + 1)
    }
}

/// What comes before and behind the first slash of a text.
pub open spec fn around_slash(s: Seq<char>) -> Option<(Seq<char>, Seq<char>)> {
    match slash_from(s, 0) {
        Some(i) => Some((s.take(i), s.skip(i + 1))),
        None => None,
    }
}

/// What comes before and behind the first slash of a text.
pub fn split_at_slash<'a>(s: &'a str) -> (r: Option<(&'a str, &'a str)>)
    ensures
        match around_slash(s@) {
            Some((a, b)) => r matches Some((x, y)) && x@ == a && y@ == b,
            None => r is None,
        },
{
    let total: usize = s.unicode_len();
    let mut i: usize = 0;
    while i < total
        invariant
            i <= total,
            total == s@.len(),
            slash_from(s@, 0) == slash_from(s@, i as int),
        decreases total - i,
    {
        if s.get_char(i) == '/' {
            let before = s.substring_char(0, i);
            let after = s.substring_char(i + 1, total);
            proof {
                assert(before@ =~= s@.take(i as int));
                assert(after@ =~= s@.skip(i + 1));
            }
            return Some((before, after));
        }
        i += 1;
    }
    None
}

/// The hyphenated notation of an identifier: groups of four, two, two, two and six
/// bytes in hexadecimal notation.
pub open spec fn uuid_text(id: Seq<u8>) -> Seq<char> {
    hex_text(id.subrange(0, 4)) + "-"@ + hex_text(id.subrange(4, 6)) + "-"@ + hex_text(
        id.subrange(6, 8),
    ) + "-"@ + hex_text(id.subrange(8, 10)) + "-"@ + hex_text(id.subrange(10, 16))
}

/// The hyphenated notation of an identifier.
pub fn uuid_string(id: &[u8; 16]) -> (r: String)
    ensures
        r@ == uuid_text(id@),
{
    let b = id.as_slice();
    hex_encode(vstd::slice::slice_subrange(b, 0, 4)).concat("-").concat(
        hex_encode(vstd::slice::slice_subrange(b, 4, 6)).as_str(),
    ).concat("-").concat(hex_encode(vstd::slice::slice_subrange(b, 6, 8)).as_str()).concat(
        "-",
    ).concat(hex_encode(vstd::slice::slice_subrange(b, 8, 10)).as_str()).concat("-").concat(
        hex_encode(vstd::slice::slice_subrange(b, 10, 16)).as_str(),
    )
}

/// The hexadecimal notation has two digits for every byte, the high one first; every digit
/// is one of the ten figures or a lower-case letter up to f.
pub proof fn law_hex_digits_are_of_the_bytes(b: Seq<u8>, i: int)
    requires
        0 <= i < b.len(),
    ensures
        hex_text(b).len() == 2 * b.len(),
        hex_value(hex_text(b)[2 * i]) == Some(b[i] as int / 16),
        hex_value(hex_text(b)[2 * i + 1]) == Some(b[i] as int % 16),
        '0' <= hex_text(b)[2 * i] <= '9' || 'a' <= hex_text(b)[2 * i] <= 'f',
        '0' <= hex_text(b)[2 * i + 1] <= '9' || 'a' <= hex_text(b)[2 * i + 1] <= 'f',
        hex_value('0') == Some(0int),
        hex_value('a') == Some(10int),
        hex_value('F') == Some(15int),
{
    assert((2 * i + 1) / 2 == i && (2 * i + 1) % 2 == 1);
    assert((2 * i) / 2 == i && (2 * i) % 2 == 0);
}

/// The text of an identifier has thirty-six characters, with a hyphen behind the fourth, the
/// sixth, the eighth and the tenth byte; without them it is the hexadecimal notation.
pub proof fn law_identifier_is_written_in_groups(id: Seq<u8>)
    requires
        id.len() == 16,
    ensures
        uuid_text(id).len() == 36,
        uuid_text(id)[8] == '-' && uuid_text(id)[13] == '-' && uuid_text(id)[18] == '-',
        uuid_text(id)[23] == '-',
        uuid_text(id).subrange(0, 8) + uuid_text(id).subrange(9, 13) + uuid_text(id).subrange(
            14,
            18,
        ) + uuid_text(id).subrange(19, 23) + uuid_text(id).subrange(24, 36) == hex_text(id),
{
    reveal_strlit("-");
    let t = uuid_text(id);
    assert(t.subrange(0, 8) =~= hex_text(id.subrange(0, 4)));
    assert(t.subrange(9, 13) =~= hex_text(id.subrange(4, 6)));
    assert(t.subrange(14, 18) =~= hex_text(id.subrange(6, 8)));
    assert(t.subrange(19, 23) =~= hex_text(id.subrange(8, 10)));
    assert(t.subrange(24, 36) =~= hex_text(id.subrange(10, 16)));
    lemma_hex_part(id, 0, 4);
    lemma_hex_part(id, 4, 6);
    lemma_hex_part(id, 6, 8);
    lemma_hex_part(id, 8, 10);
    lemma_hex_part(id, 10, 16);
    assert(t.subrange(0, 8) + t.subrange(9, 13) + t.subrange(14, 18) + t.subrange(19, 23)
        + t.subrange(24, 36) =~= hex_text(id));
}

/// A part of the bytes is written as that part of the notation.
proof fn lemma_hex_part(b: Seq<u8>, from: int, to: int)
    requires
        0 <= from <= to <= b.len(),
    ensures
        hex_text(b.subrange(from, to)) == hex_text(b).subrange(2 * from, 2 * to),
{
    let part = b.subrange(from, to);
    assert forall|i: int| 0 <= i < 2 * part.len() implies #[trigger] hex_text(part)[i] == hex_text(
        b,
    )[2 * from + i] by {
        assert((2 * from + i) / 2 == from + i / 2 && (2 * from + i) % 2 == i % 2);
        assert(part[i / 2] == b[from + i / 2]);
    }
    assert(hex_text(part) =~= hex_text(b).subrange(2 * from, 2 * to));
}

} // verus!

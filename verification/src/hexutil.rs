//! Hexadecimal and decimal text utilities: parsing a byte offset written
//! either way, turning a hex string into bytes, and the character-level
//! rendering a hex dump is built from. File I/O around them lives outside
//! the library.

use vstd::prelude::*;

verus! {

/// The whitespace stripped from both ends of an offset argument: the full
/// Unicode White_Space set, as the standard trim strips it.
pub open spec fn is_space(c: char) -> bool {
    let u = c as u32;
    (0x09 <= u && u <= 0x0D) || u == 0x20 || u == 0x85 || u == 0xA0 || u == 0x1680 || (0x2000 <= u
        && u <= 0x200A) || u == 0x2028 || u == 0x2029 || u == 0x202F || u == 0x205F || u == 0x3000
}

/// How many whitespace characters the text starts with.
pub open spec fn leading_spaces(s: Seq<char>) -> nat
    decreases s.len(),
{
    if s.len() == 0 {
        0
    } else if is_space(s[0]) {
        (1 + leading_spaces(s.subrange(1, s.len() as int))) as nat
    } else {
        0
    }
}

/// How many whitespace characters the text ends with.
pub open spec fn trailing_spaces(s: Seq<char>) -> nat
    decreases s.len(),
{
    if s.len() == 0 {
        0
    } else if is_space(s[s.len() - 1]) {
        (1 + trailing_spaces(s.drop_last())) as nat
    } else {
        0
    }
}

/// The text with surrounding whitespace removed.
pub open spec fn trimmed(s: Seq<char>) -> Seq<char> {
    if leading_spaces(s) == s.len() {
        Seq::empty()
    } else {
        s.subrange(leading_spaces(s) as int, s.len() - trailing_spaces(s) as int)
    }
}

proof fn lemma_leading_spaces_unique(s: Seq<char>, k: int)
    requires
        0 <= k <= s.len(),
        forall|i: int| 0 <= i < k ==> is_space(s[i]),
        k < s.len() ==> !is_space(s[k]),
    ensures
        leading_spaces(s) == k,
    decreases s.len(),
{
    if s.len() == 0 {
    } else if k == 0 {
    } else {
        let t = s.subrange(1, s.len() as int);
        assert(forall|i: int| 0 <= i < k - 1 ==> is_space(t[i]));
        lemma_leading_spaces_unique(t, k - 1);
    }
}

proof fn lemma_trailing_spaces_unique(s: Seq<char>, k: int)
    requires
        0 <= k <= s.len(),
        forall|i: int| s.len() - k <= i < s.len() ==> is_space(s[i]),
        k < s.len() ==> !is_space(s[s.len() - k - 1]),
    ensures
        trailing_spaces(s) == k,
    decreases s.len(),
{
    if s.len() == 0 {
    } else if k == 0 {
    } else {
        let t = s.drop_last();
        assert(forall|i: int| t.len() - (k - 1) <= i < t.len() ==> is_space(t[i]));
        lemma_trailing_spaces_unique(t, k - 1);
    }
}

/// Locate the trimmed part of `s`: the returned half-open range holds
/// exactly `trimmed(s@)`.
fn trim_range(s: &str) -> (p: (usize, usize))
    ensures
        p.0 <= p.1 <= s@.len(),
        s@.subrange(p.0 as int, p.1 as int) == trimmed(s@),
{
    let n = s.unicode_len();
    let mut lo: usize = 0;
    while lo < n && is_space_char(s.get_char(lo))
        invariant
            lo <= n,
            n == s@.len(),
            forall|i: int| 0 <= i < lo ==> is_space(s@[i]),
        decreases n - lo,
    {
        lo = lo + 1;
    }
    proof {
        lemma_leading_spaces_unique(s@, lo as int);
    }
    if lo == n {
        proof {
            assert(s@.subrange(lo as int, lo as int) =~= trimmed(s@));
        }
        return (n, n);
    }
    let mut hi: usize = n;
    while hi > lo && is_space_char(s.get_char(hi - 1))
        invariant
            lo <= hi <= n,
            n == s@.len(),
            lo < n && !is_space(s@[lo as int]),
            forall|i: int| hi <= i < n ==> is_space(s@[i]),
        decreases hi,
    {
        hi = hi - 1;
    }
    proof {
        assert(hi > lo);
        lemma_trailing_spaces_unique(s@, n - hi);
        assert(s@.subrange(lo as int, hi as int) =~= trimmed(s@));
    }
    (lo, hi)
}

/// Whether one character is whitespace.
fn is_space_char(c: char) -> (r: bool)
    ensures
        r == is_space(c),
{
    let u = c as u32;
    (0x09 <= u && u <= 0x0D) || u == 0x20 || u == 0x85 || u == 0xA0 || u == 0x1680 || (0x2000 <= u
        && u <= 0x200A) || u == 0x2028 || u == 0x2029 || u == 0x202F || u == 0x205F || u == 0x3000
}

/// Whether `c` is a hexadecimal digit, upper or lower case.
pub open spec fn is_hex_digit(c: char) -> bool {
    (48 <= c as u32 && c as u32 <= 57) || (65 <= c as u32 && c as u32 <= 70) || (97 <= c as u32
        && c as u32 <= 102)
}

/// The value of a hexadecimal digit (0 for anything else).
pub open spec fn hex_digit_val(c: char) -> u8 {
    if 48 <= c as u32 && c as u32 <= 57 {
        (c as u32 - 48) as u8
    } else if 65 <= c as u32 && c as u32 <= 70 {
        (c as u32 - 55) as u8
    } else if 97 <= c as u32 && c as u32 <= 102 {
        (c as u32 - 87) as u8
    } else {
        0
    }
}

/// Whether `c` is a decimal digit.
pub open spec fn is_dec_digit(c: char) -> bool {
    48 <= c as u32 && c as u32 <= 57
}

/// The value of a decimal digit (0 for anything else).
pub open spec fn dec_digit_val(c: char) -> u8 {
    if 48 <= c as u32 && c as u32 <= 57 {
        (c as u32 - 48) as u8
    } else {
        0
    }
}

/// Every character is a hexadecimal digit.
pub open spec fn all_hex(s: Seq<char>) -> bool {
    forall|i: int| 0 <= i < s.len() ==> is_hex_digit(s[i])
}

/// Every character is a decimal digit.
pub open spec fn all_dec(s: Seq<char>) -> bool {
    forall|i: int| 0 <= i < s.len() ==> is_dec_digit(s[i])
}

/// The number a string of hexadecimal digits denotes.
pub open spec fn hex_value(s: Seq<char>) -> nat
    decreases s.len(),
{
    if s.len() == 0 {
        0
    } else {
        (16 * hex_value(s.drop_last()) + hex_digit_val(s.last())) as nat
    }
}

/// The number a string of decimal digits denotes.
pub open spec fn dec_value(s: Seq<char>) -> nat
    decreases s.len(),
{
    if s.len() == 0 {
        0
    } else {
        (10 * dec_value(s.drop_last()) + dec_digit_val(s.last())) as nat
    }
}

/// A number never shrinks when digits are appended.
proof fn lemma_hex_value_prefix(s: Seq<char>, k: int)
    requires
        0 <= k <= s.len(),
    ensures
        hex_value(s) >= hex_value(s.subrange(0, k)),
    decreases s.len(),
{
    if k == s.len() {
        assert(s.subrange(0, k) =~= s);
    } else {
        let t = s.drop_last();
        lemma_hex_value_prefix(t, k);
        assert(t.subrange(0, k) =~= s.subrange(0, k));
    }
}

proof fn lemma_dec_value_prefix(s: Seq<char>, k: int)
    requires
        0 <= k <= s.len(),
    ensures
        dec_value(s) >= dec_value(s.subrange(0, k)),
    decreases s.len(),
{
    if k == s.len() {
        assert(s.subrange(0, k) =~= s);
    } else {
        let t = s.drop_last();
        lemma_dec_value_prefix(t, k);
        assert(t.subrange(0, k) =~= s.subrange(0, k));
    }
}

/// The digit string with one leading plus sign removed, as the standard
/// number parsers accept.
pub open spec fn strip_plus(s: Seq<char>) -> Seq<char> {
    if s.len() > 0 && s[0] == '+' {
        s.subrange(1, s.len() as int)
    } else {
        s
    }
}

/// The value of one hexadecimal digit, or nothing.
fn hex_digit(c: char) -> (r: Option<u8>)
    ensures
        r is Some <==> is_hex_digit(c),
        r matches Some(d) ==> d == hex_digit_val(c) && d < 16,
{
    let u = c as u32;
    if 48 <= u && u <= 57 {
        Some((u - 48) as u8)
    } else if 65 <= u && u <= 70 {
        Some((u - 55) as u8)
    } else if 97 <= u && u <= 102 {
        Some((u - 87) as u8)
    } else {
        None
    }
}

/// The value of one decimal digit, or nothing.
fn dec_digit(c: char) -> (r: Option<u8>)
    ensures
        r is Some <==> is_dec_digit(c),
        r matches Some(d) ==> d == dec_digit_val(c) && d < 10,
{
    let u = c as u32;
    if 48 <= u && u <= 57 {
        Some((u - 48) as u8)
    } else {
        None
    }
}

/// Read `s[lo..hi]` as an unsigned hexadecimal number. Succeeds exactly when
/// the range is a nonempty run of hex digits whose value fits in 64 bits.
fn parse_hex_u64(s: &str, lo: usize, hi: usize) -> (r: Option<u64>)
    requires
        lo <= hi <= s@.len(),
    ensures
        r is Some <==> (lo < hi && all_hex(s@.subrange(lo as int, hi as int)) && hex_value(
            s@.subrange(lo as int, hi as int),
        ) <= u64::MAX),
        r matches Some(v) ==> v == hex_value(s@.subrange(lo as int, hi as int)),
{
    let ghost sub = s@.subrange(lo as int, hi as int);
    if lo == hi {
        return None;
    }
    let mut val: u64 = 0;
    let mut i: usize = lo;
    while i < hi
        invariant
            lo <= i <= hi <= s@.len(),
            sub == s@.subrange(lo as int, hi as int),
            all_hex(s@.subrange(lo as int, i as int)),
            val == hex_value(s@.subrange(lo as int, i as int)),
        decreases hi - i,
    {
        let ghost pre = s@.subrange(lo as int, i as int);
        let c = s.get_char(i);
        let d = match hex_digit(c) {
            Some(d) => d,
            None => {
                proof {
                    assert(sub[i - lo] == s@[i as int]);
                    assert(!all_hex(sub));
                }
                return None;
            },
        };
        let ghost pre2 = s@.subrange(lo as int, i + 1 as int);
        proof {
            assert(pre2.drop_last() =~= pre);
            assert(pre2.last() == c);
            assert(hex_value(pre2) == 16 * val + d);
        }
        if val > 0xFFF_FFFF_FFFF_FFFF {
            proof {
                assert(sub.subrange(0, (i + 1 - lo) as int) =~= pre2);
                lemma_hex_value_prefix(sub, (i + 1 - lo) as int);
                assert(hex_value(sub) > u64::MAX);
            }
            return None;
        }
        val = val * 16 + (d as u64);
        i = i + 1;
    }
    proof {
        assert(s@.subrange(lo as int, i as int) =~= sub);
    }
    Some(val)
}

/// Read `s[lo..hi]` as an unsigned decimal number. Succeeds exactly when the
/// range is a nonempty run of decimal digits whose value fits in 64 bits.
fn parse_dec_u64(s: &str, lo: usize, hi: usize) -> (r: Option<u64>)
    requires
        lo <= hi <= s@.len(),
    ensures
        r is Some <==> (lo < hi && all_dec(s@.subrange(lo as int, hi as int)) && dec_value(
            s@.subrange(lo as int, hi as int),
        ) <= u64::MAX),
        r matches Some(v) ==> v == dec_value(s@.subrange(lo as int, hi as int)),
{
    let ghost sub = s@.subrange(lo as int, hi as int);
    if lo == hi {
        return None;
    }
    let mut val: u64 = 0;
    let mut i: usize = lo;
    while i < hi
        invariant
            lo <= i <= hi <= s@.len(),
            sub == s@.subrange(lo as int, hi as int),
            all_dec(s@.subrange(lo as int, i as int)),
            val == dec_value(s@.subrange(lo as int, i as int)),
        decreases hi - i,
    {
        let ghost pre = s@.subrange(lo as int, i as int);
        let c = s.get_char(i);
        let d = match dec_digit(c) {
            Some(d) => d,
            None => {
                proof {
                    assert(sub[i - lo] == s@[i as int]);
                    assert(!all_dec(sub));
                }
                return None;
            },
        };
        let ghost pre2 = s@.subrange(lo as int, i + 1 as int);
        proof {
            assert(pre2.drop_last() =~= pre);
            assert(pre2.last() == c);
            assert(dec_value(pre2) == 10 * val + d);
        }
        if val > 1844674407370955161 || (val == 1844674407370955161 && d > 5) {
            proof {
                assert(sub.subrange(0, (i + 1 - lo) as int) =~= pre2);
                lemma_dec_value_prefix(sub, (i + 1 - lo) as int);
                assert(dec_value(sub) > u64::MAX);
            }
            return None;
        }
        val = val * 10 + (d as u64);
        i = i + 1;
    }
    proof {
        assert(s@.subrange(lo as int, i as int) =~= sub);
    }
    Some(val)
}

/// Why an offset argument was rejected.
#[derive(Clone, Copy, Debug, PartialEq, Eq, Structural)]
pub enum OffsetError {
    InvalidHex,
    InvalidDecimal,
}

/// What `parse_offset` returns: after trimming, a `0x` prefix selects
/// hexadecimal, anything else decimal; one leading plus sign is accepted the
/// way the standard number parsers accept it, and a value that does not fit
/// in 64 bits is rejected.
pub open spec fn offset_spec(s: Seq<char>) -> Result<u64, OffsetError> {
    let t = trimmed(s);
    if t.len() >= 2 && t[0] == '0' && t[1] == 'x' {
        let d = strip_plus(t.subrange(2, t.len() as int));
        if d.len() > 0 && all_hex(d) && hex_value(d) <= u64::MAX {
            Ok(hex_value(d) as u64)
        } else {
            Err(OffsetError::InvalidHex)
        }
    } else {
        let d = strip_plus(t);
        if d.len() > 0 && all_dec(d) && dec_value(d) <= u64::MAX {
            Ok(dec_value(d) as u64)
        } else {
            Err(OffsetError::InvalidDecimal)
        }
    }
}

/// Parse a byte offset given either in decimal ("100") or, with a `0x`
/// prefix, in hexadecimal ("0x10"). Surrounding whitespace is ignored.
pub fn parse_offset(input: &str) -> (r: Result<u64, OffsetError>)
    ensures
        r == offset_spec(input@),
{
    let ghost t = trimmed(input@);
    let (lo, hi) = trim_range(input);
    if hi - lo >= 2 && input.get_char(lo) == '0' && input.get_char(lo + 1) == 'x' {
        let start: usize = if lo + 2 < hi && input.get_char(lo + 2) == '+' {
            lo + 3
        } else {
            lo + 2
        };
        proof {
            assert(t[0] == input@[lo as int]);
            assert(t[1] == input@[lo + 1 as int]);
            assert(input@.subrange(start as int, hi as int) =~= strip_plus(
                t.subrange(2, t.len() as int),
            ));
        }
        match parse_hex_u64(input, start, hi) {
            Some(v) => Ok(v),
            None => Err(OffsetError::InvalidHex),
        }
    } else {
        let start: usize = if lo < hi && input.get_char(lo) == '+' {
            lo + 1
        } else {
            lo
        };
        proof {
            if hi - lo >= 2 {
                assert(t[0] == input@[lo as int]);
                assert(t[1] == input@[lo + 1 as int]);
            }
            assert(input@.subrange(start as int, hi as int) =~= strip_plus(t));
        }
        match parse_dec_u64(input, start, hi) {
            Some(v) => Ok(v),
            None => Err(OffsetError::InvalidDecimal),
        }
    }
}

/// Why a hex string could not become bytes.
#[derive(Clone, Copy, Debug, PartialEq, Eq, Structural)]
pub enum HexStringError {
    OddLength,
    InvalidDigit(usize),
}

/// A two-character group the standard byte parser accepts: two hex digits,
/// or a plus sign followed by one.
pub open spec fn valid_pair(a: char, b: char) -> bool {
    (is_hex_digit(a) && is_hex_digit(b)) || (a == '+' && is_hex_digit(b))
}

/// The byte a two-character group denotes.
pub open spec fn pair_val(a: char, b: char) -> u8 {
    if a == '+' {
        hex_digit_val(b)
    } else {
        (16 * hex_digit_val(a) + hex_digit_val(b)) as u8
    }
}

/// Every two-character group of the string is a valid byte.
pub open spec fn all_pairs_valid(s: Seq<char>) -> bool {
    forall|k: int| 0 <= k && 2 * k + 1 < s.len() ==> #[trigger] valid_pair(s[2 * k], s[2 * k + 1])
}

/// The bytes an even-length string of valid groups denotes.
pub open spec fn hex_bytes_spec(s: Seq<char>) -> Seq<u8> {
    Seq::new((s.len() / 2) as nat, |k: int| pair_val(s[2 * k], s[2 * k + 1]))
}

/// `i` is the position of the first invalid two-character group.
pub open spec fn first_bad_pair(s: Seq<char>, i: int) -> bool {
    &&& 0 <= i
    &&& i % 2 == 0
    &&& i + 1 < s.len()
    &&& !valid_pair(s[i], s[i + 1])
    &&& forall|k: int| 0 <= k && 2 * k + 1 < i ==> #[trigger] valid_pair(s[2 * k], s[2 * k + 1])
}

/// Convert a string such as "48656c" into the bytes it spells, two digits
/// per byte. An odd-length string is rejected outright; otherwise the first
/// group that is not a byte is reported by its character position.
pub fn hex_string_to_bytes(hex: &str) -> (r: Result<Vec<u8>, HexStringError>)
    ensures
        hex@.len() % 2 != 0 ==> r == Err::<Vec<u8>, HexStringError>(HexStringError::OddLength),
        hex@.len() % 2 == 0 && all_pairs_valid(hex@) ==> (r matches Ok(v) && v@ == hex_bytes_spec(
            hex@,
        )),
        hex@.len() % 2 == 0 && !all_pairs_valid(hex@) ==> (r matches Err(e) && e matches
            HexStringError::InvalidDigit(i) && first_bad_pair(hex@, i as int)),
{
    let n = hex.unicode_len();
    if n % 2 != 0 {
        return Err(HexStringError::OddLength);
    }
    let mut out: Vec<u8> = Vec::new();
    let mut i: usize = 0;
    while i < n
        invariant
            i <= n,
            n == hex@.len(),
            n % 2 == 0,
            i % 2 == 0,
            out@.len() == i / 2,
            forall|k: int| 0 <= k && 2 * k + 1 < i ==> #[trigger] valid_pair(hex@[2 * k], hex@[2 * k + 1]),
            forall|k: int|
                0 <= k < out@.len() ==> out@[k] == pair_val(hex@[2 * k], hex@[2 * k + 1]),
        decreases n - i,
    {
        let c1 = hex.get_char(i);
        let c2 = hex.get_char(i + 1);
        let b: u8 = match hex_digit(c1) {
            Some(h1) => {
                match hex_digit(c2) {
                    Some(h2) => 16 * h1 + h2,
                    None => {
                        proof {
                            let k = i as int / 2;
                            assert(2 * k == i as int);
                            assert(!valid_pair(hex@[2 * k], hex@[2 * k + 1]));
                            assert(!all_pairs_valid(hex@));
                        }
                        return Err(HexStringError::InvalidDigit(i));
                    },
                }
            },
            None => {
                if c1 == '+' {
                    match hex_digit(c2) {
                        Some(h2) => h2,
                        None => {
                            proof {
                                let k = i as int / 2;
                                assert(2 * k == i as int);
                                assert(!valid_pair(hex@[2 * k], hex@[2 * k + 1]));
                                assert(!all_pairs_valid(hex@));
                            }
                            return Err(HexStringError::InvalidDigit(i));
                        },
                    }
                } else {
                    proof {
                        let k = i as int / 2;
                        assert(2 * k == i as int);
                        assert(!valid_pair(hex@[2 * k], hex@[2 * k + 1]));
                        assert(!all_pairs_valid(hex@));
                    }
                    return Err(HexStringError::InvalidDigit(i));
                }
            },
        };
        out.push(b);
        i = i + 2;
    }
    proof {
        assert(out@ =~= hex_bytes_spec(hex@));
    }
    Ok(out)
}

/// Read a whole token as one byte given in hexadecimal, as a grid map file
/// spells its cells. One leading plus sign is accepted; values above 255 are
/// not.
pub fn parse_hex_byte(s: &str) -> (r: Option<u8>)
    ensures
        r is Some <==> (strip_plus(s@).len() > 0 && all_hex(strip_plus(s@)) && hex_value(
            strip_plus(s@),
        ) <= 255),
        r matches Some(v) ==> v == hex_value(strip_plus(s@)),
{
    let n = s.unicode_len();
    let start: usize = if n > 0 && s.get_char(0) == '+' {
        1
    } else {
        0
    };
    proof {
        assert(s@.subrange(start as int, n as int) =~= strip_plus(s@));
    }
    match parse_hex_u64(s, start, n) {
        Some(v) => {
            if v <= 255 {
                Some(v as u8)
            } else {
                None
            }
        },
        None => None,
    }
}

/// The lower-case hexadecimal digit for a value below 16.
pub open spec fn hex_char_spec(n: u8) -> char {
    if n < 10 {
        (48 + n) as char
    } else {
        (87 + n) as char
    }
}

/// The two lower-case hexadecimal digits of one byte, as a hex dump prints
/// it.
pub fn byte_to_hex_chars(b: u8) -> (p: (char, char))
    ensures
        p.0 == hex_char_spec(b / 16),
        p.1 == hex_char_spec(b % 16),
{
    (hex_char_of(b / 16), hex_char_of(b % 16))
}

/// The lower-case hexadecimal digit for a value below 16.
fn hex_char_of(n: u8) -> (c: char)
    requires
        n < 16,
    ensures
        c == hex_char_spec(n),
{
    if n < 10 {
        (48 + n) as char
    } else {
        (87 + n) as char
    }
}

/// How a hex dump's text column shows one byte: the character itself for
/// printable ASCII, a dot for everything else.
pub fn display_char(b: u8) -> (c: char)
    ensures
        0x20 <= b <= 0x7E ==> c == b as char,
        !(0x20 <= b <= 0x7E) ==> c == '.',
{
    if 0x20 <= b && b <= 0x7E {
        b as char
    } else {
        '.'
    }
}

} // verus!

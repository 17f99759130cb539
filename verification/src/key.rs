//! The initial key in its hexadecimal form.
use crate::crypto::KEY_LEN;
use crate::text;
use vstd::prelude::*;
use vstd::string::StringExecFns;

verus! {

/// `c` has the Unicode property White_Space.
pub open spec fn is_white_space(c: char) -> bool {
    let u = c as u32;
    ||| 0x09 <= u <= 0x0d
    ||| u == 0x20
    ||| u == 0x85
    ||| u == 0xa0
    ||| u == 0x1680
    ||| 0x2000 <= u <= 0x200a
    ||| u == 0x2028
    ||| u == 0x2029
    ||| u == 0x202f
    ||| u == 0x205f
    ||| u == 0x3000
}

/// `s` without the white space at its two ends.
pub open spec fn trimmed(s: Seq<char>) -> Seq<char>
    decreases s.len(),
{
    if s.len() == 0 {
        s
    } else if is_white_space(s.first()) {
        trimmed(s.drop_first())
    } else if is_white_space(s.last()) {
        trimmed(s.drop_last())
    } else {
        s
    }
}

/// `str::trim`: the text without leading and trailing white space, which is
/// what has the Unicode property White_Space.
pub assume_specification[ str::trim ](s: &str) -> (r: &str)
    ensures
        r@ == trimmed(s@),
;

/// Why a text is not hexadecimal.
#[derive(Debug, Clone, Copy, PartialEq, Eq, Structural)]
pub enum HexError {
    /// A byte of the text, here as the character with its number, is no
    /// hexadecimal digit.
    InvalidHexCharacter { c: char, index: usize },
    /// The text has an odd number of digits.
    OddLength,
    /// The text does not have the length asked for.
    InvalidStringLength,
}

/// `b` is a hexadecimal digit, in upper or lower case.
pub open spec fn is_hex_digit(b: u8) -> bool {
    0x30 <= b <= 0x39 || 0x41 <= b <= 0x46 || 0x61 <= b <= 0x66
}

/// The value of a hexadecimal digit.
pub open spec fn hex_value(b: u8) -> int {
    if b <= 0x39 {
        b - 0x30
    } else if b <= 0x46 {
        b - 0x41 + 10
    } else {
        b - 0x61 + 10
    }
}

/// The number of hexadecimal digits at the start of `t`.
pub open spec fn leading_digits(t: Seq<u8>) -> nat
    decreases t.len(),
{
    if t.len() == 0 || !is_hex_digit(t[0]) {
        0
    } else {
        1 + leading_digits(t.drop_first())
    }
}

/// What the hexadecimal text `t` writes down, two digits a byte, or why it does
/// not.
pub open spec fn hex_decoded(t: Seq<u8>) -> Result<Seq<u8>, HexError> {
    let k = leading_digits(t);
    if t.len() % 2 != 0 {
        Err(HexError::OddLength)
    } else if k < t.len() {
        Err(HexError::InvalidHexCharacter { c: t[k as int] as char, index: k as usize })
    } else {
        Ok(
            Seq::new(
                t.len() / 2,
                |i: int| (16 * hex_value(t[2 * i]) + hex_value(t[2 * i + 1])) as u8,
            ),
        )
    }
}

/// `hex::decode`: reads two digits a byte, in upper or lower case. It reports
/// an odd length first, and then the first byte that is no digit. The error is
/// handed on variant by variant.
#[verifier::external_body]
fn hex_decode(t: &[u8]) -> (r: Result<Vec<u8>, HexError>)
    ensures
        match r {
            Ok(v) => hex_decoded(t@) == Ok::<Seq<u8>, HexError>(v@),
            Err(e) => hex_decoded(t@) == Err::<Seq<u8>, HexError>(e),
        },
{
    match hex::decode(t) {
        Ok(v) => Ok(v),
        Err(hex::FromHexError::InvalidHexCharacter { c, index }) => Err(
            HexError::InvalidHexCharacter { c, index },
        ),
        Err(hex::FromHexError::OddLength) => Err(HexError::OddLength),
        Err(hex::FromHexError::InvalidStringLength) => Err(HexError::InvalidStringLength),
    }
}

/// What the `Debug` of `char` shows for a character: the character in single
/// quotes, escaped if need be.
pub uninterp spec fn char_debug(c: char) -> Seq<char>;

impl HexError {
    /// The message shown for the error.
    pub open spec fn text(self) -> Seq<char> {
        match self {
            HexError::InvalidHexCharacter { c, index } => "Invalid character "@ + char_debug(c)
                + " at position "@ + text::decimal(index as nat),
            HexError::OddLength => "Odd number of digits"@,
            HexError::InvalidStringLength => "Invalid string length"@,
        }
    }
}

/// `to_string` of `hex::FromHexError`, that is its `Display`: a fixed text for
/// each variant, into which an invalid character is put as `{:?}` shows it, and
/// its position in decimal.
#[verifier::external_body]
fn hex_error_text(e: HexError) -> (r: String)
    ensures
        e matches HexError::InvalidHexCharacter { c, index } ==> r@ == "Invalid character "@
            + char_debug(c) + " at position "@ + text::decimal(index as nat),
        e == HexError::OddLength ==> r@ == "Odd number of digits"@,
        e == HexError::InvalidStringLength ==> r@ == "Invalid string length"@,
{
    let outside = match e {
        HexError::InvalidHexCharacter { c, index } => hex::FromHexError::InvalidHexCharacter {
            c,
            index,
        },
        HexError::OddLength => hex::FromHexError::OddLength,
        HexError::InvalidStringLength => hex::FromHexError::InvalidStringLength,
    };
    outside.to_string()
}

/// The key that a decoded text gives, or the message that says why it gives
/// none.
pub open spec fn key_of(decoded: Result<Seq<u8>, HexError>) -> Result<Seq<u8>, Seq<char>> {
    match decoded {
        Err(e) => Err("chiave non valida (atteso esadecimale): "@ + e.text()),
        Ok(k) => if k.len() != KEY_LEN {
            Err(
                "la chiave deve essere di 32 byte (64 caratteri hex), trovati "@ + text::decimal(
                    k.len(),
                ) + " byte"@,
            )
        } else {
            Ok(k)
        },
    }
}

/// `r` holds the key or the message that `expected` says.
pub open spec fn is_key_result(
    r: Result<[u8; KEY_LEN], String>,
    expected: Result<Seq<u8>, Seq<char>>,
) -> bool {
    match r {
        Ok(k) => expected == Ok::<Seq<u8>, Seq<char>>(k@),
        Err(m) => expected == Err::<Seq<u8>, Seq<char>>(m@),
    }
}

/// The same decoded text, seen as a sequence.
pub open spec fn decoded_view(decoded: Result<Vec<u8>, HexError>) -> Result<Seq<u8>, HexError> {
    match decoded {
        Ok(v) => Ok(v@),
        Err(e) => Err(e),
    }
}

/// Makes the key of a decoded text: it has to be 32 bytes long.
pub fn key_from_decoded(decoded: Result<Vec<u8>, HexError>) -> (r: Result<[u8; KEY_LEN], String>)
    ensures
        is_key_result(r, key_of(decoded_view(decoded))),
        match decoded {
            Ok(v) => if v@.len() == 32 {
                r matches Ok(k) && k@ == v@
            } else {
                r matches Err(m) && m@
                    == "la chiave deve essere di 32 byte (64 caratteri hex), trovati "@
                    + text::decimal(v@.len()) + " byte"@
            },
            Err(HexError::InvalidHexCharacter { c, index }) => r matches Err(m) && m@
                == "chiave non valida (atteso esadecimale): "@ + ("Invalid character "@
                + char_debug(c) + " at position "@ + text::decimal(index as nat)),
            Err(HexError::OddLength) => r matches Err(m) && m@
                == "chiave non valida (atteso esadecimale): "@ + "Odd number of digits"@,
            Err(HexError::InvalidStringLength) => r matches Err(m) && m@
                == "chiave non valida (atteso esadecimale): "@ + "Invalid string length"@,
        },
{
    match decoded {
        Err(e) => {
            let detail: String = hex_error_text(e);
            Err(text::concat("chiave non valida (atteso esadecimale): ", detail.as_str()))
        },
        Ok(v) => {
            if v.len() != KEY_LEN {
                let found: String = text::decimal_text(v.len());
                let mut m: String = text::concat(
                    "la chiave deve essere di 32 byte (64 caratteri hex), trovati ",
                    found.as_str(),
                );
                m.append(" byte");
                return Err(m);
            }
            let mut k0: [u8; KEY_LEN] = [0u8; KEY_LEN];
            let mut i: usize = 0;
            while i < KEY_LEN
                invariant
                    i <= KEY_LEN,
                    v@.len() == KEY_LEN,
                    forall|j: int| 0 <= j < i ==> k0@[j] == v@[j],
                decreases KEY_LEN - i,
            {
                k0[i] = v[i];
                i = i + 1;
            }
            assert(k0@ =~= v@);
            Ok(k0)
        },
    }
}

/// Reads a key of 32 bytes from its 64 hexadecimal digits. White space around
/// them is ignored.
pub fn parse_key(hex_key: &str) -> (r: Result<[u8; KEY_LEN], String>)
    ensures
        is_key_result(
            r,
            key_of(hex_decoded(vstd::utf8::encode_utf8(trimmed(hex_key@)))),
        ),
        ({
            let t = vstd::utf8::encode_utf8(trimmed(hex_key@));
            &&& r is Ok <==> t.len() == 64 && forall|i: int|
                0 <= i < 64 ==> (0x30 <= #[trigger] t[i] <= 0x39 || 0x41 <= t[i] <= 0x46 || 0x61
                    <= t[i] <= 0x66)
            &&& r matches Ok(k) ==> forall|i: int|
                0 <= i < 32 ==> #[trigger] k@[i] == 16 * (if t[2 * i] <= 0x39 {
                    t[2 * i] - 0x30
                } else if t[2 * i] <= 0x46 {
                    t[2 * i] - 0x37
                } else {
                    t[2 * i] - 0x57
                }) + (if t[2 * i + 1] <= 0x39 {
                    t[2 * i + 1] - 0x30
                } else if t[2 * i + 1] <= 0x46 {
                    t[2 * i + 1] - 0x37
                } else {
                    t[2 * i + 1] - 0x57
                })
        }),
{
    proof {
        law_key_is_64_digits(vstd::utf8::encode_utf8(trimmed(hex_key@)));
    }
    let decoded: Result<Vec<u8>, HexError> = hex_decode(hex_key.trim().as_bytes());
    key_from_decoded(decoded)
}

/// `s` is white space throughout.
pub open spec fn all_white_space(s: Seq<char>) -> bool {
    forall|i: int| 0 <= i < s.len() ==> is_white_space(#[trigger] s[i])
}

/// White space around a key makes no difference to it.
pub proof fn law_surrounding_white_space_is_ignored(
    before: Seq<char>,
    s: Seq<char>,
    after: Seq<char>,
)
    requires
        all_white_space(before),
        all_white_space(after),
    ensures
        trimmed(before + s + after) == trimmed(s),
    decreases before.len() + s.len() + after.len(),
{
    let all = before + s + after;
    if before.len() > 0 {
        assert(is_white_space(before[0]));
        assert(all.first() == before[0]);
        assert(all.drop_first() =~= before.drop_first() + s + after);
        law_surrounding_white_space_is_ignored(before.drop_first(), s, after);
    } else if s.len() > 0 && is_white_space(s.first()) {
        assert(all.first() == s.first());
        assert(all.drop_first() =~= before + s.drop_first() + after);
        law_surrounding_white_space_is_ignored(before, s.drop_first(), after);
    } else if after.len() > 0 {
        assert(is_white_space(after[after.len() - 1]));
        assert(all.last() == after.last());
        if s.len() > 0 {
            assert(all.first() == s.first());
            assert(all.drop_last() =~= before + s + after.drop_last());
            law_surrounding_white_space_is_ignored(before, s, after.drop_last());
        } else {
            assert(is_white_space(after[0]));
            assert(all.first() == after[0]);
            assert(all.drop_first() =~= before + s + after.drop_first());
            law_surrounding_white_space_is_ignored(before, s, after.drop_first());
        }
    } else {
        assert(all =~= s);
    }
}

/// The hexadecimal digit for a value under 16, in upper or in lower case.
pub open spec fn hex_digit(v: int, upper: bool) -> char {
    if v < 10 {
        (0x30 + v) as char
    } else if upper {
        (0x41 + v - 10) as char
    } else {
        (0x61 + v - 10) as char
    }
}

/// `k` in hexadecimal, two digits a byte. `upper` says for each digit whether it
/// is in upper case.
pub open spec fn hex_of(k: Seq<u8>, upper: Seq<bool>) -> Seq<char> {
    Seq::new(
        2 * k.len(),
        |i: int|
            hex_digit(
                if i % 2 == 0 {
                    k[i / 2] as int / 16
                } else {
                    k[i / 2] as int % 16
                },
                upper[i],
            ),
    )
}

/// A text of digits alone is all leading digits.
proof fn lemma_all_digits(t: Seq<u8>)
    requires
        forall|i: int| 0 <= i < t.len() ==> is_hex_digit(#[trigger] t[i]),
    ensures
        leading_digits(t) == t.len(),
    decreases t.len(),
{
    if t.len() > 0 {
        assert forall|i: int| 0 <= i < t.drop_first().len() implies is_hex_digit(
            #[trigger] t.drop_first()[i],
        ) by {
            assert(t.drop_first()[i] == t[i + 1]);
        }
        lemma_all_digits(t.drop_first());
    }
}

/// A key of 32 bytes, written in hexadecimal in any mix of upper and lower
/// case, and with any white space around it, reads back as itself.
pub proof fn law_written_key_reads_back(
    k: Seq<u8>,
    upper: Seq<bool>,
    before: Seq<char>,
    after: Seq<char>,
)
    requires
        k.len() == KEY_LEN,
        upper.len() == 2 * k.len(),
        all_white_space(before),
        all_white_space(after),
    ensures
        key_of(
            hex_decoded(vstd::utf8::encode_utf8(trimmed(before + hex_of(k, upper) + after))),
        ) == Ok::<Seq<u8>, Seq<char>>(k),
{
    let h = hex_of(k, upper);
    law_surrounding_white_space_is_ignored(before, h, after);
    assert(!is_white_space(h.first()));
    assert(!is_white_space(h.last()));
    assert(vstd::utf8::is_ascii_chars(h));
    vstd::utf8::is_ascii_chars_encode_utf8(h);
    let t = vstd::utf8::encode_utf8(h);
    assert forall|i: int| 0 <= i < t.len() implies is_hex_digit(#[trigger] t[i]) by {
        assert(t[i] == h[i] as u8);
    }
    lemma_all_digits(t);
    let d = hex_decoded(t)->Ok_0;
    assert forall|i: int| 0 <= i < k.len() implies d[i] == k[i] by {
        assert(t[2 * i] == h[2 * i] as u8);
        assert(t[2 * i + 1] == h[2 * i + 1] as u8);
        assert((2 * i) / 2 == i && (2 * i) % 2 == 0);
        assert((2 * i + 1) / 2 == i && (2 * i + 1) % 2 == 1);
    }
    assert(d =~= k);
}

/// Where the leading digits end: at the end of the text or at a byte that is no
/// digit.
proof fn lemma_leading_digits(t: Seq<u8>)
    ensures
        leading_digits(t) <= t.len(),
        forall|i: int| 0 <= i < leading_digits(t) ==> is_hex_digit(#[trigger] t[i]),
        leading_digits(t) < t.len() ==> !is_hex_digit(t[leading_digits(t) as int]),
    decreases t.len(),
{
    if t.len() > 0 && is_hex_digit(t[0]) {
        let rest = t.drop_first();
        lemma_leading_digits(rest);
        assert forall|i: int| 0 <= i < leading_digits(t) implies is_hex_digit(#[trigger] t[i]) by {
            if i > 0 {
                assert(t[i] == rest[i - 1]);
            }
        }
        if leading_digits(t) < t.len() {
            assert(t[leading_digits(t) as int] == rest[leading_digits(rest) as int]);
        }
    }
}

/// A key comes out of exactly those texts that are 64 hexadecimal digits, no
/// more and no fewer; and its byte `i` is what digits `2 * i` and `2 * i + 1`
/// are worth.
pub proof fn law_key_is_64_digits(t: Seq<u8>)
    ensures
        ({
            let r = key_of(hex_decoded(t));
            &&& r is Ok <==> t.len() == 64 && forall|i: int|
                0 <= i < 64 ==> (0x30 <= #[trigger] t[i] <= 0x39 || 0x41 <= t[i] <= 0x46 || 0x61
                    <= t[i] <= 0x66)
            &&& r matches Ok(k) ==> k.len() == 32 && forall|i: int|
                0 <= i < 32 ==> #[trigger] k[i] == 16 * (if t[2 * i] <= 0x39 {
                    t[2 * i] - 0x30
                } else if t[2 * i] <= 0x46 {
                    t[2 * i] - 0x37
                } else {
                    t[2 * i] - 0x57
                }) + (if t[2 * i + 1] <= 0x39 {
                    t[2 * i + 1] - 0x30
                } else if t[2 * i + 1] <= 0x46 {
                    t[2 * i + 1] - 0x37
                } else {
                    t[2 * i + 1] - 0x57
                })
        }),
{
    let r = key_of(hex_decoded(t));
    lemma_leading_digits(t);
    if t.len() == 64 && forall|i: int|
        0 <= i < 64 ==> (0x30 <= #[trigger] t[i] <= 0x39 || 0x41 <= t[i] <= 0x46 || 0x61 <= t[i]
            <= 0x66) {
        lemma_all_digits(t);
    }
    if r is Ok {
        assert(leading_digits(t) == t.len());
        assert forall|i: int| 0 <= i < 64 implies (0x30 <= #[trigger] t[i] <= 0x39 || 0x41 <= t[i]
            <= 0x46 || 0x61 <= t[i] <= 0x66) by {
            assert(is_hex_digit(t[i]));
        }
        let k = r->Ok_0;
        assert forall|i: int| 0 <= i < 32 implies #[trigger] k[i] == 16 * hex_value(t[2 * i])
            + hex_value(t[2 * i + 1]) by {
            assert(is_hex_digit(t[2 * i]) && is_hex_digit(t[2 * i + 1]));
        }
    }
}

/// A decoded text of any other length than 32 bytes is no key, and the message
/// says how long it is.
pub proof fn law_key_has_32_bytes(k: Seq<u8>)
    ensures
        k.len() == 32 ==> key_of(Ok(k)) == Ok::<Seq<u8>, Seq<char>>(k),
        k.len() != 32 ==> key_of(Ok(k)) == Err::<Seq<u8>, Seq<char>>(
            "la chiave deve essere di 32 byte (64 caratteri hex), trovati "@ + text::decimal(
                k.len(),
            ) + " byte"@,
        ),
{
}

/// A text with an odd number of bytes is refused as such.
pub proof fn law_odd_text_is_refused(t: Seq<u8>)
    requires
        t.len() % 2 == 1,
    ensures
        key_of(hex_decoded(t)) == Err::<Seq<u8>, Seq<char>>(
            "chiave non valida (atteso esadecimale): "@ + "Odd number of digits"@,
        ),
{
}

/// Otherwise the first byte that is no digit is reported, with its position.
pub proof fn law_first_bad_digit_is_reported(t: Seq<u8>, p: int)
    requires
        t.len() % 2 == 0,
        t.len() <= usize::MAX,
        0 <= p < t.len(),
        forall|i: int|
            0 <= i < p ==> (0x30 <= #[trigger] t[i] <= 0x39 || 0x41 <= t[i] <= 0x46 || 0x61 <= t[i]
                <= 0x66),
        !(0x30 <= t[p] <= 0x39 || 0x41 <= t[p] <= 0x46 || 0x61 <= t[p] <= 0x66),
    ensures
        key_of(hex_decoded(t)) == Err::<Seq<u8>, Seq<char>>(
            "chiave non valida (atteso esadecimale): "@ + ("Invalid character "@ + char_debug(
                t[p] as char,
            ) + " at position "@ + text::decimal(p as nat)),
        ),
{
    lemma_leading_digits(t);
    let k = leading_digits(t) as int;
    if p < k {
        assert(is_hex_digit(t[p]));
    }
    if k < p {
        assert(!is_hex_digit(t[k]));
    }
}

/// What is white space: the blank and its relatives, tabulator to carriage
/// return, next line, and the line and paragraph separators.
pub proof fn law_white_space(c: char)
    ensures
        is_white_space(c) <==> set![
            0x09u32, 0x0a, 0x0b, 0x0c, 0x0d, 0x20, 0x85, 0xa0, 0x1680, 0x2000, 0x2001, 0x2002,
            0x2003, 0x2004, 0x2005, 0x2006, 0x2007, 0x2008, 0x2009, 0x200a, 0x2028, 0x2029, 0x202f,
            0x205f, 0x3000
        ].contains(c as u32),
{
}

/// Trimming takes off all the white space at the two ends and nothing else: what
/// stays is the part of the text from the first character that is none to the
/// last.
pub proof fn law_trim_keeps_the_middle(s: Seq<char>, from: int, to: int)
    requires
        0 <= from <= to <= s.len(),
        forall|i: int| 0 <= i < from ==> is_white_space(#[trigger] s[i]),
        forall|i: int| to <= i < s.len() ==> is_white_space(#[trigger] s[i]),
        from < to ==> !is_white_space(s[from]) && !is_white_space(s[to - 1]),
    ensures
        trimmed(s) == s.subrange(from, to),
{
    let before = s.take(from);
    let middle = s.subrange(from, to);
    let after = s.skip(to);
    assert(s =~= before + middle + after);
    assert(all_white_space(before)) by {
        assert forall|i: int| 0 <= i < before.len() implies is_white_space(
            #[trigger] before[i],
        ) by {
            assert(before[i] == s[i]);
        }
    }
    assert(all_white_space(after)) by {
        assert forall|i: int| 0 <= i < after.len() implies is_white_space(#[trigger] after[i]) by {
            assert(after[i] == s[to + i]);
        }
    }
    law_surrounding_white_space_is_ignored(before, middle, after);
    if from < to {
        assert(middle.first() == s[from] && middle.last() == s[to - 1]);
    }
}

/// A result holds a key exactly if that key is expected, and a message exactly if
/// that message is.
pub proof fn law_key_result(
    k: [u8; KEY_LEN],
    m: String,
    key: Seq<u8>,
    message: Seq<char>,
    v: Vec<u8>,
    e: HexError,
)
    ensures
        is_key_result(Ok(k), Ok(key)) <==> k@ == key,
        is_key_result(Err(m), Err(message)) <==> m@ == message,
        !is_key_result(Ok(k), Err(message)),
        !is_key_result(Err(m), Ok(key)),
        decoded_view(Ok(v)) == Ok::<Seq<u8>, HexError>(v@),
        decoded_view(Err(e)) == Err::<Seq<u8>, HexError>(e),
{
}

} // verus!

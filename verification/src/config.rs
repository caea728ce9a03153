//! Settings read from the environment: a secret key written in hex.

use vstd::prelude::*;
use vstd::string::StringSliceAdditionalSpecFns;

verus! {

/// Why a secret key could not be read.
#[derive(Clone, Copy, Debug, PartialEq, Eq, Structural)]
pub enum SecretKeyError {
    /// The text is not sixty-four bytes long; the length it has.
    InvalidLength(usize),
    /// Some byte is not a hex digit.
    InvalidHex,
}

/// A thirty-two byte secret key.
#[derive(Clone, Copy, Debug)]
pub struct Key(pub [u8; 32]);

/// Whether `b` is a hex digit, in either case.
pub open spec fn is_hex(b: u8) -> bool {
    (0x30 <= b <= 0x39) || (0x61 <= b <= 0x66) || (0x41 <= b <= 0x46)
}

/// The value of the hex digit `b`.
pub open spec fn hex_value(b: u8) -> u8 {
    if 0x30 <= b <= 0x39 {
        (b - 0x30) as u8
    } else if 0x61 <= b <= 0x66 {
        (b - 0x61 + 10) as u8
    } else {
        (b - 0x41 + 10) as u8
    }
}

/// The bytes that the hex text `text` (two digits a byte, high digit first) stands for.
pub open spec fn hex_bytes(text: Seq<u8>) -> Seq<u8> {
    Seq::new(text.len() / 2, |i: int| (hex_value(text[2 * i]) * 16 + hex_value(text[2 * i + 1])) as u8)
}

/// The value of a hex digit, or `InvalidHex`.
fn hex_to_u8(e: u8) -> (r: Result<u8, SecretKeyError>)
    ensures
        is_hex(e) ==> r == Ok::<u8, SecretKeyError>(hex_value(e)),
        !is_hex(e) ==> r == Err::<u8, _>(SecretKeyError::InvalidHex),
{
    if 0x30 <= e && e <= 0x39 {
        Ok(e - 0x30)
    } else if 0x61 <= e && e <= 0x66 {
        Ok(e - 0x61 + 10)
    } else if 0x41 <= e && e <= 0x46 {
        Ok(e - 0x41 + 10)
    } else {
        Err(SecretKeyError::InvalidHex)
    }
}

impl Key {
    /// The key's bytes.
    pub fn to_bytes(&self) -> (r: [u8; 32])
        ensures
            r@ == self.0@,
    {
        self.0
    }

    /// Reads a key written as sixty-four hex digits.
    pub fn from_str(s: &str) -> (r: Result<Key, SecretKeyError>)
        ensures
            s.spec_bytes().len() != 64 ==> r == Err::<Key, _>(
                SecretKeyError::InvalidLength(s.spec_bytes().len() as usize),
            ),
            s.spec_bytes().len() == 64 ==> {
                if forall|i: int| 0 <= i < 64 ==> is_hex(#[trigger] s.spec_bytes()[i]) {
                    r is Ok && r.unwrap().0@ == hex_bytes(s.spec_bytes())
                } else {
                    r == Err::<Key, _>(SecretKeyError::InvalidHex)
                }
            },
    {
        let text = s.as_bytes();
        if text.len() != 64 {
            return Err(SecretKeyError::InvalidLength(text.len()));
        }
        let mut bytes = [0u8; 32];
        let mut i: usize = 0;
        while i < 32
            invariant
                i <= 32,
                text@ == s.spec_bytes(),
                text@.len() == 64,
                bytes@.len() == 32,
                forall|k: int| 0 <= k < 2 * i ==> is_hex(#[trigger] text@[k]),
                forall|k: int|
                    0 <= k < i ==> #[trigger] bytes@[k] == (hex_value(text@[2 * k]) * 16 + hex_value(
                        text@[2 * k + 1],
                    )) as u8,
            decreases 32 - i,
        {
            let a = match hex_to_u8(text[2 * i]) {
                Ok(a) => a,
                Err(e) => return Err(e),
            };
            let b = match hex_to_u8(text[2 * i + 1]) {
                Ok(b) => b,
                Err(e) => return Err(e),
            };
            assert(a < 16 && b < 16);
            let v: u8 = (a << 4u8) | b;
            assert(v == (a * 16 + b) as u8) by (bit_vector)
                requires
                    a < 16 && b < 16,
                    v == (a << 4u8) | b,
            ;
            bytes[i] = v;
            i = i + 1;
        }
        proof {
            assert(bytes@ =~= hex_bytes(s.spec_bytes()));
        }
        Ok(Key(bytes))
    }
}

impl core::str::FromStr for Key {
    type Err = SecretKeyError;

    fn from_str(s: &str) -> (r: Result<Key, SecretKeyError>)
        ensures
            s.spec_bytes().len() != 64 ==> r == Err::<Key, _>(
                SecretKeyError::InvalidLength(s.spec_bytes().len() as usize),
            ),
            s.spec_bytes().len() == 64 ==> {
                if forall|i: int| 0 <= i < 64 ==> is_hex(#[trigger] s.spec_bytes()[i]) {
                    r is Ok && r.unwrap().0@ == hex_bytes(s.spec_bytes())
                } else {
                    r == Err::<Key, _>(SecretKeyError::InvalidHex)
                }
            },
    {
        Key::from_str(s)
    }
}

/// The place of the first comma in `s`, if any.
pub open spec fn first_comma(s: Seq<u8>) -> Option<int>
    decreases s.len(),
{
    if s.len() == 0 {
        None
    } else if s[0] == 0x2c {
        Some(0)
    } else {
        match first_comma(s.drop_first()) {
            Some(i) => Some(i + 1),
            None => None,
        }
    }
}

/// The fields of a list written with commas between them: the bytes before the first
/// comma, then the fields of what follows it; text without a comma is one field.
pub open spec fn comma_fields(s: Seq<u8>) -> Seq<Seq<u8>>
    decreases s.len(),
{
    match first_comma(s) {
        Some(i) => if 0 <= i < s.len() {
            seq![s.take(i)] + comma_fields(s.skip(i + 1))
        } else {
            seq![s]
        },
        None => seq![s],
    }
}

/// The first comma is where the first comma stands.
proof fn lemma_first_comma(s: Seq<u8>)
    ensures
        match first_comma(s) {
            Some(i) => 0 <= i < s.len() && s[i] == 0x2c && forall|j: int| 0 <= j < i ==> #[trigger] s[j] != 0x2c,
            None => forall|j: int| 0 <= j < s.len() ==> #[trigger] s[j] != 0x2c,
        },
    decreases s.len(),
{
    if s.len() > 0 {
        lemma_first_comma(s.drop_first());
        assert forall|j: int| 1 <= j < s.len() implies s[j] == s.drop_first()[j - 1] by {}
    }
}

/// Bytes without a comma up to a comma: the first comma is that one.
proof fn lemma_first_comma_at(s: Seq<u8>, i: int)
    requires
        0 <= i <= s.len(),
        forall|j: int| 0 <= j < i ==> #[trigger] s[j] != 0x2c,
    ensures
        i < s.len() && s[i] == 0x2c ==> first_comma(s) == Some(i),
        i == s.len() ==> first_comma(s) is None,
{
    lemma_first_comma(s);
    match first_comma(s) {
        Some(f) => {
            if f < i {
                assert(s[f] != 0x2c);
            }
        },
        None => {},
    }
}

/// Splits a list written with commas between its fields, as the text of a setting holds it.
pub fn comma_split(s: &[u8]) -> (r: Vec<&[u8]>)
    ensures
        r@.len() == comma_fields(s@).len(),
        forall|k: int| 0 <= k < r@.len() ==> #[trigger] r@[k]@ == comma_fields(s@)[k],
{
    let mut r: Vec<&[u8]> = Vec::new();
    let mut start: usize = 0;
    let mut i: usize = 0;
    let ghost mut done: Seq<Seq<u8>> = Seq::empty();
    proof {
        assert(s@.skip(0) =~= s@);
    }
    while i < s.len()
        invariant
            start <= i <= s@.len(),
            r@.len() == done.len(),
            forall|k: int| 0 <= k < r@.len() ==> #[trigger] r@[k]@ == done[k],
            done + comma_fields(s@.skip(start as int)) == comma_fields(s@),
            forall|j: int| start <= j < i ==> #[trigger] s@[j] != 0x2c,
        decreases s@.len() - i,
    {
        if s[i] == 0x2c {
            let piece = vstd::slice::slice_subrange(s, start, i);
            proof {
                let rest = s@.skip(start as int);
                assert forall|j: int| 0 <= j < i - start implies #[trigger] rest[j] != 0x2c by {
                    assert(rest[j] == s@[start + j]);
                }
                lemma_first_comma_at(rest, i - start);
                assert(rest.take(i - start) =~= piece@);
                assert(rest.skip(i - start + 1) =~= s@.skip(i + 1));
                assert(comma_fields(rest) == seq![piece@] + comma_fields(s@.skip(i + 1)));
                assert(done.push(piece@) + comma_fields(s@.skip(i + 1)) =~= done + comma_fields(rest));
                done = done.push(piece@);
            }
            r.push(piece);
            start = i + 1;
        }
        i = i + 1;
    }
    let piece = vstd::slice::slice_subrange(s, start, s.len());
    proof {
        let rest = s@.skip(start as int);
        assert forall|j: int| 0 <= j < rest.len() implies #[trigger] rest[j] != 0x2c by {
            assert(rest[j] == s@[start + j]);
        }
        lemma_first_comma_at(rest, rest.len() as int);
        assert(rest =~= piece@);
        assert(done.push(piece@) =~= done + comma_fields(rest));
        done = done.push(piece@);
    }
    r.push(piece);
    r
}

/// The hex digit of the value `v` below 16, in lower case (`upper` false) or upper case.
pub open spec fn hex_digit(v: int, upper: bool) -> u8 {
    if v < 10 {
        (0x30 + v) as u8
    } else if upper {
        (0x41 + v - 10) as u8
    } else {
        (0x61 + v - 10) as u8
    }
}

/// The hex text of `bytes`: two digits a byte, high digit first.
pub open spec fn hex_text(bytes: Seq<u8>, upper: bool) -> Seq<u8> {
    Seq::new(2 * bytes.len(), |i: int| if i % 2 == 0 {
        hex_digit((bytes[i / 2] / 16) as int, upper)
    } else {
        hex_digit((bytes[i / 2] % 16) as int, upper)
    })
}

/// Every value below 16 has a digit, and the digit reads back as the value.
pub proof fn lemma_hex_digit(v: int, upper: bool)
    requires
        0 <= v < 16,
    ensures
        is_hex(hex_digit(v, upper)),
        hex_value(hex_digit(v, upper)) == v,
{
}

/// The hex text of any bytes, in either case, is all hex digits and reads back as those
/// bytes: with 32 bytes it is the 64 digits that `Key::from_str` turns into the key.
pub proof fn lemma_hex_reads_back(bytes: Seq<u8>, upper: bool)
    ensures
        forall|i: int| 0 <= i < 2 * bytes.len() ==> is_hex(#[trigger] hex_text(bytes, upper)[i]),
        hex_bytes(hex_text(bytes, upper)) == bytes,
{
    let t = hex_text(bytes, upper);
    assert forall|i: int| 0 <= i < 2 * bytes.len() implies is_hex(#[trigger] t[i]) by {
        lemma_hex_digit((bytes[i / 2] / 16) as int, upper);
        lemma_hex_digit((bytes[i / 2] % 16) as int, upper);
    }
    assert forall|k: int| 0 <= k < bytes.len() implies #[trigger] hex_bytes(t)[k] == bytes[k] by {
        lemma_hex_digit((bytes[k] / 16) as int, upper);
        lemma_hex_digit((bytes[k] % 16) as int, upper);
        assert((2 * k) % 2 == 0 && (2 * k + 1) % 2 == 1);
        assert((2 * k) / 2 == k && (2 * k + 1) / 2 == k);
        assert(t[2 * k] == hex_digit((bytes[k] / 16) as int, upper));
        assert(t[2 * k + 1] == hex_digit((bytes[k] % 16) as int, upper));
    }
    assert(hex_bytes(t) =~= bytes);
}

} // verus!

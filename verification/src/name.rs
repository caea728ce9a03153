//! Short names (of chats and users): UTF-8 text of at most 32 bytes, held inline.

use crate::codec::{bytes_encoding, parse_text, Buffer, Codec};
use arrayvec::ArrayString;
use vstd::prelude::*;
use vstd::string::StringSliceAdditionalSpecFns;
use vstd::utf8::*;

verus! {

/// Most bytes a name holds.
pub const NAME_CAP: usize = 32;

#[verifier::external_type_specification]
#[verifier::external_body]
pub struct ExArrayString<const CAP: usize>(ArrayString<CAP>);

/// The text an inline string of capacity 32 holds.
pub uninterp spec fn inline_text(s: ArrayString<32>) -> Seq<char>;

/// `ArrayString::<32>::from`: succeeds exactly when the text fits in 32 bytes, and then
/// holds the text.
#[verifier::external_body]
fn inline_from_str(s: &str) -> (r: Option<ArrayString<32>>)
    ensures
        r is Some <==> s.spec_bytes().len() <= 32,
        r matches Some(a) ==> inline_text(a) == s@,
{
    ArrayString::<32>::from(s).ok()
}

/// `ArrayString::<32>::as_str`: the text held, which takes at most 32 bytes.
#[verifier::external_body]
fn inline_as_str(a: &ArrayString<32>) -> (r: &str)
    ensures
        r@ == inline_text(*a),
        r.spec_bytes().len() <= 32,
{
    a.as_str()
}

/// `ArrayString::<32>::new`: holds no text.
#[verifier::external_body]
fn inline_new() -> (r: ArrayString<32>)
    ensures
        inline_text(r) == Seq::<char>::empty(),
{
    ArrayString::<32>::new()
}

/// `ArrayString::<32>::push_str`: appends the text, which must fit.
#[verifier::external_body]
fn inline_push_str(a: &mut ArrayString<32>, s: &str)
    requires
        encode_utf8(inline_text(*old(a))).len() + s.spec_bytes().len() <= 32,
    ensures
        inline_text(*final(a)) == inline_text(*old(a)) + s@,
{
    a.push_str(s)
}

/// The name of a chat or a user.
#[derive(Clone, Copy)]
pub struct Name(pub ArrayString<32>);

pub type ChatName = Name;

pub type UserName = Name;

impl View for Name {
    type V = Seq<char>;

    open spec fn view(&self) -> Seq<char> {
        inline_text(self.0)
    }
}

impl Name {
    /// The empty name.
    pub fn new() -> (n: Name)
        ensures
            n@ == Seq::<char>::empty(),
    {
        Name(inline_new())
    }

    /// The name holding `s`, when it fits.
    pub fn from_str(s: &str) -> (r: Option<Name>)
        ensures
            r is Some <==> s.spec_bytes().len() <= NAME_CAP,
            r matches Some(n) ==> n@ == s@,
    {
        match inline_from_str(s) {
            Some(a) => Some(Name(a)),
            None => None,
        }
    }

    pub fn as_str(&self) -> (r: &str)
        ensures
            r@ == self@,
            r.spec_bytes().len() <= NAME_CAP,
    {
        inline_as_str(&self.0)
    }

    /// The UTF-8 bytes of the name.
    pub fn as_bytes(&self) -> (r: &[u8])
        ensures
            r@ == encode_utf8(self@),
            r@.len() <= NAME_CAP,
    {
        self.as_str().as_bytes()
    }
}

impl PartialEq for Name {
    fn eq(&self, other: &Name) -> (r: bool) {
        let a = self.as_bytes();
        let b = other.as_bytes();
        if a.len() != b.len() {
            proof {
                assert(encode_utf8(self@).len() != encode_utf8(other@).len());
            }
            return false;
        }
        let mut i: usize = 0;
        while i < a.len()
            invariant
                a@ == encode_utf8(self@),
                b@ == encode_utf8(other@),
                a@.len() == b@.len(),
                i <= a@.len(),
                forall|k: int| 0 <= k < i ==> a@[k] == b@[k],
            decreases a@.len() - i,
        {
            if a[i] != b[i] {
                proof {
                    assert(a@[i as int] != b@[i as int]);
                    assert(a@ != b@);
                }
                return false;
            }
            i = i + 1;
        }
        proof {
            assert(a@ =~= b@);
            encode_utf8_decode_utf8(self@);
            encode_utf8_decode_utf8(other@);
        }
        true
    }
}

impl vstd::std_specs::cmp::PartialEqSpecImpl for Name {
    open spec fn obeys_eq_spec() -> bool {
        true
    }

    open spec fn eq_spec(&self, other: &Name) -> bool {
        self@ == other@
    }
}

impl<'a> Codec<'a> for Name {
    type Model = Seq<char>;

    open spec fn model(&self) -> Seq<char> {
        self@
    }

    open spec fn encoding(&self) -> Seq<u8> {
        bytes_encoding(encode_utf8(self@))
    }

    open spec fn parse(bytes: Seq<u8>) -> Option<(Seq<char>, nat)> {
        match parse_text(bytes) {
            Some((t, n)) => if encode_utf8(t).len() <= NAME_CAP {
                Some((t, n))
            } else {
                None
            },
            None => None,
        }
    }

    open spec fn reads_back(&self, rest: Seq<u8>) -> bool {
        encode_utf8(self@).len() <= NAME_CAP
    }

    proof fn lemma_reads_back(&self, rest: Seq<u8>) {
        crate::codec::lemma_text_reads_back(self@, rest);
    }

    fn encode<B: Buffer>(&self, buffer: &mut B) -> (r: Option<()>) {
        self.as_str().encode(buffer)
    }

    fn decode(buffer: &mut &'a [u8]) -> (r: Option<Name>) {
        let text = <&'a str as Codec<'a>>::decode(buffer);
        match text {
            None => None,
            Some(t) => Name::from_str(t),
        }
    }
}

/// `bytes` padded with `0xff` up to 32 bytes.
pub open spec fn padded(bytes: Seq<u8>) -> Seq<u8> {
    bytes + Seq::new((NAME_CAP - bytes.len()) as nat, |i: int| 0xffu8)
}

/// The length of `bytes` without its trailing `0xff` bytes.
pub open spec fn trimmed_len(bytes: Seq<u8>) -> nat
    decreases bytes.len(),
{
    if bytes.len() == 0 {
        0
    } else if bytes.last() != 0xffu8 {
        bytes.len()
    } else {
        trimmed_len(bytes.drop_last())
    }
}

/// The bytes of a name, padded with `0xff` to 32 bytes.
pub fn arrstr_to_array(s: Name) -> (r: [u8; 32])
    ensures
        r@ == padded(encode_utf8(s@)),
{
    let bytes = s.as_bytes();
    let mut arr = [0xffu8; 32];
    let mut i: usize = 0;
    while i < bytes.len()
        invariant
            bytes@ == encode_utf8(s@),
            bytes@.len() <= 32,
            i <= bytes@.len(),
            arr@.len() == 32,
            forall|k: int| 0 <= k < i ==> arr@[k] == bytes@[k],
            forall|k: int| i <= k < 32 ==> arr@[k] == 0xffu8,
        decreases bytes@.len() - i,
    {
        arr[i] = bytes[i];
        i = i + 1;
    }
    assert(arr@ =~= padded(encode_utf8(s@)));
    arr
}

/// The name held by 32 bytes padded with `0xff`: the bytes before the padding, when they
/// are UTF-8.
pub fn array_to_arrstr(arr: [u8; 32]) -> (r: Option<Name>)
    ensures
        r is Some <==> valid_utf8(arr@.take(trimmed_len(arr@) as int)),
        r matches Some(n) ==> encode_utf8(n@) == arr@.take(trimmed_len(arr@) as int),
{
    let mut len: usize = 32;
    proof {
        assert(arr@.take(32) =~= arr@);
    }
    while len > 0 && arr[len - 1] == 0xff
        invariant
            len <= 32,
            arr@.len() == 32,
            trimmed_len(arr@.take(len as int)) == trimmed_len(arr@),
        decreases len,
    {
        assert(arr@.take(len as int).drop_last() =~= arr@.take(len - 1));
        len = len - 1;
    }
    proof {
        if len > 0 {
            assert(arr@.take(len as int).last() == arr@[len - 1]);
        }
    }
    let bytes = vstd::slice::slice_subrange(arr.as_slice(), 0, len);
    assert(bytes@ =~= arr@.take(trimmed_len(arr@) as int));
    let text = match crate::codec::str_from_utf8(bytes) {
        Some(t) => t,
        None => return None,
    };
    let mut name = inline_new();
    proof {
        assert(encode_utf8(Seq::<char>::empty()) =~= Seq::<u8>::empty());
        decode_utf8_encode_utf8(text.spec_bytes());
    }
    inline_push_str(&mut name, text);
    proof {
        assert(inline_text(name) =~= text@);
        encode_utf8_decode_utf8(text@);
    }
    Some(Name(name))
}

/// The last byte of the UTF-8 encoding of some text is never `0xff`.
proof fn lemma_utf8_last_byte(t: Seq<char>)
    requires
        t.len() > 0,
    ensures
        encode_utf8(t).len() > 0,
        encode_utf8(t).last() != 0xffu8,
    decreases t.len(),
{
    let c = t[0] as u32;
    let e = encode_scalar(c);
    assert(e.len() > 0 && e.last() != 0xffu8) by {
        assert((c & 0x7F) as u8 != 0xffu8) by (bit_vector);
        assert(0x80u8 | (c & 0x3F) as u8 != 0xffu8) by (bit_vector);
    }
    if t.len() > 1 {
        lemma_utf8_last_byte(t.drop_first());
        assert(encode_utf8(t).last() == encode_utf8(t.drop_first()).last());
    } else {
        assert(t.drop_first() =~= Seq::<char>::empty());
        assert(encode_utf8(t) =~= e);
    }
}

/// Padding the bytes of a name and reading them back gives the name: `array_to_arrstr`
/// undoes `arrstr_to_array`.
pub proof fn lemma_padded_name_roundtrip(t: Seq<char>)
    requires
        encode_utf8(t).len() <= NAME_CAP,
    ensures
        trimmed_len(padded(encode_utf8(t))) == encode_utf8(t).len(),
        padded(encode_utf8(t)).take(encode_utf8(t).len() as int) == encode_utf8(t),
        valid_utf8(encode_utf8(t)),
        decode_utf8(encode_utf8(t)) == t,
{
    let b = encode_utf8(t);
    encode_utf8_valid_utf8(t);
    encode_utf8_decode_utf8(t);
    assert(padded(b).take(b.len() as int) =~= b);
    lemma_trim_padding(b, NAME_CAP - b.len());
    if t.len() > 0 {
        lemma_utf8_last_byte(t);
    } else {
        assert(b =~= Seq::<u8>::empty());
    }
}

/// Trailing `0xff` bytes are trimmed off; a last byte that is not `0xff` stays.
proof fn lemma_trim_padding(b: Seq<u8>, k: int)
    requires
        0 <= k <= NAME_CAP - b.len(),
        b.len() <= NAME_CAP,
    ensures
        b.len() > 0 && b.last() != 0xffu8 ==> trimmed_len(b + Seq::new(k as nat, |i: int| 0xffu8)) == b.len(),
        b.len() == 0 ==> trimmed_len(b + Seq::new(k as nat, |i: int| 0xffu8)) == 0,
        k == NAME_CAP - b.len() ==> b + Seq::new(k as nat, |i: int| 0xffu8) == padded(b),
    decreases k,
{
    let s = b + Seq::new(k as nat, |i: int| 0xffu8);
    if k > 0 {
        lemma_trim_padding(b, k - 1);
        assert(s.drop_last() =~= b + Seq::new((k - 1) as nat, |i: int| 0xffu8));
    } else {
        assert(s =~= b);
        if b.len() == 0 {
            assert(trimmed_len(s) == 0);
        }
    }
}

} // verus!

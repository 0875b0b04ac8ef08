//! The calls into other crates. Everything else in the library is proved; what these functions
//! promise is believed.
use rand::Rng;
use sha1::Digest;
use vstd::prelude::*;

verus! {

/// The SHA-1 digest of `data`: twenty bytes that depend on `data` alone.
pub uninterp spec fn sha1_of(data: Seq<u8>) -> Seq<u8>;

/// Whether SHA-1, which counts the bits of its input in 64 bits, takes an input of `len` bytes.
pub open spec fn hashable(len: nat) -> bool {
    len * 8 <= u64::MAX
}

/// Calls `sha1::Sha1::digest`. The contract gives its result a name, a function of the bytes
/// hashed; that the digest has twenty bytes shows in the type.
#[verifier::external_body]
pub(crate) fn sha1_digest(data: &[u8]) -> (digest: [u8; 20])
    requires
        hashable(data@.len()),
    ensures
        digest@ == sha1_of(data@),
{
    sha1::Sha1::digest(data).into()
}

/// Whether a byte stands for itself in a percent-encoded text.
pub open spec fn unreserved(b: u8) -> bool {
    ||| 0x30 <= b <= 0x39
    ||| 0x41 <= b <= 0x5a
    ||| 0x61 <= b <= 0x7a
    ||| b == 0x2d
    ||| b == 0x2e
    ||| b == 0x5f
    ||| b == 0x7e
}

/// The upper-case hexadecimal digit of a value below sixteen.
pub open spec fn hex_digit(d: int) -> char {
    if d < 10 {
        (0x30 + d) as char
    } else {
        (0x37 + d) as char
    }
}

/// One byte, percent-encoded.
pub open spec fn percent_encoded_byte(b: u8) -> Seq<char> {
    if unreserved(b) {
        seq![b as char]
    } else {
        seq!['%', hex_digit(b as int / 16), hex_digit(b as int % 16)]
    }
}

/// The bytes of `data`, percent-encoded one after the other.
pub open spec fn percent_encoded(data: Seq<u8>) -> Seq<char>
    decreases data.len(),
{
    if data.len() == 0 {
        Seq::empty()
    } else {
        percent_encoded(data.drop_last()) + percent_encoded_byte(data.last())
    }
}

/// Calls `urlencoding::encode_binary`. The contract says that ASCII letters and digits and
/// `-`, `.`, `_` and `~` are kept, and that every other byte becomes `%` and two upper-case
/// hexadecimal digits.
#[verifier::external_body]
pub(crate) fn encode_binary(data: &[u8]) -> (text: String)
    ensures
        text@ == percent_encoded(data@),
{
    urlencoding::encode_binary(data).into_owned()
}

/// Calls `rand::random` for a `u32`. Nothing is promised of the number.
#[verifier::external_body]
pub(crate) fn random_u32() -> u32 {
    rand::random::<u32>()
}

/// Calls `rand::Rng::gen_range` on `rand::thread_rng()` with an inclusive range, which must not
/// be empty. The contract says that the number lies in the range, and no more.
#[verifier::external_body]
pub(crate) fn random_between(low: u16, high: u16) -> (n: u16)
    requires
        low <= high,
    ensures
        low <= n <= high,
{
    rand::thread_rng().gen_range(low..=high)
}

/// Percent-encoding goes byte by byte: the encoding of two byte strings in a row is that of the
/// first and that of the second.
pub proof fn law_bytes_are_encoded_one_by_one(a: Seq<u8>, b: Seq<u8>)
    ensures
        percent_encoded(Seq::<u8>::empty()) == Seq::<char>::empty(),
        percent_encoded(a + b) == percent_encoded(a) + percent_encoded(b),
    decreases b.len(),
{
    if b.len() == 0 {
        assert(a + b == a);
        assert(percent_encoded(a) + percent_encoded(b) == percent_encoded(a));
    } else {
        law_bytes_are_encoded_one_by_one(a, b.drop_last());
        assert((a + b).drop_last() == a + b.drop_last());
        assert(percent_encoded(a) + (percent_encoded(b.drop_last()) + percent_encoded_byte(
            b.last(),
        )) == percent_encoded(a) + percent_encoded(b.drop_last()) + percent_encoded_byte(b.last()));
    }
}

/// A byte that is the number of a letter, a digit, `-`, `.`, `_` or `~` is encoded as that
/// character. Any other is encoded as `%` and two hexadecimal digits, which spell it.
pub proof fn law_encoded_byte_can_be_told(b: u8)
    ensures
        ({
            let text = percent_encoded(seq![b]);
            let c = b as char;
            let worth = |d: char| if d <= '9' {
                d as int - '0' as int
            } else {
                d as int - 'A' as int + 10
            };
            if 'A' <= c <= 'Z' || 'a' <= c <= 'z' || '0' <= c <= '9' || c == '-' || c == '.' || c
                == '_' || c == '~' {
                text == seq![c]
            } else {
                &&& text.len() == 3
                &&& text[0] == '%'
                &&& '0' <= text[1] <= '9' || 'A' <= text[1] <= 'F'
                &&& '0' <= text[2] <= '9' || 'A' <= text[2] <= 'F'
                &&& worth(text[1]) * 16 + worth(text[2]) == b
            }
        }),
{
    reveal_with_fuel(percent_encoded, 2);
    assert(seq![b].drop_last() == Seq::<u8>::empty());
    assert(percent_encoded(seq![b]) == percent_encoded_byte(b));
}

/// SHA-1 takes everything that is shorter than two to the power of sixty-one bytes.
pub proof fn law_ordinary_data_can_be_hashed(len: nat)
    ensures
        hashable(len) <==> len < 0x2000_0000_0000_0000,
{
}

} // verus!

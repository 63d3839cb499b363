use vstd::prelude::*;

verus! {

/// A lowercase hexadecimal digit, as the digest rendering uses.
pub open spec fn is_hex_digit(c: char) -> bool {
    ('0' <= c && c <= '9') || ('a' <= c && c <= 'f')
}

/// A digest is the 64-character lowercase hexadecimal rendering of a 256-bit
/// content hash.  Equality and ordering are those of the string form.
pub open spec fn is_digest(s: Seq<char>) -> bool {
    s.len() == 64 && (forall|i: int| 0 <= i < s.len() ==> is_hex_digit(#[trigger] s[i]))
}

/// The digest that the content hash assigns to a byte sequence.  It depends
/// on the bytes alone.
pub uninterp spec fn digest_of(data: Seq<u8>) -> Seq<char>;

/// Relies on `blake3::hash` and `blake3::Hash::to_hex`: the hash is a pure
/// function of the input bytes, and `to_hex` renders its 32 bytes as 64
/// lowercase hexadecimal characters.
#[verifier::external_body]
pub fn hash_hex(data: &[u8]) -> (r: String)
    ensures
        r@ == digest_of(data@),
        is_digest(r@),
{
    blake3::hash(data).to_hex().to_string()
}

/// Decides whether a string is a digest: 64 lowercase hexadecimal
/// characters.
pub fn check_digest(s: &String) -> (r: bool)
    ensures
        r == is_digest(s@),
{
    let st = s.as_str();
    let n = st.unicode_len();
    if n != 64 {
        return false;
    }
    let mut i: usize = 0;
    while i < n
        invariant
            n == st@.len(),
            st@ == s@,
            i <= n,
            forall|j: int| 0 <= j < i ==> is_hex_digit(#[trigger] st@[j]),
        decreases n - i,
    {
        let c = st.get_char(i);
        let digit = '0' <= c && c <= '9';
        let lower = 'a' <= c && c <= 'f';
        if !digit && !lower {
            proof {
                assert(!is_hex_digit(s@[i as int]));
            }
            return false;
        }
        i += 1;
    }
    true
}

/// Every digest character is ASCII, so a digest's UTF-8 bytes are its
/// characters read as bytes.
pub proof fn lemma_digest_is_ascii(s: Seq<char>)
    requires
        is_digest(s),
    ensures
        vstd::utf8::is_ascii_chars(s),
{
    assert forall|i: int| 0 <= i < s.len() implies '\0' <= #[trigger] s[i] <= '\u{7f}' by {
        assert(is_hex_digit(s[i]));
    }
}

} // verus!

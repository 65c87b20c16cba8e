//! Small helpers tying byte sequences to text: ASCII literals as byte
//! sequences, byte-slice comparison against ASCII literals, and the one
//! trusted conversion from bytes to owned text.

use vstd::prelude::*;
use vstd::slice::slice_subrange;
use vstd::utf8::{decode_utf8, encode_utf8, valid_utf8};

verus! {

/// The bytes of an ASCII character sequence, one byte per character.
pub open spec fn ascii_bytes(cs: Seq<char>) -> Seq<u8> {
    Seq::new(cs.len(), |i: int| cs[i] as u8)
}

/// Appends the bytes of an ASCII string literal to `out`.
pub fn push_ascii(out: &mut Vec<u8>, s: &str)
    requires
        vstd::string::is_ascii(s),
    ensures
        final(out)@ == old(out)@ + ascii_bytes(s@),
{
    proof {
        vstd::string::is_ascii_spec_bytes(s);
    }
    let b = s.as_bytes();
    out.extend_from_slice(b);
    proof {
        assert(out@ =~= old(out)@ + ascii_bytes(s@));
    }
}

/// True exactly when the byte slice holds the bytes of the ASCII literal.
pub fn bytes_is(v: &[u8], s: &str) -> (r: bool)
    requires
        vstd::string::is_ascii(s),
    ensures
        r == (v@ == ascii_bytes(s@)),
{
    proof {
        vstd::string::is_ascii_spec_bytes(s);
    }
    let b = s.as_bytes();
    if v.len() != b.len() {
        proof {
            assert(v@ != ascii_bytes(s@));
        }
        return false;
    }
    let n = v.len();
    let mut i: usize = 0;
    while i < n
        invariant
            n == v@.len() == ascii_bytes(s@).len(),
            0 <= i <= n,
            b@ == ascii_bytes(s@),
            forall|j: int| 0 <= j < i ==> v@[j] == ascii_bytes(s@)[j],
        decreases n - i,
    {
        if v[i] != b[i] {
            proof {
                assert(v@ != ascii_bytes(s@));
            }
            return false;
        }
        i += 1;
    }
    proof {
        assert(v@ =~= ascii_bytes(s@));
    }
    true
}

/// Copies the byte range `[from, to)` of a slice into a fresh vector.
pub fn bytes_range(s: &[u8], from: usize, to: usize) -> (r: Vec<u8>)
    requires
        from <= to <= s@.len(),
    ensures
        r@ == s@.subrange(from as int, to as int),
{
    let sub = slice_subrange(s, from, to);
    vstd::slice::slice_to_vec(sub)
}

/// Relies on `String::from_utf8`: it returns `Ok` exactly when the bytes
/// are valid UTF-8, and the returned string then holds exactly those bytes,
/// so its characters are their decoding.
#[verifier::external_body]
pub fn bytes_to_string(v: Vec<u8>) -> (r: Option<String>)
    ensures
        r is Some <==> valid_utf8(v@),
        r is Some ==> encode_utf8(r->Some_0@) == v@ && r->Some_0@ == decode_utf8(v@),
{
    String::from_utf8(v).ok()
}

} // verus!

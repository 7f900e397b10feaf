//! The cryptographic digest a block's integrity rests on: SHA-256 over the
//! block's canonical preimage text, rendered as lowercase hexadecimal.
//!
//! The digest itself is computed by the `sha2` crate behind one trusted
//! wrapper; its value is named, not restated. The hexadecimal rendering is
//! the library's own, verified code.

use vstd::prelude::*;
use vstd::string::*;
use sha2::Digest;

verus! {

/// The SHA-256 digest of a text, as the `sha2` crate computes it from the
/// text's UTF-8 bytes. The digest depends on the text alone.
pub uninterp spec fn sha256_of(s: Seq<char>) -> Seq<u8>;

/// Relies on `sha2::Sha256::digest`: the SHA-256 digest of the text's UTF-8
/// bytes, 32 bytes long, a function of the text alone.
#[verifier::external_body]
pub fn sha256_chars(s: &str) -> (r: Vec<u8>)
    ensures
        r@ == sha256_of(s@),
        r@.len() == 32,
{
    sha2::Sha256::digest(s.as_bytes()).to_vec()
}

/// The hexadecimal digit character for a value below sixteen.
pub open spec fn hex_char(n: int) -> char {
    if n < 10 {
        crate::text::digit_char(n)
    } else if n == 10 {
        'a'
    } else if n == 11 {
        'b'
    } else if n == 12 {
        'c'
    } else if n == 13 {
        'd'
    } else if n == 14 {
        'e'
    } else {
        'f'
    }
}

/// Lowercase hexadecimal rendering of a byte sequence, two digits per byte.
pub open spec fn hex_of(bytes: Seq<u8>) -> Seq<char>
    decreases bytes.len(),
{
    if bytes.len() == 0 {
        Seq::<char>::empty()
    } else {
        hex_of(bytes.drop_last())
            + seq![hex_char(bytes.last() as int / 16), hex_char(bytes.last() as int % 16)]
    }
}

/// Each hexadecimal rendering is twice as long as its bytes.
pub proof fn lemma_hex_of_len(bytes: Seq<u8>)
    ensures
        hex_of(bytes).len() == 2 * bytes.len(),
    decreases bytes.len(),
{
    if bytes.len() > 0 {
        lemma_hex_of_len(bytes.drop_last());
    }
}

/// The one-character text of a hexadecimal digit below sixteen.
fn hex_digit_str(d: u8) -> (r: &'static str)
    requires
        d < 16,
    ensures
        r@ == seq![hex_char(d as int)],
{
    if d < 10 {
        crate::text::digit_str(d as u64)
    } else {
        proof {
            reveal_strlit("a");
            reveal_strlit("b");
            reveal_strlit("c");
            reveal_strlit("d");
            reveal_strlit("e");
            reveal_strlit("f");
        }
        let r = if d == 10 {
            "a"
        } else if d == 11 {
            "b"
        } else if d == 12 {
            "c"
        } else if d == 13 {
            "d"
        } else if d == 14 {
            "e"
        } else {
            "f"
        };
        proof {
            assert(r@ =~= seq![hex_char(d as int)]);
        }
        r
    }
}

/// Lowercase hexadecimal text of a byte sequence.
pub fn hex_encode(bytes: &Vec<u8>) -> (r: String)
    ensures
        r@ == hex_of(bytes@),
        r@.len() == 2 * bytes@.len(),
{
    let mut r = String::new();
    let mut k: usize = 0;
    while k < bytes.len()
        invariant
            k <= bytes@.len(),
            r@ == hex_of(bytes@.subrange(0, k as int)),
            r@.len() == 2 * k,
        decreases bytes@.len() - k,
    {
        let b = bytes[k];
        r.append(hex_digit_str(b / 16));
        r.append(hex_digit_str(b % 16));
        proof {
            let pre = bytes@.subrange(0, (k + 1) as int);
            assert(pre.drop_last() =~= bytes@.subrange(0, k as int));
            assert(pre.last() == bytes@[k as int]);
            assert(r@ =~= hex_of(pre));
        }
        k += 1;
    }
    proof {
        assert(bytes@.subrange(0, bytes@.len() as int) =~= bytes@);
    }
    r
}

} // verus!

//! Content fingerprints for change short-circuiting.
//!
//! A fingerprint is a 64-bit fold of the text in hexadecimal, a dash,
//! and the text's length. It only detects changes between two runs over
//! the same machine's files; it is not a security primitive.

use vstd::prelude::*;
use crate::textutil::{dec_digits, hex_pad, push_hex_pad, push_usize_dec, chars_of,
    string_from_chars};

verus! {

/// The folding constant: each character is mixed in by xor, then the
/// state is multiplied by this prime modulo two to the sixty-fourth.
pub open spec fn fold_step(h: u64, c: char) -> u64 {
    ((((h ^ (c as u32 as u64)) as int) * 0x100000001b3) % 0x10000000000000000) as u64
}

/// The 64-bit fold of a whole text.
pub open spec fn fold_hash(s: Seq<char>) -> u64
    decreases s.len(),
{
    if s.len() == 0 {
        0xcbf29ce484222325u64
    } else {
        fold_step(fold_hash(s.drop_last()), s.last())
    }
}

/// The fingerprint text for `s`: sixteen hex digits, a dash, the length.
pub open spec fn fingerprint_spec(s: Seq<char>) -> Seq<char> {
    hex_pad(fold_hash(s) as int, 16) + seq!['-'] + dec_digits(s.len() as int)
}

/// Computes the fingerprint of a text.
pub fn fingerprint(s: &str) -> (r: String)
    ensures
        r@ == fingerprint_spec(s@),
{
    let cs = chars_of(s);
    let mut h: u64 = 0xcbf29ce484222325;
    let mut i: usize = 0;
    while i < cs.len()
        invariant
            i <= cs@.len(),
            cs@ == s@,
            h == fold_hash(cs@.subrange(0, i as int)),
        decreases cs@.len() - i,
    {
        let x: u64 = h ^ (cs[i] as u32 as u64);
        let wide: u128 = (x as u128) * 0x100000001b3u128;
        let narrowed: u64 = (wide % 0x10000000000000000u128) as u64;
        h = narrowed;
        proof {
            let pre = cs@.subrange(0, i as int);
            let now = cs@.subrange(0, i + 1 as int);
            assert(now.drop_last() =~= pre);
            assert(now.last() == cs@[i as int]);
            assert(narrowed == fold_step(fold_hash(pre), cs@[i as int])) by {
                assert(wide == (x as int) * 0x100000001b3);
                assert(narrowed == (wide as int) % 0x10000000000000000);
            }
        }
        i = i + 1;
    }
    proof {
        assert(cs@.subrange(0, cs@.len() as int) =~= cs@);
    }
    let mut out: Vec<char> = Vec::new();
    push_hex_pad(&mut out, h, 16);
    out.push('-');
    push_usize_dec(&mut out, s.unicode_len());
    proof {
        assert(out@ =~= fingerprint_spec(s@));
    }
    string_from_chars(&out)
}

} // verus!

//! Client-side hashing of credentials before they go on the wire.
//!
//! The wire never carries a plaintext secret: the caller hashes it first and
//! transmits the uppercase hex digits of the digest.

use vstd::prelude::*;
use crate::escape::push_char;

verus! {

/// The SHA-512 digest of the UTF-8 bytes of a string.  Named only: the digest
/// is a function of the input characters alone, and nothing shorter states
/// its value.
pub uninterp spec fn sha512_of(s: Seq<char>) -> Seq<u8>;

/// Relies on sha2::Sha512 through sha2::Digest::digest: the SHA-512 digest of
/// the input's UTF-8 bytes, 64 bytes long, a function of the input alone.
#[verifier::external_body]
fn sha512_digest(input: &String) -> (r: Vec<u8>)
    ensures
        r@ == sha512_of(input@),
        r@.len() == 64,
{
    let digest = <sha2::Sha512 as sha2::Digest>::digest(input.as_bytes());
    digest.to_vec()
}

pub open spec fn hex_digit_upper(n: nat) -> char {
    if n == 0 {
        '0'
    } else if n == 1 {
        '1'
    } else if n == 2 {
        '2'
    } else if n == 3 {
        '3'
    } else if n == 4 {
        '4'
    } else if n == 5 {
        '5'
    } else if n == 6 {
        '6'
    } else if n == 7 {
        '7'
    } else if n == 8 {
        '8'
    } else if n == 9 {
        '9'
    } else if n == 10 {
        'A'
    } else if n == 11 {
        'B'
    } else if n == 12 {
        'C'
    } else if n == 13 {
        'D'
    } else if n == 14 {
        'E'
    } else {
        'F'
    }
}

/// Two uppercase hex digits for each byte, in order.
pub open spec fn hex_upper(bytes: Seq<u8>) -> Seq<char>
    decreases bytes.len(),
{
    if bytes.len() == 0 {
        Seq::empty()
    } else {
        seq![
            hex_digit_upper((bytes[0] / 16) as nat),
            hex_digit_upper((bytes[0] % 16) as nat),
        ] + hex_upper(bytes.drop_first())
    }
}

pub proof fn lemma_hex_upper_len(bytes: Seq<u8>)
    ensures
        hex_upper(bytes).len() == 2 * bytes.len(),
    decreases bytes.len(),
{
    if bytes.len() == 0 {
    } else {
        lemma_hex_upper_len(bytes.drop_first());
    }
}

proof fn lemma_hex_upper_push(bytes: Seq<u8>, x: u8)
    ensures
        hex_upper(bytes.push(x)) == hex_upper(bytes) + seq![
            hex_digit_upper((x / 16) as nat),
            hex_digit_upper((x % 16) as nat),
        ],
    decreases bytes.len(),
{
    let pair = seq![hex_digit_upper((x / 16) as nat), hex_digit_upper((x % 16) as nat)];
    if bytes.len() == 0 {
        assert(bytes.push(x)[0] == x);
        assert(bytes.push(x).drop_first() =~= Seq::<u8>::empty());
        assert(hex_upper(Seq::<u8>::empty()) =~= Seq::<char>::empty());
        assert(hex_upper(bytes.push(x)) =~= hex_upper(bytes) + pair);
    } else {
        assert(bytes.push(x)[0] == bytes[0]);
        assert(bytes.push(x).drop_first() =~= bytes.drop_first().push(x));
        lemma_hex_upper_push(bytes.drop_first(), x);
        assert(hex_upper(bytes.push(x)) =~= hex_upper(bytes) + pair);
    }
}

fn hex_upper_exec(n: u8) -> (c: char)
    requires
        n < 16,
    ensures
        c == hex_digit_upper(n as nat),
{
    if n == 0 {
        '0'
    } else if n == 1 {
        '1'
    } else if n == 2 {
        '2'
    } else if n == 3 {
        '3'
    } else if n == 4 {
        '4'
    } else if n == 5 {
        '5'
    } else if n == 6 {
        '6'
    } else if n == 7 {
        '7'
    } else if n == 8 {
        '8'
    } else if n == 9 {
        '9'
    } else if n == 10 {
        'A'
    } else if n == 11 {
        'B'
    } else if n == 12 {
        'C'
    } else if n == 13 {
        'D'
    } else if n == 14 {
        'E'
    } else {
        'F'
    }
}

/// Hash a raw credential for transmission: the uppercase hex digits of the
/// SHA-512 digest of its UTF-8 bytes.
pub fn get_hash(input: &String) -> (r: String)
    ensures
        r@ == hex_upper(sha512_of(input@)),
        r@.len() == 128,
{
    let digest = sha512_digest(input);
    let mut out = String::new();
    let mut i: usize = 0;
    while i < digest.len()
        invariant
            i <= digest@.len(),
            digest@ == sha512_of(input@),
            out@ == hex_upper(digest@.take(i as int)),
        decreases digest@.len() - i,
    {
        let b = digest[i];
        push_char(&mut out, hex_upper_exec(b / 16));
        push_char(&mut out, hex_upper_exec(b % 16));
        proof {
            assert(digest@.take(i + 1) =~= digest@.take(i as int).push(digest@[i as int]));
            lemma_hex_upper_push(digest@.take(i as int), digest@[i as int]);
        }
        i = i + 1;
    }
    proof {
        assert(digest@.take(digest@.len() as int) =~= digest@);
        lemma_hex_upper_len(digest@);
    }
    out
}

} // verus!

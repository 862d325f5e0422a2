//! The multipart wire envelope.
//!
//! Each published frame is sent as one part of a
//! `multipart/x-mixed-replace` body: a boundary line, a `Content-Length`
//! header, a `Content-Type` header, a blank line, and then the JPEG bytes
//! themselves.  `frame` is the stateless transform that builds one such part.

use vstd::prelude::*;

verus! {

/// The decimal digits of `n`, most significant first, as ASCII bytes.
pub open spec fn dec_digits(n: nat) -> Seq<u8>
    decreases n,
{
    if n < 10 {
        seq![(n + 0x30) as u8]
    } else {
        dec_digits(n / 10).push((n % 10 + 0x30) as u8)
    }
}

/// The bytes of `--boundarydonotcross\r\nContent-Length:`, the part of the
/// envelope that precedes the length.
pub open spec fn envelope_prefix() -> Seq<u8> {
    seq![
        '-' as u8, '-' as u8, 'b' as u8, 'o' as u8, 'u' as u8, 'n' as u8, 'd' as u8,
        'a' as u8, 'r' as u8, 'y' as u8, 'd' as u8, 'o' as u8, 'n' as u8, 'o' as u8,
        't' as u8, 'c' as u8, 'r' as u8, 'o' as u8, 's' as u8, 's' as u8, '\r' as u8,
        '\n' as u8, 'C' as u8, 'o' as u8, 'n' as u8, 't' as u8, 'e' as u8, 'n' as u8,
        't' as u8, '-' as u8, 'L' as u8, 'e' as u8, 'n' as u8, 'g' as u8, 't' as u8,
        'h' as u8, ':' as u8,
    ]
}

/// The bytes of `\r\nContent-Type:image/jpeg\r\n\r\n`, the part of the
/// envelope between the length and the JPEG content.
pub open spec fn envelope_suffix() -> Seq<u8> {
    seq![
        '\r' as u8, '\n' as u8, 'C' as u8, 'o' as u8, 'n' as u8, 't' as u8, 'e' as u8,
        'n' as u8, 't' as u8, '-' as u8, 'T' as u8, 'y' as u8, 'p' as u8, 'e' as u8,
        ':' as u8, 'i' as u8, 'm' as u8, 'a' as u8, 'g' as u8, 'e' as u8, '/' as u8,
        'j' as u8, 'p' as u8, 'e' as u8, 'g' as u8, '\r' as u8, '\n' as u8, '\r' as u8,
        '\n' as u8,
    ]
}

/// One whole multipart part for JPEG content `b`: boundary and
/// `Content-Length` header, the decimal length, the `Content-Type` header
/// and blank line, then exactly the bytes of `b`.
pub open spec fn framed(b: Seq<u8>) -> Seq<u8> {
    envelope_prefix() + dec_digits(b.len()) + envelope_suffix() + b
}

/// The decimal digits of `n`, most significant first, as ASCII bytes.
pub fn dec_to_bytes(n: usize) -> (r: Vec<u8>)
    ensures
        r@ == dec_digits(n as nat),
    decreases n,
{
    if n < 10 {
        let mut v: Vec<u8> = Vec::new();
        v.push(n as u8 + 0x30);
        proof {
            assert(v@ =~= dec_digits(n as nat));
        }
        v
    } else {
        let mut v = dec_to_bytes(n / 10);
        v.push((n % 10) as u8 + 0x30);
        proof {
            assert(v@ =~= dec_digits(n as nat));
        }
        v
    }
}

/// Wraps JPEG content in its multipart envelope.
pub fn frame(bytes: &[u8]) -> (r: Vec<u8>)
    ensures
        r@ == framed(bytes@),
{
    let mut r: Vec<u8> = Vec::new();
    r.push('-' as u8);
    r.push('-' as u8);
    r.push('b' as u8);
    r.push('o' as u8);
    r.push('u' as u8);
    r.push('n' as u8);
    r.push('d' as u8);
    r.push('a' as u8);
    r.push('r' as u8);
    r.push('y' as u8);
    r.push('d' as u8);
    r.push('o' as u8);
    r.push('n' as u8);
    r.push('o' as u8);
    r.push('t' as u8);
    r.push('c' as u8);
    r.push('r' as u8);
    r.push('o' as u8);
    r.push('s' as u8);
    r.push('s' as u8);
    r.push('\r' as u8);
    r.push('\n' as u8);
    r.push('C' as u8);
    r.push('o' as u8);
    r.push('n' as u8);
    r.push('t' as u8);
    r.push('e' as u8);
    r.push('n' as u8);
    r.push('t' as u8);
    r.push('-' as u8);
    r.push('L' as u8);
    r.push('e' as u8);
    r.push('n' as u8);
    r.push('g' as u8);
    r.push('t' as u8);
    r.push('h' as u8);
    r.push(':' as u8);
    proof {
        assert(r@ =~= envelope_prefix());
    }
    let mut digits = dec_to_bytes(bytes.len());
    r.append(&mut digits);
    r.push('\r' as u8);
    r.push('\n' as u8);
    r.push('C' as u8);
    r.push('o' as u8);
    r.push('n' as u8);
    r.push('t' as u8);
    r.push('e' as u8);
    r.push('n' as u8);
    r.push('t' as u8);
    r.push('-' as u8);
    r.push('T' as u8);
    r.push('y' as u8);
    r.push('p' as u8);
    r.push('e' as u8);
    r.push(':' as u8);
    r.push('i' as u8);
    r.push('m' as u8);
    r.push('a' as u8);
    r.push('g' as u8);
    r.push('e' as u8);
    r.push('/' as u8);
    r.push('j' as u8);
    r.push('p' as u8);
    r.push('e' as u8);
    r.push('g' as u8);
    r.push('\r' as u8);
    r.push('\n' as u8);
    r.push('\r' as u8);
    r.push('\n' as u8);
    proof {
        assert(r@ =~= envelope_prefix() + dec_digits(bytes@.len()) + envelope_suffix());
    }
    let mut i: usize = 0;
    while i < bytes.len()
        invariant
            i <= bytes@.len(),
            r@ == envelope_prefix() + dec_digits(bytes@.len()) + envelope_suffix()
                + bytes@.subrange(0, i as int),
        decreases bytes@.len() - i,
    {
        r.push(bytes[i]);
        i = i + 1;
        proof {
            assert(r@ =~= envelope_prefix() + dec_digits(bytes@.len()) + envelope_suffix()
                + bytes@.subrange(0, i as int));
        }
    }
    proof {
        assert(bytes@.subrange(0, bytes@.len() as int) =~= bytes@);
    }
    r
}

} // verus!

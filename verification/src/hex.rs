//! Lower-case hexadecimal text for 32-byte secrets and identities.
use vstd::prelude::*;

verus! {

/// The ASCII code of the lower-case hex digit for a nibble.
pub open spec fn hex_digit(n: u8) -> u8 {
    if n < 10 {
        (48 + n) as u8
    } else {
        (87 + n) as u8
    }
}

/// The nibble that a lower-case hex digit stands for; upper case is refused.
pub open spec fn hex_nibble(c: u8) -> Option<u8> {
    if 48 <= c <= 57 {
        Some((c - 48) as u8)
    } else if 97 <= c <= 102 {
        Some((c - 87) as u8)
    } else {
        None
    }
}

/// Two digits per byte, high nibble first.
pub open spec fn hex_encode(b: Seq<u8>) -> Seq<u8> {
    Seq::new(
        2 * b.len(),
        |i: int|
            if i % 2 == 0 {
                hex_digit(b[i / 2] / 16)
            } else {
                hex_digit(b[i / 2] % 16)
            },
    )
}

/// The same text as characters.
pub open spec fn ascii_chars(s: Seq<u8>) -> Seq<char> {
    Seq::new(s.len(), |i: int| s[i] as char)
}

pub open spec fn is_lower_hex(s: Seq<u8>) -> bool {
    forall|i: int| 0 <= i < s.len() ==> (#[trigger] hex_nibble(s[i])) is Some
}

/// Exactly 64 lower-case hex digits decode to 32 bytes; anything else is refused.
pub open spec fn decode_secret(s: Seq<u8>) -> Option<Seq<u8>> {
    if s.len() == 64 && is_lower_hex(s) {
        Some(
            Seq::new(
                32,
                |i: int|
                    (16 * hex_nibble(s[2 * i]).unwrap() + hex_nibble(s[2 * i + 1]).unwrap()) as u8,
            ),
        )
    } else {
        None
    }
}

pub open spec fn all_ascii(s: Seq<u8>) -> bool {
    forall|i: int| 0 <= i < s.len() ==> #[trigger] s[i] < 128
}

/// Decoding the encoding of 32 bytes gives those bytes back.
pub proof fn lemma_decode_encode(b: Seq<u8>)
    requires
        b.len() == 32,
    ensures
        decode_secret(hex_encode(b)) == Some(b),
        all_ascii(hex_encode(b)),
{
    let e = hex_encode(b);
    assert forall|i: int| 0 <= i < e.len() implies (#[trigger] hex_nibble(e[i])) is Some by {
        let n = if i % 2 == 0 { b[i / 2] / 16 } else { b[i / 2] % 16 };
        assert(e[i] == hex_digit(n));
    }
    let d = decode_secret(e).unwrap();
    assert forall|i: int| 0 <= i < 32 implies d[i] == b[i] by {
        assert((2 * i) % 2 == 0);
        assert((2 * i + 1) % 2 == 1);
        assert((2 * i) / 2 == i);
        assert((2 * i + 1) / 2 == i);
        let hi = b[i] / 16;
        let lo = b[i] % 16;
        assert(hex_nibble(hex_digit(hi)) == Some(hi));
        assert(hex_nibble(hex_digit(lo)) == Some(lo));
        assert(16 * hi + lo == b[i]);
    }
    assert(d =~= b);
}

pub fn hex_digit_exec(n: u8) -> (c: u8)
    requires
        n < 16,
    ensures
        c == hex_digit(n),
{
    if n < 10 {
        48 + n
    } else {
        87 + n
    }
}

pub fn hex_nibble_exec(c: u8) -> (n: Option<u8>)
    ensures
        n == hex_nibble(c),
{
    if 48 <= c && c <= 57 {
        Some(c - 48)
    } else if 97 <= c && c <= 102 {
        Some(c - 87)
    } else {
        None
    }
}

/// Turns ASCII bytes into a `String` through `String::from_utf8`; every ASCII
/// byte sequence is valid UTF-8 and each byte becomes the character of the
/// same code, as std documents.
#[verifier::external_body]
fn string_from_ascii(bytes: Vec<u8>) -> (s: Option<String>)
    ensures
        all_ascii(bytes@) ==> s is Some && s->0@ == ascii_chars(bytes@),
{
    String::from_utf8(bytes).ok()
}

/// The 64-digit lower-case hex text of 32 bytes.
pub fn encode_32(b: &[u8; 32]) -> (s: String)
    ensures
        s@ == ascii_chars(hex_encode(b@)),
{
    let mut out: Vec<u8> = Vec::new();
    let mut i: usize = 0;
    while i < 32
        invariant
            i <= 32,
            b@.len() == 32,
            out@ == hex_encode(b@).take(2 * i as int),
        decreases 32 - i,
    {
        let v = b[i];
        let hi = hex_digit_exec(v / 16);
        let lo = hex_digit_exec(v % 16);
        proof {
            assert((2 * i as int) % 2 == 0);
            assert((2 * i as int + 1) % 2 == 1);
            assert((2 * i as int) / 2 == i);
            assert((2 * i as int + 1) / 2 == i);
        }
        out.push(hi);
        out.push(lo);
        i = i + 1;
        assert(out@ =~= hex_encode(b@).take(2 * i as int));
    }
    proof {
        assert(out@ =~= hex_encode(b@));
        lemma_decode_encode(b@);
    }
    match string_from_ascii(out) {
        Some(s) => s,
        None => {
            proof {
                assert(false);
            }
            String::new()
        },
    }
}

/// Decodes exactly 64 lower-case hex digits into 32 bytes.
pub fn decode_32(s: &[u8]) -> (r: Option<[u8; 32]>)
    ensures
        match decode_secret(s@) {
            Some(b) => r is Some && r->0@ == b,
            None => r is None,
        },
{
    if s.len() != 64 {
        return None;
    }
    let mut out: [u8; 32] = [0u8; 32];
    let mut i: usize = 0;
    while i < 32
        invariant
            i <= 32,
            s@.len() == 64,
            out@.len() == 32,
            forall|k: int| 0 <= k < 2 * i ==> (#[trigger] hex_nibble(s@[k])) is Some,
            forall|k: int|
                0 <= k < i ==> out@[k] == (16 * hex_nibble(s@[2 * k]).unwrap() + hex_nibble(
                    s@[2 * k + 1],
                ).unwrap()) as u8,
        decreases 32 - i,
    {
        let hi = hex_nibble_exec(s[2 * i]);
        let lo = hex_nibble_exec(s[2 * i + 1]);
        match (hi, lo) {
            (Some(h), Some(l)) => {
                out[i] = h * 16 + l;
            },
            _ => {
                proof {
                    assert(!is_lower_hex(s@));
                }
                return None;
            },
        }
        i = i + 1;
    }
    proof {
        let d = decode_secret(s@);
        assert(is_lower_hex(s@));
        assert(out@ =~= d.unwrap());
    }
    Some(out)
}

/// Decoding reads back the only text that encodes: what decodes to `b` is
/// `b`'s encoding.
pub proof fn lemma_encode_decode(t: Seq<u8>)
    requires
        decode_secret(t) is Some,
    ensures
        hex_encode(decode_secret(t)->0) == t,
{
    let b = decode_secret(t)->0;
    let e = hex_encode(b);
    assert forall|i: int| 0 <= i < t.len() implies e[i] == t[i] by {
        let k = i / 2;
        assert(hex_nibble(t[2 * k]) is Some);
        assert(hex_nibble(t[2 * k + 1]) is Some);
        let hi = hex_nibble(t[2 * k])->0;
        let lo = hex_nibble(t[2 * k + 1])->0;
        assert(hi < 16 && lo < 16);
        assert(b[k] == 16 * hi + lo);
        assert(b[k] / 16 == hi && b[k] % 16 == lo);
        assert(hex_digit(hi) == t[2 * k]);
        assert(hex_digit(lo) == t[2 * k + 1]);
    }
    assert(e =~= t);
}

} // verus!

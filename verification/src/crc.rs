//! The CRC-32 checksum (IEEE 802.3: reflected polynomial `0xEDB88320`,
//! initial value and final complement all ones), and the fact that makes it
//! a checksum: changing the bits of any one byte changes it.
use vstd::prelude::*;

verus! {

/// The reflected CRC-32 polynomial.
pub const POLY: u32 = 0xEDB8_8320;

/// One bit of the shift register: shift right, folding the polynomial in
/// when a one drops out.
pub open spec fn crc_bit(c: u32) -> u32 {
    if c & 1 == 1 {
        (c >> 1) ^ POLY
    } else {
        c >> 1
    }
}

/// Eight shifts: the register's answer to one byte already folded in.
pub open spec fn crc_shift8(c: u32) -> u32 {
    crc_bit(crc_bit(crc_bit(crc_bit(crc_bit(crc_bit(crc_bit(crc_bit(c))))))))
}

/// The register after byte `b`.
pub open spec fn crc_byte(c: u32, b: u8) -> u32 {
    crc_shift8(c ^ (b as u32))
}

/// The register after the bytes `d`, from all ones.
pub open spec fn crc_state(d: Seq<u8>) -> u32
    decreases d.len(),
{
    if d.len() == 0 {
        0xFFFF_FFFFu32
    } else {
        crc_byte(crc_state(d.drop_last()), d.last())
    }
}

/// The CRC-32 checksum of `d`: the complemented register.
pub open spec fn crc32_of(d: Seq<u8>) -> u32 {
    crc_state(d) ^ 0xFFFF_FFFFu32
}

proof fn lemma_bit_linear(x: u32, y: u32)
    ensures
        crc_bit(x ^ y) == crc_bit(x) ^ crc_bit(y),
{
    assert(crc_bit(x ^ y) == crc_bit(x) ^ crc_bit(y)) by (bit_vector);
}

proof fn lemma_bit_nonzero(x: u32)
    requires
        x != 0,
    ensures
        crc_bit(x) != 0,
{
    assert(x != 0 ==> crc_bit(x) != 0) by (bit_vector);
}

proof fn lemma_shift8_linear(x: u32, y: u32)
    ensures
        crc_shift8(x ^ y) == crc_shift8(x) ^ crc_shift8(y),
{
    let a = x;
    let b = y;
    lemma_bit_linear(a, b);
    lemma_bit_linear(crc_bit(a), crc_bit(b));
    lemma_bit_linear(crc_bit(crc_bit(a)), crc_bit(crc_bit(b)));
    lemma_bit_linear(crc_bit(crc_bit(crc_bit(a))), crc_bit(crc_bit(crc_bit(b))));
    lemma_bit_linear(crc_bit(crc_bit(crc_bit(crc_bit(a)))), crc_bit(crc_bit(crc_bit(crc_bit(b)))));
    lemma_bit_linear(
        crc_bit(crc_bit(crc_bit(crc_bit(crc_bit(a))))),
        crc_bit(crc_bit(crc_bit(crc_bit(crc_bit(b))))),
    );
    lemma_bit_linear(
        crc_bit(crc_bit(crc_bit(crc_bit(crc_bit(crc_bit(a)))))),
        crc_bit(crc_bit(crc_bit(crc_bit(crc_bit(crc_bit(b)))))),
    );
    lemma_bit_linear(
        crc_bit(crc_bit(crc_bit(crc_bit(crc_bit(crc_bit(crc_bit(a))))))),
        crc_bit(crc_bit(crc_bit(crc_bit(crc_bit(crc_bit(crc_bit(b))))))),
    );
}

proof fn lemma_shift8_nonzero(x: u32)
    requires
        x != 0,
    ensures
        crc_shift8(x) != 0,
{
    lemma_bit_nonzero(x);
    lemma_bit_nonzero(crc_bit(x));
    lemma_bit_nonzero(crc_bit(crc_bit(x)));
    lemma_bit_nonzero(crc_bit(crc_bit(crc_bit(x))));
    lemma_bit_nonzero(crc_bit(crc_bit(crc_bit(crc_bit(x)))));
    lemma_bit_nonzero(crc_bit(crc_bit(crc_bit(crc_bit(crc_bit(x))))));
    lemma_bit_nonzero(crc_bit(crc_bit(crc_bit(crc_bit(crc_bit(crc_bit(x)))))));
    lemma_bit_nonzero(crc_bit(crc_bit(crc_bit(crc_bit(crc_bit(crc_bit(crc_bit(x))))))));
}

/// Two registers that differ still differ after one more common byte.
proof fn lemma_byte_keeps_difference(s: u32, t: u32, b: u8)
    requires
        s != t,
    ensures
        crc_byte(s, b) != crc_byte(t, b),
{
    let x = s ^ (b as u32);
    let y = t ^ (b as u32);
    assert(x ^ y == s ^ t && (s != t ==> s ^ t != 0)) by (bit_vector)
        requires
            x == s ^ (b as u32),
            y == t ^ (b as u32),
    ;
    lemma_shift8_linear(x, y);
    lemma_shift8_nonzero(x ^ y);
    assert(crc_shift8(x) != crc_shift8(y)) by (bit_vector)
        requires
            crc_shift8(x ^ y) == crc_shift8(x) ^ crc_shift8(y),
            crc_shift8(x ^ y) != 0,
    ;
}

/// Two different bytes take one register to different registers.
proof fn lemma_bytes_differ(s: u32, a: u8, b: u8)
    requires
        a != b,
    ensures
        crc_byte(s, a) != crc_byte(s, b),
{
    let x = s ^ (a as u32);
    let y = s ^ (b as u32);
    assert(x != y) by (bit_vector)
        requires
            x == s ^ (a as u32),
            y == s ^ (b as u32),
            a != b,
    ;
    lemma_byte_keeps_difference(x, y, 0);
    assert(crc_byte(s, a) == crc_shift8(x ^ 0u32) && crc_byte(s, b) == crc_shift8(y ^ 0u32)) by {
        assert(x ^ 0u32 == x && y ^ 0u32 == y) by (bit_vector);
        assert((0u8 as u32) == 0u32);
    }
}

/// Changing one byte of `d` changes its checksum: CRC-32 detects every
/// error confined to a single byte, so in particular every flipped bit.
pub proof fn law_one_byte_changes_checksum(d: Seq<u8>, i: int, v: u8)
    requires
        0 <= i < d.len(),
        v != d[i],
    ensures
        crc32_of(d.update(i, v)) != crc32_of(d),
{
    let e = d.update(i, v);
    lemma_states_differ(d, e, i, d.len() as int);
    assert(d.take(d.len() as int) =~= d);
    assert(e.take(e.len() as int) =~= e);
    let s = crc_state(d);
    let t = crc_state(e);
    assert(s ^ 0xFFFF_FFFFu32 != t ^ 0xFFFF_FFFFu32) by (bit_vector)
        requires
            s != t,
    ;
}

/// The registers of the first `m` bytes of `d` and of `e`, which differ
/// only at `i < m`, differ.
proof fn lemma_states_differ(d: Seq<u8>, e: Seq<u8>, i: int, m: int)
    requires
        0 <= i < m <= d.len(),
        d.len() == e.len(),
        e[i] != d[i],
        forall|k: int| 0 <= k < d.len() && k != i ==> e[k] == d[k],
    ensures
        crc_state(d.take(m)) != crc_state(e.take(m)),
    decreases m,
{
    let dm = d.take(m);
    let em = e.take(m);
    assert(dm.drop_last() =~= d.take(m - 1));
    assert(em.drop_last() =~= e.take(m - 1));
    if m - 1 == i {
        assert(d.take(m - 1) =~= e.take(m - 1));
        lemma_bytes_differ(crc_state(d.take(m - 1)), d[i], e[i]);
    } else {
        lemma_states_differ(d, e, i, m - 1);
        assert(dm.last() == em.last());
        lemma_byte_keeps_difference(crc_state(d.take(m - 1)), crc_state(e.take(m - 1)), dm.last());
    }
}

} // verus!

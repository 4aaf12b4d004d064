//! Canonical decimal text for counters, indices and identifiers on the wire:
//! exactly the text that the number prints as, so no two strings name one
//! value and no value is silently widened or truncated.
use vstd::prelude::*;
use vstd::string::StringSliceAdditionalSpecFns;

verus! {

/// The UTF-8 bytes of text.
pub open spec fn utf8(s: Seq<char>) -> Seq<u8> {
    vstd::utf8::encode_utf8(s)
}

pub open spec fn is_digit(b: u8) -> bool {
    48 <= b <= 57
}

pub open spec fn all_digits(s: Seq<u8>) -> bool {
    forall|i: int| 0 <= i < s.len() ==> #[trigger] is_digit(s[i])
}

/// The value of decimal digits (most significant first).
pub open spec fn decimal(s: Seq<u8>) -> nat
    decreases s.len(),
{
    if s.len() == 0 {
        0
    } else {
        decimal(s.drop_last()) * 10 + (s.last() - 48) as nat
    }
}

/// Digits as a number prints them: not empty, no leading zero.
pub open spec fn canonical_digits(s: Seq<u8>) -> bool {
    &&& s.len() >= 1
    &&& all_digits(s)
    &&& (s.len() == 1 || s[0] != 48)
}

/// The `u64` whose decimal text is exactly `s`.
pub open spec fn canonical_u64(s: Seq<u8>) -> Option<u64> {
    if canonical_digits(s) && decimal(s) <= u64::MAX {
        Some(decimal(s) as u64)
    } else {
        None
    }
}

/// The `i64` whose decimal text is exactly `s` (a minus sign, never "-0").
pub open spec fn canonical_i64(s: Seq<u8>) -> Option<i64> {
    if s.len() >= 1 && s[0] == 45 {
        let rest = s.subrange(1, s.len() as int);
        if canonical_digits(rest) && rest[0] != 48 && decimal(rest) <= 0x8000_0000_0000_0000 {
            Some((-decimal(rest)) as i64)
        } else {
            None
        }
    } else if canonical_digits(s) && decimal(s) <= i64::MAX {
        Some(decimal(s) as i64)
    } else {
        None
    }
}

proof fn lemma_decimal_prefix_le(s: Seq<u8>, k: int)
    requires
        all_digits(s),
        0 <= k <= s.len(),
    ensures
        decimal(s.take(k)) <= decimal(s),
    decreases s.len(),
{
    if k < s.len() {
        assert(s.drop_last().take(k) =~= s.take(k));
        assert forall|i: int| 0 <= i < s.drop_last().len() implies #[trigger] is_digit(
            s.drop_last()[i],
        ) by {
            assert(is_digit(s[i]));
        }
        lemma_decimal_prefix_le(s.drop_last(), k);
    } else {
        assert(s.take(k) =~= s);
    }
}

/// Parses canonical decimal digits into a `u64`.
pub fn parse_u64(s: &[u8]) -> (r: Option<u64>)
    ensures
        r == canonical_u64(s@),
{
    let n = s.len();
    if n == 0 {
        return None;
    }
    if n > 1 && s[0] == 48 {
        return None;
    }
    let mut v: u64 = 0;
    let mut i: usize = 0;
    assert(s@.take(0) =~= Seq::<u8>::empty());
    while i < n
        invariant
            n == s@.len(),
            n >= 1,
            n == 1 || s@[0] != 48,
            i <= n,
            all_digits(s@.take(i as int)),
            v == decimal(s@.take(i as int)),
        decreases n - i,
    {
        let b = s[i];
        if b < 48 || b > 57 {
            proof {
                assert(!is_digit(s@[i as int]));
            }
            return None;
        }
        proof {
            assert(s@.take(i + 1).drop_last() =~= s@.take(i as int));
            assert(s@.take(i + 1).last() == b);
        }
        let m = match v.checked_mul(10) {
            Some(m) => m,
            None => {
                proof {
                    if all_digits(s@) {
                        lemma_decimal_prefix_le(s@, i + 1);
                    }
                }
                return None;
            },
        };
        let d: u64 = (b - 48) as u64;
        let w = match m.checked_add(d) {
            Some(w) => w,
            None => {
                proof {
                    if all_digits(s@) {
                        lemma_decimal_prefix_le(s@, i + 1);
                    }
                }
                return None;
            },
        };
        v = w;
        i = i + 1;
        proof {
            assert forall|k: int| 0 <= k < i implies #[trigger] is_digit(s@.take(i as int)[k]) by {
                if k < i - 1 {
                    assert(s@.take(i as int)[k] == s@.take(i - 1)[k]);
                }
            }
        }
    }
    assert(s@.take(n as int) =~= s@);
    Some(v)
}

/// Parses the canonical text of an `i64`.
pub fn parse_i64(s: &[u8]) -> (r: Option<i64>)
    ensures
        r == canonical_i64(s@),
{
    if s.len() >= 1 && s[0] == 45 {
        let rest = vstd::slice::slice_subrange(s, 1, s.len());
        if rest.len() == 0 || rest[0] == 48 {
            return None;
        }
        match parse_u64(rest) {
            Some(v) => {
                if v <= 0x8000_0000_0000_0000 {
                    if v == 0x8000_0000_0000_0000 {
                        Some(i64::MIN)
                    } else {
                        Some(-(v as i64))
                    }
                } else {
                    None
                }
            },
            None => None,
        }
    } else {
        match parse_u64(s) {
            Some(v) => if v <= 0x7fff_ffff_ffff_ffff {
                Some(v as i64)
            } else {
                None
            },
            None => None,
        }
    }
}

/// A DRC wire number: the canonical decimal text of a `u64`, at most 20
/// characters.
pub fn number(s: &str) -> (r: Result<u64, &'static str>)
    ensures
        match canonical_u64(s.spec_bytes()) {
            Some(v) => r == Ok::<u64, &'static str>(v),
            None => r == Err::<u64, &'static str>("invalid_drc_request"),
        },
{
    let bytes = s.as_bytes();
    if bytes.len() > 20 {
        proof {
            if canonical_digits(bytes@) {
                lemma_long_digits_overflow(bytes@);
            }
        }
        return Err("invalid_drc_request");
    }
    match parse_u64(bytes) {
        Some(n) => Ok(n),
        None => Err("invalid_drc_request"),
    }
}

proof fn lemma_long_digits_overflow(s: Seq<u8>)
    requires
        canonical_digits(s),
        s.len() > 20,
    ensures
        decimal(s) > u64::MAX,
{
    lemma_decimal_lower_bound(s);
    lemma_ten_pow_monotone(20, (s.len() - 1) as nat);
    assert(ten_pow(20) == 100_000_000_000_000_000_000) by {
        reveal_with_fuel(ten_pow, 21);
    }
}

pub open spec fn ten_pow(k: nat) -> nat
    decreases k,
{
    if k == 0 {
        1
    } else {
        10 * ten_pow((k - 1) as nat)
    }
}

proof fn lemma_ten_pow_monotone(a: nat, b: nat)
    requires
        a <= b,
    ensures
        ten_pow(a) <= ten_pow(b),
    decreases b,
{
    if a < b {
        lemma_ten_pow_monotone(a, (b - 1) as nat);
    }
}

/// A number of `k + 1` digits that does not start with zero is at least `10^k`.
proof fn lemma_decimal_lower_bound(s: Seq<u8>)
    requires
        canonical_digits(s),
        s[0] != 48,
    ensures
        decimal(s) >= ten_pow((s.len() - 1) as nat),
    decreases s.len(),
{
    if s.len() == 1 {
        assert(decimal(s) == decimal(s.drop_last()) * 10 + (s.last() - 48) as nat);
        assert(s.drop_last() =~= Seq::<u8>::empty());
        assert(decimal(s.drop_last()) == 0);
        assert(is_digit(s[0]));
        assert(s.last() == s[0]);
        assert(ten_pow(0) == 1);
    } else {
        let d = s.drop_last();
        assert forall|i: int| 0 <= i < d.len() implies #[trigger] is_digit(d[i]) by {
            assert(is_digit(s[i]));
        }
        assert(d[0] == s[0]);
        lemma_decimal_lower_bound(d);
        assert(ten_pow((s.len() - 1) as nat) == 10 * ten_pow((d.len() - 1) as nat));
        assert(decimal(s) == decimal(d) * 10 + (s.last() - 48) as nat);
    }
}

/// The decimal text a number prints as: its digits, most significant
/// first, with no sign and no leading zero.
pub open spec fn decimal_text(n: nat) -> Seq<u8>
    decreases n,
{
    if n < 10 {
        seq![(48 + n) as u8]
    } else {
        decimal_text(n / 10).push((48 + n % 10) as u8)
    }
}

proof fn lemma_decimal_text(n: nat)
    ensures
        canonical_digits(decimal_text(n)),
        decimal(decimal_text(n)) == n,
    decreases n,
{
    let t = decimal_text(n);
    if n < 10 {
        assert(t.drop_last() =~= Seq::<u8>::empty());
        assert(decimal(t.drop_last()) == 0);
        assert(t.last() == 48 + n);
        assert(is_digit(t[0]));
    } else {
        lemma_decimal_text(n / 10);
        let p = decimal_text(n / 10);
        assert(t.drop_last() =~= p);
        assert forall|i: int| 0 <= i < t.len() implies #[trigger] is_digit(t[i]) by {
            if i < p.len() {
                assert(t[i] == p[i]);
                assert(is_digit(p[i]));
            }
        }
        assert(t[0] == p[0]);
        if p.len() == 1 {
            assert(p.drop_last() =~= Seq::<u8>::empty());
            assert(decimal(p.drop_last()) == 0);
            assert(decimal(p) == p[0] - 48);
        }
        assert(t[0] != 48);
        assert(t.last() == 48 + n % 10);
        assert(decimal(t) == decimal(p) * 10 + n % 10);
    }
}

proof fn lemma_decimal_zero(s: Seq<u8>)
    requires
        all_digits(s),
        decimal(s) == 0,
        s.len() >= 1,
    ensures
        s[0] == 48,
    decreases s.len(),
{
    assert(is_digit(s[s.len() - 1]));
    if s.len() > 1 {
        let t = s.drop_last();
        assert forall|i: int| 0 <= i < t.len() implies #[trigger] is_digit(t[i]) by {
            assert(is_digit(s[i]));
        }
        lemma_decimal_zero(t);
    }
}

proof fn lemma_canonical_is_printed(s: Seq<u8>)
    requires
        canonical_digits(s),
    ensures
        s == decimal_text(decimal(s)),
    decreases s.len(),
{
    assert(is_digit(s[s.len() - 1]));
    if s.len() == 1 {
        assert(s.drop_last() =~= Seq::<u8>::empty());
        assert(decimal(s.drop_last()) == 0);
        assert(decimal(s) == s[0] - 48);
        assert(decimal_text(decimal(s)) == seq![(48 + decimal(s)) as u8]);
        assert(s =~= decimal_text(decimal(s)));
    } else {
        let t = s.drop_last();
        assert forall|i: int| 0 <= i < t.len() implies #[trigger] is_digit(t[i]) by {
            assert(is_digit(s[i]));
        }
        assert(t[0] == s[0]);
        assert(canonical_digits(t));
        if decimal(t) == 0 {
            lemma_decimal_zero(t);
        }
        lemma_canonical_is_printed(t);
        let n = decimal(s);
        let d = s.last() - 48;
        assert(n == decimal(t) * 10 + d);
        assert(n / 10 == decimal(t) && n % 10 == d);
        assert(s =~= decimal_text(n));
    }
}

/// Every `u64` reads back from the text it prints as, and that text is the
/// only one a canonical reading takes to it.
pub proof fn law_printed_u64_reads_back(n: u64, s: Seq<u8>)
    ensures
        canonical_u64(decimal_text(n as nat)) == Some(n),
        canonical_u64(s) == Some(n) ==> s == decimal_text(n as nat),
{
    lemma_decimal_text(n as nat);
    if canonical_u64(s) == Some(n) {
        lemma_canonical_is_printed(s);
    }
}

} // verus!

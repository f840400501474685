//! Unsigned integers read from text, in base 10 or 16.
use vstd::prelude::*;

verus! {

/// The value of `c` as a digit in `radix` (10 or 16; hex digits in either case).
pub open spec fn digit_value(c: char, radix: nat) -> Option<nat> {
    let v: int = if '0' <= c && c <= '9' {
        c as int - '0' as int
    } else if 'a' <= c && c <= 'f' {
        c as int - 'a' as int + 10
    } else if 'A' <= c && c <= 'F' {
        c as int - 'A' as int + 10
    } else {
        -1
    };
    if 0 <= v < radix {
        Some(v as nat)
    } else {
        None
    }
}

pub open spec fn all_digits(ds: Seq<char>, radix: nat) -> bool {
    forall|i: int| 0 <= i < ds.len() ==> digit_value(#[trigger] ds[i], radix) is Some
}

/// The number that the digits `ds` spell in `radix`, most significant first.
pub open spec fn digits_value(ds: Seq<char>, radix: nat) -> nat
    decreases ds.len(),
{
    if ds.len() == 0 {
        0
    } else {
        digits_value(ds.drop_last(), radix) * radix + match digit_value(ds.last(), radix) {
            Some(d) => d,
            None => 0,
        }
    }
}

/// A non-empty run of digits whose value fits in a `u64`.
pub open spec fn unsigned_value(ds: Seq<char>, radix: nat) -> Option<u64> {
    if ds.len() > 0 && all_digits(ds, radix) && digits_value(ds, radix) <= u64::MAX {
        Some(digits_value(ds, radix) as u64)
    } else {
        None
    }
}

/// What `str::parse::<u64>` accepts: an optional `+`, then decimal digits,
/// with a value that fits in a `u64`.
pub open spec fn decimal_u64(s: Seq<char>) -> Option<u64> {
    if s.len() > 0 && s[0] == '+' {
        unsigned_value(s.drop_first(), 10)
    } else {
        unsigned_value(s, 10)
    }
}

/// `s` is nothing but hex digits, at least one, with a value that fits in a `u64`.
pub open spec fn hex_u64(s: Seq<char>) -> Option<u64> {
    unsigned_value(s, 16)
}

proof fn lemma_digits_value_grows(ds: Seq<char>, radix: nat, k: int)
    requires
        0 <= k <= ds.len(),
        radix >= 1,
    ensures
        digits_value(ds.take(k), radix) <= digits_value(ds, radix),
    decreases ds.len() - k,
{
    if k < ds.len() {
        lemma_digits_value_grows(ds, radix, k + 1);
        let a = ds.take(k + 1);
        assert(a.drop_last() =~= ds.take(k));
        let v = digits_value(ds.take(k), radix);
        assert(v * radix >= v) by (nonlinear_arith)
            requires
                radix >= 1,
        ;
    } else {
        assert(ds.take(k) =~= ds);
    }
}

fn digit_of(c: char, radix: u64) -> (r: Option<u64>)
    requires
        radix == 10 || radix == 16,
    ensures
        match r {
            Some(d) => digit_value(c, radix as nat) == Some(d as nat),
            None => digit_value(c, radix as nat) is None,
        },
{
    let v: u64 = if '0' <= c && c <= '9' {
        (c as u64) - ('0' as u64)
    } else if 'a' <= c && c <= 'f' {
        (c as u64) - ('a' as u64) + 10
    } else if 'A' <= c && c <= 'F' {
        (c as u64) - ('A' as u64) + 10
    } else {
        return None;
    };
    if v < radix {
        Some(v)
    } else {
        None
    }
}

/// Reads `ds[start..]` as a run of digits in `radix`.
fn parse_digits(ds: &Vec<char>, start: usize, radix: u64) -> (r: Option<u64>)
    requires
        start <= ds@.len(),
        radix == 10 || radix == 16,
    ensures
        r == unsigned_value(ds@.subrange(start as int, ds@.len() as int), radix as nat),
{
    let ghost s = ds@.subrange(start as int, ds@.len() as int);
    if start == ds.len() {
        return None;
    }
    let mut acc: u64 = 0;
    let mut i = start;
    while i < ds.len()
        invariant
            start <= i <= ds@.len(),
            s == ds@.subrange(start as int, ds@.len() as int),
            radix == 10 || radix == 16,
            all_digits(s.take(i - start), radix as nat),
            acc as nat == digits_value(s.take(i - start), radix as nat),
        decreases ds@.len() - i,
    {
        let d = match digit_of(ds[i], radix) {
            Some(d) => d,
            None => {
                assert(s[i - start] == ds@[i as int]);
                return None;
            },
        };
        let ghost t = s.take(i - start + 1);
        assert(t.drop_last() =~= s.take(i - start));
        assert(t.last() == ds@[i as int]);
        assert(all_digits(t, radix as nat)) by {
            assert forall|m: int| 0 <= m < t.len() implies digit_value(#[trigger] t[m], radix as nat) is Some by {
                if m < t.len() - 1 {
                    assert(t[m] == s.take(i - start)[m]);
                }
            }
        }
        assert((acc as u128) * (radix as u128) <= (u64::MAX as u128) * 16) by (nonlinear_arith)
            requires
                acc <= u64::MAX,
                radix <= 16,
        ;
        let big = (acc as u128) * (radix as u128) + (d as u128);
        assert(big == digits_value(t, radix as nat));
        if big > u64::MAX as u128 {
            proof {
                lemma_digits_value_grows(s, radix as nat, i - start + 1);
            }
            return None;
        }
        acc = big as u64;
        i = i + 1;
    }
    assert(s.take(i - start) =~= s);
    Some(acc)
}

/// Reads `s` as `str::parse::<u64>` does.
pub fn parse_u64(s: &str) -> (r: Option<u64>)
    ensures
        r == decimal_u64(s@),
{
    let ds = crate::text::chars_of(s);
    if ds.len() > 0 && ds[0] == '+' {
        assert(ds@.subrange(1, ds@.len() as int) =~= s@.drop_first());
        parse_digits(&ds, 1, 10)
    } else {
        assert(ds@.subrange(0, ds@.len() as int) =~= s@);
        parse_digits(&ds, 0, 10)
    }
}

/// Reads `s` as a run of hex digits.
pub fn parse_hex(s: &str) -> (r: Option<u64>)
    ensures
        r == hex_u64(s@),
{
    let ds = crate::text::chars_of(s);
    assert(ds@.subrange(0, ds@.len() as int) =~= s@);
    parse_digits(&ds, 0, 16)
}

} // verus!

use vstd::prelude::*;

use crate::buflist::{BufList, Reader};

verus! {

/// The outcome of reading a value from the front of a byte sequence: the
/// value and the number of bytes it took, a shortfall, or an impossible layout.
pub enum Parsed<T> {
    Done(T, nat),
    Short,
    Bad,
}

pub open spec fn pow256(n: nat) -> nat
    decreases n,
{
    if n == 0 {
        1
    } else {
        256 * pow256((n - 1) as nat)
    }
}

pub open spec fn pow128(n: nat) -> nat
    decreases n,
{
    if n == 0 {
        1
    } else {
        128 * pow128((n - 1) as nat)
    }
}

/// The `n` bytes of `v`, least significant first.
pub open spec fn le_bytes(v: nat, n: nat) -> Seq<u8>
    decreases n,
{
    if n == 0 {
        Seq::empty()
    } else {
        seq![(v % 256) as u8] + le_bytes(v / 256, (n - 1) as nat)
    }
}

/// The number whose bytes, least significant first, are `s`.
pub open spec fn le_value(s: Seq<u8>) -> nat
    decreases s.len(),
{
    if s.len() == 0 {
        0
    } else {
        s[0] as nat + 256 * le_value(s.drop_first())
    }
}

pub open spec fn parse_le(s: Seq<u8>, n: nat) -> Parsed<nat> {
    if s.len() < n {
        Parsed::Short
    } else {
        Parsed::Done(le_value(s.take(n as int)), n)
    }
}

/// LEB128: seven bits per byte, least significant group first, high bit set
/// on every byte but the last.
pub open spec fn varint_bytes(v: nat) -> Seq<u8>
    decreases v,
{
    if v < 128 {
        seq![v as u8]
    } else {
        seq![((v % 128) + 128) as u8] + varint_bytes(v / 128)
    }
}

/// Reads a LEB128 number of at most `k` bytes.
pub open spec fn parse_varint(s: Seq<u8>, k: nat) -> Parsed<nat>
    decreases k,
{
    if k == 0 {
        Parsed::Bad
    } else if s.len() == 0 {
        Parsed::Short
    } else if s[0] < 128 {
        Parsed::Done(s[0] as nat, 1)
    } else {
        match parse_varint(s.drop_first(), (k - 1) as nat) {
            Parsed::Done(v, n) => Parsed::Done(((s[0] - 128) + 128 * v) as nat, n + 1),
            Parsed::Short => Parsed::Short,
            Parsed::Bad => Parsed::Bad,
        }
    }
}

/// The most bytes a length prefix may take; it bounds lengths below 2^63.
pub const VARINT_MAX_BYTES: usize = 9;

pub proof fn lemma_pow256_pos(n: nat)
    ensures
        pow256(n) >= 1,
    decreases n,
{
    if n > 0 {
        lemma_pow256_pos((n - 1) as nat);
    }
}

pub proof fn lemma_pow128_pos(n: nat)
    ensures
        pow128(n) >= 1,
    decreases n,
{
    if n > 0 {
        lemma_pow128_pos((n - 1) as nat);
    }
}

pub proof fn lemma_le_value_bound(s: Seq<u8>)
    ensures
        le_value(s) < pow256(s.len()),
    decreases s.len(),
{
    if s.len() > 0 {
        lemma_le_value_bound(s.drop_first());
        let r = le_value(s.drop_first());
        let p = pow256((s.len() - 1) as nat);
        let b = s[0] as nat;
        assert(b + 256 * r < 256 * p) by (nonlinear_arith)
            requires
                b < 256,
                r < p,
        ;
    }
}

pub proof fn lemma_le_round_trip(v: nat, n: nat)
    requires
        v < pow256(n),
    ensures
        le_bytes(v, n).len() == n,
        le_value(le_bytes(v, n)) == v,
    decreases n,
{
    if n > 0 {
        let p = pow256((n - 1) as nat);
        assert(v / 256 < p) by (nonlinear_arith)
            requires
                v < 256 * p,
        ;
        lemma_le_round_trip(v / 256, (n - 1) as nat);
        let s = le_bytes(v, n);
        assert(s.drop_first() =~= le_bytes(v / 256, (n - 1) as nat));
        assert(v == v % 256 + 256 * (v / 256)) by (nonlinear_arith);
    } else {
        assert(v == 0);
    }
}

pub proof fn lemma_varint_round_trip(v: nat, k: nat, rest: Seq<u8>)
    requires
        1 <= k,
        v < pow128(k),
    ensures
        parse_varint(varint_bytes(v) + rest, k) == Parsed::Done(v, varint_bytes(v).len()),
    decreases v,
{
    let s = varint_bytes(v) + rest;
    if v < 128 {
        assert(s[0] == v as u8);
        assert(s[0] as nat == v);
    } else {
        let p = pow128((k - 1) as nat);
        assert(v / 128 < p) by (nonlinear_arith)
            requires
                v < 128 * p,
        ;
        if k == 1 {
            assert(pow128(0) == 1);
        }
        assert(v / 128 < v) by (nonlinear_arith)
            requires
                v >= 128,
        ;
        lemma_varint_round_trip(v / 128, (k - 1) as nat, rest);
        assert(s.drop_first() =~= varint_bytes(v / 128) + rest);
        assert(s[0] == ((v % 128) + 128) as u8);
        assert(s[0] - 128 == v % 128);
        assert(varint_bytes(v).len() == 1 + varint_bytes(v / 128).len());
        assert(v == v % 128 + 128 * (v / 128)) by (nonlinear_arith);
    }
}

pub proof fn lemma_varint_bound(s: Seq<u8>, k: nat)
    ensures
        parse_varint(s, k) matches Parsed::Done(v, n) ==> v < pow128(k) && 1 <= n <= k && n
            <= s.len(),
    decreases k,
{
    if k > 0 && s.len() > 0 && s[0] >= 128 {
        lemma_varint_bound(s.drop_first(), (k - 1) as nat);
        if let Parsed::Done(v, n) = parse_varint(s.drop_first(), (k - 1) as nat) {
            let p = pow128((k - 1) as nat);
            let b = (s[0] - 128) as nat;
            assert(b + 128 * v < 128 * p) by (nonlinear_arith)
                requires
                    b < 128,
                    v < p,
            ;
        }
    } else if k > 0 && s.len() > 0 {
        lemma_pow128_pos((k - 1) as nat);
    }
}

pub proof fn lemma_pow128_9()
    ensures
        pow128(9) == 0x8000_0000_0000_0000,
{
    reveal_with_fuel(pow128, 10);
}

pub proof fn lemma_pow256_16()
    ensures
        pow256(16) == 0x1_0000_0000_0000_0000_0000_0000_0000_0000,
{
    reveal_with_fuel(pow256, 17);
}

/// Appends the `n` bytes of `v`, least significant first.
pub fn write_le(out: &mut Vec<u8>, v: u128, n: usize)
    ensures
        final(out)@ == old(out)@ + le_bytes(v as nat, n as nat),
    decreases n,
{
    if n == 0 {
        assert(old(out)@ + le_bytes(v as nat, 0) =~= old(out)@);
        return ;
    }
    out.push((v % 256) as u8);
    write_le(out, v / 256, n - 1);
    assert(final(out)@ =~= old(out)@ + le_bytes(v as nat, n as nat));
}

/// Appends the LEB128 form of `v`.
pub fn write_varint(out: &mut Vec<u8>, v: u64)
    ensures
        final(out)@ == old(out)@ + varint_bytes(v as nat),
    decreases v,
{
    if v < 128 {
        out.push(v as u8);
        assert(final(out)@ =~= old(out)@ + varint_bytes(v as nat));
        return ;
    }
    out.push(((v % 128) + 128) as u8);
    write_varint(out, v / 128);
    assert(final(out)@ =~= old(out)@ + varint_bytes(v as nat));
}

/// Reads `n` bytes as an unsigned little-endian number.
pub fn read_le(chain: &BufList, rd: &mut Reader, n: usize) -> (r: Option<u128>)
    requires
        chain.wf(),
        chain.reader_wf(*old(rd)),
        n <= 16,
    ensures
        chain.reader_wf(*final(rd)),
        match parse_le(chain.rest(*old(rd)), n as nat) {
            Parsed::Done(v, len) => r == Some(v as u128) && chain.reader_pos(*final(rd))
                == chain.reader_pos(*old(rd)) + len,
            _ => r is None,
        },
    decreases n,
{
    let ghost s = chain.rest(*rd);
    proof {
        chain.lemma_reader_pos(*rd);
    }
    if n == 0 {
        assert(s.take(0) =~= Seq::<u8>::empty());
        return Some(0);
    }
    match chain.read_byte(rd) {
        None => {
            assert(s.len() == 0);
            None
        },
        Some(b) => {
            assert(s.len() > 0 && s[0] == b);
            assert(chain.rest(*rd) =~= s.drop_first());
            proof {
                chain.lemma_reader_pos(*rd);
            }
            match read_le(chain, rd, n - 1) {
                None => None,
                Some(hi) => {
                    proof {
                        let t = s.take(n as int);
                        assert(t.drop_first() =~= s.drop_first().take(n - 1));
                        lemma_le_value_bound(t.drop_first());
                        lemma_le_value_bound(t);
                        lemma_pow256_16();
                        assert(pow256(n as nat) <= pow256(16)) by {
                            lemma_pow_mono(n as nat, 16);
                        }
                    }
                    Some(b as u128 + 256 * hi)
                },
            }
        },
    }
}

pub proof fn lemma_pow_mono(a: nat, b: nat)
    requires
        a <= b,
    ensures
        pow256(a) <= pow256(b),
    decreases b,
{
    if a < b {
        lemma_pow_mono(a, (b - 1) as nat);
        lemma_pow256_pos((b - 1) as nat);
    }
}

/// Reads a LEB128 number of at most `k` bytes.
pub fn read_varint(chain: &BufList, rd: &mut Reader, k: usize) -> (r: Result<u64, crate::error::Error>)
    requires
        chain.wf(),
        chain.reader_wf(*old(rd)),
        k <= VARINT_MAX_BYTES,
    ensures
        chain.reader_wf(*final(rd)),
        match parse_varint(chain.rest(*old(rd)), k as nat) {
            Parsed::Done(v, len) => r == Ok::<u64, crate::error::Error>(v as u64) && chain.reader_pos(*final(rd))
                == chain.reader_pos(*old(rd)) + len,
            Parsed::Short => r == Err::<u64, crate::error::Error>(crate::error::Error::InsufficientData),
            Parsed::Bad => r == Err::<u64, crate::error::Error>(crate::error::Error::MalformedData),
        },
    decreases k,
{
    let ghost s = chain.rest(*rd);
    proof {
        chain.lemma_reader_pos(*rd);
    }
    if k == 0 {
        return Err(crate::error::Error::MalformedData);
    }
    match chain.read_byte(rd) {
        None => Err(crate::error::Error::InsufficientData),
        Some(b) => {
            if b < 128 {
                assert(s.len() > 0 && s[0] == b);
                return Ok(b as u64);
            }
            assert(s.len() > 0 && s[0] == b);
            assert(chain.rest(*rd) =~= s.drop_first());
            match read_varint(chain, rd, k - 1) {
                Err(e) => Err(e),
                Ok(hi) => {
                    proof {
                        lemma_varint_bound(s.drop_first(), (k - 1) as nat);
                        lemma_varint_bound(s, k as nat);
                        lemma_pow128_9();
                        assert(pow128(k as nat) <= pow128(9)) by {
                            lemma_pow128_mono(k as nat, 9);
                        }
                    }
                    Ok((b - 128) as u64 + 128 * hi)
                },
            }
        },
    }
}

pub proof fn lemma_pow128_mono(a: nat, b: nat)
    requires
        a <= b,
    ensures
        pow128(a) <= pow128(b),
    decreases b,
{
    if a < b {
        lemma_pow128_mono(a, (b - 1) as nat);
        lemma_pow128_pos((b - 1) as nat);
    }
}

} // verus!

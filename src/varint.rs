//! Variable-length integers as HTTP/3 and QUIC write them: the two high bits of
//! the first byte give the length (1, 2, 4 or 8 bytes), the remaining bits hold
//! the value in big-endian order.
use vstd::prelude::*;

verus! {

/// One more than the largest value that an encoding can carry (2^62).
pub const VARINT_LIMIT: u64 = 0x4000_0000_0000_0000;

/// 256 to the power `n`.
pub open spec fn pow256(n: nat) -> nat
    decreases n,
{
    if n == 0 {
        1
    } else {
        256 * pow256((n - 1) as nat)
    }
}

/// The big-endian value of a byte sequence.
pub open spec fn be_value(s: Seq<u8>) -> nat
    decreases s.len(),
{
    if s.len() == 0 {
        0
    } else {
        be_value(s.drop_last()) * 256 + s.last() as nat
    }
}

/// Length of an encoding whose first byte is `first`.
pub open spec fn varint_size(first: u8) -> nat {
    if first < 64 {
        1
    } else if first < 128 {
        2
    } else if first < 192 {
        4
    } else {
        8
    }
}

/// Length of the shortest encoding of `v`.
pub open spec fn varint_len(v: nat) -> nat {
    if v < 64 {
        1
    } else if v < 16384 {
        2
    } else if v < 1073741824 {
        4
    } else {
        8
    }
}

/// The value that the first `varint_size(s[0])` bytes of `s` carry: their
/// big-endian value with the two length bits cleared.
pub open spec fn varint_value(s: Seq<u8>) -> nat {
    let n = varint_size(s[0]);
    (s[0] % 64) as nat * pow256((n - 1) as nat) + be_value(s.subrange(1, n as int))
}

/// The integer at the front of `s` and the number of bytes it takes, or `None`
/// when `s` ends before the integer does.
pub open spec fn parse_varint(s: Seq<u8>) -> Option<(nat, nat)> {
    if s.len() == 0 || s.len() < varint_size(s[0]) {
        None
    } else {
        Some((varint_value(s), varint_size(s[0])))
    }
}

proof fn lemma_pow256_values()
    ensures
        pow256(0) == 1,
        pow256(1) == 256,
        pow256(2) == 65536,
        pow256(3) == 16777216,
        pow256(4) == 4294967296,
        pow256(5) == 1099511627776,
        pow256(6) == 281474976710656,
        pow256(7) == 72057594037927936,
        pow256(8) == 18446744073709551616,
{
    reveal_with_fuel(pow256, 9);
}

proof fn lemma_pow256_pos(n: nat)
    ensures
        pow256(n) >= 1,
    decreases n,
{
    if n > 0 {
        lemma_pow256_pos((n - 1) as nat);
    }
}

/// Reads the integer at the front of `buf`: its value and its length in bytes.
pub fn decode_varint(buf: &[u8]) -> (r: Option<(u64, usize)>)
    ensures
        match r {
            None => parse_varint(buf@) is None,
            Some((v, n)) => parse_varint(buf@) == Some((v as nat, n as nat)),
        },
{
    if buf.len() == 0 {
        return None;
    }
    let first = buf[0];
    let size: usize = if first < 64 {
        1
    } else if first < 128 {
        2
    } else if first < 192 {
        4
    } else {
        8
    };
    if buf.len() < size {
        return None;
    }
    proof {
        lemma_pow256_values();
    }
    let mut v: u64 = (first % 64) as u64;
    let mut i: usize = 1;
    assert(buf@.subrange(1, 1) =~= Seq::<u8>::empty());
    assert(be_value(buf@.subrange(1, 1)) == 0);
    assert(v as nat == (first % 64) as nat);
    assert((first % 64) as nat * pow256(0) == (first % 64) as nat);
    while i < size
        invariant
            1 <= i <= size,
            size as nat == varint_size(first),
            size <= buf@.len(),
            first == buf@[0],
            pow256(7) == 72057594037927936,
            v as nat == (first % 64) as nat * pow256((i - 1) as nat) + be_value(
                buf@.subrange(1, i as int),
            ),
            v < 64 * pow256((i - 1) as nat),
        decreases size - i,
    {
        let ghost p = pow256((i - 1) as nat);
        let ghost before = buf@.subrange(1, i as int);
        let ghost after = buf@.subrange(1, i + 1);
        assert(after.drop_last() =~= before);
        proof {
            assert(pow256(i as nat) == 256 * p);
            assert(i <= 7);
            assert(pow256(i as nat) <= pow256(7)) by {
                reveal_with_fuel(pow256, 9);
            }
            assert(v * 256 + buf@[i as int] < 64 * (256 * p)) by (nonlinear_arith)
                requires
                    v < 64 * p,
                    buf@[i as int] < 256,
            ;
            let hi = (first % 64) as nat;
            assert(hi * (256 * p) == (hi * p) * 256) by (nonlinear_arith);
        }
        v = v * 256 + buf[i] as u64;
        i = i + 1;
    }
    Some((v, size))
}

/// Writes `v` in its shortest encoding.
pub fn encode_varint(v: u64) -> (r: Vec<u8>)
    requires
        v < VARINT_LIMIT,
    ensures
        r@.len() == varint_len(v as nat),
        parse_varint(r@) == Some((v as nat, varint_len(v as nat))),
{
    proof {
        lemma_pow256_values();
    }
    let size: usize = if v < 64 {
        1
    } else if v < 16384 {
        2
    } else if v < 1073741824 {
        4
    } else {
        8
    };
    let tag: u8 = if v < 64 {
        0
    } else if v < 16384 {
        0x40
    } else if v < 1073741824 {
        0x80
    } else {
        0xc0
    };
    let ghost n = size as nat;
    // the value split at byte `size - 1`: `hi` goes into the first byte
    let mut div: u64 = 1;
    let mut k: usize = 1;
    while k < size
        invariant
            1 <= k <= size,
            size <= 8,
            div as nat == pow256((k - 1) as nat),
            pow256(7) == 72057594037927936,
        decreases size - k,
    {
        proof {
            assert(k <= 7);
            assert(pow256(k as nat) <= pow256(7)) by {
                reveal_with_fuel(pow256, 9);
            }
        }
        div = div * 256;
        k = k + 1;
    }
    assert(v < 64 * pow256((n - 1) as nat));
    let hi: u64 = v / div;
    assert(hi < 64) by (nonlinear_arith)
        requires
            hi == v / div,
            v < 64 * div,
            div > 0,
    ;
    let mut out: Vec<u8> = Vec::new();
    out.push(tag + hi as u8);
    // the remaining bytes, most significant first
    let mut j: usize = 1;
    let mut d: u64 = div;
    assert(out@.subrange(1, 1) =~= Seq::<u8>::empty());
    while j < size
        invariant
            1 <= j <= size,
            size <= 8,
            out@.len() == j,
            hi < 64,
            out@[0] == tag + hi as u8,
            d as nat == pow256((size - j) as nat),
            div > 0,
            hi == v / div,
            be_value(out@.subrange(1, j as int)) == ((v % div) as nat) / (d as nat),
        decreases size - j,
    {
        let ghost prev = out@.subrange(1, j as int);
        proof {
            lemma_pow256_pos((size - j - 1) as nat);
        }
        let nd: u64 = d / 256;
        assert(nd as nat == pow256((size - j - 1) as nat));
        let byte: u8 = ((v % div) / nd % 256) as u8;
        out.push(byte);
        proof {
            assert(out@.subrange(1, j + 1).drop_last() =~= prev);
            let x = (v % div) as nat;
            assert(x / (d as nat) * 256 + (x / (nd as nat)) % 256 == x / (nd as nat)) by {
                vstd::arithmetic::div_mod::lemma_div_denominator(x as int, nd as int, 256);
                vstd::arithmetic::div_mod::lemma_fundamental_div_mod((x / (nd as nat)) as int, 256);
            }
        }
        d = nd;
        j = j + 1;
    }
    proof {
        assert(d == 1);
        assert(out@[0] % 64 == hi);
        assert(varint_size(out@[0]) == n);
        assert(out@.subrange(1, size as int) == out@.subrange(1, n as int));
        assert(be_value(out@.subrange(1, n as int)) == (v % div) as nat);
        vstd::arithmetic::div_mod::lemma_fundamental_div_mod(v as int, div as int);
        assert(varint_value(out@) == hi as nat * div as nat + (v % div) as nat);
        assert(varint_value(out@) == v as nat);
    }
    out
}

} // verus!

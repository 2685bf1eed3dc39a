//! Big-endian integers and varints read from a byte buffer.
use vstd::prelude::*;

verus! {

/// `256` raised to `n`.
pub open spec fn pow256(n: nat) -> nat
    decreases n,
{
    if n == 0 {
        1
    } else {
        256 * pow256((n - 1) as nat)
    }
}

/// The unsigned big-endian value of a byte sequence.
pub open spec fn be_value(s: Seq<u8>) -> nat
    decreases s.len(),
{
    if s.len() == 0 {
        0
    } else {
        be_value(s.drop_last()) * 256 + s.last() as nat
    }
}

/// The two's-complement value of a big-endian byte sequence.
pub open spec fn be_signed(s: Seq<u8>) -> int {
    if s.len() > 0 && be_value(s) >= pow256(s.len()) / 2 {
        be_value(s) - pow256(s.len())
    } else {
        be_value(s) as int
    }
}

/// The `n` bytes of `s` that start at `pos`.
pub open spec fn bytes_at(s: Seq<u8>, pos: int, n: int) -> Seq<u8> {
    s.subrange(pos, pos + n)
}

pub proof fn lemma_pow256_facts(n: nat)
    ensures
        pow256(n) >= 1,
        n <= 8 ==> pow256(n) <= 0x1_0000_0000_0000_0000,
        n <= 7 ==> pow256(n) <= 0x100_0000_0000_0000,
        n == 1 ==> pow256(n) == 0x100,
        n == 2 ==> pow256(n) == 0x1_0000,
        n == 3 ==> pow256(n) == 0x100_0000,
        n == 4 ==> pow256(n) == 0x1_0000_0000,
        n == 6 ==> pow256(n) == 0x1_0000_0000_0000,
        n == 8 ==> pow256(n) == 0x1_0000_0000_0000_0000,
    decreases n,
{
    reveal_with_fuel(pow256, 9);
    if n > 0 {
        lemma_pow256_facts((n - 1) as nat);
    }
}

pub proof fn lemma_be_value_bound(s: Seq<u8>)
    ensures
        be_value(s) < pow256(s.len()),
    decreases s.len(),
{
    if s.len() > 0 {
        lemma_be_value_bound(s.drop_last());
        let a = be_value(s.drop_last());
        let p = pow256((s.len() - 1) as nat);
        assert(a * 256 + s.last() < p * 256) by (nonlinear_arith)
            requires
                a < p,
                s.last() < 256,
        ;
    }
}

/// Reads the `n`-byte unsigned big-endian integer that starts at `pos`.
pub fn read_be(data: &[u8], pos: usize, n: usize) -> (r: Option<u64>)
    requires
        n <= 8,
    ensures
        r is Some <==> pos + n <= data@.len(),
        r matches Some(v) ==> v as nat == be_value(bytes_at(data@, pos as int, n as int)),
{
    if pos > data.len() || n > data.len() - pos {
        return None;
    }
    let mut acc: u64 = 0;
    let mut i: usize = 0;
    while i < n
        invariant
            i <= n <= 8,
            pos + n <= data.len(),
            acc as nat == be_value(bytes_at(data@, pos as int, i as int)),
        decreases n - i,
    {
        let ghost prefix = bytes_at(data@, pos as int, i as int);
        let ghost next = bytes_at(data@, pos as int, i + 1);
        proof {
            assert(next.drop_last() =~= prefix);
            lemma_be_value_bound(prefix);
            lemma_pow256_facts(i as nat);
        }
        acc = acc * 256 + data[pos + i] as u64;
        i = i + 1;
    }
    Some(acc)
}

/// Turns the unsigned value of `n` bytes into its two's-complement value.
fn sign_extend(v: u64, n: usize) -> (r: i64)
    requires
        1 <= n <= 8,
        v < pow256(n as nat),
    ensures
        r as int == (if v >= pow256(n as nat) / 2 {
            v - pow256(n as nat)
        } else {
            v as int
        }),
{
    proof {
        lemma_pow256_facts(n as nat);
    }
    let top: u64 = if n == 8 {
        0xffff_ffff_ffff_ffff
    } else {
        proof {
            reveal_with_fuel(pow256, 9);
        }
        let mut t: u64 = 1;
        let mut k: usize = 0;
        while k < n
            invariant
                k <= n < 8,
                t as nat == pow256(k as nat),
            decreases n - k,
        {
            proof {
                lemma_pow256_facts(k as nat);
                lemma_pow256_facts((k + 1) as nat);
            }
            t = t * 256;
            k = k + 1;
        }
        t - 1
    };
    if v > top / 2 {
        -((top - v) as i64) - 1
    } else {
        v as i64
    }
}

/// Reads the `n`-byte two's-complement big-endian integer that starts at `pos`.
pub fn read_signed(data: &[u8], pos: usize, n: usize) -> (r: Option<i64>)
    requires
        1 <= n <= 8,
    ensures
        r is Some <==> pos + n <= data@.len(),
        r matches Some(v) ==> v as int == be_signed(bytes_at(data@, pos as int, n as int)),
{
    match read_be(data, pos, n) {
        None => None,
        Some(v) => {
            proof {
                lemma_be_value_bound(bytes_at(data@, pos as int, n as int));
            }
            Some(sign_extend(v, n))
        },
    }
}

pub fn read_u8(data: &[u8], pos: usize) -> (r: Option<u8>)
    ensures
        r is Some <==> pos < data@.len(),
        r matches Some(v) ==> v == data@[pos as int],
{
    if pos < data.len() {
        Some(data[pos])
    } else {
        None
    }
}

pub fn read_u16(data: &[u8], pos: usize) -> (r: Option<u16>)
    ensures
        r is Some <==> pos + 2 <= data@.len(),
        r matches Some(v) ==> v as nat == be_value(bytes_at(data@, pos as int, 2)),
{
    match read_be(data, pos, 2) {
        None => None,
        Some(v) => {
            proof {
                lemma_be_value_bound(bytes_at(data@, pos as int, 2));
                lemma_pow256_facts(2);
            }
            Some(v as u16)
        },
    }
}

pub fn read_u32(data: &[u8], pos: usize) -> (r: Option<u32>)
    ensures
        r is Some <==> pos + 4 <= data@.len(),
        r matches Some(v) ==> v as nat == be_value(bytes_at(data@, pos as int, 4)),
{
    match read_be(data, pos, 4) {
        None => None,
        Some(v) => {
            proof {
                lemma_be_value_bound(bytes_at(data@, pos as int, 4));
                lemma_pow256_facts(4);
            }
            Some(v as u32)
        },
    }
}


/// `128` raised to `n`.
pub open spec fn pow128(n: nat) -> nat
    decreases n,
{
    if n == 0 {
        1
    } else {
        128 * pow128((n - 1) as nat)
    }
}

/// Decoding of a varint whose first `i` bytes, starting at `pos`, have
/// already been folded into `acc`. Up to eight bytes give their low seven
/// bits while their high bit is set; a ninth byte gives all eight bits.
/// The result is the value and the number of bytes read.
pub open spec fn varint_from(s: Seq<u8>, pos: int, i: nat, acc: nat) -> Option<(nat, nat)>
    decreases 9 - i,
{
    if i > 8 || pos < 0 || pos + i >= s.len() {
        None
    } else if i == 8 {
        Some((acc * 256 + s[pos + 8] as nat, 9))
    } else if s[pos + i] < 128 {
        Some((acc * 128 + s[pos + i] as nat, i + 1))
    } else {
        varint_from(s, pos, i + 1, acc * 128 + (s[pos + i] - 128) as nat)
    }
}

/// The varint that starts at `pos`, with its length in bytes.
pub open spec fn varint_at(s: Seq<u8>, pos: int) -> Option<(nat, nat)> {
    varint_from(s, pos, 0, 0)
}

/// Number of seven-bit groups needed to write `v` (at least one).
pub open spec fn varint_groups(v: nat) -> nat
    decreases v,
{
    if v < 128 {
        1
    } else {
        1 + varint_groups(v / 128)
    }
}

/// The shortest varint encoding of a value below 2^56: one byte per
/// seven-bit group, most significant first, with the high bit set on all
/// but the last byte.
pub open spec fn varint_encoding(v: nat) -> Seq<u8> {
    let n = varint_groups(v);
    Seq::new(
        n,
        |k: int|
            ((v / pow128((n - 1 - k) as nat)) % 128 + if k < n - 1 {
                128int
            } else {
                0int
            }) as u8,
    )
}

proof fn lemma_pow128_facts(n: nat)
    ensures
        pow128(n) >= 1,
        n == 8 ==> pow128(n) == 0x100_0000_0000_0000,
        n > 0 ==> pow128(n) == pow128((n - 1) as nat) * 128,
{
    reveal_with_fuel(pow128, 9);
    if n > 0 {
        lemma_pow128_positive((n - 1) as nat);
    } else {
    }
}

proof fn lemma_pow128_positive(n: nat)
    ensures
        pow128(n) >= 1,
    decreases n,
{
    if n > 0 {
        lemma_pow128_positive((n - 1) as nat);
    }
}

proof fn lemma_groups_bound(v: nat, m: nat)
    requires
        m >= 1,
        v < pow128(m),
    ensures
        varint_groups(v) <= m,
        v < pow128(varint_groups(v)),
    decreases v,
{
    lemma_pow128_positive(m);
    if v >= 128 {
        lemma_pow128_positive((m - 1) as nat);
        if m == 1 {
            assert(pow128(1) == 128) by {
                reveal_with_fuel(pow128, 2);
            }
        }
        assert(v / 128 < pow128((m - 1) as nat)) by {
            vstd::arithmetic::div_mod::lemma_div_is_ordered(v as int, (pow128((m - 1) as nat) * 128) as int - 1, 128);
            vstd::arithmetic::div_mod::lemma_div_multiples_vanish_fancy(pow128((m - 1) as nat) as int - 1, 127, 128);
        }
        lemma_groups_bound(v / 128, (m - 1) as nat);
        let g = varint_groups(v / 128);
        assert(v < pow128(g) * 128) by {
            vstd::arithmetic::div_mod::lemma_fundamental_div_mod(v as int, 128);
            assert((v / 128) < pow128(g));
            assert((v / 128) * 128 + v % 128 < pow128(g) * 128) by (nonlinear_arith)
                requires
                    (v / 128) < pow128(g),
                    v % 128 < 128,
            ;
        }
        assert(pow128(g + 1) == pow128(g) * 128);
    } else {
        assert(pow128(1) == 128) by {
            reveal_with_fuel(pow128, 2);
        }
    }
}

proof fn lemma_decode_encoding(s: Seq<u8>, v: nat, k: nat)
    requires
        varint_groups(v) <= 8,
        v < pow128(varint_groups(v)),
        k < varint_groups(v),
        s.len() >= varint_groups(v),
        s.subrange(0, varint_groups(v) as int) == varint_encoding(v),
    ensures
        varint_from(s, 0, k, v / pow128((varint_groups(v) - k) as nat)) == Some(
            (v, varint_groups(v)),
        ),
    decreases varint_groups(v) - k,
{
    let n = varint_groups(v);
    let e = varint_encoding(v);
    let q = pow128((n - 1 - k) as nat);
    lemma_pow128_positive((n - 1 - k) as nat);
    let x = v / q;
    assert(s[k as int] == e[k as int]);
    assert(pow128((n - k) as nat) == q * 128) by {
        lemma_pow128_facts((n - k) as nat);
    }
    assert(v / pow128((n - k) as nat) == x / 128) by {
        vstd::arithmetic::div_mod::lemma_div_denominator(v as int, q as int, 128);
    }
    assert(x == (x / 128) * 128 + x % 128) by {
        vstd::arithmetic::div_mod::lemma_fundamental_div_mod(x as int, 128);
    }
    if k == n - 1 {
        assert(q == 1) by {
            reveal_with_fuel(pow128, 1);
        }
        assert(v / 1 == v);
        assert(x == v);
        assert(s[k as int] == x % 128);
    } else {
        assert(s[k as int] == x % 128 + 128);
        lemma_decode_encoding(s, v, k + 1);
    }
}

/// Decoding the encoding of a value below 2^56 gives back the value and
/// the length of the encoding, whatever bytes follow it.
pub proof fn lemma_varint_round_trip(v: u64, rest: Seq<u8>)
    requires
        v < 0x100_0000_0000_0000,
    ensures
        varint_encoding(v as nat).len() <= 8,
        varint_at(varint_encoding(v as nat) + rest, 0) == Some(
            (v as nat, varint_encoding(v as nat).len()),
        ),
{
    let s = varint_encoding(v as nat) + rest;
    lemma_pow128_facts(8);
    lemma_groups_bound(v as nat, 8);
    let n = varint_groups(v as nat);
    assert(s.subrange(0, n as int) =~= varint_encoding(v as nat));
    lemma_decode_encoding(s, v as nat, 0);
    assert(v as nat / pow128(n) == 0) by {
        vstd::arithmetic::div_mod::lemma_basic_div(v as int, pow128(n) as int);
    }
}

/// Reads the varint that starts at `pos`, with the number of bytes it took.
pub fn read_varint(data: &[u8], pos: usize) -> (r: Option<(u64, usize)>)
    ensures
        r is Some <==> varint_at(data@, pos as int) is Some,
        r matches Some((v, n)) ==> varint_at(data@, pos as int) == Some((v as nat, n as nat)),
{
    let mut acc: u64 = 0;
    let mut i: usize = 0;
    proof {
        lemma_pow128_facts(8);
    }
    while i < 8
        invariant
            i <= 8,
            acc < pow128(i as nat),
            pow128(8) == 0x100_0000_0000_0000,
            varint_at(data@, pos as int) == varint_from(data@, pos as int, i as nat, acc as nat),
        decreases 8 - i,
    {
        if pos >= data.len() || i >= data.len() - pos {
            return None;
        }
        let b = data[pos + i];
        proof {
            lemma_pow128_facts((i + 1) as nat);
            assert(pow128((i + 1) as nat) <= pow128(8)) by {
                lemma_pow128_mono((i + 1) as nat, 8);
            }
            assert(acc * 128 + 127 < pow128((i + 1) as nat)) by (nonlinear_arith)
                requires
                    acc < pow128(i as nat),
                    pow128((i + 1) as nat) == pow128(i as nat) * 128,
            ;
        }
        if b < 128 {
            return Some((acc * 128 + b as u64, i + 1));
        }
        acc = acc * 128 + (b - 128) as u64;
        i = i + 1;
    }
    if pos >= data.len() || 8 >= data.len() - pos {
        return None;
    }
    proof {
        assert(acc * 256 + 255 < 0x1_0000_0000_0000_0000) by (nonlinear_arith)
            requires
                acc < 0x100_0000_0000_0000,
        ;
    }
    Some((acc * 256 + data[pos + 8] as u64, 9))
}

proof fn lemma_pow128_mono(a: nat, b: nat)
    requires
        a <= b,
    ensures
        pow128(a) <= pow128(b),
    decreases b - a,
{
    if a < b {
        lemma_pow128_mono(a, (b - 1) as nat);
        lemma_pow128_facts(b);
    }
}

} // verus!

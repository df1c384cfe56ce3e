//! Variable-length integers: seven bits per byte, least significant group first, the high
//! bit of a byte set when more bytes follow; signed values go through zig-zag.

use vstd::prelude::*;

verus! {

/// The encoding of `v`.
pub open spec fn varint(v: nat) -> Seq<u8>
    decreases v,
{
    if v < 128 {
        seq![v as u8]
    } else {
        seq![(v % 128 + 128) as u8] + varint(v / 128)
    }
}

/// What the bytes at the front of `data` encode, with how many bytes that takes.
pub open spec fn varint_prefix(data: Seq<u8>) -> Option<(nat, nat)>
    decreases data.len(),
{
    if data.len() == 0 {
        None
    } else if data[0] < 128 {
        Some((data[0] as nat, 1))
    } else {
        match varint_prefix(data.drop_first()) {
            Some((v, n)) => Some(((data[0] - 128) as nat + 128 * v, n + 1)),
            None => None,
        }
    }
}

/// The value that a decoder of 64-bit integers reads at the front of `data`: it takes at
/// most ten bytes and values that fit in 64 bits.
pub open spec fn decode_spec(data: Seq<u8>) -> Option<(u64, nat)> {
    match varint_prefix(data) {
        Some((v, n)) => if n <= 10 && v <= u64::MAX {
            Some((v as u64, n))
        } else {
            None
        },
        None => None,
    }
}

/// Zig-zag: non-negative `n` to `2n`, negative `n` to `-2n - 1`.
pub open spec fn zigzag(n: int) -> nat {
    if n >= 0 {
        (2 * n) as nat
    } else {
        (-2 * n - 1) as nat
    }
}

pub open spec fn unzigzag(z: nat) -> int {
    if z % 2 == 0 {
        (z / 2) as int
    } else {
        -((z / 2) as int) - 1
    }
}

pub open spec fn pow128(k: nat) -> nat
    decreases k,
{
    if k == 0 {
        1
    } else {
        128 * pow128((k - 1) as nat)
    }
}

proof fn lemma_varint_len(v: nat, k: nat)
    requires
        k >= 1,
        v < pow128(k),
    ensures
        1 <= varint(v).len() <= k,
    decreases v,
{
    if v >= 128 {
        if k == 1 {
            assert(pow128(1) == 128 * pow128(0));
        } else {
            assert(pow128(k) == 128 * pow128((k - 1) as nat));
            assert(v / 128 < pow128((k - 1) as nat)) by (nonlinear_arith)
                requires
                    v < 128 * pow128((k - 1) as nat),
            ;
            lemma_varint_len(v / 128, (k - 1) as nat);
        }
    }
}

proof fn lemma_pow128_mono(i: nat, j: nat)
    requires
        i <= j,
    ensures
        pow128(i) <= pow128(j),
    decreases j,
{
    if i < j {
        lemma_pow128_mono(i, (j - 1) as nat);
        assert(pow128(j) == 128 * pow128((j - 1) as nat));
    }
}

proof fn lemma_pow128_ten()
    ensures
        pow128(10) > u64::MAX,
{
    reveal_with_fuel(pow128, 11);
}

/// Reading an encoding back gives the value and the encoding's length, whatever follows it.
pub proof fn lemma_varint_prefix(v: nat, rest: Seq<u8>)
    ensures
        varint_prefix(varint(v) + rest) == Some((v, varint(v).len())),
    decreases v,
{
    let d = varint(v) + rest;
    if v >= 128 {
        lemma_varint_prefix(v / 128, rest);
        assert(d.drop_first() =~= varint(v / 128) + rest);
    }
}

/// A 64-bit value decodes from its encoding, whatever follows it.
pub proof fn lemma_decode_encode(v: u64, rest: Seq<u8>)
    ensures
        decode_spec(varint(v as nat) + rest) == Some((v, varint(v as nat).len())),
{
    lemma_varint_prefix(v as nat, rest);
    lemma_pow128_ten();
    lemma_varint_len(v as nat, 10);
}

/// Appends the encoding of `value`.
pub fn encode_u64(value: u64, buf: &mut Vec<u8>)
    ensures
        final(buf)@ == old(buf)@ + varint(value as nat),
{
    let mut x: u64 = value;
    while x >= 128
        invariant
            buf@ + varint(x as nat) == old(buf)@ + varint(value as nat),
        decreases x,
    {
        let ghost before = buf@;
        buf.push((x % 128 + 128) as u8);
        assert(buf@ + varint((x / 128) as nat) =~= before + varint(x as nat));
        x = x / 128;
    }
    buf.push(x as u8);
}

/// Reads the value at the front of `data`, with the number of bytes it takes; `None` where
/// the bytes end before the value does, or the value takes more than ten bytes or more than
/// 64 bits.
pub fn decode_u64(data: &[u8]) -> (r: Option<(u64, usize)>)
    ensures
        match r {
            Some((v, n)) => decode_spec(data@) == Some((v, n as nat)),
            None => decode_spec(data@) is None,
        },
{
    let mut acc: u128 = 0;
    let mut p: u128 = 1;
    let mut i: usize = 0;
    assert(data@.subrange(0, data@.len() as int) =~= data@);
    while i < 10 && i < data.len()
        invariant
            i <= 10,
            i <= data@.len(),
            p == pow128(i as nat),
            acc < p,
            varint_prefix(data@) == lift(varint_prefix(data@.subrange(i as int, data@.len() as int)), acc as nat, p as nat, i as nat),
        decreases 10 - i,
    {
        let b = data[i];
        let ghost sub = data@.subrange(i as int, data@.len() as int);
        proof {
            lemma_pow128_mono(i as nat, 9);
            assert(pow128(9) == 0x8000_0000_0000_0000) by {
                reveal_with_fuel(pow128, 10);
            }
            assert(p * (b as u128) <= p * 255) by (nonlinear_arith)
                requires
                    b <= 255,
            ;
        }
        if b < 128 {
            proof {
                assert(sub[0] == b);
                assert(varint_prefix(sub) == Some((b as nat, 1nat)));
                assert(varint_prefix(data@) == Some(((acc + p * b) as nat, (i + 1) as nat)));
            }
            let v: u128 = acc + p * (b as u128);
            if v > u64::MAX as u128 {
                return None;
            }
            return Some((v as u64, i + 1));
        }
        proof {
            assert(sub.drop_first() =~= data@.subrange(i + 1, data@.len() as int));
            let a = acc as nat;
            let q = p as nat;
            let c = (b - 128) as nat;
            match varint_prefix(sub.drop_first()) {
                Some((w, n)) => {
                    assert(a + q * (c + 128 * w) == (a + q * c) + (q * 128) * w) by (nonlinear_arith);
                },
                None => {},
            }
            assert(a + q * c < q * 128) by (nonlinear_arith)
                requires
                    c < 128,
                    a < q,
            ;
        }
        acc = acc + p * ((b - 128) as u128);
        p = p * 128;
        i = i + 1;
    }
    proof {
        if i == data.len() {
            assert(data@.subrange(i as int, data@.len() as int).len() == 0);
        } else {
            let sub = data@.subrange(i as int, data@.len() as int);
            lemma_prefix_len(sub);
        }
    }
    None
}

spec fn lift(o: Option<(nat, nat)>, a: nat, q: nat, k: nat) -> Option<(nat, nat)> {
    match o {
        Some((v, n)) => Some((a + q * v, n + k)),
        None => None,
    }
}

proof fn lemma_prefix_len(data: Seq<u8>)
    ensures
        varint_prefix(data) matches Some((v, n)) ==> 1 <= n <= data.len(),
    decreases data.len(),
{
    if data.len() > 0 && data[0] >= 128 {
        lemma_prefix_len(data.drop_first());
    }
}

/// Appends the zig-zag encoding of `value`.
pub fn encode_i64(value: i64, buf: &mut Vec<u8>)
    ensures
        final(buf)@ == old(buf)@ + varint(zigzag(value as int)),
{
    let z: u64 = if value >= 0 {
        (value as u64) * 2
    } else {
        ((-(value + 1)) as u64) * 2 + 1
    };
    encode_u64(z, buf);
}

/// Reads a zig-zag encoded value at the front of `data`, with the number of bytes it takes.
pub fn decode_i64(data: &[u8]) -> (r: Option<(i64, usize)>)
    ensures
        match r {
            Some((v, n)) => decode_spec(data@) matches Some((z, m)) && m == n && v == unzigzag(z as nat),
            None => decode_spec(data@) is None,
        },
{
    match decode_u64(data) {
        Some((z, n)) => {
            let half: i64 = (z / 2) as i64;
            if z % 2 == 0 {
                Some((half, n))
            } else {
                Some((-half - 1, n))
            }
        },
        None => None,
    }
}

/// The encodings of `values`, one after another.
pub open spec fn varints(values: Seq<u64>) -> Seq<u8>
    decreases values.len(),
{
    if values.len() == 0 {
        Seq::empty()
    } else {
        varint(values[0] as nat) + varints(values.drop_first())
    }
}

/// The values read one after another from the front of `data`, up to its end or to the
/// first value that cannot be read.
pub open spec fn decode_all(data: Seq<u8>) -> Seq<u64>
    decreases data.len(),
{
    match decode_spec(data) {
        Some((v, n)) => if 1 <= n <= data.len() {
            seq![v] + decode_all(data.subrange(n as int, data.len() as int))
        } else {
            Seq::empty()
        },
        None => Seq::empty(),
    }
}

proof fn lemma_varints_push(values: Seq<u64>, v: u64)
    ensures
        varints(values.push(v)) == varints(values) + varint(v as nat),
    decreases values.len(),
{
    if values.len() > 0 {
        assert(values.push(v).drop_first() =~= values.drop_first().push(v));
        lemma_varints_push(values.drop_first(), v);
        assert(varints(values.push(v)) =~= varints(values) + varint(v as nat));
    } else {
        assert(values.push(v).drop_first() =~= Seq::<u64>::empty());
        assert(varints(values.push(v).drop_first()) == Seq::<u8>::empty());
        assert(varints(values.push(v)) =~= varints(values) + varint(v as nat));
    }
}

/// The encodings of `values`, one after another.
pub fn encode_simd(values: &[u64]) -> (r: Vec<u8>)
    ensures
        r@ == varints(values@),
{
    let mut result: Vec<u8> = Vec::new();
    let mut i: usize = 0;
    while i < values.len()
        invariant
            i <= values@.len(),
            result@ == varints(values@.subrange(0, i as int)),
        decreases values.len() - i,
    {
        proof {
            assert(values@.subrange(0, i + 1) =~= values@.subrange(0, i as int).push(values@[i as int]));
            lemma_varints_push(values@.subrange(0, i as int), values@[i as int]);
        }
        encode_u64(values[i], &mut result);
        i = i + 1;
    }
    assert(values@.subrange(0, values@.len() as int) =~= values@);
    result
}

/// The values read one after another from `data`, up to its end or to the first value that
/// cannot be read.
pub fn decode_simd(data: &[u8]) -> (r: Vec<u64>)
    ensures
        r@ == decode_all(data@),
{
    let mut result: Vec<u64> = Vec::new();
    let mut pos: usize = 0;
    assert(data@.subrange(0, data@.len() as int) =~= data@);
    assert(result@ + decode_all(data@) =~= decode_all(data@));
    while pos < data.len()
        invariant
            pos <= data@.len(),
            result@ + decode_all(data@.subrange(pos as int, data@.len() as int)) == decode_all(data@),
        decreases data.len() - pos,
    {
        let rest = vstd::slice::slice_subrange(data, pos, data.len());
        match decode_u64(rest) {
            Some((v, n)) => {
                proof {
                    lemma_prefix_len(rest@);
                    assert(rest@.subrange(n as int, rest@.len() as int) =~= data@.subrange(pos + n, data@.len() as int));
                    assert(result@.push(v) + decode_all(data@.subrange(pos + n, data@.len() as int))
                        =~= result@ + decode_all(rest@));
                }
                result.push(v);
                pos = pos + n;
            },
            None => {
                assert(result@ + decode_all(rest@) =~= result@);
                return result;
            },
        }
    }
    assert(decode_all(data@.subrange(pos as int, data@.len() as int)) =~= Seq::<u64>::empty());
    assert(result@ + Seq::<u64>::empty() =~= result@);
    result
}

/// Decoding the encodings of a list of values gives the list back.
pub proof fn lemma_simd_round_trip(values: Seq<u64>)
    ensures
        decode_all(varints(values)) == values,
    decreases values.len(),
{
    if values.len() > 0 {
        let e = varints(values);
        let head = varint(values[0] as nat);
        let tail = varints(values.drop_first());
        lemma_decode_encode(values[0], tail);
        lemma_simd_round_trip(values.drop_first());
        assert(e.subrange(head.len() as int, e.len() as int) =~= tail);
        assert(values =~= seq![values[0]] + values.drop_first());
    } else {
        assert(decode_all(Seq::empty()) =~= Seq::<u64>::empty());
    }
}

} // verus!

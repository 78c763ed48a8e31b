//! Little-endian base-128 varints.
//!
//! A `u64` is written in groups of 7 bits, least significant group first; every
//! byte but the last has its high bit set.  At most 10 bytes are read back.
use vstd::prelude::*;
use vstd::slice::slice_subrange;
use vstd::arithmetic::power2::{lemma2_to64, lemma2_to64_rest, lemma_pow2_adds, lemma_pow2_pos, pow2};
use vstd::bits::lemma_u64_shl_is_mul;

use crate::framer::bytes_io::{get_u8, has_remaining, put_u8};

verus! {

/// Number of bytes that completely encode a `u64`.
pub const MAX_BYTES: u64 = 10;

/// Why a varint could not be read.
#[derive(Debug, Copy, Clone, PartialEq, Eq)]
pub enum VarintError {
    /// The input buffer was empty.
    NoData,
    /// The varint was too long to be a u64.
    TooLong,
    /// The varint isn't complete yet.  Contains the partial value.
    Incomplete(u64),
}

/// The low 7 bits of a byte.
pub open spec fn low7(b: u8) -> nat {
    (b % 128) as nat
}

/// The bytes that encode `v`.
pub open spec fn varint_encoding(v: u64) -> Seq<u8>
    decreases v,
{
    if v < 128 {
        seq![v as u8]
    } else {
        seq![((v % 128) + 128) as u8] + varint_encoding((v / 128) as u64)
    }
}

/// The index of the first byte of `s` whose high bit is clear, or `s.len()`.
pub open spec fn varint_end(s: Seq<u8>) -> nat
    decreases s.len(),
{
    if s.len() == 0 {
        0
    } else if s[0] < 128 {
        0
    } else {
        1 + varint_end(s.drop_first())
    }
}

/// The number whose base-128 digits, least significant first, are the low 7
/// bits of the first `n` bytes of `s`.
pub open spec fn group_value(s: Seq<u8>, n: nat) -> nat
    decreases n,
{
    if n == 0 || s.len() == 0 {
        0
    } else {
        low7(s[0]) + 128 * group_value(s.drop_first(), (n - 1) as nat)
    }
}

/// The value `v` modulo 2^64.
pub open spec fn wrap64(v: nat) -> u64 {
    (v % 0x1_0000_0000_0000_0000) as u64
}

/// What reading a varint from the front of `s` gives, and how many bytes it
/// reads: the value of the bytes up to the first one without the high bit
/// (modulo 2^64), unless there are 10 bytes before it (too long) or the input
/// ends first (no data, or an incomplete varint and its partial value).
pub open spec fn varint_decode(s: Seq<u8>) -> (Result<u64, VarintError>, nat) {
    let e = varint_end(s);
    if e < s.len() && e < 10 {
        (Ok(wrap64(group_value(s, e + 1))), e + 1)
    } else if s.len() < 10 {
        if s.len() == 0 {
            (Err(VarintError::NoData), 0)
        } else {
            (Err(VarintError::Incomplete(wrap64(group_value(s, s.len())))), s.len())
        }
    } else {
        (Err(VarintError::TooLong), 10)
    }
}

/// Adding the next byte's group to the value.
pub proof fn lemma_group_value_step(s: Seq<u8>, i: nat)
    requires
        i < s.len(),
    ensures
        group_value(s, i + 1) == group_value(s, i) + low7(s[i as int]) * pow2(7 * i),
    decreases i,
{
    if i == 0 {
        lemma2_to64();
        assert(group_value(s.drop_first(), 0) == 0);
        assert(group_value(s, 1) == low7(s[0]) + 128 * group_value(s.drop_first(), 0));
        assert(group_value(s, 0) == 0);
        assert(pow2(7 * i) == 1);
        assert(s[i as int] == s[0]);
        assert(low7(s[i as int]) * pow2(7 * i) == low7(s[0]));
    } else {
        let t = s.drop_first();
        lemma_group_value_step(t, (i - 1) as nat);
        assert(t[(i - 1) as int] == s[i as int]);
        lemma_pow2_adds(7, (7 * (i - 1)) as nat);
        lemma2_to64();
        let a = group_value(t, (i - 1) as nat);
        let b = low7(s[i as int]);
        let p = pow2((7 * (i - 1)) as nat);
        assert(128 * (a + b * p) == 128 * a + b * (128 * p)) by (nonlinear_arith);
        assert(group_value(s, i) == low7(s[0]) + 128 * a);
        assert(group_value(t, i) == a + b * p);
        assert(group_value(s, i + 1) == low7(s[0]) + 128 * group_value(t, i));
        assert(pow2(7 * i) == 128 * p);
    }
}

/// 2^(7i) for at most 8 groups stays within 2^56.
proof fn lemma_pow2_groups(i: nat)
    requires
        i <= 8,
    ensures
        pow2(7 * i) <= 0x0100_0000_0000_0000,
{
    lemma2_to64();
    lemma2_to64_rest();
    if i < 8 {
        vstd::arithmetic::power2::lemma_pow2_strictly_increases(7 * i, 56);
    }
}

/// The value of `n` groups is below 2^(7n).
pub proof fn lemma_group_value_bound(s: Seq<u8>, n: nat)
    ensures
        group_value(s, n) < pow2(7 * n),
    decreases n,
{
    lemma_pow2_pos(7 * n);
    if n > 0 && s.len() > 0 {
        lemma_group_value_bound(s.drop_first(), (n - 1) as nat);
        lemma_pow2_adds(7, (7 * (n - 1)) as nat);
        lemma2_to64();
        let a = group_value(s.drop_first(), (n - 1) as nat);
        let p = pow2((7 * (n - 1)) as nat);
        assert(low7(s[0]) + 128 * a < 128 * p) by (nonlinear_arith)
            requires
                a < p,
                low7(s[0]) < 128,
        ;
    }
}

/// Where the varint of `s` ends, given that its first `i` bytes continue it.
pub proof fn lemma_varint_end(s: Seq<u8>, i: nat)
    requires
        i <= s.len(),
        forall|j: int| 0 <= j < i ==> s[j] >= 128,
    ensures
        varint_end(s) >= i,
        i < s.len() && s[i as int] < 128 ==> varint_end(s) == i,
        i == s.len() ==> varint_end(s) == i,
    decreases i,
{
    if i > 0 {
        let t = s.drop_first();
        assert forall|j: int| 0 <= j < i - 1 implies t[j] >= 128 by {
            assert(t[j] == s[j + 1]);
        }
        lemma_varint_end(t, (i - 1) as nat);
        if i < s.len() {
            assert(t[(i - 1) as int] == s[i as int]);
        }
    }
}

/// Write the varint of `input` to the end of `dest`.
pub fn encode_varint(input: u64, dest: &mut Vec<u8>)
    ensures
        final(dest)@ == old(dest)@ + varint_encoding(input),
{
    let mut input = input;
    let ghost orig = input;
    loop
        invariant_except_break
            dest@ + varint_encoding(input) == old(dest)@ + varint_encoding(orig),
        ensures
            dest@ == old(dest)@ + varint_encoding(orig),
        decreases input,
    {
        let nb = input & 0x7f;
        proof {
            assert(input & 0x7f == input % 128) by (bit_vector);
            assert(input >> 7 == input / 128) by (bit_vector);
        }
        let ghost before = input;
        input = input >> 7;
        if input == 0 {
            proof {
                assert(before < 128);
            }
            put_u8(dest, nb as u8);
            proof {
                assert(varint_encoding(before) == seq![nb as u8]);
                assert(dest@ =~= old(dest)@ + varint_encoding(orig));
            }
            break;
        }
        proof {
            assert(nb < 128 ==> (nb | 0x80) == nb + 128) by (bit_vector);
        }
        put_u8(dest, (nb | 0x80) as u8);
        proof {
            assert(varint_encoding(before) == seq![((before % 128) + 128) as u8] + varint_encoding(input));
            assert(dest@ + varint_encoding(input) =~= old(dest)@ + varint_encoding(orig));
        }
    }
}

/// Read a varint from the front of `input`; returns the result and the
/// number of bytes read.
pub fn decode_varint_counted(input: &[u8]) -> (r: (Result<u64, VarintError>, usize))
    ensures
        r.0 == varint_decode(input@).0,
        r.1 == varint_decode(input@).1,
{
    let mut buf = input;
    let mut res: u64 = 0;
    let mut i: u64 = 0;
    proof {
        lemma2_to64();
        lemma2_to64_rest();
    }
    while i < MAX_BYTES
        invariant
            0 <= i <= 10,
            i <= input@.len(),
            buf@ == input@.subrange(i as int, input@.len() as int),
            forall|j: int| 0 <= j < i ==> input@[j] >= 128,
            i <= 9 ==> res == group_value(input@, i as nat),
            pow2(63) == 0x8000_0000_0000_0000,
        decreases 10 - i,
    {
        proof {
            lemma_varint_end(input@, i as nat);
        }
        if !has_remaining(buf) {
            if i == 0 {
                return (Err(VarintError::NoData), 0);
            }
            return (Err(VarintError::Incomplete(res)), i as usize);
        }
        let byte = get_u8(&mut buf);
        proof {
            assert(byte == input@[i as int]);
        }
        let done = (byte & 0x80) == 0;
        let val = byte & 0x7f;
        proof {
            assert((byte & 0x80 == 0) == (byte < 128)) by (bit_vector);
            assert(byte & 0x7f == byte % 128) by (bit_vector);
            lemma_group_value_step(input@, i as nat);
            lemma_group_value_bound(input@, i as nat);
        }
        let ghost old_res = res;
        let term = (val as u64) << (7 * i);
        proof {
            if i < 9 {
                lemma_pow2_groups(i as nat);
                assert((val as u64) * pow2(7 * (i as nat)) <= u64::MAX) by (nonlinear_arith)
                    requires
                        val < 128,
                        pow2(7 * (i as nat)) <= 0x0100_0000_0000_0000,
                ;
                lemma_u64_shl_is_mul(val as u64, (7 * i) as u64);
                assert(old_res + term < 0x8000_0000_0000_0000) by (nonlinear_arith)
                    requires
                        old_res < pow2(7 * (i as nat)),
                        term == (val as u64) * pow2(7 * (i as nat)),
                        val < 128,
                        pow2(7 * (i as nat)) <= 0x0100_0000_0000_0000,
                ;
            } else {
                let v64 = val as u64;
                assert(v64 < 128 ==> v64 << 63u64 == (v64 & 1) << 63u64) by (bit_vector);
                assert(v64 & 1 == v64 % 2) by (bit_vector);
                assert((v64 & 1) * pow2(63) <= u64::MAX);
                lemma_u64_shl_is_mul(v64 & 1, 63);
                assert(old_res < 0x8000_0000_0000_0000);
            }
        }
        res = res + term;
        if done {
            proof {
                lemma_varint_end(input@, i as nat);
                if i == 9 {
                    let a = old_res as int;
                    let b = val as int;
                    assert((a + b * 0x8000_0000_0000_0000) % 0x1_0000_0000_0000_0000 == a + (b % 2)
                        * 0x8000_0000_0000_0000) by (nonlinear_arith)
                        requires
                            0 <= a < 0x8000_0000_0000_0000,
                            0 <= b < 128,
                    ;
                }
            }
            return (Ok(res), (i + 1) as usize);
        }
        i = i + 1;
        proof {
            assert(buf@ =~= input@.subrange(i as int, input@.len() as int));
        }
    }
    proof {
        lemma_varint_end(input@, 10);
    }
    (Err(VarintError::TooLong), 10)
}

/// Read a varint from the front of `input`, moving `input` past the bytes
/// read: none when it is empty, all of them when the varint is incomplete,
/// and at most ten.
pub fn decode_varint(input: &mut &[u8]) -> (r: Result<u64, VarintError>)
    ensures
        r == varint_decode(old(input)@).0,
        final(input)@ == old(input)@.subrange(
            varint_decode(old(input)@).1 as int,
            old(input)@.len() as int,
        ),
{
    let (r, n) = decode_varint_counted(*input);
    *input = slice_subrange(*input, n, input.len());
    r
}

/// The encoding of `v`, followed by anything, reads back as `v` up to its
/// last byte.
proof fn lemma_encoding_reads_back(v: u64, rest: Seq<u8>)
    ensures
        varint_encoding(v).len() >= 1,
        varint_end(varint_encoding(v) + rest) + 1 == varint_encoding(v).len(),
        group_value(varint_encoding(v) + rest, varint_encoding(v).len()) == v,
    decreases v,
{
    let e = varint_encoding(v);
    let t = e + rest;
    if v < 128 {
        assert(t[0] == v as u8);
        assert(group_value(t.drop_first(), 0) == 0);
    } else {
        let w = (v / 128) as u64;
        lemma_encoding_reads_back(w, rest);
        let e2 = varint_encoding(w);
        assert(t.drop_first() =~= e2 + rest);
        assert(t[0] == ((v % 128) + 128) as u8);
        assert(low7(t[0]) == v % 128);
        assert(group_value(t, e.len()) == low7(t[0]) + 128 * group_value(t.drop_first(), e2.len()));
    }
}

/// The encoding of a value below 2^(7k) takes at most `k` bytes.
proof fn lemma_encoding_length(v: u64, k: nat)
    requires
        k >= 1,
        v < pow2(7 * k),
    ensures
        varint_encoding(v).len() <= k,
    decreases v,
{
    if v >= 128 {
        lemma2_to64();
        if k == 1 {
            assert(pow2(7) == 128);
        } else {
            lemma_pow2_adds(7, (7 * (k - 1)) as nat);
            let p = pow2((7 * (k - 1)) as nat);
            assert(v / 128 < p) by (nonlinear_arith)
                requires
                    v < 128 * p,
            ;
            lemma_encoding_length((v / 128) as u64, (k - 1) as nat);
        }
    }
}

/// What `encode_varint` writes, `decode_varint` reads back: the encoding of `v`,
/// followed by anything, decodes to `v` and reads exactly the encoding.
pub proof fn law_varint_roundtrip(v: u64, rest: Seq<u8>)
    ensures
        varint_decode(varint_encoding(v) + rest) == (Ok::<u64, VarintError>(v), varint_encoding(v).len()),
{
    lemma_encoding_reads_back(v, rest);
    lemma2_to64();
    lemma2_to64_rest();
    vstd::arithmetic::power2::lemma_pow2_strictly_increases(64, 70);
    lemma_encoding_length(v, 10);
}

/// The bytes before the end of a varint continue it, and the byte at the
/// end (if any) does not.
pub proof fn lemma_varint_end_shape(s: Seq<u8>)
    ensures
        varint_end(s) <= s.len(),
        forall|i: int| 0 <= i < varint_end(s) ==> s[i] >= 128,
        varint_end(s) < s.len() ==> s[varint_end(s) as int] < 128,
    decreases s.len(),
{
    if s.len() > 0 && s[0] >= 128 {
        let t = s.drop_first();
        lemma_varint_end_shape(t);
        assert forall|i: int| 0 <= i < varint_end(s) implies s[i] >= 128 by {
            if i > 0 {
                assert(s[i] == t[i - 1]);
            }
        }
    }
}

/// The encoding of `v` ends at its last byte, and every shorter prefix of it
/// reads as an incomplete varint (or no data).
pub proof fn law_varint_prefix(v: u64, j: nat)
    requires
        j < varint_encoding(v).len(),
    ensures
        j == 0 ==> varint_decode(varint_encoding(v).take(j as int)).0 == Err::<u64, VarintError>(
            VarintError::NoData,
        ),
        j > 0 ==> varint_decode(varint_encoding(v).take(j as int)).0 is Err && varint_decode(
            varint_encoding(v).take(j as int),
        ).0->Err_0 is Incomplete,
{
    let e = varint_encoding(v);
    lemma_encoding_reads_back(v, Seq::empty());
    assert(e + Seq::<u8>::empty() =~= e);
    lemma_varint_end_shape(e);
    let p = e.take(j as int);
    assert forall|i: int| 0 <= i < j implies p[i] >= 128 by {
        assert(p[i] == e[i]);
    }
    lemma_varint_end(p, j);
    lemma2_to64();
    lemma2_to64_rest();
    vstd::arithmetic::power2::lemma_pow2_strictly_increases(64, 70);
    lemma_encoding_length(v, 10);
}

/// The value of the first `n` bytes depends only on those bytes.
pub proof fn lemma_group_value_take(s: Seq<u8>, n: nat)
    requires
        n <= s.len(),
    ensures
        group_value(s.take(n as int), n) == group_value(s, n),
    decreases n,
{
    if n > 0 {
        let t = s.take(n as int);
        assert(t.drop_first() =~= s.drop_first().take(n - 1));
        lemma_group_value_take(s.drop_first(), (n - 1) as nat);
    }
}

/// Any prefix of the encoding of `v` has a value of at most `v`.
pub proof fn lemma_encoding_prefix_value(v: u64, j: nat)
    requires
        j <= varint_encoding(v).len(),
    ensures
        group_value(varint_encoding(v), j) <= v,
    decreases v,
{
    let e = varint_encoding(v);
    if j > 0 {
        assert(group_value(e, j) == low7(e[0]) + 128 * group_value(e.drop_first(), (j - 1) as nat));
        if v < 128 {
            assert(e.drop_first().len() == 0);
            assert(group_value(e.drop_first(), (j - 1) as nat) == 0);
            assert(low7(e[0]) == v);
        } else {
            let w = (v / 128) as u64;
            assert(e.drop_first() =~= varint_encoding(w));
            lemma_encoding_prefix_value(w, (j - 1) as nat);
            assert(low7(e[0]) == v % 128);
            assert(v == 128 * (v / 128) + v % 128) by (nonlinear_arith);
        }
    }
}

} // verus!

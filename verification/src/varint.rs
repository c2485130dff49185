//! Unsigned variable-length integers: parsing functions for the
//! little-endian base-128 framing that length-prefixes every block entry,
//! and a 32-bit-limited codec.
use crate::leb128_seq;
use vstd::prelude::*;

verus! {

/// 128 raised to `k`.
pub open spec fn pow128(k: nat) -> nat
    decreases k,
{
    if k == 0 {
        1
    } else {
        128 * pow128((k - 1) as nat)
    }
}

/// How many bytes a varint at the front of `s` takes: the count up to and
/// including the first byte whose continuation (high) bit is clear.
pub open spec fn leb_len(s: Seq<u8>) -> Option<int>
    decreases s.len(),
{
    if s.len() == 0 {
        Option::None
    } else if s[0] < 128 {
        Option::Some(1int)
    } else {
        match leb_len(s.drop_first()) {
            Option::Some(n) => Option::Some(n + 1),
            Option::None => Option::None,
        }
    }
}

/// The integer carried by the first `len` bytes: seven payload bits per
/// byte, least significant byte first.
pub open spec fn leb_value(s: Seq<u8>, len: int) -> nat
    decreases len,
{
    if len <= 0 {
        0
    } else {
        (s[0] % 128) as nat + 128 * leb_value(s.drop_first(), len - 1)
    }
}

/// A varint of at most `maxlen` bytes whose value stays below `bound`
/// stands at the front of `s`.
pub open spec fn varint_at(s: Seq<u8>, maxlen: int, bound: nat) -> bool {
    match leb_len(s) {
        Option::Some(l) => l <= maxlen && leb_value(s, l) < bound,
        Option::None => false,
    }
}

/// The small powers of 128, written out.
pub proof fn lemma_pow128_small()
    ensures
        pow128(0) == 1,
        pow128(1) == 128,
        pow128(2) == 0x4000,
        pow128(3) == 0x20_0000,
        pow128(4) == 0x1000_0000,
        pow128(5) == 0x8_0000_0000,
        pow128(9) == 0x8000_0000_0000_0000,
        pow128(10) == 0x40_0000_0000_0000_0000,
{
    assert(pow128(0) == 1);
    assert(pow128(1) == 128);
    assert(pow128(2) == 0x4000);
    assert(pow128(3) == 0x20_0000);
    assert(pow128(4) == 0x1000_0000);
    assert(pow128(5) == 0x8_0000_0000);
    assert(pow128(6) == 0x400_0000_0000);
    assert(pow128(7) == 0x2_0000_0000_0000);
    assert(pow128(8) == 0x100_0000_0000_0000);
    assert(pow128(9) == 0x8000_0000_0000_0000);
    assert(pow128(10) == 0x40_0000_0000_0000_0000);
}

/// Higher powers of 128 are no smaller.
pub proof fn lemma_pow128_mono(a: nat, b: nat)
    requires
        a <= b,
    ensures
        pow128(a) <= pow128(b),
    decreases b,
{
    if a < b {
        lemma_pow128_mono(a, (b - 1) as nat);
        assert(pow128(b) == 128 * pow128((b - 1) as nat));
    }
}

/// The minimal encoding decodes back to the number it was made from,
/// whatever bytes follow it.
pub proof fn lemma_leb128_parses(n: nat, rest: Seq<u8>)
    ensures
        leb_len(leb128_seq(n) + rest) == Option::Some(leb128_seq(n).len() as int),
        leb_value(leb128_seq(n) + rest, leb128_seq(n).len() as int) == n,
    decreases n,
{
    let e = leb128_seq(n);
    let s = e + rest;
    if n < 128 {
        assert(s[0] == n as u8);
    } else {
        assert(s[0] == ((n % 128) + 128) as u8);
        assert(s[0] >= 128);
        assert(s.drop_first() =~= leb128_seq(n / 128) + rest);
        lemma_leb128_parses(n / 128, rest);
        assert(s[0] % 128 == n % 128);
        let e2 = leb128_seq(n / 128);
        assert(e.len() == 1 + e2.len());
        assert(leb_value(s.drop_first(), e2.len() as int) == n / 128);
        assert(leb_value(s, e.len() as int) == (s[0] % 128) as nat + 128 * leb_value(
            s.drop_first(),
            e.len() as int - 1,
        ));
        assert((s[0] % 128) as nat + 128 * (n / 128) == n);
    }
}

/// A number below `pow128(k)` encodes into at most `k` bytes.
pub proof fn lemma_leb128_len_bound(n: nat, k: nat)
    requires
        1 <= k,
        n < pow128(k),
    ensures
        leb128_seq(n).len() <= k,
    decreases k,
{
    if n < 128 {
    } else {
        assert(pow128(k) == 128 * pow128((k - 1) as nat));
        assert(pow128(0) == 1);
        assert(pow128(1) == 128);
        assert(k >= 2) by {
            if k == 1 {
                assert(pow128(k) == 128);
            }
        }
        assert(n / 128 < pow128((k - 1) as nat)) by (nonlinear_arith)
            requires
                n < 128 * pow128((k - 1) as nat),
        ;
        lemma_leb128_len_bound(n / 128, (k - 1) as nat);
    }
}

/// A varint of `len` bytes stays below `pow128(len)`.
pub proof fn lemma_leb_value_bound(s: Seq<u8>, len: int)
    requires
        0 <= len,
    ensures
        leb_value(s, len) < pow128(len as nat),
    decreases len,
{
    if len == 0 {
    } else {
        lemma_leb_value_bound(s.drop_first(), len - 1);
    }
}

/// Reading one more byte adds its payload at the next power's weight.
pub proof fn lemma_leb_value_step(s: Seq<u8>, i: int)
    requires
        0 <= i < s.len(),
    ensures
        leb_value(s, i + 1) == leb_value(s, i) + (s[i] % 128) * pow128(i as nat),
    decreases i,
{
    if i == 0 {
        assert(pow128(0) == 1);
        assert(leb_value(s.drop_first(), 0) == 0);
        assert(leb_value(s, 1) == (s[0] % 128) as nat + 128 * leb_value(s.drop_first(), 0));
        assert(leb_value(s, i + 1) == leb_value(s, i) + ((s[i] % 128) as nat) * pow128(i as nat));
    } else {
        let d = s.drop_first();
        lemma_leb_value_step(d, i - 1);
        assert(d[i - 1] == s[i]);
        let v1 = leb_value(d, i - 1);
        let pay = (s[i] % 128) as nat;
        let p1 = pow128((i - 1) as nat);
        assert(pow128(i as nat) == 128 * p1);
        assert(128 * (v1 + pay * p1) == 128 * v1 + pay * (128 * p1)) by (nonlinear_arith);
        assert(leb_value(d, i) == v1 + pay * p1);
        assert(leb_value(s, i + 1) == (s[0] % 128) as nat + 128 * leb_value(d, i));
        assert(leb_value(s, i) == (s[0] % 128) as nat + 128 * v1);
        assert(leb_value(s, i + 1) == leb_value(s, i) + pay * pow128(i as nat));
    }
}

/// The terminator's position fixes the varint's length.
pub proof fn lemma_leb_len_at(s: Seq<u8>, i: int)
    requires
        0 <= i < s.len(),
        s[i] < 128,
        forall|j: int| 0 <= j < i ==> s[j] >= 128,
    ensures
        leb_len(s) == Option::Some(i + 1),
    decreases i,
{
    if i == 0 {
    } else {
        assert(s[0] >= 128);
        let d = s.drop_first();
        assert(d[i - 1] == s[i]);
        assert forall|j: int| 0 <= j < i - 1 implies d[j] >= 128 by {
            assert(d[j] == s[j + 1]);
        }
        lemma_leb_len_at(d, i - 1);
    }
}

/// While only continuation bytes have been read, the varint reaches
/// further (or never terminates).
pub proof fn lemma_leb_len_past(s: Seq<u8>, i: int)
    requires
        0 <= i <= s.len(),
        forall|j: int| 0 <= j < i ==> s[j] >= 128,
    ensures
        match leb_len(s) {
            Option::Some(l) => l > i,
            Option::None => true,
        },
    decreases i,
{
    lemma_leb_len_range(s);
    if i == 0 {
    } else {
        assert(s[0] >= 128);
        let d = s.drop_first();
        assert forall|j: int| 0 <= j < i - 1 implies d[j] >= 128 by {
            assert(d[j] == s[j + 1]);
        }
        lemma_leb_len_past(d, i - 1);
    }
}

/// A varint never reaches past the end of its byte stream.
pub proof fn lemma_leb_len_range(s: Seq<u8>)
    ensures
        match leb_len(s) {
            Option::Some(l) => 1 <= l <= s.len(),
            Option::None => true,
        },
    decreases s.len(),
{
    if s.len() == 0 {
    } else if s[0] < 128 {
    } else {
        lemma_leb_len_range(s.drop_first());
    }
}

/// Reads an unsigned varint of at most ten bytes from the front of
/// `input`: the decoded value and the bytes consumed, or `None` when no
/// terminator stands within ten bytes or the value overflows 64 bits.
pub fn decode_varint(input: &[u8]) -> (r: Option<(u64, usize)>)
    ensures
        r is Some <==> varint_at(input@, 10, 0x1_0000_0000_0000_0000),
        (r matches Some(p) ==> {
            &&& leb_len(input@) == Option::Some(p.1 as int)
            &&& p.1 <= 10
            &&& leb_value(input@, p.1 as int) == p.0 as nat
        }),
{
    let n = input.len();
    let mut i: usize = 0;
    let mut acc: u128 = 0;
    let mut mult: u128 = 1;
    proof {
        lemma_pow128_small();
    }
    loop
        invariant
            0 <= i <= 9,
            i <= n == input@.len(),
            acc as nat == leb_value(input@, i as int),
            mult as nat == pow128(i as nat),
            mult <= 0x8000_0000_0000_0000,
            acc < mult,
            forall|j: int| 0 <= j < i as int ==> input@[j] >= 128,
        decreases 9 - i,
    {
        proof {
            lemma_pow128_small();
        }
        if i >= n {
            proof {
                lemma_leb_len_past(input@, i as int);
                lemma_leb_len_range(input@);
            }
            return None;
        }
        let b = input[i];
        if b < 128 {
            proof {
                lemma_leb_len_at(input@, i as int);
                lemma_leb_value_step(input@, i as int);
                lemma_leb_value_bound(input@, i as int + 1);
            }
            proof {
                assert((b as u128) * mult <= 127 * mult) by (nonlinear_arith)
                    requires
                        b < 128,
                        0 <= mult,
                ;
            }
            let value: u128 = acc + (b as u128) * mult;
            if value <= 0xFFFF_FFFF_FFFF_FFFF {
                return Some((value as u64, i + 1));
            } else {
                return None;
            }
        }
        proof {
            lemma_leb_value_step(input@, i as int);
            assert(((b - 128) as u128) * mult <= 127 * mult) by (nonlinear_arith)
                requires
                    128 <= b,
                    0 <= mult,
            ;
        }
        acc = acc + ((b - 128) as u128) * mult;
        if i == 9 {
            proof {
                lemma_leb_len_past(input@, 10);
                lemma_leb_len_range(input@);
                if varint_at(input@, 10, 0x1_0000_0000_0000_0000) {
                    assert(leb_len(input@) == Option::Some(10int));
                }
            }
            return None;
        }
        proof {
            lemma_pow128_mono(i as nat + 1, 9);
            lemma_pow128_small();
        }
        mult = mult * 128;
        i = i + 1;
    }
}

/// Law: a serialized 32-bit value deserializes back to itself, consuming
/// exactly its encoding, whatever bytes follow it.
pub proof fn lemma_varuint32_round_trip(v: u32, rest: Seq<u8>)
    ensures
        varint_at(leb128_seq(v as nat) + rest, 5, 0x1_0000_0000),
        leb_len(leb128_seq(v as nat) + rest) == Option::Some(leb128_seq(v as nat).len() as int),
        leb_value(leb128_seq(v as nat) + rest, leb128_seq(v as nat).len() as int) == v as nat,
{
    lemma_leb128_parses(v as nat, rest);
    lemma_pow128_small();
    lemma_leb128_len_bound(v as nat, 5);
}

/// Unsigned variable-length integer, limited to 32 bits, represented by at
/// most five bytes that may contain padding continuation bytes.
#[derive(Debug, Copy, Clone, PartialEq, Eq, Structural)]
pub struct VarUint32(pub u32);

impl From<VarUint32> for usize {
    fn from(v: VarUint32) -> (r: usize) {
        v.0 as usize
    }
}

impl vstd::std_specs::convert::FromSpecImpl<VarUint32> for usize {
    open spec fn obeys_from_spec() -> bool {
        true
    }

    open spec fn from_spec(v: VarUint32) -> usize {
        v.0 as usize
    }
}

impl From<VarUint32> for u32 {
    fn from(v: VarUint32) -> (r: u32) {
        v.0
    }
}

impl vstd::std_specs::convert::FromSpecImpl<VarUint32> for u32 {
    open spec fn obeys_from_spec() -> bool {
        true
    }

    open spec fn from_spec(v: VarUint32) -> u32 {
        v.0
    }
}

impl From<u32> for VarUint32 {
    fn from(i: u32) -> (r: VarUint32) {
        VarUint32(i)
    }
}

impl vstd::std_specs::convert::FromSpecImpl<u32> for VarUint32 {
    open spec fn obeys_from_spec() -> bool {
        true
    }

    open spec fn from_spec(i: u32) -> VarUint32 {
        VarUint32(i)
    }
}

impl VarUint32 {
    /// Appends the minimal little-endian base-128 encoding of the value.
    pub fn serialize(self, out: &mut Vec<u8>)
        ensures
            final(out)@ == old(out)@ + leb128_seq(self.0 as nat),
    {
        let ghost base = old(out)@;
        let ghost total = self.0 as nat;
        let mut v: u32 = self.0;
        while v >= 128
            invariant
                base + leb128_seq(total) == out@ + leb128_seq(v as nat),
            decreases v,
        {
            let ghost before = out@;
            out.push((v % 128 + 128) as u8);
            proof {
                assert(leb128_seq(v as nat) =~= seq![((v as nat % 128) + 128) as u8] + leb128_seq(
                    (v / 128) as nat,
                ));
                assert(before + leb128_seq(v as nat) =~= out@ + leb128_seq((v / 128) as nat));
            }
            v = v / 128;
        }
        let ghost before = out@;
        out.push(v as u8);
        proof {
            assert(leb128_seq(v as nat) =~= seq![v as u8]);
            assert(before + leb128_seq(v as nat) =~= out@);
            assert(final(out)@ == old(out)@ + leb128_seq(self.0 as nat));
        }
    }

    /// Reads a 32-bit varint from the front of `input`: the decoded value
    /// and the bytes consumed, exactly when at most five bytes reach a
    /// terminator and the carried value fits 32 bits.
    pub fn deserialize(input: &[u8]) -> (r: Option<(VarUint32, usize)>)
        ensures
            r is Some <==> varint_at(input@, 5, 0x1_0000_0000),
            (r matches Some(p) ==> {
                &&& leb_len(input@) == Option::Some(p.1 as int)
                &&& p.1 <= 5
                &&& leb_value(input@, p.1 as int) == p.0.0 as nat
            }),
    {
        let n = input.len();
        let mut i: usize = 0;
        let mut acc: u64 = 0;
        let mut mult: u64 = 1;
        proof {
            lemma_pow128_small();
        }
        loop
            invariant
                0 <= i <= 4,
                i <= n == input@.len(),
                acc as nat == leb_value(input@, i as int),
                mult as nat == pow128(i as nat),
                mult <= 0x1000_0000,
                acc < mult,
                forall|j: int| 0 <= j < i as int ==> input@[j] >= 128,
            decreases 4 - i,
        {
            proof {
                lemma_pow128_small();
            }
            if i >= n {
                proof {
                    lemma_leb_len_past(input@, i as int);
                    lemma_leb_len_range(input@);
                }
                return None;
            }
            let b = input[i];
            if b < 128 {
                proof {
                    lemma_leb_len_at(input@, i as int);
                    lemma_leb_value_step(input@, i as int);
                    lemma_leb_value_bound(input@, i as int + 1);
                }
                proof {
                    assert((b as u64) * mult <= 127 * mult) by (nonlinear_arith)
                        requires
                            b < 128,
                            0 <= mult,
                    ;
                }
                let value: u64 = acc + (b as u64) * mult;
                if value <= 0xFFFF_FFFF {
                    return Some((VarUint32(value as u32), i + 1));
                } else {
                    return None;
                }
            }
            proof {
                lemma_leb_value_step(input@, i as int);
                assert(((b - 128) as u64) * mult <= 127 * mult) by (nonlinear_arith)
                    requires
                        128 <= b,
                        0 <= mult,
                ;
            }
            acc = acc + ((b - 128) as u64) * mult;
            if i == 4 {
                proof {
                    lemma_leb_len_past(input@, 5);
                    lemma_leb_len_range(input@);
                    if varint_at(input@, 5, 0x1_0000_0000) {
                        assert(leb_len(input@) == Option::Some(5int));
                    }
                }
                return None;
            }
            proof {
                lemma_pow128_mono(i as nat + 1, 4);
                lemma_pow128_small();
            }
            mult = mult * 128;
            i = i + 1;
        }
    }
}

} // verus!

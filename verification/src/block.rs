//! The on-disk block encoder: serializes ordered key/value entries into a
//! fixed-capacity byte buffer as a concatenation of
//! `varint(key_len) varint(value_len) key_bytes value_bytes` tuples, then
//! hands the finished prefix to the filesystem collaborator.
use crate::filesystem::FileSystem;
use crate::leb128_seq;
use crate::lsm_error::DataStoreError;
use crate::varint::{
    decode_varint, leb_len, leb_value, lemma_leb128_len_bound, lemma_leb128_parses,
    lemma_leb_len_range, lemma_pow128_small,
};
use vstd::prelude::*;

verus! {

/// One encoded entry: both lengths as varints, then the raw bytes.
pub open spec fn encode_entry(k: Seq<u8>, v: Seq<u8>) -> Seq<u8> {
    leb128_seq(k.len()) + leb128_seq(v.len()) + k + v
}

/// The entry standing at the front of `s`, if a well-formed one does:
/// the key, the value, and how many bytes the entry spans.
pub open spec fn parse_entry(s: Seq<u8>) -> Option<(Seq<u8>, Seq<u8>, int)> {
    match leb_len(s) {
        Option::Some(l1) => {
            if l1 <= 10 && leb_value(s, l1) < 0x1_0000_0000_0000_0000 {
                let klen = leb_value(s, l1) as int;
                let s2 = s.skip(l1);
                match leb_len(s2) {
                    Option::Some(l2) => {
                        if l2 <= 10 && leb_value(s2, l2) < 0x1_0000_0000_0000_0000 {
                            let vlen = leb_value(s2, l2) as int;
                            if klen + vlen <= s2.len() - l2 {
                                Option::Some(
                                    (
                                        s2.subrange(l2, l2 + klen),
                                        s2.subrange(l2 + klen, l2 + klen + vlen),
                                        l1 + l2 + klen + vlen,
                                    ),
                                )
                            } else {
                                Option::None
                            }
                        } else {
                            Option::None
                        }
                    },
                    Option::None => Option::None,
                }
            } else {
                Option::None
            }
        },
        Option::None => Option::None,
    }
}

/// Law: decoding what `add` encodes gives back the key and the value
/// exactly, whatever bytes follow the entry.
pub proof fn lemma_entry_round_trip(k: Seq<u8>, v: Seq<u8>, rest: Seq<u8>)
    requires
        k.len() < 0x1_0000_0000_0000_0000,
        v.len() < 0x1_0000_0000_0000_0000,
    ensures
        parse_entry(encode_entry(k, v) + rest) == Option::Some(
            (k, v, encode_entry(k, v).len() as int),
        ),
{
    let e1 = leb128_seq(k.len());
    let e2 = leb128_seq(v.len());
    let s = encode_entry(k, v) + rest;
    lemma_pow128_small();
    assert(s =~= e1 + (e2 + k + v + rest));
    lemma_leb128_parses(k.len(), e2 + k + v + rest);
    lemma_leb128_len_bound(k.len(), 10);
    let l1 = e1.len() as int;
    assert(leb_len(s) == Option::Some(l1));
    assert(leb_value(s, l1) == k.len());
    let s2 = s.skip(l1);
    assert(s2 =~= e2 + (k + v + rest));
    lemma_leb128_parses(v.len(), k + v + rest);
    lemma_leb128_len_bound(v.len(), 10);
    let l2 = e2.len() as int;
    assert(leb_len(s2) == Option::Some(l2));
    assert(leb_value(s2, l2) == v.len());
    assert(s2.subrange(l2, l2 + k.len() as int) =~= k);
    assert(s2.subrange(l2 + k.len(), l2 + k.len() + v.len()) =~= v);
    assert(encode_entry(k, v).len() == l1 + l2 + k.len() + v.len());
}

/// Relies on leb128::write::unsigned: appends the minimal unsigned LEB128
/// encoding of `value` — seven payload bits per byte, low bits first, the
/// high bit marking continuation — and returns how many bytes it wrote.
/// Writing into a Vec cannot fail.
#[verifier::external_body]
fn write_leb128(buf: &mut Vec<u8>, value: u64) -> (n: usize)
    ensures
        final(buf)@ == old(buf)@ + leb128_seq(value as nat),
        n == leb128_seq(value as nat).len(),
{
    leb128::write::unsigned(buf, value).unwrap()
}

/// Byte length of the minimal varint encoding of `v`.
pub fn varint_len(v: u64) -> (r: usize)
    ensures
        r == leb128_seq(v as nat).len(),
{
    proof {
        lemma_pow128_small();
        lemma_leb128_len_bound(v as nat, 10);
    }
    let mut n: usize = 1;
    let mut x: u64 = v;
    while x >= 128
        invariant
            leb128_seq(v as nat).len() == n - 1 + leb128_seq(x as nat).len(),
            leb128_seq(v as nat).len() <= 10,
            leb128_seq(x as nat).len() >= 1,
            1 <= n <= 10,
        decreases x,
    {
        proof {
            assert(leb128_seq(x as nat) =~= seq![
                (((x as nat) % 128) + 128) as u8,
            ] + leb128_seq((x / 128) as nat));
            assert(leb128_seq((x / 128) as nat).len() >= 1);
        }
        x = x / 128;
        n = n + 1;
    }
    proof {
        assert(leb128_seq(x as nat) =~= seq![x as u8]);
    }
    n
}

/// A fixed-capacity buffer of contiguous encoded entries.  The write
/// cursor only grows while the block is open; `finish` freezes it once,
/// after which the written prefix is immutable.
pub struct Block {
    /// Encoded entries, in insertion order; written to disk byte for byte.
    pub data_: Vec<u8>,
    /// Length of data written to `data_`.
    pub current_pos_: usize,
    /// Whether the block is closed.
    pub finished_: bool,
    /// Capacity in bytes; `add` refuses to grow past it.
    pub capacity_: usize,
}

impl Block {
    pub open spec fn wf(&self) -> bool {
        &&& self.current_pos_ == self.data_@.len()
        &&& self.data_@.len() <= self.capacity_
    }

    /// A fresh, open, empty block of the given capacity.
    pub fn new(capacity: usize) -> (r: Block)
        ensures
            r.wf(),
            r.data_@ == Seq::<u8>::empty(),
            !r.finished_,
            r.capacity_ == capacity,
    {
        Block { data_: Vec::new(), current_pos_: 0, finished_: false, capacity_: capacity }
    }

    /// Appends one entry, `varint(len(key)) varint(len(value)) key value`.
    /// When the encoded entry would overflow the block's capacity, fails
    /// with `BlockFull` before any byte is written.
    pub fn add(&mut self, key: &[u8], value: &[u8]) -> (r: Result<(), DataStoreError>)
        requires
            old(self).wf(),
            !old(self).finished_,
        ensures
            final(self).wf(),
            !final(self).finished_,
            final(self).capacity_ == old(self).capacity_,
            final(self).current_pos_ == final(self).data_@.len(),
            r is Ok <==> old(self).data_@.len() + encode_entry(key@, value@).len() <= old(
                self,
            ).capacity_,
            r is Ok ==> final(self).data_@ == old(self).data_@ + encode_entry(key@, value@),
            r is Err ==> *final(self) == *old(self) && r matches Err(DataStoreError::BlockFull),
    {
        let klen = key.len();
        let vlen = value.len();
        let kvar = varint_len(klen as u64);
        let vvar = varint_len(vlen as u64);
        let mut remaining = self.capacity_ - self.current_pos_;
        if kvar > remaining {
            return Err(DataStoreError::BlockFull);
        }
        remaining = remaining - kvar;
        if vvar > remaining {
            return Err(DataStoreError::BlockFull);
        }
        remaining = remaining - vvar;
        if klen > remaining {
            return Err(DataStoreError::BlockFull);
        }
        remaining = remaining - klen;
        if vlen > remaining {
            return Err(DataStoreError::BlockFull);
        }
        let n1 = write_leb128(&mut self.data_, klen as u64);
        let n2 = write_leb128(&mut self.data_, vlen as u64);
        let mut i: usize = 0;
        while i < key.len()
            invariant
                i <= key@.len(),
                self.capacity_ == old(self).capacity_,
                self.finished_ == old(self).finished_,
                self.current_pos_ == old(self).current_pos_,
                self.data_@ == old(self).data_@ + leb128_seq(key@.len()) + leb128_seq(value@.len())
                    + key@.take(i as int),
            decreases key@.len() - i,
        {
            let b = key[i];
            self.data_.push(b);
            proof {
                assert(key@.take(i as int + 1) =~= key@.take(i as int).push(key@[i as int]));
                assert(self.data_@ =~= old(self).data_@ + leb128_seq(key@.len()) + leb128_seq(
                    value@.len(),
                ) + key@.take(i as int + 1));
            }
            i = i + 1;
        }
        proof {
            assert(key@.take(key@.len() as int) =~= key@);
        }
        let mut j: usize = 0;
        while j < value.len()
            invariant
                j <= value@.len(),
                self.capacity_ == old(self).capacity_,
                self.finished_ == old(self).finished_,
                self.current_pos_ == old(self).current_pos_,
                self.data_@ == old(self).data_@ + leb128_seq(key@.len()) + leb128_seq(
                    value@.len(),
                ) + key@ + value@.take(j as int),
            decreases value@.len() - j,
        {
            let b = value[j];
            self.data_.push(b);
            proof {
                assert(value@.take(j as int + 1) =~= value@.take(j as int).push(value@[j as int]));
                assert(self.data_@ =~= old(self).data_@ + leb128_seq(key@.len()) + leb128_seq(
                    value@.len(),
                ) + key@ + value@.take(j as int + 1));
            }
            j = j + 1;
        }
        proof {
            assert(value@.take(value@.len() as int) =~= value@);
            assert(self.data_@ =~= old(self).data_@ + encode_entry(key@, value@));
        }
        self.current_pos_ = self.data_.len();
        Ok(())
    }

    /// Marks the block immutable and returns a copy of the written range.
    pub fn finish(&mut self) -> (r: Vec<u8>)
        requires
            old(self).wf(),
            !old(self).finished_,
        ensures
            final(self).wf(),
            final(self).finished_,
            final(self).data_@ == old(self).data_@,
            final(self).current_pos_ == old(self).current_pos_,
            final(self).capacity_ == old(self).capacity_,
            r@ == old(self).data_@,
    {
        self.finished_ = true;
        let mut out: Vec<u8> = Vec::new();
        let mut i: usize = 0;
        while i < self.data_.len()
            invariant
                i <= self.data_@.len(),
                out@ == self.data_@.take(i as int),
                self.data_@ == old(self).data_@,
                self.finished_,
                self.current_pos_ == old(self).current_pos_,
                self.capacity_ == old(self).capacity_,
            decreases self.data_@.len() - i,
        {
            let b = self.data_[i];
            out.push(b);
            proof {
                assert(self.data_@.take(i as int + 1) =~= self.data_@.take(i as int).push(
                    self.data_@[i as int],
                ));
            }
            i = i + 1;
        }
        proof {
            assert(self.data_@.take(self.data_@.len() as int) =~= self.data_@);
        }
        out
    }

    /// Persists the finished byte range through the filesystem
    /// collaborator's append primitive, propagating its failure; the block
    /// must be finished and non-empty.
    pub fn write_to_sst<F: FileSystem>(&self, fs: &F, path: &str) -> (r: Result<
        (),
        DataStoreError,
    >)
        requires
            self.wf(),
            self.finished_,
            self.data_@.len() > 0,
    {
        fs.append(path, self.data_.as_slice())
    }
}

/// Decodes one length-prefixed entry from the front of `data`: the key,
/// the value, and how many bytes the entry spans.
pub fn decode_entry(data: &[u8]) -> (r: Option<(Vec<u8>, Vec<u8>, usize)>)
    ensures
        r is Some <==> parse_entry(data@) is Some,
        (r matches Some(t) ==> parse_entry(data@) == Option::Some((t.0@, t.1@, t.2 as int))),
{
    let first = decode_varint(data);
    match first {
        None => None,
        Some((klen64, l1)) => {
            proof {
                lemma_leb_len_range(data@);
            }
            let rest = &data[l1..data.len()];
            proof {
                assert(rest@ =~= data@.skip(l1 as int));
            }
            match decode_varint(rest) {
                None => None,
                Some((vlen64, l2)) => {
                    proof {
                        lemma_leb_len_range(rest@);
                    }
                    let rem = rest.len() - l2;
                    if klen64 > rem as u64 {
                        return None;
                    }
                    let klen = klen64 as usize;
                    if vlen64 > (rem - klen) as u64 {
                        return None;
                    }
                    let vlen = vlen64 as usize;
                    let kstart = l1 + l2;
                    proof {
                        assert(rest@.len() == data@.len() - l1);
                        assert(kstart + klen + vlen <= data@.len());
                    }
                    let mut kvec: Vec<u8> = Vec::new();
                    let mut i: usize = 0;
                    while i < klen
                        invariant
                            i <= klen,
                            data@.len() <= usize::MAX,
                            kstart + klen + vlen <= data@.len(),
                            kvec@ == data@.subrange(kstart as int, kstart as int + i as int),
                        decreases klen - i,
                    {
                        let b = data[kstart + i];
                        kvec.push(b);
                        proof {
                            assert(data@.subrange(kstart as int, kstart as int + i as int + 1)
                                =~= data@.subrange(kstart as int, kstart as int + i as int).push(
                                data@[kstart as int + i as int],
                            ));
                        }
                        i = i + 1;
                    }
                    let vstart = kstart + klen;
                    let mut vvec: Vec<u8> = Vec::new();
                    let mut j: usize = 0;
                    while j < vlen
                        invariant
                            j <= vlen,
                            data@.len() <= usize::MAX,
                            vstart == kstart + klen,
                            vstart + vlen <= data@.len(),
                            vvec@ == data@.subrange(vstart as int, vstart as int + j as int),
                        decreases vlen - j,
                    {
                        let b = data[vstart + j];
                        vvec.push(b);
                        proof {
                            assert(data@.subrange(vstart as int, vstart as int + j as int + 1)
                                =~= data@.subrange(vstart as int, vstart as int + j as int).push(
                                data@[vstart as int + j as int],
                            ));
                        }
                        j = j + 1;
                    }
                    proof {
                        let s2 = data@.skip(l1 as int);
                        assert(kvec@ =~= s2.subrange(l2 as int, l2 as int + klen as int));
                        assert(vvec@ =~= s2.subrange(
                            l2 as int + klen as int,
                            l2 as int + klen as int + vlen as int,
                        ));
                    }
                    Some((kvec, vvec, vstart + vlen))
                },
            }
        },
    }
}

} // verus!

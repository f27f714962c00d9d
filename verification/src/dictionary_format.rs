//! The encoded form of a chunk dictionary: the descriptors as records of one
//! size, then the layout, each preceded by its count.

use crate::bytes::append_bytes;
use crate::chunk_dictionary::{ChunkDescriptor, ChunkDictionary, DescriptorView, DictionaryView};
use crate::compression::Compression;
use crate::error::{Error, FormatError};
use crate::hashsum::HashSum;
use vstd::bytes::{
    lemma_auto_spec_u32_to_from_le_bytes, lemma_auto_spec_u64_to_from_le_bytes,
    spec_u32_from_le_bytes, spec_u32_to_le_bytes, spec_u64_from_le_bytes, spec_u64_to_le_bytes,
    u32_from_le_bytes, u32_to_le_bytes, u64_from_le_bytes, u64_to_le_bytes,
};
use vstd::prelude::*;
use vstd::slice::slice_subrange;

verus! {

/// The number of bytes of a descriptor record besides the hash.
pub const RECORD_FIXED: usize = 17;

/// The number of bytes of a descriptor record whose hash has `hash_length`
/// bytes.
pub open spec fn record_size(hash_length: nat) -> nat {
    hash_length + RECORD_FIXED as nat
}

/// The byte that stands for a compression kind.
pub open spec fn compression_code(c: Compression) -> u8 {
    match c {
        Compression::Identity => 0,
        Compression::Zstd => 1,
    }
}

/// The compression kind that a byte stands for, for the bytes 0 and 1.
pub open spec fn compression_of_code(code: u8) -> Compression {
    if code == 0 {
        Compression::Identity
    } else {
        Compression::Zstd
    }
}

/// The record of one descriptor.
pub open spec fn encoded_descriptor(d: DescriptorView) -> Seq<u8> {
    d.hash + spec_u32_to_le_bytes(d.raw_size) + seq![compression_code(d.compression)]
        + spec_u32_to_le_bytes(d.stored_size) + spec_u64_to_le_bytes(d.offset)
}

/// The descriptor that a record holds, or why it holds none.
pub open spec fn decoded_descriptor(b: Seq<u8>, hash_length: nat) -> Result<DescriptorView, Error> {
    let h = hash_length as int;
    if b[h + 4] > 1 {
        Err(Error::Format(FormatError::UnknownCompression))
    } else {
        Ok(
            DescriptorView {
                hash: b.subrange(0, h),
                raw_size: spec_u32_from_le_bytes(b.subrange(h, h + 4)),
                compression: compression_of_code(b[h + 4]),
                stored_size: spec_u32_from_le_bytes(b.subrange(h + 5, h + 9)),
                offset: spec_u64_from_le_bytes(b.subrange(h + 9, h + 17)),
            },
        )
    }
}

/// The records of a sequence of descriptors, one after the other.
pub open spec fn encoded_descriptors(ds: Seq<DescriptorView>) -> Seq<u8>
    decreases ds.len(),
{
    if ds.len() == 0 {
        Seq::empty()
    } else {
        encoded_descriptor(ds[0]) + encoded_descriptors(ds.drop_first())
    }
}

/// A decoding that has a descriptor more at its front.
pub open spec fn with_first(d: DescriptorView, rest: Result<Seq<DescriptorView>, Error>) -> Result<
    Seq<DescriptorView>,
    Error,
> {
    match rest {
        Ok(ds) => Ok(seq![d] + ds),
        Err(e) => Err(e),
    }
}

/// The `n` descriptors that `b` holds as records, or the reason why the first
/// bad record is bad.
pub open spec fn decoded_descriptors(b: Seq<u8>, n: nat, hash_length: nat) -> Result<
    Seq<DescriptorView>,
    Error,
>
    decreases n,
{
    let size = record_size(hash_length) as int;
    if n == 0 {
        Ok(Seq::empty())
    } else {
        match decoded_descriptor(b.take(size), hash_length) {
            Err(e) => Err(e),
            Ok(d) => with_first(d, decoded_descriptors(b.skip(size), (n - 1) as nat, hash_length)),
        }
    }
}

/// The encoded form of a layout: four bytes for each segment.
pub open spec fn encoded_layout(l: Seq<u32>) -> Seq<u8>
    decreases l.len(),
{
    if l.len() == 0 {
        Seq::empty()
    } else {
        spec_u32_to_le_bytes(l[0]) + encoded_layout(l.drop_first())
    }
}

/// The layout of `m` segments that `b` holds.
pub open spec fn decoded_layout(b: Seq<u8>, m: nat) -> Seq<u32>
    decreases m,
{
    if m == 0 {
        Seq::empty()
    } else {
        seq![spec_u32_from_le_bytes(b.take(4))] + decoded_layout(b.skip(4), (m - 1) as nat)
    }
}

/// The encoded form of a dictionary.
pub open spec fn encoded_dictionary(dv: DictionaryView) -> Seq<u8> {
    spec_u32_to_le_bytes(dv.descriptors.len() as u32) + encoded_descriptors(dv.descriptors)
        + spec_u32_to_le_bytes(dv.layout.len() as u32) + encoded_layout(dv.layout)
}

/// The dictionary that the byte string `b` is the encoded form of, for
/// hashes of `hash_length` bytes, or why it is the encoded form of none: it
/// ends before the layout's count, a record is bad, or its length is not what
/// the two counts add up to.
pub open spec fn decoded_dictionary(b: Seq<u8>, hash_length: nat) -> Result<
    DictionaryView,
    Error,
> {
    if b.len() < 4 {
        Err(Error::Format(FormatError::Truncated))
    } else {
        let n = spec_u32_from_le_bytes(b.subrange(0, 4)) as nat;
        let records = (n * record_size(hash_length)) as int;
        if b.len() < 4 + records + 4 {
            Err(Error::Format(FormatError::Truncated))
        } else {
            match decoded_descriptors(b.subrange(4, 4 + records), n, hash_length) {
                Err(e) => Err(e),
                Ok(ds) => {
                    let m = spec_u32_from_le_bytes(b.subrange(4 + records, 8 + records)) as nat;
                    if b.len() != 8 + records + 4 * m {
                        Err(Error::Format(FormatError::BadDictionaryLength))
                    } else {
                        Ok(
                            DictionaryView {
                                descriptors: ds,
                                layout: decoded_layout(b.subrange(8 + records, b.len() as int), m),
                            },
                        )
                    }
                },
            }
        }
    }
}

/// Every hash of the sequence has `hash_length` bytes.
pub open spec fn hashes_have_length(ds: Seq<DescriptorView>, hash_length: nat) -> bool {
    forall|i: int| 0 <= i < ds.len() ==> (#[trigger] ds[i]).hash.len() == hash_length
}

/// A record is as long as its hash and the fixed part.
proof fn lemma_encoded_descriptor_len(d: DescriptorView)
    ensures
        encoded_descriptor(d).len() == record_size(d.hash.len()),
{
    lemma_auto_spec_u32_to_from_le_bytes();
    lemma_auto_spec_u64_to_from_le_bytes();
}

/// Records of hashes of one length take up that many times the record size.
proof fn lemma_encoded_descriptors_len(ds: Seq<DescriptorView>, hash_length: nat)
    requires
        hashes_have_length(ds, hash_length),
    ensures
        encoded_descriptors(ds).len() == ds.len() * record_size(hash_length),
    decreases ds.len(),
{
    if ds.len() > 0 {
        lemma_encoded_descriptor_len(ds[0]);
        let rest = ds.drop_first();
        assert forall|i: int| 0 <= i < rest.len() implies (#[trigger] rest[i]).hash.len()
            == hash_length by {
            assert(rest[i] == ds[i + 1]);
        }
        lemma_encoded_descriptors_len(rest, hash_length);
        let k = rest.len() as int;
        let r = record_size(hash_length) as int;
        assert((k + 1) * r == k * r + r) by (nonlinear_arith);
    } else {
        assert(ds.len() * record_size(hash_length) == 0) by (nonlinear_arith)
            requires
                ds.len() == 0,
        ;
    }
}

/// An encoded layout has four bytes for each segment.
proof fn lemma_encoded_layout_len(l: Seq<u32>)
    ensures
        encoded_layout(l).len() == 4 * l.len(),
    decreases l.len(),
{
    lemma_auto_spec_u32_to_from_le_bytes();
    if l.len() > 0 {
        lemma_encoded_layout_len(l.drop_first());
    }
}

/// A record that is decoded is the descriptor that was encoded.
proof fn lemma_descriptor_round_trip(d: DescriptorView)
    ensures
        decoded_descriptor(encoded_descriptor(d), d.hash.len()) == Ok::<DescriptorView, Error>(d),
{
    lemma_auto_spec_u32_to_from_le_bytes();
    lemma_auto_spec_u64_to_from_le_bytes();
    let b = encoded_descriptor(d);
    let h = d.hash.len() as int;
    assert(b.subrange(0, h) =~= d.hash);
    assert(b.subrange(h, h + 4) =~= spec_u32_to_le_bytes(d.raw_size));
    assert(b[h + 4] == compression_code(d.compression));
    assert(b.subrange(h + 5, h + 9) =~= spec_u32_to_le_bytes(d.stored_size));
    assert(b.subrange(h + 9, h + 17) =~= spec_u64_to_le_bytes(d.offset));
    assert(compression_of_code(compression_code(d.compression)) == d.compression);
}

/// Records that are decoded are the descriptors that were encoded.
proof fn lemma_descriptors_round_trip(ds: Seq<DescriptorView>, hash_length: nat)
    requires
        hashes_have_length(ds, hash_length),
    ensures
        decoded_descriptors(encoded_descriptors(ds), ds.len(), hash_length) == Ok::<
            Seq<DescriptorView>,
            Error,
        >(ds),
    decreases ds.len(),
{
    if ds.len() > 0 {
        let first = encoded_descriptor(ds[0]);
        let rest = ds.drop_first();
        let tail = encoded_descriptors(rest);
        let size = record_size(hash_length) as int;
        lemma_encoded_descriptor_len(ds[0]);
        lemma_descriptor_round_trip(ds[0]);
        assert forall|i: int| 0 <= i < rest.len() implies (#[trigger] rest[i]).hash.len()
            == hash_length by {
            assert(rest[i] == ds[i + 1]);
        }
        lemma_descriptors_round_trip(rest, hash_length);
        assert((first + tail).take(size) =~= first);
        assert((first + tail).skip(size) =~= tail);
        assert(seq![ds[0]] + rest =~= ds);
    } else {
        assert(ds =~= Seq::<DescriptorView>::empty());
    }
}

/// A layout that is decoded is the layout that was encoded.
proof fn lemma_layout_round_trip(l: Seq<u32>)
    ensures
        decoded_layout(encoded_layout(l), l.len()) == l,
    decreases l.len(),
{
    lemma_auto_spec_u32_to_from_le_bytes();
    if l.len() > 0 {
        let first = spec_u32_to_le_bytes(l[0]);
        let tail = encoded_layout(l.drop_first());
        lemma_layout_round_trip(l.drop_first());
        assert((first + tail).take(4) =~= first);
        assert((first + tail).skip(4) =~= tail);
        assert(seq![l[0]] + l.drop_first() =~= l);
    } else {
        assert(l =~= Seq::<u32>::empty());
    }
}

/// A dictionary that is encoded and decoded again is the same dictionary,
/// provided that its hashes have the given length and that its two counts
/// can be held in 32 bits.
pub proof fn lemma_dictionary_round_trip(dv: DictionaryView, hash_length: nat)
    requires
        hashes_have_length(dv.descriptors, hash_length),
        dv.descriptors.len() <= u32::MAX,
        dv.layout.len() <= u32::MAX,
    ensures
        decoded_dictionary(encoded_dictionary(dv), hash_length) == Ok::<DictionaryView, Error>(dv),
{
    lemma_auto_spec_u32_to_from_le_bytes();
    let n = dv.descriptors.len();
    let m = dv.layout.len();
    let c1 = spec_u32_to_le_bytes(n as u32);
    let e = encoded_descriptors(dv.descriptors);
    let c2 = spec_u32_to_le_bytes(m as u32);
    let l = encoded_layout(dv.layout);
    let b = encoded_dictionary(dv);
    lemma_encoded_descriptors_len(dv.descriptors, hash_length);
    lemma_encoded_layout_len(dv.layout);
    lemma_descriptors_round_trip(dv.descriptors, hash_length);
    lemma_layout_round_trip(dv.layout);
    let records = (n * record_size(hash_length)) as int;
    assert(b.subrange(0, 4) =~= c1);
    assert(b.subrange(4, 4 + records) =~= e);
    assert(b.subrange(4 + records, 8 + records) =~= c2);
    assert(b.subrange(8 + records, b.len() as int) =~= l);
}

/// Decodes one descriptor record.
pub fn decode_descriptor(record: &[u8], hash_length: usize) -> (r: Result<ChunkDescriptor, Error>)
    requires
        record@.len() == record_size(hash_length as nat),
    ensures
        match r {
            Ok(d) => decoded_descriptor(record@, hash_length as nat) == Ok::<
                DescriptorView,
                Error,
            >(d@),
            Err(e) => decoded_descriptor(record@, hash_length as nat) == Err::<
                DescriptorView,
                Error,
            >(e),
        },
{
    let h = hash_length;
    let total = record.len();
    assert(h + 17 == total);
    let code = record[h + 4];
    if code > 1 {
        return Err(Error::Format(FormatError::UnknownCompression));
    }
    let compression = if code == 0 {
        Compression::Identity
    } else {
        Compression::Zstd
    };
    Ok(
        ChunkDescriptor {
            hash: HashSum::from_slice(slice_subrange(record, 0, h)),
            raw_size: u32_from_le_bytes(slice_subrange(record, h, h + 4)),
            compression,
            stored_size: u32_from_le_bytes(slice_subrange(record, h + 5, h + 9)),
            offset: u64_from_le_bytes(slice_subrange(record, h + 9, h + 17)),
        },
    )
}

/// Encodes one descriptor record at the end of `out`.
pub fn encode_descriptor(out: &mut Vec<u8>, d: &ChunkDescriptor)
    ensures
        final(out)@ == old(out)@ + encoded_descriptor(d@),
{
    append_bytes(out, d.hash.as_slice());
    append_bytes(out, u32_to_le_bytes(d.raw_size).as_slice());
    out.push(
        match d.compression {
            Compression::Identity => 0,
            Compression::Zstd => 1,
        },
    );
    append_bytes(out, u32_to_le_bytes(d.stored_size).as_slice());
    append_bytes(out, u64_to_le_bytes(d.offset).as_slice());
    proof {
        assert(out@ =~= old(out)@ + encoded_descriptor(d@));
    }
}

/// Encodes a dictionary.
pub fn encode_dictionary(dictionary: &ChunkDictionary) -> (out: Vec<u8>)
    requires
        dictionary.descriptors@.len() <= u32::MAX,
        dictionary.layout@.len() <= u32::MAX,
    ensures
        out@ == encoded_dictionary(dictionary@),
{
    let ghost dv = dictionary@;
    let n = dictionary.descriptors.len();
    let m = dictionary.layout.len();
    let mut out: Vec<u8> = Vec::new();
    append_bytes(&mut out, u32_to_le_bytes(n as u32).as_slice());
    let ghost head = out@;
    let mut i: usize = 0;
    proof {
        assert(dv.descriptors.skip(0) =~= dv.descriptors);
    }
    while i < n
        invariant
            i <= n,
            n == dictionary.descriptors@.len(),
            dv == dictionary@,
            out@ + encoded_descriptors(dv.descriptors.skip(i as int)) == head + encoded_descriptors(
                dv.descriptors,
            ),
        decreases n - i,
    {
        let ghost before = out@;
        let ghost rest = dv.descriptors.skip(i as int);
        encode_descriptor(&mut out, &dictionary.descriptors[i]);
        proof {
            assert(rest[0] == dictionary.descriptors@[i as int]@);
            assert(rest.drop_first() =~= dv.descriptors.skip(i as int + 1));
            assert(out@ + encoded_descriptors(rest.drop_first()) =~= before + encoded_descriptors(
                rest,
            ));
        }
        i += 1;
    }
    proof {
        assert(encoded_descriptors(dv.descriptors.skip(n as int)) =~= Seq::<u8>::empty());
        assert(out@ =~= head + encoded_descriptors(dv.descriptors));
    }
    append_bytes(&mut out, u32_to_le_bytes(m as u32).as_slice());
    let ghost front = out@;
    let mut j: usize = 0;
    proof {
        assert(dv.layout.skip(0) =~= dv.layout);
    }
    while j < m
        invariant
            j <= m,
            m == dictionary.layout@.len(),
            dv == dictionary@,
            out@ + encoded_layout(dv.layout.skip(j as int)) == front + encoded_layout(dv.layout),
        decreases m - j,
    {
        let ghost before = out@;
        let ghost rest = dv.layout.skip(j as int);
        append_bytes(&mut out, u32_to_le_bytes(dictionary.layout[j]).as_slice());
        proof {
            assert(rest[0] == dictionary.layout@[j as int]);
            assert(rest.drop_first() =~= dv.layout.skip(j as int + 1));
            assert(out@ + encoded_layout(rest.drop_first()) =~= before + encoded_layout(rest));
        }
        j += 1;
    }
    proof {
        assert(encoded_layout(dv.layout.skip(m as int)) =~= Seq::<u8>::empty());
        assert(out@ =~= front + encoded_layout(dv.layout));
    }
    out
}

/// Decodes a dictionary whose hashes have `hash_length` bytes.
pub fn decode_dictionary(bytes: &[u8], hash_length: u8) -> (r: Result<ChunkDictionary, Error>)
    ensures
        match r {
            Ok(d) => decoded_dictionary(bytes@, hash_length as nat) == Ok::<DictionaryView, Error>(
                d@,
            ),
            Err(e) => decoded_dictionary(bytes@, hash_length as nat) == Err::<
                DictionaryView,
                Error,
            >(e),
        },
{
    let ghost hl = hash_length as nat;
    if bytes.len() < 4 {
        return Err(Error::Format(FormatError::Truncated));
    }
    let n = u32_from_le_bytes(slice_subrange(bytes, 0, 4));
    let size: usize = hash_length as usize + RECORD_FIXED;
    let ghost records: int = ((n as nat) * record_size(hl)) as int;
    assert(records == n * size && 0 <= records <= 0xffff_ffff * 272) by (nonlinear_arith)
        requires
            records == ((n as nat) * record_size(hl)) as int,
            record_size(hl) == size,
            size <= 272,
            n <= 0xffff_ffff,
    ;
    let record_bytes: u64 = n as u64 * size as u64;
    if (bytes.len() as u64) < record_bytes + 8 {
        return Err(Error::Format(FormatError::Truncated));
    }
    let region = slice_subrange(bytes, 4, 4 + record_bytes as usize);
    let mut descriptors: Vec<ChunkDescriptor> = Vec::new();
    let ghost mut done: Seq<DescriptorView> = Seq::empty();
    let ghost target = decoded_descriptors(region@, n as nat, hl);
    let mut pos: usize = 0;
    let mut i: u32 = 0;
    let region_len = region.len();
    proof {
        assert(region@.skip(0) =~= region@);
    }
    while i < n
        invariant
            i <= n,
            hl == hash_length as nat,
            size == record_size(hl),
            region_len == region@.len(),
            bytes@.len() >= 4,
            n == spec_u32_from_le_bytes(bytes@.subrange(0, 4)),
            records == ((n as nat) * record_size(hl)) as int,
            bytes@.len() >= 4 + records + 4,
            region@ == bytes@.subrange(4, 4 + records),
            pos <= region@.len(),
            region@.len() - pos == (n - i) * size,
            done == descriptors@.map_values(|d: ChunkDescriptor| d@),
            target == decoded_descriptors(region@, n as nat, hl),
            match decoded_descriptors(region@.skip(pos as int), (n - i) as nat, hl) {
                Ok(ds) => target == Ok::<Seq<DescriptorView>, Error>(done + ds),
                Err(e) => target == Err::<Seq<DescriptorView>, Error>(e),
            },
        decreases n - i,
    {
        proof {
            let k = (n - i) as int;
            let s = size as int;
            assert(k * s >= s && (k - 1) * s == k * s - s) by (nonlinear_arith)
                requires
                    k >= 1,
                    s >= 0,
            ;
        }
        let record = slice_subrange(region, pos, pos + size);
        let ghost rest = region@.skip(pos as int);
        proof {
            assert(rest.take(size as int) =~= record@);
            assert(rest.skip(size as int) =~= region@.skip(pos as int + size as int));
        }
        match decode_descriptor(record, hash_length as usize) {
            Ok(d) => {
                proof {
                    let tail = decoded_descriptors(
                        region@.skip(pos as int + size as int),
                        (n - i - 1) as nat,
                        hl,
                    );
                    if tail is Ok {
                        assert(done + (seq![d@] + tail->Ok_0) =~= done.push(d@) + tail->Ok_0);
                    }
                    assert(descriptors@.push(d).map_values(|d: ChunkDescriptor| d@) =~= done.push(
                        d@,
                    ));
                    done = done.push(d@);
                }
                descriptors.push(d);
            },
            Err(e) => {
                return Err(e);
            },
        }
        pos = pos + size;
        i += 1;
    }
    proof {
        assert(done + Seq::<DescriptorView>::empty() =~= done);
        assert(region@ == bytes@.subrange(4, 4 + records));
    }
    let at = 4 + record_bytes as usize;
    let m = u32_from_le_bytes(slice_subrange(bytes, at, at + 4));
    if bytes.len() as u64 != record_bytes + 8 + 4 * (m as u64) {
        return Err(Error::Format(FormatError::BadDictionaryLength));
    }
    let tail = slice_subrange(bytes, at + 4, bytes.len());
    let mut layout: Vec<u32> = Vec::new();
    let ghost whole = decoded_layout(tail@, m as nat);
    let mut j: u32 = 0;
    let tail_len = tail.len();
    proof {
        assert(tail@.skip(0) =~= tail@);
        assert(layout@ + whole =~= whole);
    }
    while j < m
        invariant
            j <= m,
            tail_len == tail@.len(),
            tail@.len() == 4 * m,
            whole == layout@ + decoded_layout(tail@.skip(4 * j), (m - j) as nat),
        decreases m - j,
    {
        let ghost rest = tail@.skip(4 * j);
        let p = 4 * (j as usize);
        let word = slice_subrange(tail, p, p + 4);
        proof {
            assert(rest.take(4) =~= word@);
            assert(rest.skip(4) =~= tail@.skip(4 * (j + 1)));
            let after = decoded_layout(rest.skip(4), (m - j - 1) as nat);
            assert(layout@ + (seq![spec_u32_from_le_bytes(word@)] + after) =~= layout@.push(
                spec_u32_from_le_bytes(word@),
            ) + after);
        }
        layout.push(u32_from_le_bytes(word));
        j += 1;
    }
    proof {
        assert(layout@ + Seq::<u32>::empty() =~= layout@);
    }
    Ok(ChunkDictionary { descriptors, layout })
}

} // verus!

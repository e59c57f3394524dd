use std::io::Read;
use vstd::prelude::*;

use crate::storage::StoreError;

verus! {

/// The first four bytes of every `.scw` file: `SCW1`.
pub const SCW_MAGIC: [u8; 4] = [83, 67, 87, 49];

/// The save schema this store reads and writes.
pub const SAVE_SCHEMA_VERSION: u32 = 6;

/// Magic, schema version and payload checksum.
pub const ENVELOPE_BYTES: usize = 16;

/// The Zstandard level payloads are compressed with.
pub const ZSTD_LEVEL: i32 = 3;

/// The largest file the store reads.
pub const MAX_FILE_BYTES: usize = 536870912;

/// The largest payload a region decompresses to.
pub const MAX_DECOMPRESSED_BYTES: usize = 536870912;

/// The largest metadata part of a payload.
pub const MAX_HEADER_BYTES: usize = 4194304;

pub const FNV_OFFSET_BASIS: u64 = 0xcbf29ce484222325;

pub const FNV_PRIME: u64 = 0x100000001b3;

// ---------------------------------------------------------------------------------------------
// Little-endian integers
// ---------------------------------------------------------------------------------------------

/// The little-endian bytes of the low `n` bytes of `v`.
pub open spec fn le_bytes(v: nat, n: nat) -> Seq<u8>
    decreases n,
{
    if n == 0 {
        Seq::empty()
    } else {
        seq![(v % 256) as u8] + le_bytes(v / 256, (n - 1) as nat)
    }
}

/// The number whose little-endian bytes are `b`.
pub open spec fn le_value(b: Seq<u8>) -> nat
    decreases b.len(),
{
    if b.len() == 0 {
        0
    } else {
        b[0] as nat + 256 * le_value(b.drop_first())
    }
}

proof fn lemma_le_value_unfold(b: Seq<u8>)
    requires
        b.len() > 0,
    ensures
        le_value(b) == b[0] as nat + 256 * le_value(b.drop_first()),
{
}

/// The value of four little-endian bytes.
pub proof fn lemma_le_value4(b: Seq<u8>)
    requires
        b.len() == 4,
    ensures
        le_value(b) == b[0] + 256 * b[1] + 65536 * b[2] + 16777216 * b[3],
{
    let b1 = b.drop_first();
    let b2 = b1.drop_first();
    let b3 = b2.drop_first();
    let b4 = b3.drop_first();
    assert(b4.len() == 0);
    assert(le_value(b4) == 0);
    lemma_le_value_unfold(b3);
    lemma_le_value_unfold(b2);
    lemma_le_value_unfold(b1);
    lemma_le_value_unfold(b);
}

/// The value of eight little-endian bytes.
pub proof fn lemma_le_value8(b: Seq<u8>)
    requires
        b.len() == 8,
    ensures
        le_value(b) == le_value(b.take(4)) + 4294967296 * le_value(b.skip(4)),
        le_value(b) < 0x1_0000_0000_0000_0000,
{
    let lo = b.take(4);
    let hi = b.skip(4);
    lemma_le_value4(lo);
    lemma_le_value4(hi);
    let b1 = b.drop_first();
    let b2 = b1.drop_first();
    let b3 = b2.drop_first();
    let b4 = b3.drop_first();
    assert(b4 =~= hi);
    lemma_le_value_unfold(b3);
    lemma_le_value_unfold(b2);
    lemma_le_value_unfold(b1);
    lemma_le_value_unfold(b);
}

proof fn lemma_le_bytes_unfold(v: nat, n: nat)
    requires
        n > 0,
    ensures
        le_bytes(v, n) == seq![(v % 256) as u8] + le_bytes(v / 256, (n - 1) as nat),
{
}

/// Four little-endian bytes read back give the number they were written from.
pub proof fn lemma_le_u32_round_trip(v: u32)
    ensures
        le_bytes(v as nat, 4).len() == 4,
        le_value(le_bytes(v as nat, 4)) == v,
{
    let w = v as nat;
    lemma_le_bytes_unfold(w, 4);
    lemma_le_bytes_unfold(w / 256, 3);
    lemma_le_bytes_unfold(w / 256 / 256, 2);
    lemma_le_bytes_unfold(w / 256 / 256 / 256, 1);
    assert(le_bytes(w / 256 / 256 / 256 / 256, 0) =~= Seq::<u8>::empty());
    let b = le_bytes(w, 4);
    lemma_le_value4(b);
    assert(v % 256 + 256 * ((v / 256) % 256) + 65536 * ((v / 256 / 256) % 256) + 16777216 * ((v / 256 / 256 / 256) % 256) == v)
        by (bit_vector);
}

/// Appends the four little-endian bytes of `v`.
pub(crate) fn push_u32_le(out: &mut Vec<u8>, v: u32)
    ensures
        final(out)@ == old(out)@ + le_bytes(v as nat, 4),
{
    out.push((v % 256) as u8);
    out.push((v / 256 % 256) as u8);
    out.push((v / 65536 % 256) as u8);
    out.push((v / 16777216 % 256) as u8);
    proof {
        let w = v as nat;
        lemma_le_bytes_unfold(w, 4);
        lemma_le_bytes_unfold(w / 256, 3);
        lemma_le_bytes_unfold(w / 256 / 256, 2);
        lemma_le_bytes_unfold(w / 256 / 256 / 256, 1);
        assert(le_bytes(w / 256 / 256 / 256 / 256, 0) =~= Seq::<u8>::empty());
        assert(w / 256 / 256 == w / 65536) by (nonlinear_arith);
        assert(w / 256 / 256 / 256 == w / 16777216) by (nonlinear_arith);
        assert(final(out)@ =~= old(out)@ + le_bytes(w, 4));
    }
}

/// Appends the eight little-endian bytes of `v`.
fn push_u64_le(out: &mut Vec<u8>, v: u64)
    ensures
        final(out)@ == old(out)@ + le_bytes(v as nat, 8),
{
    let ghost start = out@;
    push_u32_le(out, (v % 4294967296) as u32);
    push_u32_le(out, (v / 4294967296) as u32);
    proof {
        lemma_le_bytes_split(v);
        assert(out@ =~= start + le_bytes(v as nat, 8));
    }
}

proof fn lemma_le_bytes_split(v: u64)
    ensures
        le_bytes(v as nat, 8) == le_bytes((v % 4294967296) as nat, 4) + le_bytes((v / 4294967296) as nat, 4),
{
    let lo = v % 4294967296;
    let hi = v / 4294967296;
    assert(v / 256 / 256 / 256 / 256 == v / 4294967296) by (bit_vector);
    assert(v % 256 == (v % 4294967296) % 256) by (bit_vector);
    assert((v / 256) % 256 == ((v % 4294967296) / 256) % 256) by (bit_vector);
    assert((v / 256 / 256) % 256 == ((v % 4294967296) / 256 / 256) % 256) by (bit_vector);
    assert((v / 256 / 256 / 256) % 256 == ((v % 4294967296) / 256 / 256 / 256) % 256) by (bit_vector);
    let w = v as nat;
    let l = lo as nat;
    lemma_le_bytes_unfold(w, 8);
    lemma_le_bytes_unfold(w / 256, 7);
    lemma_le_bytes_unfold(w / 256 / 256, 6);
    lemma_le_bytes_unfold(w / 256 / 256 / 256, 5);
    lemma_le_bytes_unfold(l, 4);
    lemma_le_bytes_unfold(l / 256, 3);
    lemma_le_bytes_unfold(l / 256 / 256, 2);
    lemma_le_bytes_unfold(l / 256 / 256 / 256, 1);
    assert(le_bytes(l / 256 / 256 / 256 / 256, 0) =~= Seq::<u8>::empty());
    assert(le_bytes(w, 8) =~= le_bytes(l, 4) + le_bytes(hi as nat, 4));
}

/// Reads four little-endian bytes at `at`.
pub(crate) fn read_u32_le(bytes: &[u8], at: usize) -> (result: u32)
    requires
        at + 4 <= bytes@.len(),
    ensures
        result == le_value(bytes@.subrange(at as int, at + 4)),
{
    proof {
        lemma_le_value4(bytes@.subrange(at as int, at + 4));
    }
    bytes[at] as u32 + 256 * bytes[at + 1] as u32 + 65536 * bytes[at + 2] as u32 + 16777216 * bytes[at + 3] as u32
}

/// Reads eight little-endian bytes at `at`.
fn read_u64_le(bytes: &[u8], at: usize) -> (result: u64)
    requires
        at + 8 <= bytes@.len(),
    ensures
        result == le_value(bytes@.subrange(at as int, at + 8)),
{
    let lo = read_u32_le(bytes, at) as u64;
    let length = bytes.len();
    let high_at = at + 4;
    let hi = read_u32_le(bytes, high_at) as u64;
    proof {
        let s = bytes@.subrange(at as int, at + 8);
        lemma_le_value8(s);
        assert(s.take(4) =~= bytes@.subrange(at as int, at + 4));
        assert(s.skip(4) =~= bytes@.subrange(at + 4, at + 8));
    }
    lo + 4294967296 * hi
}

// ---------------------------------------------------------------------------------------------
// FNV-1a
// ---------------------------------------------------------------------------------------------

/// One FNV-1a step: mix in a byte, then multiply by the prime, wrapping.
pub open spec fn fnv_step(hash: u64, byte: u8) -> u64 {
    (((hash ^ (byte as u64)) as nat * FNV_PRIME as nat) % 0x1_0000_0000_0000_0000) as u64
}

/// The FNV-1a state after feeding `bytes` into `hash`, in order.
pub open spec fn fnv(hash: u64, bytes: Seq<u8>) -> u64
    decreases bytes.len(),
{
    if bytes.len() == 0 {
        hash
    } else {
        fnv_step(fnv(hash, bytes.drop_last()), bytes.last())
    }
}

pub proof fn lemma_fnv_append(hash: u64, a: Seq<u8>, b: Seq<u8>)
    ensures
        fnv(hash, a + b) == fnv(fnv(hash, a), b),
    decreases b.len(),
{
    if b.len() == 0 {
        assert(a + b =~= a);
    } else {
        lemma_fnv_append(hash, a, b.drop_last());
        assert((a + b).drop_last() =~= a + b.drop_last());
    }
}

/// Feeding six pieces one after the other feeds their concatenation.
pub proof fn lemma_fnv_append_all6(hash: u64, a: Seq<u8>, b: Seq<u8>, c: Seq<u8>, d: Seq<u8>, e: Seq<u8>, f: Seq<u8>)
    ensures
        fnv(fnv(fnv(fnv(fnv(fnv(hash, a), b), c), d), e), f) == fnv(hash, a + b + c + d + e + f),
{
    lemma_fnv_append(hash, a, b);
    lemma_fnv_append(hash, a + b, c);
    lemma_fnv_append(hash, a + b + c, d);
    lemma_fnv_append(hash, a + b + c + d, e);
    lemma_fnv_append(hash, a + b + c + d + e, f);
}

/// Appends the two little-endian bytes of `v`.
fn push_u16_le(out: &mut Vec<u8>, v: u16)
    ensures
        final(out)@ == old(out)@ + le_bytes(v as nat, 2),
{
    out.push((v % 256) as u8);
    out.push((v / 256) as u8);
    proof {
        let w = v as nat;
        lemma_le_bytes_unfold(w, 2);
        lemma_le_bytes_unfold(w / 256, 1);
        assert(le_bytes(w / 256 / 256, 0) =~= Seq::<u8>::empty());
        assert(w / 256 < 256);
        assert(final(out)@ =~= old(out)@ + le_bytes(w, 2));
    }
}

/// The 64-bit FNV-1a hash state, fed byte by byte.
#[derive(Debug)]
pub struct Fnv1a(pub u64);

impl Fnv1a {
    /// A fresh hash.
    pub fn new() -> (result: Fnv1a)
        ensures
            result.0 == FNV_OFFSET_BASIS,
    {
        Fnv1a(FNV_OFFSET_BASIS)
    }

    /// Feeds bytes into the hash, in order.
    pub fn write(&mut self, bytes: &[u8])
        ensures
            final(self).0 == fnv(old(self).0, bytes@),
    {
        let ghost start = self.0;
        let mut i: usize = 0;
        while i < bytes.len()
            invariant
                i <= bytes@.len(),
                self.0 == fnv(start, bytes@.take(i as int)),
            decreases bytes@.len() - i,
        {
            proof {
                assert(bytes@.take(i as int + 1).drop_last() =~= bytes@.take(i as int));
            }
            self.0 = (self.0 ^ bytes[i] as u64).wrapping_mul(FNV_PRIME);
            i += 1;
        }
        proof {
            assert(bytes@.take(i as int) =~= bytes@);
        }
    }

    /// Feeds the two little-endian bytes of `v`.
    pub fn write_u16(&mut self, v: u16)
        ensures
            final(self).0 == fnv(old(self).0, le_bytes(v as nat, 2)),
    {
        let mut bytes: Vec<u8> = Vec::new();
        push_u16_le(&mut bytes, v);
        proof {
            assert(bytes@ =~= le_bytes(v as nat, 2));
        }
        self.write(bytes.as_slice());
    }

    /// Feeds the four little-endian bytes of `v`.
    pub fn write_u32(&mut self, v: u32)
        ensures
            final(self).0 == fnv(old(self).0, le_bytes(v as nat, 4)),
    {
        let mut bytes: Vec<u8> = Vec::new();
        push_u32_le(&mut bytes, v);
        proof {
            assert(bytes@ =~= le_bytes(v as nat, 4));
        }
        self.write(bytes.as_slice());
    }

    /// Feeds the eight little-endian bytes of `v`.
    pub fn write_u64(&mut self, v: u64)
        ensures
            final(self).0 == fnv(old(self).0, le_bytes(v as nat, 8)),
    {
        let mut bytes: Vec<u8> = Vec::new();
        push_u64_le(&mut bytes, v);
        proof {
            assert(bytes@ =~= le_bytes(v as nat, 8));
        }
        self.write(bytes.as_slice());
    }

    /// The hash of everything fed so far.
    pub fn finish(self) -> (result: u64)
        ensures
            result == self.0,
    {
        self.0
    }
}

/// The FNV-1a hash of `bytes`.
pub open spec fn checksum_of(bytes: Seq<u8>) -> u64 {
    fnv(FNV_OFFSET_BASIS, bytes)
}

pub fn checksum(bytes: &[u8]) -> (result: u64)
    ensures
        result == checksum_of(bytes@),
{
    let mut hash = Fnv1a::new();
    hash.write(bytes);
    hash.finish()
}

// ---------------------------------------------------------------------------------------------
// Zstandard
// ---------------------------------------------------------------------------------------------

/// What `zstd::stream::encode_all` makes of `payload` at `level`: the compressed frame, or
/// `None` when it reports an error.
pub uninterp spec fn zstd_encoded(payload: Seq<u8>, level: i32) -> Option<Seq<u8>>;

/// What a `zstd::stream::read::Decoder` over `compressed`, read to the end through
/// `Read::take(cap)`, produces: the first `cap` decompressed bytes, or `None` when it reports
/// an error.
pub uninterp spec fn zstd_decoded(compressed: Seq<u8>, cap: u64) -> Option<Seq<u8>>;

/// Compresses `payload` with `zstd::stream::encode_all` at `level`. The result is the named
/// outcome of that call; its error is the one the crate reports.
#[verifier::external_body]
fn zstd_encode(payload: &[u8], level: i32) -> (result: Result<Vec<u8>, std::io::Error>)
    ensures
        match result {
            Ok(compressed) => zstd_encoded(payload@, level) == Some(compressed@),
            Err(_) => zstd_encoded(payload@, level) is None,
        },
{
    zstd::stream::encode_all(std::io::Cursor::new(payload), level)
}

/// Decompresses `compressed` with a `zstd::stream::read::Decoder`, reading at most `cap`
/// bytes through `Read::take` into a vector (`Read::read_to_end`). The result is the named
/// outcome of that call; as `take` documents, it holds at most `cap` bytes. Zstandard is
/// lossless: when `compressed` is a frame that `encode_all` made of some payload and the
/// call succeeds, what it read is that payload, cut off after `cap` bytes. That the call
/// succeeds on such a frame is not stated: making the decoder's context can fail.
#[verifier::external_body]
fn zstd_decode_capped(compressed: &[u8], cap: u64) -> (result: Result<Vec<u8>, std::io::Error>)
    ensures
        match result {
            Ok(decoded) => zstd_decoded(compressed@, cap) == Some(decoded@) && decoded@.len() <= cap,
            Err(_) => zstd_decoded(compressed@, cap) is None,
        },
        forall|payload: Seq<u8>, level: i32|
            #[trigger] zstd_encoded(payload, level) == Some(compressed@) ==> (result matches Ok(decoded) ==> decoded@ == (
            if payload.len() <= cap {
                payload
            } else {
                payload.take(cap as int)
            })),
{
    let mut decoded = Vec::new();
    zstd::stream::read::Decoder::new(compressed)?.take(cap).read_to_end(&mut decoded)?;
    Ok(decoded)
}

// ---------------------------------------------------------------------------------------------
// The envelope
// ---------------------------------------------------------------------------------------------

/// The envelope of a compressed payload: magic, schema version and checksum, then the
/// compressed bytes.
pub open spec fn envelope_of(compressed: Seq<u8>) -> Seq<u8> {
    seq![83u8, 67u8, 87u8, 49u8] + le_bytes(SAVE_SCHEMA_VERSION as nat, 4) + le_bytes(checksum_of(compressed) as nat, 8)
        + compressed
}

pub(crate) fn format_error(text: &str) -> (result: StoreError)
    ensures
        result matches StoreError::Format(t) && t@ == text@,
{
    StoreError::Format(text.to_string())
}

/// `SCW1` | schema version | payload checksum | Zstandard payload. Fails when compression
/// fails or the file would exceed `MAX_FILE_BYTES`.
pub fn encode_envelope(payload: &[u8]) -> (result: Result<Vec<u8>, StoreError>)
    ensures
        match zstd_encoded(payload@, ZSTD_LEVEL) {
            None => result matches Err(StoreError::Compression(_)),
            Some(compressed) => if ENVELOPE_BYTES + compressed.len() > MAX_FILE_BYTES {
                result matches Err(StoreError::Format(_))
            } else {
                result matches Ok(file) && file@ == envelope_of(compressed)
            },
        },
{
    let compressed = match zstd_encode(payload, ZSTD_LEVEL) {
        Ok(compressed) => compressed,
        Err(error) => return Err(StoreError::Compression(error)),
    };
    if compressed.len() > MAX_FILE_BYTES - ENVELOPE_BYTES {
        return Err(format_error("compressed payload is too large"));
    }
    let mut file: Vec<u8> = Vec::new();
    file.push(83);
    file.push(67);
    file.push(87);
    file.push(49);
    push_u32_le(&mut file, SAVE_SCHEMA_VERSION);
    push_u64_le(&mut file, checksum(compressed.as_slice()));
    let mut i: usize = 0;
    let ghost head = file@;
    while i < compressed.len()
        invariant
            i <= compressed@.len(),
            file@ == head + compressed@.take(i as int),
        decreases compressed@.len() - i,
    {
        file.push(compressed[i]);
        i += 1;
        proof {
            assert(file@ =~= head + compressed@.take(i as int));
        }
    }
    proof {
        assert(compressed@.take(i as int) =~= compressed@);
        assert(file@ =~= envelope_of(compressed@));
    }
    Ok(file)
}

/// Why an envelope is refused, checked in this order, before anything is decompressed.
pub open spec fn envelope_problem(file: Seq<u8>) -> Option<int> {
    if file.len() > MAX_FILE_BYTES {
        Some(0)
    } else if file.len() < 4 || file.take(4) != seq![83u8, 67u8, 87u8, 49u8] {
        Some(1)
    } else if file.len() < ENVELOPE_BYTES {
        Some(2)
    } else if le_value(file.subrange(4, 8)) != SAVE_SCHEMA_VERSION {
        Some(3)
    } else if le_value(file.subrange(8, 16)) != checksum_of(file.skip(16)) {
        Some(4)
    } else {
        None
    }
}

/// Eight little-endian bytes read back give the number they were written from.
pub proof fn lemma_le_u64_round_trip(v: u64)
    ensures
        le_bytes(v as nat, 8).len() == 8,
        le_value(le_bytes(v as nat, 8)) == v,
{
    let lo = (v % 4294967296) as u32;
    let hi = (v / 4294967296) as u32;
    lemma_le_bytes_split(v);
    lemma_le_u32_round_trip(lo);
    lemma_le_u32_round_trip(hi);
    let b = le_bytes(v as nat, 8);
    lemma_le_value8(b);
    assert(b.take(4) =~= le_bytes(lo as nat, 4));
    assert(b.skip(4) =~= le_bytes(hi as nat, 4));
}

/// The envelope of a compressed payload passes every check before decompression, and holds
/// the payload after its sixteen bytes.
pub proof fn lemma_envelope_opens(compressed: Seq<u8>)
    requires
        ENVELOPE_BYTES + compressed.len() <= MAX_FILE_BYTES,
    ensures
        envelope_problem(envelope_of(compressed)) is None,
        envelope_of(compressed).skip(16) == compressed,
{
    let file = envelope_of(compressed);
    lemma_le_u32_round_trip(SAVE_SCHEMA_VERSION);
    lemma_le_u64_round_trip(checksum_of(compressed));
    assert(file.take(4) =~= seq![83u8, 67u8, 87u8, 49u8]);
    assert(file.subrange(4, 8) =~= le_bytes(SAVE_SCHEMA_VERSION as nat, 4));
    assert(file.subrange(8, 16) =~= le_bytes(checksum_of(compressed) as nat, 8));
    assert(file.skip(16) =~= compressed);
}

/// Opens an envelope: rejects size, magic, schema and checksum before anything is
/// decompressed, then decompresses at most `max_decompressed` bytes. An envelope written by
/// `encode_envelope` opens to the payload it was written from, unless decompression fails.
pub fn decode_envelope(file: &[u8], max_decompressed: usize) -> (result: Result<Vec<u8>, StoreError>)
    requires
        max_decompressed < MAX_DECOMPRESSED_BYTES + 1,
    ensures
        forall|payload: Seq<u8>|
            #![trigger zstd_encoded(payload, ZSTD_LEVEL)]
            zstd_encoded(payload, ZSTD_LEVEL) is Some && file@ == envelope_of(zstd_encoded(payload, ZSTD_LEVEL)->0)
                && ENVELOPE_BYTES + zstd_encoded(payload, ZSTD_LEVEL)->0.len() <= MAX_FILE_BYTES && payload.len()
                <= max_decompressed ==> (result matches Ok(p) && p@ == payload) || result matches Err(
                StoreError::Compression(_),
            ),
        match envelope_problem(file@) {
            Some(k) => if k == 3 {
                result matches Err(StoreError::UnsupportedSchema(v)) && v == le_value(file@.subrange(4, 8))
            } else {
                result matches Err(StoreError::Format(_))
            },
            None => match zstd_decoded(file@.skip(16), (max_decompressed + 1) as u64) {
                None => result matches Err(StoreError::Compression(_)),
                Some(decoded) => if decoded.len() > max_decompressed {
                    result matches Err(StoreError::Format(_))
                } else {
                    result matches Ok(payload) && payload@ == decoded
                },
            },
        },
{
    proof {
        assert forall|payload: Seq<u8>|
            #![trigger zstd_encoded(payload, ZSTD_LEVEL)]
            zstd_encoded(payload, ZSTD_LEVEL) is Some && file@ == envelope_of(zstd_encoded(payload, ZSTD_LEVEL)->0)
                && ENVELOPE_BYTES + zstd_encoded(payload, ZSTD_LEVEL)->0.len() <= MAX_FILE_BYTES implies envelope_problem(
            file@,
        ) is None by {
            lemma_envelope_opens(zstd_encoded(payload, ZSTD_LEVEL)->0);
        }
    }
    if file.len() > MAX_FILE_BYTES {
        return Err(format_error("file is too large"));
    }
    if file.len() < 4 || file[0] != 83 || file[1] != 67 || file[2] != 87 || file[3] != 49 {
        proof {
            if file@.len() >= 4 && file@.take(4) == seq![83u8, 67u8, 87u8, 49u8] {
                assert(file@.take(4)[0] == file@[0]);
                assert(file@.take(4)[1] == file@[1]);
                assert(file@.take(4)[2] == file@[2]);
                assert(file@.take(4)[3] == file@[3]);
            }
        }
        return Err(format_error("unsupported or missing SCW1 header"));
    }
    proof {
        assert(file@.take(4) =~= seq![83u8, 67u8, 87u8, 49u8]);
    }
    if file.len() < ENVELOPE_BYTES {
        return Err(format_error("SCW1 envelope is truncated"));
    }
    let schema = read_u32_le(file, 4);
    if schema != SAVE_SCHEMA_VERSION {
        return Err(StoreError::UnsupportedSchema(schema));
    }
    let expected_checksum = read_u64_le(file, 8);
    let compressed = slice_skip(file, ENVELOPE_BYTES);
    if checksum(compressed.as_slice()) != expected_checksum {
        return Err(format_error("payload checksum does not match the envelope"));
    }
    let decoded = match zstd_decode_capped(compressed.as_slice(), (max_decompressed + 1) as u64) {
        Ok(decoded) => decoded,
        Err(error) => return Err(StoreError::Compression(error)),
    };
    proof {
        assert forall|payload: Seq<u8>|
            #![trigger zstd_encoded(payload, ZSTD_LEVEL)]
            zstd_encoded(payload, ZSTD_LEVEL) is Some && file@ == envelope_of(zstd_encoded(payload, ZSTD_LEVEL)->0)
                && ENVELOPE_BYTES + zstd_encoded(payload, ZSTD_LEVEL)->0.len() <= MAX_FILE_BYTES && payload.len()
                <= max_decompressed implies decoded@ == payload by {
            lemma_envelope_opens(zstd_encoded(payload, ZSTD_LEVEL)->0);
            assert(compressed@ == zstd_encoded(payload, ZSTD_LEVEL)->0);
        }
    }
    if decoded.len() > max_decompressed {
        return Err(format_error("decompressed payload is too large"));
    }
    Ok(decoded)
}

/// The bytes of `bytes` from `from` up to, not including, `to`.
pub fn slice_range(bytes: &[u8], from: usize, to: usize) -> (result: Vec<u8>)
    requires
        from <= to <= bytes@.len(),
    ensures
        result@ == bytes@.subrange(from as int, to as int),
{
    let mut result: Vec<u8> = Vec::new();
    let mut i: usize = from;
    while i < to
        invariant
            from <= i <= to,
            to <= bytes@.len(),
            result@ == bytes@.subrange(from as int, i as int),
        decreases to - i,
    {
        result.push(bytes[i]);
        i += 1;
        proof {
            assert(result@ =~= bytes@.subrange(from as int, i as int));
        }
    }
    result
}

/// Appends all of `bytes` to `out`.
pub fn append_bytes(out: &mut Vec<u8>, bytes: &[u8])
    ensures
        final(out)@ == old(out)@ + bytes@,
{
    let ghost start = out@;
    let mut i: usize = 0;
    while i < bytes.len()
        invariant
            i <= bytes@.len(),
            out@ == start + bytes@.take(i as int),
        decreases bytes@.len() - i,
    {
        out.push(bytes[i]);
        i += 1;
        proof {
            assert(out@ =~= start + bytes@.take(i as int));
        }
    }
    proof {
        assert(bytes@.take(i as int) =~= bytes@);
    }
}

/// The bytes of `bytes` from `from` on.
pub fn slice_skip(bytes: &[u8], from: usize) -> (result: Vec<u8>)
    requires
        from <= bytes@.len(),
    ensures
        result@ == bytes@.skip(from as int),
{
    let mut result: Vec<u8> = Vec::new();
    let mut i: usize = from;
    while i < bytes.len()
        invariant
            from <= i <= bytes@.len(),
            result@ == bytes@.subrange(from as int, i as int),
        decreases bytes@.len() - i,
    {
        result.push(bytes[i]);
        i += 1;
        proof {
            assert(result@ =~= bytes@.subrange(from as int, i as int));
        }
    }
    proof {
        assert(bytes@.subrange(from as int, i as int) =~= bytes@.skip(from as int));
    }
    result
}

} // verus!

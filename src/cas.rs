//! The pack store: objects appended to pack images, one fixed-width content-index record
//! per object, and the Bloom hierarchy in front of the index. The images and the index are
//! held as bytes; writing them to `pack_{id:08}.dat` and `cidx.dat` is left to the caller.

use crate::cid::{blake3_of, le_bytes, lemma_le_bytes_len, push_le, Cid};
use crate::filters::BloomFilters;
use crate::trace::push_digest;
use vstd::prelude::*;

verus! {

broadcast use vstd::seq_lib::group_seq_properties;

/// The size at which a pack is sealed.
pub const PACK_SIZE_TARGET: u64 = 268_435_456;

/// The size that no pack may exceed.
pub const PACK_SIZE_MAX: u64 = 536_870_912;

/// The CRC-32 (IEEE) checksum of a byte sequence.
pub uninterp spec fn crc32_of(data: Seq<u8>) -> u32;

/// Relies on crc32fast::hash: the CRC-32 (IEEE) checksum of `data`, a function of the bytes.
#[verifier::external_body]
fn crc32(data: &[u8]) -> (r: u32)
    ensures
        r == crc32_of(data@),
{
    crc32fast::hash(data)
}

/// The band of a pack.
#[derive(Clone, Copy, Debug, PartialEq, Eq, Structural)]
pub enum PackBand {
    Small,
    Index,
    Blob,
}

pub open spec fn band_slot(b: PackBand) -> int {
    match b {
        PackBand::Small => 0,
        PackBand::Index => 1,
        PackBand::Blob => 2,
    }
}

/// What is known of a pack.
#[derive(Clone, Copy, Debug)]
pub struct PackMeta {
    pub id: u32,
    pub band: PackBand,
    pub size: u64,
    pub object_count: u64,
    pub created_at: u64,
}

/// The fields of a content-index record that its checksum covers, in their byte layout.
pub open spec fn cir_fields(cid: Seq<u8>, pack_id: u32, offset: u64, len: u32, kind: u8, flags: u8) -> Seq<u8> {
    cid + le_bytes(pack_id as nat, 4) + le_bytes(offset as nat, 8) + le_bytes(len as nat, 4) + seq![kind, flags]
}

/// A content-index record: where an object lies, 64 bytes once encoded.
#[derive(Clone, Copy, Debug)]
pub struct CidxRec {
    pub cid: [u8; 32],
    pub pack_id: u32,
    pub offset: u64,
    pub len: u32,
    pub kind: u8,
    pub flags: u8,
    pub crc: u32,
    pub _pad: [u8; 10],
}

impl CidxRec {
    pub open spec fn fields(&self) -> Seq<u8> {
        cir_fields(self.cid@, self.pack_id, self.offset, self.len, self.kind, self.flags)
    }

    /// Whether the checksum matches the other fields.
    pub open spec fn crc_ok(&self) -> bool {
        self.crc == crc32_of(self.fields())
    }

    /// The 64-byte encoding: the fields, the checksum, ten bytes of padding.
    pub open spec fn encoding(&self) -> Seq<u8> {
        self.fields() + le_bytes(self.crc as nat, 4) + self._pad@
    }

    fn field_bytes(&self) -> (r: Vec<u8>)
        ensures
            r@ == self.fields(),
    {
        let mut data: Vec<u8> = Vec::new();
        push_digest(&mut data, &Cid(self.cid));
        push_le(&mut data, self.pack_id as u64, 4);
        push_le(&mut data, self.offset, 8);
        push_le(&mut data, self.len as u64, 4);
        data.push(self.kind);
        data.push(self.flags);
        assert(data@ =~= self.fields());
        data
    }

    /// A record for an object of `len` bytes at `offset` in pack `pack_id`, with its checksum.
    pub fn new(cid: Cid, pack_id: u32, offset: u64, len: u32, kind: u8, flags: u8) -> (r: CidxRec)
        ensures
            r.cid@ == cid@,
            r.pack_id == pack_id,
            r.offset == offset,
            r.len == len,
            r.kind == kind,
            r.flags == flags,
            r.crc_ok(),
            r._pad@ == seq![0u8; 10],
    {
        let mut rec = CidxRec { cid: cid.0, pack_id, offset, len, kind, flags, crc: 0, _pad: [0u8; 10] };
        let bytes = rec.field_bytes();
        rec.crc = crc32(bytes.as_slice());
        assert(rec._pad@ =~= seq![0u8; 10]);
        rec
    }

    /// Whether the checksum matches the other fields.
    pub fn verify_crc(&self) -> (r: bool)
        ensures
            r == self.crc_ok(),
    {
        let bytes = self.field_bytes();
        crc32(bytes.as_slice()) == self.crc
    }

    /// The 64-byte encoding of the record.
    pub fn to_bytes(&self) -> (r: Vec<u8>)
        ensures
            r@ == self.encoding(),
            r@.len() == 64,
    {
        let mut data = self.field_bytes();
        push_le(&mut data, self.crc as u64, 4);
        let mut i: usize = 0;
        let ghost base = data@;
        while i < 10
            invariant
                i <= 10,
                self._pad@.len() == 10,
                data@ == base + self._pad@.subrange(0, i as int),
            decreases 10 - i,
        {
            data.push(self._pad[i]);
            assert(data@ =~= base + self._pad@.subrange(0, i + 1));
            i = i + 1;
        }
        assert(self._pad@.subrange(0, 10) =~= self._pad@);
        assert(data@ =~= self.encoding());
        proof {
            lemma_le_bytes_len(self.pack_id as nat, 4);
            lemma_le_bytes_len(self.offset as nat, 8);
            lemma_le_bytes_len(self.len as nat, 4);
            lemma_le_bytes_len(self.crc as nat, 4);
        }
        data
    }
}

pub open spec fn pow256(k: nat) -> nat
    decreases k,
{
    if k == 0 {
        1
    } else {
        256 * pow256((k - 1) as nat)
    }
}

/// The little-endian integer in the `n` bytes of `data` at `pos`.
fn read_le(data: &[u8], pos: usize, n: usize) -> (r: u64)
    requires
        pos + n <= data@.len(),
        n <= 8,
    ensures
        le_bytes(r as nat, n as nat) == data@.subrange(pos as int, pos + n),
        r < pow256(n as nat),
{
    let mut r: u64 = 0;
    let mut k: usize = n;
    let dl: usize = data.len();
    proof {
        assert(pow256(8) == 0x1_0000_0000_0000_0000) by {
            reveal_with_fuel(pow256, 9);
        }
    }
    while k > 0
        invariant
            k <= n <= 8,
            pos + n <= data@.len(),
            dl == data@.len(),
            pow256(8) == 0x1_0000_0000_0000_0000,
            r < pow256((n - k) as nat),
            le_bytes(r as nat, (n - k) as nat) == data@.subrange(pos + k, pos + n),
        decreases k,
    {
        let b = data[pos + k - 1];
        proof {
            lemma_pow256_mono((n - k + 1) as nat, 8);
            assert(pow256((n - k + 1) as nat) == 256 * pow256((n - k) as nat));
            assert(r * 256 + b < 256 * pow256((n - k) as nat)) by (nonlinear_arith)
                requires
                    r < pow256((n - k) as nat),
                    b < 256,
            ;
            let r2 = (r * 256 + b) as nat;
            assert(r2 % 256 == b && r2 / 256 == r) by (nonlinear_arith)
                requires
                    r2 == r * 256 + b,
                    b < 256,
            ;
            assert(le_bytes(r2, (n - k + 1) as nat) == seq![(r2 % 256) as u8] + le_bytes(r2 / 256, (n - k) as nat));
            assert(data@.subrange(pos + k - 1, pos + n) =~= seq![b] + data@.subrange(pos + k, pos + n));
        }
        r = r * 256 + b as u64;
        k = k - 1;
    }
    r
}

proof fn lemma_pow256_mono(i: nat, j: nat)
    requires
        i <= j,
    ensures
        pow256(i) <= pow256(j),
    decreases j,
{
    if i < j {
        lemma_pow256_mono(i, (j - 1) as nat);
    }
}

/// The record that `data` encodes at `pos`.
fn decode_cir(data: &[u8], pos: usize) -> (r: CidxRec)
    requires
        pos + 64 <= data@.len(),
    ensures
        r.encoding() == data@.subrange(pos as int, pos + 64),
{
    let dl: usize = data.len();
    let mut cid = [0u8; 32];
    let mut i: usize = 0;
    while i < 32
        invariant
            i <= 32,
            pos + 64 <= data@.len(),
            dl == data@.len(),
            cid@.len() == 32,
            forall|j: int| 0 <= j < i ==> cid@[j] == data@[pos + j],
        decreases 32 - i,
    {
        cid[i] = data[pos + i];
        i = i + 1;
    }
    let mut pad = [0u8; 10];
    let mut k: usize = 0;
    while k < 10
        invariant
            k <= 10,
            pos + 64 <= data@.len(),
            dl == data@.len(),
            pad@.len() == 10,
            forall|j: int| 0 <= j < k ==> pad@[j] == data@[pos + 54 + j],
        decreases 10 - k,
    {
        pad[k] = data[pos + 54 + k];
        k = k + 1;
    }
    let pack_id = read_le(data, pos + 32, 4);
    let offset = read_le(data, pos + 36, 8);
    let len = read_le(data, pos + 44, 4);
    let crc = read_le(data, pos + 50, 4);
    proof {
        reveal_with_fuel(pow256, 5);
    }
    let rec = CidxRec {
        cid,
        pack_id: pack_id as u32,
        offset,
        len: len as u32,
        kind: data[pos + 48],
        flags: data[pos + 49],
        crc: crc as u32,
        _pad: pad,
    };
    assert(cid@ =~= data@.subrange(pos as int, pos + 32));
    assert(pad@ =~= data@.subrange(pos + 54, pos + 64));
    assert(rec.encoding() =~= data@.subrange(pos as int, pos + 64));
    rec
}

/// The `j`-th 64-byte record of an index.
pub open spec fn index_chunk(index: Seq<u8>, j: int) -> Seq<u8> {
    index.subrange(64 * j, 64 * j + 64)
}

/// Whether `r` is encoded by one of the 64-byte records of `index`.
pub open spec fn from_index(r: CidxRec, index: Seq<u8>) -> bool {
    exists|j: int| 0 <= j && 64 * j + 64 <= index.len() && r.encoding() == #[trigger] index_chunk(index, j)
}

/// Why a store operation failed.
#[derive(Clone, Copy, Debug, PartialEq, Eq, Structural)]
pub enum CasError {
    NotFound,
    IntegrityError,
    PackFull,
}

/// The open pack of a band and where its next object goes.
#[derive(Clone, Copy, Debug)]
pub struct PackWriter {
    pub pack_id: u32,
    pub current_offset: u64,
    pub band: PackBand,
}

/// Each pack image of `a` is kept, possibly extended, in `b`.
pub open spec fn images_extend(a: Seq<Seq<u8>>, b: Seq<Seq<u8>>) -> bool {
    &&& a.len() <= b.len()
    &&& forall|i: int| 0 <= i < a.len() ==> #[trigger] b[i].subrange(0, a[i].len() as int) == a[i]
}

/// The 64-byte encodings of `recs`, one after another: the content of the index file.
pub open spec fn encodings(recs: Seq<CidxRec>) -> Seq<u8>
    decreases recs.len(),
{
    if recs.len() == 0 {
        Seq::empty()
    } else {
        encodings(recs.drop_last()) + recs.last().encoding()
    }
}

/// The little-endian value of a byte sequence.
pub open spec fn le_value(b: Seq<u8>) -> nat
    decreases b.len(),
{
    if b.len() == 0 {
        0
    } else {
        b[0] as nat + 256 * le_value(b.drop_first())
    }
}

/// Whether a 64-byte index chunk holds a record whose checksum holds and whose range lies
/// in its pack, read from the bytes of the layout.
pub open spec fn chunk_usable(c: Seq<u8>, packs: Seq<Seq<u8>>) -> bool {
    let pid = le_value(c.subrange(32, 36));
    let off = le_value(c.subrange(36, 44));
    let len = le_value(c.subrange(44, 48));
    &&& crc32_of(c.subrange(0, 50)) == le_value(c.subrange(50, 54))
    &&& pid < packs.len()
    &&& off + len <= packs[pid as int].len()
}

/// Whether some record of `recs` is encoded as `chunk`.
pub open spec fn loaded(recs: Seq<CidxRec>, chunk: Seq<u8>) -> bool {
    exists|i: int| 0 <= i < recs.len() && #[trigger] recs[i].encoding() == chunk
}

proof fn lemma_le_value(v: nat, n: nat)
    requires
        v < pow256(n),
    ensures
        le_value(le_bytes(v, n)) == v,
    decreases n,
{
    if n > 0 {
        assert(pow256(n) == 256 * pow256((n - 1) as nat));
        assert(v / 256 < pow256((n - 1) as nat)) by (nonlinear_arith)
            requires
                v < 256 * pow256((n - 1) as nat),
        ;
        lemma_le_value(v / 256, (n - 1) as nat);
        let b = le_bytes(v, n);
        assert(b.drop_first() =~= le_bytes(v / 256, (n - 1) as nat));
        assert(v == v % 256 + 256 * (v / 256)) by (nonlinear_arith);
    } else {
        assert(v == 0) by {
            assert(pow256(0) == 1);
        }
    }
}

/// A chunk that encodes a record is usable exactly when the record is.
proof fn lemma_chunk_usable(r: CidxRec, packs: Seq<Seq<u8>>)
    ensures
        chunk_usable(r.encoding(), packs) == usable(r, packs),
{
    let c = r.encoding();
    lemma_le_bytes_len(r.pack_id as nat, 4);
    lemma_le_bytes_len(r.offset as nat, 8);
    lemma_le_bytes_len(r.len as nat, 4);
    lemma_le_bytes_len(r.crc as nat, 4);
    assert(r.cid@.len() == 32);
    assert(c.subrange(0, 50) =~= r.fields());
    assert(c.subrange(32, 36) =~= le_bytes(r.pack_id as nat, 4));
    assert(c.subrange(36, 44) =~= le_bytes(r.offset as nat, 8));
    assert(c.subrange(44, 48) =~= le_bytes(r.len as nat, 4));
    assert(c.subrange(50, 54) =~= le_bytes(r.crc as nat, 4));
    assert(pow256(4) == 0x1_0000_0000) by {
        reveal_with_fuel(pow256, 5);
    }
    assert(pow256(8) == 0x1_0000_0000_0000_0000) by {
        reveal_with_fuel(pow256, 9);
    }
    lemma_le_value(r.pack_id as nat, 4);
    lemma_le_value(r.offset as nat, 8);
    lemma_le_value(r.len as nat, 4);
    lemma_le_value(r.crc as nat, 4);
}

/// The index of the first record for `d` that is usable in `packs`, or -1.
pub open spec fn find_cir(cidx: Seq<CidxRec>, packs: Seq<Seq<u8>>, d: Seq<u8>) -> int
    decreases cidx.len(),
{
    if cidx.len() == 0 {
        -1
    } else {
        let k = find_cir(cidx.drop_last(), packs, d);
        if k >= 0 {
            k
        } else if usable(cidx.last(), packs) && cidx.last().cid@ == d {
            cidx.len() - 1
        } else {
            -1
        }
    }
}

/// A record is usable when its checksum holds and its range lies in its pack.
pub open spec fn usable(r: CidxRec, packs: Seq<Seq<u8>>) -> bool {
    r.crc_ok() && r.pack_id < packs.len() && r.offset + r.len <= packs[r.pack_id as int].len()
}

pub open spec fn slice_of(r: CidxRec, packs: Seq<Seq<u8>>) -> Seq<u8> {
    packs[r.pack_id as int].subrange(r.offset as int, r.offset + r.len)
}

proof fn lemma_find_prefix(cidx: Seq<CidxRec>, packs: Seq<Seq<u8>>, d: Seq<u8>, n: int)
    requires
        0 <= n <= cidx.len(),
        find_cir(cidx.subrange(0, n), packs, d) >= 0,
    ensures
        find_cir(cidx, packs, d) == find_cir(cidx.subrange(0, n), packs, d),
    decreases cidx.len() - n,
{
    if n < cidx.len() {
        assert(cidx.subrange(0, n + 1).drop_last() =~= cidx.subrange(0, n));
        lemma_find_prefix(cidx, packs, d, n + 1);
    } else {
        assert(cidx.subrange(0, n) =~= cidx);
    }
}

proof fn lemma_find_range(cidx: Seq<CidxRec>, packs: Seq<Seq<u8>>, d: Seq<u8>)
    ensures
        -1 <= find_cir(cidx, packs, d) < cidx.len(),
        find_cir(cidx, packs, d) >= 0 ==> usable(cidx[find_cir(cidx, packs, d)], packs) && cidx[find_cir(
            cidx,
            packs,
            d,
        )].cid@ == d,
        find_cir(cidx, packs, d) == -1 ==> forall|i: int|
            0 <= i < cidx.len() ==> !(usable(#[trigger] cidx[i], packs) && cidx[i].cid@ == d),
    decreases cidx.len(),
{
    if cidx.len() > 0 {
        lemma_find_range(cidx.drop_last(), packs, d);
        if find_cir(cidx, packs, d) == -1 {
            assert forall|i: int| 0 <= i < cidx.len() implies !(usable(#[trigger] cidx[i], packs) && cidx[i].cid@ == d) by {
                if i < cidx.len() - 1 {
                    assert(cidx[i] == cidx.drop_last()[i]);
                }
            }
        }
    }
}

/// The pack store.
pub struct PackCAS {
    packs: Vec<Vec<u8>>,
    metas: Vec<PackMeta>,
    cidx: Vec<CidxRec>,
    bloom: BloomFilters,
    writers: Vec<Option<PackWriter>>,
    verify_on_read: bool,
    last_adaptation: u64,
    memory_budget_bits: usize,
}

/// Seconds between two adaptations of the Bloom hierarchy.
pub const ADAPTATION_INTERVAL_SECS: u64 = 300;

/// The memory that the Bloom hierarchy may take, in bits (16 MiB).
pub const BLOOM_BUDGET_BITS: usize = 134_217_728;

impl PackCAS {
    pub closed spec fn pack_images(&self) -> Seq<Seq<u8>> {
        self.packs@.map_values(|p: Vec<u8>| p@)
    }

    pub closed spec fn records(&self) -> Seq<CidxRec> {
        self.cidx@
    }

    pub closed spec fn verifies(&self) -> bool {
        self.verify_on_read
    }

    pub closed spec fn bloom_holds(&self, d: Seq<u8>) -> bool {
        self.bloom.holds(d)
    }

    /// The bytes stored under digest `d`: those of its first usable record.
    pub open spec fn stored(&self, d: Seq<u8>) -> Option<Seq<u8>> {
        let k = find_cir(self.records(), self.pack_images(), d);
        if k >= 0 {
            Some(slice_of(self.records()[k], self.pack_images()))
        } else {
            None
        }
    }

    /// What a read of `d` returns: `NotFound` where nothing is stored under it,
    /// `IntegrityError` where verification is on and the stored bytes do not digest to `d`,
    /// else the stored bytes.
    pub open spec fn read(&self, d: Seq<u8>) -> Result<Seq<u8>, CasError> {
        match self.stored(d) {
            None => Err(CasError::NotFound),
            Some(b) => if self.verifies() && blake3_of(b) != d {
                Err(CasError::IntegrityError)
            } else {
                Ok(b)
            },
        }
    }

    pub closed spec fn wf(&self) -> bool {
        &&& self.writers@.len() == 3
        &&& self.packs@.len() == self.metas@.len()
        &&& self.packs@.len() < u32::MAX
        &&& self.bloom.wf()
        &&& forall|s: int|
            0 <= s < 3 ==> (#[trigger] self.writers@[s] matches Some(w) ==> w.pack_id < self.packs@.len()
                && w.current_offset == self.packs@[w.pack_id as int]@.len() && w.current_offset
                <= PACK_SIZE_MAX && band_slot(w.band) == s)
        &&& forall|s: int, t: int|
            0 <= s < t < 3 ==> (#[trigger] self.writers@[s] matches Some(w) ==> (
            #[trigger] self.writers@[t] matches Some(v) ==> w.pack_id != v.pack_id))
        &&& forall|i: int|
            0 <= i < self.cidx@.len() ==> usable(#[trigger] self.cidx@[i], self.pack_images())
                && self.bloom.holds(self.cidx@[i].cid@)
    }

    /// Every pack id is in use below the number of packs.
    pub closed spec fn pack_count(&self) -> nat {
        self.packs@.len()
    }

    /// An empty store; `verify_on_read` makes every read check the digest of what it returns.
    pub fn new(verify_on_read: bool) -> (r: PackCAS)
        ensures
            r.wf(),
            r.records().len() == 0,
            r.pack_count() == 0,
            r.pack_images().len() == 0,
            r.verifies() == verify_on_read,
            forall|d: Seq<u8>| r.stored(d) is None,
    {
        let mut writers: Vec<Option<PackWriter>> = Vec::new();
        writers.push(None);
        writers.push(None);
        writers.push(None);
        PackCAS {
            packs: Vec::new(),
            metas: Vec::new(),
            cidx: Vec::new(),
            bloom: BloomFilters::new(),
            writers,
            verify_on_read,
            last_adaptation: 0,
            memory_budget_bits: BLOOM_BUDGET_BITS,
        }
    }

    /// Stores `data` and returns its digest. A digest already stored is returned at once
    /// (the bytes stored under it are kept). Otherwise the bytes go to the open pack of
    /// `band`: a pack is opened where the band has none, and where the bytes would take it
    /// past `PACK_SIZE_MAX` it is sealed and a new one opened; a record is appended to the
    /// index and the digest to the Bloom hierarchy, and a pack that reaches
    /// `PACK_SIZE_TARGET` is sealed. Bytes longer than `PACK_SIZE_MAX` fit in no pack.
    pub fn put(&mut self, data: &[u8], kind: u8, band: PackBand) -> (r: Result<Cid, CasError>)
        requires
            old(self).wf(),
            old(self).pack_count() + 1 < u32::MAX,
        ensures
            final(self).wf(),
            final(self).verifies() == old(self).verifies(),
            final(self).pack_count() <= old(self).pack_count() + 1,
            match r {
                Ok(d) => {
                    &&& d@ == blake3_of(data@)
                    &&& final(self).stored(d@) == if old(self).stored(d@) is Some {
                        old(self).stored(d@)
                    } else {
                        Some(data@)
                    }
                    &&& forall|e: Seq<u8>| e != d@ ==> final(self).stored(e) == old(self).stored(e)
                    &&& images_extend(old(self).pack_images(), final(self).pack_images())
                    &&& if old(self).stored(d@) is Some {
                        &&& final(self).records() == old(self).records()
                        &&& final(self).pack_images() == old(self).pack_images()
                        &&& final(self).pack_count() == old(self).pack_count()
                    } else {
                        let rec = final(self).records().last();
                        &&& final(self).records().len() == old(self).records().len() + 1
                        &&& final(self).records().drop_last() == old(self).records()
                        &&& rec.cid@ == d@
                        &&& rec.len == data@.len()
                        &&& rec.kind == kind
                        &&& rec.flags == 0
                        &&& rec.crc_ok()
                        &&& usable(rec, final(self).pack_images())
                        &&& slice_of(rec, final(self).pack_images()) == data@
                    }
                },
                Err(CasError::PackFull) => {
                    &&& old(self).stored(blake3_of(data@)) is None
                    &&& data@.len() > PACK_SIZE_MAX
                    &&& final(self).records() == old(self).records()
                    &&& final(self).pack_images() == old(self).pack_images()
                    &&& final(self).pack_count() == old(self).pack_count()
                },
                Err(_) => false,
            },
    {
        let cid = Cid::hash(data);
        if self.bloom.contains(&cid, None, None) {
            if self.find(&cid).is_some() {
                proof {
                    let im = self.pack_images();
                    assert forall|i: int| 0 <= i < im.len() implies #[trigger] im[i].subrange(0, im[i].len() as int) == im[i] by {
                        assert(im[i].subrange(0, im[i].len() as int) =~= im[i]);
                    }
                }
                return Ok(cid);
            }
        } else {
            proof {
                lemma_find_range(self.cidx@, self.pack_images(), cid@);
                let k = find_cir(self.cidx@, self.pack_images(), cid@);
                if k >= 0 {
                    assert(self.bloom.holds(self.cidx@[k].cid@));
                }
            }
        }
        proof {
            lemma_find_range(self.cidx@, self.pack_images(), cid@);
        }
        if data.len() as u64 > PACK_SIZE_MAX {
            return Err(CasError::PackFull);
        }
        let len: u64 = data.len() as u64;
        let slot: usize = match band {
            PackBand::Small => 0,
            PackBand::Index => 1,
            PackBand::Blob => 2,
        };
        assert(slot == band_slot(band));
        let ghost cidx0 = self.cidx@;
        let ghost imgs0 = self.pack_images();
        if let Some(w) = self.writers[slot] {
            if w.current_offset + len > PACK_SIZE_MAX {
                self.writers.set(slot, None);
            }
        }
        if self.writers[slot].is_none() {
            let pid = self.packs.len() as u32;
            let ghost before = self.packs@;
            self.packs.push(Vec::new());
            self.metas.push(PackMeta { id: pid, band, size: 0, object_count: 0, created_at: 0 });
            self.writers.set(slot, Some(PackWriter { pack_id: pid, current_offset: 0, band }));
            proof {
                assert(self.pack_images() =~= imgs0.push(Seq::<u8>::empty()));
                assert forall|i: int| 0 <= i < self.cidx@.len() implies usable(#[trigger] self.cidx@[i], self.pack_images())
                    && self.bloom.holds(self.cidx@[i].cid@) by {
                    assert(usable(cidx0[i], imgs0));
                    assert(self.pack_images()[cidx0[i].pack_id as int] == imgs0[cidx0[i].pack_id as int]);
                }
                lemma_find_same_usable(self.cidx@, imgs0, self.pack_images(), cid@);
            }
        }
        let w = self.writers[slot].unwrap();
        let pid = w.pack_id as usize;
        let offset = w.current_offset;
        let ghost imgs1 = self.pack_images();
        proof {
            assert(find_cir(self.cidx@, imgs1, cid@) == -1);
            assert forall|e: Seq<u8>| find_cir(self.cidx@, imgs1, e) == find_cir(self.cidx@, imgs0, e) by {
                if imgs1 != imgs0 {
                    lemma_find_same_usable(self.cidx@, imgs0, imgs1, e);
                }
            }
        }
        append_to_pack(&mut self.packs, pid, data);
        let ghost imgs2 = self.pack_images();
        proof {
            assert(imgs2[pid as int] == imgs1[pid as int] + data@);
            assert forall|i: int| 0 <= i < imgs1.len() && i != pid implies imgs2[i] == imgs1[i] by {}
            assert forall|i: int| 0 <= i < self.cidx@.len() implies usable(#[trigger] self.cidx@[i], imgs2)
                && slice_of(self.cidx@[i], imgs2) == slice_of(self.cidx@[i], imgs1) by {
                assert(usable(self.cidx@[i], imgs1));
                let q = self.cidx@[i].pack_id as int;
                if q == pid {
                    assert(imgs2[q].subrange(self.cidx@[i].offset as int, self.cidx@[i].offset + self.cidx@[i].len)
                        =~= imgs1[q].subrange(self.cidx@[i].offset as int, self.cidx@[i].offset + self.cidx@[i].len));
                }
            }
            lemma_find_same_usable(self.cidx@, imgs1, imgs2, cid@);
            assert forall|e: Seq<u8>| find_cir(self.cidx@, imgs2, e) == find_cir(self.cidx@, imgs1, e) by {
                lemma_find_same_usable(self.cidx@, imgs1, imgs2, e);
            }
        }
        let rec = CidxRec::new(cid, w.pack_id, offset, len as u32, kind, 0);
        let ghost cidx1 = self.cidx@;
        self.cidx.push(rec);
        let type_part: u16 = (kind as u16) * 256;
        let ghost bloom0 = self.bloom.placed();
        proof {
            assert forall|i: int| 0 <= i < cidx1.len() implies #[trigger] self.bloom.holds(cidx1[i].cid@) by {
                assert(old(self).bloom.holds(old(self).cidx@[i].cid@));
            }
        }
        self.bloom.insert(&cid, w.pack_id, type_part, 0);
        let end = offset + len;
        if end >= PACK_SIZE_TARGET {
            self.writers.set(slot, None);
        } else {
            self.writers.set(slot, Some(PackWriter { pack_id: w.pack_id, current_offset: end, band }));
        }
        proof {
            assert(self.cidx@.drop_last() =~= cidx1);
            assert(usable(rec, imgs2));
            assert(slice_of(rec, imgs2) =~= data@);
            assert(self.bloom.placed().contains((cid@, w.pack_id, (type_part, 0u64))));
            assert(self.bloom.holds(cid@));
            assert forall|i: int| 0 <= i < self.cidx@.len() implies usable(#[trigger] self.cidx@[i], self.pack_images())
                && self.bloom.holds(self.cidx@[i].cid@) by {
                if i < cidx1.len() {
                    assert(self.cidx@[i] == cidx1[i]);
                    let pp = choose|pp: crate::filters::Placement| #[trigger] bloom0.contains(pp) && pp.0 == cidx1[i].cid@;
                    assert(self.bloom.placed().contains(pp));
                }
            }
            assert(self.pack_images() == imgs2);
            assert(find_cir(self.cidx@, imgs2, cid@) == cidx1.len());
            assert(find_cir(cidx1, imgs0, cid@) == -1);
            assert(self.cidx@.last() == rec);
            assert(imgs1.len() == imgs0.len() || imgs1 == imgs0.push(Seq::<u8>::empty()));
            assert forall|i: int| 0 <= i < imgs0.len() implies #[trigger] imgs2[i].subrange(0, imgs0[i].len() as int) == imgs0[i] by {
                assert(imgs1[i] == imgs0[i]);
                if i == pid {
                    assert(imgs2[i].subrange(0, imgs0[i].len() as int) =~= imgs0[i]);
                } else {
                    assert(imgs2[i] == imgs1[i]);
                    assert(imgs2[i].subrange(0, imgs0[i].len() as int) =~= imgs0[i]);
                }
            }
            assert forall|e: Seq<u8>| e != cid@ implies #[trigger] self.stored(e) == old(self).stored(e) by {
                assert(find_cir(self.cidx@, imgs2, e) == find_cir(cidx1, imgs2, e));
                assert(find_cir(cidx1, imgs2, e) == find_cir(cidx1, imgs0, e));
                lemma_find_range(cidx1, imgs1, e);
                let k = find_cir(cidx1, imgs1, e);
                if k >= 0 {
                    assert(self.cidx@[k] == cidx1[k]);
                    assert(slice_of(cidx1[k], imgs2) == slice_of(cidx1[k], imgs1));
                    if imgs1 != imgs0 {
                        assert(slice_of(cidx1[k], imgs1) =~= slice_of(cidx1[k], imgs0));
                    }
                }
            }
        }
        Ok(cid)
    }

    /// A store over pack images and a content index read back from their files. Pack `i` is
    /// `packs[i]`; every record of `index` (64 bytes each, a short tail ignored) whose
    /// checksum holds and whose range lies in its pack is taken, the others are left out.
    /// All packs are sealed.
    pub fn load(packs: Vec<Vec<u8>>, index: &[u8], verify_on_read: bool) -> (r: PackCAS)
        requires
            packs@.len() + 1 < u32::MAX,
        ensures
            r.wf(),
            r.verifies() == verify_on_read,
            r.pack_images() == packs@.map_values(|p: Vec<u8>| p@),
            forall|i: int| 0 <= i < r.records().len() ==> from_index(#[trigger] r.records()[i], index@),
            forall|j: int|
                0 <= j && 64 * j + 64 <= index@.len() && chunk_usable(#[trigger] index_chunk(index@, j), r.pack_images())
                    ==> loaded(r.records(), index_chunk(index@, j)),
    {
        let mut metas: Vec<PackMeta> = Vec::new();
        let mut m: usize = 0;
        while m < packs.len()
            invariant
                m <= packs@.len(),
                packs@.len() + 1 < u32::MAX,
                metas@.len() == m,
            decreases packs.len() - m,
        {
            metas.push(PackMeta { id: m as u32, band: PackBand::Blob, size: packs[m].len() as u64, object_count: 0, created_at: 0 });
            m = m + 1;
        }
        let mut writers: Vec<Option<PackWriter>> = Vec::new();
        writers.push(None);
        writers.push(None);
        writers.push(None);
        let mut cas = PackCAS {
            packs,
            metas,
            cidx: Vec::new(),
            bloom: BloomFilters::new(),
            writers,
            verify_on_read,
            last_adaptation: 0,
            memory_budget_bits: BLOOM_BUDGET_BITS,
        };
        let ghost imgs = cas.pack_images();
        let mut pos: usize = 0;
        let il: usize = index.len();
        while il >= 64 && pos <= il - 64
            invariant
                il == index@.len(),
                cas.wf(),
                cas.verify_on_read == verify_on_read,
                imgs == cas.pack_images(),
                forall|i: int| 0 <= i < cas.cidx@.len() ==> from_index(#[trigger] cas.cidx@[i], index@),
                pos % 64 == 0,
                pos <= il,
                forall|j: int|
                    0 <= j && 64 * j + 64 <= pos && chunk_usable(#[trigger] index_chunk(index@, j), imgs)
                        ==> loaded(cas.cidx@, index_chunk(index@, j)),
            decreases index.len() - pos,
        {
            let rec = decode_cir(index, pos);
            let ok = rec.verify_crc() && (rec.pack_id as usize) < cas.packs.len() && rec.offset <= cas.packs[rec.pack_id as usize].len() as u64
                && (rec.len as u64) <= cas.packs[rec.pack_id as usize].len() as u64 - rec.offset;
            let ghost cidx_before = cas.cidx@;
            let ghost here = pos as int / 64;
            proof {
                assert(64 * here == pos) by (nonlinear_arith)
                    requires
                        pos % 64 == 0,
                        here == pos as int / 64,
                ;
                assert(index_chunk(index@, here) == rec.encoding());
                lemma_chunk_usable(rec, imgs);
                if (rec.pack_id as int) < imgs.len() {
                    assert(imgs[rec.pack_id as int] == cas.packs@[rec.pack_id as int]@);
                }
                assert(ok == usable(rec, imgs));
            }
            if ok {
                let ghost cidx0 = cas.cidx@;
                let ghost bloom0 = cas.bloom.placed();
                proof {
                    assert(imgs[rec.pack_id as int] == cas.packs@[rec.pack_id as int]@);
                    assert forall|i: int| 0 <= i < cidx0.len() implies #[trigger] cas.bloom.holds(cidx0[i].cid@) by {}
                }
                cas.cidx.push(rec);
                cas.bloom.insert(&Cid(rec.cid), rec.pack_id, (rec.kind as u16) * 256, 0);
                proof {
                    assert(cas.bloom.placed().contains((rec.cid@, rec.pack_id, (((rec.kind as u16) * 256) as u16, 0u64))));
                    assert forall|i: int| 0 <= i < cas.cidx@.len() implies usable(#[trigger] cas.cidx@[i], cas.pack_images())
                        && cas.bloom.holds(cas.cidx@[i].cid@) by {
                        if i < cidx0.len() {
                            let pp = choose|pp: crate::filters::Placement| #[trigger] bloom0.contains(pp) && pp.0 == cidx0[i].cid@;
                            assert(cas.bloom.placed().contains(pp));
                        }
                    }
                    let jj = pos as int / 64;
                    assert(64 * jj == pos) by (nonlinear_arith)
                        requires
                            pos % 64 == 0,
                            jj == pos as int / 64,
                    ;
                    assert(index_chunk(index@, jj) == index@.subrange(pos as int, pos + 64));
                    assert(rec.encoding() == index_chunk(index@, jj));
                    assert(from_index(rec, index@));
                    assert forall|i: int| 0 <= i < cas.cidx@.len() implies from_index(#[trigger] cas.cidx@[i], index@) by {
                        if i < cidx0.len() {
                            assert(cas.cidx@[i] == cidx0[i]);
                        }
                    }
                }
            }
            proof {
                assert forall|j: int|
                    0 <= j && 64 * j + 64 <= pos + 64 && chunk_usable(#[trigger] index_chunk(index@, j), imgs)
                        implies loaded(cas.cidx@, index_chunk(index@, j)) by {
                    if j < here {
                        assert(64 * j + 64 <= pos);
                        let i = choose|i: int| 0 <= i < cidx_before.len() && #[trigger] cidx_before[i].encoding() == index_chunk(index@, j);
                        assert(cas.cidx@[i] == cidx_before[i]);
                    } else {
                        assert(j == here);
                        assert(cas.cidx@[cidx_before.len() as int] == rec);
                    }
                }
            }
            pos = pos + 64;
        }
        proof {
            assert forall|j: int|
                0 <= j && 64 * j + 64 <= index@.len() && chunk_usable(#[trigger] index_chunk(index@, j), imgs)
                    implies loaded(cas.cidx@, index_chunk(index@, j)) by {
                assert(64 * j + 64 <= pos);
            }
        }
        cas
    }

    /// The false positives recorded per Bloom level since the last adaptation: global,
    /// pack, shard.
    pub fn false_positive_counts(&self) -> (r: (u64, u64, u64)) {
        self.bloom.false_positive_counts()
    }

    /// Records that the Bloom hierarchy said yes to a digest that no record names, at the
    /// levels that were asked.
    pub fn record_false_positive(&mut self, pack_id: Option<u32>, shard: Option<(u16, u64)>)
        requires
            old(self).wf(),
        ensures
            final(self).wf(),
            final(self).pack_images() == old(self).pack_images(),
            final(self).records() == old(self).records(),
            final(self).verifies() == old(self).verifies(),
            final(self).pack_count() == old(self).pack_count(),
            forall|d: Seq<u8>| #[trigger] final(self).stored(d) == old(self).stored(d),
    {
        let ghost placed0 = self.bloom.placed();
        self.bloom.record_fp(pack_id, shard);
        proof {
            assert forall|i: int| 0 <= i < self.cidx@.len() implies usable(#[trigger] self.cidx@[i], self.pack_images())
                && self.bloom.holds(self.cidx@[i].cid@) by {
                assert(old(self).bloom.holds(self.cidx@[i].cid@));
            }
        }
    }

    /// Where `ADAPTATION_INTERVAL_SECS` have passed since the last adaptation at `now_secs`,
    /// rebuilds the Bloom hierarchy from the index: the memory budget goes 40% to the global
    /// filter, 40% to the pack filters and 20% to the shard filters, every record is inserted
    /// again, and the false-positive counts start over. Returns whether it rebuilt.
    pub fn adapt(&mut self, now_secs: u64) -> (r: bool)
        requires
            old(self).wf(),
        ensures
            final(self).wf(),
            r == (now_secs >= old(self).last_adapted() && now_secs - old(self).last_adapted() >= ADAPTATION_INTERVAL_SECS),
            final(self).pack_images() == old(self).pack_images(),
            final(self).records() == old(self).records(),
            final(self).verifies() == old(self).verifies(),
            final(self).pack_count() == old(self).pack_count(),
            forall|d: Seq<u8>| #[trigger] final(self).stored(d) == old(self).stored(d),
    {
        if now_secs < self.last_adaptation || now_secs - self.last_adaptation < ADAPTATION_INTERVAL_SECS {
            return false;
        }
        let share = self.memory_budget_bits / 10;
        let packs = if self.packs.len() == 0 { 1 } else { self.packs.len() };
        let mut bloom = BloomFilters::with_sizes(share * 4, share * 4 / packs, share * 2 / packs);
        let mut i: usize = 0;
        while i < self.cidx.len()
            invariant
                i <= self.cidx@.len(),
                bloom.wf(),
                forall|j: int| 0 <= j < i ==> #[trigger] bloom.holds(self.cidx@[j].cid@),
            decreases self.cidx.len() - i,
        {
            let rec = self.cidx[i];
            let ghost placed0 = bloom.placed();
            let ghost b0 = bloom;
            assert(forall|j: int| 0 <= j < i ==> #[trigger] b0.holds(self.cidx@[j].cid@));
            bloom.insert(&Cid(rec.cid), rec.pack_id, (rec.kind as u16) * 256, 0);
            proof {
                assert(bloom.placed().contains((rec.cid@, rec.pack_id, (((rec.kind as u16) * 256) as u16, 0u64))));
                assert forall|j: int| 0 <= j <= i implies #[trigger] bloom.holds(self.cidx@[j].cid@) by {
                    if j < i {
                        assert(b0.holds(self.cidx@[j].cid@));
                        let pp = choose|pp: crate::filters::Placement| #[trigger] placed0.contains(pp) && pp.0 == self.cidx@[j].cid@;
                        assert(bloom.placed().contains(pp));
                    }
                }
            }
            i = i + 1;
        }
        self.bloom = bloom;
        self.last_adaptation = now_secs;
        proof {
            assert forall|j: int| 0 <= j < self.cidx@.len() implies usable(#[trigger] self.cidx@[j], self.pack_images())
                && self.bloom.holds(self.cidx@[j].cid@) by {
                assert(usable(old(self).cidx@[j], old(self).pack_images()));
            }
        }
        true
    }

    /// When the Bloom hierarchy was last rebuilt, in seconds.
    pub closed spec fn last_adapted(&self) -> u64 {
        self.last_adaptation
    }

    /// Seals every open pack (a graceful shutdown); later writes open new packs.
    pub fn seal_all(&mut self)
        requires
            old(self).wf(),
        ensures
            final(self).wf(),
            final(self).pack_images() == old(self).pack_images(),
            final(self).records() == old(self).records(),
            final(self).verifies() == old(self).verifies(),
            final(self).pack_count() == old(self).pack_count(),
            forall|d: Seq<u8>| #[trigger] final(self).stored(d) == old(self).stored(d),
    {
        self.writers.set(0, None);
        self.writers.set(1, None);
        self.writers.set(2, None);
    }

    /// Whether `cid` may be stored, by the Bloom hierarchy alone: it may answer yes for a
    /// digest that is not stored, never no for one that is.
    pub fn may_contain(&self, cid: &Cid) -> (r: bool)
        requires
            self.wf(),
        ensures
            self.stored(cid@) is Some ==> r,
            !r ==> forall|i: int| 0 <= i < self.records().len() ==> #[trigger] self.records()[i].cid@ != cid@,
    {
        proof {
            lemma_find_range(self.cidx@, self.pack_images(), cid@);
            let k = find_cir(self.cidx@, self.pack_images(), cid@);
            if k >= 0 {
                assert(self.bloom.holds(self.cidx@[k].cid@));
            }
            assert forall|i: int| 0 <= i < self.cidx@.len() && self.cidx@[i].cid@ == cid@ implies self.bloom.holds(cid@) by {
                assert(self.bloom.holds(self.cidx@[i].cid@));
            }
        }
        self.bloom.contains(cid, None, None)
    }

    /// The number of packs.
    pub fn num_packs(&self) -> (r: usize)
        requires
            self.wf(),
        ensures
            r == self.pack_count(),
    {
        self.packs.len()
    }

    /// The bytes of pack `id`, to be written to its file.
    pub fn pack_image(&self, id: usize) -> (r: Option<Vec<u8>>)
        ensures
            match r {
                Some(v) => id < self.pack_images().len() && v@ == self.pack_images()[id as int],
                None => id >= self.pack_images().len(),
            },
    {
        if id < self.packs.len() {
            let v = vstd::slice::slice_to_vec(self.packs[id].as_slice());
            Some(v)
        } else {
            None
        }
    }

    /// The content index as bytes: the 64-byte encodings of the records, in order.
    pub fn index_bytes(&self) -> (r: Vec<u8>)
        ensures
            r@ == encodings(self.records()),
            r@.len() == 64 * self.records().len(),
    {
        let mut out: Vec<u8> = Vec::new();
        let mut i: usize = 0;
        while i < self.cidx.len()
            invariant
                i <= self.cidx@.len(),
                out@ == encodings(self.cidx@.subrange(0, i as int)),
                out@.len() == 64 * i,
            decreases self.cidx.len() - i,
        {
            let enc = self.cidx[i].to_bytes();
            let mut k: usize = 0;
            let ghost base = out@;
            while k < 64
                invariant
                    k <= 64,
                    enc@.len() == 64,
                    out@ == base + enc@.subrange(0, k as int),
                decreases 64 - k,
            {
                out.push(enc[k]);
                assert(out@ =~= base + enc@.subrange(0, k + 1));
                k = k + 1;
            }
            proof {
                assert(enc@.subrange(0, 64) =~= enc@);
                assert(self.cidx@.subrange(0, i + 1).drop_last() =~= self.cidx@.subrange(0, i as int));
            }
            i = i + 1;
        }
        assert(self.cidx@.subrange(0, self.cidx@.len() as int) =~= self.cidx@);
        out
    }


    /// The index of the first usable record for `cid`, if any.
    fn find(&self, cid: &Cid) -> (r: Option<usize>)
        requires
            self.wf(),
        ensures
            match r {
                Some(i) => find_cir(self.records(), self.pack_images(), cid@) == i,
                None => find_cir(self.records(), self.pack_images(), cid@) == -1,
            },
    {
        let ghost imgs = self.pack_images();
        let mut i: usize = 0;
        while i < self.cidx.len()
            invariant
                i <= self.cidx@.len(),
                self.wf(),
                imgs == self.pack_images(),
                find_cir(self.cidx@.subrange(0, i as int), imgs, cid@) == -1,
            decreases self.cidx.len() - i,
        {
            proof {
                assert(self.cidx@.subrange(0, i + 1).drop_last() =~= self.cidx@.subrange(0, i as int));
                assert(usable(self.cidx@[i as int], imgs));
            }
            if Cid(self.cidx[i].cid).same(cid) {
                proof {
                    lemma_find_prefix(self.cidx@, imgs, cid@, i + 1);
                }
                return Some(i);
            }
            i = i + 1;
        }
        assert(self.cidx@.subrange(0, self.cidx@.len() as int) =~= self.cidx@);
        None
    }

    /// The bytes stored under `cid`. The Bloom hierarchy answers first; a miss there, or no
    /// usable record, is `NotFound`. With verification on, bytes whose digest is not `cid`
    /// give `IntegrityError`.
    pub fn get(&self, cid: &Cid) -> (r: Result<Vec<u8>, CasError>)
        requires
            self.wf(),
        ensures
            match r {
                Ok(v) => self.read(cid@) == Ok::<Seq<u8>, CasError>(v@),
                Err(e) => self.read(cid@) == Err::<Seq<u8>, CasError>(e),
            },
    {
        proof {
            lemma_find_range(self.cidx@, self.pack_images(), cid@);
        }
        if !self.bloom.contains(cid, None, None) {
            proof {
                let k = find_cir(self.cidx@, self.pack_images(), cid@);
                if k >= 0 {
                    assert(self.bloom.holds(self.cidx@[k].cid@));
                }
            }
            return Err(CasError::NotFound);
        }
        match self.find(cid) {
            None => Err(CasError::NotFound),
            Some(i) => {
                let rec = self.cidx[i];
                let pid = rec.pack_id as usize;
                proof {
                    assert(usable(self.cidx@[i as int], self.pack_images()));
                    assert(self.pack_images()[pid as int] == self.packs@[pid as int]@);
                }
                let image = self.packs[pid].as_slice();
                let ilen: usize = image.len();
                assert(rec.offset + rec.len <= ilen);
                let start = rec.offset as usize;
                let end: usize = start + rec.len as usize;
                let part = vstd::slice::slice_subrange(image, start, end);
                let v = vstd::slice::slice_to_vec(part);
                proof {
                    assert(self.pack_images()[pid as int] == self.packs@[pid as int]@);
                }
                if self.verify_on_read {
                    let h = Cid::hash(v.as_slice());
                    if !h.same(cid) {
                        return Err(CasError::IntegrityError);
                    }
                }
                Ok(v)
            },
        }
    }
}

/// What `put` stores, `get` returns: a store that holds `b` under its digest reads `b`
/// back under that digest, verification on or off.
pub proof fn lemma_round_trip(s: PackCAS, b: Seq<u8>)
    requires
        s.stored(blake3_of(b)) == Some(b),
    ensures
        s.read(blake3_of(b)) == Ok::<Seq<u8>, CasError>(b),
{
}

/// Equal bytes are stored under equal digests: a digest is a function of the bytes alone.
/// (That different bytes get different digests rests on the hash having no collisions,
/// which is not shown here.)
pub proof fn lemma_equal_bytes_equal_digest(b1: Seq<u8>, b2: Seq<u8>)
    requires
        b1 == b2,
    ensures
        blake3_of(b1) == blake3_of(b2),
{
}

/// The Bloom hierarchy has no false negatives: where it has never taken a digest, no
/// record of the index names that digest.
pub proof fn lemma_bloom_sound(s: PackCAS, d: Seq<u8>)
    requires
        s.wf(),
        !s.bloom_holds(d),
    ensures
        forall|i: int| 0 <= i < s.records().len() ==> #[trigger] s.records()[i].cid@ != d,
{
    assert forall|i: int| 0 <= i < s.records().len() implies #[trigger] s.records()[i].cid@ != d by {
        assert(s.bloom.holds(s.cidx@[i].cid@));
    }
}

proof fn lemma_find_same_usable(cidx: Seq<CidxRec>, p: Seq<Seq<u8>>, q: Seq<Seq<u8>>, d: Seq<u8>)
    requires
        forall|i: int| 0 <= i < cidx.len() ==> usable(#[trigger] cidx[i], p) && usable(cidx[i], q),
    ensures
        find_cir(cidx, p, d) == find_cir(cidx, q, d),
    decreases cidx.len(),
{
    if cidx.len() > 0 {
        assert forall|i: int| 0 <= i < cidx.drop_last().len() implies usable(#[trigger] cidx.drop_last()[i], p) && usable(
            cidx.drop_last()[i],
            q,
        ) by {
            assert(cidx.drop_last()[i] == cidx[i]);
        }
        lemma_find_same_usable(cidx.drop_last(), p, q, d);
        assert(usable(cidx[cidx.len() - 1], p));
    }
}

/// Appends `data` to the pack image at `pid`.
fn append_to_pack(packs: &mut Vec<Vec<u8>>, pid: usize, data: &[u8])
    requires
        pid < old(packs)@.len(),
    ensures
        final(packs)@.len() == old(packs)@.len(),
        final(packs)@[pid as int]@ == old(packs)@[pid as int]@ + data@,
        forall|i: int| 0 <= i < old(packs)@.len() && i != pid ==> final(packs)@[i] == old(packs)@[i],
{
    let mut image = packs.remove(pid);
    let ghost start = image@;
    let mut i: usize = 0;
    while i < data.len()
        invariant
            i <= data@.len(),
            image@ == start + data@.subrange(0, i as int),
        decreases data.len() - i,
    {
        image.push(data[i]);
        assert(image@ =~= start + data@.subrange(0, i + 1));
        i = i + 1;
    }
    assert(data@.subrange(0, data@.len() as int) =~= data@);
    packs.insert(pid, image);
}

} // verus!

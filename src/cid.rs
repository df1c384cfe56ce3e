//! Content digests, capabilities and query keys.

use vstd::math::{max, min};
use vstd::prelude::*;

verus! {

/// The 32-byte BLAKE3 digest of a byte sequence.
pub uninterp spec fn blake3_of(data: Seq<u8>) -> Seq<u8>;

/// Relies on blake3::hash: the BLAKE3/256 digest of `data`, which depends on the bytes alone.
#[verifier::external_body]
fn blake3_digest(data: &[u8]) -> (r: [u8; 32])
    ensures
        r@ == blake3_of(data@),
{
    *blake3::hash(data).as_bytes()
}

/// Content identifier: the 32-byte digest that names a stored object.
#[derive(Clone, Copy, Debug, Hash)]
pub struct Cid(pub [u8; 32]);

impl View for Cid {
    type V = Seq<u8>;

    open spec fn view(&self) -> Seq<u8> {
        self.0@
    }
}

impl Cid {
    /// Wraps 32 raw bytes as a digest.
    pub fn from_bytes(bytes: [u8; 32]) -> (r: Cid)
        ensures
            r@ == bytes@,
    {
        Cid(bytes)
    }

    /// The raw bytes of the digest.
    pub fn as_bytes(&self) -> (r: &[u8; 32])
        ensures
            r@ == self@,
    {
        &self.0
    }

    /// The digest of `data`.
    pub fn hash(data: &[u8]) -> (r: Cid)
        ensures
            r@ == blake3_of(data@),
    {
        Cid(blake3_digest(data))
    }

    /// Byte equality of two digests.
    pub fn same(&self, other: &Cid) -> (r: bool)
        ensures
            r == (self@ == other@),
    {
        let mut i: usize = 0;
        while i < 32
            invariant
                0 <= i <= 32,
                self@.len() == 32,
                other@.len() == 32,
                forall|j: int| 0 <= j < i ==> self@[j] == other@[j],
            decreases 32 - i,
        {
            if self.0[i] != other.0[i] {
                return false;
            }
            i = i + 1;
        }
        assert(self@ =~= other@);
        true
    }
}

impl PartialEq for Cid {
    fn eq(&self, other: &Cid) -> (r: bool) {
        self.same(other)
    }
}

impl Eq for Cid {}

impl vstd::std_specs::cmp::PartialEqSpecImpl for Cid {
    open spec fn obeys_eq_spec() -> bool {
        true
    }

    open spec fn eq_spec(&self, other: &Cid) -> bool {
        self@ == other@
    }
}


/// Relies on rand::random: sixteen bytes drawn from the thread-local generator; nothing is
/// known of their value.
#[verifier::external_body]
fn random_proof() -> (r: [u8; 16]) {
    rand::random::<[u8; 16]>()
}

/// A bounded authority token over the half-open address range `[base, base + len)`.
#[derive(Clone, Copy, Debug, PartialEq, Eq)]
pub struct Cap {
    pub base: u64,
    pub len: u64,
    pub perms: u32,
    pub proof: [u8; 16],
}

impl Cap {
    /// The addresses that the capability covers.
    pub open spec fn covers(self, addr: int) -> bool {
        self.base <= addr < self.base + self.len
    }

    /// A capability over `[base, base + len)` with the permission bits `perms` and a fresh
    /// random witness.
    pub fn new(base: u64, len: u64, perms: u32) -> (r: Cap)
        ensures
            r.base == base,
            r.len == len,
            r.perms == perms,
    {
        let proof = random_proof();
        Cap { base, len, perms, proof }
    }

    /// Whether `addr` lies in `[base, base + len)`.
    pub fn contains(&self, addr: u64) -> (r: bool)
        ensures
            r == self.covers(addr as int),
    {
        addr >= self.base && addr - self.base < self.len
    }

    /// Whether any of the bits of `perm` is granted.
    pub fn has_perm(&self, perm: u32) -> (r: bool)
        ensures
            r == (self.perms & perm != 0),
    {
        (self.perms & perm) != 0
    }

    /// The meet of two capabilities, as values.
    pub open spec fn meet_of(a: Cap, b: Cap) -> Cap {
        let base = max(a.base as int, b.base as int);
        let end = min(a.base + a.len, b.base + b.len);
        Cap {
            base: base as u64,
            len: if end > base { (end - base) as u64 } else { 0 },
            perms: a.perms & b.perms,
            proof: b.proof,
        }
    }

    /// The meet of two capabilities: the intersection of their ranges (empty, at the
    /// larger base, where they do not overlap), the conjunction of their permission bits,
    /// and the witness of `other`.
    pub fn meet(&self, other: &Cap) -> (r: Cap)
        ensures
            r.base == max(self.base as int, other.base as int),
            r.base + r.len == max(
                r.base as int,
                min(self.base + self.len, other.base + other.len),
            ),
            r.perms == self.perms & other.perms,
            r.proof == other.proof,
            r == Cap::meet_of(*self, *other),
            forall|a: int| r.covers(a) <==> self.covers(a) && other.covers(a),
    {
        let base = if self.base >= other.base { self.base } else { other.base };
        let end1 = self.base as u128 + self.len as u128;
        let end2 = other.base as u128 + other.len as u128;
        let end = if end1 <= end2 { end1 } else { end2 };
        let len: u64 = if end > base as u128 { (end - base as u128) as u64 } else { 0 };
        Cap { base, len, perms: self.perms & other.perms, proof: other.proof }
    }
}

/// The meet of two capabilities grants the permissions that both grant, over the
/// addresses that both cover.
pub proof fn lemma_meet_is_intersection(c1: Cap, c2: Cap)
    ensures
        Cap::meet_of(c1, c2).perms == c1.perms & c2.perms,
        forall|a: int| #[trigger] Cap::meet_of(c1, c2).covers(a) <==> c1.covers(a) && c2.covers(a),
{
}

/// A content identifier seen through a capability.
#[derive(Clone, Copy, Debug, PartialEq, Eq)]
pub struct CapCid {
    pub cap: Cap,
    pub cid: Cid,
}

impl CapCid {
    /// Pairs a digest with the capability that governs it.
    pub fn new(cid: Cid, cap: Cap) -> (r: CapCid)
        ensures
            r.cid == cid,
            r.cap == cap,
    {
        CapCid { cap, cid }
    }
}

/// The `n` low bytes of `v`, least significant first.
pub open spec fn le_bytes(v: nat, n: nat) -> Seq<u8>
    decreases n,
{
    if n == 0 {
        Seq::empty()
    } else {
        seq![(v % 256) as u8] + le_bytes(v / 256, (n - 1) as nat)
    }
}

pub proof fn lemma_le_bytes_len(v: nat, n: nat)
    ensures
        le_bytes(v, n).len() == n,
    decreases n,
{
    if n > 0 {
        lemma_le_bytes_len(v / 256, (n - 1) as nat);
    }
}

/// Appends the `n` low bytes of `v`, least significant first.
pub fn push_le(data: &mut Vec<u8>, v: u64, n: usize)
    ensures
        final(data)@ == old(data)@ + le_bytes(v as nat, n as nat),
{
    let mut x: u64 = v;
    let mut i: usize = 0;
    while i < n
        invariant
            i <= n,
            data@ + le_bytes(x as nat, (n - i) as nat) == old(data)@ + le_bytes(v as nat, n as nat),
        decreases n - i,
    {
        let ghost before = data@;
        data.push((x % 256) as u8);
        proof {
            assert(le_bytes(x as nat, (n - i) as nat) == seq![(x % 256) as u8] + le_bytes((x / 256) as nat, (n - i - 1) as nat));
            assert(data@ + le_bytes((x / 256) as nat, (n - i - 1) as nat) =~= before + le_bytes(x as nat, (n - i) as nat));
        }
        x = x / 256;
        i = i + 1;
    }
    assert(data@ + le_bytes(x as nat, 0) =~= data@);
}

/// A query key: the identity of a cached result.
#[derive(Clone, Copy, Debug)]
pub struct QKey {
    pub path_sig: Cid,
    pub class_sig: Cid,
    pub as_of: u64,
    pub cap_region: (u64, u64),
    pub type_part: u16,
}

/// A query key as plain values.
pub type QKeyView = (Seq<u8>, Seq<u8>, u64, (u64, u64), u16);

impl View for QKey {
    type V = QKeyView;

    open spec fn view(&self) -> QKeyView {
        (self.path_sig@, self.class_sig@, self.as_of, self.cap_region, self.type_part)
    }
}

/// The byte encoding of a query key: `path_sig | class_sig | as_of | region start |
/// region end | type_part`, integers little-endian.
pub open spec fn qkey_bytes(q: QKey) -> Seq<u8> {
    q.path_sig@ + q.class_sig@ + le_bytes(q.as_of as nat, 8) + le_bytes(q.cap_region.0 as nat, 8)
        + le_bytes(q.cap_region.1 as nat, 8) + le_bytes(q.type_part as nat, 2)
}

/// Two query keys name the same result when all five components agree.
pub open spec fn same_qkey(a: QKey, b: QKey) -> bool {
    a@ == b@
}

impl QKey {
    pub fn new(path_sig: Cid, class_sig: Cid, as_of: u64, cap_region: (u64, u64), type_part: u16) -> (r: QKey)
        ensures
            r.path_sig == path_sig,
            r.class_sig == class_sig,
            r.as_of == as_of,
            r.cap_region == cap_region,
            r.type_part == type_part,
    {
        QKey { path_sig, class_sig, as_of, cap_region, type_part }
    }

    /// The persistent byte encoding of the key (90 bytes).
    pub fn to_bytes(&self) -> (r: Vec<u8>)
        ensures
            r@ == qkey_bytes(*self),
    {
        let mut data: Vec<u8> = Vec::new();
        let mut i: usize = 0;
        while i < 32
            invariant
                i <= 32,
                self.path_sig@.len() == 32,
                data@ == self.path_sig@.subrange(0, i as int),
            decreases 32 - i,
        {
            data.push(self.path_sig.0[i]);
            assert(data@ =~= self.path_sig@.subrange(0, i + 1));
            i = i + 1;
        }
        let mut k: usize = 0;
        while k < 32
            invariant
                k <= 32,
                self.path_sig@.len() == 32,
                self.class_sig@.len() == 32,
                data@ == self.path_sig@ + self.class_sig@.subrange(0, k as int),
            decreases 32 - k,
        {
            data.push(self.class_sig.0[k]);
            assert(data@ =~= self.path_sig@ + self.class_sig@.subrange(0, k + 1));
            k = k + 1;
        }
        push_le(&mut data, self.as_of, 8);
        push_le(&mut data, self.cap_region.0, 8);
        push_le(&mut data, self.cap_region.1, 8);
        push_le(&mut data, self.type_part as u64, 2);
        assert(data@ =~= qkey_bytes(*self));
        data
    }

    /// The digest of the key's byte encoding.
    pub fn hash(&self) -> (r: Cid)
        ensures
            r@ == blake3_of(qkey_bytes(*self)),
    {
        let data = self.to_bytes();
        Cid::hash(data.as_slice())
    }

    /// Whether two keys agree in all five components.
    pub fn same(&self, other: &QKey) -> (r: bool)
        ensures
            r == same_qkey(*self, *other),
    {
        self.path_sig.same(&other.path_sig) && self.class_sig.same(&other.class_sig)
            && self.as_of == other.as_of && self.cap_region.0 == other.cap_region.0
            && self.cap_region.1 == other.cap_region.1 && self.type_part == other.type_part
    }
}

impl PartialEq for QKey {
    fn eq(&self, other: &QKey) -> (r: bool) {
        self.same(other)
    }
}

impl Eq for QKey {}

impl vstd::std_specs::cmp::PartialEqSpecImpl for QKey {
    open spec fn obeys_eq_spec() -> bool {
        true
    }

    open spec fn eq_spec(&self, other: &QKey) -> bool {
        same_qkey(*self, *other)
    }
}

/// Deterministic composition: an identity element and an associative combination.
pub trait Monoid: Sized {
    fn empty() -> Self;

    fn combine(self, other: Self) -> Self;
}

} // verus!

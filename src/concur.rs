//! Ownership of capability-guarded values, transactions, leases, the audit trace, and the
//! executor that brackets an operation with all of them.

use crate::cid::{Cap, CapCid, Cid};
use crate::perms::WRITE;
use vstd::prelude::*;
use vstd::string::StringSliceAdditionalSpecFns;

verus! {

broadcast use vstd::seq_lib::group_seq_properties;

/// Why a capability-checked operation failed.
#[derive(Clone, Copy, Debug, PartialEq, Eq, Structural)]
pub enum ConcurError {
    CapCheckFailed,
    OwnershipViolation,
    TransactionConflict,
    LeaseExpired,
    PermissionDenied,
}

/// A value owned together with the digest and capability that govern it.
pub struct OwnedCapCid<T> {
    cap_cid: CapCid,
    data: T,
}

impl<T> OwnedCapCid<T> {
    pub closed spec fn cap(&self) -> Cap {
        self.cap_cid.cap
    }

    pub closed spec fn cid(&self) -> Cid {
        self.cap_cid.cid
    }

    pub closed spec fn data(&self) -> T {
        self.data
    }

    pub fn new(data: T, cap: Cap, cid: Cid) -> (r: OwnedCapCid<T>)
        ensures
            r.cap() == cap,
            r.cid() == cid,
            r.data() == data,
    {
        OwnedCapCid { cap_cid: CapCid::new(cid, cap), data }
    }

    /// The capability and the value, shared.
    pub fn as_ref(&self) -> (r: (&Cap, &T))
        ensures
            *r.0 == self.cap(),
            *r.1 == self.data(),
    {
        (&self.cap_cid.cap, &self.data)
    }

    /// The capability and the value, for change.
    pub fn as_mut(&mut self) -> ((cap, data): (&mut Cap, &mut T))
        ensures
            *cap == old(self).cap(),
            *data == old(self).data(),
            final(self).cap() == *final(cap),
            final(self).data() == *final(data),
            final(self).cid() == old(self).cid(),
    {
        (&mut self.cap_cid.cap, &mut self.data)
    }

    /// The digest with its capability, and the value.
    pub fn into_parts(self) -> (r: (CapCid, T))
        ensures
            r.0.cap == self.cap(),
            r.0.cid == self.cid(),
            r.1 == self.data(),
    {
        (self.cap_cid, self.data)
    }

    /// Applies `f` to the value; the capability and digest stay as they are.
    pub fn cap_map<U, F: FnOnce(T) -> U>(self, f: F) -> (r: OwnedCapCid<U>)
        requires
            f.requires((self.data(),)),
        ensures
            r.cap() == self.cap(),
            r.cid() == self.cid(),
            f.ensures((self.data(),), r.data()),
    {
        let (cap_cid, data) = self.into_parts();
        let mapped = f(data);
        OwnedCapCid::new(mapped, cap_cid.cap, cap_cid.cid)
    }

    /// Applies `f` to the value and keeps what it returns, with its digest and with the meet
    /// of its capability and this one.
    pub fn cap_flat_map<U, F: FnOnce(T) -> OwnedCapCid<U>>(self, f: F) -> (r: OwnedCapCid<U>)
        requires
            f.requires((self.data(),)),
        ensures
            exists|inner: OwnedCapCid<U>|
                f.ensures((self.data(),), inner) && r.cap() == Cap::meet_of(self.cap(), inner.cap())
                    && r.cid() == inner.cid() && r.data() == inner.data(),
    {
        let (cap_cid, data) = self.into_parts();
        let inner = f(data);
        let ghost inner_view = inner;
        let (inner_cap_cid, inner_data) = inner.into_parts();
        let composed = cap_cid.cap.meet(&inner_cap_cid.cap);
        let r = OwnedCapCid::new(inner_data, composed, inner_cap_cid.cid);
        assert(f.ensures((self.data(),), inner_view));
        r
    }
}

/// Types that carry a value.
pub trait HasData {
    type Data;
}

impl<T> HasData for OwnedCapCid<T> {
    type Data = T;
}

/// A shared view of a value with its digest and capability.
pub struct BorrowCapCid<'a, T> {
    cap_cid: &'a CapCid,
    data: &'a T,
}

impl<'a, T> BorrowCapCid<'a, T> {
    pub closed spec fn view_cap_cid(&self) -> CapCid {
        *self.cap_cid
    }

    pub closed spec fn view_data(&self) -> T {
        *self.data
    }

    pub fn new(cap_cid: &'a CapCid, data: &'a T) -> (r: BorrowCapCid<'a, T>)
        ensures
            r.view_cap_cid() == *cap_cid,
            r.view_data() == *data,
    {
        BorrowCapCid { cap_cid, data }
    }

    pub fn cap(&self) -> (r: &Cap)
        ensures
            *r == self.view_cap_cid().cap,
    {
        &self.cap_cid.cap
    }

    pub fn cid(&self) -> (r: &Cid)
        ensures
            *r == self.view_cap_cid().cid,
    {
        &self.cap_cid.cid
    }

    pub fn data(&self) -> (r: &T)
        ensures
            *r == self.view_data(),
    {
        self.data
    }
}

/// An exclusive view of a value with its digest and capability, for change.
pub struct BorrowMutCapCid<'a, T> {
    cap_cid: &'a mut CapCid,
    data: &'a mut T,
}

impl<'a, T> BorrowMutCapCid<'a, T> {
    pub closed spec fn view_cap_cid(&self) -> CapCid {
        *self.cap_cid
    }

    pub closed spec fn view_data(&self) -> T {
        *self.data
    }

    pub fn new(cap_cid: &'a mut CapCid, data: &'a mut T) -> (r: BorrowMutCapCid<'a, T>)
        ensures
            r.view_cap_cid() == *old(cap_cid),
            r.view_data() == *old(data),
    {
        BorrowMutCapCid { cap_cid, data }
    }

    pub fn cap(&self) -> (r: &Cap)
        ensures
            *r == self.view_cap_cid().cap,
    {
        &self.cap_cid.cap
    }

    pub fn cap_mut(&mut self) -> (r: &mut Cap)
        ensures
            *r == old(self).view_cap_cid().cap,
            final(self).view_cap_cid().cap == *final(r),
            final(self).view_cap_cid().cid == old(self).view_cap_cid().cid,
            final(self).view_data() == old(self).view_data(),
    {
        &mut self.cap_cid.cap
    }

    pub fn cid(&self) -> (r: &Cid)
        ensures
            *r == self.view_cap_cid().cid,
    {
        &self.cap_cid.cid
    }

    pub fn data(&self) -> (r: &T)
        ensures
            *r == self.view_data(),
    {
        self.data
    }

    pub fn data_mut(&mut self) -> (r: &mut T)
        ensures
            *r == old(self).view_data(),
            final(self).view_data() == *final(r),
            final(self).view_cap_cid() == old(self).view_cap_cid(),
    {
        self.data
    }
}

/// The default time a transaction may run, in milliseconds.
pub const DEFAULT_TIMEOUT_MS: u64 = 5000;

/// The most entries the audit trace keeps.
pub const AUDIT_CAPACITY: usize = 1000;

/// The write permission that `cid` has among `entries`: the verdict of the first entry for
/// it, if there is one.
pub open spec fn first_grant(entries: Seq<CapCid>, cid: Seq<u8>) -> Option<bool>
    decreases entries.len(),
{
    if entries.len() == 0 {
        None
    } else if entries[0].cid@ == cid {
        Some(entries[0].cap.perms & WRITE != 0)
    } else {
        first_grant(entries.drop_first(), cid)
    }
}

fn scan_grant(entries: &Vec<CapCid>, cid: &Cid) -> (r: Option<bool>)
    ensures
        r == first_grant(entries@, cid@),
{
    let mut i: usize = 0;
    assert(entries@.subrange(0, entries@.len() as int) =~= entries@);
    while i < entries.len()
        invariant
            i <= entries@.len(),
            first_grant(entries@, cid@) == first_grant(entries@.subrange(i as int, entries@.len() as int), cid@),
        decreases entries.len() - i,
    {
        let ghost rest = entries@.subrange(i as int, entries@.len() as int);
        assert(rest.drop_first() =~= entries@.subrange(i + 1, entries@.len() as int));
        if entries[i].cid.same(cid) {
            return Some(entries[i].cap.has_perm(WRITE));
        }
        i = i + 1;
    }
    None
}

/// Where a transaction is in its life.
#[derive(Clone, Copy, Debug, PartialEq, Eq, Structural)]
pub enum TxnState {
    Active,
    Committed,
    Aborted,
    Expired,
}

/// What happens to a transaction: a timeout probe, a commit attempt (each with whether the
/// budget has run out), or an abort.
#[derive(Clone, Copy, Debug, PartialEq, Eq, Structural)]
pub enum TxnEvent {
    TimeoutProbe { expired: bool },
    Commit { expired: bool },
    Abort,
}

/// The state after `event`: an active transaction expires on a probe past its budget,
/// commits on a commit within it, and aborts on an abort or a commit past it. The other
/// states are final.
pub open spec fn txn_next(state: TxnState, event: TxnEvent) -> TxnState {
    match state {
        TxnState::Active => match event {
            TxnEvent::TimeoutProbe { expired } => if expired { TxnState::Expired } else { TxnState::Active },
            TxnEvent::Commit { expired } => if expired { TxnState::Aborted } else { TxnState::Committed },
            TxnEvent::Abort => TxnState::Aborted,
        },
        _ => state,
    }
}

/// The transaction state machine's step.
pub fn txn_step(state: TxnState, event: TxnEvent) -> (r: TxnState)
    ensures
        r == txn_next(state, event),
{
    match state {
        TxnState::Active => match event {
            TxnEvent::TimeoutProbe { expired } => if expired { TxnState::Expired } else { TxnState::Active },
            TxnEvent::Commit { expired } => if expired { TxnState::Aborted } else { TxnState::Committed },
            TxnEvent::Abort => TxnState::Aborted,
        },
        _ => state,
    }
}

/// A transaction: the resources it owns and those it has borrowed, and its time budget.
pub struct Transaction {
    id: u64,
    owned: Vec<CapCid>,
    borrowed: Vec<CapCid>,
    start_ms: u64,
    timeout_ms: u64,
}

impl Transaction {
    pub closed spec fn owned_view(&self) -> Seq<CapCid> {
        self.owned@
    }

    pub closed spec fn borrowed_view(&self) -> Seq<CapCid> {
        self.borrowed@
    }

    pub closed spec fn txn_id(&self) -> u64 {
        self.id
    }

    /// The transaction's id.
    pub fn id(&self) -> (r: u64)
        ensures
            r == self.txn_id(),
    {
        self.id
    }

    pub closed spec fn start(&self) -> u64 {
        self.start_ms
    }

    pub closed spec fn timeout(&self) -> u64 {
        self.timeout_ms
    }

    /// Whether the transaction has run longer than its budget at time `now_ms`.
    pub open spec fn expired_at(&self, now_ms: u64) -> bool {
        now_ms > self.start() && now_ms - self.start() > self.timeout()
    }

    /// A transaction that starts at `start_ms` with the default budget and holds nothing.
    pub fn new(id: u64, start_ms: u64) -> (r: Transaction)
        ensures
            r.txn_id() == id,
            r.start() == start_ms,
            r.timeout() == DEFAULT_TIMEOUT_MS,
            r.owned_view().len() == 0,
            r.borrowed_view().len() == 0,
    {
        Transaction { id, owned: Vec::new(), borrowed: Vec::new(), start_ms, timeout_ms: DEFAULT_TIMEOUT_MS }
    }

    /// Whether more than the budget has passed between the start and `now_ms`.
    pub fn is_expired(&self, now_ms: u64) -> (r: bool)
        ensures
            r == self.expired_at(now_ms),
    {
        now_ms > self.start_ms && now_ms - self.start_ms > self.timeout_ms
    }

    /// Takes ownership of a resource; its value is dropped, its digest and capability kept.
    pub fn add_owned<T>(&mut self, owned: OwnedCapCid<T>)
        ensures
            final(self).owned_view() == old(self).owned_view().push(CapCid { cap: owned.cap(), cid: owned.cid() }),
            final(self).borrowed_view() == old(self).borrowed_view(),
            final(self).txn_id() == old(self).txn_id(),
            final(self).start() == old(self).start(),
            final(self).timeout() == old(self).timeout(),
    {
        let (cap_cid, _data) = owned.into_parts();
        self.owned.push(cap_cid);
    }

    /// Records a borrowed resource.
    pub fn add_borrowed(&mut self, borrowed: CapCid)
        ensures
            final(self).borrowed_view() == old(self).borrowed_view().push(borrowed),
            final(self).owned_view() == old(self).owned_view(),
            final(self).txn_id() == old(self).txn_id(),
            final(self).start() == old(self).start(),
            final(self).timeout() == old(self).timeout(),
    {
        self.borrowed.push(borrowed);
    }

    /// Whether the transaction may write `target`: the first owned entry for it decides;
    /// failing one, the first borrowed entry; failing both, it may not.
    pub fn check_write_perm(&self, target: &Cid) -> (r: Result<(), ConcurError>)
        ensures
            r is Ok <==> match first_grant(self.owned_view(), target@) {
                Some(g) => g,
                None => first_grant(self.borrowed_view(), target@) == Some(true),
            },
            r is Err ==> r == Err::<(), ConcurError>(ConcurError::PermissionDenied),
    {
        match scan_grant(&self.owned, target) {
            Some(true) => Ok(()),
            Some(false) => Err(ConcurError::PermissionDenied),
            None => match scan_grant(&self.borrowed, target) {
                Some(true) => Ok(()),
                _ => Err(ConcurError::PermissionDenied),
            },
        }
    }
}

/// A lease on a resource.
#[derive(Debug)]
pub struct LeaseInfo {
    pub resource_id: u64,
    pub holder: String,
    pub permissions: u32,
    pub expires_at: u64,
    pub auto_renew: bool,
}

/// A lease as plain values.
pub type LeaseView = (u64, Seq<char>, u32, u64, bool);

impl View for LeaseInfo {
    type V = LeaseView;

    open spec fn view(&self) -> LeaseView {
        (self.resource_id, self.holder@, self.permissions, self.expires_at, self.auto_renew)
    }
}

impl LeaseInfo {
    /// A copy of the lease.
    pub fn copy(&self) -> (r: LeaseInfo)
        ensures
            r@ == self@,
    {
        LeaseInfo {
            resource_id: self.resource_id,
            holder: self.holder.clone(),
            permissions: self.permissions,
            expires_at: self.expires_at,
            auto_renew: self.auto_renew,
        }
    }
}

impl Clone for LeaseInfo {
    fn clone(&self) -> (r: LeaseInfo)
        ensures
            r@ == self@,
    {
        self.copy()
    }
}

/// The leases by id, a later grant under an id replacing an earlier one.
pub open spec fn lease_map(s: Seq<(u64, LeaseInfo)>) -> Map<u64, LeaseView>
    decreases s.len(),
{
    if s.len() == 0 {
        Map::empty()
    } else {
        lease_map(s.drop_last()).insert(s.last().0, s.last().1@)
    }
}

proof fn lemma_lease_map_has(s: Seq<(u64, LeaseInfo)>, id: u64)
    ensures
        lease_map(s).contains_key(id) <==> exists|i: int| 0 <= i < s.len() && #[trigger] s[i].0 == id,
    decreases s.len(),
{
    if s.len() > 0 {
        lemma_lease_map_has(s.drop_last(), id);
        if exists|i: int| 0 <= i < s.len() && #[trigger] s[i].0 == id {
            let i = choose|i: int| 0 <= i < s.len() && #[trigger] s[i].0 == id;
            if i < s.len() - 1 {
                assert(s.drop_last()[i].0 == id);
            }
        }
        if lease_map(s.drop_last()).contains_key(id) {
            let i = choose|i: int| 0 <= i < s.drop_last().len() && #[trigger] s.drop_last()[i].0 == id;
            assert(s[i].0 == id);
        }
    }
}

proof fn lemma_lease_map_at(s: Seq<(u64, LeaseInfo)>, i: int)
    requires
        0 <= i < s.len(),
        forall|a: int, b: int| 0 <= a < b < s.len() ==> #[trigger] s[a].0 != #[trigger] s[b].0,
    ensures
        lease_map(s).contains_key(s[i].0),
        lease_map(s)[s[i].0] == s[i].1@,
    decreases s.len(),
{
    if i < s.len() - 1 {
        lemma_lease_map_at(s.drop_last(), i);
        assert(s.drop_last()[i] == s[i]);
    }
}

proof fn lemma_lease_map_set(s: Seq<(u64, LeaseInfo)>, i: int, e: (u64, LeaseInfo))
    requires
        0 <= i < s.len(),
        e.0 == s[i].0,
        forall|a: int, b: int| 0 <= a < b < s.len() ==> #[trigger] s[a].0 != #[trigger] s[b].0,
    ensures
        lease_map(s.update(i, e)) == lease_map(s).insert(e.0, e.1@),
    decreases s.len(),
{
    let t = s.update(i, e);
    if i == s.len() - 1 {
        assert(t.drop_last() =~= s.drop_last());
    } else {
        lemma_lease_map_set(s.drop_last(), i, e);
        assert(t.drop_last() =~= s.drop_last().update(i, e));
        lemma_lease_map_has(s.drop_last(), e.0);
    }
    assert(lease_map(t) =~= lease_map(s).insert(e.0, e.1@));
}

proof fn lemma_lease_map_remove(s: Seq<(u64, LeaseInfo)>, i: int)
    requires
        0 <= i < s.len(),
        forall|a: int, b: int| 0 <= a < b < s.len() ==> #[trigger] s[a].0 != #[trigger] s[b].0,
    ensures
        lease_map(s.remove(i)) == lease_map(s).remove(s[i].0),
    decreases s.len(),
{
    let t = s.remove(i);
    if i == s.len() - 1 {
        assert(t =~= s.drop_last());
        lemma_lease_map_has(s.drop_last(), s[i].0);
    } else {
        lemma_lease_map_remove(s.drop_last(), i);
        assert(t.drop_last() =~= s.drop_last().remove(i));
        assert(t.last() == s.last());
    }
    assert(lease_map(t) =~= lease_map(s).remove(s[i].0));
}

/// The leases granted and not revoked.
pub struct LeaseManager {
    active_leases: Vec<(u64, LeaseInfo)>,
}

impl LeaseManager {
    pub closed spec fn wf(&self) -> bool {
        forall|a: int, b: int|
            0 <= a < b < self.active_leases@.len() ==> #[trigger] self.active_leases@[a].0
                != #[trigger] self.active_leases@[b].0
    }

    /// The leases by id.
    pub closed spec fn leases(&self) -> Map<u64, LeaseView> {
        lease_map(self.active_leases@)
    }

    pub fn new() -> (r: LeaseManager)
        ensures
            r.wf(),
            r.leases() == Map::<u64, LeaseView>::empty(),
    {
        LeaseManager { active_leases: Vec::new() }
    }

    fn find(&self, lease_id: u64) -> (r: Option<usize>)
        ensures
            match r {
                Some(i) => i < self.active_leases@.len() && self.active_leases@[i as int].0 == lease_id,
                None => forall|i: int| 0 <= i < self.active_leases@.len() ==> #[trigger] self.active_leases@[i].0 != lease_id,
            },
    {
        let mut i: usize = 0;
        while i < self.active_leases.len()
            invariant
                i <= self.active_leases@.len(),
                forall|j: int| 0 <= j < i ==> #[trigger] self.active_leases@[j].0 != lease_id,
            decreases self.active_leases.len() - i,
        {
            if self.active_leases[i].0 == lease_id {
                return Some(i);
            }
            i = i + 1;
        }
        None
    }

    /// Grants (or replaces) lease `lease_id`.
    pub fn grant_lease(&mut self, lease_id: u64, info: LeaseInfo) -> (r: Result<(), ConcurError>)
        requires
            old(self).wf(),
        ensures
            final(self).wf(),
            r is Ok,
            final(self).leases() == old(self).leases().insert(lease_id, info@),
    {
        match self.find(lease_id) {
            Some(i) => {
                proof {
                    lemma_lease_map_set(self.active_leases@, i as int, (lease_id, info));
                }
                let ghost iv = info@;
                self.active_leases.set(i, (lease_id, info));
            },
            None => {
                self.active_leases.push((lease_id, info));
                proof {
                    assert(self.active_leases@.drop_last() =~= old(self).active_leases@);
                }
            },
        }
        Ok(())
    }

    /// The lease `lease_id` where it is held and `now` is not past its expiry; otherwise
    /// `LeaseExpired`, and an expired lease stays in place.
    pub fn check_lease(&self, lease_id: u64, now: u64) -> (r: Result<LeaseInfo, ConcurError>)
        requires
            self.wf(),
        ensures
            match r {
                Ok(info) => self.leases().contains_key(lease_id) && self.leases()[lease_id] == info@
                    && now <= info.expires_at,
                Err(e) => e == ConcurError::LeaseExpired && (!self.leases().contains_key(lease_id)
                    || now > self.leases()[lease_id].3),
            },
    {
        proof {
            lemma_lease_map_has(self.active_leases@, lease_id);
        }
        match self.find(lease_id) {
            Some(i) => {
                proof {
                    lemma_lease_map_at(self.active_leases@, i as int);
                }
                if now > self.active_leases[i].1.expires_at {
                    return Err(ConcurError::LeaseExpired);
                }
                Ok(self.active_leases[i].1.copy())
            },
            None => Err(ConcurError::LeaseExpired),
        }
    }

    /// Revokes lease `lease_id`; revoking one that is not held changes nothing.
    pub fn revoke_lease(&mut self, lease_id: u64) -> (r: Result<(), ConcurError>)
        requires
            old(self).wf(),
        ensures
            final(self).wf(),
            r is Ok,
            final(self).leases() == old(self).leases().remove(lease_id),
    {
        proof {
            lemma_lease_map_has(self.active_leases@, lease_id);
        }
        match self.find(lease_id) {
            Some(i) => {
                proof {
                    lemma_lease_map_remove(self.active_leases@, i as int);
                }
                self.active_leases.remove(i);
            },
            None => {
                assert(self.leases() =~= self.leases().remove(lease_id));
            },
        }
        Ok(())
    }

    /// Moves the expiry of lease `lease_id` to `new_expiry` where the lease renews itself;
    /// `PermissionDenied` where it does not, `LeaseExpired` where it is not held.
    pub fn renew_lease(&mut self, lease_id: u64, new_expiry: u64) -> (r: Result<(), ConcurError>)
        requires
            old(self).wf(),
        ensures
            final(self).wf(),
            match r {
                Ok(()) => old(self).leases().contains_key(lease_id) && old(self).leases()[lease_id].4
                    && final(self).leases() == old(self).leases().insert(
                    lease_id,
                    (
                        old(self).leases()[lease_id].0,
                        old(self).leases()[lease_id].1,
                        old(self).leases()[lease_id].2,
                        new_expiry,
                        true,
                    ),
                ),
                Err(e) => final(self).leases() == old(self).leases() && if old(self).leases().contains_key(
                    lease_id,
                ) {
                    e == ConcurError::PermissionDenied && !old(self).leases()[lease_id].4
                } else {
                    e == ConcurError::LeaseExpired
                },
            },
    {
        proof {
            lemma_lease_map_has(self.active_leases@, lease_id);
        }
        match self.find(lease_id) {
            Some(i) => {
                proof {
                    lemma_lease_map_at(self.active_leases@, i as int);
                }
                if !self.active_leases[i].1.auto_renew {
                    return Err(ConcurError::PermissionDenied);
                }
                let mut info = self.active_leases[i].1.copy();
                info.expires_at = new_expiry;
                proof {
                    lemma_lease_map_set(self.active_leases@, i as int, (lease_id, info));
                }
                self.active_leases.set(i, (lease_id, info));
                Ok(())
            },
            None => Err(ConcurError::LeaseExpired),
        }
    }
}

/// The registered resources, the leases, and the next transaction id.
pub struct ResourceManager {
    resources: Vec<CapCid>,
    lease_manager: LeaseManager,
    next_txn_id: u64,
}

/// The capability registered for `cid`, the later registration winning.
pub open spec fn registered(s: Seq<CapCid>, cid: Seq<u8>) -> Option<Cap>
    decreases s.len(),
{
    if s.len() == 0 {
        None
    } else if s.last().cid@ == cid {
        Some(s.last().cap)
    } else {
        registered(s.drop_last(), cid)
    }
}

impl ResourceManager {
    pub closed spec fn wf(&self) -> bool {
        self.lease_manager.wf()
    }

    /// The capability of each registered digest.
    pub closed spec fn resources(&self) -> Seq<CapCid> {
        self.resources@
    }

    pub closed spec fn next_id(&self) -> u64 {
        self.next_txn_id
    }

    pub fn new() -> (r: ResourceManager)
        ensures
            r.wf(),
            r.next_id() == 1,
            r.resources().len() == 0,
    {
        ResourceManager { resources: Vec::new(), lease_manager: LeaseManager::new(), next_txn_id: 1 }
    }

    /// A new transaction, numbered with the next id and started at `now_ms`;
    /// `TransactionConflict` once the ids are spent.
    pub fn begin_transaction(&mut self, now_ms: u64) -> (r: Result<Transaction, ConcurError>)
        requires
            old(self).wf(),
        ensures
            final(self).wf(),
            final(self).resources() == old(self).resources(),
            match r {
                Ok(t) => t.txn_id() == old(self).next_id() && final(self).next_id() == old(self).next_id() + 1
                    && t.start() == now_ms && t.owned_view().len() == 0 && t.borrowed_view().len() == 0,
                Err(e) => e == ConcurError::TransactionConflict && old(self).next_id() == u64::MAX,
            },
    {
        if self.next_txn_id == u64::MAX {
            return Err(ConcurError::TransactionConflict);
        }
        let id = self.next_txn_id;
        self.next_txn_id = self.next_txn_id + 1;
        Ok(Transaction::new(id, now_ms))
    }

    /// Registers `cid` with capability `cap`, replacing an earlier registration.
    pub fn register_resource(&mut self, cid: Cid, cap: Cap) -> (r: Result<(), ConcurError>)
        requires
            old(self).wf(),
        ensures
            final(self).wf(),
            r is Ok,
            final(self).resources() == old(self).resources().push(CapCid { cap, cid }),
            final(self).next_id() == old(self).next_id(),
    {
        self.resources.push(CapCid::new(cid, cap));
        Ok(())
    }

    fn lookup(&self, cid: &Cid) -> (r: Option<CapCid>)
        ensures
            match r {
                Some(c) => registered(self.resources(), cid@) == Some(c.cap) && c.cid@ == cid@,
                None => registered(self.resources(), cid@) is None,
            },
    {
        let mut i: usize = self.resources.len();
        assert(self.resources@.subrange(0, i as int) =~= self.resources@);
        while i > 0
            invariant
                i <= self.resources@.len(),
                registered(self.resources@, cid@) == registered(self.resources@.subrange(0, i as int), cid@),
            decreases i,
        {
            let ghost pre = self.resources@.subrange(0, i as int);
            assert(pre.drop_last() =~= self.resources@.subrange(0, i - 1));
            if self.resources[i - 1].cid.same(cid) {
                return Some(self.resources[i - 1]);
            }
            i = i - 1;
        }
        None
    }

    /// Borrows `cid` for writing in `txn`: `OwnershipViolation` where it is not registered,
    /// `PermissionDenied` where its capability lacks WRITE; otherwise it joins the borrowed
    /// resources of `txn`.
    pub fn acquire_exclusive(&self, cid: &Cid, txn: &mut Transaction) -> (r: Result<(), ConcurError>)
        ensures
            match registered(self.resources(), cid@) {
                None => r == Err::<(), ConcurError>(ConcurError::OwnershipViolation) && *final(txn) == *old(txn),
                Some(cap) => if cap.perms & WRITE != 0 {
                    r is Ok && final(txn).borrowed_view() == old(txn).borrowed_view().push(CapCid { cap, cid: *cid })
                        && final(txn).owned_view() == old(txn).owned_view()
                        && final(txn).txn_id() == old(txn).txn_id()
                        && final(txn).start() == old(txn).start()
                        && final(txn).timeout() == old(txn).timeout()
                } else {
                    r == Err::<(), ConcurError>(ConcurError::PermissionDenied) && *final(txn) == *old(txn)
                },
            },
    {
        match self.lookup(cid) {
            None => Err(ConcurError::OwnershipViolation),
            Some(c) => {
                if !c.cap.has_perm(WRITE) {
                    return Err(ConcurError::PermissionDenied);
                }
                txn.add_borrowed(CapCid::new(*cid, c.cap));
                Ok(())
            },
        }
    }

    /// Borrows `cid` for reading in `txn`: `OwnershipViolation` where it is not registered.
    pub fn acquire_shared(&self, cid: &Cid, txn: &mut Transaction) -> (r: Result<(), ConcurError>)
        ensures
            match registered(self.resources(), cid@) {
                None => r == Err::<(), ConcurError>(ConcurError::OwnershipViolation) && *final(txn) == *old(txn),
                Some(cap) => r is Ok && final(txn).borrowed_view() == old(txn).borrowed_view().push(CapCid { cap, cid: *cid })
                    && final(txn).owned_view() == old(txn).owned_view()
                    && final(txn).txn_id() == old(txn).txn_id()
                    && final(txn).start() == old(txn).start()
                    && final(txn).timeout() == old(txn).timeout(),
            },
    {
        match self.lookup(cid) {
            None => Err(ConcurError::OwnershipViolation),
            Some(c) => {
                txn.add_borrowed(CapCid::new(*cid, c.cap));
                Ok(())
            },
        }
    }

    /// Commits `txn` at `now_ms`: `TransactionConflict` where it has expired.
    pub fn commit_transaction(&self, txn: Transaction, now_ms: u64) -> (r: Result<(), ConcurError>)
        ensures
            r is Ok <==> !txn.expired_at(now_ms),
            r is Err ==> r == Err::<(), ConcurError>(ConcurError::TransactionConflict),
    {
        if txn.is_expired(now_ms) {
            return Err(ConcurError::TransactionConflict);
        }
        Ok(())
    }

    /// Aborts `txn`; what it held is released with it.
    pub fn abort_transaction(&self, txn: Transaction) -> (r: Result<(), ConcurError>)
        ensures
            r is Ok,
    {
        Ok(())
    }
}

/// One entry of the audit trace.
#[derive(Debug)]
pub struct CapTraceEntry {
    pub timestamp: u64,
    pub operation: String,
    pub actor: String,
    pub resource: Cid,
    pub capability: Cap,
    pub success: bool,
    pub details: String,
}

/// An audit entry as plain values.
pub type TraceEntryView = (u64, Seq<char>, Seq<char>, Seq<u8>, Cap, bool, Seq<char>);

impl View for CapTraceEntry {
    type V = TraceEntryView;

    open spec fn view(&self) -> TraceEntryView {
        (self.timestamp, self.operation@, self.actor@, self.resource@, self.capability, self.success, self.details@)
    }
}

impl CapTraceEntry {
    pub fn copy(&self) -> (r: CapTraceEntry)
        ensures
            r@ == self@,
    {
        CapTraceEntry {
            timestamp: self.timestamp,
            operation: self.operation.clone(),
            actor: self.actor.clone(),
            resource: self.resource,
            capability: self.capability,
            success: self.success,
            details: self.details.clone(),
        }
    }
}

/// The audit trace after appending `e` to `log`: the oldest entry gives way once the trace
/// holds more than `AUDIT_CAPACITY`.
pub open spec fn ring_push(log: Seq<TraceEntryView>, e: TraceEntryView) -> Seq<TraceEntryView> {
    if log.len() + 1 > AUDIT_CAPACITY {
        log.push(e).drop_first()
    } else {
        log.push(e)
    }
}

pub open spec fn entry_views(s: Seq<CapTraceEntry>) -> Seq<TraceEntryView> {
    s.map_values(|e: CapTraceEntry| e@)
}

/// The bounded audit trace of capability operations.
pub struct CapTracer {
    trace_log: Vec<CapTraceEntry>,
}

impl CapTracer {
    pub closed spec fn log(&self) -> Seq<TraceEntryView> {
        entry_views(self.trace_log@)
    }

    pub fn new() -> (r: CapTracer)
        ensures
            r.log().len() == 0,
    {
        CapTracer { trace_log: Vec::new() }
    }

    /// Appends an entry stamped `timestamp`, dropping the oldest past `AUDIT_CAPACITY`.
    pub fn record_operation(
        &mut self,
        operation: &str,
        actor: &str,
        resource: &Cid,
        capability: &Cap,
        success: bool,
        details: &str,
        timestamp: u64,
    )
        ensures
            final(self).log() == ring_push(
                old(self).log(),
                (timestamp, operation@, actor@, resource@, *capability, success, details@),
            ),
    {
        let entry = CapTraceEntry {
            timestamp,
            operation: operation.to_string(),
            actor: actor.to_string(),
            resource: *resource,
            capability: *capability,
            success,
            details: details.to_string(),
        };
        let ghost ev = entry@;
        self.trace_log.push(entry);
        assert(entry_views(self.trace_log@) =~= old(self).log().push(ev));
        if self.trace_log.len() > AUDIT_CAPACITY {
            let ghost before = self.trace_log@;
            self.trace_log.remove(0);
            assert(entry_views(self.trace_log@) =~= entry_views(before).drop_first());
        }
    }

    /// The entries about `resource`, oldest first.
    pub fn get_audit_trail(&self, resource: &Cid) -> (r: Vec<CapTraceEntry>)
        ensures
            entry_views(r@) == self.log().filter(|e: TraceEntryView| e.3 == resource@),
    {
        let mut out: Vec<CapTraceEntry> = Vec::new();
        let mut i: usize = 0;
        while i < self.trace_log.len()
            invariant
                i <= self.trace_log@.len(),
                entry_views(out@) == entry_views(self.trace_log@.subrange(0, i as int)).filter(
                    |e: TraceEntryView| e.3 == resource@,
                ),
            decreases self.trace_log.len() - i,
        {
            let e = &self.trace_log[i];
            proof {
                assert(entry_views(self.trace_log@.subrange(0, i + 1)) =~= entry_views(self.trace_log@.subrange(0, i as int)).push(e@));
                entry_views(self.trace_log@.subrange(0, i as int)).lemma_filter_push(e@, |x: TraceEntryView| x.3 == resource@);
            }
            if e.resource.same(resource) {
                let ghost before = out@;
                out.push(e.copy());
                assert(entry_views(out@) =~= entry_views(before).push(e@));
            }
            i = i + 1;
        }
        assert(self.trace_log@.subrange(0, self.trace_log@.len() as int) =~= self.trace_log@);
        out
    }

    /// The entries recorded for `actor` (same UTF-8 bytes), oldest first.
    pub fn get_actor_operations(&self, actor: &str) -> (r: Vec<CapTraceEntry>)
        ensures
            entry_views(r@) == self.log().filter(|e: TraceEntryView| same_chars(e.2, actor@)),
    {
        let ab = actor.as_bytes();
        let mut out: Vec<CapTraceEntry> = Vec::new();
        let mut i: usize = 0;
        while i < self.trace_log.len()
            invariant
                i <= self.trace_log@.len(),
                ab@ == actor.spec_bytes(),
                entry_views(out@) == entry_views(self.trace_log@.subrange(0, i as int)).filter(
                    |e: TraceEntryView| same_chars(e.2, actor@),
                ),
            decreases self.trace_log.len() - i,
        {
            let e = &self.trace_log[i];
            proof {
                assert(entry_views(self.trace_log@.subrange(0, i + 1)) =~= entry_views(self.trace_log@.subrange(0, i as int)).push(e@));
                entry_views(self.trace_log@.subrange(0, i as int)).lemma_filter_push(e@, |x: TraceEntryView| same_chars(x.2, actor@));
            }
            if crate::graph::bytes_equal(e.actor.as_str().as_bytes(), ab) {
                let ghost before = out@;
                out.push(e.copy());
                assert(entry_views(out@) =~= entry_views(before).push(e@));
            }
            i = i + 1;
        }
        assert(self.trace_log@.subrange(0, self.trace_log@.len() as int) =~= self.trace_log@);
        out
    }
}

/// Whether two texts have the same UTF-8 bytes.
pub open spec fn same_chars(a: Seq<char>, b: Seq<char>) -> bool {
    vstd::utf8::encode_utf8(a) == vstd::utf8::encode_utf8(b)
}

/// Runs operations inside a transaction that holds the target resource, and records each
/// in the audit trace.
pub struct SafeExecutor {
    resource_manager: ResourceManager,
    tracer: CapTracer,
}

/// What the audit trace says of an outcome.
pub open spec fn outcome_details(ok: bool) -> Seq<char> {
    if ok {
        "success"@
    } else {
        "failed"@
    }
}

impl SafeExecutor {
    pub closed spec fn wf(&self) -> bool {
        self.resource_manager.wf()
    }

    pub closed spec fn manager(&self) -> ResourceManager {
        self.resource_manager
    }

    pub closed spec fn log(&self) -> Seq<TraceEntryView> {
        self.tracer.log()
    }

    pub fn new() -> (r: SafeExecutor)
        ensures
            r.wf(),
            r.log().len() == 0,
            r.manager().resources().len() == 0,
            r.manager().next_id() == 1,
    {
        SafeExecutor { resource_manager: ResourceManager::new(), tracer: CapTracer::new() }
    }

    /// Registers `cid` with capability `cap`.
    pub fn register_resource(&mut self, cid: Cid, cap: Cap)
        requires
            old(self).wf(),
        ensures
            final(self).wf(),
            final(self).manager().resources() == old(self).manager().resources().push(CapCid { cap, cid }),
            final(self).manager().next_id() == old(self).manager().next_id(),
            final(self).log() == old(self).log(),
    {
        let _ = self.resource_manager.register_resource(cid, cap);
    }

    /// The audit trace.
    pub fn tracer(&self) -> (r: &CapTracer)
        ensures
            r.log() == self.log(),
    {
        &self.tracer
    }

    /// Runs `op` on behalf of `actor` against `resource` at time `now_ms`: begins a
    /// transaction, borrows the resource shared (`OwnershipViolation` where it is not
    /// registered), runs `op`, records (actor, operation, resource, capability, outcome) in
    /// the audit trace, and commits on success or aborts on failure. The result is that of
    /// `op`.
    pub fn execute_safe<T, F: FnOnce() -> Result<T, ConcurError>>(
        &mut self,
        actor: &str,
        operation: &str,
        resource: &Cid,
        now_ms: u64,
        op: F,
    ) -> (r: Result<T, ConcurError>)
        requires
            old(self).wf(),
            op.requires(()),
        ensures
            final(self).wf(),
            final(self).manager().resources() == old(self).manager().resources(),
            if old(self).manager().next_id() == u64::MAX {
                r == Err::<T, ConcurError>(ConcurError::TransactionConflict) && final(self).log() == old(self).log()
            } else {
                match registered(old(self).manager().resources(), resource@) {
                    None => r == Err::<T, ConcurError>(ConcurError::OwnershipViolation) && final(self).log() == old(self).log(),
                    Some(cap) => op.ensures((), r) && final(self).log() == ring_push(
                        old(self).log(),
                        (now_ms, operation@, actor@, resource@, cap, r is Ok, outcome_details(r is Ok)),
                    ),
                }
            },
    {
        let mut txn = match self.resource_manager.begin_transaction(now_ms) {
            Ok(t) => t,
            Err(e) => return Err(e),
        };
        match self.resource_manager.acquire_shared(resource, &mut txn) {
            Ok(()) => {},
            Err(e) => return Err(e),
        }
        let cap_cid = match self.resource_manager.lookup(resource) {
            Some(c) => c,
            None => return Err(ConcurError::OwnershipViolation),
        };
        let result = op();
        let success = result.is_ok();
        let details = if success { "success" } else { "failed" };
        proof {
            reveal_strlit("success");
            reveal_strlit("failed");
        }
        self.tracer.record_operation(operation, actor, resource, &cap_cid.cap, success, details, now_ms);
        match result {
            Ok(value) => {
                match self.resource_manager.commit_transaction(txn, now_ms) {
                    Ok(()) => Ok(value),
                    Err(e) => Err(e),
                }
            },
            Err(e) => {
                let _ = self.resource_manager.abort_transaction(txn);
                Err(e)
            },
        }
    }
}

} // verus!

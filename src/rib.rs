//! The routing table: live records per name plus tombstones, with the CRDT
//! operations merge (add-wins union), update (same-origin overwrite) and
//! delete (tombstone).
use vstd::prelude::*;
use multimap::MultiMap;
use crate::record::{same_fact, GDPName, GDPNameRecord, Payload};
use crate::table_map::{
    table_contents, table_get_vec, table_insert, table_insert_many, table_new, table_remove,
};

verus! {

/// A retained mark that the fact `payload` of name `name` was deleted at
/// logical time `timestamp`.
#[derive(Clone, Copy, Debug, PartialEq, Eq, Structural)]
pub struct Tombstone {
    pub name: u32,
    pub payload: Option<Payload>,
    pub timestamp: u64,
}

/// The abstract state of a routing table.
pub struct RibView {
    /// For each name present, its live records in arrival order.
    pub live: Map<u32, Seq<GDPNameRecord>>,
    /// Every tombstone retained.
    pub tombstones: Seq<Tombstone>,
}

/// The live records of `name`: none when the name is absent.
pub open spec fn records_of(live: Map<u32, Seq<GDPNameRecord>>, name: u32) -> Seq<GDPNameRecord> {
    if live.contains_key(name) {
        live[name]
    } else {
        Seq::empty()
    }
}

/// A tombstone for `(name, payload)` at time `ts` or later exists: a record
/// of that fact stamped `ts` is superseded by the delete.
pub open spec fn blocked(tombs: Seq<Tombstone>, name: u32, payload: Option<Payload>, ts: u64) -> bool {
    exists|i: int|
        0 <= i < tombs.len() && #[trigger] tombs[i].name == name && tombs[i].payload == payload
            && tombs[i].timestamp >= ts
}

/// `s` holds a record that states the same fact as `r`.
pub open spec fn has_fact(s: Seq<GDPNameRecord>, r: GDPNameRecord) -> bool {
    exists|i: int| 0 <= i < s.len() && same_fact(#[trigger] s[i], r)
}

/// `s` holds a record from `origin` stamped `ts` or later.
pub open spec fn has_newer_from(s: Seq<GDPNameRecord>, origin: u64, ts: u64) -> bool {
    exists|i: int| 0 <= i < s.len() && #[trigger] s[i].origin == origin && s[i].timestamp >= ts
}

/// Records that a delete of `(payload, ts)` keeps.
pub open spec fn survives_delete(payload: Option<Payload>, ts: u64) -> spec_fn(GDPNameRecord) -> bool {
    |r: GDPNameRecord| !(r.payload == payload && r.timestamp <= ts)
}

/// Records that an update from `origin` keeps.
pub open spec fn other_origin(origin: u64) -> spec_fn(GDPNameRecord) -> bool {
    |r: GDPNameRecord| r.origin != origin
}

/// Seeding: the record is appended, unconditionally.
pub open spec fn put_spec(v: RibView, name: u32, rec: GDPNameRecord) -> RibView {
    RibView { live: v.live.insert(name, records_of(v.live, name).push(rec)), tombstones: v.tombstones }
}

/// Whether a merge of `rec` into `name` adds it: no tombstone supersedes it
/// and the fact is not already live.
pub open spec fn merge_adds(v: RibView, name: u32, rec: GDPNameRecord) -> bool {
    !blocked(v.tombstones, name, rec.payload, rec.timestamp) && !has_fact(records_of(v.live, name), rec)
}

/// The CRDT join of one record into the table.
pub open spec fn merge_spec(v: RibView, name: u32, rec: GDPNameRecord) -> RibView {
    if merge_adds(v, name, rec) {
        put_spec(v, name, rec)
    } else {
        v
    }
}

/// Whether an update of `name` by `rec` applies: no tombstone supersedes it
/// and no record of the same origin is as recent.
pub open spec fn update_applies(v: RibView, name: u32, rec: GDPNameRecord) -> bool {
    !blocked(v.tombstones, name, rec.payload, rec.timestamp)
        && !has_newer_from(records_of(v.live, name), rec.origin, rec.timestamp)
}

/// Same-origin overwrite: the origin's older records give way to `rec`.
pub open spec fn update_spec(v: RibView, name: u32, rec: GDPNameRecord) -> RibView {
    if update_applies(v, name, rec) {
        RibView {
            live: v.live.insert(name, records_of(v.live, name).filter(other_origin(rec.origin)).push(rec)),
            tombstones: v.tombstones,
        }
    } else {
        v
    }
}

/// Delete of fact `payload` of `name` at time `ts`: the matching records
/// stamped `ts` or earlier leave, the name becomes known (present, perhaps
/// with no records), and a tombstone is kept unless one as recent is there
/// already.
pub open spec fn delete_spec(v: RibView, name: u32, payload: Option<Payload>, ts: u64) -> RibView {
    RibView {
        live: v.live.insert(name, records_of(v.live, name).filter(survives_delete(payload, ts))),
        tombstones: if blocked(v.tombstones, name, payload, ts) {
            v.tombstones
        } else {
            v.tombstones.push(Tombstone { name, payload, timestamp: ts })
        },
    }
}

/// Some tombstone names `name`.
pub open spec fn has_tombstone(tombs: Seq<Tombstone>, name: u32) -> bool {
    exists|i: int| 0 <= i < tombs.len() && #[trigger] tombs[i].name == name
}

/// No tombstone covers any record of `s`, taken as records of `name`.
pub open spec fn uncovered(tombs: Seq<Tombstone>, name: u32, s: Seq<GDPNameRecord>) -> bool {
    forall|j: int| 0 <= j < s.len() ==> !blocked(tombs, name, #[trigger] s[j].payload, s[j].timestamp)
}

/// A well-formed table holds a name exactly when the name has live records
/// or a tombstone, and no tombstone covers a live record.
pub open spec fn rib_wf(v: RibView) -> bool {
    &&& forall|n: u32|
        #[trigger] v.live.contains_key(n) ==> (v.live[n].len() > 0 || has_tombstone(v.tombstones, n))
            && uncovered(v.tombstones, n, v.live[n])
    &&& forall|i: int| 0 <= i < v.tombstones.len() ==> v.live.contains_key(#[trigger] v.tombstones[i].name)
}

/// One more tombstone covers what the others covered, and what it covers
/// itself.
proof fn lemma_blocked_push(tombs: Seq<Tombstone>, t: Tombstone, name: u32, payload: Option<Payload>, ts: u64)
    ensures
        blocked(tombs.push(t), name, payload, ts) == (blocked(tombs, name, payload, ts) || (t.name == name
            && t.payload == payload && t.timestamp >= ts)),
{
    let w = tombs.push(t);
    if blocked(tombs, name, payload, ts) {
        let j = choose|j: int|
            0 <= j < tombs.len() && #[trigger] tombs[j].name == name && tombs[j].payload == payload
                && tombs[j].timestamp >= ts;
        assert(w[j] == tombs[j]);
    }
    if t.name == name && t.payload == payload && t.timestamp >= ts {
        assert(w[tombs.len() as int] == t);
    }
    if blocked(w, name, payload, ts) {
        let j = choose|j: int|
            0 <= j < w.len() && #[trigger] w[j].name == name && w[j].payload == payload && w[j].timestamp >= ts;
        if j < tombs.len() {
            assert(w[j] == tombs[j]);
        }
    }
}

/// Appending a record that no tombstone covers keeps a sequence uncovered.
proof fn lemma_uncovered_push(tombs: Seq<Tombstone>, name: u32, s: Seq<GDPNameRecord>, x: GDPNameRecord)
    requires
        uncovered(tombs, name, s),
        !blocked(tombs, name, x.payload, x.timestamp),
    ensures
        uncovered(tombs, name, s.push(x)),
{
    assert forall|j: int| 0 <= j < s.push(x).len() implies !blocked(tombs, name, #[trigger] s.push(x)[j].payload, s.push(x)[j].timestamp) by {
        if j < s.len() {
            assert(s.push(x)[j] == s[j]);
        }
    }
}

/// Filtering keeps a sequence uncovered.
proof fn lemma_uncovered_filter(tombs: Seq<Tombstone>, name: u32, s: Seq<GDPNameRecord>, pred: spec_fn(GDPNameRecord) -> bool)
    requires
        uncovered(tombs, name, s),
    ensures
        uncovered(tombs, name, s.filter(pred)),
{
    let f = s.filter(pred);
    assert forall|j: int| 0 <= j < f.len() implies !blocked(tombs, name, #[trigger] f[j].payload, f[j].timestamp) by {
        assert(f.contains(f[j]));
        s.lemma_filter_contains_rev(pred, f[j]);
        let k = choose|k: int| 0 <= k < s.len() && s[k] == f[j];
        assert(!blocked(tombs, name, s[k].payload, s[k].timestamp));
    }
}

/// Giving a name a non-empty sequence of uncovered records keeps a table
/// well formed.
proof fn lemma_wf_insert_nonempty(v: RibView, name: u32, s: Seq<GDPNameRecord>)
    requires
        rib_wf(v),
        s.len() > 0,
        uncovered(v.tombstones, name, s),
    ensures
        rib_wf(RibView { live: v.live.insert(name, s), tombstones: v.tombstones }),
{
    let w = RibView { live: v.live.insert(name, s), tombstones: v.tombstones };
    assert forall|n: u32| #[trigger] w.live.contains_key(n) implies (w.live[n].len() > 0 || has_tombstone(w.tombstones, n))
        && uncovered(w.tombstones, n, w.live[n]) by {
        if n != name {
            assert(v.live.contains_key(n));
        }
    }
    assert forall|i: int| 0 <= i < w.tombstones.len() implies w.live.contains_key(#[trigger] w.tombstones[i].name) by {
        assert(v.live.contains_key(v.tombstones[i].name));
    }
}

/// A delete keeps a table well formed: the tombstone it adds (or finds)
/// accounts for the name, and it removes every record it covers.
proof fn lemma_wf_delete(v: RibView, name: u32, payload: Option<Payload>, ts: u64)
    requires
        rib_wf(v),
    ensures
        rib_wf(delete_spec(v, name, payload, ts)),
{
    let w = delete_spec(v, name, payload, ts);
    let t = Tombstone { name, payload, timestamp: ts };
    let pred = survives_delete(payload, ts);
    // the delete's tombstone covers exactly what `(name, payload, ts)` covers
    assert forall|n: u32, p: Option<Payload>, x: u64| blocked(w.tombstones, n, p, x) == (blocked(v.tombstones, n, p, x) || (
        n == name && p == payload && x <= ts)) by {
        lemma_blocked_push(v.tombstones, t, n, p, x);
        if blocked(v.tombstones, name, payload, ts) && n == name && p == payload && x <= ts {
            let j = choose|j: int|
                0 <= j < v.tombstones.len() && #[trigger] v.tombstones[j].name == name
                    && v.tombstones[j].payload == payload && v.tombstones[j].timestamp >= ts;
            assert(v.tombstones[j].name == n);
        }
    }
    assert forall|n: u32| #[trigger] w.live.contains_key(n) implies (w.live[n].len() > 0 || has_tombstone(w.tombstones, n))
        && uncovered(w.tombstones, n, w.live[n]) by {
        if n == name {
            if blocked(v.tombstones, name, payload, ts) {
                let j = choose|j: int|
                    0 <= j < v.tombstones.len() && #[trigger] v.tombstones[j].name == name
                        && v.tombstones[j].payload == payload && v.tombstones[j].timestamp >= ts;
                assert(w.tombstones[j].name == n);
            } else {
                assert(w.tombstones[v.tombstones.len() as int].name == n);
            }
            let s = records_of(v.live, name);
            let f = s.filter(pred);
            assert forall|j: int| 0 <= j < f.len() implies !blocked(w.tombstones, n, #[trigger] f[j].payload, f[j].timestamp) by {
                assert(f.contains(f[j]));
                s.lemma_filter_contains_rev(pred, f[j]);
                let k = choose|k: int| 0 <= k < s.len() && s[k] == f[j];
                assert(v.live.contains_key(name));
                assert(!blocked(v.tombstones, name, s[k].payload, s[k].timestamp));
                s.lemma_filter_pred(pred, j);
            }
        } else {
            assert(v.live.contains_key(n));
            if v.live[n].len() == 0 {
                let j = choose|j: int| 0 <= j < v.tombstones.len() && #[trigger] v.tombstones[j].name == n;
                assert(w.tombstones[j] == v.tombstones[j]);
            }
            assert(uncovered(v.tombstones, n, v.live[n]));
        }
    }
    assert forall|i: int| 0 <= i < w.tombstones.len() implies w.live.contains_key(#[trigger] w.tombstones[i].name) by {
        if i < v.tombstones.len() {
            assert(w.tombstones[i] == v.tombstones[i]);
            assert(v.live.contains_key(v.tombstones[i].name));
        }
    }
}

/// A routing information base: names mapped to their live records, with
/// the tombstones that keep deletes from being undone by stale traffic.
pub struct RoutingInformationBase {
    routing_table: MultiMap<u32, GDPNameRecord>,
    tombstones: Vec<Tombstone>,
}

impl View for RoutingInformationBase {
    type V = RibView;

    closed spec fn view(&self) -> RibView {
        RibView { live: table_contents(self.routing_table), tombstones: self.tombstones@ }
    }
}

/// Whether `s` holds a record of the same fact as `r`.
fn contains_fact(s: &Vec<GDPNameRecord>, r: &GDPNameRecord) -> (b: bool)
    ensures
        b == has_fact(s@, *r),
{
    let mut i: usize = 0;
    while i < s.len()
        invariant
            i <= s.len(),
            forall|j: int| 0 <= j < i ==> !same_fact(#[trigger] s@[j], *r),
        decreases s.len() - i,
    {
        let x = &s[i];
        if x.payload == r.payload && x.origin == r.origin && x.timestamp == r.timestamp {
            return true;
        }
        i += 1;
    }
    false
}

/// Whether `s` holds a record from `origin` stamped `ts` or later.
fn contains_newer_from(s: &Vec<GDPNameRecord>, origin: u64, ts: u64) -> (b: bool)
    ensures
        b == has_newer_from(s@, origin, ts),
{
    let mut i: usize = 0;
    while i < s.len()
        invariant
            i <= s.len(),
            forall|j: int| 0 <= j < i ==> !(#[trigger] s@[j].origin == origin && s@[j].timestamp >= ts),
        decreases s.len() - i,
    {
        if s[i].origin == origin && s[i].timestamp >= ts {
            return true;
        }
        i += 1;
    }
    false
}

/// The records of `s` that survive a delete of `(payload, ts)`, in order.
fn without_deleted(s: &Vec<GDPNameRecord>, payload: Option<Payload>, ts: u64) -> (out: Vec<GDPNameRecord>)
    ensures
        out@ == s@.filter(survives_delete(payload, ts)),
{
    let mut out: Vec<GDPNameRecord> = Vec::new();
    let mut i: usize = 0;
    while i < s.len()
        invariant
            i <= s.len(),
            out@ == s@.subrange(0, i as int).filter(survives_delete(payload, ts)),
        decreases s.len() - i,
    {
        let x = s[i];
        proof {
            assert(s@.subrange(0, i as int + 1).drop_last() =~= s@.subrange(0, i as int));
            reveal(Seq::filter);
        }
        if !(x.payload == payload && x.timestamp <= ts) {
            out.push(x);
        }
        i += 1;
    }
    assert(s@.subrange(0, s.len() as int) =~= s@);
    out
}

/// The records of `s` from origins other than `origin`, in order.
fn without_origin(s: &Vec<GDPNameRecord>, origin: u64) -> (out: Vec<GDPNameRecord>)
    ensures
        out@ == s@.filter(other_origin(origin)),
{
    let mut out: Vec<GDPNameRecord> = Vec::new();
    let mut i: usize = 0;
    while i < s.len()
        invariant
            i <= s.len(),
            out@ == s@.subrange(0, i as int).filter(other_origin(origin)),
        decreases s.len() - i,
    {
        let x = s[i];
        proof {
            assert(s@.subrange(0, i as int + 1).drop_last() =~= s@.subrange(0, i as int));
            reveal(Seq::filter);
        }
        if x.origin != origin {
            out.push(x);
        }
        i += 1;
    }
    assert(s@.subrange(0, s.len() as int) =~= s@);
    out
}

impl RoutingInformationBase {
    /// An empty table: no names, no tombstones.
    pub fn new() -> (r: RoutingInformationBase)
        ensures
            r@.live == Map::<u32, Seq<GDPNameRecord>>::empty(),
            r@.tombstones == Seq::<Tombstone>::empty(),
            rib_wf(r@),
    {
        let t = table_new();
        let r = RoutingInformationBase { routing_table: t, tombstones: Vec::new() };
        assert(r@.live =~= Map::<u32, Seq<GDPNameRecord>>::empty());
        r
    }

    /// Whether a tombstone for `(name, payload)` at `ts` or later exists,
    /// that is, whether it covers a record of that fact stamped `ts`.
    pub fn is_blocked(&self, name: u32, payload: Option<Payload>, ts: u64) -> (b: bool)
        ensures
            b == blocked(self@.tombstones, name, payload, ts),
    {
        let mut i: usize = 0;
        while i < self.tombstones.len()
            invariant
                i <= self.tombstones.len(),
                forall|j: int|
                    0 <= j < i ==> !(#[trigger] self.tombstones@[j].name == name
                        && self.tombstones@[j].payload == payload
                        && self.tombstones@[j].timestamp >= ts),
            decreases self.tombstones.len() - i,
        {
            let t = self.tombstones[i];
            if t.name == name && t.payload == payload && t.timestamp >= ts {
                return true;
            }
            i += 1;
        }
        false
    }

    /// Appends `value` to the records of `key`, without looking for
    /// duplicates (local first-write seeding, not replication traffic). No
    /// tombstone may cover the record: `is_blocked` tells.
    pub fn put(&mut self, key: GDPName, value: GDPNameRecord) -> (r: Option<()>)
        requires
            rib_wf(old(self)@),
            !blocked(old(self)@.tombstones, key.0, value.payload, value.timestamp),
        ensures
            r == Some(()),
            final(self)@ == put_spec(old(self)@, key.0, value),
            rib_wf(final(self)@),
    {
        table_insert(&mut self.routing_table, key.0, value);
        proof {
            let s = records_of(old(self)@.live, key.0);
            lemma_uncovered_push(old(self)@.tombstones, key.0, s, value);
            lemma_wf_insert_nonempty(old(self)@, key.0, s.push(value));
        }
        Some(())
    }

    /// The live records of `key` in arrival order, none of them covered by
    /// a tombstone; `None` when the name has neither records nor a
    /// tombstone, that is, was never seen.
    pub fn get(&self, key: GDPName) -> (r: Option<&Vec<GDPNameRecord>>)
        requires
            rib_wf(self@),
        ensures
            r.is_none() == (records_of(self@.live, key.0).len() == 0 && !has_tombstone(self@.tombstones, key.0)),
            r.is_some() ==> r.unwrap()@ == records_of(self@.live, key.0),
            r.is_some() ==> uncovered(self@.tombstones, key.0, r.unwrap()@),
    {
        let r = table_get_vec(&self.routing_table, &key.0);
        proof {
            if has_tombstone(self@.tombstones, key.0) {
                let i = choose|i: int| 0 <= i < self@.tombstones.len() && #[trigger] self@.tombstones[i].name == key.0;
                assert(self@.live.contains_key(self@.tombstones[i].name));
            }
        }
        r
    }

    /// Joins `record` into the records of `key`; returns whether it was
    /// added (it is dropped when a tombstone supersedes it or when the same
    /// fact is already live).
    pub fn merge(&mut self, key: GDPName, record: GDPNameRecord) -> (added: bool)
        requires
            rib_wf(old(self)@),
        ensures
            added == merge_adds(old(self)@, key.0, record),
            final(self)@ == merge_spec(old(self)@, key.0, record),
            rib_wf(final(self)@),
    {
        if self.is_blocked(key.0, record.payload, record.timestamp) {
            return false;
        }
        match table_get_vec(&self.routing_table, &key.0) {
            Some(v) => {
                if contains_fact(v, &record) {
                    return false;
                }
            },
            None => {},
        }
        table_insert(&mut self.routing_table, key.0, record);
        proof {
            let s = records_of(old(self)@.live, key.0);
            lemma_uncovered_push(old(self)@.tombstones, key.0, s, record);
            lemma_wf_insert_nonempty(old(self)@, key.0, s.push(record));
        }
        true
    }
    /// Same-origin overwrite: `record` replaces the records of `key` from
    /// its origin when it is strictly newer than all of them and no
    /// tombstone supersedes it; otherwise it is discarded as stale. Returns
    /// whether it was applied.
    pub fn update(&mut self, key: GDPName, record: GDPNameRecord) -> (applied: bool)
        requires
            rib_wf(old(self)@),
        ensures
            applied == update_applies(old(self)@, key.0, record),
            final(self)@ == update_spec(old(self)@, key.0, record),
            rib_wf(final(self)@),
    {
        let k = key.0;
        if self.is_blocked(k, record.payload, record.timestamp) {
            return false;
        }
        match table_get_vec(&self.routing_table, &k) {
            Some(v) => {
                if contains_newer_from(v, record.origin, record.timestamp) {
                    return false;
                }
            },
            None => {},
        }
        let ghost before = table_contents(self.routing_table);
        match table_remove(&mut self.routing_table, &k) {
            Some(v) => {
                let mut kept = without_origin(&v, record.origin);
                kept.push(record);
                table_insert_many(&mut self.routing_table, k, kept);
                assert(table_contents(self.routing_table) =~= before.insert(k, v@.filter(other_origin(record.origin)).push(record)));
            },
            None => {
                proof {
                    reveal(Seq::filter);
                    assert(Seq::<GDPNameRecord>::empty().filter(other_origin(record.origin)) =~= Seq::<GDPNameRecord>::empty());
                    assert(Seq::<GDPNameRecord>::empty().push(record) =~= seq![record]);
                }
                table_insert(&mut self.routing_table, k, record);
                assert(table_contents(self.routing_table) == before.insert(k, records_of(before, k).filter(other_origin(record.origin)).push(record)));
            },
        }
        assert(self@.live == update_spec(old(self)@, key.0, record).live);
        proof {
            let s = records_of(old(self)@.live, k);
            let f = s.filter(other_origin(record.origin));
            lemma_uncovered_filter(old(self)@.tombstones, k, s, other_origin(record.origin));
            lemma_uncovered_push(old(self)@.tombstones, k, f, record);
            lemma_wf_insert_nonempty(old(self)@, k, f.push(record));
        }
        true
    }

    /// Deletes fact `payload` of `key` at logical time `timestamp`: its live
    /// records stamped `timestamp` or earlier leave, the name becomes known,
    /// and a tombstone keeps merges and updates of the fact that are not
    /// newer from bringing it back.
    pub fn delete(&mut self, key: GDPName, payload: Option<Payload>, timestamp: u64)
        requires
            rib_wf(old(self)@),
        ensures
            final(self)@ == delete_spec(old(self)@, key.0, payload, timestamp),
            rib_wf(final(self)@),
    {
        let k = key.0;
        if !self.is_blocked(k, payload, timestamp) {
            self.tombstones.push(Tombstone { name: k, payload, timestamp });
        }
        let ghost before = table_contents(self.routing_table);
        let kept = match table_remove(&mut self.routing_table, &k) {
            Some(v) => without_deleted(&v, payload, timestamp),
            None => {
                proof {
                    reveal(Seq::filter);
                }
                Vec::new()
            },
        };
        proof {
            assert(kept@ =~= records_of(before, k).filter(survives_delete(payload, timestamp)));
        }
        table_insert_many(&mut self.routing_table, k, kept);
        assert(table_contents(self.routing_table) =~= before.insert(
            k,
            records_of(before, k).filter(survives_delete(payload, timestamp)),
        ));
        proof {
            lemma_wf_delete(old(self)@, k, payload, timestamp);
        }
    }
}

} // verus!

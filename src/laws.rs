//! The convergence laws of the routing table, proved over its abstract
//! state.
use vstd::prelude::*;
use vstd::seq_lib::{group_filter_ensures, group_to_multiset_ensures};
use crate::actor::{anomaly_spec, apply_spec, responses_spec};
use crate::record::{empty_record_spec, same_fact, GDPNameRecord, GDPNameRecordType};
use crate::record::Payload;
use crate::rib::{
    blocked, delete_spec, has_fact, has_newer_from, merge_adds, merge_spec, records_of, survives_delete,
    other_origin, update_applies, update_spec, RibView,
};

verus! {

/// Two tables answer every `get` alike, up to the order of the records:
/// the same names are present, each with the same records as often, and
/// the same tombstones are kept.
pub open spec fn observably_equal(a: RibView, b: RibView) -> bool {
    &&& forall|n: u32| #[trigger] a.live.contains_key(n) == b.live.contains_key(n)
    &&& forall|n: u32| #[trigger] records_of(a.live, n).to_multiset() == records_of(b.live, n).to_multiset()
    &&& a.tombstones == b.tombstones
}

/// Merging the same record twice leaves the table as merging it once.
pub proof fn lemma_merge_idempotent(v: RibView, name: u32, rec: GDPNameRecord)
    ensures
        merge_spec(merge_spec(v, name, rec), name, rec) == merge_spec(v, name, rec),
{
    let v1 = merge_spec(v, name, rec);
    if merge_adds(v, name, rec) {
        let s = records_of(v1.live, name);
        assert(same_fact(s[s.len() - 1], rec));
        assert(has_fact(s, rec));
    }
}

/// Applying the same update twice leaves the table as applying it once.
pub proof fn lemma_update_idempotent(v: RibView, name: u32, rec: GDPNameRecord)
    ensures
        update_spec(update_spec(v, name, rec), name, rec) == update_spec(v, name, rec),
{
    let v1 = update_spec(v, name, rec);
    if update_applies(v, name, rec) {
        let s = records_of(v1.live, name);
        assert(s[s.len() - 1] == rec);
        assert(has_newer_from(s, rec.origin, rec.timestamp));
    }
}

/// Merges commute: merging `r1` into `n1` then `r2` into `n2` gives a table
/// observably equal to the other order. Two different records that state
/// the same fact for one name are left out: whichever arrives first is the
/// one kept.
pub proof fn lemma_merge_commutes(v: RibView, n1: u32, r1: GDPNameRecord, n2: u32, r2: GDPNameRecord)
    requires
        n1 == n2 && same_fact(r1, r2) ==> r1 == r2,
    ensures
        observably_equal(
            merge_spec(merge_spec(v, n1, r1), n2, r2),
            merge_spec(merge_spec(v, n2, r2), n1, r1),
        ),
{
    broadcast use group_to_multiset_ensures;

    let a = merge_spec(merge_spec(v, n1, r1), n2, r2);
    let b = merge_spec(merge_spec(v, n2, r2), n1, r1);
    if n1 != n2 {
        assert(a.live =~= b.live);
    } else if same_fact(r1, r2) {
        assert(a == b);
    } else {
        let s = records_of(v.live, n1);
        assert forall|x: GDPNameRecord| !same_fact(x, r2) && has_fact(s.push(x), r2) implies has_fact(s, r2) by {
            let i = choose|i: int| 0 <= i < s.push(x).len() && same_fact(#[trigger] s.push(x)[i], r2);
            assert(s.push(x)[i] == s[i]);
        }
        assert forall|x: GDPNameRecord| has_fact(s, r2) implies has_fact(s.push(x), r2) by {
            let i = choose|i: int| 0 <= i < s.len() && same_fact(#[trigger] s[i], r2);
            assert(s.push(x)[i] == s[i]);
        }
        assert forall|x: GDPNameRecord| !same_fact(x, r1) && has_fact(s.push(x), r1) implies has_fact(s, r1) by {
            let i = choose|i: int| 0 <= i < s.push(x).len() && same_fact(#[trigger] s.push(x)[i], r1);
            assert(s.push(x)[i] == s[i]);
        }
        assert forall|x: GDPNameRecord| has_fact(s, r1) implies has_fact(s.push(x), r1) by {
            let i = choose|i: int| 0 <= i < s.len() && same_fact(#[trigger] s[i], r1);
            assert(s.push(x)[i] == s[i]);
        }
        assert(same_fact(r1, r2) == same_fact(r2, r1));
        assert forall|n: u32| #[trigger] records_of(a.live, n).to_multiset() == records_of(b.live, n).to_multiset() by {
            if n == n1 {
                assert(s.push(r1).push(r2).to_multiset() =~= s.push(r2).push(r1).to_multiset());
            }
        }
    }
}

/// A delete wins until a newer record of the fact arrives. After fact
/// `f.payload` of `name` is deleted at `t`, no live record of it stamped `t`
/// or earlier remains; merging `f` stamped `t` or earlier changes nothing;
/// merging `f` stamped later than `t` (and later than any earlier delete
/// of it) makes the fact live again.
pub proof fn lemma_delete_wins_until_newer(v: RibView, name: u32, f: GDPNameRecord, t: u64)
    ensures
        forall|i: int|
            0 <= i < records_of(delete_spec(v, name, f.payload, t).live, name).len() ==> !(
            #[trigger] records_of(delete_spec(v, name, f.payload, t).live, name)[i].payload
                == f.payload && records_of(delete_spec(v, name, f.payload, t).live, name)[i].timestamp
                <= t),
        f.timestamp <= t ==> merge_spec(delete_spec(v, name, f.payload, t), name, f) == delete_spec(
            v,
            name,
            f.payload,
            t,
        ),
        t < f.timestamp && !blocked(v.tombstones, name, f.payload, f.timestamp) ==> has_fact(
            records_of(merge_spec(delete_spec(v, name, f.payload, t), name, f).live, name),
            f,
        ),
{
    broadcast use group_filter_ensures;

    let d = delete_spec(v, name, f.payload, t);
    let s = records_of(d.live, name);
    assert forall|i: int| 0 <= i < s.len() implies !(#[trigger] s[i].payload == f.payload && s[i].timestamp <= t) by {
        assert(survives_delete(f.payload, t)(s[i]));
    }
    if f.timestamp <= t {
        if blocked(v.tombstones, name, f.payload, t) {
            let j = choose|j: int|
                0 <= j < v.tombstones.len() && #[trigger] v.tombstones[j].name == name
                    && v.tombstones[j].payload == f.payload && v.tombstones[j].timestamp >= t;
            assert(d.tombstones[j].name == name);
        } else {
            let j = v.tombstones.len() as int;
            assert(d.tombstones[j].name == name);
        }
        assert(blocked(d.tombstones, name, f.payload, f.timestamp));
    }
    if t < f.timestamp && !blocked(v.tombstones, name, f.payload, f.timestamp) {
        if !blocked(v.tombstones, name, f.payload, t) {
            assert forall|j: int|
                0 <= j < d.tombstones.len() && #[trigger] d.tombstones[j].name == name
                    && d.tombstones[j].payload == f.payload implies d.tombstones[j].timestamp < f.timestamp by {
                if j < v.tombstones.len() {
                    assert(d.tombstones[j] == v.tombstones[j]);
                }
            }
        }
        assert(!blocked(d.tombstones, name, f.payload, f.timestamp));
        let m = merge_spec(d, name, f);
        if merge_adds(d, name, f) {
            let ms = records_of(m.live, name);
            assert(same_fact(ms[ms.len() - 1], f));
        }
    }
}

/// Filtering a sequence that grew by one record filters the old sequence
/// and keeps the new record exactly when the predicate holds of it.
proof fn lemma_filter_push(s: Seq<GDPNameRecord>, x: GDPNameRecord, pred: spec_fn(GDPNameRecord) -> bool)
    ensures
        s.push(x).filter(pred) == (if pred(x) {
            s.filter(pred).push(x)
        } else {
            s.filter(pred)
        }),
{
    reveal(Seq::filter);
    assert(s.push(x).drop_last() =~= s);
}

/// A merge and a delete commute: merging `r` into `n1` and deleting fact
/// `p` of `n2` at `t`, in either order, give the same table.
pub proof fn lemma_merge_delete_commute(v: RibView, n1: u32, r: GDPNameRecord, n2: u32, p: Option<Payload>, t: u64)
    ensures
        delete_spec(merge_spec(v, n1, r), n2, p, t) == merge_spec(delete_spec(v, n2, p, t), n1, r),
{
    broadcast use group_filter_ensures;

    let pred = survives_delete(p, t);
    let d = delete_spec(v, n2, p, t);
    let s = records_of(v.live, n1);
    let fs = s.filter(pred);
    // the delete's tombstone supersedes `r` exactly when it matches it
    assert(blocked(d.tombstones, n1, r.payload, r.timestamp) == (blocked(v.tombstones, n1, r.payload, r.timestamp)
        || (n1 == n2 && r.payload == p && r.timestamp <= t))) by {
        if n1 == n2 && r.payload == p && r.timestamp <= t {
            if blocked(v.tombstones, n2, p, t) {
                let j = choose|j: int|
                    0 <= j < v.tombstones.len() && #[trigger] v.tombstones[j].name == n2
                        && v.tombstones[j].payload == p && v.tombstones[j].timestamp >= t;
                assert(v.tombstones[j].name == n1);
            } else {
                assert(d.tombstones[v.tombstones.len() as int].name == n1);
            }
        }
        if blocked(v.tombstones, n1, r.payload, r.timestamp) {
            let j = choose|j: int|
                0 <= j < v.tombstones.len() && #[trigger] v.tombstones[j].name == n1
                    && v.tombstones[j].payload == r.payload && v.tombstones[j].timestamp >= r.timestamp;
            assert(d.tombstones[j] == v.tombstones[j]);
        }
        if blocked(d.tombstones, n1, r.payload, r.timestamp) && !blocked(v.tombstones, n1, r.payload, r.timestamp) {
            let j = choose|j: int|
                0 <= j < d.tombstones.len() && #[trigger] d.tombstones[j].name == n1
                    && d.tombstones[j].payload == r.payload && d.tombstones[j].timestamp >= r.timestamp;
            if j < v.tombstones.len() {
                assert(d.tombstones[j] == v.tombstones[j]);
            }
        }
    }
    lemma_filter_push(s, r, pred);
    if n1 == n2 && pred(r) {
        // records of the same fact as `r` survive the delete
        if has_fact(s, r) {
            let i = choose|i: int| 0 <= i < s.len() && same_fact(#[trigger] s[i], r);
            assert(pred(s[i]));
            assert(fs.contains(s[i]));
            let k = choose|k: int| 0 <= k < fs.len() && fs[k] == s[i];
            assert(same_fact(fs[k], r));
        }
        if has_fact(fs, r) {
            let k = choose|k: int| 0 <= k < fs.len() && same_fact(#[trigger] fs[k], r);
            assert(fs.contains(fs[k]));
            s.lemma_filter_contains_rev(pred, fs[k]);
        }
        assert(has_fact(fs, r) == has_fact(s, r));
    }
    let a = delete_spec(merge_spec(v, n1, r), n2, p, t);
    let b = merge_spec(d, n1, r);
    assert(a.live =~= b.live);
}

/// A query is always answered completely: when its name has k >= 1 live
/// records it gets exactly k responses, the i-th being the i-th live record;
/// when it has none it gets exactly one synthetic `EMPTY` record for the
/// name.
pub proof fn lemma_query_complete(v: RibView, q: GDPNameRecord)
    requires
        q.record_type == GDPNameRecordType::QUERY,
    ensures
        records_of(v.live, q.gdpname.0).len() >= 1 ==> {
            &&& responses_spec(v, q).len() == records_of(v.live, q.gdpname.0).len()
            &&& forall|i: int|
                0 <= i < responses_spec(v, q).len() ==> #[trigger] responses_spec(v, q)[i]
                    == records_of(v.live, q.gdpname.0)[i]
        },
        records_of(v.live, q.gdpname.0).len() == 0 ==> {
            &&& responses_spec(v, q).len() == 1
            &&& responses_spec(v, q)[0] == empty_record_spec(q.gdpname)
        },
{
}

/// The table after a run of requests, applied in order.
pub open spec fn apply_all(v: RibView, qs: Seq<GDPNameRecord>) -> RibView
    decreases qs.len(),
{
    if qs.len() == 0 {
        v
    } else {
        apply_spec(apply_all(v, qs.drop_last()), qs.last())
    }
}

/// Filtering keeps each record as often as before, or drops it entirely.
proof fn lemma_filter_multiset(s: Seq<GDPNameRecord>, pred: spec_fn(GDPNameRecord) -> bool)
    ensures
        forall|x: GDPNameRecord| #[trigger] s.filter(pred).to_multiset().count(x) == (if pred(x) {
            s.to_multiset().count(x)
        } else {
            0nat
        }),
    decreases s.len(),
{
    broadcast use group_to_multiset_ensures;

    reveal(Seq::filter);
    if s.len() == 0 {
        assert forall|x: GDPNameRecord| #[trigger] s.to_multiset().count(x) == 0 by {
            assert(!s.contains(x));
        }
    } else {
        let t = s.drop_last();
        let l = s.last();
        lemma_filter_multiset(t, pred);
        assert(s =~= t.push(l));
        assert(s.to_multiset() =~= t.to_multiset().insert(l));
        if pred(l) {
            assert(s.filter(pred) == t.filter(pred).push(l));
            assert(s.filter(pred).to_multiset() =~= t.filter(pred).to_multiset().insert(l));
        } else {
            assert(s.filter(pred) == t.filter(pred));
        }
    }
}

/// Sequences with the same records, as often, hold the same records.
proof fn lemma_same_contents(s1: Seq<GDPNameRecord>, s2: Seq<GDPNameRecord>)
    requires
        s1.to_multiset() == s2.to_multiset(),
    ensures
        forall|r: GDPNameRecord| has_fact(s1, r) == has_fact(s2, r),
        forall|o: u64, t: u64| has_newer_from(s1, o, t) == has_newer_from(s2, o, t),
{
    broadcast use group_to_multiset_ensures;

    assert forall|r: GDPNameRecord| has_fact(s1, r) implies has_fact(s2, r) by {
        let i = choose|i: int| 0 <= i < s1.len() && same_fact(#[trigger] s1[i], r);
        assert(s1.contains(s1[i]));
        assert(s1.to_multiset().count(s1[i]) > 0);
        assert(s2.contains(s1[i]));
        let j = choose|j: int| 0 <= j < s2.len() && s2[j] == s1[i];
        assert(same_fact(s2[j], r));
    }
    assert forall|r: GDPNameRecord| has_fact(s2, r) implies has_fact(s1, r) by {
        let i = choose|i: int| 0 <= i < s2.len() && same_fact(#[trigger] s2[i], r);
        assert(s2.contains(s2[i]));
        assert(s2.to_multiset().count(s2[i]) > 0);
        assert(s1.contains(s2[i]));
        let j = choose|j: int| 0 <= j < s1.len() && s1[j] == s2[i];
        assert(same_fact(s1[j], r));
    }
    assert forall|o: u64, t: u64| has_newer_from(s1, o, t) implies has_newer_from(s2, o, t) by {
        let i = choose|i: int| 0 <= i < s1.len() && #[trigger] s1[i].origin == o && s1[i].timestamp >= t;
        assert(s1.contains(s1[i]));
        assert(s1.to_multiset().count(s1[i]) > 0);
        assert(s2.contains(s1[i]));
        let j = choose|j: int| 0 <= j < s2.len() && s2[j] == s1[i];
        assert(s2[j].origin == o);
    }
    assert forall|o: u64, t: u64| has_newer_from(s2, o, t) implies has_newer_from(s1, o, t) by {
        let i = choose|i: int| 0 <= i < s2.len() && #[trigger] s2[i].origin == o && s2[i].timestamp >= t;
        assert(s2.contains(s2[i]));
        assert(s2.to_multiset().count(s2[i]) > 0);
        assert(s1.contains(s2[i]));
        let j = choose|j: int| 0 <= j < s1.len() && s1[j] == s2[i];
        assert(s1[j].origin == o);
    }
}

/// Tables that answer every `get` alike keep doing so after any one
/// request, and answer that request alike: the same responses, as often,
/// and the same anomaly.
pub proof fn lemma_observably_equal_step(a: RibView, b: RibView, q: GDPNameRecord)
    requires
        observably_equal(a, b),
    ensures
        observably_equal(apply_spec(a, q), apply_spec(b, q)),
        responses_spec(a, q).to_multiset() == responses_spec(b, q).to_multiset(),
        anomaly_spec(a, q) == anomaly_spec(b, q),
{
    broadcast use group_to_multiset_ensures;

    let n = q.gdpname.0;
    let sa = records_of(a.live, n);
    let sb = records_of(b.live, n);
    assert(a.live.contains_key(n) == b.live.contains_key(n));
    assert(sa.to_multiset() == sb.to_multiset());
    lemma_same_contents(sa, sb);
    let na = apply_spec(a, q);
    let nb = apply_spec(b, q);
    let pred = if q.record_type == GDPNameRecordType::UPDATE {
        other_origin(q.origin)
    } else {
        survives_delete(q.payload, q.timestamp)
    };
    lemma_filter_multiset(sa, pred);
    lemma_filter_multiset(sb, pred);
    assert(sa.filter(pred).to_multiset() =~= sb.filter(pred).to_multiset());
    assert(sa.filter(pred).push(q).to_multiset() =~= sb.filter(pred).push(q).to_multiset());
    assert(sa.push(q).to_multiset() =~= sb.push(q).to_multiset());
    assert forall|m: u32| #[trigger] records_of(na.live, m).to_multiset() == records_of(nb.live, m).to_multiset() by {
        assert(records_of(a.live, m).to_multiset() == records_of(b.live, m).to_multiset());
    }
    assert forall|m: u32| #[trigger] na.live.contains_key(m) == nb.live.contains_key(m) by {
        assert(a.live.contains_key(m) == b.live.contains_key(m));
    }
    assert(sa.to_multiset().len() == sb.to_multiset().len());
    assert(sa.len() == sb.len());
}

/// Tables that answer every `get` alike still do after the same run of
/// requests.
pub proof fn lemma_observably_equal_run(a: RibView, b: RibView, qs: Seq<GDPNameRecord>)
    requires
        observably_equal(a, b),
    ensures
        observably_equal(apply_all(a, qs), apply_all(b, qs)),
    decreases qs.len(),
{
    if qs.len() > 0 {
        lemma_observably_equal_run(a, b, qs.drop_last());
        lemma_observably_equal_step(apply_all(a, qs.drop_last()), apply_all(b, qs.drop_last()), qs.last());
    }
}

/// Two merge requests commute within any run of requests: after `r1` then
/// `r2`, or `r2` then `r1`, on the same table, every later request of `qs`
/// gets the same responses, as often, and the same anomaly, and the tables
/// stay observably equal. As in `lemma_merge_commutes`, two different
/// records that state the same fact for one name are left out.
pub proof fn lemma_merges_commute_in_any_run(v: RibView, r1: GDPNameRecord, r2: GDPNameRecord, qs: Seq<GDPNameRecord>)
    requires
        r1.record_type == GDPNameRecordType::MERGE,
        r2.record_type == GDPNameRecordType::MERGE,
        r1.gdpname == r2.gdpname && same_fact(r1, r2) ==> r1 == r2,
    ensures
        observably_equal(apply_all(v, seq![r1, r2] + qs), apply_all(v, seq![r2, r1] + qs)),
        forall|k: int|
            0 <= k < qs.len() ==> {
                &&& responses_spec(apply_all(v, seq![r1, r2] + qs.take(k)), #[trigger] qs[k]).to_multiset()
                    == responses_spec(apply_all(v, seq![r2, r1] + qs.take(k)), qs[k]).to_multiset()
                &&& anomaly_spec(apply_all(v, seq![r1, r2] + qs.take(k)), qs[k]) == anomaly_spec(
                    apply_all(v, seq![r2, r1] + qs.take(k)),
                    qs[k],
                )
            },
{
    let a = merge_spec(merge_spec(v, r1.gdpname.0, r1), r2.gdpname.0, r2);
    let b = merge_spec(merge_spec(v, r2.gdpname.0, r2), r1.gdpname.0, r1);
    lemma_merge_commutes(v, r1.gdpname.0, r1, r2.gdpname.0, r2);
    lemma_apply_all_after_two(v, r1, r2, qs);
    lemma_apply_all_after_two(v, r2, r1, qs);
    lemma_observably_equal_run(a, b, qs);
    assert forall|k: int| 0 <= k < qs.len() implies {
        &&& responses_spec(apply_all(v, seq![r1, r2] + qs.take(k)), #[trigger] qs[k]).to_multiset()
            == responses_spec(apply_all(v, seq![r2, r1] + qs.take(k)), qs[k]).to_multiset()
        &&& anomaly_spec(apply_all(v, seq![r1, r2] + qs.take(k)), qs[k]) == anomaly_spec(
            apply_all(v, seq![r2, r1] + qs.take(k)),
            qs[k],
        )
    } by {
        lemma_apply_all_after_two(v, r1, r2, qs.take(k));
        lemma_apply_all_after_two(v, r2, r1, qs.take(k));
        lemma_observably_equal_run(a, b, qs.take(k));
        lemma_observably_equal_step(apply_all(a, qs.take(k)), apply_all(b, qs.take(k)), qs[k]);
    }
}

/// A run that starts with two merge requests is the run from the table
/// that the two merges give.
proof fn lemma_apply_all_after_two(v: RibView, r1: GDPNameRecord, r2: GDPNameRecord, p: Seq<GDPNameRecord>)
    requires
        r1.record_type == GDPNameRecordType::MERGE,
        r2.record_type == GDPNameRecordType::MERGE,
    ensures
        apply_all(v, seq![r1, r2] + p) == apply_all(merge_spec(merge_spec(v, r1.gdpname.0, r1), r2.gdpname.0, r2), p),
    decreases p.len(),
{
    let full = seq![r1, r2] + p;
    if p.len() == 0 {
        reveal_with_fuel(apply_all, 3);
        assert(full =~= seq![r1, r2]);
        assert(full.drop_last() =~= seq![r1]);
        assert(full.drop_last().drop_last() =~= Seq::<GDPNameRecord>::empty());
        assert(p =~= Seq::<GDPNameRecord>::empty());
    } else {
        lemma_apply_all_after_two(v, r1, r2, p.drop_last());
        assert(full.drop_last() =~= seq![r1, r2] + p.drop_last());
        assert(full.last() == p.last());
    }
}

} // verus!

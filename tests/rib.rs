use gdp_rib::actor::{handle_request, RibAnomaly};
use gdp_rib::record::{is_same_fact, GDPName, GDPNameRecord, GDPNameRecordType, Payload};
use gdp_rib::rib::RoutingInformationBase;

const A: GDPName = GDPName(1);
const B: GDPName = GDPName(2);

fn merge_rec(name: GDPName, payload: Payload, origin: u64, ts: u64) -> GDPNameRecord {
    GDPNameRecord::fact(GDPNameRecordType::MERGE, name, payload, origin, ts)
}

fn update_rec(name: GDPName, payload: Payload, origin: u64, ts: u64) -> GDPNameRecord {
    GDPNameRecord::fact(GDPNameRecordType::UPDATE, name, payload, origin, ts)
}

fn delete_rec(name: GDPName, payload: Payload, ts: u64) -> GDPNameRecord {
    GDPNameRecord::fact(GDPNameRecordType::DELETE, name, payload, 0, ts)
}

fn live(rib: &RoutingInformationBase, name: GDPName) -> Vec<GDPNameRecord> {
    rib.get(name).cloned().unwrap_or_default()
}

fn sorted(mut v: Vec<GDPNameRecord>) -> Vec<GDPNameRecord> {
    v.sort_by_key(|r| (format!("{:?}", r.payload), r.origin, r.timestamp, format!("{:?}", r.record_type)));
    v
}

#[test]
fn put_two_offers_then_query_answers_both() {
    let mut rib = RoutingInformationBase::new();
    let offer1 = merge_rec(A, Payload::Offer(1), 0, 0);
    let offer2 = merge_rec(A, Payload::Offer(2), 0, 0);
    assert_eq!(rib.put(A, offer1), Some(()));
    assert_eq!(rib.put(A, offer2), Some(()));
    let reply = handle_request(&mut rib, GDPNameRecord::query(A));
    assert_eq!(reply.responses, vec![offer1, offer2]);
    assert_eq!(reply.anomaly, None);
}

#[test]
fn query_on_empty_table_answers_empty() {
    let mut rib = RoutingInformationBase::new();
    let reply = handle_request(&mut rib, GDPNameRecord::query(B));
    assert_eq!(reply.responses.len(), 1);
    assert_eq!(reply.responses[0].record_type, GDPNameRecordType::EMPTY);
    assert_eq!(reply.responses[0].gdpname, B);
    assert_eq!(reply.responses[0], GDPNameRecord::empty(B));
    assert_eq!(reply.anomaly, Some(RibAnomaly::UnknownName(B)));
}

#[test]
fn replayed_merge_after_delete_stays_deleted() {
    let mut rib = RoutingInformationBase::new();
    let offer1 = merge_rec(A, Payload::Offer(1), 0, 1);
    assert!(rib.merge(A, offer1));
    rib.delete(A, Some(Payload::Offer(1)), 2);
    assert!(!rib.merge(A, offer1));
    assert_eq!(live(&rib, A), vec![]);
}

#[test]
fn stale_update_is_rejected() {
    let mut rib = RoutingInformationBase::new();
    let addr1 = update_rec(A, Payload::Address(0x0a000001, 80), 7, 1);
    let addr2 = update_rec(A, Payload::Address(0x0a000002, 80), 7, 0);
    assert!(rib.update(A, addr1));
    assert!(!rib.update(A, addr2));
    assert_eq!(live(&rib, A), vec![addr1]);
}

#[test]
fn merge_twice_same_as_once() {
    let mut once = RoutingInformationBase::new();
    let mut twice = RoutingInformationBase::new();
    let r = merge_rec(A, Payload::Offer(5), 3, 4);
    once.merge(A, r);
    assert!(twice.merge(A, r));
    assert!(!twice.merge(A, r));
    assert_eq!(live(&once, A), live(&twice, A));
    assert_eq!(live(&twice, A), vec![r]);
}

#[test]
fn merge_order_does_not_matter() {
    let r1 = merge_rec(A, Payload::Offer(1), 1, 1);
    let r2 = merge_rec(A, Payload::Offer(2), 2, 1);
    let r3 = merge_rec(B, Payload::Indirect(A), 2, 2);
    let mut x = RoutingInformationBase::new();
    let mut y = RoutingInformationBase::new();
    x.merge(A, r1);
    x.merge(A, r2);
    x.merge(B, r3);
    y.merge(B, r3);
    y.merge(A, r2);
    y.merge(A, r1);
    assert_eq!(live(&x, A), vec![r1, r2]);
    assert_eq!(live(&y, A), vec![r2, r1]);
    assert_eq!(sorted(live(&x, A)), sorted(live(&y, A)));
    assert_eq!(live(&x, B), live(&y, B));
}

#[test]
fn delete_then_newer_merge_restores() {
    let mut rib = RoutingInformationBase::new();
    let old = merge_rec(A, Payload::Offer(9), 0, 3);
    rib.merge(A, old);
    rib.delete(A, Some(Payload::Offer(9)), 5);
    assert_eq!(live(&rib, A), vec![]);
    let same_time = merge_rec(A, Payload::Offer(9), 1, 5);
    assert!(!rib.merge(A, same_time));
    assert_eq!(live(&rib, A), vec![]);
    let newer = merge_rec(A, Payload::Offer(9), 0, 6);
    assert!(rib.merge(A, newer));
    assert_eq!(live(&rib, A), vec![newer]);
}

#[test]
fn delete_keeps_newer_records_and_other_facts() {
    let mut rib = RoutingInformationBase::new();
    let older = merge_rec(A, Payload::Offer(1), 0, 1);
    let newer = merge_rec(A, Payload::Offer(1), 1, 9);
    let other = merge_rec(A, Payload::Offer(2), 0, 1);
    rib.merge(A, older);
    rib.merge(A, newer);
    rib.merge(A, other);
    rib.delete(A, Some(Payload::Offer(1)), 4);
    assert_eq!(live(&rib, A), vec![newer, other]);
}

#[test]
fn delete_of_unknown_name_makes_it_known() {
    let mut rib = RoutingInformationBase::new();
    rib.delete(B, Some(Payload::Offer(1)), 4);
    assert_eq!(rib.get(B), Some(&vec![]));
    let reply = handle_request(&mut rib, GDPNameRecord::query(B));
    assert_eq!(reply.responses, vec![GDPNameRecord::empty(B)]);
    assert_eq!(reply.anomaly, None);
    assert!(!rib.merge(B, merge_rec(B, Payload::Offer(1), 0, 4)));
    assert!(rib.merge(B, merge_rec(B, Payload::Offer(1), 0, 5)));
}

#[test]
fn query_of_known_but_emptied_name_answers_empty() {
    let mut rib = RoutingInformationBase::new();
    rib.merge(A, merge_rec(A, Payload::Offer(1), 0, 1));
    rib.delete(A, Some(Payload::Offer(1)), 1);
    assert_eq!(rib.get(A), Some(&vec![]));
    let reply = handle_request(&mut rib, GDPNameRecord::query(A));
    assert_eq!(reply.responses, vec![GDPNameRecord::empty(A)]);
    assert_eq!(reply.anomaly, None);
}

#[test]
fn get_of_never_seen_name_is_none() {
    let rib = RoutingInformationBase::new();
    assert!(rib.get(A).is_none());
}

#[test]
fn empty_request_is_reported_and_ignored() {
    let mut rib = RoutingInformationBase::new();
    let reply = handle_request(&mut rib, GDPNameRecord::empty(A));
    assert!(reply.responses.is_empty());
    assert_eq!(reply.anomaly, Some(RibAnomaly::EmptyRequest));
    assert!(rib.get(A).is_none());
}

#[test]
fn mutations_through_handler_answer_nothing() {
    let mut rib = RoutingInformationBase::new();
    let m = merge_rec(A, Payload::Offer(1), 0, 1);
    let u = update_rec(A, Payload::Address(1, 2), 4, 1);
    let reply = handle_request(&mut rib, m);
    assert!(reply.responses.is_empty() && reply.anomaly.is_none());
    let reply = handle_request(&mut rib, u);
    assert!(reply.responses.is_empty() && reply.anomaly.is_none());
    assert_eq!(live(&rib, A), vec![m, u]);
    let reply = handle_request(&mut rib, delete_rec(A, Payload::Offer(1), 1));
    assert!(reply.responses.is_empty() && reply.anomaly.is_none());
    assert_eq!(live(&rib, A), vec![u]);
    let reply = handle_request(&mut rib, GDPNameRecord::query(A));
    assert_eq!(reply.responses, vec![u]);
}

#[test]
fn update_replaces_only_its_own_origin() {
    let mut rib = RoutingInformationBase::new();
    let mine = update_rec(A, Payload::Address(1, 1), 1, 1);
    let theirs = update_rec(A, Payload::Address(2, 2), 2, 5);
    let mine_later = update_rec(A, Payload::Address(3, 3), 1, 2);
    assert!(rib.update(A, mine));
    assert!(rib.update(A, theirs));
    assert!(rib.update(A, mine_later));
    assert_eq!(live(&rib, A), vec![theirs, mine_later]);
    assert!(!rib.update(A, mine_later));
}

#[test]
fn update_respects_tombstones() {
    let mut rib = RoutingInformationBase::new();
    rib.delete(A, Some(Payload::Address(1, 1)), 3);
    assert!(!rib.update(A, update_rec(A, Payload::Address(1, 1), 0, 3)));
    assert_eq!(live(&rib, A), vec![]);
    assert!(rib.update(A, update_rec(A, Payload::Address(1, 1), 0, 4)));
    assert_eq!(live(&rib, A).len(), 1);
}

#[test]
fn same_fact_ignores_kind_and_name() {
    let a = merge_rec(A, Payload::Offer(1), 2, 3);
    let b = update_rec(B, Payload::Offer(1), 2, 3);
    let c = merge_rec(A, Payload::Offer(1), 2, 4);
    assert!(is_same_fact(&a, &b));
    assert!(!is_same_fact(&a, &c));
}

#[test]
fn duplicate_fact_from_other_kind_is_not_added_twice() {
    let mut rib = RoutingInformationBase::new();
    let a = merge_rec(A, Payload::Offer(1), 2, 3);
    let b = GDPNameRecord::fact(GDPNameRecordType::MERGE, A, Payload::Offer(1), 2, 3);
    assert!(rib.merge(A, a));
    assert!(!rib.merge(A, b));
    assert_eq!(live(&rib, A), vec![a]);
}

#[test]
fn merge_and_delete_commute() {
    for ts in [1u64, 2, 3] {
        let r = merge_rec(A, Payload::Offer(4), 0, ts);
        let mut x = RoutingInformationBase::new();
        let mut y = RoutingInformationBase::new();
        x.merge(A, r);
        x.delete(A, Some(Payload::Offer(4)), 2);
        y.delete(A, Some(Payload::Offer(4)), 2);
        y.merge(A, r);
        assert_eq!(x.get(A), y.get(A));
        let expected = if ts > 2 { vec![r] } else { vec![] };
        assert_eq!(live(&x, A), expected);
    }
}

#[test]
fn is_blocked_tells_when_a_seed_is_covered() {
    let mut rib = RoutingInformationBase::new();
    rib.delete(A, Some(Payload::Offer(1)), 5);
    assert!(rib.is_blocked(A.0, Some(Payload::Offer(1)), 3));
    assert!(rib.is_blocked(A.0, Some(Payload::Offer(1)), 5));
    assert!(!rib.is_blocked(A.0, Some(Payload::Offer(1)), 6));
    assert!(!rib.is_blocked(A.0, Some(Payload::Offer(2)), 3));
    assert!(!rib.is_blocked(B.0, Some(Payload::Offer(1)), 3));
    let seed = merge_rec(A, Payload::Offer(1), 0, 6);
    assert_eq!(rib.put(A, seed), Some(()));
    assert_eq!(live(&rib, A), vec![seed]);
}

#[test]
fn merges_commute_within_a_longer_run() {
    let r1 = merge_rec(A, Payload::Offer(1), 1, 1);
    let r2 = merge_rec(A, Payload::Offer(2), 2, 1);
    let later = vec![
        merge_rec(A, Payload::Offer(3), 1, 2),
        GDPNameRecord::query(A),
        update_rec(A, Payload::Address(1, 1), 1, 3),
        GDPNameRecord::query(A),
        delete_rec(A, Payload::Offer(2), 1),
        GDPNameRecord::query(A),
        GDPNameRecord::query(B),
    ];
    let mut x = RoutingInformationBase::new();
    let mut y = RoutingInformationBase::new();
    handle_request(&mut x, r1);
    handle_request(&mut x, r2);
    handle_request(&mut y, r2);
    handle_request(&mut y, r1);
    for q in later {
        let rx = handle_request(&mut x, q);
        let ry = handle_request(&mut y, q);
        assert_eq!(sorted(rx.responses), sorted(ry.responses));
        assert_eq!(rx.anomaly, ry.anomaly);
    }
    assert_eq!(live(&x, A), vec![update_rec(A, Payload::Address(1, 1), 1, 3)]);
    assert_eq!(live(&y, A), live(&x, A));
}

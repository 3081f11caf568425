//! One step of the routing base's actor: the decision taken for each
//! request that arrives on its inbound channel. The loop that receives
//! requests and sends the replies lives with the caller.
use vstd::prelude::*;
use crate::record::{empty_record_spec, GDPName, GDPNameRecord, GDPNameRecordType};
use crate::rib::{delete_spec, merge_spec, records_of, rib_wf, update_spec, RibView, RoutingInformationBase};

verus! {

/// A protocol anomaly worth reporting on the status channel.
#[derive(Clone, Copy, Debug, PartialEq, Eq, Structural)]
pub enum RibAnomaly {
    /// An `EMPTY` record arrived as a request.
    EmptyRequest,
    /// A query named a name that was never seen.
    UnknownName(GDPName),
}

/// What one request produces: the records to send as responses, in order,
/// and the anomaly to report, if any.
pub struct RibReply {
    pub responses: Vec<GDPNameRecord>,
    pub anomaly: Option<RibAnomaly>,
}

/// The answer to a query for `name`: every live record of the name, or,
/// when there is none, one synthetic `EMPTY` record for it.
pub open spec fn query_responses(v: RibView, name: GDPName) -> Seq<GDPNameRecord> {
    if records_of(v.live, name.0).len() > 0 {
        records_of(v.live, name.0)
    } else {
        seq![empty_record_spec(name)]
    }
}

/// The table after request `q`.
pub open spec fn apply_spec(v: RibView, q: GDPNameRecord) -> RibView {
    match q.record_type {
        GDPNameRecordType::MERGE => merge_spec(v, q.gdpname.0, q),
        GDPNameRecordType::UPDATE => update_spec(v, q.gdpname.0, q),
        GDPNameRecordType::DELETE => delete_spec(v, q.gdpname.0, q.payload, q.timestamp),
        _ => v,
    }
}

/// The responses to request `q` on table `v`: only queries are answered.
pub open spec fn responses_spec(v: RibView, q: GDPNameRecord) -> Seq<GDPNameRecord> {
    if q.record_type == GDPNameRecordType::QUERY {
        query_responses(v, q.gdpname)
    } else {
        Seq::empty()
    }
}

/// The anomaly that request `q` on table `v` reports.
pub open spec fn anomaly_spec(v: RibView, q: GDPNameRecord) -> Option<RibAnomaly> {
    match q.record_type {
        GDPNameRecordType::EMPTY => Some(RibAnomaly::EmptyRequest),
        GDPNameRecordType::QUERY => if v.live.contains_key(q.gdpname.0) {
            None
        } else {
            Some(RibAnomaly::UnknownName(q.gdpname))
        },
        _ => None,
    }
}

/// A copy of `s`, record for record.
fn copy_records(s: &Vec<GDPNameRecord>) -> (out: Vec<GDPNameRecord>)
    ensures
        out@ == s@,
{
    let mut out: Vec<GDPNameRecord> = Vec::new();
    let mut i: usize = 0;
    while i < s.len()
        invariant
            i <= s.len(),
            out@ == s@.subrange(0, i as int),
        decreases s.len() - i,
    {
        out.push(s[i]);
        i += 1;
        assert(out@ =~= s@.subrange(0, i as int));
    }
    assert(s@.subrange(0, s.len() as int) =~= s@);
    out
}

/// Serves one request against the table: a query is answered from it,
/// a merge, update or delete changes it, and an `EMPTY` request is
/// reported as an anomaly and otherwise ignored.
pub fn handle_request(rib: &mut RoutingInformationBase, query: GDPNameRecord) -> (reply: RibReply)
    requires
        rib_wf(old(rib)@),
    ensures
        final(rib)@ == apply_spec(old(rib)@, query),
        reply.responses@ == responses_spec(old(rib)@, query),
        reply.anomaly == anomaly_spec(old(rib)@, query),
        rib_wf(final(rib)@),
{
    match query.record_type {
        GDPNameRecordType::EMPTY => {
            RibReply { responses: Vec::new(), anomaly: Some(RibAnomaly::EmptyRequest) }
        },
        GDPNameRecordType::QUERY => {
            match rib.get(query.gdpname) {
                Some(records) => {
                    if records.len() > 0 {
                        RibReply { responses: copy_records(records), anomaly: None }
                    } else {
                        RibReply { responses: vec![GDPNameRecord::empty(query.gdpname)], anomaly: None }
                    }
                },
                None => {
                    RibReply {
                        responses: vec![GDPNameRecord::empty(query.gdpname)],
                        anomaly: Some(RibAnomaly::UnknownName(query.gdpname)),
                    }
                },
            }
        },
        GDPNameRecordType::MERGE => {
            rib.merge(query.gdpname, query);
            RibReply { responses: Vec::new(), anomaly: None }
        },
        GDPNameRecordType::UPDATE => {
            rib.update(query.gdpname, query);
            RibReply { responses: Vec::new(), anomaly: None }
        },
        GDPNameRecordType::DELETE => {
            rib.delete(query.gdpname, query.payload, query.timestamp);
            RibReply { responses: Vec::new(), anomaly: None }
        },
    }
}

} // verus!

//! The routing record: the one value type that requests, stored facts and
//! query responses share.
use vstd::prelude::*;

verus! {

/// A global identity name, opaque to the routing base.
#[derive(Clone, Copy, Debug, PartialEq, Eq, Structural, Hash)]
pub struct GDPName(pub u32);

/// The role a record plays in the protocol.
#[allow(non_camel_case_types, clippy::upper_case_acronyms)]
#[derive(Clone, Copy, Debug, PartialEq, Eq, Structural, Hash)]
pub enum GDPNameRecordType {
    EMPTY,
    QUERY,
    MERGE,
    UPDATE,
    DELETE,
}

/// What a record says about its name.
#[derive(Clone, Copy, Debug, PartialEq, Eq, Structural, Hash)]
pub enum Payload {
    /// A handle of a connection-offer descriptor.
    Offer(u64),
    /// A network address: IPv4 address and port.
    Address(u32, u16),
    /// Another name to resolve instead.
    Indirect(GDPName),
}

/// A single routing fact (or request) about a name.
///
/// `origin` and `timestamp` form the logical clock of the record: the
/// timestamp is a counter that its origin increases monotonically.
#[derive(Clone, Copy, Debug, PartialEq, Eq, Structural, Hash)]
pub struct GDPNameRecord {
    pub record_type: GDPNameRecordType,
    pub gdpname: GDPName,
    pub payload: Option<Payload>,
    pub origin: u64,
    pub timestamp: u64,
}

/// Two records state the same fact: same payload, same origin, same counter.
pub open spec fn same_fact(a: GDPNameRecord, b: GDPNameRecord) -> bool {
    &&& a.payload == b.payload
    &&& a.origin == b.origin
    &&& a.timestamp == b.timestamp
}

/// The synthetic record that answers a query for a name with no live facts.
pub open spec fn empty_record_spec(name: GDPName) -> GDPNameRecord {
    GDPNameRecord {
        record_type: GDPNameRecordType::EMPTY,
        gdpname: name,
        payload: None,
        origin: 0,
        timestamp: 0,
    }
}

impl GDPNameRecord {
    /// An `EMPTY` record for `name`: it carries no payload.
    pub fn empty(name: GDPName) -> (r: GDPNameRecord)
        ensures
            r == empty_record_spec(name),
    {
        GDPNameRecord {
            record_type: GDPNameRecordType::EMPTY,
            gdpname: name,
            payload: None,
            origin: 0,
            timestamp: 0,
        }
    }

    /// A `QUERY` record for `name`: it carries no payload.
    pub fn query(name: GDPName) -> (r: GDPNameRecord)
        ensures
            r.record_type == GDPNameRecordType::QUERY,
            r.gdpname == name,
            r.payload.is_none(),
            r.origin == 0,
            r.timestamp == 0,
    {
        GDPNameRecord {
            record_type: GDPNameRecordType::QUERY,
            gdpname: name,
            payload: None,
            origin: 0,
            timestamp: 0,
        }
    }

    /// A record of kind `record_type` stating `payload` for `name`, stamped
    /// with the logical clock `(origin, timestamp)`.
    pub fn fact(
        record_type: GDPNameRecordType,
        name: GDPName,
        payload: Payload,
        origin: u64,
        timestamp: u64,
    ) -> (r: GDPNameRecord)
        ensures
            r.record_type == record_type,
            r.gdpname == name,
            r.payload == Some(payload),
            r.origin == origin,
            r.timestamp == timestamp,
    {
        GDPNameRecord { record_type, gdpname: name, payload: Some(payload), origin, timestamp }
    }
}

/// Whether two records state the same fact.
pub fn is_same_fact(a: &GDPNameRecord, b: &GDPNameRecord) -> (r: bool)
    ensures
        r == same_fact(*a, *b),
{
    a.payload == b.payload && a.origin == b.origin && a.timestamp == b.timestamp
}

} // verus!

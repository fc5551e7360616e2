//! The data model: typed blocked addresses, registry records, the
//! parsed list, and the parse error taxonomy.
//!
//! Every type carries a mathematical view: an address is modeled with
//! its text payloads as character sequences, a record as its sorted
//! address models plus the plain fields, the list as the update
//! timestamp plus the record models in input order.

use vstd::prelude::*;

use crate::addresses::Addresses;
use crate::datetime::{Date, DateTime};

verus! {

/// An IPv4 address as its four dotted-quad octets.
#[derive(Clone, Copy, Debug, PartialEq, Eq, Structural)]
pub struct Ipv4 {
    pub a: u8,
    pub b: u8,
    pub c: u8,
    pub d: u8,
}

/// Internet address blocked by the registry.
#[derive(Clone, Debug, PartialEq, Eq)]
pub enum Address {
    /// Blocked by IPv4 address.
    IPv4(Ipv4),
    /// Blocked by IPv4 subnet: address and prefix length (at most 32).
    IPv4Network(Ipv4, u8),
    /// Blocked by domain name.
    DomainName(String),
    /// Blocked by wildcard domain name (the token begins with `*`).
    WildcardDomainName(String),
    /// Blocked by URL, held in its canonical serialization.
    URL(String),
}

/// Mathematical model of an [`Address`]: the same variants with the
/// text payloads as character sequences.
#[verifier::ext_equal]
pub enum AddrModel {
    IPv4(Ipv4),
    IPv4Network(Ipv4, u8),
    DomainName(Seq<char>),
    WildcardDomainName(Seq<char>),
    URL(Seq<char>),
}

impl View for Address {
    type V = AddrModel;

    open spec fn view(&self) -> AddrModel {
        match self {
            Address::IPv4(ip) => AddrModel::IPv4(*ip),
            Address::IPv4Network(ip, p) => AddrModel::IPv4Network(*ip, *p),
            Address::DomainName(s) => AddrModel::DomainName(s@),
            Address::WildcardDomainName(s) => AddrModel::WildcardDomainName(s@),
            Address::URL(s) => AddrModel::URL(s@),
        }
    }
}

/// One record of the registry: the blocked addresses plus the order
/// metadata of the row.
#[derive(Clone, Debug, PartialEq, Eq)]
pub struct Record {
    /// Blocked addresses, unique and iterated in sorted order.
    pub addresses: Addresses,
    /// Name of the organization that requested blocking.
    pub organization: String,
    /// ID of the official order.
    pub order_id: String,
    /// Date of the official order.
    pub order_date: Date,
}

/// Mathematical model of a [`Record`].
#[verifier::ext_equal]
pub struct RecordModel {
    pub addresses: Seq<AddrModel>,
    pub organization: Seq<char>,
    pub order_id: Seq<char>,
    pub order_date: Date,
}

impl View for Record {
    type V = RecordModel;

    open spec fn view(&self) -> RecordModel {
        RecordModel {
            addresses: self.addresses@,
            organization: self.organization@,
            order_id: self.order_id@,
            order_date: self.order_date,
        }
    }
}

/// The fully parsed document: update timestamp and records in input
/// row order.
#[derive(Clone, Debug, PartialEq, Eq)]
pub struct List {
    /// Date of the last update of the list, normalized to UTC.
    pub updated: DateTime,
    /// The records, one per data row, in input order.
    pub records: Vec<Record>,
}

/// Mathematical model of a [`List`].
#[verifier::ext_equal]
pub struct ListModel {
    pub updated: DateTime,
    pub records: Seq<RecordModel>,
}

impl View for List {
    type V = ListModel;

    open spec fn view(&self) -> ListModel {
        ListModel { updated: self.updated, records: self.records@.map_values(|r: Record| r@) }
    }
}

/// Why a parse failed. Every failure is fatal to the parse that hit it.
#[derive(Clone, Copy, Debug, PartialEq, Eq, Structural)]
pub enum ParseError {
    /// A byte sequence has no valid mapping under the legacy encoding.
    /// The bundled windows-1251 table maps every byte, so the decoder
    /// of this crate never reports it; the kind remains part of the
    /// taxonomy for callers that must be ready for a partial table.
    Encoding,
    /// The header line lacks the `:` separating the label from the
    /// timestamp.
    HeaderFormat,
    /// The header timestamp does not match `YYYY-MM-DD HH:MM:SS +HHMM`.
    TimestampFormat,
    /// An order date does not match `YYYY-MM-DD`.
    DateFormat,
    /// A data row does not hold exactly six fields; carries the 1-based
    /// input line number (the header is line 1) and the observed count.
    FieldCount { line: usize, count: usize },
    /// An address, network or URL token fails its variant's grammar.
    AddressFormat,
    /// Malformed quoting at the raw tokenization level; carries the
    /// 1-based input line number.
    Tokenization { line: usize },
}

} // verus!

//! Federated resolver for product identifiers: from what is scanned on a
//! product to the links published for it.
//!
//! - Carriers are normalized to identifiers: GS1 Digital Link ([`gs1dl`]), GB/T
//!   33993 ([`gbt33993`]) and ISO/IEC 15459 URNs, all through [`carrier`].
//! - Identifiers are resolved to linksets ([`store`], [`entry`]): which links
//!   are in force at an instant, which of them match the context of the request
//!   and which come first ([`context`], [`negotiate`], [`render`]), as RFC 9264
//!   documents ([`linkset`]).
//! - Every change is a record in an append-only history ([`record`]), and the
//!   state is what the history says; a journal of it can be replayed.
//! - Dark identities cannot be told from unknown ones.
//! - What is absent here can be asked of an upstream resolver ([`proxy`]).
//!
//! [`api`] and [`admin`] take requests as plain values and give replies as
//! such; what serves them over HTTP stands outside of this crate. JSON text is
//! read and printed by `serde_json` ([`json`]).

pub mod admin;
pub mod admin_laws;
pub mod answer_laws;
pub mod api;
pub mod carrier;
pub mod carrier_laws;
pub mod config;
pub mod context;
pub mod discovery;
pub mod document_laws;
pub mod entry;
pub mod gbt33993;
pub mod gs1dl;
pub mod json;
pub mod laws;
pub mod linkset;
pub mod negotiate;
pub mod proxy;
pub mod record;
pub mod render;
pub mod reply;
mod shelf;
pub mod store;
pub mod text;
pub mod text_laws;
pub mod time;
pub mod urls;

pub use carrier::{parse_carrier, CarrierKind, CarrierLookup, CarrierParse, ResolvedIdentifier};
pub use config::Config;
pub use context::{EntryRouting, RequestContext};
pub use entry::LinkEntry;
pub use gs1dl::{gs1_check_digit, parse_gs1_digital_link, valid_gtin};
pub use json::Json;
pub use linkset::{emit_document, parse_document};
pub use negotiate::{ACCEPT_CONTEXTS, context_for_accept};
pub use record::{LogRecord, Op};
pub use reply::Reply;
pub use store::{Lookup, Store};
pub use time::Timestamp;

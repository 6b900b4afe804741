//! A DNS wire codec and the decision logic of a filtering, caching DNS
//! forwarder: byte-exact packet decoding and size-bounded encoding, hashed
//! deny and hosts lists, a response cache, and the per-query resolution steps.

pub mod error;
pub mod buf;
pub mod label_cache;
pub mod name;
pub mod codec;
pub mod header;
pub mod utils;
pub mod question;
pub mod resource_record;
pub mod packet;
pub mod hash;
pub mod list_util;
pub mod denylist;
pub mod hosts;
pub mod packet_util;
pub mod cache;
pub mod resolver;
pub mod round_trip;
pub mod upstream;
pub mod query_log;
pub mod list_entry;
pub mod list_parse;

pub use buf::ByteBuf;
pub use cache::Cache;
pub use codec::EncodeToBuf;
pub use codec::EncodedSize;
pub use codec::FromBuf;
pub use denylist::Denylist;
pub use error::DnsError;
pub use header::DnsHeader;
pub use header::QueryOpcode;
pub use header::ResponseCode;
pub use hosts::Hosts;
pub use label_cache::LabelCache;
pub use packet::DnsPacket;
pub use question::QueryType;
pub use question::Question;
pub use question::IN_CLASS;
pub use resource_record::EdnsData;
pub use resource_record::EdnsOption;
pub use resource_record::ResourceData;
pub use resource_record::ResourceRecord;

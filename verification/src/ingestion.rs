//! The ingestion endpoint's decisions.
//!
//! A submission assigns the document a fresh identifier, wraps it in a
//! received event, and yields the broker record to publish: the event's
//! wire form, keyed by the identifier's text form so all events for one
//! document stay ordered. Success means accepted for processing, nothing
//! more; a broker failure is surfaced as an upstream error distinct from a
//! malformed-input error.

use vstd::prelude::*;
use vstd::string::StringExecFns;

use crate::codec::{enc_received, encode_received};
use crate::events::{DocumentPayload, DocumentReceivedEvent};
use crate::ident::{encode_doc_id, fresh_doc_id, uuid_str};

verus! {

/// Configuration for the ingestion endpoint.
pub struct Config {
    pub kafka_topic: String,
    pub kafka_broker: String,
    pub server_host: String,
    pub server_port: u16,
    pub kafka_timeout_ms: String,
    pub kafka_send_timeout_secs: u64,
}

impl Config {
    /// The fallback configuration used when no file is given.
    pub fn default_config() -> (r: Config)
        ensures
            r.kafka_topic@ == "resume_received"@,
            r.kafka_broker@ == "127.0.0.1:9092"@,
            r.server_host@ == "0.0.0.0"@,
            r.server_port == 3000,
            r.kafka_timeout_ms@ == "5000"@,
            r.kafka_send_timeout_secs == 2,
    {
        Config {
            kafka_topic: String::from_str("resume_received"),
            kafka_broker: String::from_str("127.0.0.1:9092"),
            server_host: String::from_str("0.0.0.0"),
            server_port: 3000,
            kafka_timeout_ms: String::from_str("5000"),
            kafka_send_timeout_secs: 2,
        }
    }
}

/// What the ingestion endpoint can fail with.
pub enum ApiError {
    SerializationError(String),
    KafkaPublishError(String),
}

/// The response status for an ingestion error: an encoding failure is an
/// internal error, a broker failure an upstream one, and the two are
/// always distinct.
pub open spec fn status_of(e: ApiError) -> int {
    match e {
        ApiError::SerializationError(_) => 500,
        ApiError::KafkaPublishError(_) => 502,
    }
}

impl ApiError {
    /// The HTTP status this error is reported with.
    pub fn status_code(&self) -> (r: u16)
        ensures
            r as int == status_of(*self),
            500 <= r < 600,
    {
        match self {
            ApiError::SerializationError(_) => 500,
            ApiError::KafkaPublishError(_) => 502,
        }
    }

    /// The error rendered as text.
    pub fn message(&self) -> (r: String)
        ensures
            self matches ApiError::SerializationError(e) ==> r@ == "Serialization error: "@ + e@,
            self matches ApiError::KafkaPublishError(e) ==> r@ == "Kafka publish error: "@ + e@,
    {
        match self {
            ApiError::SerializationError(e) => {
                let mut s = String::from_str("Serialization error: ");
                s.append(e.as_str());
                s
            },
            ApiError::KafkaPublishError(e) => {
                let mut s = String::from_str("Kafka publish error: ");
                s.append(e.as_str());
                s
            },
        }
    }
}

/// The status the endpoint replies with when the broker acknowledged the
/// publish: accepted for processing, not processed.
pub fn submit_status(outcome: &Result<(), ApiError>) -> (r: u16)
    ensures
        outcome is Ok ==> r == 202,
        outcome matches Err(e) ==> r as int == status_of(*e) && 500 <= r < 600,
{
    match outcome {
        Ok(_) => 202,
        Err(e) => e.status_code(),
    }
}

/// The liveness check: always healthy while the process runs.
pub fn health_check() -> (r: u16)
    ensures
        r == 200,
{
    200
}

/// Accept a document for ingestion: assign it a fresh identifier and build
/// the broker record to publish. The record's key is the identifier's text
/// form — the partition key that keeps one document's events ordered — and
/// its value is the received event's wire form.
pub fn prepare_submission(content: Vec<u8>) -> (r: (DocumentReceivedEvent, Vec<u8>, Vec<u8>))
    ensures
        r.0.wf(),
        r.0.payload.content@ == content@,
        r.1@ == uuid_str(r.0.payload.id@),
        r.2@ == enc_received(r.0.payload.id@, content@),
{
    let id = fresh_doc_id();
    let key = encode_doc_id(&id);
    let ev = DocumentReceivedEvent { payload: DocumentPayload { id, content } };
    let value = encode_received(&ev);
    (ev, key, value)
}

} // verus!

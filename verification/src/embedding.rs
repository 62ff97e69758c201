//! The embedding worker's decisions.
//!
//! Per message the worker moves through a fixed set of steps: parse the raw
//! broker bytes as a received event — on failure drop, never retry, never
//! crash — then, once inference has produced a vector, build a vectorized
//! event carrying the very same document identifier and the broker record
//! to publish it under that identifier as key. The inference itself is an
//! outside, non-thread-safe resource driven by the surrounding process;
//! this module decides what to do with its results.

use vstd::prelude::*;
use vstd::string::StringExecFns;

use crate::codec::{decode_received, enc_received, enc_vectorized, encode_vectorized};
use crate::events::{DocumentPayload, DocumentVectorizedEvent};
use crate::ident::{encode_doc_id, uuid_str, DocId};
use crate::numtok::{check_num_token, is_num_token};

verus! {

/// The embedding dimension of the reference deployment's model.
pub const EMBEDDING_DIM: usize = 384;

/// Configuration for the embedding worker.
pub struct Config {
    pub kafka_broker: String,
    pub input_topic: String,
    pub output_topic: String,
    pub consumer_group: String,
    pub kafka_timeout_ms: String,
    pub kafka_send_timeout_secs: u64,
}

impl Config {
    /// The fallback configuration used when no file is given.
    pub fn default_config() -> (r: Config)
        ensures
            r.kafka_broker@ == "localhost:9092"@,
            r.input_topic@ == "resume_received"@,
            r.output_topic@ == "resume_vectorized"@,
            r.consumer_group@ == "vectorizer_group_v1"@,
            r.kafka_timeout_ms@ == "5000"@,
            r.kafka_send_timeout_secs == 5,
    {
        Config {
            kafka_broker: String::from_str("localhost:9092"),
            input_topic: String::from_str("resume_received"),
            output_topic: String::from_str("resume_vectorized"),
            consumer_group: String::from_str("vectorizer_group_v1"),
            kafka_timeout_ms: String::from_str("5000"),
            kafka_send_timeout_secs: 5,
        }
    }
}

/// What the embedding worker can fail with. Every failure ends in the
/// message being dropped; none is retried.
pub enum WorkerError {
    ModelInitError(String),
    InferenceError(String),
    KafkaError(String),
    SerializationError(String),
}

impl WorkerError {
    /// The error rendered as text.
    pub fn message(&self) -> (r: String)
        ensures
            self matches WorkerError::ModelInitError(e) ==> r@ == "Model initialization error: "@
                + e@,
            self matches WorkerError::InferenceError(e) ==> r@ == "Inference error: "@ + e@,
            self matches WorkerError::KafkaError(e) ==> r@ == "Kafka error: "@ + e@,
            self matches WorkerError::SerializationError(e) ==> r@ == "Serialization error: "@
                + e@,
    {
        match self {
            WorkerError::ModelInitError(e) => {
                let mut s = String::from_str("Model initialization error: ");
                s.append(e.as_str());
                s
            },
            WorkerError::InferenceError(e) => {
                let mut s = String::from_str("Inference error: ");
                s.append(e.as_str());
                s
            },
            WorkerError::KafkaError(e) => {
                let mut s = String::from_str("Kafka error: ");
                s.append(e.as_str());
                s
            },
            WorkerError::SerializationError(e) => {
                let mut s = String::from_str("Serialization error: ");
                s.append(e.as_str());
                s
            },
        }
    }
}

/// The worker's first decision on a raw broker message: the parsed payload
/// to embed, or nothing — the message is dropped, the loop goes on.
/// Exactly the wire forms of received events are accepted.
pub fn accept_received(msg: &Vec<u8>) -> (r: Option<DocumentPayload>)
    ensures
        r matches Some(p) ==> p.wf() && msg@ == enc_received(p.id@, p.content@),
        forall|id: Seq<u8>, c: Seq<u8>|
            id.len() == 16 && msg@ == enc_received(id, c) ==> (r matches Some(p) && p.id@ == id
                && p.content@ == c),
{
    match decode_received(msg) {
        Some(ev) => Some(ev.payload),
        None => None,
    }
}

/// Build the vectorized event for a document once inference has produced
/// its vector: the event carries the same identifier, and is built exactly
/// when the vector has the configured dimension and every element is a
/// valid number token.
pub fn build_vectorized(id: &DocId, vector: Vec<Vec<u8>>, dim: usize) -> (r: Option<
    DocumentVectorizedEvent,
>)
    requires
        id.wf(),
    ensures
        r matches Some(ev) ==> ev.wf() && ev.id@ == id@ && ev.vector.deep_view()
            == vector.deep_view() && ev.vector@.len() == dim,
        r is Some <==> (vector@.len() == dim && forall|j: int|
            0 <= j < vector.deep_view().len() ==> is_num_token(#[trigger] vector.deep_view()[j])),
{
    if vector.len() != dim {
        return None;
    }
    let n = vector.len();
    let mut j: usize = 0;
    while j < n
        invariant
            j <= n,
            n == vector@.len(),
            forall|d: int| 0 <= d < j ==> is_num_token(#[trigger] vector.deep_view()[d]),
        decreases n - j,
    {
        if !check_num_token(&vector[j]) {
            proof {
                assert(vector.deep_view()[j as int] == vector@[j as int]@);
            }
            return None;
        }
        proof {
            assert(vector.deep_view()[j as int] == vector@[j as int]@);
        }
        j += 1;
    }
    Some(DocumentVectorizedEvent { id: id.clone(), vector })
}

/// The broker record that publishes a vectorized event: keyed by the same
/// identifier's text form, carrying the event's wire form.
pub fn prepare_vectorized_publish(ev: &DocumentVectorizedEvent) -> (r: (Vec<u8>, Vec<u8>))
    requires
        ev.wf(),
    ensures
        r.0@ == uuid_str(ev.id@),
        r.1@ == enc_vectorized(ev.id@, ev.vector.deep_view()),
{
    let key = encode_doc_id(&ev.id);
    let value = encode_vectorized(ev);
    (key, value)
}

} // verus!

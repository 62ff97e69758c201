//! Stage-level contracts: configuration defaults, error rendering, and the
//! ingestion endpoint's response statuses.

use resume_pipeline::embedding;
use resume_pipeline::indexing;
use resume_pipeline::ingestion;
use resume_pipeline::ingestion::{health_check, submit_status, ApiError};
use resume_pipeline::embedding::WorkerError;
use resume_pipeline::indexing::IndexerError;

#[test]
fn ingestion_default_config() {
    let c = ingestion::Config::default_config();
    assert_eq!(c.kafka_topic, "resume_received");
    assert_eq!(c.kafka_broker, "127.0.0.1:9092");
    assert_eq!(c.server_host, "0.0.0.0");
    assert_eq!(c.server_port, 3000);
    assert_eq!(c.kafka_timeout_ms, "5000");
    assert_eq!(c.kafka_send_timeout_secs, 2);
}

#[test]
fn embedding_default_config() {
    let c = embedding::Config::default_config();
    assert_eq!(c.kafka_broker, "localhost:9092");
    assert_eq!(c.input_topic, "resume_received");
    assert_eq!(c.output_topic, "resume_vectorized");
    assert_eq!(c.consumer_group, "vectorizer_group_v1");
    assert_eq!(c.kafka_timeout_ms, "5000");
    assert_eq!(c.kafka_send_timeout_secs, 5);
}

#[test]
fn indexing_default_config() {
    let c = indexing::Config::default_config();
    assert_eq!(c.kafka_broker, "localhost:9092");
    assert_eq!(c.input_topic, "resume_vectorized");
    assert_eq!(c.consumer_group, "indexer_group_v1");
    assert_eq!(c.qdrant_grpc_url, "http://localhost:6334");
    assert_eq!(c.collection_name, "resumes");
}

#[test]
fn submit_statuses_distinguish_failures() {
    // success: accepted for processing
    assert_eq!(submit_status(&Ok(())), 202);
    // broker unavailable: an upstream 5xx ...
    let upstream = submit_status(&Err(ApiError::KafkaPublishError("broker down".to_string())));
    assert_eq!(upstream, 502);
    assert!((500..600).contains(&upstream));
    // ... distinct from the internal serialization failure
    let internal = submit_status(&Err(ApiError::SerializationError("bad".to_string())));
    assert_eq!(internal, 500);
    assert_ne!(upstream, internal);
}

#[test]
fn health_check_always_healthy() {
    assert_eq!(health_check(), 200);
}

#[test]
fn api_error_messages() {
    let e = ApiError::SerializationError("oops".to_string());
    assert_eq!(e.message(), "Serialization error: oops");
    assert_eq!(e.status_code(), 500);
    let e = ApiError::KafkaPublishError("down".to_string());
    assert_eq!(e.message(), "Kafka publish error: down");
    assert_eq!(e.status_code(), 502);
}

#[test]
fn worker_error_messages() {
    assert_eq!(
        WorkerError::ModelInitError("m".to_string()).message(),
        "Model initialization error: m"
    );
    assert_eq!(WorkerError::InferenceError("i".to_string()).message(), "Inference error: i");
    assert_eq!(WorkerError::KafkaError("k".to_string()).message(), "Kafka error: k");
    assert_eq!(
        WorkerError::SerializationError("s".to_string()).message(),
        "Serialization error: s"
    );
}

#[test]
fn indexer_error_messages() {
    assert_eq!(
        IndexerError::QdrantConnectionError("c".to_string()).message(),
        "Qdrant connection error: c"
    );
    assert_eq!(
        IndexerError::QdrantUpsertError("u".to_string()).message(),
        "Qdrant upsert error: u"
    );
    assert_eq!(IndexerError::KafkaError("k".to_string()).message(), "Kafka error: k");
    assert_eq!(
        IndexerError::SerializationError("s".to_string()).message(),
        "Serialization error: s"
    );
}

#[test]
fn embedding_dimension_constant() {
    assert_eq!(embedding::EMBEDDING_DIM, 384);
}

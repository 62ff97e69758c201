//! End-to-end pipeline scenarios: identity propagation across the hops,
//! idempotent upserts, independence of distinct documents, and poison
//! messages that are dropped without stopping the loop.

use resume_pipeline::embedding::{accept_received, build_vectorized, prepare_vectorized_publish,
    EMBEDDING_DIM};
use resume_pipeline::codec::{encode_received, encode_vectorized};
use resume_pipeline::events::{DocumentPayload, DocumentReceivedEvent, DocumentVectorizedEvent};
use resume_pipeline::ident::{decode_doc_id, DocId};
use resume_pipeline::indexing::{accept_vectorized, process_vector_event, VectorStore};
use resume_pipeline::ingestion::prepare_submission;

fn fixed_id(last: u8) -> DocId {
    let mut bytes = vec![0u8; 16];
    bytes[15] = last;
    DocId::from_bytes(bytes).unwrap()
}

#[test]
fn submission_scenario_full_pipeline() {
    // Ingestion: the endpoint assigns an identifier and prepares the record.
    let content = b"Senior engineer, 8 years, distributed systems".to_vec();
    let (ev, key, wire) = prepare_submission(content.clone());
    assert_eq!(key.len(), 36);
    assert_eq!(ev.payload.content, content);

    // Embedding worker: parse, embed, publish under the same identifier.
    let payload = accept_received(&wire).expect("a published event must parse");
    assert_eq!(payload.id.as_bytes(), ev.payload.id.as_bytes());
    assert_eq!(payload.content, content);
    let vector: Vec<Vec<u8>> = (0..EMBEDDING_DIM).map(|i| format!("{}.5", i).into_bytes()).collect();
    let vev = build_vectorized(&payload.id, vector.clone(), EMBEDDING_DIM)
        .expect("a full-dimension vector must be accepted");
    assert_eq!(vev.vector.len(), EMBEDDING_DIM);
    let (vkey, vwire) = prepare_vectorized_publish(&vev);
    assert_eq!(vkey, key);

    // Indexing worker: parse, derive the point, upsert.
    let got = accept_vectorized(&vwire).expect("a published event must parse");
    assert_eq!(got.id.as_bytes(), ev.payload.id.as_bytes());
    let point = process_vector_event(got);
    assert_eq!(point.point_id, key);
    assert_eq!(point.vector, vector);

    // The point identifier decodes back to the original document identifier.
    let back = decode_doc_id(&point.point_id).expect("the point id is the lossless text form");
    assert_eq!(back.as_bytes(), ev.payload.id.as_bytes());

    let mut store = VectorStore::new();
    store.upsert(point);
    let held = store.lookup(&key).expect("one stored point under that id");
    assert_eq!(*held, vector);
}

#[test]
fn identifier_survives_both_hops() {
    let id = fixed_id(7);
    let ev = DocumentReceivedEvent {
        payload: DocumentPayload { id, content: b"text".to_vec() },
    };
    let wire = encode_received(&ev);
    let payload = accept_received(&wire).unwrap();
    assert_eq!(payload.id.as_bytes(), ev.payload.id.as_bytes());
    let vev = build_vectorized(&payload.id, vec![b"1".to_vec()], 1).unwrap();
    assert_eq!(vev.id.as_bytes(), ev.payload.id.as_bytes());
    let (_, vwire) = prepare_vectorized_publish(&vev);
    let got = accept_vectorized(&vwire).unwrap();
    assert_eq!(got.id.as_bytes(), ev.payload.id.as_bytes());
}

#[test]
fn fresh_identifiers_are_version_four() {
    let (_, key, _) = prepare_submission(b"a".to_vec());
    // canonical form: hyphens in place, version nibble 4
    assert_eq!(key[8], b'-');
    assert_eq!(key[13], b'-');
    assert_eq!(key[18], b'-');
    assert_eq!(key[23], b'-');
    assert_eq!(key[14], b'4');
    let parsed = uuid::Uuid::parse_str(std::str::from_utf8(&key).unwrap()).unwrap();
    assert_eq!(parsed.get_version_num(), 4);
}

#[test]
fn distinct_documents_get_distinct_points() {
    // two documents with identical content still index independently
    let content = b"same content".to_vec();
    let (ev1, key1, _) = prepare_submission(content.clone());
    let (ev2, key2, _) = prepare_submission(content.clone());
    assert_ne!(ev1.payload.id.as_bytes(), ev2.payload.id.as_bytes());
    assert_ne!(key1, key2);

    let mut store = VectorStore::new();
    let v1 = vec![b"1".to_vec()];
    let v2 = vec![b"2".to_vec()];
    let p1 = process_vector_event(build_vectorized(&ev1.payload.id, v1.clone(), 1).unwrap());
    let p2 = process_vector_event(build_vectorized(&ev2.payload.id, v2.clone(), 1).unwrap());
    store.upsert(p1);
    store.upsert(p2);
    assert_eq!(*store.lookup(&key1).unwrap(), v1);
    assert_eq!(*store.lookup(&key2).unwrap(), v2);
}

#[test]
fn upsert_same_identifier_twice_keeps_latest() {
    let id = fixed_id(9);
    let key = resume_pipeline::ident::encode_doc_id(&id);
    let v1 = vec![b"1".to_vec(), b"2".to_vec()];
    let v2 = vec![b"3".to_vec(), b"4".to_vec()];
    let mut store = VectorStore::new();
    let e1 = DocumentVectorizedEvent { id: id.clone(), vector: v1 };
    store.upsert(process_vector_event(e1));
    let e2 = DocumentVectorizedEvent { id, vector: v2.clone() };
    store.upsert(process_vector_event(e2));
    let held = store.lookup(&key).expect("exactly one point under the id");
    assert_eq!(*held, v2);
}

#[test]
fn lookup_of_absent_point_is_none() {
    let store = VectorStore::new();
    assert!(store.lookup(&b"missing".to_vec()).is_none());
}

#[test]
fn poison_message_is_dropped_and_loop_goes_on() {
    // embedding worker: a malformed message yields no work ...
    let poison = b"{\"payload\":oops".to_vec();
    assert!(accept_received(&poison).is_none());
    // ... and the next, valid message is still processed
    let ev = DocumentReceivedEvent {
        payload: DocumentPayload { id: fixed_id(1), content: b"ok".to_vec() },
    };
    let wire = encode_received(&ev);
    assert!(accept_received(&wire).is_some());

    // indexing worker, same discipline
    assert!(accept_vectorized(&poison).is_none());
    let vev = DocumentVectorizedEvent { id: fixed_id(2), vector: vec![b"1".to_vec()] };
    let vwire = encode_vectorized(&vev);
    assert!(accept_vectorized(&vwire).is_some());
}

#[test]
fn build_vectorized_enforces_dimension_and_tokens() {
    let id = fixed_id(3);
    // wrong dimension
    assert!(build_vectorized(&id, vec![b"1".to_vec()], 2).is_none());
    // invalid token
    assert!(build_vectorized(&id, vec![b"1..2".to_vec()], 1).is_none());
    assert!(build_vectorized(&id, vec![b"".to_vec()], 1).is_none());
    assert!(build_vectorized(&id, vec![b"01".to_vec()], 1).is_none());
    // valid tokens of every number shape
    let toks = vec![b"0".to_vec(), b"-0.5".to_vec(), b"1e9".to_vec(), b"2E+3".to_vec()];
    assert!(build_vectorized(&id, toks, 4).is_some());
}

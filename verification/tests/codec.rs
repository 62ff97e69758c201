//! Wire-format tests: the identifier text form against the uuid crate, the
//! event encodings against real JSON, and rejection of malformed input.

use resume_pipeline::codec::{decode_received, decode_vectorized, encode_received,
    encode_vectorized};
use resume_pipeline::events::{DocumentPayload, DocumentReceivedEvent, DocumentVectorizedEvent};
use resume_pipeline::ident::{decode_doc_id, encode_doc_id, DocId};

fn sample_id() -> DocId {
    DocId::from_bytes((0u8..16).collect()).unwrap()
}

#[test]
fn doc_id_encoding_matches_uuid_crate() {
    let bytes: Vec<u8> = vec![
        0x12, 0x34, 0x56, 0x78, 0x9a, 0xbc, 0xde, 0xf0, 0x0f, 0xed, 0xcb, 0xa9, 0x87, 0x65, 0x43,
        0x21,
    ];
    let id = DocId::from_bytes(bytes.clone()).unwrap();
    let text = encode_doc_id(&id);
    let expected = uuid::Uuid::from_bytes(bytes.clone().try_into().unwrap()).to_string();
    assert_eq!(text, expected.as_bytes().to_vec());
    let parsed = uuid::Uuid::parse_str(std::str::from_utf8(&text).unwrap()).unwrap();
    assert_eq!(parsed.as_bytes().to_vec(), bytes);
}

#[test]
fn doc_id_round_trip() {
    let id = sample_id();
    let text = encode_doc_id(&id);
    let back = decode_doc_id(&text).unwrap();
    assert_eq!(back.as_bytes(), id.as_bytes());
}

#[test]
fn doc_id_decode_rejects_bad_forms() {
    let id = sample_id();
    let text = encode_doc_id(&id);
    // uppercase digit
    let mut upper = text.clone();
    upper[0] = b'A';
    assert!(decode_doc_id(&upper).is_none());
    // wrong length
    let short = text[..35].to_vec();
    assert!(decode_doc_id(&short).is_none());
    // hyphen replaced
    let mut nohyphen = text.clone();
    nohyphen[8] = b'0';
    assert!(decode_doc_id(&nohyphen).is_none());
    // non-hex byte
    let mut nonhex = text;
    nonhex[0] = b'g';
    assert!(decode_doc_id(&nonhex).is_none());
}

#[test]
fn received_encoding_exact_bytes() {
    let ev = DocumentReceivedEvent {
        payload: DocumentPayload { id: sample_id(), content: b"hi".to_vec() },
    };
    let bytes = encode_received(&ev);
    let expected =
        b"{\"payload\":{\"id\":\"00010203-0405-0607-0809-0a0b0c0d0e0f\",\"content\":\"hi\"}}";
    assert_eq!(bytes, expected.to_vec());
}

#[test]
fn received_encoding_is_valid_json() {
    let content = "a \"quoted\" \\ backslash \n tab\t and bell\u{7}";
    let ev = DocumentReceivedEvent {
        payload: DocumentPayload { id: sample_id(), content: content.as_bytes().to_vec() },
    };
    let bytes = encode_received(&ev);
    let v: serde_json::Value = serde_json::from_slice(&bytes).unwrap();
    assert_eq!(v["payload"]["content"].as_str().unwrap(), content);
    assert_eq!(
        v["payload"]["id"].as_str().unwrap(),
        "00010203-0405-0607-0809-0a0b0c0d0e0f"
    );
}

#[test]
fn received_round_trip_with_escapes() {
    let content = b"line1\nline2 \"x\" c:\\dir \x01\x1f".to_vec();
    let ev = DocumentReceivedEvent {
        payload: DocumentPayload { id: sample_id(), content: content.clone() },
    };
    let bytes = encode_received(&ev);
    let back = decode_received(&bytes).unwrap();
    assert_eq!(back.payload.content, content);
    assert_eq!(back.payload.id.as_bytes(), ev.payload.id.as_bytes());
}

#[test]
fn received_decode_rejects_malformed() {
    assert!(decode_received(&b"".to_vec()).is_none());
    assert!(decode_received(&b"{}".to_vec()).is_none());
    assert!(decode_received(&b"not json at all".to_vec()).is_none());
    let ev = DocumentReceivedEvent {
        payload: DocumentPayload { id: sample_id(), content: b"hi".to_vec() },
    };
    let good = encode_received(&ev);
    // truncated
    assert!(decode_received(&good[..good.len() - 1].to_vec()).is_none());
    // renamed field
    let renamed = String::from_utf8(good.clone()).unwrap().replace("content", "Content");
    assert!(decode_received(&renamed.into_bytes()).is_none());
    // raw control byte inside the string
    let mut raw = good;
    let pos = raw.len() - 4;
    raw[pos] = 0x01;
    assert!(decode_received(&raw).is_none());
}

#[test]
fn vectorized_encoding_exact_bytes() {
    let ev = DocumentVectorizedEvent {
        id: sample_id(),
        vector: vec![b"0.25".to_vec(), b"-1e-3".to_vec(), b"7".to_vec()],
    };
    let bytes = encode_vectorized(&ev);
    let expected =
        b"{\"id\":\"00010203-0405-0607-0809-0a0b0c0d0e0f\",\"vector\":[0.25,-1e-3,7]}";
    assert_eq!(bytes, expected.to_vec());
}

#[test]
fn vectorized_encoding_is_valid_json() {
    let ev = DocumentVectorizedEvent {
        id: sample_id(),
        vector: vec![b"0.25".to_vec(), b"-1e-3".to_vec()],
    };
    let bytes = encode_vectorized(&ev);
    let v: serde_json::Value = serde_json::from_slice(&bytes).unwrap();
    assert_eq!(v["id"].as_str().unwrap(), "00010203-0405-0607-0809-0a0b0c0d0e0f");
    let arr = v["vector"].as_array().unwrap();
    assert_eq!(arr.len(), 2);
    assert_eq!(arr[0].as_f64().unwrap(), 0.25);
    assert_eq!(arr[1].as_f64().unwrap(), -0.001);
}

#[test]
fn vectorized_round_trip() {
    let ev = DocumentVectorizedEvent {
        id: sample_id(),
        vector: vec![b"1".to_vec(), b"2.5".to_vec(), b"-3e7".to_vec()],
    };
    let bytes = encode_vectorized(&ev);
    let back = decode_vectorized(&bytes).unwrap();
    assert_eq!(back.id.as_bytes(), ev.id.as_bytes());
    assert_eq!(back.vector, ev.vector);
}

#[test]
fn vectorized_empty_vector_round_trip() {
    let ev = DocumentVectorizedEvent { id: sample_id(), vector: vec![] };
    let bytes = encode_vectorized(&ev);
    assert_eq!(
        bytes,
        b"{\"id\":\"00010203-0405-0607-0809-0a0b0c0d0e0f\",\"vector\":[]}".to_vec()
    );
    let back = decode_vectorized(&bytes).unwrap();
    assert!(back.vector.is_empty());
}

#[test]
fn vectorized_decode_rejects_malformed() {
    assert!(decode_vectorized(&b"".to_vec()).is_none());
    assert!(decode_vectorized(&b"{\"id\":\"xyz\",\"vector\":[]}".to_vec()).is_none());
    let ev = DocumentVectorizedEvent { id: sample_id(), vector: vec![b"1".to_vec()] };
    let good = encode_vectorized(&ev);
    assert!(decode_vectorized(&good[..good.len() - 1].to_vec()).is_none());
    // an invalid number token
    let bad = String::from_utf8(good.clone()).unwrap().replace("[1]", "[1..2]");
    assert!(decode_vectorized(&bad.into_bytes()).is_none());
    // trailing comma
    let trailing = String::from_utf8(good).unwrap().replace("[1]", "[1,]");
    assert!(decode_vectorized(&trailing.into_bytes()).is_none());
}

#[test]
fn doc_id_from_bytes_requires_sixteen() {
    assert!(DocId::from_bytes(vec![0u8; 15]).is_none());
    assert!(DocId::from_bytes(vec![0u8; 17]).is_none());
    assert!(DocId::from_bytes(vec![0u8; 16]).is_some());
}

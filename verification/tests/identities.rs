//! Identity answers: parsing, merging across agents and encoding.

use lanyard_ssh_agent::identities::{encode_answer, merge_answers, parse_answer};

fn append_string(message: &mut Vec<u8>, value: &[u8]) {
    message.extend((value.len() as u32).to_be_bytes());
    message.extend(value);
}

fn identities_response(identities: &[(&[u8], &[u8])]) -> Vec<u8> {
    let mut response = vec![12];
    response.extend((identities.len() as u32).to_be_bytes());
    for (key, comment) in identities {
        append_string(&mut response, key);
        append_string(&mut response, comment);
    }
    response
}

fn owned(identities: &[(&[u8], &[u8])]) -> Vec<(Vec<u8>, Vec<u8>)> {
    identities.iter().map(|(key, comment)| (key.to_vec(), comment.to_vec())).collect()
}

#[test]
fn parses_a_well_formed_answer() {
    let answer = identities_response(&[(b"key-one", b"first"), (b"key-two", b"")]);
    assert_eq!(parse_answer(&answer), Some(owned(&[(b"key-one", b"first"), (b"key-two", b"")])));
    assert_eq!(parse_answer(&[12, 0, 0, 0, 0]), Some(Vec::new()));
}

#[test]
fn rejects_malformed_answers() {
    assert_eq!(parse_answer(&[]), None);
    assert_eq!(parse_answer(&[12, 0, 0]), None);
    assert_eq!(parse_answer(&[5]), None);
    assert_eq!(parse_answer(&[11, 0, 0, 0, 0]), None);
    assert_eq!(parse_answer(&[12, 0, 0, 0, 1]), None);
    let mut trailing = identities_response(&[(b"key", b"comment")]);
    trailing.push(0);
    assert_eq!(parse_answer(&trailing), None);
    let mut truncated = identities_response(&[(b"key", b"comment")]);
    truncated.pop();
    assert_eq!(parse_answer(&truncated), None);
    assert_eq!(parse_answer(&[12, 0, 0, 0, 1, 0, 0, 0, 9, b'k']), None);
}

#[test]
fn encodes_an_answer_exactly() {
    let identities = owned(&[(b"ab", b"c")]);
    assert_eq!(
        encode_answer(&identities, 64),
        Some(vec![12, 0, 0, 0, 1, 0, 0, 0, 2, b'a', b'b', 0, 0, 0, 1, b'c'])
    );
    assert_eq!(encode_answer(&Vec::new(), 5), Some(vec![12, 0, 0, 0, 0]));
    assert_eq!(encode_answer(&Vec::new(), 4), None);
    assert_eq!(encode_answer(&identities, 16), Some(vec![12, 0, 0, 0, 1, 0, 0, 0, 2, b'a', b'b', 0, 0, 0, 1, b'c']));
    assert_eq!(encode_answer(&identities, 15), None);
}

#[test]
fn an_encoded_answer_parses_back() {
    let identities = owned(&[(b"key-one", b"first"), (b"key-two", b"second")]);
    let encoded = encode_answer(&identities, 1024).expect("fits");
    assert_eq!(parse_answer(&encoded), Some(identities));
}

#[test]
fn merging_keeps_the_first_comment_of_each_key_in_candidate_order() {
    let answers = vec![
        identities_response(&[(b"key-one", b"registered")]),
        vec![12, 0, 0],
        identities_response(&[(b"key-one", b"duplicate"), (b"key-two", b"forwarded")]),
        identities_response(&[(b"key-three", b"fallback"), (b"key-two", b"again")]),
    ];
    assert_eq!(
        merge_answers(&answers, 256 * 1024),
        Some(identities_response(&[
            (b"key-one", b"registered"),
            (b"key-two", b"forwarded"),
            (b"key-three", b"fallback"),
        ]))
    );
}

#[test]
fn merging_deduplicates_within_one_answer() {
    let answers = vec![identities_response(&[(b"key", b"one"), (b"key", b"two")])];
    assert_eq!(merge_answers(&answers, 1024), Some(identities_response(&[(b"key", b"one")])));
}

#[test]
fn merging_needs_a_well_formed_answer() {
    assert_eq!(merge_answers(&Vec::new(), 1024), None);
    assert_eq!(merge_answers(&vec![vec![12, 0, 0], vec![5]], 1024), None);
    assert_eq!(merge_answers(&vec![vec![5], vec![12, 0, 0, 0, 0]], 1024), Some(vec![12, 0, 0, 0, 0]));
}

#[test]
fn merging_fails_when_the_union_exceeds_the_limit() {
    let large_key_a = vec![b'a'; 140_000];
    let large_key_b = vec![b'b'; 140_000];
    let answers = vec![
        identities_response(&[(&large_key_a, b"first")]),
        identities_response(&[(&large_key_b, b"fallback")]),
    ];
    assert_eq!(merge_answers(&answers, 256 * 1024), None);
    assert!(merge_answers(&answers, 512 * 1024).is_some());
}

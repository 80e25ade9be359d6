use ark_bls12_381::Fr;
use ark_ff::PrimeField;
use ark_serialize::CanonicalSerialize;
use de_kzg::protocol::master_challenge;
use de_kzg::transcript::{FsTranscript, ProofTranscript};

fn run(point: &[u8]) -> Vec<u8> {
    let mut t = FsTranscript::new(b"test");
    t.append_protocol_name(b"batch bivariate KZG at the same y");
    t.append_scalars(b"evals", &vec![vec![1u8; 32], vec![2u8; 32]]);
    t.append_point(b"combined_polynomial_x_beta", &point.to_vec());
    t.challenge_scalar(b"random_evaluate_point")
}

#[test]
fn challenges_are_deterministic_and_bind_the_transcript() {
    let a = run(&[3u8; 48]);
    let b = run(&[3u8; 48]);
    let c = run(&[4u8; 48]);
    assert_eq!(a, b);
    assert_ne!(a, c);
    assert_eq!(a.len(), 32);
}

#[test]
fn challenge_matches_merlin_and_reduction() {
    let mut t = FsTranscript::new(b"test");
    t.append_scalar(b"x", &vec![9u8; 32]);
    let c = t.challenge_scalar(b"c");
    let mut m = merlin::Transcript::new(b"test");
    m.append_message(b"x", &[9u8; 32]);
    let mut buf = [0u8; 64];
    m.challenge_bytes(b"c", &mut buf);
    let mut expect = Vec::new();
    Fr::from_le_bytes_mod_order(&buf)
        .serialize_compressed(&mut expect)
        .unwrap();
    assert_eq!(c, expect);
    let v = t.challenge_vector(b"v", 3);
    assert_eq!(v.len(), 3);
    assert_ne!(v[0], v[1]);
}

#[test]
fn master_hands_every_party_the_same_challenge() {
    let mut t = FsTranscript::new(b"test");
    let (c, copies) = master_challenge(&mut t, b"p", &vec![5u8; 48], b"eta", 4);
    assert_eq!(copies.len(), 4);
    assert!(copies.iter().all(|x| *x == c));
    let mut u = FsTranscript::new(b"test");
    u.append_point(b"p", &vec![5u8; 48]);
    assert_eq!(u.challenge_scalar(b"eta"), c);
}

#[test]
fn lists_are_framed_by_the_vector_markers() {
    let mut t = FsTranscript::new(b"test");
    t.append_scalars(b"evals", &vec![vec![1u8; 32], vec![2u8; 32]]);
    let c = t.challenge_scalar(b"c");
    let mut m = merlin::Transcript::new(b"test");
    m.append_message(b"evals", b"begin_append_vector");
    m.append_message(b"evals", &[1u8; 32]);
    m.append_message(b"evals", &[2u8; 32]);
    m.append_message(b"evals", b"end_append_vector");
    let mut buf = [0u8; 64];
    m.challenge_bytes(b"c", &mut buf);
    let mut expect = Vec::new();
    Fr::from_le_bytes_mod_order(&buf).serialize_compressed(&mut expect).unwrap();
    assert_eq!(c, expect);
}

#[test]
fn challenge_vector_equals_successive_challenges() {
    let mut a = FsTranscript::new(b"test");
    a.append_protocol_name(b"p");
    let v = a.challenge_vector(b"v", 3);
    let mut b = FsTranscript::new(b"test");
    b.append_protocol_name(b"p");
    let w: Vec<Vec<u8>> = (0..3).map(|_| b.challenge_scalar(b"v")).collect();
    assert_eq!(v, w);
    assert_eq!(a.challenge_scalar(b"after"), b.challenge_scalar(b"after"));
    let mut d = FsTranscript::new(b"other");
    d.append_protocol_name(b"p");
    assert_ne!(d.challenge_scalar(b"v"), w[0]);
}

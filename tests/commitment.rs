use ark_bls12_381::{Fr, G1Affine, G1Projective};
use ark_ec::{CurveGroup, Group, VariableBaseMSM};
use ark_ff::UniformRand;
use ark_serialize::CanonicalSerialize;
use ark_std::test_rng;
use de_kzg::error::NetError;
use de_kzg::frame::{decode_list, encode_list};
use de_kzg::protocol::{
    commit, commit_double_lagrange, de_commit_aggregate, de_commit_double_lagrange_share,
    de_commit_share, srs_share, sum_commitments, sum_evaluations,
    MasterResult,
};

fn enc<T: CanonicalSerialize>(x: &T) -> Vec<u8> {
    let mut out = Vec::new();
    x.serialize_compressed(&mut out).unwrap();
    out
}

struct Setup {
    powers: Vec<G1Affine>,
    polys: Vec<Vec<Vec<Fr>>>,
}

fn setup(parties: usize, width: usize, count: usize) -> Setup {
    let mut rng = test_rng();
    let g = G1Projective::generator();
    let powers = (0..parties * width)
        .map(|_| (g * Fr::rand(&mut rng)).into_affine())
        .collect();
    let polys = (0..count)
        .map(|_| {
            (0..parties)
                .map(|_| (0..width).map(|_| Fr::rand(&mut rng)).collect())
                .collect()
        })
        .collect();
    Setup { powers, polys }
}

fn encoded(s: &Setup) -> (Vec<Vec<u8>>, Vec<Vec<Vec<Vec<u8>>>>) {
    let powers = s.powers.iter().map(enc).collect();
    let polys = s
        .polys
        .iter()
        .map(|p| p.iter().map(|row| row.iter().map(enc).collect()).collect())
        .collect();
    (powers, polys)
}

#[test]
fn distributed_commit_equals_central_commit() {
    let (parties, width, count) = (4, 8, 4);
    let s = setup(parties, width, count);
    let (powers, polys) = encoded(&s);
    let central = commit(&powers, &polys).unwrap();
    assert_eq!(central.len(), count);

    // Each party commits to its own row of every polynomial.
    let mut payloads = Vec::new();
    for i in 0..parties {
        let sub = srs_share(&powers, i, width).unwrap();
        let rows: Vec<Vec<Vec<u8>>> = polys.iter().map(|p| p[i].clone()).collect();
        let share = de_commit_share(&sub, &rows).unwrap();
        assert_eq!(share.len(), count);
        payloads.push(encode_list(&share));
    }
    match de_commit_aggregate(Some(payloads.clone())).unwrap() {
        MasterResult::Master(v) => assert_eq!(v, central),
        MasterResult::Worker => panic!("the master gets the aggregate"),
    }
    assert!(matches!(de_commit_aggregate(None), Ok(MasterResult::Worker)));

    // The same value straight from arkworks over the whole polynomial.
    for (j, p) in s.polys.iter().enumerate() {
        let coeffs: Vec<Fr> = p.iter().flatten().cloned().collect();
        let direct = G1Projective::msm(&s.powers, &coeffs).unwrap();
        assert_eq!(central[j], enc(&direct));
    }
}

#[test]
fn single_party_commit_is_its_share() {
    let s = setup(1, 4, 2);
    let (powers, polys) = encoded(&s);
    let central = commit(&powers, &polys).unwrap();
    let rows: Vec<Vec<Vec<u8>>> = polys.iter().map(|p| p[0].clone()).collect();
    let share = de_commit_share(&powers, &rows).unwrap();
    assert_eq!(share, central);
    assert_ne!(share[0], powers[0]);
}

#[test]
fn malformed_shares_are_rejected() {
    let s = setup(2, 2, 1);
    let (powers, polys) = encoded(&s);
    assert!(matches!(commit(&powers, &vec![]), Err(NetError::BadShare)));
    assert!(matches!(commit(&powers[..3].to_vec(), &polys), Err(NetError::BadShare)));
    assert!(matches!(srs_share(&powers, 2, 2), Err(NetError::BadShare)));
    assert_eq!(srs_share(&powers, 1, 2).unwrap(), powers[2..4].to_vec());
    assert!(matches!(
        de_commit_share(&vec![vec![1, 2, 3]], &polys[0]),
        Err(NetError::BadShare)
    ));
    assert!(matches!(sum_commitments(&vec![]), Err(NetError::BadShare)));
    let ragged = vec![vec![powers[0].clone()], vec![]];
    assert!(matches!(sum_commitments(&ragged), Err(NetError::BadShare)));
    assert!(matches!(
        de_commit_aggregate(Some(vec![vec![1, 0, 0]])),
        Err(NetError::BadFrame)
    ));
}

#[test]
fn commitment_and_evaluation_sums_match_arkworks() {
    let mut rng = test_rng();
    let g = G1Projective::generator();
    let pts: Vec<G1Projective> = (0..3).map(|_| g * Fr::rand(&mut rng)).collect();
    let xs: Vec<Fr> = (0..3).map(|_| Fr::rand(&mut rng)).collect();
    let gathered: Vec<Vec<Vec<u8>>> = (0..3).map(|i| vec![enc(&pts[i])]).collect();
    let sum = sum_commitments(&gathered).unwrap();
    assert_eq!(sum, vec![enc(&(pts[0] + pts[1] + pts[2]))]);
    let gathered: Vec<Vec<Vec<u8>>> = (0..3).map(|i| vec![enc(&xs[i]), enc(&xs[i])]).collect();
    let sum = sum_evaluations(&gathered).unwrap();
    let total = xs[0] + xs[1] + xs[2];
    assert_eq!(sum, vec![enc(&total), enc(&total)]);
}

#[test]
fn framed_lists_round_trip() {
    let items = vec![b"alpha".to_vec(), Vec::new(), vec![0u8; 300]];
    let buf = encode_list(&items);
    assert_eq!(buf.len(), 3 * 8 + 5 + 300);
    assert_eq!(decode_list(&buf), Some(items));
    assert_eq!(decode_list(&Vec::new()), Some(Vec::new()));
    assert_eq!(decode_list(&buf[..buf.len() - 1].to_vec()), None);
}

#[test]
fn distributed_double_lagrange_commit_equals_central_commit() {
    let (parties, width) = (4, 4);
    let s = setup(parties, width, 2);
    let (powers, _) = encoded(&s);
    let mut rng = test_rng();
    let evals: Vec<Vec<Fr>> = (0..2).map(|_| (0..parties * width).map(|_| Fr::rand(&mut rng)).collect()).collect();
    let central: Vec<Vec<u8>> = evals
        .iter()
        .map(|e| commit_double_lagrange(&powers, &e.iter().map(enc).collect()).unwrap())
        .collect();
    let gathered: Vec<Vec<Vec<u8>>> = (0..parties)
        .map(|i| {
            let sub: Vec<Vec<Vec<u8>>> = evals.iter().map(|e| e[i * width..(i + 1) * width].iter().map(enc).collect()).collect();
            de_commit_double_lagrange_share(i, &powers, &sub, width).unwrap()
        })
        .collect();
    assert_eq!(sum_commitments(&gathered).unwrap(), central);
}

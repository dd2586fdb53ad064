use zkvm_rs::channel::Channel;
use zkvm_rs::domain::Domain;
use zkvm_rs::field::Fp;
use zkvm_rs::fri::{fri_commit, fri_derive_betas, fri_query, fri_verify_queries, FriError, FriProof, NUM_FRI_QUERIES};
use zkvm_rs::polynomial::Polynomial;

fn honest_fri(tag: &[u8]) -> (FriProof, Vec<Fp>, Domain, Vec<usize>) {
    let trace_size = 8;
    let blowup = 8;
    let lde_domain = Domain::lde_domain(trace_size, blowup);
    let poly = Polynomial {
        coeffs: vec![
            Fp::new(1),
            Fp::new(2),
            Fp::new(3),
            Fp::new(4),
            Fp::new(5),
            Fp::new(6),
            Fp::new(7),
            Fp::new(8),
        ],
    };
    let lde_elems = lde_domain.elements();
    let evals: Vec<Fp> = lde_elems.iter().map(|x| poly.evaluate(*x)).collect();
    let mut prover_channel = Channel::new();
    prover_channel.absorb(tag);
    let (layers, final_value) = fri_commit(&evals, lde_domain.generator, lde_domain.offset, &mut prover_channel);
    let max_queries = (lde_domain.size / 4).min(NUM_FRI_QUERIES);
    let query_indices = prover_channel.squeeze_indices(max_queries, lde_domain.size / 2);
    let query_proofs = fri_query(&layers, &query_indices);
    let fri_proof = FriProof { layer_roots: layers.iter().map(|l| l.root).collect(), final_value, query_proofs };
    let mut verifier_channel = Channel::new();
    verifier_channel.absorb(tag);
    let betas = fri_derive_betas(&fri_proof, &mut verifier_channel);
    let verifier_indices = verifier_channel.squeeze_indices(max_queries, lde_domain.size / 2);
    assert_eq!(query_indices, verifier_indices, "query indices must match");
    (fri_proof, betas, lde_domain, verifier_indices)
}

#[test]
fn test_fri_honest_polynomial() {
    let (fri_proof, betas, lde_domain, verifier_indices) = honest_fri(b"test_fri");
    let result = fri_verify_queries(
        &fri_proof,
        &betas,
        lde_domain.generator,
        lde_domain.offset,
        lde_domain.size,
        &verifier_indices,
    );
    assert!(result.is_ok(), "FRI verification failed: {:?}", result.err());
}

#[test]
fn fri_layers_halve_down_to_two() {
    let (fri_proof, betas, _, indices) = honest_fri(b"shape");
    // 64 values: layers of 64, 32, 16, 8, 4, 2
    assert_eq!(fri_proof.layer_roots.len(), 6);
    assert_eq!(betas.len(), 6);
    assert_eq!(fri_proof.query_proofs.len(), indices.len());
    for qp in &fri_proof.query_proofs {
        assert_eq!(qp.layers.len(), 6);
    }
}

#[test]
fn fri_single_value_needs_no_layers() {
    let mut c = Channel::new();
    let (layers, final_value) = fri_commit(&[Fp::new(77)], Fp::new(5), Fp::new(3), &mut c);
    assert!(layers.is_empty());
    assert_eq!(final_value, Fp::new(77));
}

#[test]
fn fri_rejects_no_queries_and_count_mismatch() {
    let (fri_proof, betas, d, indices) = honest_fri(b"count");
    let r = fri_verify_queries(&fri_proof, &betas, d.generator, d.offset, d.size, &[]);
    assert!(matches!(r, Err(FriError::NoQueries)));
    let r = fri_verify_queries(&fri_proof, &betas, d.generator, d.offset, d.size, &indices[..indices.len() - 1]);
    assert!(matches!(r, Err(FriError::QueryCountMismatch { .. })));
}

#[test]
fn fri_rejects_tampered_openings() {
    let (fri_proof, betas, d, indices) = honest_fri(b"tamper");
    let mut bad = fri_proof.clone();
    bad.query_proofs[0].layers[0].value = bad.query_proofs[0].layers[0].value + Fp::one();
    let r = fri_verify_queries(&bad, &betas, d.generator, d.offset, d.size, &indices);
    assert!(matches!(r, Err(FriError::MerkleProofFailed { query: 0, layer: 0, .. })));

    let mut bad = fri_proof.clone();
    bad.query_proofs[0].layers[0].sibling_value = bad.query_proofs[0].layers[0].sibling_value + Fp::one();
    let r = fri_verify_queries(&bad, &betas, d.generator, d.offset, d.size, &indices);
    assert!(matches!(r, Err(FriError::SiblingMerkleProofFailed { query: 0, layer: 0, .. })));

    // Changing both openings of layer 1 breaks the fold checked at layer 0 first.
    let mut bad = fri_proof.clone();
    bad.query_proofs[0].layers[1].value = bad.query_proofs[0].layers[1].value + Fp::one();
    bad.query_proofs[0].layers[1].sibling_value = bad.query_proofs[0].layers[1].sibling_value + Fp::one();
    let r = fri_verify_queries(&bad, &betas, d.generator, d.offset, d.size, &indices);
    assert!(matches!(r, Err(FriError::FoldingMismatch { query: 0, layer: 0, .. })));

    let mut bad = fri_proof.clone();
    bad.final_value = bad.final_value + Fp::one();
    let r = fri_verify_queries(&bad, &betas, d.generator, d.offset, d.size, &indices);
    assert!(matches!(r, Err(FriError::FinalValueMismatch { query: 0, .. })));
}

#[test]
fn fri_rejects_query_missing_layers() {
    let (fri_proof, betas, d, indices) = honest_fri(b"layers");
    let mut bad = fri_proof.clone();
    bad.query_proofs[1].layers.clear();
    let r = fri_verify_queries(&bad, &betas, d.generator, d.offset, d.size, &indices);
    assert!(matches!(r, Err(FriError::LayerCountMismatch { query: 1, expected: 6, got: 0 })));

    let mut bad = fri_proof.clone();
    bad.query_proofs[0].layers.pop();
    let r = fri_verify_queries(&bad, &betas, d.generator, d.offset, d.size, &indices);
    assert!(matches!(r, Err(FriError::LayerCountMismatch { query: 0, expected: 6, got: 5 })));
}

#[test]
fn fri_rejects_malformed_shape() {
    let (fri_proof, betas, d, indices) = honest_fri(b"shape check");
    // Six layers end at two values only on a domain of 64.
    let r = fri_verify_queries(&fri_proof, &betas, d.generator, d.offset, d.size / 2, &indices);
    assert!(matches!(r, Err(FriError::Malformed)));
    let r = fri_verify_queries(&fri_proof, &betas[..5], d.generator, d.offset, d.size, &indices);
    assert!(matches!(r, Err(FriError::Malformed)));
    let r = fri_verify_queries(&fri_proof, &betas, d.generator, Fp::zero(), d.size, &indices);
    assert!(matches!(r, Err(FriError::Malformed)));
    let r = fri_verify_queries(&fri_proof, &betas, Fp::zero(), d.offset, d.size, &indices);
    assert!(matches!(r, Err(FriError::Malformed)));

    // A proof with no layers at all checks nothing and is refused.
    let mut empty = fri_proof.clone();
    empty.layer_roots.clear();
    for qp in empty.query_proofs.iter_mut() {
        qp.layers.clear();
    }
    let r = fri_verify_queries(&empty, &[], d.generator, d.offset, d.size, &indices);
    assert!(matches!(r, Err(FriError::Malformed)));
}

#[test]
fn fri_accepts_spare_challenges() {
    let (fri_proof, mut betas, d, indices) = honest_fri(b"spare");
    betas.push(Fp::new(5));
    let r = fri_verify_queries(&fri_proof, &betas, d.generator, d.offset, d.size, &indices);
    assert!(r.is_ok());
}

#[test]
fn fri_rejects_high_degree_values() {
    // Values of no polynomial of degree below 32 on the 64-point coset: the
    // folding is consistent, but the last layer is not constant.
    let d = Domain::lde_domain(8, 8);
    let evals: Vec<Fp> = (0..64u64).map(|i| Fp::new(i * i * i + 7 * i + 1)).collect();
    let mut prover_channel = Channel::new();
    prover_channel.absorb(b"high degree");
    let (layers, final_value) = fri_commit(&evals, d.generator, d.offset, &mut prover_channel);
    let indices = prover_channel.squeeze_indices(16, 32);
    let query_proofs = fri_query(&layers, &indices);
    let fri_proof = FriProof { layer_roots: layers.iter().map(|l| l.root).collect(), final_value, query_proofs };
    let mut verifier_channel = Channel::new();
    verifier_channel.absorb(b"high degree");
    let betas = fri_derive_betas(&fri_proof, &mut verifier_channel);
    let r = fri_verify_queries(&fri_proof, &betas, d.generator, d.offset, d.size, &indices);
    assert!(matches!(r, Err(FriError::LastLayerNotConstant { query: 0, .. })));
}

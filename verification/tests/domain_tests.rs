use std::collections::HashSet;
use zkvm_rs::domain::Domain;
use zkvm_rs::field::Fp;

#[test]
fn test_trace_domain() {
    let d = Domain::trace_domain(8);
    let elems = d.elements();
    assert_eq!(elems.len(), 8);
    assert_eq!(elems[0], Fp::one());
    assert_eq!(d.generator.pow(8), Fp::one());
}

#[test]
fn test_lde_domain_no_overlap() {
    let trace_d = Domain::trace_domain(8);
    let lde_d = Domain::lde_domain(8, 8);
    let trace_elems: HashSet<Fp> = trace_d.elements().into_iter().collect();
    let lde_elems: HashSet<Fp> = lde_d.elements().into_iter().collect();
    let overlap: Vec<_> = trace_elems.intersection(&lde_elems).collect();
    assert!(overlap.is_empty(), "LDE domain overlaps with trace domain");
}

#[test]
fn test_domain_elements_count() {
    let d = Domain::lde_domain(8, 8);
    assert_eq!(d.elements().len(), 64);
}

#[test]
fn domain_element_matches_elements() {
    let d = Domain::lde_domain(4, 8);
    let elems = d.elements();
    for i in 0..d.size {
        assert_eq!(d.element(i), elems[i]);
    }
    // the elements are distinct
    let set: HashSet<Fp> = elems.iter().cloned().collect();
    assert_eq!(set.len(), 32);
}

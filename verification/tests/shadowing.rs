use rust_interview_lab::shadowing::{demonstrate_mutation, demonstrate_shadowing};

#[test]
fn shadowing_allows_type_changes() {
    let log = demonstrate_shadowing();
    assert!(log.contains("integer: 7"));
    assert!(log.contains("string: 7"));
    assert!(log.contains("usize: 1"));
}

#[test]
fn mutation_requires_mut_binding() {
    let log = demonstrate_mutation();
    assert!(log.contains("mut count: 1 2 3"));
}

use homework::job_count::ThreadPoolInner;

#[test]
fn job_count_notifies_when_empty() {
    let mut inner = ThreadPoolInner::new();
    assert!(inner.is_empty());
    assert!(!inner.start_job());
    assert!(!inner.start_job());
    assert_eq!(inner.job_count(), 2);
    assert!(!inner.finish_job());
    assert!(!inner.is_empty());
    assert!(inner.finish_job());
    assert!(inner.is_empty());
}

use idx_core::begin::Begin;

#[test]
fn begin_then_commit_or_cancel_keeps_the_client() {
    let t = Begin::new(7u32).begun();
    assert_eq!(*t.connection(), 7);
    assert_eq!(t.commit().client, 7);
    let t = Begin::new("conn").begun();
    assert_eq!(t.cancel().client, "conn");
}

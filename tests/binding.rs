use miau::binding::Binding;

#[test]
fn binding_uploads_only_after_a_change() {
    let mut b = Binding::new(3u32);
    assert!(!b.dirty());
    assert_eq!(b.update(), None);
    *b.data_mut() = 8;
    assert!(b.dirty());
    assert_eq!(b.update(), Some(&8));
    assert!(!b.dirty());
    assert_eq!(b.update(), None);
    assert_eq!(*b.data(), 8);
}

use wayland_commons::socket::Buffer;

#[test]
fn fill_read_and_compact() {
    let mut b: Buffer<u32> = Buffer::new(8);
    assert!(!b.has_content());
    {
        let w = b.get_writable_storage();
        assert_eq!(w.len(), 8);
        w[0] = 10;
        w[1] = 11;
        w[2] = 12;
    }
    b.advance(3);
    assert!(b.has_content());
    assert_eq!(b.get_contents(), &[10, 11, 12][..]);
    b.offset(2);
    assert_eq!(b.get_contents(), &[12][..]);
    b.move_to_front();
    assert_eq!(b.get_contents(), &[12][..]);
    assert_eq!(b.get_writable_storage().len(), 7);
    b.offset(1);
    assert!(!b.has_content());
    b.clear();
    assert_eq!(b.get_contents(), &[] as &[u32]);
    assert_eq!(b.get_writable_storage().len(), 8);
}

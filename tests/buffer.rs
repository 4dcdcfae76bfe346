use pwn::buffer::Buffer;

#[test]
fn adds_then_drain_concatenate_in_order() {
    let mut b = Buffer::new();
    b.add(b"ab".to_vec());
    b.add(Vec::new());
    b.add(b"cde".to_vec());
    b.add(b"f".to_vec());
    assert_eq!(b.len(), 6);
    assert_eq!(b.get(0), b"abcdef".to_vec());
    assert!(b.is_empty());
}

#[test]
fn hello_world_scenario() {
    let mut b = Buffer::new();
    b.add(b"hello ".to_vec());
    b.add(b"world".to_vec());
    assert_eq!(b.get(0), b"hello world".to_vec());
    assert_eq!(b.len(), 0);
}

#[test]
fn get_splits_prefix_and_suffix() {
    let mut b = Buffer::new();
    b.add(b"abcdef".to_vec());
    assert_eq!(b.get(2), b"ab".to_vec());
    assert_eq!(b.len(), 4);
    assert_eq!(b.get(0), b"cdef".to_vec());
    assert!(b.is_empty());
}

#[test]
fn get_past_the_end_drains_everything() {
    let mut b = Buffer::new();
    b.add(b"xyz".to_vec());
    assert_eq!(b.get(3), b"xyz".to_vec());
    b.add(b"xyz".to_vec());
    assert_eq!(b.get(100), b"xyz".to_vec());
    assert!(b.is_empty());
    assert_eq!(b.get(0), Vec::<u8>::new());
    assert_eq!(b.get(5), Vec::<u8>::new());
}

#[test]
fn unget_pushes_back_in_order() {
    let mut b = Buffer::new();
    b.add(b"tail".to_vec());
    b.unget(b"head".to_vec());
    assert_eq!(b.len(), 8);
    assert_eq!(b.get(4), b"head".to_vec());
    assert_eq!(b.get(0), b"tail".to_vec());
}

#[test]
fn unget_after_get_restores_the_buffer() {
    let mut b = Buffer::new();
    b.add(b"0123456789".to_vec());
    let first = b.get(3);
    b.unget(first);
    assert_eq!(b.peek(), b"0123456789".to_vec());
    assert_eq!(b.len(), 10);
}

#[test]
fn peek_leaves_bytes_in_place() {
    let mut b = Buffer::new();
    b.add(vec![1, 2, 3]);
    assert_eq!(b.peek(), vec![1, 2, 3]);
    assert_eq!(b.len(), 3);
    assert_eq!(b.get(0), vec![1, 2, 3]);
}

#[test]
fn default_buffer_is_empty() {
    let mut b = Buffer::default();
    assert!(b.is_empty());
    assert_eq!(b.get(0), Vec::<u8>::new());
}

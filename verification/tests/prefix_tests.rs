use duotunnel::prefix::ReplayPrefix;

#[test]
fn sniffed_bytes_come_back_first_in_order() {
    let mut p = ReplayPrefix::new(b"GET / HTTP/1.1\r\n".to_vec());
    assert_eq!(p.len(), 16);
    assert_eq!(p.read(4), Some(b"GET ".to_vec()));
    assert_eq!(p.read(0), Some(vec![]));
    assert_eq!(p.read(100), Some(b"/ HTTP/1.1\r\n".to_vec()));
    assert!(p.is_empty());
    assert_eq!(p.read(10), None);
}

#[test]
fn empty_prefix_reads_through() {
    let mut p = ReplayPrefix::new(vec![]);
    assert!(p.is_empty());
    assert_eq!(p.read(8), None);
}

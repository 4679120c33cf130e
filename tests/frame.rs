use ctmp::ctmp::Ctmp;

#[test]
fn test_small_message() {
    let data = b"hello world";
    let msg = Ctmp::new(data.len() as u16, data);

    assert_eq!(msg.len(), data.len() as u16);
    assert_eq!(msg.data(), data);
    assert!(msg.is_small());
}

#[test]
fn test_large_message() {
    let data = vec![42u8; 100]; // Larger than 64 bytes
    let msg = Ctmp::new(data.len() as u16, &data);

    assert_eq!(msg.len(), data.len() as u16);
    assert_eq!(msg.data(), data.as_slice());
    assert!(!msg.is_small());
}

#[test]
fn test_truncation() {
    let data = vec![1u8; 100];
    let msg = Ctmp::new(50, &data); // Shorter than actual data

    assert_eq!(msg.len(), 50);
    assert_eq!(msg.data().len(), 50);
    assert_eq!(msg.data(), &vec![1u8; 50]);
}

#[test]
fn test_from_conversions() {
    let data = b"test data";
    let msg1 = Ctmp::from(data.as_slice());
    let msg2 = Ctmp::from(data.to_vec());

    assert_eq!(msg1.data(), data);
    assert_eq!(msg2.data(), data);
}

#[test]
fn test_empty_message() {
    let msg = Ctmp::default();
    assert!(msg.is_empty());
    assert_eq!(msg.len(), 0);
    assert_eq!(msg.data().len(), 0);
}

#[test]
fn requested_length_beyond_source_is_clamped_to_source() {
    let data = [7u8, 8, 9];
    let msg = Ctmp::new(10, &data);
    assert_eq!(msg.len(), 3);
    assert_eq!(msg.data(), &[7u8, 8, 9]);
    assert!(msg.is_small());
}

#[test]
fn largest_length_is_kept_on_the_heap() {
    let data = vec![5u8; 70000];
    let msg = Ctmp::new(u16::MAX, &data);
    assert_eq!(msg.len(), 65535);
    assert_eq!(msg.data().len(), 65535);
    assert!(!msg.is_small());
    let whole = Ctmp::from(data.as_slice());
    assert_eq!(whole.len(), 65535);
}

#[test]
fn small_boundary_is_sixty_four() {
    let data = vec![3u8; 65];
    let at = Ctmp::new(64, &data);
    assert!(at.is_small());
    assert_eq!(at.data(), &data[..64]);
    let over = Ctmp::new(65, &data);
    assert!(!over.is_small());
    assert_eq!(over.data(), data.as_slice());
}

#[test]
fn zero_length_frame_is_empty() {
    let msg = Ctmp::new(0, b"abc");
    assert!(msg.is_empty());
    assert_eq!(msg.data(), b"");
    assert!(msg.is_small());
}

#[test]
fn data_mut_writes_the_payload() {
    let mut small = Ctmp::new(3, b"abc");
    small.data_mut()[1] = b'X';
    assert_eq!(small.data(), b"aXc");
    assert_eq!(small.len(), 3);

    let mut large = Ctmp::new(80, &vec![0u8; 80]);
    large.data_mut()[79] = 1;
    assert_eq!(large.data()[79], 1);
    assert_eq!(large.data_mut().len(), 80);
}

#[test]
fn as_ref_gives_the_payload() {
    let msg = Ctmp::new(2, b"xyz");
    let r: &[u8] = msg.as_ref();
    assert_eq!(r, b"xy");
}

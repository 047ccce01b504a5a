use git_rs::time::Time;

#[test]
fn time_try_from_bytes_on_valid() {
    let bytes = b"1771253662 +0300";
    let time = Time::try_from_bytes(bytes).unwrap();
    assert_eq!(time.unix_time, 1771253662);
    assert_eq!(time.offset, 10800);
}

#[test]
fn time_offsets_read_and_written() {
    assert_eq!(Time::try_from_bytes(b"5 -0130").unwrap(), Time::new(5, -(3600 + 30)));
    assert_eq!(Time::try_from_bytes(b"5 +0000 trailing").unwrap(), Time::new(5, 0));
    assert!(Time::try_from_bytes(b"5 0300").is_none());
    assert!(Time::try_from_bytes(b"5 +03").is_none());
    assert!(Time::try_from_bytes(b"x +0300").is_none());
    assert!(Time::try_from_bytes(b"18446744073709551616 +0000").is_none());
    assert_eq!(Time::new(1771253662, 10800).to_bytes(), b"1771253662 +0300".to_vec());
    assert_eq!(Time::new(9, -3601).to_bytes(), b"9 -0101".to_vec());
    let t = Time::new(123, -7200 - 59);
    assert_eq!(Time::try_from_bytes(&t.to_bytes()).unwrap(), t);
}

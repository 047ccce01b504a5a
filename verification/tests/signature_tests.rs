use git_rs::signature::{Error, Signature};
use git_rs::time::Time;

#[test]
fn signature_try_from_bytes_on_valid() {
    let bytes = b"author <author@email> 1771253662 +0300";
    let signature = Signature::try_from_bytes(bytes).unwrap();
    assert_eq!(signature.name, "author");
    assert_eq!(signature.email, "author@email");
    assert_eq!(
        signature.time,
        Time {
            unix_time: 1771253662,
            offset: 10800
        }
    );
}

#[test]
fn signature_build_checks_name_then_email() {
    let t = Time::new(1, 0);
    assert_eq!(Signature::build("", "", t).unwrap_err(), Error::EmptyName);
    assert_eq!(Signature::build("a<b", "", t).unwrap_err(), Error::NameContainsAngle);
    assert_eq!(Signature::build("a", "", t).unwrap_err(), Error::EmptyEmail);
    assert_eq!(Signature::build("a", "b>c", t).unwrap_err(), Error::EmailContainsAngle);
    let s = Signature::build("Ünï", "u@x", t).unwrap();
    assert_eq!(s.name, "Ünï");
}

#[test]
fn signature_written_then_read_back() {
    let s = Signature::build("A Name", "a@b.c", Time::new(42, -5400 + 3600 * 0)).unwrap();
    let bytes = s.to_bytes();
    assert_eq!(bytes, b"A Name <a@b.c> 42 -011800".to_vec());
    let s2 = Signature::build("B", "b@c", Time::new(7, -7200)).unwrap();
    assert_eq!(Signature::try_from_bytes(&s2.to_bytes()).unwrap(), s2);
    let trimmed = Signature::try_from_bytes(b"Name \t <e> 1 +0000").unwrap();
    assert_eq!(trimmed.name, "Name");
    assert!(Signature::try_from_bytes(b"Name <e>1 +0000").is_none());
    assert!(Signature::try_from_bytes(b"Name e> 1 +0000").is_none());
}

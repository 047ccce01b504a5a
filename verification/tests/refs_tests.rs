use git_rs::refs::{parse_head, parse_ref_name, parse_ref_target, validate_ref_name, Error, HeadTarget};

#[test]
fn invalid_ref_names_are_rejected() {
    assert!(validate_ref_name(b"@").is_err());

    assert!(validate_ref_name(b":").is_err());
    assert!(validate_ref_name(b"?").is_err());
    assert!(validate_ref_name(b"[").is_err());
    assert!(validate_ref_name(b"\\").is_err());
    assert!(validate_ref_name(b"^").is_err());
    assert!(validate_ref_name(b"~").is_err());
    assert!(validate_ref_name(b" ").is_err());
    assert!(validate_ref_name(b"*").is_err());

    assert!(validate_ref_name(b"..").is_err());
    assert!(validate_ref_name(b"abc..").is_err());
    assert!(validate_ref_name(b"..abc").is_err());

    assert!(validate_ref_name(b"@{").is_err());
    assert!(validate_ref_name(b"abc@{").is_err());
    assert!(validate_ref_name(b"@{abc").is_err());
}

#[test]
fn ref_names_report_the_first_fault() {
    assert_eq!(validate_ref_name(b"master"), Ok(()));
    assert_eq!(validate_ref_name(b"feature/x.y"), Ok(()));
    assert_eq!(validate_ref_name(b"a@b"), Ok(()));
    assert_eq!(validate_ref_name(b"ab..c"), Err(2));
    assert_eq!(validate_ref_name(b"x\ty"), Err(1));
    assert_eq!(validate_ref_name(b"ok@{ :"), Err(2));
}

#[test]
fn head_file_contents() {
    match parse_head(b"ref: refs/heads/main\n") {
        Ok(HeadTarget::Branch(name)) => assert_eq!(name, "main"),
        _ => panic!("expected a branch"),
    }
    match parse_head(b"85df50785d62d3b05ab03d9cbf7e4a0b49449730") {
        Ok(HeadTarget::Detached(id)) => {
            assert_eq!(id.to_string(), "85df50785d62d3b05ab03d9cbf7e4a0b49449730")
        },
        _ => panic!("expected an object"),
    }
    assert!(matches!(parse_head(b"refs: refs/heads/main"), Err(Error::InvalidSymbolicRef)));
    assert!(matches!(parse_head(b"ref: refs/heads/  \n"), Err(Error::InvalidSymbolicRef)));
    assert!(matches!(parse_head(b"ref: refs/heads/a..b"), Err(Error::InvalidRefName(1))));
    assert!(matches!(parse_ref_name(b"ok\xff"), Err(Error::InvalidRefName(2))));
    assert_eq!(
        parse_ref_target("85df50785d62d3b05ab03d9cbf7e4a0b49449730\n").unwrap().to_string(),
        "85df50785d62d3b05ab03d9cbf7e4a0b49449730"
    );
    assert!(matches!(parse_ref_target("nope"), Err(Error::InvalidCommitId(_))));
}

use zvec_bindings::error::{check_status, Error, StatusCode};

#[test]
fn status_code_from_raw_code() {
    assert_eq!(StatusCode::from(0), StatusCode::Success);
    assert_eq!(StatusCode::from(1), StatusCode::NotFound);
    assert_eq!(StatusCode::from(2), StatusCode::AlreadyExists);
    assert_eq!(StatusCode::from(3), StatusCode::InvalidArgument);
    assert_eq!(StatusCode::from(4), StatusCode::NotSupported);
    assert_eq!(StatusCode::from(5), StatusCode::InternalError);
    assert_eq!(StatusCode::from(6), StatusCode::PermissionDenied);
    assert_eq!(StatusCode::from(7), StatusCode::FailedPrecondition);
    assert_eq!(StatusCode::from(8), StatusCode::Unknown);
    assert_eq!(StatusCode::from(9), StatusCode::Unknown);
    assert_eq!(StatusCode::from(u32::MAX), StatusCode::Unknown);
}

#[test]
fn status_code_round_trip() {
    for code in 0..9u32 {
        assert_eq!(StatusCode::from(code).code(), code);
    }
    assert_eq!(StatusCode::Success.code(), 0);
    assert_eq!(StatusCode::Unknown.code(), 8);
}

#[test]
fn check_status_success_is_ok() {
    assert!(check_status(StatusCode::Success, None).is_ok());
    assert!(check_status(StatusCode::Success, Some("ignored".to_string())).is_ok());
}

#[test]
fn check_status_translates_each_status() {
    let text = || Some("why".to_string());
    assert!(matches!(check_status(StatusCode::NotFound, text()), Err(Error::NotFound(m)) if m == "why"));
    assert!(matches!(check_status(StatusCode::AlreadyExists, text()), Err(Error::AlreadyExists(m)) if m == "why"));
    assert!(matches!(check_status(StatusCode::InvalidArgument, text()), Err(Error::InvalidArgument(m)) if m == "why"));
    assert!(matches!(check_status(StatusCode::NotSupported, text()), Err(Error::NotSupported(m)) if m == "why"));
    assert!(matches!(check_status(StatusCode::InternalError, text()), Err(Error::InternalError(m)) if m == "why"));
    assert!(matches!(check_status(StatusCode::PermissionDenied, text()), Err(Error::PermissionDenied(m)) if m == "why"));
    assert!(matches!(check_status(StatusCode::FailedPrecondition, text()), Err(Error::FailedPrecondition(m)) if m == "why"));
    assert!(matches!(check_status(StatusCode::Unknown, text()), Err(Error::Unknown(m)) if m == "why"));
}

#[test]
fn check_status_without_message_has_empty_text() {
    assert!(matches!(check_status(StatusCode::NotFound, None), Err(Error::NotFound(m)) if m.is_empty()));
    assert!(matches!(check_status(StatusCode::Unknown, None), Err(Error::Unknown(m)) if m.is_empty()));
}

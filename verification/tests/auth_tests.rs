use exchange::auth::{
    bearer_token, login_step, place_order_reply, sign_up_plan, sign_up_reply, sign_up_step, AuthError, LoginStep, SignUpStep, StoredUser,
    UserClaim, Users,
};

#[test]
fn missing_header_is_refused() {
    assert_eq!(bearer_token(None), Err(AuthError::MissingHeader));
}

#[test]
fn header_with_invisible_bytes_is_refused() {
    assert_eq!(bearer_token(Some(b"Bearer ab\x01c")), Err(AuthError::InvalidHeader));
    assert_eq!(bearer_token(Some("Bearer é".as_bytes())), Err(AuthError::InvalidHeader));
}

#[test]
fn header_without_bearer_scheme_is_refused() {
    assert_eq!(bearer_token(Some(b"Basic abc")), Err(AuthError::InvalidScheme));
    assert_eq!(bearer_token(Some(b"bearer abc")), Err(AuthError::InvalidScheme));
    assert_eq!(bearer_token(Some(b"Bearer")), Err(AuthError::InvalidScheme));
}

#[test]
fn bearer_token_is_trimmed() {
    assert_eq!(bearer_token(Some(b"Bearer abc.def")), Ok("abc.def".to_string()));
    assert_eq!(bearer_token(Some(b"Bearer   abc \t")), Ok("abc".to_string()));
    assert_eq!(bearer_token(Some(b"Bearer a b")), Ok("a b".to_string()));
    assert_eq!(bearer_token(Some(b"Bearer ")), Ok("".to_string()));
}

#[test]
fn auth_errors_have_their_messages() {
    assert_eq!(AuthError::MissingHeader.message(), "Missing auth header");
    assert_eq!(AuthError::InvalidHeader.message(), "invalid header");
    assert_eq!(AuthError::InvalidScheme.message(), "Invalid scheme");
    assert_eq!(AuthError::InvalidToken.message(), "invalid token");
}

#[test]
fn tokens_expire_a_day_after_issue() {
    let c = UserClaim::issued_at("ann".to_string(), 3, 1_700_000_000);
    assert_eq!(c.iat, 1_700_000_000);
    assert_eq!(c.exp, 1_700_086_400);
    assert_eq!(c.user, "ann");
    assert_eq!(c.id, 3);
}

fn stored(password_hash: &str) -> StoredUser {
    StoredUser { username: "ann".to_string(), password: password_hash.to_string(), id: 3 }
}

#[test]
fn right_password_gets_a_token() {
    let hash = bcrypt::hash("secret", 4).unwrap();
    match login_step("secret", Ok(stored(&hash))) {
        LoginStep::IssueToken { username, id } => {
            assert_eq!(username, "ann");
            assert_eq!(id, 3);
        },
        LoginStep::Reply(r) => panic!("unexpected reply {:?}", r),
    }
}

#[test]
fn wrong_password_is_refused() {
    let hash = bcrypt::hash("secret", 4).unwrap();
    match login_step("guess", Ok(stored(&hash))) {
        LoginStep::Reply(r) => {
            assert_eq!(r.status, 401);
            assert_eq!(r.body, "is wrong");
        },
        other => panic!("unexpected {:?}", other),
    }
}

#[test]
fn unreadable_hash_is_refused() {
    match login_step("secret", Ok(stored("not a bcrypt hash"))) {
        LoginStep::Reply(r) => {
            assert_eq!(r.status, 401);
            assert_eq!(r.body, "\n                password is wrongInvalid hash: not good");
        },
        other => panic!("unexpected {:?}", other),
    }
}

#[test]
fn failed_lookup_is_not_found() {
    match login_step("secret", Err("no rows".to_string())) {
        LoginStep::Reply(r) => {
            assert_eq!(r.status, 404);
            assert_eq!(r.body, "bad request no rows");
        },
        other => panic!("unexpected {:?}", other),
    }
}

#[test]
fn sign_up_inserts_the_user_as_sent() {
    let u = Users { username: "bob".to_string(), email: Some("b@x".to_string()), password: "pw".to_string() };
    match sign_up_step(&u) {
        SignUpStep::Insert { username, email, pass } => {
            assert_eq!(username, "bob");
            assert_eq!(email, Some("b@x".to_string()));
            assert_eq!(pass, "pw");
        },
        other => panic!("unexpected {:?}", other),
    }
}

#[test]
fn sign_up_answers_after_the_insert() {
    let ok = sign_up_reply(Ok(()));
    assert_eq!((ok.status, ok.body.as_str()), (200, "user created successfully"));
    let err = sign_up_reply(Err("duplicate".to_string()));
    assert_eq!((err.status, err.body.as_str()), (500, "Failed to register the user duplicate"));
}

#[test]
fn sign_up_plan_reports_the_hash_error() {
    let u = Users { username: "bob".to_string(), email: None, password: "pw".to_string() };
    match sign_up_plan(&u, Err("Rand error: boom".to_string())) {
        SignUpStep::Reply(r) => {
            assert_eq!(r.status, 500);
            assert_eq!(r.body, "failed to hash pass Rand error: boom");
        },
        other => panic!("unexpected {:?}", other),
    }
    match sign_up_plan(&u, Ok(())) {
        SignUpStep::Insert { username, email, pass } => {
            assert_eq!((username.as_str(), email, pass.as_str()), ("bob", None, "pw"));
        },
        other => panic!("unexpected {:?}", other),
    }
}

#[test]
fn order_submission_replies() {
    let ok = place_order_reply(Ok(()));
    assert_eq!((ok.status, ok.body.as_str()), (200, "Order placed successfully"));
    let err = place_order_reply(Err("Timeout".to_string()));
    assert_eq!((err.status, err.body.as_str()), (500, " failed to place order: Timeout"));
}

use duotunnel::auth::AuthErrorKind;
use duotunnel::login::{
    admit_reverse_stream, login_step, LoginEvent, LoginReply, LoginStage, ReverseStreamRefusal,
    MAX_REVERSE_STREAMS_GLOBAL, MAX_REVERSE_STREAMS_PER_CONNECTION,
};

fn retryable(m: &str) -> Option<LoginReply> {
    Some(LoginReply::Retryable(m.to_string()))
}

fn failure(m: &str) -> Option<LoginReply> {
    Some(LoginReply::Failure(m.to_string()))
}

#[test]
fn full_login_reaches_established() {
    let mut stage = LoginStage::Handshake;
    let steps = [
        (LoginEvent::Done, LoginStage::LoginStream),
        (LoginEvent::Done, LoginStage::MessageType),
        (LoginEvent::Done, LoginStage::LoginBody),
        (LoginEvent::Received { compatible: true, ready: true }, LoginStage::Admission),
        (LoginEvent::Done, LoginStage::Authentication),
    ];
    for (event, next) in steps {
        let action = login_step(stage, &event);
        assert_eq!(action.next, next);
        assert_eq!(action.reply, None);
        assert!(!action.release_budget);
        stage = action.next;
    }
    let accepted = login_step(stage, &LoginEvent::Done);
    assert_eq!(accepted.next, LoginStage::Registration);
    assert!(accepted.release_budget);
    let registered = login_step(accepted.next, &LoginEvent::Done);
    assert_eq!(registered.next, LoginStage::Response);
    assert_eq!(registered.reply, Some(LoginReply::Success));
    let sent = login_step(registered.next, &LoginEvent::Done);
    assert_eq!(sent.next, LoginStage::Established);
    let lost = login_step(sent.next, &LoginEvent::FreshnessLost);
    assert_eq!(lost.next, LoginStage::Closed);
    assert_eq!(lost.close, Some("security freshness expired"));
    assert!(lost.unregister);
}

#[test]
fn login_timeouts() {
    let h = login_step(LoginStage::Handshake, &LoginEvent::TimedOut);
    assert_eq!((h.next, h.reply, h.close), (LoginStage::Closed, None, None));
    assert!(h.release_budget);
    assert!(login_step(LoginStage::LoginBody, &LoginEvent::Failed).release_budget);
    assert!(!login_step(LoginStage::Registration, &LoginEvent::Failed).release_budget);
    let s = login_step(LoginStage::LoginStream, &LoginEvent::TimedOut);
    assert_eq!((s.next, s.reply, s.close), (LoginStage::Closed, None, Some("login timeout")));
    for stage in [LoginStage::MessageType, LoginStage::LoginBody] {
        let a = login_step(stage, &LoginEvent::TimedOut);
        assert_eq!((a.next, a.reply, a.close), (LoginStage::Closed, retryable("login timeout"), None));
    }
    for stage in [LoginStage::Admission, LoginStage::Authentication] {
        let a = login_step(stage, &LoginEvent::TimedOut);
        assert_eq!(
            (a.next, a.reply, a.close),
            (LoginStage::Closed, retryable("authentication unavailable"), None)
        );
    }
    // The login deadline no longer applies once authenticated.
    let e = login_step(LoginStage::Established, &LoginEvent::TimedOut);
    assert_eq!(e.next, LoginStage::Established);
}

#[test]
fn login_refusals() {
    let wrong = login_step(LoginStage::MessageType, &LoginEvent::WrongMessageType("Heartbeat".into()));
    assert_eq!(wrong.reply, failure("unexpected message type: Heartbeat"));
    assert_eq!(wrong.next, LoginStage::Closed);
    let old = login_step(LoginStage::LoginBody, &LoginEvent::Received { compatible: false, ready: false });
    assert_eq!(old.reply, failure("incompatible protocol version"));
    assert_eq!(old.close, Some("incompatible protocol version"));
    let busy = login_step(LoginStage::LoginBody, &LoginEvent::Received { compatible: true, ready: false });
    assert_eq!(busy.reply, retryable("server not ready"));
    assert_eq!(busy.close, Some("server not ready"));
    let internal = login_step(LoginStage::Authentication, &LoginEvent::AuthRefused(AuthErrorKind::Internal));
    assert_eq!(internal.reply, retryable("authentication unavailable"));
    for kind in [AuthErrorKind::InvalidToken, AuthErrorKind::TokenRevoked, AuthErrorKind::ClientDisabled] {
        let refused = login_step(LoginStage::Authentication, &LoginEvent::AuthRefused(kind));
        assert_eq!(refused.reply, failure("authentication failed"));
        assert!(refused.release_budget);
    }
    let reg = login_step(LoginStage::Registration, &LoginEvent::Failed);
    assert_eq!(reg.reply, retryable("registration failed"));
    assert_eq!(reg.close, Some("registration failed"));
    assert!(!reg.unregister);
    let send = login_step(LoginStage::Response, &LoginEvent::Failed);
    assert!(send.unregister);
    assert_eq!(send.next, LoginStage::Closed);
    let closed = login_step(LoginStage::Closed, &LoginEvent::Done);
    assert_eq!(closed.next, LoginStage::Closed);
}

#[test]
fn reverse_stream_admission_order() {
    assert_eq!(admit_reverse_stream(true, 0, 0), Ok(()));
    assert_eq!(admit_reverse_stream(false, 0, 0), Err(ReverseStreamRefusal::NotReady));
    assert_eq!(
        admit_reverse_stream(true, MAX_REVERSE_STREAMS_GLOBAL, MAX_REVERSE_STREAMS_PER_CONNECTION),
        Err(ReverseStreamRefusal::GlobalCapacity)
    );
    assert_eq!(
        admit_reverse_stream(true, MAX_REVERSE_STREAMS_GLOBAL - 1, MAX_REVERSE_STREAMS_PER_CONNECTION),
        Err(ReverseStreamRefusal::ConnectionCapacity)
    );
    assert_eq!(admit_reverse_stream(true, 4095, 999), Ok(()));
}

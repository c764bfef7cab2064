//! The login of a tunnel client on the server, as a state machine: each
//! stage of the pre-authentication phase either completes, times out
//! against the one login deadline, or fails, and the machine says what to
//! answer, whether to close the connection, when the pre-authentication
//! budget is given back and when the client leaves the registry. The
//! caller performs the I/O and reports what happened.

use vstd::prelude::*;
use crate::auth::AuthErrorKind;
use crate::text::{push_str_chars, string_from_chars};

verus! {

/// Where a connection stands.
#[derive(Debug, Clone, Copy, PartialEq, Eq, Structural)]
pub enum LoginStage {
    /// The QUIC handshake is under way.
    Handshake,
    /// Waiting for the client to open the login stream.
    LoginStream,
    /// Waiting for the message type.
    MessageType,
    /// Waiting for the login body.
    LoginBody,
    /// Waiting to be admitted past the security gate.
    Admission,
    /// The token is being checked.
    Authentication,
    /// The connection is being entered in the registry.
    Registration,
    /// The success answer is being sent.
    Response,
    /// The client is logged in and serves streams.
    Established,
    /// The connection is done with.
    Closed,
}

/// What happened at the current stage.
#[derive(Debug, Clone, PartialEq, Eq)]
pub enum LoginEvent {
    /// The awaited step finished (at the message type: a login message).
    Done,
    /// The login deadline passed.
    TimedOut,
    /// The step failed (an I/O error, or the registry refused).
    Failed,
    /// The login body arrived: whether its protocol version is compatible,
    /// and whether the server admits security-sensitive work.
    Received { compatible: bool, ready: bool },
    /// A message of another type arrived, named so.
    WrongMessageType(String),
    /// Authentication refused the token.
    AuthRefused(AuthErrorKind),
    /// The server stopped admitting security-sensitive work.
    FreshnessLost,
}

/// An answer to the login.
#[derive(Debug, Clone, PartialEq, Eq)]
pub enum LoginReply {
    Success,
    /// A refusal the client should not retry.
    Failure(String),
    /// A refusal the client may retry.
    Retryable(String),
}

/// What to do after an event.
#[derive(Debug, Clone, PartialEq, Eq)]
pub struct LoginAction {
    /// The stage the connection moves to.
    pub next: LoginStage,
    /// The answer to send, if any.
    pub reply: Option<LoginReply>,
    /// Close the connection with this reason, if any.
    pub close: Option<&'static str>,
    /// Give back the connection's share of the pre-authentication budget.
    pub release_budget: bool,
    /// Take the client out of the registry.
    pub unregister: bool,
}

/// An answer by its contents: 0 success, 1 final refusal, 2 retryable
/// refusal, with the text.
pub open spec fn reply_view(r: LoginReply) -> (u8, Seq<char>) {
    match r {
        LoginReply::Success => (0, Seq::empty()),
        LoginReply::Failure(m) => (1, m@),
        LoginReply::Retryable(m) => (2, m@),
    }
}

/// An action by its contents.
pub open spec fn action_view(a: LoginAction) -> (LoginStage, Option<(u8, Seq<char>)>, Option<Seq<char>>, bool, bool) {
    (
        a.next,
        match a.reply {
            Some(r) => Some(reply_view(r)),
            None => None,
        },
        match a.close {
            Some(c) => Some(c@),
            None => None,
        },
        a.release_budget,
        a.unregister,
    )
}

/// Nothing to do but move to `next`.
pub open spec fn go(next: LoginStage) -> (LoginStage, Option<(u8, Seq<char>)>, Option<Seq<char>>, bool, bool) {
    (next, None, None, false, false)
}

/// End the login with `reply` and, when given, close the connection.
pub open spec fn refuse(reply: (u8, Seq<char>), close: Option<Seq<char>>) -> (
    LoginStage,
    Option<(u8, Seq<char>)>,
    Option<Seq<char>>,
    bool,
    bool,
) {
    (LoginStage::Closed, Some(reply), close, false, false)
}

/// The stage after `s` when its step completes.
pub open spec fn successor(s: LoginStage) -> LoginStage {
    match s {
        LoginStage::Handshake => LoginStage::LoginStream,
        LoginStage::LoginStream => LoginStage::MessageType,
        LoginStage::MessageType => LoginStage::LoginBody,
        LoginStage::LoginBody => LoginStage::Admission,
        LoginStage::Admission => LoginStage::Authentication,
        LoginStage::Authentication => LoginStage::Registration,
        LoginStage::Registration => LoginStage::Response,
        LoginStage::Response => LoginStage::Established,
        LoginStage::Established => LoginStage::Established,
        LoginStage::Closed => LoginStage::Closed,
    }
}

/// Whether the login deadline still applies at `s`.
pub open spec fn pre_auth(s: LoginStage) -> bool {
    s == LoginStage::Handshake || s == LoginStage::LoginStream || s == LoginStage::MessageType || s
        == LoginStage::LoginBody || s == LoginStage::Admission || s == LoginStage::Authentication
}

/// What an event at a stage leads to. A login that completes every step
/// is answered with success once it is registered; a timeout before
/// authentication ends it (answered, where a stream exists to answer on,
/// with a retryable refusal); a refused token is answered without detail;
/// events that do not belong to a stage change nothing. The connection's
/// share of the pre-authentication budget is given back as soon as the
/// pre-authentication phase ends, whether the token was accepted or the
/// login ended before.
pub open spec fn login_step_spec(stage: LoginStage, event: LoginEvent) -> (
    LoginStage,
    Option<(u8, Seq<char>)>,
    Option<Seq<char>>,
    bool,
    bool,
) {
    let t = login_transition(stage, event);
    (t.0, t.1, t.2, pre_auth(stage) && !pre_auth(t.0), t.4)
}

/// The stage, answer, close reason and registry effect of an event at a
/// stage (the budget flag is set by `login_step_spec`).
pub open spec fn login_transition(stage: LoginStage, event: LoginEvent) -> (
    LoginStage,
    Option<(u8, Seq<char>)>,
    Option<Seq<char>>,
    bool,
    bool,
) {
    if stage == LoginStage::Closed {
        go(LoginStage::Closed)
    } else {
        match event {
            LoginEvent::Done => if stage == LoginStage::LoginBody {
                go(stage)
            } else if stage == LoginStage::Authentication {
                (LoginStage::Registration, None, None, true, false)
            } else if stage == LoginStage::Registration {
                (LoginStage::Response, Some((0u8, Seq::empty())), None, false, false)
            } else {
                go(successor(stage))
            },
            LoginEvent::TimedOut => if stage == LoginStage::Handshake {
                go(LoginStage::Closed)
            } else if stage == LoginStage::LoginStream {
                (LoginStage::Closed, None, Some("login timeout"@), false, false)
            } else if stage == LoginStage::MessageType || stage == LoginStage::LoginBody {
                refuse((2u8, "login timeout"@), None)
            } else if stage == LoginStage::Admission || stage == LoginStage::Authentication {
                refuse((2u8, "authentication unavailable"@), None)
            } else {
                go(stage)
            },
            LoginEvent::Failed => if stage == LoginStage::Registration {
                refuse((2u8, "registration failed"@), Some("registration failed"@))
            } else if stage == LoginStage::Response || stage == LoginStage::Established {
                (LoginStage::Closed, None, None, false, true)
            } else {
                go(LoginStage::Closed)
            },
            LoginEvent::Received { compatible, ready } => if stage != LoginStage::LoginBody {
                go(stage)
            } else if !compatible {
                refuse(
                    (1u8, "incompatible protocol version"@),
                    Some("incompatible protocol version"@),
                )
            } else if !ready {
                refuse((2u8, "server not ready"@), Some("server not ready"@))
            } else {
                go(LoginStage::Admission)
            },
            LoginEvent::WrongMessageType(name) => if stage == LoginStage::MessageType {
                refuse((1u8, "unexpected message type: "@ + name@), None)
            } else {
                go(stage)
            },
            LoginEvent::AuthRefused(kind) => if stage == LoginStage::Authentication {
                if kind == AuthErrorKind::Internal {
                    refuse((2u8, "authentication unavailable"@), None)
                } else {
                    refuse((1u8, "authentication failed"@), None)
                }
            } else {
                go(stage)
            },
            LoginEvent::FreshnessLost => if stage == LoginStage::Established {
                (LoginStage::Closed, None, Some("security freshness expired"@), false, true)
            } else {
                go(stage)
            },
        }
    }
}

fn act(next: LoginStage) -> (r: LoginAction)
    ensures
        action_view(r) == go(next),
{
    LoginAction { next, reply: None, close: None, release_budget: false, unregister: false }
}

fn refuse_with(reply: LoginReply, close: Option<&'static str>) -> (r: LoginAction)
    ensures
        action_view(r) == refuse(
            reply_view(reply),
            match close {
                Some(c) => Some(c@),
                None => None,
            },
        ),
{
    LoginAction { next: LoginStage::Closed, reply: Some(reply), close, release_budget: false, unregister: false }
}

fn is_pre_auth(s: LoginStage) -> (r: bool)
    ensures
        r == pre_auth(s),
{
    match s {
        LoginStage::Handshake | LoginStage::LoginStream | LoginStage::MessageType
        | LoginStage::LoginBody | LoginStage::Admission | LoginStage::Authentication => true,
        _ => false,
    }
}

/// The step of the login at `stage` on `event`.
pub fn login_step(stage: LoginStage, event: &LoginEvent) -> (r: LoginAction)
    ensures
        action_view(r) == login_step_spec(stage, *event),
{
    let mut a = login_transition_exec(stage, event);
    a.release_budget = is_pre_auth(stage) && !is_pre_auth(a.next);
    a
}

fn login_transition_exec(stage: LoginStage, event: &LoginEvent) -> (r: LoginAction)
    ensures
        action_view(r).0 == login_transition(stage, *event).0,
        action_view(r).1 == login_transition(stage, *event).1,
        action_view(r).2 == login_transition(stage, *event).2,
        action_view(r).4 == login_transition(stage, *event).4,
{
    if stage == LoginStage::Closed {
        return act(LoginStage::Closed);
    }
    match event {
        LoginEvent::Done => {
            match stage {
                LoginStage::Handshake => act(LoginStage::LoginStream),
                LoginStage::LoginStream => act(LoginStage::MessageType),
                LoginStage::MessageType => act(LoginStage::LoginBody),
                LoginStage::LoginBody => act(LoginStage::LoginBody),
                LoginStage::Admission => act(LoginStage::Authentication),
                LoginStage::Authentication => LoginAction {
                    next: LoginStage::Registration,
                    reply: None,
                    close: None,
                    release_budget: true,
                    unregister: false,
                },
                LoginStage::Registration => {
                    let r = LoginAction {
                        next: LoginStage::Response,
                        reply: Some(LoginReply::Success),
                        close: None,
                        release_budget: false,
                        unregister: false,
                    };
                    r
                },
                LoginStage::Response => act(LoginStage::Established),
                LoginStage::Established => act(LoginStage::Established),
                LoginStage::Closed => act(LoginStage::Closed),
            }
        },
        LoginEvent::TimedOut => {
            match stage {
                LoginStage::Handshake => act(LoginStage::Closed),
                LoginStage::LoginStream => LoginAction {
                    next: LoginStage::Closed,
                    reply: None,
                    close: Some("login timeout"),
                    release_budget: false,
                    unregister: false,
                },
                LoginStage::MessageType | LoginStage::LoginBody => refuse_with(
                    LoginReply::Retryable("login timeout".to_owned()),
                    None,
                ),
                LoginStage::Admission | LoginStage::Authentication => refuse_with(
                    LoginReply::Retryable("authentication unavailable".to_owned()),
                    None,
                ),
                _ => act(stage),
            }
        },
        LoginEvent::Failed => {
            match stage {
                LoginStage::Registration => refuse_with(
                    LoginReply::Retryable("registration failed".to_owned()),
                    Some("registration failed"),
                ),
                LoginStage::Response | LoginStage::Established => LoginAction {
                    next: LoginStage::Closed,
                    reply: None,
                    close: None,
                    release_budget: false,
                    unregister: true,
                },
                _ => act(LoginStage::Closed),
            }
        },
        LoginEvent::Received { compatible, ready } => {
            if stage != LoginStage::LoginBody {
                act(stage)
            } else if !*compatible {
                refuse_with(
                    LoginReply::Failure("incompatible protocol version".to_owned()),
                    Some("incompatible protocol version"),
                )
            } else if !*ready {
                refuse_with(
                    LoginReply::Retryable("server not ready".to_owned()),
                    Some("server not ready"),
                )
            } else {
                act(LoginStage::Admission)
            }
        },
        LoginEvent::WrongMessageType(name) => {
            if stage == LoginStage::MessageType {
                let mut out: Vec<char> = Vec::new();
                push_str_chars(&mut out, "unexpected message type: ");
                push_str_chars(&mut out, name.as_str());
                refuse_with(LoginReply::Failure(string_from_chars(out.as_slice())), None)
            } else {
                act(stage)
            }
        },
        LoginEvent::AuthRefused(kind) => {
            if stage == LoginStage::Authentication {
                if *kind == AuthErrorKind::Internal {
                    refuse_with(LoginReply::Retryable("authentication unavailable".to_owned()), None)
                } else {
                    refuse_with(LoginReply::Failure("authentication failed".to_owned()), None)
                }
            } else {
                act(stage)
            }
        },
        LoginEvent::FreshnessLost => {
            if stage == LoginStage::Established {
                LoginAction {
                    next: LoginStage::Closed,
                    reply: None,
                    close: Some("security freshness expired"),
                    release_budget: false,
                    unregister: true,
                }
            } else {
                act(stage)
            }
        },
    }
}

/// Success is only ever answered to a login that was just registered.
pub proof fn law_success_only_after_registration(stage: LoginStage, event: LoginEvent)
    requires
        login_step_spec(stage, event).1 == Some((0u8, Seq::<char>::empty())),
    ensures
        stage == LoginStage::Registration,
        event == LoginEvent::Done,
{
    reveal_strlit("login timeout");
    reveal_strlit("authentication unavailable");
    reveal_strlit("registration failed");
}

/// A login only moves forward one step at a time, or ends: it stays, moves
/// to the next stage, or closes.
pub proof fn law_login_advances_in_order(stage: LoginStage, event: LoginEvent)
    ensures
        ({
            let next = login_step_spec(stage, event).0;
            next == stage || next == successor(stage) || next == LoginStage::Closed
        }),
{
}

/// The pre-authentication budget is given back exactly when the
/// pre-authentication phase ends: when the token is accepted, and on every
/// refusal, timeout or failure before that; a client leaves the registry
/// only once it was entered.
pub proof fn law_budget_and_registry(stage: LoginStage, event: LoginEvent)
    ensures
        login_step_spec(stage, event).3 <==> (pre_auth(stage) && (login_step_spec(stage, event).0
            == LoginStage::Closed || login_step_spec(stage, event).0 == LoginStage::Registration)),
        stage == LoginStage::Authentication && event == LoginEvent::Done ==> login_step_spec(
            stage,
            event,
        ).3,
        pre_auth(stage) && login_step_spec(stage, event).0 == LoginStage::Closed ==> login_step_spec(
            stage,
            event,
        ).3,
        login_step_spec(stage, event).4 ==> (stage == LoginStage::Response || stage
            == LoginStage::Established),
{
}

/// The login deadline, passed before authentication ends, always ends the
/// login.
pub proof fn law_deadline_ends_login(stage: LoginStage)
    requires
        pre_auth(stage),
    ensures
        login_step_spec(stage, LoginEvent::TimedOut).0 == LoginStage::Closed,
{
}

/// A refused token is answered with one of two fixed texts, retryable
/// only for an internal failure: nothing of the cause reaches the peer.
pub proof fn law_refused_token_reveals_nothing(kind: AuthErrorKind)
    ensures
        login_step_spec(LoginStage::Authentication, LoginEvent::AuthRefused(kind)).1 == Some(
            if kind == AuthErrorKind::Internal {
                (2u8, "authentication unavailable"@)
            } else {
                (1u8, "authentication failed"@)
            },
        ),
{
}

/// Why a reverse stream of an established client was refused.
#[derive(Debug, Clone, Copy, PartialEq, Eq, Structural)]
pub enum ReverseStreamRefusal {
    /// No runtime generation admits new work.
    NotReady,
    /// The server-wide stream budget is spent.
    GlobalCapacity,
    /// The connection's stream budget is spent.
    ConnectionCapacity,
}

/// How many reverse streams one connection may carry at once.
pub const MAX_REVERSE_STREAMS_PER_CONNECTION: usize = 1000;

/// How many reverse streams the server carries at once.
pub const MAX_REVERSE_STREAMS_GLOBAL: usize = 4096;

/// Whether a reverse stream offered by an established client is taken: the
/// server must admit work, then the server-wide budget and then the
/// connection's budget must have room, checked in that order.
pub fn admit_reverse_stream(ready: bool, global_in_use: usize, connection_in_use: usize) -> (r: Result<
    (),
    ReverseStreamRefusal,
>)
    ensures
        r == if !ready {
            Err(ReverseStreamRefusal::NotReady)
        } else if global_in_use >= MAX_REVERSE_STREAMS_GLOBAL {
            Err(ReverseStreamRefusal::GlobalCapacity)
        } else if connection_in_use >= MAX_REVERSE_STREAMS_PER_CONNECTION {
            Err(ReverseStreamRefusal::ConnectionCapacity)
        } else {
            Ok::<(), ReverseStreamRefusal>(())
        },
{
    if !ready {
        Err(ReverseStreamRefusal::NotReady)
    } else if global_in_use >= MAX_REVERSE_STREAMS_GLOBAL {
        Err(ReverseStreamRefusal::GlobalCapacity)
    } else if connection_in_use >= MAX_REVERSE_STREAMS_PER_CONNECTION {
        Err(ReverseStreamRefusal::ConnectionCapacity)
    } else {
        Ok(())
    }
}

} // verus!

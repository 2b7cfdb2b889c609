//! Signing in to Telegram over the web: the code, then the password where there is one.
//!
//! The connection itself (`C`) and the token that a password is checked with (`T`) are carried as
//! they are.
use crate::settings;
use crate::settings::Settings;
use crate::text;
use vstd::prelude::*;

verus! {

/// A connection that is signed in, and the phone number that it belongs to.
pub struct TgClient<C> {
    pub client: C,
    pub phone: String,
}

/// A connection that waits for its password.
pub struct PendingAuth<C, T> {
    pub client: C,
    pub phone: String,
    pub password_token: T,
    pub password_hint: Option<String>,
}

/// Whether Telegram is connected, and under which phone number.
pub struct StatusResp {
    pub connected: bool,
    pub phone: Option<String>,
}

/// A request to connect, with the keys of the Telegram API.
pub struct ConnectReq {
    pub phone: String,
    pub api_id: i32,
    pub api_hash: String,
}

/// The answer to a request to connect.
pub struct ConnectResp {
    pub ok: bool,
    pub message: String,
    pub need_code: bool,
}

/// The code that was sent to a phone number.
pub struct VerifyReq {
    pub code: String,
    pub phone: String,
    pub api_id: i32,
    pub api_hash: String,
}

/// The answer to a code. With `need_2fa` the password is to be sent next.
pub struct VerifyResp {
    pub ok: bool,
    pub message: String,
    pub need_2fa: bool,
    pub password_hint: Option<String>,
}

/// The password of two-factor authentication.
pub struct Verify2FaReq {
    pub password: String,
}

/// The answer to a password.
pub struct Verify2FaResp {
    pub ok: bool,
    pub message: String,
}

/// What Telegram says to a code.
pub enum SignIn<T> {
    Accepted,
    PasswordRequired { token: T, hint: Option<String> },
    Failed(String),
}

/// The phone number that is connected, and the one that waits for its password, if any.
pub struct LoginState {
    pub connected: Option<Seq<char>>,
    pub waiting: Option<Seq<char>>,
}

/// The phone number that is connected.
pub open spec fn connected_phone<C>(tg: Option<TgClient<C>>) -> Option<Seq<char>> {
    match tg {
        Some(t) => Some(t.phone@),
        None => None,
    }
}

/// The phone number that waits for its password.
pub open spec fn waiting_phone<C, T>(pending: Option<PendingAuth<C, T>>) -> Option<Seq<char>> {
    match pending {
        Some(p) => Some(p.phone@),
        None => None,
    }
}

/// The phone numbers of the two slots.
pub open spec fn login_state<C, T>(
    tg: Option<TgClient<C>>,
    pending: Option<PendingAuth<C, T>>,
) -> LoginState {
    LoginState { connected: connected_phone(tg), waiting: waiting_phone(pending) }
}

/// Answers whether Telegram is connected.
pub fn status_handler<C>(tg: &Option<TgClient<C>>) -> (r: StatusResp)
    ensures
        match *tg {
            Some(t) => r.connected && (r.phone matches Some(phone) && phone@ == t.phone@),
            None => !r.connected && r.phone is None,
        },
{
    match tg {
        Some(t) => StatusResp { connected: true, phone: Some(t.phone.clone()) },
        None => StatusResp { connected: false, phone: None },
    }
}

/// Answers a request to connect, with the settings file that keeps the keys.
pub fn connect_handler(settings: &Settings, req: &ConnectReq) -> (r: (String, ConnectResp))
    ensures
        r.0@ == settings::env_text(
            settings.login@,
            settings.password@,
            req.api_id as int,
            req.api_hash@,
            settings.admin_ip@,
            settings.session_key@,
        ),
        r.1.ok,
        r.1.message@ == "отправляем код на "@ + req.phone@,
        r.1.need_code,
{
    let file = settings::env_file(
        settings.login.as_str(),
        settings.password.as_str(),
        req.api_id,
        req.api_hash.as_str(),
        settings.admin_ip.as_str(),
        settings.session_key.as_str(),
    );
    let mut message = "отправляем код на ".to_owned();
    message.append(req.phone.as_str());
    (file, ConnectResp { ok: true, message, need_code: true })
}

/// Answers a code where no connection came about, or no code could be asked for.
pub fn verify_failed(error: String) -> (r: VerifyResp)
    ensures
        is_failure(r, error@),
{
    VerifyResp { ok: false, message: error, need_2fa: false, password_hint: None }
}

/// What happened last while a code is verified.
pub enum VerifyEvent<T> {
    Connected,
    ConnectFailed(String),
    CodeRequested,
    RequestFailed(String),
    SignedIn(SignIn<T>),
    Stored,
}

/// What is to be done next while a code is verified. `Settle` hands what Telegram said to
/// `verify_outcome`.
pub enum VerifyAction<T> {
    RequestCode,
    SignIn,
    Store,
    Settle(SignIn<T>),
    Answer(VerifyResp),
}

/// Whether the answer is the failure `error`, and asks for nothing.
pub open spec fn is_failure(r: VerifyResp, error: Seq<char>) -> bool {
    !r.ok && !r.need_2fa && r.password_hint is None && r.message@ == error
}

/// Decides how verifying a code goes on: over a new connection a code is requested, then it is
/// signed in with. A failure before that is answered as it is. The session is stored where the code
/// was accepted and nowhere else, and only then is the connection settled.
pub fn verify_step<T>(event: VerifyEvent<T>) -> (r: VerifyAction<T>)
    ensures
        match event {
            VerifyEvent::Connected => r is RequestCode,
            VerifyEvent::ConnectFailed(e) => r matches VerifyAction::Answer(a) && is_failure(a, e@),
            VerifyEvent::CodeRequested => r is SignIn,
            VerifyEvent::RequestFailed(e) => r matches VerifyAction::Answer(a) && is_failure(a, e@),
            VerifyEvent::SignedIn(SignIn::Accepted) => r is Store,
            VerifyEvent::SignedIn(outcome) => r == VerifyAction::Settle(outcome),
            VerifyEvent::Stored => r == VerifyAction::<T>::Settle(SignIn::Accepted),
        },
{
    match event {
        VerifyEvent::Connected => VerifyAction::RequestCode,
        VerifyEvent::ConnectFailed(e) => VerifyAction::Answer(verify_failed(e)),
        VerifyEvent::CodeRequested => VerifyAction::SignIn,
        VerifyEvent::RequestFailed(e) => VerifyAction::Answer(verify_failed(e)),
        VerifyEvent::SignedIn(SignIn::Accepted) => VerifyAction::Store,
        VerifyEvent::SignedIn(outcome) => VerifyAction::Settle(outcome),
        VerifyEvent::Stored => VerifyAction::Settle(SignIn::Accepted),
    }
}

/// Where what Telegram says to the code of `phone` leads.
pub open spec fn after_code<T>(s: LoginState, outcome: SignIn<T>, phone: Seq<char>) -> LoginState {
    match outcome {
        SignIn::Accepted => LoginState { connected: Some(phone), ..s },
        SignIn::PasswordRequired { .. } => LoginState { waiting: Some(phone), ..s },
        SignIn::Failed(_) => s,
    }
}

/// Takes in what Telegram says to a code, and answers it: the connection is taken into use, or it
/// waits for the password, or nothing changes.
pub fn verify_outcome<C, T>(
    tg: &mut Option<TgClient<C>>,
    pending: &mut Option<PendingAuth<C, T>>,
    client: C,
    phone: &str,
    outcome: SignIn<T>,
) -> (r: VerifyResp)
    ensures
        login_state(*final(tg), *final(pending)) == after_code(
            login_state(*old(tg), *old(pending)),
            outcome,
            phone@,
        ),
        match outcome {
            SignIn::Accepted => {
                &&& *final(pending) == *old(pending)
                &&& *final(tg) matches Some(t)
                &&& t.client == client
                &&& t.phone@ == phone@
                &&& r.ok && !r.need_2fa && r.password_hint is None
                &&& r.message@ == "подключено: "@ + phone@
            },
            SignIn::PasswordRequired { token, hint } => {
                &&& *final(tg) == *old(tg)
                &&& *final(pending) matches Some(p)
                &&& p.client == client
                &&& p.phone@ == phone@
                &&& p.password_token == token
                &&& p.password_hint == hint
                &&& r.ok && r.need_2fa && r.password_hint == hint
                &&& r.message@ == "требуется пароль двухфакторной аутентификации"@
            },
            SignIn::Failed(e) => {
                &&& *final(tg) == *old(tg)
                &&& *final(pending) == *old(pending)
                &&& is_failure(r, "неверный код: "@ + e@)
            },
        },
{
    match outcome {
        SignIn::Accepted => {
            *tg = Some(TgClient { client, phone: phone.to_owned() });
            let mut message = "подключено: ".to_owned();
            message.append(phone);
            VerifyResp { ok: true, message, need_2fa: false, password_hint: None }
        },
        SignIn::PasswordRequired { token, hint } => {
            let shown = match &hint {
                Some(h) => Some(h.clone()),
                None => None,
            };
            *pending = Some(
                PendingAuth {
                    client,
                    phone: phone.to_owned(),
                    password_token: token,
                    password_hint: hint,
                },
            );
            VerifyResp {
                ok: true,
                message: "требуется пароль двухфакторной аутентификации".to_owned(),
                need_2fa: true,
                password_hint: shown,
            }
        },
        SignIn::Failed(e) => {
            let mut message = "неверный код: ".to_owned();
            message.append(e.as_str());
            VerifyResp { ok: false, message, need_2fa: false, password_hint: None }
        },
    }
}

/// Takes the connection that waits for its password, or answers that there is none. It waits no
/// longer either way.
pub fn take_pending<C, T>(pending: &mut Option<PendingAuth<C, T>>) -> (r: Result<
    PendingAuth<C, T>,
    Verify2FaResp,
>)
    ensures
        *final(pending) is None,
        match *old(pending) {
            Some(p) => r == Ok::<PendingAuth<C, T>, Verify2FaResp>(p),
            None => r matches Err(e) && !e.ok && e.message@
                == "нет ожидающей сессии, сначала введите код"@,
        },
{
    match pending.take() {
        Some(p) => Ok(p),
        None => Err(
            Verify2FaResp {
                ok: false,
                message: "нет ожидающей сессии, сначала введите код".to_owned(),
            },
        ),
    }
}

/// The password to check: without white space at either end.
pub fn password_to_check(req: &Verify2FaReq) -> (r: String)
    ensures
        r@ == text::trimmed_text(req.password@),
{
    text::trim(req.password.as_str())
}

/// What happened last while a password is verified: it was checked, with this error if it was
/// wrong, or the session was stored.
pub enum PasswordEvent {
    Checked(Option<String>),
    Stored,
}

/// What is to be done next while a password is verified. `Settle` hands the error, if any, to
/// `verify_2fa_outcome`.
pub enum PasswordAction {
    Store,
    Settle(Option<String>),
}

/// Decides how verifying a password goes on: the session is stored where the password was right and
/// nowhere else, and only then is the connection settled.
pub fn password_step(event: PasswordEvent) -> (r: PasswordAction)
    ensures
        match event {
            PasswordEvent::Checked(None) => r is Store,
            PasswordEvent::Checked(error) => r == PasswordAction::Settle(error),
            PasswordEvent::Stored => r == PasswordAction::Settle(None),
        },
{
    match event {
        PasswordEvent::Checked(None) => PasswordAction::Store,
        PasswordEvent::Checked(error) => PasswordAction::Settle(error),
        PasswordEvent::Stored => PasswordAction::Settle(None),
    }
}

/// Where a password leads, once it was checked.
pub open spec fn after_password(s: LoginState, accepted: bool) -> LoginState {
    match s.waiting {
        Some(phone) => LoginState {
            connected: if accepted {
                Some(phone)
            } else {
                s.connected
            },
            waiting: None,
        },
        None => s,
    }
}

/// Takes in what Telegram says to the password of a connection that waited, and answers it: the
/// connection is taken into use, or it is given up.
pub fn verify_2fa_outcome<C>(
    tg: &mut Option<TgClient<C>>,
    client: C,
    phone: String,
    error: Option<String>,
) -> (r: Verify2FaResp)
    ensures
        connected_phone(*final(tg)) == after_password(
            LoginState { connected: connected_phone(*old(tg)), waiting: Some(phone@) },
            error is None,
        ).connected,
        match error {
            None => {
                &&& *final(tg) matches Some(t)
                &&& t.client == client
                &&& t.phone@ == phone@
                &&& r.ok
                &&& r.message@ == "подключено: "@ + phone@
            },
            Some(e) => {
                &&& *final(tg) == *old(tg)
                &&& !r.ok
                &&& r.message@ == "неверный пароль 2FA: "@ + e@ + ". Начните заново."@
            },
        },
{
    match error {
        None => {
            let mut message = "подключено: ".to_owned();
            message.append(phone.as_str());
            *tg = Some(TgClient { client, phone });
            Verify2FaResp { ok: true, message }
        },
        Some(e) => {
            let mut message = "неверный пароль 2FA: ".to_owned();
            message.append(e.as_str());
            message.append(". Начните заново.");
            Verify2FaResp { ok: false, message }
        },
    }
}

/// A code that needs a password, followed by the right password, connects the phone number, and
/// nothing waits any longer.
pub proof fn law_code_then_password<T>(s: LoginState, outcome: SignIn<T>, phone: Seq<char>)
    requires
        outcome is PasswordRequired,
    ensures
        after_password(after_code(s, outcome, phone), true) == (LoginState {
            connected: Some(phone),
            waiting: None,
        }),
{
}

/// A wrong password leaves the connection in use alone and has to be followed by a new code: a
/// second password, even the right one, changes nothing.
pub proof fn law_wrong_password_is_final(s: LoginState, accepted: bool)
    ensures
        after_password(s, false).connected == s.connected,
        after_password(after_password(s, false), accepted) == after_password(s, false),
{
}

/// The phone number of each slot is the one that its connection belongs to, in full.
pub proof fn law_login_state<C, T>(tg: Option<TgClient<C>>, pending: Option<PendingAuth<C, T>>)
    ensures
        login_state(tg, pending).connected == match tg {
            Some(t) => Some(t.phone@),
            None => None,
        },
        login_state(tg, pending).waiting == match pending {
            Some(p) => Some(p.phone@),
            None => None,
        },
{
}

/// A failure says what went wrong, in full, and asks for nothing.
pub proof fn law_failure(r: VerifyResp, error: Seq<char>)
    ensures
        is_failure(r, error) <==> !r.ok && !r.need_2fa && r.password_hint is None && r.message@
            == error,
{
}

} // verus!

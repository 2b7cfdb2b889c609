//! Who may use the desk: signing in, sessions by address, and the administrator.
use crate::settings;
use crate::settings::Settings;
use vstd::prelude::*;

verus! {

/// A request to sign in.
pub struct AuthReq {
    pub login: String,
    pub password: String,
}

/// Whether an address has a session.
pub struct SessionResp {
    pub valid: bool,
}

/// A request to change the login and the password.
pub struct ChangeCredsReq {
    pub old_password: String,
    pub new_login: String,
    pub new_password: String,
}

/// An answer with its HTTP status.
pub struct Reply {
    pub status: u16,
    pub ok: bool,
    pub message: String,
}

/// What becomes of a request to change the credentials: it is refused, or this settings file is to
/// be written.
pub enum ChangeDecision {
    Refuse(Reply),
    Write(String),
}

pub const OK: u16 = 200;

pub const UNAUTHORIZED: u16 = 401;

pub const FORBIDDEN: u16 = 403;

pub const INTERNAL_SERVER_ERROR: u16 = 500;

/// How many seconds a session lasts: thirty days.
pub const SESSION_SECONDS: i64 = 86400 * 30;

/// Whether the reply is the given one.
pub open spec fn is_reply(r: Reply, status: u16, ok: bool, message: Seq<char>) -> bool {
    r.status == status && r.ok == ok && r.message@ == message
}

/// Whether the login and the password of the request are those of the settings.
pub open spec fn credentials_match(settings: &Settings, req: &AuthReq) -> bool {
    req.login@ == settings.login@ && req.password@ == settings.password@
}

/// Answers a request to sign in, and whether a session is to be recorded.
pub fn auth(settings: &Settings, req: &AuthReq) -> (r: (Reply, bool))
    ensures
        r.1 == credentials_match(settings, req),
        r.1 ==> is_reply(r.0, OK, true, "ok"@),
        !r.1 ==> is_reply(r.0, UNAUTHORIZED, false, "неверные данные"@),
{
    if req.login == settings.login && req.password == settings.password {
        (Reply { status: OK, ok: true, message: "ok".to_owned() }, true)
    } else {
        (
            Reply { status: UNAUTHORIZED, ok: false, message: "неверные данные".to_owned() },
            false,
        )
    }
}

/// When a session that starts at `now` ends, in seconds.
pub fn session_expiry(now: i64) -> (r: i64)
    requires
        now + SESSION_SECONDS <= i64::MAX,
    ensures
        r == now + SESSION_SECONDS,
{
    now + SESSION_SECONDS
}

/// Whether a session is valid at `now`, where one is recorded with this end.
pub open spec fn session_valid(expires_at: Option<i64>, now: i64) -> bool {
    expires_at matches Some(end) && end > now
}

/// Answers whether the recorded session, if any, is valid at `now`.
pub fn check_session(expires_at: Option<i64>, now: i64) -> (r: SessionResp)
    ensures
        r.valid == session_valid(expires_at, now),
{
    match expires_at {
        Some(end) => SessionResp { valid: end > now },
        None => SessionResp { valid: false },
    }
}

/// Whether the address is the administrator's. Without an administrator's address, each is.
pub open spec fn is_admin(settings: &Settings, ip: Seq<char>) -> bool {
    settings.admin_ip@.len() == 0 || ip == settings.admin_ip@
}

/// Answers whether the address is the administrator's.
pub fn admin_check(settings: &Settings, ip: &String) -> (b: bool)
    ensures
        b == is_admin(settings, ip@),
{
    settings.admin_ip.as_str().is_empty() || *ip == settings.admin_ip
}

/// The settings file with the new credentials and everything else as it was.
pub open spec fn changed_file(settings: &Settings, req: &ChangeCredsReq) -> Seq<char> {
    settings::env_text(
        req.new_login@,
        req.new_password@,
        settings.tg_api_id as int,
        settings.tg_api_hash@,
        settings.admin_ip@,
        settings.session_key@,
    )
}

/// Decides on a request to change the credentials: the administrator may, with the old password.
pub fn change_creds(settings: &Settings, ip: &String, req: &ChangeCredsReq) -> (r: ChangeDecision)
    ensures
        match r {
            ChangeDecision::Refuse(reply) => if !is_admin(settings, ip@) {
                is_reply(reply, FORBIDDEN, false, "forbidden"@)
            } else {
                req.old_password@ != settings.password@ && is_reply(
                    reply,
                    UNAUTHORIZED,
                    false,
                    "wrong password"@,
                )
            },
            ChangeDecision::Write(file) => is_admin(settings, ip@) && req.old_password@
                == settings.password@ && file@ == changed_file(settings, req),
        },
{
    if !admin_check(settings, ip) {
        return ChangeDecision::Refuse(
            Reply { status: FORBIDDEN, ok: false, message: "forbidden".to_owned() },
        );
    }
    if !(req.old_password == settings.password) {
        return ChangeDecision::Refuse(
            Reply { status: UNAUTHORIZED, ok: false, message: "wrong password".to_owned() },
        );
    }
    ChangeDecision::Write(
        settings::env_file(
            req.new_login.as_str(),
            req.new_password.as_str(),
            settings.tg_api_id,
            settings.tg_api_hash.as_str(),
            settings.admin_ip.as_str(),
            settings.session_key.as_str(),
        ),
    )
}

/// Answers a change of credentials once the file was written, or writing failed with an error.
pub fn change_creds_reply(error: Option<String>) -> (r: Reply)
    ensures
        match error {
            None => is_reply(r, OK, true, "restart required"@),
            Some(e) => is_reply(r, INTERNAL_SERVER_ERROR, false, e@),
        },
{
    match error {
        None => Reply { status: OK, ok: true, message: "restart required".to_owned() },
        Some(e) => Reply { status: INTERNAL_SERVER_ERROR, ok: false, message: e },
    }
}

/// A session that starts at `start` is valid for thirty days from then, and no longer.
pub proof fn law_session_lasts(start: i64, now: i64)
    requires
        start + SESSION_SECONDS <= i64::MAX,
    ensures
        session_valid(Some((start + SESSION_SECONDS) as i64), now) <==> now < start
            + SESSION_SECONDS,
{
}

/// Changing the credentials of settings without line breaks changes the first two lines of the
/// settings file and no other.
pub proof fn law_change_keeps_the_rest(settings: &Settings, req: &ChangeCredsReq)
    requires
        settings::is_one_line(req.new_login@),
        settings::is_one_line(req.new_password@),
        settings::is_one_line(settings.tg_api_hash@),
        settings::is_one_line(settings.admin_ip@),
        settings::is_one_line(settings.session_key@),
    ensures
        settings::lines(changed_file(settings, req)) == seq![
            "APP_LOGIN="@ + req.new_login@,
            "APP_PASSWORD="@ + req.new_password@,
        ] + settings::other_lines(
            settings.tg_api_id as int,
            settings.tg_api_hash@,
            settings.admin_ip@,
            settings.session_key@,
        ),
{
    settings::law_env_lines(
        req.new_login@,
        req.new_password@,
        settings.tg_api_id as int,
        settings.tg_api_hash@,
        settings.admin_ip@,
        settings.session_key@,
    );
}

/// Signing in takes the login and the password of the settings, both in full.
pub proof fn law_sign_in(settings: &Settings, req: &AuthReq)
    ensures
        credentials_match(settings, req) <==> req.login@ == settings.login@ && req.password@
            == settings.password@,
{
}

/// Where an administrator's address is set, that address and no other is the administrator's; where
/// none is set, every address is.
pub proof fn law_administrator(settings: &Settings, ip: Seq<char>)
    ensures
        settings.admin_ip@.len() > 0 ==> (is_admin(settings, ip) <==> ip == settings.admin_ip@),
        settings.admin_ip@.len() == 0 ==> is_admin(settings, ip),
{
}

/// A session recorded with an end is valid up to that end and not from then on; without a record
/// there is none. A session lasts 2,592,000 seconds.
pub proof fn law_session_end(end: i64, now: i64)
    ensures
        session_valid(Some(end), now) <==> now < end,
        !session_valid(None, now),
        SESSION_SECONDS == 2_592_000,
{
}

/// A reply has the status, the verdict and the message that are asked for.
pub proof fn law_reply(r: Reply, status: u16, ok: bool, message: Seq<char>)
    requires
        is_reply(r, status, ok, message),
    ensures
        r.status == status && r.ok == ok && r.message@ == message,
        OK == 200 && UNAUTHORIZED == 401 && FORBIDDEN == 403 && INTERNAL_SERVER_ERROR == 500,
{
}

/// A change of credentials writes the new login and password whole, and all else as it was.
pub proof fn law_changed_file(settings: &Settings, req: &ChangeCredsReq)
    ensures
        changed_file(settings, req) == "APP_LOGIN="@ + req.new_login@ + seq!['\n']
            + "APP_PASSWORD="@ + req.new_password@ + seq!['\n'] + "DATABASE_URL=sqlite:data.db"@
            + seq!['\n'] + "TG_API_ID="@ + crate::numbers::decimal(settings.tg_api_id as int)
            + seq!['\n'] + "TG_API_HASH="@ + settings.tg_api_hash@ + seq!['\n'] + "ADMIN_IP="@
            + settings.admin_ip@ + seq!['\n'] + "HOST=127.0.0.1"@ + seq!['\n'] + "PORT=3000"@
            + seq!['\n'] + "SESSION_KEY="@ + settings.session_key@ + seq!['\n'],
{
    settings::law_env_text(
        req.new_login@,
        req.new_password@,
        settings.tg_api_id as int,
        settings.tg_api_hash@,
        settings.admin_ip@,
        settings.session_key@,
    );
}

} // verus!

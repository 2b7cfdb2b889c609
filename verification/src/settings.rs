//! What the environment tells the desk, and the file that keeps it.
use crate::numbers;
use crate::text;
use vstd::prelude::*;

verus! {

/// The variables that the desk reads, each as far as it is set.
pub struct Variables {
    pub database_url: Option<String>,
    pub app_login: Option<String>,
    pub app_password: Option<String>,
    pub tg_api_id: Option<String>,
    pub tg_api_hash: Option<String>,
    pub admin_ip: Option<String>,
    pub session_key: Option<String>,
    pub host: Option<String>,
    pub port: Option<String>,
}

/// The settings of the desk.
pub struct Settings {
    pub database_url: String,
    pub login: String,
    pub password: String,
    pub tg_api_id: i32,
    pub tg_api_hash: String,
    pub admin_ip: String,
    pub session_key: String,
    pub host: String,
    pub port: u16,
}

/// The text of a variable, or `default` where it is not set.
pub open spec fn text_or(v: Option<String>, default: Seq<char>) -> Seq<char> {
    match v {
        Some(s) => s@,
        None => default,
    }
}

/// The number that a variable writes between `lo` and `hi`, or `default`.
pub open spec fn number_or(v: Option<String>, lo: int, hi: int, default: int) -> int {
    match v {
        Some(s) => match numbers::number_within(s@, lo, hi) {
            Some(n) => n,
            None => default,
        },
        None => default,
    }
}

fn or_default(v: Option<String>, default: &str) -> (r: String)
    ensures
        r@ == text_or(v, default@),
{
    match v {
        Some(s) => s,
        None => default.to_owned(),
    }
}

/// Fills in what the environment leaves open.
pub fn settings(v: Variables) -> (r: Settings)
    ensures
        r.database_url@ == text_or(v.database_url, "sqlite:data.db"@),
        r.login@ == text_or(v.app_login, "admin"@),
        r.password@ == text_or(v.app_password, "password"@),
        r.tg_api_id == number_or(v.tg_api_id, i32::MIN as int, i32::MAX as int, 0),
        r.tg_api_hash@ == text_or(v.tg_api_hash, seq![]),
        r.admin_ip@ == text_or(v.admin_ip, seq![]),
        r.session_key@ == text_or(v.session_key, seq![]),
        r.host@ == text_or(v.host, "127.0.0.1"@),
        r.port == number_or(v.port, 0, u16::MAX as int, 3000),
{
    proof {
        reveal_strlit("");
        assert(""@ =~= seq![]);
    }
    let tg_api_id: i32 = match v.tg_api_id {
        Some(s) => match numbers::parse_i32(s.as_str()) {
            Some(n) => n,
            None => 0,
        },
        None => 0,
    };
    let port: u16 = match v.port {
        Some(s) => match numbers::parse_u16(s.as_str()) {
            Some(n) => n,
            None => 3000,
        },
        None => 3000,
    };
    Settings {
        database_url: or_default(v.database_url, "sqlite:data.db"),
        login: or_default(v.app_login, "admin"),
        password: or_default(v.app_password, "password"),
        tg_api_id,
        tg_api_hash: or_default(v.tg_api_hash, ""),
        admin_ip: or_default(v.admin_ip, ""),
        session_key: or_default(v.session_key, ""),
        host: or_default(v.host, "127.0.0.1"),
        port,
    }
}

impl Settings {
    /// Whether Telegram can be reached with these settings: there is an API id and an API hash.
    pub fn has_telegram(&self) -> (b: bool)
        ensures
            b == (self.tg_api_id != 0 && self.tg_api_hash@.len() > 0),
    {
        self.tg_api_id != 0 && !self.tg_api_hash.as_str().is_empty()
    }

    /// The address to listen at, as `host:port`.
    pub fn address(&self) -> (r: String)
        ensures
            r@ == self.host@ + ":"@ + numbers::decimal(self.port as int),
    {
        let mut r = self.host.clone();
        r.append(":");
        r.append(numbers::format_count(self.port as usize).as_str());
        r
    }
}

/// One line of the settings file.
pub open spec fn line(name: Seq<char>, value: Seq<char>) -> Seq<char> {
    name + value + seq!['\n']
}

/// The settings file.
pub open spec fn env_text(
    login: Seq<char>,
    password: Seq<char>,
    api_id: int,
    api_hash: Seq<char>,
    admin_ip: Seq<char>,
    session_key: Seq<char>,
) -> Seq<char> {
    line("APP_LOGIN="@, login) + line("APP_PASSWORD="@, password) + line(
        "DATABASE_URL="@,
        "sqlite:data.db"@,
    ) + line("TG_API_ID="@, numbers::decimal(api_id)) + line("TG_API_HASH="@, api_hash) + line(
        "ADMIN_IP="@,
        admin_ip,
    ) + line("HOST="@, "127.0.0.1"@) + line("PORT="@, "3000"@) + line("SESSION_KEY="@, session_key)
}

/// Appends one line of the settings file.
fn push_line(out: &mut String, name: &str, value: &str)
    ensures
        final(out)@ == old(out)@ + line(name@, value@),
{
    out.append(name);
    out.append(value);
    out.push('\n');
    assert(out@ =~= old(out)@ + line(name@, value@));
}

/// Writes the settings file.
pub fn env_file(
    login: &str,
    password: &str,
    api_id: i32,
    api_hash: &str,
    admin_ip: &str,
    session_key: &str,
) -> (out: String)
    ensures
        out@ == env_text(
            login@,
            password@,
            api_id as int,
            api_hash@,
            admin_ip@,
            session_key@,
        ),
{
    let mut out = String::new();
    push_line(&mut out, "APP_LOGIN=", login);
    push_line(&mut out, "APP_PASSWORD=", password);
    push_line(&mut out, "DATABASE_URL=", "sqlite:data.db");
    push_line(&mut out, "TG_API_ID=", numbers::format_decimal(api_id as i64).as_str());
    push_line(&mut out, "TG_API_HASH=", api_hash);
    push_line(&mut out, "ADMIN_IP=", admin_ip);
    push_line(&mut out, "HOST=", "127.0.0.1");
    push_line(&mut out, "PORT=", "3000");
    push_line(&mut out, "SESSION_KEY=", session_key);
    proof {
        assert(out@ =~= env_text(
            login@,
            password@,
            api_id as int,
            api_hash@,
            admin_ip@,
            session_key@,
        ));
    }
    out
}

/// The lines of a text that are not empty.
pub open spec fn lines(s: Seq<char>) -> Seq<Seq<char>> {
    text::words(s, text::marked(s, |c: char| c == '\n'))
}

/// Whether the text is free of line breaks.
pub open spec fn is_one_line(s: Seq<char>) -> bool {
    forall|i: int| 0 <= i < s.len() ==> #[trigger] s[i] != '\n'
}

proof fn lemma_first_line(name: Seq<char>, value: Seq<char>, rest: Seq<char>)
    requires
        name.len() > 0,
        is_one_line(name),
        is_one_line(value),
    ensures
        lines(line(name, value) + rest) == seq![name + value] + lines(rest),
{
    let newline = |c: char| c == '\n';
    let head = name + value;
    assert forall|k: int| 0 <= k < head.len() implies !newline(#[trigger] head[k]) by {
        if k < name.len() {
            assert(head[k] == name[k]);
        } else {
            assert(head[k] == value[k - name.len()]);
        }
    }
    text::law_first_word(head, '\n', rest, newline);
    assert(line(name, value) + rest =~= head + seq!['\n'] + rest);
}

/// The lines that follow the credentials in the settings file.
pub open spec fn other_lines(
    api_id: int,
    api_hash: Seq<char>,
    admin_ip: Seq<char>,
    session_key: Seq<char>,
) -> Seq<Seq<char>> {
    seq![
        "DATABASE_URL="@ + "sqlite:data.db"@,
        "TG_API_ID="@ + numbers::decimal(api_id),
        "TG_API_HASH="@ + api_hash,
        "ADMIN_IP="@ + admin_ip,
        "HOST="@ + "127.0.0.1"@,
        "PORT="@ + "3000"@,
        "SESSION_KEY="@ + session_key,
    ]
}

/// The settings file of values without line breaks has one line for each setting: the login and
/// the password, then the lines that do not depend on them.
pub proof fn law_env_lines(
    login: Seq<char>,
    password: Seq<char>,
    api_id: int,
    api_hash: Seq<char>,
    admin_ip: Seq<char>,
    session_key: Seq<char>,
)
    requires
        is_one_line(login),
        is_one_line(password),
        is_one_line(api_hash),
        is_one_line(admin_ip),
        is_one_line(session_key),
    ensures
        lines(env_text(login, password, api_id, api_hash, admin_ip, session_key)) == seq![
            "APP_LOGIN="@ + login,
            "APP_PASSWORD="@ + password,
        ] + other_lines(api_id, api_hash, admin_ip, session_key),
{
    reveal_strlit("APP_LOGIN=");
    reveal_strlit("APP_PASSWORD=");
    reveal_strlit("DATABASE_URL=");
    reveal_strlit("TG_API_ID=");
    reveal_strlit("TG_API_HASH=");
    reveal_strlit("ADMIN_IP=");
    reveal_strlit("HOST=");
    reveal_strlit("PORT=");
    reveal_strlit("SESSION_KEY=");
    reveal_strlit("sqlite:data.db");
    reveal_strlit("127.0.0.1");
    reveal_strlit("3000");
    numbers::law_decimal_form(api_id);
    let empty: Seq<char> = seq![];
    let l9 = line("SESSION_KEY="@, session_key);
    let l8 = line("PORT="@, "3000"@);
    let l7 = line("HOST="@, "127.0.0.1"@);
    let l6 = line("ADMIN_IP="@, admin_ip);
    let l5 = line("TG_API_HASH="@, api_hash);
    let l4 = line("TG_API_ID="@, numbers::decimal(api_id));
    let l3 = line("DATABASE_URL="@, "sqlite:data.db"@);
    let l2 = line("APP_PASSWORD="@, password);
    let l1 = line("APP_LOGIN="@, login);
    lemma_first_line("SESSION_KEY="@, session_key, empty);
    lemma_first_line("PORT="@, "3000"@, l9 + empty);
    lemma_first_line("HOST="@, "127.0.0.1"@, l8 + (l9 + empty));
    lemma_first_line("ADMIN_IP="@, admin_ip, l7 + (l8 + (l9 + empty)));
    lemma_first_line("TG_API_HASH="@, api_hash, l6 + (l7 + (l8 + (l9 + empty))));
    lemma_first_line(
        "TG_API_ID="@,
        numbers::decimal(api_id),
        l5 + (l6 + (l7 + (l8 + (l9 + empty)))),
    );
    lemma_first_line(
        "DATABASE_URL="@,
        "sqlite:data.db"@,
        l4 + (l5 + (l6 + (l7 + (l8 + (l9 + empty))))),
    );
    lemma_first_line(
        "APP_PASSWORD="@,
        password,
        l3 + (l4 + (l5 + (l6 + (l7 + (l8 + (l9 + empty)))))),
    );
    lemma_first_line(
        "APP_LOGIN="@,
        login,
        l2 + (l3 + (l4 + (l5 + (l6 + (l7 + (l8 + (l9 + empty))))))),
    );
    assert(env_text(login, password, api_id, api_hash, admin_ip, session_key) =~= l1 + (l2 + (l3 + (
    l4 + (l5 + (l6 + (l7 + (l8 + (l9 + empty)))))))));
    assert(lines(empty) == Seq::<Seq<char>>::empty());
    assert(lines(env_text(login, password, api_id, api_hash, admin_ip, session_key)) =~= seq![
        "APP_LOGIN="@ + login,
        "APP_PASSWORD="@ + password,
    ] + other_lines(api_id, api_hash, admin_ip, session_key));
}

/// A variable that is set counts as it is, and one that is not set as its default.
pub proof fn law_variable(v: Option<String>, default: Seq<char>, lo: int, hi: int, otherwise: int)
    ensures
        match v {
            Some(s) => text_or(v, default) == s@,
            None => text_or(v, default) == default,
        },
        match v {
            Some(s) => number_or(v, lo, hi, otherwise) == match numbers::number_within(s@, lo, hi) {
                Some(n) => n,
                None => otherwise,
            },
            None => number_or(v, lo, hi, otherwise) == otherwise,
        },
{
}

/// The settings file holds each value whole, between its name and a line break, and nothing else.
pub proof fn law_env_text(
    login: Seq<char>,
    password: Seq<char>,
    api_id: int,
    api_hash: Seq<char>,
    admin_ip: Seq<char>,
    session_key: Seq<char>,
)
    ensures
        env_text(login, password, api_id, api_hash, admin_ip, session_key) == "APP_LOGIN="@ + login
            + seq!['\n'] + "APP_PASSWORD="@ + password + seq!['\n']
            + "DATABASE_URL=sqlite:data.db"@ + seq!['\n'] + "TG_API_ID="@ + numbers::decimal(api_id)
            + seq!['\n'] + "TG_API_HASH="@ + api_hash + seq!['\n'] + "ADMIN_IP="@ + admin_ip
            + seq!['\n'] + "HOST=127.0.0.1"@ + seq!['\n'] + "PORT=3000"@ + seq!['\n']
            + "SESSION_KEY="@ + session_key + seq!['\n'],
{
    reveal_strlit("DATABASE_URL=");
    reveal_strlit("sqlite:data.db");
    reveal_strlit("DATABASE_URL=sqlite:data.db");
    assert("DATABASE_URL="@ + "sqlite:data.db"@ =~= "DATABASE_URL=sqlite:data.db"@);
    reveal_strlit("HOST=");
    reveal_strlit("127.0.0.1");
    reveal_strlit("HOST=127.0.0.1");
    assert("HOST="@ + "127.0.0.1"@ =~= "HOST=127.0.0.1"@);
    reveal_strlit("PORT=");
    reveal_strlit("3000");
    reveal_strlit("PORT=3000");
    assert("PORT="@ + "3000"@ =~= "PORT=3000"@);
    let l1 = "APP_LOGIN="@ + login + seq!['\n'];
    let l2 = "APP_PASSWORD="@ + password + seq!['\n'];
    let l3 = "DATABASE_URL=sqlite:data.db"@ + seq!['\n'];
    let l4 = "TG_API_ID="@ + numbers::decimal(api_id) + seq!['\n'];
    let l5 = "TG_API_HASH="@ + api_hash + seq!['\n'];
    let l6 = "ADMIN_IP="@ + admin_ip + seq!['\n'];
    let l7 = "HOST=127.0.0.1"@ + seq!['\n'];
    let l8 = "PORT=3000"@ + seq!['\n'];
    let l9 = "SESSION_KEY="@ + session_key + seq!['\n'];
    assert(env_text(login, password, api_id, api_hash, admin_ip, session_key) =~= l1 + l2 + l3 + l4
        + l5 + l6 + l7 + l8 + l9);
    lemma_flat_line(l1, "APP_PASSWORD="@, password);
    lemma_flat_line(l1 + l2 + l3, "TG_API_ID="@, numbers::decimal(api_id));
    lemma_flat_line(l1 + l2 + l3 + l4, "TG_API_HASH="@, api_hash);
    lemma_flat_line(l1 + l2 + l3 + l4 + l5, "ADMIN_IP="@, admin_ip);
    lemma_flat_line(l1 + l2 + l3 + l4 + l5 + l6 + l7 + l8, "SESSION_KEY="@, session_key);
    assert(l1 + l2 + l3 =~= l1 + l2 + "DATABASE_URL=sqlite:data.db"@ + seq!['\n']);
    let upper = l1 + l2 + l3 + l4 + l5 + l6;
    assert(upper + l7 =~= upper + "HOST=127.0.0.1"@ + seq!['\n']);
    assert(upper + l7 + l8 =~= upper + l7 + "PORT=3000"@ + seq!['\n']);
}

proof fn lemma_flat_line(before: Seq<char>, name: Seq<char>, value: Seq<char>)
    ensures
        before + (name + value + seq!['\n']) == before + name + value + seq!['\n'],
{
    assert(before + (name + value + seq!['\n']) =~= before + name + value + seq!['\n']);
}

} // verus!

use textscan::access::{
    admin_check, auth, change_creds, change_creds_reply, check_session, session_expiry, AuthReq,
    ChangeCredsReq, ChangeDecision,
};
use textscan::boot::{
    boot_advance, boot_candidates, boot_start, boot_step, BootAction, BootEvent, BootState,
};
use textscan::login::{
    connect_handler, password_step, password_to_check, status_handler, take_pending,
    verify_2fa_outcome, verify_failed, verify_outcome, verify_step, ConnectReq, PasswordAction,
    PasswordEvent, PendingAuth, SignIn, TgClient, Verify2FaReq, VerifyAction, VerifyEvent,
};
use textscan::numbers::{format_count, format_decimal, parse_i32, parse_u16};
use textscan::search::{
    message_link, plan_search, plan_words, take_event, task_step, Findings, SearchEvent, SearchPlan,
    SearchReq, SearchResult, TaskAction, TaskEvent, TaskState,
};
use textscan::settings::{env_file, settings, Settings, Variables};

fn unset() -> Variables {
    Variables {
        database_url: None,
        app_login: None,
        app_password: None,
        tg_api_id: None,
        tg_api_hash: None,
        admin_ip: None,
        session_key: None,
        host: None,
        port: None,
    }
}

fn desk() -> Settings {
    settings(Variables {
        app_login: Some("root".to_string()),
        app_password: Some("secret".to_string()),
        tg_api_id: Some("17".to_string()),
        tg_api_hash: Some("hash".to_string()),
        admin_ip: Some("10.0.0.1".to_string()),
        session_key: Some("key".to_string()),
        ..unset()
    })
}

fn strings(items: &[&str]) -> Vec<String> {
    items.iter().map(|s| s.to_string()).collect()
}

fn found(id: i32) -> SearchResult {
    SearchResult {
        chat_name: "chat".to_string(),
        message_id: id,
        phrase: "a phrase".to_string(),
        link: "link".to_string(),
    }
}

#[test]
fn default_settings() {
    let s = settings(unset());
    assert_eq!(s.database_url, "sqlite:data.db");
    assert_eq!(s.login, "admin");
    assert_eq!(s.password, "password");
    assert_eq!(s.tg_api_id, 0);
    assert_eq!(s.tg_api_hash, "");
    assert_eq!(s.admin_ip, "");
    assert_eq!(s.session_key, "");
    assert_eq!(s.address(), "127.0.0.1:3000");
    assert!(!s.has_telegram());
    assert!(desk().has_telegram());
}

#[test]
fn settings_read_numbers() {
    let read = |id: &str, port: &str| {
        let s = settings(Variables {
            tg_api_id: Some(id.to_string()),
            port: Some(port.to_string()),
            ..unset()
        });
        (s.tg_api_id, s.port)
    };
    assert_eq!(read("-5", "8080"), (-5, 8080));
    assert_eq!(read("12x", "70000"), (0, 3000));
    assert_eq!(read("", ""), (0, 3000));
    assert_eq!(read("+7", "+80"), (7, 80));
}

#[test]
fn numbers_read_and_write() {
    assert_eq!(parse_i32("-2147483648"), Some(i32::MIN));
    assert_eq!(parse_i32("2147483647"), Some(i32::MAX));
    assert_eq!(parse_i32("2147483648"), None);
    assert_eq!(parse_i32("-2147483649"), None);
    assert_eq!(parse_i32("-"), None);
    assert_eq!(parse_i32(" 1"), None);
    assert_eq!(parse_i32("0000000000000012"), Some(12));
    assert_eq!(parse_u16("65535"), Some(65535));
    assert_eq!(parse_u16("65536"), None);
    assert_eq!(parse_u16("-0"), None);
    for s in ["", "+", "-0", "+0", "007", "1_0", "99999999999999999999", "-17"] {
        assert_eq!(parse_i32(s), s.parse().ok());
        assert_eq!(parse_u16(s), s.parse().ok());
    }
    for n in [0i64, 7, 10, -1, 1234567890, i64::MIN, i64::MAX] {
        assert_eq!(format_decimal(n), n.to_string());
    }
    for n in [0i32, 5, -5, i32::MIN, i32::MAX] {
        assert_eq!(parse_i32(&format_decimal(n as i64)), Some(n));
    }
    assert_eq!(format_count(usize::MAX), usize::MAX.to_string());
}

#[test]
fn settings_file() {
    assert_eq!(
        env_file("l", "p", -3, "h", "ip", "k"),
        "APP_LOGIN=l\nAPP_PASSWORD=p\nDATABASE_URL=sqlite:data.db\nTG_API_ID=-3\nTG_API_HASH=h\nADMIN_IP=ip\nHOST=127.0.0.1\nPORT=3000\nSESSION_KEY=k\n"
    );
}

#[test]
fn new_credentials_change_two_lines() {
    let old = env_file("root", "secret", 17, "hash", "ip", "key");
    let new = env_file("me", "new", 17, "hash", "ip", "key");
    let (old, new): (Vec<&str>, Vec<&str>) = (old.lines().collect(), new.lines().collect());
    assert_eq!(new.len(), 9);
    assert_eq!(new[0], "APP_LOGIN=me");
    assert_eq!(new[1], "APP_PASSWORD=new");
    assert_eq!(new[2..], old[2..]);
}

#[test]
fn signing_in_to_the_desk() {
    let req = |l: &str, p: &str| AuthReq { login: l.to_string(), password: p.to_string() };
    let (reply, granted) = auth(&desk(), &req("root", "secret"));
    assert!(granted && reply.ok);
    assert_eq!((reply.status, reply.message.as_str()), (200, "ok"));
    for (l, p) in [("root", "Secret"), ("Root", "secret"), ("", "")] {
        let (reply, granted) = auth(&desk(), &req(l, p));
        assert!(!granted && !reply.ok);
        assert_eq!((reply.status, reply.message.as_str()), (401, "неверные данные"));
    }
}

#[test]
fn sessions_last_thirty_days() {
    let end = session_expiry(1_000);
    assert_eq!(end, 2_593_000);
    assert!(check_session(Some(end), end - 1).valid);
    assert!(!check_session(Some(end), end).valid);
    assert!(!check_session(None, 0).valid);
}

#[test]
fn administrator() {
    assert!(admin_check(&desk(), &"10.0.0.1".to_string()));
    assert!(!admin_check(&desk(), &"10.0.0.2".to_string()));
    assert!(admin_check(&settings(unset()), &"10.0.0.2".to_string()));
}

#[test]
fn changing_credentials() {
    let req = |old: &str| ChangeCredsReq {
        old_password: old.to_string(),
        new_login: "me".to_string(),
        new_password: "new".to_string(),
    };
    let admin = "10.0.0.1".to_string();
    let other = "10.0.0.2".to_string();
    match change_creds(&desk(), &other, &req("secret")) {
        ChangeDecision::Refuse(r) => {
            assert_eq!((r.status, r.ok, r.message.as_str()), (403, false, "forbidden"))
        }
        ChangeDecision::Write(_) => panic!(),
    }
    match change_creds(&desk(), &admin, &req("wrong")) {
        ChangeDecision::Refuse(r) => {
            assert_eq!((r.status, r.ok, r.message.as_str()), (401, false, "wrong password"))
        }
        ChangeDecision::Write(_) => panic!(),
    }
    match change_creds(&desk(), &admin, &req("secret")) {
        ChangeDecision::Write(file) => {
            assert_eq!(file, env_file("me", "new", 17, "hash", "10.0.0.1", "key"))
        }
        ChangeDecision::Refuse(_) => panic!(),
    }
    let done = change_creds_reply(None);
    assert_eq!((done.status, done.ok, done.message.as_str()), (200, true, "restart required"));
    let failed = change_creds_reply(Some("disk full".to_string()));
    assert_eq!((failed.status, failed.ok, failed.message.as_str()), (500, false, "disk full"));
}

#[test]
fn connecting_keeps_the_keys() {
    let req =
        ConnectReq { phone: "+7999".to_string(), api_id: 5, api_hash: "other".to_string() };
    let (file, resp) = connect_handler(&desk(), &req);
    assert_eq!(file, env_file("root", "secret", 5, "other", "10.0.0.1", "key"));
    assert!(resp.ok && resp.need_code);
    assert_eq!(resp.message, "отправляем код на +7999");
}

#[test]
fn code_accepted() {
    let mut tg: Option<TgClient<u8>> = None;
    let mut pending: Option<PendingAuth<u8, u8>> = None;
    assert!(!status_handler(&tg).connected);
    let resp = verify_outcome(&mut tg, &mut pending, 1, "+7", SignIn::Accepted);
    assert!(resp.ok && !resp.need_2fa && resp.password_hint.is_none());
    assert_eq!(resp.message, "подключено: +7");
    assert!(pending.is_none());
    let status = status_handler(&tg);
    assert!(status.connected);
    assert_eq!(status.phone.as_deref(), Some("+7"));
}

#[test]
fn code_then_password() {
    let mut tg: Option<TgClient<u8>> = None;
    let mut pending: Option<PendingAuth<u8, u8>> = None;
    let asked = SignIn::PasswordRequired { token: 9, hint: Some("pet".to_string()) };
    let resp = verify_outcome(&mut tg, &mut pending, 1, "+7", asked);
    assert!(resp.ok && resp.need_2fa);
    assert_eq!(resp.message, "требуется пароль двухфакторной аутентификации");
    assert_eq!(resp.password_hint.as_deref(), Some("pet"));
    assert!(tg.is_none());
    let p = match take_pending(&mut pending) {
        Ok(p) => p,
        Err(_) => panic!(),
    };
    assert_eq!((p.client, p.password_token), (1, 9));
    assert_eq!(p.password_hint.as_deref(), Some("pet"));
    let resp = verify_2fa_outcome(&mut tg, p.client, p.phone, None);
    assert!(resp.ok);
    assert_eq!(resp.message, "подключено: +7");
    assert_eq!(status_handler(&tg).phone.as_deref(), Some("+7"));
}

#[test]
fn wrong_password_is_final() {
    let mut tg: Option<TgClient<u8>> = None;
    let mut pending: Option<PendingAuth<u8, u8>> = None;
    let asked = SignIn::PasswordRequired { token: 9, hint: None };
    verify_outcome(&mut tg, &mut pending, 1, "+7", asked);
    let p = match take_pending(&mut pending) {
        Ok(p) => p,
        Err(_) => panic!(),
    };
    let resp = verify_2fa_outcome(&mut tg, p.client, p.phone, Some("bad".to_string()));
    assert!(!resp.ok && tg.is_none());
    assert_eq!(resp.message, "неверный пароль 2FA: bad. Начните заново.");
    match take_pending(&mut pending) {
        Ok(_) => panic!(),
        Err(e) => {
            assert!(!e.ok);
            assert_eq!(e.message, "нет ожидающей сессии, сначала введите код");
        }
    }
}

#[test]
fn code_refused() {
    let mut tg = Some(TgClient { client: 3u8, phone: "+1".to_string() });
    let mut pending: Option<PendingAuth<u8, u8>> = None;
    let resp =
        verify_outcome(&mut tg, &mut pending, 1, "+7", SignIn::Failed("expired".to_string()));
    assert!(!resp.ok && !resp.need_2fa);
    assert_eq!(resp.message, "неверный код: expired");
    assert!(matches!(tg, Some(t) if t.client == 3));
    assert!(pending.is_none());
    let resp = verify_failed("no route".to_string());
    assert!(!resp.ok && !resp.need_2fa && resp.password_hint.is_none());
    assert_eq!(resp.message, "no route");
}

#[test]
fn verifying_a_code_step_by_step() {
    assert!(matches!(verify_step(VerifyEvent::<u8>::Connected), VerifyAction::RequestCode));
    assert!(matches!(verify_step(VerifyEvent::<u8>::CodeRequested), VerifyAction::SignIn));
    for event in [
        VerifyEvent::<u8>::ConnectFailed("no route".to_string()),
        VerifyEvent::RequestFailed("no route".to_string()),
    ] {
        match verify_step(event) {
            VerifyAction::Answer(r) => assert!(!r.ok && !r.need_2fa && r.message == "no route"),
            _ => panic!(),
        }
    }
    let accepted = VerifyEvent::SignedIn(SignIn::<u8>::Accepted);
    assert!(matches!(verify_step(accepted), VerifyAction::Store));
    assert!(matches!(
        verify_step(VerifyEvent::<u8>::Stored),
        VerifyAction::Settle(SignIn::Accepted)
    ));
    let asked = VerifyEvent::SignedIn(SignIn::PasswordRequired { token: 9u8, hint: None });
    assert!(matches!(
        verify_step(asked),
        VerifyAction::Settle(SignIn::PasswordRequired { token: 9, hint: None })
    ));
    let refused = VerifyEvent::SignedIn(SignIn::<u8>::Failed("bad".to_string()));
    assert!(matches!(
        verify_step(refused),
        VerifyAction::Settle(SignIn::Failed(e)) if e == "bad"
    ));
}

#[test]
fn verifying_a_password_step_by_step() {
    assert!(matches!(password_step(PasswordEvent::Checked(None)), PasswordAction::Store));
    assert!(matches!(password_step(PasswordEvent::Stored), PasswordAction::Settle(None)));
    let wrong = PasswordEvent::Checked(Some("bad".to_string()));
    assert!(matches!(password_step(wrong), PasswordAction::Settle(Some(e)) if e == "bad"));
}

#[test]
fn passwords_are_trimmed() {
    let req = Verify2FaReq { password: "  pass word\n".to_string() };
    assert_eq!(password_to_check(&req), "pass word");
}

#[test]
fn searching_needs_a_connection_and_three_words() {
    let plan = |connected: bool, text: &str| {
        match plan_search(connected, &SearchReq { text: text.to_string() }) {
            SearchPlan::Answer(r) => {
                assert!(!r.ok && r.results.is_empty());
                Err(r.message)
            }
            SearchPlan::Search(phrases) => Ok(phrases),
        }
    };
    assert_eq!(plan(false, "one two three"), Err("не подключено".to_string()));
    assert_eq!(plan(true, "one two"), Err("нужно 3+ слов".to_string()));
    assert_eq!(plan(true, " one  two\nthree "), Ok(strings(&["one two three"])));
}

#[test]
fn passages_of_a_text() {
    let words = strings(&["1", "2", "3", "4", "5", "6", "7", "8", "9", "10"]);
    match plan_words(true, &words) {
        SearchPlan::Search(phrases) => assert_eq!(
            phrases,
            strings(&[
                "1 2 3 4 5 6 7 8 9",
                "2 3 4 5 6 7 8 9 10",
                "1 2 3 4 5 6 7",
                "2 3 4 5 6 7 8",
                "4 5 6 7 8 9 10",
                "1 2 3 4 5",
            ])
        ),
        SearchPlan::Answer(_) => panic!(),
    }
    match plan_words(true, &strings(&["a", "a", "a", "a", "a"])) {
        SearchPlan::Search(phrases) => assert_eq!(phrases, strings(&["a a a a a", "a a a"])),
        SearchPlan::Answer(_) => panic!(),
    }
}

#[test]
fn five_messages_for_a_phrase() {
    let mut out: Vec<SearchResult> = Vec::new();
    for id in 1..=5 {
        let more = take_event(
            &mut out,
            "a phrase",
            SearchEvent::Message { chat_id: -100, chat_name: "chat".to_string(), message_id: id },
        );
        assert_eq!(more, id < 5);
    }
    assert_eq!(out.len(), 5);
    assert_eq!(out[4].link, "https://t.me/c/-100/5");
    assert_eq!((out[4].chat_name.as_str(), out[4].phrase.as_str()), ("chat", "a phrase"));
    for event in [SearchEvent::End, SearchEvent::Failed, SearchEvent::TimedOut] {
        assert!(!take_event(&mut out, "a phrase", event));
        assert_eq!(out.len(), 5);
    }
    assert_eq!(message_link(1, -2), "https://t.me/c/1/-2");
}

#[test]
fn findings_list_each_message_once() {
    let mut f = Findings::new();
    assert!(f.absorb(Some(vec![found(1), found(2), found(1)])));
    assert!(f.absorb(None));
    assert!(f.absorb(Some(vec![found(2), found(3)])));
    let resp = f.finish();
    assert!(resp.ok);
    assert_eq!(resp.results.iter().map(|r| r.message_id).collect::<Vec<i32>>(), vec![1, 2, 3]);
    assert_eq!(resp.message, "3 результатов");
    assert_eq!(Findings::new().finish().message, "не найдено");
}

#[test]
fn ten_findings_are_enough() {
    let mut f = Findings::new();
    assert!(f.absorb(Some((0..9).map(found).collect())));
    assert!(!f.absorb(Some((5..14).map(found).collect())));
    assert_eq!(f.finish().results.len(), 14);
}

#[test]
fn search_for_one_phrase() {
    let (state, action) = task_step(TaskState::Searching, TaskEvent::Found(vec![found(1)]));
    assert!(matches!(state, TaskState::Finished));
    assert!(matches!(action, TaskAction::Finish(r) if r.len() == 1));

    let (state, action) = task_step(TaskState::Searching, TaskEvent::Found(vec![]));
    assert!(matches!(action, TaskAction::ReadSession));
    let (state, action) = task_step(state, TaskEvent::Session(Some("stored".to_string())));
    assert!(matches!(action, TaskAction::Reconnect(s) if s == "stored"));
    let (state, action) = task_step(state, TaskEvent::Reconnected(true));
    assert!(matches!(action, TaskAction::SearchAgain));
    let (state, action) = task_step(state, TaskEvent::Found(vec![found(2), found(3)]));
    assert!(matches!(state, TaskState::Finished));
    assert!(matches!(action, TaskAction::Finish(r) if r.len() == 2));
}

#[test]
fn search_without_a_second_connection() {
    let (state, action) = task_step(TaskState::Searching, TaskEvent::Failed);
    assert!(matches!(action, TaskAction::ReadSession));
    let (_, action) = task_step(state, TaskEvent::Session(None));
    assert!(matches!(action, TaskAction::Finish(r) if r.is_empty()));
    let (_, action) = task_step(TaskState::Reconnecting, TaskEvent::Reconnected(false));
    assert!(matches!(action, TaskAction::Finish(r) if r.is_empty()));
    let (_, action) = task_step(TaskState::SearchingAgain, TaskEvent::Failed);
    assert!(matches!(action, TaskAction::Finish(r) if r.is_empty()));
}

#[test]
fn boot_from_stored_sessions() {
    let cands = boot_candidates(
        Some("env".to_string()),
        Some(("row".to_string(), "+7".to_string())),
    );
    let (state, action) = boot_start(&cands);
    assert!(matches!(action, BootAction::Reconnect { stored } if stored == "env"));
    let (state, action) = boot_step(&cands, state, BootEvent::Reconnected(false));
    assert!(matches!(action, BootAction::Reconnect { stored } if stored == "row"));
    let (state, action) = boot_step(&cands, state, BootEvent::Reconnected(true));
    assert!(matches!(action, BootAction::Resume { phone } if phone == "+7"));
    assert!(matches!(state, BootState::Done));
    let (state, _) = boot_start(&cands);
    let (_, action) = boot_step(&cands, state, BootEvent::Reconnected(true));
    assert!(matches!(action, BootAction::Resume { phone } if phone.is_empty()));
}

#[test]
fn boot_at_the_terminal() {
    let cands = boot_candidates(None, None);
    let line = |s: &str| BootEvent::Line(Some(s.to_string()));
    let (state, action) = boot_start(&cands);
    assert!(matches!(action, BootAction::AskPhone));
    let (state, action) = boot_step(&cands, state, line(" +7999 \n"));
    assert!(matches!(action, BootAction::Connect));
    let (state, action) = boot_step(&cands, state, BootEvent::Connected(true));
    assert!(matches!(action, BootAction::RequestCode { phone } if phone == "+7999"));
    let (state, action) = boot_step(&cands, state, BootEvent::CodeRequested(true));
    assert!(matches!(action, BootAction::AskCode));
    let (state, action) = boot_step(&cands, state, line("12345\t"));
    assert!(matches!(action, BootAction::SignIn { code } if code == "12345"));
    let (state, action) = boot_step(&cands, state, BootEvent::PasswordRequired);
    assert!(matches!(action, BootAction::AskPassword));
    let (state, action) = boot_step(&cands, state, line(" pw "));
    assert!(matches!(action, BootAction::CheckPassword { password } if password == "pw"));
    let (state, action) = boot_step(&cands, state, BootEvent::PasswordChecked(true));
    assert!(matches!(action, BootAction::Complete { phone } if phone == "+7999"));
    assert!(matches!(state, BootState::Done));
}

#[test]
fn boot_gives_up() {
    let cands = boot_candidates(None, None);
    let gives_up = |state: BootState<String>, event: BootEvent<String>| {
        let (state, action) = boot_step(&cands, state, event);
        matches!(state, BootState::Done) && matches!(action, BootAction::GiveUp)
    };
    let phone = || "+7".to_string();
    assert!(gives_up(BootState::AskingPhone, BootEvent::Line(Some("  ".to_string()))));
    assert!(gives_up(BootState::AskingPhone, BootEvent::Line(None)));
    assert!(gives_up(BootState::Connecting { phone: phone() }, BootEvent::Connected(false)));
    assert!(gives_up(
        BootState::RequestingCode { phone: phone() },
        BootEvent::CodeRequested(false)
    ));
    assert!(gives_up(BootState::SigningIn { phone: phone() }, BootEvent::SignInFailed));
    assert!(gives_up(
        BootState::CheckingPassword { phone: phone() },
        BootEvent::PasswordChecked(false)
    ));
    let (_, action) =
        boot_advance(&cands, BootState::SigningIn { phone: phone() }, BootEvent::SignedIn);
    assert!(matches!(action, BootAction::Complete { phone } if phone == "+7"));
    let (_, action) =
        boot_advance(&cands, BootState::AskingPhone, BootEvent::Line(Some(" ".to_string())));
    assert!(matches!(action, BootAction::Connect));
}

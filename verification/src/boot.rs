//! Getting a Telegram connection when the desk starts: from a stored session where one still
//! works, else by signing in at the terminal.
use crate::text;
use vstd::prelude::*;

verus! {

/// A stored session, and the phone number that it belongs to, empty where that is not known.
pub struct Candidate {
    pub stored: String,
    pub phone: String,
}

/// Where starting stands. `S` is the kind of text: strings, or their characters.
pub enum BootState<S> {
    Reconnecting(usize),
    AskingPhone,
    Connecting { phone: S },
    RequestingCode { phone: S },
    AskingCode { phone: S },
    SigningIn { phone: S },
    AskingPassword { phone: S },
    CheckingPassword { phone: S },
    Done,
}

/// What happened last. A line is what was read from the terminal, if anything.
pub enum BootEvent<S> {
    Reconnected(bool),
    Line(Option<S>),
    Connected(bool),
    CodeRequested(bool),
    SignedIn,
    PasswordRequired,
    SignInFailed,
    PasswordChecked(bool),
}

/// What is to be done next. `Resume` and `Complete` take the connection into use and store its
/// session under the phone number.
pub enum BootAction<S> {
    Reconnect { stored: S },
    AskPhone,
    Connect,
    RequestCode { phone: S },
    AskCode,
    SignIn { code: S },
    AskPassword,
    CheckPassword { password: S },
    Resume { phone: S },
    Complete { phone: S },
    GiveUp,
}

impl BootState<String> {
    /// The state with the characters of its texts.
    pub open spec fn view(&self) -> BootState<Seq<char>> {
        match *self {
            BootState::Reconnecting(i) => BootState::Reconnecting(i),
            BootState::AskingPhone => BootState::AskingPhone,
            BootState::Connecting { phone } => BootState::Connecting { phone: phone@ },
            BootState::RequestingCode { phone } => BootState::RequestingCode { phone: phone@ },
            BootState::AskingCode { phone } => BootState::AskingCode { phone: phone@ },
            BootState::SigningIn { phone } => BootState::SigningIn { phone: phone@ },
            BootState::AskingPassword { phone } => BootState::AskingPassword { phone: phone@ },
            BootState::CheckingPassword { phone } => BootState::CheckingPassword { phone: phone@ },
            BootState::Done => BootState::Done,
        }
    }
}

impl BootEvent<String> {
    /// The event with the characters of its texts.
    pub open spec fn view(&self) -> BootEvent<Seq<char>> {
        match *self {
            BootEvent::Reconnected(b) => BootEvent::Reconnected(b),
            BootEvent::Line(Some(s)) => BootEvent::Line(Some(s@)),
            BootEvent::Line(None) => BootEvent::Line(None),
            BootEvent::Connected(b) => BootEvent::Connected(b),
            BootEvent::CodeRequested(b) => BootEvent::CodeRequested(b),
            BootEvent::SignedIn => BootEvent::SignedIn,
            BootEvent::PasswordRequired => BootEvent::PasswordRequired,
            BootEvent::SignInFailed => BootEvent::SignInFailed,
            BootEvent::PasswordChecked(b) => BootEvent::PasswordChecked(b),
        }
    }
}

impl BootAction<String> {
    /// The action with the characters of its texts.
    pub open spec fn view(&self) -> BootAction<Seq<char>> {
        match *self {
            BootAction::Reconnect { stored } => BootAction::Reconnect { stored: stored@ },
            BootAction::AskPhone => BootAction::AskPhone,
            BootAction::Connect => BootAction::Connect,
            BootAction::RequestCode { phone } => BootAction::RequestCode { phone: phone@ },
            BootAction::AskCode => BootAction::AskCode,
            BootAction::SignIn { code } => BootAction::SignIn { code: code@ },
            BootAction::AskPassword => BootAction::AskPassword,
            BootAction::CheckPassword { password } => BootAction::CheckPassword {
                password: password@,
            },
            BootAction::Resume { phone } => BootAction::Resume { phone: phone@ },
            BootAction::Complete { phone } => BootAction::Complete { phone: phone@ },
            BootAction::GiveUp => BootAction::GiveUp,
        }
    }
}

/// The texts of the candidates: what is stored, and the phone number.
pub open spec fn candidate_texts(candidates: Seq<Candidate>) -> Seq<(Seq<char>, Seq<char>)> {
    Seq::new(candidates.len(), |i: int| (candidates[i].stored@, candidates[i].phone@))
}

/// Lists the stored sessions: that of the environment first, then the recorded one.
pub fn boot_candidates(env: Option<String>, row: Option<(String, String)>) -> (r: Vec<Candidate>)
    ensures
        candidate_texts(r@) == (match env {
            Some(s) => seq![(s@, Seq::<char>::empty())],
            None => seq![],
        }) + (match row {
            Some((stored, phone)) => seq![(stored@, phone@)],
            None => seq![],
        }),
{
    let mut r: Vec<Candidate> = Vec::new();
    match env {
        Some(stored) => {
            r.push(Candidate { stored, phone: String::new() });
        },
        None => {},
    }
    match row {
        Some((stored, phone)) => {
            r.push(Candidate { stored, phone });
        },
        None => {},
    }
    assert(candidate_texts(r@) =~= (match env {
        Some(s) => seq![(s@, Seq::<char>::empty())],
        None => seq![],
    }) + (match row {
        Some((stored, phone)) => seq![(stored@, phone@)],
        None => seq![],
    }));
    r
}

/// How starting goes on with candidate `i`: it is tried, or, after the last, the phone number is
/// asked for.
pub open spec fn boot_from(candidates: Seq<(Seq<char>, Seq<char>)>, i: int) -> (
    BootState<Seq<char>>,
    BootAction<Seq<char>>,
) {
    if i < candidates.len() {
        (BootState::Reconnecting(i as usize), BootAction::Reconnect { stored: candidates[i].0 })
    } else {
        (BootState::AskingPhone, BootAction::AskPhone)
    }
}

/// How starting goes on after an event.
pub open spec fn boot_next(
    candidates: Seq<(Seq<char>, Seq<char>)>,
    state: BootState<Seq<char>>,
    event: BootEvent<Seq<char>>,
) -> (BootState<Seq<char>>, BootAction<Seq<char>>) {
    match (state, event) {
        (BootState::Reconnecting(i), BootEvent::Reconnected(works)) if i < candidates.len() => {
            if works {
                (BootState::Done, BootAction::Resume { phone: candidates[i as int].1 })
            } else {
                boot_from(candidates, i + 1)
            }
        },
        (BootState::AskingPhone, BootEvent::Line(Some(phone))) if phone.len() > 0 => (
            BootState::Connecting { phone },
            BootAction::Connect,
        ),
        (BootState::Connecting { phone }, BootEvent::Connected(true)) => (
            BootState::RequestingCode { phone },
            BootAction::RequestCode { phone },
        ),
        (BootState::RequestingCode { phone }, BootEvent::CodeRequested(true)) => (
            BootState::AskingCode { phone },
            BootAction::AskCode,
        ),
        (BootState::AskingCode { phone }, BootEvent::Line(Some(code))) => (
            BootState::SigningIn { phone },
            BootAction::SignIn { code },
        ),
        (BootState::SigningIn { phone }, BootEvent::SignedIn) => (
            BootState::Done,
            BootAction::Complete { phone },
        ),
        (BootState::SigningIn { phone }, BootEvent::PasswordRequired) => (
            BootState::AskingPassword { phone },
            BootAction::AskPassword,
        ),
        (BootState::AskingPassword { phone }, BootEvent::Line(Some(password))) => (
            BootState::CheckingPassword { phone },
            BootAction::CheckPassword { password },
        ),
        (BootState::CheckingPassword { phone }, BootEvent::PasswordChecked(true)) => (
            BootState::Done,
            BootAction::Complete { phone },
        ),
        _ => (BootState::Done, BootAction::GiveUp),
    }
}

/// Goes on with candidate `i`.
fn try_candidate(candidates: &Vec<Candidate>, i: usize) -> (r: (
    BootState<String>,
    BootAction<String>,
))
    ensures
        (r.0.view(), r.1.view()) == boot_from(candidate_texts(candidates@), i as int),
{
    if i < candidates.len() {
        (
            BootState::Reconnecting(i),
            BootAction::Reconnect { stored: candidates[i].stored.clone() },
        )
    } else {
        (BootState::AskingPhone, BootAction::AskPhone)
    }
}

/// Decides what starting begins with.
pub fn boot_start(candidates: &Vec<Candidate>) -> (r: (BootState<String>, BootAction<String>))
    ensures
        (r.0.view(), r.1.view()) == boot_from(candidate_texts(candidates@), 0),
{
    try_candidate(candidates, 0)
}

/// Decides how starting goes on after an event, whose line is taken as it is.
pub fn boot_advance(
    candidates: &Vec<Candidate>,
    state: BootState<String>,
    event: BootEvent<String>,
) -> (r: (BootState<String>, BootAction<String>))
    ensures
        (r.0.view(), r.1.view()) == boot_next(
            candidate_texts(candidates@),
            state.view(),
            event.view(),
        ),
{
    match (state, event) {
        (BootState::Reconnecting(i), BootEvent::Reconnected(works)) => {
            if i >= candidates.len() {
                (BootState::Done, BootAction::GiveUp)
            } else if works {
                (BootState::Done, BootAction::Resume { phone: candidates[i].phone.clone() })
            } else {
                try_candidate(candidates, i + 1)
            }
        },
        (BootState::AskingPhone, BootEvent::Line(Some(phone))) => {
            if phone.as_str().is_empty() {
                (BootState::Done, BootAction::GiveUp)
            } else {
                (BootState::Connecting { phone }, BootAction::Connect)
            }
        },
        (BootState::Connecting { phone }, BootEvent::Connected(true)) => {
            let to = phone.clone();
            (BootState::RequestingCode { phone }, BootAction::RequestCode { phone: to })
        },
        (BootState::RequestingCode { phone }, BootEvent::CodeRequested(true)) => (
            BootState::AskingCode { phone },
            BootAction::AskCode,
        ),
        (BootState::AskingCode { phone }, BootEvent::Line(Some(code))) => (
            BootState::SigningIn { phone },
            BootAction::SignIn { code },
        ),
        (BootState::SigningIn { phone }, BootEvent::SignedIn) => (
            BootState::Done,
            BootAction::Complete { phone },
        ),
        (BootState::SigningIn { phone }, BootEvent::PasswordRequired) => (
            BootState::AskingPassword { phone },
            BootAction::AskPassword,
        ),
        (BootState::AskingPassword { phone }, BootEvent::Line(Some(password))) => (
            BootState::CheckingPassword { phone },
            BootAction::CheckPassword { password },
        ),
        (BootState::CheckingPassword { phone }, BootEvent::PasswordChecked(true)) => (
            BootState::Done,
            BootAction::Complete { phone },
        ),
        _ => (BootState::Done, BootAction::GiveUp),
    }
}

/// The event with the white space at either end of its line removed.
pub open spec fn trimmed_event(event: BootEvent<Seq<char>>) -> BootEvent<Seq<char>> {
    match event {
        BootEvent::Line(Some(line)) => BootEvent::Line(Some(text::trimmed_text(line))),
        e => e,
    }
}

/// Decides how starting goes on after an event, whose line is as it was typed.
pub fn boot_step(
    candidates: &Vec<Candidate>,
    state: BootState<String>,
    event: BootEvent<String>,
) -> (r: (BootState<String>, BootAction<String>))
    ensures
        (r.0.view(), r.1.view()) == boot_next(
            candidate_texts(candidates@),
            state.view(),
            trimmed_event(event.view()),
        ),
{
    let event = match event {
        BootEvent::Line(Some(line)) => BootEvent::Line(Some(text::trim(line.as_str()))),
        e => e,
    };
    boot_advance(candidates, state, event)
}

/// How starting stands after the first `k` candidates failed.
pub open spec fn after_failures(candidates: Seq<(Seq<char>, Seq<char>)>, k: int) -> (
    BootState<Seq<char>>,
    BootAction<Seq<char>>,
)
    decreases k,
{
    if k <= 0 {
        boot_from(candidates, 0)
    } else {
        boot_next(
            candidates,
            after_failures(candidates, k - 1).0,
            BootEvent::Reconnected(false),
        )
    }
}

/// The stored sessions are tried in order, and the first that works is resumed under its phone
/// number. Only where none works is the phone number asked for.
pub proof fn law_first_working_candidate(candidates: Seq<(Seq<char>, Seq<char>)>, k: int)
    requires
        0 <= k <= candidates.len() <= usize::MAX,
    ensures
        after_failures(candidates, k) == boot_from(candidates, k),
        k < candidates.len() ==> boot_next(
            candidates,
            after_failures(candidates, k).0,
            BootEvent::Reconnected(true),
        ) == (
            BootState::<Seq<char>>::Done,
            BootAction::Resume { phone: candidates[k].1 },
        ),
    decreases k,
{
    if k > 0 {
        law_first_working_candidate(candidates, k - 1);
    }
}

/// How many steps are left at most.
pub open spec fn boot_steps_left(
    candidates: Seq<(Seq<char>, Seq<char>)>,
    state: BootState<Seq<char>>,
) -> int {
    match state {
        BootState::Reconnecting(i) => 8 + candidates.len() - i,
        BootState::AskingPhone => 7,
        BootState::Connecting { .. } => 6,
        BootState::RequestingCode { .. } => 5,
        BootState::AskingCode { .. } => 4,
        BootState::SigningIn { .. } => 3,
        BootState::AskingPassword { .. } => 2,
        BootState::CheckingPassword { .. } => 1,
        BootState::Done => 0,
    }
}

/// Starting comes to an end: each event brings it closer, and it is done exactly when a connection
/// is taken into use or it gives up.
pub proof fn law_boot_ends(
    candidates: Seq<(Seq<char>, Seq<char>)>,
    state: BootState<Seq<char>>,
    event: BootEvent<Seq<char>>,
)
    requires
        candidates.len() <= usize::MAX,
        state !is Done,
        state matches BootState::Reconnecting(i) ==> i < candidates.len(),
    ensures
        ({
            let (next, action) = boot_next(candidates, state, event);
            &&& 0 <= boot_steps_left(candidates, next) < boot_steps_left(candidates, state)
            &&& next is Done <==> (action is Resume || action is Complete || action is GiveUp)
            &&& next matches BootState::Reconnecting(i) ==> i < candidates.len()
        }),
{
}

/// Reading the candidates keeps their number, their order and each text.
pub proof fn law_candidate_texts(candidates: Seq<Candidate>)
    ensures
        candidate_texts(candidates).len() == candidates.len(),
        forall|i: int|
            0 <= i < candidates.len() ==> #[trigger] candidate_texts(candidates)[i] == (
                candidates[i].stored@,
                candidates[i].phone@,
            ),
{
}

/// Every state, event and action keeps its text, in full.
pub proof fn law_boot_texts(s: String)
    ensures
        (BootState::Connecting { phone: s }).view() == (BootState::Connecting { phone: s@ }),
        (BootState::RequestingCode { phone: s }).view() == (BootState::RequestingCode { phone: s@ }),
        (BootState::AskingCode { phone: s }).view() == (BootState::AskingCode { phone: s@ }),
        (BootState::SigningIn { phone: s }).view() == (BootState::SigningIn { phone: s@ }),
        (BootState::AskingPassword { phone: s }).view() == (BootState::AskingPassword { phone: s@ }),
        (BootState::CheckingPassword { phone: s }).view() == (BootState::CheckingPassword {
            phone: s@,
        }),
        BootEvent::Line(Some(s)).view() == BootEvent::Line(Some(s@)),
        (BootAction::Reconnect { stored: s }).view() == (BootAction::Reconnect { stored: s@ }),
        (BootAction::RequestCode { phone: s }).view() == (BootAction::RequestCode { phone: s@ }),
        (BootAction::SignIn { code: s }).view() == (BootAction::SignIn { code: s@ }),
        (BootAction::CheckPassword { password: s }).view() == (BootAction::CheckPassword {
            password: s@,
        }),
        (BootAction::Resume { phone: s }).view() == (BootAction::Resume { phone: s@ }),
        (BootAction::Complete { phone: s }).view() == (BootAction::Complete { phone: s@ }),
{
}

/// States, events and actions without a text stand for themselves.
pub proof fn law_boot_views(i: usize, b: bool)
    ensures
        BootState::<String>::Reconnecting(i).view() == BootState::<Seq<char>>::Reconnecting(i),
        BootState::<String>::AskingPhone.view() == BootState::<Seq<char>>::AskingPhone,
        BootState::<String>::Done.view() == BootState::<Seq<char>>::Done,
        BootEvent::<String>::Reconnected(b).view() == BootEvent::<Seq<char>>::Reconnected(b),
        BootEvent::<String>::Line(None).view() == BootEvent::<Seq<char>>::Line(None),
        BootEvent::<String>::Connected(b).view() == BootEvent::<Seq<char>>::Connected(b),
        BootEvent::<String>::CodeRequested(b).view() == BootEvent::<Seq<char>>::CodeRequested(b),
        BootEvent::<String>::SignedIn.view() == BootEvent::<Seq<char>>::SignedIn,
        BootEvent::<String>::PasswordRequired.view() == BootEvent::<Seq<char>>::PasswordRequired,
        BootEvent::<String>::SignInFailed.view() == BootEvent::<Seq<char>>::SignInFailed,
        BootEvent::<String>::PasswordChecked(b).view() == BootEvent::<Seq<char>>::PasswordChecked(b),
        BootAction::<String>::AskPhone.view() == BootAction::<Seq<char>>::AskPhone,
        BootAction::<String>::Connect.view() == BootAction::<Seq<char>>::Connect,
        BootAction::<String>::AskCode.view() == BootAction::<Seq<char>>::AskCode,
        BootAction::<String>::AskPassword.view() == BootAction::<Seq<char>>::AskPassword,
        BootAction::<String>::GiveUp.view() == BootAction::<Seq<char>>::GiveUp,
{
}

/// A typed line counts without the white space at either end; every other event counts as it is.
pub proof fn law_trimmed_event(event: BootEvent<Seq<char>>)
    ensures
        match event {
            BootEvent::Line(Some(line)) => trimmed_event(event) == BootEvent::Line(
                Some(text::trimmed_text(line)),
            ),
            _ => trimmed_event(event) == event,
        },
{
}

/// Every stored session is tried, each with its own text, and the phone number is asked for after
/// the last.
pub proof fn law_boot_from(candidates: Seq<(Seq<char>, Seq<char>)>, i: int)
    requires
        0 <= i,
        candidates.len() <= usize::MAX,
    ensures
        i < candidates.len() ==> boot_from(candidates, i) == (
            BootState::<Seq<char>>::Reconnecting(i as usize),
            (BootAction::Reconnect { stored: candidates[i].0 }),
        ),
        i >= candidates.len() ==> boot_from(candidates, i) == (
            BootState::<Seq<char>>::AskingPhone,
            BootAction::<Seq<char>>::AskPhone,
        ),
{
}

/// Signing in at the terminal, where all goes well: whatever phone number, code and password are
/// typed, each is handed on as it is, and the connection is completed under that phone number.
pub proof fn law_terminal_dialogue(
    candidates: Seq<(Seq<char>, Seq<char>)>,
    phone: Seq<char>,
    code: Seq<char>,
    password: Seq<char>,
)
    requires
        phone.len() > 0,
    ensures
        ({
            let s1 = boot_next(candidates, BootState::AskingPhone, BootEvent::Line(Some(phone)));
            let s2 = boot_next(candidates, s1.0, BootEvent::Connected(true));
            let s3 = boot_next(candidates, s2.0, BootEvent::CodeRequested(true));
            let s4 = boot_next(candidates, s3.0, BootEvent::Line(Some(code)));
            let s5 = boot_next(candidates, s4.0, BootEvent::PasswordRequired);
            let s6 = boot_next(candidates, s5.0, BootEvent::Line(Some(password)));
            let s7 = boot_next(candidates, s6.0, BootEvent::PasswordChecked(true));
            let done = (BootState::<Seq<char>>::Done, (BootAction::Complete { phone }));
            &&& s1.1 == BootAction::<Seq<char>>::Connect
            &&& s2.1 == (BootAction::RequestCode { phone })
            &&& s3.1 == BootAction::<Seq<char>>::AskCode
            &&& s4.1 == (BootAction::SignIn { code })
            &&& s5.1 == BootAction::<Seq<char>>::AskPassword
            &&& s6.1 == (BootAction::CheckPassword { password })
            &&& s7 == done
            &&& boot_next(candidates, s4.0, BootEvent::SignedIn) == done
        }),
{
}

/// Starting goes on from a state only over the event that the state waits for and that went well.
/// At any other event it gives up: at an empty phone number, at the end of the input, at a failure.
pub proof fn law_boot_gives_up(
    candidates: Seq<(Seq<char>, Seq<char>)>,
    state: BootState<Seq<char>>,
    event: BootEvent<Seq<char>>,
)
    requires
        !(state is Reconnecting && event is Reconnected),
        !(state is AskingPhone && (event matches BootEvent::Line(Some(phone)) && phone.len() > 0)),
        !(state is Connecting && event == BootEvent::<Seq<char>>::Connected(true)),
        !(state is RequestingCode && event == BootEvent::<Seq<char>>::CodeRequested(true)),
        !(state is AskingCode && (event matches BootEvent::Line(Some(_)))),
        !(state is SigningIn && (event is SignedIn || event is PasswordRequired)),
        !(state is AskingPassword && (event matches BootEvent::Line(Some(_)))),
        !(state is CheckingPassword && event == BootEvent::<Seq<char>>::PasswordChecked(true)),
    ensures
        boot_next(candidates, state, event) == (
            BootState::<Seq<char>>::Done,
            BootAction::<Seq<char>>::GiveUp,
        ),
{
}

} // verus!

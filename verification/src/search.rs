//! Searching Telegram for passages of a text.
use crate::numbers;
use crate::text;
use std::collections::HashSet;
use vstd::prelude::*;
use vstd::std_specs::hash::*;

verus! {

broadcast use group_hash_axioms;

/// A text to search for.
pub struct SearchReq {
    pub text: String,
}

/// A message that was found, and the phrase that it was found by.
#[derive(Clone)]
pub struct SearchResult {
    pub chat_name: String,
    pub message_id: i32,
    pub phrase: String,
    pub link: String,
}

/// What a search came to.
pub struct SearchResp {
    pub ok: bool,
    pub results: Vec<SearchResult>,
    pub message: String,
}

/// The fewest words that a text to search for has.
pub const FEWEST_WORDS: usize = 3;

/// The most phrases that are searched for.
pub const MOST_PHRASES: usize = 6;

/// The most messages that one phrase brings.
pub const MOST_HITS: usize = 5;

/// How many results are enough.
pub const ENOUGH_RESULTS: usize = 10;

/// `acc` with `p` at its end, unless it is there already.
pub open spec fn with_phrase(acc: Seq<Seq<char>>, p: Seq<char>) -> Seq<Seq<char>> {
    if acc.contains(p) {
        acc
    } else {
        acc.push(p)
    }
}

/// `acc` with the phrases of `len` words from the start, the middle and the end of the text, as
/// far as they are new.
pub open spec fn with_passages(acc: Seq<Seq<char>>, ws: Seq<Seq<char>>, len: int) -> Seq<
    Seq<char>,
> {
    let spare = ws.len() - len;
    if spare < 0 {
        acc
    } else {
        with_phrase(
            with_phrase(
                with_phrase(acc, text::phrase_at(ws, 0, len)),
                text::phrase_at(ws, spare / 2, len),
            ),
            text::phrase_at(ws, spare, len),
        )
    }
}

/// Goes on from the phrases of the lengths before `len`, in steps of two down to three words, until
/// there are enough.
pub open spec fn passages_from(acc: Seq<Seq<char>>, ws: Seq<Seq<char>>, len: int) -> Seq<Seq<char>>
    decreases len,
{
    if len < FEWEST_WORDS || acc.len() >= MOST_PHRASES {
        acc
    } else {
        passages_from(with_passages(acc, ws, len), ws, len - 2)
    }
}

/// The phrases to search for: of nine, seven, five and three words, from the start, the middle and
/// the end of the text, each once, the first six.
pub open spec fn search_phrases(ws: Seq<Seq<char>>) -> Seq<Seq<char>> {
    let all = passages_from(seq![], ws, 9);
    if all.len() > MOST_PHRASES {
        all.take(MOST_PHRASES as int)
    } else {
        all
    }
}

/// What is to be done about a request: answer it at once, or search for these phrases.
pub enum SearchPlan {
    Answer(SearchResp),
    Search(Vec<String>),
}

/// Whether the answer is a refusal with this message.
pub open spec fn is_refusal(r: SearchResp, message: Seq<char>) -> bool {
    !r.ok && r.results@.len() == 0 && r.message@ == message
}

/// Whether the plan is right for the words `ws`: without a connection, or with too few words, a
/// refusal; else the phrases to search for.
pub open spec fn is_plan(connected: bool, ws: Seq<Seq<char>>, plan: SearchPlan) -> bool {
    match plan {
        SearchPlan::Answer(r) => if !connected {
            is_refusal(r, "не подключено"@)
        } else {
            ws.len() < FEWEST_WORDS && is_refusal(r, "нужно 3+ слов"@)
        },
        SearchPlan::Search(phrases) => connected && ws.len() >= FEWEST_WORDS && text::texts(
            phrases@,
        ) == search_phrases(ws),
    }
}

fn refusal(message: &str) -> (r: SearchResp)
    ensures
        is_refusal(r, message@),
{
    SearchResp { ok: false, results: Vec::new(), message: message.to_owned() }
}

/// Appends the phrase unless it is there already.
fn add_phrase(acc: &mut Vec<String>, p: String)
    ensures
        text::texts(final(acc)@) == with_phrase(text::texts(old(acc)@), p@),
{
    let ghost before = text::texts(acc@);
    let mut i: usize = 0;
    while i < acc.len()
        invariant
            i <= acc@.len(),
            acc@ == old(acc)@,
            before == text::texts(acc@),
            forall|k: int| 0 <= k < i ==> before[k] != p@,
        decreases acc@.len() - i,
    {
        if acc[i] == p {
            assert(before[i as int] == p@);
            return;
        }
        i = i + 1;
    }
    acc.push(p);
    assert(text::texts(acc@) =~= before.push(p@));
}

/// Finds the phrases to search for.
fn choose_phrases(words: &Vec<String>) -> (phrases: Vec<String>)
    ensures
        text::texts(phrases@) == search_phrases(text::texts(words@)),
{
    let ghost ws = text::texts(words@);
    let mut phrases: Vec<String> = Vec::new();
    let mut len: usize = 9;
    assert(text::texts(phrases@) =~= seq![]);
    while len >= FEWEST_WORDS && phrases.len() < MOST_PHRASES
        invariant
            len == 9 || len == 7 || len == 5 || len == 3 || len == 1,
            ws == text::texts(words@),
            passages_from(seq![], ws, 9) == passages_from(
                text::texts(phrases@),
                ws,
                len as int,
            ),
        decreases len,
    {
        if words.len() >= len {
            let spare: usize = words.len() - len;
            add_phrase(&mut phrases, text::join_words(words, 0, len));
            add_phrase(&mut phrases, text::join_words(words, spare / 2, len));
            add_phrase(&mut phrases, text::join_words(words, spare, len));
        }
        len = len - 2;
    }
    phrases.truncate(MOST_PHRASES);
    assert(text::texts(phrases@) =~= search_phrases(ws));
    phrases
}

/// Decides what to do about a request, given the words of its text.
pub fn plan_words(connected: bool, words: &Vec<String>) -> (plan: SearchPlan)
    ensures
        is_plan(connected, text::texts(words@), plan),
{
    if !connected {
        SearchPlan::Answer(refusal("не подключено"))
    } else if words.len() < FEWEST_WORDS {
        SearchPlan::Answer(refusal("нужно 3+ слов"))
    } else {
        SearchPlan::Search(choose_phrases(words))
    }
}

/// Decides what to do about a request.
pub fn plan_search(connected: bool, req: &SearchReq) -> (plan: SearchPlan)
    ensures
        is_plan(connected, text::text_words(req.text@), plan),
{
    plan_words(connected, &text::split_whitespace(req.text.as_str()))
}

/// Whether `p` is a phrase of three, five, seven or nine words that follow each other in the text.
pub open spec fn is_passage(ws: Seq<Seq<char>>, p: Seq<char>) -> bool {
    exists|i: int, len: int|
        (len == 3 || len == 5 || len == 7 || len == 9) && 0 <= i && i + len <= ws.len() && p
            == #[trigger] text::phrase_at(ws, i, len)
}

/// Whether `acc` lists passages of the text, each once.
pub open spec fn are_passages(ws: Seq<Seq<char>>, acc: Seq<Seq<char>>) -> bool {
    &&& forall|i: int| 0 <= i < acc.len() ==> #[trigger] is_passage(ws, acc[i])
    &&& acc.no_duplicates()
}

proof fn lemma_with_phrase(ws: Seq<Seq<char>>, acc: Seq<Seq<char>>, p: Seq<char>)
    requires
        are_passages(ws, acc),
        is_passage(ws, p),
    ensures
        are_passages(ws, with_phrase(acc, p)),
        with_phrase(acc, p).len() > 0,
        with_phrase(acc, p).len() >= acc.len(),
{
    let now = with_phrase(acc, p);
    if acc.contains(p) {
        assert(acc.len() > 0);
    } else {
        assert forall|i: int| 0 <= i < now.len() implies #[trigger] is_passage(ws, now[i]) by {
            if i < acc.len() {
                assert(is_passage(ws, acc[i]));
            }
        }
    }
}

proof fn lemma_passages(ws: Seq<Seq<char>>, acc: Seq<Seq<char>>, len: int)
    requires
        ws.len() >= FEWEST_WORDS,
        are_passages(ws, acc),
        len == 9 || len == 7 || len == 5 || len == 3 || (len == 1 && acc.len() > 0),
    ensures
        are_passages(ws, passages_from(acc, ws, len)),
        passages_from(acc, ws, len).len() > 0,
    decreases len,
{
    if len >= FEWEST_WORDS && acc.len() < MOST_PHRASES {
        let spare = ws.len() - len;
        if spare >= 0 {
            let (p, q, r) = (
                text::phrase_at(ws, 0, len),
                text::phrase_at(ws, spare / 2, len),
                text::phrase_at(ws, spare, len),
            );
            assert(is_passage(ws, p) && is_passage(ws, q) && is_passage(ws, r));
            lemma_with_phrase(ws, acc, p);
            lemma_with_phrase(ws, with_phrase(acc, p), q);
            lemma_with_phrase(ws, with_phrase(with_phrase(acc, p), q), r);
        }
        lemma_passages(ws, with_passages(acc, ws, len), len - 2);
    }
}

/// A text of three words or more is searched for by one to six different phrases, each of them a
/// passage of the text.
pub proof fn law_search_phrases(ws: Seq<Seq<char>>)
    requires
        ws.len() >= FEWEST_WORDS,
    ensures
        1 <= search_phrases(ws).len() <= MOST_PHRASES,
        are_passages(ws, search_phrases(ws)),
{
    let all = passages_from(seq![], ws, 9);
    lemma_passages(ws, seq![], 9);
    if all.len() > MOST_PHRASES {
        let some = all.take(MOST_PHRASES as int);
        assert forall|i: int| 0 <= i < some.len() implies #[trigger] is_passage(ws, some[i]) by {
            assert(is_passage(ws, all[i]));
        }
    }
}

/// What Telegram says next while a phrase is searched for.
pub enum SearchEvent {
    Message { chat_id: i64, chat_name: String, message_id: i32 },
    End,
    Failed,
    TimedOut,
}

/// The link to a message.
pub open spec fn link_text(chat_id: int, message_id: int) -> Seq<char> {
    "https://t.me/c/"@ + numbers::decimal(chat_id) + "/"@ + numbers::decimal(message_id)
}

/// Writes the link to a message.
pub fn message_link(chat_id: i64, message_id: i32) -> (r: String)
    ensures
        r@ == link_text(chat_id as int, message_id as int),
{
    let mut r = "https://t.me/c/".to_owned();
    r.append(numbers::format_decimal(chat_id).as_str());
    r.append("/");
    r.append(numbers::format_decimal(message_id as i64).as_str());
    r
}

/// Takes in what Telegram says next, and tells whether to ask on: a message is kept, and the search
/// goes on until there are five; at the end of the messages, or at a failure, it stops.
pub fn take_event(out: &mut Vec<SearchResult>, phrase: &str, event: SearchEvent) -> (more: bool)
    ensures
        match event {
            SearchEvent::Message { chat_id, chat_name, message_id } => {
                &&& final(out)@.len() == old(out)@.len() + 1
                &&& final(out)@.drop_last() == old(out)@
                &&& final(out)@.last().chat_name@ == chat_name@
                &&& final(out)@.last().message_id == message_id
                &&& final(out)@.last().phrase@ == phrase@
                &&& final(out)@.last().link@ == link_text(chat_id as int, message_id as int)
                &&& more == (final(out)@.len() < MOST_HITS)
            },
            _ => final(out)@ == old(out)@ && !more,
        },
        event is Message ==> more == (final(out)@.len() < 5),
        old(out)@.len() < MOST_HITS ==> final(out)@.len() <= MOST_HITS,
        more ==> final(out)@.len() < MOST_HITS,
{
    match event {
        SearchEvent::Message { chat_id, chat_name, message_id } => {
            let link = message_link(chat_id, message_id);
            out.push(SearchResult { chat_name, message_id, phrase: phrase.to_owned(), link });
            assert(out@.drop_last() =~= old(out)@);
            out.len() < MOST_HITS
        },
        _ => false,
    }
}

/// Whether item `i` of `batch` is a new message: neither in `known` nor earlier in the batch.
pub open spec fn is_new(known: Set<i32>, batch: Seq<SearchResult>, i: int) -> bool {
    !known.contains(batch[i].message_id) && forall|j: int|
        0 <= j < i ==> (#[trigger] batch[j]).message_id != batch[i].message_id
}

/// The new messages among the first `n` of `batch`, in order.
pub open spec fn fresh_before(known: Set<i32>, batch: Seq<SearchResult>, n: int) -> Seq<
    SearchResult,
>
    decreases n,
{
    if n <= 0 {
        seq![]
    } else if is_new(known, batch, n - 1) {
        fresh_before(known, batch, n - 1).push(batch[n - 1])
    } else {
        fresh_before(known, batch, n - 1)
    }
}

/// The new messages of `batch`.
pub open spec fn fresh(known: Set<i32>, batch: Seq<SearchResult>) -> Seq<SearchResult> {
    fresh_before(known, batch, batch.len() as int)
}

/// The numbers of the messages.
pub open spec fn ids(results: Seq<SearchResult>) -> Set<i32> {
    Seq::new(results.len(), |i: int| results[i].message_id).to_set()
}

/// Whether each message occurs once.
pub open spec fn all_different(results: Seq<SearchResult>) -> bool {
    forall|i: int, j: int|
        0 <= i < j < results.len() ==> (#[trigger] results[i]).message_id != (
        #[trigger] results[j]).message_id
}

proof fn lemma_ids_push(results: Seq<SearchResult>, r: SearchResult)
    ensures
        ids(results.push(r)) == ids(results).insert(r.message_id),
{
    let a = Seq::new(results.len(), |i: int| results[i].message_id);
    let more = results.push(r);
    let b = Seq::new(more.len(), |i: int| more[i].message_id);
    assert(b =~= a.push(r.message_id));
    assert forall|x: i32| b.to_set().contains(x) <==> a.to_set().insert(r.message_id).contains(
        x,
    ) by {
        if b.contains(x) {
            let k = choose|k: int| 0 <= k < b.len() && b[k] == x;
            if k < a.len() {
                assert(a[k] == x);
            }
        }
        if a.contains(x) {
            let k = choose|k: int| 0 <= k < a.len() && a[k] == x;
            assert(b[k] == x);
        }
        assert(b[a.len() as int] == r.message_id);
    }
    assert(b.to_set() =~= a.to_set().insert(r.message_id));
}

proof fn lemma_not_in_ids(results: Seq<SearchResult>, id: i32)
    requires
        !ids(results).contains(id),
    ensures
        forall|i: int| 0 <= i < results.len() ==> (#[trigger] results[i]).message_id != id,
{
    let a = Seq::new(results.len(), |i: int| results[i].message_id);
    assert forall|i: int| 0 <= i < results.len() implies (#[trigger] results[i]).message_id
        != id by {
        if results[i].message_id == id {
            assert(a[i] == id);
            assert(a.contains(id));
        }
    }
}

/// The results of a search as they come in, phrase by phrase.
pub struct Findings {
    results: Vec<SearchResult>,
    seen: HashSet<i32>,
}

impl Findings {
    /// The results so far.
    pub closed spec fn results(&self) -> Seq<SearchResult> {
        self.results@
    }

    /// Each message is listed once, and its number is remembered.
    pub closed spec fn wf(&self) -> bool {
        &&& all_different(self.results@)
        &&& self.seen@ == ids(self.results@)
    }

    /// No results yet.
    pub fn new() -> (r: Findings)
        ensures
            r.wf(),
            r.results().len() == 0,
    {
        let r = Findings { results: Vec::new(), seen: HashSet::new() };
        proof {
            assert(ids(r.results@) =~= Set::<i32>::empty());
        }
        r
    }

    /// Takes in what one phrase brought, `None` where its search broke off, and tells whether more
    /// results are wanted. Messages that are listed already are left out.
    pub fn absorb(&mut self, batch: Option<Vec<SearchResult>>) -> (more: bool)
        requires
            old(self).wf(),
        ensures
            final(self).wf(),
            match batch {
                Some(b) => final(self).results() == old(self).results() + fresh(
                    ids(old(self).results()),
                    b@,
                ),
                None => final(self).results() == old(self).results(),
            },
            more == (final(self).results().len() < ENOUGH_RESULTS),
            more == (final(self).results().len() < 10),
    {
        match batch {
            Some(b) => {
                let ghost known = ids(self.results@);
                let ghost before = self.results@;
                let ghost items = b@;
                proof {
                    assert(before + fresh_before(known, items, 0) =~= before);
                }
                for r in it: b
                    invariant
                        it.seq() == items,
                        known == ids(before),
                        all_different(self.results@),
                        self.seen@ == ids(self.results@),
                        self.results@ == before + fresh_before(known, items, it.index()),
                        self.seen@ == seen_before(known, items, it.index()),
                {
                    let ghost i = it.index();
                    let ghost listed = self.results@;
                    proof {
                        lemma_seen(known, items, i);
                        lemma_ids_push(listed, r);
                        if !self.seen@.contains(r.message_id) {
                            lemma_not_in_ids(listed, r.message_id);
                        }
                        assert(self.seen@.contains(r.message_id) ==> self.seen@.insert(
                            r.message_id,
                        ) =~= self.seen@);
                    }
                    if self.seen.insert(r.message_id) {
                        self.results.push(r);
                        assert(self.results@ =~= before + fresh_before(known, items, i + 1));
                    }
                }
            },
            None => {},
        }
        self.results.len() < ENOUGH_RESULTS
    }

    /// Answers with the results.
    pub fn finish(self) -> (r: SearchResp)
        ensures
            r.ok,
            r.results@ == self.results(),
            r.message@ == results_message(self.results().len()),
    {
        let message = if self.results.len() == 0 {
            "не найдено".to_owned()
        } else {
            let mut m = numbers::format_count(self.results.len());
            m.append(" результатов");
            m
        };
        SearchResp { ok: true, results: self.results, message }
    }
}

/// What is said of `n` results.
pub open spec fn results_message(n: nat) -> Seq<char> {
    if n == 0 {
        "не найдено"@
    } else {
        numbers::decimal(n as int) + " результатов"@
    }
}

/// The known numbers together with those of the first `n` of `batch`.
spec fn seen_before(known: Set<i32>, batch: Seq<SearchResult>, n: int) -> Set<i32>
    decreases n,
{
    if n <= 0 {
        known
    } else {
        seen_before(known, batch, n - 1).insert(batch[n - 1].message_id)
    }
}

proof fn lemma_seen(known: Set<i32>, batch: Seq<SearchResult>, n: int)
    requires
        0 <= n < batch.len(),
    ensures
        is_new(known, batch, n) <==> !seen_before(known, batch, n).contains(batch[n].message_id),
{
    lemma_seen_contains(known, batch, n, batch[n].message_id);
}

proof fn lemma_seen_contains(known: Set<i32>, batch: Seq<SearchResult>, n: int, id: i32)
    requires
        0 <= n <= batch.len(),
    ensures
        seen_before(known, batch, n).contains(id) <==> (known.contains(id) || exists|j: int|
            0 <= j < n && (#[trigger] batch[j]).message_id == id),
    decreases n,
{
    if n > 0 {
        lemma_seen_contains(known, batch, n - 1, id);
        if batch[n - 1].message_id == id {
            assert(batch[n - 1].message_id == id);
        }
    }
}

/// The results of a search are of different messages.
pub proof fn law_findings_differ(f: Findings)
    requires
        f.wf(),
    ensures
        all_different(f.results()),
{
}

/// While results are wanted, a phrase that brings five messages at most leaves fourteen results at
/// most.
pub proof fn law_findings_bounded(before: Seq<SearchResult>, batch: Seq<SearchResult>)
    requires
        before.len() < ENOUGH_RESULTS,
        batch.len() <= MOST_HITS,
    ensures
        (before + fresh(ids(before), batch)).len() < ENOUGH_RESULTS + MOST_HITS,
{
    lemma_fresh_len(ids(before), batch, batch.len() as int);
}

proof fn lemma_fresh_len(known: Set<i32>, batch: Seq<SearchResult>, n: int)
    requires
        0 <= n,
    ensures
        fresh_before(known, batch, n).len() <= n,
    decreases n,
{
    if n > 0 {
        lemma_fresh_len(known, batch, n - 1);
    }
}

/// Where the search for one phrase stands.
pub enum TaskState {
    Searching,
    ReadingSession,
    Reconnecting,
    SearchingAgain,
    Finished,
}

/// What happened last: messages were found, or the search failed; the stored session was read, if
/// there is one; or a new connection was tried.
pub enum TaskEvent {
    Found(Vec<SearchResult>),
    Failed,
    Session(Option<String>),
    Reconnected(bool),
}

/// What is to be done next.
pub enum TaskAction {
    ReadSession,
    Reconnect(String),
    SearchAgain,
    Finish(Vec<SearchResult>),
}

/// Whether the action ends the search with no messages.
pub open spec fn finishes_empty(state: TaskState, action: TaskAction) -> bool {
    state is Finished && (action matches TaskAction::Finish(r) && r@.len() == 0)
}

/// How many steps are left at most.
pub open spec fn steps_left(state: TaskState) -> nat {
    match state {
        TaskState::Searching => 4,
        TaskState::ReadingSession => 3,
        TaskState::Reconnecting => 2,
        TaskState::SearchingAgain => 1,
        TaskState::Finished => 0,
    }
}

/// Decides how the search for one phrase goes on. Where it fails or finds nothing, it is tried once
/// more over a new connection from the stored session; where there is no such connection, it ends
/// with no messages.
pub fn task_step(state: TaskState, event: TaskEvent) -> (r: (TaskState, TaskAction))
    ensures
        match (state, event) {
            (TaskState::Searching, TaskEvent::Found(found)) => if found@.len() > 0 {
                r == (TaskState::Finished, TaskAction::Finish(found))
            } else {
                r == (TaskState::ReadingSession, TaskAction::ReadSession)
            },
            (TaskState::Searching, TaskEvent::Failed) => r == (
                TaskState::ReadingSession,
                TaskAction::ReadSession,
            ),
            (TaskState::ReadingSession, TaskEvent::Session(Some(stored))) => r == (
                TaskState::Reconnecting,
                TaskAction::Reconnect(stored),
            ),
            (TaskState::Reconnecting, TaskEvent::Reconnected(true)) => r == (
                TaskState::SearchingAgain,
                TaskAction::SearchAgain,
            ),
            (TaskState::SearchingAgain, TaskEvent::Found(found)) => r == (
                TaskState::Finished,
                TaskAction::Finish(found),
            ),
            _ => finishes_empty(r.0, r.1),
        },
        r.0 is Finished <==> r.1 is Finish,
        state !is Finished ==> steps_left(r.0) < steps_left(state),
{
    match (state, event) {
        (TaskState::Searching, TaskEvent::Found(found)) => {
            if found.len() > 0 {
                (TaskState::Finished, TaskAction::Finish(found))
            } else {
                (TaskState::ReadingSession, TaskAction::ReadSession)
            }
        },
        (TaskState::Searching, TaskEvent::Failed) => (
            TaskState::ReadingSession,
            TaskAction::ReadSession,
        ),
        (TaskState::ReadingSession, TaskEvent::Session(Some(stored))) => (
            TaskState::Reconnecting,
            TaskAction::Reconnect(stored),
        ),
        (TaskState::Reconnecting, TaskEvent::Reconnected(true)) => (
            TaskState::SearchingAgain,
            TaskAction::SearchAgain,
        ),
        (TaskState::SearchingAgain, TaskEvent::Found(found)) => (
            TaskState::Finished,
            TaskAction::Finish(found),
        ),
        _ => (TaskState::Finished, TaskAction::Finish(Vec::new())),
    }
}

/// Whether item `k` of `wanted` comes next in `chosen` at place `i`: it is new there, and all that is
/// wanted before it stands in `chosen` already.
pub open spec fn comes_next(
    wanted: Seq<Seq<char>>,
    k: int,
    chosen: Seq<Seq<char>>,
    i: int,
) -> bool {
    &&& 0 <= k < wanted.len()
    &&& wanted[k] == chosen[i]
    &&& !chosen.take(i).contains(wanted[k])
    &&& forall|m: int| 0 <= m < k ==> chosen.take(i).contains(#[trigger] wanted[m])
}

/// Whether place `i` of `chosen` was filled in turn from `wanted`.
pub open spec fn has_turn(wanted: Seq<Seq<char>>, chosen: Seq<Seq<char>>, i: int) -> bool {
    exists|k: int| #[trigger] comes_next(wanted, k, chosen, i)
}

/// Whether all of `wanted` was chosen in turn.
spec fn in_turn(wanted: Seq<Seq<char>>, chosen: Seq<Seq<char>>) -> bool {
    &&& forall|i: int| 0 <= i < chosen.len() ==> #[trigger] has_turn(wanted, chosen, i)
    &&& forall|m: int| 0 <= m < wanted.len() ==> chosen.contains(#[trigger] wanted[m])
}

proof fn lemma_same_turn(
    wanted: Seq<Seq<char>>,
    chosen: Seq<Seq<char>>,
    i: int,
    more_wanted: Seq<Seq<char>>,
    other: Seq<Seq<char>>,
)
    requires
        has_turn(wanted, chosen, i),
        0 <= i < chosen.len(),
        i < other.len(),
        wanted.len() <= more_wanted.len(),
        more_wanted.take(wanted.len() as int) == wanted,
        other.take(i + 1) == chosen.take(i + 1),
    ensures
        has_turn(more_wanted, other, i),
{
    let k = choose|k: int| #[trigger] comes_next(wanted, k, chosen, i);
    assert(other.take(i) =~= other.take(i + 1).take(i));
    assert(chosen.take(i) =~= chosen.take(i + 1).take(i));
    assert(other[i] == other.take(i + 1)[i]);
    assert(chosen[i] == chosen.take(i + 1)[i]);
    assert forall|m: int| 0 <= m <= k implies #[trigger] more_wanted[m] == wanted[m] by {
        assert(more_wanted.take(wanted.len() as int)[m] == more_wanted[m]);
    }
    assert(comes_next(more_wanted, k, other, i));
}

proof fn lemma_add_in_turn(wanted: Seq<Seq<char>>, chosen: Seq<Seq<char>>, p: Seq<char>)
    requires
        in_turn(wanted, chosen),
    ensures
        in_turn(wanted.push(p), with_phrase(chosen, p)),
{
    let more = wanted.push(p);
    let now = with_phrase(chosen, p);
    let n = chosen.len() as int;
    assert(more.take(wanted.len() as int) =~= wanted);
    assert forall|i: int| 0 <= i < now.len() implies #[trigger] has_turn(more, now, i) by {
        if i < n {
            assert(has_turn(wanted, chosen, i));
            assert(now.take(i + 1) =~= chosen.take(i + 1));
            lemma_same_turn(wanted, chosen, i, more, now);
        } else {
            assert(now.take(n) =~= chosen);
            assert forall|m: int| 0 <= m < wanted.len() implies now.take(i).contains(
                #[trigger] more[m],
            ) by {
                assert(more[m] == wanted[m]);
            }
            assert(comes_next(more, wanted.len() as int, now, i));
        }
    }
    assert forall|m: int| 0 <= m < more.len() implies now.contains(#[trigger] more[m]) by {
        if m < wanted.len() {
            assert(more[m] == wanted[m]);
            let k = choose|k: int| 0 <= k < chosen.len() && chosen[k] == wanted[m];
            assert(now[k] == more[m]);
        } else if !chosen.contains(p) {
            assert(now[n] == p);
        }
    }
}

/// The phrases of `len` words from the start, the middle and the end of the text, where it has so
/// many words.
pub open spec fn start_middle_end(ws: Seq<Seq<char>>, len: int) -> Seq<Seq<char>> {
    if ws.len() < len {
        seq![]
    } else {
        seq![
            text::joined(ws.subrange(0, len)),
            text::joined(ws.subrange((ws.len() - len) / 2, (ws.len() - len) / 2 + len)),
            text::joined(ws.subrange(ws.len() - len, ws.len() as int)),
        ]
    }
}

proof fn lemma_passages_in_turn(
    wanted: Seq<Seq<char>>,
    chosen: Seq<Seq<char>>,
    ws: Seq<Seq<char>>,
    len: int,
)
    requires
        in_turn(wanted, chosen),
        len > 0,
    ensures
        in_turn(wanted + start_middle_end(ws, len), with_passages(chosen, ws, len)),
{
    let three = start_middle_end(ws, len);
    if ws.len() < len {
        assert(wanted + three =~= wanted);
    } else {
        let (p, q, r) = (three[0], three[1], three[2]);
        lemma_add_in_turn(wanted, chosen, p);
        lemma_add_in_turn(wanted.push(p), with_phrase(chosen, p), q);
        lemma_add_in_turn(wanted.push(p).push(q), with_phrase(with_phrase(chosen, p), q), r);
        assert(wanted + three =~= wanted.push(p).push(q).push(r));
    }
}

/// Goes through the lengths from `len` down, and returns what was wanted up to where it stopped.
proof fn lemma_turns(
    wanted: Seq<Seq<char>>,
    chosen: Seq<Seq<char>>,
    ws: Seq<Seq<char>>,
    len: int,
    left: Seq<Seq<char>>,
) -> (done: Seq<Seq<char>>)
    requires
        in_turn(wanted, chosen),
        len == 9 ==> left == start_middle_end(ws, 9) + start_middle_end(ws, 7) + start_middle_end(
            ws,
            5,
        ) + start_middle_end(ws, 3),
        len == 7 ==> left == start_middle_end(ws, 7) + start_middle_end(ws, 5) + start_middle_end(
            ws,
            3,
        ),
        len == 5 ==> left == start_middle_end(ws, 5) + start_middle_end(ws, 3),
        len == 3 ==> left == start_middle_end(ws, 3),
        len == 1 ==> left.len() == 0,
        len == 9 || len == 7 || len == 5 || len == 3 || len == 1,
    ensures
        in_turn(done, passages_from(chosen, ws, len)),
        done.len() <= (wanted + left).len(),
        (wanted + left).take(done.len() as int) == done,
        passages_from(chosen, ws, len).len() < 6 ==> done == wanted + left,
    decreases len,
{
    if len < 3 || chosen.len() >= 6 {
        assert((wanted + left).take(wanted.len() as int) =~= wanted);
        assert(len < 3 ==> wanted + left =~= wanted);
        wanted
    } else {
        let three = start_middle_end(ws, len);
        let rest = left.skip(three.len() as int);
        lemma_passages_in_turn(wanted, chosen, ws, len);
        if len == 9 {
            assert(rest =~= start_middle_end(ws, 7) + start_middle_end(ws, 5) + start_middle_end(
                ws,
                3,
            ));
            assert(left =~= three + rest);
        } else if len == 7 {
            assert(rest =~= start_middle_end(ws, 5) + start_middle_end(ws, 3));
            assert(left =~= three + rest);
        } else if len == 5 {
            assert(rest =~= start_middle_end(ws, 3));
            assert(left =~= three + rest);
        } else {
            assert(left =~= three + rest);
        }
        let done = lemma_turns(
            wanted + three,
            with_passages(chosen, ws, len),
            ws,
            len - 2,
            rest,
        );
        assert((wanted + three) + rest =~= wanted + left);
        done
    }
}

/// The phrases to search for are the first six different ones among those wanted: of nine words, of
/// seven, of five and of three, each time from the start, the middle and the end of the text. There
/// are fewer than six only where no more are wanted.
pub proof fn law_phrases_in_turn(ws: Seq<Seq<char>>, wanted: Seq<Seq<char>>)
    requires
        wanted == start_middle_end(ws, 9) + start_middle_end(ws, 7) + start_middle_end(ws, 5)
            + start_middle_end(ws, 3),
    ensures
        search_phrases(ws).len() <= 6,
        forall|i: int|
            0 <= i < search_phrases(ws).len() ==> #[trigger] has_turn(
                wanted,
                search_phrases(ws),
                i,
            ),
        search_phrases(ws).len() < 6 ==> forall|m: int|
            0 <= m < wanted.len() ==> search_phrases(ws).contains(#[trigger] wanted[m]),
{
    let nothing = Seq::<Seq<char>>::empty();
    let done = lemma_turns(nothing, nothing, ws, 9, wanted);
    assert(nothing + wanted =~= wanted);
    let all = passages_from(nothing, ws, 9);
    let some = search_phrases(ws);
    assert forall|i: int| 0 <= i < some.len() implies #[trigger] has_turn(wanted, some, i) by {
        assert(has_turn(done, all, i));
        assert(some.take(i + 1) =~= all.take(i + 1));
        lemma_same_turn(done, all, i, wanted, some);
    }
}

proof fn lemma_passages_keep(acc: Seq<Seq<char>>, ws: Seq<Seq<char>>, len: int)
    ensures
        passages_from(acc, ws, len).len() >= acc.len(),
        passages_from(acc, ws, len).take(acc.len() as int) == acc,
    decreases len,
{
    let n = acc.len() as int;
    if len < 3 || acc.len() >= 6 {
        assert(acc.take(n) =~= acc);
    } else {
        let now = with_passages(acc, ws, len);
        lemma_passages_keep(now, ws, len - 2);
        assert(now.len() >= n && now.take(n) =~= acc);
        let all = passages_from(acc, ws, len);
        assert(all.take(n) =~= all.take(now.len() as int).take(n));
    }
}

/// The whole text is looked at, however long it is. With the greatest length of nine, seven, five
/// and three words that the text has, the phrases to search for begin with the one at the start of
/// the text, and hold the one in the middle and the one at the end, up to the last word.
pub proof fn law_start_middle_end_are_searched(ws: Seq<Seq<char>>, len: int)
    requires
        len == 9 || len == 7 || len == 5 || len == 3,
        ws.len() >= len,
        len < 9 ==> ws.len() < len + 2,
    ensures
        search_phrases(ws)[0] == text::joined(ws.subrange(0, len)),
        search_phrases(ws).contains(text::joined(ws.subrange(0, len))),
        search_phrases(ws).contains(
            text::joined(ws.subrange((ws.len() - len) / 2, (ws.len() - len) / 2 + len)),
        ),
        search_phrases(ws).contains(
            text::joined(ws.subrange(ws.len() - len, ws.len() as int)),
        ),
{
    let nothing = Seq::<Seq<char>>::empty();
    let three = start_middle_end(ws, len);
    let found = with_passages(nothing, ws, len);
    reveal_with_fuel(passages_from, 5);
    assert(passages_from(nothing, ws, 9) == passages_from(nothing, ws, len));
    assert(passages_from(nothing, ws, len) == passages_from(found, ws, len - 2));
    lemma_passages_keep(found, ws, len - 2);
    assert(in_turn(nothing, nothing));
    lemma_passages_in_turn(nothing, nothing, ws, len);
    assert(nothing + three =~= three);
    let all = passages_from(nothing, ws, 9);
    let some = search_phrases(ws);
    assert(found[0] == three[0]);
    assert(found.len() <= 3);
    assert forall|m: int| 0 <= m < 3 implies some.contains(#[trigger] three[m]) by {
        let k = choose|k: int| 0 <= k < found.len() && found[k] == three[m];
        assert(all.take(found.len() as int)[k] == found[k]);
        assert(some[k] == three[m]);
    }
    assert(all.take(found.len() as int)[0] == found[0]);
    assert(three[0] == text::joined(ws.subrange(0, len)));
    assert(three[1] == text::joined(ws.subrange((ws.len() - len) / 2, (ws.len() - len) / 2 + len)));
    assert(three[2] == text::joined(ws.subrange(ws.len() - len, ws.len() as int)));
}

/// A request is refused exactly where there is no connection or the text has fewer than three words,
/// and answered then with nothing found.
pub proof fn law_refusal(connected: bool, ws: Seq<Seq<char>>, plan: SearchPlan)
    requires
        is_plan(connected, ws, plan),
    ensures
        plan is Answer <==> !connected || ws.len() < 3,
        plan matches SearchPlan::Answer(r) ==> !r.ok && r.results@.len() == 0 && r.message@
            == if !connected {
            "не подключено"@
        } else {
            "нужно 3+ слов"@
        },
        plan matches SearchPlan::Search(phrases) ==> text::texts(phrases@) == search_phrases(ws),
{
}

/// A link holds the numbers of the chat and of the message, in full.
pub proof fn law_link(chat_id: int, message_id: int)
    ensures
        link_text(chat_id, message_id) == "https://t.me/c/"@ + numbers::decimal(chat_id) + "/"@
            + numbers::decimal(message_id),
{
}

/// The numbers of messages are those of the messages, all of them and no others.
pub proof fn law_ids(results: Seq<SearchResult>, id: i32)
    ensures
        ids(results).contains(id) <==> exists|i: int|
            0 <= i < results.len() && (#[trigger] results[i]).message_id == id,
{
    let a = Seq::new(results.len(), |i: int| results[i].message_id);
    if ids(results).contains(id) {
        let i = choose|i: int| 0 <= i < a.len() && a[i] == id;
        assert(results[i].message_id == id);
    }
    if exists|i: int| 0 <= i < results.len() && (#[trigger] results[i]).message_id == id {
        let i = choose|i: int| 0 <= i < results.len() && (#[trigger] results[i]).message_id == id;
        assert(a[i] == id);
    }
}

/// A message alone is new where its number is not known, and then it is kept as it is.
pub proof fn law_fresh_one(known: Set<i32>, r: SearchResult)
    ensures
        fresh(known, Seq::<SearchResult>::empty()) == Seq::<SearchResult>::empty(),
        fresh(known, seq![r]) == if known.contains(r.message_id) {
            Seq::<SearchResult>::empty()
        } else {
            seq![r]
        },
{
    reveal_with_fuel(fresh_before, 2);
    assert(fresh(known, seq![r]) =~= if known.contains(r.message_id) {
        Seq::<SearchResult>::empty()
    } else {
        seq![r]
    });
}

/// Taking in messages one lot after the other is taking them in together: what is new of the second
/// lot is what neither was known nor stands in the first.
pub proof fn law_fresh_parts(known: Set<i32>, a: Seq<SearchResult>, b: Seq<SearchResult>)
    ensures
        fresh(known, a + b) == fresh(known, a) + fresh(known.union(ids(a)), b),
{
    lemma_fresh_head(known, a, b, a.len() as int);
    lemma_fresh_tail(known, a, b, b.len() as int);
}

proof fn lemma_fresh_head(known: Set<i32>, a: Seq<SearchResult>, b: Seq<SearchResult>, n: int)
    requires
        0 <= n <= a.len(),
    ensures
        fresh_before(known, a + b, n) == fresh_before(known, a, n),
    decreases n,
{
    if n > 0 {
        lemma_fresh_head(known, a, b, n - 1);
        let ab = a + b;
        assert(forall|j: int| 0 <= j < n ==> #[trigger] ab[j] == a[j]);
        assert(is_new(known, ab, n - 1) == is_new(known, a, n - 1)) by {
            if is_new(known, ab, n - 1) {
                assert forall|j: int| 0 <= j < n - 1 implies (#[trigger] a[j]).message_id
                    != a[n - 1].message_id by {
                    assert(ab[j].message_id != ab[n - 1].message_id);
                }
            }
            if is_new(known, a, n - 1) {
                assert forall|j: int| 0 <= j < n - 1 implies (#[trigger] ab[j]).message_id != ab[n
                    - 1].message_id by {
                    assert(a[j].message_id != a[n - 1].message_id);
                }
            }
        }
    }
}

proof fn lemma_fresh_tail(known: Set<i32>, a: Seq<SearchResult>, b: Seq<SearchResult>, n: int)
    requires
        0 <= n <= b.len(),
        fresh_before(known, a + b, a.len() as int) == fresh(known, a),
    ensures
        fresh_before(known, a + b, a.len() + n) == fresh(known, a) + fresh_before(
            known.union(ids(a)),
            b,
            n,
        ),
    decreases n,
{
    let wider = known.union(ids(a));
    if n == 0 {
        assert(fresh(known, a) + fresh_before(wider, b, 0) =~= fresh(known, a));
    } else {
        lemma_fresh_tail(known, a, b, n - 1);
        let ab = a + b;
        let at = a.len() + n - 1;
        let id = b[n - 1].message_id;
        law_ids(a, id);
        assert(ab[at] == b[n - 1]);
        assert(is_new(known, ab, at) == is_new(wider, b, n - 1)) by {
            if is_new(known, ab, at) {
                if ids(a).contains(id) {
                    let i = choose|i: int| 0 <= i < a.len() && (#[trigger] a[i]).message_id == id;
                    assert(ab[i] == a[i]);
                }
                assert forall|j: int| 0 <= j < n - 1 implies (#[trigger] b[j]).message_id != id by {
                    assert(ab[a.len() + j] == b[j]);
                }
            }
            if is_new(wider, b, n - 1) {
                assert forall|j: int| 0 <= j < at implies (#[trigger] ab[j]).message_id != id by {
                    if j < a.len() {
                        assert(ab[j] == a[j]);
                    } else {
                        assert(ab[j] == b[j - a.len()]);
                    }
                }
            }
        }
        assert(fresh_before(known, ab, a.len() + n) =~= fresh(known, a) + fresh_before(wider, b, n));
    }
}

/// The message counts the results, however many they are.
pub proof fn law_results_message(n: nat)
    ensures
        results_message(n) == if n == 0 {
            "не найдено"@
        } else {
            numbers::decimal(n as int) + " результатов"@
        },
{
}

/// A search that ends with no messages is finished, and brings none.
pub proof fn law_finishes_empty(state: TaskState, action: TaskAction)
    ensures
        finishes_empty(state, action) <==> state is Finished && (action matches TaskAction::Finish(
            r,
        ) && r@.len() == 0),
{
}

} // verus!

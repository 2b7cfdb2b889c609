//! Phrases that a text repeats.
use crate::analysis::RepeatEntry;
use crate::text;
use vstd::hash_map::StringHashMap;
use vstd::prelude::*;
use vstd::utf8::*;

verus! {

/// The fewest words that make a phrase.
pub const SHORTEST: usize = 2;

/// The most words that make a phrase.
pub const LONGEST: usize = 10;

/// The phrases of `len` words, one for each word that such a phrase can start at.
pub open spec fn windows(ws: Seq<Seq<char>>, len: int) -> Seq<Seq<char>> {
    Seq::new(
        if len <= ws.len() {
            (ws.len() - len + 1) as nat
        } else {
            0
        },
        |i: int| text::phrase_at(ws, i, len),
    )
}

/// The phrases of up to `len` words, the shorter ones first.
pub open spec fn phrases_up_to(ws: Seq<Seq<char>>, len: int) -> Seq<Seq<char>>
    decreases len,
{
    if len < SHORTEST {
        seq![]
    } else {
        phrases_up_to(ws, len - 1) + windows(ws, len)
    }
}

/// How often `p` occurs in `s`.
pub open spec fn tally(s: Seq<Seq<char>>, p: Seq<char>) -> nat
    decreases s.len(),
{
    if s.len() == 0 {
        0
    } else {
        tally(s.drop_last(), p) + if s.last() == p {
            1nat
        } else {
            0nat
        }
    }
}

/// How often the phrase `p` occurs in the text of the words `ws`.
pub open spec fn occurrences(ws: Seq<Seq<char>>, p: Seq<char>) -> nat {
    tally(phrases_up_to(ws, LONGEST as int), p)
}

/// Whether the phrase `p` occurs more than once.
pub open spec fn repeated(ws: Seq<Seq<char>>, p: Seq<char>) -> bool {
    occurrences(ws, p) > 1
}

/// Whether `q` makes `p` redundant: another phrase, repeated as often, that contains `p`.
pub open spec fn covers(ws: Seq<Seq<char>>, q: Seq<char>, p: Seq<char>) -> bool {
    &&& repeated(ws, q)
    &&& q != p
    &&& text::contains_text(q, p)
    &&& occurrences(ws, q) == occurrences(ws, p)
}

/// Whether the phrase `p` is reported: it is repeated, and no other phrase makes it redundant.
pub open spec fn reported(ws: Seq<Seq<char>>, p: Seq<char>) -> bool {
    repeated(ws, p) && forall|q: Seq<char>| !#[trigger] covers(ws, q, p)
}

/// Whether phrase `p`, found `n` times, goes before phrase `q`, found `m` times: the more frequent
/// first, then the longer in bytes, then the one of more words.
pub open spec fn outranks(p: Seq<char>, n: int, q: Seq<char>, m: int) -> bool {
    ||| n > m
    ||| n == m && encode_utf8(p).len() > encode_utf8(q).len()
    ||| n == m && encode_utf8(p).len() == encode_utf8(q).len() && text::spaces(p) > text::spaces(q)
}

/// Whether `entries` is a right answer for the words `ws`: it lists the reported phrases, each
/// once and with its count, in the order of `outranks`. Phrases that tie may stand either way.
pub open spec fn is_repeats(ws: Seq<Seq<char>>, entries: Seq<RepeatEntry>) -> bool {
    &&& forall|i: int|
        0 <= i < entries.len() ==> reported(ws, (#[trigger] entries[i]).phrase@) && entries[i].count
            == occurrences(ws, entries[i].phrase@)
    &&& forall|p: Seq<char>| #[trigger]
        reported(ws, p) ==> exists|i: int|
            0 <= i < entries.len() && (#[trigger] entries[i]).phrase@ == p
    &&& forall|i: int, j: int|
        0 <= i < j < entries.len() ==> (#[trigger] entries[i]).phrase@ != (
        #[trigger] entries[j]).phrase@
    &&& ranked(entries)
}

/// Whether the entries stand in order.
pub open spec fn ranked(entries: Seq<RepeatEntry>) -> bool {
    forall|i: int, j: int|
        0 <= i < j < entries.len() ==> !outranks(
            (#[trigger] entries[j]).phrase@,
            entries[j].count as int,
            (#[trigger] entries[i]).phrase@,
            entries[i].count as int,
        )
}

proof fn lemma_tally_add(a: Seq<Seq<char>>, b: Seq<Seq<char>>, p: Seq<char>)
    ensures
        tally(a + b, p) == tally(a, p) + tally(b, p),
    decreases b.len(),
{
    if b.len() == 0 {
        assert(a + b == a);
    } else {
        assert((a + b).drop_last() == a + b.drop_last());
        lemma_tally_add(a, b.drop_last(), p);
    }
}

proof fn lemma_tally_positive(s: Seq<Seq<char>>, p: Seq<char>)
    ensures
        tally(s, p) <= s.len(),
        tally(s, p) > 0 <==> s.contains(p),
    decreases s.len(),
{
    if s.len() > 0 {
        let rest = s.drop_last();
        lemma_tally_positive(rest, p);
        if s.last() == p {
            assert(s[s.len() - 1] == p);
        }
        if rest.contains(p) {
            let k = choose|k: int| 0 <= k < rest.len() && rest[k] == p;
            assert(s[k] == p);
        }
        if s.contains(p) && s.last() != p {
            let k = choose|k: int| 0 <= k < s.len() && s[k] == p;
            assert(rest[k] == p);
        }
    }
}

/// Words that hold no space.
pub open spec fn plain_words(ws: Seq<Seq<char>>) -> bool {
    forall|i: int| 0 <= i < ws.len() ==> !#[trigger] ws[i].contains(' ')
}

proof fn lemma_window_spaces(ws: Seq<Seq<char>>, i: int, len: int)
    requires
        plain_words(ws),
        1 <= len,
        0 <= i,
        i + len <= ws.len(),
    ensures
        text::spaces(text::phrase_at(ws, i, len)) == len - 1,
{
    let part = ws.subrange(i, i + len);
    assert forall|k: int| 0 <= k < part.len() implies !#[trigger] part[k].contains(' ') by {
        assert(!ws[i + k].contains(' '));
    }
    text::law_spaces_of_joined(part);
}

proof fn lemma_tally_bound(ws: Seq<Seq<char>>, len: int, p: Seq<char>)
    requires
        plain_words(ws),
    ensures
        tally(phrases_up_to(ws, len), p) <= if text::spaces(p) + 1 <= len {
            ws.len()
        } else {
            0
        },
    decreases len,
{
    if len >= SHORTEST {
        lemma_tally_bound(ws, len - 1, p);
        lemma_tally_add(phrases_up_to(ws, len - 1), windows(ws, len), p);
        let w = windows(ws, len);
        lemma_tally_positive(w, p);
        if w.contains(p) {
            let i = choose|i: int| 0 <= i < w.len() && w[i] == p;
            lemma_window_spaces(ws, i, len);
        }
    }
}

/// A phrase occurs at most as often as there are words.
pub proof fn law_occurrences_bound(ws: Seq<Seq<char>>, p: Seq<char>)
    requires
        plain_words(ws),
    ensures
        occurrences(ws, p) <= ws.len(),
{
    lemma_tally_bound(ws, LONGEST as int, p);
}

/// What the two lists and the index say of the phrases `seen` so far: each phrase is listed once,
/// under its place in the index, with its tally.
spec fn tallied(
    seen: Seq<Seq<char>>,
    phrases: Seq<String>,
    counts: Seq<usize>,
    index: Map<Seq<char>, usize>,
) -> bool {
    &&& phrases.len() == counts.len()
    &&& forall|i: int|
        0 <= i < phrases.len() ==> index.contains_key((#[trigger] phrases[i])@) && index[phrases[i]@]
            == i && counts[i] == tally(seen, phrases[i]@)
    &&& forall|p: Seq<char>| #[trigger]
        index.contains_key(p) ==> index[p] < phrases.len() && phrases[index[p] as int]@ == p
    &&& forall|p: Seq<char>| tally(seen, p) > 0 ==> #[trigger] index.contains_key(p)
}

/// Counts one more phrase.
fn count_phrase(
    phrases: &mut Vec<String>,
    counts: &mut Vec<usize>,
    index: &mut StringHashMap<usize>,
    phrase: String,
    Ghost(seen): Ghost<Seq<Seq<char>>>,
)
    requires
        tallied(seen, old(phrases)@, old(counts)@, old(index)@),
        tally(seen, phrase@) < usize::MAX,
    ensures
        tallied(seen.push(phrase@), final(phrases)@, final(counts)@, final(index)@),
{
    let ghost now = seen.push(phrase@);
    proof {
        assert(now.drop_last() == seen);
        assert forall|p: Seq<char>| #[trigger] tally(now, p) == tally(seen, p) + if p == phrase@ {
            1nat
        } else {
            0nat
        } by {}
    }
    let place = match index.get(phrase.as_str()) {
        Some(i) => Some(*i),
        None => None,
    };
    match place {
        Some(i) => {
            let n: usize = counts[i];
            counts.set(i, n + 1);
        },
        None => {
            let i: usize = phrases.len();
            proof {
                if tally(seen, phrase@) > 0 {
                    assert(index@.contains_key(phrase@));
                }
            }
            index.insert(phrase.clone(), i);
            phrases.push(phrase);
            counts.push(1);
        },
    }
}

/// Lists the phrases of a text and how often each occurs.
fn count_phrases(words: &Vec<String>) -> (r: (Vec<String>, Vec<usize>))
    requires
        plain_words(text::texts(words@)),
    ensures
        r.0@.len() == r.1@.len(),
        forall|i: int, j: int| 0 <= i < j < r.0@.len() ==> #[trigger] r.0@[i]@ != #[trigger] r.0@[j]@,
        forall|i: int|
            0 <= i < r.0@.len() ==> #[trigger] r.1@[i] == occurrences(
                text::texts(words@),
                r.0@[i]@,
            ),
        forall|p: Seq<char>| #[trigger]
            occurrences(text::texts(words@), p) > 0 ==> exists|i: int|
                0 <= i < r.0@.len() && #[trigger] r.0@[i]@ == p,
{
    let ghost ws = text::texts(words@);
    let ghost mut seen: Seq<Seq<char>> = seq![];
    let n: usize = words.len();
    let mut phrases: Vec<String> = Vec::new();
    let mut counts: Vec<usize> = Vec::new();
    let mut index: StringHashMap<usize> = StringHashMap::new();
    let mut len: usize = SHORTEST;
    while len <= LONGEST
        invariant
            SHORTEST <= len <= LONGEST + 1,
            n == words@.len(),
            ws == text::texts(words@),
            plain_words(ws),
            seen == phrases_up_to(ws, len - 1),
            tallied(seen, phrases@, counts@, index@),
        decreases LONGEST + 1 - len,
    {
        let ghost before = seen;
        let mut i: usize = 0;
        while len <= n && i <= n - len
            invariant
                SHORTEST <= len <= LONGEST,
                n == words@.len(),
                n == words.len(),
                ws == text::texts(words@),
                plain_words(ws),
                i <= windows(ws, len as int).len(),
                before == phrases_up_to(ws, len - 1),
                seen == before + windows(ws, len as int).take(i as int),
                tallied(seen, phrases@, counts@, index@),
            decreases windows(ws, len as int).len() - i,
        {
            let phrase = text::join_words(words, i, len);
            proof {
                assert(seen.push(phrase@) =~= before + windows(ws, len as int).take(i + 1));
                lemma_prefix_tally(ws, len as int, i + 1, phrase@);
                assert(seen.push(phrase@).drop_last() == seen);
                law_occurrences_bound(ws, phrase@);
            }
            count_phrase(&mut phrases, &mut counts, &mut index, phrase, Ghost(seen));
            proof {
                seen = seen.push(phrase@);
            }
            i = i + 1;
        }
        assert(windows(ws, len as int).take(i as int) == windows(ws, len as int));
        len = len + 1;
    }
    let r = (phrases, counts);
    proof {
        assert forall|p: Seq<char>| #[trigger]
            occurrences(text::texts(words@), p) > 0 implies exists|i: int|
            0 <= i < r.0@.len() && #[trigger] r.0@[i]@ == p by {
            assert(index@.contains_key(p));
            assert(r.0@[index@[p] as int]@ == p);
        }
        assert forall|i: int| 0 <= i < r.0@.len() implies #[trigger] r.1@[i] == occurrences(
            ws,
            r.0@[i]@,
        ) by {
            assert(index@.contains_key(r.0@[i]@));
        }
    }
    r
}

/// What was seen part of the way is part of all phrases.
proof fn lemma_prefix_tally(ws: Seq<Seq<char>>, len: int, i: int, p: Seq<char>)
    requires
        SHORTEST <= len <= LONGEST,
        0 <= i <= windows(ws, len).len(),
    ensures
        tally(phrases_up_to(ws, len - 1) + windows(ws, len).take(i), p) <= occurrences(ws, p),
{
    let w = windows(ws, len);
    lemma_tally_add(phrases_up_to(ws, len - 1), w.take(i), p);
    lemma_tally_add(w.take(i), w.skip(i), p);
    assert(w =~= w.take(i) + w.skip(i));
    lemma_tally_add(phrases_up_to(ws, len - 1), w, p);
    lemma_tally_grows(ws, len, LONGEST as int, p);
}

proof fn lemma_tally_grows(ws: Seq<Seq<char>>, len: int, to: int, p: Seq<char>)
    requires
        SHORTEST <= len <= to,
    ensures
        tally(phrases_up_to(ws, len), p) <= tally(phrases_up_to(ws, to), p),
    decreases to - len,
{
    if len < to {
        lemma_tally_grows(ws, len, to - 1, p);
        lemma_tally_add(phrases_up_to(ws, to - 1), windows(ws, to), p);
    }
}

/// A repeated phrase, with its characters at hand.
struct Candidate {
    phrase: String,
    chars: Vec<char>,
    count: usize,
}

/// Whether `cands` lists the repeated phrases, each once.
spec fn are_candidates(ws: Seq<Seq<char>>, cands: Seq<Candidate>) -> bool {
    &&& forall|i: int|
        0 <= i < cands.len() ==> (#[trigger] cands[i]).chars@ == cands[i].phrase@ && repeated(
            ws,
            cands[i].phrase@,
        ) && cands[i].count == occurrences(ws, cands[i].phrase@)
    &&& forall|i: int, j: int|
        0 <= i < j < cands.len() ==> (#[trigger] cands[i]).phrase@ != (#[trigger] cands[j]).phrase@
    &&& forall|p: Seq<char>| #[trigger]
        repeated(ws, p) ==> exists|i: int|
            0 <= i < cands.len() && (#[trigger] cands[i]).phrase@ == p
}

/// Lists the repeated phrases.
fn candidates(words: &Vec<String>) -> (cands: Vec<Candidate>)
    requires
        plain_words(text::texts(words@)),
    ensures
        are_candidates(text::texts(words@), cands@),
{
    let ghost ws = text::texts(words@);
    let (phrases, counts) = count_phrases(words);
    let mut cands: Vec<Candidate> = Vec::new();
    let mut k: usize = 0;
    while k < phrases.len()
        invariant
            k <= phrases@.len() == counts@.len(),
            forall|i: int, j: int|
                0 <= i < j < phrases@.len() ==> #[trigger] phrases@[i]@ != #[trigger] phrases@[j]@,
            forall|i: int|
                0 <= i < phrases@.len() ==> #[trigger] counts@[i] == occurrences(ws, phrases@[i]@),
            forall|i: int|
                0 <= i < cands@.len() ==> (#[trigger] cands@[i]).chars@ == cands@[i].phrase@
                    && repeated(ws, cands@[i].phrase@) && cands@[i].count == occurrences(
                    ws,
                    cands@[i].phrase@,
                ),
            forall|i: int|
                0 <= i < cands@.len() ==> exists|j: int|
                    0 <= j < k && #[trigger] phrases@[j]@ == (#[trigger] cands@[i]).phrase@,
            forall|i: int, j: int|
                0 <= i < j < cands@.len() ==> (#[trigger] cands@[i]).phrase@ != (
                #[trigger] cands@[j]).phrase@,
            forall|j: int|
                0 <= j < k && counts@[j] > 1 ==> exists|i: int|
                    0 <= i < cands@.len() && (#[trigger] cands@[i]).phrase@
                        == #[trigger] phrases@[j]@,
        decreases phrases@.len() - k,
    {
        let ghost before = cands@;
        if counts[k] > 1 {
            let phrase = phrases[k].clone();
            let chars = text::to_chars(phrase.as_str());
            cands.push(Candidate { phrase, chars, count: counts[k] });
            assert(cands@[cands@.len() - 1].phrase@ == phrases@[k as int]@);
        }
        proof {
            assert forall|j: int| 0 <= j < k + 1 && counts@[j] > 1 implies exists|i: int|
                0 <= i < cands@.len() && (#[trigger] cands@[i]).phrase@
                    == #[trigger] phrases@[j]@ by {
                if j < k {
                    let i = choose|i: int|
                        0 <= i < before.len() && (#[trigger] before[i]).phrase@ == phrases@[j]@;
                    assert(cands@[i].phrase@ == phrases@[j]@);
                }
            }
            assert forall|i: int| 0 <= i < cands@.len() implies exists|j: int|
                0 <= j < k + 1 && #[trigger] phrases@[j]@ == (#[trigger] cands@[i]).phrase@ by {
                if i < before.len() {
                    assert(before[i] == cands@[i]);
                }
            }
        }
        k = k + 1;
    }
    proof {
        assert forall|p: Seq<char>| #[trigger] repeated(ws, p) implies exists|i: int|
            0 <= i < cands@.len() && (#[trigger] cands@[i]).phrase@ == p by {
            let j = choose|j: int| 0 <= j < phrases@.len() && #[trigger] phrases@[j]@ == p;
            assert(counts@[j] > 1);
        }
    }
    cands
}

/// Whether another candidate makes candidate `k` redundant.
fn is_redundant(cands: &Vec<Candidate>, k: usize, Ghost(ws): Ghost<Seq<Seq<char>>>) -> (b: bool)
    requires
        are_candidates(ws, cands@),
        k < cands@.len(),
    ensures
        b == exists|q: Seq<char>| #[trigger] covers(ws, q, cands@[k as int].phrase@),
{
    let ghost p = cands@[k as int].phrase@;
    let mut j: usize = 0;
    while j < cands.len()
        invariant
            j <= cands@.len(),
            k < cands@.len(),
            p == cands@[k as int].phrase@,
            are_candidates(ws, cands@),
            forall|i: int| 0 <= i < j ==> !covers(ws, (#[trigger] cands@[i]).phrase@, p),
        decreases cands@.len() - j,
    {
        if j != k && cands[j].count == cands[k].count && text::contains(
            &cands[j].chars,
            &cands[k].chars,
        ) {
            assert(covers(ws, cands@[j as int].phrase@, p));
            return true;
        }
        j = j + 1;
    }
    proof {
        assert forall|q: Seq<char>| !#[trigger] covers(ws, q, p) by {
            if repeated(ws, q) {
                let i = choose|i: int| 0 <= i < cands@.len() && (#[trigger] cands@[i]).phrase@ == q;
                assert(!covers(ws, cands@[i].phrase@, p));
            }
        }
    }
    false
}

/// Whether entry `a` goes before entry `b`.
fn goes_before(a: &RepeatEntry, b: &RepeatEntry) -> (r: bool)
    ensures
        r == outranks(a.phrase@, a.count as int, b.phrase@, b.count as int),
{
    if a.count != b.count {
        return a.count > b.count;
    }
    let (x, y) = (a.phrase.as_str().as_bytes().len(), b.phrase.as_str().as_bytes().len());
    if x != y {
        return x > y;
    }
    let m: usize = text::count_spaces(&text::to_chars(a.phrase.as_str()));
    let n: usize = text::count_spaces(&text::to_chars(b.phrase.as_str()));
    m > n
}

/// Puts `entry` in its place among `entries`, after those that it ties with.
fn insert_ranked(entries: &mut Vec<RepeatEntry>, entry: RepeatEntry)
    requires
        ranked(old(entries)@),
    ensures
        ranked(final(entries)@),
        exists|at: int|
            0 <= at <= old(entries)@.len() && final(entries)@ == #[trigger] old(entries)@.insert(
                at,
                entry,
            ),
{
    let mut at: usize = 0;
    while at < entries.len() && !goes_before(&entry, &entries[at])
        invariant
            at <= entries@.len(),
            entries@ == old(entries)@,
            forall|i: int|
                0 <= i < at ==> !outranks(
                    entry.phrase@,
                    entry.count as int,
                    (#[trigger] entries@[i]).phrase@,
                    entries@[i].count as int,
                ),
        decreases entries@.len() - at,
    {
        at = at + 1;
    }
    let ghost before = entries@;
    entries.insert(at, entry);
    proof {
        let now = entries@;
        assert(now == before.insert(at as int, entry));
        assert forall|i: int, j: int| 0 <= i < j < now.len() implies !outranks(
            (#[trigger] now[j]).phrase@,
            now[j].count as int,
            (#[trigger] now[i]).phrase@,
            now[i].count as int,
        ) by {
            let bi = if i < at { i } else { i - 1 };
            let bj = if j < at { j } else { j - 1 };
            if i == at {
                assert(now[j] == before[bj]);
                assert(bj == at || !outranks(
                    before[bj].phrase@,
                    before[bj].count as int,
                    before[at as int].phrase@,
                    before[at as int].count as int,
                ));
            } else if j == at {
                assert(now[i] == before[i]);
            } else {
                assert(now[i] == before[bi] && now[j] == before[bj]);
            }
        }
    }
}

/// Whether `entries` lists the reported ones among the first `k` candidates, each once.
spec fn collected(
    ws: Seq<Seq<char>>,
    cands: Seq<Candidate>,
    k: int,
    entries: Seq<RepeatEntry>,
) -> bool {
    &&& forall|i: int|
        0 <= i < entries.len() ==> reported(ws, (#[trigger] entries[i]).phrase@) && entries[i].count
            == occurrences(ws, entries[i].phrase@)
    &&& forall|i: int| 0 <= i < entries.len() ==> #[trigger] stems_from(cands, k, entries[i])
    &&& forall|i: int, j: int|
        0 <= i < j < entries.len() ==> (#[trigger] entries[i]).phrase@ != (
        #[trigger] entries[j]).phrase@
    &&& forall|j: int|
        0 <= j < k && reported(ws, cands[j].phrase@) ==> #[trigger] stands_in(entries, cands[j])
}

/// Whether the entry's phrase is one of the first `k` candidates.
spec fn stems_from(cands: Seq<Candidate>, k: int, entry: RepeatEntry) -> bool {
    exists|j: int| 0 <= j < k && (#[trigger] cands[j]).phrase@ == entry.phrase@
}

/// Whether the candidate has an entry.
spec fn stands_in(entries: Seq<RepeatEntry>, cand: Candidate) -> bool {
    exists|i: int| 0 <= i < entries.len() && (#[trigger] entries[i]).phrase@ == cand.phrase@
}

proof fn lemma_collect(
    ws: Seq<Seq<char>>,
    cands: Seq<Candidate>,
    k: int,
    before: Seq<RepeatEntry>,
    at: int,
    entry: RepeatEntry,
)
    requires
        are_candidates(ws, cands),
        0 <= k < cands.len(),
        collected(ws, cands, k, before),
        reported(ws, cands[k].phrase@),
        entry.phrase@ == cands[k].phrase@,
        entry.count == cands[k].count,
        0 <= at <= before.len(),
    ensures
        collected(ws, cands, k + 1, before.insert(at, entry)),
{
    let now = before.insert(at, entry);
    assert(now[at] == entry);
    assert forall|i: int| 0 <= i < before.len() implies before[i].phrase@ != entry.phrase@ by {
        assert(stems_from(cands, k, before[i]));
    }
    assert forall|i: int| 0 <= i < now.len() implies reported(ws, (#[trigger] now[i]).phrase@)
        && now[i].count == occurrences(ws, now[i].phrase@) && stems_from(cands, k + 1, now[i]) by {
        if i != at {
            let b = before[if i < at { i } else { i - 1 }];
            assert(now[i] == b);
            assert(stems_from(cands, k, b));
        } else {
            assert(cands[k].phrase@ == now[i].phrase@);
        }
    }
    assert forall|i: int, j: int| 0 <= i < j < now.len() implies (#[trigger] now[i]).phrase@ != (
    #[trigger] now[j]).phrase@ by {
        let bi = if i < at { i } else { i - 1 };
        let bj = if j < at { j } else { j - 1 };
        if i == at {
            assert(now[j] == before[bj]);
        } else if j == at {
            assert(now[i] == before[bi]);
        } else {
            assert(now[i] == before[bi] && now[j] == before[bj]);
        }
    }
    assert forall|j: int| 0 <= j < k + 1 && reported(
        ws,
        cands[j].phrase@,
    ) implies #[trigger] stands_in(now, cands[j]) by {
        if j == k {
            assert(now[at].phrase@ == cands[j].phrase@);
        } else {
            assert(stands_in(before, cands[j]));
            let i = choose|i: int|
                0 <= i < before.len() && (#[trigger] before[i]).phrase@ == cands[j].phrase@;
            assert(now[if i < at { i } else { i + 1 }] == before[i]);
        }
    }
}

proof fn lemma_pass_over(
    ws: Seq<Seq<char>>,
    cands: Seq<Candidate>,
    k: int,
    entries: Seq<RepeatEntry>,
)
    requires
        0 <= k < cands.len(),
        collected(ws, cands, k, entries),
        !reported(ws, cands[k].phrase@),
    ensures
        collected(ws, cands, k + 1, entries),
{
    assert forall|i: int| 0 <= i < entries.len() implies #[trigger] stems_from(
        cands,
        k + 1,
        entries[i],
    ) by {
        assert(stems_from(cands, k, entries[i]));
    }
}

/// Finds the repeated phrases of a text, given its words.
pub fn repeated_phrases(words: &Vec<String>) -> (entries: Vec<RepeatEntry>)
    requires
        plain_words(text::texts(words@)),
    ensures
        is_repeats(text::texts(words@), entries@),
{
    let ghost ws = text::texts(words@);
    let cands = candidates(words);
    let mut entries: Vec<RepeatEntry> = Vec::new();
    let mut k: usize = 0;
    while k < cands.len()
        invariant
            k <= cands@.len(),
            are_candidates(ws, cands@),
            ranked(entries@),
            collected(ws, cands@, k as int, entries@),
        decreases cands@.len() - k,
    {
        let ghost before = entries@;
        if is_redundant(&cands, k, Ghost(ws)) {
            proof {
                lemma_pass_over(ws, cands@, k as int, entries@);
            }
        } else {
            let entry = RepeatEntry { phrase: cands[k].phrase.clone(), count: cands[k].count };
            insert_ranked(&mut entries, entry);
            proof {
                let at = choose|at: int|
                    0 <= at <= before.len() && entries@ == #[trigger] before.insert(at, entry);
                lemma_collect(ws, cands@, k as int, before, at, entry);
            }
        }
        k = k + 1;
    }
    proof {
        assert forall|p: Seq<char>| #[trigger] reported(ws, p) implies exists|i: int|
            0 <= i < entries@.len() && (#[trigger] entries@[i]).phrase@ == p by {
            assert(repeated(ws, p));
            let j = choose|j: int| 0 <= j < cands@.len() && (#[trigger] cands@[j]).phrase@ == p;
            assert(stands_in(entries@, cands@[j]));
        }
    }
    entries
}

/// The characters with all but letters, numbers and apostrophes turned into spaces.
pub open spec fn cleaned(chars: Seq<char>, alphanumeric: Seq<bool>) -> Seq<char> {
    Seq::new(
        chars.len(),
        |i: int|
            if alphanumeric[i] || chars[i] == '\'' {
                chars[i]
            } else {
                ' '
            },
    )
}

/// Turns all but letters, numbers and apostrophes into spaces.
pub fn clean(chars: &Vec<char>, alphanumeric: &Vec<bool>) -> (r: Vec<char>)
    requires
        chars@.len() == alphanumeric@.len(),
    ensures
        r@ == cleaned(chars@, alphanumeric@),
{
    let mut r: Vec<char> = Vec::new();
    let mut i: usize = 0;
    while i < chars.len()
        invariant
            i <= chars@.len() == alphanumeric@.len(),
            r@ == cleaned(chars@, alphanumeric@).take(i as int),
        decreases chars@.len() - i,
    {
        if alphanumeric[i] || chars[i] == '\'' {
            r.push(chars[i]);
        } else {
            r.push(' ');
        }
        i = i + 1;
    }
    r
}

/// The words of a text that phrases are made of: lowercase, without punctuation.
pub open spec fn phrase_words(s: Seq<char>) -> Seq<Seq<char>> {
    let lower = text::lowercase(s);
    text::text_words(cleaned(lower, text::alphanumeric(lower)))
}

/// Finds the repeated phrases of a text.
pub fn text_repeats(s: &str) -> (entries: Vec<RepeatEntry>)
    ensures
        is_repeats(phrase_words(s@), entries@),
{
    let lower = text::to_chars(s.to_lowercase().as_str());
    let chars = clean(&lower, &text::mark_alphanumeric(&lower));
    let space = text::mark_whitespace(&chars);
    proof {
        text::law_words_avoid(chars@, space@, ' ');
    }
    repeated_phrases(&text::split_words(&chars, &space))
}

/// A reported phrase is a run of two to ten words of the text, and occurs more than once.
pub proof fn law_reported_phrase(ws: Seq<Seq<char>>, p: Seq<char>)
    requires
        reported(ws, p),
    ensures
        occurrences(ws, p) > 1,
        exists|i: int, len: int|
            SHORTEST <= len <= LONGEST && 0 <= i && i + len <= ws.len()
                && p == #[trigger] text::phrase_at(ws, i, len),
{
    lemma_tally_positive(phrases_up_to(ws, LONGEST as int), p);
    lemma_from_window(ws, LONGEST as int, p);
}

proof fn lemma_from_window(ws: Seq<Seq<char>>, to: int, p: Seq<char>)
    requires
        phrases_up_to(ws, to).contains(p),
    ensures
        exists|i: int, len: int|
            SHORTEST <= len <= to && 0 <= i && i + len <= ws.len() && p == #[trigger] text::phrase_at(
                ws,
                i,
                len,
            ),
    decreases to,
{
    if to >= SHORTEST {
        let all = phrases_up_to(ws, to);
        let short = phrases_up_to(ws, to - 1);
        let k = choose|k: int| 0 <= k < all.len() && all[k] == p;
        if k < short.len() {
            assert(short[k] == p);
            lemma_from_window(ws, to - 1, p);
        } else {
            let i = k - short.len();
            assert(p == windows(ws, to)[i]);
            assert(p == text::phrase_at(ws, i, to));
        }
    }
}

/// The length of the longest of the texts.
pub open spec fn longest(s: Seq<Seq<char>>) -> nat
    decreases s.len(),
{
    if s.len() == 0 {
        0
    } else if longest(s.drop_last()) > s.last().len() {
        longest(s.drop_last())
    } else {
        s.last().len()
    }
}

proof fn lemma_longest(s: Seq<Seq<char>>, p: Seq<char>)
    requires
        s.contains(p),
    ensures
        p.len() <= longest(s),
    decreases s.len(),
{
    let k = choose|k: int| 0 <= k < s.len() && s[k] == p;
    if k < s.len() - 1 {
        assert(s.drop_last()[k] == p);
        lemma_longest(s.drop_last(), p);
    }
}

proof fn lemma_text_in_itself(p: Seq<char>)
    ensures
        text::contains_text(p, p),
{
    assert(p.subrange(0, p.len() as int) =~= p);
    assert(text::stands_at(p, p, 0));
}

/// A phrase that makes another redundant is longer, though not longer than the longest.
proof fn lemma_covering_is_longer(ws: Seq<Seq<char>>, q: Seq<char>, p: Seq<char>)
    requires
        covers(ws, q, p),
    ensures
        p.len() < q.len() <= longest(phrases_up_to(ws, LONGEST as int)),
{
    let all = phrases_up_to(ws, LONGEST as int);
    let k = choose|k: int| #[trigger] text::stands_at(q, p, k);
    if q.len() == p.len() {
        assert(q.subrange(k, k + p.len()) =~= q);
    }
    lemma_tally_positive(all, q);
    lemma_longest(all, q);
}

/// Whether the reported phrase `q` stands for `p`: it contains `p` and occurs as often.
pub open spec fn stands_for(ws: Seq<Seq<char>>, q: Seq<char>, p: Seq<char>) -> bool {
    reported(ws, q) && text::contains_text(q, p) && occurrences(ws, q) == occurrences(ws, p)
}

/// Leaving out redundant phrases loses nothing: every repeated phrase stands inside a reported one
/// that occurs as often.
pub proof fn law_repeats_are_covered(ws: Seq<Seq<char>>, p: Seq<char>)
    requires
        repeated(ws, p),
    ensures
        exists|q: Seq<char>| #[trigger] stands_for(ws, q, p),
    decreases longest(phrases_up_to(ws, LONGEST as int)) - p.len(),
{
    if reported(ws, p) {
        lemma_text_in_itself(p);
        assert(stands_for(ws, p, p));
    } else {
        let q = choose|q: Seq<char>| #[trigger] covers(ws, q, p);
        lemma_covering_is_longer(ws, q, p);
        law_repeats_are_covered(ws, q);
        let r = choose|r: Seq<char>| #[trigger] stands_for(ws, r, q);
        text::law_contains_transitive(r, q, p);
        assert(stands_for(ws, r, p));
    }
}

/// The places, as first word and length, where the phrase `p` stands: those of lengths up to `len`,
/// and of length `len + 1` those from the first `k` words on.
spec fn places(ws: Seq<Seq<char>>, p: Seq<char>, len: int, k: int) -> Set<(int, int)> {
    Set::new(
        |x: (int, int)|
            (2 <= x.1 <= len || (x.1 == len + 1 && x.0 < k)) && 0 <= x.0 && x.0 + x.1 <= ws.len()
                && text::joined(ws.subrange(x.0, x.0 + x.1)) == p,
    )
}

proof fn lemma_places(ws: Seq<Seq<char>>, p: Seq<char>, len: int, k: int)
    requires
        1 <= len,
        0 <= k <= windows(ws, len + 1).len(),
    ensures
        places(ws, p, len, k).finite(),
        places(ws, p, len, k).len() == tally(
            phrases_up_to(ws, len) + windows(ws, len + 1).take(k),
            p,
        ),
    decreases len, k,
{
    let now = places(ws, p, len, k);
    let w = windows(ws, len + 1);
    let seen = phrases_up_to(ws, len) + w.take(k);
    if k > 0 {
        lemma_places(ws, p, len, k - 1);
        let before = places(ws, p, len, k - 1);
        let x = (k - 1, len + 1);
        assert(seen.drop_last() =~= phrases_up_to(ws, len) + w.take(k - 1));
        assert(seen.last() == w[k - 1]);
        if w[k - 1] == p {
            assert(now =~= before.insert(x));
            assert(!before.contains(x));
        } else {
            assert(now =~= before);
        }
    } else if len > 1 {
        let all = windows(ws, len).len() as int;
        lemma_places(ws, p, len - 1, all);
        assert(now =~= places(ws, p, len - 1, all));
        assert(windows(ws, len).take(all) =~= windows(ws, len));
        assert(seen =~= phrases_up_to(ws, len - 1) + windows(ws, len));
    } else {
        assert(now =~= Set::<(int, int)>::empty());
        assert(seen =~= Seq::<Seq<char>>::empty());
    }
}

/// A phrase is counted once for each place where it stands in the text: for each first word and
/// each length of two to ten words that make it, however many places there are.
pub proof fn law_occurrences_are_places(ws: Seq<Seq<char>>, p: Seq<char>)
    ensures
        ({
            let found = Set::new(
                |x: (int, int)|
                    2 <= x.1 <= 10 && 0 <= x.0 && x.0 + x.1 <= ws.len() && text::joined(
                        ws.subrange(x.0, x.0 + x.1),
                    ) == p,
            );
            found.finite() && occurrences(ws, p) == found.len()
        }),
{
    lemma_places(ws, p, 10, 0);
    let found = Set::new(
        |x: (int, int)|
            2 <= x.1 <= 10 && 0 <= x.0 && x.0 + x.1 <= ws.len() && text::joined(
                ws.subrange(x.0, x.0 + x.1),
            ) == p,
    );
    assert(found =~= places(ws, p, 10, 0));
    assert(phrases_up_to(ws, 10) + windows(ws, 11).take(0) =~= phrases_up_to(ws, 10));
}

/// Nothing that a text repeats is lost: a phrase that occurs twice or more, however often, is listed
/// or stands inside a listed phrase with the same count.
pub proof fn law_every_repeat_is_listed(
    ws: Seq<Seq<char>>,
    entries: Seq<RepeatEntry>,
    p: Seq<char>,
)
    requires
        is_repeats(ws, entries),
        occurrences(ws, p) >= 2,
    ensures
        exists|i: int|
            0 <= i < entries.len() && text::contains_text((#[trigger] entries[i]).phrase@, p)
                && entries[i].count == occurrences(ws, p),
{
    law_repeats_are_covered(ws, p);
    let q = choose|q: Seq<char>| #[trigger] stands_for(ws, q, p);
    let i = choose|i: int| 0 <= i < entries.len() && (#[trigger] entries[i]).phrase@ == q;
    assert(text::contains_text(entries[i].phrase@, p));
}

/// A phrase that occurs twice or more, and that no other phrase with the same count contains, is
/// itself listed, with its count.
pub proof fn law_longest_repeat_is_listed(
    ws: Seq<Seq<char>>,
    entries: Seq<RepeatEntry>,
    p: Seq<char>,
)
    requires
        is_repeats(ws, entries),
        occurrences(ws, p) >= 2,
        forall|q: Seq<char>|
            #![trigger occurrences(ws, q)]
            q != p && text::contains_text(q, p) ==> occurrences(ws, q) != occurrences(ws, p),
    ensures
        exists|i: int|
            0 <= i < entries.len() && (#[trigger] entries[i]).phrase@ == p && entries[i].count
                == occurrences(ws, p),
{
    assert forall|q: Seq<char>| !#[trigger] covers(ws, q, p) by {
        assert(occurrences(ws, q) == occurrences(ws, q));
    }
    assert(reported(ws, p));
}

/// What is listed is repeated: each entry has the count of its phrase, two or more; no phrase is
/// listed twice, and none that another phrase with the same count contains.
pub proof fn law_listed_repeats(ws: Seq<Seq<char>>, entries: Seq<RepeatEntry>)
    requires
        is_repeats(ws, entries),
    ensures
        forall|i: int|
            0 <= i < entries.len() ==> (#[trigger] entries[i]).count >= 2 && entries[i].count
                == occurrences(ws, entries[i].phrase@),
        forall|i: int, j: int|
            0 <= i < j < entries.len() ==> (#[trigger] entries[i]).phrase@ != (
            #[trigger] entries[j]).phrase@,
        forall|i: int, q: Seq<char>|
            #![trigger entries[i], occurrences(ws, q)]
            0 <= i < entries.len() && q != entries[i].phrase@ && text::contains_text(
                q,
                entries[i].phrase@,
            ) ==> occurrences(ws, q) != entries[i].count,
{
    assert forall|i: int, q: Seq<char>|
        #![trigger entries[i], occurrences(ws, q)]
        0 <= i < entries.len() && q != entries[i].phrase@ && text::contains_text(
            q,
            entries[i].phrase@,
        ) implies occurrences(ws, q) != entries[i].count by {
        assert(reported(ws, entries[i].phrase@));
        assert(!covers(ws, q, entries[i].phrase@));
    }
}

/// The list is in order: the more frequent phrase first; of phrases with one count the longer in
/// bytes first; and of those with one length the phrase of more words first.
pub proof fn law_repeats_in_order(
    ws: Seq<Seq<char>>,
    entries: Seq<RepeatEntry>,
    i: int,
    first: Seq<Seq<char>>,
    j: int,
    second: Seq<Seq<char>>,
)
    requires
        is_repeats(ws, entries),
        0 <= i < j < entries.len(),
        first.len() > 0,
        second.len() > 0,
        forall|k: int| 0 <= k < first.len() ==> !#[trigger] first[k].contains(' '),
        forall|k: int| 0 <= k < second.len() ==> !#[trigger] second[k].contains(' '),
        entries[i].phrase@ == text::joined(first),
        entries[j].phrase@ == text::joined(second),
    ensures
        entries[i].count >= entries[j].count,
        entries[i].count == entries[j].count ==> encode_utf8(entries[i].phrase@).len()
            >= encode_utf8(entries[j].phrase@).len(),
        entries[i].count == entries[j].count && encode_utf8(entries[i].phrase@).len()
            == encode_utf8(entries[j].phrase@).len() ==> first.len() >= second.len(),
{
    text::law_spaces_of_joined(first);
    text::law_spaces_of_joined(second);
    assert(!outranks(
        entries[j].phrase@,
        entries[j].count as int,
        entries[i].phrase@,
        entries[i].count as int,
    ));
}

/// The words of phrases are those of the text in lowercase with every character that is neither a
/// letter, a number nor an apostrophe turned into a space, and every other character kept.
pub proof fn law_phrase_words(s: Seq<char>, kept: Seq<char>)
    requires
        kept.len() == text::lowercase(s).len(),
        forall|i: int|
            0 <= i < kept.len() ==> #[trigger] kept[i] == if text::char_is_alphanumeric(
                text::lowercase(s)[i],
            ) || text::lowercase(s)[i] == '\'' {
                text::lowercase(s)[i]
            } else {
                ' '
            },
    ensures
        phrase_words(s) == text::text_words(kept),
{
    let lower = text::lowercase(s);
    assert(cleaned(lower, text::alphanumeric(lower)) =~= kept);
}

/// Cleaning keeps the marked characters and the apostrophes, and turns all others into spaces, one
/// for one.
pub proof fn law_cleaned(chars: Seq<char>, alphanumeric: Seq<bool>)
    requires
        chars.len() == alphanumeric.len(),
    ensures
        cleaned(chars, alphanumeric).len() == chars.len(),
        forall|i: int|
            0 <= i < chars.len() ==> #[trigger] cleaned(chars, alphanumeric)[i] == if alphanumeric[i]
                || chars[i] == '\'' {
                chars[i]
            } else {
                ' '
            },
{
}

} // verus!

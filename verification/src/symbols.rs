//! Words that mix alphabets or hold unusual symbols.
use crate::analysis::AnomalyEntry;
use crate::html;
use crate::text;
use vstd::prelude::*;

verus! {

/// A letter of the Russian alphabet.
pub open spec fn is_cyrillic(c: char) -> bool {
    'а' <= c <= 'я' || 'А' <= c <= 'Я' || c == 'ё' || c == 'Ё'
}

/// A letter of the English alphabet.
pub open spec fn is_latin(c: char) -> bool {
    'a' <= c <= 'z' || 'A' <= c <= 'Z'
}

/// A punctuation mark of ordinary sentences.
pub open spec fn is_sentence_mark(c: char) -> bool {
    c == '.' || c == ',' || c == '!' || c == '?' || c == ':' || c == ';' || c == '(' || c == ')' || c
        == '-'
}

/// A mark that makes no word suspicious: one of a sentence, or a quote.
pub open spec fn is_plain_mark(c: char) -> bool {
    is_sentence_mark(c) || c == '\'' || c == '"'
}

/// Whether the word holds a Cyrillic letter.
pub open spec fn has_cyrillic(word: Seq<char>) -> bool {
    exists|i: int| 0 <= i < word.len() && is_cyrillic(#[trigger] word[i])
}

/// Whether the word holds a Latin letter.
pub open spec fn has_latin(word: Seq<char>) -> bool {
    exists|i: int| 0 <= i < word.len() && is_latin(#[trigger] word[i])
}

/// Whether the word holds something that is neither a letter, a number nor a plain mark.
pub open spec fn has_special(word: Seq<char>, alphanumeric: Seq<bool>) -> bool {
    exists|i: int|
        0 <= i < word.len() && !alphanumeric[i] && !is_plain_mark(#[trigger] word[i])
}

/// Whether the word is worth a closer look: both alphabets, or something special.
pub open spec fn is_suspicious(word: Seq<char>, alphanumeric: Seq<bool>) -> bool {
    has_cyrillic(word) && has_latin(word) || has_special(word, alphanumeric)
}

/// Whether character `i` is an anomaly: a Latin letter in a word with Cyrillic ones; in other words
/// all but letters, numbers and sentence marks.
pub open spec fn is_anomaly(word: Seq<char>, alphanumeric: Seq<bool>, i: int) -> bool {
    if has_cyrillic(word) {
        is_latin(word[i])
    } else {
        !alphanumeric[i] && !is_sentence_mark(word[i])
    }
}

/// How many of the first `n` characters are anomalies.
pub open spec fn anomalies_before(word: Seq<char>, alphanumeric: Seq<bool>, n: int) -> nat
    decreases n,
{
    if n <= 0 {
        0
    } else {
        anomalies_before(word, alphanumeric, n - 1) + if is_anomaly(word, alphanumeric, n - 1) {
            1nat
        } else {
            0nat
        }
    }
}

/// Character `i` in HTML, in a `span` where it is an anomaly.
pub open spec fn shown_char(word: Seq<char>, alphanumeric: Seq<bool>, i: int) -> Seq<char> {
    if is_anomaly(word, alphanumeric, i) {
        "<span>"@ + html::escaped_char(word[i]) + "</span>"@
    } else {
        html::escaped_char(word[i])
    }
}

/// The first `n` characters in HTML.
pub open spec fn shown_before(word: Seq<char>, alphanumeric: Seq<bool>, n: int) -> Seq<char>
    decreases n,
{
    if n <= 0 {
        seq![]
    } else {
        shown_before(word, alphanumeric, n - 1) + shown_char(word, alphanumeric, n - 1)
    }
}

/// What is reported of a word: the word, the word in HTML and its number of anomalies. Nothing is
/// reported of a word that is not suspicious, or has no anomaly.
pub open spec fn anomaly(word: Seq<char>, alphanumeric: Seq<bool>) -> Option<
    (Seq<char>, Seq<char>, nat),
> {
    let n = word.len() as int;
    if is_suspicious(word, alphanumeric) && anomalies_before(word, alphanumeric, n) > 0 {
        Some(
            (
                word,
                shown_before(word, alphanumeric, n),
                anomalies_before(word, alphanumeric, n),
            ),
        )
    } else {
        None
    }
}

/// The content of an entry.
pub open spec fn entry_content(e: AnomalyEntry) -> (Seq<char>, Seq<char>, nat) {
    (e.word@, e.highlighted@, e.count as nat)
}

/// The contents of the entries.
pub open spec fn contents(entries: Seq<AnomalyEntry>) -> Seq<(Seq<char>, Seq<char>, nat)> {
    Seq::new(entries.len(), |i: int| entry_content(entries[i]))
}

/// What is reported of the words of a text, in order.
pub open spec fn text_anomalies(s: Seq<char>) -> Seq<(Seq<char>, Seq<char>, nat)> {
    text::text_words(s).filter_map(|w: Seq<char>| anomaly(w, text::alphanumeric(w)))
}

fn cyrillic(c: char) -> (b: bool)
    ensures
        b == is_cyrillic(c),
{
    ('а' <= c && c <= 'я') || ('А' <= c && c <= 'Я') || c == 'ё' || c == 'Ё'
}

fn latin(c: char) -> (b: bool)
    ensures
        b == is_latin(c),
{
    ('a' <= c && c <= 'z') || ('A' <= c && c <= 'Z')
}

fn sentence_mark(c: char) -> (b: bool)
    ensures
        b == is_sentence_mark(c),
{
    c == '.' || c == ',' || c == '!' || c == '?' || c == ':' || c == ';' || c == '(' || c == ')' || c
        == '-'
}

fn any_cyrillic(word: &Vec<char>) -> (b: bool)
    ensures
        b == has_cyrillic(word@),
{
    let mut i: usize = 0;
    while i < word.len()
        invariant
            i <= word@.len(),
            forall|k: int| 0 <= k < i ==> !is_cyrillic(#[trigger] word@[k]),
        decreases word@.len() - i,
    {
        if cyrillic(word[i]) {
            return true;
        }
        i = i + 1;
    }
    false
}

fn any_latin(word: &Vec<char>) -> (b: bool)
    ensures
        b == has_latin(word@),
{
    let mut i: usize = 0;
    while i < word.len()
        invariant
            i <= word@.len(),
            forall|k: int| 0 <= k < i ==> !is_latin(#[trigger] word@[k]),
        decreases word@.len() - i,
    {
        if latin(word[i]) {
            return true;
        }
        i = i + 1;
    }
    false
}

fn any_special(word: &Vec<char>, alphanumeric: &Vec<bool>) -> (b: bool)
    requires
        word@.len() == alphanumeric@.len(),
    ensures
        b == has_special(word@, alphanumeric@),
{
    let mut i: usize = 0;
    while i < word.len()
        invariant
            i <= word@.len() == alphanumeric@.len(),
            forall|k: int|
                0 <= k < i ==> alphanumeric@[k] || is_plain_mark(#[trigger] word@[k]),
        decreases word@.len() - i,
    {
        let c = word[i];
        if !alphanumeric[i] && !sentence_mark(c) && c != '\'' && c != '"' {
            return true;
        }
        i = i + 1;
    }
    false
}

/// Looks at one word, whose letters and numbers are marked.
pub fn scan_word(word: &Vec<char>, alphanumeric: &Vec<bool>) -> (r: Option<AnomalyEntry>)
    requires
        word@.len() == alphanumeric@.len(),
    ensures
        match r {
            Some(e) => anomaly(word@, alphanumeric@) == Some(entry_content(e)),
            None => anomaly(word@, alphanumeric@) is None,
        },
{
    let mixed = any_cyrillic(word);
    if !((mixed && any_latin(word)) || any_special(word, alphanumeric)) {
        return None;
    }
    let mut count: usize = 0;
    let mut highlighted = String::new();
    let mut i: usize = 0;
    while i < word.len()
        invariant
            i <= word@.len() == alphanumeric@.len(),
            mixed == has_cyrillic(word@),
            count <= i,
            count == anomalies_before(word@, alphanumeric@, i as int),
            highlighted@ == shown_before(word@, alphanumeric@, i as int),
        decreases word@.len() - i,
    {
        let c = word[i];
        let odd = if mixed {
            latin(c)
        } else {
            !alphanumeric[i] && !sentence_mark(c)
        };
        let ghost before = highlighted@;
        if odd {
            count = count + 1;
            highlighted.append("<span>");
            html::push_escaped(&mut highlighted, c);
            highlighted.append("</span>");
        } else {
            html::push_escaped(&mut highlighted, c);
        }
        assert(highlighted@ =~= before + shown_char(word@, alphanumeric@, i as int));
        i = i + 1;
    }
    if count > 0 {
        Some(AnomalyEntry { word: text::from_chars(word), highlighted, count })
    } else {
        None
    }
}

/// Looks at each word of a text.
pub fn scan_text(s: &str) -> (entries: Vec<AnomalyEntry>)
    ensures
        contents(entries@) == text_anomalies(s@),
{
    let words = text::split_whitespace(s);
    let ghost ws = text::texts(words@);
    let ghost look = |w: Seq<char>| anomaly(w, text::alphanumeric(w));
    let mut entries: Vec<AnomalyEntry> = Vec::new();
    let mut i: usize = 0;
    while i < words.len()
        invariant
            i <= words@.len(),
            ws == text::texts(words@),
            look == |w: Seq<char>| anomaly(w, text::alphanumeric(w)),
            contents(entries@) == ws.take(i as int).filter_map(look),
        decreases words@.len() - i,
    {
        let chars = text::to_chars(words[i].as_str());
        let marks = text::mark_alphanumeric(&chars);
        let ghost before = contents(entries@);
        assert(ws.take(i + 1).drop_last() == ws.take(i as int));
        assert(ws.take(i + 1).last() == chars@);
        match scan_word(&chars, &marks) {
            Some(e) => {
                entries.push(e);
                assert(contents(entries@) =~= before.push(entry_content(e)));
            },
            None => {},
        }
        assert(contents(entries@) =~= ws.take(i + 1).filter_map(look));
        i = i + 1;
    }
    assert(ws.take(i as int) == ws);
    entries
}

/// A word of one alphabet, with numbers and plain marks at most, is not reported.
pub proof fn law_ordinary_word(word: Seq<char>, alphanumeric: Seq<bool>)
    requires
        word.len() == alphanumeric.len(),
        !has_cyrillic(word) || !has_latin(word),
        forall|i: int| 0 <= i < word.len() ==> alphanumeric[i] || is_plain_mark(#[trigger] word[i]),
    ensures
        anomaly(word, alphanumeric) is None,
{
}

/// A word with letters of both alphabets is always reported.
pub proof fn law_mixed_word(word: Seq<char>, alphanumeric: Seq<bool>)
    requires
        word.len() == alphanumeric.len(),
        has_cyrillic(word),
        has_latin(word),
    ensures
        anomaly(word, alphanumeric) is Some,
{
    let i = choose|i: int| 0 <= i < word.len() && is_latin(#[trigger] word[i]);
    assert(is_anomaly(word, alphanumeric, i));
    lemma_counted(word, alphanumeric, i, word.len() as int);
}

proof fn lemma_counted(word: Seq<char>, alphanumeric: Seq<bool>, i: int, n: int)
    requires
        0 <= i < n,
        is_anomaly(word, alphanumeric, i),
    ensures
        anomalies_before(word, alphanumeric, n) > 0,
    decreases n,
{
    if i < n - 1 {
        lemma_counted(word, alphanumeric, i, n - 1);
    }
}

/// `s` without its tags, and whether it ends inside one.
pub open spec fn untagged(s: Seq<char>) -> (Seq<char>, bool)
    decreases s.len(),
{
    if s.len() == 0 {
        (seq![], false)
    } else {
        let (out, inside) = untagged(s.drop_last());
        if inside {
            (out, s.last() != '>')
        } else if s.last() == '<' {
            (out, true)
        } else {
            (out.push(s.last()), false)
        }
    }
}

proof fn lemma_untagged_push(s: Seq<char>, c: char)
    ensures
        untagged(s.push(c)) == {
            let (out, inside) = untagged(s);
            if inside {
                (out, c != '>')
            } else if c == '<' {
                (out, true)
            } else {
                (out.push(c), false)
            }
        },
{
    assert(s.push(c).drop_last() == s);
}

proof fn lemma_untagged_plain(s: Seq<char>, t: Seq<char>)
    requires
        !untagged(s).1,
        forall|i: int| 0 <= i < t.len() ==> #[trigger] t[i] != '<',
    ensures
        untagged(s + t) == (untagged(s).0 + t, false),
    decreases t.len(),
{
    if t.len() == 0 {
        assert(s + t == s);
        assert(untagged(s).0 + t == untagged(s).0);
    } else {
        lemma_untagged_plain(s, t.drop_last());
        lemma_untagged_push(s + t.drop_last(), t.last());
        assert((s + t.drop_last()).push(t.last()) =~= s + t);
        assert((untagged(s).0 + t.drop_last()).push(t.last()) =~= untagged(s).0 + t);
    }
}

proof fn lemma_untagged_open(s: Seq<char>)
    requires
        !untagged(s).1,
    ensures
        untagged(s + "<span>"@) == untagged(s),
{
    reveal_strlit("<span>");
    let a = s.push('<');
    let b = a.push('s');
    let c = b.push('p');
    let d = c.push('a');
    let e = d.push('n');
    lemma_untagged_push(s, '<');
    lemma_untagged_push(a, 's');
    lemma_untagged_push(b, 'p');
    lemma_untagged_push(c, 'a');
    lemma_untagged_push(d, 'n');
    lemma_untagged_push(e, '>');
    assert(e.push('>') =~= s + "<span>"@);
}

proof fn lemma_untagged_close(s: Seq<char>)
    requires
        !untagged(s).1,
    ensures
        untagged(s + "</span>"@) == untagged(s),
{
    reveal_strlit("</span>");
    let a = s.push('<');
    let b = a.push('/');
    let c = b.push('s');
    let d = c.push('p');
    let e = d.push('a');
    let f = e.push('n');
    lemma_untagged_push(s, '<');
    lemma_untagged_push(a, '/');
    lemma_untagged_push(b, 's');
    lemma_untagged_push(c, 'p');
    lemma_untagged_push(d, 'a');
    lemma_untagged_push(e, 'n');
    lemma_untagged_push(f, '>');
    assert(f.push('>') =~= s + "</span>"@);
}

/// Highlighting adds tags and nothing else: without them, the escaped word is left.
pub proof fn law_highlight_shows_word(word: Seq<char>, alphanumeric: Seq<bool>)
    ensures
        untagged(shown_before(word, alphanumeric, word.len() as int)) == (
            html::escaped(word),
            false,
        ),
{
    lemma_shown(word, alphanumeric, word.len() as int);
    assert(word.take(word.len() as int) == word);
}

proof fn lemma_shown(word: Seq<char>, alphanumeric: Seq<bool>, n: int)
    requires
        0 <= n <= word.len(),
    ensures
        untagged(shown_before(word, alphanumeric, n)) == (html::escaped(word.take(n)), false),
    decreases n,
{
    if n > 0 {
        let before = shown_before(word, alphanumeric, n - 1);
        let mark = html::escaped_char(word[n - 1]);
        lemma_shown(word, alphanumeric, n - 1);
        assert(word.take(n).drop_last() == word.take(n - 1));
        html::law_escaped_has_no_markup(seq![word[n - 1]]);
        assert(html::escaped(seq![word[n - 1]]) =~= mark) by {
            assert(seq![word[n - 1]].drop_last() == Seq::<char>::empty());
            reveal_with_fuel(html::escaped, 2);
        }
        assert forall|i: int| 0 <= i < mark.len() implies #[trigger] mark[i] != '<' by {
            assert(!html::is_markup(html::escaped(seq![word[n - 1]])[i]));
        }
        if is_anomaly(word, alphanumeric, n - 1) {
            let opened = before + "<span>"@;
            lemma_untagged_open(before);
            lemma_untagged_plain(opened, mark);
            lemma_untagged_close(opened + mark);
            assert(opened + mark + "</span>"@ =~= shown_before(word, alphanumeric, n));
        } else {
            lemma_untagged_plain(before, mark);
        }
    } else {
        assert(word.take(n) == Seq::<char>::empty());
    }
}

proof fn lemma_shown_is_flat(word: Seq<char>, alphanumeric: Seq<bool>, n: int, parts: Seq<Seq<char>>)
    requires
        0 <= n <= word.len(),
        parts.len() == n,
        forall|i: int|
            0 <= i < n ==> #[trigger] parts[i] == if is_anomaly(word, alphanumeric, i) {
                "<span>"@ + html::escaped(seq![word[i]]) + "</span>"@
            } else {
                html::escaped(seq![word[i]])
            },
    ensures
        shown_before(word, alphanumeric, n) == parts.flatten(),
    decreases n,
{
    if n > 0 {
        lemma_shown_is_flat(word, alphanumeric, n - 1, parts.drop_last());
        html::law_escaped_char(word[n - 1]);
        assert(parts[n - 1] == shown_char(word, alphanumeric, n - 1));
        parts.lemma_flatten_and_flatten_alt_are_equivalent();
        parts.drop_last().lemma_flatten_and_flatten_alt_are_equivalent();
    }
}

proof fn lemma_count_is_filter(
    word: Seq<char>,
    alphanumeric: Seq<bool>,
    n: int,
    odd: spec_fn((char, bool)) -> bool,
)
    requires
        0 <= n <= word.len(),
        word.len() == alphanumeric.len(),
        forall|i: int|
            0 <= i < n ==> #[trigger] is_anomaly(word, alphanumeric, i) == odd(
                (word[i], alphanumeric[i]),
            ),
    ensures
        anomalies_before(word, alphanumeric, n) == word.take(n).zip_with(
            alphanumeric.take(n),
        ).filter(odd).len(),
    decreases n,
{
    reveal(Seq::filter);
    if n > 0 {
        lemma_count_is_filter(word, alphanumeric, n - 1, odd);
        let all = word.take(n).zip_with(alphanumeric.take(n));
        assert(all.drop_last() =~= word.take(n - 1).zip_with(alphanumeric.take(n - 1)));
        assert(all.last() == (word[n - 1], alphanumeric[n - 1]));
        assert(is_anomaly(word, alphanumeric, n - 1) == odd((word[n - 1], alphanumeric[n - 1])));
    }
}

proof fn lemma_latin_count(word: Seq<char>, alphanumeric: Seq<bool>, n: int)
    requires
        0 <= n <= word.len(),
        has_cyrillic(word),
    ensures
        anomalies_before(word, alphanumeric, n) == word.take(n).filter(
            |c: char| 0x41 <= c as int <= 0x5a || 0x61 <= c as int <= 0x7a,
        ).len(),
    decreases n,
{
    reveal(Seq::filter);
    if n > 0 {
        lemma_latin_count(word, alphanumeric, n - 1);
        assert(word.take(n).drop_last() =~= word.take(n - 1));
    }
}

/// A word that holds one of the 66 letters of the Russian alphabet, capital or small, and one of the
/// 52 of the English alphabet is reported. Its anomalies are the English letters, all of them: they
/// are counted, and in HTML exactly they stand in spans.
pub proof fn law_mixed_word_is_highlighted(word: Seq<char>, alphanumeric: Seq<bool>)
    requires
        word.len() == alphanumeric.len(),
        exists|i: int|
            0 <= i < word.len() && (0x410 <= #[trigger] word[i] as int <= 0x44f || word[i] as int
                == 0x401 || word[i] as int == 0x451),
        exists|i: int|
            0 <= i < word.len() && (0x41 <= #[trigger] word[i] as int <= 0x5a || 0x61
                <= word[i] as int <= 0x7a),
    ensures
        anomaly(word, alphanumeric) == Some(
            (
                word,
                Seq::new(
                    word.len(),
                    |i: int|
                        if 0x41 <= word[i] as int <= 0x5a || 0x61 <= word[i] as int <= 0x7a {
                            "<span>"@ + html::escaped(seq![word[i]]) + "</span>"@
                        } else {
                            html::escaped(seq![word[i]])
                        },
                ).flatten(),
                word.filter(|c: char| 0x41 <= c as int <= 0x5a || 0x61 <= c as int <= 0x7a).len(),
            ),
        ),
{
    let i = choose|i: int|
        0 <= i < word.len() && (0x410 <= #[trigger] word[i] as int <= 0x44f || word[i] as int
            == 0x401 || word[i] as int == 0x451);
    assert(is_cyrillic(word[i]));
    let j = choose|i: int|
        0 <= i < word.len() && (0x41 <= #[trigger] word[i] as int <= 0x5a || 0x61 <= word[i] as int
            <= 0x7a);
    assert(is_latin(word[j]));
    law_mixed_word(word, alphanumeric);
    let n = word.len() as int;
    let parts = Seq::new(
        word.len(),
        |i: int|
            if 0x41 <= word[i] as int <= 0x5a || 0x61 <= word[i] as int <= 0x7a {
                "<span>"@ + html::escaped(seq![word[i]]) + "</span>"@
            } else {
                html::escaped(seq![word[i]])
            },
    );
    lemma_shown_is_flat(word, alphanumeric, n, parts);
    lemma_latin_count(word, alphanumeric, n);
    assert(word.take(n) =~= word);
}

/// A word with letters of the Russian alphabet and none of the English is not reported, whatever
/// else it holds.
pub proof fn law_cyrillic_word(word: Seq<char>, alphanumeric: Seq<bool>)
    requires
        word.len() == alphanumeric.len(),
        exists|i: int|
            0 <= i < word.len() && (0x410 <= #[trigger] word[i] as int <= 0x44f || word[i] as int
                == 0x401 || word[i] as int == 0x451),
        forall|i: int|
            0 <= i < word.len() ==> !(0x41 <= #[trigger] word[i] as int <= 0x5a) && !(0x61
                <= word[i] as int <= 0x7a),
    ensures
        anomaly(word, alphanumeric) is None,
{
    let i = choose|i: int|
        0 <= i < word.len() && (0x410 <= #[trigger] word[i] as int <= 0x44f || word[i] as int
            == 0x401 || word[i] as int == 0x451);
    assert(is_cyrillic(word[i]));
    let n = word.len() as int;
    lemma_latin_count(word, alphanumeric, n);
    assert(word.take(n) =~= word);
    let latin_letter = |c: char| 0x41 <= c as int <= 0x5a || 0x61 <= c as int <= 0x7a;
    lemma_nothing_left(word, latin_letter);
}

proof fn lemma_nothing_left(s: Seq<char>, keep: spec_fn(char) -> bool)
    requires
        forall|i: int| 0 <= i < s.len() ==> !keep(#[trigger] s[i]),
    ensures
        s.filter(keep).len() == 0,
    decreases s.len(),
{
    reveal(Seq::filter);
    if s.len() > 0 {
        assert(!keep(s[s.len() - 1]));
        assert forall|i: int| 0 <= i < s.drop_last().len() implies !keep(
            #[trigger] s.drop_last()[i],
        ) by {
            assert(!keep(s[i]));
        }
        lemma_nothing_left(s.drop_last(), keep);
    }
}

/// A word without letters of the Russian alphabet is reported exactly where it holds something that
/// is no letter, no number and none of the eleven plain marks. All that is no letter, no number and
/// none of the nine sentence marks is then counted, and in HTML exactly that stands in spans.
pub proof fn law_special_word_is_highlighted(word: Seq<char>, alphanumeric: Seq<bool>)
    requires
        word.len() == alphanumeric.len(),
        forall|i: int|
            0 <= i < word.len() ==> !(0x410 <= #[trigger] word[i] as int <= 0x44f) && word[i] as int
                != 0x401 && word[i] as int != 0x451,
    ensures
        anomaly(word, alphanumeric) == if exists|i: int|
            0 <= i < word.len() && !alphanumeric[i] && !seq![
                '.',
                ',',
                '!',
                '?',
                ':',
                ';',
                '(',
                ')',
                '-',
                '\'',
                '"',
            ].contains(#[trigger] word[i]) {
            Some(
                (
                    word,
                    Seq::new(
                        word.len(),
                        |i: int|
                            if !alphanumeric[i] && !seq![
                                '.',
                                ',',
                                '!',
                                '?',
                                ':',
                                ';',
                                '(',
                                ')',
                                '-',
                            ].contains(word[i]) {
                                "<span>"@ + html::escaped(seq![word[i]]) + "</span>"@
                            } else {
                                html::escaped(seq![word[i]])
                            },
                    ).flatten(),
                    word.zip_with(alphanumeric).filter(
                        |x: (char, bool)|
                            !x.1 && !seq!['.', ',', '!', '?', ':', ';', '(', ')', '-'].contains(
                                x.0,
                            ),
                    ).len(),
                ),
            )
        } else {
            None
        },
{
    assert forall|i: int| 0 <= i < word.len() implies !is_cyrillic(#[trigger] word[i]) by {}
    assert(!has_cyrillic(word));
    let n = word.len() as int;
    let odd = |x: (char, bool)|
        !x.1 && !seq!['.', ',', '!', '?', ':', ';', '(', ')', '-'].contains(x.0);
    let parts = Seq::new(
        word.len(),
        |i: int|
            if !alphanumeric[i] && !seq!['.', ',', '!', '?', ':', ';', '(', ')', '-'].contains(
                word[i],
            ) {
                "<span>"@ + html::escaped(seq![word[i]]) + "</span>"@
            } else {
                html::escaped(seq![word[i]])
            },
    );
    assert forall|i: int| 0 <= i < n implies #[trigger] is_anomaly(word, alphanumeric, i) == odd(
        (word[i], alphanumeric[i]),
    ) by {
        lemma_marks(word[i]);
    }
    assert forall|i: int| 0 <= i < n implies #[trigger] parts[i] == if is_anomaly(
        word,
        alphanumeric,
        i,
    ) {
        "<span>"@ + html::escaped(seq![word[i]]) + "</span>"@
    } else {
        html::escaped(seq![word[i]])
    } by {
        lemma_marks(word[i]);
    }
    lemma_shown_is_flat(word, alphanumeric, n, parts);
    lemma_count_is_filter(word, alphanumeric, n, odd);
    assert(word.take(n) =~= word);
    assert(alphanumeric.take(n) =~= alphanumeric);
    assert forall|i: int| 0 <= i < n implies is_plain_mark(#[trigger] word[i]) == seq![
        '.',
        ',',
        '!',
        '?',
        ':',
        ';',
        '(',
        ')',
        '-',
        '\'',
        '"',
    ].contains(word[i]) by {
        lemma_marks(word[i]);
    }
    if has_special(word, alphanumeric) {
        let i = choose|i: int|
            0 <= i < word.len() && !alphanumeric[i] && !is_plain_mark(#[trigger] word[i]);
        assert(is_anomaly(word, alphanumeric, i));
        lemma_counted(word, alphanumeric, i, n);
    }
}

proof fn lemma_marks(c: char)
    ensures
        is_sentence_mark(c) == seq!['.', ',', '!', '?', ':', ';', '(', ')', '-'].contains(c),
        is_plain_mark(c) == seq!['.', ',', '!', '?', ':', ';', '(', ')', '-', '\'', '"'].contains(
            c,
        ),
{
    let nine = seq!['.', ',', '!', '?', ':', ';', '(', ')', '-'];
    let eleven = seq!['.', ',', '!', '?', ':', ';', '(', ')', '-', '\'', '"'];
    assert(nine[0] == '.' && nine[1] == ',' && nine[2] == '!' && nine[3] == '?' && nine[4] == ':'
        && nine[5] == ';' && nine[6] == '(' && nine[7] == ')' && nine[8] == '-');
    assert(eleven[0] == '.' && eleven[1] == ',' && eleven[2] == '!' && eleven[3] == '?' && eleven[4]
        == ':' && eleven[5] == ';' && eleven[6] == '(' && eleven[7] == ')' && eleven[8] == '-'
        && eleven[9] == '\'' && eleven[10] == '"');
}

proof fn lemma_anomalies_of_words(a: Seq<Seq<char>>, b: Seq<Seq<char>>)
    ensures
        ({
            let look = |w: Seq<char>| anomaly(w, text::alphanumeric(w));
            (a + b).filter_map(look) == a.filter_map(look) + b.filter_map(look)
        }),
    decreases b.len(),
{
    let look = |w: Seq<char>| anomaly(w, text::alphanumeric(w));
    if b.len() == 0 {
        assert(a + b =~= a);
        assert(a.filter_map(look) + b.filter_map(look) =~= a.filter_map(look));
    } else {
        assert((a + b).drop_last() =~= a + b.drop_last());
        lemma_anomalies_of_words(a, b.drop_last());
        assert((a + b).filter_map(look) =~= a.filter_map(look) + b.filter_map(look));
    }
}

/// What is reported of a text is what is reported before any white space in it, followed by what is
/// reported after it.
pub proof fn law_anomalies_of_parts(a: Seq<char>, separator: char, b: Seq<char>)
    requires
        text::char_is_whitespace(separator),
    ensures
        text_anomalies(a + seq![separator] + b) == text_anomalies(a) + text_anomalies(b),
{
    text::law_text_words_of_parts(a, separator, b);
    lemma_anomalies_of_words(text::text_words(a), text::text_words(b));
}

/// Of a text that is one word, what is reported is what that word shows, if anything.
pub proof fn law_anomalies_of_one_word(s: Seq<char>, alphanumeric: Seq<bool>)
    requires
        forall|i: int| 0 <= i < s.len() ==> !text::char_is_whitespace(#[trigger] s[i]),
        alphanumeric.len() == s.len(),
        forall|i: int|
            0 <= i < s.len() ==> #[trigger] alphanumeric[i] == text::char_is_alphanumeric(s[i]),
    ensures
        text_anomalies(s) == match anomaly(s, alphanumeric) {
            Some(report) => if s.len() > 0 {
                seq![report]
            } else {
                seq![]
            },
            None => seq![],
        },
{
    let look = |w: Seq<char>| anomaly(w, text::alphanumeric(w));
    text::law_text_of_one_word(s);
    assert(text::alphanumeric(s) =~= alphanumeric);
    reveal_with_fuel(Seq::filter_map, 2);
    if s.len() > 0 {
        assert(seq![s].drop_last() =~= Seq::<Seq<char>>::empty());
        assert(text_anomalies(s) =~= match anomaly(s, alphanumeric) {
            Some(report) => seq![report],
            None => seq![],
        });
    }
}

/// Reading a list of entries keeps their number, their order and each field.
pub proof fn law_contents(entries: Seq<AnomalyEntry>)
    ensures
        contents(entries).len() == entries.len(),
        forall|i: int|
            0 <= i < entries.len() ==> #[trigger] contents(entries)[i] == (
                entries[i].word@,
                entries[i].highlighted@,
                entries[i].count as nat,
            ),
{
}

/// Reading an entry keeps each field.
pub proof fn law_entry_content(e: AnomalyEntry)
    ensures
        entry_content(e) == (e.word@, e.highlighted@, e.count as nat),
{
}

} // verus!

//! Characters, words and phrases.
use vstd::prelude::*;

verus! {

/// What `char::is_alphanumeric` answers: whether Unicode counts the character as a letter or a
/// number.
pub uninterp spec fn char_is_alphanumeric(c: char) -> bool;

/// `char::is_alphanumeric` depends on the character alone.
pub assume_specification[ char::is_alphanumeric ](c: char) -> (b: bool)
    ensures
        b == char_is_alphanumeric(c),
;

/// What `char::is_whitespace` answers: whether the character has Unicode's `White_Space` property.
pub uninterp spec fn char_is_whitespace(c: char) -> bool;

/// `char::is_whitespace` depends on the character alone, and holds of the space character.
pub assume_specification[ char::is_whitespace ](c: char) -> (b: bool)
    ensures
        b == char_is_whitespace(c),
        c == ' ' ==> b,
;

/// What `str::to_lowercase` returns: the lowercase equivalent of a string, as Unicode defines it.
pub uninterp spec fn lowercase(s: Seq<char>) -> Seq<char>;

/// `str::to_lowercase` depends on the characters of the string alone.
pub assume_specification[ str::to_lowercase ](s: &str) -> (r: String)
    ensures
        r@ == lowercase(s@),
;

/// `String::push` appends one character.
pub assume_specification[ String::push ](s: &mut String, c: char)
    ensures
        final(s)@ == old(s)@.push(c),
;

/// The characters of a string.
pub fn to_chars(s: &str) -> (r: Vec<char>)
    ensures
        r@ == s@,
{
    let mut r: Vec<char> = Vec::new();
    for c in it: s.chars()
        invariant
            r@ == it.seq().take(it.index()),
            it.seq() == s@,
    {
        r.push(c);
    }
    r
}

/// The string with the given characters.
pub fn from_chars(chars: &Vec<char>) -> (r: String)
    ensures
        r@ == chars@,
{
    chars_between(chars, 0, chars.len())
}

/// The string with the characters from position `from` up to `to`.
pub fn chars_between(chars: &Vec<char>, from: usize, to: usize) -> (r: String)
    requires
        from <= to <= chars@.len(),
    ensures
        r@ == chars@.subrange(from as int, to as int),
{
    let mut r = String::new();
    let mut i: usize = from;
    while i < to
        invariant
            from <= i <= to <= chars@.len(),
            r@ == chars@.subrange(from as int, i as int),
        decreases to - i,
    {
        r.push(chars[i]);
        i = i + 1;
    }
    r
}

/// Which characters of `s` are letters or numbers.
pub open spec fn alphanumeric(s: Seq<char>) -> Seq<bool> {
    Seq::new(s.len(), |i: int| char_is_alphanumeric(s[i]))
}

/// Which characters of `s` are white space.
pub open spec fn white(s: Seq<char>) -> Seq<bool> {
    Seq::new(s.len(), |i: int| char_is_whitespace(s[i]))
}

/// Marks the letters and numbers among the characters.
pub fn mark_alphanumeric(chars: &Vec<char>) -> (marks: Vec<bool>)
    ensures
        marks@ == alphanumeric(chars@),
{
    let mut marks: Vec<bool> = Vec::new();
    let mut i: usize = 0;
    while i < chars.len()
        invariant
            i <= chars@.len(),
            marks@ == alphanumeric(chars@).take(i as int),
        decreases chars@.len() - i,
    {
        marks.push(chars[i].is_alphanumeric());
        i = i + 1;
    }
    marks
}

/// Marks the white space among the characters; the space character is always marked.
pub fn mark_whitespace(chars: &Vec<char>) -> (marks: Vec<bool>)
    ensures
        marks@ == white(chars@),
        forall|i: int| 0 <= i < chars@.len() && chars@[i] == ' ' ==> #[trigger] marks@[i],
{
    let mut marks: Vec<bool> = Vec::new();
    let mut i: usize = 0;
    while i < chars.len()
        invariant
            i <= chars@.len(),
            marks@ == white(chars@).take(i as int),
            forall|k: int| 0 <= k < i && chars@[k] == ' ' ==> #[trigger] marks@[k],
        decreases chars@.len() - i,
    {
        marks.push(chars[i].is_whitespace());
        i = i + 1;
    }
    marks
}

/// The characters of each string.
pub open spec fn texts(strings: Seq<String>) -> Seq<Seq<char>> {
    Seq::new(strings.len(), |i: int| strings[i]@)
}

/// How many leading places are not marked.
pub open spec fn unmarked_run(marks: Seq<bool>) -> nat
    decreases marks.len(),
{
    if marks.len() == 0 || marks[0] {
        0
    } else {
        1 + unmarked_run(marks.drop_first())
    }
}

/// The words of `chars`, where `space` marks what separates them: the longest unmarked runs, in
/// order.
pub open spec fn words(chars: Seq<char>, space: Seq<bool>) -> Seq<Seq<char>>
    decreases space.len(),
{
    if space.len() == 0 {
        seq![]
    } else if space[0] {
        words(chars.drop_first(), space.drop_first())
    } else {
        let n = unmarked_run(space) as int;
        proof {
            law_unmarked_run(space);
        }
        seq![chars.take(n)] + words(chars.skip(n), space.skip(n))
    }
}

/// The words of a text: its longest runs without white space.
pub open spec fn text_words(s: Seq<char>) -> Seq<Seq<char>> {
    words(s, white(s))
}

proof fn lemma_unmarked_run(marks: Seq<bool>, n: int)
    requires
        0 <= n <= marks.len(),
        forall|k: int| 0 <= k < n ==> !#[trigger] marks[k],
        n == marks.len() || marks[n],
    ensures
        unmarked_run(marks) == n,
    decreases n,
{
    if n > 0 {
        assert(!marks[0]);
        let rest = marks.drop_first();
        assert forall|k: int| 0 <= k < n - 1 implies !#[trigger] rest[k] by {
            assert(!marks[k + 1]);
        }
        lemma_unmarked_run(rest, n - 1);
    }
}

/// A run ends at a marked place or at the end, and holds no marked place.
pub proof fn law_unmarked_run(marks: Seq<bool>)
    ensures
        unmarked_run(marks) <= marks.len(),
        forall|k: int| 0 <= k < unmarked_run(marks) ==> !#[trigger] marks[k],
        unmarked_run(marks) < marks.len() ==> marks[unmarked_run(marks) as int],
    decreases marks.len(),
{
    if marks.len() > 0 && !marks[0] {
        let rest = marks.drop_first();
        law_unmarked_run(rest);
        assert forall|k: int| 0 <= k < unmarked_run(marks) implies !#[trigger] marks[k] by {
            if k > 0 {
                assert(!rest[k - 1]);
            }
        }
    }
}

/// Splits characters into words at the marked places.
pub fn split_words(chars: &Vec<char>, space: &Vec<bool>) -> (r: Vec<String>)
    requires
        chars@.len() == space@.len(),
    ensures
        texts(r@) == words(chars@, space@),
{
    let mut r: Vec<String> = Vec::new();
    let mut i: usize = 0;
    assert(chars@.skip(0) == chars@ && space@.skip(0) == space@);
    while i < chars.len()
        invariant
            i <= chars@.len(),
            chars@.len() == space@.len(),
            words(chars@, space@) == texts(r@) + words(
                chars@.skip(i as int),
                space@.skip(i as int),
            ),
        decreases chars@.len() - i,
    {
        if space[i] {
            assert(chars@.skip(i as int).drop_first() == chars@.skip(i + 1));
            assert(space@.skip(i as int).drop_first() == space@.skip(i + 1));
            i = i + 1;
        } else {
            let mut j: usize = i;
            while j < chars.len() && !space[j]
                invariant
                    i <= j <= chars@.len(),
                    chars@.len() == space@.len(),
                    forall|k: int| i <= k < j ==> !#[trigger] space@[k],
                decreases chars@.len() - j,
            {
                j = j + 1;
            }
            let ghost rest = space@.skip(i as int);
            let ghost before = texts(r@);
            proof {
                assert forall|k: int| 0 <= k < j - i implies !#[trigger] rest[k] by {
                    assert(!space@[i + k]);
                }
                lemma_unmarked_run(rest, j - i);
                assert(chars@.skip(i as int).take(j - i) == chars@.subrange(i as int, j as int));
                assert(chars@.skip(i as int).skip(j - i) == chars@.skip(j as int));
                assert(rest.skip(j - i) == space@.skip(j as int));
                assert(!rest[0]);
            }
            r.push(chars_between(chars, i, j));
            assert(texts(r@) =~= before.push(chars@.subrange(i as int, j as int)));
            i = j;
        }
    }
    r
}

/// A character that is marked wherever it stands occurs in no word.
pub proof fn law_words_avoid(chars: Seq<char>, space: Seq<bool>, c: char)
    requires
        chars.len() == space.len(),
        forall|i: int| 0 <= i < chars.len() && chars[i] == c ==> #[trigger] space[i],
    ensures
        forall|i: int| 0 <= i < words(chars, space).len() ==> !#[trigger] words(
            chars,
            space,
        )[i].contains(c),
    decreases space.len(),
{
    if space.len() == 0 {
    } else if space[0] {
        let rest = space.drop_first();
        assert forall|i: int|
            0 <= i < chars.drop_first().len() && chars.drop_first()[i] == c implies #[trigger] rest[i] by {
            assert(space[i + 1]);
        }
        law_words_avoid(chars.drop_first(), rest, c);
        assert(words(chars, space) == words(chars.drop_first(), rest));
    } else {
        let n = unmarked_run(space) as int;
        law_unmarked_run(space);
        let rest = space.skip(n);
        assert forall|i: int|
            0 <= i < chars.skip(n).len() && chars.skip(n)[i] == c implies #[trigger] rest[i] by {
            assert(space[i + n]);
        }
        law_words_avoid(chars.skip(n), rest, c);
        if chars.take(n).contains(c) {
            let k = choose|k: int| 0 <= k < n && chars.take(n)[k] == c;
            assert(space[k]);
        }
        let tail = words(chars.skip(n), rest);
        assert forall|i: int| 0 <= i < words(chars, space).len() implies !#[trigger] words(
            chars,
            space,
        )[i].contains(c) by {
            if i > 0 {
                assert(words(chars, space)[i] == tail[i - 1]);
            }
        }
    }
}

/// No word is empty.
pub proof fn law_words_not_empty(chars: Seq<char>, space: Seq<bool>)
    requires
        chars.len() == space.len(),
    ensures
        forall|i: int| 0 <= i < words(chars, space).len() ==> #[trigger] words(chars, space)[i].len()
            > 0,
    decreases space.len(),
{
    if space.len() == 0 {
    } else if space[0] {
        law_words_not_empty(chars.drop_first(), space.drop_first());
        assert(words(chars, space) == words(chars.drop_first(), space.drop_first()));
    } else {
        let n = unmarked_run(space) as int;
        law_unmarked_run(space);
        law_words_not_empty(chars.skip(n), space.skip(n));
        let tail = words(chars.skip(n), space.skip(n));
        assert forall|i: int| 0 <= i < words(chars, space).len() implies #[trigger] words(
            chars,
            space,
        )[i].len() > 0 by {
            if i > 0 {
                assert(words(chars, space)[i] == tail[i - 1]);
            }
        }
    }
}

/// Splits a text into words at white space.
pub fn split_whitespace(s: &str) -> (r: Vec<String>)
    ensures
        texts(r@) == text_words(s@),
        forall|i: int| 0 <= i < r@.len() ==> !#[trigger] texts(r@)[i].contains(' '),
{
    let chars = to_chars(s);
    let space = mark_whitespace(&chars);
    proof {
        law_words_avoid(chars@, space@, ' ');
    }
    split_words(&chars, &space)
}

/// The words with one space between each two.
pub open spec fn joined(ws: Seq<Seq<char>>) -> Seq<char>
    decreases ws.len(),
{
    if ws.len() == 0 {
        seq![]
    } else if ws.len() == 1 {
        ws[0]
    } else {
        ws[0] + seq![' '] + joined(ws.drop_first())
    }
}

/// The phrase of the `len` words from word `i` on.
pub open spec fn phrase_at(ws: Seq<Seq<char>>, i: int, len: int) -> Seq<char> {
    joined(ws.subrange(i, i + len))
}

/// Joins `len` words from word `from` on into a phrase.
pub fn join_words(words: &Vec<String>, from: usize, len: usize) -> (r: String)
    requires
        1 <= len,
        from + len <= words@.len(),
    ensures
        r@ == phrase_at(texts(words@), from as int, len as int),
{
    let ghost ws = texts(words@);
    let ghost to = from + len;
    let mut r = words[from].clone();
    let mut k: usize = 1;
    assert(ws.subrange(from as int, to).drop_first() == ws.subrange(from + 1, to));
    while k < len
        invariant
            1 <= k <= len,
            from + len <= words.len(),
            ws == texts(words@),
            to == from + len,
            joined(ws.subrange(from as int, to)) == if k == len {
                r@
            } else {
                r@ + seq![' '] + joined(ws.subrange(from + k, to))
            },
        decreases len - k,
    {
        assert(ws.subrange(from + k, to).drop_first() == ws.subrange(from + k + 1, to));
        assert(ws.subrange(from + k, to)[0] == words@[from + k]@);
        r.push(' ');
        r.append(words[from + k].as_str());
        k = k + 1;
    }
    r
}

/// How many spaces the text holds.
pub open spec fn spaces(s: Seq<char>) -> nat
    decreases s.len(),
{
    if s.len() == 0 {
        0
    } else {
        spaces(s.drop_last()) + if s.last() == ' ' {
            1nat
        } else {
            0nat
        }
    }
}

/// Counts the spaces of a text.
pub fn count_spaces(chars: &Vec<char>) -> (n: usize)
    ensures
        n == spaces(chars@),
        n <= chars@.len(),
{
    let mut n: usize = 0;
    let mut i: usize = 0;
    while i < chars.len()
        invariant
            n <= i <= chars@.len(),
            n == spaces(chars@.take(i as int)),
        decreases chars@.len() - i,
    {
        assert(chars@.take(i + 1).drop_last() == chars@.take(i as int));
        if chars[i] == ' ' {
            n = n + 1;
        }
        i = i + 1;
    }
    assert(chars@.take(i as int) == chars@);
    n
}

proof fn lemma_spaces_add(a: Seq<char>, b: Seq<char>)
    ensures
        spaces(a + b) == spaces(a) + spaces(b),
    decreases b.len(),
{
    if b.len() == 0 {
        assert(a + b == a);
    } else {
        assert((a + b).drop_last() == a + b.drop_last());
        lemma_spaces_add(a, b.drop_last());
    }
}

proof fn lemma_no_spaces(s: Seq<char>)
    requires
        !s.contains(' '),
    ensures
        spaces(s) == 0,
    decreases s.len(),
{
    if s.len() > 0 {
        assert(s.contains(s.last()));
        assert forall|c: char| s.drop_last().contains(c) implies s.contains(c) by {
            let k = choose|k: int| 0 <= k < s.drop_last().len() && s.drop_last()[k] == c;
            assert(s[k] == c);
        }
        lemma_no_spaces(s.drop_last());
    }
}

/// A phrase of words that hold no space has one space fewer than words.
pub proof fn law_spaces_of_joined(ws: Seq<Seq<char>>)
    requires
        ws.len() > 0,
        forall|i: int| 0 <= i < ws.len() ==> !#[trigger] ws[i].contains(' '),
    ensures
        spaces(joined(ws)) == ws.len() - 1,
    decreases ws.len(),
{
    lemma_no_spaces(ws[0]);
    if ws.len() > 1 {
        let rest = ws.drop_first();
        assert forall|i: int| 0 <= i < rest.len() implies !#[trigger] rest[i].contains(' ') by {
            assert(!ws[i + 1].contains(' '));
        }
        law_spaces_of_joined(rest);
        lemma_spaces_add(ws[0] + seq![' '], joined(rest));
        lemma_spaces_add(ws[0], seq![' ']);
        assert(seq![' '].drop_last() == Seq::<char>::empty());
        assert(spaces(seq![' ']) == 1) by {
            reveal_with_fuel(spaces, 2);
        }
    }
}

/// Which characters of `s` satisfy `is_space`.
pub open spec fn marked(s: Seq<char>, is_space: spec_fn(char) -> bool) -> Seq<bool> {
    Seq::new(s.len(), |i: int| is_space(s[i]))
}

/// The first word of a text ends at the first separator, and the words of the rest follow.
pub proof fn law_first_word(
    head: Seq<char>,
    separator: char,
    rest: Seq<char>,
    is_space: spec_fn(char) -> bool,
)
    requires
        head.len() > 0,
        is_space(separator),
        forall|k: int| 0 <= k < head.len() ==> !is_space(#[trigger] head[k]),
    ensures
        ({
            let s = head + seq![separator] + rest;
            words(s, marked(s, is_space)) == seq![head] + words(rest, marked(rest, is_space))
        }),
{
    let s = head + seq![separator] + rest;
    let marks = marked(s, is_space);
    let n = head.len() as int;
    assert forall|k: int| 0 <= k < n implies !#[trigger] marks[k] by {
        assert(s[k] == head[k]);
    }
    assert(!marks[0]);
    assert(marks[n]);
    lemma_unmarked_run(marks, n);
    assert(s.take(n) =~= head);
    assert(s.skip(n).drop_first() =~= rest);
    assert(marks.skip(n).drop_first() =~= marked(rest, is_space));
    assert(words(s.skip(n), marks.skip(n)) == words(rest, marked(rest, is_space)));
}

/// Splitting a phrase gives back its words, for every notion of white space that counts the space
/// character and no character of the words.
pub proof fn law_words_of_joined(ws: Seq<Seq<char>>, is_space: spec_fn(char) -> bool)
    requires
        is_space(' '),
        forall|i: int| 0 <= i < ws.len() ==> #[trigger] ws[i].len() > 0,
        forall|i: int, k: int|
            0 <= i < ws.len() && 0 <= k < ws[i].len() ==> !is_space(#[trigger] ws[i][k]),
    ensures
        words(joined(ws), marked(joined(ws), is_space)) == ws,
    decreases ws.len(),
{
    let s = joined(ws);
    let marks = marked(s, is_space);
    if ws.len() == 0 {
        assert(words(s, marks) =~= ws);
    } else if ws.len() == 1 {
        let n = ws[0].len() as int;
        assert forall|k: int| 0 <= k < n implies !#[trigger] marks[k] by {
            assert(s[k] == ws[0][k]);
        }
        assert(!marks[0]);
        lemma_unmarked_run(marks, n);
        assert(s.take(n) =~= ws[0]);
        assert(words(s.skip(n), marks.skip(n)) == Seq::<Seq<char>>::empty());
        assert(ws =~= seq![ws[0]]);
    } else {
        let rest = ws.drop_first();
        assert forall|i: int, k: int|
            0 <= i < rest.len() && 0 <= k < rest[i].len() implies !is_space(
            #[trigger] rest[i][k],
        ) by {
            assert(!is_space(ws[i + 1][k]));
        }
        assert forall|i: int| 0 <= i < rest.len() implies #[trigger] rest[i].len() > 0 by {
            assert(ws[i + 1].len() > 0);
        }
        law_words_of_joined(rest, is_space);
        assert forall|k: int| 0 <= k < ws[0].len() implies !is_space(#[trigger] ws[0][k]) by {}
        law_first_word(ws[0], ' ', joined(rest), is_space);
        assert(ws =~= seq![ws[0]] + rest);
    }
}

/// Whether `needle` stands somewhere in `hay`.
pub open spec fn contains_text(hay: Seq<char>, needle: Seq<char>) -> bool {
    exists|k: int| #[trigger] stands_at(hay, needle, k)
}

/// Whether `needle` stands in `hay` from position `k` on.
pub open spec fn stands_at(hay: Seq<char>, needle: Seq<char>, k: int) -> bool {
    0 <= k && k + needle.len() <= hay.len() && hay.subrange(k, k + needle.len()) == needle
}

/// Searches `needle` in `hay`.
pub fn contains(hay: &Vec<char>, needle: &Vec<char>) -> (b: bool)
    ensures
        b == contains_text(hay@, needle@),
{
    if needle.len() > hay.len() {
        return false;
    }
    let last: usize = hay.len() - needle.len();
    let mut k: usize = 0;
    loop
        invariant
            needle@.len() <= hay@.len(),
            last == hay@.len() - needle@.len(),
            k <= last,
            forall|p: int| 0 <= p < k ==> !#[trigger] stands_at(hay@, needle@, p),
        decreases last - k,
    {
        let mut i: usize = 0;
        while i < needle.len() && hay[k + i] == needle[i]
            invariant
                k <= last,
                last == hay@.len() - needle@.len(),
                hay@.len() == hay.len(),
                i <= needle@.len() <= hay@.len(),
                hay@.subrange(k as int, k + i) == needle@.take(i as int),
            decreases needle@.len() - i,
        {
            i = i + 1;
        }
        if i == needle.len() {
            assert(needle@.take(i as int) == needle@);
            assert(stands_at(hay@, needle@, k as int));
            return true;
        }
        assert(hay@.subrange(k as int, k + needle@.len())[i as int] != needle@[i as int]);
        assert(!stands_at(hay@, needle@, k as int));
        if k == last {
            return false;
        }
        k = k + 1;
    }
}

/// What contains a text contains all that this text contains.
pub proof fn law_contains_transitive(a: Seq<char>, b: Seq<char>, c: Seq<char>)
    requires
        contains_text(a, b),
        contains_text(b, c),
    ensures
        contains_text(a, c),
{
    let i = choose|k: int| #[trigger] stands_at(a, b, k);
    let j = choose|k: int| #[trigger] stands_at(b, c, k);
    assert(a.subrange(i + j, i + j + c.len()) =~= b.subrange(j, j + c.len()));
    assert(stands_at(a, c, i + j));
}

/// `chars` without the marked places at either end.
pub open spec fn trimmed(chars: Seq<char>, space: Seq<bool>) -> Seq<char>
    decreases space.len(),
{
    if space.len() == 0 {
        chars
    } else if space[0] {
        trimmed(chars.drop_first(), space.drop_first())
    } else if space.last() {
        trimmed(chars.drop_last(), space.drop_last())
    } else {
        chars
    }
}

/// Removes the marked places at either end.
pub fn trim_marked(chars: &Vec<char>, space: &Vec<bool>) -> (r: String)
    requires
        chars@.len() == space@.len(),
    ensures
        r@ == trimmed(chars@, space@),
{
    let n: usize = chars.len();
    let mut i: usize = 0;
    assert(chars@.subrange(0, n as int) == chars@ && space@.subrange(0, n as int) == space@);
    while i < n && space[i]
        invariant
            i <= n == chars@.len() == space@.len(),
            trimmed(chars@, space@) == trimmed(
                chars@.subrange(i as int, n as int),
                space@.subrange(i as int, n as int),
            ),
        decreases n - i,
    {
        assert(chars@.subrange(i as int, n as int).drop_first() == chars@.subrange(
            i + 1,
            n as int,
        ));
        assert(space@.subrange(i as int, n as int).drop_first() == space@.subrange(
            i + 1,
            n as int,
        ));
        i = i + 1;
    }
    let mut j: usize = n;
    while i < j && space[j - 1]
        invariant
            i <= j <= n == chars@.len() == space@.len(),
            i < n ==> !space@[i as int],
            trimmed(chars@, space@) == trimmed(
                chars@.subrange(i as int, j as int),
                space@.subrange(i as int, j as int),
            ),
        decreases j,
    {
        assert(chars@.subrange(i as int, j as int).drop_last() == chars@.subrange(
            i as int,
            j - 1,
        ));
        assert(space@.subrange(i as int, j as int).drop_last() == space@.subrange(
            i as int,
            j - 1,
        ));
        j = j - 1;
    }
    chars_between(chars, i, j)
}

/// A text without the white space at either end.
pub open spec fn trimmed_text(s: Seq<char>) -> Seq<char> {
    trimmed(s, white(s))
}

/// Removes the white space at either end of a text.
pub fn trim(s: &str) -> (r: String)
    ensures
        r@ == trimmed_text(s@),
{
    let chars = to_chars(s);
    trim_marked(&chars, &mark_whitespace(&chars))
}

/// Reading a list of strings keeps their number, their order and each character.
pub proof fn law_texts(strings: Seq<String>)
    ensures
        texts(strings).len() == strings.len(),
        forall|i: int| 0 <= i < strings.len() ==> #[trigger] texts(strings)[i] == strings[i]@,
{
}

/// There is one mark for each character, and it says what Unicode says of that character, wherever
/// it stands.
pub proof fn law_marks(s: Seq<char>)
    ensures
        alphanumeric(s).len() == s.len(),
        white(s).len() == s.len(),
        forall|i: int|
            0 <= i < s.len() ==> #[trigger] alphanumeric(s)[i] == char_is_alphanumeric(s[i]),
        forall|i: int| 0 <= i < s.len() ==> #[trigger] white(s)[i] == char_is_whitespace(s[i]),
{
}

/// A separator parts the words: those before it are followed by those after it, as if each side
/// stood alone.
pub proof fn law_words_of_parts(
    a: Seq<char>,
    a_marks: Seq<bool>,
    separator: char,
    b: Seq<char>,
    b_marks: Seq<bool>,
)
    requires
        a.len() == a_marks.len(),
        b.len() == b_marks.len(),
    ensures
        words(a + seq![separator] + b, a_marks + seq![true] + b_marks) == words(a, a_marks) + words(
            b,
            b_marks,
        ),
    decreases a.len(),
{
    let s = a + seq![separator] + b;
    let marks = a_marks + seq![true] + b_marks;
    if a.len() == 0 {
        assert(marks[0]);
        assert(s.drop_first() =~= b);
        assert(marks.drop_first() =~= b_marks);
        assert(words(a, a_marks) + words(b, b_marks) =~= words(b, b_marks));
    } else if a_marks[0] {
        law_words_of_parts(a.drop_first(), a_marks.drop_first(), separator, b, b_marks);
        assert(marks[0]);
        assert(s.drop_first() =~= a.drop_first() + seq![separator] + b);
        assert(marks.drop_first() =~= a_marks.drop_first() + seq![true] + b_marks);
    } else {
        let n = unmarked_run(a_marks) as int;
        law_unmarked_run(a_marks);
        assert forall|k: int| 0 <= k < n implies !#[trigger] marks[k] by {
            assert(!a_marks[k]);
        }
        assert(n == a_marks.len() || marks[n] == a_marks[n]);
        assert(marks[n]);
        lemma_unmarked_run(marks, n);
        assert(n > 0 && !marks[0]);
        law_words_of_parts(a.skip(n), a_marks.skip(n), separator, b, b_marks);
        assert(s.take(n) =~= a.take(n));
        assert(s.skip(n) =~= a.skip(n) + seq![separator] + b);
        assert(marks.skip(n) =~= a_marks.skip(n) + seq![true] + b_marks);
        assert(words(s, marks) =~= words(a, a_marks) + words(b, b_marks));
    }
}

/// Characters without a separator are one word, all of them, however many they are; no characters
/// are no word.
pub proof fn law_unbroken_word(chars: Seq<char>, space: Seq<bool>)
    requires
        chars.len() == space.len(),
        forall|i: int| 0 <= i < space.len() ==> !#[trigger] space[i],
    ensures
        words(chars, space) == if chars.len() == 0 {
            Seq::<Seq<char>>::empty()
        } else {
            seq![chars]
        },
{
    if chars.len() > 0 {
        let n = chars.len() as int;
        lemma_unmarked_run(space, n);
        assert(!space[0]);
        assert(chars.take(n) =~= chars);
        assert(words(chars.skip(n), space.skip(n)) =~= Seq::<Seq<char>>::empty());
        assert(words(chars, space) =~= seq![chars]);
    }
}

/// White space parts the words of a text: those before it are followed by those after it.
pub proof fn law_text_words_of_parts(a: Seq<char>, separator: char, b: Seq<char>)
    requires
        char_is_whitespace(separator),
    ensures
        text_words(a + seq![separator] + b) == text_words(a) + text_words(b),
{
    law_words_of_parts(a, white(a), separator, b, white(b));
    assert(white(a + seq![separator] + b) =~= white(a) + seq![true] + white(b));
}

/// A text without white space is one word, all of it; an empty text has none.
pub proof fn law_text_of_one_word(s: Seq<char>)
    requires
        forall|i: int| 0 <= i < s.len() ==> !char_is_whitespace(#[trigger] s[i]),
    ensures
        text_words(s) == if s.len() == 0 {
            Seq::<Seq<char>>::empty()
        } else {
            seq![s]
        },
{
    assert forall|i: int| 0 <= i < white(s).len() implies !#[trigger] white(s)[i] by {
        assert(!char_is_whitespace(s[i]));
    }
    law_unbroken_word(s, white(s));
}

/// A phrase of one word is that word, and two phrases follow each other with one space between.
pub proof fn law_joined_parts(a: Seq<Seq<char>>, b: Seq<Seq<char>>)
    requires
        a.len() > 0,
        b.len() > 0,
    ensures
        joined(a + b) == joined(a) + seq![' '] + joined(b),
        a.len() == 1 ==> joined(a) == a[0],
    decreases a.len(),
{
    assert((a + b).drop_first() =~= a.drop_first() + b);
    if a.len() > 1 {
        law_joined_parts(a.drop_first(), b);
        assert(joined(a + b) =~= joined(a) + seq![' '] + joined(b));
    } else {
        assert(a.drop_first() + b =~= b);
        assert(joined(a + b) =~= joined(a) + seq![' '] + joined(b));
    }
}

/// The phrase at a word is made of the words from there on, as many as are asked for.
pub proof fn law_phrase_at(ws: Seq<Seq<char>>, i: int, len: int)
    requires
        0 <= i,
        1 <= len,
        i + len <= ws.len(),
    ensures
        phrase_at(ws, i, len) == joined(ws.subrange(i, i + len)),
        len == 1 ==> phrase_at(ws, i, len) == ws[i],
        len > 1 ==> phrase_at(ws, i, len) == ws[i] + seq![' '] + phrase_at(ws, i + 1, len - 1),
{
    assert(ws.subrange(i, i + len).drop_first() =~= ws.subrange(i + 1, i + len));
}

/// The spaces of a text are counted one by one.
pub proof fn law_spaces_counted(s: Seq<char>)
    ensures
        spaces(s) == s.filter(|c: char| c == ' ').len(),
    decreases s.len(),
{
    reveal(Seq::filter);
    if s.len() > 0 {
        law_spaces_counted(s.drop_last());
    }
}

/// A text contains exactly what stands in it with something, or nothing, before and after.
pub proof fn law_contains_text(hay: Seq<char>, needle: Seq<char>)
    ensures
        contains_text(hay, needle) <==> exists|before: Seq<char>, after: Seq<char>|
            hay == #[trigger] (before + needle + after),
{
    if contains_text(hay, needle) {
        let k = choose|k: int| #[trigger] stands_at(hay, needle, k);
        let before = hay.take(k);
        let after = hay.skip(k + needle.len());
        assert(hay =~= before + hay.subrange(k, k + needle.len()) + after);
        assert(hay == before + needle + after);
    }
    if exists|before: Seq<char>, after: Seq<char>| hay == #[trigger] (before + needle + after) {
        let (before, after) = choose|before: Seq<char>, after: Seq<char>|
            hay == #[trigger] (before + needle + after);
        let k = before.len() as int;
        assert(hay.subrange(k, k + needle.len()) =~= needle);
        assert(stands_at(hay, needle, k));
    }
}

/// Trimming takes away all marked places at either end and nothing else: what is left begins and
/// ends with an unmarked place, or is empty.
pub proof fn law_trimmed_parts(
    lead: Seq<char>,
    lead_marks: Seq<bool>,
    middle: Seq<char>,
    middle_marks: Seq<bool>,
    tail: Seq<char>,
    tail_marks: Seq<bool>,
)
    requires
        lead.len() == lead_marks.len(),
        middle.len() == middle_marks.len(),
        tail.len() == tail_marks.len(),
        forall|i: int| 0 <= i < lead.len() ==> #[trigger] lead_marks[i],
        forall|i: int| 0 <= i < tail.len() ==> #[trigger] tail_marks[i],
        middle.len() > 0 ==> !middle_marks[0] && !middle_marks[middle.len() - 1],
    ensures
        trimmed(lead + middle + tail, lead_marks + middle_marks + tail_marks) == middle,
    decreases lead.len() + tail.len(),
{
    let s = lead + middle + tail;
    let marks = lead_marks + middle_marks + tail_marks;
    if lead.len() > 0 {
        assert(lead_marks[0] && marks[0]);
        assert(s.drop_first() =~= lead.drop_first() + middle + tail);
        assert(marks.drop_first() =~= lead_marks.drop_first() + middle_marks + tail_marks);
        assert forall|i: int| 0 <= i < lead.drop_first().len() implies #[trigger] lead_marks.drop_first()[i] by {
            assert(lead_marks[i + 1]);
        }
        law_trimmed_parts(
            lead.drop_first(),
            lead_marks.drop_first(),
            middle,
            middle_marks,
            tail,
            tail_marks,
        );
    } else if tail.len() > 0 {
        if middle.len() > 0 {
            assert(!marks[0]);
            assert(tail_marks[tail.len() - 1] && marks.last());
            assert(s.drop_last() =~= lead + middle + tail.drop_last());
            assert(marks.drop_last() =~= lead_marks + middle_marks + tail_marks.drop_last());
            law_trimmed_parts(
                lead,
                lead_marks,
                middle,
                middle_marks,
                tail.drop_last(),
                tail_marks.drop_last(),
            );
        } else {
            assert(tail_marks[0] && marks[0]);
            assert(s.drop_first() =~= lead + middle + tail.drop_first());
            assert(marks.drop_first() =~= lead_marks + middle_marks + tail_marks.drop_first());
            assert forall|i: int| 0 <= i < tail.drop_first().len() implies #[trigger] tail_marks.drop_first()[i] by {
                assert(tail_marks[i + 1]);
            }
            law_trimmed_parts(
                lead,
                lead_marks,
                middle,
                middle_marks,
                tail.drop_first(),
                tail_marks.drop_first(),
            );
        }
    } else {
        assert(s =~= middle);
        assert(marks =~= middle_marks);
    }
}

/// Trimming a text takes away the white space at either end, all of it, and nothing else.
pub proof fn law_trimmed_text(lead: Seq<char>, middle: Seq<char>, tail: Seq<char>)
    requires
        forall|i: int| 0 <= i < lead.len() ==> char_is_whitespace(#[trigger] lead[i]),
        forall|i: int| 0 <= i < tail.len() ==> char_is_whitespace(#[trigger] tail[i]),
        middle.len() > 0 ==> !char_is_whitespace(middle[0]) && !char_is_whitespace(
            middle[middle.len() - 1],
        ),
    ensures
        trimmed_text(lead + middle + tail) == middle,
{
    assert forall|i: int| 0 <= i < lead.len() implies #[trigger] white(lead)[i] by {
        assert(char_is_whitespace(lead[i]));
    }
    assert forall|i: int| 0 <= i < tail.len() implies #[trigger] white(tail)[i] by {
        assert(char_is_whitespace(tail[i]));
    }
    law_trimmed_parts(lead, white(lead), middle, white(middle), tail, white(tail));
    assert(white(lead + middle + tail) =~= white(lead) + white(middle) + white(tail));
}

} // verus!

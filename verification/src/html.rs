//! Writing text into HTML.
use vstd::prelude::*;

verus! {

/// What stands for the character `c` in HTML.
pub open spec fn escaped_char(c: char) -> Seq<char> {
    if c == '&' {
        "&amp;"@
    } else if c == '<' {
        "&lt;"@
    } else if c == '>' {
        "&gt;"@
    } else if c == '"' {
        "&quot;"@
    } else if c == '\'' {
        "&#039;"@
    } else {
        seq![c]
    }
}

/// What stands for the text `s` in HTML: each character's escape, in order.
pub open spec fn escaped(s: Seq<char>) -> Seq<char>
    decreases s.len(),
{
    if s.len() == 0 {
        seq![]
    } else {
        escaped(s.drop_last()) + escaped_char(s.last())
    }
}

/// Appends what stands for `c`.
pub fn push_escaped(out: &mut String, c: char)
    ensures
        final(out)@ == old(out)@ + escaped_char(c),
{
    if c == '&' {
        out.append("&amp;");
    } else if c == '<' {
        out.append("&lt;");
    } else if c == '>' {
        out.append("&gt;");
    } else if c == '"' {
        out.append("&quot;");
    } else if c == '\'' {
        out.append("&#039;");
    } else {
        out.push(c);
    }
}

/// Escapes the characters that HTML gives a meaning.
pub fn escape_html(s: &str) -> (out: String)
    ensures
        out@ == escaped(s@),
{
    let mut out = String::new();
    assert(s@.take(0) == Seq::<char>::empty());
    for c in it: s.chars()
        invariant
            it.seq() == s@,
            out@ == escaped(s@.take(it.index())),
    {
        assert(s@.take(it.index() + 1).drop_last() == s@.take(it.index()));
        push_escaped(&mut out, c);
    }
    assert(s@.take(s@.len() as int) == s@);
    out
}

/// The characters that must not stand in HTML text as they are. (`&` stands only at the head of an
/// escape.)
pub open spec fn is_markup(c: char) -> bool {
    c == '<' || c == '>' || c == '"' || c == '\''
}

proof fn lemma_escaped_char(c: char)
    ensures
        escaped_char(c).len() > 0,
        forall|i: int| 0 <= i < escaped_char(c).len() ==> !is_markup(#[trigger] escaped_char(c)[i]),
        escaped_char(c)[0] == '&' <==> c == '&' || is_markup(c),
        escaped_char(c)[0] != '&' ==> escaped_char(c) == seq![c],
        c == '&' ==> escaped_char(c).len() == 5 && escaped_char(c)[1] == 'a',
        c == '<' ==> escaped_char(c).len() == 4 && escaped_char(c)[1] == 'l',
        c == '>' ==> escaped_char(c).len() == 4 && escaped_char(c)[1] == 'g',
        c == '"' ==> escaped_char(c).len() == 6 && escaped_char(c)[1] == 'q',
        c == '\'' ==> escaped_char(c).len() == 6 && escaped_char(c)[1] == '#',
{
    reveal_strlit("&amp;");
    reveal_strlit("&lt;");
    reveal_strlit("&gt;");
    reveal_strlit("&quot;");
    reveal_strlit("&#039;");
}

/// No markup character is left in escaped text.
pub proof fn law_escaped_has_no_markup(s: Seq<char>)
    ensures
        forall|i: int| 0 <= i < escaped(s).len() ==> !is_markup(#[trigger] escaped(s)[i]),
    decreases s.len(),
{
    if s.len() > 0 {
        law_escaped_has_no_markup(s.drop_last());
        lemma_escaped_char(s.last());
        let head = escaped(s.drop_last());
        assert forall|i: int| 0 <= i < escaped(s).len() implies !is_markup(
            #[trigger] escaped(s)[i],
        ) by {
            if i < head.len() {
                assert(escaped(s)[i] == head[i]);
            } else {
                assert(escaped(s)[i] == escaped_char(s.last())[i - head.len()]);
            }
        }
    }
}

/// Escaping a text piece by piece and escaping it whole come to the same.
pub proof fn law_escaped_of_parts(a: Seq<char>, b: Seq<char>)
    ensures
        escaped(a + b) == escaped(a) + escaped(b),
    decreases b.len(),
{
    if b.len() == 0 {
        assert(a + b == a);
        assert(escaped(a) + escaped(b) == escaped(a));
    } else {
        assert((a + b).drop_last() == a + b.drop_last());
        law_escaped_of_parts(a, b.drop_last());
        assert(escaped(a + b) =~= escaped(a) + escaped(b));
    }
}

proof fn lemma_escaped_front(s: Seq<char>)
    requires
        s.len() > 0,
    ensures
        escaped(s) == escaped_char(s[0]) + escaped(s.drop_first()),
{
    let first = seq![s[0]];
    assert(s =~= first + s.drop_first());
    law_escaped_of_parts(first, s.drop_first());
    assert(first.drop_last() == Seq::<char>::empty());
    assert(escaped(first) =~= escaped_char(s[0])) by {
        reveal_with_fuel(escaped, 2);
    }
}

/// Escaping keeps texts apart: equal escapes come from equal texts.
pub proof fn law_escaped_injective(a: Seq<char>, b: Seq<char>)
    requires
        escaped(a) == escaped(b),
    ensures
        a == b,
    decreases a.len(),
{
    if a.len() > 0 {
        lemma_escaped_front(a);
        lemma_escaped_char(a[0]);
    }
    if b.len() > 0 {
        lemma_escaped_front(b);
        lemma_escaped_char(b[0]);
    }
    if a.len() == 0 || b.len() == 0 {
        assert(a.len() > 0 ==> escaped(a).len() > 0);
        assert(b.len() > 0 ==> escaped(b).len() > 0);
        assert(a =~= b);
    } else {
        let (x, y) = (escaped_char(a[0]), escaped_char(b[0]));
        assert(escaped(a)[0] == x[0] && escaped(b)[0] == y[0]);
        if x[0] == '&' {
            assert(escaped(a)[1] == x[1] && escaped(b)[1] == y[1]);
        }
        assert(a[0] == b[0]);
        assert(escaped(a).skip(x.len() as int) =~= escaped(a.drop_first()));
        assert(escaped(b).skip(x.len() as int) =~= escaped(b.drop_first()));
        law_escaped_injective(a.drop_first(), b.drop_first());
        assert(a =~= seq![a[0]] + a.drop_first());
        assert(b =~= seq![b[0]] + b.drop_first());
    }
}

/// Each of the five characters with a meaning in HTML has its escape, and every other character
/// stands for itself.
pub proof fn law_escape_of_one(c: char)
    ensures
        escaped(Seq::<char>::empty()) == Seq::<char>::empty(),
        c == '&' ==> escaped(seq![c]) == seq!['&', 'a', 'm', 'p', ';'],
        c == '<' ==> escaped(seq![c]) == seq!['&', 'l', 't', ';'],
        c == '>' ==> escaped(seq![c]) == seq!['&', 'g', 't', ';'],
        c == '"' ==> escaped(seq![c]) == seq!['&', 'q', 'u', 'o', 't', ';'],
        c == '\'' ==> escaped(seq![c]) == seq!['&', '#', '0', '3', '9', ';'],
        c != '&' && c != '<' && c != '>' && c != '"' && c != '\'' ==> escaped(seq![c]) == seq![c],
{
    reveal_strlit("&amp;");
    reveal_strlit("&lt;");
    reveal_strlit("&gt;");
    reveal_strlit("&quot;");
    reveal_strlit("&#039;");
    assert(seq![c].drop_last() =~= Seq::<char>::empty());
    reveal_with_fuel(escaped, 2);
    assert(escaped(seq![c]) =~= escaped_char(c));
}

/// Appending one character's escape is escaping that character alone.
pub proof fn law_escaped_char(c: char)
    ensures
        escaped_char(c) == escaped(seq![c]),
{
    assert(seq![c].drop_last() =~= Seq::<char>::empty());
    reveal_with_fuel(escaped, 2);
    assert(escaped(seq![c]) =~= escaped_char(c));
}

} // verus!

//! How alike two texts are, by the pairs of neighbouring characters that they share.
use crate::text;
use std::collections::HashSet;
use vstd::prelude::*;
use vstd::seq_lib::*;
use vstd::set_lib::*;
use vstd::std_specs::hash::*;

verus! {

broadcast use {group_hash_axioms, seq_to_set_is_finite};

/// The pairs of neighbouring characters, from left to right.
pub open spec fn pairs(s: Seq<char>) -> Seq<(char, char)> {
    Seq::new(
        if s.len() == 0 {
            0
        } else {
            (s.len() - 1) as nat
        },
        |i: int| (s[i], s[i + 1]),
    )
}

/// The different pairs of neighbouring characters.
pub open spec fn bigrams(s: Seq<char>) -> Set<(char, char)> {
    pairs(s).to_set()
}

/// How alike two texts are, in percent: twice the pairs that both have, of the pairs of each
/// together, rounded down. A text without pairs is like no other.
pub open spec fn similarity(a: Seq<char>, b: Seq<char>) -> int {
    let (x, y) = (bigrams(a), bigrams(b));
    if x.len() == 0 || y.len() == 0 {
        0
    } else {
        2 * x.intersect(y).len() as int * 100 / (x.len() + y.len()) as int
    }
}

/// The number that stands for a pair.
spec fn code(p: (char, char)) -> int {
    p.0 as int * 0x110000 + p.1 as int
}

proof fn lemma_code_injective(p: (char, char), q: (char, char))
    ensures
        0 <= code(p) <= u64::MAX,
        code(p) == code(q) ==> p == q,
{
    lemma_digits_injective(p.0, p.1, q.0, q.1);
}

proof fn lemma_digits_injective(a: char, b: char, c: char, d: char)
    ensures
        0 <= code((a, b)) <= u64::MAX,
        code((a, b)) == code((c, d)) ==> a == c && b == d,
{
    assert(a as u32 <= 0x10ffff && b as u32 <= 0x10ffff);
    assert(c as u32 <= 0x10ffff && d as u32 <= 0x10ffff);
}

/// Whether `codes` holds the numbers of the pairs in `set`.
spec fn represents(codes: Set<u64>, set: Set<(char, char)>) -> bool {
    forall|p: (char, char)| set.contains(p) <==> codes.contains(#[trigger] code(p) as u64)
}

fn encode(a: char, b: char) -> (c: u64)
    ensures
        c == code((a, b)),
{
    a as u64 * 0x110000 + b as u64
}

proof fn lemma_one_more(
    s: Seq<char>,
    i: int,
    codes: Set<u64>,
    c: u64,
)
    requires
        0 <= i < pairs(s).len(),
        represents(codes, pairs(s).take(i).to_set()),
        c == code(pairs(s)[i]),
    ensures
        pairs(s).take(i + 1).to_set() == pairs(s).take(i).to_set().insert(pairs(s)[i]),
        represents(codes.insert(c), pairs(s).take(i + 1).to_set()),
        codes.contains(c) <==> pairs(s).take(i).to_set().contains(pairs(s)[i]),
{
    let ps = pairs(s);
    let (old_part, new_part) = (ps.take(i), ps.take(i + 1));
    assert(new_part =~= old_part.push(ps[i]));
    assert forall|p: (char, char)| new_part.to_set().contains(p) <==> old_part.to_set().insert(
        ps[i],
    ).contains(p) by {
        if new_part.contains(p) {
            let k = choose|k: int| 0 <= k < new_part.len() && new_part[k] == p;
            if k < i {
                assert(old_part[k] == p);
            }
        }
        if old_part.contains(p) {
            let k = choose|k: int| 0 <= k < old_part.len() && old_part[k] == p;
            assert(new_part[k] == p);
        }
        assert(new_part[i] == ps[i]);
    }
    assert(new_part.to_set() =~= old_part.to_set().insert(ps[i]));
    assert forall|p: (char, char)| new_part.to_set().contains(p) <==> codes.insert(c).contains(
        #[trigger] code(p) as u64,
    ) by {
        lemma_code_injective(p, ps[i]);
        lemma_code_injective(ps[i], p);
    }
}

/// Collects the numbers of the pairs of a text, and counts the different ones.
fn collect(s: &Vec<char>) -> (r: (HashSet<u64>, usize))
    ensures
        represents(r.0@, bigrams(s@)),
        r.1 == bigrams(s@).len(),
{
    let mut codes: HashSet<u64> = HashSet::new();
    let mut n: usize = 0;
    let mut i: usize = 0;
    assert(pairs(s@).take(0).to_set() =~= Set::<(char, char)>::empty());
    while s.len() > 0 && i < s.len() - 1
        invariant
            i <= pairs(s@).len(),
            n <= i,
            represents(codes@, pairs(s@).take(i as int).to_set()),
            n == pairs(s@).take(i as int).to_set().len(),
        decreases pairs(s@).len() - i,
    {
        let c = encode(s[i], s[i + 1]);
        proof {
            lemma_one_more(s@, i as int, codes@, c);
        }
        if codes.insert(c) {
            n = n + 1;
        }
        i = i + 1;
    }
    assert(pairs(s@).take(i as int) =~= pairs(s@));
    (codes, n)
}

/// Counts the different pairs of `s`, and how many of them stand in `other`.
fn count_shared(s: &Vec<char>, other: &HashSet<u64>, Ghost(set): Ghost<Set<(char, char)>>) -> (r: (
    usize,
    usize,
))
    requires
        represents(other@, set),
    ensures
        r.0 == bigrams(s@).len(),
        r.1 == bigrams(s@).intersect(set).len(),
{
    let mut codes: HashSet<u64> = HashSet::new();
    let mut n: usize = 0;
    let mut shared: usize = 0;
    let mut i: usize = 0;
    assert(pairs(s@).take(0).to_set() =~= Set::<(char, char)>::empty());
    assert(Set::<(char, char)>::empty().intersect(set) =~= Set::<(char, char)>::empty());
    while s.len() > 0 && i < s.len() - 1
        invariant
            i <= pairs(s@).len(),
            n <= i,
            shared <= i,
            represents(other@, set),
            represents(codes@, pairs(s@).take(i as int).to_set()),
            n == pairs(s@).take(i as int).to_set().len(),
            shared == pairs(s@).take(i as int).to_set().intersect(set).len(),
        decreases pairs(s@).len() - i,
    {
        let c = encode(s[i], s[i + 1]);
        proof {
            let part = pairs(s@).take(i as int).to_set();
            let p = pairs(s@)[i as int];
            lemma_one_more(s@, i as int, codes@, c);
            assert(set.contains(p) <==> other@.contains(code(p) as u64));
            if set.contains(p) {
                assert(part.insert(p).intersect(set) =~= part.intersect(set).insert(p));
            } else {
                assert(part.insert(p).intersect(set) =~= part.intersect(set));
            }
            if part.contains(p) {
                assert(part.insert(p) =~= part);
            }
            assert(part.intersect(set).finite());
        }
        if codes.insert(c) {
            n = n + 1;
            if other.contains(&c) {
                shared = shared + 1;
            }
        }
        i = i + 1;
    }
    assert(pairs(s@).take(i as int) =~= pairs(s@));
    (n, shared)
}

/// A text shares at most all its pairs with another.
proof fn lemma_shared_bound(x: Set<(char, char)>, y: Set<(char, char)>)
    requires
        x.finite(),
        y.finite(),
    ensures
        x.intersect(y).len() <= x.len(),
        x.intersect(y).len() <= y.len(),
{
    lemma_len_subset(x.intersect(y), x);
    lemma_len_subset(x.intersect(y), y);
}

/// Computes how alike two texts are, in percent.
pub fn compare_texts(a: &str, b: &str) -> (score: u32)
    ensures
        score == similarity(a@, b@),
        score <= 100,
{
    let (other, m) = collect(&text::to_chars(b));
    let (n, shared) = count_shared(&text::to_chars(a), &other, Ghost(bigrams(b@)));
    if n == 0 || m == 0 {
        return 0;
    }
    proof {
        law_similarity_range(a@, b@);
    }
    let score = 2 * (shared as u128) * 100 / (n as u128 + m as u128);
    score as u32
}

/// The similarity is a percentage.
pub proof fn law_similarity_range(a: Seq<char>, b: Seq<char>)
    ensures
        0 <= similarity(a, b) <= 100,
{
    let (x, y) = (bigrams(a), bigrams(b));
    lemma_shared_bound(x, y);
    if x.len() > 0 && y.len() > 0 {
        let shared = x.intersect(y).len() as int;
        let total = (x.len() + y.len()) as int;
        assert(0 <= 2 * shared * 100 / total <= 100) by (nonlinear_arith)
            requires
                0 <= shared,
                2 * shared <= total,
                total > 0,
        ;
    }
}

/// The similarity does not depend on which text comes first.
pub proof fn law_similarity_symmetric(a: Seq<char>, b: Seq<char>)
    ensures
        similarity(a, b) == similarity(b, a),
{
    assert(bigrams(a).intersect(bigrams(b)) =~= bigrams(b).intersect(bigrams(a)));
}

/// A text of two characters or more is wholly like itself.
pub proof fn law_similarity_of_same(a: Seq<char>)
    requires
        a.len() >= 2,
    ensures
        similarity(a, a) == 100,
{
    let x = bigrams(a);
    lemma_has_pair(a);
    assert(x.intersect(x) =~= x);
    let n = x.len() as int;
    assert(2 * n * 100 / (n + n) == 100) by (nonlinear_arith)
        requires
            n > 0,
    ;
}

/// Texts that share no pair are not alike at all.
pub proof fn law_similarity_of_disjoint(a: Seq<char>, b: Seq<char>)
    requires
        bigrams(a).disjoint(bigrams(b)),
    ensures
        similarity(a, b) == 0,
{
    let (x, y) = (bigrams(a), bigrams(b));
    assert(x.intersect(y) =~= Set::<(char, char)>::empty());
    if x.len() > 0 && y.len() > 0 {
        let total = (x.len() + y.len()) as int;
        assert(0int / total == 0) by (nonlinear_arith)
            requires
                total > 0,
        ;
    }
}

/// Of the pairs of both texts together, two for each shared pair, the similarity is the whole
/// percentage. The pairs of a text are those of characters that stand side by side in it, each
/// counted once.
pub proof fn law_similarity_counts_pairs(
    a: Seq<char>,
    b: Seq<char>,
    x: Set<(char, char)>,
    y: Set<(char, char)>,
)
    requires
        forall|p: (char, char)| #[trigger]
            x.contains(p) <==> exists|i: int|
                0 <= i && i + 1 < a.len() && #[trigger] a[i] == p.0 && a[i + 1] == p.1,
        forall|p: (char, char)| #[trigger]
            y.contains(p) <==> exists|i: int|
                0 <= i && i + 1 < b.len() && #[trigger] b[i] == p.0 && b[i + 1] == p.1,
    ensures
        x.finite() && y.finite(),
        a.len() < 2 || b.len() < 2 ==> similarity(a, b) == 0,
        a.len() >= 2 && b.len() >= 2 ==> {
            let shared = x.intersect(y).len() as int;
            let total = (x.len() + y.len()) as int;
            &&& total > 0
            &&& similarity(a, b) * total <= 200 * shared
            &&& 200 * shared < (similarity(a, b) + 1) * total
        },
{
    lemma_bigrams(a, x);
    lemma_bigrams(b, y);
    if a.len() < 2 {
        assert(x =~= Set::<(char, char)>::empty());
    }
    if b.len() < 2 {
        assert(y =~= Set::<(char, char)>::empty());
    }
    if a.len() >= 2 && b.len() >= 2 {
        let shared = x.intersect(y).len() as int;
        let total = (x.len() + y.len()) as int;
        lemma_has_pair(a);
        lemma_has_pair(b);
        let s = 2 * shared * 100 / total;
        assert(s * total <= 200 * shared && 200 * shared < (s + 1) * total) by (nonlinear_arith)
            requires
                s == 2 * shared * 100 / total,
                total > 0,
        ;
    }
}

proof fn lemma_bigrams(a: Seq<char>, x: Set<(char, char)>)
    requires
        forall|p: (char, char)| #[trigger]
            x.contains(p) <==> exists|i: int|
                0 <= i && i + 1 < a.len() && #[trigger] a[i] == p.0 && a[i + 1] == p.1,
    ensures
        bigrams(a) == x,
        x.finite(),
{
    let ps = pairs(a);
    assert forall|p: (char, char)| bigrams(a).contains(p) <==> x.contains(p) by {
        if ps.contains(p) {
            let i = choose|i: int| 0 <= i < ps.len() && ps[i] == p;
            assert(a[i] == p.0 && a[i + 1] == p.1);
        }
        if x.contains(p) {
            let i = choose|i: int|
                0 <= i && i + 1 < a.len() && #[trigger] a[i] == p.0 && a[i + 1] == p.1;
            assert(ps[i] == p);
        }
    }
    assert(bigrams(a) =~= x);
}

proof fn lemma_has_pair(a: Seq<char>)
    requires
        a.len() >= 2,
    ensures
        bigrams(a).len() > 0,
{
    let x = bigrams(a);
    assert(pairs(a).contains(pairs(a)[0]));
    assert(x.contains(pairs(a)[0]));
    if x.len() == 0 {
        x.lemma_len0_is_empty();
    }
}

} // verus!

use vstd::prelude::*;

verus! {

/// Ordinal (code point by code point) order on texts: `a` sorts strictly
/// before `b`.
pub open spec fn text_lt(a: Seq<char>, b: Seq<char>) -> bool
    decreases a.len(),
{
    if a.len() == 0 {
        b.len() > 0
    } else if b.len() == 0 {
        false
    } else if a[0] != b[0] {
        a[0] < b[0]
    } else {
        text_lt(a.drop_first(), b.drop_first())
    }
}

pub proof fn lemma_text_lt_irreflexive(a: Seq<char>)
    ensures
        !text_lt(a, a),
    decreases a.len(),
{
    if a.len() > 0 {
        lemma_text_lt_irreflexive(a.drop_first());
    }
}

pub proof fn lemma_text_lt_transitive(a: Seq<char>, b: Seq<char>, c: Seq<char>)
    requires
        text_lt(a, b),
        text_lt(b, c),
    ensures
        text_lt(a, c),
    decreases a.len(),
{
    if a.len() > 0 && b.len() > 0 && c.len() > 0 && a[0] == b[0] && b[0] == c[0] {
        lemma_text_lt_transitive(a.drop_first(), b.drop_first(), c.drop_first());
    }
}

pub proof fn lemma_text_lt_total(a: Seq<char>, b: Seq<char>)
    requires
        a != b,
    ensures
        text_lt(a, b) || text_lt(b, a),
    decreases a.len(),
{
    if a.len() > 0 && b.len() > 0 && a[0] == b[0] {
        if a.drop_first() == b.drop_first() {
            assert(a =~= seq![a[0]] + a.drop_first());
            assert(b =~= seq![b[0]] + b.drop_first());
        } else {
            lemma_text_lt_total(a.drop_first(), b.drop_first());
        }
    } else if a.len() == 0 && b.len() == 0 {
        assert(a =~= b);
    }
}

pub proof fn lemma_text_lt_asymmetric(a: Seq<char>, b: Seq<char>)
    requires
        text_lt(a, b),
    ensures
        !text_lt(b, a),
{
    if text_lt(b, a) {
        lemma_text_lt_transitive(a, b, a);
        lemma_text_lt_irreflexive(a);
    }
}

/// Whether `a` sorts strictly before `b` by the ordinal text order.
pub fn text_less(a: &str, b: &str) -> (r: bool)
    ensures
        r == text_lt(a@, b@),
{
    let n = a.unicode_len();
    let m = b.unicode_len();
    let mut i: usize = 0;
    assert(a@.skip(0) =~= a@);
    assert(b@.skip(0) =~= b@);
    while i < n && i < m
        invariant
            n == a@.len(),
            m == b@.len(),
            i <= n,
            i <= m,
            text_lt(a@, b@) == text_lt(a@.skip(i as int), b@.skip(i as int)),
        decreases n - i,
    {
        let x = a.get_char(i);
        let y = b.get_char(i);
        if x != y {
            return x < y;
        }
        assert(a@.skip(i as int).drop_first() =~= a@.skip(i + 1));
        assert(b@.skip(i as int).drop_first() =~= b@.skip(i + 1));
        i = i + 1;
    }
    i == n && i < m
}

/// What the ranking reads of a song: its score, its name and its id.
pub struct RankKey {
    pub score: int,
    pub name: Seq<char>,
    pub id: Seq<char>,
}

/// `a` ranks strictly above `b`: a higher score, then a smaller name, then a
/// smaller id.
pub open spec fn ranks_before(a: RankKey, b: RankKey) -> bool {
    ||| a.score > b.score
    ||| a.score == b.score && text_lt(a.name, b.name)
    ||| a.score == b.score && a.name == b.name && text_lt(a.id, b.id)
}

pub proof fn lemma_ranks_before_irreflexive(a: RankKey)
    ensures
        !ranks_before(a, a),
{
    lemma_text_lt_irreflexive(a.name);
    lemma_text_lt_irreflexive(a.id);
}

pub proof fn lemma_ranks_before_transitive(a: RankKey, b: RankKey, c: RankKey)
    requires
        ranks_before(a, b),
        ranks_before(b, c),
    ensures
        ranks_before(a, c),
{
    if a.score == b.score && b.score == c.score {
        if text_lt(a.name, b.name) && text_lt(b.name, c.name) {
            lemma_text_lt_transitive(a.name, b.name, c.name);
        }
        lemma_text_lt_irreflexive(a.name);
        lemma_text_lt_irreflexive(b.name);
        if a.name == b.name && b.name == c.name {
            lemma_text_lt_transitive(a.id, b.id, c.id);
        }
    }
}

pub proof fn lemma_ranks_before_asymmetric(a: RankKey, b: RankKey)
    requires
        ranks_before(a, b),
    ensures
        !ranks_before(b, a),
{
    if ranks_before(b, a) {
        lemma_ranks_before_transitive(a, b, a);
        lemma_ranks_before_irreflexive(a);
    }
}

/// Keys with different ids are always ordered one way or the other.
pub proof fn lemma_ranks_before_total(a: RankKey, b: RankKey)
    requires
        a.id != b.id,
    ensures
        ranks_before(a, b) || ranks_before(b, a),
{
    if a.name != b.name {
        lemma_text_lt_total(a.name, b.name);
    }
    lemma_text_lt_total(a.id, b.id);
}

} // verus!

use vstd::prelude::*;

use crate::candidate::CandidateView;
use crate::ledger::{
    decision_in_range, entries_wf, has_key, lemma_key_unique, own_decision, same_key, score_of,
    upsert, VoteEntry,
};
use crate::order::{
    lemma_ranks_before_asymmetric, lemma_ranks_before_irreflexive, lemma_ranks_before_total,
    ranks_before, text_lt, RankKey,
};
use crate::queue::{
    is_eligible, is_ranking, is_top, key_of, none_eligible, picks, played, sorted_strict, SongView,
};

verus! {

/// An insert-or-replace keeps one row per key, leaves exactly one row for
/// its own key, and that row carries the new decision.
pub proof fn lemma_upsert(entries: Seq<VoteEntry>, voter: u128, song: Seq<char>, d: int)
    requires
        entries_wf(entries),
        decision_in_range(d),
    ensures
        ({
            let after = upsert(entries, voter, song, d);
            &&& entries_wf(after)
            &&& exists|i: int|
                0 <= i < after.len() && same_key(#[trigger] after[i], voter, song) && after[i].decision
                    == d
            &&& forall|i: int, j: int|
                0 <= i < after.len() && 0 <= j < after.len() && same_key(#[trigger] after[i], voter, song)
                    && same_key(#[trigger] after[j], voter, song) ==> i == j
            &&& own_decision(after, voter, song) == Some(d)
        }),
{
    let after = upsert(entries, voter, song, d);
    let e = VoteEntry { voter, song, decision: d };
    if has_key(entries, voter, song) {
        let i = choose|i: int| 0 <= i < entries.len() && same_key(#[trigger] entries[i], voter, song);
        assert(after == entries.update(i, e));
        assert forall|a: int, b: int| 0 <= a < b < after.len() implies !same_key(
            #[trigger] after[a],
            after[b].voter,
            #[trigger] after[b].song,
        ) by {
            if a == i {
                assert(!same_key(entries[a], entries[b].voter, entries[b].song));
            } else if b == i {
                assert(!same_key(entries[a], entries[b].voter, entries[b].song));
            } else {
                assert(after[a] == entries[a] && after[b] == entries[b]);
            }
        }
        assert(same_key(after[i], voter, song));
    } else {
        assert(after == entries.push(e));
        assert forall|a: int, b: int| 0 <= a < b < after.len() implies !same_key(
            #[trigger] after[a],
            after[b].voter,
            #[trigger] after[b].song,
        ) by {
            if b == entries.len() {
                assert(!same_key(entries[a], voter, song));
            } else {
                assert(after[a] == entries[a] && after[b] == entries[b]);
            }
        }
        assert(same_key(after[entries.len() as int], voter, song));
    }
    assert forall|k: int| 0 <= k < after.len() implies decision_in_range(#[trigger] after[k].decision) by {
        if k < entries.len() {
            assert(after[k] == entries[k] || after[k] == e);
        }
    }
    assert forall|a: int, b: int|
        0 <= a < after.len() && 0 <= b < after.len() && same_key(#[trigger] after[a], voter, song)
            && same_key(#[trigger] after[b], voter, song) implies a == b by {
        lemma_key_unique(after, voter, song, a, b);
    }
    let w = choose|w: int| 0 <= w < after.len() && same_key(#[trigger] after[w], voter, song) && after[w].decision == d;
    let c = choose|c: int| 0 <= c < after.len() && same_key(#[trigger] after[c], voter, song);
    lemma_key_unique(after, voter, song, w, c);
}

/// Last vote wins: after a voter's decisions `d1` then `d2` on one song, the
/// ledger holds exactly one row for that pair, it carries `d2`, and the
/// ledger is the one that the vote `d2` alone would have left.
pub proof fn lemma_last_vote_wins(
    entries: Seq<VoteEntry>,
    voter: u128,
    song: Seq<char>,
    d1: int,
    d2: int,
)
    requires
        entries_wf(entries),
        decision_in_range(d1),
        decision_in_range(d2),
    ensures
        ({
            let after = upsert(upsert(entries, voter, song, d1), voter, song, d2);
            &&& exists|i: int|
                0 <= i < after.len() && same_key(#[trigger] after[i], voter, song) && after[i].decision
                    == d2
            &&& forall|i: int, j: int|
                0 <= i < after.len() && 0 <= j < after.len() && same_key(#[trigger] after[i], voter, song)
                    && same_key(#[trigger] after[j], voter, song) ==> i == j
            &&& after == upsert(entries, voter, song, d2)
        }),
{
    let mid = upsert(entries, voter, song, d1);
    lemma_upsert(entries, voter, song, d1);
    lemma_upsert(mid, voter, song, d2);
    let e2 = VoteEntry { voter, song, decision: d2 };
    let w = choose|w: int| 0 <= w < mid.len() && same_key(#[trigger] mid[w], voter, song);
    if has_key(entries, voter, song) {
        let i = choose|i: int| 0 <= i < entries.len() && same_key(#[trigger] entries[i], voter, song);
        assert(same_key(mid[i], voter, song));
        lemma_key_unique(mid, voter, song, w, i);
        assert(upsert(mid, voter, song, d2) =~= upsert(entries, voter, song, d2));
    } else {
        let last = entries.len() as int;
        assert(same_key(mid[last], voter, song));
        lemma_key_unique(mid, voter, song, w, last);
        assert(upsert(mid, voter, song, d2) =~= upsert(entries, voter, song, d2));
    }
}

/// A song that no row names has score 0.
pub proof fn lemma_score_without_votes(entries: Seq<VoteEntry>, song: Seq<char>)
    requires
        forall|i: int| 0 <= i < entries.len() ==> (#[trigger] entries[i]).song != song,
    ensures
        score_of(entries, song) == 0,
    decreases entries.len(),
{
    if entries.len() > 0 {
        let d = entries.drop_last();
        assert forall|i: int| 0 <= i < d.len() implies (#[trigger] d[i]).song != song by {
            assert(d[i] == entries[i]);
        }
        lemma_score_without_votes(d, song);
        assert(entries.last() == entries[entries.len() - 1]);
    }
}

/// The ranking order is total and strict on songs with different ids: of
/// two such keys exactly one ranks first, and on equal scores the smaller
/// name does.
pub proof fn lemma_ranking_total(a: RankKey, b: RankKey)
    requires
        a.id != b.id,
    ensures
        ranks_before(a, b) != ranks_before(b, a),
        a.score == b.score && text_lt(a.name, b.name) ==> ranks_before(a, b),
        !ranks_before(a, a),
{
    lemma_ranks_before_total(a, b);
    if ranks_before(a, b) {
        lemma_ranks_before_asymmetric(a, b);
    }
    lemma_ranks_before_irreflexive(a);
}

proof fn lemma_sorted_same_elements(a: Seq<CandidateView>, b: Seq<CandidateView>)
    requires
        sorted_strict(a),
        sorted_strict(b),
        forall|x: CandidateView| a.contains(x) <==> b.contains(x),
    ensures
        a == b,
    decreases a.len(),
{
    if a.len() == 0 {
        if b.len() > 0 {
            assert(b.contains(b[0]));
        }
        assert(a =~= b);
    } else {
        assert(a.contains(a[0]));
        assert(b.contains(a[0]));
        assert(b.contains(b[0]));
        assert(a.contains(b[0]));
        let k = choose|k: int| 0 <= k < b.len() && b[k] == a[0];
        let m = choose|m: int| 0 <= m < a.len() && a[m] == b[0];
        if k > 0 {
            if m == 0 {
                lemma_ranks_before_irreflexive(key_of(b[0]));
            } else {
                lemma_ranks_before_asymmetric(key_of(a[0]), key_of(b[0]));
            }
        }
        assert(k == 0);
        let a1 = a.drop_first();
        let b1 = b.drop_first();
        assert forall|x: CandidateView| a1.contains(x) implies b1.contains(x) by {
            let i = choose|i: int| 0 <= i < a1.len() && a1[i] == x;
            assert(a[i + 1] == x);
            lemma_ranks_before_irreflexive(key_of(a[0]));
            assert(a.contains(x));
            let j = choose|j: int| 0 <= j < b.len() && b[j] == x;
            assert(b1[j - 1] == x);
        }
        assert forall|x: CandidateView| b1.contains(x) implies a1.contains(x) by {
            let i = choose|i: int| 0 <= i < b1.len() && b1[i] == x;
            assert(b[i + 1] == x);
            lemma_ranks_before_irreflexive(key_of(b[0]));
            assert(b.contains(x));
            let j = choose|j: int| 0 <= j < a.len() && a[j] == x;
            assert(a1[j - 1] == x);
        }
        assert(sorted_strict(a1)) by {
            assert forall|p: int, q: int| 0 <= p < q < a1.len() implies ranks_before(key_of(#[trigger] a1[p]), key_of(#[trigger] a1[q])) by {
                assert(a1[p] == a[p + 1] && a1[q] == a[q + 1]);
            }
        }
        assert(sorted_strict(b1)) by {
            assert forall|p: int, q: int| 0 <= p < q < b1.len() implies ranks_before(key_of(#[trigger] b1[p]), key_of(#[trigger] b1[q])) by {
                assert(b1[p] == b[p + 1] && b1[q] == b[q + 1]);
            }
        }
        lemma_sorted_same_elements(a1, b1);
        assert(a[0] == b[0]);
        assert(a.len() == b.len());
        assert forall|i: int| 0 <= i < a.len() implies a[i] == b[i] by {
            if i > 0 {
                assert(a[i] == a1[i - 1] && b[i] == b1[i - 1]);
            }
        }
        assert(a =~= b);
    }
}

/// The ranking is reproducible: on one catalog and one ledger, any two
/// rankings for a voter are the same sequence.
pub proof fn lemma_ranking_unique(
    songs: Seq<SongView>,
    entries: Seq<VoteEntry>,
    voter: u128,
    r1: Seq<CandidateView>,
    r2: Seq<CandidateView>,
)
    requires
        is_ranking(songs, entries, voter, r1),
        is_ranking(songs, entries, voter, r2),
    ensures
        r1 == r2,
{
    assert forall|x: CandidateView| r1.contains(x) implies r2.contains(x) by {
        let k = choose|k: int| 0 <= k < r1.len() && r1[k] == x;
        let i = choose|i: int| 0 <= i < songs.len() && is_eligible(songs[i]) && #[trigger] r1[k] == crate::queue::candidate_of(songs[i], entries, voter);
        assert(is_eligible(songs[i]));
    }
    assert forall|x: CandidateView| r2.contains(x) implies r1.contains(x) by {
        let k = choose|k: int| 0 <= k < r2.len() && r2[k] == x;
        let i = choose|i: int| 0 <= i < songs.len() && is_eligible(songs[i]) && #[trigger] r2[k] == crate::queue::candidate_of(songs[i], entries, voter);
        assert(is_eligible(songs[i]));
    }
    lemma_sorted_same_elements(r1, r2);
}

/// A pool with no eligible song stays as it is under any selection step,
/// and the step hands out nothing.
pub proof fn lemma_drained_pool(
    before: Seq<SongView>,
    entries: Seq<VoteEntry>,
    now: i64,
    after: Seq<SongView>,
    r: Option<SongView>,
)
    requires
        none_eligible(before),
        picks(before, entries, now, after, r),
    ensures
        r is None,
        after == before,
{
    if r is Some {
        let t = choose|t: int|
            is_top(before, entries, t) && r->0 == played(before[t], now) && after == before.update(t, r->0);
        assert(is_eligible(before[t]));
    }
}

proof fn lemma_drained_run(
    states: Seq<Seq<SongView>>,
    entries: Seq<VoteEntry>,
    times: Seq<i64>,
    results: Seq<Option<SongView>>,
    n: int,
)
    requires
        states.len() == results.len() + 1,
        times.len() == results.len(),
        1 <= n < states.len(),
        none_eligible(states[1]),
        forall|m: int|
            0 <= m < results.len() ==> picks(#[trigger] states[m], entries, times[m], states[m + 1], results[m]),
    ensures
        states[n] == states[1],
        n < results.len() ==> results[n] is None,
    decreases n,
{
    if n > 1 {
        lemma_drained_run(states, entries, times, results, n - 1);
        assert(picks(states[n - 1], entries, times[n - 1], states[n], results[n - 1]));
        lemma_drained_pool(states[n - 1], entries, times[n - 1], states[n], results[n - 1]);
    }
    if n < results.len() {
        assert(picks(states[n], entries, times[n], states[n + 1], results[n]));
        lemma_drained_pool(states[n], entries, times[n], states[n + 1], results[n]);
    }
}

/// Exactly one winner: when the pool holds exactly one eligible song, in any
/// run of selection steps the first hands out that song, marked played, and
/// every later step hands out nothing and changes nothing; the song turns
/// played exactly once.
pub proof fn lemma_single_song_selected_once(
    states: Seq<Seq<SongView>>,
    entries: Seq<VoteEntry>,
    times: Seq<i64>,
    results: Seq<Option<SongView>>,
    k: int,
)
    requires
        results.len() >= 1,
        states.len() == results.len() + 1,
        times.len() == results.len(),
        0 <= k < states[0].len(),
        is_eligible(states[0][k]),
        forall|j: int| 0 <= j < states[0].len() && j != k ==> !is_eligible(#[trigger] states[0][j]),
        forall|m: int|
            0 <= m < results.len() ==> picks(#[trigger] states[m], entries, times[m], states[m + 1], results[m]),
    ensures
        results[0] == Some(played(states[0][k], times[0])),
        forall|m: int| 1 <= m < results.len() ==> (#[trigger] results[m]) is None,
        forall|m: int|
            1 <= m < states.len() ==> #[trigger] states[m] == states[0].update(
                k,
                played(states[0][k], times[0]),
            ),
{
    let s0 = states[0];
    assert(picks(s0, entries, times[0], states[1], results[0]));
    if results[0] is None {
        assert(!is_eligible(s0[k]));
    }
    let t = choose|t: int|
        is_top(s0, entries, t) && results[0]->0 == played(s0[t], times[0]) && states[1] == s0.update(
            t,
            results[0]->0,
        );
    assert(t == k);
    assert(none_eligible(states[1])) by {
        assert forall|j: int| 0 <= j < states[1].len() implies !is_eligible(#[trigger] states[1][j]) by {
            if j != k {
                assert(states[1][j] == s0[j]);
            }
        }
    }
    assert forall|m: int| 1 <= m < results.len() implies (#[trigger] results[m]) is None by {
        lemma_drained_run(states, entries, times, results, m);
    }
    assert forall|m: int| 1 <= m < states.len() implies #[trigger] states[m] == states[0].update(
        k,
        played(states[0][k], times[0]),
    ) by {
        lemma_drained_run(states, entries, times, results, m);
    }
}

} // verus!

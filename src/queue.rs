use vstd::prelude::*;

use crate::candidate::{Candidate, CandidateView};
use crate::ledger::{
    decision_in_range, entries_wf, own_decision, score_of, upsert, EngineError, VoteEntry, VoteLedger,
};
use crate::order::{
    lemma_ranks_before_total, lemma_ranks_before_transitive, ranks_before, text_less, RankKey,
};

verus! {

/// A song of the catalog. `played_at` is `None` while the song waits to be
/// played, and holds the time it was picked (microseconds since the Unix
/// epoch) once it has been.
#[derive(Clone, Debug)]
pub struct Song {
    pub id: String,
    pub name: String,
    pub played_at: Option<i64>,
}

pub struct SongView {
    pub id: Seq<char>,
    pub name: Seq<char>,
    pub played_at: Option<i64>,
}

impl View for Song {
    type V = SongView;

    open spec fn view(&self) -> SongView {
        SongView { id: self.id@, name: self.name@, played_at: self.played_at }
    }
}

pub open spec fn is_eligible(s: SongView) -> bool {
    s.played_at is None
}

pub open spec fn ids_distinct(songs: Seq<SongView>) -> bool {
    forall|i: int, j: int| 0 <= i < j < songs.len() ==> #[trigger] songs[i].id != #[trigger] songs[j].id
}

/// The candidate that `song` is to `voter`.
pub open spec fn candidate_of(song: SongView, entries: Seq<VoteEntry>, voter: u128) -> CandidateView {
    CandidateView {
        id: song.id,
        name: song.name,
        score: score_of(entries, song.id),
        voter_decision: own_decision(entries, voter, song.id),
    }
}

pub open spec fn key_of(c: CandidateView) -> RankKey {
    RankKey { score: c.score, name: c.name, id: c.id }
}

pub open spec fn song_key(song: SongView, entries: Seq<VoteEntry>) -> RankKey {
    RankKey { score: score_of(entries, song.id), name: song.name, id: song.id }
}

pub open spec fn sorted_strict(cs: Seq<CandidateView>) -> bool {
    forall|a: int, b: int|
        0 <= a < b < cs.len() ==> ranks_before(key_of(#[trigger] cs[a]), key_of(#[trigger] cs[b]))
}

/// `r` is the ranked view of the eligible songs for `voter`: exactly those
/// candidates, strictly ordered by score, name and id.
pub open spec fn is_ranking(
    songs: Seq<SongView>,
    entries: Seq<VoteEntry>,
    voter: u128,
    r: Seq<CandidateView>,
) -> bool {
    &&& sorted_strict(r)
    &&& forall|k: int|
        0 <= k < r.len() ==> exists|i: int|
            0 <= i < songs.len() && is_eligible(songs[i]) && #[trigger] r[k] == candidate_of(
                songs[i],
                entries,
                voter,
            )
    &&& forall|i: int|
        0 <= i < songs.len() && is_eligible(#[trigger] songs[i]) ==> r.contains(
            candidate_of(songs[i], entries, voter),
        )
}

pub open spec fn views(cs: Seq<Candidate>) -> Seq<CandidateView> {
    cs.map_values(|c: Candidate| c@)
}

/// Whether `a` ranks strictly above `b`.
pub fn precedes(a: &Candidate, b: &Candidate) -> (r: bool)
    ensures
        r == ranks_before(key_of(a@), key_of(b@)),
{
    a.score > b.score || (a.score == b.score && (text_less(a.name.as_str(), b.name.as_str()) || (
    a.name == b.name && text_less(a.id.as_str(), b.id.as_str()))))
}

/// Song `t` is eligible and ranks above every other eligible song.
pub open spec fn is_top(songs: Seq<SongView>, entries: Seq<VoteEntry>, t: int) -> bool {
    &&& 0 <= t < songs.len()
    &&& is_eligible(songs[t])
    &&& forall|j: int|
        0 <= j < songs.len() && j != t && is_eligible(#[trigger] songs[j]) ==> ranks_before(
            song_key(songs[t], entries),
            song_key(songs[j], entries),
        )
}

pub open spec fn none_eligible(songs: Seq<SongView>) -> bool {
    forall|i: int| 0 <= i < songs.len() ==> !is_eligible(#[trigger] songs[i])
}

pub open spec fn played(song: SongView, now: i64) -> SongView {
    SongView { id: song.id, name: song.name, played_at: Some(now) }
}

/// One playback step from `before` to `after`: with no eligible song nothing
/// changes and nothing is picked; otherwise the top song, and no other, is
/// marked played at `now` and handed out.
pub open spec fn picks(
    before: Seq<SongView>,
    entries: Seq<VoteEntry>,
    now: i64,
    after: Seq<SongView>,
    r: Option<SongView>,
) -> bool {
    match r {
        None => none_eligible(before) && after == before,
        Some(s) => exists|t: int|
            is_top(before, entries, t) && s == played(before[t], now) && after == before.update(t, s),
    }
}

pub open spec fn song_opt_view(r: Option<Song>) -> Option<SongView> {
    match r {
        Some(s) => Some(s@),
        None => None,
    }
}

/// Whether a song with score `sa` ranks strictly above one with score `sb`.
fn song_precedes(sa: i128, a: &Song, sb: i128, b: &Song) -> (r: bool)
    ensures
        r == ranks_before(
            RankKey { score: sa as int, name: a.name@, id: a.id@ },
            RankKey { score: sb as int, name: b.name@, id: b.id@ },
        ),
{
    sa > sb || (sa == sb && (text_less(a.name.as_str(), b.name.as_str()) || (a.name == b.name
        && text_less(a.id.as_str(), b.id.as_str()))))
}

/// Relies on `chrono::Utc::now`: the current time, as microseconds since
/// the Unix epoch. Nothing is promised of the value.
#[verifier::external_body]
fn now_micros() -> (r: i64) {
    chrono::Utc::now().timestamp_micros()
}

/// The song catalog together with the vote ledger.
pub struct Jukebox {
    songs: Vec<Song>,
    ledger: VoteLedger,
}

impl Jukebox {
    /// An empty catalog with an empty ledger.
    pub fn new() -> (r: Jukebox)
        ensures
            r.wf(),
            r.song_views() == Seq::<SongView>::empty(),
            r.votes() == Seq::<VoteEntry>::empty(),
    {
        let r = Jukebox { songs: Vec::new(), ledger: VoteLedger::new() };
        assert(r.song_views() =~= Seq::<SongView>::empty());
        r
    }

    /// The songs of the catalog, played or not.
    pub fn songs(&self) -> (r: &Vec<Song>)
        ensures
            r@.map_values(|s: Song| s@) == self.song_views(),
    {
        &self.songs
    }

    /// Puts `songs` in place of the catalog; the ledger stays.
    pub(crate) fn replace_songs(&mut self, songs: Vec<Song>)
        requires
            old(self).wf(),
            ids_distinct(songs@.map_values(|s: Song| s@)),
        ensures
            final(self).wf(),
            final(self).votes() == old(self).votes(),
            final(self).song_views() == songs@.map_values(|s: Song| s@),
    {
        self.songs = songs;
    }

    /// The ledger of votes.
    pub fn ledger(&self) -> (r: &VoteLedger)
        ensures
            r@ == self.votes(),
    {
        &self.ledger
    }

    /// Adds a song, played or not, to the catalog. A song whose id is taken
    /// is refused (`false`) and the catalog is left as it was.
    pub fn insert_song(&mut self, song: Song) -> (r: bool)
        requires
            old(self).wf(),
        ensures
            final(self).wf(),
            final(self).votes() == old(self).votes(),
            r == !(exists|i: int|
                0 <= i < old(self).song_views().len() && (#[trigger] old(self).song_views()[i]).id
                    == song@.id),
            r ==> final(self).song_views() == old(self).song_views().push(song@),
            !r ==> final(self).song_views() == old(self).song_views(),
    {
        let ghost before = self.song_views();
        let ghost sv = song@;
        let mut i: usize = 0;
        while i < self.songs.len()
            invariant
                before == self.song_views(),
                before == old(self).song_views(),
                self.votes() == old(self).votes(),
                self.wf(),
                sv == song@,
                i <= self.songs@.len(),
                forall|k: int| 0 <= k < i ==> (#[trigger] before[k]).id != sv.id,
            decreases self.songs@.len() - i,
        {
            if self.songs[i].id == song.id {
                assert(before[i as int].id == sv.id);
                return false;
            }
            i = i + 1;
        }
        self.songs.push(song);
        assert(self.song_views() =~= before.push(sv));
        true
    }

    /// Adds an eligible song to the catalog; see `insert_song`.
    pub fn add_song(&mut self, id: String, name: String) -> (r: bool)
        requires
            old(self).wf(),
        ensures
            final(self).wf(),
            final(self).votes() == old(self).votes(),
            r == !(exists|i: int|
                0 <= i < old(self).song_views().len() && (#[trigger] old(self).song_views()[i]).id
                    == id@),
            r ==> final(self).song_views() == old(self).song_views().push(
                SongView { id: id@, name: name@, played_at: None },
            ),
            !r ==> final(self).song_views() == old(self).song_views(),
    {
        self.insert_song(Song { id, name, played_at: None })
    }

    /// Records a vote; see `VoteLedger::record_vote`. The catalog is left
    /// as it was.
    pub fn record_vote(&mut self, voter: u128, song: String, decision: i64) -> (r: Result<
        (),
        EngineError,
    >)
        requires
            old(self).wf(),
        ensures
            final(self).wf(),
            final(self).song_views() == old(self).song_views(),
            decision_in_range(decision as int) ==> r is Ok && final(self).votes() == upsert(
                old(self).votes(),
                voter,
                song@,
                decision as int,
            ),
            !decision_in_range(decision as int) ==> r == Err::<(), EngineError>(
                EngineError::Validation,
            ) && final(self).votes() == old(self).votes(),
    {
        self.ledger.record_vote(voter, song, decision)
    }

    /// The score of the song with id `song`.
    pub fn score(&self, song: &String) -> (r: i128)
        requires
            self.wf(),
        ensures
            r == score_of(self.votes(), song@),
    {
        self.ledger.score(song)
    }

    /// The position of the top-ranked eligible song, if any.
    fn top_index(&self) -> (r: Option<usize>)
        requires
            self.wf(),
        ensures
            r is None <==> none_eligible(self.song_views()),
            r matches Some(t) ==> is_top(self.song_views(), self.votes(), t as int),
    {
        let ghost songs = self.song_views();
        let ghost entries = self.votes();
        let n = self.songs.len();
        let mut best: Option<usize> = None;
        let mut best_score: i128 = 0;
        let mut i: usize = 0;
        while i < n
            invariant
                songs == self.song_views(),
                entries == self.votes(),
                self.wf(),
                n == songs.len(),
                i <= n,
                best is None ==> forall|j: int| 0 <= j < i ==> !is_eligible(#[trigger] songs[j]),
                best matches Some(t) ==> {
                    &&& t < i
                    &&& is_eligible(songs[t as int])
                    &&& best_score == score_of(entries, songs[t as int].id)
                    &&& forall|j: int|
                        0 <= j < i && j != t && is_eligible(#[trigger] songs[j]) ==> ranks_before(
                            song_key(songs[t as int], entries),
                            song_key(songs[j], entries),
                        )
                },
            decreases n - i,
        {
            let song = &self.songs[i];
            assert(song@ == songs[i as int]);
            if song.played_at.is_none() {
                let sc = self.ledger.score(&song.id);
                match best {
                    None => {
                        best = Some(i);
                        best_score = sc;
                    },
                    Some(t) => {
                        let cur = &self.songs[t];
                        assert(cur@ == songs[t as int]);
                        let ghost kt = song_key(songs[t as int], entries);
                        let ghost ki = song_key(songs[i as int], entries);
                        if song_precedes(sc, song, best_score, cur) {
                            proof {
                                assert forall|j: int|
                                    0 <= j < i + 1 && j != i && is_eligible(#[trigger] songs[j]) implies ranks_before(
                                    ki,
                                    song_key(songs[j], entries),
                                ) by {
                                    if j != t {
                                        lemma_ranks_before_transitive(ki, kt, song_key(songs[j], entries));
                                    }
                                }
                            }
                            best = Some(i);
                            best_score = sc;
                        } else {
                            proof {
                                assert(songs[t as int].id != songs[i as int].id);
                                lemma_ranks_before_total(ki, kt);
                            }
                        }
                    },
                }
            }
            i = i + 1;
        }
        best
    }

    /// Picks the top-ranked eligible song, marks it played at `now` and
    /// returns it as it now stands. With no eligible song nothing changes.
    pub fn select_next_at(&mut self, now: i64) -> (r: Option<Song>)
        requires
            old(self).wf(),
        ensures
            final(self).wf(),
            final(self).votes() == old(self).votes(),
            picks(old(self).song_views(), old(self).votes(), now, final(self).song_views(), song_opt_view(r)),
    {
        let ghost before = self.song_views();
        match self.top_index() {
            None => None,
            Some(t) => {
                let cur = &self.songs[t];
                assert(cur@ == before[t as int]);
                let kept = Song { id: cur.id.clone(), name: cur.name.clone(), played_at: Some(now) };
                let handed = Song { id: cur.id.clone(), name: cur.name.clone(), played_at: Some(now) };
                self.songs.set(t, kept);
                assert(self.song_views() =~= before.update(t as int, played(before[t as int], now)));
                assert(handed@ == played(before[t as int], now));
                Some(handed)
            },
        }
    }

    /// Picks the top-ranked eligible song and marks it played at the
    /// current time; see `select_next_at`.
    pub fn select_next(&mut self) -> (r: Option<Song>)
        requires
            old(self).wf(),
        ensures
            final(self).wf(),
            final(self).votes() == old(self).votes(),
            exists|now: i64|
                picks(old(self).song_views(), old(self).votes(), now, final(self).song_views(), song_opt_view(r)),
    {
        let now = now_micros();
        self.select_next_at(now)
    }

    pub closed spec fn song_views(&self) -> Seq<SongView> {
        self.songs@.map_values(|s: Song| s@)
    }

    pub closed spec fn votes(&self) -> Seq<VoteEntry> {
        self.ledger@
    }

    /// Song ids are unique, and the ledger holds one row per key with
    /// decisions in range.
    pub open spec fn wf(&self) -> bool {
        &&& ids_distinct(self.song_views())
        &&& entries_wf(self.votes())
    }

    /// The candidates that the eligible songs are to `voter`, best first:
    /// higher score, then smaller name, then smaller id.
    pub fn ranked_candidates(&self, voter: u128) -> (r: Vec<Candidate>)
        requires
            self.wf(),
        ensures
            is_ranking(self.song_views(), self.votes(), voter, views(r@)),
    {
        let ghost songs = self.song_views();
        let ghost entries = self.votes();
        let n = self.songs.len();
        let mut out: Vec<Candidate> = Vec::new();
        let mut i: usize = 0;
        while i < n
            invariant
                songs == self.song_views(),
                entries == self.votes(),
                self.wf(),
                n == songs.len(),
                i <= n,
                sorted_strict(views(out@)),
                forall|k: int|
                    0 <= k < out@.len() ==> exists|j: int|
                        0 <= j < i && is_eligible(songs[j]) && #[trigger] views(out@)[k]
                            == candidate_of(songs[j], entries, voter),
                forall|j: int|
                    0 <= j < i && is_eligible(#[trigger] songs[j]) ==> views(out@).contains(
                        candidate_of(songs[j], entries, voter),
                    ),
            decreases n - i,
        {
            let song = &self.songs[i];
            assert(song@ == songs[i as int]);
            if song.played_at.is_none() {
                let c = Candidate {
                    id: song.id.clone(),
                    name: song.name.clone(),
                    score: self.ledger.score(&song.id),
                    voter_decision: self.ledger.decision_of(voter, &song.id),
                };
                let ghost cv = candidate_of(songs[i as int], entries, voter);
                assert(c@ == cv);
                let ghost vs = views(out@);
                let mut p: usize = 0;
                while p < out.len() && !precedes(&c, &out[p])
                    invariant
                        vs == views(out@),
                        c@ == cv,
                        p <= out@.len(),
                        forall|q: int| 0 <= q < p ==> !ranks_before(key_of(cv), key_of(#[trigger] vs[q])),
                    decreases out@.len() - p,
                {
                    p = p + 1;
                }
                proof {
                    assert forall|q: int| 0 <= q < p implies ranks_before(key_of(#[trigger] vs[q]), key_of(cv)) by {
                        let j = choose|j: int|
                            0 <= j < i && is_eligible(songs[j]) && #[trigger] views(out@)[q]
                                == candidate_of(songs[j], entries, voter);
                        assert(songs[j].id != songs[i as int].id);
                        lemma_ranks_before_total(key_of(vs[q]), key_of(cv));
                    }
                    assert forall|q: int| p <= q < vs.len() implies ranks_before(key_of(cv), key_of(#[trigger] vs[q])) by {
                        if q > p {
                            lemma_ranks_before_transitive(key_of(cv), key_of(vs[p as int]), key_of(vs[q]));
                        }
                    }
                }
                out.insert(p, c);
                let ghost ws = views(out@);
                assert(ws =~= vs.insert(p as int, cv));
                proof {
                    assert forall|a: int, b: int| 0 <= a < b < ws.len() implies ranks_before(key_of(#[trigger] ws[a]), key_of(#[trigger] ws[b])) by {
                        if b < p {
                            assert(ws[a] == vs[a] && ws[b] == vs[b]);
                        } else if b == p {
                            assert(ws[a] == vs[a]);
                        } else if a < p {
                            assert(ws[a] == vs[a] && ws[b] == vs[b - 1]);
                        } else if a == p {
                            assert(ws[b] == vs[b - 1]);
                        } else {
                            assert(ws[a] == vs[a - 1] && ws[b] == vs[b - 1]);
                        }
                    }
                    assert forall|k: int| 0 <= k < ws.len() implies exists|j: int|
                        0 <= j < i + 1 && is_eligible(songs[j]) && #[trigger] ws[k] == candidate_of(songs[j], entries, voter) by {
                        if k < p {
                            assert(ws[k] == vs[k]);
                        } else if k == p {
                            assert(ws[k] == candidate_of(songs[i as int], entries, voter));
                        } else {
                            assert(ws[k] == vs[k - 1]);
                        }
                    }
                    assert forall|j: int| 0 <= j < i + 1 && is_eligible(#[trigger] songs[j]) implies ws.contains(candidate_of(songs[j], entries, voter)) by {
                        if j == i {
                            assert(ws[p as int] == cv);
                        } else {
                            let m = choose|m: int| 0 <= m < vs.len() && vs[m] == candidate_of(songs[j], entries, voter);
                            if m < p {
                                assert(ws[m] == vs[m]);
                            } else {
                                assert(ws[m + 1] == vs[m]);
                            }
                        }
                    }
                }
            }
            i = i + 1;
        }
        out
    }
}

} // verus!

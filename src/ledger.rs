use vstd::prelude::*;

verus! {

/// The smallest decision a voter may cast.
pub const MIN_DECISION: i64 = -127;

/// The largest decision a voter may cast.
pub const MAX_DECISION: i64 = 127;

/// Why an operation of the engine did not take effect.
#[derive(Clone, Copy, Debug, PartialEq, Eq, Structural)]
pub enum EngineError {
    /// A decision outside `MIN_DECISION..=MAX_DECISION`.
    Validation,
    /// The backing store failed; the operation had no effect.
    Storage,
}

pub open spec fn decision_in_range(d: int) -> bool {
    MIN_DECISION <= d && d <= MAX_DECISION
}

/// One live decision of a voter on a song, as the contracts see it.
pub struct VoteEntry {
    pub voter: u128,
    pub song: Seq<char>,
    pub decision: int,
}

/// One row of the ledger.
#[derive(Clone, Debug)]
pub struct VoteRow {
    pub voter: u128,
    pub song: String,
    pub decision: i64,
}

impl View for VoteRow {
    type V = VoteEntry;

    open spec fn view(&self) -> VoteEntry {
        VoteEntry { voter: self.voter, song: self.song@, decision: self.decision as int }
    }
}

pub open spec fn same_key(e: VoteEntry, voter: u128, song: Seq<char>) -> bool {
    e.voter == voter && e.song == song
}

pub open spec fn has_key(entries: Seq<VoteEntry>, voter: u128, song: Seq<char>) -> bool {
    exists|i: int| 0 <= i < entries.len() && same_key(#[trigger] entries[i], voter, song)
}

/// At most one row per (voter, song), and every decision in range.
pub open spec fn entries_wf(entries: Seq<VoteEntry>) -> bool {
    &&& forall|i: int, j: int|
        0 <= i < j < entries.len() ==> !same_key(
            #[trigger] entries[i],
            entries[j].voter,
            #[trigger] entries[j].song,
        )
    &&& forall|i: int| 0 <= i < entries.len() ==> decision_in_range(#[trigger] entries[i].decision)
}

/// The ledger after an insert-or-replace of `decision` under (voter, song).
pub open spec fn upsert(entries: Seq<VoteEntry>, voter: u128, song: Seq<char>, decision: int) -> Seq<
    VoteEntry,
> {
    if has_key(entries, voter, song) {
        let i = choose|i: int| 0 <= i < entries.len() && same_key(#[trigger] entries[i], voter, song);
        entries.update(i, VoteEntry { voter, song, decision })
    } else {
        entries.push(VoteEntry { voter, song, decision })
    }
}

/// The signed sum of the decisions on `song`; 0 where there are none.
pub open spec fn score_of(entries: Seq<VoteEntry>, song: Seq<char>) -> int
    decreases entries.len(),
{
    if entries.len() == 0 {
        0
    } else {
        score_of(entries.drop_last(), song) + if entries.last().song == song {
            entries.last().decision
        } else {
            0
        }
    }
}

/// The decision that `voter` has cast on `song`, if any.
pub open spec fn own_decision(entries: Seq<VoteEntry>, voter: u128, song: Seq<char>) -> Option<int> {
    if has_key(entries, voter, song) {
        let i = choose|i: int| 0 <= i < entries.len() && same_key(#[trigger] entries[i], voter, song);
        Some(entries[i].decision)
    } else {
        None
    }
}

/// Two rows with one key are one row.
pub proof fn lemma_key_unique(entries: Seq<VoteEntry>, voter: u128, song: Seq<char>, i: int, j: int)
    requires
        entries_wf(entries),
        0 <= i < entries.len(),
        0 <= j < entries.len(),
        same_key(entries[i], voter, song),
        same_key(entries[j], voter, song),
    ensures
        i == j,
{
    if i < j {
        assert(!same_key(entries[i], entries[j].voter, entries[j].song));
    } else if j < i {
        assert(!same_key(entries[j], entries[i].voter, entries[i].song));
    }
}

proof fn lemma_score_bound(entries: Seq<VoteEntry>, song: Seq<char>)
    requires
        forall|i: int| 0 <= i < entries.len() ==> decision_in_range(#[trigger] entries[i].decision),
    ensures
        -127 * entries.len() <= score_of(entries, song) <= 127 * entries.len(),
    decreases entries.len(),
{
    if entries.len() > 0 {
        let d = entries.drop_last();
        assert forall|i: int| 0 <= i < d.len() implies decision_in_range(#[trigger] d[i].decision) by {
            assert(d[i] == entries[i]);
        }
        lemma_score_bound(d, song);
        assert(decision_in_range(entries[entries.len() - 1].decision));
    }
}

/// Accepts a decision in `MIN_DECISION..=MAX_DECISION`.
pub fn check_decision(decision: i64) -> (r: Result<i64, EngineError>)
    ensures
        decision_in_range(decision as int) ==> r == Ok::<i64, EngineError>(decision),
        !decision_in_range(decision as int) ==> r == Err::<i64, EngineError>(EngineError::Validation),
{
    if MIN_DECISION <= decision && decision <= MAX_DECISION {
        Ok(decision)
    } else {
        Err(EngineError::Validation)
    }
}

/// The votes cast so far: one live decision per (voter, song).
pub struct VoteLedger {
    rows: Vec<VoteRow>,
}

impl View for VoteLedger {
    type V = Seq<VoteEntry>;

    closed spec fn view(&self) -> Seq<VoteEntry> {
        self.rows@.map_values(|r: VoteRow| r@)
    }
}

impl VoteLedger {
    pub open spec fn wf(&self) -> bool {
        entries_wf(self@)
    }

    /// An empty ledger.
    pub fn new() -> (r: VoteLedger)
        ensures
            r.wf(),
            r@ == Seq::<VoteEntry>::empty(),
    {
        let r = VoteLedger { rows: Vec::new() };
        assert(r@ =~= Seq::<VoteEntry>::empty());
        r
    }

    /// The number of rows.
    pub fn len(&self) -> (n: usize)
        ensures
            n == self@.len(),
    {
        self.rows.len()
    }

    /// The row at position `i`.
    pub fn row(&self, i: usize) -> (r: &VoteRow)
        requires
            i < self@.len(),
        ensures
            r@ == self@[i as int],
    {
        &self.rows[i]
    }

    /// The position of the row for (voter, song), if there is one.
    pub fn find(&self, voter: u128, song: &String) -> (r: Option<usize>)
        ensures
            r is None <==> !has_key(self@, voter, song@),
            r matches Some(i) ==> i < self@.len() && same_key(self@[i as int], voter, song@),
    {
        let mut i: usize = 0;
        while i < self.rows.len()
            invariant
                i <= self.rows@.len(),
                self@.len() == self.rows@.len(),
                forall|k: int| 0 <= k < i ==> !same_key(#[trigger] self@[k], voter, song@),
            decreases self.rows@.len() - i,
        {
            let row = &self.rows[i];
            if row.voter == voter && row.song == *song {
                assert(same_key(self@[i as int], voter, song@));
                return Some(i);
            }
            i = i + 1;
        }
        None
    }

    /// The decision of `voter` on `song`, if the voter has cast one.
    pub fn decision_of(&self, voter: u128, song: &String) -> (r: Option<i64>)
        requires
            self.wf(),
        ensures
            r is None <==> own_decision(self@, voter, song@) is None,
            r matches Some(d) ==> own_decision(self@, voter, song@) == Some(d as int),
    {
        match self.find(voter, song) {
            Some(i) => {
                proof {
                    let j = choose|j: int| 0 <= j < self@.len() && same_key(#[trigger] self@[j], voter, song@);
                    lemma_key_unique(self@, voter, song@, i as int, j);
                }
                Some(self.rows[i].decision)
            },
            None => None,
        }
    }

    /// The score of `song`: the sum of every voter's decision on it.
    pub fn score(&self, song: &String) -> (r: i128)
        requires
            self.wf(),
        ensures
            r == score_of(self@, song@),
    {
        let ghost all = self@;
        let n = self.rows.len();
        let mut total: i128 = 0;
        let mut i: usize = 0;
        while i < n
            invariant
                all == self@,
                n == all.len(),
                i <= n,
                entries_wf(all),
                total == score_of(all.subrange(0, i as int), song@),
            decreases n - i,
        {
            let row = &self.rows[i];
            let ghost part = all.subrange(0, i as int);
            proof {
                assert forall|k: int| 0 <= k < part.len() implies decision_in_range(#[trigger] part[k].decision) by {
                    assert(part[k] == all[k]);
                }
                lemma_score_bound(part, song@);
                assert(all.subrange(0, i + 1).drop_last() =~= part);
                assert(row@ == all[i as int]);
                assert(decision_in_range(all[i as int].decision));
            }
            if row.song == *song {
                total = total + row.decision as i128;
            }
            i = i + 1;
        }
        assert(all.subrange(0, n as int) =~= all);
        total
    }

    /// Records `decision` of `voter` on `song`: replaces the row for that
    /// pair if there is one, else adds one. A decision out of range is
    /// refused and leaves the ledger as it was.
    pub fn record_vote(&mut self, voter: u128, song: String, decision: i64) -> (r: Result<
        (),
        EngineError,
    >)
        requires
            old(self).wf(),
        ensures
            final(self).wf(),
            decision_in_range(decision as int) ==> r is Ok && final(self)@ == upsert(
                old(self)@,
                voter,
                song@,
                decision as int,
            ),
            !decision_in_range(decision as int) ==> r == Err::<(), EngineError>(
                EngineError::Validation,
            ) && final(self)@ == old(self)@,
    {
        let d = match check_decision(decision) {
            Ok(d) => d,
            Err(e) => return Err(e),
        };
        let ghost before = self@;
        let ghost key = song@;
        match self.find(voter, &song) {
            Some(i) => {
                proof {
                    let j = choose|j: int| 0 <= j < before.len() && same_key(#[trigger] before[j], voter, key);
                    lemma_key_unique(before, voter, key, i as int, j);
                }
                self.rows.set(i, VoteRow { voter, song, decision: d });
                assert(self@ =~= before.update(i as int, VoteEntry { voter, song: key, decision: d as int }));
            },
            None => {
                self.rows.push(VoteRow { voter, song, decision: d });
                assert(self@ =~= before.push(VoteEntry { voter, song: key, decision: d as int }));
            },
        }
        Ok(())
    }
}

} // verus!

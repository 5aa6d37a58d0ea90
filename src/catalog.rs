use vstd::prelude::*;

use crate::queue::{ids_distinct, Jukebox, Song, SongView};

verus! {

pub open spec fn has_suffix(s: Seq<char>, suffix: Seq<char>) -> bool {
    suffix.len() <= s.len() && s.subrange(s.len() - suffix.len(), s.len() as int) == suffix
}

/// A file of one of the audio kinds the catalog serves.
pub open spec fn is_audio_file(f: Seq<char>) -> bool {
    ||| has_suffix(f, ".mp3"@)
    ||| has_suffix(f, ".ogg"@)
    ||| has_suffix(f, ".wav"@)
    ||| has_suffix(f, ".m4a"@)
}

/// The display name of an audio file: its name without the four-character
/// extension, or the whole name where nothing stands before the extension.
pub open spec fn stem_of(f: Seq<char>) -> Seq<char> {
    if f.len() > 4 {
        f.subrange(0, f.len() - 4)
    } else {
        f
    }
}

/// Whether `files` holds an audio file named `id`.
#[verifier::opaque]
pub open spec fn listed(files: Seq<Seq<char>>, id: Seq<char>) -> bool {
    exists|f: int| 0 <= f < files.len() && #[trigger] files[f] == id && is_audio_file(id)
}

/// Whether `s` ends with `suffix`.
pub fn ends_with(s: &str, suffix: &str) -> (r: bool)
    ensures
        r == has_suffix(s@, suffix@),
{
    let n = s.unicode_len();
    let m = suffix.unicode_len();
    if m > n {
        return false;
    }
    let base = n - m;
    let mut i: usize = 0;
    while i < m
        invariant
            n == s@.len(),
            m == suffix@.len(),
            base == n - m,
            i <= m,
            forall|k: int| 0 <= k < i ==> s@[base + k] == suffix@[k],
        decreases m - i,
    {
        if s.get_char(base + i) != suffix.get_char(i) {
            assert(s@.subrange(base as int, n as int)[i as int] != suffix@[i as int]);
            return false;
        }
        i = i + 1;
    }
    assert(s@.subrange(base as int, n as int) =~= suffix@);
    true
}

/// Whether a file name is one of an audio file.
pub fn audio_file(f: &str) -> (r: bool)
    ensures
        r == is_audio_file(f@),
{
    ends_with(f, ".mp3") || ends_with(f, ".ogg") || ends_with(f, ".wav") || ends_with(f, ".m4a")
}

/// The song that an audio file becomes: its file name as id, its stem as
/// name, not played yet.
pub fn song_of_file(f: &str) -> (r: Option<Song>)
    ensures
        is_audio_file(f@) ==> (r matches Some(s) && s@ == (SongView {
            id: f@,
            name: stem_of(f@),
            played_at: None,
        })),
        !is_audio_file(f@) ==> r is None,
{
    if !audio_file(f) {
        return None;
    }
    let n = f.unicode_len();
    let name = if n > 4 {
        String::from_str(f.substring_char(0, n - 4))
    } else {
        String::from_str(f)
    };
    Some(Song { id: String::from_str(f), name, played_at: None })
}

/// Whether `files` holds an audio file named `id`.
fn find_listed(files: &Vec<String>, id: &String) -> (r: bool)
    ensures
        r == listed(files@.map_values(|s: String| s@), id@),
{
    let ghost fv = files@.map_values(|s: String| s@);
    if !audio_file(id.as_str()) {
        reveal(listed);
        return false;
    }
    let mut i: usize = 0;
    while i < files.len()
        invariant
            fv == files@.map_values(|s: String| s@),
            is_audio_file(id@),
            i <= files@.len(),
            forall|k: int| 0 <= k < i ==> #[trigger] fv[k] != id@,
        decreases files@.len() - i,
    {
        if files[i] == *id {
            assert(fv[i as int] == id@);
            reveal(listed);
            return true;
        }
        i = i + 1;
    }
    reveal(listed);
    false
}

pub open spec fn song_views(songs: Seq<Song>) -> Seq<SongView> {
    songs.map_values(|s: Song| s@)
}

/// Adds `song` at the end unless a song with its id is there already.
fn push_if_absent(songs: &mut Vec<Song>, song: Song) -> (pushed: bool)
    requires
        ids_distinct(song_views(old(songs)@)),
    ensures
        ids_distinct(song_views(final(songs)@)),
        pushed == !(exists|q: int| 0 <= q < old(songs)@.len() && (#[trigger] old(songs)@[q])@.id == song@.id),
        pushed ==> final(songs)@ == old(songs)@.push(song),
        !pushed ==> final(songs)@ == old(songs)@,
{
    let ghost before = songs@;
    let mut k: usize = 0;
    while k < songs.len()
        invariant
            songs@ == before,
            before == old(songs)@,
            ids_distinct(song_views(songs@)),
            k <= songs@.len(),
            forall|q: int| 0 <= q < k ==> (#[trigger] songs@[q])@.id != song@.id,
        decreases songs@.len() - k,
    {
        if songs[k].id == song.id {
            assert(songs@[k as int]@.id == song@.id);
            assert(songs@ == old(songs)@);
            return false;
        }
        k = k + 1;
    }
    songs.push(song);
    proof {
        let kv = song_views(songs@);
        assert forall|a: int, b: int| 0 <= a < b < kv.len() implies #[trigger] kv[a].id != #[trigger] kv[b].id by {
            assert(kv[a] == songs@[a]@ && kv[b] == songs@[b]@);
            if b < before.len() {
                assert(song_views(before)[a] == before[a]@);
                assert(song_views(before)[b] == before[b]@);
            }
        }
    }
    true
}

/// Every song of `kept` is one of the first `i` of `olds`, and listed.
#[verifier::opaque]
spec fn drawn_from(olds: Seq<SongView>, fv: Seq<Seq<char>>, kept: Seq<SongView>, i: int) -> bool {
    forall|k: int|
        0 <= k < kept.len() ==> exists|j: int| 0 <= j < i && olds[j] == #[trigger] kept[k] && listed(fv, olds[j].id)
}

/// Every listed song among the first `i` of `olds` is in `kept`.
#[verifier::opaque]
spec fn covers(olds: Seq<SongView>, fv: Seq<Seq<char>>, kept: Seq<SongView>, i: int) -> bool {
    forall|j: int| 0 <= j < i && #[trigger] listed(fv, olds[j].id) ==> kept.contains(olds[j])
}

proof fn lemma_drawn_step(olds: Seq<SongView>, fv: Seq<Seq<char>>, kept: Seq<SongView>, i: int, push: bool)
    requires
        0 <= i < olds.len(),
        drawn_from(olds, fv, kept, i),
        push ==> listed(fv, olds[i].id),
    ensures
        drawn_from(olds, fv, if push { kept.push(olds[i]) } else { kept }, i + 1),
{
    reveal(drawn_from);
    let after = if push { kept.push(olds[i]) } else { kept };
    assert forall|k: int| 0 <= k < after.len() implies exists|j: int|
        0 <= j < i + 1 && olds[j] == #[trigger] after[k] && listed(fv, olds[j].id) by {
        if k < kept.len() {
            assert(after[k] == kept[k]);
            let j = choose|j: int| 0 <= j < i && olds[j] == #[trigger] kept[k] && listed(fv, olds[j].id);
        } else {
            assert(after[k] == olds[i]);
        }
    }
}

proof fn lemma_covers_step(olds: Seq<SongView>, fv: Seq<Seq<char>>, kept: Seq<SongView>, i: int, push: bool)
    requires
        0 <= i < olds.len(),
        covers(olds, fv, kept, i),
        push == listed(fv, olds[i].id),
    ensures
        covers(olds, fv, if push { kept.push(olds[i]) } else { kept }, i + 1),
{
    reveal(covers);
    let after = if push { kept.push(olds[i]) } else { kept };
    assert forall|j: int| 0 <= j < i + 1 && #[trigger] listed(fv, olds[j].id) implies after.contains(olds[j]) by {
        if j < i {
            assert(kept.contains(olds[j]));
            let k = choose|k: int| 0 <= k < kept.len() && kept[k] == olds[j];
            assert(after[k] == kept[k]);
        } else {
            assert(after[kept.len() as int] == olds[j]);
        }
    }
}

proof fn lemma_distinct_push(olds: Seq<SongView>, fv: Seq<Seq<char>>, kept: Seq<SongView>, i: int)
    requires
        0 <= i < olds.len(),
        ids_distinct(olds),
        ids_distinct(kept),
        drawn_from(olds, fv, kept, i),
    ensures
        ids_distinct(kept.push(olds[i])),
{
    reveal(drawn_from);
    let after = kept.push(olds[i]);
    assert forall|a: int, b: int| 0 <= a < b < after.len() implies #[trigger] after[a].id != #[trigger] after[b].id by {
        assert(after[a] == kept[a]);
        if b == kept.len() {
            let j = choose|j: int| 0 <= j < i && olds[j] == #[trigger] kept[a] && listed(fv, olds[j].id);
        } else {
            assert(after[b] == kept[b]);
        }
    }
}

/// The songs of `songs` whose file is still listed, in order.
fn listed_songs(songs: &Vec<Song>, files: &Vec<String>) -> (kept: Vec<Song>)
    requires
        ids_distinct(song_views(songs@)),
    ensures
        ids_distinct(song_views(kept@)),
        drawn_from(song_views(songs@), files@.map_values(|s: String| s@), song_views(kept@), songs@.len() as int),
        covers(song_views(songs@), files@.map_values(|s: String| s@), song_views(kept@), songs@.len() as int),
{
    let ghost olds = song_views(songs@);
    let ghost fv = files@.map_values(|s: String| s@);
    let mut kept: Vec<Song> = Vec::new();
    let n = songs.len();
    let mut i: usize = 0;
    proof {
        reveal(drawn_from);
        reveal(covers);
        assert(song_views(kept@) =~= Seq::<SongView>::empty());
    }
    while i < n
        invariant
            olds == song_views(songs@),
            fv == files@.map_values(|s: String| s@),
            n == olds.len(),
            i <= n,
            ids_distinct(olds),
            drawn_from(olds, fv, song_views(kept@), i as int),
            covers(olds, fv, song_views(kept@), i as int),
            ids_distinct(song_views(kept@)),
        decreases n - i,
    {
        let song = &songs[i];
        assert(song@ == olds[i as int]);
        let ghost kv = song_views(kept@);
        let push = find_listed(files, &song.id);
        proof {
            lemma_drawn_step(olds, fv, kv, i as int, push);
            lemma_covers_step(olds, fv, kv, i as int, push);
            if push {
                lemma_distinct_push(olds, fv, kv, i as int);
            }
        }
        if push {
            kept.push(Song { id: song.id.clone(), name: song.name.clone(), played_at: song.played_at });
            assert(song_views(kept@) =~= kv.push(olds[i as int]));
        }
        i = i + 1;
    }
    kept
}

/// Adds a new song for each listed audio file whose id `songs` lacks.
fn add_listed(songs: &mut Vec<Song>, files: &Vec<String>) -> (added: usize)
    requires
        ids_distinct(song_views(old(songs)@)),
    ensures
        ids_distinct(song_views(final(songs)@)),
        old(songs)@.len() <= final(songs)@.len(),
        added == final(songs)@.len() - old(songs)@.len(),
        forall|k: int| 0 <= k < old(songs)@.len() ==> #[trigger] final(songs)@[k] == old(songs)@[k],
        forall|k: int|
            old(songs)@.len() <= k < final(songs)@.len() ==> {
                let s = (#[trigger] final(songs)@[k])@;
                &&& listed(files@.map_values(|s: String| s@), s.id)
                &&& s == SongView { id: s.id, name: stem_of(s.id), played_at: None }
                &&& forall|q: int| 0 <= q < old(songs)@.len() ==> (#[trigger] old(songs)@[q])@.id != s.id
            },
        forall|g: int|
            0 <= g < files@.len() && is_audio_file(#[trigger] files@[g]@) ==> exists|k: int|
                0 <= k < final(songs)@.len() && (#[trigger] final(songs)@[k])@.id == files@[g]@,
{
    let ghost start = songs@;
    let ghost fv = files@.map_values(|s: String| s@);
    let mut added: usize = 0;
    let mut f: usize = 0;
    while f < files.len()
        invariant
            fv == files@.map_values(|s: String| s@),
            ids_distinct(song_views(songs@)),
            start.len() <= songs@.len(),
            added == songs@.len() - start.len(),
            added <= f,
            f <= files@.len(),
            forall|k: int| 0 <= k < start.len() ==> #[trigger] songs@[k] == start[k],
            forall|k: int|
                start.len() <= k < songs@.len() ==> {
                    let s = (#[trigger] songs@[k])@;
                    &&& listed(fv, s.id)
                    &&& s == SongView { id: s.id, name: stem_of(s.id), played_at: None }
                    &&& forall|q: int| 0 <= q < start.len() ==> (#[trigger] start[q])@.id != s.id
                },
            forall|g: int|
                0 <= g < f && is_audio_file(#[trigger] files@[g]@) ==> exists|k: int|
                    0 <= k < songs@.len() && (#[trigger] songs@[k])@.id == files@[g]@,
        decreases files@.len() - f,
    {
        let name = &files[f];
        assert(fv[f as int] == name@);
        match song_of_file(name.as_str()) {
            None => {},
            Some(song) => {
                let ghost before = songs@;
                let ghost sv = song@;
                if push_if_absent(songs, song) {
                    added = added + 1;
                    proof {
                        assert forall|q: int| 0 <= q < start.len() implies (#[trigger] start[q])@.id != sv.id by {
                            assert(before[q] == start[q]);
                        }
                        assert(listed(fv, sv.id)) by {
                            reveal(listed);
                        }
                        assert(songs@[before.len() as int]@.id == files@[f as int]@);
                        assert forall|g: int| 0 <= g < f && is_audio_file(#[trigger] files@[g]@) implies exists|k: int|
                            0 <= k < songs@.len() && (#[trigger] songs@[k])@.id == files@[g]@ by {
                            let k = choose|k: int| 0 <= k < before.len() && (#[trigger] before[k])@.id == files@[g]@;
                            assert(songs@[k] == before[k]);
                        }
                    }
                }
            },
        }
        f = f + 1;
    }
    added
}

proof fn lemma_sync_drawn(
    olds: Seq<SongView>,
    fv: Seq<Seq<char>>,
    kv0: Seq<SongView>,
    kv: Seq<SongView>,
)
    requires
        drawn_from(olds, fv, kv0, olds.len() as int),
        kv0.len() <= kv.len(),
        forall|k: int| 0 <= k < kv0.len() ==> #[trigger] kv[k] == kv0[k],
    ensures
        forall|k: int| 0 <= k < kv0.len() ==> listed(fv, (#[trigger] kv[k]).id),
        forall|k: int| 0 <= k < kv0.len() ==> olds.contains(#[trigger] kv[k]),
{
    reveal(drawn_from);
    assert forall|k: int| 0 <= k < kv0.len() implies listed(fv, (#[trigger] kv[k]).id) && olds.contains(kv[k]) by {
        assert(kv[k] == kv0[k]);
        let j = choose|j: int| 0 <= j < olds.len() && olds[j] == #[trigger] kv0[k] && listed(fv, olds[j].id);
        assert(olds[j] == kv[k]);
    }
}

proof fn lemma_sync_covers(
    olds: Seq<SongView>,
    fv: Seq<Seq<char>>,
    kv0: Seq<SongView>,
    kv: Seq<SongView>,
)
    requires
        covers(olds, fv, kv0, olds.len() as int),
        kv0.len() <= kv.len(),
        forall|k: int| 0 <= k < kv0.len() ==> #[trigger] kv[k] == kv0[k],
        forall|k: int|
            kv0.len() <= k < kv.len() ==> forall|q: int| 0 <= q < kv0.len() ==> (#[trigger] kv0[q]).id != (#[trigger] kv[k]).id,
        forall|k: int| kv0.len() <= k < kv.len() ==> listed(fv, (#[trigger] kv[k]).id),
    ensures
        forall|j: int|
            0 <= j < olds.len() && listed(fv, (#[trigger] olds[j]).id) ==> exists|i: int|
                0 <= i < kv.len() && #[trigger] kv[i] == olds[j],
        forall|k: int|
            kv0.len() <= k < kv.len() ==> forall|j: int| 0 <= j < olds.len() ==> (#[trigger] olds[j]).id != (#[trigger] kv[k]).id,
{
    reveal(covers);
    assert forall|j: int| 0 <= j < olds.len() && listed(fv, (#[trigger] olds[j]).id) implies exists|i: int|
        0 <= i < kv.len() && #[trigger] kv[i] == olds[j] by {
        assert(kv0.contains(olds[j]));
        let q = choose|q: int| 0 <= q < kv0.len() && kv0[q] == olds[j];
        assert(kv[q] == kv0[q]);
    }
    assert forall|k: int, j: int| kv0.len() <= k < kv.len() && 0 <= j < olds.len() implies (#[trigger] olds[j]).id != (#[trigger] kv[k]).id by {
        if olds[j].id == kv[k].id {
            assert(listed(fv, kv[k].id));
            assert(kv0.contains(olds[j]));
            let q = choose|q: int| 0 <= q < kv0.len() && kv0[q] == olds[j];
            assert(kv0[q].id != kv[k].id);
        }
    }
}

impl Jukebox {
    /// Brings the catalog in line with the file names of a directory
    /// listing: songs whose audio file is no longer listed leave (their votes
    /// stay in the ledger), songs still listed stay as they were, and each
    /// listed audio file without a song becomes a new eligible song, named
    /// after its stem. Returns how many songs were added.
    pub fn sync_catalog(&mut self, files: &Vec<String>) -> (added: usize)
        requires
            old(self).wf(),
        ensures
            final(self).wf(),
            final(self).votes() == old(self).votes(),
            forall|i: int|
                0 <= i < final(self).song_views().len() ==> listed(
                    files@.map_values(|s: String| s@),
                    (#[trigger] final(self).song_views()[i]).id,
                ),
            forall|f: int|
                0 <= f < files@.len() && is_audio_file(#[trigger] files@[f]@) ==> exists|i: int|
                    0 <= i < final(self).song_views().len() && (#[trigger] final(self).song_views()[i]).id
                        == files@[f]@,
            added <= final(self).song_views().len(),
            forall|i: int|
                0 <= i < final(self).song_views().len() - added ==> old(self).song_views().contains(
                    #[trigger] final(self).song_views()[i],
                ),
            forall|i: int|
                final(self).song_views().len() - added <= i < final(self).song_views().len() ==> {
                    let s = #[trigger] final(self).song_views()[i];
                    &&& s == SongView { id: s.id, name: stem_of(s.id), played_at: None }
                    &&& forall|j: int|
                        0 <= j < old(self).song_views().len() ==> (#[trigger] old(self).song_views()[j]).id
                            != s.id
                },
            forall|j: int|
                0 <= j < old(self).song_views().len() && listed(
                    files@.map_values(|s: String| s@),
                    (#[trigger] old(self).song_views()[j]).id,
                ) ==> exists|i: int|
                    0 <= i < final(self).song_views().len() && #[trigger] final(self).song_views()[i]
                        == old(self).song_views()[j],
    {
        let ghost olds = self.song_views();
        let ghost fv = files@.map_values(|s: String| s@);
        let current = self.songs();
        assert(song_views(current@) == olds);
        let mut kept = listed_songs(current, files);
        let ghost kept0 = kept@;
        let added = add_listed(&mut kept, files);
        let ghost kv0 = song_views(kept0);
        let ghost kv = song_views(kept@);
        proof {
            assert forall|k: int| 0 <= k < kv0.len() implies #[trigger] kv[k] == kv0[k] by {
                assert(kept@[k] == kept0[k]);
            }
            assert forall|k: int| kv0.len() <= k < kv.len() implies forall|q: int| 0 <= q < kv0.len() ==> (#[trigger] kv0[q]).id != (#[trigger] kv[k]).id by {
                assert(kv[k] == kept@[k]@);
                assert forall|q: int| 0 <= q < kv0.len() implies (#[trigger] kv0[q]).id != kv[k].id by {
                    assert(kv0[q] == kept0[q]@);
                }
            }
            assert forall|k: int| kv0.len() <= k < kv.len() implies listed(fv, (#[trigger] kv[k]).id) by {
                assert(kv[k] == kept@[k]@);
            }
            lemma_sync_drawn(olds, fv, kv0, kv);
            lemma_sync_covers(olds, fv, kv0, kv);
        }
        self.replace_songs(kept);
        proof {
            let sv = self.song_views();
            assert(sv == kv);
            assert forall|i: int| 0 <= i < sv.len() implies listed(fv, (#[trigger] sv[i]).id) by {
                if i >= kv0.len() {
                    assert(kv[i] == kept@[i]@);
                }
            }
            assert(sv.len() - added == kv0.len());
            assert forall|i: int| kv0.len() <= i < sv.len() implies {
                let s = #[trigger] sv[i];
                &&& s == SongView { id: s.id, name: stem_of(s.id), played_at: None }
                &&& forall|j: int| 0 <= j < olds.len() ==> (#[trigger] olds[j]).id != s.id
            } by {
                assert(kv[i] == kept@[i]@);
            }
            assert forall|g: int| 0 <= g < files@.len() && is_audio_file(#[trigger] files@[g]@) implies exists|i: int|
                0 <= i < sv.len() && (#[trigger] sv[i]).id == files@[g]@ by {
                let k = choose|k: int| 0 <= k < kept@.len() && (#[trigger] kept@[k])@.id == files@[g]@;
                assert(sv[k] == kept@[k]@);
            }
        }
        added
    }
}

} // verus!

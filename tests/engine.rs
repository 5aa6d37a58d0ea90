use jukebox::{check_decision, precedes, resolve, resolve_parsed, Candidate, EngineError, Jukebox};

fn jukebox_with(songs: &[(&str, &str)]) -> Jukebox {
    let mut jb = Jukebox::new();
    for (id, name) in songs {
        assert!(jb.add_song(id.to_string(), name.to_string()));
    }
    jb
}

fn ranked_ids(jb: &Jukebox, voter: u128) -> Vec<String> {
    jb.ranked_candidates(voter).into_iter().map(|c| c.id).collect()
}

#[test]
fn html_id_suffix_replaces_non_alphanumerics() {
    let c = Candidate {
        id: "My Song-1.mp3".to_string(),
        name: "My Song-1".to_string(),
        score: 0,
        voter_decision: None,
    };
    assert_eq!(c.html_id_suffix(), "My_Song_1_mp3");
    let c = Candidate { id: "été".to_string(), name: String::new(), score: 0, voter_decision: None };
    assert_eq!(c.html_id_suffix(), "_t_");
    let c = Candidate { id: String::new(), name: String::new(), score: 0, voter_decision: None };
    assert_eq!(c.html_id_suffix(), "");
}

#[test]
fn decision_bounds() {
    assert_eq!(check_decision(127), Ok(127));
    assert_eq!(check_decision(-127), Ok(-127));
    assert_eq!(check_decision(0), Ok(0));
    assert_eq!(check_decision(128), Err(EngineError::Validation));
    assert_eq!(check_decision(-128), Err(EngineError::Validation));
}

#[test]
fn out_of_range_vote_leaves_ledger_unchanged() {
    let mut jb = jukebox_with(&[("a.mp3", "a")]);
    assert_eq!(jb.record_vote(1, "a.mp3".to_string(), 5), Ok(()));
    assert_eq!(jb.record_vote(1, "a.mp3".to_string(), 128), Err(EngineError::Validation));
    assert_eq!(jb.record_vote(2, "a.mp3".to_string(), -128), Err(EngineError::Validation));
    assert_eq!(jb.ledger().len(), 1);
    assert_eq!(jb.score(&"a.mp3".to_string()), 5);
    assert_eq!(jb.record_vote(2, "a.mp3".to_string(), 127), Ok(()));
    assert_eq!(jb.record_vote(3, "a.mp3".to_string(), -127), Ok(()));
    assert_eq!(jb.ledger().len(), 3);
    assert_eq!(jb.score(&"a.mp3".to_string()), 5);
}

#[test]
fn revote_replaces_row() {
    let mut jb = jukebox_with(&[("a.mp3", "a"), ("b.mp3", "b")]);
    assert_eq!(jb.record_vote(7, "a.mp3".to_string(), 3), Ok(()));
    assert_eq!(jb.record_vote(7, "a.mp3".to_string(), -9), Ok(()));
    assert_eq!(jb.ledger().len(), 1);
    let row = jb.ledger().row(0);
    assert_eq!(row.voter, 7);
    assert_eq!(row.song, "a.mp3");
    assert_eq!(row.decision, -9);
    assert_eq!(jb.ledger().decision_of(7, &"a.mp3".to_string()), Some(-9));
    assert_eq!(jb.ledger().decision_of(7, &"b.mp3".to_string()), None);
    assert_eq!(jb.ledger().decision_of(8, &"a.mp3".to_string()), None);
}

#[test]
fn revote_counts_only_last_decision() {
    let mut jb = jukebox_with(&[("A", "A")]);
    assert_eq!(jb.record_vote(42, "A".to_string(), 10), Ok(()));
    assert_eq!(jb.record_vote(42, "A".to_string(), -4), Ok(()));
    assert_eq!(jb.score(&"A".to_string()), -4);
}

#[test]
fn score_sums_all_voters() {
    let mut jb = jukebox_with(&[("a", "a"), ("b", "b")]);
    assert_eq!(jb.score(&"a".to_string()), 0);
    assert_eq!(jb.record_vote(1, "a".to_string(), 100), Ok(()));
    assert_eq!(jb.record_vote(2, "a".to_string(), 27), Ok(()));
    assert_eq!(jb.record_vote(3, "a".to_string(), -50), Ok(()));
    assert_eq!(jb.record_vote(3, "b".to_string(), 2), Ok(()));
    assert_eq!(jb.score(&"a".to_string()), 77);
    assert_eq!(jb.score(&"b".to_string()), 2);
    assert_eq!(jb.score(&"zzz".to_string()), 0);
}

#[test]
fn ranking_by_score_then_name() {
    let mut jb = jukebox_with(&[("a", "A"), ("c", "C"), ("b", "B")]);
    assert_eq!(jb.record_vote(1, "a".to_string(), 3), Ok(()));
    assert_eq!(jb.record_vote(1, "b".to_string(), 5), Ok(()));
    assert_eq!(jb.record_vote(1, "c".to_string(), 5), Ok(()));
    let ranked = jb.ranked_candidates(1);
    let view: Vec<(String, i128)> = ranked.iter().map(|c| (c.name.clone(), c.score)).collect();
    assert_eq!(
        view,
        vec![("B".to_string(), 5), ("C".to_string(), 5), ("A".to_string(), 3)]
    );
}

#[test]
fn ranking_ties_on_name_fall_back_to_id() {
    let jb = jukebox_with(&[("y", "Same"), ("x", "Same"), ("w", "Other"), ("z", "Ä")]);
    assert_eq!(ranked_ids(&jb, 0), vec!["w", "x", "y", "z"]);
}

#[test]
fn ranking_is_reproducible() {
    let mut jb = jukebox_with(&[("a", "a"), ("b", "b"), ("c", "c"), ("d", "d")]);
    assert_eq!(jb.record_vote(1, "c".to_string(), 4), Ok(()));
    assert_eq!(jb.record_vote(2, "d".to_string(), -1), Ok(()));
    let first = ranked_ids(&jb, 1);
    let second = ranked_ids(&jb, 1);
    assert_eq!(first, second);
    assert_eq!(first, vec!["c", "a", "b", "d"]);
}

#[test]
fn ranking_carries_own_decision() {
    let mut jb = jukebox_with(&[("a", "a"), ("b", "b")]);
    assert_eq!(jb.record_vote(1, "a".to_string(), 4), Ok(()));
    assert_eq!(jb.record_vote(2, "a".to_string(), 6), Ok(()));
    assert_eq!(jb.record_vote(2, "b".to_string(), -3), Ok(()));
    let ranked = jb.ranked_candidates(1);
    assert_eq!(ranked.len(), 2);
    assert_eq!(ranked[0].id, "a");
    assert_eq!(ranked[0].score, 10);
    assert_eq!(ranked[0].voter_decision, Some(4));
    assert_eq!(ranked[1].id, "b");
    assert_eq!(ranked[1].voter_decision, None);
    assert!(precedes(&ranked[0], &ranked[1]));
    assert!(!precedes(&ranked[1], &ranked[0]));
}

#[test]
fn empty_catalog_ranks_nothing() {
    let mut jb = Jukebox::new();
    assert!(jb.ranked_candidates(3).is_empty());
    assert!(jb.select_next().is_none());
}

#[test]
fn duplicate_song_id_is_refused() {
    let mut jb = jukebox_with(&[("a", "first")]);
    assert!(!jb.add_song("a".to_string(), "second".to_string()));
    assert_eq!(jb.songs().len(), 1);
    assert_eq!(jb.songs()[0].name, "first");
}

#[test]
fn select_next_pops_in_rank_order() {
    let mut jb = jukebox_with(&[("a", "a"), ("b", "b"), ("c", "c")]);
    assert_eq!(jb.record_vote(1, "c".to_string(), 2), Ok(()));
    assert_eq!(jb.record_vote(1, "a".to_string(), -2), Ok(()));
    let first = jb.select_next_at(100).unwrap();
    assert_eq!(first.id, "c");
    assert_eq!(first.played_at, Some(100));
    assert_eq!(ranked_ids(&jb, 1), vec!["b", "a"]);
    assert_eq!(jb.select_next_at(200).unwrap().id, "b");
    assert_eq!(jb.select_next_at(300).unwrap().id, "a");
    assert!(jb.select_next_at(400).is_none());
    let played: Vec<Option<i64>> = jb.songs().iter().map(|s| s.played_at).collect();
    assert_eq!(played, vec![Some(300), Some(200), Some(100)]);
}

#[test]
fn single_eligible_song_is_selected_once() {
    let mut jb = jukebox_with(&[("only", "only")]);
    let mut picked = 0;
    let mut empty = 0;
    for t in 0..8 {
        match jb.select_next_at(t) {
            Some(s) => {
                assert_eq!(s.id, "only");
                picked += 1;
            }
            None => empty += 1,
        }
    }
    assert_eq!(picked, 1);
    assert_eq!(empty, 7);
    assert_eq!(jb.songs()[0].played_at, Some(0));
}

#[test]
fn select_next_stamps_current_time() {
    let mut jb = jukebox_with(&[("a", "a")]);
    let s = jb.select_next().unwrap();
    assert_eq!(s.id, "a");
    assert!(s.played_at.unwrap() > 1_600_000_000_000_000);
    assert!(jb.select_next().is_none());
}

#[test]
fn valid_token_is_kept() {
    let r = resolve(Some("67e55044-10b1-426f-9247-bb680e5fe0c8"));
    assert!(!r.is_new);
    assert_eq!(r.voter, 0x67e5504410b1426f9247bb680e5fe0c8);
    assert_eq!(r.token(), "67e55044-10b1-426f-9247-bb680e5fe0c8");
}

#[test]
fn malformed_or_missing_token_is_replaced() {
    for presented in [None, Some(""), Some("not-a-token"), Some("67e55044-10b1-426f-9247")] {
        let r = resolve(presented);
        assert!(r.is_new);
        assert_eq!((r.voter >> 76) & 0xf, 4);
        assert_eq!((r.voter >> 62) & 0x3, 2);
        assert_eq!(r.token().len(), 36);
    }
}

#[test]
fn resolve_parsed_prefers_presented() {
    let kept = resolve_parsed(Some(5), 9);
    assert_eq!((kept.voter, kept.is_new), (5, false));
    let fresh = resolve_parsed(None, 9);
    assert_eq!((fresh.voter, fresh.is_new), (9, true));
    assert_eq!(fresh.token(), "00000000-0000-0000-0000-000000000009");
}

#[test]
fn inserted_played_song_is_not_ranked() {
    let mut jb = jukebox_with(&[("a", "a")]);
    let played = jukebox::Song { id: "b".to_string(), name: "b".to_string(), played_at: Some(5) };
    assert!(jb.insert_song(played));
    let again = jukebox::Song { id: "b".to_string(), name: "x".to_string(), played_at: None };
    assert!(!jb.insert_song(again));
    assert_eq!(ranked_ids(&jb, 0), vec!["a"]);
    assert_eq!(jb.select_next_at(9).unwrap().id, "a");
    assert!(jb.select_next_at(10).is_none());
}

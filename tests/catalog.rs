use jukebox::{audio_file, song_of_file, Jukebox};

fn names(files: &[&str]) -> Vec<String> {
    files.iter().map(|f| f.to_string()).collect()
}

#[test]
fn audio_extensions() {
    assert!(audio_file("a.mp3"));
    assert!(audio_file("a.ogg"));
    assert!(audio_file("a.wav"));
    assert!(audio_file("a.m4a"));
    assert!(!audio_file("a.flac"));
    assert!(!audio_file("a.MP3"));
    assert!(!audio_file("mp3"));
    assert!(!audio_file(""));
}

#[test]
fn song_of_file_uses_stem_as_name() {
    let s = song_of_file("My Song.mp3").unwrap();
    assert_eq!(s.id, "My Song.mp3");
    assert_eq!(s.name, "My Song");
    assert_eq!(s.played_at, None);
    assert_eq!(song_of_file("a.b.ogg").unwrap().name, "a.b");
    assert_eq!(song_of_file(".mp3").unwrap().name, ".mp3");
    assert!(song_of_file("notes.txt").is_none());
}

#[test]
fn sync_adds_keeps_and_removes() {
    let mut jb = Jukebox::new();
    assert_eq!(jb.sync_catalog(&names(&["a.mp3", "cover.jpg", "b.wav"])), 2);
    assert_eq!(jb.record_vote(1, "a.mp3".to_string(), 4), Ok(()));
    assert_eq!(jb.select_next_at(10).unwrap().id, "a.mp3");
    assert_eq!(jb.sync_catalog(&names(&["c.m4a", "a.mp3", "c.m4a"])), 1);
    let songs: Vec<(String, String, Option<i64>)> =
        jb.songs().iter().map(|s| (s.id.clone(), s.name.clone(), s.played_at)).collect();
    assert_eq!(
        songs,
        vec![
            ("a.mp3".to_string(), "a".to_string(), Some(10)),
            ("c.m4a".to_string(), "c".to_string(), None),
        ]
    );
    assert_eq!(jb.score(&"a.mp3".to_string()), 4);
    assert_eq!(jb.sync_catalog(&names(&[])), 0);
    assert!(jb.songs().is_empty());
}

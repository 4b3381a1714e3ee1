use kkc_plugins::stream::{band_ranges, is_finished, keep_recent, requested, shown_name, Sessions};

#[test]
fn newest_samples_are_kept() {
    let mut recent = vec![1, 2, 3];
    keep_recent(&mut recent, &[4, 5], 4);
    assert_eq!(recent, vec![2, 3, 4, 5]);
    keep_recent(&mut recent, &[6, 7, 8, 9, 10, 11], 4);
    assert_eq!(recent, vec![8, 9, 10, 11]);
    keep_recent(&mut recent, &[], 4);
    assert_eq!(recent, vec![8, 9, 10, 11]);
}

#[test]
fn bands_follow_each_other() {
    assert_eq!(band_ranges(0, 4), vec![]);
    assert_eq!(band_ranges(4, 0), vec![]);
    assert_eq!(band_ranges(7, 3), vec![Some((0, 2)), Some((2, 4)), Some((4, 6))]);
    assert_eq!(band_ranges(2, 4), vec![Some((0, 1)), Some((1, 2)), None, None]);
    let bands = band_ranges(2048, 96);
    assert_eq!(bands.len(), 96);
    assert_eq!(bands[95], Some((1995, 2016)));
}

#[test]
fn sessions_are_found_by_path() {
    let mut sessions: Sessions<u32> = Sessions::new("AYT");
    assert_eq!(sessions.get("a").copied(), Err("AYT session not open".to_string()));
    sessions.open("a", 1);
    sessions.open("b", 2);
    sessions.open("a", 3);
    assert_eq!(sessions.get("a").copied(), Ok(3));
    assert_eq!(sessions.get("b").copied(), Ok(2));
    sessions.close("a");
    sessions.close("a");
    assert!(sessions.get("a").is_err());
    assert_eq!(sessions.get("b").copied(), Ok(2));
}

#[test]
fn closed_sessions_are_finished() {
    assert!(is_finished(None));
    assert!(is_finished(Some(true)));
    assert!(!is_finished(Some(false)));
    assert_eq!(requested(0), 1);
    assert_eq!(requested(512), 512);
    assert_eq!(shown_name("a/b", None), "a/b");
    assert_eq!(shown_name("a/b", Some("b".to_string())), "b");
}

use kkc_plugins::ayt::{
    build_track_text_lines, build_tracker_monitor_lines, decode_active_registers, decode_platform_freq,
    parse_ayt, parse_init_values, read_u16, Session,
};

fn tune() -> Vec<u8> {
    let mut b: Vec<u8> = vec![
        0x20, // version
        0x04, 0x80, // registers 0 and 13
        2,    // rows in a pattern
        18, 0, // first sequence
        22, 0, // loop
        26, 0, // initial values
        6, 0, // pointers
        0x45, // 60 Hz, ZX 128
        0,
    ];
    b.extend_from_slice(&[1, 2, 3, 4]);
    b.extend_from_slice(&[0, 0, 2, 0, 2, 0, 0, 0]);
    b.extend_from_slice(&[7, 0x38, 7, 0x3F, 20, 9, 0xFF, 0xFF, 1, 1]);
    b
}

fn error_of(b: &[u8]) -> String {
    match parse_ayt(b) {
        Ok(_) => panic!("accepted"),
        Err(m) => m,
    }
}

#[test]
fn whole_tune_is_decoded() {
    let song = parse_ayt(&tune()).unwrap();
    assert_eq!(song.version, 0x20);
    assert_eq!(song.active_mask, 0x8004);
    assert_eq!(song.active_registers, vec![0, 13]);
    assert_eq!(song.pattern_size, 2);
    assert_eq!(song.sequence_count, 2);
    assert_eq!(song.frame_count, 4);
    assert_eq!(song.loop_frame, 2);
    assert_eq!(song.frame_rate, 60);
    assert_eq!(song.platform_id, 5);
    assert_eq!(song.platform_name, "ZX 128");
    assert_eq!(song.master_clock_hz, 1_773_450);
    assert_eq!(song.frequency_code, 2);
    assert_eq!(song.reg_frames[0], vec![1, 2, 3, 4]);
    assert_eq!(song.reg_frames[13], vec![3, 4, 1, 2]);
    assert_eq!(song.reg_frames[7], vec![0x3F; 4]);
    assert_eq!(song.reg_frames[5], vec![0; 4]);
    assert_eq!(song.init_values, vec![(7, 0x38), (7, 0x3F)]);
}

#[test]
fn envelope_shape_rests_at_all_ones() {
    let mut b = tune();
    b[1] = 0x00; // only register 0
    b[10] = 5;
    let song = parse_ayt(&b).unwrap();
    assert_eq!(song.reg_frames[13], vec![0xFF; 8]);
    assert_eq!(song.reg_frames[0], vec![1, 2, 3, 4, 3, 4, 1, 2]);
}

#[test]
fn every_fault_has_its_message() {
    assert_eq!(error_of(&tune()[..13]), "AYT file too short");
    let mut b = tune();
    b[3] = 0;
    assert_eq!(error_of(&b), "Invalid AYT pattern size 0");
    let mut b = tune();
    b[4] = 13;
    assert_eq!(error_of(&b), "Invalid AYT first sequence pointer");
    let mut b = tune();
    b[5] = 1;
    assert_eq!(error_of(&b), "Invalid AYT first sequence pointer");
    let mut b = tune();
    b[9] = 1;
    assert_eq!(error_of(&b), "Invalid AYT init pointer");
    let mut b = tune();
    b[1] = 0;
    b[2] = 0;
    assert_eq!(error_of(&b), "AYT has no active registers");
    let mut b = tune();
    b[10] = 1;
    assert_eq!(error_of(&b), "AYT pointer count too small");
    let mut b = tune();
    b[10] = 2;
    assert_eq!(error_of(&b), "Invalid AYT sequence table size");
    let mut b = tune();
    b[10] = 5;
    assert_eq!(error_of(&b), "Invalid AYT sequence table size");
    let mut b = tune();
    b[11] = 1;
    assert_eq!(error_of(&b), "AYT sequence table exceeds file size");
    let mut b = tune();
    b[18] = 3;
    assert_eq!(error_of(&b), "AYT pattern pointer overflow");
}

#[test]
fn loop_pointer_off_a_sequence_counts_as_the_start() {
    let mut b = tune();
    b[6] = 23;
    assert_eq!(parse_ayt(&b).unwrap().loop_frame, 0);
    b[6] = 17;
    assert_eq!(parse_ayt(&b).unwrap().loop_frame, 0);
    b[6] = 254;
    assert_eq!(parse_ayt(&b).unwrap().loop_frame, 4);
}

#[test]
fn words_are_little_endian() {
    assert_eq!(read_u16(&[0x34, 0x12], 0), Ok(0x1234));
    assert_eq!(read_u16(&[0x34, 0x12], 1), Err("Truncated AYT data".to_string()));
    assert_eq!(read_u16(&[], usize::MAX), Err("Truncated AYT data".to_string()));
}

#[test]
fn mask_starts_at_its_top_bit() {
    assert_eq!(decode_active_registers(0xFFFF), (0u8..14).collect::<Vec<u8>>());
    assert_eq!(decode_active_registers(0x0003), Vec::<u8>::new());
    assert_eq!(decode_active_registers(0x4000), vec![1]);
}

#[test]
fn last_initial_value_counts() {
    let (map, values) = parse_init_values(&[9, 1, 1, 1, 2, 14, 9, 13, 5, 0], 1).unwrap();
    assert_eq!(map[1], Some(2));
    assert_eq!(map[13], Some(5));
    assert_eq!(map[0], None);
    assert_eq!(values, vec![(1, 1), (1, 2), (13, 5)]);
}

#[test]
fn platforms_and_rates() {
    assert_eq!(decode_platform_freq(0x00), (0, 0, 50, 1_000_000, "Amstrad CPC"));
    assert_eq!(decode_platform_freq(0xA7), (7, 5, 200, 2_000_000, "Atari ST"));
    assert_eq!(decode_platform_freq(0xFF), (31, 7, 50, 1_000_000, "Unknown"));
}

#[test]
fn track_text_names_everything() {
    let song = parse_ayt(&tune()).unwrap();
    assert_eq!(
        build_track_text_lines(&song),
        vec![
            "AYT version 2.0",
            "Platform: ZX 128 (id 5)",
            "Frame rate: 60 Hz (code 2)",
            "Master clock: 1773450 Hz",
            "Pattern size: 2 frames",
            "Sequence count: 2",
            "Frame count: 4",
            "Loop frame: 2",
            "Active mask: 0x8004",
            "",
            "Init values",
            "  R07 = 0x38",
            "  R07 = 0x3F",
        ]
    );
}

#[test]
fn monitor_marks_the_current_row() {
    let song = parse_ayt(&tune()).unwrap();
    assert_eq!(
        build_tracker_monitor_lines(&song, 3, 4),
        vec![" 00 R00:03 R13:01", ">01 R00:04 R13:02", "", ""]
    );
    assert_eq!(build_tracker_monitor_lines(&song, 99, 1), vec![">01 R00:04 R13:02"]);
    assert_eq!(build_tracker_monitor_lines(&song, 0, 0), Vec::<String>::new());
}

#[test]
fn monitor_of_nothing() {
    let mut song = parse_ayt(&tune()).unwrap();
    song.pattern_size = 0;
    assert_eq!(build_tracker_monitor_lines(&song, 3, 4), vec!["Pattern unavailable"]);
}

#[test]
fn session_plays_every_frame_once() {
    let mut session = Session::new(parse_ayt(&tune()).unwrap());
    assert_eq!(session.tracker_monitor_lines, vec!["Preparing stream..."]);
    assert!(session.position().playing);
    for frame in 0..4usize {
        assert_eq!(session.frame_cursor, frame);
        assert_eq!(session.position().table_index as usize, frame / 2);
        assert_eq!(session.position().row as usize, frame % 2);
        assert!(session.next_stereo_sample(3, false).is_some());
        assert!(session.next_stereo_sample(3, true).is_some());
    }
    assert!(session.finished);
    assert!(session.next_stereo_sample(3, true).is_none());
    assert_eq!(session.position().frame, 3);
    assert!(!session.position().playing);
    session.update_monitor();
    assert_eq!(session.tracker_monitor_lines.len(), 14);
    assert_eq!(session.tracker_monitor_lines[1], ">01 R00:04 R13:02");
}

#[test]
fn samples_stop_with_the_tune() {
    let mut session = Session::new(parse_ayt(&tune()).unwrap());
    let steps: Vec<(u32, bool)> = vec![(2, true); 6];
    assert_eq!(session.read_samples(&steps).len(), 4);
    assert!(session.finished);
    assert_eq!(session.read_samples(&steps).len(), 0);
}

#[test]
fn tune_tells_its_name() {
    let session = Session::new(parse_ayt(&tune()).unwrap());
    let info = session.info("/music/song.ayt");
    assert_eq!(info.name, "song.ayt");
    assert_eq!(info.format, "AYT");
    assert_eq!(info.channels, 2);
    assert_eq!(info.sample_rate, 48_000);
    assert_eq!(info.songs, 1);
    assert_eq!(info.tracker_text_lines.len(), 13);
    assert_eq!(session.info("/").name, "/");
    assert_eq!(session.info_named("x", Some("y".to_string())).name, "y");
}

#[test]
fn samples_are_the_same_in_one_go_or_two() {
    let steps: Vec<(u32, bool)> = (0..40u32).map(|i| (i % 5, i % 7 == 6)).collect();
    let mut whole = Session::new(parse_ayt(&tune()).unwrap());
    let at_once = whole.read_samples(&steps);
    for cut in 0..40usize {
        let mut session = Session::new(parse_ayt(&tune()).unwrap());
        let mut parts = session.read_samples(&steps[..cut].to_vec());
        parts.extend(session.read_samples(&steps[cut..].to_vec()));
        assert_eq!(parts, at_once);
        assert_eq!(session.frame_cursor, whole.frame_cursor);
    }
    assert_eq!(at_once.len(), 28);
    assert_eq!(whole.frame_cursor, 4);
    assert!(whole.finished);
}

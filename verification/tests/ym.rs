use kkc_plugins::lzh::{
    after_retry, decompress_lzh, decompress_lzh_strict, is_lzh_compressed, repair_lzh_level0_header_checksum,
};
use kkc_plugins::ym::{
    build_track_text_lines, build_tracker_monitor_lines, format_of, parse_ym, parse_ym_legacy, parse_ym_raw,
    parse_ym_v5_v6, read_be16, read_be32, read_nt_string, YmChip, YmSession,
};

fn header(attributes: u32, drums: u16, extra: u16, frames: u32) -> Vec<u8> {
    let mut b: Vec<u8> = b"YM6!LeOnArD!".to_vec();
    b.extend_from_slice(&frames.to_be_bytes());
    b.extend_from_slice(&attributes.to_be_bytes());
    b.extend_from_slice(&drums.to_be_bytes());
    b.extend_from_slice(&1_000_000u32.to_be_bytes());
    b.extend_from_slice(&25u16.to_be_bytes());
    b.extend_from_slice(&1u32.to_be_bytes());
    b.extend_from_slice(&extra.to_be_bytes());
    b
}

fn tune(attributes: u32) -> Vec<u8> {
    let mut b = header(attributes, 1, 2, 2);
    b.extend_from_slice(&[9, 9]);
    b.extend_from_slice(&3u32.to_be_bytes());
    b.extend_from_slice(&[8, 8, 8]);
    b.extend_from_slice(b"Title\0Someone\0one\r\ntwo\0");
    for i in 0..32u8 {
        b.push(i);
    }
    b
}

fn error_of(b: &[u8]) -> String {
    match parse_ym(b) {
        Ok(_) => panic!("accepted"),
        Err(m) => m,
    }
}

fn crc16(data: &[u8]) -> u16 {
    let mut crc: u16 = 0;
    for byte in data {
        crc ^= *byte as u16;
        for _ in 0..8 {
            crc = if crc & 1 != 0 { (crc >> 1) ^ 0xA001 } else { crc >> 1 };
        }
    }
    crc
}

fn entry(method: &[u8], packed: &[u8], size: usize, crc: u16) -> Vec<u8> {
    let mut body: Vec<u8> = method.to_vec();
    body.extend_from_slice(&(packed.len() as u32).to_le_bytes());
    body.extend_from_slice(&(size as u32).to_le_bytes());
    body.extend_from_slice(&[0, 0, 0x21, 0x50]);
    body.extend_from_slice(&[0x20, 0, 4]);
    body.extend_from_slice(b"A.YM");
    body.extend_from_slice(&crc.to_le_bytes());
    let sum = body.iter().fold(0u8, |a, b| a.wrapping_add(*b));
    let mut out = vec![body.len() as u8, sum];
    out.extend_from_slice(&body);
    out.extend_from_slice(packed);
    out
}

// One block in which every byte stands for itself in eight bits.
fn pack(data: &[u8]) -> Vec<u8> {
    let mut bits: Vec<bool> = Vec::new();
    let mut put = |value: u32, count: u32| {
        for k in (0..count).rev() {
            bits.push((value >> k) & 1 == 1);
        }
    };
    put(data.len() as u32, 16);
    put(0, 5);
    put(10, 5);
    put(256, 9);
    put(0, 4);
    put(0, 4);
    for byte in data {
        put(*byte as u32, 8);
    }
    let mut out: Vec<u8> = Vec::new();
    for chunk in bits.chunks(8) {
        let mut byte = 0u8;
        for (k, bit) in chunk.iter().enumerate() {
            if *bit {
                byte |= 0x80 >> k;
            }
        }
        out.push(byte);
    }
    out
}

fn packed_tune() -> Vec<u8> {
    let plain = tune(1);
    let mut b = entry(b"-lh5-", &pack(&plain), plain.len(), crc16(&plain));
    b.push(0);
    b
}

#[test]
fn interleaved_tune_is_decoded() {
    let song = parse_ym_raw(&tune(1)).unwrap();
    assert_eq!(&song.magic, b"YM6!");
    assert_eq!(song.nb_frames, 2);
    assert_eq!(song.attributes, 1);
    assert_eq!(song.nb_drums, 1);
    assert_eq!(song.clock_rate, 1_000_000);
    assert_eq!(song.player_rate, 25);
    assert_eq!(song.loop_frame, 1);
    assert_eq!(song.song_name, "Title");
    assert_eq!(song.song_author, "Someone");
    assert_eq!(song.song_comment, "one\r\ntwo");
    for r in 0..16usize {
        assert_eq!(song.reg_frames[r], vec![2 * r as u8, 2 * r as u8 + 1]);
    }
}

#[test]
fn frame_by_frame_tune_is_decoded() {
    let song = parse_ym_raw(&tune(0)).unwrap();
    for r in 0..16usize {
        assert_eq!(song.reg_frames[r], vec![r as u8, 16 + r as u8]);
    }
}

#[test]
fn faults_of_new_tunes_have_their_messages() {
    assert_eq!(error_of(b"YM"), "YM file too short");
    assert_eq!(error_of(b"YM5!LeOnArD"), "YM file too short");
    assert_eq!(error_of(b"YM5!LeOnArD?"), "Invalid YM signature");
    assert_eq!(error_of(b"YM7!LeOnArD!"), "Not a valid YM2/YM3/YM5/YM6 file");
    assert_eq!(error_of(&header(0, 0, 0, 1)[..33]), "Truncated YM header");
    assert_eq!(error_of(&header(0, 0, 1, 1)), "YM extra data exceeds file size");
    assert_eq!(error_of(&header(0, 1, 0, 1)), "Truncated YM header");
    let mut b = header(0, 1, 0, 1);
    b.extend_from_slice(&9u32.to_be_bytes());
    assert_eq!(error_of(&b), "YM digidrum data exceeds file size");
    let mut b = header(0, 0, 0, 1);
    b.extend_from_slice(b"no end");
    assert_eq!(error_of(&b), "YM string extends beyond file end");
    let mut b = header(0, 0, 0, 1);
    b.extend_from_slice(&[b'a'; 258]);
    assert_eq!(error_of(&b), "YM string too long or missing terminator");
    let mut b = header(0, 0, 0, 1);
    b.extend_from_slice(&[0, 0, 0]);
    b.extend_from_slice(&[1; 15]);
    assert_eq!(error_of(&b), "Not enough YM register data");
}

#[test]
fn old_tunes_are_decoded() {
    let mut b: Vec<u8> = b"YM3!".to_vec();
    for i in 0..29u8 {
        b.push(i);
    }
    let song = parse_ym_raw(&b).unwrap();
    assert_eq!(song.nb_frames, 2);
    assert_eq!(song.loop_frame, 0);
    assert_eq!(song.clock_rate, 2_000_000);
    assert_eq!(song.player_rate, 50);
    assert_eq!(song.attributes, 1);
    for r in 0..14usize {
        assert_eq!(song.reg_frames[r], vec![2 * r as u8, 2 * r as u8 + 1]);
    }
    assert_eq!(song.reg_frames[14], vec![0, 0]);

    let mut looped: Vec<u8> = b"YM3b".to_vec();
    looped.extend_from_slice(&[5; 14]);
    looped.extend_from_slice(&[1, 2, 0, 0]);
    let song = parse_ym_raw(&looped).unwrap();
    assert_eq!(song.nb_frames, 1);
    assert_eq!(song.loop_frame, 0x201);
}

#[test]
fn faults_of_old_tunes_have_their_messages() {
    assert_eq!(error_of(b"YM2!short"), "Legacy YM file too short");
    let mut b: Vec<u8> = b"YM3b".to_vec();
    b.extend_from_slice(&[0; 14]);
    assert_eq!(error_of(&b), "Legacy YM contains no frames");
    assert!(parse_ym_legacy(&b, *b"YM3!").is_ok());
    assert!(parse_ym_v5_v6(&tune(1), *b"????").is_ok());
}

#[test]
fn numbers_are_big_endian_and_move_on() {
    let data = [1u8, 2, 3, 4, 5, 6];
    let mut ptr = 0usize;
    assert_eq!(read_be32(&data, &mut ptr), Ok(0x0102_0304));
    assert_eq!(ptr, 4);
    assert_eq!(read_be16(&data, &mut ptr), Ok(0x0506));
    assert_eq!(ptr, 6);
    assert_eq!(read_be16(&data, &mut ptr), Err("Truncated YM header".to_string()));
    assert_eq!(ptr, 6);
    let mut far = usize::MAX;
    assert_eq!(read_be32(&data, &mut far), Err("Truncated YM header".to_string()));
    assert_eq!(far, usize::MAX);
}

#[test]
fn strings_may_have_257_bytes() {
    let mut data = vec![b'x'; 257];
    data.push(0);
    let mut ptr = 0usize;
    assert_eq!(read_nt_string(&data, &mut ptr).unwrap().len(), 257);
    assert_eq!(ptr, 258);
}

#[test]
fn strings_are_read_as_utf8_as_far_as_they_are() {
    let mut ptr = 0usize;
    assert_eq!(read_nt_string("\u{e9}\0".as_bytes(), &mut ptr).unwrap(), "\u{e9}");
    let mut ptr = 0usize;
    assert_eq!(read_nt_string(&[0xE9, 0], &mut ptr).unwrap(), "\u{FFFD}");
}

#[test]
fn packed_tune_is_unpacked_first() {
    let b = packed_tune();
    assert!(is_lzh_compressed(&b));
    assert!(!is_lzh_compressed(&tune(1)));
    assert_eq!(decompress_lzh(&b).unwrap(), tune(1));
    assert_eq!(parse_ym(&b).unwrap().song_name, "Title");
}

#[test]
fn wrong_header_checksum_is_repaired() {
    let mut b = packed_tune();
    let right = b[1];
    b[1] = right.wrapping_add(1);
    assert!(decompress_lzh_strict(&b).is_err());
    let fixed = repair_lzh_level0_header_checksum(&b).unwrap();
    assert_eq!(fixed, packed_tune());
    assert_eq!(repair_lzh_level0_header_checksum(&fixed).unwrap(), fixed);
    assert_eq!(parse_ym(&b).unwrap().song_author, "Someone");
}

#[test]
fn only_level_zero_headers_are_repaired() {
    assert!(repair_lzh_level0_header_checksum(b"-lh5-").is_none());
    let mut b = packed_tune();
    b[6] = b'x';
    assert!(repair_lzh_level0_header_checksum(&b).is_none());
    let mut b = packed_tune();
    b.truncate(23);
    assert!(repair_lzh_level0_header_checksum(&b).is_none());
}

#[test]
fn directories_are_passed_over() {
    let mut b = entry(b"-lhd-", &[], 0, 0);
    b.extend_from_slice(&entry(b"-lh0-", b"hello", 5, crc16(b"hello")));
    b.push(0);
    assert_eq!(decompress_lzh_strict(&b).unwrap(), b"hello");
    let mut alone = entry(b"-lhd-", &[], 0, 0);
    alone.push(0);
    assert_eq!(
        decompress_lzh_strict(&alone),
        Err("YM LZH archive has no decodable file entry".to_string())
    );
}

#[test]
fn broken_archives_have_their_messages() {
    let m = decompress_lzh_strict(b"nothing of the kind").unwrap_err();
    assert!(m.starts_with("YM LZH header decode failed: "));
    let odd = entry(b"-lh9-", b"hello", 5, 0);
    assert_eq!(
        decompress_lzh_strict(&odd),
        Err("YM LZH compression method is not supported".to_string())
    );
    let wrong = entry(b"-lh0-", b"hello", 5, 1);
    assert!(decompress_lzh_strict(&wrong).unwrap_err().starts_with("YM LZH CRC check failed: "));
    let mut cut = entry(b"-lh0-", b"hello", 5, crc16(b"hello"));
    cut.pop();
    assert!(decompress_lzh_strict(&cut).unwrap_err().starts_with("YM LZH data decode failed: "));
    let twice = decompress_lzh(&cut).unwrap_err();
    assert!(twice.starts_with("YM LZH decode failed (strict: YM LZH data decode failed: "));
    assert_eq!(
        after_retry("a".to_string(), Some(Err("b".to_string()))),
        Err("YM LZH decode failed (strict: a; checksum-repair retry: b)".to_string())
    );
    assert_eq!(after_retry("a".to_string(), None), Err("a".to_string()));
    assert_eq!(after_retry("a".to_string(), Some(Ok(vec![1]))), Ok(vec![1]));
    let mut bad_next = entry(b"-lhd-", &[], 0, 0);
    bad_next.extend_from_slice(&[22, 0, b'-', b'l', b'h', b'5', b'-', 1]);
    assert!(decompress_lzh_strict(&bad_next).unwrap_err().starts_with("YM LZH next entry failed: "));
}

#[test]
fn ym_track_text_names_everything() {
    let song = parse_ym_raw(&tune(1)).unwrap();
    assert_eq!(
        build_track_text_lines(&song),
        vec![
            "Format: YM6!",
            "Frames: 2",
            "Player rate: 25 Hz",
            "Clock rate: 1000000 Hz",
            "Loop frame: 1",
            "Attributes: 0x00000001",
            "Digidrums: 1",
            "",
            "Title: Title",
            "Author: Someone",
            "",
            "Comment:",
            "  one",
            "  two",
        ]
    );
    assert_eq!(format_of(&[0xFF, 0, 0, 0]), "YM");
}

#[test]
fn ym_monitor_shows_all_registers() {
    let song = parse_ym_raw(&tune(1)).unwrap();
    let lines = build_tracker_monitor_lines(&song, 1, 14);
    assert_eq!(lines.len(), 14);
    assert_eq!(lines[0], "Frame: 2 / 2");
    assert_eq!(lines[1], "Rate: 25 Hz  Clock: 1000000 Hz");
    assert_eq!(lines[2], "Loop frame: 1");
    assert_eq!(lines[3], "");
    assert_eq!(lines[4], "R00:01  R01:03");
    assert_eq!(lines[10], "R12:19  R13:1B");
    assert_eq!(lines[11], "");
    assert_eq!(build_tracker_monitor_lines(&song, 0, 0), vec!["Frame: 1 / 2"]);
    assert_eq!(build_tracker_monitor_lines(&song, 0, 3).len(), 3);
}

#[test]
fn tune_without_frames_ends_at_once() {
    let mut b = header(1, 0, 0, 0);
    b.extend_from_slice(&[0, 0, 0]);
    let song = parse_ym_raw(&b).unwrap();
    assert_eq!(build_tracker_monitor_lines(&song, 0, 14), vec!["No YM frames"]);
    let mut session = YmSession::new(song);
    assert!(!session.finished);
    assert!(session.next_stereo_sample(1, false).is_none());
    assert!(session.finished);
}

#[test]
fn ym_session_plays_every_frame_once() {
    let mut session = YmSession::new(parse_ym_raw(&tune(1)).unwrap());
    let steps: Vec<(u32, bool)> = vec![(5, false), (5, true), (5, true), (5, true)];
    assert_eq!(session.read_samples(&steps).len(), 3);
    assert!(session.finished);
    assert_eq!(session.position().frame, 1);
    assert_eq!(session.position().table_index, 1);
    assert_eq!(session.position().row, 0);
    session.update_monitor();
    assert_eq!(session.tracker_monitor_lines[0], "Frame: 2 / 2");
    assert_eq!(session.info("a/b.ym").name, "b.ym");
    assert_eq!(session.info("a/b.ym").format, "YM6!");
    assert_eq!(session.info_named("a", None).name, "a");
}

#[test]
fn ym_chip_takes_its_registers() {
    let mut chip = YmChip::new();
    chip.write_reg(8, 15);
    assert_eq!(chip.channel_level(0).volume, 31);
}

use kkc_plugins::psg::AyChip;

#[test]
fn fresh_chip_has_low_channels_at_the_first_step() {
    let chip = AyChip::new();
    let levels = chip.levels();
    assert_eq!(levels.len(), 3);
    for level in levels {
        assert_eq!(level.volume, 1);
        assert!(!level.high);
    }
}

#[test]
fn tone_turns_over_exactly_at_its_period() {
    let mut chip = AyChip::new();
    chip.write_reg(0, 3);
    chip.write_reg(7, 0b0011_1000);
    for _ in 0..2 {
        chip.tick();
        assert!(!chip.channel_level(0).high);
    }
    chip.tick();
    assert!(chip.channel_level(0).high);
    for _ in 0..2 {
        chip.tick();
        assert!(chip.channel_level(0).high);
    }
    chip.tick();
    assert!(!chip.channel_level(0).high);
}

#[test]
fn coarse_register_counts_with_its_low_four_bits() {
    let mut chip = AyChip::new();
    chip.write_reg(7, 0b0011_1000);
    chip.write_reg(1, 0xF1);
    for _ in 0..255 {
        chip.tick();
        assert!(!chip.channel_level(0).high);
    }
    chip.tick();
    assert!(chip.channel_level(0).high);
}

#[test]
fn register_index_wraps_at_sixteen() {
    let mut a = AyChip::new();
    let mut b = AyChip::new();
    a.write_reg(8, 7);
    b.write_reg(24, 7);
    assert_eq!(a.channel_level(0), b.channel_level(0));
    assert_eq!(a.channel_level(0).volume, 15);
}

#[test]
fn disabled_sources_leave_the_channel_high() {
    let mut chip = AyChip::new();
    chip.write_reg(7, 0x3F);
    for ch in 0..3 {
        assert!(chip.channel_level(ch).high);
    }
}

#[test]
fn fixed_volumes_take_the_odd_steps() {
    let mut chip = AyChip::new();
    for v in 0..16u8 {
        chip.write_reg(9, v);
        assert_eq!(chip.channel_level(1).volume, 2 * v as usize + 1);
    }
}

#[test]
fn envelope_shapes_end_as_they_should() {
    // decay without continuing: down to silence and no further
    let mut chip = AyChip::new();
    chip.write_reg(10, 0x10);
    chip.write_reg(11, 1);
    chip.write_reg(13, 0);
    assert_eq!(chip.channel_level(2).volume, 31);
    for _ in 0..31 {
        chip.tick();
    }
    assert_eq!(chip.channel_level(2).volume, 0);
    for _ in 0..50 {
        chip.tick();
        assert_eq!(chip.channel_level(2).volume, 0);
    }
    // attack that starts again and again
    chip.write_reg(13, 0x0C);
    assert_eq!(chip.channel_level(2).volume, 0);
    for _ in 0..30 {
        chip.tick();
    }
    assert_eq!(chip.channel_level(2).volume, 30);
    chip.tick();
    assert_eq!(chip.channel_level(2).volume, 0);
    // up and down
    chip.write_reg(13, 0x0E);
    for _ in 0..31 {
        chip.tick();
    }
    assert_eq!(chip.channel_level(2).volume, 31);
    chip.tick();
    assert_eq!(chip.channel_level(2).volume, 30);
    // attack and hold
    chip.write_reg(13, 0x0D);
    for _ in 0..40 {
        chip.tick();
    }
    assert_eq!(chip.channel_level(2).volume, 31);
}

#[test]
fn noise_goes_on_for_ever() {
    let mut chip = AyChip::new();
    chip.write_reg(6, 1);
    chip.write_reg(7, 0b0000_0111);
    let mut seen_high = 0;
    let mut seen_low = 0;
    for _ in 0..200_000 {
        chip.tick();
        if chip.channel_level(0).high {
            seen_high += 1;
        } else {
            seen_low += 1;
        }
    }
    assert!(seen_high > 50_000);
    assert!(seen_low > 50_000);
}

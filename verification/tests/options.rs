//! The command-line configuration model.

use gzip::cli::DEFAULT_COMPRESSION_LEVEL;
use gzip::Args;

#[test]
fn default_level_without_switches() {
    let args = Args::default();
    assert_eq!(args.compression_level(), DEFAULT_COMPRESSION_LEVEL);
    assert_eq!(args.compression_level(), 6);
}

#[test]
fn fast_and_best() {
    let mut args = Args::default();
    args.level_1 = true;
    assert_eq!(args.compression_level(), 1);
    let mut args = Args::default();
    args.level_9 = true;
    assert_eq!(args.compression_level(), 9);
}

#[test]
fn lowest_level_switch_wins() {
    let mut args = Args::default();
    args.level_3 = true;
    args.level_8 = true;
    assert_eq!(args.compression_level(), 3);
}

#[test]
fn each_level_switch() {
    for lvl in 1..=9u32 {
        let mut args = Args::default();
        match lvl {
            1 => args.level_1 = true,
            2 => args.level_2 = true,
            3 => args.level_3 = true,
            4 => args.level_4 = true,
            5 => args.level_5 = true,
            6 => args.level_6 = true,
            7 => args.level_7 = true,
            8 => args.level_8 = true,
            _ => args.level_9 = true,
        }
        assert_eq!(args.compression_level(), lvl);
    }
}

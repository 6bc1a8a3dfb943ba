//! SFZ files and the regions they describe.

use stardust::sfz::file::{apply_opcode, LoopMode, Region, SfzFile};
use stardust::sfz::lexer::{parse_header, split_sfz_tokens, strip_line_comment};
use stardust::sfz::values::{parse_note, reads_as_real};

fn text(s: &Option<String>) -> Option<&str> {
    s.as_deref()
}

fn num(s: &Option<String>) -> f32 {
    s.as_deref().expect("is set").parse().expect("is a number")
}

fn chars(s: &str) -> Vec<char> {
    s.chars().collect()
}

#[test]
fn parses_single_region() {
    let sfz = "<region> sample=piano_c4.wav pitch_keycenter=60 lokey=48 hikey=72";
    let f = SfzFile::parse(sfz, "/inst");
    assert_eq!(f.regions.len(), 1);
    let r = &f.regions[0];
    assert_eq!(r.sample, "/inst/piano_c4.wav");
    assert_eq!(r.pitch_keycenter, 60);
    assert_eq!(r.lokey, 48);
    assert_eq!(r.hikey, 72);
}

#[test]
fn group_opcodes_inherit_to_regions() {
    let sfz = "
        <group> volume=-6 ampeg_release=0.5
        <region> sample=a.wav pitch_keycenter=60
        <region> sample=b.wav pitch_keycenter=72 volume=-3
    ";
    let f = SfzFile::parse(sfz, "/");
    assert_eq!(f.regions.len(), 2);
    // First region picks up both group opcodes.
    assert_eq!(num(&f.regions[0].volume_db), -6.0);
    assert!((num(&f.regions[0].ampeg_release_secs) - 0.5).abs() < 1e-6);
    // Second region overrides volume but still inherits release.
    assert_eq!(num(&f.regions[1].volume_db), -3.0);
    assert!((num(&f.regions[1].ampeg_release_secs) - 0.5).abs() < 1e-6);
}

#[test]
fn global_master_group_region_inheritance_chain() {
    let sfz = "
        <global> volume=-12
        <master> ampeg_attack=0.1
        <group> ampeg_release=0.3
        <region> sample=x.wav pitch_keycenter=60
    ";
    let f = SfzFile::parse(sfz, "/");
    let r = &f.regions[0];
    assert_eq!(num(&r.volume_db), -12.0);
    assert!((num(&r.ampeg_attack_secs) - 0.1).abs() < 1e-6);
    assert!((num(&r.ampeg_release_secs) - 0.3).abs() < 1e-6);
}

#[test]
fn region_opcode_overrides_group() {
    let sfz = "
        <group> volume=-12
        <region> sample=x.wav pitch_keycenter=60 volume=0
    ";
    let f = SfzFile::parse(sfz, "/");
    assert_eq!(num(&f.regions[0].volume_db), 0.0);
}

#[test]
fn note_name_parsing() {
    assert_eq!(parse_note("60"), Some(60));
    assert_eq!(parse_note("c4"), Some(60));
    assert_eq!(parse_note("C4"), Some(60));
    assert_eq!(parse_note("a4"), Some(69));
    assert_eq!(parse_note("c#4"), Some(61));
    assert_eq!(parse_note("db4"), Some(61));
    assert_eq!(parse_note("c-1"), Some(0));
    assert_eq!(parse_note("g9"), Some(127));
    assert_eq!(parse_note("nope"), None);
    assert_eq!(parse_note("200"), None);
}

#[test]
fn note_parsing_edges() {
    assert_eq!(parse_note(""), None);
    assert_eq!(parse_note("  127 "), Some(127));
    assert_eq!(parse_note("128"), None);
    assert_eq!(parse_note("-1"), None);
    assert_eq!(parse_note("+5"), Some(5));
    assert_eq!(parse_note("00000000000000000000000060"), Some(60));
    assert_eq!(parse_note("99999999999999999999999999"), None);
    assert_eq!(parse_note("bb-1"), Some(10));
    assert_eq!(parse_note("c##4"), Some(62));
    assert_eq!(parse_note("cb-1"), None);
    assert_eq!(parse_note("c2147483647"), None);
    assert_eq!(parse_note("c"), None);
    assert_eq!(parse_note("DB4"), None);
    assert_eq!(parse_note("é4"), None);
}

#[test]
fn region_uses_note_names() {
    let sfz = "<region> sample=x.wav lokey=c4 hikey=c5 pitch_keycenter=c4";
    let f = SfzFile::parse(sfz, "/");
    let r = &f.regions[0];
    assert_eq!(r.lokey, 60);
    assert_eq!(r.hikey, 72);
    assert_eq!(r.pitch_keycenter, 60);
}

#[test]
fn levels_and_times_keep_their_text() {
    let f = SfzFile::parse(
        "<region> sample=x.wav ampeg_sustain=70 ampeg_decay=0.2 pan=-100",
        "/",
    );
    let r = &f.regions[0];
    assert_eq!(text(&r.ampeg_sustain), Some("70"));
    assert_eq!(text(&r.ampeg_decay_secs), Some("0.2"));
    assert_eq!(text(&r.pan), Some("-100"));
    assert_eq!(text(&r.volume_db), None);
}

#[test]
fn loop_opcodes() {
    let f = SfzFile::parse(
        "<region> sample=x.wav pitch_keycenter=60 loop_mode=loop_continuous loop_start=1000 loop_end=20000",
        "/",
    );
    let r = &f.regions[0];
    assert_eq!(r.loop_mode, LoopMode::LoopContinuous);
    assert_eq!(r.loop_start, 1000);
    assert_eq!(r.loop_end, 20000);
}

#[test]
fn loop_modes() {
    let mode = |value: &str| {
        let sfz = format!("<region> sample=x.wav loop_mode={value}");
        SfzFile::parse(&sfz, "/").regions[0].loop_mode
    };
    assert_eq!(mode("ONE_SHOT"), LoopMode::OneShot);
    assert_eq!(mode("no_loop"), LoopMode::NoLoop);
    assert_eq!(mode("whatever"), LoopMode::NoLoop);
    assert_eq!(LoopMode::default(), LoopMode::NoLoop);
}

#[test]
fn tune_and_transpose() {
    let f = SfzFile::parse(
        "<region> sample=x.wav pitch_keycenter=60 tune=-15 transpose=2",
        "/",
    );
    let r = &f.regions[0];
    assert!((num(&r.tune_cents) + 15.0).abs() < 1e-6);
    assert_eq!(r.transpose_semitones, 2);
}

#[test]
fn default_path_from_control_applies() {
    let sfz = "
        <control> default_path=Samples/
        <region> sample=piano.wav pitch_keycenter=60
    ";
    let f = SfzFile::parse(sfz, "/inst");
    assert_eq!(f.regions[0].sample, "/inst/Samples/piano.wav");
}

#[test]
fn sample_paths_are_joined() {
    let path = |sfz: &str, base: &str| SfzFile::parse(sfz, base).regions[0].sample.clone();
    assert_eq!(path("<region> sample=/abs/x.wav", "/inst"), "/abs/x.wav");
    assert_eq!(path("<region> sample=x.wav", ""), "x.wav");
    assert_eq!(path("<region> sample=x.wav", "dir/"), "dir/x.wav");
    assert_eq!(
        path("<control> default_path=/lib <region> sample=x.wav", "/inst"),
        "/lib/x.wav"
    );
    assert_eq!(
        path("<control> default_path=a\\b <region> sample=x.wav", "/inst"),
        "/inst/a/b/x.wav"
    );
}

#[test]
fn key_shorthand_sets_all_three() {
    let f = SfzFile::parse("<region> sample=x.wav key=64", "/");
    let r = &f.regions[0];
    assert_eq!(r.lokey, 64);
    assert_eq!(r.hikey, 64);
    assert_eq!(r.pitch_keycenter, 64);
}

#[test]
fn opcodes_apply_in_the_order_in_which_they_are_set() {
    let f = SfzFile::parse("<group> key=64 <region> sample=x.wav lokey=60", "/");
    assert_eq!((f.regions[0].lokey, f.regions[0].hikey), (60, 64));
    let g = SfzFile::parse("<group> lokey=60 <region> sample=x.wav key=64", "/");
    assert_eq!((g.regions[0].lokey, g.regions[0].hikey), (64, 64));
}

#[test]
fn ignores_unknown_opcodes() {
    let sfz = "<region> sample=x.wav loop_crossfade=0.1 random=0.5 pitch_keycenter=60";
    let f = SfzFile::parse(sfz, "/");
    assert_eq!(f.regions.len(), 1);
}

#[test]
fn line_comments_are_stripped() {
    let sfz = "
        // top comment
        <region> sample=a.wav pitch_keycenter=60  // inline trailing comment
    ";
    let f = SfzFile::parse(sfz, "/");
    assert_eq!(f.regions.len(), 1);
    assert_eq!(f.regions[0].sample, "/a.wav");
}

#[test]
fn block_comment_lines_are_skipped() {
    let sfz = "
        <region> sample=a.wav lokey=10
        /* lokey=20 */
        /* hikey=30 */ /* hikey=40 */ // and more
    ";
    let f = SfzFile::parse(sfz, "/");
    assert_eq!(f.regions[0].lokey, 10);
    assert_eq!(f.regions[0].hikey, 127);
}

#[test]
fn sample_path_with_spaces() {
    let sfz = "<region> sample=Felt Piano/A4 v3.wav pitch_keycenter=69";
    let f = SfzFile::parse(sfz, "/inst");
    assert_eq!(f.regions[0].sample, "/inst/Felt Piano/A4 v3.wav");
    assert_eq!(f.regions[0].pitch_keycenter, 69);
}

#[test]
fn region_match_respects_key_and_velocity() {
    let r = Region {
        sample: "x.wav".to_string(),
        lokey: 60,
        hikey: 72,
        pitch_keycenter: 64,
        lovel: 40,
        hivel: 120,
        ..Region::default()
    };
    assert!(r.matches(64, 80));
    assert!(!r.matches(59, 80));
    assert!(!r.matches(64, 30));
    assert!(!r.matches(64, 121));
}

#[test]
fn backslash_paths_normalise() {
    let sfz = "<region> sample=subdir\\thing.wav pitch_keycenter=60";
    let f = SfzFile::parse(sfz, "/root");
    assert_eq!(f.regions[0].sample, "/root/subdir/thing.wav");
}

#[test]
fn regions_without_a_sample_are_dropped() {
    let f = SfzFile::parse("<region> lokey=1 <region> sample=a.wav <group> lokey=2", "");
    assert_eq!(f.regions.len(), 1);
    assert_eq!(f.regions[0].sample, "a.wav");
    assert_eq!(f.regions[0].lokey, 0);
}

#[test]
fn sections_start_anew() {
    let sfz = "
        <global> lokey=1 <master> hikey=2 <group> lovel=3
        <master> <region> sample=a.wav
        <global> <region> sample=b.wav
        <curve> lokey=9
        <region> sample=c.wav
    ";
    let f = SfzFile::parse(sfz, "");
    let limits: Vec<(u8, u8, u8)> =
        f.regions.iter().map(|r| (r.lokey, r.hikey, r.lovel)).collect();
    assert_eq!(limits, vec![(1, 127, 0), (0, 127, 0), (0, 127, 0)]);
}

#[test]
fn values_out_of_range_change_nothing() {
    let f = SfzFile::parse(
        "<region> sample=a.wav lovel=-1 hivel=200 transpose=200 loop_start=x lokey=300",
        "",
    );
    let r = &f.regions[0];
    assert_eq!((r.lovel, r.hivel), (0, 127));
    assert_eq!(r.transpose_semitones, 0);
    assert_eq!(r.loop_start, 0);
    assert_eq!(r.lokey, 0);
    let g = SfzFile::parse("<region> sample=a.wav hivel=256 transpose=-128 loop_end=+7", "");
    assert_eq!(g.regions[0].hivel, 127);
    assert_eq!(g.regions[0].transpose_semitones, -128);
    assert_eq!(g.regions[0].loop_end, 7);
}

#[test]
fn a_narrower_value_hides_a_wider_one_even_where_it_cannot_be_read() {
    let f = SfzFile::parse("<group> lokey=40 <region> sample=a.wav lokey=x", "");
    assert_eq!(f.regions[0].lokey, 0);
}

#[test]
fn windows_line_ends_are_white_space() {
    let f = SfzFile::parse("<region>\r\nsample=a b.wav\r\nlokey=3\r\n", "");
    assert_eq!(f.regions[0].sample, "a b.wav");
    assert_eq!(f.regions[0].lokey, 3);
}

#[test]
fn tokens_of_a_line() {
    let tokens = split_sfz_tokens(&chars("<Region> SAMPLE=a b c <x> d lokey=1 e"));
    let words: Vec<String> = tokens.iter().map(|t| t.iter().collect()).collect();
    assert_eq!(words, vec!["<Region>", "SAMPLE=a b c", "<x>", "d", "lokey=1", "e"]);
    assert_eq!(parse_header(&chars("<ReGion>")), Some(chars("region")));
    assert_eq!(parse_header(&chars("<")), None);
    assert_eq!(parse_header(&chars("<>")), Some(vec![]));
    assert_eq!(strip_line_comment(&chars("a / b // c // d")), chars("a / b "));
}

#[test]
fn real_numbers_are_told_from_other_texts() {
    for s in [
        "0", "-6", "+6", "5.", ".5", "-.5", "1e3", "1E-3", "2.5e+10", "inf", "-INF", "+NaN",
        "Infinity", "1e999",
    ] {
        assert!(reads_as_real(&chars(s)), "{s}");
        assert!(s.parse::<f32>().is_ok(), "{s}");
    }
    for s in [
        "", "+", "-", ".", "e5", ".e5", "1e", "1e+", "1.2.3", "loud", "-6dB", " 1", "1 ", "0x10",
        "--1", "infinit", "1_000", "1,5", "\u{0661}",
    ] {
        assert!(!reads_as_real(&chars(s)), "{s}");
        assert!(s.parse::<f32>().is_err(), "{s}");
    }
}

#[test]
fn a_value_that_is_no_number_leaves_the_old_one() {
    let sfz = "<region> sample=a.wav volume=-6 pan=10 tune=5 ampeg_attack=1 ampeg_decay=2 \
               ampeg_sustain=50 ampeg_release=3";
    let mut r = SfzFile::parse(sfz, "/i").regions.remove(0);
    for (key, value) in [
        ("volume", "loud"),
        ("pan", "left"),
        ("tune", "1.2.3"),
        ("ampeg_attack", ""),
        ("ampeg_decay", "."),
        ("ampeg_sustain", "1e"),
        ("ampeg_release", "-"),
    ] {
        apply_opcode(&mut r, &chars(key), &chars(value), &chars("/i"), &None);
    }
    assert_eq!(num(&r.volume_db), -6.0);
    assert_eq!(num(&r.pan), 10.0);
    assert_eq!(num(&r.tune_cents), 5.0);
    assert_eq!(num(&r.ampeg_attack_secs), 1.0);
    assert_eq!(num(&r.ampeg_decay_secs), 2.0);
    assert_eq!(num(&r.ampeg_sustain), 50.0);
    assert_eq!(num(&r.ampeg_release_secs), 3.0);
    apply_opcode(&mut r, &chars("volume"), &chars("-3.5"), &chars("/i"), &None);
    assert_eq!(num(&r.volume_db), -3.5);
    // A region's own value stands in place of its group's, readable or not.
    let f = SfzFile::parse("<group> volume=-6 <region> sample=a.wav volume=loud", "/i");
    assert_eq!(text(&f.regions[0].volume_db), None);
}

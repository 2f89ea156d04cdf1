use tid::address::{handle_address, AddressError};
use tid::config::{parse_color, parse_config, Config, ConfigBuilder};
use tid::font::{Font, Glyph};
use tid::state::{decimal_string, Mode, State};

fn mono_font(height: usize, width: u32, chars: &str) -> Font {
    let mut font = Font::new(height);
    for ch in chars.chars() {
        font.set_glyph(ch, Glyph { width, mask: vec![true; width as usize * height] });
    }
    font
}

fn state_with(content: &str, width: u32, height: u32) -> State {
    let font = mono_font(1, 10, "abcdefghijklmnopqrstuvwxyz =>0123456789:/.");
    State::new(font, [255; 4], [0; 4], "a".to_string(), content.to_string(), width, height)
}

#[test]
fn prepare_lines_fills_greedily() {
    let mut st = state_with("aa bb cc\n\nx", 50, 100);
    st.prepare_lines();
    assert_eq!(st.content_lines, vec!["aa", "bb", "cc", "", "x"]);
    let mut wide = state_with("aa bb cc", 100, 100);
    wide.prepare_lines();
    assert_eq!(wide.content_lines, vec!["aa bb cc"]);
}

#[test]
fn prepare_lines_keeps_an_oversized_word_alone() {
    let mut st = state_with("abcd ef", 15, 100);
    st.prepare_lines();
    assert_eq!(st.content_lines, vec!["abcd", "ef"]);
    let mut single = state_with("abcdefgh", 15, 100);
    single.prepare_lines();
    assert_eq!(single.content_lines, vec!["abcdefgh"]);
}

#[test]
fn prepare_lines_with_zero_width_terminates() {
    let mut st = state_with("a b", 0, 100);
    st.prepare_lines();
    assert_eq!(st.content_lines, vec!["a", "b"]);
}

#[test]
fn prepare_lines_splits_crlf_and_whitespace() {
    let mut st = state_with("a\tb\r\n  c  \r", 1000, 100);
    st.prepare_lines();
    assert_eq!(st.content_lines, vec!["a b", "c"]);
}

#[test]
fn state_setters() {
    let mut st = state_with("x", 10, 10);
    assert_eq!(st.mode, "normal");
    assert_eq!(st.starting_line, 0);
    st.resize(30, 40);
    assert_eq!((st.window_width, st.window_height), (30, 40));
    st.update("b".to_string(), "y".to_string());
    assert_eq!((st.page_address.as_str(), st.page_content.as_str()), ("b", "y"));
    st.set_starting_line(3);
    assert_eq!(st.starting_line, 3);
    st.set_mode("link".to_string());
    assert_eq!(st.mode, "link");
    st.set_address("c".to_string());
    assert_eq!(st.page_address, "c");
    assert_eq!(st.width("ab"), 20);
}

#[test]
fn plan_numbers_links_in_link_mode() {
    let mut st = state_with("=> a\nb\n=> c", 1000, 100);
    st.prepare_lines();
    st.set_mode("link".to_string());
    let plan = st.plan();
    let view: Vec<(&str, bool, usize)> = plan.iter().map(|(s, inv, row)| (s.as_str(), *inv, *row)).collect();
    assert_eq!(
        view,
        vec![
            ("a", true, 0),
            ("=> a", false, 1),
            ("0", true, 1),
            ("b", false, 2),
            ("=> c", false, 3),
            ("1", true, 3),
            ("link", true, 99),
        ]
    );
}

#[test]
fn plan_stops_near_the_bottom() {
    let mut st = state_with("a\nb\nc\nd\ne\nf", 1000, 6);
    st.prepare_lines();
    let plan = st.plan();
    let rows: Vec<usize> = plan.iter().map(|p| p.2).collect();
    assert_eq!(rows, vec![0, 1, 2, 3, 5]);
}

#[test]
fn draw_paints_address_inverted() {
    let st = state_with("", 1000, 4);
    let mut frame = vec![1u8; 16 * 4 * 4];
    st.draw(&mut frame[..], 16);
    assert_eq!(&frame[0..4], &[0, 0, 0, 0]);
    assert_eq!(&frame[36..40], &[0, 0, 0, 0]);
    assert_eq!(&frame[40..44], &[1, 1, 1, 1]);
    assert_eq!(&frame[64..68], &[1, 1, 1, 1]);
}

#[test]
fn mode_names() {
    assert_eq!(Mode::Normal.to_string(), "normal");
    assert_eq!(Mode::Insert.to_string(), "insert");
    assert_eq!(Mode::Link.to_string(), "link");
}

#[test]
fn decimal_strings() {
    assert_eq!(decimal_string(0), "0");
    assert_eq!(decimal_string(120), "120");
}

#[test]
fn colors_parse() {
    assert_eq!(parse_color("0xff00ff00"), Ok(0xff00ff00));
    assert_eq!(parse_color("0x+1A"), Ok(0x1a));
    assert_eq!(parse_color("ff"), Err("color values must be prefixed with '0x'".to_string()));
    assert!(parse_color("0xzz").is_err());
    assert!(parse_color("0x").is_err());
    assert!(parse_color("0x100000000").is_err());
}

#[test]
fn config_file_parses() {
    let cfg = parse_config("foreground 0x01020304 # white\n\n  # only a comment\nfont_name geneva14.uf2\nbackground 0x0a0b0c0d\n")
        .unwrap();
    assert_eq!(cfg.foreground, Some([1, 2, 3, 4]));
    assert_eq!(cfg.background, Some([10, 11, 12, 13]));
    assert_eq!(cfg.font_path.as_deref(), Some("/etc/tid/fonts/geneva14.uf2"));
    let path = parse_config("font_path /tmp/x.uf2").unwrap();
    assert_eq!(path.font_path.as_deref(), Some("/tmp/x.uf2"));
}

#[test]
fn config_errors() {
    assert_eq!(parse_config("foreground").err(), Some("expected argument after keyword".to_string()));
    assert_eq!(parse_config("colour 0x0").err(), Some("unknown keyword 'colour'".to_string()));
    assert!(parse_config("background 12").is_err());
}

#[test]
fn config_apply_overrides() {
    let mut config = Config::default();
    assert_eq!(config.font_path, "/etc/tid/fonts/cream12.uf2");
    assert_eq!(config.foreground, [0xff; 4]);
    let mut b = ConfigBuilder::new();
    b.set_background([1, 2, 3, 4]);
    config.apply(b);
    assert_eq!(config.background, [1, 2, 3, 4]);
    assert_eq!(config.foreground, [0xff; 4]);
}

#[test]
fn addresses_resolve() {
    assert_eq!(handle_address("gemini://h/", "gemini://x/y"), Ok("gemini://x/y".to_string()));
    assert_eq!(handle_address("gemini://h/dir/page", "foo"), Ok("gemini://h/dir/foo".to_string()));
    assert_eq!(handle_address("not a url", "foo"), Err(AddressError::Unresolvable));
}

#[test]
fn draw_default_uses_state_colors() {
    let st = state_with("", 100, 10);
    let block = st.draw_default("ab");
    assert_eq!(block.width(), 20);
    assert_eq!(block.height(), 1);
    assert_eq!(block.rows().unwrap()[0][0], [255; 4]);
}

#[test]
fn prepare_lines_moves_an_overflowing_last_word_on() {
    let mut st = state_with("aa bb cc", 70, 100);
    st.prepare_lines();
    assert_eq!(st.content_lines, vec!["aa bb", "cc"]);
    for line in &st.content_lines {
        if line.contains(' ') {
            assert!(st.width(&format!("{line} ")) < 70);
        }
    }
}

#[test]
fn prepare_lines_puts_an_oversized_last_word_alone() {
    let mut st = state_with("a uuuu", 30, 100);
    st.prepare_lines();
    assert_eq!(st.content_lines, vec!["a", "uuuu"]);
}

#[test]
fn plan_stops_after_empty_lines_near_the_bottom() {
    let mut st = state_with("\n\nx", 1000, 4);
    st.prepare_lines();
    assert_eq!(st.content_lines, vec!["", "", "x"]);
    let plan = st.plan();
    let rows: Vec<(&str, usize)> = plan.iter().map(|p| (p.0.as_str(), p.2)).collect();
    assert_eq!(rows, vec![("a", 0), ("normal", 3)]);
}

#[test]
fn plan_keeps_page_lines_above_the_mode_row() {
    let mut st = state_with("\nx\n\ny\nz\n\nw", 1000, 8);
    st.prepare_lines();
    let plan = st.plan();
    let last = plan.len() - 1;
    for p in &plan[1..last] {
        assert!(p.2 + 1 <= 8 - 1);
    }
    assert_eq!(plan[last].2, 7);
}

#[test]
fn bad_color_in_config_reports_the_prefix() {
    assert_eq!(
        parse_config("foreground ff00ff00").err(),
        Some("color values must be prefixed with '0x'".to_string())
    );
}

use tid::font::{Font, Glyph};
use tid::wrapped_text::WrappedText;

fn mono_font(height: usize, width: u32, chars: &str) -> Font {
    let mut font = Font::new(height);
    for ch in chars.chars() {
        let mask = vec![false; width as usize * height];
        font.set_glyph(ch, Glyph { width, mask });
    }
    font
}

#[test]
fn scenario_ab_cd_ef_breaks() {
    let font = mono_font(1, 10, "abcdef ");
    let w = WrappedText::new("ab cd ef".to_string(), 25, &font);
    assert_eq!(w.breaks(), vec![2, 4, 5, 7, 8]);
    assert_eq!(w.lines(), vec!["ab", "c", "d", "e", "f"]);
    assert_eq!(w.lines_count(), 5);
}

#[test]
fn words_break_at_spaces() {
    let font = mono_font(1, 10, "helowrdf ");
    let w = WrappedText::new("hello world foo".to_string(), 60, &font);
    assert_eq!(w.breaks(), vec![5, 11, 15]);
    assert_eq!(w.lines(), vec!["hello", "world", "foo"]);
    assert_eq!(w.wrapped(), "hello\nworld\nfoo");
}

#[test]
fn long_word_breaks_mid_word() {
    let font = mono_font(1, 10, "abcdef");
    let w = WrappedText::new("abcdef".to_string(), 25, &font);
    assert_eq!(w.breaks(), vec![2, 4, 6]);
    assert_eq!(w.lines(), vec!["ab", "cd", "ef"]);
}

#[test]
fn narrow_width_breaks_every_character() {
    let font = mono_font(1, 10, "abc");
    let w = WrappedText::new("abc".to_string(), 5, &font);
    assert_eq!(w.breaks(), vec![0, 1, 2, 3]);
    assert_eq!(w.lines_count(), 4);
}

#[test]
fn multibyte_offsets_are_boundaries() {
    let font = mono_font(1, 10, "é ");
    let text = "é é".to_string();
    let w = WrappedText::new(text.clone(), 15, &font);
    assert_eq!(w.breaks(), vec![2, 3, 5]);
    for b in w.breaks() {
        assert!(text.is_char_boundary(b));
    }
    assert_eq!(w.lines(), vec!["é", "", "é"]);
}

#[test]
fn no_width_breaks_only_at_newlines() {
    let font = mono_font(1, 10, "ab");
    let w = WrappedText::new_without_width("a\nb".to_string(), None, &font);
    assert_eq!(w.breaks(), vec![1, 3]);
    assert_eq!(w.lines(), vec!["a", "b"]);
    let long = WrappedText::new_without_width("aaaaaaaaaa bbbbbbbbbb".to_string(), None, &font);
    assert_eq!(long.breaks(), vec![21]);
}

#[test]
fn empty_text_is_one_empty_line() {
    let font = mono_font(1, 10, "a");
    let w = WrappedText::new(String::new(), 10, &font);
    assert_eq!(w.breaks(), vec![0]);
    assert_eq!(w.lines(), vec![""]);
    assert_eq!(w.wrapped(), "");
}

#[test]
fn glyphless_characters_take_no_width() {
    let font = mono_font(1, 10, "a");
    let w = WrappedText::new("azzzzzzzza".to_string(), 15, &font);
    assert_eq!(w.breaks(), vec![9, 10]);
}

#[test]
fn lines_twice_are_equal() {
    let font = mono_font(1, 10, "helowrdf ");
    let w = WrappedText::new("hello world\nfoo".to_string(), 60, &font);
    let first = w.lines();
    let second = w.lines();
    assert_eq!(first, second);
    assert_eq!(first, vec!["hello", "world", "foo"]);
}

#[test]
fn breaks_increase_and_end_at_length() {
    let font = mono_font(1, 7, "abcdefghij \n");
    let text = "abc defg hi\n\nj abcdefghij a b".to_string();
    for width in [0u32, 5, 7, 14, 20, 33, 100] {
        let w = WrappedText::new(text.clone(), width, &font);
        let b = w.breaks();
        assert_eq!(*b.last().unwrap(), text.len());
        for pair in b.windows(2) {
            assert!(pair[0] < pair[1]);
        }
    }
}

#[test]
fn rewrap_replaces_breaks() {
    let font = mono_font(1, 10, "helowrdf ");
    let mut w = WrappedText::new("hello world foo".to_string(), 60, &font);
    w.rewrap(None, &font);
    assert_eq!(w.breaks(), vec![15]);
    assert_eq!(w.lines(), vec!["hello world foo"]);
}

#[test]
fn default_is_one_empty_line() {
    let w = WrappedText::default();
    assert_eq!(w.breaks(), vec![0]);
    assert_eq!(w.lines(), vec![""]);
    let copy = w.clone();
    assert_eq!(copy.lines_count(), 1);
}

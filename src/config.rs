use crate::layout::{split_lines, split_words, text_lines, words_of};
use crate::render::Pixel;
use crate::text::{chars_of, string_of};
use vstd::prelude::*;
use vstd::string::StringExecFns;

verus! {

/// Where the configuration file lives.
pub const CONFIG_FILE_PATH: &'static str = "/etc/tid/tid.config";

/// The directory that font names are looked up in.
pub const DEFAULT_FONT_DIR: &'static str = "/etc/tid/fonts";

/// The font used when none is configured.
pub const DEFAULT_FONT: &'static str = "cream12.uf2";

/// The prefix of a colour value.
pub const COLOR_PREFIX: &'static str = "0x";

/// The default background colour.
pub const DEFAULT_BACKGROUND: Pixel = [0x00, 0x00, 0x00, 0x00];

/// The default foreground colour.
pub const DEFAULT_FOREGROUND: Pixel = [0xff, 0xff, 0xff, 0xff];

/// The value of a hexadecimal digit.
pub open spec fn hex_digit(c: char) -> Option<nat> {
    let v = c as u32;
    if 0x30 <= v <= 0x39 {
        Some((v - 0x30) as nat)
    } else if 0x61 <= v <= 0x66 {
        Some((v - 0x61 + 10) as nat)
    } else if 0x41 <= v <= 0x46 {
        Some((v - 0x41 + 10) as nat)
    } else {
        None
    }
}

/// The value of a non-empty run of hexadecimal digits.
pub open spec fn hex_value(ds: Seq<char>) -> Option<nat>
    decreases ds.len(),
{
    if ds.len() == 0 {
        None
    } else {
        match hex_digit(ds.last()) {
            None => None,
            Some(d) => if ds.len() == 1 {
                Some(d)
            } else {
                match hex_value(ds.drop_last()) {
                    None => None,
                    Some(v) => Some(v * 16 + d),
                }
            },
        }
    }
}

/// The `u32` that `s` spells in hexadecimal, after an optional `+`.
pub open spec fn hex_u32_of(s: Seq<char>) -> Option<u32> {
    let ds = if s.len() > 0 && s[0] == '+' {
        s.drop_first()
    } else {
        s
    };
    match hex_value(ds) {
        Some(v) => if v <= u32::MAX {
            Some(v as u32)
        } else {
            None
        },
        None => None,
    }
}

/// Relies on u32::from_str_radix with radix 16: it accepts an optional `+` and
/// then one or more hexadecimal digits whose value fits a `u32`, and nothing else.
#[verifier::external_body]
fn hex_u32(s: &str) -> (r: Result<u32, String>)
    ensures
        match r {
            Ok(v) => hex_u32_of(s@) == Some(v),
            Err(_) => hex_u32_of(s@) is None,
        },
{
    u32::from_str_radix(s, 16).map_err(|e| e.to_string())
}

/// Whether `s` starts with the colour prefix `0x`.
pub open spec fn has_color_prefix(s: Seq<char>) -> bool {
    s.len() >= 2 && s[0] == '0' && s[1] == 'x'
}

/// The colour `0x` followed by the hexadecimal spelling of a `u32`.
pub open spec fn color_of(s: Seq<char>) -> Option<u32> {
    if s.len() >= 2 && s[0] == '0' && s[1] == 'x' {
        hex_u32_of(s.skip(2))
    } else {
        None
    }
}

/// The message of a colour without its prefix.
pub open spec fn missing_prefix_message() -> Seq<char> {
    "color values must be prefixed with '0x'"@
}

/// Parses a colour written `0x` and then hexadecimal digits.
pub fn parse_color(hex: &str) -> (r: Result<u32, String>)
    ensures
        match r {
            Ok(v) => color_of(hex@) == Some(v),
            Err(_) => color_of(hex@) is None,
        },
        !has_color_prefix(hex@) ==> (r matches Err(m) && m@
            == missing_prefix_message()),
{
    let n = hex.unicode_len();
    if n < 2 || hex.get_char(0) != '0' || hex.get_char(1) != 'x' {
        let mut msg = String::new();
        msg.append("color values must be prefixed with '0x'");
        return Err(msg);
    }
    let digits = hex.substring_char(2, n);
    proof {
        assert(digits@ =~= hex@.skip(2));
    }
    hex_u32(digits)
}

/// The four bytes of `v`, most significant first.
pub open spec fn be_bytes(v: u32) -> Pixel {
    [(v >> 24) as u8, (v >> 16) as u8, (v >> 8) as u8, v as u8]
}

/// The four bytes of `v`, most significant first.
pub fn to_be_bytes(v: u32) -> (r: Pixel)
    ensures
        r == be_bytes(v),
{
    [(v >> 24) as u8, (v >> 16) as u8, (v >> 8) as u8, v as u8]
}

/// `dir/name`, or `name` itself where it is an absolute path.
pub open spec fn join_path(dir: Seq<char>, name: Seq<char>) -> Seq<char> {
    if name.len() > 0 && name[0] == '/' {
        name
    } else {
        dir + seq!['/'] + name
    }
}

/// The path of the font `name` in the default font directory.
pub fn font_path_in_dir(name: &str) -> (r: String)
    ensures
        r@ == join_path(DEFAULT_FONT_DIR@, name@),
{
    let mut r = String::new();
    if name.unicode_len() > 0 && name.get_char(0) == '/' {
        r.append(name);
        return r;
    }
    r.append(DEFAULT_FONT_DIR);
    r.append("/");
    proof {
        reveal_strlit("/");
    }
    r.append(name);
    r
}

/// The settings of one configuration source; `None` where it sets nothing.
pub struct ConfigBuilder {
    pub font_path: Option<String>,
    pub foreground: Option<Pixel>,
    pub background: Option<Pixel>,
}

/// The mathematical picture of a configuration source.
pub struct BuilderView {
    pub font_path: Option<Seq<char>>,
    pub foreground: Option<Pixel>,
    pub background: Option<Pixel>,
}

impl View for ConfigBuilder {
    type V = BuilderView;

    open spec fn view(&self) -> BuilderView {
        BuilderView {
            font_path: match self.font_path {
                Some(p) => Some(p@),
                None => None,
            },
            foreground: self.foreground,
            background: self.background,
        }
    }
}

impl ConfigBuilder {
    /// A source that sets nothing.
    pub fn new() -> (r: Self)
        ensures
            r@ == (BuilderView { font_path: None, foreground: None, background: None }),
    {
        ConfigBuilder { font_path: None, foreground: None, background: None }
    }

    /// Sets the font path.
    pub fn set_font_path(&mut self, font_path: String)
        ensures
            final(self)@ == (BuilderView { font_path: Some(font_path@), ..old(self)@ }),
    {
        self.font_path = Some(font_path);
    }

    /// Sets the foreground colour.
    pub fn set_foreground(&mut self, foreground: Pixel)
        ensures
            final(self)@ == (BuilderView { foreground: Some(foreground), ..old(self)@ }),
    {
        self.foreground = Some(foreground);
    }

    /// Sets the background colour.
    pub fn set_background(&mut self, background: Pixel)
        ensures
            final(self)@ == (BuilderView { background: Some(background), ..old(self)@ }),
    {
        self.background = Some(background);
    }
}

/// Why a configuration text was refused.
pub enum ConfigFault {
    /// A keyword without an argument.
    MissingArgument,
    /// A keyword that is not known.
    UnknownKeyword(Seq<char>),
    /// A colour that does not parse.
    BadColor(Seq<char>),
}

/// The text of a line before its first `#`.
pub open spec fn before_comment(line: Seq<char>) -> Seq<char>
    decreases line.len(),
{
    if line.len() == 0 || line[0] == '#' {
        Seq::empty()
    } else {
        seq![line[0]] + before_comment(line.drop_first())
    }
}

/// What one configuration line does to the settings so far.
pub open spec fn apply_line(b: BuilderView, line: Seq<char>) -> Result<BuilderView, ConfigFault> {
    let ws = split_words(before_comment(line));
    if ws.len() == 0 {
        Ok(b)
    } else if ws.len() < 2 {
        Err(ConfigFault::MissingArgument)
    } else {
        let (key, arg) = (ws[0], ws[1]);
        if key == "font_name"@ {
            Ok(BuilderView { font_path: Some(join_path(DEFAULT_FONT_DIR@, arg)), ..b })
        } else if key == "font_path"@ {
            Ok(BuilderView { font_path: Some(arg), ..b })
        } else if key == "foreground"@ {
            match color_of(arg) {
                Some(v) => Ok(BuilderView { foreground: Some(be_bytes(v)), ..b }),
                None => Err(ConfigFault::BadColor(arg)),
            }
        } else if key == "background"@ {
            match color_of(arg) {
                Some(v) => Ok(BuilderView { background: Some(be_bytes(v)), ..b }),
                None => Err(ConfigFault::BadColor(arg)),
            }
        } else {
            Err(ConfigFault::UnknownKeyword(key))
        }
    }
}

/// The settings that the lines `ls` give, or the first fault among them.
pub open spec fn apply_lines(ls: Seq<Seq<char>>) -> Result<BuilderView, ConfigFault>
    decreases ls.len(),
{
    if ls.len() == 0 {
        Ok(BuilderView { font_path: None, foreground: None, background: None })
    } else {
        match apply_lines(ls.drop_last()) {
            Ok(b) => apply_line(b, ls.last()),
            Err(e) => Err(e),
        }
    }
}

/// What a configuration text gives.
pub open spec fn config_of(text: Seq<char>) -> Result<BuilderView, ConfigFault> {
    apply_lines(text_lines(text))
}

/// The message of a keyword without an argument.
pub open spec fn missing_argument_message() -> Seq<char> {
    "expected argument after keyword"@
}

/// The message of an unknown keyword.
pub open spec fn unknown_keyword_message(key: Seq<char>) -> Seq<char> {
    "unknown keyword '"@ + key + "'"@
}

/// The part of `line` before its first `#`.
fn strip_comment(line: &Vec<char>) -> (r: Vec<char>)
    ensures
        r@ == before_comment(line@),
{
    let mut i: usize = 0;
    while i < line.len() && line[i] != '#'
        invariant
            i <= line@.len(),
            forall|j: int| 0 <= j < i ==> line@[j] != '#',
        decreases line@.len() - i,
    {
        i = i + 1;
    }
    proof {
        lemma_before_comment(line@, i as int);
    }
    let mut r: Vec<char> = Vec::new();
    let mut j: usize = 0;
    while j < i
        invariant
            i <= line@.len(),
            j <= i,
            r@ == line@.take(j as int),
        decreases i - j,
    {
        r.push(line[j]);
        j = j + 1;
        assert(r@ =~= line@.take(j as int));
    }
    r
}

proof fn lemma_before_comment(line: Seq<char>, i: int)
    requires
        0 <= i <= line.len(),
        forall|j: int| 0 <= j < i ==> line[j] != '#',
        i == line.len() || line[i] == '#',
    ensures
        before_comment(line) == line.take(i),
    decreases line.len(),
{
    if line.len() == 0 || line[0] == '#' {
        assert(line.take(i) =~= Seq::<char>::empty());
    } else {
        lemma_before_comment(line.drop_first(), i - 1);
        assert(line.take(i) =~= seq![line[0]] + line.drop_first().take(i - 1));
    }
}

/// Whether the word `w` is the text `lit`.
fn is_word(w: &Vec<char>, lit: &str) -> (r: bool)
    ensures
        r == (w@ == lit@),
{
    let l = chars_of(lit);
    if w.len() != l.len() {
        return false;
    }
    let mut i: usize = 0;
    while i < w.len()
        invariant
            l@ == lit@,
            w@.len() == l@.len(),
            i <= w@.len(),
            w@.take(i as int) == l@.take(i as int),
        decreases w@.len() - i,
    {
        if w[i] != l[i] {
            assert(w@[i as int] != l@[i as int]);
            return false;
        }
        i = i + 1;
        assert(w@.take(i as int) =~= l@.take(i as int));
    }
    assert(w@ =~= w@.take(i as int));
    assert(l@ =~= l@.take(i as int));
    true
}

/// Parses a configuration text: one `keyword argument` per line, `#` starting a
/// comment, blank lines skipped. The keywords are `font_name`, `font_path`,
/// `foreground` and `background`.
pub fn parse_config(config: &str) -> (r: Result<ConfigBuilder, String>)
    ensures
        match config_of(config@) {
            Ok(b) => r matches Ok(c) && c@ == b,
            Err(ConfigFault::MissingArgument) => r matches Err(m) && m@ == missing_argument_message(),
            Err(ConfigFault::UnknownKeyword(k)) => r matches Err(m) && m@ == unknown_keyword_message(k),
            Err(ConfigFault::BadColor(a)) => r matches Err(m) && (!has_color_prefix(a) ==> m@
                == missing_prefix_message()),
        },
{
    let lines = split_lines(config);
    let ghost ls = text_lines(config@);
    let mut cfg = ConfigBuilder::new();
    let mut i: usize = 0;
    proof {
        assert(ls.take(0) =~= Seq::<Seq<char>>::empty());
    }
    while i < lines.len()
        invariant
            lines@.map_values(|l: Vec<char>| l@) == ls,
            ls == text_lines(config@),
            i <= lines@.len(),
            apply_lines(ls.take(i as int)) == Ok::<BuilderView, ConfigFault>(cfg@),
        decreases lines@.len() - i,
    {
        proof {
            assert(ls.take(i + 1).drop_last() =~= ls.take(i as int));
            assert(ls.take(i + 1).last() == lines@[i as int]@);
            lemma_apply_prefix_err(ls, i + 1);
        }
        let ghost before = cfg@;
        let content = strip_comment(&lines[i]);
        let ws = words_of(&content);
        let ghost wv = ws@.map_values(|w: Vec<char>| w@);
        proof {
            assert(apply_lines(ls.take(i + 1)) == apply_line(before, ls[i as int]));
            assert(split_words(before_comment(ls[i as int])) == wv);
        }
        if ws.len() > 0 {
            if ws.len() < 2 {
                let mut msg = String::new();
                msg.append("expected argument after keyword");
                return Err(msg);
            }
            proof {
                assert(wv[0] == ws@[0]@);
                assert(wv[1] == ws@[1]@);
            }
            let key = &ws[0];
            let arg = string_of(&ws[1]);
            if is_word(key, "font_name") {
                cfg.set_font_path(font_path_in_dir(arg.as_str()));
            } else if is_word(key, "font_path") {
                cfg.set_font_path(arg);
            } else if is_word(key, "foreground") {
                match parse_color(arg.as_str()) {
                    Ok(v) => cfg.set_foreground(to_be_bytes(v)),
                    Err(e) => {
                        proof {
                            assert(apply_lines(ls.take(i + 1)) == Err::<BuilderView, ConfigFault>(
                                ConfigFault::BadColor(arg@),
                            ));
                        }
                        return Err(e);
                    },
                }
            } else if is_word(key, "background") {
                match parse_color(arg.as_str()) {
                    Ok(v) => cfg.set_background(to_be_bytes(v)),
                    Err(e) => {
                        proof {
                            assert(apply_lines(ls.take(i + 1)) == Err::<BuilderView, ConfigFault>(
                                ConfigFault::BadColor(arg@),
                            ));
                        }
                        return Err(e);
                    },
                }
            } else {
                let mut msg = String::new();
                msg.append("unknown keyword '");
                msg.append(string_of(key).as_str());
                msg.append("'");
                return Err(msg);
            }
        }
        i = i + 1;
    }
    proof {
        assert(ls.take(i as int) =~= ls);
    }
    Ok(cfg)
}

/// Once a prefix of the lines fails, all of them fail the same way.
proof fn lemma_apply_prefix_err(ls: Seq<Seq<char>>, n: int)
    requires
        0 <= n <= ls.len(),
    ensures
        apply_lines(ls.take(n)) is Err ==> apply_lines(ls) == apply_lines(ls.take(n)),
    decreases ls.len() - n,
{
    if n < ls.len() {
        lemma_apply_prefix_err(ls, n + 1);
        assert(ls.take(n + 1).drop_last() =~= ls.take(n));
    } else {
        assert(ls.take(n) =~= ls);
    }
}

/// The settings in effect.
pub struct Config {
    pub font_path: String,
    pub foreground: Pixel,
    pub background: Pixel,
}

impl Config {
    /// The settings that `cfg` leaves after the current ones: each that it sets
    /// replaces the current one.
    pub fn apply(&mut self, cfg: ConfigBuilder)
        ensures
            final(self).font_path@ == match cfg@.font_path {
                Some(p) => p,
                None => old(self).font_path@,
            },
            final(self).foreground == match cfg@.foreground {
                Some(c) => c,
                None => old(self).foreground,
            },
            final(self).background == match cfg@.background {
                Some(c) => c,
                None => old(self).background,
            },
    {
        match cfg.font_path {
            Some(p) => self.font_path = p,
            None => {},
        }
        match cfg.foreground {
            Some(c) => self.foreground = c,
            None => {},
        }
        match cfg.background {
            Some(c) => self.background = c,
            None => {},
        }
    }
}

impl Default for Config {
    /// The default font in the default directory, white on black.
    fn default() -> (r: Self)
        ensures
            r.font_path@ == join_path(DEFAULT_FONT_DIR@, DEFAULT_FONT@),
            r.foreground == DEFAULT_FOREGROUND,
            r.background == DEFAULT_BACKGROUND,
    {
        Config {
            font_path: font_path_in_dir(DEFAULT_FONT),
            foreground: DEFAULT_FOREGROUND,
            background: DEFAULT_BACKGROUND,
        }
    }
}

} // verus!

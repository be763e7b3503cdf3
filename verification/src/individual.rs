//! Settings of single LEDs and of groups of them.
use crate::battery;
use crate::color;
use crate::text;
use vstd::prelude::*;
use vstd::utf8::*;

verus! {

/// The setting of one LED.
#[derive(Clone, Copy, Debug, PartialEq, Eq, Structural)]
pub struct IndividualLedEntry {
    pub index: usize,
    pub r: u8,
    pub g: u8,
    pub b: u8,
    pub brightness: u8,
}

/// The settings of LEDs and of the groups left, right and all. A group is set to red,
/// green, blue and a brightness.
pub struct IndividualConfig {
    pub leds: Vec<IndividualLedEntry>,
    pub group_left: Option<(u8, u8, u8, u8)>,
    pub group_right: Option<(u8, u8, u8, u8)>,
    pub group_all: Option<(u8, u8, u8, u8)>,
}

/// What a configuration sets.
#[verifier::ext_equal]
pub struct Settings {
    pub leds: Seq<IndividualLedEntry>,
    pub left: Option<(u8, u8, u8, u8)>,
    pub right: Option<(u8, u8, u8, u8)>,
    pub all: Option<(u8, u8, u8, u8)>,
}

impl View for IndividualConfig {
    type V = Settings;

    open spec fn view(&self) -> Settings {
        Settings {
            leds: self.leds@,
            left: self.group_left,
            right: self.group_right,
            all: self.group_all,
        }
    }
}

/// The settings in a configuration, where there is one.
pub open spec fn settings_of(config: Option<IndividualConfig>) -> Option<Settings> {
    match config {
        Some(c) => Some(c@),
        None => None,
    }
}

/// No settings at all.
pub open spec fn no_settings() -> Settings {
    Settings { leds: seq![], left: None, right: None, all: None }
}

/// A configuration that sets nothing.
pub fn empty_config() -> (r: IndividualConfig)
    ensures
        r@ == no_settings(),
{
    let r = IndividualConfig {
        leds: Vec::new(),
        group_left: None,
        group_right: None,
        group_all: None,
    };
    assert(r@ =~= no_settings());
    r
}

// ---------------------------------------------------------------------------
// Names
// ---------------------------------------------------------------------------

/// The LED that a name stands for.
pub open spec fn led_index(name: Seq<char>) -> Option<usize> {
    if name == "l1"@ || name == "l1_right"@ {
        Some(0)
    } else if name == "l2"@ || name == "l2_up"@ {
        Some(1)
    } else if name == "l3"@ || name == "l3_left"@ {
        Some(2)
    } else if name == "l4"@ || name == "l4_down"@ {
        Some(3)
    } else if name == "r1"@ || name == "r1_right"@ {
        Some(4)
    } else if name == "r2"@ || name == "r2_up"@ {
        Some(5)
    } else if name == "r3"@ || name == "r3_left"@ {
        Some(6)
    } else if name == "r4"@ || name == "r4_down"@ {
        Some(7)
    } else {
        None
    }
}

/// Finds the LED that a name stands for.
pub fn led_name_to_index(name: &str) -> (r: Option<usize>)
    ensures
        r == led_index(name@),
        r matches Some(i) ==> i < 8,
{
    if text::same(name, "l1") || text::same(name, "l1_right") {
        Some(0)
    } else if text::same(name, "l2") || text::same(name, "l2_up") {
        Some(1)
    } else if text::same(name, "l3") || text::same(name, "l3_left") {
        Some(2)
    } else if text::same(name, "l4") || text::same(name, "l4_down") {
        Some(3)
    } else if text::same(name, "r1") || text::same(name, "r1_right") {
        Some(4)
    } else if text::same(name, "r2") || text::same(name, "r2_up") {
        Some(5)
    } else if text::same(name, "r3") || text::same(name, "r3_left") {
        Some(6)
    } else if text::same(name, "r4") || text::same(name, "r4_down") {
        Some(7)
    } else {
        None
    }
}

// ---------------------------------------------------------------------------
// The line format
// ---------------------------------------------------------------------------

/// The name of a line, in lower case, and the value behind its equals sign. Empty lines
/// and comments have none.
pub open spec fn name_and_value(line: Seq<char>) -> Option<(Seq<char>, Seq<char>)> {
    let l = text::trimmed(line);
    if l.len() == 0 || text::begins_with_char(l, '#') {
        None
    } else {
        match text::after_first(l, '=') {
            Some(rest) => Some(
                (
                    text::lowered(text::trimmed(text::before_first(l, '='))),
                    text::trimmed(rest),
                ),
            ),
            None => None,
        }
    }
}

/// The colour in a value: what stands before its first comma.
pub open spec fn color_part(value: Seq<char>) -> Seq<char> {
    text::trimmed(text::before_first(value, ','))
}

/// The brightness in a value: what stands behind its first comma, or else 255.
pub open spec fn brightness_part(value: Seq<char>) -> u8 {
    match text::after_first(value, ',') {
        Some(rest) => text::u8_or(text::trimmed(rest), 255),
        None => 255,
    }
}

/// The colour and brightness that a value writes.
pub open spec fn setting_value(value: Seq<char>) -> Option<(u8, u8, u8, u8)> {
    match color::hex_color(color_part(value)) {
        Some((r, g, b)) => Some((r, g, b, brightness_part(value))),
        None => None,
    }
}

/// The settings once a name has been given a value. A later setting of a group takes the
/// place of an earlier one; settings of LEDs are added to those before; any other name
/// sets nothing.
pub open spec fn with_setting(s: Settings, name: Seq<char>, v: (u8, u8, u8, u8)) -> Settings {
    if name == "left"@ {
        Settings { left: Some(v), ..s }
    } else if name == "right"@ {
        Settings { right: Some(v), ..s }
    } else if name == "all"@ {
        Settings { all: Some(v), ..s }
    } else {
        match led_index(name) {
            Some(index) => Settings {
                leds: s.leds.push(
                    IndividualLedEntry { index, r: v.0, g: v.1, b: v.2, brightness: v.3 },
                ),
                ..s
            },
            None => s,
        }
    }
}

/// The settings once a line has been read.
pub open spec fn with_line(s: Settings, line: Seq<char>) -> Settings {
    match name_and_value(line) {
        Some((name, value)) => match setting_value(value) {
            Some(v) => with_setting(s, name, v),
            None => s,
        },
        None => s,
    }
}

/// The settings once all lines have been read, in order.
pub open spec fn line_settings(lines: Seq<Seq<char>>) -> Settings
    decreases lines.len(),
{
    if lines.len() == 0 {
        no_settings()
    } else {
        with_line(line_settings(lines.drop_last()), lines.last())
    }
}

/// Whether the colour of a line can be cut into its components.
pub open spec fn line_cuts(line: Seq<char>) -> bool {
    name_and_value(line) matches Some((name, value)) ==> color::hex_cuts(color_part(value))
}

/// Whether every colour of a configuration can be cut into its components. In ASCII all
/// of them can.
pub open spec fn config_cuts(content: Option<Seq<char>>) -> bool {
    match content {
        Some(c) => is_ascii_chars(c) || forall|i: int|
            0 <= i < text::line_list(c).len() ==> line_cuts(#[trigger] text::line_list(c)[i]),
        None => true,
    }
}

proof fn lemma_ascii_line_cuts(line: Seq<char>)
    requires
        is_ascii_chars(line),
    ensures
        line_cuts(line),
{
    if let Some((name, value)) = name_and_value(line) {
        let l = text::trimmed(line);
        text::lemma_trimmed_ascii(line);
        text::lemma_position_from(l, '=', 0);
        let rest = text::after_first(l, '=')->Some_0;
        assert(is_ascii_chars(rest));
        text::lemma_trimmed_ascii(rest);
        text::lemma_position_from(value, ',', 0);
        assert(is_ascii_chars(text::before_first(value, ',')));
        text::lemma_trimmed_ascii(text::before_first(value, ','));
        color::lemma_ascii_cuts_anywhere(color_part(value));
    }
}

proof fn lemma_config_cuts(content: Seq<char>, i: int)
    requires
        config_cuts(Some(content)),
        0 <= i < text::line_list(content).len(),
    ensures
        line_cuts(text::line_list(content)[i]),
{
    if is_ascii_chars(content) {
        text::lemma_lines_ascii(content, 0, i);
        lemma_ascii_line_cuts(text::line_list(content)[i]);
    }
}

/// Splits a line into its name, in lower case, and its value.
fn split_line(line: &str) -> (r: Option<(String, &str)>)
    ensures
        r matches Some((name, value)) ==> name_and_value(line@) == Some((name@, value@)),
        r is None ==> name_and_value(line@) is None,
{
    let l = text::trim(line);
    if l.is_empty() || text::starts_with_char(l, '#') {
        return None;
    }
    let (before, after) = text::split_first(l, '=');
    match after {
        Some(rest) => Some((text::to_lower(text::trim(before)), text::trim(rest))),
        None => None,
    }
}

/// Tests whether every colour of a configuration can be cut into its components.
pub fn individual_config_cuts(content: Option<&str>) -> (r: bool)
    ensures
        r == config_cuts(text::optional_view(content)),
{
    let source = match content {
        Some(c) => c,
        None => return true,
    };
    let lines = text::lines(source);
    let ghost list = text::line_list(source@);
    assert(text::views(lines@).len() == lines@.len());
    let mut i: usize = 0;
    while i < lines.len()
        invariant
            i <= lines.len(),
            lines@.len() == list.len(),
            text::views(lines@) == list,
            list == text::line_list(source@),
            content == Some(source),
            forall|k: int| 0 <= k < i ==> line_cuts(#[trigger] list[k]),
        decreases lines.len() - i,
    {
        assert(list[i as int] == lines@[i as int]@);
        let cuts = match split_line(lines[i]) {
            Some((name, value)) => color::hex_color_cuts(text::trim(text::split_first(value, ',').0)),
            None => true,
        };
        assert(cuts == line_cuts(list[i as int]));
        if !cuts {
            proof {
                if config_cuts(Some(source@)) {
                    lemma_config_cuts(source@, i as int);
                }
            }
            return false;
        }
        i += 1;
    }
    true
}

/// Takes a setting into a configuration.
fn put_setting(config: &mut IndividualConfig, name: &str, v: (u8, u8, u8, u8))
    ensures
        final(config)@ == with_setting(old(config)@, name@, v),
{
    let ghost before = config@;
    if text::same(name, "left") {
        config.group_left = Some(v);
    } else if text::same(name, "right") {
        config.group_right = Some(v);
    } else if text::same(name, "all") {
        config.group_all = Some(v);
    } else if let Some(index) = led_name_to_index(name) {
        config.leds.push(IndividualLedEntry { index, r: v.0, g: v.1, b: v.2, brightness: v.3 });
    }
    assert(config@ =~= with_setting(before, name@, v));
}

/// Takes one line into a configuration.
fn put_line(config: &mut IndividualConfig, line: &str)
    requires
        line_cuts(line@),
    ensures
        final(config)@ == with_line(old(config)@, line@),
{
    if let Some((name, value)) = split_line(line) {
        let (before, after) = text::split_first(value, ',');
        let brightness: u8 = match after {
            Some(rest) => text::parse_u8_or(text::trim(rest), 255),
            None => 255,
        };
        if let Some((r, g, b)) = color::parse_hex_color(text::trim(before)) {
            put_setting(config, name.as_str(), (r, g, b, brightness));
        }
    }
}

/// Reads settings from the contents of a file with one setting in each line, or from
/// `None` where the file cannot be read.
pub fn load_individual_config(content: Option<&str>) -> (r: Option<IndividualConfig>)
    requires
        config_cuts(text::optional_view(content)),
    ensures
        settings_of(r) == (match content {
            Some(c) => Some(line_settings(text::line_list(c@))),
            None => None,
        }),
{
    let source = match content {
        Some(c) => c,
        None => return None,
    };
    let lines = text::lines(source);
    let ghost list = text::line_list(source@);
    assert(text::views(lines@).len() == lines@.len());
    let mut config = empty_config();
    let mut i: usize = 0;
    assert(list.take(0) =~= seq![]);
    while i < lines.len()
        invariant
            i <= lines.len(),
            lines@.len() == list.len(),
            text::views(lines@) == list,
            list == text::line_list(source@),
            content == Some(source),
            config_cuts(text::optional_view(content)),
            config@ == line_settings(list.take(i as int)),
        decreases lines.len() - i,
    {
        assert(list[i as int] == lines@[i as int]@);
        assert(list.take(i + 1).drop_last() =~= list.take(i as int));
        assert(list.take(i + 1).last() == list[i as int]);
        proof {
            lemma_config_cuts(source@, i as int);
        }
        put_line(&mut config, lines[i]);
        i += 1;
    }
    assert(list.take(i as int) =~= list);
    Some(config)
}

// ---------------------------------------------------------------------------
// Laws
// ---------------------------------------------------------------------------

/// A line with a name, an equals sign, the six digits of a colour, a comma and a brightness
/// gives the name, in lower case, that colour and that brightness.
pub proof fn law_setting_is_read(s: Settings, name: Seq<char>, r: u8, g: u8, b: u8, brightness: u8)
    requires
        name.len() > 0 && !text::is_white(name[0]) && !text::is_white(name.last()),
        name[0] != '#',
        text::lacks(name, '='),
    ensures
        ({
            let line = name + "="@ + color::hex_text(r, g, b) + ","@ + text::decimal_text(
                brightness as nat,
            );
            &&& line_cuts(line)
            &&& with_line(s, line) == with_setting(s, text::lowered(name), (r, g, b, brightness))
        }),
{
    reveal_strlit("=");
    reveal_strlit(",");
    let h = color::hex_text(r, g, b);
    let d = text::decimal_text(brightness as nat);
    let value = h + ","@ + d;
    let line = name + "="@ + h + ","@ + d;
    assert("="@ =~= seq!['=']);
    assert(","@ =~= seq![',']);
    text::lemma_decimal_text(brightness as nat);
    text::law_decimal_round_trip(brightness as nat, 255);
    color::law_hex_text_round_trip(r, g, b, 0, seq![]);
    assert(Seq::new(0, |i: int| '#') + h + seq![] =~= h);
    assert(text::is_digit(d.last()));
    assert(line =~= name + seq!['='] + value);
    assert(line[0] == name[0]);
    assert(line.last() == d.last());
    text::lemma_trimmed_suffix(line, seq![]);
    assert(line + seq![] =~= line);
    text::lemma_position_behind(name, '=', value);
    text::lemma_trimmed_suffix(name, seq![]);
    assert(name + seq![] =~= name);
    assert(value[0] == h[0]);
    assert(value.last() == d.last());
    text::lemma_trimmed_suffix(value, seq![]);
    assert(value + seq![] =~= value);
    text::lemma_position_behind(h, ',', d);
    text::lemma_trimmed_suffix(h, seq![]);
    assert(h + seq![] =~= h);
    assert(text::is_digit(d[0]));
    text::lemma_trimmed_suffix(d, seq![]);
    assert(d + seq![] =~= d);
}

/// The short name of an LED: its side and its number on that side.
pub open spec fn short_name(i: int) -> Seq<char> {
    if i == 0 {
        "l1"@
    } else if i == 1 {
        "l2"@
    } else if i == 2 {
        "l3"@
    } else if i == 3 {
        "l4"@
    } else if i == 4 {
        "r1"@
    } else if i == 5 {
        "r2"@
    } else if i == 6 {
        "r3"@
    } else {
        "r4"@
    }
}

/// The long name of an LED: its short name and its direction.
pub open spec fn long_name(i: int) -> Seq<char> {
    if i == 0 {
        "l1_right"@
    } else if i == 1 {
        "l2_up"@
    } else if i == 2 {
        "l3_left"@
    } else if i == 3 {
        "l4_down"@
    } else if i == 4 {
        "r1_right"@
    } else if i == 5 {
        "r2_up"@
    } else if i == 6 {
        "r3_left"@
    } else {
        "r4_down"@
    }
}

/// Whether a name is the short or the long name of the LED with index `i`.
pub open spec fn names_led(name: Seq<char>, i: int) -> bool {
    0 <= i < 8 && (name == short_name(i) || name == long_name(i))
}

/// Whether a name consists of small letters, digits and underscores.
pub open spec fn is_plain(s: Seq<char>) -> bool {
    &&& s.len() > 0
    &&& forall|i: int|
        0 <= i < s.len() ==> 'a' <= #[trigger] s[i] <= 'z' || '0' <= s[i] <= '9' || s[i] == '_'
}

/// No two names have their length and their first two letters in common.
proof fn lemma_names()
    ensures
        "l1"@.len() == 2 && "l1"@[0] == 'l' && "l1"@[1] == '1' && is_plain("l1"@),
        "l2"@.len() == 2 && "l2"@[0] == 'l' && "l2"@[1] == '2' && is_plain("l2"@),
        "l3"@.len() == 2 && "l3"@[0] == 'l' && "l3"@[1] == '3' && is_plain("l3"@),
        "l4"@.len() == 2 && "l4"@[0] == 'l' && "l4"@[1] == '4' && is_plain("l4"@),
        "r1"@.len() == 2 && "r1"@[0] == 'r' && "r1"@[1] == '1' && is_plain("r1"@),
        "r2"@.len() == 2 && "r2"@[0] == 'r' && "r2"@[1] == '2' && is_plain("r2"@),
        "r3"@.len() == 2 && "r3"@[0] == 'r' && "r3"@[1] == '3' && is_plain("r3"@),
        "r4"@.len() == 2 && "r4"@[0] == 'r' && "r4"@[1] == '4' && is_plain("r4"@),
        "l1_right"@.len() == 8 && "l1_right"@[0] == 'l' && "l1_right"@[1] == '1' && is_plain("l1_right"@),
        "l2_up"@.len() == 5 && "l2_up"@[0] == 'l' && "l2_up"@[1] == '2' && is_plain("l2_up"@),
        "l3_left"@.len() == 7 && "l3_left"@[0] == 'l' && "l3_left"@[1] == '3' && is_plain("l3_left"@),
        "l4_down"@.len() == 7 && "l4_down"@[0] == 'l' && "l4_down"@[1] == '4' && is_plain("l4_down"@),
        "r1_right"@.len() == 8 && "r1_right"@[0] == 'r' && "r1_right"@[1] == '1' && is_plain("r1_right"@),
        "r2_up"@.len() == 5 && "r2_up"@[0] == 'r' && "r2_up"@[1] == '2' && is_plain("r2_up"@),
        "r3_left"@.len() == 7 && "r3_left"@[0] == 'r' && "r3_left"@[1] == '3' && is_plain("r3_left"@),
        "r4_down"@.len() == 7 && "r4_down"@[0] == 'r' && "r4_down"@[1] == '4' && is_plain("r4_down"@),
        "left"@.len() == 4 && "left"@[0] == 'l' && "left"@[1] == 'e' && is_plain("left"@),
        "right"@.len() == 5 && "right"@[0] == 'r' && "right"@[1] == 'i' && is_plain("right"@),
        "all"@.len() == 3 && "all"@[0] == 'a' && "all"@[1] == 'l' && is_plain("all"@),
{
    reveal_strlit("l1");
    reveal_strlit("l2");
    reveal_strlit("l3");
    reveal_strlit("l4");
    reveal_strlit("r1");
    reveal_strlit("r2");
    reveal_strlit("r3");
    reveal_strlit("r4");
    reveal_strlit("l1_right");
    reveal_strlit("l2_up");
    reveal_strlit("l3_left");
    reveal_strlit("l4_down");
    reveal_strlit("r1_right");
    reveal_strlit("r2_up");
    reveal_strlit("r3_left");
    reveal_strlit("r4_down");
    reveal_strlit("left");
    reveal_strlit("right");
    reveal_strlit("all");
}

/// A name in either case can stand before an equals sign, and is put into lower case.
proof fn lemma_name_in_either_case(name: Seq<char>, low: Seq<char>)
    requires
        text::in_either_case(name, low),
        is_plain(low),
    ensures
        name.len() > 0 && !text::is_white(name[0]) && !text::is_white(name.last()),
        name[0] != '#',
        text::lacks(name, '='),
        text::lowered(name) == low,
{
    assert forall|i: int| 0 <= i < name.len() implies !text::is_white(#[trigger] name[i])
        && name[i] != '=' && name[i] != '#' by {
        lemma_letter(name[i], low[i]);
    }
    text::law_either_case_is_lowered(name, low);
}

proof fn lemma_letter(c: char, l: char)
    requires
        c == l || ('a' <= l <= 'z' && c as u32 + 32 == l as u32),
        'a' <= l <= 'z' || '0' <= l <= '9' || l == '_',
    ensures
        !text::is_white(c),
        c != '=',
        c != '#',
{
}

/// A line is split at its equals sign, whatever white space stands around its parts.
proof fn lemma_name_and_value(
    before: Seq<char>,
    name: Seq<char>,
    v: Seq<char>,
    w: Seq<char>,
    value: Seq<char>,
    after: Seq<char>,
)
    requires
        text::all_white(before) && text::all_white(v) && text::all_white(w) && text::all_white(
            after,
        ),
        name.len() > 0 && !text::is_white(name[0]) && !text::is_white(name.last()),
        name[0] != '#',
        text::lacks(name, '='),
        value.len() > 0 && !text::is_white(value[0]) && !text::is_white(value.last()),
    ensures
        name_and_value(before + name + v + seq!['='] + w + value + after) == Some(
            (text::lowered(name), value),
        ),
{
    let line = before + name + v + seq!['='] + w + value + after;
    let l = name + v + seq!['='] + (w + value);
    assert(line =~= before + (l + after));
    assert(l[0] == name[0]);
    assert(l.last() == value.last());
    text::lemma_trimmed_both(before, l, after);
    assert(text::lacks(name + v, '=')) by {
        assert forall|i: int| 0 <= i < (name + v).len() implies #[trigger] (name + v)[i] != '=' by {
            if i < name.len() {
                assert((name + v)[i] == name[i]);
            } else {
                assert((name + v)[i] == v[i - name.len()]);
            }
        }
    }
    text::lemma_position_behind(name + v, '=', w + value);
    text::lemma_trimmed_suffix(name, v);
    text::lemma_trimmed_both(w, value, seq![]);
    assert(value + seq![] =~= value);
}

/// What a value writes: a colour with number signs in front, and behind a comma a brightness.
proof fn lemma_setting_value(
    k: nat,
    hex: Seq<char>,
    x: Seq<char>,
    y: Seq<char>,
    d: Seq<char>,
    r: u8,
    g: u8,
    b: u8,
)
    requires
        color::writes_hex(hex, r, g, b),
        text::all_white(x),
        text::all_white(y),
        d.len() > 0 && !text::is_white(d[0]) && !text::is_white(d.last()),
    ensures
        ({
            let c = Seq::new(k, |i: int| '#') + hex;
            &&& !text::is_white(c[0]) && c.last() == hex.last() && !text::is_white(hex.last())
            &&& setting_value(c) == Some((r, g, b, 255u8))
            &&& color::hex_cuts(color_part(c))
            &&& setting_value(c + x + seq![','] + y + d) == Some((r, g, b, text::u8_or(d, 255)))
            &&& color::hex_cuts(color_part(c + x + seq![','] + y + d))
        }),
{
    let signs = Seq::new(k, |i: int| '#');
    let c = signs + hex;
    color::lemma_hex_is_plain(hex, r, g, b);
    color::law_hex_color_is_read(hex, r, g, b, seq![], k, seq![]);
    assert(seq![] + signs + hex + seq![] =~= c);
    if k == 0 {
        assert(c[0] == hex[0]);
    }
    assert(c.last() == hex.last());
    text::lemma_trimmed_suffix(c, seq![]);
    assert(c + seq![] =~= c);
    assert(text::lacks(c, ',')) by {
        assert forall|i: int| 0 <= i < c.len() implies #[trigger] c[i] != ',' by {
            if i >= k {
                assert(c[i] == hex[i - k]);
            }
        }
    }
    text::lemma_no_position(c, ',');
    let value = c + x + seq![','] + y + d;
    assert(value =~= (c + x) + seq![','] + (y + d));
    assert(text::lacks(c + x, ',')) by {
        assert forall|i: int| 0 <= i < (c + x).len() implies #[trigger] (c + x)[i] != ',' by {
            if i < c.len() {
                assert((c + x)[i] == c[i]);
            } else {
                assert((c + x)[i] == x[i - c.len()]);
            }
        }
    }
    text::lemma_position_behind(c + x, ',', y + d);
    text::lemma_trimmed_suffix(c, x);
    text::lemma_trimmed_both(y, d, seq![]);
    assert(d + seq![] =~= d);
}

/// The settings before a line and those after it, where the line gives a value to a name.
pub open spec fn sets(s: Settings, after: Settings, low: Seq<char>, v: (u8, u8, u8, u8)) -> bool {
    &&& low == "left"@ ==> after.left == Some(v) && after.right == s.right && after.all == s.all
        && after.leds == s.leds
    &&& low == "right"@ ==> after.right == Some(v) && after.left == s.left && after.all == s.all
        && after.leds == s.leds
    &&& low == "all"@ ==> after.all == Some(v) && after.left == s.left && after.right == s.right
        && after.leds == s.leds
    &&& forall|i: int| #[trigger]
        names_led(low, i) ==> after.leds == s.leds.push(
            IndividualLedEntry { index: i as usize, r: v.0, g: v.1, b: v.2, brightness: v.3 },
        ) && after.left == s.left && after.right == s.right && after.all == s.all
    &&& low != "left"@ && low != "right"@ && low != "all"@ && (forall|i: int|
        !#[trigger] names_led(low, i)) ==> after == s
}

/// A name that is given a colour and a brightness is set to exactly these: the group, if it
/// is the name of one, or one more LED, if it is the short or the long name of one. All else
/// is left as it is, and any other name sets nothing.
pub proof fn law_name_is_set(s: Settings, low: Seq<char>, v: (u8, u8, u8, u8))
    ensures
        sets(s, with_setting(s, low, v), low, v),
{
    lemma_names();
    let after = with_setting(s, low, v);
    assert forall|i: int| #[trigger] names_led(low, i) implies after.leds == s.leds.push(
        IndividualLedEntry { index: i as usize, r: v.0, g: v.1, b: v.2, brightness: v.3 },
    ) && after.left == s.left && after.right == s.right && after.all == s.all by {
        assert(led_index(low) == Some(i as usize));
    }
    if forall|i: int| !#[trigger] names_led(low, i) {
        assert(!names_led(low, 0));
        assert(!names_led(low, 1));
        assert(!names_led(low, 2));
        assert(!names_led(low, 3));
        assert(!names_led(low, 4));
        assert(!names_led(low, 5));
        assert(!names_led(low, 6));
        assert(!names_led(low, 7));
        assert(led_index(low) is None);
    }
}

/// A line with a name in either case, an equals sign and a colour sets the name to the colour
/// at full brightness; with a comma and a number behind the colour, it sets the name to the
/// colour at that brightness. White space may stand around each part and number signs in front
/// of the colour. What is no number of eight bits counts as full brightness.
pub proof fn law_line_is_a_setting(
    s: Settings,
    low: Seq<char>,
    before: Seq<char>,
    name: Seq<char>,
    v: Seq<char>,
    w: Seq<char>,
    k: nat,
    hex: Seq<char>,
    x: Seq<char>,
    y: Seq<char>,
    n: u8,
    other: Seq<char>,
    after: Seq<char>,
    r: u8,
    g: u8,
    b: u8,
)
    requires
        text::in_either_case(name, low),
        is_plain(low),
        text::all_white(before) && text::all_white(v) && text::all_white(w) && text::all_white(x)
            && text::all_white(y) && text::all_white(after),
        color::writes_hex(hex, r, g, b),
        other.len() > 0 && !text::is_white(other[0]) && !text::is_white(other.last()),
        text::number(other, 255) is None,
    ensures
        ({
            let c = Seq::new(k, |i: int| '#') + hex;
            let start = before + name + v + seq!['='] + w;
            let full = start + c + after;
            let dimmed = start + (c + x + seq![','] + y + text::decimal_text(n as nat)) + after;
            let unread = start + (c + x + seq![','] + y + other) + after;
            &&& line_cuts(full) && line_cuts(dimmed) && line_cuts(unread)
            &&& sets(s, with_line(s, full), low, (r, g, b, 255))
            &&& sets(s, with_line(s, dimmed), low, (r, g, b, n))
            &&& sets(s, with_line(s, unread), low, (r, g, b, 255))
        }),
{
    let c = Seq::new(k, |i: int| '#') + hex;
    let d = text::decimal_text(n as nat);
    lemma_name_in_either_case(name, low);
    text::lemma_decimal_text(n as nat);
    assert(text::is_digit(d[0]) && text::is_digit(d.last()));
    text::law_number_or_default(n, other, 255);
    lemma_setting_value(k, hex, x, y, d, r, g, b);
    lemma_setting_value(k, hex, x, y, other, r, g, b);
    let dimmed = c + x + seq![','] + y + d;
    let unread = c + x + seq![','] + y + other;
    assert(dimmed[0] == c[0] && dimmed.last() == d.last());
    assert(unread[0] == c[0] && unread.last() == other.last());
    lemma_name_and_value(before, name, v, w, c, after);
    lemma_name_and_value(before, name, v, w, dimmed, after);
    lemma_name_and_value(before, name, v, w, unread, after);
    law_name_is_set(s, low, (r, g, b, 255));
    law_name_is_set(s, low, (r, g, b, n));
}

/// Empty lines, comments, lines without an equals sign and lines without a colour set
/// nothing.
pub proof fn law_other_lines_set_nothing(
    s: Settings,
    before: Seq<char>,
    comment: Seq<char>,
    line: Seq<char>,
    name: Seq<char>,
    value: Seq<char>,
)
    requires
        text::all_white(before),
        text::lacks(line, '='),
        name.len() > 0 && !text::is_white(name[0]) && !text::is_white(name.last()),
        name[0] != '#',
        text::lacks(name, '='),
        value.len() > 0 && !text::is_white(value[0]) && !text::is_white(value.last()),
        color::hex_color(text::trimmed(text::before_first(value, ','))) is None,
    ensures
        with_line(s, before) == s,
        with_line(s, before + seq!['#'] + comment) == s,
        with_line(s, line) == s,
        with_line(s, name + seq!['='] + value) == s,
{
    battery::lemma_comment(before, comment);
    battery::lemma_white_line(before);
    battery::lemma_trimmed_lacks(line, '=');
    text::lemma_no_position(text::trimmed(line), '=');
    lemma_name_and_value(seq![], name, seq![], seq![], value, seq![]);
    assert(seq![] + name + seq![] + seq!['='] + seq![] + value + seq![] =~= name + seq!['=']
        + value);
}

/// A file without lines sets nothing. A file with one more line at its end sets what it sets
/// without it, and then what that line sets.
pub proof fn law_last_line_is_read_last(
    whole: Seq<char>,
    line: Seq<char>,
    none: IndividualConfig,
    without: IndividualConfig,
    with: IndividualConfig,
)
    requires
        text::whole_lines(whole),
        text::lacks(line, '\n'),
        line.len() == 0 || line.last() != '\r',
        none@ == line_settings(text::line_list(seq![])),
        without@ == line_settings(text::line_list(whole)),
        with@ == line_settings(text::line_list(whole + line + seq!['\n'])),
    ensures
        none.leds@.len() == 0,
        none.group_left is None && none.group_right is None && none.group_all is None,
        with@ == with_line(without@, line),
        with_line(without@, line).left == with.group_left,
        with_line(without@, line).right == with.group_right,
        with_line(without@, line).all == with.group_all,
        with_line(without@, line).leds == with.leds@,
{
    text::law_only_line(seq![]);
    text::law_line_between(whole, line, seq![]);
    assert(whole + line + seq!['\n'] + seq![] =~= whole + line + seq!['\n']);
    let a = text::line_list(whole);
    assert(a + seq![line] + text::line_list(seq![]) =~= a.push(line));
    assert(a.push(line).drop_last() =~= a);
}

/// A line such as `left=FF0000,50` at the end of a file sets the left group of the loaded
/// configuration to that colour and brightness, and changes nothing else; the same holds of
/// the other groups, and the name of an LED adds a setting of that LED.
pub proof fn law_setting_is_loaded(
    whole: Seq<char>,
    low: Seq<char>,
    name: Seq<char>,
    hex: Seq<char>,
    r: u8,
    g: u8,
    b: u8,
    n: u8,
    i: int,
    without: IndividualConfig,
    with: IndividualConfig,
)
    requires
        text::whole_lines(whole),
        text::in_either_case(name, low),
        is_plain(low),
        color::writes_hex(hex, r, g, b),
        without@ == line_settings(text::line_list(whole)),
        with@ == line_settings(
            text::line_list(
                whole + name + "="@ + hex + ","@ + text::decimal_text(n as nat) + "\n"@,
            ),
        ),
    ensures
        low == "left"@ ==> with.group_left == Some((r, g, b, n)) && with.group_right
            == without.group_right && with.group_all == without.group_all && with.leds@
            == without.leds@,
        low == "right"@ ==> with.group_right == Some((r, g, b, n)) && with.group_left
            == without.group_left && with.group_all == without.group_all && with.leds@
            == without.leds@,
        low == "all"@ ==> with.group_all == Some((r, g, b, n)) && with.group_left
            == without.group_left && with.group_right == without.group_right && with.leds@
            == without.leds@,
        names_led(low, i) ==> with.leds@ == without.leds@.push(
            IndividualLedEntry { index: i as usize, r, g, b, brightness: n },
        ) && with.group_left == without.group_left && with.group_right == without.group_right
            && with.group_all == without.group_all,
{
    reveal_strlit("=");
    reveal_strlit(",");
    reveal_strlit("\n");
    let d = text::decimal_text(n as nat);
    let line = name + "="@ + hex + ","@ + d;
    assert("="@ =~= seq!['=']);
    assert(","@ =~= seq![',']);
    assert("\n"@ =~= seq!['\n']);
    assert(whole + name + "="@ + hex + ","@ + d + "\n"@ =~= whole + line + seq!['\n']);
    let c = Seq::new(0, |i: int| '#') + hex;
    let e = Seq::<char>::empty();
    assert(e + name + e + seq!['='] + e + (c + e + seq![','] + e + d) + e =~= line);
    law_line_is_a_setting(without@, low, e, name, e, e, 0, hex, e, e, n, seq!['x'], e, r, g, b);
    text::lemma_decimal_text(n as nat);
    color::lemma_hex_is_plain(hex, r, g, b);
    assert(text::is_digit(d.last()));
    assert(line.last() == d.last());
    assert(text::lacks(line, '\n')) by {
        assert forall|i: int| 0 <= i < line.len() implies #[trigger] line[i] != '\n' by {
            if i < name.len() {
                assert(line[i] == name[i]);
                lemma_letter(name[i], low[i]);
            } else if i == name.len() {
                assert(line[i] == '=');
            } else if i < name.len() + 7 {
                assert(line[i] == hex[i - name.len() - 1]);
            } else if i == name.len() + 7 {
                assert(line[i] == ',');
            } else {
                assert(line[i] == d[i - name.len() - 8]);
                assert(text::is_digit(d[i - name.len() - 8]));
            }
        }
    }
    text::law_only_line(seq![]);
    text::law_line_between(whole, line, seq![]);
    assert(whole + line + seq!['\n'] + seq![] =~= whole + line + seq!['\n']);
    let a = text::line_list(whole);
    assert(a + seq![line] + text::line_list(seq![]) =~= a.push(line));
    assert(a.push(line).drop_last() =~= a);
}

} // verus!

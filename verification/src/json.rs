//! Settings of LEDs in a JSON file.
//!
//! The file is searched, not parsed: a field is found at the first place where its name
//! stands in quotes with a colon behind it. It is expected to look like this:
//!
//! ```text
//! {
//!   "Left Joystick":  {"L1_Right": {"enabled": true, "color": "#FF0000", "brightness": 50}},
//!   "Right Joystick": {"R1_Right": {"enabled": true, "color": "#FF0000", "brightness": 50}},
//!   "Controls": {"LEFT": {"color": "#FF0000", "brightness": 50}}
//! }
//! ```
use crate::color;
use crate::individual;
use crate::individual::{IndividualConfig, IndividualLedEntry};
use crate::text;
use vstd::prelude::*;
use vstd::utf8::*;

verus! {

// ---------------------------------------------------------------------------
// Fields
// ---------------------------------------------------------------------------

/// A name in quotes.
pub open spec fn quoted(key: Seq<char>) -> Seq<char> {
    "\""@ + key + "\""@
}

/// What follows a name in quotes that stands at position `k`, without leading white space.
pub open spec fn behind_name(obj: Seq<char>, key: Seq<char>, k: int) -> Seq<char> {
    text::trimmed_start(obj.skip(k + quoted(key).len()))
}

/// What follows the first place at or after `i` where `key` stands in quotes with a colon
/// behind it: the value and the rest, without leading white space. White space may stand
/// between the name and the colon. A name in quotes without a colon is no key.
pub open spec fn value_from(obj: Seq<char>, key: Seq<char>, i: int) -> Option<Seq<char>>
    decreases obj.len() + 1 - i,
    via value_from_decreases
{
    match text::occurrence_from(obj, quoted(key), i) {
        Some(k) => {
            let rest = behind_name(obj, key, k);
            if text::begins_with_char(rest, ':') {
                Some(text::trimmed_start(rest.skip(1)))
            } else {
                value_from(obj, key, k + 1)
            }
        },
        None => None,
    }
}

#[via_fn]
proof fn value_from_decreases(obj: Seq<char>, key: Seq<char>, i: int) {
    if 0 <= i {
        text::lemma_occurrence_from(obj, quoted(key), i);
    }
}

/// The value of `key` and what follows it, without leading white space.
pub open spec fn value_text(obj: Seq<char>, key: Seq<char>) -> Option<Seq<char>> {
    value_from(obj, key, 0)
}

/// The string that `key` has as its value: what stands between a quote and the next one.
pub open spec fn string_field(obj: Seq<char>, key: Seq<char>) -> Option<Seq<char>> {
    match value_text(obj, key) {
        Some(v) => if text::begins_with_char(v, '"') && text::position(v.skip(1), '"') is Some {
            Some(text::before_first(v.skip(1), '"'))
        } else {
            None
        },
        None => None,
    }
}

/// The end of the row of digits that begins at `i`.
pub open spec fn skip_digits(s: Seq<char>, i: int) -> int
    decreases s.len() - i,
{
    if 0 <= i < s.len() && text::is_digit(s[i]) {
        skip_digits(s, i + 1)
    } else {
        i
    }
}

/// The number of eight bits that `key` has as its value.
pub open spec fn number_field(obj: Seq<char>, key: Seq<char>) -> Option<u8> {
    match value_text(obj, key) {
        Some(v) => match text::number(v.take(skip_digits(v, 0)), 255) {
            Some(n) => Some(n as u8),
            None => None,
        },
        None => None,
    }
}

/// The truth value that `key` has as its value.
pub open spec fn bool_field(obj: Seq<char>, key: Seq<char>) -> Option<bool> {
    match value_text(obj, key) {
        Some(v) => if text::begins_with(v, "true"@) {
            Some(true)
        } else if text::begins_with(v, "false"@) {
            Some(false)
        } else {
            None
        },
        None => None,
    }
}

/// The position, from `i` on, of the brace that closes the outermost of `depth` open
/// braces.
pub open spec fn closing_from(s: Seq<char>, i: int, depth: int) -> Option<int>
    decreases s.len() - i,
{
    if i < 0 || i >= s.len() {
        None
    } else if s[i] == '{' {
        closing_from(s, i + 1, depth + 1)
    } else if s[i] == '}' {
        if depth == 1 {
            Some(i)
        } else {
            closing_from(s, i + 1, depth - 1)
        }
    } else {
        closing_from(s, i + 1, depth)
    }
}

/// The object that `key` has as its value: what stands between an opening brace and the
/// brace that closes it.
pub open spec fn object_field(obj: Seq<char>, key: Seq<char>) -> Option<Seq<char>> {
    match value_text(obj, key) {
        Some(v) => if text::begins_with_char(v, '{') {
            match closing_from(v, 0, 0) {
                Some(q) => Some(v.subrange(1, q)),
                None => None,
            }
        } else {
            None
        },
        None => None,
    }
}

/// Finds the text of a value.
fn find_value<'a>(obj: &'a str, key: &str) -> (r: Option<&'a str>)
    ensures
        text::optional_view(r) == value_text(obj@, key@),
{
    let mut pattern = text::concat("\"", key);
    pattern.append("\"");
    let name = pattern.as_str();
    let m: usize = name.unicode_len();
    let n: usize = obj.unicode_len();
    let mut from: usize = 0;
    proof {
        reveal_strlit("\"");
    }
    loop
        invariant
            name@ == quoted(key@),
            m == name@.len(),
            m > 0,
            n == obj@.len(),
            from <= n,
            value_from(obj@, key@, from as int) == value_text(obj@, key@),
        decreases n - from,
    {
        match text::find_text_from(obj, name, from) {
            Some(k) => {
                proof {
                    text::lemma_occurrence_from(obj@, quoted(key@), from as int);
                }
                let rest = text::trim_start(text::tail(obj, k + m));
                if text::starts_with_char(rest, ':') {
                    return Some(text::trim_start(text::tail(rest, 1)));
                }
                from = k + 1;
            },
            None => return None,
        }
    }
}

/// Finds the string that `key` has as its value.
pub fn json_extract_string<'a>(obj: &'a str, key: &str) -> (r: Option<&'a str>)
    ensures
        text::optional_view(r) == string_field(obj@, key@),
{
    let v = match find_value(obj, key) {
        Some(v) => v,
        None => return None,
    };
    if !text::starts_with_char(v, '"') {
        return None;
    }
    let rest = text::tail(v, 1);
    match text::find_char(rest, '"') {
        Some(p) => Some(rest.substring_char(0, p)),
        None => None,
    }
}

/// Finds the number that `key` has as its value.
pub fn json_extract_number(obj: &str, key: &str) -> (r: Option<u8>)
    ensures
        r == number_field(obj@, key@),
{
    let v = match find_value(obj, key) {
        Some(v) => v,
        None => return None,
    };
    let chars = text::chars_of(v);
    let mut i: usize = 0;
    while i < chars.len() && '0' <= chars[i] && chars[i] <= '9'
        invariant
            i <= chars.len(),
            chars@ == v@,
            skip_digits(v@, i as int) == skip_digits(v@, 0),
        decreases chars.len() - i,
    {
        i += 1;
    }
    text::parse_u8(v.substring_char(0, i))
}

/// Finds the truth value that `key` has as its value.
pub fn json_extract_bool(obj: &str, key: &str) -> (r: Option<bool>)
    ensures
        r == bool_field(obj@, key@),
{
    let v = match find_value(obj, key) {
        Some(v) => v,
        None => return None,
    };
    if text::starts_with(v, "true") {
        Some(true)
    } else if text::starts_with(v, "false") {
        Some(false)
    } else {
        None
    }
}

/// Finds the object that `key` has as its value, without its braces.
pub fn json_extract_object<'a>(json: &'a str, key: &str) -> (r: Option<&'a str>)
    ensures
        text::optional_view(r) == object_field(json@, key@),
{
    let v = match find_value(json, key) {
        Some(v) => v,
        None => return None,
    };
    if !text::starts_with_char(v, '{') {
        return None;
    }
    let chars = text::chars_of(v);
    let ghost s = v@;
    let mut depth: usize = 0;
    let mut i: usize = 0;
    while i < chars.len()
        invariant
            i <= chars.len(),
            chars@ == s,
            s == v@,
            s.len() > 0 && s[0] == '{',
            depth <= i,
            i > 0 ==> depth > 0,
            closing_from(s, i as int, depth as int) == closing_from(s, 0, 0),
            value_text(json@, key@) == Some(s),
        decreases chars.len() - i,
    {
        let c = chars[i];
        if c == '{' {
            depth += 1;
        } else if c == '}' {
            if depth == 1 {
                return Some(v.substring_char(1, i));
            }
            depth -= 1;
        }
        i += 1;
    }
    None
}

// ---------------------------------------------------------------------------
// Names
// ---------------------------------------------------------------------------

/// The name of an LED in the file.
pub open spec fn json_led_name(i: int) -> Seq<char> {
    if i == 0 {
        "L1_Right"@
    } else if i == 1 {
        "L2_Up"@
    } else if i == 2 {
        "L3_Left"@
    } else if i == 3 {
        "L4_Down"@
    } else if i == 4 {
        "R1_Right"@
    } else if i == 5 {
        "R2_Up"@
    } else if i == 6 {
        "R3_Left"@
    } else {
        "R4_Down"@
    }
}

/// Finds the LED that a name in the file stands for.
pub fn json_led_name_to_index(name: &str) -> (r: Option<usize>)
    ensures
        r matches Some(i) ==> i < 8 && name@ == json_led_name(i as int),
        r is None ==> forall|i: int| 0 <= i < 8 ==> name@ != #[trigger] json_led_name(i),
{
    if text::same(name, "L1_Right") {
        Some(0)
    } else if text::same(name, "L2_Up") {
        Some(1)
    } else if text::same(name, "L3_Left") {
        Some(2)
    } else if text::same(name, "L4_Down") {
        Some(3)
    } else if text::same(name, "R1_Right") {
        Some(4)
    } else if text::same(name, "R2_Up") {
        Some(5)
    } else if text::same(name, "R3_Left") {
        Some(6)
    } else if text::same(name, "R4_Down") {
        Some(7)
    } else {
        None
    }
}

/// No two LEDs have one name.
pub proof fn law_json_led_names_differ(i: int, j: int)
    requires
        0 <= i < 8,
        0 <= j < 8,
        json_led_name(i) == json_led_name(j),
    ensures
        i == j,
{
    lemma_json_led_name(i);
    lemma_json_led_name(j);
}

/// How the name of an LED begins: with its side and its number on that side.
proof fn lemma_json_led_name(i: int)
    requires
        0 <= i < 8,
    ensures
        json_led_name(i)[0] == (if i < 4 {
            'L'
        } else {
            'R'
        }),
        json_led_name(i)[1] == (if i % 4 == 0 {
            '1'
        } else if i % 4 == 1 {
            '2'
        } else if i % 4 == 2 {
            '3'
        } else {
            '4'
        }),
{
    reveal_strlit("L1_Right");
    reveal_strlit("L2_Up");
    reveal_strlit("L3_Left");
    reveal_strlit("L4_Down");
    reveal_strlit("R1_Right");
    reveal_strlit("R2_Up");
    reveal_strlit("R3_Left");
    reveal_strlit("R4_Down");
}

fn json_led_name_at(i: usize) -> (r: &'static str)
    requires
        i < 8,
    ensures
        r@ == json_led_name(i as int),
{
    match i {
        0 => "L1_Right",
        1 => "L2_Up",
        2 => "L3_Left",
        3 => "L4_Down",
        4 => "R1_Right",
        5 => "R2_Up",
        6 => "R3_Left",
        _ => "R4_Down",
    }
}

// ---------------------------------------------------------------------------
// Settings
// ---------------------------------------------------------------------------

/// The colour of an object; black, where it has none.
pub open spec fn color_of(obj: Seq<char>) -> (u8, u8, u8) {
    match string_field(obj, "color"@) {
        Some(s) => match color::hex_color(color::hex_digits(s)) {
            Some(c) => c,
            None => (0, 0, 0),
        },
        None => (0, 0, 0),
    }
}

/// The brightness of an object; zero, where it has none.
pub open spec fn brightness_of(obj: Seq<char>) -> u8 {
    match number_field(obj, "brightness"@) {
        Some(n) => n,
        None => 0,
    }
}

/// Whether an object is enabled; it is, where it does not say so.
pub open spec fn enabled(obj: Seq<char>) -> bool {
    match bool_field(obj, "enabled"@) {
        Some(b) => b,
        None => true,
    }
}

/// The setting of one LED. One that is not enabled has brightness zero.
pub open spec fn led_entry(i: int, obj: Seq<char>) -> IndividualLedEntry {
    let (r, g, b) = color_of(obj);
    IndividualLedEntry {
        index: i as usize,
        r,
        g,
        b,
        brightness: if enabled(obj) {
            brightness_of(obj)
        } else {
            0
        },
    }
}

/// The settings of those of the first `n` LEDs that have an object in a section.
pub open spec fn leds_in(section: Seq<char>, n: nat) -> Seq<IndividualLedEntry>
    decreases n,
{
    if n == 0 {
        seq![]
    } else {
        let rest = leds_in(section, (n - 1) as nat);
        match object_field(section, json_led_name(n - 1)) {
            Some(obj) => rest.push(led_entry(n - 1, obj)),
            None => rest,
        }
    }
}

/// The settings of the LEDs in the section of a name.
pub open spec fn section_leds(json: Seq<char>, name: Seq<char>) -> Seq<IndividualLedEntry> {
    match object_field(json, name) {
        Some(section) => leds_in(section, 8),
        None => seq![],
    }
}

/// The object of a group among the controls.
pub open spec fn control(json: Seq<char>, key: Seq<char>) -> Option<Seq<char>> {
    match object_field(json, "Controls"@) {
        Some(controls) => object_field(controls, key),
        None => None,
    }
}

/// The setting of a group. A group with brightness zero is not set.
pub open spec fn group_setting(json: Seq<char>, key: Seq<char>) -> Option<(u8, u8, u8, u8)> {
    match control(json, key) {
        Some(obj) => if brightness_of(obj) > 0 {
            let (r, g, b) = color_of(obj);
            Some((r, g, b, brightness_of(obj)))
        } else {
            None
        },
        None => None,
    }
}

/// The settings in a file.
pub open spec fn json_settings(json: Seq<char>) -> individual::Settings {
    individual::Settings {
        leds: section_leds(json, "Left Joystick"@) + section_leds(json, "Right Joystick"@),
        left: group_setting(json, "LEFT"@),
        right: group_setting(json, "RIGHT"@),
        all: group_setting(json, "BOTH"@),
    }
}

/// Whether the colour of an object can be cut into its components.
pub open spec fn object_cuts(obj: Seq<char>) -> bool {
    string_field(obj, "color"@) matches Some(s) ==> color::hex_cuts(color::hex_digits(s))
}

/// Whether the colours of a section can be cut into their components.
pub open spec fn section_cuts(json: Seq<char>, name: Seq<char>) -> bool {
    object_field(json, name) matches Some(section) ==> forall|i: int|
        0 <= i < 8 ==> (#[trigger] object_field(section, json_led_name(i)) matches Some(obj)
            ==> object_cuts(obj))
}

/// Whether the colour of a group can be cut into its components.
pub open spec fn control_cuts(json: Seq<char>, key: Seq<char>) -> bool {
    control(json, key) matches Some(obj) ==> object_cuts(obj)
}

/// Whether every colour of a file can be cut into its components. In ASCII all of them
/// can.
pub open spec fn config_cuts(content: Option<Seq<char>>) -> bool {
    match content {
        Some(json) => is_ascii_chars(json) || {
            &&& section_cuts(json, "Left Joystick"@)
            &&& section_cuts(json, "Right Joystick"@)
            &&& control_cuts(json, "BOTH"@)
            &&& control_cuts(json, "LEFT"@)
            &&& control_cuts(json, "RIGHT"@)
        },
        None => true,
    }
}

/// The text of a value in ASCII is in ASCII.
proof fn lemma_value_ascii(obj: Seq<char>, key: Seq<char>, i: int)
    requires
        is_ascii_chars(obj),
        0 <= i,
    ensures
        value_from(obj, key, i) matches Some(v) ==> is_ascii_chars(v),
    decreases obj.len() + 1 - i,
{
    text::lemma_occurrence_from(obj, quoted(key), i);
    if let Some(k) = text::occurrence_from(obj, quoted(key), i) {
        let behind = obj.skip(k + quoted(key).len());
        let rest = behind_name(obj, key, k);
        assert(is_ascii_chars(behind));
        text::lemma_skip_white(behind, 0);
        assert(is_ascii_chars(rest));
        if text::begins_with_char(rest, ':') {
            assert(is_ascii_chars(rest.skip(1)));
            text::lemma_skip_white(rest.skip(1), 0);
        } else {
            lemma_value_ascii(obj, key, k + 1);
        }
    }
}

/// An object in ASCII has its fields in ASCII.
proof fn lemma_object_ascii(obj: Seq<char>, key: Seq<char>)
    requires
        is_ascii_chars(obj),
    ensures
        object_field(obj, key) matches Some(o) ==> is_ascii_chars(o),
{
    lemma_value_ascii(obj, key, 0);
    if object_field(obj, key) is Some {
        let v = value_text(obj, key)->Some_0;
        lemma_closing_from(v, 0, 0);
    }
}

/// The colour of an object in ASCII can be cut.
proof fn lemma_object_cuts_ascii(obj: Seq<char>)
    requires
        is_ascii_chars(obj),
    ensures
        object_cuts(obj),
{
    lemma_value_ascii(obj, "color"@, 0);
    if let Some(s) = string_field(obj, "color"@) {
        let v = value_text(obj, "color"@)->Some_0;
        assert(is_ascii_chars(v.skip(1)));
        text::lemma_position_from(v.skip(1), '"', 0);
        assert(is_ascii_chars(s));
        color::lemma_ascii_cuts_anywhere(s);
        color::lemma_ascii_cuts_anywhere(color::hex_digits(s));
    }
}

/// A file that can be cut can be cut in every object that is read.
proof fn lemma_config_cuts(json: Seq<char>)
    requires
        config_cuts(Some(json)),
    ensures
        section_cuts(json, "Left Joystick"@),
        section_cuts(json, "Right Joystick"@),
        control_cuts(json, "BOTH"@),
        control_cuts(json, "LEFT"@),
        control_cuts(json, "RIGHT"@),
{
    if is_ascii_chars(json) {
        lemma_section_cuts_ascii(json, "Left Joystick"@);
        lemma_section_cuts_ascii(json, "Right Joystick"@);
        lemma_control_cuts_ascii(json, "BOTH"@);
        lemma_control_cuts_ascii(json, "LEFT"@);
        lemma_control_cuts_ascii(json, "RIGHT"@);
    }
}

proof fn lemma_section_cuts_ascii(json: Seq<char>, name: Seq<char>)
    requires
        is_ascii_chars(json),
    ensures
        section_cuts(json, name),
{
    if let Some(section) = object_field(json, name) {
        lemma_object_ascii(json, name);
        assert forall|i: int| 0 <= i < 8 implies (#[trigger] object_field(
            section,
            json_led_name(i),
        ) matches Some(obj) ==> object_cuts(obj)) by {
            if let Some(obj) = object_field(section, json_led_name(i)) {
                lemma_object_ascii(section, json_led_name(i));
                lemma_object_cuts_ascii(obj);
            }
        }
    }
}

proof fn lemma_control_cuts_ascii(json: Seq<char>, key: Seq<char>)
    requires
        is_ascii_chars(json),
    ensures
        control_cuts(json, key),
{
    if let Some(controls) = object_field(json, "Controls"@) {
        lemma_object_ascii(json, "Controls"@);
        lemma_object_ascii(controls, key);
        if let Some(obj) = object_field(controls, key) {
            lemma_object_cuts_ascii(obj);
        }
    }
}

/// Tests whether the colour of an object can be cut into its components.
fn object_can_be_cut(obj: &str) -> (r: bool)
    ensures
        r == object_cuts(obj@),
{
    match json_extract_string(obj, "color") {
        Some(s) => color::hex_color_cuts(text::trim_start_char(text::trim(s), '#')),
        None => true,
    }
}

/// Tests whether the colours of a section can be cut into their components.
fn section_can_be_cut(json: &str, name: &str) -> (r: bool)
    ensures
        r == section_cuts(json@, name@),
{
    let section = match json_extract_object(json, name) {
        Some(s) => s,
        None => return true,
    };
    let mut i: usize = 0;
    while i < 8
        invariant
            i <= 8,
            object_field(json@, name@) == Some(section@),
            forall|k: int|
                0 <= k < i ==> (#[trigger] object_field(section@, json_led_name(k)) matches Some(obj)
                    ==> object_cuts(obj)),
        decreases 8 - i,
    {
        if let Some(obj) = json_extract_object(section, json_led_name_at(i)) {
            if !object_can_be_cut(obj) {
                return false;
            }
        }
        i += 1;
    }
    true
}

/// Tests whether the colour of a group can be cut into its components.
fn control_can_be_cut(json: &str, key: &str) -> (r: bool)
    ensures
        r == control_cuts(json@, key@),
{
    match json_extract_object(json, "Controls") {
        Some(controls) => match json_extract_object(controls, key) {
            Some(obj) => object_can_be_cut(obj),
            None => true,
        },
        None => true,
    }
}

/// Tests whether every colour of a file can be cut into its components.
pub fn json_config_cuts(content: Option<&str>) -> (r: bool)
    ensures
        r == config_cuts(text::optional_view(content)),
{
    let json = match content {
        Some(c) => c,
        None => return true,
    };
    let r = section_can_be_cut(json, "Left Joystick") && section_can_be_cut(json, "Right Joystick")
        && control_can_be_cut(json, "BOTH") && control_can_be_cut(json, "LEFT")
        && control_can_be_cut(json, "RIGHT");
    proof {
        if config_cuts(Some(json@)) {
            lemma_config_cuts(json@);
        }
    }
    r
}

/// Reads the colour of an object.
fn read_color(obj: &str) -> (r: (u8, u8, u8))
    requires
        object_cuts(obj@),
    ensures
        r == color_of(obj@),
{
    match json_extract_string(obj, "color") {
        Some(s) => match color::parse_json_color(s) {
            Some(c) => c,
            None => (0, 0, 0),
        },
        None => (0, 0, 0),
    }
}

/// Reads the brightness of an object.
fn read_brightness(obj: &str) -> (r: u8)
    ensures
        r == brightness_of(obj@),
{
    match json_extract_number(obj, "brightness") {
        Some(n) => n,
        None => 0,
    }
}

/// Adds the settings of a section to a list.
fn read_section(leds: &mut Vec<IndividualLedEntry>, json: &str, name: &str)
    requires
        section_cuts(json@, name@),
    ensures
        final(leds)@ == old(leds)@ + section_leds(json@, name@),
{
    let ghost before = leds@;
    let section = match json_extract_object(json, name) {
        Some(s) => s,
        None => {
            assert(leds@ =~= before + section_leds(json@, name@));
            return;
        },
    };
    let mut i: usize = 0;
    assert(leds@ =~= before + leds_in(section@, 0));
    while i < 8
        invariant
            i <= 8,
            section_cuts(json@, name@),
            object_field(json@, name@) == Some(section@),
            leds@ == before + leds_in(section@, i as nat),
        decreases 8 - i,
    {
        let led_name = json_led_name_at(i);
        if let Some(obj) = json_extract_object(section, led_name) {
            assert(object_field(section@, json_led_name(i as int)) == Some(obj@));
            if let Some(index) = json_led_name_to_index(led_name) {
                proof {
                    law_json_led_names_differ(index as int, i as int);
                }
                let on = match json_extract_bool(obj, "enabled") {
                    Some(b) => b,
                    None => true,
                };
                let brightness: u8 = if on {
                    read_brightness(obj)
                } else {
                    0
                };
                let (r, g, b) = read_color(obj);
                leds.push(IndividualLedEntry { index, r, g, b, brightness });
                assert(leds@ =~= before + leds_in(section@, (i + 1) as nat));
            }
        }
        i += 1;
    }
}

/// Reads the setting of a group.
fn read_group(json: &str, key: &str) -> (r: Option<(u8, u8, u8, u8)>)
    requires
        control_cuts(json@, key@),
    ensures
        r == group_setting(json@, key@),
{
    let controls = match json_extract_object(json, "Controls") {
        Some(c) => c,
        None => return None,
    };
    match json_extract_object(controls, key) {
        Some(obj) => {
            let brightness: u8 = read_brightness(obj);
            let (r, g, b) = read_color(obj);
            if brightness > 0 {
                Some((r, g, b, brightness))
            } else {
                None
            }
        },
        None => None,
    }
}

/// Reads settings from the contents of a JSON file, or from `None` where the file cannot
/// be read.
pub fn load_json_config(content: Option<&str>) -> (r: Option<IndividualConfig>)
    requires
        config_cuts(text::optional_view(content)),
    ensures
        individual::settings_of(r) == (match content {
            Some(json) => Some(json_settings(json@)),
            None => None,
        }),
{
    let json = match content {
        Some(c) => c,
        None => return None,
    };
    proof {
        lemma_config_cuts(json@);
    }
    let mut leds: Vec<IndividualLedEntry> = Vec::new();
    read_section(&mut leds, json, "Left Joystick");
    read_section(&mut leds, json, "Right Joystick");
    let config = IndividualConfig {
        leds,
        group_all: read_group(json, "BOTH"),
        group_left: read_group(json, "LEFT"),
        group_right: read_group(json, "RIGHT"),
    };
    assert(config@ =~= json_settings(json@));
    Some(config)
}

// ---------------------------------------------------------------------------
// Laws
// ---------------------------------------------------------------------------

/// How many braces are left open at the end of a text.
pub open spec fn open_braces(s: Seq<char>) -> int
    decreases s.len(),
{
    if s.len() == 0 {
        0
    } else if s.last() == '{' {
        open_braces(s.drop_last()) + 1
    } else if s.last() == '}' {
        open_braces(s.drop_last()) - 1
    } else {
        open_braces(s.drop_last())
    }
}

proof fn lemma_closing_from(s: Seq<char>, i: int, depth: int)
    requires
        0 <= i,
    ensures
        closing_from(s, i, depth) matches Some(q) ==> i <= q < s.len() && s[q] == '}',
    decreases s.len() - i,
{
    if i < s.len() {
        if s[i] == '{' {
            lemma_closing_from(s, i + 1, depth + 1);
        } else if s[i] == '}' {
            if depth != 1 {
                lemma_closing_from(s, i + 1, depth - 1);
            }
        } else {
            lemma_closing_from(s, i + 1, depth);
        }
    }
}

proof fn lemma_closing_balance(s: Seq<char>, i: int, depth: int)
    requires
        0 <= i <= s.len(),
        depth == open_braces(s.take(i)),
        i > 0 ==> depth > 0,
        i == 0 ==> s.len() > 0 && s[0] == '{',
    ensures
        closing_from(s, i, depth) matches Some(q) ==> open_braces(s.take(q + 1)) == 0 && forall|k: int|
            i < k <= q ==> #[trigger] open_braces(s.take(k)) > 0,
    decreases s.len() - i,
{
    if i < s.len() {
        let t = s.take(i + 1);
        assert(t.drop_last() =~= s.take(i));
        assert(t.last() == s[i]);
        if s[i] == '{' {
            lemma_closing_balance(s, i + 1, depth + 1);
        } else if s[i] == '}' {
            if depth != 1 {
                lemma_closing_balance(s, i + 1, depth - 1);
            }
        } else {
            lemma_closing_balance(s, i + 1, depth);
        }
    }
}

/// Whether a text is an object: it begins with a brace and ends with the brace that closes
/// it. At its end no brace is open, and before that one always is.
pub open spec fn is_object(s: Seq<char>) -> bool {
    &&& s.len() > 0
    &&& s[0] == '{'
    &&& s.last() == '}'
    &&& open_braces(s) == 0
    &&& forall|k: int| 0 < k < s.len() ==> #[trigger] open_braces(s.take(k)) > 0
}

/// What is found as an object is one, once it stands in braces.
pub proof fn law_object_is_balanced(json: Seq<char>, key: Seq<char>)
    requires
        object_field(json, key) is Some,
    ensures
        is_object(seq!['{'] + object_field(json, key)->Some_0 + seq!['}']),
{
    let s = value_text(json, key)->Some_0;
    lemma_closing_from(s, 0, 0);
    assert(s.take(0) =~= seq![]);
    assert(open_braces(s.take(0)) == 0);
    lemma_closing_balance(s, 0, 0);
    let q = closing_from(s, 0, 0)->Some_0;
    let obj = s.take(q + 1);
    assert(obj =~= seq!['{'] + s.subrange(1, q) + seq!['}']);
    assert forall|k: int| 0 < k < obj.len() implies #[trigger] open_braces(obj.take(k)) > 0 by {
        assert(obj.take(k) =~= s.take(k));
    }
}

/// Whether `key` stands in quotes at position `k`, with a colon behind it.
pub open spec fn key_at(obj: Seq<char>, key: Seq<char>, k: int) -> bool {
    text::occurs_at(obj, quoted(key), k) && text::begins_with_char(behind_name(obj, key, k), ':')
}

/// A value is found at the first place of its key.
proof fn lemma_value_from(obj: Seq<char>, key: Seq<char>, i: int, k: int)
    requires
        0 <= i <= k,
        key_at(obj, key, k),
        forall|j: int| i <= j < k ==> !#[trigger] key_at(obj, key, j),
    ensures
        value_from(obj, key, i) == Some(text::trimmed_start(behind_name(obj, key, k).skip(1))),
    decreases k - i,
{
    text::lemma_occurrence_from(obj, quoted(key), i);
    assert(text::occurs_at(obj, quoted(key), k));
    let p = text::occurrence_from(obj, quoted(key), i)->Some_0;
    if p < k {
        assert(!key_at(obj, key, p));
        lemma_value_from(obj, key, p + 1, k);
    }
}

/// The text of a value is found behind its key, a colon and white space.
proof fn lemma_value_text(
    obj: Seq<char>,
    key: Seq<char>,
    front: Seq<char>,
    gap: Seq<char>,
    w: Seq<char>,
    v: Seq<char>,
)
    requires
        obj == front + quoted(key) + gap + seq![':'] + w + v,
        forall|k: int| 0 <= k < front.len() ==> !#[trigger] key_at(obj, key, k),
        text::all_white(gap),
        text::all_white(w),
        v.len() > 0 ==> !text::is_white(v[0]),
    ensures
        value_text(obj, key) == Some(v),
{
    let k = front.len() as int;
    let rest = seq![':'] + w + v;
    assert(obj.subrange(k, k + quoted(key).len()) =~= quoted(key));
    assert(obj.skip(k + quoted(key).len()) =~= gap + rest);
    text::lemma_trimmed_prefix(gap, rest);
    assert(rest.skip(1) =~= w + v);
    text::lemma_trimmed_prefix(w, v);
    lemma_value_from(obj, key, 0, k);
}

/// A string is found: what stands in quotes behind the first place of its key, a colon and
/// white space.
pub proof fn law_string_is_found(
    obj: Seq<char>,
    key: Seq<char>,
    front: Seq<char>,
    gap: Seq<char>,
    w: Seq<char>,
    value: Seq<char>,
    rest: Seq<char>,
)
    requires
        obj == front + quoted(key) + gap + seq![':'] + w + (seq!['"'] + value + seq!['"'] + rest),
        forall|k: int| 0 <= k < front.len() ==> !#[trigger] key_at(obj, key, k),
        text::all_white(gap),
        text::all_white(w),
        text::lacks(value, '"'),
    ensures
        string_field(obj, key) == Some(value),
{
    let v = seq!['"'] + value + seq!['"'] + rest;
    assert(v[0] == '"');
    lemma_value_text(obj, key, front, gap, w, v);
    assert(v.skip(1) =~= value + seq!['"'] + rest);
    text::lemma_position_behind(value, '"', rest);
}

/// A number of eight bits is found: the digits behind the first place of its key, a colon
/// and white space.
pub proof fn law_number_is_found(
    obj: Seq<char>,
    key: Seq<char>,
    front: Seq<char>,
    gap: Seq<char>,
    w: Seq<char>,
    n: u8,
    rest: Seq<char>,
)
    requires
        obj == front + quoted(key) + gap + seq![':'] + w + (text::decimal_text(n as nat) + rest),
        forall|k: int| 0 <= k < front.len() ==> !#[trigger] key_at(obj, key, k),
        text::all_white(gap),
        text::all_white(w),
        rest.len() > 0 ==> !text::is_digit(rest[0]),
    ensures
        number_field(obj, key) == Some(n),
{
    let d = text::decimal_text(n as nat);
    let v = d + rest;
    text::lemma_decimal_text(n as nat);
    assert(v[0] == d[0]);
    lemma_value_text(obj, key, front, gap, w, v);
    lemma_skip_digits(v, 0);
    let k = skip_digits(v, 0);
    if k < d.len() {
        assert(v[k] == d[k]);
    }
    if k > d.len() {
        assert(v[d.len() as int] == rest[0]);
    }
    assert(v.take(k) =~= d);
    text::law_decimal_round_trip(n as nat, 255);
}

proof fn lemma_skip_digits(s: Seq<char>, i: int)
    requires
        0 <= i <= s.len(),
    ensures
        i <= skip_digits(s, i) <= s.len(),
        forall|k: int| i <= k < skip_digits(s, i) ==> text::is_digit(#[trigger] s[k]),
        skip_digits(s, i) < s.len() ==> !text::is_digit(s[skip_digits(s, i)]),
    decreases s.len() - i,
{
    if i < s.len() && text::is_digit(s[i]) {
        lemma_skip_digits(s, i + 1);
    }
}

/// A truth value is found: the word behind the first place of its key, a colon and white
/// space.
pub proof fn law_bool_is_found(
    obj: Seq<char>,
    key: Seq<char>,
    front: Seq<char>,
    gap: Seq<char>,
    w: Seq<char>,
    b: bool,
    rest: Seq<char>,
)
    requires
        obj == front + quoted(key) + gap + seq![':'] + w + ((if b {
            "true"@
        } else {
            "false"@
        }) + rest),
        forall|k: int| 0 <= k < front.len() ==> !#[trigger] key_at(obj, key, k),
        text::all_white(gap),
        text::all_white(w),
    ensures
        bool_field(obj, key) == Some(b),
{
    reveal_strlit("true");
    reveal_strlit("false");
    let word = if b {
        "true"@
    } else {
        "false"@
    };
    let v = word + rest;
    assert(v[0] == word[0]);
    lemma_value_text(obj, key, front, gap, w, v);
    assert(v.subrange(0, word.len() as int) =~= word);
    if !b && text::begins_with(v, "true"@) {
        assert(v.subrange(0, 4)[0] == "true"@[0]);
    }
}

proof fn lemma_closing_is_last(o: Seq<char>, rest: Seq<char>, i: int)
    requires
        is_object(o),
        0 <= i < o.len(),
    ensures
        closing_from(o + rest, i, open_braces(o.take(i))) == Some(o.len() - 1),
    decreases o.len() - i,
{
    let s = o + rest;
    let t = o.take(i + 1);
    assert(s[i] == o[i]);
    assert(t.drop_last() =~= o.take(i));
    assert(t.last() == o[i]);
    if i == 0 {
        assert(open_braces(o.take(0)) == 0);
    }
    if i + 1 == o.len() {
        assert(t =~= o);
    } else {
        assert(open_braces(t) > 0);
        lemma_closing_is_last(o, rest, i + 1);
    }
}

/// An object is found: what stands in braces behind the first place of its key, a colon and
/// white space.
pub proof fn law_object_is_found(
    obj: Seq<char>,
    key: Seq<char>,
    front: Seq<char>,
    gap: Seq<char>,
    w: Seq<char>,
    o: Seq<char>,
    rest: Seq<char>,
)
    requires
        obj == front + quoted(key) + gap + seq![':'] + w + (o + rest),
        forall|k: int| 0 <= k < front.len() ==> !#[trigger] key_at(obj, key, k),
        text::all_white(gap),
        text::all_white(w),
        is_object(o),
    ensures
        object_field(obj, key) == Some(o.subrange(1, o.len() - 1)),
{
    let v = o + rest;
    assert(v[0] == '{');
    lemma_value_text(obj, key, front, gap, w, v);
    assert(open_braces(o.take(0)) == 0);
    lemma_closing_is_last(o, rest, 0);
    assert(v.subrange(1, o.len() - 1) =~= o.subrange(1, o.len() - 1));
}

/// A disabled LED is dark, whatever colour and brightness it names.
pub proof fn law_disabled_led_is_dark(i: int, obj: Seq<char>)
    requires
        bool_field(obj, "enabled"@) == Some(false),
    ensures
        ({
            let e = led_entry(i, obj);
            &&& e.brightness == 0
            &&& color::scaled_rgb(e.r, e.g, e.b, e.brightness) == (0u8, 0u8, 0u8)
        }),
{
    let e = led_entry(i, obj);
    color::law_zero_brightness(e.r);
    color::law_zero_brightness(e.g);
    color::law_zero_brightness(e.b);
}

// ---------------------------------------------------------------------------
// Laws on whole files
// ---------------------------------------------------------------------------

/// Whether a text is made of something in front, a key in quotes, a colon between white space
/// and then `v`, with no earlier place where the key stands.
pub open spec fn is_made_of(
    obj: Seq<char>,
    key: Seq<char>,
    front: Seq<char>,
    gap: Seq<char>,
    w: Seq<char>,
    v: Seq<char>,
) -> bool {
    &&& obj == front + quoted(key) + gap + seq![':'] + w + v
    &&& forall|k: int| 0 <= k < front.len() ==> !#[trigger] key_at(obj, key, k)
    &&& text::all_white(gap)
    &&& text::all_white(w)
}

/// Whether `v` stands behind a key, its colon and white space.
pub open spec fn holds(obj: Seq<char>, key: Seq<char>, v: Seq<char>) -> bool {
    exists|front: Seq<char>, gap: Seq<char>, w: Seq<char>| #[trigger]
        is_made_of(obj, key, front, gap, w, v)
}

/// Whether a key does not stand anywhere in a text.
pub open spec fn lacks_key(obj: Seq<char>, key: Seq<char>) -> bool {
    forall|k: int| 0 <= k ==> !#[trigger] key_at(obj, key, k)
}

/// Whether a text holds `"key": { .. }` with `inner` in the braces.
pub open spec fn holds_object(
    obj: Seq<char>,
    key: Seq<char>,
    inner: Seq<char>,
    rest: Seq<char>,
) -> bool {
    &&& is_object(seq!['{'] + inner + seq!['}'])
    &&& holds(obj, key, seq!['{'] + inner + seq!['}'] + rest)
}

/// Whether a text holds `"key": ".."` with `value` in the quotes.
pub open spec fn holds_string(
    obj: Seq<char>,
    key: Seq<char>,
    value: Seq<char>,
    rest: Seq<char>,
) -> bool {
    &&& text::lacks(value, '"')
    &&& holds(obj, key, seq!['"'] + value + seq!['"'] + rest)
}

/// Whether a text holds `"key": n`.
pub open spec fn holds_number(obj: Seq<char>, key: Seq<char>, n: u8, rest: Seq<char>) -> bool {
    &&& rest.len() > 0 ==> !text::is_digit(rest[0])
    &&& holds(obj, key, text::decimal_text(n as nat) + rest)
}

/// Whether a text holds `"key": true` or `"key": false`.
pub open spec fn holds_bool(obj: Seq<char>, key: Seq<char>, b: bool, rest: Seq<char>) -> bool {
    holds(
        obj,
        key,
        (if b {
            "true"@
        } else {
            "false"@
        }) + rest,
    )
}

proof fn lemma_holds_object(obj: Seq<char>, key: Seq<char>, inner: Seq<char>, rest: Seq<char>)
    requires
        holds_object(obj, key, inner, rest),
    ensures
        object_field(obj, key) == Some(inner),
{
    let o = seq!['{'] + inner + seq!['}'];
    let (front, gap, w) = choose|front: Seq<char>, gap: Seq<char>, w: Seq<char>| #[trigger]
        is_made_of(obj, key, front, gap, w, o + rest);
    law_object_is_found(obj, key, front, gap, w, o, rest);
    assert(o.subrange(1, o.len() - 1) =~= inner);
}

proof fn lemma_holds_string(obj: Seq<char>, key: Seq<char>, value: Seq<char>, rest: Seq<char>)
    requires
        holds_string(obj, key, value, rest),
    ensures
        string_field(obj, key) == Some(value),
{
    let v = seq!['"'] + value + seq!['"'] + rest;
    let (front, gap, w) = choose|front: Seq<char>, gap: Seq<char>, w: Seq<char>| #[trigger]
        is_made_of(obj, key, front, gap, w, v);
    law_string_is_found(obj, key, front, gap, w, value, rest);
}

proof fn lemma_holds_number(obj: Seq<char>, key: Seq<char>, n: u8, rest: Seq<char>)
    requires
        holds_number(obj, key, n, rest),
    ensures
        number_field(obj, key) == Some(n),
{
    let v = text::decimal_text(n as nat) + rest;
    let (front, gap, w) = choose|front: Seq<char>, gap: Seq<char>, w: Seq<char>| #[trigger]
        is_made_of(obj, key, front, gap, w, v);
    law_number_is_found(obj, key, front, gap, w, n, rest);
}

proof fn lemma_holds_bool(obj: Seq<char>, key: Seq<char>, b: bool, rest: Seq<char>)
    requires
        holds_bool(obj, key, b, rest),
    ensures
        bool_field(obj, key) == Some(b),
{
    let v = (if b {
        "true"@
    } else {
        "false"@
    }) + rest;
    let (front, gap, w) = choose|front: Seq<char>, gap: Seq<char>, w: Seq<char>| #[trigger]
        is_made_of(obj, key, front, gap, w, v);
    law_bool_is_found(obj, key, front, gap, w, b, rest);
}

proof fn lemma_no_value(obj: Seq<char>, key: Seq<char>, i: int)
    requires
        lacks_key(obj, key),
        0 <= i,
    ensures
        value_from(obj, key, i) is None,
    decreases obj.len() + 1 - i,
{
    text::lemma_occurrence_from(obj, quoted(key), i);
    if let Some(k) = text::occurrence_from(obj, quoted(key), i) {
        assert(!key_at(obj, key, k));
        lemma_no_value(obj, key, k + 1);
    }
}

/// A key that does not stand in a text has no value in it.
pub proof fn law_missing_key_has_no_value(obj: Seq<char>, key: Seq<char>)
    requires
        lacks_key(obj, key),
    ensures
        string_field(obj, key) is None,
        number_field(obj, key) is None,
        bool_field(obj, key) is None,
        object_field(obj, key) is None,
{
    lemma_no_value(obj, key, 0);
}

/// A value of one sort is none of another: what does not begin with a quote is no string,
/// what does not begin with a digit or is too large is no number, and what does not begin
/// with a brace is no object.
pub proof fn law_other_value_is_none(obj: Seq<char>, key: Seq<char>, v: Seq<char>, n: nat)
    requires
        holds(obj, key, v),
        v.len() > 0 && !text::is_white(v[0]),
    ensures
        v[0] != '"' ==> string_field(obj, key) is None,
        !text::is_digit(v[0]) ==> number_field(obj, key) is None,
        v == text::decimal_text(n) && n > 255 ==> number_field(obj, key) is None,
        v[0] != 't' && v[0] != 'f' ==> bool_field(obj, key) is None,
        v[0] != '{' ==> object_field(obj, key) is None,
{
    let (front, gap, w) = choose|front: Seq<char>, gap: Seq<char>, w: Seq<char>| #[trigger]
        is_made_of(obj, key, front, gap, w, v);
    lemma_value_text(obj, key, front, gap, w, v);
    reveal_strlit("true");
    reveal_strlit("false");
    if text::begins_with(v, "true"@) {
        assert(v.subrange(0, 4)[0] == "true"@[0]);
    }
    if text::begins_with(v, "false"@) {
        assert(v.subrange(0, 5)[0] == "false"@[0]);
    }
    if !text::is_digit(v[0]) {
        assert(v.take(0) =~= seq![]);
        text::law_other_text_is_no_number(seq![], 255, 0);
    }
    if v == text::decimal_text(n) && n > 255 {
        text::lemma_decimal_text(n);
        lemma_skip_digits(v, 0);
        let k = skip_digits(v, 0);
        if k < v.len() {
            assert(text::is_digit(v[k]));
        }
        assert(v.take(k) =~= v);
        text::law_zeros_and_sign_do_not_count(n, 255, 0);
        assert(Seq::new(0, |i: int| '0') + v =~= v);
    }
}

/// What a text is that writes a colour, as the value of a field: six digits of either case,
/// with number signs in front and white space around both.
pub open spec fn writes_color(
    s: Seq<char>,
    before: Seq<char>,
    k: nat,
    hex: Seq<char>,
    after: Seq<char>,
    c: (u8, u8, u8),
) -> bool {
    &&& s == before + Seq::new(k, |i: int| '#') + hex + after
    &&& text::all_white(before) && text::all_white(after)
    &&& color::writes_hex(hex, c.0, c.1, c.2)
}

proof fn lemma_writes_color(
    s: Seq<char>,
    before: Seq<char>,
    k: nat,
    hex: Seq<char>,
    after: Seq<char>,
    c: (u8, u8, u8),
)
    requires
        writes_color(s, before, k, hex, after, c),
    ensures
        color::hex_color(color::hex_digits(s)) == Some(c),
{
    let signs = Seq::new(k, |i: int| '#');
    let t = signs + hex;
    color::lemma_hex_is_plain(hex, c.0, c.1, c.2);
    if k == 0 {
        assert(t[0] == hex[0]);
    }
    assert(t.last() == hex[5]);
    assert(s =~= before + (t + after));
    text::lemma_trimmed_both(before, t, after);
    text::lemma_skip_char(t, '#', 0);
    let p = text::skip_char(t, '#', 0);
    if p > k {
        assert(t[k as int] == hex[0]);
    }
    if p < k {
        assert(t[p] == '#');
    }
    assert(t.skip(k as int) =~= hex);
    color::law_hex_color_is_read(hex, c.0, c.1, c.2, seq![], 0, seq![]);
    assert(seq![] + Seq::new(0, |i: int| '#') + hex + seq![] =~= hex);
}

/// What a loaded configuration has for a group among the controls.
pub open spec fn group_of(config: IndividualConfig, key: Seq<char>) -> Option<(u8, u8, u8, u8)> {
    if key == "LEFT"@ {
        config.group_left
    } else if key == "RIGHT"@ {
        config.group_right
    } else {
        config.group_all
    }
}

proof fn lemma_group_names()
    ensures
        "LEFT"@.len() == 4 && "LEFT"@[0] == 'L',
        "RIGHT"@.len() == 5 && "RIGHT"@[0] == 'R',
        "BOTH"@.len() == 4 && "BOTH"@[0] == 'B',
{
    reveal_strlit("LEFT");
    reveal_strlit("RIGHT");
    reveal_strlit("BOTH");
}

/// A file whose controls hold an object for a side, or for both, with a colour and a
/// brightness sets that group to exactly these, unless the brightness is zero.
pub proof fn law_group_is_loaded(
    json: Seq<char>,
    config: IndividualConfig,
    key: Seq<char>,
    controls: Seq<char>,
    obj: Seq<char>,
    s: Seq<char>,
    before: Seq<char>,
    k: nat,
    hex: Seq<char>,
    after: Seq<char>,
    c: (u8, u8, u8),
    n: u8,
    rest: (Seq<char>, Seq<char>, Seq<char>, Seq<char>),
)
    requires
        config@ == json_settings(json),
        key == "LEFT"@ || key == "RIGHT"@ || key == "BOTH"@,
        holds_object(json, "Controls"@, controls, rest.0),
        holds_object(controls, key, obj, rest.1),
        holds_string(obj, "color"@, s, rest.2),
        writes_color(s, before, k, hex, after, c),
        holds_number(obj, "brightness"@, n, rest.3),
    ensures
        key == "LEFT"@ ==> config.group_left == (if n > 0 {
            Some((c.0, c.1, c.2, n))
        } else {
            None
        }),
        key == "RIGHT"@ ==> config.group_right == (if n > 0 {
            Some((c.0, c.1, c.2, n))
        } else {
            None
        }),
        key == "BOTH"@ ==> config.group_all == (if n > 0 {
            Some((c.0, c.1, c.2, n))
        } else {
            None
        }),
{
    lemma_group_names();
    lemma_holds_object(json, "Controls"@, controls, rest.0);
    lemma_holds_object(controls, key, obj, rest.1);
    lemma_holds_string(obj, "color"@, s, rest.2);
    lemma_writes_color(s, before, k, hex, after, c);
    lemma_holds_number(obj, "brightness"@, n, rest.3);
}

/// A group that the controls do not hold, or that has no brightness, is not set; one without
/// a colour is black.
pub proof fn law_group_without_fields(
    json: Seq<char>,
    config: IndividualConfig,
    key: Seq<char>,
    controls: Seq<char>,
    obj: Seq<char>,
    n: u8,
    rest: (Seq<char>, Seq<char>, Seq<char>),
)
    requires
        config@ == json_settings(json),
        key == "LEFT"@ || key == "RIGHT"@ || key == "BOTH"@,
    ensures
        lacks_key(json, "Controls"@) ==> config.group_left is None && config.group_right is None
            && config.group_all is None,
        holds_object(json, "Controls"@, controls, rest.0) ==> {
            &&& lacks_key(controls, key) ==> group_of(config, key) is None
            &&& holds_object(controls, key, obj, rest.1) ==> {
                &&& lacks_key(obj, "brightness"@) ==> group_of(config, key) is None
                &&& number_field(obj, "brightness"@) is None ==> group_of(config, key) is None
                &&& lacks_key(obj, "color"@) && holds_number(obj, "brightness"@, n, rest.2) && n
                    > 0 ==> group_of(config, key) == Some((0u8, 0u8, 0u8, n))
            }
        },
{
    lemma_group_names();
    if lacks_key(json, "Controls"@) {
        law_missing_key_has_no_value(json, "Controls"@);
    }
    if holds_object(json, "Controls"@, controls, rest.0) {
        lemma_holds_object(json, "Controls"@, controls, rest.0);
        if lacks_key(controls, key) {
            law_missing_key_has_no_value(controls, key);
        }
        if holds_object(controls, key, obj, rest.1) {
            lemma_holds_object(controls, key, obj, rest.1);
            if lacks_key(obj, "brightness"@) {
                law_missing_key_has_no_value(obj, "brightness"@);
            }
            if lacks_key(obj, "color"@) && holds_number(obj, "brightness"@, n, rest.2) {
                law_missing_key_has_no_value(obj, "color"@);
                lemma_holds_number(obj, "brightness"@, n, rest.2);
            }
        }
    }
}

/// A file whose section for a side holds an object for an LED with a colour and a brightness
/// sets that LED to exactly these; to brightness zero, if it is not enabled.
pub proof fn law_led_is_loaded(
    json: Seq<char>,
    config: IndividualConfig,
    side: Seq<char>,
    i: int,
    section: Seq<char>,
    obj: Seq<char>,
    s: Seq<char>,
    before: Seq<char>,
    k: nat,
    hex: Seq<char>,
    after: Seq<char>,
    c: (u8, u8, u8),
    n: u8,
    on: bool,
    rest: (Seq<char>, Seq<char>, Seq<char>, Seq<char>, Seq<char>),
)
    requires
        config@ == json_settings(json),
        side == "Left Joystick"@ || side == "Right Joystick"@,
        0 <= i < 8,
        holds_object(json, side, section, rest.0),
        holds_object(section, led_names()[i], obj, rest.1),
        holds_string(obj, "color"@, s, rest.2),
        writes_color(s, before, k, hex, after, c),
        holds_number(obj, "brightness"@, n, rest.3),
        holds_bool(obj, "enabled"@, on, rest.4) || (on && lacks_key(obj, "enabled"@)),
    ensures
        config.leds@.contains(
            IndividualLedEntry {
                index: i as usize,
                r: c.0,
                g: c.1,
                b: c.2,
                brightness: if on {
                    n
                } else {
                    0
                },
            },
        ),
{
    law_led_names(i);
    lemma_holds_object(json, side, section, rest.0);
    lemma_holds_object(section, json_led_name(i), obj, rest.1);
    lemma_holds_string(obj, "color"@, s, rest.2);
    lemma_writes_color(s, before, k, hex, after, c);
    lemma_holds_number(obj, "brightness"@, n, rest.3);
    if lacks_key(obj, "enabled"@) {
        law_missing_key_has_no_value(obj, "enabled"@);
    }
    if holds_bool(obj, "enabled"@, on, rest.4) {
        lemma_holds_bool(obj, "enabled"@, on, rest.4);
    }
    let e = led_entry(i, obj);
    lemma_leds_in(section, 8, i);
    let list = leds_in(section, 8);
    let at = list.index_of(e);
    let left = section_leds(json, "Left Joystick"@);
    if side == "Left Joystick"@ {
        assert(config.leds@[at] == e);
    } else {
        assert(config.leds@[left.len() + at] == e);
    }
}

/// The names of the LEDs, in the order of their indices.
pub open spec fn led_names() -> Seq<Seq<char>> {
    seq![
        "L1_Right"@,
        "L2_Up"@,
        "L3_Left"@,
        "L4_Down"@,
        "R1_Right"@,
        "R2_Up"@,
        "R3_Left"@,
        "R4_Down"@,
    ]
}

/// Each LED has its name.
pub proof fn law_led_names(i: int)
    requires
        0 <= i < 8,
    ensures
        json_led_name(i) == led_names()[i],
{
}

/// What is listed of a section: LEDs by rising index, each of them once, if the section holds
/// an object for it.
proof fn lemma_leds_in(section: Seq<char>, n: nat, i: int)
    requires
        n <= 8,
        0 <= i < 8,
    ensures
        ({
            let list = leds_in(section, n);
            &&& forall|a: int| 0 <= a < list.len() ==> (#[trigger] list[a]).index < n
            &&& forall|a: int, b: int|
                0 <= a < b < list.len() ==> (#[trigger] list[a]).index < (
                #[trigger] list[b]).index
            &&& i < n ==> (object_field(section, json_led_name(i)) matches Some(obj)
                ==> list.contains(led_entry(i, obj)))
            &&& object_field(section, json_led_name(i)) is None ==> forall|a: int|
                0 <= a < list.len() ==> (#[trigger] list[a]).index != i
        }),
    decreases n,
{
    if n > 0 {
        let m = (n - 1) as nat;
        let rest = leds_in(section, m);
        let list = leds_in(section, n);
        lemma_leds_in(section, m, i);
        if let Some(obj) = object_field(section, json_led_name(m as int)) {
            let e = led_entry(m as int, obj);
            assert(list == rest.push(e));
            assert(list[rest.len() as int] == e);
        }
        if i < m {
            if let Some(obj) = object_field(section, json_led_name(i)) {
                let at = rest.index_of(led_entry(i, obj));
                assert(list[at] == led_entry(i, obj));
            }
        }
    }
}

/// The LEDs of a loaded configuration are those of the left section and then those of the
/// right one. Within a section they come by rising index, each once, and an LED for which the
/// section holds no object does not occur.
pub proof fn law_leds_are_loaded_in_order(
    json: Seq<char>,
    config: IndividualConfig,
    left: Seq<char>,
    right: Seq<char>,
    i: int,
    rest: (Seq<char>, Seq<char>),
)
    requires
        config@ == json_settings(json),
        0 <= i < 8,
        holds_object(json, "Left Joystick"@, left, rest.0) || (lacks_key(json, "Left Joystick"@)
            && left == Seq::<char>::empty()),
        holds_object(json, "Right Joystick"@, right, rest.1) || (lacks_key(json, "Right Joystick"@)
            && right == Seq::<char>::empty()),
    ensures
        exists|p: int| #[trigger]
            is_split_at(config.leds@, p) && (lacks_key(left, led_names()[i]) ==> forall|a: int|
                0 <= a < p ==> (#[trigger] config.leds@[a]).index != i) && (lacks_key(
                right,
                led_names()[i],
            ) ==> forall|a: int|
                p <= a < config.leds@.len() ==> (#[trigger] config.leds@[a]).index != i),
{
    law_led_names(i);
    let a = section_leds(json, "Left Joystick"@);
    let b = section_leds(json, "Right Joystick"@);
    lemma_section(json, "Left Joystick"@, left, rest.0, i);
    lemma_section(json, "Right Joystick"@, right, rest.1, i);
    let p = a.len() as int;
    assert(config.leds@ == a + b);
    assert(is_split_at(config.leds@, p)) by {
        assert forall|x: int, y: int| 0 <= x < y < p implies (#[trigger] config.leds@[x]).index < (
        #[trigger] config.leds@[y]).index by {
            assert(a[x].index < a[y].index);
        }
        assert forall|x: int, y: int| p <= x < y < config.leds@.len() implies (
        #[trigger] config.leds@[x]).index < (#[trigger] config.leds@[y]).index by {
            assert(b[x - p].index < b[y - p].index);
        }
    }
    if lacks_key(left, led_names()[i]) {
        assert forall|x: int| 0 <= x < p implies (#[trigger] config.leds@[x]).index != i by {
            assert(a[x].index != i);
        }
    }
    if lacks_key(right, led_names()[i]) {
        assert forall|x: int| p <= x < config.leds@.len() implies (#[trigger] config.leds@[x]).index
            != i by {
            assert(b[x - p].index != i);
        }
    }
}

/// Whether settings of LEDs come by rising index up to `p`, and again from `p` on.
pub open spec fn is_split_at(leds: Seq<IndividualLedEntry>, p: int) -> bool {
    &&& 0 <= p <= leds.len()
    &&& forall|a: int, b: int|
        0 <= a < b < p ==> (#[trigger] leds[a]).index < (#[trigger] leds[b]).index
    &&& forall|a: int, b: int|
        p <= a < b < leds.len() ==> (#[trigger] leds[a]).index < (#[trigger] leds[b]).index
}

proof fn lemma_section(
    json: Seq<char>,
    side: Seq<char>,
    section: Seq<char>,
    rest: Seq<char>,
    i: int,
)
    requires
        0 <= i < 8,
        holds_object(json, side, section, rest) || (lacks_key(json, side) && section == Seq::<
            char,
        >::empty()),
    ensures
        ({
            let list = section_leds(json, side);
            &&& forall|a: int, b: int|
                0 <= a < b < list.len() ==> (#[trigger] list[a]).index < (
                #[trigger] list[b]).index
            &&& lacks_key(section, json_led_name(i)) ==> forall|a: int|
                0 <= a < list.len() ==> (#[trigger] list[a]).index != i
        }),
{
    if holds_object(json, side, section, rest) {
        lemma_holds_object(json, side, section, rest);
        lemma_leds_in(section, 8, i);
        if lacks_key(section, json_led_name(i)) {
            law_missing_key_has_no_value(section, json_led_name(i));
        }
    } else {
        law_missing_key_has_no_value(json, side);
    }
}

/// The colour of an object is black where it has none or none that can be read, its
/// brightness is zero where it has none or none of eight bits, and it is enabled where it
/// does not say so.
pub proof fn law_fields_have_defaults(obj: Seq<char>, s: Seq<char>, rest: Seq<char>)
    ensures
        lacks_key(obj, "color"@) ==> color_of(obj) == (0u8, 0u8, 0u8),
        holds_string(obj, "color"@, s, rest) && color::hex_color(color::hex_digits(s)) is None
            ==> color_of(obj) == (0u8, 0u8, 0u8),
        lacks_key(obj, "brightness"@) ==> brightness_of(obj) == 0,
        number_field(obj, "brightness"@) is None ==> brightness_of(obj) == 0,
        lacks_key(obj, "enabled"@) ==> enabled(obj),
        bool_field(obj, "enabled"@) is None ==> enabled(obj),
{
    if lacks_key(obj, "color"@) {
        law_missing_key_has_no_value(obj, "color"@);
    }
    if holds_string(obj, "color"@, s, rest) {
        lemma_holds_string(obj, "color"@, s, rest);
    }
    if lacks_key(obj, "brightness"@) {
        law_missing_key_has_no_value(obj, "brightness"@);
    }
    if lacks_key(obj, "enabled"@) {
        law_missing_key_has_no_value(obj, "enabled"@);
    }
}

} // verus!

//! The settings in the system's configuration file.
use crate::battery;
use crate::text;
use vstd::prelude::*;

verus! {

/// The colour of the front end where none is configured.
pub const DEFAULT_ES_COLOR: (u8, u8, u8) = (255, 0, 165);

/// The brightness where none is configured.
pub const DEFAULT_BRIGHTNESS: u8 = 128;

/// The value that a line gives to the key of `prefix` (the key and an equals sign).
/// A comment begins at a number sign; a value that is empty counts as none.
pub open spec fn line_value(line: Seq<char>, prefix: Seq<char>) -> Option<Seq<char>> {
    let l = text::trimmed(line);
    if text::begins_with(l, prefix) {
        let v = text::trimmed(text::before_first(l.skip(prefix.len() as int), '#'));
        if v.len() > 0 {
            Some(v)
        } else {
            None
        }
    } else {
        None
    }
}

/// The value that the first line from `i` on gives, of those that give one.
pub open spec fn first_value(
    lines: Seq<Seq<char>>,
    prefix: Seq<char>,
    i: int,
) -> Option<Seq<char>>
    decreases lines.len() - i,
{
    if i < 0 || i >= lines.len() {
        None
    } else {
        match line_value(lines[i], prefix) {
            Some(v) => Some(v),
            None => first_value(lines, prefix, i + 1),
        }
    }
}

/// The value of `key` in a configuration; an unreadable one gives no values.
pub open spec fn conf_value(content: Option<Seq<char>>, key: Seq<char>) -> Option<Seq<char>> {
    match content {
        Some(c) => first_value(text::line_list(c), key + "="@, 0),
        None => None,
    }
}

/// The contents of an optional string.
pub open spec fn string_view(s: Option<String>) -> Option<Seq<char>> {
    match s {
        Some(t) => Some(t@),
        None => None,
    }
}

/// Reads the value of `key` from the contents of the configuration file, or from `None`
/// where the file cannot be read.
pub fn read_conf_key(content: Option<&str>, key: &str) -> (r: Option<String>)
    ensures
        string_view(r) == conf_value(text::optional_view(content), key@),
{
    let source = match content {
        Some(c) => c,
        None => return None,
    };
    let prefix = text::concat(key, "=");
    let lines = text::lines(source);
    let ghost list = text::line_list(source@);
    assert(text::views(lines@).len() == lines@.len());
    let mut i: usize = 0;
    while i < lines.len()
        invariant
            i <= lines.len(),
            lines@.len() == list.len(),
            text::views(lines@) == list,
            list == text::line_list(source@),
            content == Some(source),
            prefix@ == key@ + "="@,
            first_value(list, prefix@, i as int) == first_value(list, prefix@, 0),
        decreases lines.len() - i,
    {
        assert(list[i as int] == lines@[i as int]@);
        let line = text::trim(lines[i]);
        if text::starts_with(line, prefix.as_str()) {
            let rest = text::tail(line, prefix.as_str().unicode_len());
            let value = text::trim(text::split_first(rest, '#').0);
            if !value.is_empty() {
                return Some(String::from_str(value));
            }
        }
        i += 1;
    }
    None
}

/// The colour that three decimal numbers of a setting write.
pub open spec fn setting_color(v: Seq<char>) -> Option<(u8, u8, u8)> {
    let w = text::words(v);
    if w.len() == 3 {
        match (text::number(w[0], 255), text::number(w[1], 255), text::number(w[2], 255)) {
            (Some(r), Some(g), Some(b)) => Some((r as u8, g as u8, b as u8)),
            _ => None,
        }
    } else {
        None
    }
}

/// The colour of the front end: the one that is configured, if it is a colour.
pub open spec fn es_color(content: Option<Seq<char>>) -> (u8, u8, u8) {
    match conf_value(content, "led.colour"@) {
        Some(v) => match setting_color(v) {
            Some(c) => c,
            None => DEFAULT_ES_COLOR,
        },
        None => DEFAULT_ES_COLOR,
    }
}

/// Finds the colour of the front end in the contents of the configuration file.
pub fn resolve_es_color(content: Option<&str>) -> (r: (u8, u8, u8))
    ensures
        r == es_color(text::optional_view(content)),
{
    if let Some(value) = read_conf_key(content, "led.colour") {
        let parts = text::split_whitespace(value.as_str());
        assert(text::views(parts@).len() == parts@.len());
        if parts.len() == 3 {
            assert(text::views(parts@)[0] == parts@[0]@);
            assert(text::views(parts@)[1] == parts@[1]@);
            assert(text::views(parts@)[2] == parts@[2]@);
            match (text::parse_u8(parts[0]), text::parse_u8(parts[1]), text::parse_u8(parts[2])) {
                (Some(r), Some(g), Some(b)) => return (r, g, b),
                _ => {},
            }
        }
    }
    DEFAULT_ES_COLOR
}

/// The brightness that is configured, if it is a number of eight bits.
pub open spec fn brightness(content: Option<Seq<char>>) -> u8 {
    match conf_value(content, "led.brightness"@) {
        Some(v) => text::u8_or(v, DEFAULT_BRIGHTNESS),
        None => DEFAULT_BRIGHTNESS,
    }
}

/// Finds the brightness in the contents of the configuration file.
pub fn configured_brightness(content: Option<&str>) -> (r: u8)
    ensures
        r == brightness(text::optional_view(content)),
{
    match read_conf_key(content, "led.brightness") {
        Some(v) => text::parse_u8_or(v.as_str(), DEFAULT_BRIGHTNESS),
        None => DEFAULT_BRIGHTNESS,
    }
}

/// A line with a key, an equals sign and a value gives the value to the key, whatever white
/// space is around it and whatever comment is behind it.
pub proof fn law_key_value_is_read(
    key: Seq<char>,
    value: Seq<char>,
    before: Seq<char>,
    after: Seq<char>,
    comment: Seq<char>,
)
    requires
        key.len() > 0 && !text::is_white(key[0]),
        value.len() > 0 && !text::is_white(value[0]) && !text::is_white(value.last()),
        text::lacks(value, '#'),
        text::all_white(before),
        text::all_white(after),
    ensures
        line_value(before + key + "="@ + value + after, key + "="@) == Some(value),
        line_value(before + key + "="@ + value + after + seq!['#'] + comment, key + "="@) == Some(
            value,
        ),
{
    reveal_strlit("=");
    let prefix = key + "="@;
    let plain = prefix + value;
    let line = before + key + "="@ + value + after;
    assert(line =~= before + (plain + after));
    assert(plain[0] == key[0]);
    assert(plain.last() == value.last());
    text::lemma_trimmed_both(before, plain, after);
    assert(plain.subrange(0, prefix.len() as int) =~= prefix);
    assert(plain.skip(prefix.len() as int) =~= value);
    text::lemma_no_position(value, '#');
    text::lemma_trimmed_suffix(value, seq![]);
    assert(value + seq![] =~= value);

    let c = seq!['#'] + comment;
    let noted = before + key + "="@ + value + after + seq!['#'] + comment;
    let behind = value + after + c;
    assert(noted =~= before + (prefix + behind));
    assert((prefix + behind)[0] == key[0]);
    text::lemma_trimmed_prefix(before, prefix + behind);
    let l = text::trimmed(noted);
    let n = text::skip_white_back(prefix + behind, (prefix + behind).len() as int);
    text::lemma_skip_white_back(prefix + behind, (prefix + behind).len() as int);
    let at = prefix.len() + value.len() + after.len();
    assert((prefix + behind)[at as int] == '#');
    assert(n > at);
    let kept = comment.take(n - at - 1);
    assert(l =~= prefix + (value + after + seq!['#'] + kept));
    assert(l.subrange(0, prefix.len() as int) =~= prefix);
    assert(l.skip(prefix.len() as int) =~= (value + after) + seq!['#'] + kept);
    assert(text::lacks(value + after, '#')) by {
        assert forall|i: int| 0 <= i < (value + after).len() implies #[trigger] (value + after)[i]
            != '#' by {
            if i < value.len() {
                assert((value + after)[i] == value[i]);
            } else {
                assert((value + after)[i] == after[i - value.len()]);
            }
        }
    }
    text::lemma_position_behind(value + after, '#', kept);
    text::lemma_trimmed_suffix(value, after);
}

/// A line that does not begin with the key and an equals sign, or that has nothing behind it
/// but white space and a comment, gives the key no value.
pub proof fn law_other_line_gives_no_value(
    line: Seq<char>,
    key: Seq<char>,
    before: Seq<char>,
    after: Seq<char>,
    comment: Seq<char>,
)
    requires
        key.len() > 0 && !text::is_white(key[0]),
        text::all_white(before),
        text::all_white(after),
    ensures
        !text::begins_with(text::trimmed(line), key + "="@) ==> line_value(line, key + "="@) is None,
        line_value(before + key + "="@ + after, key + "="@) is None,
        line_value(before + key + "="@ + after + seq!['#'] + comment, key + "="@) is None,
{
    reveal_strlit("=");
    let prefix = key + "="@;
    let bare = before + key + "="@ + after;
    assert(bare =~= before + (prefix + after));
    assert(prefix[0] == key[0]);
    assert(prefix.last() == '=');
    text::lemma_trimmed_both(before, prefix, after);
    assert(prefix.subrange(0, prefix.len() as int) =~= prefix);
    assert(prefix.skip(prefix.len() as int) =~= seq![]);
    text::lemma_no_position(seq![], '#');
    assert(text::trimmed(Seq::<char>::empty()).len() == 0) by {
        battery::lemma_white_line(seq![]);
    }

    let noted = before + key + "="@ + after + seq!['#'] + comment;
    let behind = after + seq!['#'] + comment;
    assert(noted =~= before + (prefix + behind));
    assert((prefix + behind)[0] == key[0]);
    text::lemma_trimmed_prefix(before, prefix + behind);
    let l = text::trimmed(noted);
    let n = text::skip_white_back(prefix + behind, (prefix + behind).len() as int);
    text::lemma_skip_white_back(prefix + behind, (prefix + behind).len() as int);
    let at = prefix.len() + after.len();
    assert((prefix + behind)[at as int] == '#');
    assert(n > at);
    let kept = comment.take(n - at - 1);
    assert(l =~= prefix + (after + seq!['#'] + kept));
    assert(l.subrange(0, prefix.len() as int) =~= prefix);
    assert(l.skip(prefix.len() as int) =~= after + seq!['#'] + kept);
    assert(text::lacks(after, '#')) by {
        assert forall|i: int| 0 <= i < after.len() implies #[trigger] after[i] != '#' by {
            assert(text::is_white(after[i]));
        }
    }
    text::lemma_position_behind(after, '#', kept);
    battery::lemma_white_line(after);
}

/// Whether no line of a text begins with a key and an equals sign.
pub open spec fn lacks_line(content: Seq<char>, key: Seq<char>) -> bool {
    forall|i: int|
        0 <= i < text::line_list(content).len() ==> !text::begins_with(
            text::trimmed(#[trigger] text::line_list(content)[i]),
            key + "="@,
        )
}

proof fn lemma_first_value(
    a: Seq<Seq<char>>,
    b: Seq<Seq<char>>,
    prefix: Seq<char>,
    i: int,
)
    requires
        0 <= i <= a.len(),
        forall|j: int| 0 <= j < a.len() ==> line_value(#[trigger] a[j], prefix) is None,
    ensures
        first_value(a + b, prefix, i) == first_value(b, prefix, 0),
    decreases a.len() - i,
{
    if i < a.len() {
        assert((a + b)[i] == a[i]);
        lemma_first_value(a, b, prefix, i + 1);
    } else {
        lemma_value_shift(a, b, prefix, 0);
    }
}

proof fn lemma_value_shift(a: Seq<Seq<char>>, b: Seq<Seq<char>>, prefix: Seq<char>, i: int)
    requires
        0 <= i <= b.len(),
    ensures
        first_value(a + b, prefix, a.len() + i) == first_value(b, prefix, i),
    decreases b.len() - i,
{
    if i < b.len() {
        assert((a + b)[a.len() + i] == b[i]);
        lemma_value_shift(a, b, prefix, i + 1);
    }
}

/// The first line that gives a key a value decides, whatever lines follow; where none begins
/// with the key, it has no value, and neither has it in a file that cannot be read.
pub proof fn law_first_line_decides(
    before: Seq<char>,
    line: Seq<char>,
    after: Seq<char>,
    key: Seq<char>,
)
    requires
        text::whole_lines(before),
        text::lacks(line, '\n'),
        line.len() == 0 || line.last() != '\r',
        lacks_line(before, key),
    ensures
        conf_value(Some(before), key) is None,
        conf_value(None, key) is None,
        line_value(line, key + "="@) matches Some(v) ==> conf_value(
            Some(before + line + seq!['\n'] + after),
            key,
        ) == Some(v),
        line_value(line, key + "="@) is None ==> conf_value(
            Some(before + line + seq!['\n'] + after),
            key,
        ) == conf_value(Some(before + after), key),
{
    let prefix = key + "="@;
    let a = text::line_list(before);
    let b = text::line_list(after);
    text::law_line_between(before, line, after);
    text::law_lines_add(before, after);
    lemma_first_value(a, seq![], prefix, 0);
    assert(a + seq![] =~= a);
    lemma_first_value(a, seq![line] + b, prefix, 0);
    assert(a + seq![line] + b =~= a + (seq![line] + b));
    lemma_first_value(a, b, prefix, 0);
    assert((seq![line] + b)[0] == line);
    if line_value(line, prefix) is None {
        lemma_first_value(seq![line], b, prefix, 0);
    }
}

/// A line with the colour of the front end sets it to exactly that colour, if no line before
/// begins so. A value of other than three numbers of eight bits, and a file without such a
/// line, leave it at its default.
pub proof fn law_front_end_color(
    before: Seq<char>,
    x: Seq<char>,
    y: Seq<char>,
    r: u8,
    g: u8,
    b: u8,
    after: Seq<char>,
    content: Option<Seq<char>>,
    v: Seq<char>,
)
    requires
        text::whole_lines(before),
        lacks_line(before, "led.colour"@),
        text::all_white(x) && x.len() > 0 && text::lacks(x, '\n'),
        text::all_white(y) && y.len() > 0 && text::lacks(y, '\n'),
    ensures
        es_color(
            Some(
                before + ("led.colour="@ + (text::decimal_text(r as nat) + x + text::decimal_text(
                    g as nat,
                ) + y + text::decimal_text(b as nat))) + seq!['\n'] + after,
            ),
        ) == (r, g, b),
        es_color(Some(before)) == (255u8, 0u8, 165u8),
        es_color(None) == (255u8, 0u8, 165u8),
        conf_value(content, "led.colour"@) == Some(v) && (text::words(v).len() != 3 || text::number(
            text::words(v)[0],
            255,
        ) is None || text::number(text::words(v)[1], 255) is None || text::number(
            text::words(v)[2],
            255,
        ) is None) ==> es_color(content) == (255u8, 0u8, 165u8),
{
    let key = "led.colour"@;
    reveal_strlit("led.colour");
    reveal_strlit("led.colour=");
    reveal_strlit("=");
    assert("led.colour="@ =~= key + "="@);
    let p = text::decimal_text(r as nat);
    let q = text::decimal_text(g as nat);
    let s = text::decimal_text(b as nat);
    let value = p + x + q + y + s;
    text::lemma_decimal_text(r as nat);
    text::lemma_decimal_text(g as nat);
    text::lemma_decimal_text(b as nat);
    text::law_decimal_round_trip(r as nat, 255);
    text::law_decimal_round_trip(g as nat, 255);
    text::law_decimal_round_trip(b as nat, 255);
    let e = Seq::<char>::empty();
    text::law_three_words(e, p, x, q, y, s, e);
    assert(e + p + x + q + y + s + e =~= value);
    assert(text::is_digit(p[0]) && text::is_digit(s.last()));
    assert(value[0] == p[0] && value.last() == s.last());
    lemma_plain_value(p, x, q, y, s);
    law_key_value_is_read(key, value, e, e, e);
    let line = "led.colour="@ + value;
    assert(e + key + "="@ + value + e =~= line);
    assert(line.last() == s.last());
    assert(text::lacks(line, '\n')) by {
        assert forall|i: int| 0 <= i < line.len() implies #[trigger] line[i] != '\n' by {
            if i < 11 {
                assert(line[i] == "led.colour="@[i]);
            } else {
                assert(line[i] == value[i - 11]);
            }
        }
    }
    law_first_line_decides(before, line, after, key);
    law_first_line_decides(before, seq![], seq![], key);
}

/// Three numbers with white space between them hold no comment and no line feed.
proof fn lemma_plain_value(
    p: Seq<char>,
    x: Seq<char>,
    q: Seq<char>,
    y: Seq<char>,
    s: Seq<char>,
)
    requires
        text::all_digits(p) && text::all_digits(q) && text::all_digits(s),
        text::all_white(x) && text::lacks(x, '\n'),
        text::all_white(y) && text::lacks(y, '\n'),
    ensures
        text::lacks(p + x + q + y + s, '#'),
        text::lacks(p + x + q + y + s, '\n'),
{
    let v = p + x + q + y + s;
    let a = p.len() as int;
    let b = a + x.len();
    let c = b + q.len();
    let d = c + y.len();
    assert forall|i: int| 0 <= i < v.len() implies #[trigger] v[i] != '#' && v[i] != '\n' by {
        if i < a {
            assert(v[i] == p[i]);
            assert(text::is_digit(p[i]));
        } else if i < b {
            assert(v[i] == x[i - a]);
            assert(text::is_white(x[i - a]));
        } else if i < c {
            assert(v[i] == q[i - b]);
            assert(text::is_digit(q[i - b]));
        } else if i < d {
            assert(v[i] == y[i - c]);
            assert(text::is_white(y[i - c]));
        } else {
            assert(v[i] == s[i - d]);
            assert(text::is_digit(s[i - d]));
        }
    }
}

/// A line with the brightness sets it to exactly that, if no line before begins so. A value
/// that is no number of eight bits, and a file without such a line, leave it at 128.
pub proof fn law_configured_brightness(
    before: Seq<char>,
    n: u8,
    after: Seq<char>,
    content: Option<Seq<char>>,
    v: Seq<char>,
)
    requires
        text::whole_lines(before),
        lacks_line(before, "led.brightness"@),
    ensures
        brightness(
            Some(
                before + ("led.brightness="@ + text::decimal_text(n as nat)) + seq!['\n'] + after,
            ),
        ) == n,
        brightness(Some(before)) == 128,
        brightness(None) == 128,
        conf_value(content, "led.brightness"@) == Some(v) && text::number(v, 255) is None
            ==> brightness(content) == 128,
{
    let key = "led.brightness"@;
    reveal_strlit("led.brightness");
    reveal_strlit("led.brightness=");
    reveal_strlit("=");
    assert("led.brightness="@ =~= key + "="@);
    let d = text::decimal_text(n as nat);
    text::lemma_decimal_text(n as nat);
    text::law_decimal_round_trip(n as nat, 255);
    assert(text::is_digit(d[0]) && text::is_digit(d.last()));
    let e = Seq::<char>::empty();
    assert(text::lacks(d, '#') && text::lacks(d, '\n')) by {
        assert forall|i: int| 0 <= i < d.len() implies #[trigger] d[i] != '#' && d[i] != '\n' by {
            assert(text::is_digit(d[i]));
        }
    }
    law_key_value_is_read(key, d, e, e, e);
    let line = "led.brightness="@ + d;
    assert(e + key + "="@ + d + e =~= line);
    assert(line.last() == d.last());
    assert(text::lacks(line, '\n')) by {
        assert forall|i: int| 0 <= i < line.len() implies #[trigger] line[i] != '\n' by {
            if i < 15 {
                assert(line[i] == "led.brightness="@[i]);
            } else {
                assert(line[i] == d[i - 15]);
            }
        }
    }
    law_first_line_decides(before, line, after, key);
    law_first_line_decides(before, seq![], seq![], key);
}

} // verus!

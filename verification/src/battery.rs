//! The colour that shows the battery level, and its configuration.
use crate::color;
use crate::text;
use vstd::prelude::*;
use vstd::utf8::*;

verus! {

/// What the LEDs show.
#[derive(Clone, Copy, Debug, PartialEq, Eq, Structural)]
pub enum LedColor {
    /// One colour: red, green, blue.
    Hex(u8, u8, u8),
    /// The current colour, fading out and in again.
    Pulse,
    /// A turn through the colours.
    Rainbow,
    /// Nothing.
    Off,
    /// The colour of the front end.
    EsColor,
}

/// What the LEDs show from a battery level on.
#[derive(Clone, Copy, Debug, PartialEq, Eq, Structural)]
pub struct BatteryThreshold {
    pub percent: u8,
    pub color: LedColor,
}

/// The thresholds where none are configured.
pub open spec fn default_thresholds() -> Seq<BatteryThreshold> {
    seq![
        BatteryThreshold { percent: 100, color: LedColor::Hex(0x00, 0x99, 0x00) },
        BatteryThreshold { percent: 15, color: LedColor::EsColor },
        BatteryThreshold { percent: 10, color: LedColor::Hex(0xCC, 0x33, 0x33) },
        BatteryThreshold { percent: 5, color: LedColor::Hex(0xFF, 0x00, 0x00) },
        BatteryThreshold { percent: 3, color: LedColor::Pulse },
    ]
}

/// The thresholds where none are configured.
pub fn default_battery_config() -> (r: Vec<BatteryThreshold>)
    ensures
        r@ == default_thresholds(),
{
    let r: Vec<BatteryThreshold> = vec![
        BatteryThreshold { percent: 100, color: LedColor::Hex(0x00, 0x99, 0x00) },
        BatteryThreshold { percent: 15, color: LedColor::EsColor },
        BatteryThreshold { percent: 10, color: LedColor::Hex(0xCC, 0x33, 0x33) },
        BatteryThreshold { percent: 5, color: LedColor::Hex(0xFF, 0x00, 0x00) },
        BatteryThreshold { percent: 3, color: LedColor::Pulse },
    ];
    assert(r@ =~= default_thresholds());
    r
}

// ---------------------------------------------------------------------------
// Reading the configuration
// ---------------------------------------------------------------------------

/// What a word of the configuration has the LEDs show: one of four names, or six
/// hexadecimal digits without a number sign.
pub open spec fn named_color(s: Seq<char>) -> Option<LedColor> {
    if s == "PULSE"@ {
        Some(LedColor::Pulse)
    } else if s == "RAINBOW"@ {
        Some(LedColor::Rainbow)
    } else if s == "OFF"@ {
        Some(LedColor::Off)
    } else if s == "ESCOLOR"@ {
        Some(LedColor::EsColor)
    } else if s.len() == 6 {
        match color::hex_color(s) {
            Some((r, g, b)) => Some(LedColor::Hex(r, g, b)),
            None => None,
        }
    } else {
        None
    }
}

/// The level of a line and the word behind its equals sign. Empty lines and comments
/// have none, and a level is at most a hundred.
pub open spec fn level_and_word(line: Seq<char>) -> Option<(u8, Seq<char>)> {
    let l = text::trimmed(line);
    if l.len() == 0 || text::begins_with_char(l, '#') {
        None
    } else {
        match text::after_first(l, '=') {
            Some(rest) => match text::number(text::trimmed(text::before_first(l, '=')), 100) {
                Some(n) => Some((n as u8, text::trimmed(rest))),
                None => None,
            },
            None => None,
        }
    }
}

/// The threshold that a line of the configuration sets.
pub open spec fn threshold_in(line: Seq<char>) -> Option<BatteryThreshold> {
    match level_and_word(line) {
        Some((percent, word)) => match named_color(word) {
            Some(c) => Some(BatteryThreshold { percent, color: c }),
            None => None,
        },
        None => None,
    }
}

/// The thresholds that lines set, in the order of the lines.
pub open spec fn thresholds_in(lines: Seq<Seq<char>>) -> Seq<BatteryThreshold>
    decreases lines.len(),
{
    if lines.len() == 0 {
        seq![]
    } else {
        let rest = thresholds_in(lines.drop_last());
        match threshold_in(lines.last()) {
            Some(t) => rest.push(t),
            None => rest,
        }
    }
}

/// Whether the colour of a line, where it has one of six bytes, can be cut into its
/// components.
pub open spec fn line_cuts(line: Seq<char>) -> bool {
    level_and_word(line) matches Some((percent, word)) ==> encode_utf8(word).len() == 6
        ==> color::hex_cuts(word)
}

/// Whether every colour of a configuration can be cut into its components. In ASCII all
/// of them can.
pub open spec fn config_cuts(content: Option<Seq<char>>) -> bool {
    match content {
        Some(c) => is_ascii_chars(c) || forall|i: int|
            0 <= i < text::line_list(c).len() ==> line_cuts(#[trigger] text::line_list(c)[i]),
        None => true,
    }
}

/// The thresholds of one level, in order.
pub open spec fn at_level(s: Seq<BatteryThreshold>, percent: u8) -> Seq<BatteryThreshold> {
    s.filter(|t: BatteryThreshold| t.percent == percent)
}

/// Whether levels do not rise from one threshold to the next.
pub open spec fn descending(s: Seq<BatteryThreshold>) -> bool {
    forall|i: int, j: int| 0 <= i <= j < s.len() ==> #[trigger] s[i].percent >= #[trigger] s[j].percent
}

/// Whether `sorted` holds the thresholds of `s` from the highest level to the lowest,
/// and those of one level in the order of `s`.
pub open spec fn is_sorted_from(sorted: Seq<BatteryThreshold>, s: Seq<BatteryThreshold>) -> bool {
    &&& descending(sorted)
    &&& forall|p: u8| #[trigger] at_level(sorted, p) == at_level(s, p)
}

/// Six bytes that are a colour are six characters.
proof fn lemma_six_bytes(word: Seq<char>)
    requires
        word == text::trimmed(word),
    ensures
        color::hex_color(word) is Some ==> (encode_utf8(word).len() == 6 <==> word.len() == 6),
{
    if color::hex_color(word) is Some {
        let t = color::hex_digits(word);
        text::lemma_skip_char(word, '#', 0);
        color::lemma_hex_color_bytes(word);
        if word.len() == 6 {
            assert(t =~= word);
        }
        if encode_utf8(word).len() == 6 {
            color::lemma_bytes_at_least(word);
            assert(word.len() == 6);
        }
    }
}

/// Reads what a word of the configuration has the LEDs show.
fn parse_color_word(word: &str) -> (r: Option<LedColor>)
    requires
        word@ == text::trimmed(word@),
        encode_utf8(word@).len() == 6 ==> color::hex_cuts(word@),
    ensures
        r == named_color(word@),
{
    if text::same(word, "PULSE") {
        return Some(LedColor::Pulse);
    }
    if text::same(word, "RAINBOW") {
        return Some(LedColor::Rainbow);
    }
    if text::same(word, "OFF") {
        return Some(LedColor::Off);
    }
    if text::same(word, "ESCOLOR") {
        return Some(LedColor::EsColor);
    }
    proof {
        lemma_six_bytes(word@);
    }
    if word.as_bytes().len() == 6 {
        match color::parse_hex_color(word) {
            Some((r, g, b)) => Some(LedColor::Hex(r, g, b)),
            None => None,
        }
    } else {
        None
    }
}

/// Splits a line of the configuration into its level and the word behind it.
fn split_line(line: &str) -> (r: Option<(u8, &str)>)
    ensures
        r matches Some((percent, word)) ==> level_and_word(line@) == Some((percent, word@)),
        r is None ==> level_and_word(line@) is None,
{
    let l = text::trim(line);
    if l.is_empty() || text::starts_with_char(l, '#') {
        return None;
    }
    let (before, after) = text::split_first(l, '=');
    let rest = match after {
        Some(s) => s,
        None => return None,
    };
    match text::parse_number(text::trim(before), 100) {
        Some(n) => Some((n as u8, text::trim(rest))),
        None => None,
    }
}

/// Reads one line of the configuration.
pub fn parse_battery_line(line: &str) -> (r: Option<BatteryThreshold>)
    requires
        line_cuts(line@),
    ensures
        r == threshold_in(line@),
{
    match split_line(line) {
        Some((percent, word)) => {
            proof {
                text::lemma_trimmed_again(level_rest(line@));
            }
            match parse_color_word(word) {
                Some(c) => Some(BatteryThreshold { percent, color: c }),
                None => None,
            }
        },
        None => None,
    }
}

/// What stands behind the equals sign of a line.
spec fn level_rest(line: Seq<char>) -> Seq<char> {
    text::after_first(text::trimmed(line), '=')->Some_0
}

// ---------------------------------------------------------------------------
// ASCII configurations
// ---------------------------------------------------------------------------

/// A line of ASCII can be cut.
proof fn lemma_ascii_line_cuts(line: Seq<char>)
    requires
        is_ascii_chars(line),
    ensures
        line_cuts(line),
{
    if let Some((percent, word)) = level_and_word(line) {
        let l = text::trimmed(line);
        text::lemma_trimmed_ascii(line);
        text::lemma_position_from(l, '=', 0);
        let rest = level_rest(line);
        assert(is_ascii_chars(rest));
        text::lemma_trimmed_ascii(rest);
        color::lemma_ascii_cuts_anywhere(word);
    }
}

/// A configuration that can be cut can be cut in every line.
proof fn lemma_config_cuts(content: Seq<char>, i: int)
    requires
        config_cuts(Some(content)),
        0 <= i < text::line_list(content).len(),
    ensures
        line_cuts(text::line_list(content)[i]),
{
    if is_ascii_chars(content) {
        text::lemma_lines_ascii(content, 0, i);
        lemma_ascii_line_cuts(text::line_list(content)[i]);
    }
}

/// Tests whether the colour of a line can be cut into its components.
fn line_can_be_cut(line: &str) -> (r: bool)
    ensures
        r == line_cuts(line@),
{
    match split_line(line) {
        Some((percent, word)) => if word.as_bytes().len() == 6 {
            color::hex_color_cuts(word)
        } else {
            true
        },
        None => true,
    }
}

/// Tests whether every colour of a configuration can be cut into its components.
pub fn battery_config_cuts(content: Option<&str>) -> (r: bool)
    ensures
        r == config_cuts(text::optional_view(content)),
{
    let source = match content {
        Some(c) => c,
        None => return true,
    };
    let lines = text::lines(source);
    let ghost list = text::line_list(source@);
    assert(text::views(lines@).len() == lines@.len());
    let mut i: usize = 0;
    while i < lines.len()
        invariant
            i <= lines.len(),
            lines@.len() == list.len(),
            text::views(lines@) == list,
            list == text::line_list(source@),
            content == Some(source),
            forall|k: int| 0 <= k < i ==> line_cuts(#[trigger] list[k]),
        decreases lines.len() - i,
    {
        assert(list[i as int] == lines@[i as int]@);
        if !line_can_be_cut(lines[i]) {
            proof {
                if config_cuts(Some(source@)) {
                    lemma_config_cuts(source@, i as int);
                }
            }
            return false;
        }
        i += 1;
    }
    true
}

// ---------------------------------------------------------------------------
// Sorting
// ---------------------------------------------------------------------------

/// Where a threshold is put into a sorted list, it comes behind those of its level.
proof fn lemma_insert(
    sorted: Seq<BatteryThreshold>,
    s: Seq<BatteryThreshold>,
    k: int,
    t: BatteryThreshold,
)
    requires
        is_sorted_from(sorted, s),
        0 <= k <= sorted.len(),
        forall|i: int| 0 <= i < k ==> (#[trigger] sorted[i]).percent >= t.percent,
        k < sorted.len() ==> sorted[k].percent < t.percent,
    ensures
        is_sorted_from(sorted.insert(k, t), s.push(t)),
{
    let after = sorted.insert(k, t);
    assert forall|i: int, j: int| 0 <= i <= j < after.len() implies #[trigger] after[i].percent
        >= #[trigger] after[j].percent by {
        let a = if i < k { i } else { i - 1 };
        let b = if j < k { j } else { j - 1 };
        if i != k {
            assert(after[i] == sorted[a]);
        }
        if j != k {
            assert(after[j] == sorted[b]);
        }
        if i == k && j > k {
            assert(sorted[k].percent >= sorted[b].percent);
        }
    }
    assert forall|p: u8| #[trigger] at_level(after, p) == at_level(s.push(t), p) by {
        let pred = |x: BatteryThreshold| x.percent == p;
        let front = sorted.take(k);
        let back = sorted.skip(k);
        assert(sorted =~= front + back);
        assert(after =~= front + (seq![t] + back));
        Seq::filter_distributes_over_add(front, back, pred);
        Seq::filter_distributes_over_add(front, seq![t] + back, pred);
        Seq::filter_distributes_over_add(seq![t], back, pred);
        assert(s.push(t) =~= s + seq![t]);
        Seq::filter_distributes_over_add(s, seq![t], pred);
        assert(at_level(sorted, p) == at_level(s, p));
        if p == t.percent {
            assert forall|i: int| 0 <= i < back.len() implies !pred(#[trigger] back[i]) by {
                assert(sorted[k].percent >= sorted[k + i].percent);
            }
            lemma_filter_none(back, pred);
            assert(after.filter(pred) =~= s.push(t).filter(pred));
        } else {
            assert(seq![t].filter(pred) =~= seq![]) by {
                lemma_filter_none(seq![t], pred);
            }
            assert(after.filter(pred) =~= s.push(t).filter(pred));
        }
    }
}

proof fn lemma_filter_none(s: Seq<BatteryThreshold>, pred: spec_fn(BatteryThreshold) -> bool)
    requires
        forall|i: int| 0 <= i < s.len() ==> !pred(#[trigger] s[i]),
    ensures
        s.filter(pred) == Seq::<BatteryThreshold>::empty(),
    decreases s.len(),
{
    reveal(Seq::filter);
    if s.len() > 0 {
        lemma_filter_none(s.drop_last(), pred);
        assert(!pred(s.last()));
    }
}

/// Sorts thresholds from the highest level to the lowest.
fn sort_thresholds(s: &Vec<BatteryThreshold>) -> (r: Vec<BatteryThreshold>)
    ensures
        is_sorted_from(r@, s@),
        r@.len() == s@.len(),
{
    let mut sorted: Vec<BatteryThreshold> = Vec::new();
    let mut i: usize = 0;
    assert(s@.take(0) =~= sorted@);
    while i < s.len()
        invariant
            i <= s.len(),
            sorted@.len() == i,
            is_sorted_from(sorted@, s@.take(i as int)),
        decreases s.len() - i,
    {
        let t = s[i];
        let mut k: usize = 0;
        while k < sorted.len() && sorted[k].percent >= t.percent
            invariant
                k <= sorted.len(),
                forall|j: int| 0 <= j < k ==> (#[trigger] sorted@[j]).percent >= t.percent,
            decreases sorted.len() - k,
        {
            k += 1;
        }
        proof {
            lemma_insert(sorted@, s@.take(i as int), k as int, t);
            assert(s@.take(i + 1) =~= s@.take(i as int).push(t));
        }
        sorted.insert(k, t);
        i += 1;
    }
    assert(s@.take(i as int) =~= s@);
    sorted
}

/// The thresholds in the contents of the configuration file, or in `None` where the file
/// cannot be read: from the highest level to the lowest, or the default ones where there
/// are none.
pub fn load_battery_config(content: Option<&str>) -> (r: Vec<BatteryThreshold>)
    requires
        config_cuts(text::optional_view(content)),
    ensures
        ({
            let set = match content {
                Some(c) => thresholds_in(text::line_list(c@)),
                None => seq![],
            };
            if set.len() == 0 {
                r@ == default_thresholds()
            } else {
                is_sorted_from(r@, set)
            }
        }),
        descending(r@),
        r@.len() > 0,
{
    let source = match content {
        Some(c) => c,
        None => return default_battery_config(),
    };
    let lines = text::lines(source);
    let ghost list = text::line_list(source@);
    assert(text::views(lines@).len() == lines@.len());
    let mut thresholds: Vec<BatteryThreshold> = Vec::new();
    let mut i: usize = 0;
    assert(thresholds@ =~= thresholds_in(list.take(0)));
    while i < lines.len()
        invariant
            i <= lines.len(),
            lines@.len() == list.len(),
            text::views(lines@) == list,
            list == text::line_list(source@),
            content == Some(source),
            config_cuts(text::optional_view(content)),
            thresholds@ == thresholds_in(list.take(i as int)),
        decreases lines.len() - i,
    {
        assert(list[i as int] == lines@[i as int]@);
        assert(list.take(i + 1).drop_last() =~= list.take(i as int));
        assert(list.take(i + 1).last() == list[i as int]);
        proof {
            lemma_config_cuts(source@, i as int);
        }
        if let Some(t) = parse_battery_line(lines[i]) {
            thresholds.push(t);
        }
        i += 1;
    }
    assert(list.take(i as int) =~= list);
    if thresholds.len() == 0 {
        return default_battery_config();
    }
    sort_thresholds(&thresholds)
}

// ---------------------------------------------------------------------------
// Choosing the colour
// ---------------------------------------------------------------------------

/// The first threshold from `i` on that a level reaches, or else the last one.
pub open spec fn reached_from(level: u8, thresholds: Seq<BatteryThreshold>, i: int) -> int
    decreases thresholds.len() - i,
{
    if i < 0 || i >= thresholds.len() {
        thresholds.len() - 1
    } else if level >= thresholds[i].percent {
        i
    } else {
        reached_from(level, thresholds, i + 1)
    }
}

/// The threshold that decides at a level.
pub open spec fn decisive(level: u8, thresholds: Seq<BatteryThreshold>) -> BatteryThreshold {
    thresholds[reached_from(level, thresholds, 0)]
}

/// What the LEDs show at a battery level.
pub fn color_for_battery(percent: u8, thresholds: &[BatteryThreshold]) -> (r: &LedColor)
    requires
        thresholds@.len() > 0,
    ensures
        *r == decisive(percent, thresholds@).color,
        exists|k: int|
            #[trigger] is_first_reached(percent, thresholds@, k) && *r == thresholds@[k].color,
{
    proof {
        law_first_reached_decides(percent, thresholds@);
    }
    let mut i: usize = 0;
    while i < thresholds.len()
        invariant
            i <= thresholds.len(),
            reached_from(percent, thresholds@, i as int) == reached_from(percent, thresholds@, 0),
            is_first_reached(percent, thresholds@, reached_from(percent, thresholds@, 0)),
        decreases thresholds.len() - i,
    {
        if percent >= thresholds[i].percent {
            return &thresholds[i].color;
        }
        i += 1;
    }
    &thresholds[thresholds.len() - 1].color
}

/// Whether the threshold with index `k` is the first that a level reaches; where it reaches
/// none, that is the last one.
pub open spec fn is_first_reached(level: u8, thresholds: Seq<BatteryThreshold>, k: int) -> bool {
    &&& 0 <= k < thresholds.len()
    &&& forall|j: int| 0 <= j < k ==> level < (#[trigger] thresholds[j]).percent
    &&& thresholds[k].percent <= level || k == thresholds.len() - 1
}

/// The level that counts: a battery that is charging counts as full, and one that is not
/// counts as less than full.
pub open spec fn effective(capacity: u8, charging: bool) -> u8 {
    if charging {
        100
    } else if capacity >= 100 {
        99
    } else {
        capacity
    }
}

/// The level that counts for the colour.
pub fn effective_level(capacity: u8, charging: bool) -> (r: u8)
    ensures
        r == effective(capacity, charging),
        r == 100 <==> charging,
        r <= 100,
        !charging && capacity < 100 ==> r == capacity,
        !charging && capacity >= 100 ==> r == 99,
{
    if charging {
        100
    } else if capacity >= 100 {
        99
    } else {
        capacity
    }
}

// ---------------------------------------------------------------------------
// Reading the battery
// ---------------------------------------------------------------------------

/// Reads the capacity and whether the battery is charging from the contents of its
/// files. A full battery counts as charging.
pub fn read_battery(capacity: &str, status: &str) -> (r: (u8, bool))
    ensures
        r.0 == text::u8_or(text::trimmed(capacity@), 0),
        r.1 == (text::trimmed(status@) == "Charging"@ || text::trimmed(status@) == "Full"@),
{
    let s = text::trim(status);
    (
        text::parse_u8_or(text::trim(capacity), 0),
        text::same(s, "Charging") || text::same(s, "Full"),
    )
}

/// What is known of a power supply: what its file `type` holds (nothing, where it cannot
/// be read), and whether it has a file `capacity`.
pub struct SupplyProbe {
    pub kind: String,
    pub has_capacity: bool,
}

impl SupplyProbe {
    /// Whether the supply is a battery whose level can be read.
    pub open spec fn is_battery(self) -> bool {
        text::trimmed(self.kind@) == "Battery"@ && self.has_capacity
    }
}

/// Finds the first battery among the power supplies.
pub fn find_battery_path(supplies: &Vec<SupplyProbe>) -> (r: Option<usize>)
    ensures
        r matches Some(i) ==> i < supplies@.len() && supplies@[i as int].is_battery() && forall|k: int|
            0 <= k < i ==> !(#[trigger] supplies@[k]).is_battery(),
        r is None ==> forall|k: int|
            0 <= k < supplies@.len() ==> !(#[trigger] supplies@[k]).is_battery(),
{
    let mut i: usize = 0;
    while i < supplies.len()
        invariant
            i <= supplies.len(),
            forall|k: int| 0 <= k < i ==> !(#[trigger] supplies@[k]).is_battery(),
        decreases supplies.len() - i,
    {
        let supply = &supplies[i];
        if text::same(text::trim(supply.kind.as_str()), "Battery") && supply.has_capacity {
            return Some(i);
        }
        i += 1;
    }
    None
}

// ---------------------------------------------------------------------------
// Laws
// ---------------------------------------------------------------------------

proof fn lemma_reached_from(level: u8, thresholds: Seq<BatteryThreshold>, i: int)
    requires
        0 <= i <= thresholds.len(),
        thresholds.len() > 0,
    ensures
        ({
            let k = reached_from(level, thresholds, i);
            &&& 0 <= k < thresholds.len()
            &&& forall|j: int| i <= j < k ==> level < (#[trigger] thresholds[j]).percent
            &&& level < thresholds[k].percent ==> k == thresholds.len() - 1
        }) || i == thresholds.len(),
    decreases thresholds.len() - i,
{
    if i < thresholds.len() && level < thresholds[i].percent {
        lemma_reached_from(level, thresholds, i + 1);
    }
}

/// In a list that descends, the threshold that decides is the highest that the level
/// reaches; where the level reaches none, it is the lowest of all.
pub proof fn law_highest_reached_decides(level: u8, thresholds: Seq<BatteryThreshold>)
    requires
        thresholds.len() > 0,
        descending(thresholds),
    ensures
        thresholds.contains(decisive(level, thresholds)),
        decisive(level, thresholds).percent <= level ==> forall|j: int|
            0 <= j < thresholds.len() && (#[trigger] thresholds[j]).percent <= level
                ==> thresholds[j].percent <= decisive(level, thresholds).percent,
        decisive(level, thresholds).percent > level ==> forall|j: int|
            0 <= j < thresholds.len() ==> (#[trigger] thresholds[j]).percent > level
                && thresholds[j].percent >= decisive(level, thresholds).percent,
{
    lemma_reached_from(level, thresholds, 0);
    let k = reached_from(level, thresholds, 0);
    assert forall|j: int| 0 <= j < thresholds.len() implies (j <= k ==> (
    #[trigger] thresholds[j]).percent >= thresholds[k].percent) && (j >= k ==> thresholds[j].percent
        <= thresholds[k].percent) by {
        if j <= k {
            assert(thresholds[j].percent >= thresholds[k].percent);
        } else {
            assert(thresholds[k].percent >= thresholds[j].percent);
        }
    }
}

/// Only one list holds given thresholds in sorted order.
pub proof fn law_sorting_is_unique(
    a: Seq<BatteryThreshold>,
    b: Seq<BatteryThreshold>,
    s: Seq<BatteryThreshold>,
)
    requires
        is_sorted_from(a, s),
        is_sorted_from(b, s),
    ensures
        a == b,
{
    assert forall|p: u8| #[trigger] at_level(a, p) == at_level(b, p) by {
        assert(at_level(a, p) == at_level(s, p));
        assert(at_level(b, p) == at_level(s, p));
    }
    lemma_same_levels(a, b);
}

proof fn lemma_same_levels(a: Seq<BatteryThreshold>, b: Seq<BatteryThreshold>)
    requires
        descending(a),
        descending(b),
        forall|p: u8| #[trigger] at_level(a, p) == at_level(b, p),
    ensures
        a == b,
    decreases a.len(),
{
    if a.len() == 0 {
        if b.len() > 0 {
            lemma_level_of_first(b);
            assert(at_level(a, b[0].percent) =~= seq![]) by {
                reveal(Seq::filter);
            }
        }
        assert(a =~= b);
    } else {
        lemma_level_of_first(a);
        let p = a[0].percent;
        assert(at_level(b, p).len() > 0);
        if b.len() == 0 {
            reveal(Seq::filter);
            assert(false);
        }
        lemma_level_of_first(b);
        let q = b[0].percent;
        assert(at_level(a, q).len() > 0);
        lemma_level_occurs(b, p);
        lemma_level_occurs(a, q);
        assert(p == q);
        assert(a[0] == b[0]);
        let a1 = a.drop_first();
        let b1 = b.drop_first();
        assert forall|x: u8| #[trigger] at_level(a1, x) == at_level(b1, x) by {
            let pred = |t: BatteryThreshold| t.percent == x;
            assert(a =~= seq![a[0]] + a1);
            assert(b =~= seq![a[0]] + b1);
            Seq::filter_distributes_over_add(seq![a[0]], a1, pred);
            Seq::filter_distributes_over_add(seq![a[0]], b1, pred);
            let h = seq![a[0]].filter(pred);
            assert(at_level(a, x) == at_level(b, x));
            assert(h + a1.filter(pred) == h + b1.filter(pred));
            assert(a1.filter(pred) =~= (h + a1.filter(pred)).skip(h.len() as int));
            assert(b1.filter(pred) =~= (h + b1.filter(pred)).skip(h.len() as int));
        }
        assert forall|i: int, j: int| 0 <= i <= j < a1.len() implies #[trigger] a1[i].percent
            >= #[trigger] a1[j].percent by {
            assert(a[i + 1].percent >= a[j + 1].percent);
        }
        assert forall|i: int, j: int| 0 <= i <= j < b1.len() implies #[trigger] b1[i].percent
            >= #[trigger] b1[j].percent by {
            assert(b[i + 1].percent >= b[j + 1].percent);
        }
        lemma_same_levels(a1, b1);
        assert(a =~= seq![a[0]] + a1);
        assert(b =~= seq![b[0]] + b1);
    }
}

/// The first threshold is the first of its level.
proof fn lemma_level_of_first(s: Seq<BatteryThreshold>)
    requires
        s.len() > 0,
    ensures
        at_level(s, s[0].percent).len() > 0,
        at_level(s, s[0].percent)[0] == s[0],
{
    let pred = |t: BatteryThreshold| t.percent == s[0].percent;
    let rest = s.drop_first();
    assert(s =~= seq![s[0]] + rest);
    Seq::filter_distributes_over_add(seq![s[0]], rest, pred);
    assert(seq![s[0]].filter(pred) =~= seq![s[0]]) by {
        reveal(Seq::filter);
        assert(seq![s[0]].drop_last() =~= seq![]);
        assert(seq![s[0]].drop_last().filter(pred) =~= seq![]);
        assert(pred(seq![s[0]].last()));
    }
}

/// A level that occurs is at most the first level of a list that descends.
proof fn lemma_level_occurs(s: Seq<BatteryThreshold>, p: u8)
    requires
        descending(s),
        s.len() > 0,
        at_level(s, p).len() > 0,
    ensures
        p <= s[0].percent,
{
    let pred = |t: BatteryThreshold| t.percent == p;
    if p > s[0].percent {
        assert forall|i: int| 0 <= i < s.len() implies !pred(#[trigger] s[i]) by {
            assert(s[0].percent >= s[i].percent);
        }
        lemma_filter_none(s, pred);
    }
}

/// A line with a level, an equals sign and the six digits of a colour sets that colour from
/// that level on.
pub proof fn law_threshold_is_read(percent: u8, r: u8, g: u8, b: u8)
    requires
        percent <= 100,
    ensures
        threshold_in(text::decimal_text(percent as nat) + "="@ + color::hex_text(r, g, b)) == Some(
            BatteryThreshold { percent, color: LedColor::Hex(r, g, b) },
        ),
        line_cuts(text::decimal_text(percent as nat) + "="@ + color::hex_text(r, g, b)),
{
    reveal_strlit("=");
    reveal_strlit("PULSE");
    reveal_strlit("RAINBOW");
    reveal_strlit("OFF");
    reveal_strlit("ESCOLOR");
    let d = text::decimal_text(percent as nat);
    let h = color::hex_text(r, g, b);
    let line = d + "="@ + h;
    assert("="@ =~= seq!['=']);
    text::lemma_decimal_text(percent as nat);
    text::law_decimal_round_trip(percent as nat, 100);
    color::law_hex_text_round_trip(r, g, b, 0, seq![]);
    assert(Seq::new(0, |i: int| '#') + h + seq![] =~= h);
    assert(text::is_digit(d[0]));
    assert(line[0] == d[0]);
    assert(line.last() == h[5]);
    text::lemma_trimmed_suffix(line, seq![]);
    assert(line + seq![] =~= line);
    assert(text::lacks(d, '=')) by {
        assert forall|i: int| 0 <= i < d.len() implies #[trigger] d[i] != '=' by {
            assert(text::is_digit(d[i]));
        }
    }
    text::lemma_position_behind(d, '=', h);
    assert(text::is_digit(d.last()));
    text::lemma_trimmed_suffix(d, seq![]);
    assert(d + seq![] =~= d);
    text::lemma_trimmed_suffix(h, seq![]);
    assert(h + seq![] =~= h);
}

/// The threshold that decides is the first that the level reaches, or the last of all.
pub proof fn law_first_reached_decides(level: u8, thresholds: Seq<BatteryThreshold>)
    requires
        thresholds.len() > 0,
    ensures
        is_first_reached(level, thresholds, reached_from(level, thresholds, 0)),
        exists|k: int|
            #[trigger] is_first_reached(level, thresholds, k) && decisive(level, thresholds)
                == thresholds[k],
{
    lemma_reached_from(level, thresholds, 0);
    assert(is_first_reached(level, thresholds, reached_from(level, thresholds, 0)));
}

/// A battery that is not charging counts with its own capacity as long as that is below a
/// hundred, and with 99 otherwise; one that is charging counts with a hundred.
pub proof fn law_capacity_counts(capacity: u8)
    ensures
        effective(capacity, true) == 100,
        capacity < 100 ==> effective(capacity, false) == capacity,
        capacity >= 100 ==> effective(capacity, false) == 99,
{
}

// ---------------------------------------------------------------------------
// Laws on lines
// ---------------------------------------------------------------------------

/// A text that does not begin or end with white space is trimmed to itself.
proof fn lemma_plain(s: Seq<char>)
    requires
        s.len() > 0 && !text::is_white(s[0]) && !text::is_white(s.last()),
    ensures
        text::trimmed(s) == s,
{
    text::lemma_trimmed_suffix(s, seq![]);
    assert(s + seq![] =~= s);
}

/// A line is split at its equals sign, whatever white space stands around its parts.
proof fn lemma_level_and_word(
    before: Seq<char>,
    d: Seq<char>,
    v: Seq<char>,
    w: Seq<char>,
    word: Seq<char>,
    after: Seq<char>,
)
    requires
        text::all_white(before) && text::all_white(v) && text::all_white(w) && text::all_white(
            after,
        ),
        d.len() > 0 && !text::is_white(d[0]) && !text::is_white(d.last()) && d[0] != '#',
        text::lacks(d, '='),
        word.len() > 0 && !text::is_white(word[0]) && !text::is_white(word.last()),
    ensures
        level_and_word(before + d + v + seq!['='] + w + word + after) == (match text::number(
            d,
            100,
        ) {
            Some(n) => Some((n as u8, word)),
            None => None,
        }),
{
    let line = before + d + v + seq!['='] + w + word + after;
    let l = d + v + seq!['='] + (w + word);
    assert(line =~= before + (l + after));
    assert(l[0] == d[0]);
    assert(l.last() == word.last());
    text::lemma_trimmed_both(before, l, after);
    assert(text::lacks(d + v, '=')) by {
        assert forall|i: int| 0 <= i < (d + v).len() implies #[trigger] (d + v)[i] != '=' by {
            if i < d.len() {
                assert((d + v)[i] == d[i]);
            } else {
                assert((d + v)[i] == v[i - d.len()]);
            }
        }
    }
    text::lemma_position_behind(d + v, '=', w + word);
    text::lemma_trimmed_suffix(d, v);
    text::lemma_trimmed_both(w, word, seq![]);
    assert(word + seq![] =~= word);
}

/// A line sets the colour that its six digits of either case write, or that its name stands
/// for, from its level on, whatever white space stands around its parts. A line with a level
/// above a hundred sets nothing.
pub proof fn law_line_sets_threshold(
    before: Seq<char>,
    percent: nat,
    v: Seq<char>,
    w: Seq<char>,
    word: Seq<char>,
    after: Seq<char>,
    r: u8,
    g: u8,
    b: u8,
)
    requires
        text::all_white(before) && text::all_white(v) && text::all_white(w) && text::all_white(
            after,
        ),
    ensures
        ({
            let d = text::decimal_text(percent);
            let p = percent as u8;
            let digits = before + d + v + seq!['='] + w + word + after;
            let pulse = before + d + v + seq!['='] + w + "PULSE"@ + after;
            let rainbow = before + d + v + seq!['='] + w + "RAINBOW"@ + after;
            let off = before + d + v + seq!['='] + w + "OFF"@ + after;
            let es = before + d + v + seq!['='] + w + "ESCOLOR"@ + after;
            if percent <= 100 {
                &&& color::writes_hex(word, r, g, b) ==> threshold_in(digits) == Some(
                    BatteryThreshold { percent: p, color: LedColor::Hex(r, g, b) },
                )
                &&& threshold_in(pulse) == Some(
                    BatteryThreshold { percent: p, color: LedColor::Pulse },
                )
                &&& threshold_in(rainbow) == Some(
                    BatteryThreshold { percent: p, color: LedColor::Rainbow },
                )
                &&& threshold_in(off) == Some(
                    BatteryThreshold { percent: p, color: LedColor::Off },
                )
                &&& threshold_in(es) == Some(
                    BatteryThreshold { percent: p, color: LedColor::EsColor },
                )
            } else {
                &&& color::writes_hex(word, r, g, b) ==> threshold_in(digits) is None
                &&& threshold_in(pulse) is None
                &&& threshold_in(rainbow) is None
                &&& threshold_in(off) is None
                &&& threshold_in(es) is None
            }
        }),
{
    reveal_strlit("PULSE");
    reveal_strlit("RAINBOW");
    reveal_strlit("OFF");
    reveal_strlit("ESCOLOR");
    let d = text::decimal_text(percent);
    text::lemma_decimal_text(percent);
    text::law_zeros_and_sign_do_not_count(percent, 100, 0);
    assert(Seq::new(0, |i: int| '0') + d =~= d);
    assert(text::is_digit(d[0]));
    assert(text::is_digit(d.last()));
    assert(text::lacks(d, '=')) by {
        assert forall|i: int| 0 <= i < d.len() implies #[trigger] d[i] != '=' by {
            assert(text::is_digit(d[i]));
        }
    }
    lemma_level_and_word(before, d, v, w, "PULSE"@, after);
    lemma_level_and_word(before, d, v, w, "RAINBOW"@, after);
    lemma_level_and_word(before, d, v, w, "OFF"@, after);
    lemma_level_and_word(before, d, v, w, "ESCOLOR"@, after);
    assert("RAINBOW"@[0] != "ESCOLOR"@[0]);
    if color::writes_hex(word, r, g, b) {
        color::law_hex_color_is_read(word, r, g, b, seq![], 0, seq![]);
        assert(seq![] + Seq::new(0, |i: int| '#') + word + seq![] =~= word);
        color::lemma_hex_is_plain(word, r, g, b);
        lemma_level_and_word(before, d, v, w, word, after);
    }
}

/// Empty lines, comments and lines without an equals sign set nothing.
pub proof fn law_other_lines_set_nothing(
    before: Seq<char>,
    comment: Seq<char>,
    line: Seq<char>,
)
    requires
        text::all_white(before),
        text::lacks(line, '='),
    ensures
        threshold_in(before) is None,
        threshold_in(before + seq!['#'] + comment) is None,
        threshold_in(line) is None,
{
    lemma_comment(before, comment);
    lemma_white_line(before);
    lemma_trimmed_lacks(line, '=');
    text::lemma_no_position(text::trimmed(line), '=');
}

/// White space is trimmed to nothing.
pub proof fn lemma_white_line(w: Seq<char>)
    requires
        text::all_white(w),
    ensures
        text::trimmed(w).len() == 0,
{
    text::lemma_trimmed_prefix(w, seq![]);
    assert(w + seq![] =~= w);
}

/// A line whose first character behind white space is a number sign is a comment.
pub proof fn lemma_comment(before: Seq<char>, comment: Seq<char>)
    requires
        text::all_white(before),
    ensures
        text::begins_with_char(text::trimmed(before + seq!['#'] + comment), '#'),
{
    let t = seq!['#'] + comment;
    assert(before + seq!['#'] + comment =~= before + t);
    assert(t[0] == '#');
    text::lemma_trimmed_prefix(before, t);
    text::lemma_skip_white_back(t, t.len() as int);
    let j = text::skip_white_back(t, t.len() as int);
    if j == 0 {
        assert(text::is_white(t[0]));
    }
}

/// What is trimmed holds no character that the text did not hold.
pub proof fn lemma_trimmed_lacks(s: Seq<char>, c: char)
    requires
        text::lacks(s, c),
    ensures
        text::lacks(text::trimmed(s), c),
{
    text::lemma_skip_white(s, 0);
    let a = text::trimmed_start(s);
    text::lemma_skip_white_back(a, a.len() as int);
    let t = text::trimmed(s);
    let k = text::skip_white(s, 0);
    assert forall|i: int| 0 <= i < t.len() implies #[trigger] t[i] != c by {
        assert(t[i] == s[k + i]);
    }
}

/// What is neither a number up to a hundred before the equals sign nor a colour behind it
/// makes a line set nothing.
pub proof fn law_bad_parts_set_nothing(
    before: Seq<char>,
    d: Seq<char>,
    v: Seq<char>,
    w: Seq<char>,
    word: Seq<char>,
    after: Seq<char>,
)
    requires
        text::all_white(before) && text::all_white(v) && text::all_white(w) && text::all_white(
            after,
        ),
        d.len() > 0 && !text::is_white(d[0]) && !text::is_white(d.last()) && d[0] != '#',
        text::lacks(d, '='),
        word.len() > 0 && !text::is_white(word[0]) && !text::is_white(word.last()),
        text::number(d, 100) is None || (word != "PULSE"@ && word != "RAINBOW"@ && word != "OFF"@
            && word != "ESCOLOR"@ && (word.len() != 6 || color::hex_color(word) is None)),
    ensures
        threshold_in(before + d + v + seq!['='] + w + word + after) is None,
{
    lemma_level_and_word(before, d, v, w, word, after);
}

/// The thresholds of lines, one behind the other, are those of the first and then those of
/// the second.
pub proof fn law_thresholds_add(a: Seq<Seq<char>>, b: Seq<Seq<char>>)
    ensures
        thresholds_in(a + b) == thresholds_in(a) + thresholds_in(b),
    decreases b.len(),
{
    if b.len() == 0 {
        assert(a + b =~= a);
        assert(thresholds_in(a) + thresholds_in(b) =~= thresholds_in(a));
    } else {
        assert((a + b).drop_last() =~= a + b.drop_last());
        assert((a + b).last() == b.last());
        law_thresholds_add(a, b.drop_last());
        assert(thresholds_in(a + b) =~= thresholds_in(a) + thresholds_in(b));
    }
}

/// One more line in a file gives the file one more threshold, if the line sets one, and
/// leaves the others and their order as they are.
pub proof fn law_line_adds_threshold(before: Seq<char>, line: Seq<char>, after: Seq<char>)
    requires
        text::whole_lines(before),
        text::lacks(line, '\n'),
        line.len() == 0 || line.last() != '\r',
    ensures
        ({
            let a = thresholds_in(text::line_list(before));
            let b = thresholds_in(text::line_list(after));
            let all = thresholds_in(text::line_list(before + line + seq!['\n'] + after));
            match threshold_in(line) {
                Some(t) => all == a.push(t) + b,
                None => all == a + b,
            }
        }),
{
    let x = text::line_list(before);
    let y = text::line_list(after);
    text::law_line_between(before, line, after);
    law_thresholds_add(x + seq![line], y);
    law_thresholds_add(x, seq![line]);
    assert(seq![line].drop_last() =~= seq![]);
    assert(thresholds_in(seq![line].drop_last()) =~= seq![]);
    match threshold_in(line) {
        Some(t) => {
            assert(thresholds_in(seq![line]) =~= seq![t]);
            assert(thresholds_in(x) + seq![t] =~= thresholds_in(x).push(t));
        },
        None => {
            assert(thresholds_in(seq![line]) =~= seq![]);
            assert(thresholds_in(x) + seq![] =~= thresholds_in(x));
        },
    }
}

/// A sorted list holds the thresholds that it was sorted from, and no others, as often.
pub proof fn law_sorting_keeps_thresholds(
    sorted: Seq<BatteryThreshold>,
    s: Seq<BatteryThreshold>,
    t: BatteryThreshold,
)
    requires
        is_sorted_from(sorted, s),
    ensures
        sorted.contains(t) <==> s.contains(t),
        forall|i: int, j: int|
            0 <= i <= j < sorted.len() ==> #[trigger] sorted[i].percent
                >= #[trigger] sorted[j].percent,
        sorted.filter(|x: BatteryThreshold| x.percent == t.percent) == s.filter(
            |x: BatteryThreshold| x.percent == t.percent,
        ),
{
    let pred = |x: BatteryThreshold| x.percent == t.percent;
    assert(at_level(sorted, t.percent) == at_level(s, t.percent));
    lemma_filter_holds(sorted, pred, t);
    lemma_filter_holds(s, pred, t);
}

proof fn lemma_filter_holds(
    s: Seq<BatteryThreshold>,
    pred: spec_fn(BatteryThreshold) -> bool,
    t: BatteryThreshold,
)
    requires
        pred(t),
    ensures
        s.filter(pred).contains(t) <==> s.contains(t),
    decreases s.len(),
{
    reveal(Seq::filter);
    if s.len() > 0 {
        let rest = s.drop_last();
        let f = rest.filter(pred);
        lemma_filter_holds(rest, pred, t);
        assert(s =~= rest.push(s.last()));
        if s.contains(t) {
            if rest.contains(t) {
                let k = f.index_of(t);
                if pred(s.last()) {
                    assert(f.push(s.last())[k] == t);
                }
            } else {
                let k = s.index_of(t);
                assert(k == rest.len()) by {
                    if k < rest.len() {
                        assert(rest[k] == t);
                    }
                }
                assert(f.push(s.last())[f.len() as int] == t);
            }
        }
        if s.filter(pred).contains(t) {
            let k = s.filter(pred).index_of(t);
            if k < f.len() {
                assert(f[k] == t);
                let m = rest.index_of(t);
                assert(s[m] == t);
            } else {
                assert(s[s.len() - 1] == t);
            }
        }
    }
}

/// A power supply is a battery exactly if its type is that word, whatever white space stands
/// around it, and it has a capacity.
pub proof fn law_battery_is_known(supply: SupplyProbe, before: Seq<char>, after: Seq<char>)
    requires
        text::all_white(before),
        text::all_white(after),
    ensures
        supply.kind@ == before + "Battery"@ + after ==> supply.is_battery() == supply.has_capacity,
        text::trimmed(supply.kind@) != "Battery"@ ==> !supply.is_battery(),
        !supply.has_capacity ==> !supply.is_battery(),
{
    reveal_strlit("Battery");
    let word = "Battery"@;
    text::lemma_trimmed_both(before, word, after);
    assert(before + word + after =~= before + (word + after));
}

} // verus!

//! Bringing settings of LEDs to the hardware.
use crate::backend;
use crate::backend::{Backend, FileWrite, IndividualBackend, LedChannels, PwmBackend};
use crate::color;
use crate::color::LedError;
use crate::individual;
use crate::individual::{IndividualConfig, IndividualLedEntry};
use crate::json;
use crate::text;
use vstd::prelude::*;

verus! {

// ---------------------------------------------------------------------------
// Settings to writes
// ---------------------------------------------------------------------------

/// What several requests do, one after the other. A request is carried out whether or
/// not those before it failed.
pub open spec fn plans(requests: Seq<Vec<FileWrite>>) -> Seq<Seq<backend::Written>> {
    requests.map_values(|w: Vec<FileWrite>| backend::plan(w@))
}

/// The requests with one more behind them, if it was not turned down.
pub open spec fn with_request(
    requests: Seq<Seq<backend::Written>>,
    more: Result<Seq<backend::Written>, LedError>,
) -> Seq<Seq<backend::Written>> {
    match more {
        Ok(writes) => requests.push(writes),
        Err(_) => requests,
    }
}

/// The requests that set LEDs one by one. One for an LED that does not exist is dropped.
pub open spec fn led_requests(b: Backend, leds: Seq<IndividualLedEntry>) -> Seq<
    Seq<backend::Written>,
>
    decreases leds.len(),
{
    if leds.len() == 0 {
        seq![]
    } else {
        let e = leds.last();
        let (x, y, z) = color::scaled_rgb(e.r, e.g, e.b, e.brightness);
        with_request(led_requests(b, leds.drop_last()), b.led_writes(e.index as int, x, y, z))
    }
}

/// The requests that set `n` LEDs from `first` on to one colour.
pub open spec fn row_requests(b: Backend, first: int, n: nat, c: (u8, u8, u8)) -> Seq<
    Seq<backend::Written>,
>
    decreases n,
{
    if n == 0 {
        seq![]
    } else {
        with_request(
            row_requests(b, first, (n - 1) as nat, c),
            b.led_writes(first + n - 1, c.0, c.1, c.2),
        )
    }
}

/// The colour of a group, at its brightness.
pub open spec fn group_color(v: (u8, u8, u8, u8)) -> (u8, u8, u8) {
    color::scaled_rgb(v.0, v.1, v.2, v.3)
}

/// The requests that set the four LEDs of a side, if the group is set.
pub open spec fn side_requests(b: Backend, first: int, group: Option<(u8, u8, u8, u8)>) -> Seq<
    Seq<backend::Written>,
> {
    match group {
        Some(v) => row_requests(b, first, 4, group_color(v)),
        None => seq![],
    }
}

/// The requests that bring settings to the hardware. A setting of all LEDs stands for
/// everything else; a setting of a side comes behind those of its LEDs.
pub open spec fn config_requests(b: Backend, s: individual::Settings) -> Seq<
    Seq<backend::Written>,
> {
    match s.all {
        Some(v) => {
            let (x, y, z) = group_color(v);
            seq![b.color_writes(x, y, z)]
        },
        None => led_requests(b, s.leds) + side_requests(b, 0, s.left) + side_requests(
            b,
            4,
            s.right,
        ),
    }
}

fn push_request(requests: &mut Vec<Vec<FileWrite>>, more: Result<Vec<FileWrite>, LedError>)
    ensures
        plans(final(requests)@) == with_request(
            plans(old(requests)@),
            backend::plan_or_error(more),
        ),
{
    let ghost before = requests@;
    if let Ok(writes) = more {
        requests.push(writes);
        assert(plans(requests@) =~= plans(before).push(backend::plan(writes@)));
    }
}

fn push_side(
    requests: &mut Vec<Vec<FileWrite>>,
    b: &Backend,
    first: usize,
    group: Option<(u8, u8, u8, u8)>,
)
    requires
        b.wf(),
        first <= 4,
    ensures
        plans(final(requests)@) == plans(old(requests)@) + side_requests(*b, first as int, group),
{
    let ghost before = plans(requests@);
    if let Some((red, green, blue, brightness)) = group {
        let (x, y, z) = color::scale_brightness(red, green, blue, brightness);
        let ghost c = (x, y, z);
        let mut k: usize = 0;
        assert(before =~= before + row_requests(*b, first as int, 0, c));
        while k < 4
            invariant
                k <= 4,
                first <= 4,
                b.wf(),
                c == (x, y, z),
                plans(requests@) == before + row_requests(*b, first as int, k as nat, c),
            decreases 4 - k,
        {
            let ghost so_far = row_requests(*b, first as int, k as nat, c);
            let more = b.set_led_color(first + k, x, y, z);
            let ghost view = backend::plan_or_error(more);
            push_request(requests, more);
            assert(with_request(before + so_far, view) =~= before + with_request(so_far, view));
            k += 1;
        }
    } else {
        assert(before =~= before + side_requests(*b, first as int, group));
    }
}

/// Brings settings to the hardware: a list of requests, each of which is carried out
/// whether or not those before it failed.
pub fn apply_config_to_hw(b: &Backend, config: &IndividualConfig) -> (r: Vec<Vec<FileWrite>>)
    requires
        b.wf(),
    ensures
        plans(r@) == config_requests(*b, config@),
{
    let mut requests: Vec<Vec<FileWrite>> = Vec::new();
    assert(plans(requests@) =~= seq![]);
    if let Some((red, green, blue, brightness)) = config.group_all {
        let (x, y, z) = color::scale_brightness(red, green, blue, brightness);
        requests.push(b.set_all_color(x, y, z));
        assert(plans(requests@) =~= config_requests(*b, config@));
        return requests;
    }
    let mut i: usize = 0;
    let ghost leds = config.leds@;
    assert(plans(requests@) =~= led_requests(*b, leds.take(0)));
    while i < config.leds.len()
        invariant
            i <= config.leds.len(),
            b.wf(),
            leds == config.leds@,
            plans(requests@) == led_requests(*b, leds.take(i as int)),
        decreases config.leds.len() - i,
    {
        let e = &config.leds[i];
        let (x, y, z) = color::scale_brightness(e.r, e.g, e.b, e.brightness);
        push_request(&mut requests, b.set_led_color(e.index, x, y, z));
        assert(leds.take(i + 1).drop_last() =~= leds.take(i as int));
        assert(leds.take(i + 1).last() == *e);
        i += 1;
    }
    assert(leds.take(i as int) =~= leds);
    push_side(&mut requests, b, 0, config.group_left);
    push_side(&mut requests, b, 4, config.group_right);
    requests
}

// ---------------------------------------------------------------------------
// Where settings come from
// ---------------------------------------------------------------------------

/// The file with one setting in each line.
pub const INDIVIDUAL_CONFIG: &'static str = "/userdata/system/configs/leds-individual.conf";

/// The JSON file.
pub const JSON_CONFIG: &'static str = "/userdata/system/configs/colorsave.json";

/// A file that may hold settings.
pub struct ConfigSource {
    pub path: String,
    pub json: bool,
}

/// What a source is: its path, and whether it is read as JSON.
pub open spec fn sources_of(sources: Seq<ConfigSource>) -> Seq<(Seq<char>, bool)> {
    sources.map_values(|s: ConfigSource| (s.path@, s.json))
}

/// The files that may hold the settings, in the order in which they are tried: the file with
/// one setting in each line, the JSON file, and a file that a user names, if there is one.
/// That is read as JSON if its path ends in `.json`.
pub open spec fn sources(path: Option<Seq<char>>) -> Seq<(Seq<char>, bool)> {
    match path {
        Some(p) => seq![
            (INDIVIDUAL_CONFIG@, false),
            (JSON_CONFIG@, true),
            (p, text::finishes_with(p, ".json"@)),
        ],
        None => seq![(INDIVIDUAL_CONFIG@, false), (JSON_CONFIG@, true)],
    }
}

/// The files that may hold the settings, in the order in which they are tried.
pub fn config_sources(path: Option<&str>) -> (r: Vec<ConfigSource>)
    ensures
        sources_of(r@) == sources(text::optional_view(path)),
{
    let mut list: Vec<ConfigSource> = Vec::new();
    list.push(ConfigSource { path: String::from_str(INDIVIDUAL_CONFIG), json: false });
    list.push(ConfigSource { path: String::from_str(JSON_CONFIG), json: true });
    if let Some(p) = path {
        list.push(ConfigSource { path: String::from_str(p), json: text::ends_with(p, ".json") });
    }
    assert(sources_of(list@) =~= sources(text::optional_view(path)));
    list
}

/// Why no settings were applied.
#[derive(Clone, Copy, Debug, PartialEq, Eq, Structural)]
pub enum ApplyError {
    /// The LEDs cannot be set one by one.
    Unsupported,
    /// No file can be read, the JSON file that a user named last of all.
    UnreadableJson,
    /// No file can be read, the file of settings by line that a user named last of all.
    UnreadableConfig,
    /// No file can be read, and a user named none.
    NoConfig,
}

/// The contents of files, where they could be read.
pub open spec fn contents_of(contents: Seq<Option<String>>) -> Seq<Option<Seq<char>>> {
    contents.map_values(
        |c: Option<String>|
            match c {
                Some(s) => Some(s@),
                None => None,
            },
    )
}

/// The first file from `i` on that could be read.
pub open spec fn first_readable(contents: Seq<Option<Seq<char>>>, i: int) -> Option<int>
    decreases contents.len() - i,
{
    if i < 0 || i >= contents.len() {
        None
    } else if contents[i] is Some {
        Some(i)
    } else {
        first_readable(contents, i + 1)
    }
}

/// The settings in the contents of a file.
pub open spec fn settings_in(content: Seq<char>, is_json: bool) -> individual::Settings {
    if is_json {
        json::json_settings(content)
    } else {
        individual::line_settings(text::line_list(content))
    }
}

/// Whether every colour of a file can be cut into its components.
pub open spec fn source_cuts(content: Seq<char>, is_json: bool) -> bool {
    if is_json {
        json::config_cuts(Some(content))
    } else {
        individual::config_cuts(Some(content))
    }
}

/// Whether the file that the settings are taken from can be read without cutting a
/// character apart.
pub open spec fn apply_cuts(
    b: Backend,
    path: Option<Seq<char>>,
    contents: Seq<Option<Seq<char>>>,
) -> bool {
    b is Individual ==> (first_readable(contents, 0) matches Some(i) ==> source_cuts(
        contents[i]->Some_0,
        sources(path)[i].1,
    ))
}

/// The requests that apply the settings of the first file that could be read, or why
/// there are none.
pub open spec fn apply_outcome(
    b: Backend,
    path: Option<Seq<char>>,
    contents: Seq<Option<Seq<char>>>,
) -> Result<Seq<Seq<backend::Written>>, ApplyError> {
    if !(b is Individual) {
        Err(ApplyError::Unsupported)
    } else {
        match first_readable(contents, 0) {
            Some(i) => Ok(
                config_requests(b, settings_in(contents[i]->Some_0, sources(path)[i].1)),
            ),
            None => match path {
                Some(p) => if text::finishes_with(p, ".json"@) {
                    Err(ApplyError::UnreadableJson)
                } else {
                    Err(ApplyError::UnreadableConfig)
                },
                None => Err(ApplyError::NoConfig),
            },
        }
    }
}

/// The requests of an outcome.
pub open spec fn outcome_of(r: Result<Vec<Vec<FileWrite>>, ApplyError>) -> Result<
    Seq<Seq<backend::Written>>,
    ApplyError,
> {
    match r {
        Ok(requests) => Ok(plans(requests@)),
        Err(e) => Err(e),
    }
}

/// Applies the settings of the first file that could be read, given the contents of the
/// files that [`config_sources`] lists (`None` for one that cannot be read).
pub fn apply_individual(b: &Backend, path: Option<&str>, contents: &Vec<Option<String>>) -> (r:
    Result<Vec<Vec<FileWrite>>, ApplyError>)
    requires
        b.wf(),
        contents@.len() == sources(text::optional_view(path)).len(),
        apply_cuts(*b, text::optional_view(path), contents_of(contents@)),
    ensures
        outcome_of(r) == apply_outcome(*b, text::optional_view(path), contents_of(contents@)),
{
    if !b.supports_individual() {
        return Err(ApplyError::Unsupported);
    }
    let list = config_sources(path);
    let ghost wanted = sources(text::optional_view(path));
    let ghost texts = contents_of(contents@);
    assert(sources_of(list@).len() == list@.len());
    let mut i: usize = 0;
    while i < contents.len()
        invariant
            i <= contents.len(),
            b.wf(),
            *b is Individual,
            wanted == sources(text::optional_view(path)),
            sources_of(list@) == wanted,
            list@.len() == wanted.len(),
            contents@.len() == wanted.len(),
            texts == contents_of(contents@),
            apply_cuts(*b, text::optional_view(path), texts),
            first_readable(texts, i as int) == first_readable(texts, 0),
        decreases contents.len() - i,
    {
        assert(sources_of(list@)[i as int] == (list@[i as int].path@, list@[i as int].json));
        if let Some(content) = &contents[i] {
            assert(texts[i as int] == Some(content@));
            let config = if list[i].json {
                json::load_json_config(Some(content.as_str()))
            } else {
                individual::load_individual_config(Some(content.as_str()))
            };
            if let Some(config) = config {
                return Ok(apply_config_to_hw(b, &config));
            }
        } else {
            assert(texts[i as int] is None);
        }
        i += 1;
    }
    match path {
        Some(p) => if text::ends_with(p, ".json") {
            Err(ApplyError::UnreadableJson)
        } else {
            Err(ApplyError::UnreadableConfig)
        },
        None => Err(ApplyError::NoConfig),
    }
}

// ---------------------------------------------------------------------------
// Laws
// ---------------------------------------------------------------------------

/// What files hold after writes, all of which succeed.
pub open spec fn after_writes(
    files: Map<Seq<char>, Seq<char>>,
    writes: Seq<backend::Written>,
) -> Map<Seq<char>, Seq<char>>
    decreases writes.len(),
{
    if writes.len() == 0 {
        files
    } else {
        after_writes(files, writes.drop_last()).insert(writes.last().path, writes.last().text)
    }
}

/// What files hold after requests, all of which succeed.
pub open spec fn after_requests(
    files: Map<Seq<char>, Seq<char>>,
    requests: Seq<Seq<backend::Written>>,
) -> Map<Seq<char>, Seq<char>>
    decreases requests.len(),
{
    if requests.len() == 0 {
        files
    } else {
        after_writes(after_requests(files, requests.drop_last()), requests.last())
    }
}

/// What the files of an LED hold, red, green and blue; `None` for one that is not there.
pub open spec fn led_files(files: Map<Seq<char>, Seq<char>>, led: LedChannels) -> (
    Option<Seq<char>>,
    Option<Seq<char>>,
    Option<Seq<char>>,
) {
    (files.get(led.red@), files.get(led.green@), files.get(led.blue@))
}

/// What the files of an LED hold when it shows a colour.
pub open spec fn color_files(c: (u8, u8, u8)) -> (
    Option<Seq<char>>,
    Option<Seq<char>>,
    Option<Seq<char>>,
) {
    (
        Some(text::decimal_text(c.0 as nat)),
        Some(text::decimal_text(c.1 as nat)),
        Some(text::decimal_text(c.2 as nat)),
    )
}

/// The colour that the settings of single LEDs give to the LED with index `i`: that of
/// the last setting.
pub open spec fn led_color(leds: Seq<IndividualLedEntry>, i: int) -> Option<(u8, u8, u8)>
    decreases leds.len(),
{
    if leds.len() == 0 {
        None
    } else if leds.last().index == i {
        let e = leds.last();
        Some(color::scaled_rgb(e.r, e.g, e.b, e.brightness))
    } else {
        led_color(leds.drop_last(), i)
    }
}

/// The colour that settings give to the LED with index `i`: that of all LEDs before that
/// of its side, and that of its side before its own.
pub open spec fn wanted_color(s: individual::Settings, i: int) -> Option<(u8, u8, u8)> {
    if let Some(v) = s.all {
        Some(group_color(v))
    } else if 0 <= i < 4 && s.left is Some {
        Some(group_color(s.left->Some_0))
    } else if 4 <= i < 8 && s.right is Some {
        Some(group_color(s.right->Some_0))
    } else {
        led_color(s.leds, i)
    }
}

proof fn lemma_after_writes_add(
    files: Map<Seq<char>, Seq<char>>,
    a: Seq<backend::Written>,
    b: Seq<backend::Written>,
)
    ensures
        after_writes(files, a + b) == after_writes(after_writes(files, a), b),
    decreases b.len(),
{
    if b.len() == 0 {
        assert(a + b =~= a);
    } else {
        assert((a + b).drop_last() =~= a + b.drop_last());
        assert((a + b).last() == b.last());
        lemma_after_writes_add(files, a, b.drop_last());
    }
}

proof fn lemma_after_requests_add(
    files: Map<Seq<char>, Seq<char>>,
    a: Seq<Seq<backend::Written>>,
    b: Seq<Seq<backend::Written>>,
)
    ensures
        after_requests(files, a + b) == after_requests(after_requests(files, a), b),
    decreases b.len(),
{
    if b.len() == 0 {
        assert(a + b =~= a);
    } else {
        assert((a + b).drop_last() =~= a + b.drop_last());
        assert((a + b).last() == b.last());
        lemma_after_requests_add(files, a, b.drop_last());
    }
}

/// Setting one LED changes its files, and those of no other.
proof fn lemma_set_one(
    files: Map<Seq<char>, Seq<char>>,
    leds: Seq<LedChannels>,
    j: int,
    c: (u8, u8, u8),
    i: int,
)
    requires
        backend::distinct_channels(leds),
        0 <= i < leds.len(),
        0 <= j < leds.len(),
    ensures
        led_files(after_writes(files, backend::channel_plan(leds[j], c.0, c.1, c.2)), leds[i]) == (
        if i == j {
            color_files(c)
        } else {
            led_files(files, leds[i])
        }),
{
    let w = backend::channel_plan(leds[j], c.0, c.1, c.2);
    let w2 = w.drop_last();
    let w1 = w2.drop_last();
    let w0 = w1.drop_last();
    assert(w0 =~= seq![]);
    assert(after_writes(files, w0) == files);
    assert(after_writes(files, w1) == files.insert(w[0].path, w[0].text));
    assert(after_writes(files, w2) == after_writes(files, w1).insert(w[1].path, w[1].text));
    assert(after_writes(files, w) == after_writes(files, w2).insert(w[2].path, w[2].text));
    assert forall|p: int, q: int|
        0 <= p < 3 && 0 <= q < 3 && (i != j || p != q) implies #[trigger] backend::channel_path(
        leds[i],
        p,
    ) != #[trigger] backend::channel_path(leds[j], q) by {}
    assert(backend::channel_path(leds[i], 0) == leds[i].red@);
    assert(backend::channel_path(leds[i], 1) == leds[i].green@);
    assert(backend::channel_path(leds[i], 2) == leds[i].blue@);
    assert(backend::channel_path(leds[j], 0) == leds[j].red@);
    assert(backend::channel_path(leds[j], 1) == leds[j].green@);
    assert(backend::channel_path(leds[j], 2) == leds[j].blue@);
}

/// Setting the first `n` LEDs changes their files, and those of no other.
proof fn lemma_set_all(
    files: Map<Seq<char>, Seq<char>>,
    leds: Seq<LedChannels>,
    n: int,
    c: (u8, u8, u8),
    i: int,
)
    requires
        backend::distinct_channels(leds),
        0 <= n <= leds.len(),
        0 <= i < leds.len(),
    ensures
        led_files(
            after_writes(files, backend::all_channels_plan(leds.take(n), c.0, c.1, c.2)),
            leds[i],
        ) == (if i < n {
            color_files(c)
        } else {
            led_files(files, leds[i])
        }),
    decreases n,
{
    if n > 0 {
        let first = backend::all_channels_plan(leds.take(n - 1), c.0, c.1, c.2);
        assert(leds.take(n).drop_last() =~= leds.take(n - 1));
        assert(leds.take(n).last() == leds[n - 1]);
        lemma_set_all(files, leds, n - 1, c, i);
        lemma_after_writes_add(files, first, backend::channel_plan(leds[n - 1], c.0, c.1, c.2));
        lemma_set_one(after_writes(files, first), leds, n - 1, c, i);
    }
}

/// One more request for an LED changes its files, and those of no other.
proof fn lemma_one_request(
    files: Map<Seq<char>, Seq<char>>,
    ind: IndividualBackend,
    requests: Seq<Seq<backend::Written>>,
    j: int,
    c: (u8, u8, u8),
    i: int,
)
    requires
        backend::distinct_channels(ind.leds@),
        0 <= i < ind.leds@.len(),
        0 <= j,
    ensures
        led_files(
            after_requests(
                files,
                with_request(requests, ind.led_writes(j, c.0, c.1, c.2)),
            ),
            ind.leds@[i],
        ) == (if i == j {
            color_files(c)
        } else {
            led_files(after_requests(files, requests), ind.leds@[i])
        }),
{
    if j < ind.leds@.len() {
        let more = ind.led_writes(j, c.0, c.1, c.2)->Ok_0;
        assert(requests.push(more).drop_last() =~= requests);
        lemma_set_one(after_requests(files, requests), ind.leds@, j, c, i);
    }
}

proof fn lemma_led_requests(
    files: Map<Seq<char>, Seq<char>>,
    ind: IndividualBackend,
    leds: Seq<IndividualLedEntry>,
    i: int,
)
    requires
        backend::distinct_channels(ind.leds@),
        0 <= i < ind.leds@.len(),
    ensures
        led_files(
            after_requests(files, led_requests(Backend::Individual(ind), leds)),
            ind.leds@[i],
        ) == (match led_color(leds, i) {
            Some(c) => color_files(c),
            None => led_files(files, ind.leds@[i]),
        }),
    decreases leds.len(),
{
    if leds.len() > 0 {
        let e = leds.last();
        lemma_led_requests(files, ind, leds.drop_last(), i);
        lemma_one_request(
            files,
            ind,
            led_requests(Backend::Individual(ind), leds.drop_last()),
            e.index as int,
            color::scaled_rgb(e.r, e.g, e.b, e.brightness),
            i,
        );
    }
}

proof fn lemma_row_requests(
    files: Map<Seq<char>, Seq<char>>,
    ind: IndividualBackend,
    first: int,
    n: nat,
    c: (u8, u8, u8),
    i: int,
)
    requires
        backend::distinct_channels(ind.leds@),
        0 <= i < ind.leds@.len(),
        0 <= first,
    ensures
        led_files(
            after_requests(files, row_requests(Backend::Individual(ind), first, n, c)),
            ind.leds@[i],
        ) == (if first <= i < first + n {
            color_files(c)
        } else {
            led_files(files, ind.leds@[i])
        }),
    decreases n,
{
    if n > 0 {
        lemma_row_requests(files, ind, first, (n - 1) as nat, c, i);
        lemma_one_request(
            files,
            ind,
            row_requests(Backend::Individual(ind), first, (n - 1) as nat, c),
            first + n - 1,
            c,
            i,
        );
    }
}

proof fn lemma_side_requests(
    files: Map<Seq<char>, Seq<char>>,
    ind: IndividualBackend,
    first: int,
    group: Option<(u8, u8, u8, u8)>,
    i: int,
)
    requires
        backend::distinct_channels(ind.leds@),
        0 <= i < ind.leds@.len(),
        0 <= first,
    ensures
        led_files(
            after_requests(files, side_requests(Backend::Individual(ind), first, group)),
            ind.leds@[i],
        ) == (if first <= i < first + 4 && group is Some {
            color_files(group_color(group->Some_0))
        } else {
            led_files(files, ind.leds@[i])
        }),
{
    if let Some(v) = group {
        lemma_row_requests(files, ind, first, 4, group_color(v), i);
    }
}

/// Once settings have been applied, each LED shows the colour that they want for it: that
/// of all LEDs comes before that of a side, and that of a side before that of the LED. An
/// LED for which they want none is left as it was.
pub proof fn law_settings_priority(
    ind: IndividualBackend,
    s: individual::Settings,
    files: Map<Seq<char>, Seq<char>>,
    i: int,
)
    requires
        backend::distinct_channels(ind.leds@),
        0 <= i < ind.leds@.len(),
    ensures
        led_files(
            after_requests(files, config_requests(Backend::Individual(ind), s)),
            ind.leds@[i],
        ) == (match wanted_color(s, i) {
            Some(c) => color_files(c),
            None => led_files(files, ind.leds@[i]),
        }),
{
    let b = Backend::Individual(ind);
    if let Some(v) = s.all {
        let c = group_color(v);
        let writes = b.color_writes(c.0, c.1, c.2);
        let requests = seq![writes];
        assert(requests.drop_last() =~= seq![]);
        assert(after_requests(files, requests.drop_last()) == files);
        assert(after_requests(files, requests) == after_writes(files, writes));
        lemma_set_all(files, ind.leds@, ind.leds@.len() as int, c, i);
        assert(ind.leds@.take(ind.leds@.len() as int) =~= ind.leds@);
    } else {
        let one = led_requests(b, s.leds);
        let two = side_requests(b, 0, s.left);
        let three = side_requests(b, 4, s.right);
        lemma_after_requests_add(files, one + two, three);
        lemma_after_requests_add(files, one, two);
        lemma_led_requests(files, ind, s.leds, i);
        lemma_side_requests(after_requests(files, one), ind, 0, s.left, i);
        lemma_side_requests(after_requests(files, one + two), ind, 4, s.right, i);
    }
}

/// The file with one setting in each line comes first, then the JSON file, then the file
/// that a user names: each is applied where it can be read and those before it cannot.
pub proof fn law_files_are_tried_in_order(
    ind: IndividualBackend,
    path: Option<Seq<char>>,
    contents: Seq<Option<Seq<char>>>,
)
    requires
        contents.len() == sources(path).len(),
    ensures
        ({
            let b = Backend::Individual(ind);
            let outcome = apply_outcome(b, path, contents);
            if let Some(c) = contents[0] {
                outcome == Ok::<Seq<Seq<backend::Written>>, ApplyError>(
                    config_requests(b, settings_in(c, false)),
                )
            } else if let Some(c) = contents[1] {
                outcome == Ok::<Seq<Seq<backend::Written>>, ApplyError>(
                    config_requests(b, settings_in(c, true)),
                )
            } else if let Some(p) = path {
                match contents[2] {
                    Some(c) => outcome == Ok::<Seq<Seq<backend::Written>>, ApplyError>(
                        config_requests(b, settings_in(c, text::finishes_with(p, ".json"@))),
                    ),
                    None => outcome is Err,
                }
            } else {
                outcome == Err::<Seq<Seq<backend::Written>>, ApplyError>(ApplyError::NoConfig)
            }
        }),
{
    lemma_first_readable(contents);
}

/// Once every LED has been set to a colour, reading any of them gives it back, whatever
/// white space the files add.
pub proof fn law_set_all_then_get_led(
    ind: IndividualBackend,
    i: int,
    r: u8,
    g: u8,
    b: u8,
    files: Map<Seq<char>, Seq<char>>,
    w: Seq<char>,
)
    requires
        backend::distinct_channels(ind.leds@),
        0 <= i < ind.leds@.len(),
        text::all_white(w),
    ensures
        ({
            let end = after_writes(files, Backend::Individual(ind).color_writes(r, g, b));
            let paths = ind.led_paths(i)->Ok_0;
            &&& ind.led_paths(i) is Ok
            &&& paths.len() == 3
            &&& end.dom().contains(paths[0]) && end.dom().contains(paths[1]) && end.dom().contains(
                paths[2],
            )
            &&& ind.led_color_in(i, end[paths[0]] + w, end[paths[1]] + w, end[paths[2]] + w)
                == Ok::<(u8, u8, u8), LedError>((r, g, b))
        }),
{
    let leds = ind.leds@;
    lemma_set_all(files, leds, leds.len() as int, (r, g, b), i);
    assert(leds.take(leds.len() as int) =~= leds);
    let end = after_writes(files, backend::all_channels_plan(leds, r, g, b));
    assert(end.get(leds[i].red@) == Some(text::decimal_text(r as nat)));
    assert(end.get(leds[i].green@) == Some(text::decimal_text(g as nat)));
    assert(end.get(leds[i].blue@) == Some(text::decimal_text(b as nat)));
    backend::law_led_round_trip(ind, i, r, g, b, w);
}

/// Once every LED has been set to a colour, reading the colour gives it back, whatever
/// white space the files add.
pub proof fn law_set_all_then_get(
    ind: IndividualBackend,
    r: u8,
    g: u8,
    b: u8,
    files: Map<Seq<char>, Seq<char>>,
    w: Seq<char>,
)
    requires
        backend::distinct_channels(ind.leds@),
        ind.leds@.len() > 0,
        text::all_white(w),
    ensures
        ({
            let device = Backend::Individual(ind);
            let end = after_writes(files, device.color_writes(r, g, b));
            let paths = device.color_paths()->Ok_0;
            &&& device.color_paths() is Ok
            &&& paths.len() == 3
            &&& end.dom().contains(paths[0]) && end.dom().contains(paths[1]) && end.dom().contains(
                paths[2],
            )
            &&& device.color_in(seq![end[paths[0]] + w, end[paths[1]] + w, end[paths[2]] + w])
                == Ok::<(u8, u8, u8), LedError>((r, g, b))
        }),
{
    law_set_all_then_get_led(ind, 0, r, g, b, files, w);
}

/// A file holds the text of the writes to it, where they all have one text.
proof fn lemma_uniform_writes(
    files: Map<Seq<char>, Seq<char>>,
    writes: Seq<backend::Written>,
    path: Seq<char>,
    content: Seq<char>,
    at: int,
)
    requires
        0 <= at < writes.len(),
        writes[at].path == path,
        forall|i: int|
            0 <= i < writes.len() && (#[trigger] writes[i]).path == path ==> writes[i].text
                == content,
    ensures
        after_writes(files, writes).dom().contains(path),
        after_writes(files, writes)[path] == content,
    decreases writes.len(),
{
    let rest = writes.drop_last();
    assert(writes.last() == writes[writes.len() - 1]);
    if at < rest.len() {
        assert forall|i: int|
            0 <= i < rest.len() && (#[trigger] rest[i]).path == path implies rest[i].text
            == content by {
            assert(rest[i] == writes[i]);
        }
        lemma_uniform_writes(files, rest, path, content, at);
    }
}

/// The component of a colour that a channel shows.
spec fn shown_by(channel: int, r: u8, g: u8, b: u8) -> u8 {
    if channel % 3 == 0 {
        r
    } else if channel % 3 == 1 {
        g
    } else {
        b
    }
}

/// Whether a write sets the duty cycle of a channel of a chip.
spec fn sets_channel(
    w: backend::Written,
    chip: Seq<char>,
    channel: int,
    period: u32,
    r: u8,
    g: u8,
    b: u8,
) -> bool {
    &&& 0 <= channel < 12
    &&& w.path == backend::joined(chip, backend::duty_name(channel as nat))
    &&& w.text == backend::duty_text(shown_by(channel, r, g, b), period)
}

/// Every write that sets a colour on chips sets the duty cycle of a channel.
proof fn lemma_pwm_write(chips: Seq<String>, period: u32, r: u8, g: u8, b: u8, i: int) -> (at: (
    Seq<char>,
    int,
))
    requires
        0 <= i < backend::pwm_writes(chips, period, r, g, b).len(),
    ensures
        sets_channel(
            backend::pwm_writes(chips, period, r, g, b)[i],
            at.0,
            at.1,
            period,
            r,
            g,
            b,
        ),
    decreases chips.len(),
{
    let before = backend::pwm_writes(chips.drop_last(), period, r, g, b);
    let chip = chips.last()@;
    if i < before.len() {
        lemma_pwm_write(chips.drop_last(), period, r, g, b, i)
    } else {
        let k = i - before.len();
        (chip, k / 4 + 3 * (k % 4))
    }
}

/// Setting a colour on chips sets the first channel of each component on the first chip.
proof fn lemma_first_chip(chips: Seq<String>, period: u32, r: u8, g: u8, b: u8, channel: int)
    requires
        chips.len() > 0,
        0 <= channel < 3,
    ensures
        backend::pwm_writes(chips, period, r, g, b).len() >= 12,
        sets_channel(
            backend::pwm_writes(chips, period, r, g, b)[4 * channel],
            chips[0]@,
            channel,
            period,
            r,
            g,
            b,
        ),
    decreases chips.len(),
{
    if chips.len() > 1 {
        lemma_first_chip(chips.drop_last(), period, r, g, b, channel);
    } else {
        assert(backend::pwm_writes(chips.drop_last(), period, r, g, b).len() == 0);
    }
}

/// The files of channels with different numbers differ, whatever chips they belong to.
proof fn lemma_channels_differ(a: Seq<char>, i: int, b: Seq<char>, j: int)
    requires
        0 <= i < 12,
        0 <= j < 12,
        backend::joined(a, backend::duty_name(i as nat)) == backend::joined(
            b,
            backend::duty_name(j as nat),
        ),
    ensures
        i == j,
{
    lemma_channel_digits(a, i);
    lemma_channel_digits(b, j);
}

/// How the file of a channel ends: with the number of the channel, behind the letter m and
/// before `/duty_cycle`.
proof fn lemma_channel_digits(chip: Seq<char>, i: int)
    requires
        0 <= i < 12,
    ensures
        ({
            let p = backend::joined(chip, backend::duty_name(i as nat));
            let n = p.len();
            &&& n >= 15
            &&& p[n - 12] == text::digit_char((i % 10) as nat)
            &&& i < 10 ==> p[n - 13] == 'm'
            &&& i >= 10 ==> p[n - 13] == '1'
        }),
{
    reveal_strlit("pwm");
    reveal_strlit("/duty_cycle");
    reveal_strlit("/");
    let d = text::decimal_text(i as nat);
    let p = backend::joined(chip, backend::duty_name(i as nat));
    let n = p.len();
    if i >= 10 {
        assert(text::decimal_text(1) == seq![text::digit_char(1)]);
        assert(d == text::decimal_text(1).push(text::digit_char((i % 10) as nat)));
    }
    let name = backend::duty_name(i as nat);
    let m = name.len();
    assert(name[m - 12] == d.last());
    assert(p[n - 12] == name[m - 12]);
    assert(p[n - 13] == name[m - 13]);
}

/// Once every chip has been set to a colour, reading the colour gives each component back,
/// but for what [`backend::law_duty_round_trip`] says of it.
pub proof fn law_pwm_set_then_get(
    pwm: PwmBackend,
    r: u8,
    g: u8,
    b: u8,
    files: Map<Seq<char>, Seq<char>>,
    w: Seq<char>,
)
    requires
        pwm.wf(),
        pwm.period > 0,
        pwm.chips@.len() > 0,
        text::all_white(w),
    ensures
        ({
            let device = Backend::Pwm(pwm);
            let end = after_writes(files, device.color_writes(r, g, b));
            let paths = device.color_paths()->Ok_0;
            let contents = seq![end[paths[0]] + w, end[paths[1]] + w, end[paths[2]] + w];
            &&& device.color_paths() is Ok
            &&& paths.len() == 3
            &&& end.dom().contains(paths[0]) && end.dom().contains(paths[1]) && end.dom().contains(
                paths[2],
            )
            &&& device.fits(contents)
            &&& device.color_in(contents) == Ok::<(u8, u8, u8), LedError>(
                (
                    backend::through_duty(r, pwm.period),
                    backend::through_duty(g, pwm.period),
                    backend::through_duty(b, pwm.period),
                ),
            )
        }),
{
    let device = Backend::Pwm(pwm);
    let writes = device.color_writes(r, g, b);
    let paths = device.color_paths()->Ok_0;
    let chip = pwm.chips@[0]@;
    assert forall|c: int| 0 <= c < 3 implies after_writes(files, writes).dom().contains(
        #[trigger] paths[c],
    ) && after_writes(files, writes)[paths[c]] == backend::duty_text(
        shown_by(c, r, g, b),
        pwm.period,
    ) by {
        lemma_first_chip(pwm.chips@, pwm.period, r, g, b, c);
        let content = backend::duty_text(shown_by(c, r, g, b), pwm.period);
        assert forall|i: int|
            0 <= i < writes.len() && (#[trigger] writes[i]).path == paths[c] implies writes[i].text
            == content by {
            let (other, k) = lemma_pwm_write(pwm.chips@, pwm.period, r, g, b, i);
            lemma_channels_differ(chip, c, other, k);
        }
        lemma_uniform_writes(files, writes, paths[c], content, 4 * c);
    }
    backend::law_duty_round_trip(r, pwm.period, w);
    backend::law_duty_round_trip(g, pwm.period, w);
    backend::law_duty_round_trip(b, pwm.period, w);
    assert(shown_by(0, r, g, b) == r && shown_by(1, r, g, b) == g && shown_by(2, r, g, b) == b);
    let end = after_writes(files, writes);
    assert(end[paths[0]] == backend::duty_text(r, pwm.period));
    assert(end[paths[1]] == backend::duty_text(g, pwm.period));
    assert(end[paths[2]] == backend::duty_text(b, pwm.period));
}

/// Where the write for a channel of a chip stands.
proof fn lemma_chip_write(
    chips: Seq<String>,
    period: u32,
    r: u8,
    g: u8,
    b: u8,
    j: int,
    channel: int,
)
    requires
        0 <= j < chips.len(),
        0 <= channel < 12,
    ensures
        backend::pwm_writes(chips, period, r, g, b).len() == 12 * chips.len(),
        sets_channel(
            backend::pwm_writes(chips, period, r, g, b)[12 * j + 4 * (channel % 3) + channel / 3],
            chips[j]@,
            channel,
            period,
            r,
            g,
            b,
        ),
    decreases chips.len(),
{
    let rest = chips.drop_last();
    if rest.len() > 0 {
        lemma_chip_write(rest, period, r, g, b, 0, channel);
    } else {
        assert(backend::pwm_writes(rest, period, r, g, b).len() == 0);
    }
    if j < rest.len() {
        lemma_chip_write(rest, period, r, g, b, j, channel);
    } else {
        let at = 4 * (channel % 3) + channel / 3;
        let all = backend::pwm_writes(chips, period, r, g, b);
        let chip = chips.last()@;
        assert(channel == channel % 3 + 3 * (channel / 3));
        if channel % 3 == 0 {
            assert(all[12 * j + at] == backend::channel_writes(
                chip,
                0,
                backend::duty_text(r, period),
            )[channel / 3]);
        } else if channel % 3 == 1 {
            assert(all[12 * j + at] == backend::channel_writes(
                chip,
                1,
                backend::duty_text(g, period),
            )[channel / 3]);
        } else {
            assert(all[12 * j + at] == backend::channel_writes(
                chip,
                2,
                backend::duty_text(b, period),
            )[channel / 3]);
        }
    }
}

/// Setting a colour on PWM chips makes twelve writes for each, after which every channel of
/// every chip holds the duty cycle of its component: channels 0, 3, 6 and 9 that of red, 1, 4,
/// 7 and 10 that of green, and the others that of blue. A duty cycle is the whole part of the
/// component times the period over 255.
pub proof fn law_every_channel_is_set(
    pwm: PwmBackend,
    r: u8,
    g: u8,
    b: u8,
    files: Map<Seq<char>, Seq<char>>,
    j: int,
    channel: int,
) -> (d: nat)
    requires
        0 <= j < pwm.chips@.len(),
        0 <= channel < 12,
    ensures
        ({
            let writes = Backend::Pwm(pwm).color_writes(r, g, b);
            let end = after_writes(files, writes);
            let path = backend::joined(
                pwm.chips@[j]@,
                "pwm"@ + text::decimal_text(channel as nat) + "/duty_cycle"@,
            );
            let c = if channel % 3 == 0 {
                r
            } else if channel % 3 == 1 {
                g
            } else {
                b
            };
            &&& writes.len() == 12 * pwm.chips@.len()
            &&& end.dom().contains(path)
            &&& end[path] == text::decimal_text(d)
            &&& 255 * d <= c * pwm.period < 255 * (d + 1)
        }),
{
    let writes = Backend::Pwm(pwm).color_writes(r, g, b);
    let chip = pwm.chips@[j]@;
    let path = backend::joined(chip, backend::duty_name(channel as nat));
    let c = shown_by(channel, r, g, b);
    let content = backend::duty_text(c, pwm.period);
    let d = backend::law_duty_is_proportional(c, pwm.period);
    lemma_chip_write(pwm.chips@, pwm.period, r, g, b, j, channel);
    assert forall|i: int|
        0 <= i < writes.len() && (#[trigger] writes[i]).path == path implies writes[i].text
        == content by {
        let (other, k) = lemma_pwm_write(pwm.chips@, pwm.period, r, g, b, i);
        lemma_channels_differ(chip, channel, other, k);
    }
    lemma_uniform_writes(
        files,
        writes,
        path,
        content,
        12 * j + 4 * (channel % 3) + channel / 3,
    );
    d
}

/// Setting one LED leaves every other as it was, and its own files hold the colour.
pub proof fn law_one_led_is_set(
    ind: IndividualBackend,
    j: int,
    c: (u8, u8, u8),
    files: Map<Seq<char>, Seq<char>>,
    i: int,
)
    requires
        backend::distinct_channels(ind.leds@),
        0 <= i < ind.leds@.len(),
        0 <= j < ind.leds@.len(),
    ensures
        ({
            let end = after_writes(files, ind.led_writes(j, c.0, c.1, c.2)->Ok_0);
            let led = ind.leds@[i];
            &&& ind.led_writes(j, c.0, c.1, c.2) is Ok
            &&& i != j ==> end.get(led.red@) == files.get(led.red@) && end.get(led.green@)
                == files.get(led.green@) && end.get(led.blue@) == files.get(led.blue@)
            &&& i == j ==> end.get(led.red@) == Some(text::decimal_text(c.0 as nat)) && end.get(
                led.green@,
            ) == Some(text::decimal_text(c.1 as nat)) && end.get(led.blue@) == Some(
                text::decimal_text(c.2 as nat),
            )
        }),
{
    lemma_set_one(files, ind.leds@, j, c, i);
}

/// What an LED shows once settings have been applied. A setting of all LEDs decides alone;
/// without one, the setting of its side does, the first four being on the left; without that,
/// its own last setting does, and without any it is left as it was. A setting shows its colour
/// at its brightness.
pub proof fn law_settings_are_shown(
    ind: IndividualBackend,
    s: individual::Settings,
    files: Map<Seq<char>, Seq<char>>,
    i: int,
    last: int,
)
    requires
        backend::distinct_channels(ind.leds@),
        0 <= i < ind.leds@.len(),
    ensures
        ({
            let end = after_requests(files, config_requests(Backend::Individual(ind), s));
            let led = ind.leds@[i];
            let shows = |c: (u8, u8, u8)|
                end.get(led.red@) == Some(text::decimal_text(c.0 as nat)) && end.get(led.green@)
                    == Some(text::decimal_text(c.1 as nat)) && end.get(led.blue@) == Some(
                    text::decimal_text(c.2 as nat),
                );
            &&& s.all matches Some((r, g, b, n)) ==> shows(color::scaled_rgb(r, g, b, n))
            &&& s.all is None && i < 4 ==> (s.left matches Some((r, g, b, n)) ==> shows(
                color::scaled_rgb(r, g, b, n),
            ))
            &&& s.all is None && 4 <= i < 8 ==> (s.right matches Some((r, g, b, n)) ==> shows(
                color::scaled_rgb(r, g, b, n),
            ))
            &&& s.all is None && (s.left is None || i >= 4) && (s.right is None || i < 4 || i >= 8)
                ==> {
                &&& 0 <= last < s.leds.len() && s.leds[last].index == i && (forall|j: int|
                    last < j < s.leds.len() ==> (#[trigger] s.leds[j]).index != i) ==> shows(
                    color::scaled_rgb(
                        s.leds[last].r,
                        s.leds[last].g,
                        s.leds[last].b,
                        s.leds[last].brightness,
                    ),
                )
                &&& (forall|j: int| 0 <= j < s.leds.len() ==> (#[trigger] s.leds[j]).index != i)
                    ==> end.get(led.red@) == files.get(led.red@) && end.get(led.green@)
                    == files.get(led.green@) && end.get(led.blue@) == files.get(led.blue@)
            }
        }),
{
    law_settings_priority(ind, s, files, i);
    if 0 <= last < s.leds.len() && s.leds[last].index == i && (forall|j: int|
        last < j < s.leds.len() ==> (#[trigger] s.leds[j]).index != i) {
        lemma_last_setting(s.leds, i, last);
    }
    if forall|j: int| 0 <= j < s.leds.len() ==> (#[trigger] s.leds[j]).index != i {
        lemma_no_setting(s.leds, i);
    }
}

proof fn lemma_last_setting(leds: Seq<IndividualLedEntry>, i: int, last: int)
    requires
        0 <= last < leds.len(),
        leds[last].index == i,
        forall|j: int| last < j < leds.len() ==> (#[trigger] leds[j]).index != i,
    ensures
        led_color(leds, i) == Some(
            color::scaled_rgb(leds[last].r, leds[last].g, leds[last].b, leds[last].brightness),
        ),
    decreases leds.len(),
{
    if last < leds.len() - 1 {
        assert(leds[leds.len() - 1].index != i);
        lemma_last_setting(leds.drop_last(), i, last);
    }
}

proof fn lemma_no_setting(leds: Seq<IndividualLedEntry>, i: int)
    requires
        forall|j: int| 0 <= j < leds.len() ==> (#[trigger] leds[j]).index != i,
    ensures
        led_color(leds, i) is None,
    decreases leds.len(),
{
    if leds.len() > 0 {
        assert(leds[leds.len() - 1].index != i);
        lemma_no_setting(leds.drop_last(), i);
    }
}

/// Where LEDs cannot be told apart, settings are applied to all of them, and the last one
/// decides: that of all LEDs alone, or else that of the right side, that of the left side or
/// the last of single ones.
pub proof fn law_settings_on_common_leds(b: Backend, s: individual::Settings)
    requires
        !(b is Individual),
    ensures
        ({
            let requests = config_requests(b, s);
            let colored = |c: (u8, u8, u8)| b.color_writes(c.0, c.1, c.2);
            &&& s.all matches Some((x, y, z, n)) ==> requests == seq![
                colored(color::scaled_rgb(x, y, z, n)),
            ]
            &&& s.all is None ==> requests.len() == s.leds.len() + (if s.left is Some {
                4int
            } else {
                0
            }) + (if s.right is Some {
                4int
            } else {
                0
            })
            &&& s.all is None ==> (s.right matches Some((x, y, z, n)) ==> requests.last()
                == colored(color::scaled_rgb(x, y, z, n)))
            &&& s.all is None && s.right is None ==> (s.left matches Some((x, y, z, n))
                ==> requests.last() == colored(color::scaled_rgb(x, y, z, n)))
            &&& s.all is None && s.right is None && s.left is None && s.leds.len() > 0
                ==> requests.last() == colored(
                color::scaled_rgb(
                    s.leds.last().r,
                    s.leds.last().g,
                    s.leds.last().b,
                    s.leds.last().brightness,
                ),
            )
        }),
{
    lemma_common_leds(b, s.leds);
    if let Some(v) = s.left {
        reveal_with_fuel(row_requests, 5);
    }
    if let Some(v) = s.right {
        reveal_with_fuel(row_requests, 5);
    }
}

proof fn lemma_common_leds(b: Backend, leds: Seq<IndividualLedEntry>)
    requires
        !(b is Individual),
    ensures
        led_requests(b, leds).len() == leds.len(),
    decreases leds.len(),
{
    if leds.len() > 0 {
        lemma_common_leds(b, leds.drop_last());
    }
}

/// Which of the files is the first that can be read.
proof fn lemma_first_readable(contents: Seq<Option<Seq<char>>>)
    requires
        2 <= contents.len() <= 3,
    ensures
        contents[0] is Some ==> first_readable(contents, 0) == Some(0int),
        contents[0] is None && contents[1] is Some ==> first_readable(contents, 0) == Some(1int),
        contents[0] is None && contents[1] is None && contents.len() == 3 && contents[2] is Some
            ==> first_readable(contents, 0) == Some(2int),
        contents[0] is None && contents[1] is None && (contents.len() == 2 || contents[2] is None)
            ==> first_readable(contents, 0) is None,
{
    assert(first_readable(contents, 3) is None);
    if contents.len() == 3 {
        assert(contents[2] is None ==> first_readable(contents, 2) is None);
    }
    assert(first_readable(contents, 2) is None || first_readable(contents, 2) == Some(2int));
    assert(contents[1] is None ==> first_readable(contents, 1) == first_readable(contents, 2));
}

/// The settings that are applied, or why there are none.
pub open spec fn applied_settings(
    path: Option<Seq<char>>,
    contents: Seq<Option<Seq<char>>>,
) -> Result<individual::Settings, ApplyError> {
    match first_readable(contents, 0) {
        Some(i) => Ok(settings_in(contents[i]->Some_0, sources(path)[i].1)),
        None => match path {
            Some(p) => if text::finishes_with(p, ".json"@) {
                Err(ApplyError::UnreadableJson)
            } else {
                Err(ApplyError::UnreadableConfig)
            },
            None => Err(ApplyError::NoConfig),
        },
    }
}

/// Settings are applied where LEDs can be set one by one, and nowhere else.
pub proof fn law_settings_are_applied(
    b: Backend,
    path: Option<Seq<char>>,
    contents: Seq<Option<Seq<char>>>,
)
    ensures
        b is Individual ==> apply_outcome(b, path, contents) == (match applied_settings(
            path,
            contents,
        ) {
            Ok(s) => Ok::<Seq<Seq<backend::Written>>, ApplyError>(config_requests(b, s)),
            Err(e) => Err(e),
        }),
        !(b is Individual) ==> apply_outcome(b, path, contents) == Err::<
            Seq<Seq<backend::Written>>,
            ApplyError,
        >(ApplyError::Unsupported),
{
}

/// The file that is applied is the first that can be read: its lines are read as settings, or
/// it is searched as JSON, if it is the JSON file or a user's file whose path ends so. Where
/// none can be read, the error tells what file a user named.
pub proof fn law_first_readable_file_is_applied(
    path: Option<Seq<char>>,
    contents: Seq<Option<Seq<char>>>,
    front: Seq<char>,
)
    requires
        contents.len() == (if path is Some {
            3int
        } else {
            2
        }),
    ensures
        contents[0] matches Some(c) ==> applied_settings(path, contents) == Ok::<
            individual::Settings,
            ApplyError,
        >(individual::line_settings(text::line_list(c))),
        contents[0] is None ==> (contents[1] matches Some(c) ==> applied_settings(path, contents)
            == Ok::<individual::Settings, ApplyError>(json::json_settings(c))),
        contents[0] is None && contents[1] is None ==> {
            &&& path is None ==> applied_settings(path, contents) == Err::<
                individual::Settings,
                ApplyError,
            >(ApplyError::NoConfig)
            &&& path == Some(front + ".json"@) ==> applied_settings(path, contents) == (
            match contents[2] {
                Some(c) => Ok::<individual::Settings, ApplyError>(json::json_settings(c)),
                None => Err(ApplyError::UnreadableJson),
            })
            &&& path is Some && !text::finishes_with(path->Some_0, ".json"@) ==> applied_settings(
                path,
                contents,
            ) == (match contents[2] {
                Some(c) => Ok::<individual::Settings, ApplyError>(
                    individual::line_settings(text::line_list(c)),
                ),
                None => Err(ApplyError::UnreadableConfig),
            })
        },
{
    lemma_first_readable(contents);
    text::law_beginning_and_end(front + ".json"@, ".json"@, front);
}

/// The files that are tried, in order.
pub proof fn law_sources(path: Seq<char>)
    ensures
        sources(None).len() == 2,
        sources(Some(path)).len() == 3,
        sources(None)[0] == ("/userdata/system/configs/leds-individual.conf"@, false),
        sources(None)[1] == ("/userdata/system/configs/colorsave.json"@, true),
        sources(Some(path))[0] == sources(None)[0],
        sources(Some(path))[1] == sources(None)[1],
        sources(Some(path))[2].0 == path,
{
}

} // verus!

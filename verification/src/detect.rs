//! Which LED hardware a device has.
use crate::backend;
use crate::backend::{
    join, Backend, FileWrite, IndividualBackend, LedChannels, PwmBackend, RgbBackend,
};
use crate::text;
use vstd::prelude::*;

verus! {

/// The directory of the multicolour LED.
pub const RGB_BASE: &'static str = "/sys/class/leds/multicolor:chassis";

/// The file that shows that there is a multicolour LED.
pub const RGB_FILE: &'static str = "/sys/class/leds/multicolor:chassis/multi_intensity";

/// The name of the PWM chips that drive LEDs.
pub const PWM_NAME: &'static str = "htr3212-pwm";

/// The period that PWM channels are set to.
pub const PWM_PERIOD: u32 = 100;

// ---------------------------------------------------------------------------
// Individual LEDs
// ---------------------------------------------------------------------------

/// The letter of the side on which an LED is: the first four are on the left.
pub open spec fn side_of(i: int) -> char {
    if i < 4 {
        'l'
    } else {
        'r'
    }
}

/// The file of one channel of an LED. The LEDs of a side are numbered from one.
pub open spec fn led_path(i: int, channel: char) -> Seq<char> {
    "/sys/class/leds/"@ + seq![side_of(i), ':', channel] + text::decimal_text((i % 4 + 1) as nat)
        + "/brightness"@
}

/// Whether the files of an LED are those of the LED with index `i`.
pub open spec fn is_led(led: LedChannels, i: int) -> bool {
    &&& led.red@ == led_path(i, 'r')
    &&& led.green@ == led_path(i, 'g')
    &&& led.blue@ == led_path(i, 'b')
}

/// Whether every file of the LED with index `i` exists.
pub open spec fn led_exists(existing: Seq<Seq<char>>, i: int) -> bool {
    &&& existing.contains(led_path(i, 'r'))
    &&& existing.contains(led_path(i, 'g'))
    &&& existing.contains(led_path(i, 'b'))
}

/// Whether every file of all eight LEDs exists.
pub open spec fn all_leds_exist(existing: Seq<Seq<char>>) -> bool {
    forall|i: int| 0 <= i < 8 ==> #[trigger] led_exists(existing, i)
}

/// Whether a backend consists of all eight LEDs, in order.
pub open spec fn is_all_leds(ind: IndividualBackend) -> bool {
    &&& ind.leds@.len() == 8
    &&& forall|i: int| 0 <= i < 8 ==> is_led(#[trigger] ind.leds@[i], i)
}

/// Writes the path of one channel of an LED; `prefix` ends in the letter of the channel.
fn channel_file(i: u32, prefix: &str, Ghost(channel): Ghost<char>) -> (r: String)
    requires
        i < 8,
        prefix@ == "/sys/class/leds/"@ + seq![side_of(i as int), ':', channel],
    ensures
        r@ == led_path(i as int, channel),
{
    let mut path = text::concat(prefix, text::decimal(i % 4 + 1).as_str());
    path.append("/brightness");
    path
}

/// The files of the LED with index `i`.
fn led_channels(i: u32) -> (r: LedChannels)
    requires
        i < 8,
    ensures
        is_led(r, i as int),
{
    proof {
        reveal_strlit("/sys/class/leds/");
        reveal_strlit("/sys/class/leds/l:r");
        reveal_strlit("/sys/class/leds/l:g");
        reveal_strlit("/sys/class/leds/l:b");
        reveal_strlit("/sys/class/leds/r:r");
        reveal_strlit("/sys/class/leds/r:g");
        reveal_strlit("/sys/class/leds/r:b");
        let base = "/sys/class/leds/"@;
        assert("/sys/class/leds/l:r"@ =~= base + seq!['l', ':', 'r']);
        assert("/sys/class/leds/l:g"@ =~= base + seq!['l', ':', 'g']);
        assert("/sys/class/leds/l:b"@ =~= base + seq!['l', ':', 'b']);
        assert("/sys/class/leds/r:r"@ =~= base + seq!['r', ':', 'r']);
        assert("/sys/class/leds/r:g"@ =~= base + seq!['r', ':', 'g']);
        assert("/sys/class/leds/r:b"@ =~= base + seq!['r', ':', 'b']);
    }
    if i < 4 {
        LedChannels {
            red: channel_file(i, "/sys/class/leds/l:r", Ghost('r')),
            green: channel_file(i, "/sys/class/leds/l:g", Ghost('g')),
            blue: channel_file(i, "/sys/class/leds/l:b", Ghost('b')),
        }
    } else {
        LedChannels {
            red: channel_file(i, "/sys/class/leds/r:r", Ghost('r')),
            green: channel_file(i, "/sys/class/leds/r:g", Ghost('g')),
            blue: channel_file(i, "/sys/class/leds/r:b", Ghost('b')),
        }
    }
}

/// Whether a list of paths holds `path`.
fn holds(paths: &Vec<String>, path: &str) -> (r: bool)
    ensures
        r == text::string_views(paths@).contains(path@),
{
    let ghost list = text::string_views(paths@);
    let mut i: usize = 0;
    while i < paths.len()
        invariant
            i <= paths.len(),
            list == text::string_views(paths@),
            forall|k: int| 0 <= k < i ==> list[k] != path@,
        decreases paths.len() - i,
    {
        assert(list[i as int] == paths@[i as int]@);
        if text::same(paths[i].as_str(), path) {
            return true;
        }
        i += 1;
    }
    false
}

/// Detects LEDs that can be set one by one, given which of their files exist: all eight
/// of them, or none.
pub fn detect_individual(existing: &Vec<String>) -> (r: Option<IndividualBackend>)
    ensures
        r is Some <==> all_leds_exist(text::string_views(existing@)),
        r matches Some(ind) ==> is_all_leds(ind),
{
    let ghost list = text::string_views(existing@);
    let mut leds: Vec<LedChannels> = Vec::new();
    let mut i: u32 = 0;
    while i < 8
        invariant
            i <= 8,
            leds@.len() == i,
            list == text::string_views(existing@),
            forall|k: int| 0 <= k < i ==> is_led(#[trigger] leds@[k], k),
            forall|k: int| 0 <= k < i ==> #[trigger] led_exists(list, k),
        decreases 8 - i,
    {
        let led = led_channels(i);
        if !holds(existing, led.red.as_str()) || !holds(existing, led.green.as_str()) || !holds(
            existing,
            led.blue.as_str(),
        ) {
            assert(!led_exists(list, i as int));
            return None;
        }
        leds.push(led);
        i += 1;
    }
    Some(IndividualBackend { leds })
}

// ---------------------------------------------------------------------------
// PWM chips
// ---------------------------------------------------------------------------

/// What is known of a directory that may belong to a PWM chip: its path, and what its
/// files `device/name` and `npwm` hold (nothing, where they cannot be read).
pub struct PwmProbe {
    pub path: String,
    pub name: String,
    pub npwm: String,
}

impl PwmProbe {
    /// The number of channels, if this is a chip that drives LEDs: one of the right name
    /// with whole LEDs of three channels.
    pub open spec fn channel_count(self) -> Option<u32> {
        let n = backend::u32_in(self.npwm@);
        if text::trimmed(self.name@) == PWM_NAME@ && n != 0 && n % 3 == 0 {
            Some(n)
        } else {
            None
        }
    }

    /// The number of channels, if this is a chip that drives LEDs.
    pub fn channels(&self) -> (r: Option<u32>)
        ensures
            r == self.channel_count(),
    {
        if !text::same(text::trim(self.name.as_str()), PWM_NAME) {
            return None;
        }
        let n: u32 = backend::read_u32(self.npwm.as_str());
        if n == 0 || n % 3 != 0 {
            return None;
        }
        Some(n)
    }
}

/// The paths of the chips that drive LEDs, in order.
pub open spec fn chip_paths(probes: Seq<PwmProbe>) -> Seq<Seq<char>>
    decreases probes.len(),
{
    if probes.len() == 0 {
        seq![]
    } else {
        let rest = chip_paths(probes.drop_last());
        if probes.last().channel_count() is Some {
            rest.push(probes.last().path@)
        } else {
            rest
        }
    }
}

/// Detects PWM chips.
pub fn detect_pwm(probes: &Vec<PwmProbe>) -> (r: Option<PwmBackend>)
    ensures
        r is Some <==> chip_paths(probes@).len() > 0,
        r matches Some(pwm) ==> {
            &&& text::string_views(pwm.chips@) == chip_paths(probes@)
            &&& pwm.period == PWM_PERIOD
            &&& pwm.wf()
        },
{
    let mut chips: Vec<String> = Vec::new();
    let mut i: usize = 0;
    assert(text::string_views(chips@) =~= chip_paths(probes@.take(0)));
    while i < probes.len()
        invariant
            i <= probes.len(),
            text::string_views(chips@) == chip_paths(probes@.take(i as int)),
        decreases probes.len() - i,
    {
        assert(probes@.take(i + 1).drop_last() =~= probes@.take(i as int));
        assert(probes@.take(i + 1).last() == probes@[i as int]);
        let probe = &probes[i];
        if probe.channels().is_some() {
            let ghost before = text::string_views(chips@);
            chips.push(String::from_str(probe.path.as_str()));
            assert(text::string_views(chips@) =~= before.push(probe.path@));
        }
        i += 1;
    }
    assert(probes@.take(i as int) =~= probes@);
    assert(text::string_views(chips@).len() == chips@.len());
    if chips.len() == 0 {
        None
    } else {
        Some(PwmBackend { chips, period: PWM_PERIOD })
    }
}

/// The writes that make one channel of a chip ready: it is exported where it has no
/// directory yet, then it is enabled and its period is set.
pub open spec fn setup_writes(chip: Seq<char>, channel: u32, present: bool) -> Seq<
    backend::Written,
> {
    let number = text::decimal_text(channel as nat);
    let dir = backend::joined(chip, "pwm"@ + number);
    let ready = seq![
        backend::Written { path: backend::joined(dir, "enable"@), text: "1"@ },
        backend::Written {
            path: backend::joined(dir, "period"@),
            text: text::decimal_text(PWM_PERIOD as nat),
        },
    ];
    if present {
        ready
    } else {
        seq![backend::Written { path: backend::joined(chip, "export"@), text: number }] + ready
    }
}

/// The directory of one channel of a chip.
pub fn channel_dir(chip: &str, channel: u32) -> (r: String)
    ensures
        r@ == backend::joined(chip@, "pwm"@ + text::decimal_text(channel as nat)),
{
    join(chip, text::concat("pwm", text::decimal(channel).as_str()).as_str())
}

/// Makes one channel of a chip ready; `present` tells whether it has a directory. Each
/// of the writes is made whether or not those before it failed.
pub fn channel_setup(chip: &str, channel: u32, present: bool) -> (r: Vec<FileWrite>)
    ensures
        backend::plan(r@) == setup_writes(chip@, channel, present),
{
    let dir = channel_dir(chip, channel);
    let mut writes: Vec<FileWrite> = Vec::new();
    if !present {
        writes.push(FileWrite { path: join(chip, "export"), text: text::decimal(channel) });
    }
    writes.push(FileWrite { path: join(dir.as_str(), "enable"), text: String::from_str("1") });
    writes.push(
        FileWrite { path: join(dir.as_str(), "period"), text: text::decimal(PWM_PERIOD) },
    );
    assert(backend::plan(writes@) =~= setup_writes(chip@, channel, present));
    writes
}

/// A chip, by its path, and one of its channels.
pub open spec fn steps_of(steps: Seq<(String, u32)>) -> Seq<(Seq<char>, u32)> {
    steps.map_values(|p: (String, u32)| (p.0@, p.1))
}

/// The channels of one probe that are made ready: all of them, if it is a chip that drives
/// LEDs, and none otherwise.
pub open spec fn chip_steps(probe: PwmProbe) -> Seq<(Seq<char>, u32)> {
    match probe.channel_count() {
        Some(n) => Seq::new(n as nat, |i: int| (probe.path@, i as u32)),
        None => seq![],
    }
}

/// The channels that are made ready: those of each chip that drives LEDs, in order.
pub open spec fn wanted_steps(probes: Seq<PwmProbe>) -> Seq<(Seq<char>, u32)>
    decreases probes.len(),
{
    if probes.len() == 0 {
        seq![]
    } else {
        wanted_steps(probes.drop_last()) + chip_steps(probes.last())
    }
}

/// Lists the channels to make ready.
pub fn setup_steps(probes: &Vec<PwmProbe>) -> (r: Vec<(String, u32)>)
    ensures
        steps_of(r@) == wanted_steps(probes@),
{
    let mut steps: Vec<(String, u32)> = Vec::new();
    let mut i: usize = 0;
    assert(steps_of(steps@) =~= wanted_steps(probes@.take(0)));
    while i < probes.len()
        invariant
            i <= probes.len(),
            steps_of(steps@) == wanted_steps(probes@.take(i as int)),
        decreases probes.len() - i,
    {
        let probe = &probes[i];
        let ghost before = steps_of(steps@);
        let ghost more = chip_steps(*probe);
        if let Some(n) = probe.channels() {
            let mut channel: u32 = 0;
            assert(steps_of(steps@) =~= before + more.take(0));
            while channel < n
                invariant
                    channel <= n,
                    probe.channel_count() == Some(n),
                    more == chip_steps(*probe),
                    steps_of(steps@) == before + more.take(channel as int),
                decreases n - channel,
            {
                let ghost earlier = steps_of(steps@);
                steps.push((String::from_str(probe.path.as_str()), channel));
                assert(steps_of(steps@) =~= earlier.push((probe.path@, channel)));
                assert(more.take(channel + 1) =~= more.take(channel as int).push(
                    (probe.path@, channel),
                ));
                assert(steps_of(steps@) =~= before + more.take(channel + 1));
                channel += 1;
            }
            assert(more.take(n as int) =~= more);
        } else {
            assert(before =~= before + more);
        }
        assert(probes@.take(i + 1).drop_last() =~= probes@.take(i as int));
        assert(probes@.take(i + 1).last() == *probe);
        i += 1;
    }
    assert(probes@.take(i as int) =~= probes@);
    steps
}

// ---------------------------------------------------------------------------
// Any backend
// ---------------------------------------------------------------------------

/// The paths on which the detection depends: that of the multicolour LED, then those of
/// the eight LEDs, red, green and blue of each.
pub open spec fn probed_paths() -> Seq<Seq<char>> {
    Seq::new(
        25,
        |k: int|
            if k == 0 {
                RGB_FILE@
            } else {
                led_path(
                    (k - 1) / 3,
                    if (k - 1) % 3 == 0 {
                        'r'
                    } else if (k - 1) % 3 == 1 {
                        'g'
                    } else {
                        'b'
                    },
                )
            },
    )
}

/// The paths whose existence the detection has to know.
pub fn probe_paths() -> (r: Vec<String>)
    ensures
        text::string_views(r@) == probed_paths(),
{
    let mut paths: Vec<String> = Vec::new();
    paths.push(String::from_str(RGB_FILE));
    let mut i: u32 = 0;
    let ghost all = probed_paths();
    assert(text::string_views(paths@) =~= all.take(1));
    while i < 8
        invariant
            i <= 8,
            all == probed_paths(),
            text::string_views(paths@) == all.take(1 + 3 * i),
        decreases 8 - i,
    {
        let led = led_channels(i);
        let ghost before = text::string_views(paths@);
        let ghost more = seq![led.red@, led.green@, led.blue@];
        paths.push(led.red);
        paths.push(led.green);
        paths.push(led.blue);
        assert(text::string_views(paths@) =~= before + more);
        assert(all.take(1 + 3 * (i + 1)) =~= all.take(1 + 3 * i) + more);
        i += 1;
    }
    assert(all.take(25) =~= all);
    paths
}

/// Detects the LED hardware, given which of the probed paths exist and what is known of
/// the PWM chips. A multicolour LED comes first, then LEDs that can be set one by one,
/// then PWM chips.
pub fn detect_backend(existing: &Vec<String>, probes: &Vec<PwmProbe>) -> (r: Option<Backend>)
    ensures
        ({
            let list = text::string_views(existing@);
            if list.contains(RGB_FILE@) {
                r matches Some(Backend::Rgb(rgb)) && rgb.base@ == RGB_BASE@
            } else if all_leds_exist(list) {
                r matches Some(Backend::Individual(ind)) && is_all_leds(ind)
            } else if chip_paths(probes@).len() > 0 {
                r matches Some(Backend::Pwm(pwm)) && text::string_views(pwm.chips@) == chip_paths(
                    probes@,
                ) && pwm.period == PWM_PERIOD
            } else {
                r is None
            }
        }),
        r matches Some(backend) ==> backend.wf(),
{
    if holds(existing, RGB_FILE) {
        return Some(Backend::Rgb(RgbBackend { base: String::from_str(RGB_BASE) }));
    }
    if let Some(ind) = detect_individual(existing) {
        return Some(Backend::Individual(ind));
    }
    if let Some(pwm) = detect_pwm(probes) {
        return Some(Backend::Pwm(pwm));
    }
    None
}

/// Lists the channels to make ready on the hardware that was detected: those of the PWM
/// chips, where these are what was detected, and none otherwise.
pub fn detected_setup(found: &Option<Backend>, probes: &Vec<PwmProbe>) -> (r: Vec<(String, u32)>)
    ensures
        steps_of(r@) == (if *found matches Some(Backend::Pwm(_)) {
            wanted_steps(probes@)
        } else {
            seq![]
        }),
{
    match found {
        Some(Backend::Pwm(_)) => setup_steps(probes),
        _ => {
            let none: Vec<(String, u32)> = Vec::new();
            assert(steps_of(none@) =~= seq![]);
            none
        },
    }
}

// ---------------------------------------------------------------------------
// Laws
// ---------------------------------------------------------------------------

/// A channel is made ready if and only if it is one of a chip that drives LEDs.
pub proof fn law_every_channel_is_made_ready(probes: Seq<PwmProbe>, path: Seq<char>, channel: u32)
    ensures
        wanted_steps(probes).contains((path, channel)) <==> exists|i: int|
            0 <= i < probes.len() && (#[trigger] probes[i]).path@ == path && (
            probes[i].channel_count() matches Some(n) && channel < n),
    decreases probes.len(),
{
    let step = (path, channel);
    if probes.len() > 0 {
        let rest = probes.drop_last();
        let last = probes.last();
        let before = wanted_steps(rest);
        let more = chip_steps(last);
        law_every_channel_is_made_ready(rest, path, channel);
        assert forall|i: int| 0 <= i < rest.len() implies #[trigger] rest[i] == probes[i] by {}
        if wanted_steps(probes).contains(step) {
            let k = wanted_steps(probes).index_of(step);
            if k < before.len() {
                assert(before[k] == step);
                let i = choose|i: int|
                    0 <= i < rest.len() && (#[trigger] rest[i]).path@ == path && (
                    rest[i].channel_count() matches Some(n) && channel < n);
                assert(probes[i] == rest[i]);
            } else {
                assert(more[k - before.len()] == step);
                assert(probes[probes.len() - 1] == last);
            }
        }
        if exists|i: int|
            0 <= i < probes.len() && (#[trigger] probes[i]).path@ == path && (
            probes[i].channel_count() matches Some(n) && channel < n) {
            let i = choose|i: int|
                0 <= i < probes.len() && (#[trigger] probes[i]).path@ == path && (
                probes[i].channel_count() matches Some(n) && channel < n);
            if i < rest.len() {
                assert(rest[i] == probes[i]);
                let k = before.index_of(step);
                assert(wanted_steps(probes)[k] == step);
            } else {
                assert(more[channel as int] == step);
                assert(wanted_steps(probes)[before.len() + channel] == step);
            }
        }
    }
}

/// Where the path of a channel differs from that of another.
proof fn lemma_led_path(i: int, channel: char)
    requires
        0 <= i < 8,
    ensures
        led_path(i, channel).len() == 31,
        led_path(i, channel)[16] == side_of(i),
        led_path(i, channel)[18] == channel,
        led_path(i, channel)[19] as u32 == 49 + i % 4,
{
    reveal_strlit("/sys/class/leds/");
    reveal_strlit("/brightness");
    let n = (i % 4 + 1) as nat;
    assert(text::decimal_text(n) =~= seq![text::digit_char(n)]);
}

/// No two channels of the detected LEDs share a file.
pub proof fn law_detected_leds_are_distinct(ind: IndividualBackend)
    requires
        is_all_leds(ind),
    ensures
        backend::distinct_channels(ind.leds@),
{
    assert forall|i: int, p: int, j: int, q: int|
        0 <= i < ind.leds@.len() && 0 <= j < ind.leds@.len() && 0 <= p < 3 && 0 <= q < 3 && (i != j
            || p != q) implies #[trigger] backend::channel_path(ind.leds@[i], p)
        != #[trigger] backend::channel_path(ind.leds@[j], q) by {
        let cp = if p == 0 { 'r' } else if p == 1 { 'g' } else { 'b' };
        let cq = if q == 0 { 'r' } else if q == 1 { 'g' } else { 'b' };
        assert(is_led(ind.leds@[i], i));
        assert(is_led(ind.leds@[j], j));
        lemma_led_path(i, cp);
        lemma_led_path(j, cq);
    }
}

/// The file that shows a multicolour LED is the one that its colour is written to.
pub proof fn law_rgb_file_is_color_file(rgb: RgbBackend)
    requires
        rgb.base@ == RGB_BASE@,
    ensures
        rgb.color_path() == RGB_FILE@,
{
    reveal_strlit("/sys/class/leds/multicolor:chassis");
    reveal_strlit("/sys/class/leds/multicolor:chassis/multi_intensity");
    reveal_strlit("multi_intensity");
    reveal_strlit("/");
    assert(rgb.color_path() =~= RGB_FILE@);
}

/// The files of the LEDs: those with indices 0 to 3 are numbered from one on the left, and
/// those with indices 4 to 7 on the right.
pub proof fn law_led_files(i: int, channel: char)
    requires
        0 <= i < 8,
    ensures
        led_path(i, channel) == "/sys/class/leds/"@ + seq![
            if i < 4 {
                'l'
            } else {
                'r'
            },
            ':',
            channel,
            if i == 0 || i == 4 {
                '1'
            } else if i == 1 || i == 5 {
                '2'
            } else if i == 2 || i == 6 {
                '3'
            } else {
                '4'
            },
        ] + "/brightness"@,
{
    let n = (i % 4 + 1) as nat;
    assert(text::decimal_text(n) =~= seq![text::digit_char(n)]);
    assert(led_path(i, channel) =~= "/sys/class/leds/"@ + seq![
        side_of(i),
        ':',
        channel,
        text::digit_char(n),
    ] + "/brightness"@);
}

/// Single LEDs are detected exactly if the file of every channel of each of them exists.
pub proof fn law_every_led_file_is_needed(existing: Seq<Seq<char>>, i: int)
    requires
        0 <= i < 8,
    ensures
        all_leds_exist(existing) ==> existing.contains(led_path(i, 'r')) && existing.contains(
            led_path(i, 'g'),
        ) && existing.contains(led_path(i, 'b')),
        (forall|j: int|
            0 <= j < 8 ==> existing.contains(#[trigger] led_path(j, 'r')) && existing.contains(
                led_path(j, 'g'),
            ) && existing.contains(led_path(j, 'b'))) ==> all_leds_exist(existing),
        probed_paths().len() == 25,
        probed_paths()[0] == "/sys/class/leds/multicolor:chassis/multi_intensity"@,
        probed_paths()[1 + 3 * i] == led_path(i, 'r'),
        probed_paths()[2 + 3 * i] == led_path(i, 'g'),
        probed_paths()[3 + 3 * i] == led_path(i, 'b'),
{
    if all_leds_exist(existing) {
        assert(led_exists(existing, i));
    }
    if forall|j: int|
        0 <= j < 8 ==> existing.contains(#[trigger] led_path(j, 'r')) && existing.contains(
            led_path(j, 'g'),
        ) && existing.contains(led_path(j, 'b')) {
        assert forall|j: int| 0 <= j < 8 implies #[trigger] led_exists(existing, j) by {
            assert(existing.contains(led_path(j, 'r')));
        }
    }
}

/// A directory is that of a chip that drives LEDs exactly if the chip has the right name and
/// its number of channels is a multiple of three, but not zero, whatever white space stands
/// around both.
pub proof fn law_chip_is_known(
    probe: PwmProbe,
    n: u32,
    a: Seq<char>,
    b: Seq<char>,
    c: Seq<char>,
    d: Seq<char>,
)
    requires
        text::all_white(a) && text::all_white(b) && text::all_white(c) && text::all_white(d),
        probe.npwm@ == c + text::decimal_text(n as nat) + d,
    ensures
        probe.name@ == a + "htr3212-pwm"@ + b ==> probe.channel_count() == (if n > 0 && n % 3
            == 0 {
            Some(n)
        } else {
            None
        }),
        text::trimmed(probe.name@) != "htr3212-pwm"@ ==> probe.channel_count() is None,
{
    reveal_strlit("htr3212-pwm");
    let name = "htr3212-pwm"@;
    assert(a + name + b =~= a + (name + b));
    text::lemma_trimmed_both(a, name, b);
    backend::law_number_in_file(n as nat, c, d, seq![]);
}

/// A probe without a number of channels is that of no chip.
pub proof fn law_chip_needs_channels(probe: PwmProbe)
    requires
        text::number(text::trimmed(probe.npwm@), u32::MAX as nat) is None,
    ensures
        probe.channel_count() is None,
{
}

/// The chips, and the channels to make ready, of two lists of probes are those of the first
/// and then those of the second. One probe gives its path, if it is a chip, and its channels
/// from zero on.
pub proof fn law_chips_add(a: Seq<PwmProbe>, b: Seq<PwmProbe>, probe: PwmProbe, i: int)
    ensures
        chip_paths(a + b) == chip_paths(a) + chip_paths(b),
        wanted_steps(a + b) == wanted_steps(a) + wanted_steps(b),
        chip_paths(seq![]) == Seq::<Seq<char>>::empty(),
        wanted_steps(seq![]) == Seq::<(Seq<char>, u32)>::empty(),
        match probe.channel_count() {
            Some(n) => {
                &&& chip_paths(seq![probe]) == seq![probe.path@]
                &&& wanted_steps(seq![probe]).len() == n
                &&& 0 <= i < n ==> wanted_steps(seq![probe])[i].0 == probe.path@ && wanted_steps(
                    seq![probe],
                )[i].1 == i
            },
            None => chip_paths(seq![probe]).len() == 0 && wanted_steps(seq![probe]).len() == 0,
        },
    decreases b.len(),
{
    assert(seq![probe].drop_last() =~= seq![]);
    assert(chip_paths(seq![probe].drop_last()) =~= seq![]);
    assert(wanted_steps(seq![probe].drop_last()) =~= seq![]);
    if b.len() == 0 {
        assert(a + b =~= a);
        assert(chip_paths(a) + chip_paths(b) =~= chip_paths(a));
        assert(wanted_steps(a) + wanted_steps(b) =~= wanted_steps(a));
    } else {
        assert((a + b).drop_last() =~= a + b.drop_last());
        assert((a + b).last() == b.last());
        law_chips_add(a, b.drop_last(), probe, i);
        assert(chip_paths(a + b) =~= chip_paths(a) + chip_paths(b));
        assert(wanted_steps(a + b) =~= wanted_steps(a) + wanted_steps(b));
    }
    if probe.channel_count() is Some {
        assert(chip_paths(seq![probe]) =~= seq![probe.path@]);
    }
}

/// A channel is made ready by enabling it and setting its period to a hundred; one without a
/// directory is exported first.
pub proof fn law_channel_is_made_ready(chip: Seq<char>, channel: u32, present: bool)
    ensures
        ({
            let number = text::decimal_text(channel as nat);
            let writes = setup_writes(chip, channel, present);
            let dir = backend::joined(chip, "pwm"@ + number);
            let ready: int = if present {
                0
            } else {
                1
            };
            &&& writes.len() == ready + 2
            &&& !present ==> writes[0].path == backend::joined(chip, "export"@) && writes[0].text
                == number
            &&& writes[ready].path == backend::joined(dir, "enable"@) && writes[ready].text == "1"@
            &&& writes[ready + 1].path == backend::joined(dir, "period"@) && writes[ready + 1].text
                == "100"@
        }),
{
    reveal_strlit("100");
    reveal_with_fuel(text::decimal_text, 4);
    assert(text::decimal_text(100) =~= "100"@);
}

} // verus!

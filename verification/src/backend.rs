//! The LED backends: which files a request writes or reads, and what it makes of them.
//!
//! A request to change the LEDs is answered with the list of file writes that carry it
//! out, in order; the writes that follow a failed one are not made. A request to read
//! them takes the contents of the files that it asked for.
use crate::color;
use crate::color::LedError;
use crate::conf;
use crate::text;
use vstd::prelude::*;

verus! {

/// One write: the whole of `text` into the file at `path`.
pub struct FileWrite {
    pub path: String,
    pub text: String,
}

/// What a write does.
pub struct Written {
    pub path: Seq<char>,
    pub text: Seq<char>,
}

impl View for FileWrite {
    type V = Written;

    open spec fn view(&self) -> Written {
        Written { path: self.path@, text: self.text@ }
    }
}

/// What a list of writes does.
pub open spec fn plan(writes: Seq<FileWrite>) -> Seq<Written> {
    writes.map_values(|w: FileWrite| w@)
}

/// What a list of writes does, where there is one.
pub open spec fn plan_or_error(r: Result<Vec<FileWrite>, LedError>) -> Result<
    Seq<Written>,
    LedError,
> {
    match r {
        Ok(writes) => Ok(plan(writes@)),
        Err(e) => Err(e),
    }
}

/// A list of paths, where there is one.
pub open spec fn paths_or_error(r: Result<Vec<String>, LedError>) -> Result<
    Seq<Seq<char>>,
    LedError,
> {
    match r {
        Ok(paths) => Ok(text::string_views(paths@)),
        Err(e) => Err(e),
    }
}

/// The path of `name` in the directory `base`.
pub open spec fn joined(base: Seq<char>, name: Seq<char>) -> Seq<char> {
    if base.len() == 0 || base.last() == '/' {
        base + name
    } else {
        base + "/"@ + name
    }
}

/// The path of `name` in the directory `base`.
pub fn join(base: &str, name: &str) -> (r: String)
    ensures
        r@ == joined(base@, name@),
{
    let n: usize = base.unicode_len();
    let mut path = String::from_str(base);
    if n > 0 && base.get_char(n - 1) != '/' {
        path.append("/");
    }
    path.append(name);
    path
}

/// Adds one write to a list.
fn push_write(writes: &mut Vec<FileWrite>, path: String, content: String)
    ensures
        plan(final(writes)@) == plan(old(writes)@).push(Written { path: path@, text: content@ }),
{
    let ghost before = writes@;
    writes.push(FileWrite { path, text: content });
    assert(plan(writes@) =~= plan(before).push(Written { path: path@, text: content@ }));
}

/// Adds one path to a list.
fn push_path(paths: &mut Vec<String>, path: String)
    ensures
        text::string_views(final(paths)@) == text::string_views(old(paths)@).push(path@),
{
    let ghost before = paths@;
    paths.push(path);
    assert(text::string_views(paths@) =~= text::string_views(before).push(path@));
}

/// The number in a file of eight bits; zero where there is none.
pub open spec fn u8_in(content: Seq<char>) -> u8 {
    text::u8_or(text::trimmed(content), 0)
}

/// Reads the contents of a file that holds a number of eight bits.
pub fn read_u8(content: &str) -> (r: u8)
    ensures
        r == u8_in(content@),
{
    text::parse_u8_or(text::trim(content), 0)
}

/// The number in a file of thirty-two bits; zero where there is none.
pub open spec fn u32_in(content: Seq<char>) -> u32 {
    match text::number(text::trimmed(content), u32::MAX as nat) {
        Some(n) => n as u32,
        None => 0,
    }
}

/// Reads the contents of a file that holds a number of thirty-two bits.
pub fn read_u32(content: &str) -> (r: u32)
    ensures
        r == u32_in(content@),
{
    match text::parse_number(text::trim(content), u32::MAX as u64) {
        Some(n) => n as u32,
        None => 0,
    }
}

// ---------------------------------------------------------------------------
// RGB: one multicolour LED
// ---------------------------------------------------------------------------

/// A multicolour LED with its files in the directory `base`.
pub struct RgbBackend {
    pub base: String,
}

impl RgbBackend {
    /// The file that holds the colour.
    pub open spec fn color_path(self) -> Seq<char> {
        joined(self.base@, "multi_intensity"@)
    }

    /// The writes that set a colour.
    pub open spec fn color_writes(self, r: u8, g: u8, b: u8) -> Seq<Written> {
        seq![Written { path: self.color_path(), text: color::rgb_text(r, g, b) }]
    }

    /// The writes that set the brightness.
    pub open spec fn brightness_writes(self, b: u8) -> Seq<Written> {
        seq![
            Written { path: joined(self.base@, "brightness"@), text: text::decimal_text(b as nat) },
        ]
    }

    /// Sets the colour.
    pub fn set_color(&self, r: u8, g: u8, b: u8) -> (res: Vec<FileWrite>)
        ensures
            plan(res@) == self.color_writes(r, g, b),
    {
        let mut writes: Vec<FileWrite> = Vec::new();
        push_write(
            &mut writes,
            join(self.base.as_str(), "multi_intensity"),
            color::format_rgb(r, g, b),
        );
        assert(plan(writes@) =~= self.color_writes(r, g, b));
        writes
    }

    /// Reads the colour from the contents of its file.
    pub fn get_color(&self, content: &str) -> (res: Result<(u8, u8, u8), LedError>)
        ensures
            res == color::space_rgb(text::trimmed(content@)),
    {
        color::parse_space_rgb(text::trim(content))
    }

    /// Sets the brightness.
    pub fn set_brightness(&self, b: u8) -> (res: Vec<FileWrite>)
        ensures
            plan(res@) == self.brightness_writes(b),
    {
        let mut writes: Vec<FileWrite> = Vec::new();
        push_write(&mut writes, join(self.base.as_str(), "brightness"), text::decimal(b as u32));
        assert(plan(writes@) =~= self.brightness_writes(b));
        writes
    }

    /// Reads the current and the greatest brightness from the contents of their files.
    pub fn get_brightness(&self, current: &str, greatest: &str) -> (res: (u8, u8))
        ensures
            res == (
                text::u8_or(text::trimmed(current@), 0),
                text::u8_or(text::trimmed(greatest@), 255),
            ),
    {
        (
            text::parse_u8_or(text::trim(current), 0),
            text::parse_u8_or(text::trim(greatest), 255),
        )
    }
}

// ---------------------------------------------------------------------------
// PWM: chips with twelve channels
// ---------------------------------------------------------------------------

/// PWM chips, each of which drives four LEDs of three channels.
pub struct PwmBackend {
    pub chips: Vec<String>,
    pub period: u32,
}

/// The name of the file that holds the duty cycle of a channel.
pub open spec fn duty_name(channel: nat) -> Seq<char> {
    "pwm"@ + text::decimal_text(channel) + "/duty_cycle"@
}

/// The duty cycle of a component of a colour, in decimal.
pub open spec fn duty_text(c: u8, period: u32) -> Seq<char> {
    text::decimal_text((c * period / 255) as nat)
}

/// The writes that set the four channels from `first` on, three apart, to one text.
pub open spec fn channel_writes(chip: Seq<char>, first: nat, content: Seq<char>) -> Seq<Written> {
    Seq::new(
        4,
        |k: int| Written { path: joined(chip, duty_name((first + 3 * k) as nat)), text: content },
    )
}

/// The writes that set a colour on a list of chips: on each chip first the red
/// channels, then the green, then the blue ones.
pub open spec fn pwm_writes(
    chips: Seq<String>,
    period: u32,
    r: u8,
    g: u8,
    b: u8,
) -> Seq<Written>
    decreases chips.len(),
{
    if chips.len() == 0 {
        seq![]
    } else {
        let chip = chips.last()@;
        pwm_writes(chips.drop_last(), period, r, g, b) + channel_writes(
            chip,
            0,
            duty_text(r, period),
        ) + channel_writes(chip, 1, duty_text(g, period)) + channel_writes(
            chip,
            2,
            duty_text(b, period),
        )
    }
}

/// The component of a colour that a duty cycle stands for, cut down to eight bits.
pub open spec fn component_of(duty: u32, period: u32) -> u8 {
    ((duty * 255 / period as int) % 256) as u8
}

/// Writes the name of the file that holds the duty cycle of a channel.
fn duty_file(channel: u32) -> (r: String)
    ensures
        r@ == duty_name(channel as nat),
{
    let mut name = text::concat("pwm", text::decimal(channel).as_str());
    name.append("/duty_cycle");
    name
}

fn set_channels(writes: &mut Vec<FileWrite>, chip: &str, first: u32, content: &str)
    requires
        first < 3,
    ensures
        plan(final(writes)@) == plan(old(writes)@) + channel_writes(chip@, first as nat, content@),
{
    let ghost before = plan(writes@);
    let ghost all = channel_writes(chip@, first as nat, content@);
    let mut k: u32 = 0;
    assert(before =~= before + all.take(0));
    while k < 4
        invariant
            k <= 4,
            first < 3,
            all == channel_writes(chip@, first as nat, content@),
            plan(writes@) == before + all.take(k as int),
        decreases 4 - k,
    {
        let name = duty_file(first + 3 * k);
        push_write(writes, join(chip, name.as_str()), String::from_str(content));
        assert(all.take(k + 1) =~= all.take(k as int).push(all[k as int]));
        assert(plan(writes@) =~= before + all.take(k + 1));
        k += 1;
    }
    assert(all.take(4) =~= all);
}

impl PwmBackend {
    /// The duty cycle of every component fits.
    pub open spec fn wf(self) -> bool {
        255 * self.period <= u32::MAX
    }

    /// Whether a component can be computed from the contents of its duty cycle file.
    pub open spec fn fits(self, content: Seq<char>) -> bool {
        0 < self.period && u32_in(content) * 255 <= u32::MAX
    }

    /// The colour that the contents of three duty cycle files stand for.
    pub open spec fn color_in(self, red: Seq<char>, green: Seq<char>, blue: Seq<char>) -> Result<
        (u8, u8, u8),
        LedError,
    > {
        if self.chips@.len() == 0 {
            Err(LedError::NoPwmChip)
        } else {
            Ok(
                (
                    component_of(u32_in(red), self.period),
                    component_of(u32_in(green), self.period),
                    component_of(u32_in(blue), self.period),
                ),
            )
        }
    }

    /// The files that hold the colour: the first three channels of the first chip.
    pub open spec fn color_paths(self) -> Result<Seq<Seq<char>>, LedError> {
        if self.chips@.len() == 0 {
            Err(LedError::NoPwmChip)
        } else {
            let chip = self.chips@[0]@;
            Ok(
                seq![
                    joined(chip, duty_name(0)),
                    joined(chip, duty_name(1)),
                    joined(chip, duty_name(2)),
                ],
            )
        }
    }

    /// Sets the colour on every chip.
    pub fn set_color(&self, r: u8, g: u8, b: u8) -> (res: Vec<FileWrite>)
        requires
            self.wf(),
        ensures
            plan(res@) == pwm_writes(self.chips@, self.period, r, g, b),
    {
        let period: u32 = self.period;
        proof {
            lemma_duty(r, period);
            lemma_duty(g, period);
            lemma_duty(b, period);
        }
        let red = text::decimal(r as u32 * period / 255);
        let green = text::decimal(g as u32 * period / 255);
        let blue = text::decimal(b as u32 * period / 255);
        let mut writes: Vec<FileWrite> = Vec::new();
        let mut i: usize = 0;
        assert(plan(writes@) =~= pwm_writes(self.chips@.take(0), period, r, g, b));
        while i < self.chips.len()
            invariant
                i <= self.chips.len(),
                period == self.period,
                red@ == duty_text(r, period),
                green@ == duty_text(g, period),
                blue@ == duty_text(b, period),
                plan(writes@) == pwm_writes(self.chips@.take(i as int), period, r, g, b),
            decreases self.chips.len() - i,
        {
            let chip = self.chips[i].as_str();
            set_channels(&mut writes, chip, 0, red.as_str());
            set_channels(&mut writes, chip, 1, green.as_str());
            set_channels(&mut writes, chip, 2, blue.as_str());
            assert(self.chips@.take(i + 1).drop_last() =~= self.chips@.take(i as int));
            assert(self.chips@.take(i + 1).last() == self.chips@[i as int]);
            i += 1;
        }
        assert(self.chips@.take(i as int) =~= self.chips@);
        writes
    }

    /// The files that hold the colour.
    pub fn color_files(&self) -> (res: Result<Vec<String>, LedError>)
        ensures
            paths_or_error(res) == self.color_paths(),
    {
        if self.chips.len() == 0 {
            return Err(LedError::NoPwmChip);
        }
        let chip = self.chips[0].as_str();
        let mut paths: Vec<String> = Vec::new();
        push_path(&mut paths, join(chip, duty_file(0).as_str()));
        push_path(&mut paths, join(chip, duty_file(1).as_str()));
        push_path(&mut paths, join(chip, duty_file(2).as_str()));
        assert(text::string_views(paths@) =~= self.color_paths()->Ok_0);
        Ok(paths)
    }

    /// Reads the colour from the contents of the duty cycle files.
    pub fn get_color(&self, red: &str, green: &str, blue: &str) -> (res: Result<
        (u8, u8, u8),
        LedError,
    >)
        requires
            self.chips@.len() > 0 ==> self.fits(red@) && self.fits(green@) && self.fits(blue@),
        ensures
            res == self.color_in(red@, green@, blue@),
    {
        if self.chips.len() == 0 {
            return Err(LedError::NoPwmChip);
        }
        let r: u32 = read_u32(red);
        let g: u32 = read_u32(green);
        let b: u32 = read_u32(blue);
        Ok(
            (
                low_byte(r * 255 / self.period),
                low_byte(g * 255 / self.period),
                low_byte(b * 255 / self.period),
            ),
        )
    }
}

/// The low eight bits of a number.
fn low_byte(n: u32) -> (r: u8)
    ensures
        r == n % 256,
{
    (n % 256) as u8
}

proof fn lemma_duty(c: u8, period: u32)
    requires
        255 * period <= u32::MAX,
    ensures
        c * period <= u32::MAX,
{
    assert(c * period <= 255 * period) by (nonlinear_arith)
        requires
            c <= 255,
    ;
}

// ---------------------------------------------------------------------------
// Individual: LEDs with one file for each channel
// ---------------------------------------------------------------------------

/// The files of one LED.
pub struct LedChannels {
    pub red: String,
    pub green: String,
    pub blue: String,
}

/// The file of one channel: red, green or blue.
pub open spec fn channel_path(led: LedChannels, channel: int) -> Seq<char> {
    if channel == 0 {
        led.red@
    } else if channel == 1 {
        led.green@
    } else {
        led.blue@
    }
}

/// Whether no two channels of the LEDs share a file.
pub open spec fn distinct_channels(leds: Seq<LedChannels>) -> bool {
    forall|i: int, p: int, j: int, q: int|
        0 <= i < leds.len() && 0 <= j < leds.len() && 0 <= p < 3 && 0 <= q < 3 && (i != j || p != q)
            ==> #[trigger] channel_path(leds[i], p) != #[trigger] channel_path(leds[j], q)
}

/// The writes that set one LED: red, green, blue.
pub open spec fn channel_plan(led: LedChannels, r: u8, g: u8, b: u8) -> Seq<Written> {
    seq![
        Written { path: led.red@, text: text::decimal_text(r as nat) },
        Written { path: led.green@, text: text::decimal_text(g as nat) },
        Written { path: led.blue@, text: text::decimal_text(b as nat) },
    ]
}

/// The writes that set every LED of a list, in order.
pub open spec fn all_channels_plan(leds: Seq<LedChannels>, r: u8, g: u8, b: u8) -> Seq<Written>
    decreases leds.len(),
{
    if leds.len() == 0 {
        seq![]
    } else {
        all_channels_plan(leds.drop_last(), r, g, b) + channel_plan(leds.last(), r, g, b)
    }
}

/// LEDs that can be set one by one.
pub struct IndividualBackend {
    pub leds: Vec<LedChannels>,
}

impl IndividualBackend {
    /// The writes that set one LED.
    pub open spec fn led_writes(self, index: int, r: u8, g: u8, b: u8) -> Result<
        Seq<Written>,
        LedError,
    > {
        if index < self.leds@.len() {
            Ok(channel_plan(self.leds@[index], r, g, b))
        } else {
            Err(LedError::IndexOutOfRange)
        }
    }

    /// The files of one LED.
    pub open spec fn led_paths(self, index: int) -> Result<Seq<Seq<char>>, LedError> {
        if index < self.leds@.len() {
            let led = self.leds@[index];
            Ok(seq![led.red@, led.green@, led.blue@])
        } else {
            Err(LedError::IndexOutOfRange)
        }
    }

    /// The colour of one LED, from the contents of its files.
    pub open spec fn led_color_in(
        self,
        index: int,
        red: Seq<char>,
        green: Seq<char>,
        blue: Seq<char>,
    ) -> Result<(u8, u8, u8), LedError> {
        if index < self.leds@.len() {
            Ok((u8_in(red), u8_in(green), u8_in(blue)))
        } else {
            Err(LedError::IndexOutOfRange)
        }
    }

    /// Sets one LED.
    pub fn set_led(&self, index: usize, r: u8, g: u8, b: u8) -> (res: Result<
        Vec<FileWrite>,
        LedError,
    >)
        ensures
            plan_or_error(res) == self.led_writes(index as int, r, g, b),
    {
        if index >= self.leds.len() {
            return Err(LedError::IndexOutOfRange);
        }
        let mut writes: Vec<FileWrite> = Vec::new();
        self.push_led(&mut writes, index, r, g, b);
        assert(plan(writes@) =~= channel_plan(self.leds@[index as int], r, g, b));
        Ok(writes)
    }

    fn push_led(&self, writes: &mut Vec<FileWrite>, index: usize, r: u8, g: u8, b: u8)
        requires
            index < self.leds@.len(),
        ensures
            plan(final(writes)@) == plan(old(writes)@) + channel_plan(
                self.leds@[index as int],
                r,
                g,
                b,
            ),
    {
        let ghost before = plan(writes@);
        let led = &self.leds[index];
        push_write(writes, String::from_str(led.red.as_str()), text::decimal(r as u32));
        push_write(writes, String::from_str(led.green.as_str()), text::decimal(g as u32));
        push_write(writes, String::from_str(led.blue.as_str()), text::decimal(b as u32));
        assert(plan(writes@) =~= before + channel_plan(*led, r, g, b));
    }

    /// Sets every LED.
    pub fn set_all(&self, r: u8, g: u8, b: u8) -> (res: Vec<FileWrite>)
        ensures
            plan(res@) == all_channels_plan(self.leds@, r, g, b),
    {
        let mut writes: Vec<FileWrite> = Vec::new();
        let mut i: usize = 0;
        assert(plan(writes@) =~= all_channels_plan(self.leds@.take(0), r, g, b));
        while i < self.leds.len()
            invariant
                i <= self.leds.len(),
                plan(writes@) == all_channels_plan(self.leds@.take(i as int), r, g, b),
            decreases self.leds.len() - i,
        {
            self.push_led(&mut writes, i, r, g, b);
            assert(self.leds@.take(i + 1).drop_last() =~= self.leds@.take(i as int));
            assert(self.leds@.take(i + 1).last() == self.leds@[i as int]);
            i += 1;
        }
        assert(self.leds@.take(i as int) =~= self.leds@);
        writes
    }

    /// The files of one LED.
    pub fn led_files(&self, index: usize) -> (res: Result<Vec<String>, LedError>)
        ensures
            paths_or_error(res) == self.led_paths(index as int),
    {
        if index >= self.leds.len() {
            return Err(LedError::IndexOutOfRange);
        }
        let led = &self.leds[index];
        let mut paths: Vec<String> = Vec::new();
        push_path(&mut paths, String::from_str(led.red.as_str()));
        push_path(&mut paths, String::from_str(led.green.as_str()));
        push_path(&mut paths, String::from_str(led.blue.as_str()));
        assert(text::string_views(paths@) =~= seq![led.red@, led.green@, led.blue@]);
        Ok(paths)
    }

    /// Reads the colour of one LED from the contents of its files.
    pub fn get_led(&self, index: usize, red: &str, green: &str, blue: &str) -> (res: Result<
        (u8, u8, u8),
        LedError,
    >)
        ensures
            res == self.led_color_in(index as int, red@, green@, blue@),
    {
        if index >= self.leds.len() {
            return Err(LedError::IndexOutOfRange);
        }
        Ok((read_u8(red), read_u8(green), read_u8(blue)))
    }
}

// ---------------------------------------------------------------------------
// Any backend
// ---------------------------------------------------------------------------

/// The kinds of LED hardware.
pub enum Backend {
    Rgb(RgbBackend),
    Pwm(PwmBackend),
    Individual(IndividualBackend),
}

impl Backend {
    /// What holds of every backend that is detected.
    pub open spec fn wf(self) -> bool {
        match self {
            Backend::Pwm(pwm) => pwm.wf(),
            _ => true,
        }
    }

    /// The writes that set every LED to one colour.
    pub open spec fn color_writes(self, r: u8, g: u8, b: u8) -> Seq<Written> {
        match self {
            Backend::Rgb(rgb) => rgb.color_writes(r, g, b),
            Backend::Pwm(pwm) => pwm_writes(pwm.chips@, pwm.period, r, g, b),
            Backend::Individual(ind) => all_channels_plan(ind.leds@, r, g, b),
        }
    }

    /// The writes that set one LED; every LED, where they cannot be told apart.
    pub open spec fn led_writes(self, index: int, r: u8, g: u8, b: u8) -> Result<
        Seq<Written>,
        LedError,
    > {
        match self {
            Backend::Individual(ind) => ind.led_writes(index, r, g, b),
            _ => Ok(self.color_writes(r, g, b)),
        }
    }

    /// The files from which the colour is read.
    pub open spec fn color_paths(self) -> Result<Seq<Seq<char>>, LedError> {
        match self {
            Backend::Rgb(rgb) => Ok(seq![rgb.color_path()]),
            Backend::Pwm(pwm) => pwm.color_paths(),
            Backend::Individual(ind) => ind.led_paths(0),
        }
    }

    /// How many files hold the colour.
    pub open spec fn color_path_count(self) -> nat {
        match self {
            Backend::Rgb(_) => 1,
            _ => 3,
        }
    }

    /// The colour, from the contents of the files that hold it.
    pub open spec fn color_in(self, contents: Seq<Seq<char>>) -> Result<(u8, u8, u8), LedError> {
        match self {
            Backend::Rgb(rgb) => color::space_rgb(text::trimmed(contents[0])),
            Backend::Pwm(pwm) => pwm.color_in(contents[0], contents[1], contents[2]),
            Backend::Individual(ind) => ind.led_color_in(
                0,
                contents[0],
                contents[1],
                contents[2],
            ),
        }
    }

    /// Whether the colour can be computed from the contents of the files that hold it.
    pub open spec fn fits(self, contents: Seq<Seq<char>>) -> bool {
        match self {
            Backend::Pwm(pwm) => pwm.chips@.len() > 0 ==> pwm.fits(contents[0]) && pwm.fits(
                contents[1],
            ) && pwm.fits(contents[2]),
            _ => true,
        }
    }

    /// The writes that set the brightness; only an RGB backend has one.
    pub open spec fn brightness_writes(self, b: u8) -> Seq<Written> {
        match self {
            Backend::Rgb(rgb) => rgb.brightness_writes(b),
            _ => seq![],
        }
    }

    /// The files from which the brightness is read.
    pub open spec fn brightness_paths(self) -> Seq<Seq<char>> {
        match self {
            Backend::Rgb(rgb) => seq![
                joined(rgb.base@, "brightness"@),
                joined(rgb.base@, "max_brightness"@),
            ],
            _ => seq![],
        }
    }

    /// The current and the greatest brightness, from the contents of their files.
    pub open spec fn brightness_in(self, contents: Seq<Seq<char>>) -> (u8, u8) {
        match self {
            Backend::Rgb(_) => (
                text::u8_or(text::trimmed(contents[0]), 0),
                text::u8_or(text::trimmed(contents[1]), 255),
            ),
            _ => (255, 255),
        }
    }

    /// Sets every LED to one colour.
    pub fn set_all_color(&self, r: u8, g: u8, b: u8) -> (res: Vec<FileWrite>)
        requires
            self.wf(),
        ensures
            plan(res@) == self.color_writes(r, g, b),
    {
        match self {
            Backend::Rgb(rgb) => rgb.set_color(r, g, b),
            Backend::Pwm(pwm) => pwm.set_color(r, g, b),
            Backend::Individual(ind) => ind.set_all(r, g, b),
        }
    }

    /// The files from which the colour is read.
    pub fn color_files(&self) -> (res: Result<Vec<String>, LedError>)
        ensures
            paths_or_error(res) == self.color_paths(),
    {
        match self {
            Backend::Rgb(rgb) => {
                let mut paths: Vec<String> = Vec::new();
                push_path(&mut paths, join(rgb.base.as_str(), "multi_intensity"));
                assert(text::string_views(paths@) =~= seq![rgb.color_path()]);
                Ok(paths)
            },
            Backend::Pwm(pwm) => pwm.color_files(),
            Backend::Individual(ind) => ind.led_files(0),
        }
    }

    /// Reads the colour from the contents of the files that hold it.
    pub fn get_color(&self, contents: &Vec<String>) -> (res: Result<(u8, u8, u8), LedError>)
        requires
            contents@.len() == self.color_path_count(),
            self.fits(text::string_views(contents@)),
        ensures
            res == self.color_in(text::string_views(contents@)),
    {
        let ghost views = text::string_views(contents@);
        assert(views[0] == contents@[0]@);
        match self {
            Backend::Rgb(rgb) => rgb.get_color(contents[0].as_str()),
            Backend::Pwm(pwm) => {
                assert(views[1] == contents@[1]@ && views[2] == contents@[2]@);
                pwm.get_color(contents[0].as_str(), contents[1].as_str(), contents[2].as_str())
            },
            Backend::Individual(ind) => {
                assert(views[1] == contents@[1]@ && views[2] == contents@[2]@);
                ind.get_led(0, contents[0].as_str(), contents[1].as_str(), contents[2].as_str())
            },
        }
    }

    /// Turns every LED off.
    pub fn turn_off(&self) -> (res: Vec<FileWrite>)
        requires
            self.wf(),
        ensures
            plan(res@) == self.color_writes(0, 0, 0),
    {
        self.set_all_color(0, 0, 0)
    }

    /// Sets the brightness, where the backend has one.
    pub fn set_brightness(&self, b: u8) -> (res: Vec<FileWrite>)
        ensures
            plan(res@) == self.brightness_writes(b),
    {
        match self {
            Backend::Rgb(rgb) => rgb.set_brightness(b),
            _ => {
                let writes: Vec<FileWrite> = Vec::new();
                assert(plan(writes@) =~= seq![]);
                writes
            },
        }
    }

    /// The files from which the brightness is read.
    pub fn brightness_files(&self) -> (res: Vec<String>)
        ensures
            text::string_views(res@) == self.brightness_paths(),
    {
        let mut paths: Vec<String> = Vec::new();
        match self {
            Backend::Rgb(rgb) => {
                push_path(&mut paths, join(rgb.base.as_str(), "brightness"));
                push_path(&mut paths, join(rgb.base.as_str(), "max_brightness"));
            },
            _ => {},
        }
        assert(text::string_views(paths@) =~= self.brightness_paths());
        paths
    }

    /// Reads the current and the greatest brightness from the contents of their files.
    pub fn get_brightness(&self, contents: &Vec<String>) -> (res: (u8, u8))
        requires
            contents@.len() == self.brightness_paths().len(),
        ensures
            res == self.brightness_in(text::string_views(contents@)),
    {
        let ghost views = text::string_views(contents@);
        match self {
            Backend::Rgb(rgb) => {
                assert(views[0] == contents@[0]@ && views[1] == contents@[1]@);
                rgb.get_brightness(contents[0].as_str(), contents[1].as_str())
            },
            _ => (255, 255),
        }
    }

    /// Sets one LED, or all of them where they cannot be told apart.
    pub fn set_led_color(&self, index: usize, r: u8, g: u8, b: u8) -> (res: Result<
        Vec<FileWrite>,
        LedError,
    >)
        requires
            self.wf(),
        ensures
            plan_or_error(res) == self.led_writes(index as int, r, g, b),
    {
        match self {
            Backend::Individual(ind) => ind.set_led(index, r, g, b),
            _ => Ok(self.set_all_color(r, g, b)),
        }
    }

    /// Whether the LEDs can be set one by one.
    pub fn supports_individual(&self) -> (res: bool)
        ensures
            res == (self is Individual),
    {
        match self {
            Backend::Individual(_) => true,
            _ => false,
        }
    }

    /// How many LEDs can be set.
    pub fn num_leds(&self) -> (res: usize)
        ensures
            res == (match *self {
                Backend::Individual(ind) => ind.leds@.len(),
                _ => 1,
            }),
    {
        match self {
            Backend::Individual(ind) => ind.leds.len(),
            _ => 1,
        }
    }

    /// The name of the kind of backend.
    pub fn name(&self) -> (res: &'static str)
        ensures
            res@ == (match *self {
                Backend::Rgb(_) => "rgb"@,
                Backend::Pwm(_) => "pwm"@,
                Backend::Individual(_) => "individual"@,
            }),
    {
        match self {
            Backend::Rgb(_) => "rgb",
            Backend::Pwm(_) => "pwm",
            Backend::Individual(_) => "individual",
        }
    }

    /// Sets the brightness that the system's configuration asks for.
    pub fn apply_brightness_conf(&self, content: Option<&str>) -> (res: Vec<FileWrite>)
        ensures
            plan(res@) == self.brightness_writes(conf::brightness(text::optional_view(content))),
    {
        self.set_brightness(conf::configured_brightness(content))
    }
}

// ---------------------------------------------------------------------------
// Laws
// ---------------------------------------------------------------------------

/// An RGB backend reads back the colour that it wrote, whatever white space the file
/// adds behind it.
pub proof fn law_rgb_round_trip(rgb: RgbBackend, r: u8, g: u8, b: u8, w: Seq<char>)
    requires
        text::all_white(w),
    ensures
        rgb.color_writes(r, g, b).len() == 1,
        Backend::Rgb(rgb).color_paths() == Ok::<Seq<Seq<char>>, LedError>(
            seq![rgb.color_writes(r, g, b)[0].path],
        ),
        Backend::Rgb(rgb).color_in(seq![rgb.color_writes(r, g, b)[0].text + w]) == Ok::<
            (u8, u8, u8),
            LedError,
        >((r, g, b)),
{
    color::law_rgb_text_round_trip(r, g, b, w);
}

/// The files of an LED, as they are after it was set, are read back as its colour,
/// whatever white space the files add.
pub proof fn law_led_round_trip(
    ind: IndividualBackend,
    index: int,
    r: u8,
    g: u8,
    b: u8,
    w: Seq<char>,
)
    requires
        0 <= index < ind.leds@.len(),
        text::all_white(w),
    ensures
        ({
            let writes = ind.led_writes(index, r, g, b)->Ok_0;
            &&& ind.led_writes(index, r, g, b) is Ok
            &&& ind.led_paths(index) == Ok::<Seq<Seq<char>>, LedError>(
                seq![writes[0].path, writes[1].path, writes[2].path],
            )
            &&& ind.led_color_in(
                index,
                writes[0].text + w,
                writes[1].text + w,
                writes[2].text + w,
            ) == Ok::<(u8, u8, u8), LedError>((r, g, b))
        }),
{
    lemma_u8_in(r, w);
    lemma_u8_in(g, w);
    lemma_u8_in(b, w);
}

proof fn lemma_u8_in(c: u8, w: Seq<char>)
    requires
        text::all_white(w),
    ensures
        u8_in(text::decimal_text(c as nat) + w) == c,
{
    text::lemma_decimal_text(c as nat);
    text::lemma_trimmed_suffix(text::decimal_text(c as nat), w);
    text::law_decimal_round_trip(c as nat, 255);
}

/// What comes back of a component that goes through a duty cycle.
pub open spec fn through_duty(c: u8, period: u32) -> u8 {
    component_of((c * period / 255) as u32, period)
}

/// A component that went through a duty cycle comes back no larger, and smaller by less
/// than one step of the duty cycle and one of the component. White space behind the duty
/// cycle does not count.
pub proof fn law_duty_round_trip(c: u8, period: u32, w: Seq<char>)
    requires
        0 < period,
        255 * period <= u32::MAX,
        text::all_white(w),
    ensures
        u32_in(duty_text(c, period) + w) * 255 <= u32::MAX,
        component_of(u32_in(duty_text(c, period) + w), period) == through_duty(c, period),
        through_duty(c, period) <= c,
        (c - through_duty(c, period) - 1) * period < 255,
{
    lemma_duty(c, period);
    let d = (c * period / 255) as nat;
    text::lemma_decimal_text(d);
    text::lemma_trimmed_suffix(text::decimal_text(d), w);
    text::law_decimal_round_trip(d, u32::MAX as nat);
    assert(u32_in(duty_text(c, period) + w) == d);
    let n = c * period;
    assert(255 * d <= n < 255 * d + 255);
    let q = (d * 255) as int / period as int;
    vstd::arithmetic::div_mod::lemma_fundamental_div_mod((d * 255) as int, period as int);
    let rem = (d * 255) as int % period as int;
    assert(q <= c) by (nonlinear_arith)
        requires
            d * 255 == period * q + rem,
            0 <= rem,
            d * 255 <= n,
            n == c * period,
            period > 0,
    ;
    assert(q >= 0) by (nonlinear_arith)
        requires
            d * 255 == period * q + rem,
            rem < period,
            d >= 0,
            period > 0,
    ;
    assert((c - q - 1) * period < 255) by (nonlinear_arith)
        requires
            d * 255 == period * q + rem,
            rem < period,
            n < 255 * d + 255,
            n == c * period,
            period > 0,
    ;
}

/// A name is put behind a directory with one slash between them.
pub proof fn law_paths_are_joined(base: Seq<char>, name: Seq<char>)
    requires
        base.len() > 0,
    ensures
        base.last() != '/' ==> joined(base, name) == base + seq!['/'] + name,
        base.last() == '/' ==> joined(base, name) == base + name,
        joined(seq![], name) == name,
{
    reveal_strlit("/");
    assert("/"@ =~= seq!['/']);
    assert(seq![] + name =~= name);
}

/// The brightness that an RGB backend is set to is read back beside the greatest one,
/// whatever white space the files add. Other backends write nothing, and count as fully
/// bright.
pub proof fn law_brightness_round_trip(
    rgb: RgbBackend,
    b: u8,
    greatest: u8,
    w: Seq<char>,
    pwm: PwmBackend,
    ind: IndividualBackend,
)
    requires
        text::all_white(w),
    ensures
        ({
            let device = Backend::Rgb(rgb);
            let writes = device.brightness_writes(b);
            &&& writes.len() == 1
            &&& device.brightness_paths().len() == 2
            &&& device.brightness_paths()[0] == writes[0].path
            &&& writes[0].path == joined(rgb.base@, "brightness"@)
            &&& device.brightness_paths()[1] == joined(rgb.base@, "max_brightness"@)
            &&& device.brightness_in(
                seq![writes[0].text + w, text::decimal_text(greatest as nat) + w],
            ) == (b, greatest)
        }),
        Backend::Pwm(pwm).brightness_writes(b).len() == 0,
        Backend::Individual(ind).brightness_writes(b).len() == 0,
        Backend::Pwm(pwm).brightness_paths().len() == 0,
        Backend::Individual(ind).brightness_paths().len() == 0,
        Backend::Pwm(pwm).brightness_in(seq![]) == (255u8, 255u8),
        Backend::Individual(ind).brightness_in(seq![]) == (255u8, 255u8),
{
    lemma_u8_in(b, w);
    let d = text::decimal_text(greatest as nat);
    text::lemma_decimal_text(greatest as nat);
    text::lemma_trimmed_suffix(d, w);
    text::law_decimal_round_trip(greatest as nat, 255);
}

/// What is no number of eight bits counts as no brightness, and as the greatest there is.
pub proof fn law_unread_brightness(rgb: RgbBackend, current: Seq<char>, greatest: Seq<char>)
    ensures
        text::number(text::trimmed(current), 255) is None ==> Backend::Rgb(rgb).brightness_in(
            seq![current, greatest],
        ).0 == 0,
        text::number(text::trimmed(greatest), 255) is None ==> Backend::Rgb(rgb).brightness_in(
            seq![current, greatest],
        ).1 == 255,
{
}

/// A number in a file is read whatever white space stands around it; what is no number, or is
/// too large, counts as zero.
pub proof fn law_number_in_file(n: nat, before: Seq<char>, after: Seq<char>, s: Seq<char>)
    requires
        text::all_white(before),
        text::all_white(after),
    ensures
        n <= u32::MAX ==> u32_in(before + text::decimal_text(n) + after) == n,
        n > u32::MAX ==> u32_in(before + text::decimal_text(n) + after) == 0,
        n <= 255 ==> u8_in(before + text::decimal_text(n) + after) == n,
        n > 255 ==> u8_in(before + text::decimal_text(n) + after) == 0,
        text::number(text::trimmed(s), u32::MAX as nat) is None ==> u32_in(s) == 0,
        text::number(text::trimmed(s), 255) is None ==> u8_in(s) == 0,
{
    let d = text::decimal_text(n);
    text::lemma_decimal_text(n);
    assert(before + d + after =~= before + (d + after));
    text::lemma_trimmed_both(before, d, after);
    text::law_zeros_and_sign_do_not_count(n, u32::MAX as nat, 0);
    text::law_zeros_and_sign_do_not_count(n, 255, 0);
    assert(Seq::new(0, |i: int| '0') + d =~= d);
}

/// A duty cycle is the whole part of the component times the period over 255, in decimal.
pub proof fn law_duty_is_proportional(c: u8, period: u32) -> (d: nat)
    ensures
        duty_text(c, period) == text::decimal_text(d),
        255 * d <= c * period < 255 * (d + 1),
{
    let n = c * period;
    assert(n >= 0) by (nonlinear_arith)
        requires
            n == c * period,
    ;
    let d = (n / 255) as nat;
    assert(255 * d <= n < 255 * (d + 1));
    d
}

/// A duty cycle is read as the component that it makes up of the period, cut down to eight
/// bits: the whole part of the duty cycle times 255 over the period, but for a multiple of
/// 256.
pub proof fn law_duty_is_read(duty: u32, period: u32) -> (m: nat)
    requires
        period > 0,
    ensures
        period * (component_of(duty, period) + 256 * m) <= 255 * duty < period * (component_of(
            duty,
            period,
        ) + 256 * m + 1),
        duty <= period ==> m == 0,
{
    let p = period as int;
    let n = duty * 255;
    let q = n / p;
    vstd::arithmetic::div_mod::lemma_fundamental_div_mod(n, p);
    let r = n % p;
    assert(q >= 0) by (nonlinear_arith)
        requires
            n == p * q + r,
            0 <= r < p,
            n >= 0,
    ;
    let m = (q / 256) as nat;
    assert(q == component_of(duty, period) + 256 * m);
    assert(p * q <= n < p * (q + 1)) by (nonlinear_arith)
        requires
            n == p * q + r,
            0 <= r < p,
    ;
    if duty <= period {
        assert(q <= 255) by (nonlinear_arith)
            requires
                n == p * q + r,
                0 <= r < p,
                n <= 255 * p,
        ;
    }
    m
}

/// An LED that does not exist can be neither set nor read, and where LEDs cannot be told
/// apart, setting one sets all.
pub proof fn law_led_out_of_range(
    ind: IndividualBackend,
    index: int,
    r: u8,
    g: u8,
    b: u8,
    x: Seq<char>,
    rgb: RgbBackend,
    pwm: PwmBackend,
)
    requires
        index >= ind.leds@.len(),
    ensures
        ind.led_writes(index, r, g, b) == Err::<Seq<Written>, LedError>(LedError::IndexOutOfRange),
        ind.led_paths(index) == Err::<Seq<Seq<char>>, LedError>(LedError::IndexOutOfRange),
        ind.led_color_in(index, x, x, x) == Err::<(u8, u8, u8), LedError>(
            LedError::IndexOutOfRange,
        ),
        Backend::Individual(ind).led_writes(index, r, g, b) == Err::<Seq<Written>, LedError>(
            LedError::IndexOutOfRange,
        ),
        Backend::Rgb(rgb).led_writes(index, r, g, b) == Ok::<Seq<Written>, LedError>(
            Backend::Rgb(rgb).color_writes(r, g, b),
        ),
        Backend::Pwm(pwm).led_writes(index, r, g, b) == Ok::<Seq<Written>, LedError>(
            Backend::Pwm(pwm).color_writes(r, g, b),
        ),
        pwm.chips@.len() == 0 ==> {
            &&& Backend::Pwm(pwm).color_paths() == Err::<Seq<Seq<char>>, LedError>(
                LedError::NoPwmChip,
            )
            &&& pwm.color_in(x, x, x) == Err::<(u8, u8, u8), LedError>(LedError::NoPwmChip)
            &&& Backend::Pwm(pwm).color_writes(r, g, b).len() == 0
        },
{
}

/// The colour of LEDs that can be set one by one is that of the first, and the colour of PWM
/// chips is that of the first three channels of the first.
pub proof fn law_first_led_is_read(
    ind: IndividualBackend,
    pwm: PwmBackend,
    x: Seq<char>,
    y: Seq<char>,
    z: Seq<char>,
)
    requires
        ind.leds@.len() > 0,
        pwm.chips@.len() > 0,
    ensures
        Backend::Individual(ind).color_paths() == Ok::<Seq<Seq<char>>, LedError>(
            seq![ind.leds@[0].red@, ind.leds@[0].green@, ind.leds@[0].blue@],
        ),
        Backend::Individual(ind).color_in(seq![x, y, z]) == Ok::<(u8, u8, u8), LedError>(
            (u8_in(x), u8_in(y), u8_in(z)),
        ),
        Backend::Pwm(pwm).color_paths() == Ok::<Seq<Seq<char>>, LedError>(
            seq![
                joined(pwm.chips@[0]@, "pwm0/duty_cycle"@),
                joined(pwm.chips@[0]@, "pwm1/duty_cycle"@),
                joined(pwm.chips@[0]@, "pwm2/duty_cycle"@),
            ],
        ),
        Backend::Pwm(pwm).color_in(seq![x, y, z]) == Ok::<(u8, u8, u8), LedError>(
            (
                component_of(u32_in(x), pwm.period),
                component_of(u32_in(y), pwm.period),
                component_of(u32_in(z), pwm.period),
            ),
        ),
{
    reveal_strlit("pwm");
    reveal_strlit("/duty_cycle");
    reveal_strlit("pwm0/duty_cycle");
    reveal_strlit("pwm1/duty_cycle");
    reveal_strlit("pwm2/duty_cycle");
    assert(duty_name(0) =~= "pwm0/duty_cycle"@);
    assert(duty_name(1) =~= "pwm1/duty_cycle"@);
    assert(duty_name(2) =~= "pwm2/duty_cycle"@);
}

} // verus!

//! What a command line asks for.
use crate::backend;
use crate::backend::{Backend, FileWrite, IndividualBackend, PwmBackend, RgbBackend};
use crate::color;
use crate::text;
use vstd::prelude::*;

verus! {

/// A request of the command line.
pub enum Command {
    /// Print the state of the battery.
    Status,
    /// Print the kind of backend.
    Detect,
    /// Run the daemon.
    Start,
    /// Turn the LEDs off.
    Off,
    /// Play a turn through the colours.
    Rainbow,
    /// Play a pulse.
    Pulse,
    /// Set a colour of six hexadecimal digits.
    SetColor(String),
    /// Print the colour in hexadecimal.
    GetColor,
    /// Set a colour, even where changes are blocked if `force` is set.
    SetColorDec { r: u8, g: u8, b: u8, force: bool },
    /// Print the colour in decimal.
    GetColorDec,
    /// Set the brightness.
    SetBrightness(u8),
    /// Print the brightness.
    GetBrightness,
    /// Block colour changes, or allow them again.
    Block(bool),
    /// Apply the settings of LEDs; a file to try last may be named.
    Apply(Option<String>),
    /// Set one LED.
    SetLed { index: usize, color: String, brightness: u8 },
    /// Print how to use the program.
    Help,
    /// Arguments are missing: print how to use the command.
    Incomplete(&'static str),
    /// There is no such command.
    Unknown(String),
}

/// What a request asks for.
pub enum Request {
    Status,
    Detect,
    Start,
    Off,
    Rainbow,
    Pulse,
    SetColor(Seq<char>),
    GetColor,
    SetColorDec { r: u8, g: u8, b: u8, force: bool },
    GetColorDec,
    SetBrightness(u8),
    GetBrightness,
    Block(bool),
    Apply(Option<Seq<char>>),
    SetLed { index: nat, color: Seq<char>, brightness: u8 },
    Help,
    Incomplete(Seq<char>),
    Unknown(Seq<char>),
}

impl View for Command {
    type V = Request;

    open spec fn view(&self) -> Request {
        match *self {
            Command::Status => Request::Status,
            Command::Detect => Request::Detect,
            Command::Start => Request::Start,
            Command::Off => Request::Off,
            Command::Rainbow => Request::Rainbow,
            Command::Pulse => Request::Pulse,
            Command::SetColor(s) => Request::SetColor(s@),
            Command::GetColor => Request::GetColor,
            Command::SetColorDec { r, g, b, force } => Request::SetColorDec { r, g, b, force },
            Command::GetColorDec => Request::GetColorDec,
            Command::SetBrightness(n) => Request::SetBrightness(n),
            Command::GetBrightness => Request::GetBrightness,
            Command::Block(b) => Request::Block(b),
            Command::Apply(p) => Request::Apply(
                match p {
                    Some(s) => Some(s@),
                    None => None,
                },
            ),
            Command::SetLed { index, color, brightness } => Request::SetLed {
                index: index as nat,
                color: color@,
                brightness,
            },
            Command::Help => Request::Help,
            Command::Incomplete(s) => Request::Incomplete(s@),
            Command::Unknown(s) => Request::Unknown(s@),
        }
    }
}

/// Whether a request is held back where colour changes are blocked: an effect or a new
/// colour, unless it is forced.
pub open spec fn held_back(r: Request) -> bool {
    match r {
        Request::Rainbow => true,
        Request::Pulse => true,
        Request::SetColor(_) => true,
        Request::SetColorDec { force, .. } => !force,
        _ => false,
    }
}

impl Command {
    /// Whether the command is held back where colour changes are blocked.
    pub fn obeys_marker(&self) -> (r: bool)
        ensures
            r == held_back(self@),
            r <==> {
                ||| self is Rainbow
                ||| self is Pulse
                ||| self is SetColor
                ||| *self matches Command::SetColorDec { force, .. } && !force
            },
    {
        match self {
            Command::Rainbow => true,
            Command::Pulse => true,
            Command::SetColor(_) => true,
            Command::SetColorDec { force, .. } => !*force,
            _ => false,
        }
    }
}

/// The colour in the three arguments behind a command. What is no number of eight bits
/// counts as zero.
pub open spec fn dec_request(args: Seq<Seq<char>>, force: bool) -> Request {
    Request::SetColorDec {
        r: text::u8_or(args[2], 0),
        g: text::u8_or(args[3], 0),
        b: text::u8_or(args[4], 0),
        force,
    }
}

/// The LED in the arguments behind a command: an index (zero, where it is no number), a
/// colour and, if it is there, a brightness (255, where it is not or is no number).
pub open spec fn led_request(args: Seq<Seq<char>>) -> Request {
    Request::SetLed {
        index: match text::number(args[2], usize::MAX as nat) {
            Some(n) => n,
            None => 0,
        },
        color: args[3],
        brightness: if args.len() > 4 {
            text::u8_or(args[4], 255)
        } else {
            255
        },
    }
}

/// What a command line asks for. The first argument is the name of the program.
pub open spec fn request_of(args: Seq<Seq<char>>) -> Request {
    if args.len() < 2 {
        Request::Status
    } else if args[1] == "detect"@ {
        Request::Detect
    } else if args[1] == "start"@ {
        Request::Start
    } else if args[1] == "stop"@ || args[1] == "off"@ {
        Request::Off
    } else if args[1] == "rainbow"@ || args[1] == "retroachievement"@ {
        Request::Rainbow
    } else if args[1] == "pulse"@ {
        Request::Pulse
    } else if args[1] == "set_color"@ {
        if args.len() < 3 {
            Request::Incomplete("set_color RRGGBB"@)
        } else {
            Request::SetColor(args[2])
        }
    } else if args[1] == "get_color"@ {
        Request::GetColor
    } else if args[1] == "set_color_dec"@ {
        if args.len() < 5 {
            Request::Incomplete("set_color_dec R G B"@)
        } else {
            dec_request(args, false)
        }
    } else if args[1] == "set_color_force_dec"@ {
        if args.len() < 5 {
            Request::Incomplete("set_color_force_dec R G B"@)
        } else {
            dec_request(args, true)
        }
    } else if args[1] == "get_color_dec"@ {
        Request::GetColorDec
    } else if args[1] == "set_brightness"@ {
        if args.len() < 3 {
            Request::Incomplete("set_brightness N"@)
        } else {
            Request::SetBrightness(text::u8_or(args[2], 128))
        }
    } else if args[1] == "get_brightness"@ {
        Request::GetBrightness
    } else if args[1] == "block_color_changes"@ {
        Request::Block(true)
    } else if args[1] == "unblock_color_changes"@ {
        Request::Block(false)
    } else if args[1] == "apply"@ {
        Request::Apply(
            if args.len() > 2 {
                Some(args[2])
            } else {
                None
            },
        )
    } else if args[1] == "set_led"@ {
        if args.len() < 4 {
            Request::Incomplete("set_led INDEX RRGGBB [BRIGHTNESS]"@)
        } else {
            led_request(args)
        }
    } else if args[1] == "--help"@ || args[1] == "-h"@ || args[1] == "help"@ {
        Request::Help
    } else {
        Request::Unknown(args[1])
    }
}

fn parse_dec(args: &Vec<String>, force: bool) -> (r: Command)
    requires
        args@.len() >= 5,
    ensures
        r@ == dec_request(text::string_views(args@), force),
{
    let ghost v = text::string_views(args@);
    assert(v[2] == args@[2]@ && v[3] == args@[3]@ && v[4] == args@[4]@);
    Command::SetColorDec {
        r: text::parse_u8_or(args[2].as_str(), 0),
        g: text::parse_u8_or(args[3].as_str(), 0),
        b: text::parse_u8_or(args[4].as_str(), 0),
        force,
    }
}

fn parse_led(args: &Vec<String>) -> (r: Command)
    requires
        args@.len() >= 4,
    ensures
        r@ == led_request(text::string_views(args@)),
{
    let ghost v = text::string_views(args@);
    assert(v.len() == args@.len());
    assert(v[2] == args@[2]@ && v[3] == args@[3]@);
    let index: usize = match text::parse_number(args[2].as_str(), usize::MAX as u64) {
        Some(n) => n as usize,
        None => 0,
    };
    let brightness: u8 = if args.len() > 4 {
        assert(v[4] == args@[4]@);
        text::parse_u8_or(args[4].as_str(), 255)
    } else {
        255
    };
    Command::SetLed { index, color: String::from_str(args[3].as_str()), brightness }
}

/// Finds out what a command line asks for.
pub fn parse_command(args: &Vec<String>) -> (r: Command)
    ensures
        r@ == request_of(text::string_views(args@)),
{
    let ghost v = text::string_views(args@);
    assert(v.len() == args@.len());
    let n: usize = args.len();
    if n < 2 {
        return Command::Status;
    }
    assert(v[1] == args@[1]@);
    let name = args[1].as_str();
    if text::same(name, "detect") {
        Command::Detect
    } else if text::same(name, "start") {
        Command::Start
    } else if text::same(name, "stop") || text::same(name, "off") {
        Command::Off
    } else if text::same(name, "rainbow") || text::same(name, "retroachievement") {
        Command::Rainbow
    } else if text::same(name, "pulse") {
        Command::Pulse
    } else if text::same(name, "set_color") {
        if n < 3 {
            Command::Incomplete("set_color RRGGBB")
        } else {
            assert(v[2] == args@[2]@);
            Command::SetColor(String::from_str(args[2].as_str()))
        }
    } else if text::same(name, "get_color") {
        Command::GetColor
    } else if text::same(name, "set_color_dec") {
        if n < 5 {
            Command::Incomplete("set_color_dec R G B")
        } else {
            parse_dec(args, false)
        }
    } else if text::same(name, "set_color_force_dec") {
        if n < 5 {
            Command::Incomplete("set_color_force_dec R G B")
        } else {
            parse_dec(args, true)
        }
    } else if text::same(name, "get_color_dec") {
        Command::GetColorDec
    } else if text::same(name, "set_brightness") {
        if n < 3 {
            Command::Incomplete("set_brightness N")
        } else {
            assert(v[2] == args@[2]@);
            Command::SetBrightness(text::parse_u8_or(args[2].as_str(), 128))
        }
    } else if text::same(name, "get_brightness") {
        Command::GetBrightness
    } else if text::same(name, "block_color_changes") {
        Command::Block(true)
    } else if text::same(name, "unblock_color_changes") {
        Command::Block(false)
    } else if text::same(name, "apply") {
        if n > 2 {
            assert(v[2] == args@[2]@);
            Command::Apply(Some(String::from_str(args[2].as_str())))
        } else {
            Command::Apply(None)
        }
    } else if text::same(name, "set_led") {
        if n < 4 {
            Command::Incomplete("set_led INDEX RRGGBB [BRIGHTNESS]")
        } else {
            parse_led(args)
        }
    } else if text::same(name, "--help") || text::same(name, "-h") || text::same(name, "help") {
        Command::Help
    } else {
        Command::Unknown(String::from_str(name))
    }
}

// ---------------------------------------------------------------------------
// Setting a single LED
// ---------------------------------------------------------------------------

/// Why an LED was not set.
#[derive(Clone, Copy, Debug, PartialEq, Eq, Structural)]
pub enum SetLedError {
    /// The LEDs cannot be set one by one.
    Unsupported,
    /// There is no LED with this index.
    OutOfRange,
    /// The colour is none.
    InvalidColor,
}

/// How many LEDs can be set one by one.
pub open spec fn led_count(b: Backend) -> nat {
    match b {
        Backend::Individual(ind) => ind.leds@.len(),
        _ => 0,
    }
}

/// The writes that set one LED to a colour at a brightness, or why there are none.
pub open spec fn set_led_outcome(b: Backend, index: int, hex: Seq<char>, brightness: u8) -> Result<
    Seq<backend::Written>,
    SetLedError,
> {
    match b {
        Backend::Individual(ind) => if index >= ind.leds@.len() {
            Err(SetLedError::OutOfRange)
        } else {
            match color::hex_color(hex) {
                Some((x, y, z)) => {
                    let (r, g, b) = color::scaled_rgb(x, y, z, brightness);
                    Ok(backend::channel_plan(ind.leds@[index], r, g, b))
                },
                None => Err(SetLedError::InvalidColor),
            }
        },
        _ => Err(SetLedError::Unsupported),
    }
}

/// What a list of writes does, where there is one.
pub open spec fn set_led_view(r: Result<Vec<FileWrite>, SetLedError>) -> Result<
    Seq<backend::Written>,
    SetLedError,
> {
    match r {
        Ok(writes) => Ok(backend::plan(writes@)),
        Err(e) => Err(e),
    }
}

/// Sets one LED to a colour at a brightness.
pub fn set_led(b: &Backend, index: usize, hex: &str, brightness: u8) -> (r: Result<
    Vec<FileWrite>,
    SetLedError,
>)
    requires
        b.wf(),
        index < led_count(*b) ==> color::hex_cuts(hex@),
    ensures
        set_led_view(r) == set_led_outcome(*b, index as int, hex@, brightness),
{
    if !b.supports_individual() {
        return Err(SetLedError::Unsupported);
    }
    if index >= b.num_leds() {
        return Err(SetLedError::OutOfRange);
    }
    match color::parse_hex_color(hex) {
        Some((x, y, z)) => {
            let (red, green, blue) = color::scale_brightness(x, y, z, brightness);
            match b.set_led_color(index, red, green, blue) {
                Ok(writes) => Ok(writes),
                Err(_) => Err(SetLedError::OutOfRange),
            }
        },
        None => Err(SetLedError::InvalidColor),
    }
}

// ---------------------------------------------------------------------------
// Laws
// ---------------------------------------------------------------------------

/// No two names of commands have both their length and their first letter in common.
proof fn lemma_names()
    ensures
        "detect"@.len() == 6 && "detect"@[0] == 'd',
        "start"@.len() == 5 && "start"@[0] == 's',
        "stop"@.len() == 4 && "stop"@[0] == 's',
        "off"@.len() == 3 && "off"@[0] == 'o',
        "rainbow"@.len() == 7 && "rainbow"@[0] == 'r',
        "retroachievement"@.len() == 16 && "retroachievement"@[0] == 'r',
        "pulse"@.len() == 5 && "pulse"@[0] == 'p',
        "set_color"@.len() == 9 && "set_color"@[0] == 's',
        "get_color"@.len() == 9 && "get_color"@[0] == 'g',
        "set_color_dec"@.len() == 13 && "set_color_dec"@[0] == 's',
        "set_color_force_dec"@.len() == 19 && "set_color_force_dec"@[0] == 's',
        "get_color_dec"@.len() == 13 && "get_color_dec"@[0] == 'g',
        "set_brightness"@.len() == 14 && "set_brightness"@[0] == 's',
        "get_brightness"@.len() == 14 && "get_brightness"@[0] == 'g',
        "block_color_changes"@.len() == 19 && "block_color_changes"@[0] == 'b',
        "unblock_color_changes"@.len() == 21 && "unblock_color_changes"@[0] == 'u',
        "apply"@.len() == 5 && "apply"@[0] == 'a',
        "set_led"@.len() == 7 && "set_led"@[0] == 's',
        "--help"@.len() == 6 && "--help"@[0] == '-',
        "-h"@.len() == 2 && "-h"@[0] == '-',
        "help"@.len() == 4 && "help"@[0] == 'h',
{
    reveal_strlit("detect");
    reveal_strlit("start");
    reveal_strlit("stop");
    reveal_strlit("off");
    reveal_strlit("rainbow");
    reveal_strlit("retroachievement");
    reveal_strlit("pulse");
    reveal_strlit("set_color");
    reveal_strlit("get_color");
    reveal_strlit("set_color_dec");
    reveal_strlit("set_color_force_dec");
    reveal_strlit("get_color_dec");
    reveal_strlit("set_brightness");
    reveal_strlit("get_brightness");
    reveal_strlit("block_color_changes");
    reveal_strlit("unblock_color_changes");
    reveal_strlit("apply");
    reveal_strlit("set_led");
    reveal_strlit("--help");
    reveal_strlit("-h");
    reveal_strlit("help");
}

/// Whether a command is what [`parse_command`] makes of a command line.
pub open spec fn asked_for(args: Seq<String>, c: Command) -> bool {
    c@ == request_of(text::string_views(args))
}

proof fn lemma_args(args: Seq<String>)
    ensures
        text::string_views(args).len() == args.len(),
        forall|i: int| 0 <= i < args.len() ==> #[trigger] text::string_views(args)[i] == args[i]@,
{
}

/// A colour in decimal on the command line asks for exactly that colour, forced or not.
pub proof fn law_decimal_color_is_asked_for(
    args: Seq<String>,
    c: Command,
    r: u8,
    g: u8,
    b: u8,
    force: bool,
)
    requires
        asked_for(args, c),
        args.len() >= 5,
        args[1]@ == (if force {
            "set_color_force_dec"@
        } else {
            "set_color_dec"@
        }),
        args[2]@ == text::decimal_text(r as nat),
        args[3]@ == text::decimal_text(g as nat),
        args[4]@ == text::decimal_text(b as nat),
    ensures
        c == (Command::SetColorDec { r, g, b, force }),
{
    lemma_names();
    lemma_args(args);
    text::law_decimal_round_trip(r as nat, 255);
    text::law_decimal_round_trip(g as nat, 255);
    text::law_decimal_round_trip(b as nat, 255);
}

/// A component in decimal that is no number of eight bits counts as zero, whatever the
/// others are.
pub proof fn law_other_component_is_zero(args: Seq<String>, c: Command)
    requires
        asked_for(args, c),
        args.len() >= 5,
        args[1]@ == "set_color_force_dec"@ || args[1]@ == "set_color_dec"@,
    ensures
        c matches Command::SetColorDec { r, g, b, force } && {
            &&& force == (args[1]@ == "set_color_force_dec"@)
            &&& match text::number(args[2]@, 255) {
                Some(n) => r == n,
                None => r == 0,
            }
            &&& match text::number(args[3]@, 255) {
                Some(n) => g == n,
                None => g == 0,
            }
            &&& match text::number(args[4]@, 255) {
                Some(n) => b == n,
                None => b == 0,
            }
        },
{
    lemma_names();
    lemma_args(args);
}

/// A colour in hexadecimal and a file are handed on as they are written.
pub proof fn law_texts_are_handed_on(args: Seq<String>, c: Command)
    requires
        asked_for(args, c),
        args.len() >= 2,
    ensures
        args[1]@ == "set_color"@ && args.len() >= 3 ==> (c matches Command::SetColor(s) && s@
            == args[2]@),
        args[1]@ == "apply"@ && args.len() >= 3 ==> (c matches Command::Apply(Some(s)) && s@
            == args[2]@),
        args[1]@ == "apply"@ && args.len() == 2 ==> (c matches Command::Apply(None)),
{
    lemma_names();
    lemma_args(args);
}

/// A brightness on the command line is asked for; what is no number of eight bits counts as
/// 128.
pub proof fn law_brightness_is_asked_for(args: Seq<String>, c: Command, n: u8)
    requires
        asked_for(args, c),
        args.len() >= 3,
        args[1]@ == "set_brightness"@,
    ensures
        args[2]@ == text::decimal_text(n as nat) ==> c == Command::SetBrightness(n),
        text::number(args[2]@, 255) is None ==> c == Command::SetBrightness(128),
{
    lemma_names();
    lemma_args(args);
    text::law_decimal_round_trip(n as nat, 255);
}

/// An LED on the command line is asked for with its index, its colour as it is written and
/// its brightness, which is 255 where there is none.
pub proof fn law_led_is_asked_for(args: Seq<String>, c: Command, i: usize, n: u8)
    requires
        asked_for(args, c),
        args.len() >= 4,
        args[1]@ == "set_led"@,
    ensures
        c matches Command::SetLed { index, color, brightness } && {
            &&& args[2]@ == text::decimal_text(i as nat) ==> index == i
            &&& text::number(args[2]@, usize::MAX as nat) is None ==> index == 0
            &&& color@ == args[3]@
            &&& args.len() == 4 ==> brightness == 255
            &&& args.len() > 4 && args[4]@ == text::decimal_text(n as nat) ==> brightness == n
            &&& args.len() > 4 && text::number(args[4]@, 255) is None ==> brightness == 255
        },
{
    lemma_names();
    lemma_args(args);
    text::law_decimal_round_trip(n as nat, 255);
    text::law_decimal_round_trip(i as nat, usize::MAX as nat);
}

/// The commands that take no arguments are known by their names, whatever follows.
pub proof fn law_plain_commands_are_known(args: Seq<String>, c: Command)
    requires
        asked_for(args, c),
    ensures
        args.len() < 2 <==> c == Command::Status,
        args.len() >= 2 ==> {
            &&& args[1]@ == "detect"@ <==> c == Command::Detect
            &&& args[1]@ == "start"@ <==> c == Command::Start
            &&& args[1]@ == "stop"@ || args[1]@ == "off"@ <==> c == Command::Off
            &&& args[1]@ == "rainbow"@ || args[1]@ == "retroachievement"@ <==> c == Command::Rainbow
            &&& args[1]@ == "pulse"@ <==> c == Command::Pulse
            &&& args[1]@ == "get_color"@ <==> c == Command::GetColor
            &&& args[1]@ == "get_color_dec"@ <==> c == Command::GetColorDec
            &&& args[1]@ == "get_brightness"@ <==> c == Command::GetBrightness
            &&& args[1]@ == "block_color_changes"@ <==> c == Command::Block(true)
            &&& args[1]@ == "unblock_color_changes"@ <==> c == Command::Block(false)
            &&& args[1]@ == "--help"@ || args[1]@ == "-h"@ || args[1]@ == "help"@ <==> c
                == Command::Help
        },
{
    lemma_names();
    lemma_args(args);
}

/// A command with too few arguments is answered with how to use it, and any other name is
/// handed on as unknown.
pub proof fn law_other_commands_are_told(args: Seq<String>, c: Command)
    requires
        asked_for(args, c),
        args.len() >= 2,
    ensures
        args[1]@ == "set_color"@ && args.len() < 3 ==> (c matches Command::Incomplete(s) && s@
            == "set_color RRGGBB"@),
        args[1]@ == "set_color_dec"@ && args.len() < 5 ==> (c matches Command::Incomplete(s) && s@
            == "set_color_dec R G B"@),
        args[1]@ == "set_color_force_dec"@ && args.len() < 5 ==> (c matches Command::Incomplete(s)
            && s@ == "set_color_force_dec R G B"@),
        args[1]@ == "set_brightness"@ && args.len() < 3 ==> (c matches Command::Incomplete(s) && s@
            == "set_brightness N"@),
        args[1]@ == "set_led"@ && args.len() < 4 ==> (c matches Command::Incomplete(s) && s@
            == "set_led INDEX RRGGBB [BRIGHTNESS]"@),
        (forall|i: int|
            0 <= i < command_names().len() ==> args[1]@ != #[trigger] command_names()[i]) ==> (
        c matches Command::Unknown(s) && s@ == args[1]@),
{
    lemma_names();
    lemma_args(args);
    let names = command_names();
    if forall|i: int| 0 <= i < names.len() ==> args[1]@ != #[trigger] names[i] {
        assert(names[0] == "detect"@);
        assert(names[1] == "start"@);
        assert(names[2] == "stop"@);
        assert(names[3] == "off"@);
        assert(names[4] == "rainbow"@);
        assert(names[5] == "retroachievement"@);
        assert(names[6] == "pulse"@);
        assert(names[7] == "set_color"@);
        assert(names[8] == "get_color"@);
        assert(names[9] == "set_color_dec"@);
        assert(names[10] == "set_color_force_dec"@);
        assert(names[11] == "get_color_dec"@);
        assert(names[12] == "set_brightness"@);
        assert(names[13] == "get_brightness"@);
        assert(names[14] == "block_color_changes"@);
        assert(names[15] == "unblock_color_changes"@);
        assert(names[16] == "apply"@);
        assert(names[17] == "set_led"@);
        assert(names[18] == "--help"@);
        assert(names[19] == "-h"@);
        assert(names[20] == "help"@);
    }
}

/// The names of the commands.
pub open spec fn command_names() -> Seq<Seq<char>> {
    seq![
        "detect"@,
        "start"@,
        "stop"@,
        "off"@,
        "rainbow"@,
        "retroachievement"@,
        "pulse"@,
        "set_color"@,
        "get_color"@,
        "set_color_dec"@,
        "set_color_force_dec"@,
        "get_color_dec"@,
        "set_brightness"@,
        "get_brightness"@,
        "block_color_changes"@,
        "unblock_color_changes"@,
        "apply"@,
        "set_led"@,
        "--help"@,
        "-h"@,
        "help"@,
    ]
}

/// Setting one LED to a colour of six digits writes its three files, from which the colour
/// at the brightness is read back. Where the LEDs cannot be set one by one, there is no such
/// LED or the text is no colour, nothing is written.
pub proof fn law_set_led_then_get(
    ind: IndividualBackend,
    index: int,
    hex: Seq<char>,
    brightness: u8,
    r: u8,
    g: u8,
    b: u8,
    rgb: RgbBackend,
    pwm: PwmBackend,
)
    requires
        0 <= index,
    ensures
        ({
            let outcome = set_led_outcome(Backend::Individual(ind), index, hex, brightness);
            &&& index < ind.leds@.len() && color::writes_hex(hex, r, g, b) ==> {
                &&& outcome is Ok
                &&& outcome->Ok_0.len() == 3
                &&& ind.led_paths(index) == Ok::<Seq<Seq<char>>, color::LedError>(
                    seq![outcome->Ok_0[0].path, outcome->Ok_0[1].path, outcome->Ok_0[2].path],
                )
                &&& ind.led_color_in(
                    index,
                    outcome->Ok_0[0].text,
                    outcome->Ok_0[1].text,
                    outcome->Ok_0[2].text,
                ) == Ok::<(u8, u8, u8), color::LedError>(color::scaled_rgb(r, g, b, brightness))
            }
            &&& index >= ind.leds@.len() ==> outcome == Err::<
                Seq<backend::Written>,
                SetLedError,
            >(SetLedError::OutOfRange)
            &&& index < ind.leds@.len() && color::hex_color(hex) is None ==> outcome == Err::<
                Seq<backend::Written>,
                SetLedError,
            >(SetLedError::InvalidColor)
        }),
        set_led_outcome(Backend::Rgb(rgb), index, hex, brightness) == Err::<
            Seq<backend::Written>,
            SetLedError,
        >(SetLedError::Unsupported),
        set_led_outcome(Backend::Pwm(pwm), index, hex, brightness) == Err::<
            Seq<backend::Written>,
            SetLedError,
        >(SetLedError::Unsupported),
{
    if index < ind.leds@.len() && color::writes_hex(hex, r, g, b) {
        color::law_hex_color_is_read(hex, r, g, b, seq![], 0, seq![]);
        assert(seq![] + Seq::new(0, |i: int| '#') + hex + seq![] =~= hex);
        let (x, y, z) = color::scaled_rgb(r, g, b, brightness);
        backend::law_led_round_trip(ind, index, x, y, z, seq![]);
        let w = backend::channel_plan(ind.leds@[index], x, y, z);
        assert(w[0].text + seq![] =~= w[0].text);
        assert(w[1].text + seq![] =~= w[1].text);
        assert(w[2].text + seq![] =~= w[2].text);
    }
}

} // verus!

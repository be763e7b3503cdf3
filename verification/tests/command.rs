use led_handheld::backend::{Backend, IndividualBackend, LedChannels, RgbBackend};
use led_handheld::command::{parse_command, set_led, Command, SetLedError};

fn parse(args: &[&str]) -> Command {
    let mut all = vec!["prog".to_string()];
    all.extend(args.iter().map(|s| s.to_string()));
    parse_command(&all)
}

fn usage(args: &[&str]) -> &'static str {
    match parse(args) {
        Command::Incomplete(text) => text,
        _ => panic!("complete"),
    }
}

fn leds(n: usize) -> Backend {
    let list = (0..n)
        .map(|i| LedChannels { red: format!("r{}", i), green: format!("g{}", i), blue: format!("b{}", i) })
        .collect();
    Backend::Individual(IndividualBackend { leds: list })
}

#[test]
fn plain_commands_are_parsed() {
    assert!(matches!(parse(&[]), Command::Status));
    assert!(matches!(parse_command(&Vec::new()), Command::Status));
    assert!(matches!(parse(&["detect"]), Command::Detect));
    assert!(matches!(parse(&["start"]), Command::Start));
    assert!(matches!(parse(&["stop"]), Command::Off));
    assert!(matches!(parse(&["off"]), Command::Off));
    assert!(matches!(parse(&["rainbow"]), Command::Rainbow));
    assert!(matches!(parse(&["retroachievement"]), Command::Rainbow));
    assert!(matches!(parse(&["pulse", "more"]), Command::Pulse));
    assert!(matches!(parse(&["get_color"]), Command::GetColor));
    assert!(matches!(parse(&["get_color_dec"]), Command::GetColorDec));
    assert!(matches!(parse(&["get_brightness"]), Command::GetBrightness));
    assert!(matches!(parse(&["block_color_changes"]), Command::Block(true)));
    assert!(matches!(parse(&["unblock_color_changes"]), Command::Block(false)));
    assert!(matches!(parse(&["--help"]), Command::Help));
    assert!(matches!(parse(&["-h"]), Command::Help));
    assert!(matches!(parse(&["help"]), Command::Help));
}

#[test]
fn colors_on_the_command_line_are_parsed() {
    assert!(matches!(parse(&["set_color", "FF0000"]), Command::SetColor(t) if t == "FF0000"));
    assert!(matches!(
        parse(&["set_color_dec", "1", "x", "255"]),
        Command::SetColorDec { r: 1, g: 0, b: 255, force: false }
    ));
    assert!(matches!(
        parse(&["set_color_force_dec", "256", " 2", "+3"]),
        Command::SetColorDec { r: 0, g: 0, b: 3, force: true }
    ));
}

#[test]
fn brightness_on_the_command_line_is_parsed() {
    assert!(matches!(parse(&["set_brightness", "7"]), Command::SetBrightness(7)));
    assert!(matches!(parse(&["set_brightness", "bright"]), Command::SetBrightness(128)));
}

#[test]
fn settings_on_the_command_line_are_parsed() {
    assert!(matches!(parse(&["apply"]), Command::Apply(None)));
    assert!(matches!(parse(&["apply", "/a.json"]), Command::Apply(Some(p)) if p == "/a.json"));
}

#[test]
fn a_led_on_the_command_line_is_parsed() {
    assert!(matches!(
        parse(&["set_led", "3", "00FF00"]),
        Command::SetLed { index: 3, color, brightness: 255 } if color == "00FF00"
    ));
    assert!(matches!(
        parse(&["set_led", "x", "00FF00", "9"]),
        Command::SetLed { index: 0, color: _, brightness: 9 }
    ));
    assert!(matches!(
        parse(&["set_led", "18446744073709551616", "00FF00", "900"]),
        Command::SetLed { index: 0, color: _, brightness: 255 }
    ));
}

#[test]
fn missing_arguments_are_told() {
    assert_eq!(usage(&["set_color"]), "set_color RRGGBB");
    assert_eq!(usage(&["set_color_dec", "1", "2"]), "set_color_dec R G B");
    assert_eq!(usage(&["set_color_force_dec"]), "set_color_force_dec R G B");
    assert_eq!(usage(&["set_brightness"]), "set_brightness N");
    assert_eq!(usage(&["set_led", "1"]), "set_led INDEX RRGGBB [BRIGHTNESS]");
}

#[test]
fn unknown_commands_are_told() {
    assert!(matches!(parse(&["dance"]), Command::Unknown(name) if name == "dance"));
    assert!(matches!(parse(&["Start"]), Command::Unknown(_)));
    assert!(matches!(parse(&[""]), Command::Unknown(_)));
}

#[test]
fn one_led_is_set_at_a_brightness() {
    let writes = set_led(&leds(2), 1, "#FF8000", 128).unwrap_or_default();
    let told: Vec<String> = writes.iter().map(|w| format!("{}={}", w.path, w.text)).collect();
    assert_eq!(told, vec!["r1=128", "g1=64", "b1=0"]);
}

#[test]
fn a_led_that_cannot_be_set_is_told() {
    let rgb = Backend::Rgb(RgbBackend { base: "/x".to_string() });
    assert_eq!(set_led(&rgb, 0, "FF0000", 255).err(), Some(SetLedError::Unsupported));
    assert_eq!(set_led(&leds(2), 2, "FF0000", 255).err(), Some(SetLedError::OutOfRange));
    assert_eq!(set_led(&leds(2), 1, "red", 255).err(), Some(SetLedError::InvalidColor));
}

#[test]
fn effects_and_new_colors_are_held_back() {
    for args in [
        vec!["rainbow"],
        vec!["retroachievement"],
        vec!["pulse"],
        vec!["set_color", "FF0000"],
        vec!["set_color_dec", "1", "2", "3"],
    ] {
        assert!(parse(&args).obeys_marker(), "{:?}", args);
    }
    for args in [
        vec![],
        vec!["detect"],
        vec!["start"],
        vec!["off"],
        vec!["set_color"],
        vec!["set_color_dec", "1"],
        vec!["set_color_force_dec", "1", "2", "3"],
        vec!["get_color"],
        vec!["get_color_dec"],
        vec!["set_brightness", "1"],
        vec!["get_brightness"],
        vec!["block_color_changes"],
        vec!["unblock_color_changes"],
        vec!["apply"],
        vec!["set_led", "1", "FF0000"],
        vec!["help"],
        vec!["dance"],
    ] {
        assert!(!parse(&args).obeys_marker(), "{:?}", args);
    }
}

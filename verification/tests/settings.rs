use led_handheld::apply::{apply_config_to_hw, apply_individual, config_sources, ApplyError};
use led_handheld::backend::{Backend, FileWrite, IndividualBackend, LedChannels, RgbBackend};
use led_handheld::individual::{
    individual_config_cuts, led_name_to_index, load_individual_config, IndividualConfig, IndividualLedEntry,
};
use led_handheld::json::{
    json_config_cuts, json_extract_bool, json_extract_number, json_extract_object, json_extract_string,
    json_led_name_to_index, load_json_config,
};

const SAVED: &str = r##"{
  "Left Joystick": {
    "L1_Right": {"enabled": true, "color": "#FF0000", "brightness": 50},
    "L2_Up": {"enabled": false, "color": "#00FF00", "brightness": 60},
    "L4_Down": {"brightness": 255}
  },
  "Right Joystick": {
    "R3_Left": {"color": "0000FF", "brightness": 300}
  },
  "Controls": {
    "LEFT":  {"color": "#112233", "brightness": 10},
    "RIGHT": {"color": "#445566", "brightness": 0},
    "BOTH":  {"color": "#778899"}
  }
}"##;

fn led(index: usize, r: u8, g: u8, b: u8, brightness: u8) -> IndividualLedEntry {
    IndividualLedEntry { index, r, g, b, brightness }
}

fn leds(n: usize) -> Backend {
    let list = (0..n)
        .map(|i| LedChannels { red: format!("r{}", i), green: format!("g{}", i), blue: format!("b{}", i) })
        .collect();
    Backend::Individual(IndividualBackend { leds: list })
}

fn rgb() -> Backend {
    Backend::Rgb(RgbBackend { base: "/x".to_string() })
}

fn empty() -> IndividualConfig {
    IndividualConfig { leds: Vec::new(), group_left: None, group_right: None, group_all: None }
}

fn told(requests: &[Vec<FileWrite>]) -> Vec<Vec<String>> {
    requests
        .iter()
        .map(|r| r.iter().map(|w| format!("{}={}", w.path, w.text)).collect())
        .collect()
}

#[test]
fn led_names_have_indices() {
    let names = ["l1", "l2", "l3", "l4", "r1", "r2", "r3", "r4"];
    let long = ["l1_right", "l2_up", "l3_left", "l4_down", "r1_right", "r2_up", "r3_left", "r4_down"];
    let json = ["L1_Right", "L2_Up", "L3_Left", "L4_Down", "R1_Right", "R2_Up", "R3_Left", "R4_Down"];
    for i in 0..8 {
        assert_eq!(led_name_to_index(names[i]), Some(i));
        assert_eq!(led_name_to_index(long[i]), Some(i));
        assert_eq!(json_led_name_to_index(json[i]), Some(i));
        assert_eq!(led_name_to_index(json[i]), None);
        assert_eq!(json_led_name_to_index(long[i]), None);
    }
    assert_eq!(led_name_to_index("l5"), None);
    assert_eq!(json_led_name_to_index(""), None);
}

#[test]
fn settings_by_line_are_read() {
    let content = "# all=FFFFFF\nL1 = #FF0000\nr4_down=00FF00, 40\nLEFT=0000FF,300\nright=010203,7\nl9=111111\nl2=zz\nl1=222222 , 9\nnothing\n";
    let config = load_individual_config(Some(content)).unwrap();
    assert_eq!(
        config.leds,
        vec![led(0, 255, 0, 0, 255), led(7, 0, 255, 0, 40), led(0, 0x22, 0x22, 0x22, 9)]
    );
    assert_eq!(config.group_left, Some((0, 0, 255, 255)));
    assert_eq!(config.group_right, Some((1, 2, 3, 7)));
    assert_eq!(config.group_all, None);
    assert!(load_individual_config(None).is_none());
}

#[test]
fn the_last_group_line_counts() {
    let config = load_individual_config(Some("ALL=010101,1\nall=020202,2\nall=none\n")).unwrap();
    assert_eq!(config.group_all, Some((2, 2, 2, 2)));
}

#[test]
fn a_cut_character_in_settings_is_told() {
    assert!(individual_config_cuts(None));
    assert!(individual_config_cuts(Some("é=FF0000\n")));
    assert!(!individual_config_cuts(Some("l1=FF0000\nl2=1é000\n")));
    assert!(json_config_cuts(None));
    assert!(json_config_cuts(Some(SAVED)));
    assert!(!json_config_cuts(Some("{\"Controls\": {\"LEFT\": {\"color\": \"1é000\"}}}")));
    assert!(json_config_cuts(Some("{\"Other\": {\"LEFT\": {\"color\": \"1é000\"}}}")));
}

#[test]
fn json_values_are_extracted() {
    let obj = r##"{ "color" : "#FF0000", "brightness":  50, "enabled": true, "off": false, "n": -1, "é": "ü" }"##;
    assert_eq!(json_extract_string(obj, "color"), Some("#FF0000"));
    assert_eq!(json_extract_string(obj, "é"), Some("ü"));
    assert_eq!(json_extract_string(obj, "brightness"), None);
    assert_eq!(json_extract_string(obj, "missing"), None);
    assert_eq!(json_extract_string("\"a\"", "a"), None);
    assert_eq!(json_extract_string("\"a\": \"open", "a"), None);
    assert_eq!(json_extract_number(obj, "brightness"), Some(50));
    assert_eq!(json_extract_number(obj, "n"), None);
    assert_eq!(json_extract_number(obj, "color"), None);
    assert_eq!(json_extract_number("\"a\": 256", "a"), None);
    assert_eq!(json_extract_number("\"a\": 007,", "a"), Some(7));
    assert_eq!(json_extract_bool(obj, "enabled"), Some(true));
    assert_eq!(json_extract_bool(obj, "off"), Some(false));
    assert_eq!(json_extract_bool(obj, "brightness"), None);
    assert_eq!(json_extract_bool(obj, "missing"), None);
}

#[test]
fn a_name_without_a_colon_is_no_key() {
    let obj = r##"{"mode": "color", "x": "y", "color": "#FF0000"}"##;
    assert_eq!(json_extract_string(obj, "color"), Some("#FF0000"));
    assert_eq!(json_extract_string(obj, "y"), None);
    assert_eq!(json_extract_number(r##"["n", "n"	: 7]"##, "n"), Some(7));
    assert_eq!(json_extract_bool(r##"{"on": "off", "off" : false}"##, "off"), Some(false));
    assert_eq!(json_extract_string("\"a\" b: \"c\"", "a"), None);
    assert_eq!(json_extract_object(r##"{"x": "a", "a" : {1}}"##, "a"), Some("1"));
}

#[test]
fn json_objects_are_extracted() {
    let json = r##"{"L": {"a": {"b": 1}, "c": 2}, "R": {}, "e": 3}"##;
    assert_eq!(json_extract_object(json, "L"), Some(r##""a": {"b": 1}, "c": 2"##));
    assert_eq!(json_extract_object(json, "a"), Some(r##""b": 1"##));
    assert_eq!(json_extract_object(json, "R"), Some(""));
    assert_eq!(json_extract_object(json, "e"), None);
    assert_eq!(json_extract_object(json, "x"), None);
    assert_eq!(json_extract_object("\"a\": {{}", "a"), None);
    assert_eq!(json_extract_object("\"a\":\n{é}}", "a"), Some("é"));
}

#[test]
fn another_value_is_no_object() {
    assert_eq!(json_extract_object(r##"{"a": 1, "b": {"c": 2}}"##, "a"), None);
    assert_eq!(json_extract_object("\"a\": }{é}", "a"), None);
    let content = r##"{"Left Joystick": null, "Right Joystick": {"R1_Right": {"color": "#010203", "brightness": 4}}}"##;
    assert_eq!(load_json_config(Some(content)).unwrap().leds, vec![led(4, 1, 2, 3, 4)]);
}

#[test]
fn an_extracted_object_is_balanced() {
    let object = json_extract_object(SAVED, "Left Joystick").unwrap();
    assert!(object.trim().starts_with("\"L1_Right\"") && object.trim().ends_with('}'));
    assert_eq!(object.matches('{').count(), 3);
    assert_eq!(object.matches('}').count(), 3);
}

#[test]
fn saved_colors_are_read() {
    let config = load_json_config(Some(SAVED)).unwrap();
    assert_eq!(
        config.leds,
        vec![led(0, 255, 0, 0, 50), led(1, 0, 255, 0, 0), led(3, 0, 0, 0, 255), led(6, 0, 0, 255, 0)]
    );
    assert_eq!(config.group_left, Some((0x11, 0x22, 0x33, 10)));
    assert_eq!(config.group_right, None);
    assert_eq!(config.group_all, None);
    assert!(load_json_config(None).is_none());
}

#[test]
fn a_disabled_led_is_dark() {
    let content = r##"{"Left Joystick": {"L1_Right": {"enabled": false, "color": "#FFFFFF", "brightness": 255}}}"##;
    let config = load_json_config(Some(content)).unwrap();
    assert_eq!(config.leds, vec![led(0, 255, 255, 255, 0)]);
    assert_eq!(told(&apply_config_to_hw(&leds(1), &config)), vec![vec!["r0=0", "g0=0", "b0=0"]]);
}

#[test]
fn text_that_is_no_json_sets_nothing() {
    let config = load_json_config(Some("hello")).unwrap();
    assert!(config.leds.is_empty());
    assert!(config.group_all.is_none() && config.group_left.is_none() && config.group_right.is_none());
}

#[test]
fn the_group_of_all_comes_before_everything() {
    let mut config = empty();
    config.leds.push(led(0, 1, 1, 1, 255));
    config.group_left = Some((2, 2, 2, 255));
    config.group_all = Some((255, 128, 0, 128));
    let requests = told(&apply_config_to_hw(&leds(2), &config));
    assert_eq!(requests, vec![vec!["r0=128", "g0=64", "b0=0", "r1=128", "g1=64", "b1=0"]]);
}

#[test]
fn groups_come_after_single_leds() {
    let mut config = empty();
    config.leds.push(led(0, 1, 2, 3, 255));
    config.leds.push(led(9, 1, 2, 3, 255));
    config.group_left = Some((10, 20, 30, 255));
    config.group_right = Some((40, 50, 60, 255));
    let requests = told(&apply_config_to_hw(&leds(8), &config));
    assert_eq!(requests.len(), 9);
    assert_eq!(requests[0], vec!["r0=1", "g0=2", "b0=3"]);
    for i in 0..4 {
        assert_eq!(requests[1 + i], vec![format!("r{}=10", i), format!("g{}=20", i), format!("b{}=30", i)]);
        assert_eq!(
            requests[5 + i],
            vec![format!("r{}=40", i + 4), format!("g{}=50", i + 4), format!("b{}=60", i + 4)]
        );
    }
}

#[test]
fn sources_are_listed() {
    let told = |path: Option<&str>| -> Vec<(String, bool)> {
        config_sources(path).into_iter().map(|s| (s.path, s.json)).collect()
    };
    let lines = ("/userdata/system/configs/leds-individual.conf".to_string(), false);
    let saved = ("/userdata/system/configs/colorsave.json".to_string(), true);
    assert_eq!(told(None), vec![lines.clone(), saved.clone()]);
    assert_eq!(told(Some("/a.json")), vec![lines.clone(), saved.clone(), ("/a.json".to_string(), true)]);
    assert_eq!(told(Some("/a.JSON")), vec![lines, saved, ("/a.JSON".to_string(), false)]);
}

#[test]
fn the_first_readable_source_is_applied() {
    let lines = Some("all=010203\n".to_string());
    let saved = Some("{\"Controls\": {\"BOTH\": {\"color\": \"#040506\", \"brightness\": 255}}}".to_string());
    let led = leds(1);
    let first = apply_individual(&led, None, &vec![lines.clone(), saved.clone()]).ok().unwrap();
    assert_eq!(told(&first), vec![vec!["r0=1", "g0=2", "b0=3"]]);
    let second = apply_individual(&led, None, &vec![None, saved.clone()]).ok().unwrap();
    assert_eq!(told(&second), vec![vec!["r0=4", "g0=5", "b0=6"]]);
    let own = Some("all=070809\n".to_string());
    let before = apply_individual(&led, Some("x.conf"), &vec![lines, saved.clone(), own.clone()]).ok().unwrap();
    assert_eq!(told(&before), vec![vec!["r0=1", "g0=2", "b0=3"]]);
    let between = apply_individual(&led, Some("x.conf"), &vec![None, saved.clone(), own.clone()]).ok().unwrap();
    assert_eq!(told(&between), vec![vec!["r0=4", "g0=5", "b0=6"]]);
    let last = apply_individual(&led, Some("x.conf"), &vec![None, None, own]).ok().unwrap();
    assert_eq!(told(&last), vec![vec!["r0=7", "g0=8", "b0=9"]]);
    let named = apply_individual(&led, Some("x.json"), &vec![None, None, saved.clone()]).ok().unwrap();
    assert_eq!(told(&named), vec![vec!["r0=4", "g0=5", "b0=6"]]);
    let other = apply_individual(&led, Some("x.conf"), &vec![None, None, saved]).ok().unwrap();
    assert!(other.is_empty());
}

#[test]
fn settings_that_cannot_be_applied_are_told() {
    let led = leds(8);
    assert_eq!(apply_individual(&rgb(), None, &vec![None, None]).err(), Some(ApplyError::Unsupported));
    assert_eq!(apply_individual(&led, None, &vec![None, None]).err(), Some(ApplyError::NoConfig));
    assert_eq!(apply_individual(&led, Some("a.json"), &vec![None, None, None]).err(), Some(ApplyError::UnreadableJson));
    assert_eq!(apply_individual(&led, Some("a.conf"), &vec![None, None, None]).err(), Some(ApplyError::UnreadableConfig));
}

use led_handheld::battery::{
    battery_config_cuts, color_for_battery, default_battery_config, effective_level, find_battery_path,
    load_battery_config, parse_battery_line, read_battery, BatteryThreshold, LedColor, SupplyProbe,
};
use led_handheld::conf::{configured_brightness, read_conf_key, resolve_es_color};
use led_handheld::daemon::{block_changes, changes_allowed, daemon_tick, Marker};

fn at(percent: u8, color: LedColor) -> BatteryThreshold {
    BatteryThreshold { percent, color }
}

#[test]
fn without_a_file_the_defaults_hold() {
    let expected = vec![
        at(100, LedColor::Hex(0x00, 0x99, 0x00)),
        at(15, LedColor::EsColor),
        at(10, LedColor::Hex(0xCC, 0x33, 0x33)),
        at(5, LedColor::Hex(0xFF, 0x00, 0x00)),
        at(3, LedColor::Pulse),
    ];
    assert_eq!(default_battery_config(), expected);
    assert_eq!(load_battery_config(None), expected);
    assert_eq!(load_battery_config(Some("")), expected);
    assert_eq!(load_battery_config(Some("# 5=FF0000\nnothing\n")), expected);
}

#[test]
fn lines_of_thresholds_are_read() {
    assert_eq!(parse_battery_line(" 20 = FF8000 "), Some(at(20, LedColor::Hex(255, 128, 0))));
    assert_eq!(parse_battery_line("0=PULSE"), Some(at(0, LedColor::Pulse)));
    assert_eq!(parse_battery_line("+7=RAINBOW"), Some(at(7, LedColor::Rainbow)));
    assert_eq!(parse_battery_line("100=OFF"), Some(at(100, LedColor::Off)));
    assert_eq!(parse_battery_line("50=ESCOLOR"), Some(at(50, LedColor::EsColor)));
}

#[test]
fn other_lines_set_no_threshold() {
    for line in [
        "", "   ", "# 5=FF0000", "5", "=FF0000", "101=FF0000", "256=OFF", "-1=OFF", "5=", "5=off", "5=FF00",
        "5=#FF0000", "5=GG0000", "x=OFF", "5=FF0000=", "5=FF0000 # red",
    ] {
        assert_eq!(parse_battery_line(line), None, "{:?}", line);
    }
    assert_eq!(parse_battery_line("5=##ff00"), None);
}

#[test]
fn thresholds_are_sorted_and_keep_their_order() {
    let content = "10=FF0000\n90=OFF\r\n\n10=00FF00\n#1=OFF\n 50 = PULSE\n";
    assert_eq!(
        load_battery_config(Some(content)),
        vec![
            at(90, LedColor::Off),
            at(50, LedColor::Pulse),
            at(10, LedColor::Hex(255, 0, 0)),
            at(10, LedColor::Hex(0, 255, 0)),
        ]
    );
}

#[test]
fn a_cut_character_in_thresholds_is_told() {
    assert!(battery_config_cuts(None));
    assert!(battery_config_cuts(Some("5=FF0000\n# é\n")));
    assert!(!battery_config_cuts(Some("5=FF0000\n7=1é000\n")));
    assert!(battery_config_cuts(Some("101=1é000\n")));
}

#[test]
fn the_highest_reached_threshold_decides() {
    let list = default_battery_config();
    for (level, index) in [(255u8, 0usize), (100, 0), (99, 1), (15, 1), (14, 2), (10, 2), (9, 3), (5, 3), (4, 4), (3, 4), (2, 4), (0, 4)] {
        assert_eq!(*color_for_battery(level, &list), list[index].color, "{}", level);
    }
}

#[test]
fn only_a_charging_battery_counts_as_full() {
    assert_eq!(effective_level(7, true), 100);
    assert_eq!(effective_level(100, false), 99);
    assert_eq!(effective_level(200, false), 99);
    assert_eq!(effective_level(98, false), 98);
}

#[test]
fn batteries_are_read() {
    assert_eq!(read_battery("77\n", "Charging\n"), (77, true));
    assert_eq!(read_battery("100\n", "Full\n"), (100, true));
    assert_eq!(read_battery("77", "Discharging\n"), (77, false));
    assert_eq!(read_battery("?", "charging"), (0, false));
}

#[test]
fn the_first_battery_is_found() {
    let supply = |kind: &str, has_capacity: bool| SupplyProbe { kind: kind.to_string(), has_capacity };
    assert_eq!(find_battery_path(&Vec::new()), None);
    let list = vec![supply("Mains\n", true), supply("Battery\n", false), supply("Battery\n", true), supply("Battery", true)];
    assert_eq!(find_battery_path(&list), Some(2));
    assert_eq!(find_battery_path(&vec![supply("USB", true)]), None);
}

#[test]
fn configuration_keys_are_read() {
    let content = "# led.colour=9 9 9\nled.colourful=1\nled.colour=\n led.colour= 1 2 3 # mine\nled.colour=4 5 6\n";
    assert_eq!(read_conf_key(Some(content), "led.colour"), Some("1 2 3".to_string()));
    assert_eq!(read_conf_key(Some(content), "led.brightness"), None);
    assert_eq!(read_conf_key(Some("k=#x\n"), "k"), None);
    assert_eq!(read_conf_key(Some("k =x\n"), "k"), None);
    assert_eq!(read_conf_key(None, "k"), None);
}

#[test]
fn comments_and_white_space_do_not_count() {
    assert_eq!(read_conf_key(Some("\t key=a b \t# c # d \n"), "key"), Some("a b".to_string()));
    assert_eq!(read_conf_key(Some("  key=a b\u{a0}"), "key"), Some("a b".to_string()));
}

#[test]
fn the_front_end_color_is_resolved() {
    assert_eq!(resolve_es_color(Some("led.colour=1 20 255\n")), (1, 20, 255));
    for content in ["", "led.colour=1 2\n", "led.colour=1 2 256\n", "led.colour=1 2 3 4\n", "led.colour=a b c\n"] {
        assert_eq!(resolve_es_color(Some(content)), (255, 0, 165), "{:?}", content);
    }
    assert_eq!(resolve_es_color(None), (255, 0, 165));
}

#[test]
fn brightness_is_configured() {
    assert_eq!(configured_brightness(Some("led.brightness=9\n")), 9);
    assert_eq!(configured_brightness(Some("led.brightness=x\nled.brightness=9\n")), 128);
    assert_eq!(configured_brightness(None), 128);
}

#[test]
fn a_recent_marker_blocks_changes() {
    assert!(changes_allowed(Marker::Missing).0);
    assert!(changes_allowed(Marker::Missing).1.is_none());
    assert!(!changes_allowed(Marker::Recent).0);
    assert!(changes_allowed(Marker::Recent).1.is_none());
    let (allowed, reset) = changes_allowed(Marker::Expired);
    let write = reset.unwrap();
    assert!(allowed);
    assert_eq!((write.path.as_str(), write.text.as_str()), ("/var/run/led-handheld-block", "0"));
}

#[test]
fn the_marker_is_written() {
    let write = block_changes(true, "1700000000");
    assert_eq!((write.path.as_str(), write.text.as_str()), ("/var/run/led-handheld-block", "1700000000"));
    assert_eq!(block_changes(false, "1700000000").text, "0");
}

#[test]
fn the_daemon_shows_the_level() {
    let list = default_battery_config();
    let tick = daemon_tick(Some((100, false)), Marker::Missing, &list);
    assert_eq!(tick.color, Some(LedColor::EsColor));
    assert!(tick.reset.is_none());
    assert_eq!(daemon_tick(Some((4, true)), Marker::Missing, &list).color, Some(LedColor::Hex(0, 0x99, 0)));
    let expired = daemon_tick(Some((4, false)), Marker::Expired, &list);
    assert_eq!(expired.color, Some(LedColor::Pulse));
    assert!(expired.reset.is_some());
    assert_eq!(daemon_tick(Some((4, false)), Marker::Recent, &list).color, None);
    let unread = daemon_tick(None, Marker::Expired, &list);
    assert!(unread.color.is_none() && unread.reset.is_none());
}

use led_handheld::backend::{
    join, read_u32, read_u8, Backend, FileWrite, IndividualBackend, LedChannels, PwmBackend, RgbBackend,
};
use led_handheld::color::LedError;

fn pairs(writes: &[FileWrite]) -> Vec<(String, String)> {
    writes.iter().map(|w| (w.path.clone(), w.text.clone())).collect()
}

fn pair(path: &str, text: &str) -> (String, String) {
    (path.to_string(), text.to_string())
}

fn rgb() -> Backend {
    Backend::Rgb(RgbBackend { base: "/leds/chassis".to_string() })
}

fn pwm() -> Backend {
    Backend::Pwm(PwmBackend { chips: vec!["/pwm/chip0".to_string(), "/pwm/chip4".to_string()], period: 100 })
}

fn individual(n: usize) -> Backend {
    let leds = (0..n)
        .map(|i| LedChannels { red: format!("/r{}", i), green: format!("/g{}", i), blue: format!("/b{}", i) })
        .collect();
    Backend::Individual(IndividualBackend { leds })
}

fn strings(list: &[&str]) -> Vec<String> {
    list.iter().map(|s| s.to_string()).collect()
}

#[test]
fn paths_are_joined() {
    assert_eq!(join("/a", "b"), "/a/b");
    assert_eq!(join("/a/", "b"), "/a/b");
    assert_eq!(join("", "b"), "b");
}

#[test]
fn numbers_in_files_are_read() {
    assert_eq!(read_u8(" 42\n"), 42);
    assert_eq!(read_u8("256"), 0);
    assert_eq!(read_u8("x"), 0);
    assert_eq!(read_u32("4294967295\n"), 4294967295);
    assert_eq!(read_u32("4294967296"), 0);
}

#[test]
fn rgb_color_is_one_write() {
    assert_eq!(pairs(&rgb().set_all_color(1, 22, 255)), vec![pair("/leds/chassis/multi_intensity", "1 22 255")]);
    assert_eq!(pairs(&rgb().turn_off()), vec![pair("/leds/chassis/multi_intensity", "0 0 0")]);
}

#[test]
fn rgb_color_reads_back() {
    let led = rgb();
    let writes = led.set_all_color(9, 80, 255);
    assert_eq!(led.color_files().unwrap(), vec![writes[0].path.clone()]);
    let contents = vec![format!("{}\n", writes[0].text)];
    assert_eq!(led.get_color(&contents), Ok((9, 80, 255)));
    assert_eq!(led.get_color(&strings(&["1 2"])), Err(LedError::ExpectedThreeValues));
}

#[test]
fn rgb_brightness_is_written_and_read() {
    let led = rgb();
    assert_eq!(pairs(&led.set_brightness(77)), vec![pair("/leds/chassis/brightness", "77")]);
    assert_eq!(
        led.brightness_files(),
        strings(&["/leds/chassis/brightness", "/leds/chassis/max_brightness"])
    );
    assert_eq!(led.get_brightness(&strings(&["12\n", "200\n"])), (12, 200));
    assert_eq!(led.get_brightness(&strings(&["none", "none"])), (0, 255));
}

#[test]
fn other_backends_have_no_brightness() {
    for led in [pwm(), individual(2)] {
        assert!(led.set_brightness(3).is_empty());
        assert!(led.brightness_files().is_empty());
        assert_eq!(led.get_brightness(&Vec::new()), (255, 255));
    }
}

#[test]
fn configured_brightness_is_applied() {
    let led = rgb();
    let path = "/leds/chassis/brightness";
    assert_eq!(pairs(&led.apply_brightness_conf(Some("led.brightness=40 # low\n"))), vec![pair(path, "40")]);
    assert_eq!(pairs(&led.apply_brightness_conf(Some("led.brightness=400\n"))), vec![pair(path, "128")]);
    assert_eq!(pairs(&led.apply_brightness_conf(None)), vec![pair(path, "128")]);
    assert!(pwm().apply_brightness_conf(None).is_empty());
}

#[test]
fn pwm_color_sets_twelve_channels_of_each_chip() {
    let writes = pairs(&pwm().set_all_color(255, 128, 0));
    assert_eq!(writes.len(), 24);
    let mut expected = Vec::new();
    for chip in ["/pwm/chip0", "/pwm/chip4"] {
        for (first, duty) in [(0, "100"), (1, "50"), (2, "0")] {
            for k in 0..4 {
                expected.push(pair(&format!("{}/pwm{}/duty_cycle", chip, first + 3 * k), duty));
            }
        }
    }
    assert_eq!(writes, expected);
}

#[test]
fn pwm_color_is_read_from_the_first_chip() {
    let led = pwm();
    assert_eq!(
        led.color_files().unwrap(),
        strings(&["/pwm/chip0/pwm0/duty_cycle", "/pwm/chip0/pwm1/duty_cycle", "/pwm/chip0/pwm2/duty_cycle"])
    );
    assert_eq!(led.get_color(&strings(&["100\n", "50\n", "x"])), Ok((255, 127, 0)));
    assert_eq!(led.get_color(&strings(&["101", "0", "0"])), Ok((1, 0, 0)));
}

#[test]
fn pwm_without_chips_has_no_color() {
    let led = Backend::Pwm(PwmBackend { chips: Vec::new(), period: 100 });
    assert!(led.set_all_color(1, 2, 3).is_empty());
    assert_eq!(led.color_files().err(), Some(LedError::NoPwmChip));
    assert_eq!(LedError::NoPwmChip.message(), "no PWM chip");
}

#[test]
fn chips_with_a_period_of_zero_are_written() {
    let led = Backend::Pwm(PwmBackend { chips: vec!["/c".to_string()], period: 0 });
    let writes = led.set_all_color(255, 1, 0);
    assert_eq!(writes.len(), 12);
    assert!(writes.iter().all(|w| w.text == "0"));
}

#[test]
fn every_led_reads_back_what_all_were_set_to() {
    let leds = IndividualBackend {
        leds: (0..3)
            .map(|i| LedChannels { red: format!("r{}", i), green: format!("g{}", i), blue: format!("b{}", i) })
            .collect(),
    };
    let writes = leds.set_all(7, 80, 255);
    for i in 0..3 {
        let files = leds.led_files(i).unwrap();
        let texts: Vec<String> = files
            .iter()
            .map(|f| writes.iter().filter(|w| &w.path == f).last().unwrap().text.clone())
            .collect();
        assert_eq!(leds.get_led(i, &texts[0], &texts[1], &texts[2]), Ok((7, 80, 255)));
    }
}

#[test]
fn duty_cycles_lose_little() {
    let chip = PwmBackend { chips: vec!["/c".to_string()], period: 100 };
    for c in 0u8..=255 {
        let writes = chip.set_color(c, c, c);
        let back = chip.get_color(&writes[0].text, &writes[4].text, &writes[8].text).unwrap();
        assert!(back.0 <= c && c - back.0 <= 3, "{}", c);
        assert_eq!(back, (back.0, back.0, back.0));
    }
    let fine = PwmBackend { chips: vec!["/c".to_string()], period: 255 };
    let writes = fine.set_color(3, 200, 255);
    assert_eq!(fine.get_color(&writes[0].text, &writes[4].text, &writes[8].text), Ok((3, 200, 255)));
}

#[test]
fn leds_are_set_one_by_one() {
    let led = individual(2);
    let writes = led.set_led_color(1, 5, 60, 255).unwrap();
    assert_eq!(pairs(&writes), vec![pair("/r1", "5"), pair("/g1", "60"), pair("/b1", "255")]);
    assert_eq!(led.set_led_color(2, 5, 6, 7).err(), Some(LedError::IndexOutOfRange));
    assert_eq!(LedError::IndexOutOfRange.message(), "LED index out of range");
    assert_eq!(pairs(&led.set_all_color(1, 2, 3)).len(), 6);
    assert_eq!(led.set_all_color(1, 2, 3)[5].path, "/b1");
}

#[test]
fn the_color_of_leds_is_that_of_the_first() {
    let led = individual(2);
    assert_eq!(led.color_files().unwrap(), strings(&["/r0", "/g0", "/b0"]));
    assert_eq!(led.get_color(&strings(&["5\n", "60\n", "255\n"])), Ok((5, 60, 255)));
    assert_eq!(individual(0).color_files().err(), Some(LedError::IndexOutOfRange));
}

#[test]
fn a_set_led_reads_back() {
    let leds = IndividualBackend {
        leds: vec![LedChannels { red: "r".to_string(), green: "g".to_string(), blue: "b".to_string() }],
    };
    let writes = leds.set_led(0, 12, 0, 250).unwrap();
    assert_eq!(leds.led_files(0).unwrap(), vec!["r", "g", "b"]);
    assert_eq!(leds.get_led(0, &writes[0].text, &writes[1].text, &writes[2].text), Ok((12, 0, 250)));
    assert_eq!(leds.get_led(1, "1", "2", "3"), Err(LedError::IndexOutOfRange));
}

#[test]
fn one_led_of_a_common_backend_is_all_of_it() {
    assert_eq!(pairs(&rgb().set_led_color(7, 1, 2, 3).unwrap()), pairs(&rgb().set_all_color(1, 2, 3)));
    assert_eq!(pairs(&pwm().set_led_color(7, 1, 2, 3).unwrap()), pairs(&pwm().set_all_color(1, 2, 3)));
}

#[test]
fn backends_are_named() {
    assert_eq!((rgb().name(), rgb().num_leds(), rgb().supports_individual()), ("rgb", 1, false));
    assert_eq!((pwm().name(), pwm().num_leds(), pwm().supports_individual()), ("pwm", 1, false));
    let leds = individual(8);
    assert_eq!((leds.name(), leds.num_leds(), leds.supports_individual()), ("individual", 8, true));
}

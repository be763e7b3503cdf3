use led_handheld::backend::Backend;
use led_handheld::detect::{
    channel_dir, channel_setup, detect_backend, detect_individual, detect_pwm, detected_setup, probe_paths,
    setup_steps, PwmProbe,
};

fn chip(path: &str, name: &str, npwm: &str) -> PwmProbe {
    PwmProbe { path: path.to_string(), name: name.to_string(), npwm: npwm.to_string() }
}

#[test]
fn probed_paths_are_listed() {
    let paths = probe_paths();
    assert_eq!(paths.len(), 25);
    assert_eq!(paths[0], "/sys/class/leds/multicolor:chassis/multi_intensity");
    assert_eq!(paths[1], "/sys/class/leds/l:r1/brightness");
    assert_eq!(paths[2], "/sys/class/leds/l:g1/brightness");
    assert_eq!(paths[3], "/sys/class/leds/l:b1/brightness");
    assert_eq!(paths[13], "/sys/class/leds/r:r1/brightness");
    assert_eq!(paths[24], "/sys/class/leds/r:b4/brightness");
}

#[test]
fn the_multicolor_led_comes_first() {
    let found = detect_backend(&probe_paths(), &vec![chip("/p", "htr3212-pwm", "12")]);
    match found {
        Some(Backend::Rgb(rgb)) => assert_eq!(rgb.base, "/sys/class/leds/multicolor:chassis"),
        _ => panic!("not rgb"),
    }
}

#[test]
fn the_single_leds_come_second() {
    let paths = probe_paths()[1..].to_vec();
    let found = detect_backend(&paths, &vec![chip("/p", "htr3212-pwm", "12")]);
    match found {
        Some(Backend::Individual(ind)) => {
            assert_eq!(ind.leds.len(), 8);
            for i in 0..8 {
                assert_eq!(ind.leds[i].red, paths[3 * i]);
                assert_eq!(ind.leds[i].green, paths[3 * i + 1]);
                assert_eq!(ind.leds[i].blue, paths[3 * i + 2]);
            }
        }
        _ => panic!("not individual"),
    }
}

#[test]
fn detected_leds_share_no_file() {
    let ind = detect_individual(&probe_paths()).unwrap();
    let mut paths = Vec::new();
    for led in &ind.leds {
        paths.push(led.red.clone());
        paths.push(led.green.clone());
        paths.push(led.blue.clone());
    }
    paths.sort();
    paths.dedup();
    assert_eq!(paths.len(), 24);
}

#[test]
fn no_single_led_may_be_missing() {
    for missing in 1..25 {
        let mut paths = probe_paths();
        paths.remove(missing);
        assert!(detect_individual(&paths).is_none());
    }
}

#[test]
fn chips_come_last() {
    let probes = vec![
        chip("/pwm/a", "other", "12"),
        chip("/pwm/b", "htr3212-pwm\n", "12\n"),
        chip("/pwm/c", "htr3212-pwm", "0"),
        chip("/pwm/d", "htr3212-pwm", "4"),
        chip("/pwm/e", "htr3212-pwm", ""),
        chip("/pwm/f", " htr3212-pwm", "3"),
    ];
    match detect_backend(&Vec::new(), &probes) {
        Some(Backend::Pwm(pwm)) => {
            assert_eq!(pwm.chips, vec!["/pwm/b", "/pwm/f"]);
            assert_eq!(pwm.period, 100);
        }
        _ => panic!("not pwm"),
    }
    assert_eq!(probes[1].channels(), Some(12));
    assert_eq!(probes[3].channels(), None);
}

#[test]
fn without_hardware_nothing_is_detected() {
    assert!(detect_pwm(&Vec::new()).is_none());
    assert!(detect_backend(&Vec::new(), &vec![chip("/p", "x", "12")]).is_none());
}

#[test]
fn channels_are_made_ready() {
    assert_eq!(channel_dir("/pwm/b", 11), "/pwm/b/pwm11");
    let writes: Vec<(String, String)> =
        channel_setup("/pwm/b", 11, false).into_iter().map(|w| (w.path, w.text)).collect();
    let expected: Vec<(String, String)> = [
        ("/pwm/b/export", "11"),
        ("/pwm/b/pwm11/enable", "1"),
        ("/pwm/b/pwm11/period", "100"),
    ]
    .iter()
    .map(|(p, t)| (p.to_string(), t.to_string()))
    .collect();
    assert_eq!(writes, expected);
    assert_eq!(channel_setup("/pwm/b", 11, true).len(), 2);
    assert_eq!(channel_setup("/pwm/b", 11, true)[0].path, "/pwm/b/pwm11/enable");
}

#[test]
fn every_channel_of_every_chip_is_made_ready() {
    let probes = vec![
        chip("/pwm/a", "other", "12"),
        chip("/pwm/b", "htr3212-pwm\n", "6\n"),
        chip("/pwm/c", "htr3212-pwm", "4"),
        chip("/pwm/d", "htr3212-pwm", "3"),
    ];
    let expected: Vec<(String, u32)> = [
        ("/pwm/b", 0u32), ("/pwm/b", 1), ("/pwm/b", 2), ("/pwm/b", 3), ("/pwm/b", 4), ("/pwm/b", 5),
        ("/pwm/d", 0), ("/pwm/d", 1), ("/pwm/d", 2),
    ]
    .iter()
    .map(|(p, c)| (p.to_string(), *c))
    .collect();
    assert_eq!(setup_steps(&probes), expected);
    assert_eq!(detected_setup(&detect_backend(&Vec::new(), &probes), &probes), expected);
    assert!(setup_steps(&Vec::new()).is_empty());
}

#[test]
fn only_detected_chips_are_made_ready() {
    let probes = vec![chip("/pwm/b", "htr3212-pwm", "3")];
    assert!(detected_setup(&None, &probes).is_empty());
    assert!(detected_setup(&detect_backend(&probe_paths(), &probes), &probes).is_empty());
    let leds = probe_paths()[1..].to_vec();
    assert!(detected_setup(&detect_backend(&leds, &probes), &probes).is_empty());
}

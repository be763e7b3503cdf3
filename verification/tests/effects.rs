use led_handheld::backend::{Backend, PwmBackend, RgbBackend};
use led_handheld::battery::LedColor;
use led_handheld::effects::{
    apply_color, color_before, do_pulse, do_rainbow, pulse_factor, pulse_rgb, rainbow_rgb, Action,
};

fn rgb() -> Backend {
    Backend::Rgb(RgbBackend { base: "/x".to_string() })
}

fn told(actions: Vec<Action>) -> Vec<String> {
    actions
        .into_iter()
        .map(|a| match a {
            Action::Write(w) => format!("{}={}", w.path, w.text),
            Action::Sleep(ms) => format!("sleep {}", ms),
        })
        .collect()
}

fn rainbow_in_floats(pos: f64) -> (u8, u8, u8) {
    let angle = pos * 360.0;
    let channel = |start: f64| -> u8 {
        let diff = if angle < start { angle + 360.0 - start } else { angle - start };
        if diff < 60.0 {
            (diff / 60.0 * 255.0) as u8
        } else if diff <= 180.0 {
            255
        } else if diff < 240.0 {
            ((240.0 - diff) / 60.0 * 255.0) as u8
        } else {
            0
        }
    };
    (channel(120.0), channel(240.0), channel(0.0))
}

fn factor_in_floats(step: u32, total: u32) -> f64 {
    let half = total as f64 / 2.0;
    if (step as f64) < half {
        1.0 - 2.0 * step as f64 / total as f64
    } else {
        (step as f64 - half) / half
    }
}

#[test]
fn the_rainbow_is_that_of_double_precision() {
    for total in [1u32, 2, 3, 7, 59, 60, 61, 97, 360, 1000, 4294967295] {
        for step in 0..total.min(1200) {
            assert_eq!(rainbow_rgb(step, total), rainbow_in_floats(step as f64 / total as f64), "{} {}", step, total);
        }
        for step in [total - 1, total, total.saturating_add(1), total.saturating_mul(2), 4294967295] {
            assert_eq!(rainbow_rgb(step, total), rainbow_in_floats(step as f64 / total as f64), "{} {}", step, total);
        }
    }
}

#[test]
fn the_rainbow_passes_its_colors() {
    assert_eq!(rainbow_rgb(0, 60), (0, 255, 0));
    assert_eq!(rainbow_rgb(10, 60), (0, 255, 255));
    assert_eq!(rainbow_rgb(20, 60), (0, 0, 255));
    assert_eq!(rainbow_rgb(30, 60), (255, 0, 255));
    assert_eq!(rainbow_rgb(40, 60), (255, 0, 0));
    assert_eq!(rainbow_rgb(42, 60), (255, 50, 0));
    assert_eq!(rainbow_rgb(50, 60), (255, 255, 0));
}

#[test]
fn the_rainbow_closes() {
    for total in [1u32, 3, 7, 60, 4294967295] {
        assert_eq!(rainbow_rgb(total, total), (0, 255, 0));
        assert_eq!(rainbow_rgb(0, total), (0, 255, 0));
    }
}

#[test]
fn every_frame_of_the_rainbow_is_pure() {
    for step in 0..=60 {
        let (r, g, b) = rainbow_rgb(step, 60);
        assert!(r == 255 || g == 255 || b == 255);
        assert!(r == 0 || g == 0 || b == 0);
    }
}

#[test]
fn the_pulse_is_that_of_double_precision() {
    for total in [1u32, 2, 3, 7, 59, 60, 61, 97, 1000, 4294967295] {
        for step in 0..total.min(200) {
            let f = pulse_factor(step, total);
            let value = f.mant as f64 / 2f64.powi(f.exp as i32);
            assert_eq!(value, factor_in_floats(step, total), "{} {}", step, total);
        }
        for step in [total - 1, total, total / 2, total / 2 + 1, 4294967295] {
            let f = pulse_factor(step, total);
            let value = f.mant as f64 / 2f64.powi(f.exp as i32);
            assert_eq!(value, factor_in_floats(step, total), "{} {}", step, total);
        }
    }
}

#[test]
fn pulsed_colors_are_those_of_double_precision() {
    for step in 0..60 {
        let f = factor_in_floats(step, 60);
        for c in 0u8..=255 {
            let expected = (f * c as f64) as u8;
            assert_eq!(pulse_rgb((c, 0, 255), step, 60), (expected, 0, (f * 255.0) as u8));
            assert!(expected <= c);
        }
    }
    assert_eq!(pulse_rgb((5, 0, 0), 24, 60), (0, 0, 0));
}

#[test]
fn a_pulse_begins_full_and_goes_dark() {
    assert_eq!(pulse_rgb((200, 100, 7), 0, 60), (200, 100, 7));
    assert_eq!(pulse_rgb((200, 100, 7), 15, 60), (100, 50, 3));
    assert_eq!(pulse_rgb((200, 100, 7), 30, 60), (0, 0, 0));
    assert_eq!(pulse_rgb((200, 100, 7), 45, 60), (100, 50, 3));
}

#[test]
fn a_rainbow_runs_and_restores() {
    let steps = told(do_rainbow(&rgb(), (1, 2, 3)));
    assert_eq!(steps.len(), 121);
    assert_eq!(steps[0], "/x/multi_intensity=0 255 0");
    assert_eq!(steps[1], "sleep 33");
    assert_eq!(steps[84], "/x/multi_intensity=255 50 0");
    assert_eq!(steps[119], "sleep 33");
    assert_eq!(steps[120], "/x/multi_intensity=1 2 3");
    let waits = steps.iter().filter(|s| s.starts_with("sleep")).count();
    assert_eq!(waits * 33, 1980);
}

#[test]
fn a_pulse_runs_and_restores() {
    let steps = told(do_pulse(&rgb(), (200, 100, 7)));
    assert_eq!(steps.len(), 121);
    assert_eq!(steps[0], "/x/multi_intensity=200 100 7");
    assert_eq!(steps[1], "sleep 16");
    assert_eq!(steps[60], "/x/multi_intensity=0 0 0");
    assert_eq!(steps[120], "/x/multi_intensity=200 100 7");
}

#[test]
fn effects_run_on_chips() {
    let led = Backend::Pwm(PwmBackend { chips: vec!["/c".to_string()], period: 100 });
    let steps = told(do_pulse(&led, (255, 0, 0)));
    assert_eq!(steps.len(), 60 * 13 + 12);
    assert_eq!(steps[0], "/c/pwm0/duty_cycle=100");
    assert_eq!(steps[12], "sleep 16");
}

#[test]
fn every_kind_of_color_is_shown() {
    let led = rgb();
    let conf = Some("led.colour=7 8 9\n");
    assert_eq!(told(apply_color(&led, &LedColor::Hex(1, 2, 3), conf, (0, 0, 0))), vec!["/x/multi_intensity=1 2 3"]);
    assert_eq!(told(apply_color(&led, &LedColor::Off, conf, (9, 9, 9))), vec!["/x/multi_intensity=0 0 0"]);
    assert_eq!(told(apply_color(&led, &LedColor::EsColor, conf, (0, 0, 0))), vec!["/x/multi_intensity=7 8 9"]);
    assert_eq!(told(apply_color(&led, &LedColor::EsColor, None, (0, 0, 0))), vec!["/x/multi_intensity=255 0 165"]);
    assert_eq!(told(apply_color(&led, &LedColor::Pulse, conf, (4, 5, 6))), told(do_pulse(&led, (4, 5, 6))));
    assert_eq!(told(apply_color(&led, &LedColor::Rainbow, conf, (4, 5, 6))), told(do_rainbow(&led, (4, 5, 6))));
}

#[test]
fn the_color_before_is_black_where_none_was_read() {
    assert_eq!(color_before(Some((1, 2, 3))), (1, 2, 3));
    assert_eq!(color_before(None), (0, 0, 0));
}

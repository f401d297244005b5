use yokai::split::share;

fn by_double(total: u16, ratio: i8) -> u16 {
    let factor = ratio.min(100) as f64 / 100.0;
    (total as f64 * factor) as u16
}

fn agree_on(ratios: std::ops::RangeInclusive<i8>) {
    for ratio in ratios {
        for total in 0..=u16::MAX {
            assert_eq!(share(total, ratio), by_double(total, ratio), "{total} by {ratio}");
        }
    }
}

#[test]
fn share_of_half() {
    assert_eq!(share(1920, 50), 960);
    assert_eq!(share(1080, 50), 540);
    assert_eq!(share(1, 50), 0);
    assert_eq!(share(3, 50), 1);
}

#[test]
fn share_of_seventy_percent() {
    assert_eq!(share(1920, 70), 1344);
    assert_eq!(1920 - share(1920, 70), 576);
}

#[test]
fn share_rounds_as_doubles_do() {
    // 0.29 is a little less than 29 hundredths, and so is the product.
    assert_eq!(share(100, 29), 28);
    assert_eq!(share(100, 57), 56);
    assert_eq!(share(100, 58), 57);
    assert_eq!(share(100, 28), 28);
}

#[test]
fn share_of_nothing_is_nothing() {
    for ratio in i8::MIN..=i8::MAX {
        assert_eq!(share(0, ratio), 0);
    }
}

#[test]
fn share_below_zero_percent_is_nothing() {
    assert_eq!(share(1000, 0), 0);
    assert_eq!(share(1000, -1), 0);
    assert_eq!(share(u16::MAX, i8::MIN), 0);
}

#[test]
fn share_above_hundred_percent_is_all() {
    assert_eq!(share(1000, 100), 1000);
    assert_eq!(share(1000, 101), 1000);
    assert_eq!(share(u16::MAX, i8::MAX), u16::MAX);
}

#[test]
fn share_never_exceeds_the_total() {
    for ratio in i8::MIN..=i8::MAX {
        for total in (0..=u16::MAX).step_by(257) {
            assert!(share(total, ratio) <= total);
        }
    }
}

#[test]
fn share_agrees_with_doubles_outside_the_percent_range() {
    for ratio in (i8::MIN..=0).chain(100..=i8::MAX) {
        for total in (0..=u16::MAX).step_by(7) {
            assert_eq!(share(total, ratio), by_double(total, ratio));
        }
    }
}

#[test]
fn share_agrees_with_doubles_from_1_to_9() {
    agree_on(1..=9);
}

#[test]
fn share_agrees_with_doubles_from_10_to_19() {
    agree_on(10..=19);
}

#[test]
fn share_agrees_with_doubles_from_20_to_29() {
    agree_on(20..=29);
}

#[test]
fn share_agrees_with_doubles_from_30_to_39() {
    agree_on(30..=39);
}

#[test]
fn share_agrees_with_doubles_from_40_to_49() {
    agree_on(40..=49);
}

#[test]
fn share_agrees_with_doubles_from_50_to_59() {
    agree_on(50..=59);
}

#[test]
fn share_agrees_with_doubles_from_60_to_69() {
    agree_on(60..=69);
}

#[test]
fn share_agrees_with_doubles_from_70_to_79() {
    agree_on(70..=79);
}

#[test]
fn share_agrees_with_doubles_from_80_to_89() {
    agree_on(80..=89);
}

#[test]
fn share_agrees_with_doubles_from_90_to_99() {
    agree_on(90..=99);
}

#[test]
fn share_is_the_exact_percentage_or_one_less() {
    for ratio in 0..=100i8 {
        for total in (0..=u16::MAX).step_by(5) {
            let exact = total as u32 * ratio as u32 / 100;
            let part = share(total, ratio) as u32;
            assert!(part == exact || part + 1 == exact, "{total} by {ratio}");
        }
    }
}

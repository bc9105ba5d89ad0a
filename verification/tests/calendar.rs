use iomon::calendar::{civil_from_days, ymd};

#[test]
fn unix_day_is_utc_date() {
    assert_eq!(ymd(0), "1970-01-01");
}

#[test]
fn days_have_their_dates() {
    assert_eq!(ymd(86399), "1970-01-01");
    assert_eq!(ymd(86400), "1970-01-02");
    assert_eq!(ymd(951_782_400), "2000-02-29");
    assert_eq!(ymd(951_868_800), "2000-03-01");
    assert_eq!(ymd(1_700_000_000), "2023-11-14");
    assert_eq!(ymd(4_107_542_400), "2100-03-01");
    assert_eq!(ymd(253_402_300_800), "10000-01-01");
    assert_eq!(civil_from_days(-1), (1969, 12, 31));
    assert_eq!(civil_from_days(-719468), (0, 3, 1));
    assert_eq!(civil_from_days(-719469), (0, 2, 29));
    assert_eq!(civil_from_days(-719528), (0, 1, 1));
    assert_eq!(civil_from_days(-719529), (-1, 12, 31));
}

/// A day after another is the next day of the month, or the first of the next.
#[test]
fn days_follow_each_other() {
    let leap = |y: i32| y % 4 == 0 && (y % 100 != 0 || y % 400 == 0);
    let (mut y, mut m, mut d) = (1896, 1, 1);
    let mut z: i64 = -27028;
    assert_eq!(civil_from_days(z), (y, m, d));
    for _ in 0..120_000 {
        let len = match m {
            2 => {
                if leap(y) {
                    29
                } else {
                    28
                }
            }
            4 | 6 | 9 | 11 => 30,
            _ => 31,
        };
        d += 1;
        if d > len {
            d = 1;
            m += 1;
            if m > 12 {
                m = 1;
                y += 1;
            }
        }
        z += 1;
        assert_eq!(civil_from_days(z), (y, m, d));
    }
}

#[test]
fn far_years_are_cut_to_32_bits() {
    let (y, m, d) = civil_from_days((u64::MAX / 86400) as i64);
    assert_eq!((y, m, d), (584_554_051_223i64 as i32, 11, 9));
    assert_eq!(ymd(u64::MAX), format!("{:04}-11-09", 584_554_051_223i64 as i32));
}

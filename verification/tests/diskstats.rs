use iomon::binary64::Binary64;
use iomon::diskstats::{is_pseudo_device, parse, parse_line, rate, rates, rates_fit, DiskStats};

const SAMPLE: &str = "   7       0 loop7 0 0 0 0 0 0 0 0 0 0 0\n\
       8       0 sda 79522 2676 3235360 78160 2100782 1033836 8701080 16552390 0 2491280 17331450 0 0 0 0 0 0\n\
       8       1 sda1 79187 2673 3228296 77120 2098544 1033682 8666688 16544524 0 2491160 17322160";

fn of(x: f64) -> Binary64 {
    Binary64::from_bits(x.to_bits())
}

fn to(x: Binary64) -> f64 {
    f64::from_bits(x.bits)
}

#[test]
fn parse_diskstats_sample() {
    let disks = parse(SAMPLE).expect("解析应成功");
    assert_eq!(disks.len(), 3);

    let sda = &disks[1];
    assert_eq!((sda.major, sda.minor), (8, 0));
    assert_eq!(sda.device, "sda");
    assert_eq!(sda.reads_completed, 79522);
    assert_eq!(sda.reads_merged, 2676);
    assert_eq!(sda.sectors_read, 3235360);
    assert_eq!(sda.time_reading_ms, 78160);
    assert_eq!(sda.writes_completed, 2100782);
    assert_eq!(sda.io_time_ms, 2491280);
    assert_eq!(sda.weighted_io_time_ms, 17331450);
}

#[test]
fn parse_rejects_short_line() {
    assert!(parse_line("8 0 sda 1 2 3").is_err());
}

#[test]
fn parse_rejects_non_numeric() {
    assert!(parse_line("8 0 sda x 0 0 0 0 0 0 0 0 0 0").is_err());
}

#[test]
fn faults_name_line_and_field() {
    assert_eq!(parse_line("8 0 sda 1 2 3").unwrap_err(), "字段数不足: 6（至少需要 14 个）");
    assert_eq!(
        parse_line("8 0 sda x 0 0 0 0 0 0 0 0 0 0").unwrap_err(),
        "第 4 个字段不是有效数字: \"x\""
    );
    assert_eq!(
        parse("\n8 0 sda 0 0 0 0 0 0 0 0 0 0 0\r\n   \n8 y sdb 0 0 0 0 0 0 0 0 0 0 0\n").unwrap_err(),
        "第 4 行: 第 2 个字段不是有效数字: \"y\""
    );
    assert_eq!(parse(" \n\t\n").unwrap().len(), 0);
}

#[test]
fn device_numbers_keep_their_low_bits() {
    let d = parse_line("4294967304 +16 sda 1 2 3 4 5 6 7 8 9 10 11").unwrap();
    assert_eq!((d.major, d.minor), (8, 16));
    assert_eq!(d.in_flight, 9);
    assert_eq!(d.weighted_io_time_ms, 11);
}

#[test]
fn pseudo_devices() {
    for name in ["loop0", "ram1", "zram0", "sr0", "srv"] {
        assert!(is_pseudo_device(name), "{}", name);
    }
    for name in ["sda", "nvme0n1", "dm-0", "xloop", ""] {
        assert!(!is_pseudo_device(name), "{}", name);
    }
}

#[allow(clippy::too_many_arguments)]
fn stats(
    reads: u64,
    sect_r: u64,
    read_ms: u64,
    writes: u64,
    sect_w: u64,
    write_ms: u64,
    io_ms: u64,
    weighted_ms: u64,
) -> DiskStats {
    DiskStats {
        major: 8,
        minor: 0,
        device: "sda".to_string(),
        reads_completed: reads,
        reads_merged: 0,
        sectors_read: sect_r,
        time_reading_ms: read_ms,
        writes_completed: writes,
        writes_merged: 0,
        sectors_written: sect_w,
        time_writing_ms: write_ms,
        in_flight: 0,
        io_time_ms: io_ms,
        weighted_io_time_ms: weighted_ms,
    }
}

#[test]
fn diskstats_rate_computes_speeds() {
    let prev = stats(100, 200, 0, 50, 400, 0, 1000, 0);
    let cur = stats(110, 400, 40, 50, 1400, 60, 3000, 4000);
    let r = rate(&prev, &cur, of(2.0));

    assert!((to(r.r_s) - 5.0).abs() < 1e-9);
    assert!((to(r.w_s) - 0.0).abs() < 1e-9);
    assert!((to(r.rk_bps) - 50.0).abs() < 1e-9);
    assert!((to(r.wk_bps) - 250.0).abs() < 1e-9);
    assert!((to(r.await_ms) - 10.0).abs() < 1e-9);
    assert!((to(r.util_pct) - 100.0).abs() < 1e-9);
    assert!((to(r.aqu_sz) - 2.0).abs() < 1e-9);
    assert!(r.active);
}

#[test]
fn rate_marks_inactive() {
    let prev = stats(100, 200, 0, 50, 400, 0, 1000, 0);
    let cur = stats(100, 200, 0, 50, 400, 0, 1000, 0);
    let r = rate(&prev, &cur, of(2.0));
    assert!(!r.active);
    assert!((to(r.await_ms) - 0.0).abs() < 1e-9);
}

#[test]
fn rates_are_those_of_the_machine() {
    let prev = stats(3, 7, 11, 13, 17, 19, 23, 29);
    let cur = stats(1003, 7007, 110, 1307, 170017, 1901, 2303, 2929);
    let elapsed = 1.7300000001;
    let r = rate(&prev, &cur, of(elapsed));
    assert_eq!(to(r.r_s), 1000.0 / elapsed);
    assert_eq!(to(r.w_s), 1294.0 / elapsed);
    assert_eq!(to(r.rk_bps), 7000.0 * 512.0 / 1024.0 / elapsed);
    assert_eq!(to(r.wk_bps), 170000.0 * 512.0 / 1024.0 / elapsed);
    assert_eq!(to(r.aqu_sz), 2900.0 / 1000.0 / elapsed);
    assert_eq!(to(r.await_ms), (99.0 + 1882.0) / (1000.0 + 1294.0));
    assert_eq!(to(r.util_pct), 2280.0 / (elapsed * 1000.0) * 100.0);
}

#[test]
fn counters_that_go_back_stand_still() {
    let prev = stats(100, 200, 30, 50, 400, 60, 1000, 70);
    let cur = stats(0, 0, 0, 0, 0, 0, 0, 0);
    let r = rate(&prev, &cur, of(1.0));
    assert_eq!(to(r.r_s), 0.0);
    assert_eq!(to(r.wk_bps), 0.0);
    assert_eq!(to(r.util_pct), 0.0);
    assert!(!r.active);
}

#[test]
fn rates_pairs_by_device_number() {
    let mut sdb_prev = stats(10, 20, 0, 0, 0, 0, 0, 0);
    sdb_prev.device = "sdb".to_string();
    sdb_prev.minor = 16;
    let mut sdb_cur = stats(20, 40, 0, 0, 0, 0, 0, 0);
    sdb_cur.device = "sdb".to_string();
    sdb_cur.minor = 16;

    let sda_prev = stats(0, 0, 0, 0, 0, 0, 0, 0);
    let sda_cur = stats(5, 10, 0, 0, 0, 0, 0, 0);

    let out = rates(&[sdb_prev, sda_prev], &[sdb_cur, sda_cur], of(1.0));
    assert_eq!(out.len(), 2);
    assert_eq!(out[0].device, "sdb");
    assert!((to(out[0].r_s) - 10.0).abs() < 1e-9);
    assert_eq!(out[1].device, "sda");
    assert!((to(out[1].r_s) - 5.0).abs() < 1e-9);

    let extra = stats(1, 1, 0, 0, 0, 0, 0, 0);
    assert_eq!(rates(&[], &[extra], of(1.0)).len(), 0);
}

#[test]
fn sums_that_do_not_fit_are_told() {
    let zero = stats(0, 0, 0, 0, 0, 0, 0, 0);
    let many = stats(u64::MAX, 0, 0, 1, 0, 0, 0, 0);
    assert!(!rates_fit(&[zero.clone()], &[many]));
    let long = stats(1, 0, u64::MAX, 0, 0, 1, 0, 0);
    assert!(!rates_fit(&[zero.clone()], &[long]));
    let idle = stats(0, 0, u64::MAX, 0, 0, 1, 0, 0);
    assert!(rates_fit(&[zero.clone()], &[idle]));
    let large = stats(u64::MAX, 0, 0, 0, 0, 0, 0, 0);
    assert!(rates_fit(&[zero], &[large]));
}

use iomon::binary64::Binary64;
use iomon::proc_io::{parse, parse_stat, rate, saturating_product, stat_fits, ProcIo, ProcStat};

const SAMPLE: &str = "\
rchar: 486725774
wchar: 179979190
syscr: 45297
syscw: 16532
read_bytes: 23859200
write_bytes: 10539008
cancelled_write_bytes: 0
";

#[test]
fn parse_proc_io_sample() {
    let io = parse(SAMPLE).expect("解析应成功");
    assert_eq!(io.rchar, 486725774);
    assert_eq!(io.wchar, 179979190);
    assert_eq!(io.syscr, 45297);
    assert_eq!(io.syscw, 16532);
    assert_eq!(io.read_bytes, 23859200);
    assert_eq!(io.write_bytes, 10539008);
    assert_eq!(io.cancelled_write_bytes, 0);
}

#[test]
fn parse_rejects_missing_fields() {
    assert!(parse("rchar: 100\nwchar: 200\n").is_err());
}

#[test]
fn io_faults_are_told() {
    assert_eq!(
        parse("rchar: 100\nwchar: 200\n").unwrap_err(),
        "字段不全: 仅识别到 2 个（期望 7 个）"
    );
    assert_eq!(parse("rchar: x y\n").unwrap_err(), "字段 \"rchar\" 的值无效: \"x y\"");
    assert_eq!(parse("").unwrap_err(), "字段不全: 仅识别到 0 个（期望 7 个）");
}

#[test]
fn unknown_fields_are_passed_over_and_the_last_value_counts() {
    let text = format!("new_field: abc\nno colon\n  syscr : 7 \n{}syscr:9\n", SAMPLE);
    let io = parse(&text).unwrap();
    assert_eq!(io.syscr, 9);
    assert_eq!(io.rchar, 486725774);
    assert_eq!(ProcIo::default().rchar, 0);
}

fn make_stat(comm: &str, nice: &str) -> String {
    let mut fields: Vec<String> = vec!["S".to_string()];
    for i in 4..=41 {
        fields.push(i.to_string());
    }
    fields[16] = nice.to_string();
    fields.push("42".to_string());
    format!("123 ({}) {}", comm, fields.join(" "))
}

#[test]
fn parse_stat_sample() {
    let s = parse_stat(&make_stat("test proc", "19")).unwrap();
    assert_eq!(s.comm, "test proc");
    assert_eq!(s.nice, 19);
    assert_eq!(s.rt_priority, 40);
    assert_eq!(s.policy, 41);
    assert_eq!(s.blkio_ticks, 42);

    let s2 = parse_stat(&make_stat("my test proc", "0")).unwrap();
    assert_eq!(s2.comm, "my test proc");
}

#[test]
fn parse_stat_negative_nice() {
    let s = parse_stat(&make_stat("kworker/0:1H", "-5")).unwrap();
    assert_eq!(s.nice, -5);
    assert_eq!(s.blkio_ticks, 42);
}

#[test]
fn names_with_brackets() {
    let s = parse_stat(&make_stat("a) (b 中", "0")).unwrap();
    assert_eq!(s.comm, "a) (b 中");
    assert_eq!(ProcStat::default().comm, "");
}

#[test]
fn stat_faults_are_told() {
    assert_eq!(parse_stat("123 S").unwrap_err(), "stat 内容中没有 '('");
    assert_eq!(parse_stat("123 (a S").unwrap_err(), "stat 内容中没有 ')'");
    assert_eq!(parse_stat("123 (a) S 1 2").unwrap_err(), "stat 字段数不足: 5");
    assert_eq!(parse_stat(&make_stat("a", "x")).unwrap_err(), "nice 不是有效数字");
    let long = make_stat("a", "0").replace(" 40 ", " q ");
    assert_eq!(parse_stat(&long).unwrap_err(), "rt_priority 不是有效数字");
    let long = make_stat("a", "0").replace(" 41 ", " 4294967296 ");
    assert_eq!(parse_stat(&long).unwrap_err(), "policy 不是有效数字");
    let long = make_stat("a", "0").replace(" 42", " -1");
    assert_eq!(parse_stat(&long).unwrap_err(), "blkio_ticks 不是有效数字");
}

#[test]
fn brackets_out_of_order_are_told() {
    assert!(stat_fits(&make_stat("a", "0")));
    let turned = make_stat("a", "0").replace("(a)", ")") + " (";
    assert!(!stat_fits(&turned));
    assert!(stat_fits(")("));
}

#[test]
fn proc_io_rate_computes_speeds() {
    let prev = ProcIo {
        rchar: 1000,
        wchar: 2000,
        syscr: 0,
        syscw: 0,
        read_bytes: 1024,
        write_bytes: 2048,
        cancelled_write_bytes: 0,
    };
    let cur = ProcIo {
        rchar: 3000,
        wchar: 6000,
        syscr: 0,
        syscw: 0,
        read_bytes: 5120,
        write_bytes: 8192,
        cancelled_write_bytes: 0,
    };
    let r = rate(&prev, 100, &cur, 350, Binary64::from_bits(2.0f64.to_bits()));
    let to = |x: Binary64| f64::from_bits(x.bits);
    assert!((to(r.rchar_s) - 1000.0).abs() < 1e-9);
    assert!((to(r.wchar_s) - 2000.0).abs() < 1e-9);
    assert!((to(r.read_kbps) - 2.0).abs() < 1e-9);
    assert!((to(r.write_kbps) - 3.0).abs() < 1e-9);
    assert_eq!(r.iodelay_ms, 2500);
}

#[test]
fn products_stop_at_the_largest_number() {
    assert_eq!(saturating_product(7, 10), 70);
    assert_eq!(saturating_product(u64::MAX / 2, 3), u64::MAX);
    assert_eq!(saturating_product(0, u64::MAX), 0);
}

#[test]
fn counters_of_a_process_that_go_back_stand_still() {
    let prev = ProcIo { rchar: 9, wchar: 9, syscr: 9, syscw: 9, read_bytes: 9, write_bytes: 9, cancelled_write_bytes: 9 };
    let r = rate(&prev, 9, &ProcIo::default(), 3, Binary64::from_bits(2.0f64.to_bits()));
    for x in [r.rchar_s, r.wchar_s, r.read_kbps, r.write_kbps] {
        assert_eq!(f64::from_bits(x.bits), 0.0);
    }
    assert_eq!(r.iodelay_ms, 0);
}

#[test]
fn order_and_other_lines_do_not_matter() {
    let io = parse(SAMPLE).unwrap();
    let mut lines: Vec<&str> = SAMPLE.lines().collect();
    lines.reverse();
    lines.insert(3, "no colon here");
    lines.insert(0, "new_field: not a number");
    assert_eq!(parse(&lines.join("\n")).unwrap(), io);
    lines.retain(|l| !l.starts_with("syscw"));
    assert!(parse(&lines.join("\n")).is_err());
    lines.push("syscw: x");
    assert!(parse(&lines.join("\n")).is_err());
}

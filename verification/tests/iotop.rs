use iomon::binary64::Binary64;
use iomon::iotop::{
    actual_bps, add_up, cmd_of, delay_pct, delayacct_enabled, diff, fmt_bps, fmt_cmdline, fmt_pct,
    list_numeric_dirs, one_line_of, order, parse_passwd, read_uid, render, scan, scan_checked,
    truncate_chars, user_name, view_limits, Agg, Ident, ProcSampler, Row, Scan, Thread, TopOptions,
};
use iomon::proc_io::{ProcIo, ProcStat};
use iomon::taskstats::Delays;

fn of(x: f64) -> Binary64 {
    Binary64::from_bits(x.to_bits())
}

fn to(x: Binary64) -> f64 {
    f64::from_bits(x.bits)
}

#[test]
fn fmt_bps_units() {
    assert_eq!(fmt_bps(&of(0.0)), "0.00 B/s");
    assert_eq!(fmt_bps(&of(999.99)), "999.99 B/s");
    assert_eq!(fmt_bps(&of(1024.0)), "1.00 K/s");
    assert_eq!(fmt_bps(&of(1536.0)), "1.50 K/s");
    assert_eq!(fmt_bps(&of(1024.0 * 1024.0 * 2.0)), "2.00 M/s");
}

#[test]
fn large_and_odd_rates() {
    assert_eq!(fmt_bps(&of(1024f64.powi(3))), "1.00 G/s");
    assert_eq!(fmt_bps(&of(1024f64.powi(5) * 3.0)), "3072.00 T/s");
    assert_eq!(fmt_bps(&of(f64::INFINITY)), "inf T/s");
    assert_eq!(fmt_bps(&of(f64::NAN)), "NaN B/s");
    assert_eq!(fmt_bps(&of(1023.999)), "1024.00 B/s");
    assert_eq!(fmt_pct(&of(12.5)), " 12.50 %");
    assert_eq!(fmt_pct(&of(100.0)), "100.00 %");
}

#[test]
fn cmdline_formatting() {
    assert_eq!(fmt_cmdline(b"python3\0-x\0run\0"), "python3 -x run");
    assert_eq!(fmt_cmdline(b"a\0\0"), "a");
    assert_eq!(fmt_cmdline(b""), "");
}

#[test]
fn cmdline_of_other_bytes() {
    assert_eq!(fmt_cmdline(b"a\xff\0b"), "a\u{fffd} b");
    assert_eq!(fmt_cmdline("  中\0文 \0".as_bytes()), "中 文");
    assert_eq!(fmt_cmdline(b"\0\0"), "");
    assert_eq!(one_line_of("\0a"), "a");
}

#[test]
fn passwd_parsing() {
    let m = parse_passwd(
        "root:x:0:0:root:/root:/bin/bash\n\
         www-data:x:33:33::/var/www:/usr/sbin/nologin\n\
         没有冒号的行\n",
    );
    assert_eq!(m.get(&0).unwrap(), "root");
    assert_eq!(m.get(&33).unwrap(), "www-data");
    assert!(!m.contains_key(&1));
}

#[test]
fn the_first_name_of_a_user_counts() {
    let m = parse_passwd("a:x:5\nb:x:5:0\nc:x:q:1\nd:x\n:x:6:\n");
    assert_eq!(m.len(), 2);
    assert_eq!(m.get(&5).unwrap(), "a");
    assert_eq!(m.get(&6).unwrap(), "");
    assert_eq!(user_name(5, &m, 8), "a");
    assert_eq!(user_name(7, &m, 8), "7");
    assert_eq!(user_name(u32::MAX, &m, 8), "?");
    let long = parse_passwd("abcdefghijkl:x:5:");
    assert_eq!(user_name(5, &long, 8), "abcdefg~");
}

#[test]
fn truncate_keeps_char_boundary() {
    assert_eq!(truncate_chars("abcdef", 10), "abcdef");
    assert_eq!(truncate_chars("abcdef", 3), "ab~");
    assert_eq!(truncate_chars("中文测试", 3), "中文~");
}

#[test]
fn truncate_to_nothing() {
    assert_eq!(truncate_chars("abc", 0), "");
    assert_eq!(truncate_chars("a", 0), "");
    assert_eq!(truncate_chars("", 0), "");
    assert_eq!(truncate_chars("abc", 1), "~");
    assert_eq!(truncate_chars("abc", 3), "abc");
}

fn ident(id: u32) -> Ident {
    Ident {
        id,
        pid: id,
        comm: format!("t{}", id),
        cmdline: String::new(),
        uid: 1000,
        prio: "be/4".to_string(),
    }
}

fn agg(read: u64, write: u64, cancel: u64, blkio_ns: u64, swapin_ns: u64, id: u32) -> (u32, Agg) {
    (
        id,
        Agg {
            read_bytes: read,
            write_bytes: write,
            cancelled_write_bytes: cancel,
            blkio_delay_ns: blkio_ns,
            swapin_delay_ns: swapin_ns,
            ident: ident(id),
        },
    )
}

fn scan_of(pairs: Vec<(u32, Agg)>) -> Scan {
    Scan { aggs: pairs, skipped: 0, vm_read: None, vm_write: None }
}

#[test]
fn diff_computes_rates_and_skips_new_entries() {
    let prev = scan_of(vec![agg(1000, 2000, 0, 100, 0, 10), agg(0, 0, 0, 0, 0, 20)]);
    let cur = scan_of(vec![
        agg(3000, 2000, 0, 100 + 250_000_000, 0, 10),
        agg(0, 500, 0, 0, 0, 20),
        agg(999, 999, 0, 9, 0, 30),
    ]);
    let rows = diff(&prev, &cur, of(2.0));
    assert_eq!(rows.len(), 2);
    let r10 = rows.iter().find(|r| r.ident.id == 10).unwrap();
    assert!((to(r10.read_bps) - 1000.0).abs() < 1e-9);
    assert!((to(r10.write_bps) - 0.0).abs() < 1e-9);
    assert!((to(r10.io_pct) - 12.5).abs() < 1e-6);
    let r20 = rows.iter().find(|r| r.ident.id == 20).unwrap();
    assert!((to(r20.write_bps) - 250.0).abs() < 1e-9);
}

#[test]
fn diff_subtracts_cancelled_writes() {
    let prev = scan_of(vec![agg(0, 1000, 100, 0, 0, 1)]);
    let cur = scan_of(vec![agg(0, 3000, 500, 0, 0, 1)]);
    let rows = diff(&prev, &cur, of(2.0));
    assert!((to(rows[0].write_bps) - 800.0).abs() < 1e-9);
}

#[test]
fn more_cancelled_than_written_is_nothing() {
    let prev = scan_of(vec![agg(50, 0, 0, 0, 7, 1)]);
    let cur = scan_of(vec![agg(0, 100, 500, 0, 100_000_007, 1)]);
    let rows = diff(&prev, &cur, of(1.0));
    assert_eq!(to(rows[0].write_bps), 0.0);
    assert_eq!(to(rows[0].read_bps), 0.0);
    assert_eq!(to(rows[0].swapin_pct), 10.0);
}

#[test]
fn delay_pct_matches_iotop_and_caps_at_100() {
    assert!((to(delay_pct(1_000_000_000, of(1.0))) - 100.0).abs() < 1e-6);
    assert!((to(delay_pct(3_000_000_000, of(2.0))) - 100.0).abs() < 1e-6);
    assert_eq!(to(delay_pct(1, of(0.0))), 0.0);
}

#[test]
fn delays_of_odd_intervals() {
    assert_eq!(to(delay_pct(5, of(-1.0))), 0.0);
    assert_eq!(to(delay_pct(5, of(f64::NAN))), 0.0);
    assert_eq!(to(delay_pct(123_456_789, of(1.7))), 123_456_789.0 / (1.7 * 10_000_000.0));
}

#[test]
fn actual_uses_vmstat_delta() {
    let mut prev = scan_of(vec![]);
    let mut cur = scan_of(vec![]);
    prev.vm_read = Some(1024);
    prev.vm_write = Some(0);
    cur.vm_read = Some(1024 + 2048);
    cur.vm_write = Some(4096);
    let (r, w) = actual_bps(&prev, &cur, of(2.0));
    assert!((to(r) - 1024.0).abs() < 1e-9);
    assert!((to(w) - 2048.0).abs() < 1e-9);
    cur.vm_read = None;
    let (r, w) = actual_bps(&prev, &cur, of(2.0));
    assert_eq!((to(r), to(w)), (0.0, 0.0));
}

fn row(id: u32, read: f64, write: f64, swapin: f64, io: f64) -> Row {
    Row {
        read_bps: of(read),
        write_bps: of(write),
        swapin_pct: of(swapin),
        io_pct: of(io),
        ident: ident(id),
    }
}

#[test]
fn order_sorts_by_total_bandwidth() {
    let mut rows = vec![
        row(1, 100.0, 0.0, 0.0, 0.0),
        row(2, 50.0, 60.0, 0.0, 0.0),
        row(3, 0.0, 0.0, 0.0, 90.0),
    ];
    order(&mut rows);
    assert_eq!(rows[0].ident.id, 2);
    assert_eq!(rows[1].ident.id, 1);
    assert_eq!(rows[2].ident.id, 3);
}

#[test]
fn order_breaks_ties() {
    let mut rows = vec![
        row(9, 1.0, 0.0, 0.0, 5.0),
        row(8, 0.0, 1.0, 2.0, 5.0),
        row(7, 0.5, 0.5, 2.0, 5.0),
        row(6, 0.0, 1.0, 0.0, 6.0),
        row(5, f64::NAN, 0.0, 0.0, 0.0),
    ];
    order(&mut rows);
    let ids: Vec<u32> = rows.iter().map(|r| r.ident.id).collect();
    assert_eq!(ids, vec![5, 6, 7, 8, 9]);
    assert_eq!(to(add_up(&rows[1..].iter().cloned().collect()).0), 1.5);
}

#[test]
fn names_that_are_numbers() {
    let names: Vec<String> =
        ["1", "self", "042", "", "4294967295", "4294967296", "+5", "1a", "１"].iter().map(|s| s.to_string()).collect();
    assert_eq!(list_numeric_dirs(&names), vec![1, 42, 4294967295]);
}

#[test]
fn users_in_status() {
    assert_eq!(read_uid("Name:\tx\nUid:\t1000\t1001\t1002\nUid:\t5\n"), Some(1000));
    assert_eq!(read_uid("Name:\tx\n Uid:\t5\n"), None);
    assert_eq!(read_uid("Uid:\n"), None);
    assert_eq!(read_uid("Uid: x\nUid: 3\n"), None);
    assert_eq!(read_uid(""), None);
}

#[test]
fn delay_accounting_is_on_unless_it_is_zero() {
    assert!(!delayacct_enabled(Some("0\n")));
    assert!(delayacct_enabled(Some(" 1 \n")));
    assert!(delayacct_enabled(Some("00")));
    assert!(delayacct_enabled(Some("")));
    assert!(delayacct_enabled(None));
}

fn thread(pid: u32, tid: u32, bytes: u64) -> Thread {
    Thread {
        pid,
        tid,
        uid: 7,
        cmdline: format!("cmd{}", pid),
        io: Some(ProcIo {
            rchar: 0,
            wchar: 0,
            syscr: 0,
            syscw: 0,
            read_bytes: bytes,
            write_bytes: 2 * bytes,
            cancelled_write_bytes: 1,
        }),
        stat: Some(ProcStat { comm: format!("t{}", tid), nice: 0, rt_priority: 0, policy: 0, blkio_ticks: 3 }),
        delays: None,
        prio: None,
    }
}

#[test]
fn a_scan_counts_threads() {
    let mut gone = thread(1, 3, 5);
    gone.stat = None;
    let mut told = thread(4, 4, 7);
    told.delays = Some(Delays { blkio_ns: 11, swapin_ns: 12 });
    told.prio = Some((1 << 13) | 3);
    let s = scan(false, &[thread(1, 1, 10), thread(1, 2, 20), gone, told], Some((1, 2)));
    assert_eq!(s.skipped, 1);
    assert_eq!((s.vm_read, s.vm_write), (Some(1), Some(2)));
    let ids: Vec<u32> = s.aggs.iter().map(|a| a.0).collect();
    assert_eq!(ids, vec![1, 2, 4]);
    assert_eq!(s.aggs[1].1.read_bytes, 20);
    assert_eq!(s.aggs[1].1.write_bytes, 40);
    assert_eq!(s.aggs[1].1.blkio_delay_ns, 30_000_000);
    assert_eq!(s.aggs[1].1.swapin_delay_ns, 0);
    assert_eq!(s.aggs[1].1.ident.comm, "t2");
    assert_eq!(s.aggs[1].1.ident.prio, "be/4");
    assert_eq!(s.aggs[2].1.blkio_delay_ns, 11);
    assert_eq!(s.aggs[2].1.swapin_delay_ns, 12);
    assert_eq!(s.aggs[2].1.ident.prio, "rt/3");
}

#[test]
fn a_scan_adds_up_processes() {
    let s = scan(true, &[thread(5, 9, 10), thread(5, 5, 20), thread(5, 6, 30)], None);
    assert_eq!(s.aggs.len(), 1);
    let (id, a) = &s.aggs[0];
    assert_eq!((*id, a.ident.id, a.ident.pid), (5, 5, 5));
    assert_eq!(a.read_bytes, 60);
    assert_eq!(a.write_bytes, 120);
    assert_eq!(a.cancelled_write_bytes, 3);
    assert_eq!(a.blkio_delay_ns, 90_000_000);
    // the process goes by its first thread
    assert_eq!(a.ident.comm, "t5");
    assert_eq!((s.vm_read, s.vm_write), (None, None));
}

#[test]
fn sums_of_a_scan_have_to_fit() {
    assert!(scan_checked(true, &[thread(5, 5, u64::MAX / 2), thread(5, 6, 1)], None).is_none());
    assert!(scan_checked(false, &[thread(5, 5, u64::MAX / 2), thread(5, 6, 1)], None).is_some());
    let mut nice = thread(1, 1, 0);
    nice.stat = Some(ProcStat { comm: String::new(), nice: i64::MAX, rt_priority: 0, policy: 0, blkio_ticks: 0 });
    assert!(scan_checked(false, &[nice], None).is_none());
}

fn options(rows: usize, explicit: bool, idle: bool) -> TopOptions {
    TopOptions {
        interval: of(2.0),
        count: None,
        per_process: false,
        show_idle: idle,
        rows,
        rows_explicit: explicit,
    }
}

#[test]
fn the_terminal_limits_the_view() {
    assert_eq!(view_limits(&options(20, false, true), None), (20, 72));
    assert_eq!(view_limits(&options(20, false, true), Some((50, 120))), (45, 54));
    assert_eq!(view_limits(&options(20, true, true), Some((50, 81))), (20, 16));
    assert_eq!(view_limits(&options(0, false, true), Some((5, 80))), (1, 72));
}

#[test]
fn commands_are_cut_or_bracketed() {
    let mut i = ident(3);
    assert_eq!(cmd_of(&i, 2), "[t3]");
    i.cmdline = "abcdef".to_string();
    assert_eq!(cmd_of(&i, 4), "abc~");
}

#[test]
fn the_screen_is_drawn() {
    let passwd = parse_passwd("bob:x:1000:");
    let mut prev = scan_of(vec![agg(0, 0, 0, 0, 0, 7), agg(0, 0, 0, 0, 0, 8)]);
    let mut cur = scan_of(vec![agg(0, 0, 0, 0, 0, 7), agg(2048, 3_145_728, 0, 250_000_000, 0, 8)]);
    prev.vm_read = Some(0);
    prev.vm_write = Some(0);
    cur.vm_read = Some(1024);
    cur.vm_write = Some(0);
    cur.skipped = 3;
    let text = render(&prev, &cur, of(1.0), &options(20, false, true), false, Some((10, 200)), &passwd, false);
    let want = "Total DISK READ :      2.00 K/s | Total DISK WRITE:      3.00 M/s
Actual DISK READ:      1.00 K/s | Actual DISK WRITE:      0.00 B/s
（kernel.task_delayacct=0，IO% 与 SWAPIN 恒为 0；开启: echo 1 > /proc/sys/kernel/task_delayacct）
（另有 3 个线程因退出或权限未纳入统计）
    TID PRIO USER       DISK READ  DISK WRITE   SWAPIN      IO>  COMMAND
      8 be/4 bob         2.00 K/s    3.00 M/s   0.00 %  25.00 %  [t8]
      7 be/4 bob         0.00 B/s    0.00 B/s   0.00 %   0.00 %  [t7]
";
    assert_eq!(text, want);
    let busy = render(&prev, &cur, of(1.0), &options(20, false, false), true, None, &passwd, true);
    assert!(busy.starts_with("\u{1b}[H\u{1b}[2JTotal"));
    assert!(busy.contains("[t8]") && !busy.contains("[t7]"));
    let one = render(&prev, &cur, of(1.0), &options(1, true, true), false, None, &passwd, true);
    assert!(one.ends_with("[t8]\n"));
    let none = render(&cur, &cur, of(1.0), &options(20, false, false), false, None, &passwd, true);
    assert!(none.ends_with("（本间隔内无 IO 活动的线程）\n"));
}

#[test]
fn frames_come_from_two_scans() {
    let mut s = ProcSampler::open(Some("bob:x:1000:"), Some("0"));
    assert!(!s.delayacct);
    let mut first = scan_of(vec![agg(0, 0, 0, 0, 0, 7), agg(0, 0, 0, 0, 0, 8)]);
    first.skipped = 2;
    let f = s.poll(first, of(5.0), 10);
    assert!(!f.ready);
    assert_eq!((f.skipped, f.threads, f.rows.len()), (2, 0, 0));
    let f = s.poll(scan_of(vec![agg(10, 0, 0, 0, 0, 7), agg(30, 0, 0, 0, 0, 8)]), of(2.0), 1);
    assert!(f.ready && !f.delayacct);
    assert_eq!(to(f.elapsed_s), 2.0);
    assert_eq!(f.threads, 2);
    assert_eq!(to(f.total_read), 20.0);
    assert_eq!(f.rows.len(), 1);
    assert_eq!((f.rows[0].tid, f.rows[0].user.as_str(), f.rows[0].command.as_str()), (8, "bob", "[t8]"));
    assert_eq!(to(f.rows[0].read_bps), 15.0);
    // no time at all counts as a thousandth of a second
    let f = s.poll(scan_of(vec![agg(11, 0, 0, 0, 0, 7)]), of(0.0), 10);
    assert_eq!(to(f.elapsed_s), 0.001);
    assert_eq!(to(f.rows[0].read_bps), 1.0 / 0.001);
    assert!(ProcSampler::open(None, None).delayacct);
}

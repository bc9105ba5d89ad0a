use iomon::binary64::Binary64;
use iomon::cli::{
    goes_on, parse_args, parse_interval, parse_top_args, print_rates, print_totals, visible_disks,
    Args, Snapshot,
};
use iomon::diskstats::{parse, DiskStats};
use iomon::proc_io::ProcIo;

fn of(x: f64) -> Binary64 {
    Binary64::from_bits(x.to_bits())
}

fn to(x: Binary64) -> f64 {
    f64::from_bits(x.bits)
}

fn words(s: &str) -> Vec<String> {
    s.split_whitespace().map(str::to_string).collect()
}

fn fault(s: &str) -> String {
    match parse_args(&words(s)) {
        Err(e) => e,
        Ok(_) => panic!("accepted: {}", s),
    }
}

fn top_fault(s: &str) -> String {
    match parse_top_args(&words(s)) {
        Err(e) => e,
        Ok(_) => panic!("accepted: {}", s),
    }
}

#[test]
fn arguments_of_the_devices() {
    let a = parse_args(&[]).unwrap().unwrap();
    assert_eq!((to(a.interval), a.count, a.pid, a.devices.len(), a.all), (2.0, None, None, 0, false));
    let a = parse_args(&words("5 12")).unwrap().unwrap();
    assert_eq!((to(a.interval), a.count), (5.0, Some(12)));
    let a = parse_args(&words("1 -d sda --device dm-0 -p 42 -a")).unwrap().unwrap();
    assert_eq!(a.devices, vec!["sda", "dm-0"]);
    assert_eq!((a.pid, a.all, to(a.interval)), (Some(42), true, 1.0));
    assert!(parse_args(&words("1 2 3 --help")).unwrap().is_none());
}

#[test]
fn wrong_arguments_of_the_devices() {
    assert_eq!(fault("-p"), "-p/--pid 需要一个 PID 参数");
    assert_eq!(fault("--pid x"), "无效的 PID: x");
    assert_eq!(fault("-d"), "-d/--device 需要一个设备名参数");
    assert_eq!(fault("-q"), "未知选项: -q");
    assert_eq!(fault("-5"), "未知选项: -5");
    assert_eq!(fault("1 2 3"), "位置参数过多（3 个），最多为: [间隔秒数] [次数]");
    assert_eq!(fault("x"), "无效的间隔秒数: x");
    assert_eq!(fault("0 y"), "间隔秒数必须为正数: 0");
    assert_eq!(fault("1 y"), "无效的次数: y");
    assert_eq!(parse_interval("nan").unwrap_err(), "间隔秒数必须为正数: nan");
    assert_eq!(parse_interval("0.25").map(to), Ok(0.25));
}

#[test]
fn arguments_of_the_ranking() {
    let o = parse_top_args(&[]).unwrap().unwrap();
    assert_eq!((to(o.interval), o.count, o.per_process, o.show_idle, o.rows, o.rows_explicit), (2.0, None, false, true, 20, false));
    let o = parse_top_args(&words("-P -o -n 40 5 12")).unwrap().unwrap();
    assert_eq!((to(o.interval), o.count, o.per_process, o.show_idle, o.rows, o.rows_explicit), (5.0, Some(12), true, false, 40, true));
    let o = parse_top_args(&words("--only --all --processes --lines 7")).unwrap().unwrap();
    assert_eq!((o.per_process, o.show_idle, o.rows), (true, true, 7));
    assert!(parse_top_args(&words("-h")).unwrap().is_none());
    assert_eq!(top_fault("-n"), "-n/--lines 需要一个行数参数");
    assert_eq!(top_fault("-n 0"), "行数必须大于 0");
    assert_eq!(top_fault("-n x"), "无效的行数: x");
    assert_eq!(top_fault("-z"), "未知选项: -z");
    assert_eq!(top_fault("1 2 3 4"), "位置参数过多（4 个），最多为: [间隔秒数] [次数]");
}

fn args(devices: &[&str], all: bool, pid: Option<u32>) -> Args {
    Args {
        interval: of(2.0),
        count: None,
        pid,
        devices: devices.iter().map(|s| s.to_string()).collect(),
        all,
    }
}

fn disks(text: &str) -> Vec<DiskStats> {
    parse(text).unwrap()
}

const BEFORE: &str = "8 0 sda 100 0 2048 0 50 0 4096 0 0 0 0\n7 0 loop0 1 0 1 0 0 0 0 0 0 0 0\n8 16 sdb 0 0 0 0 0 0 0 0 0 0 0\n";
const AFTER: &str = "8 0 sda 110 0 2248 40 50 0 5096 60 0 2000 4000\n7 0 loop0 5 0 9 0 0 0 0 0 0 0 0\n8 16 sdb 0 0 0 0 0 0 0 0 0 0 0\n";

#[test]
fn virtual_devices_are_hidden() {
    let d = disks(BEFORE);
    let names = |a: &Args| visible_disks(&d, a).iter().map(|x| x.device.clone()).collect::<Vec<_>>();
    assert_eq!(names(&args(&[], false, None)), vec!["sda", "sdb"]);
    assert_eq!(names(&args(&[], true, None)), vec!["sda", "loop0", "sdb"]);
    assert_eq!(names(&args(&["loop0", "nope"], false, None)), vec!["loop0"]);
}

fn io(read: u64, write: u64) -> ProcIo {
    ProcIo {
        rchar: read,
        wchar: write,
        syscr: 0,
        syscw: 0,
        read_bytes: read,
        write_bytes: write,
        cancelled_write_bytes: 0,
    }
}

#[test]
fn totals_are_written() {
    let s = Snapshot { disks: disks(BEFORE), proc_io: Some(io(3_145_728, 524_288)), blkio_ticks: Some(150) };
    let want = format!(
        "\n===== 自启动累计 =====\n{:<6} {:>12} {:>12} {:>12} {:>12}\n{:<6} {:>12} {:>12.1} {:>12} {:>12.1}\n{:<6} {:>12} {:>12.1} {:>12} {:>12.1}\n\
         \n进程 7 累计: 磁盘读 3.0 MiB  磁盘写 0.5 MiB  iodelay 1.5 s\n",
        "Device", "reads", "read_MiB", "writes", "write_MiB", "sda", 100, 1.0, 50, 2.0, "sdb", 0, 0.0, 0, 0.0
    );
    assert_eq!(print_totals(&s, &args(&[], false, Some(7))), want);
    let none = Snapshot { disks: disks(BEFORE), proc_io: None, blkio_ticks: None };
    assert_eq!(print_totals(&none, &args(&["x"], false, None)), "\n===== 自启动累计 =====\n（没有匹配的设备）\n");
}

#[test]
fn rates_are_written() {
    let a = Snapshot { disks: disks(BEFORE), proc_io: Some(io(0, 0)), blkio_ticks: Some(1) };
    let b = Snapshot { disks: disks(AFTER), proc_io: Some(io(4096, 2048)), blkio_ticks: None };
    let line = |n: &str, v: [f64; 7], w: usize| {
        format!(
            "{:<w$} {:>8.1} {:>8.1} {:>10.1} {:>10.1} {:>7.2} {:>8.2} {:>7.1}\n",
            n, v[0], v[1], v[2], v[3], v[4], v[5], v[6], w = w
        )
    };
    let head = |w: usize| {
        format!(
            "{:<w$} {:>8} {:>8} {:>10} {:>10} {:>7} {:>8} {:>7}\n",
            "Device", "r/s", "w/s", "rkB/s", "wkB/s", "aqu-sz", "await", "%util", w = w
        )
    };
    let proc_line = format!(
        "进程 7: rchar/s {:>13.0}  wchar/s {:>13.0}  磁盘读 {:>9.1} kB/s  磁盘写 {:>9.1} kB/s  iodelay +{} ms\n",
        2048.0, 1024.0, 2.0, 1.0, 0
    );
    let sda = line("sda", [5.0, 0.0, 50.0, 250.0, 2.0, 10.0, 100.0], 6);
    assert_eq!(
        print_rates(&a, &b, of(2.0), &args(&[], false, Some(7))),
        format!("\n===== 最近 2.0s =====\n{}{}{}", head(6), sda, proc_line)
    );
    let quiet = Snapshot { disks: disks(BEFORE), proc_io: None, blkio_ticks: None };
    assert_eq!(
        print_rates(&quiet, &quiet, of(0.26), &args(&[], false, None)),
        "\n===== 最近 0.3s =====\n（本间隔内无匹配的设备活动）\n"
    );
    let long = "8 0 设备名 1 0 0 0 0 0 0 0 0 0 0\n";
    let p = Snapshot { disks: disks(long), proc_io: None, blkio_ticks: None };
    let wide = print_rates(&p, &p, of(1.0), &args(&[], true, None));
    assert_eq!(wide, format!("\n===== 最近 1.0s =====\n{}{}", head(9), line("设备名", [0.0; 7], 9)));
}

#[test]
fn samples_are_counted() {
    assert!(goes_on(None, u64::MAX));
    assert!(goes_on(Some(2), 1));
    assert!(!goes_on(Some(2), 2));
    assert!(!goes_on(Some(0), 0));
}

use iomon::binary64::Binary64;
use iomon::records::{
    clamp_threshold, episode_line, file_expired, finite, merge_minute, minute_line, parse_episode,
    parse_minute, AlertBook, Episode, Fields, Folder, Minute, ProcSnap, Saves,
};

fn of(x: f64) -> Binary64 {
    Binary64::from_bits(x.to_bits())
}

fn to(x: Binary64) -> f64 {
    f64::from_bits(x.bits)
}

fn snap(pid: u32, io: f64, write: f64) -> ProcSnap {
    ProcSnap {
        pid,
        user: "root".into(),
        command: format!("proc-{pid}"),
        io: of(io),
        read: of(0.0),
        write: of(write),
    }
}

#[test]
fn opens_and_closes_episode() {
    let mut book = AlertBook::new(of(20.0), 1_000);
    book.ingest(1_000, of(1.0), of(0.0), of(100.0), &[snap(7, 40.0, 50.0)]);
    assert_eq!(book.open_count(), 1);
    assert_eq!(book.alert_samples, 1);
    book.ingest(1_002, of(1.0), of(0.0), of(10.0), &[snap(7, 5.0, 1.0)]);
    assert_eq!(book.open_count(), 0);
    assert_eq!(book.closed.len(), 1);
    assert!((to(book.closed[0].max_io) - 40.0).abs() < 1e-6);
    assert!((to(book.peak_write) - 100.0).abs() < 1e-6);
}

#[test]
fn minute_keeps_the_busiest_sample() {
    let mut book = AlertBook::new(of(20.0), 60);
    book.ingest(60, of(1.0), of(0.0), of(10.0), &[snap(1, 30.0, 1.0)]);
    book.ingest(80, of(1.0), of(0.0), of(90.0), &[snap(1, 10.0, 1.0)]);
    assert_eq!(book.minutes.len(), 1);
    assert!((to(book.minutes[0].max_io) - 30.0).abs() < 1e-6);
    assert!((to(book.minutes[0].max_write) - 90.0).abs() < 1e-6);
    assert_eq!(book.minutes[0].top_cmd, "proc-1");
}

/// What the book leaves on disk, by folder.
struct Disk {
    episodes: Vec<String>,
    minutes: Vec<String>,
}

impl Disk {
    fn new() -> Disk {
        Disk { episodes: Vec::new(), minutes: Vec::new() }
    }

    fn keep(&mut self, saves: Saves) {
        for a in saves.episodes {
            assert_eq!(a.folder, Folder::Episodes);
            self.episodes.push(a.line);
        }
        if let Some(a) = saves.minute {
            assert_eq!(a.folder, Folder::Minutes);
            self.minutes.push(a.line);
        }
    }

    fn book(&self, threshold: f64, now: u64) -> AlertBook {
        AlertBook::open(of(threshold), now, None, &self.episodes, &self.minutes)
    }
}

#[test]
fn one_second_spike_is_kept_on_disk() {
    let mut disk = Disk::new();
    let mut book = disk.book(20.0, 1_700_000_000);
    disk.keep(book.ingest(1_700_000_000, of(1.0), of(0.0), of(10.0), &[snap(9, 55.0, 80.0)]));
    disk.keep(book.ingest(1_700_000_001, of(1.0), of(0.0), of(0.0), &[]));
    assert_eq!(book.open_count(), 0);
    let again = disk.book(20.0, 1_700_000_010);
    assert_eq!(again.closed.len(), 1);
    assert!((to(again.closed[0].max_io) - 55.0).abs() < 1e-6);
    assert_eq!(again.closed[0].samples, 1);
}

#[test]
fn purge_by_mtime_keeps_fresh_files() {
    let now = 1_700_000_000u64;
    assert!(!file_expired(Some(now), now));
    assert!(!file_expired(Some(now - 604_800), now));
    assert!(file_expired(Some(now - 604_801), now));
    assert!(!file_expired(None, now));
    assert!(!file_expired(Some(0), 100));
}

#[test]
fn episode_and_minute_survive_disk_roundtrip() {
    let now = 1_700_000_000u64;
    let snap = ProcSnap {
        pid: 31415,
        user: "ro\"ot\\1000\n".into(),
        command: "py\"thon -c 'x = {\"pid\": 1}' 中文\u{1}换行\n".into(),
        io: of(88.5),
        read: of(4096.0),
        write: of(1_048_576.0),
    };
    let mut disk = Disk::new();
    let mut book = disk.book(20.0, now);
    disk.keep(book.ingest(now, of(1.0), of(2e6), of(3e6), std::slice::from_ref(&snap)));
    disk.keep(book.ingest(now + 1, of(1.0), of(0.0), of(0.0), &[]));

    let again = disk.book(20.0, now + 10);
    assert_eq!(again.closed.len(), 1);
    let ep = &again.closed[0];
    assert_eq!(ep.pid, 31415);
    assert_eq!(ep.user, "ro\"ot\\1000\n");
    assert_eq!(ep.command, "py\"thon -c 'x = {\"pid\": 1}' 中文\u{1}换行\n");
    assert_eq!(ep.start, now);
    assert_eq!(ep.end, now + 1);
    assert_eq!(ep.samples, 1);
    assert!((to(ep.over_s) - 1.0).abs() < 1e-9);
    assert!((to(ep.max_io) - 88.5).abs() < 1e-6);
    assert!((to(ep.last_io) - 88.5).abs() < 1e-6);
    assert!((to(ep.max_read) - 4096.0).abs() < 1e-9);
    assert!((to(ep.max_write) - 1_048_576.0).abs() < 1e-9);

    assert_eq!(again.minutes.len(), 1);
    let m = &again.minutes[0];
    assert_eq!(m.bucket, now / 60);
    assert_eq!(m.top_cmd, snap.command);
    assert_eq!(m.top_pid, 31415);
    assert!((to(m.max_io) - 88.5).abs() < 1e-6);
    assert!((to(m.max_write) - 3e6).abs() < 1.0);
    assert_eq!(m.over, 1);
}

fn episode(pid: u32, start: u64, end: u64, max_io: f64) -> Episode {
    Episode {
        pid,
        user: "u".into(),
        command: format!("c{pid}"),
        start,
        end,
        samples: 3,
        over_s: of(2.5),
        max_io: of(max_io),
        last_io: of(21.0),
        max_read: of(1.0),
        max_write: of(2.0),
        open: false,
    }
}

#[test]
fn lines_have_their_form() {
    assert_eq!(
        episode_line(&episode(5, 10, 20, 30.25)),
        "{\"pid\":5,\"user\":\"u\",\"command\":\"c5\",\"start\":10,\"end\":20,\"open\":false,\"samples\":3,\
         \"over_s\":2.5000,\"max_io\":30.2500,\"last_io\":21.0000,\"max_read\":1.0000,\"max_write\":2.0000}"
    );
    let m = minute(7, 1.0, f64::NAN, 3.0, 2, "x\"");
    assert_eq!(
        minute_line(&m),
        "{\"bucket\":7,\"max_io\":1.0000,\"max_read\":0.0000,\"max_write\":3.0000,\"over\":2,\
         \"top_io\":1.0000,\"top_pid\":9,\"top_cmd\":\"x\\\"\"}"
    );
}

fn minute(bucket: u64, io: f64, read: f64, write: f64, over: u32, cmd: &str) -> Minute {
    Minute {
        bucket,
        max_io: of(io),
        max_read: of(read),
        max_write: of(write),
        over,
        top_io: of(io),
        top_cmd: cmd.into(),
        top_pid: 9,
    }
}

#[test]
fn lines_are_read() {
    let e = parse_episode("{\"max_io\":30,\"pid\":-4,\"user\":\"\",\"command\":\"c\",\"start\":1.9,\"end\":1e30}").unwrap();
    assert_eq!((e.pid, e.start, e.end, e.samples, e.open), (0, 1, u64::MAX, 1, false));
    assert_eq!((to(e.over_s), to(e.last_io), to(e.max_read)), (1.0, 0.0, 0.0));
    assert!(parse_episode("{\"pid\":1,\"user\":\"u\",\"command\":\"c\",\"start\":1,\"end\":2}").is_none());
    assert!(parse_episode("{\"pid\":\"1\",\"user\":\"u\",\"command\":\"c\",\"start\":1,\"end\":2,\"max_io\":3}").is_none());
    assert!(parse_episode("nonsense").is_none());
    let m = parse_minute("{\"bucket\":3,\"over\":\"x\"}").unwrap();
    assert_eq!((m.bucket, m.over, m.top_pid, m.top_cmd.as_str()), (3, 0, 0, ""));
    assert!(parse_minute("{\"max_io\":1}").is_none());
    let f = Fields::new("{\"a\":1,\"a\":2,\"b\":\"t\"}").unwrap();
    assert_eq!(f.num("a").map(to), Some(1.0));
    assert_eq!(f.str("a"), None);
    assert_eq!(f.str("b").unwrap(), "t");
    assert_eq!(f.num("c"), None);
}

#[test]
fn times_beyond_two_to_the_53_do_not_come_back() {
    let mut e = episode(1, 9_007_199_254_740_993, 9_007_199_254_740_992, 30.0);
    let back = parse_episode(&episode_line(&e)).unwrap();
    assert_eq!(back.start, 9_007_199_254_740_992);
    assert_eq!(back.end, 9_007_199_254_740_992);
    e.start = 9_007_199_254_740_991;
    assert_eq!(parse_episode(&episode_line(&e)).unwrap().start, 9_007_199_254_740_991);
}

#[test]
fn thresholds_are_held() {
    for (given, held) in
        [(20.0, 20.0), (0.5, 1.0), (-3.0, 1.0), (100.0, 100.0), (1e9, 100.0), (f64::NAN, 20.0), (f64::INFINITY, 20.0)]
    {
        assert_eq!(to(clamp_threshold(&of(given))), held);
    }
    let mut book = AlertBook::new(of(20.0), 0);
    assert!(!book.set_threshold(of(20.0000001)));
    assert_eq!(to(book.threshold), 20.0);
    assert!(book.set_threshold(of(20.1)));
    assert_eq!(to(book.threshold), 20.1);
    assert!(book.set_threshold(of(f64::NAN)));
    assert_eq!(to(book.threshold), 20.0);
    assert_eq!(to(finite(&of(f64::NEG_INFINITY))), 0.0);
    assert_eq!(to(finite(&of(2.0))), 2.0);
}

#[test]
fn a_stored_threshold_wins() {
    assert_eq!(to(AlertBook::open(of(20.0), 0, Some(" 35.5\n"), &[], &[]).threshold), 35.5);
    assert_eq!(to(AlertBook::open(of(20.0), 0, Some("x"), &[], &[]).threshold), 20.0);
    assert_eq!(to(AlertBook::open(of(0.0), 0, None, &[], &[]).threshold), 1.0);
    assert_eq!(to(AlertBook::open(of(20.0), 0, Some("500"), &[], &[]).threshold), 100.0);
}

#[test]
fn the_threshold_itself_is_over() {
    let mut book = AlertBook::new(of(20.0), 0);
    book.ingest(10, of(1.0), of(0.0), of(0.0), &[snap(1, 20.0, 0.0), snap(2, 19.99, 0.0)]);
    assert_eq!(book.open_count(), 1);
    assert_eq!(book.open[0].pid, 1);
}

#[test]
fn samples_in_a_row_make_one_episode() {
    let mut book = AlertBook::new(of(20.0), 0);
    book.ingest(10, of(1.0), of(0.0), of(0.0), &[snap(1, 30.0, 5.0)]);
    let mut quiet = snap(1, 25.0, 9.0);
    quiet.command = String::new();
    quiet.user = "bob".into();
    book.ingest(12, of(f64::NAN), of(0.0), of(0.0), &[quiet]);
    assert_eq!(book.open.len(), 1);
    let e = &book.open[0];
    assert_eq!((e.start, e.end, e.samples, e.open), (10, 12, 2, true));
    assert_eq!((to(e.over_s), to(e.max_io), to(e.last_io), to(e.max_write)), (2.0, 30.0, 25.0, 9.0));
    assert_eq!((e.user.as_str(), e.command.as_str()), ("bob", "proc-1"));
    let o = &book.offenders[0];
    assert_eq!((o.episodes, o.samples, o.last), (1, 2, 12));
    let saves = book.ingest(14, of(1.0), of(0.0), of(0.0), &[]);
    assert_eq!(saves.episodes.len(), 1);
    assert_eq!(saves.episodes[0].file, "1970-01-01.jsonl");
    assert_eq!(book.closed[0].end, 14);
    assert!(!book.closed[0].open);
    book.ingest(16, of(1.0), of(0.0), of(0.0), &[snap(1, 30.0, 5.0)]);
    assert_eq!(book.offenders[0].episodes, 2);
    assert_eq!(book.samples, 4);
}

#[test]
fn the_latest_episode_comes_first() {
    let mut book = AlertBook::new(of(20.0), 0);
    book.ingest(10, of(1.0), of(0.0), of(0.0), &[snap(1, 30.0, 0.0), snap(2, 30.0, 0.0)]);
    book.ingest(11, of(1.0), of(0.0), of(0.0), &[snap(2, 30.0, 0.0)]);
    book.ingest(12, of(1.0), of(0.0), of(0.0), &[]);
    let pids: Vec<u32> = book.closed.iter().map(|e| e.pid).collect();
    assert_eq!(pids, vec![2, 1]);
}

#[test]
fn peaks_are_kept() {
    let mut book = AlertBook::new(of(20.0), 0);
    book.ingest(10, of(1.0), of(5.0), of(1.0), &[snap(1, 3.0, 0.0), snap(2, 9.0, 0.0), snap(3, 9.0, 0.0)]);
    book.ingest(20, of(1.0), of(4.0), of(2.0), &[snap(4, 9.0, 0.0)]);
    assert_eq!((to(book.peak_io), book.peak_io_at, book.peak_io_pid), (9.0, 10, 2));
    assert_eq!(book.peak_io_cmd, "proc-2");
    assert_eq!((to(book.peak_read), book.peak_read_at), (5.0, 10));
    assert_eq!((to(book.peak_write), book.peak_write_at), (2.0, 20));
}

#[test]
fn old_records_expire() {
    let week = 604_800u64;
    let mut book = AlertBook::new(of(20.0), 0);
    book.ingest(1000, of(1.0), of(0.0), of(0.0), &[snap(1, 30.0, 0.0)]);
    book.ingest(1001, of(1.0), of(0.0), of(0.0), &[]);
    book.retain(1001 + week);
    assert_eq!(book.closed.len(), 1);
    book.retain(1002 + week);
    assert_eq!(book.closed.len(), 0);
    assert_eq!(book.minutes.len(), 1);
    book.retain(1019 + week);
    assert_eq!(book.minutes.len(), 1);
    book.retain(1020 + week);
    assert_eq!(book.minutes.len(), 0);
}

#[test]
fn unchanged_minutes_are_not_saved_again() {
    let mut book = AlertBook::new(of(20.0), 0);
    assert!(book.ingest(60, of(1.0), of(5.0), of(5.0), &[snap(1, 10.0, 0.0)]).minute.is_some());
    assert!(book.ingest(61, of(1.0), of(5.0), of(5.0), &[snap(1, 9.0, 0.0)]).minute.is_none());
    assert!(book.ingest(62, of(1.0), of(5.0), of(5.5), &[]).minute.is_some());
    assert!(book.ingest(63, of(1.0), of(5.0), of(5.0), &[snap(1, 10.0, 0.0)]).minute.is_some());
}

#[test]
fn minutes_of_seven_days_are_kept() {
    let mut book = AlertBook::new(of(20.0), 0);
    for i in 0..10_085u64 {
        book.note_minute(i * 60, of(1.0), "c", 1, of(0.0), of(0.0), false);
    }
    assert_eq!(book.minutes.len(), 10_080);
    assert_eq!(book.minutes[0].bucket, 5);
    assert_eq!(book.minutes[10_079].bucket, 10_084);
}

#[test]
fn too_many_offenders_are_forgotten() {
    let mut book = AlertBook::new(of(1.0), 0);
    let some: Vec<ProcSnap> = (0..508).map(|i| snap(i, 10.0 + (i % 50) as f64, 0.0)).collect();
    book.ingest(10, of(1.0), of(0.0), of(0.0), &some);
    assert_eq!(book.offenders.len(), 508);
    book.ingest(11, of(1.0), of(0.0), of(0.0), &[]);
    assert_eq!(book.offenders.len(), 508);
    // one more, with the least share of all and an open episode
    book.ingest(12, of(1.0), of(0.0), of(0.0), &[snap(1000, 2.0, 0.0)]);
    assert_eq!(book.offenders.len(), 501);
    assert!(book.offenders.iter().any(|o| o.pid == 1000));
    assert!(!book.offenders.iter().any(|o| o.pid == 500));
    assert!(book.offenders.iter().any(|o| o.pid == 49));
}

#[test]
fn minutes_from_disk_are_merged_and_sorted() {
    let lines: Vec<String> = [
        minute(30, 5.0, 1.0, 2.0, 1, "a"),
        minute(20, 1.0, 1.0, 1.0, 0, "b"),
        minute(30, 4.0, 3.0, 1.0, 4, "c"),
        minute(30, 6.0, 0.0, 0.0, 2, ""),
        minute(1, 1.0, 1.0, 1.0, 0, "old"),
    ]
    .iter()
    .map(minute_line)
    .chain(["garbage".to_string()])
    .collect();
    let book = AlertBook::open(of(20.0), 604_800 + 200, None, &[], &lines);
    assert_eq!(book.minutes.len(), 2);
    assert_eq!((book.minutes[0].bucket, book.minutes[1].bucket), (20, 30));
    let m = &book.minutes[1];
    assert_eq!((to(m.max_io), to(m.max_read), to(m.max_write), m.over), (6.0, 3.0, 2.0, 4));
    // a merged minute without a command keeps the one before
    assert_eq!((to(m.top_io), m.top_cmd.as_str()), (5.0, "a"));
    let mut a = minute(1, 1.0, 1.0, 1.0, 1, "a");
    merge_minute(&mut a, &minute(1, 1.0, 0.0, 0.0, 0, "b"));
    assert_eq!(a.top_cmd, "b");
}

#[test]
fn episodes_from_disk_expire() {
    let lines: Vec<String> = [episode(1, 5, 604_800, 30.0), episode(2, 5, 604_900, 30.0)].iter().map(episode_line).collect();
    let book = AlertBook::open(of(20.0), 2 * 604_800 + 50, None, &lines, &[]);
    assert_eq!(book.closed.len(), 1);
    assert_eq!(book.closed[0].pid, 2);
}

#[test]
fn queries_are_answered() {
    let mut book = AlertBook::new(of(20.0), 1_000);
    book.ingest(100_000, of(1.0), of(1.5), of(2.5), &[snap(1, 30.0, 5.0), snap(2, 40.0, 0.0)]);
    book.ingest(100_002, of(1.0), of(0.0), of(0.0), &[snap(2, 35.0, 0.0)]);
    assert!(book.query_fits(100_003, 0, 0));
    let text = book.to_json(true, "h\"", of(1.0), 100_003, 0, 0);
    let ep2 = "{\"pid\":2,\"user\":\"root\",\"command\":\"proc-2\",\"start\":100000,\"end\":100002,\"open\":true,\
               \"samples\":2,\"over_s\":2.0000,\"max_io\":40.0000,\"last_io\":35.0000,\"max_read\":0.0000,\"max_write\":0.0000}";
    let ep1 = "{\"pid\":1,\"user\":\"root\",\"command\":\"proc-1\",\"start\":100000,\"end\":100002,\"open\":false,\
               \"samples\":1,\"over_s\":1.0000,\"max_io\":30.0000,\"last_io\":30.0000,\"max_read\":0.0000,\"max_write\":5.0000}";
    let off2 = "{\"pid\":2,\"user\":\"root\",\"command\":\"proc-2\",\"episodes\":1,\"samples\":2,\"over_s\":2.0000,\
                \"max_io\":40.0000,\"max_read\":0.0000,\"max_write\":0.0000,\"last\":100002}";
    let off1 = "{\"pid\":1,\"user\":\"root\",\"command\":\"proc-1\",\"episodes\":1,\"samples\":1,\"over_s\":1.0000,\
                \"max_io\":30.0000,\"max_read\":0.0000,\"max_write\":5.0000,\"last\":100002}";
    let want = format!(
        "{{\"ok\":true,\"threshold\":20.0000,\"delayacct\":true,\"host\":\"h\\\"\",\"interval_s\":1.0000,\
         \"started\":1000,\"now\":100003,\"from\":13603,\"to\":100004,\"retain_days\":7,\"samples\":2,\
         \"alert_samples\":2,\"open\":1,\"episode_total\":2,\"peak_io\":40.0000,\"peak_io_at\":100002,\
         \"peak_io_pid\":2,\"peak_io_cmd\":\"proc-2\",\"peak_write\":2.5000,\"peak_write_at\":99960,\
         \"peak_read\":1.5000,\"peak_read_at\":99960,\"current\":[{ep2}],\"episodes\":[{ep2},{ep1}],\
         \"offenders\":[{off2},{off1}],\"minutes\":[{{\"t\":99960,\"max_io\":40.0000,\"max_read\":1.5000,\
         \"max_write\":2.5000,\"over\":2,\"top_io\":40.0000,\"top_pid\":2,\"top_cmd\":\"proc-2\"}}]}}"
    );
    assert_eq!(text, want);
    let past = book.to_json(false, "h", of(1.0), 100_003, 10, 20);
    assert!(past.contains("\"from\":10,\"to\":20,"));
    assert!(past.ends_with("\"current\":[],\"episodes\":[],\"offenders\":[],\"minutes\":[]}"));
}

#[test]
fn queries_about_times_that_do_not_fit_are_told() {
    let line = "{\"bucket\":1e30}".to_string();
    let book = AlertBook::open(of(20.0), 0, None, &[], &[line]);
    assert_eq!(book.minutes[0].bucket, u64::MAX);
    assert!(!book.query_fits(10, 0, 0));
}

#[test]
fn a_minute_loads_as_it_ended() {
    let mut disk = Disk::new();
    let mut book = AlertBook::new(of(20.0), 600);
    for (i, (io, read, write)) in
        [(10.00001, 5.0, 7.0), (10.00004, 9.0, 2.0), (3.0, 1.0, 1.0), (42.123456, 0.0, 80.5)].iter().enumerate()
    {
        let saves = book.ingest(600 + i as u64, of(1.0), of(*read), of(*write), &[snap(1 + i as u32, *io, 0.0)]);
        disk.keep(saves);
    }
    assert_eq!(disk.minutes.len(), 3);
    let again = disk.book(20.0, 700);
    assert_eq!(again.minutes.len(), 1);
    let m = &again.minutes[0];
    assert_eq!((m.bucket, m.over, m.top_pid, m.top_cmd.as_str()), (10, 1, 4, "proc-4"));
    assert_eq!((to(m.max_io), to(m.max_read), to(m.max_write)), (42.1235, 9.0, 80.5));
    assert_eq!(minute_line(m), disk.minutes[2]);
}

#[test]
fn a_lone_spike_leaves_its_sample() {
    let mut book = AlertBook::new(of(20.0), 0);
    book.ingest(1_000, of(0.5), of(0.0), of(0.0), &[snap(3, 1.0, 0.0), snap(9, 55.0, 80.0)]);
    let saves = book.ingest(1_007, of(1.0), of(0.0), of(0.0), &[snap(3, 90.0, 0.0)]);
    assert_eq!(saves.episodes.len(), 1);
    assert_eq!(saves.episodes[0].file, "1970-01-01.jsonl");
    let ep = parse_episode(&saves.episodes[0].line).unwrap();
    assert_eq!((ep.pid, ep.start, ep.end, ep.samples, ep.open), (9, 1_000, 1_007, 1, false));
    assert_eq!((to(ep.over_s), to(ep.max_io), to(ep.max_write)), (0.5, 55.0, 80.0));
    assert_eq!(book.open[0].pid, 3);
}

#[test]
fn queries_list_what_overlaps() {
    let lines: Vec<String> =
        [episode(1, 100, 200, 30.0), episode(2, 200, 300, 40.0), episode(3, 300, 400, 50.0), episode(2, 150, 300, 60.0)]
            .iter()
            .map(episode_line)
            .collect();
    let book = AlertBook::open(of(20.0), 500, None, &lines, &[]);
    let text = book.to_json(true, "h", of(1.0), 500, 201, 300);
    let list = text.split("\"episodes\":[").nth(1).unwrap().split("],\"offenders\"").next().unwrap();
    // the first ended before the query begins, the third begins where it ends
    assert!(!list.contains("\"pid\":1,") && !list.contains("\"pid\":3,"));
    assert!(list.find("\"max_io\":60.0000").unwrap() < list.find("\"max_io\":40.0000").unwrap());
    let offenders = text.split("\"offenders\":[").nth(1).unwrap();
    assert_eq!(offenders.matches("\"pid\":2,").count(), 1);
    assert!(offenders.contains("\"episodes\":2,"));
    let all = book.to_json(true, "h", of(1.0), 500, 1, 500);
    let list = all.split("\"episodes\":[").nth(1).unwrap();
    assert!(list.find("\"end\":400").unwrap() < list.find("\"end\":300").unwrap());
    assert!(list.find("\"end\":300").unwrap() < list.find("\"end\":200").unwrap());
}

#[test]
fn thresholds_are_written_as_the_machine_writes_them() {
    let mut x = 1.0f64;
    let mut values = vec![1.0, 20.0, 100.0, 37.5, 33.3, 0.1 + 1.2, 99.99999999999999, 1.0000000000000002, 12.345678901234567];
    while x < 100.0 {
        values.push(x);
        x *= 1.01234567;
    }
    for v in values {
        let book = AlertBook::new(of(v), 0);
        let text = book.save_threshold();
        assert_eq!(text, format!("{}\n", v));
        let again = AlertBook::open(of(20.0), 0, Some(&text), &[], &[]);
        assert_eq!(to(again.threshold), v);
    }
}

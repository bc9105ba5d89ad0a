use iomon::binary64::Binary64;
use iomon::diskstats::DiskStats;
use iomon::iotop::{IoFrame, ProcRate};
use iomon::json::json_str;
use iomon::records::AlertBook;
use iomon::web::{
    aggregate_procs, body_param, body_short, browse_hint, content_length, find_head_end, has_room,
    hostname, json_error, json_frame, json_pending, normalize_addr, parse_args, parse_port,
    query_param, request_text, route, sample_devices, sample_fits, wants_body, wants_head,
    write_resp, Body, DeviceRate, Hub, Route,
};

fn of(x: f64) -> Binary64 {
    Binary64::from_bits(x.to_bits())
}

fn to(x: Binary64) -> f64 {
    f64::from_bits(x.bits)
}

#[test]
fn json_string_escapes() {
    assert_eq!(json_str("a\"b\\c"), "\"a\\\"b\\\\c\"");
    assert_eq!(json_str("行\n"), "\"行\\n\"");
}

#[test]
fn listen_addr_forms() {
    assert_eq!(normalize_addr("9090").unwrap(), "127.0.0.1:9090");
    assert_eq!(normalize_addr(":9090").unwrap(), "127.0.0.1:9090");
    assert_eq!(normalize_addr("127.0.0.1:9090").unwrap(), "127.0.0.1:9090");
    assert_eq!(normalize_addr("0.0.0.0:9090").unwrap(), "0.0.0.0:9090");
    assert!(normalize_addr("127.0.0.1").is_err());
    assert!(normalize_addr("0").is_err());
}

#[test]
fn wrong_addresses_are_told() {
    assert_eq!(normalize_addr("127.0.0.1").unwrap_err(), "地址需要带端口: 127.0.0.1");
    assert_eq!(normalize_addr("0").unwrap_err(), "端口不能为 0");
    assert_eq!(normalize_addr("").unwrap_err(), "无效的端口: ");
    assert_eq!(normalize_addr(":").unwrap_err(), "无效的端口: ");
    assert_eq!(normalize_addr("host:70000").unwrap_err(), "无效的端口: 70000");
    assert_eq!(normalize_addr("[::1]:80").unwrap(), "[::1]:80");
    assert_eq!(parse_port("443"), Ok(443));
    assert_eq!(parse_port("x").unwrap_err(), "无效的端口: x");
}

fn args(v: &[&str]) -> Vec<String> {
    v.iter().map(|s| s.to_string()).collect()
}

#[test]
fn arguments_of_the_page() {
    let o = parse_args(&args(&[])).unwrap().unwrap();
    assert_eq!((o.addr.as_str(), to(o.interval)), ("127.0.0.1:8080", 1.0));
    let o = parse_args(&args(&["2", "-l", "9090"])).unwrap().unwrap();
    assert_eq!((o.addr.as_str(), to(o.interval)), ("127.0.0.1:9090", 2.0));
    let o = parse_args(&args(&["--listen", "0.0.0.0:1", "0.5", "-l", ":2"])).unwrap().unwrap();
    assert_eq!((o.addr.as_str(), to(o.interval)), ("127.0.0.1:2", 0.5));
    assert!(parse_args(&args(&["-h", "-x"])).unwrap().is_none());
    let fault = |v: &[&str]| match parse_args(&args(v)) {
        Err(e) => e,
        Ok(_) => panic!("accepted"),
    };
    assert_eq!(fault(&["-x", "-h"]), "未知选项: -x");
    assert_eq!(fault(&["-l"]), "-l/--listen 需要一个地址，如 127.0.0.1:8080");
    assert_eq!(fault(&["-l", "0"]), "端口不能为 0");
    assert_eq!(fault(&["1", "2"]), "位置参数过多，最多一个间隔秒数");
    assert_eq!(fault(&["x"]), "无效的间隔秒数: x");
    assert_eq!(fault(&["0.4"]), "间隔秒数至少为 0.5（全量扫描线程很贵）");
    assert_eq!(fault(&["inf"]), "间隔秒数至少为 0.5（全量扫描线程很贵）");
}

#[test]
fn browsers_are_pointed_at_this_machine() {
    assert_eq!(browse_hint("0.0.0.0:80"), "http://127.0.0.1:80");
    assert_eq!(browse_hint(":::80"), "http://127.0.0.1:80");
    assert_eq!(browse_hint("10.0.0.1:80"), "http://10.0.0.1:80");
    assert_eq!(browse_hint("x"), "http://x");
    assert_eq!(hostname(Some(" box \n")), "box");
    assert_eq!(hostname(None), "localhost");
}

#[test]
fn error_json_is_object() {
    let s = json_error(3, "x");
    assert!(s.contains("\"ok\":false"));
    assert!(s.contains("\"seq\":3"));
}

#[test]
fn frames_without_rates() {
    let rest = "\"skipped\":0,\"threads\":0,\"alerts\":0,\"total_read\":0,\"total_write\":0,\"actual_read\":0,\
                \"actual_write\":0,\"devices\":[],\"rows\":[]}";
    assert_eq!(
        json_error(3, "a\"b"),
        format!("{{\"ok\":false,\"seq\":3,\"ready\":false,\"error\":\"a\\\"b\",\"host\":\"\",\"interval_s\":0,\"elapsed_s\":0,\"delayacct\":false,{rest}")
    );
    assert_eq!(
        json_pending(),
        format!("{{\"ok\":true,\"seq\":0,\"ready\":false,\"error\":null,\"host\":\"\",\"interval_s\":0,\"elapsed_s\":0,\"delayacct\":true,{rest}")
    );
}

#[test]
fn body_param_finds_threshold() {
    let req = "POST /api/records HTTP/1.1\r\nContent-Length: 13\r\n\r\nthreshold=20";
    assert_eq!(body_param(req, "threshold").as_deref(), Some("20"));
    assert_eq!(body_param(req, "missing"), None);
}

#[test]
fn parameters_are_found() {
    assert_eq!(body_param("x\r\n\r\na=1& b = 2 &b=3", "b").as_deref(), Some("2"));
    assert_eq!(body_param("x\r\n\r\nflag", "flag").as_deref(), Some(""));
    assert_eq!(body_param("a=1", "a"), None);
    assert_eq!(query_param("/p?a=1&b=2=3&c", "b").as_deref(), Some("2=3"));
    assert_eq!(query_param("/p?a=1&b=2=3&c", "c").as_deref(), Some(""));
    assert_eq!(query_param("/p?a =1", "a"), None);
    assert_eq!(query_param("/p", "a"), None);
    assert_eq!(query_param("/p?x?a=1", "a"), None);
}

#[test]
fn content_length_parsed() {
    let head = "POST /api/records HTTP/1.1\r\nContent-Length: 13\r\nHost: x";
    assert_eq!(content_length(head), Some(13));
    assert_eq!(content_length("GET / HTTP/1.1\r\nHost: x"), None);
}

#[test]
fn other_lengths() {
    assert_eq!(content_length("content-length:7 \r\nContent-Length: 8"), Some(7));
    assert_eq!(content_length("CONTENT-LENGTH: 7"), None);
    assert_eq!(content_length("Content-Length: x\r\ncontent-length: 5"), None);
}

#[test]
fn requests_are_read_to_their_end() {
    assert!(wants_head(b""));
    assert!(wants_head(b"GET / HTTP/1.1\r\n\r"));
    assert!(!wants_head(b"GET / HTTP/1.1\r\n\r\n"));
    assert!(wants_head(&vec![b'x'; 65536]));
    assert!(!wants_head(&vec![b'x'; 65537]));
    assert_eq!(find_head_end(b"ab\r\n\r\nc\r\n\r\n"), Some(2));
    assert_eq!(find_head_end(b"\r\n\r"), None);
    assert!(!wants_body(b"GET / HTTP/1.1"));
    assert!(!wants_body(b"GET / HTTP/1.1\r\n\r\n"));
    assert!(wants_body(b"POST / HTTP/1.1\r\nContent-Length: 3\r\n\r\nab"));
    assert!(!wants_body(b"POST / HTTP/1.1\r\nContent-Length: 3\r\n\r\nabc"));
    assert!(body_short(10, 6, "Content-Length: 18446744073709551615"));
    assert_eq!(request_text(b"a\xffb"), "a\u{fffd}b");
    assert_eq!(request_text("中".as_bytes()), "中");
}

#[test]
fn requests_are_routed() {
    for t in ["", "GET", "GET / HTTP/1.1", "GET /index.html?x=1", "POST /records", "\r\n"] {
        assert!(matches!(route(t), Route::Page), "{:?}", t);
    }
    assert!(matches!(route("GET /api/live?preview=1 HTTP/1.1\r\n"), Route::Live));
    assert!(matches!(route("GET /favicon.ico"), Route::Unknown));
    assert!(matches!(route("GET ?x"), Route::Unknown));
    assert!(matches!(route("GET /api/records?threshold=5"), Route::Refused));
    assert!(matches!(route("get /api/records?threshold"), Route::Refused));
    match route("GET /api/records?from=12&to=x HTTP/1.1\r\n\r\nthreshold=5") {
        Route::Records { threshold, from, to } => {
            assert!(threshold.is_none());
            assert_eq!((from, to), (12, 0));
        }
        _ => panic!(),
    }
    match route("POST /api/records?threshold=9&to=7 HTTP/1.1\r\n\r\nthreshold=33.5") {
        Route::Records { threshold, from, to: end } => {
            assert_eq!(threshold.map(to), Some(33.5));
            assert_eq!((from, end), (0, 7));
        }
        _ => panic!(),
    }
    match route("POST /api/records HTTP/1.1\r\n\r\nthreshold=many") {
        Route::Records { threshold, .. } => assert!(threshold.is_none()),
        _ => panic!(),
    }
}

fn hub() -> Hub {
    Hub {
        live: json_pending(),
        book: AlertBook::new(of(20.0), 5),
        threshold: of(20.0),
        host: "h".into(),
        interval: of(1.0),
        delayacct: true,
    }
}

fn text(body: Body) -> String {
    match body {
        Body::Text(t) => t,
        Body::Page => panic!("page"),
    }
}

#[test]
fn requests_are_answered() {
    let mut h = hub();
    let (r, moved) = h.respond(Route::Page, 10);
    assert_eq!((r.status.as_str(), r.content_type.as_str(), moved), ("200 OK", "text/html; charset=utf-8", false));
    assert!(matches!(r.body, Body::Page));
    let (r, _) = h.respond(Route::Live, 10);
    assert_eq!(r.content_type, "application/json; charset=utf-8");
    assert_eq!(text(r.body), json_pending());
    let (r, moved) = h.respond(Route::Refused, 10);
    assert_eq!((r.status.as_str(), moved), ("405 Method Not Allowed", false));
    assert_eq!(text(r.body), "use POST to change threshold");
    let (r, _) = h.respond(Route::Unknown, 10);
    assert_eq!((r.status.as_str(), r.content_type.as_str()), ("404 Not Found", "text/plain; charset=utf-8"));
    assert_eq!(text(r.body), "not found");
    let ask = Route::Records { threshold: Some(of(250.0)), from: 0, to: 0 };
    assert!(h.can_answer(&ask, 10));
    let (r, moved) = h.respond(ask, 10);
    assert!(moved);
    assert_eq!((to(h.threshold), to(h.book.threshold)), (100.0, 100.0));
    assert_eq!(text(r.body), h.book.to_json(true, "h", of(1.0), 10, 0, 0));
    let (_, moved) = h.respond(Route::Records { threshold: None, from: 0, to: 0 }, 10);
    assert!(!moved);
    let (_, moved) = h.respond(Route::Records { threshold: Some(of(f64::NAN)), from: 0, to: 0 }, 10);
    assert!(moved && h.threshold.is_nan());
    assert_eq!(to(h.book.threshold), 20.0);
}

#[test]
fn answers_have_a_head() {
    assert_eq!(
        write_resp("200 OK", "text/plain", 12),
        "HTTP/1.1 200 OK\r\nContent-Type: text/plain\r\nContent-Length: 12\r\nCache-Control: no-store\r\nConnection: close\r\n\r\n"
    );
}

fn rate(tid: u32, pid: u32, io: f64, command: &str) -> ProcRate {
    ProcRate {
        tid,
        pid,
        prio: "be/4".into(),
        user: format!("u{tid}"),
        read_bps: of(1.0),
        write_bps: of(2.0),
        swapin_pct: of(0.0),
        io_pct: of(io),
        command: command.into(),
    }
}

#[test]
fn threads_are_added_up() {
    let p = aggregate_procs(&[rate(3, 1, 60.0, "x"), rate(5, 5, 1.0, "y"), rate(1, 1, 70.0, "main"), rate(4, 1, 0.0, "z")]);
    assert_eq!(p.len(), 2);
    assert_eq!((p[0].pid, p[0].user.as_str(), p[0].command.as_str()), (1, "u1", "main"));
    assert_eq!((to(p[0].io), to(p[0].read), to(p[0].write)), (100.0, 3.0, 6.0));
    assert_eq!((p[1].pid, to(p[1].io)), (5, 1.0));
    let p = aggregate_procs(&[rate(3, 1, 0.0, ""), rate(4, 1, 0.0, "b"), rate(5, 1, 0.0, "c")]);
    assert_eq!((p[0].user.as_str(), p[0].command.as_str()), ("u4", "b"));
}

fn disk(name: &str, minor: u32, reads: u64, io_ms: u64) -> DiskStats {
    DiskStats {
        major: 8,
        minor,
        device: name.into(),
        reads_completed: reads,
        reads_merged: 0,
        sectors_read: reads * 2,
        time_reading_ms: reads,
        writes_completed: 0,
        writes_merged: 0,
        sectors_written: 0,
        time_writing_ms: 0,
        in_flight: 0,
        io_time_ms: io_ms,
        weighted_io_time_ms: 0,
    }
}

#[test]
fn devices_are_ranked() {
    let names = ["sdb", "sda", "loop0", "sdc"];
    let before: Vec<DiskStats> = names.iter().enumerate().map(|(i, n)| disk(n, i as u32, 0, 0)).collect();
    let after = vec![disk("sdb", 0, 10, 100), disk("sda", 1, 10, 100), disk("loop0", 2, 99, 999), disk("sdc", 3, 1, 500)];
    let mut prev = None;
    assert!(sample_devices(&mut prev, None, of(1.0)).is_empty());
    assert!(prev.is_none());
    assert!(sample_devices(&mut prev, Some(before), of(1.0)).is_empty());
    assert!(sample_fits(&prev, &Some(after.clone())));
    let d = sample_devices(&mut prev, Some(after.clone()), of(1.0));
    let got: Vec<&str> = d.iter().map(|x| x.name.as_str()).collect();
    assert_eq!(got, vec!["sdc", "sda", "sdb"]);
    assert_eq!((to(d[1].r_s), to(d[1].read_bps), to(d[1].await_ms), to(d[1].util_pct)), (10.0, 10240.0, 1.0, 10.0));
    assert!(sample_devices(&mut prev, None, of(1.0)).is_empty());
    assert_eq!(prev.as_ref().unwrap().disks, after);
    let many: Vec<DiskStats> = (0..20).map(|i| disk(&format!("d{i:02}"), i, 0, 0)).collect();
    let mut prev = None;
    sample_devices(&mut prev, Some(many.clone()), of(1.0));
    let d = sample_devices(&mut prev, Some(many), of(1.0));
    assert_eq!(d.len(), 12);
    assert_eq!(d[11].name, "d11");
}

fn frame(ready: bool, rows: Vec<ProcRate>) -> IoFrame {
    IoFrame {
        ready,
        elapsed_s: of(1.0),
        delayacct: false,
        skipped: 4,
        threads: 5,
        total_read: of(6.0),
        total_write: of(7.0),
        actual_read: of(8.0),
        actual_write: of(f64::NAN),
        rows,
    }
}

fn device() -> DeviceRate {
    DeviceRate {
        name: "sda".into(),
        r_s: of(1.0),
        w_s: of(2.0),
        read_bps: of(3.0),
        write_bps: of(4.0),
        await_ms: of(5.0),
        util_pct: of(6.0),
    }
}

#[test]
fn frames_are_written() {
    assert_eq!(
        json_frame(9, of(0.5), "h", &frame(true, vec![rate(3, 1, 60.0, "x")]), &[device()], 2),
        "{\"ok\":true,\"seq\":9,\"ready\":true,\"error\":null,\"host\":\"h\",\"interval_s\":0.5000,\"elapsed_s\":1.0000,\
         \"delayacct\":false,\"skipped\":4,\"threads\":5,\"alerts\":2,\"total_read\":6.0000,\"total_write\":7.0000,\
         \"actual_read\":8.0000,\"actual_write\":0,\"devices\":[{\"name\":\"sda\",\"r_s\":1.0000,\"w_s\":2.0000,\
         \"read_bps\":3.0000,\"write_bps\":4.0000,\"await_ms\":5.0000,\"util_pct\":6.0000}],\"rows\":[{\"tid\":3,\
         \"pid\":1,\"prio\":\"be/4\",\"user\":\"u3\",\"read_bps\":1.0000,\"write_bps\":2.0000,\"swapin_pct\":0.0000,\
         \"io_pct\":60.0000,\"command\":\"x\"}]}"
    );
}

#[test]
fn frames_are_published() {
    let mut h = hub();
    h.threshold = of(30.0);
    let f = frame(false, vec![]);
    let (moved, saves) = h.publish(1, "h", &f, &[], 100);
    assert!(moved && saves.is_none());
    assert_eq!((to(h.book.threshold), h.book.samples), (30.0, 0));
    let f = frame(true, vec![rate(1, 1, 60.0, "x")]);
    let (moved, saves) = h.publish(2, "h", &f, &[device()], 101);
    assert!(!moved && saves.unwrap().minute.is_some());
    assert_eq!((h.book.samples, h.book.open_count()), (1, 1));
    assert!(!h.delayacct);
    assert_eq!(h.live, json_frame(2, of(1.0), "h", &f, &[device()], 1));
}

#[test]
fn connections_are_limited() {
    assert!(has_room(0));
    assert!(has_room(63));
    assert!(!has_room(64));
}

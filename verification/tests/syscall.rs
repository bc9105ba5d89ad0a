use iomon::syscall::{
    bind_netlink, bind_netlink_call, call_number, close, ioprio_get, ioprio_get_call, netlink_socket,
    netlink_socket_call, recv_netlink, recv_netlink_call, send_netlink, send_netlink_call,
    set_recv_timeout, set_recv_timeout_call, syscall6, tty_size, tty_size_call, Arch, Arg, Name,
};

#[test]
fn calls_have_the_numbers_of_the_machine() {
    assert_eq!(call_number(Arch::X86_64, Name::IoprioGet), Some(252));
    assert_eq!(call_number(Arch::Aarch64, Name::IoprioGet), Some(31));
    assert_eq!(call_number(Arch::X86_64, Name::Close), Some(3));
    assert_eq!(call_number(Arch::Aarch64, Name::Setsockopt), Some(208));
    assert_eq!(call_number(Arch::Other, Name::Socket), None);
    assert_eq!(syscall6(3, 1, 0, 0, 0, 0, 0), -38);
}

#[test]
fn calls_carry_their_arguments() {
    let c = close(Arch::X86_64, -1).unwrap();
    assert_eq!((c.number, c.args), (3, vec![Arg::Descriptor(-1)]));
    let c = ioprio_get_call(Arch::Aarch64, 42).unwrap();
    assert_eq!((c.number, c.args), (31, vec![Arg::Number(1), Arg::Number(42)]));
    let c = tty_size_call(Arch::X86_64).unwrap();
    assert_eq!(c.args, vec![Arg::Number(1), Arg::Number(0x5413), Arg::Record]);
    assert_eq!(c.record.len(), 8);
    let c = netlink_socket_call(Arch::X86_64).unwrap();
    assert_eq!(c.args, vec![Arg::Number(16), Arg::Number(3), Arg::Number(16)]);
    let c = bind_netlink_call(Arch::X86_64, 5).unwrap();
    assert_eq!(c.args, vec![Arg::Descriptor(5), Arg::Record, Arg::Number(12)]);
    assert_eq!(c.record, vec![16, 0, 0, 0, 0, 0, 0, 0, 0, 0, 0, 0]);
    let c = set_recv_timeout_call(Arch::X86_64, 5).unwrap();
    assert_eq!(c.record.len(), 16);
    assert_eq!(c.record[0], 1);
    let c = send_netlink_call(Arch::Aarch64, 5).unwrap();
    assert_eq!(c.number, 206);
    assert_eq!(c.args[1], Arg::Message);
    let c = recv_netlink_call(Arch::X86_64, 5).unwrap();
    assert_eq!(c.args, vec![Arg::Descriptor(5), Arg::Message, Arg::Length]);
    assert!(recv_netlink_call(Arch::Other, 5).is_none());
}

#[test]
fn replies_below_zero_are_errors() {
    assert_eq!(netlink_socket(Some(7)), Ok(7));
    assert_eq!(netlink_socket(Some(-97)), Err(97));
    assert_eq!(netlink_socket(None), Err(38));
    assert_eq!(bind_netlink(Some(0)), Ok(()));
    assert_eq!(bind_netlink(Some(-1)), Err(1));
    assert_eq!(set_recv_timeout(None), Err(38));
    assert_eq!(send_netlink(Some(28)), Ok(()));
    assert_eq!(recv_netlink(Some(100)), Ok(100));
    assert_eq!(recv_netlink(Some(-11)), Err(11));
    assert_eq!(ioprio_get(Some(16388)), Some(16388));
    assert_eq!(ioprio_get(Some(-3)), None);
    assert_eq!(ioprio_get(None), None);
}

#[test]
fn a_terminal_has_rows_and_columns() {
    assert_eq!(tty_size(Some(0), 24, 80), Some((24, 80)));
    assert_eq!(tty_size(Some(0), 0, 80), None);
    assert_eq!(tty_size(Some(0), 24, 0), None);
    assert_eq!(tty_size(Some(-25), 24, 80), None);
    assert_eq!(tty_size(None, 24, 80), None);
}

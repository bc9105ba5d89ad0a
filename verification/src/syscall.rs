//! The system calls that the monitor makes: which call with which arguments,
//! and what the kernel's reply means.
//!
//! A reply below zero is an error number with its sign turned. `None` stands
//! for a machine on which the calls have no number.

use vstd::prelude::*;

verus! {

/// The machines whose calls have numbers here.
#[derive(Clone, Copy, Debug, PartialEq, Eq, Structural)]
pub enum Arch {
    X86_64,
    Aarch64,
    Other,
}

/// The calls that the monitor makes.
#[derive(Clone, Copy, Debug, PartialEq, Eq, Structural)]
pub enum Name {
    Close,
    Ioctl,
    Socket,
    Sendto,
    Recvfrom,
    Bind,
    Setsockopt,
    IoprioGet,
}

/// The error number of a call that does not exist.
pub const ENOSYS: i32 = 38;

/// A call by number.
pub open spec fn number_of(arch: Arch, name: Name) -> Option<usize> {
    match arch {
        Arch::X86_64 => Some(
            match name {
                Name::Close => 3,
                Name::Ioctl => 16,
                Name::Socket => 41,
                Name::Sendto => 44,
                Name::Recvfrom => 45,
                Name::Bind => 49,
                Name::Setsockopt => 54,
                Name::IoprioGet => 252,
            },
        ),
        Arch::Aarch64 => Some(
            match name {
                Name::Close => 57,
                Name::Ioctl => 29,
                Name::Socket => 198,
                Name::Bind => 200,
                Name::Sendto => 206,
                Name::Recvfrom => 207,
                Name::Setsockopt => 208,
                Name::IoprioGet => 31,
            },
        ),
        Arch::Other => None,
    }
}

pub fn call_number(arch: Arch, name: Name) -> (r: Option<usize>)
    ensures
        r == number_of(arch, name),
{
    match arch {
        Arch::X86_64 => Some(
            match name {
                Name::Close => 3,
                Name::Ioctl => 16,
                Name::Socket => 41,
                Name::Sendto => 44,
                Name::Recvfrom => 45,
                Name::Bind => 49,
                Name::Setsockopt => 54,
                Name::IoprioGet => 252,
            },
        ),
        Arch::Aarch64 => Some(
            match name {
                Name::Close => 57,
                Name::Ioctl => 29,
                Name::Socket => 198,
                Name::Bind => 200,
                Name::Sendto => 206,
                Name::Recvfrom => 207,
                Name::Setsockopt => 208,
                Name::IoprioGet => 31,
            },
        ),
        Arch::Other => None,
    }
}

/// The reply on a machine without these calls: whatever is called does not
/// exist.
pub fn syscall6(
    nr: usize,
    a0: usize,
    a1: usize,
    a2: usize,
    a3: usize,
    a4: usize,
    a5: usize,
) -> (r: isize)
    ensures
        r == -ENOSYS,
{
    -(ENOSYS as isize)
}

/// An argument of a call: a number, or the address of the bytes that go along.
#[derive(Clone, Copy, Debug, PartialEq, Eq, Structural)]
pub enum Arg {
    Number(usize),
    /// A descriptor, sign and all.
    Descriptor(i32),
    /// Where the message lies: what is sent, or what the reply is put in.
    Message,
    /// How long the message is.
    Length,
    /// Where the bytes of the call's own record lie.
    Record,
}

/// A call and its arguments.
pub struct Call {
    pub number: usize,
    pub args: Vec<Arg>,
    /// The record that `Arg::Record` points to.
    pub record: Vec<u8>,
}

/// Whether `c` is the call `name` with these arguments and this record, on a
/// machine that has it.
pub open spec fn is_call(
    c: Option<Call>,
    arch: Arch,
    name: Name,
    args: Seq<Arg>,
    record: Seq<u8>,
) -> bool {
    match c {
        Some(call) => {
            &&& number_of(arch, name) == Some(call.number)
            &&& call.args@ =~= args
            &&& call.record@ =~= record
        },
        None => number_of(arch, name) is None,
    }
}

/// The address of a netlink socket: its family, and no port or group.
pub open spec fn netlink_address() -> Seq<u8> {
    seq![16u8, 0, 0, 0, 0, 0, 0, 0, 0, 0, 0, 0]
}

/// One second, as the kernel's `timeval`.
pub open spec fn one_second() -> Seq<u8> {
    seq![1u8, 0, 0, 0, 0, 0, 0, 0, 0, 0, 0, 0, 0, 0, 0, 0]
}

/// The call that closes a descriptor. Its reply says nothing of use.
pub fn close(arch: Arch, fd: i32) -> (r: Option<Call>)
    ensures
        is_call(r, arch, Name::Close, seq![Arg::Descriptor(fd)], seq![]),
{
    match call_number(arch, Name::Close) {
        Some(number) => Some(
            Call { number, args: vec![Arg::Descriptor(fd)], record: Vec::new() },
        ),
        None => None,
    }
}

/// `ioprio_get` of one thread.
pub fn ioprio_get_call(arch: Arch, tid: u32) -> (r: Option<Call>)
    ensures
        is_call(r, arch, Name::IoprioGet, seq![Arg::Number(1), Arg::Number(tid as usize)], seq![]),
{
    match call_number(arch, Name::IoprioGet) {
        Some(number) => Some(
            Call {
                number,
                args: vec![Arg::Number(1), Arg::Number(tid as usize)],
                record: Vec::new(),
            },
        ),
        None => None,
    }
}

/// The size of the terminal that standard output is, into a record of four
/// 16-bit numbers.
pub fn tty_size_call(arch: Arch) -> (r: Option<Call>)
    ensures
        is_call(
            r,
            arch,
            Name::Ioctl,
            seq![Arg::Number(1), Arg::Number(0x5413), Arg::Record],
            seq![0u8, 0, 0, 0, 0, 0, 0, 0],
        ),
{
    match call_number(arch, Name::Ioctl) {
        Some(number) => Some(
            Call {
                number,
                args: vec![Arg::Number(1), Arg::Number(0x5413), Arg::Record],
                record: vec![0u8, 0, 0, 0, 0, 0, 0, 0],
            },
        ),
        None => None,
    }
}

/// A raw socket of the generic netlink family.
pub fn netlink_socket_call(arch: Arch) -> (r: Option<Call>)
    ensures
        is_call(
            r,
            arch,
            Name::Socket,
            seq![Arg::Number(16), Arg::Number(3), Arg::Number(16)],
            seq![],
        ),
{
    match call_number(arch, Name::Socket) {
        Some(number) => Some(
            Call {
                number,
                args: vec![Arg::Number(16), Arg::Number(3), Arg::Number(16)],
                record: Vec::new(),
            },
        ),
        None => None,
    }
}

fn address_record() -> (r: Vec<u8>)
    ensures
        r@ == netlink_address(),
{
    vec![16u8, 0, 0, 0, 0, 0, 0, 0, 0, 0, 0, 0]
}

pub fn bind_netlink_call(arch: Arch, fd: i32) -> (r: Option<Call>)
    ensures
        is_call(
            r,
            arch,
            Name::Bind,
            seq![Arg::Descriptor(fd), Arg::Record, Arg::Number(12)],
            netlink_address(),
        ),
{
    match call_number(arch, Name::Bind) {
        Some(number) => Some(
            Call {
                number,
                args: vec![Arg::Descriptor(fd), Arg::Record, Arg::Number(12)],
                record: address_record(),
            },
        ),
        None => None,
    }
}

/// Bounds the wait for a reply.
pub fn set_recv_timeout_call(arch: Arch, fd: i32) -> (r: Option<Call>)
    ensures
        is_call(
            r,
            arch,
            Name::Setsockopt,
            seq![
                Arg::Descriptor(fd),
                Arg::Number(1),
                Arg::Number(20),
                Arg::Record,
                Arg::Number(16),
            ],
            one_second(),
        ),
{
    match call_number(arch, Name::Setsockopt) {
        Some(number) => Some(
            Call {
                number,
                args: vec![
                    Arg::Descriptor(fd),
                    Arg::Number(1),
                    Arg::Number(20),
                    Arg::Record,
                    Arg::Number(16),
                ],
                record: vec![1u8, 0, 0, 0, 0, 0, 0, 0, 0, 0, 0, 0, 0, 0, 0, 0],
            },
        ),
        None => None,
    }
}

pub fn send_netlink_call(arch: Arch, fd: i32) -> (r: Option<Call>)
    ensures
        is_call(
            r,
            arch,
            Name::Sendto,
            seq![
                Arg::Descriptor(fd),
                Arg::Message,
                Arg::Length,
                Arg::Number(0),
                Arg::Record,
                Arg::Number(12),
            ],
            netlink_address(),
        ),
{
    match call_number(arch, Name::Sendto) {
        Some(number) => Some(
            Call {
                number,
                args: vec![
                    Arg::Descriptor(fd),
                    Arg::Message,
                    Arg::Length,
                    Arg::Number(0),
                    Arg::Record,
                    Arg::Number(12),
                ],
                record: address_record(),
            },
        ),
        None => None,
    }
}

pub fn recv_netlink_call(arch: Arch, fd: i32) -> (r: Option<Call>)
    ensures
        is_call(
            r,
            arch,
            Name::Recvfrom,
            seq![Arg::Descriptor(fd), Arg::Message, Arg::Length],
            seq![],
        ),
{
    match call_number(arch, Name::Recvfrom) {
        Some(number) => Some(
            Call {
                number,
                args: vec![Arg::Descriptor(fd), Arg::Message, Arg::Length],
                record: Vec::new(),
            },
        ),
        None => None,
    }
}

/// The priority that a reply holds.
pub open spec fn priority_reply(reply: Option<isize>) -> Option<i32> {
    match reply {
        Some(n) => if n < 0 {
            None
        } else {
            Some(n as i32)
        },
        None => None,
    }
}

/// What the kernel replied to `ioprio_get`.
pub fn ioprio_get(reply: Option<isize>) -> (r: Option<i32>)
    ensures
        r == priority_reply(reply),
{
    match reply {
        Some(n) => if n < 0 {
            None
        } else {
            Some(n as i32)
        },
        None => None,
    }
}

/// Rows and columns of the terminal. There are none where the call failed or
/// either is zero.
pub fn tty_size(reply: Option<isize>, row: u16, col: u16) -> (r: Option<(usize, usize)>)
    ensures
        r == if reply == Some(0isize) && row > 0 && col > 0 {
            Some((row as usize, col as usize))
        } else {
            None
        },
{
    match reply {
        Some(n) => if n == 0 && row > 0 && col > 0 {
            Some((row as usize, col as usize))
        } else {
            None
        },
        None => None,
    }
}

/// The error that a reply stands for, if it is one.
pub open spec fn error_of(reply: Option<isize>) -> Option<i32> {
    match reply {
        Some(n) => if n < 0 {
            Some((-n) as i32)
        } else {
            None
        },
        None => Some(ENOSYS),
    }
}

/// The new socket's descriptor.
pub fn netlink_socket(reply: Option<isize>) -> (r: Result<i32, i32>)
    requires
        reply != Some(isize::MIN),
    ensures
        r == match error_of(reply) {
            Some(e) => Err::<i32, i32>(e),
            None => Ok(reply->0 as i32),
        },
{
    match reply {
        Some(n) => if n < 0 {
            Err((-n) as i32)
        } else {
            Ok(n as i32)
        },
        None => Err(ENOSYS),
    }
}

fn outcome(reply: Option<isize>) -> (r: Result<(), i32>)
    requires
        reply != Some(isize::MIN),
    ensures
        r == match error_of(reply) {
            Some(e) => Err::<(), i32>(e),
            None => Ok(()),
        },
{
    match reply {
        Some(n) => if n < 0 {
            Err((-n) as i32)
        } else {
            Ok(())
        },
        None => Err(ENOSYS),
    }
}

/// Whether the socket was bound.
pub fn bind_netlink(reply: Option<isize>) -> (r: Result<(), i32>)
    requires
        reply != Some(isize::MIN),
    ensures
        r == match error_of(reply) {
            Some(e) => Err::<(), i32>(e),
            None => Ok(()),
        },
{
    outcome(reply)
}

/// Whether the wait was bounded.
pub fn set_recv_timeout(reply: Option<isize>) -> (r: Result<(), i32>)
    requires
        reply != Some(isize::MIN),
    ensures
        r == match error_of(reply) {
            Some(e) => Err::<(), i32>(e),
            None => Ok(()),
        },
{
    outcome(reply)
}

/// Whether the message went out.
pub fn send_netlink(reply: Option<isize>) -> (r: Result<(), i32>)
    requires
        reply != Some(isize::MIN),
    ensures
        r == match error_of(reply) {
            Some(e) => Err::<(), i32>(e),
            None => Ok(()),
        },
{
    outcome(reply)
}

/// How many bytes came in.
pub fn recv_netlink(reply: Option<isize>) -> (r: Result<usize, i32>)
    requires
        reply != Some(isize::MIN),
    ensures
        r == match error_of(reply) {
            Some(e) => Err::<usize, i32>(e),
            None => Ok(reply->0 as usize),
        },
{
    match reply {
        Some(n) => if n < 0 {
            Err((-n) as i32)
        } else {
            Ok(n as usize)
        },
        None => Err(ENOSYS),
    }
}

/// The calls, in the order of the tables.
pub open spec fn calls() -> Seq<Name> {
    seq![
        Name::Close,
        Name::Ioctl,
        Name::Socket,
        Name::Bind,
        Name::Sendto,
        Name::Recvfrom,
        Name::Setsockopt,
        Name::IoprioGet,
    ]
}

/// Each machine numbers its calls by a table of its own, and no two calls have
/// the same number.
pub proof fn calls_are_numbered_by_tables(i: int, j: int)
    requires
        0 <= i < 8,
        0 <= j < 8,
    ensures
        number_of(Arch::X86_64, calls()[i]) == Some(
            seq![3usize, 16, 41, 49, 44, 45, 54, 252][i],
        ),
        number_of(Arch::Aarch64, calls()[i]) == Some(
            seq![57usize, 29, 198, 200, 206, 207, 208, 31][i],
        ),
        number_of(Arch::Other, calls()[i]) is None,
        i != j ==> number_of(Arch::X86_64, calls()[i]) != number_of(Arch::X86_64, calls()[j]),
        i != j ==> number_of(Arch::Aarch64, calls()[i]) != number_of(Arch::Aarch64, calls()[j]),
{
}

/// A reply below zero is the error of that number, and another is none.
pub proof fn errors_have_their_sign_turned(e: i32)
    requires
        0 < e,
    ensures
        error_of(Some((-e) as isize)) == Some(e),
        error_of(Some(e as isize)) is None,
        error_of(Some(0isize)) is None,
        error_of(None) == Some(38i32),
        priority_reply(Some((-e) as isize)) is None,
        priority_reply(Some(e as isize)) == Some(e),
{
}

} // verus!

//! Delay accounting of threads, asked over generic netlink.
//!
//! The kernel's `taskstats` hold what a thread has waited for block IO and for
//! pages to be swapped in, in nanoseconds. The kernel asks for the privilege
//! of administering the network; without it the caller estimates from clock
//! ticks instead.
//!
//! Version 15 of the record put a largest and a smallest delay behind each
//! sum, which moves the two sums. All other versions keep the older layout.

use vstd::prelude::*;
use vstd::slice::slice_subrange;

verus! {

/// What a thread has waited since it started, in nanoseconds.
#[derive(Debug, Clone, Copy, PartialEq, Eq, Structural)]
pub struct Delays {
    pub blkio_ns: u64,
    pub swapin_ns: u64,
}

pub const NLMSG_ERROR: u16 = 2;

pub const GENL_ID_CTRL: u16 = 0x10;

pub const CTRL_CMD_GETFAMILY: u8 = 3;

pub const CTRL_ATTR_FAMILY_ID: u16 = 1;

pub const CTRL_ATTR_FAMILY_NAME: u16 = 2;

pub const TASKSTATS_CMD_GET: u8 = 1;

pub const TASKSTATS_CMD_ATTR_PID: u16 = 1;

pub const TASKSTATS_TYPE_STATS: u16 = 3;

pub const TASKSTATS_TYPE_AGGR_PID: u16 = 4;

pub const TASKSTATS_TYPE_AGGR_TGID: u16 = 5;

/// The headers of a message: 16 bytes of netlink and 4 of generic netlink.
pub const HEADERS: usize = 20;

/// The error of a malformed reply.
pub const EINVAL: i32 = 22;

/// The family's name, as it is asked for.
pub open spec fn family_name() -> Seq<u8> {
    seq![84u8, 65, 83, 75, 83, 84, 65, 84, 83, 0]
}

// ---------------------------------------------------------------------------
// Numbers, lowest byte first

pub open spec fn le16(b: Seq<u8>, off: int) -> int {
    b[off] + 0x100 * b[off + 1]
}

pub open spec fn le32(b: Seq<u8>, off: int) -> int {
    le16(b, off) + 0x1_0000 * le16(b, off + 2)
}

pub open spec fn le64(b: Seq<u8>, off: int) -> int {
    le32(b, off) + 0x1_0000_0000 * le32(b, off + 4)
}

pub open spec fn bytes16(n: int) -> Seq<u8> {
    seq![(n % 0x100) as u8, (n / 0x100 % 0x100) as u8]
}

pub open spec fn bytes32(n: int) -> Seq<u8> {
    bytes16(n % 0x1_0000) + bytes16(n / 0x1_0000 % 0x1_0000)
}

/// The 16-bit number at `off`, where the bytes reach that far.
pub fn read_u16(buf: &[u8], off: usize) -> (r: Option<u16>)
    requires
        off + 2 <= usize::MAX,
    ensures
        r == if off + 2 <= buf@.len() {
            Some(le16(buf@, off as int) as u16)
        } else {
            None
        },
        r matches Some(n) ==> n == le16(buf@, off as int),
{
    if off + 2 <= buf.len() {
        Some(buf[off] as u16 + 0x100 * buf[off + 1] as u16)
    } else {
        None
    }
}

fn read_u32(buf: &[u8], off: usize) -> (r: u32)
    requires
        off + 4 <= buf@.len(),
    ensures
        r == le32(buf@, off as int),
{
    buf[off] as u32 + 0x100 * buf[off + 1] as u32 + 0x1_0000 * buf[off + 2] as u32 + 0x100_0000
        * buf[off + 3] as u32
}

/// The 64-bit number at `off`, where the bytes reach that far.
pub fn read_u64(buf: &[u8], off: usize) -> (r: Option<u64>)
    requires
        off + 8 <= usize::MAX,
    ensures
        r == if off + 8 <= buf@.len() {
            Some(le64(buf@, off as int) as u64)
        } else {
            None
        },
        r matches Some(n) ==> n == le64(buf@, off as int),
{
    if off + 8 <= buf.len() {
        Some(read_u32(buf, off) as u64 + 0x1_0000_0000 * read_u32(buf, off + 4) as u64)
    } else {
        None
    }
}

fn push16(out: &mut Vec<u8>, n: u16)
    ensures
        final(out)@ == old(out)@ + bytes16(n as int),
{
    out.push((n % 0x100) as u8);
    out.push((n / 0x100 % 0x100) as u8);
    assert(out@ =~= old(out)@ + bytes16(n as int));
}

fn push32(out: &mut Vec<u8>, n: u32)
    ensures
        final(out)@ == old(out)@ + bytes32(n as int),
{
    push16(out, (n % 0x1_0000) as u16);
    push16(out, (n / 0x1_0000) as u16);
    assert(out@ =~= old(out)@ + bytes32(n as int));
}

fn push_zeros(out: &mut Vec<u8>, n: usize)
    ensures
        final(out)@ == old(out)@ + zeros(n as int),
{
    let ghost start = out@;
    for i in 0..n
        invariant
            out@ == start + Seq::new(i as nat, |j: int| 0u8),
    {
        out.push(0);
        assert(out@ =~= start + Seq::new((i + 1) as nat, |j: int| 0u8));
    }
}

// ---------------------------------------------------------------------------
// Messages

/// A length rounded up to a multiple of four.
pub open spec fn aligned(n: int) -> int {
    (n + 3) / 4 * 4
}

/// So many bytes of zero.
pub open spec fn zeros(n: int) -> Seq<u8> {
    Seq::new(n as nat, |i: int| 0u8)
}

/// A request with one attribute.
pub open spec fn request(nl_type: u16, cmd: u8, attr: u16, data: Seq<u8>, seq: u32) -> Seq<u8> {
    let nla_len = 4 + data.len() as int;
    let total = HEADERS as int + aligned(nla_len);
    bytes32(total % 0x1_0000_0000) + bytes16(nl_type as int) + bytes16(1) + bytes32(seq as int)
        + bytes32(0) + seq![cmd, 1u8, 0u8, 0u8] + bytes16(nla_len % 0x1_0000) + bytes16(
        attr as int,
    ) + data + zeros(aligned(nla_len) - nla_len)
}

/// Writes a request with one attribute.
pub fn encode_request(nl_type: u16, cmd: u8, attr: u16, data: &[u8], seq: u32) -> (r: Vec<u8>)
    requires
        data@.len() + 27 <= usize::MAX,
    ensures
        r@ == request(nl_type, cmd, attr, data@, seq),
{
    let nla_len: usize = 4 + data.len();
    let padded: usize = (nla_len + 3) / 4 * 4;
    let total: usize = 20 + padded;
    let mut buf: Vec<u8> = Vec::new();
    push32(&mut buf, (total as u64 % 0x1_0000_0000) as u32);
    push16(&mut buf, nl_type);
    push16(&mut buf, 1);
    push32(&mut buf, seq);
    push32(&mut buf, 0);
    buf.push(cmd);
    buf.push(1);
    buf.push(0);
    buf.push(0);
    push16(&mut buf, (nla_len % 0x1_0000) as u16);
    push16(&mut buf, attr);
    for i in 0..data.len()
        invariant
            buf@ == bytes32(total as int % 0x1_0000_0000) + bytes16(nl_type as int) + bytes16(1)
                + bytes32(seq as int) + bytes32(0) + seq![cmd, 1u8, 0u8, 0u8] + bytes16(
                nla_len as int % 0x1_0000,
            ) + bytes16(attr as int) + data@.take(i as int),
    {
        let ghost before = buf@;
        buf.push(data[i]);
        assert(data@.take(i as int + 1) =~= data@.take(i as int).push(data@[i as int]));
        assert(buf@ =~= bytes32(total as int % 0x1_0000_0000) + bytes16(nl_type as int) + bytes16(1)
            + bytes32(seq as int) + bytes32(0) + seq![cmd, 1u8, 0u8, 0u8] + bytes16(
            nla_len as int % 0x1_0000,
        ) + bytes16(attr as int) + data@.take(i as int + 1));
    }
    assert(data@.take(data@.len() as int) =~= data@);
    push_zeros(&mut buf, padded - nla_len);
    buf
}

/// A request holds what went into it: its type, its number, and one attribute
/// with the type and the data that were given.
pub proof fn request_reads_back(nl_type: u16, cmd: u8, attr: u16, data: Seq<u8>, seq: u32)
    requires
        data.len() + 4 < 0x1_0000,
    ensures
        ({
            let b = request(nl_type, cmd, attr, data, seq);
            &&& le32(b, 0) == b.len()
            &&& le16(b, 4) == nl_type
            &&& le32(b, 8) == seq
            &&& b[16] == cmd
            &&& payload_of(b) matches Some(attrs) && attr_from(
                attrs,
                0,
                attr as int % 0x4000,
                data.len() as int,
            ) == Some(data)
        }),
{
    let nla_len = 4 + data.len() as int;
    let total = HEADERS as int + aligned(nla_len);
    let pad = zeros(aligned(nla_len) - nla_len);
    let head = seq![cmd, 1u8, 0u8, 0u8];
    let s = bytes32(total) + bytes16(nl_type as int) + bytes16(1) + bytes32(seq as int) + bytes32(0)
        + head + bytes16(nla_len) + bytes16(attr as int) + data + pad;
    assert(total % 0x1_0000_0000 == total && nla_len % 0x1_0000 == nla_len);
    assert(request(nl_type, cmd, attr, data, seq) == s);
    lemma_request_parts(s, total, nl_type, cmd, attr, data, seq);
}

proof fn lemma_request_parts(
    s: Seq<u8>,
    total: int,
    nl_type: u16,
    cmd: u8,
    attr: u16,
    data: Seq<u8>,
    seq: u32,
)
    requires
        data.len() + 4 < 0x1_0000,
        total == HEADERS + aligned(4 + data.len() as int),
        s == bytes32(total) + bytes16(nl_type as int) + bytes16(1) + bytes32(seq as int) + bytes32(0)
            + seq![cmd, 1u8, 0u8, 0u8] + bytes16(4 + data.len() as int) + bytes16(attr as int) + data
            + zeros(aligned(4 + data.len() as int) - 4 - data.len()),
    ensures
        le32(s, 0) == s.len(),
        le16(s, 4) == nl_type,
        le32(s, 8) == seq,
        s[16] == cmd,
        payload_of(s) matches Some(attrs) && attr_from(
            attrs,
            0,
            attr as int % 0x4000,
            data.len() as int,
        ) == Some(data),
{
    let nla_len = 4 + data.len() as int;
    let pad = zeros(aligned(nla_len) - nla_len);
    let head = seq![cmd, 1u8, 0u8, 0u8];
    lemma_bytes32(total);
    lemma_bytes16(nl_type as int);
    lemma_bytes32(seq as int);
    lemma_bytes16(nla_len);
    lemma_bytes16(attr as int);
    lemma_assembled(
        s,
        bytes32(total),
        bytes16(nl_type as int),
        bytes16(1),
        bytes32(seq as int),
        bytes32(0),
        head,
        bytes16(nla_len),
        bytes16(attr as int),
        data,
        pad,
    );
}

/// What parts that are put together hold.
proof fn lemma_assembled(
    s: Seq<u8>,
    a: Seq<u8>,
    b: Seq<u8>,
    c: Seq<u8>,
    d: Seq<u8>,
    e: Seq<u8>,
    f: Seq<u8>,
    length: Seq<u8>,
    ty: Seq<u8>,
    data: Seq<u8>,
    pad: Seq<u8>,
)
    requires
        s == a + b + c + d + e + f + length + ty + data + pad,
        a.len() == 4 && b.len() == 2 && c.len() == 2 && d.len() == 4 && e.len() == 4 && f.len() == 4,
        length.len() == 2 && ty.len() == 2,
        le32(a, 0) == 24 + data.len() + pad.len(),
        le16(length, 0) == 4 + data.len(),
    ensures
        le32(s, 0) == s.len(),
        le16(s, 4) == le16(b, 0),
        le32(s, 8) == le32(d, 0),
        s[16] == f[0],
        payload_of(s) matches Some(attrs) && attr_from(
            attrs,
            0,
            le16(ty, 0) % 0x4000,
            data.len() as int,
        ) == Some(data),
{
    let head = a + b + c + d + e + f;
    let attrs = length + ty + data + pad;
    lemma_regrouped(head, length, ty, data, pad);
    lemma_parts(a, b, c, d, e, f, attrs);
    lemma_one_attribute(length, ty, data, pad);
    assert(payload_of(s) == Some(attrs));
}

proof fn lemma_regrouped(a: Seq<u8>, b: Seq<u8>, c: Seq<u8>, d: Seq<u8>, e: Seq<u8>)
    ensures
        a + b + c + d + e == a + (b + c + d + e),
{
    assert(a + b + c + d + e =~= a + (b + c + d + e));
}

/// Where the parts of a message stand.
proof fn lemma_parts(
    a: Seq<u8>,
    b: Seq<u8>,
    c: Seq<u8>,
    d: Seq<u8>,
    e: Seq<u8>,
    f: Seq<u8>,
    attrs: Seq<u8>,
)
    requires
        a.len() == 4 && b.len() == 2 && c.len() == 2 && d.len() == 4 && e.len() == 4 && f.len() == 4,
    ensures
        ({
            let s = a + b + c + d + e + f + attrs;
            &&& s.len() == HEADERS + attrs.len()
            &&& le32(s, 0) == le32(a, 0)
            &&& le16(s, 4) == le16(b, 0)
            &&& le32(s, 8) == le32(d, 0)
            &&& s[16] == f[0]
            &&& s.subrange(HEADERS as int, s.len() as int) == attrs
        }),
{
    let s = a + b + c + d + e + f + attrs;
    assert(s[0] == a[0] && s[1] == a[1] && s[2] == a[2] && s[3] == a[3]);
    assert(s[4] == b[0] && s[5] == b[1]);
    assert(s[8] == d[0] && s[9] == d[1] && s[10] == d[2] && s[11] == d[3]);
    assert(s.subrange(HEADERS as int, s.len() as int) =~= attrs);
}

/// What an attribute holds behind its length and its type.
proof fn lemma_one_attribute(length: Seq<u8>, ty: Seq<u8>, data: Seq<u8>, rest: Seq<u8>)
    requires
        length.len() == 2 && ty.len() == 2,
        le16(length, 0) == 4 + data.len(),
    ensures
        ({
            let b = length + ty + data + rest;
            &&& attr_at(b, 0)
            &&& attr_len(b, 0) == 4 + data.len()
            &&& attr_type(b, 0) == le16(ty, 0) % 0x4000
            &&& attr_payload(b, 0) == data
        }),
{
    let b = length + ty + data + rest;
    assert(b[0] == length[0] && b[1] == length[1] && b[2] == ty[0] && b[3] == ty[1]);
    assert(attr_payload(b, 0) =~= data);
}

proof fn lemma_bytes16(n: int)
    requires
        0 <= n < 0x1_0000,
    ensures
        bytes16(n).len() == 2,
        le16(bytes16(n), 0) == n,
{
}

proof fn lemma_bytes32(n: int)
    requires
        0 <= n < 0x1_0000_0000,
    ensures
        bytes32(n).len() == 4,
        le32(bytes32(n), 0) == n,
{
    lemma_bytes16(n % 0x1_0000);
    lemma_bytes16(n / 0x1_0000);
    let b = bytes32(n);
    assert(b[0] == bytes16(n % 0x1_0000)[0] && b[1] == bytes16(n % 0x1_0000)[1]);
    assert(b[2] == bytes16(n / 0x1_0000)[0] && b[3] == bytes16(n / 0x1_0000)[1]);
}

/// What a message holds behind its headers. Its own length may cut it short.
pub open spec fn payload_of(b: Seq<u8>) -> Option<Seq<u8>> {
    let end = if le32(b, 0) < b.len() {
        le32(b, 0)
    } else {
        b.len() as int
    };
    if b.len() < HEADERS || end < HEADERS {
        None
    } else {
        Some(b.subrange(HEADERS as int, end))
    }
}

/// What a slice holds, if there is one.
pub open spec fn slice_view(s: Option<&[u8]>) -> Option<Seq<u8>> {
    match s {
        Some(b) => Some(b@),
        None => None,
    }
}

pub fn message_payload<'a>(buf: &'a [u8]) -> (r: Option<&'a [u8]>)
    ensures
        slice_view(r) == payload_of(buf@),
{
    if buf.len() < HEADERS {
        return None;
    }
    let nl_len = read_u32(buf, 0) as u64;
    let end: usize = if nl_len < buf.len() as u64 {
        nl_len as usize
    } else {
        buf.len()
    };
    if end < HEADERS {
        return None;
    }
    Some(slice_subrange(buf, HEADERS, end))
}

/// Whether a message is one of error with an error number below zero.
pub open spec fn is_error(b: Seq<u8>) -> bool {
    b.len() >= HEADERS && le16(b, 4) == NLMSG_ERROR && le32(b, 16) >= 0x8000_0000
}

/// The error number that a message carries, its sign turned.
pub open spec fn errno_of(b: Seq<u8>) -> Option<i32> {
    if is_error(b) {
        Some((0x1_0000_0000 - le32(b, 16)) as i32)
    } else {
        None
    }
}

/// Whether the error number's sign can be turned.
pub open spec fn errno_fits(b: Seq<u8>) -> bool {
    is_error(b) ==> le32(b, 16) != 0x8000_0000
}

pub fn nl_errno(buf: &[u8]) -> (r: Option<i32>)
    requires
        errno_fits(buf@),
    ensures
        r == errno_of(buf@),
{
    if buf.len() < HEADERS {
        return None;
    }
    if buf[4] as u16 + 0x100 * buf[5] as u16 != NLMSG_ERROR {
        return None;
    }
    let word = read_u32(buf, 16);
    if word >= 0x8000_0000 {
        Some((0xffff_ffff - word) as i32 + 1)
    } else {
        None
    }
}

/// Whether a reply can be read: its error number is not the one without an
/// opposite.
pub fn reply_fits(buf: &[u8]) -> (r: bool)
    ensures
        r == errno_fits(buf@),
{
    buf.len() < HEADERS || buf[4] as u16 + 0x100 * buf[5] as u16 != NLMSG_ERROR || read_u32(buf, 16)
        != 0x8000_0000
}

// ---------------------------------------------------------------------------
// Attributes

/// The length that the attribute at `off` states, its header counted.
pub open spec fn attr_len(b: Seq<u8>, off: int) -> int {
    le16(b, off)
}

/// The type of the attribute at `off`, without its two flag bits.
pub open spec fn attr_type(b: Seq<u8>, off: int) -> int {
    le16(b, off + 2) % 0x4000
}

pub open spec fn attr_payload(b: Seq<u8>, off: int) -> Seq<u8> {
    b.subrange(off + 4, off + attr_len(b, off))
}

/// Whether a whole attribute stands at `off`.
pub open spec fn attr_at(b: Seq<u8>, off: int) -> bool {
    0 <= off && off + 4 <= b.len() && attr_len(b, off) >= 4 && off + attr_len(b, off) <= b.len()
}

/// The statistics among the attributes from `off` on: those that come first,
/// also within an attribute that groups others.
pub open spec fn stats_from(b: Seq<u8>, off: int) -> Option<Seq<u8>>
    decreases b.len(), b.len() + 4 - off,
{
    if !attr_at(b, off) {
        None
    } else {
        let ty = attr_type(b, off);
        let inner = attr_payload(b, off);
        if ty == TASKSTATS_TYPE_STATS {
            Some(inner)
        } else if (ty == TASKSTATS_TYPE_AGGR_PID || ty == TASKSTATS_TYPE_AGGR_TGID) && stats_from(
            inner,
            0,
        ) is Some {
            stats_from(inner, 0)
        } else {
            stats_from(b, off + aligned(attr_len(b, off)))
        }
    }
}

/// The first attribute from `off` on of type `ty` with at least `min` bytes.
pub open spec fn attr_from(b: Seq<u8>, off: int, ty: int, min: int) -> Option<Seq<u8>>
    decreases b.len() + 4 - off,
{
    if !attr_at(b, off) {
        None
    } else if attr_type(b, off) == ty && attr_payload(b, off).len() >= min {
        Some(attr_payload(b, off))
    } else {
        attr_from(b, off + aligned(attr_len(b, off)), ty, min)
    }
}

/// An attribute's type and payload, where a whole one stands at `off`.
fn read_attr<'a>(buf: &'a [u8], off: usize) -> (r: Option<(u16, &'a [u8], usize)>)
    ensures
        match r {
            Some((ty, inner, len)) => {
                &&& attr_at(buf@, off as int)
                &&& ty == attr_type(buf@, off as int)
                &&& inner@ == attr_payload(buf@, off as int)
                &&& len == attr_len(buf@, off as int)
                &&& off + len <= buf@.len()
                &&& 4 <= len < 0x1_0000
                &&& inner@.len() < buf@.len()
            },
            None => !attr_at(buf@, off as int),
        },
{
    let n = buf.len();
    if n < 4 || off > n - 4 {
        return None;
    }
    let len: usize = buf[off] as usize + 0x100 * buf[off + 1] as usize;
    let ty: u16 = buf[off + 2] as u16 + 0x100 * buf[off + 3] as u16;
    if len < 4 || len > n - off {
        return None;
    }
    Some((ty % 0x4000, slice_subrange(buf, off + 4, off + len), len))
}

/// The statistics among attributes.
pub fn find_stats<'a>(attrs: &'a [u8]) -> (r: Option<&'a [u8]>)
    ensures
        slice_view(r) == stats_from(attrs@, 0),
    decreases attrs@.len(),
{
    let n = attrs.len();
    let mut off: usize = 0;
    loop
        invariant
            n == attrs@.len(),
            off <= n,
            stats_from(attrs@, 0) == stats_from(attrs@, off as int),
        decreases n - off,
    {
        let (ty, inner, len) = match read_attr(attrs, off) {
            Some(a) => a,
            None => return None,
        };
        if ty == TASKSTATS_TYPE_STATS {
            return Some(inner);
        }
        if ty == TASKSTATS_TYPE_AGGR_PID || ty == TASKSTATS_TYPE_AGGR_TGID {
            let found = find_stats(inner);
            if found.is_some() {
                return found;
            }
        }
        let step: usize = (len + 3) / 4 * 4;
        if step > n - off {
            assert(step == aligned(len as int));
            assert(stats_from(attrs@, off + step) is None);
            return None;
        }
        off = off + step;
    }
}

/// The first attribute of type `ty` with at least `min` bytes.
pub fn walk_attrs<'a>(buf: &'a [u8], ty: u16, min: usize) -> (r: Option<&'a [u8]>)
    ensures
        slice_view(r) == attr_from(buf@, 0, ty as int, min as int),
        r matches Some(b) ==> b@.len() >= min,
{
    let n = buf.len();
    let mut off: usize = 0;
    loop
        invariant
            n == buf@.len(),
            off <= n,
            attr_from(buf@, 0, ty as int, min as int) == attr_from(
                buf@,
                off as int,
                ty as int,
                min as int,
            ),
        decreases n - off,
    {
        let (found, inner, len) = match read_attr(buf, off) {
            Some(a) => a,
            None => return None,
        };
        if found == ty && inner.len() >= min {
            return Some(inner);
        }
        let step: usize = (len + 3) / 4 * 4;
        if step > n - off {
            assert(step == aligned(len as int));
            assert(attr_from(buf@, off + step, ty as int, min as int) is None);
            return None;
        }
        off = off + step;
    }
}

// ---------------------------------------------------------------------------
// Replies

/// Where the two sums stand in a record of this version.
pub open spec fn offsets(version: int) -> Option<(int, int)> {
    if version == 15 {
        Some((56, 88))
    } else if version >= 1 {
        Some((40, 56))
    } else {
        None
    }
}

/// The delays that a record holds, where it has a version and reaches far enough.
pub open spec fn delays_in(stats: Seq<u8>) -> Option<Delays> {
    if stats.len() < 2 {
        None
    } else {
        match offsets(le16(stats, 0)) {
            Some((b, s)) => if s + 8 <= stats.len() {
                Some(Delays { blkio_ns: le64(stats, b) as u64, swapin_ns: le64(stats, s) as u64 })
            } else {
                None
            },
            None => None,
        }
    }
}

pub fn parse_delays(stats: &[u8]) -> (r: Option<Delays>)
    ensures
        r == delays_in(stats@),
        r matches Some(d) ==> {
            let at = offsets(le16(stats@, 0))->0;
            d.blkio_ns == le64(stats@, at.0) && d.swapin_ns == le64(stats@, at.1)
        },
{
    let version = match read_u16(stats, 0) {
        Some(v) => v,
        None => return None,
    };
    let (blkio_off, swapin_off): (usize, usize) = if version == 15 {
        (56, 88)
    } else if version >= 1 {
        (40, 56)
    } else {
        return None;
    };
    match (read_u64(stats, blkio_off), read_u64(stats, swapin_off)) {
        (Some(blkio_ns), Some(swapin_ns)) => Some(Delays { blkio_ns, swapin_ns }),
        _ => None,
    }
}

/// What a reply to a query says.
pub open spec fn answer(b: Seq<u8>) -> Result<Delays, i32> {
    match errno_of(b) {
        Some(e) => Err(e),
        None => match payload_of(b) {
            Some(attrs) => match stats_from(attrs, 0) {
                Some(stats) => match delays_in(stats) {
                    Some(d) => Ok(d),
                    None => Err(EINVAL),
                },
                None => Err(EINVAL),
            },
            None => Err(EINVAL),
        },
    }
}

/// The delays in a reply, or the error number that it carries.
pub fn delays_from_reply(buf: &[u8]) -> (r: Result<Delays, i32>)
    requires
        errno_fits(buf@),
    ensures
        r == answer(buf@),
{
    if let Some(e) = nl_errno(buf) {
        return Err(e);
    }
    match message_payload(buf) {
        Some(attrs) => match find_stats(attrs) {
            Some(stats) => match parse_delays(stats) {
                Some(d) => Ok(d),
                None => Err(EINVAL),
            },
            None => Err(EINVAL),
        },
        None => Err(EINVAL),
    }
}

/// The family's number in a reply.
pub open spec fn family_in(b: Seq<u8>) -> Option<u16> {
    if errno_of(b) is Some {
        None
    } else {
        match payload_of(b) {
            Some(attrs) => match attr_from(attrs, 0, CTRL_ATTR_FAMILY_ID as int, 2) {
                Some(id) => Some(le16(id, 0) as u16),
                None => None,
            },
            None => None,
        }
    }
}

/// The request for the family's number.
pub fn family_request() -> (r: Vec<u8>)
    ensures
        r@ == request(GENL_ID_CTRL, CTRL_CMD_GETFAMILY, CTRL_ATTR_FAMILY_NAME, family_name(), 1),
{
    let name: Vec<u8> = vec![84u8, 65, 83, 75, 83, 84, 65, 84, 83, 0];
    assert(name@ =~= family_name());
    encode_request(GENL_ID_CTRL, CTRL_CMD_GETFAMILY, CTRL_ATTR_FAMILY_NAME, name.as_slice(), 1)
}

/// The family's number in the reply.
pub fn family_id(reply: &[u8]) -> (r: Option<u16>)
    requires
        errno_fits(reply@),
    ensures
        r == family_in(reply@),
{
    if nl_errno(reply).is_some() {
        return None;
    }
    match message_payload(reply) {
        Some(attrs) => match walk_attrs(attrs, CTRL_ATTR_FAMILY_ID, 2) {
            Some(id) => read_u16(id, 0),
            None => None,
        },
        None => None,
    }
}

// ---------------------------------------------------------------------------
// The conversation

/// A conversation with the kernel about threads' delays.
pub struct Taskstats {
    disabled: bool,
    family: u16,
    seq: u32,
}

/// What a request holds, if there is one.
pub open spec fn bytes_view(r: Option<Vec<u8>>) -> Option<Seq<u8>> {
    match r {
        Some(b) => Some(b@),
        None => None,
    }
}

/// What a reply holds, or the error that came instead.
pub open spec fn reply_view(r: Result<&[u8], i32>) -> Result<Seq<u8>, i32> {
    match r {
        Ok(b) => Ok(b@),
        Err(e) => Err(e),
    }
}

/// Whether `r` is the next request, about the thread `tid`; there is none once the
/// kernel has refused.
pub open spec fn asks_next(before: Taskstats, after: Taskstats, tid: u32, r: Option<Seq<u8>>) -> bool {
    &&& after.is_disabled() == before.is_disabled()
    &&& after.family() == before.family()
    &&& match r {
        Some(b) => {
            let next = (before.sequence() as int + 1) % 0x1_0000_0000;
            &&& !before.is_disabled()
            &&& after.sequence() == next
            &&& b == request(
                before.family(),
                TASKSTATS_CMD_GET,
                TASKSTATS_CMD_ATTR_PID,
                bytes32(tid as int),
                next as u32,
            )
        },
        None => before.is_disabled() && after == before,
    }
}

/// Whether `r` is what a reply tells, where a want of privilege ends the
/// conversation.
pub open spec fn takes_reply(
    before: Taskstats,
    after: Taskstats,
    reply: Result<Seq<u8>, i32>,
    r: Option<Delays>,
) -> bool {
    &&& after.family() == before.family()
    &&& after.sequence() == before.sequence()
    &&& r == if before.is_disabled() {
        None
    } else {
        match reply {
            Ok(b) => match answer(b) {
                Ok(d) => Some(d),
                Err(_) => None,
            },
            Err(_) => None,
        }
    }
    &&& after.is_disabled() == (before.is_disabled() || unprivileged(
        match reply {
            Ok(b) => match answer(b) {
                Ok(_) => 0,
                Err(e) => e,
            },
            Err(e) => e,
        },
    ))
}

impl Taskstats {
    /// Whether the kernel has refused for want of privilege.
    pub closed spec fn is_disabled(self) -> bool {
        self.disabled
    }

    /// The family's number.
    pub closed spec fn family(self) -> u16 {
        self.family
    }

    /// The number of the last request.
    pub closed spec fn sequence(self) -> u32 {
        self.seq
    }

    /// Begins the conversation on a bound socket, from the reply to
    /// `family_request`. `None` where either is missing or the family has no
    /// number: the caller then goes without.
    pub fn open(bound: bool, reply: Option<&[u8]>) -> (r: Option<Taskstats>)
        requires
            reply matches Some(b) ==> errno_fits(b@),
        ensures
            match r {
                Some(ts) => {
                    &&& bound
                    &&& reply is Some
                    &&& family_in(reply->0@) == Some(ts.family())
                    &&& ts.family() != 0
                    &&& !ts.is_disabled()
                    &&& ts.sequence() == 0
                },
                None => !bound || reply is None || family_in(reply->0@) is None || family_in(
                    reply->0@,
                ) == Some(0u16),
            },
    {
        if !bound {
            return None;
        }
        match reply {
            Some(b) => match family_id(b) {
                Some(id) => if id != 0 {
                    Some(Taskstats { disabled: false, family: id, seq: 0 })
                } else {
                    None
                },
                None => None,
            },
            None => None,
        }
    }

    /// The request for one thread's delays. A disabled conversation asks nothing.
    pub fn roundtrip(&mut self, tid: u32) -> (r: Option<Vec<u8>>)
        ensures
            asks_next(*old(self), *final(self), tid, bytes_view(r)),
    {
        if self.disabled {
            return None;
        }
        self.seq = self.seq.wrapping_add(1);
        let mut payload: Vec<u8> = Vec::new();
        push32(&mut payload, tid);
        assert(payload@ =~= bytes32(tid as int));
        Some(
            encode_request(
                self.family,
                TASKSTATS_CMD_GET,
                TASKSTATS_CMD_ATTR_PID,
                payload.as_slice(),
                self.seq,
            ),
        )
    }

    /// Takes the reply to a request, or the error that kept it from coming. A
    /// want of privilege holds for every thread, so it disables the conversation.
    pub fn query(&mut self, reply: Result<&[u8], i32>) -> (r: Option<Delays>)
        requires
            reply matches Ok(b) ==> errno_fits(b@),
        ensures
            takes_reply(*old(self), *final(self), reply_view(reply), r),
    {
        if self.disabled {
            return None;
        }
        let got: Result<Delays, i32> = match reply {
            Ok(b) => delays_from_reply(b),
            Err(e) => Err(e),
        };
        match got {
            Ok(d) => Some(d),
            Err(e) => {
                if e == 1 || e == 13 {
                    self.disabled = true;
                }
                None
            },
        }
    }
}

/// The error numbers of a want of privilege.
pub open spec fn unprivileged(errno: i32) -> bool {
    errno == 1 || errno == 13
}

/// Only version 15 has another layout; all other versions share one, and there
/// is no version 0.
pub proof fn only_version_15_differs(version: int)
    requires
        0 <= version,
    ensures
        version > 0 && version != 15 ==> offsets(version) == Some((40int, 56int)),
        offsets(15) == Some((56int, 88int)),
        offsets(0) is None,
{
}

/// The delays are the numbers at these places, the lowest byte first, and a
/// record that does not reach so far has none.
pub proof fn delays_stand_at_their_places(stats: Seq<u8>, version: int, at: (int, int))
    requires
        stats.len() >= 2,
        stats[0] + 256 * stats[1] == version,
        offsets(version) == Some(at),
    ensures
        at.1 + 8 <= stats.len() ==> delays_in(stats) is Some && delays_in(stats)->0.blkio_ns
            == number_at(stats, at.0) && delays_in(stats)->0.swapin_ns == number_at(stats, at.1),
        at.1 + 8 > stats.len() ==> delays_in(stats) is None,
{
}

/// The number of the eight bytes at a place, the lowest first.
pub open spec fn number_at(b: Seq<u8>, off: int) -> int {
    b[off] + 0x100 * (b[off + 1] + 0x100 * (b[off + 2] + 0x100 * (b[off + 3] + 0x100 * (b[off + 4]
        + 0x100 * (b[off + 5] + 0x100 * (b[off + 6] + 0x100 * b[off + 7]))))))
}

// ---------------------------------------------------------------------------
// What holds of replies

/// An attribute as it stands in a message: its length, its type, its data, and
/// zeros up to a multiple of four.
pub open spec fn attribute(ty: u16, data: Seq<u8>) -> Seq<u8> {
    bytes16(4 + data.len() as int) + bytes16(ty as int) + data + zeros(
        aligned(4 + data.len() as int) - 4 - data.len(),
    )
}

/// A message of this type with these attributes, and its whole length in front.
pub open spec fn message(ty: u16, rest: Seq<u8>, attrs: Seq<u8>) -> Seq<u8> {
    bytes32(HEADERS as int + attrs.len() as int) + bytes16(ty as int) + rest + attrs
}

proof fn lemma_attribute(ty: u16, data: Seq<u8>, rest: Seq<u8>)
    requires
        data.len() + 4 < 0x1_0000,
        ty < 0x4000,
    ensures
        ({
            let b = attribute(ty, data) + rest;
            &&& attr_at(b, 0)
            &&& attr_len(b, 0) == 4 + data.len()
            &&& attr_type(b, 0) == ty
            &&& attr_payload(b, 0) == data
            &&& attribute(ty, data).len() == aligned(4 + data.len() as int)
        }),
{
    let a = attribute(ty, data);
    let b = a + rest;
    let n = 4 + data.len() as int;
    assert(b[0] == bytes16(n)[0] && b[1] == bytes16(n)[1]);
    assert(b[2] == bytes16(ty as int)[0] && b[3] == bytes16(ty as int)[1]);
    assert(attr_payload(b, 0) =~= data);
}

proof fn lemma_stats_further(front: Seq<u8>, rest: Seq<u8>, off: int)
    requires
        0 <= off,
    ensures
        stats_from(front + rest, front.len() + off) == stats_from(rest, off),
    decreases rest.len() + 4 - off,
{
    let b = front + rest;
    let k = front.len() + off;
    assert(off + 4 <= rest.len() ==> b[k] == rest[off] && b[k + 1] == rest[off + 1] && b[k + 2]
        == rest[off + 2] && b[k + 3] == rest[off + 3]);
    if attr_at(rest, off) {
        assert(attr_payload(b, k) =~= attr_payload(rest, off));
        lemma_stats_further(front, rest, off + aligned(attr_len(rest, off)));
    }
}

proof fn lemma_attr_further(front: Seq<u8>, rest: Seq<u8>, off: int, ty: int, min: int)
    requires
        0 <= off,
    ensures
        attr_from(front + rest, front.len() + off, ty, min) == attr_from(rest, off, ty, min),
    decreases rest.len() + 4 - off,
{
    let b = front + rest;
    let k = front.len() + off;
    assert(off + 4 <= rest.len() ==> b[k] == rest[off] && b[k + 1] == rest[off + 1] && b[k + 2]
        == rest[off + 2] && b[k + 3] == rest[off + 3]);
    if attr_at(rest, off) {
        assert(attr_payload(b, k) =~= attr_payload(rest, off));
        lemma_attr_further(front, rest, off + aligned(attr_len(rest, off)), ty, min);
    }
}

/// Statistics are found by themselves and within the two attributes that group
/// them, whatever follows; other attributes before them are passed over.
pub proof fn statistics_are_found(data: Seq<u8>, other: u16, noise: Seq<u8>, rest: Seq<u8>)
    requires
        data.len() + 12 < 0x1_0000,
        noise.len() + 4 < 0x1_0000,
        other < 0x4000 && other != 3 && other != 4 && other != 5,
    ensures
        stats_from(attribute(3, data) + rest, 0) == Some(data),
        stats_from(attribute(4, attribute(3, data)) + rest, 0) == Some(data),
        stats_from(attribute(5, attribute(3, data)) + rest, 0) == Some(data),
        stats_from(attribute(other, noise) + rest, 0) == stats_from(rest, 0),
        stats_from(Seq::<u8>::empty(), 0) is None,
{
    let one = attribute(3, data);
    lemma_attribute(3, data, rest);
    lemma_attribute(3, data, Seq::<u8>::empty());
    assert(one + Seq::<u8>::empty() =~= one);
    assert(stats_from(one, 0) == Some(data));
    lemma_attribute(4, one, rest);
    lemma_attribute(5, one, rest);
    lemma_attribute(other, noise, rest);
    lemma_stats_further(attribute(other, noise), rest, 0);
}

/// A family's number is that of the attribute for it, whatever stands around it.
pub proof fn family_is_found(id: u16, other: u16, noise: Seq<u8>, rest: Seq<u8>)
    requires
        noise.len() + 4 < 0x1_0000,
        other < 0x4000 && other != 1,
    ensures
        attr_from(attribute(1, bytes16(id as int)) + rest, 0, CTRL_ATTR_FAMILY_ID as int, 2)
            == Some(bytes16(id as int)),
        attr_from(attribute(other, noise) + rest, 0, CTRL_ATTR_FAMILY_ID as int, 2) == attr_from(
            rest,
            0,
            CTRL_ATTR_FAMILY_ID as int,
            2,
        ),
{
    lemma_attribute(1, bytes16(id as int), rest);
    lemma_attribute(other, noise, rest);
    lemma_attr_further(attribute(other, noise), rest, 0, CTRL_ATTR_FAMILY_ID as int, 2);
}

/// A reply that is no error says what its attributes say: the delays of its
/// statistics, or the family's number.
pub proof fn replies_say_what_they_hold(ty: u16, rest: Seq<u8>, attrs: Seq<u8>, id: u16)
    requires
        ty != 2,
        rest.len() == 14,
        attrs.len() < 0x1_0000,
    ensures
        ({
            let b = message(ty, rest, attrs);
            &&& payload_of(b) == Some(attrs)
            &&& stats_from(attrs, 0) is Some && delays_in(stats_from(attrs, 0)->0) is Some ==> answer(
                b,
            ) == Ok::<Delays, i32>(delays_in(stats_from(attrs, 0)->0)->0)
            &&& stats_from(attrs, 0) is None ==> answer(b) == Err::<Delays, i32>(22)
            &&& attr_from(attrs, 0, 1, 2) == Some(bytes16(id as int)) ==> family_in(b) == Some(id)
            &&& attr_from(attrs, 0, 1, 2) is None ==> family_in(b) is None
        }),
{
    let b = message(ty, rest, attrs);
    let n = 20 + attrs.len() as int;
    assert(b.len() == n);
    assert(b[0] == bytes32(n)[0] && b[1] == bytes32(n)[1] && b[2] == bytes32(n)[2] && b[3]
        == bytes32(n)[3]);
    assert(le32(b, 0) == n);
    assert(b[4] == bytes16(ty as int)[0] && b[5] == bytes16(ty as int)[1]);
    assert(le16(b, 4) == ty);
    assert(b.subrange(20, n) =~= attrs);
    let x = bytes16(id as int);
    assert(le16(x, 0) == id);
}

/// An error number in a reply is given with its sign turned, whatever else the
/// reply holds.
pub proof fn errors_are_answered(b: Seq<u8>, errno: i32)
    requires
        b.len() >= 20,
        b[4] == 2 && b[5] == 0,
        errno > 0,
        b[16] + 0x100 * b[17] + 0x1_0000 * b[18] + 0x100_0000 * b[19] + errno == 0x1_0000_0000,
    ensures
        answer(b) == Err::<Delays, i32>(errno),
        family_in(b) is None,
        errno_of(b) == Some(errno),
{
}

/// Requests are numbered one after another, go to the family that was found, and
/// each is about the thread it is made for.
pub proof fn requests_are_numbered(a: Taskstats, b: Taskstats, tid: u32, r: Seq<u8>)
    requires
        asks_next(a, b, tid, Some(r)),
    ensures
        le32(r, 8) == b.sequence(),
        b.sequence() == (a.sequence() + 1) % 0x1_0000_0000,
        b.family() == a.family(),
        le16(r, 4) == a.family(),
        payload_of(r) matches Some(attrs) && attr_from(attrs, 0, 1, 4) == Some(bytes32(tid as int)),
        le32(bytes32(tid as int), 0) == tid,
{
    lemma_bytes32(tid as int);
    request_reads_back(
        a.family(),
        TASKSTATS_CMD_GET,
        TASKSTATS_CMD_ATTR_PID,
        bytes32(tid as int),
        b.sequence(),
    );
}

/// Where the kernel refuses for want of privilege, which are its errors 1 and 13,
/// nothing more is asked or told; after any other error the conversation goes on.
pub proof fn refusals_end_the_conversation(
    a: Taskstats,
    b: Taskstats,
    c: Taskstats,
    d: Taskstats,
    errno: i32,
    tid: u32,
    request: Option<Seq<u8>>,
    reply: Result<Seq<u8>, i32>,
    none: Option<Delays>,
    r: Option<Delays>,
)
    requires
        !a.is_disabled(),
        takes_reply(a, b, Err(errno), none),
        asks_next(b, c, tid, request),
        takes_reply(c, d, reply, r),
    ensures
        none is None,
        errno == 1 || errno == 13 ==> request is None && r is None && d.is_disabled(),
        errno != 1 && errno != 13 ==> request is Some && (reply matches Ok(m) ==> (r is Some
            <==> answer(m) is Ok)),
{
}

} // verus!

//! The header at the front of every test datagram: when it was sent and which
//! one it is. All numbers are big-endian.
//!
//! | bytes  | content                               |
//! |--------|---------------------------------------|
//! | 0..8   | whole seconds of the sending time     |
//! | 8..12  | nanoseconds beyond those seconds      |
//! | 12..16 | number of the datagram                |

use byteorder::{ByteOrder, BE};
use vstd::prelude::*;

use crate::timespan::TimeSpan;

verus! {

/// Length of the header in bytes.
pub const HEADER_LEN: usize = 16;

/// The number that `bytes` spell, most significant byte first.
pub open spec fn be_value(bytes: Seq<u8>) -> nat
    decreases bytes.len(),
{
    if bytes.len() == 0 {
        0
    } else {
        be_value(bytes.drop_last()) * 256 + bytes.last() as nat
    }
}

/// The `len` bytes that spell `n`, most significant byte first.
pub open spec fn be_bytes(n: nat, len: nat) -> Seq<u8>
    decreases len,
{
    if len == 0 {
        Seq::empty()
    } else {
        be_bytes(n / 256, (len - 1) as nat).push((n % 256) as u8)
    }
}

/// `256` to the power of `len`.
pub open spec fn be_bound(len: nat) -> nat
    decreases len,
{
    if len == 0 {
        1
    } else {
        256 * be_bound((len - 1) as nat)
    }
}

/// Reading the bytes of a number gives the number back, as long as it fits.
pub proof fn law_be_read_of_write(n: nat, len: nat)
    requires
        n < be_bound(len),
    ensures
        be_bytes(n, len).len() == len,
        be_value(be_bytes(n, len)) == n,
    decreases len,
{
    if len > 0 {
        law_be_read_of_write(n / 256, (len - 1) as nat);
        assert(be_bytes(n, len).drop_last() =~= be_bytes(n / 256, (len - 1) as nat));
    }
}

/// `byteorder::BigEndian::write_u64`: the first eight bytes of the buffer
/// become the big-endian bytes of `n`, the others stay.
#[verifier::external_body]
fn write_u64(buf: &mut [u8], n: u64)
    requires
        old(buf)@.len() >= 8,
    ensures
        final(buf)@ == be_bytes(n as nat, 8) + old(buf)@.skip(8),
{
    BE::write_u64(buf, n)
}

/// `byteorder::BigEndian::write_u32`: the first four bytes of the buffer
/// become the big-endian bytes of `n`, the others stay.
#[verifier::external_body]
fn write_u32(buf: &mut [u8], n: u32)
    requires
        old(buf)@.len() >= 4,
    ensures
        final(buf)@ == be_bytes(n as nat, 4) + old(buf)@.skip(4),
{
    BE::write_u32(buf, n)
}

/// `byteorder::BigEndian::read_u64`: the number that the first eight bytes of
/// the buffer spell in big-endian order.
#[verifier::external_body]
fn read_u64(buf: &[u8]) -> (n: u64)
    requires
        buf@.len() >= 8,
    ensures
        n == be_value(buf@.take(8)),
{
    BE::read_u64(buf)
}

/// `byteorder::BigEndian::read_u32`: the number that the first four bytes of
/// the buffer spell in big-endian order.
#[verifier::external_body]
fn read_u32(buf: &[u8]) -> (n: u32)
    requires
        buf@.len() >= 4,
    ensures
        n == be_value(buf@.take(4)),
{
    BE::read_u32(buf)
}

/// `datagram` with the sending time `at` in its first twelve bytes.
pub open spec fn stamped(datagram: Seq<u8>, at: TimeSpan) -> Seq<u8> {
    be_bytes(at.secs as nat, 8) + be_bytes(at.nanos as nat, 4) + datagram.skip(12)
}

/// `datagram` with the number `no` in bytes 12 to 16.
pub open spec fn numbered(datagram: Seq<u8>, no: u32) -> Seq<u8> {
    datagram.take(12) + be_bytes(no as nat, 4) + datagram.skip(16)
}

/// Writes the sending time `at` into the datagram.
pub fn stamp_datagram(datagram: &mut Vec<u8>, at: TimeSpan)
    requires
        old(datagram)@.len() >= 12,
    ensures
        final(datagram)@ == stamped(old(datagram)@, at),
        final(datagram)@.len() == old(datagram)@.len(),
{
    let ghost before = datagram@;
    proof {
        lemma_be_bytes_len(at.secs as nat, 8);
        lemma_be_bytes_len(at.nanos as nat, 4);
    }
    let (secs, rest) = datagram.as_mut_slice().split_at_mut(8);
    write_u64(secs, at.secs);
    write_u32(rest, at.nanos);
    assert(before.subrange(0, 8).skip(8) =~= Seq::<u8>::empty());
    assert(before.subrange(8, before.len() as int).skip(4) =~= before.skip(12));
    assert(datagram@ =~= stamped(before, at));
}

/// Writes the number `no` into the datagram.
pub fn number_datagram(datagram: &mut Vec<u8>, no: u32)
    requires
        old(datagram)@.len() >= HEADER_LEN,
    ensures
        final(datagram)@ == numbered(old(datagram)@, no),
        final(datagram)@.len() == old(datagram)@.len(),
{
    let ghost before = datagram@;
    proof {
        lemma_be_bytes_len(no as nat, 4);
    }
    let (_, rest) = datagram.as_mut_slice().split_at_mut(12);
    write_u32(rest, no);
    assert(before.subrange(12, before.len() as int).skip(4) =~= before.skip(16));
    assert(datagram@ =~= numbered(before, no));
}

proof fn lemma_be_bytes_len(n: nat, len: nat)
    ensures
        be_bytes(n, len).len() == len,
    decreases len,
{
    if len > 0 {
        lemma_be_bytes_len(n / 256, (len - 1) as nat);
    }
}

/// What the header of a datagram says, as it stands there: nothing keeps the
/// nanoseconds below one second.
#[derive(Clone, Copy, Debug, PartialEq, Eq, Structural)]
pub struct Header {
    pub secs: u64,
    pub nanos: u32,
    pub no: u32,
}

/// Sending time in the header of `datagram`, in nanoseconds.
pub open spec fn header_nanos(datagram: Seq<u8>) -> nat {
    be_value(datagram.subrange(0, 8)) * 1_000_000_000 + be_value(datagram.subrange(8, 12))
}

/// Number in the header of `datagram`.
pub open spec fn header_no(datagram: Seq<u8>) -> nat {
    be_value(datagram.subrange(12, 16))
}

/// Reads the header of a datagram.
pub fn read_header(datagram: &[u8]) -> (header: Header)
    requires
        datagram@.len() >= HEADER_LEN,
    ensures
        header.secs == be_value(datagram@.subrange(0, 8)),
        header.nanos == be_value(datagram@.subrange(8, 12)),
        header.no == be_value(datagram@.subrange(12, 16)),
{
    let (secs, rest) = datagram.split_at(8);
    let (nanos, rest2) = rest.split_at(4);
    assert(secs@.take(8) =~= datagram@.subrange(0, 8));
    assert(nanos@.take(4) =~= datagram@.subrange(8, 12));
    assert(rest2@.take(4) =~= datagram@.subrange(12, 16));
    Header { secs: read_u64(secs), nanos: read_u32(nanos), no: read_u32(rest2) }
}

/// What the header of a datagram says is what was written there: the sending
/// time and the number, whatever else the datagram holds.
pub proof fn law_header_read_of_write(datagram: Seq<u8>, at: TimeSpan, no: u32)
    requires
        datagram.len() >= HEADER_LEN,
    ensures
        numbered(stamped(datagram, at), no).len() == datagram.len(),
        be_value(numbered(stamped(datagram, at), no).subrange(0, 8)) == at.secs,
        be_value(numbered(stamped(datagram, at), no).subrange(8, 12)) == at.nanos,
        header_nanos(numbered(stamped(datagram, at), no)) == at.total_nanos(),
        header_no(numbered(stamped(datagram, at), no)) == no,
{
    reveal_with_fuel(be_bound, 9);
    assert(be_bound(4) == 0x1_0000_0000);
    assert(be_bound(8) == 0x1_0000_0000_0000_0000);
    law_be_read_of_write(at.secs as nat, 8);
    law_be_read_of_write(at.nanos as nat, 4);
    law_be_read_of_write(no as nat, 4);
    let written = numbered(stamped(datagram, at), no);
    assert(written.subrange(0, 8) =~= be_bytes(at.secs as nat, 8));
    assert(written.subrange(8, 12) =~= be_bytes(at.nanos as nat, 4));
    assert(written.subrange(12, 16) =~= be_bytes(no as nat, 4));
}

/// Stamping and numbering leave everything behind the header alone.
pub proof fn law_payload_untouched(datagram: Seq<u8>, at: TimeSpan, no: u32)
    requires
        datagram.len() >= HEADER_LEN,
    ensures
        numbered(stamped(datagram, at), no).skip(HEADER_LEN as int) == datagram.skip(
            HEADER_LEN as int,
        ),
{
    lemma_stamped(datagram, at);
    lemma_numbered(stamped(datagram, at), no);
}

pub(crate) proof fn lemma_stamped(datagram: Seq<u8>, at: TimeSpan)
    requires
        datagram.len() >= HEADER_LEN,
    ensures
        stamped(datagram, at).len() == datagram.len(),
        stamped(datagram, at).skip(16) == datagram.skip(16),
{
    lemma_be_bytes_len(at.secs as nat, 8);
    lemma_be_bytes_len(at.nanos as nat, 4);
    assert(stamped(datagram, at).skip(16) =~= datagram.skip(16));
}

pub(crate) proof fn lemma_numbered(datagram: Seq<u8>, no: u32)
    requires
        datagram.len() >= HEADER_LEN,
    ensures
        numbered(datagram, no).len() == datagram.len(),
        numbered(datagram, no).skip(16) == datagram.skip(16),
{
    lemma_be_bytes_len(no as nat, 4);
    assert(numbered(datagram, no).skip(16) =~= datagram.skip(16));
}

/// A new number takes the place of the old one.
pub(crate) proof fn lemma_numbered_again(datagram: Seq<u8>, first: u32, second: u32)
    requires
        datagram.len() >= HEADER_LEN,
    ensures
        numbered(numbered(datagram, first), second) == numbered(datagram, second),
{
    lemma_be_bytes_len(first as nat, 4);
    lemma_be_bytes_len(second as nat, 4);
    assert(numbered(numbered(datagram, first), second) =~= numbered(datagram, second));
}

/// Datagrams that differ in nothing but their headers are the same once they
/// are stamped and numbered alike.
pub(crate) proof fn lemma_same_payload(a: Seq<u8>, b: Seq<u8>, at: TimeSpan, no: u32)
    requires
        a.len() == b.len(),
        a.len() >= HEADER_LEN,
        a.skip(16) == b.skip(16),
    ensures
        numbered(stamped(a, at), no) == numbered(stamped(b, at), no),
{
    lemma_stamped(a, at);
    lemma_stamped(b, at);
    lemma_be_bytes_len(at.secs as nat, 8);
    lemma_be_bytes_len(at.nanos as nat, 4);
    lemma_be_bytes_len(no as nat, 4);
    assert(stamped(a, at).take(12) =~= stamped(b, at).take(12));
}

/// Four bytes spell the number that weighs each byte 256 times as much as the
/// one behind it.
pub proof fn law_four_bytes_are_big_endian(bytes: Seq<u8>)
    requires
        bytes.len() == 4,
    ensures
        be_value(bytes) == bytes[0] * 0x100_0000 + bytes[1] * 0x1_0000 + bytes[2] * 0x100
            + bytes[3],
{
    reveal_with_fuel(be_value, 5);
    let a = bytes.drop_last();
    let b = a.drop_last();
    let c = b.drop_last();
    assert(a.last() == bytes[2] && b.last() == bytes[1] && c.last() == bytes[0]);
    assert(c.drop_last().len() == 0);
}

/// Eight bytes spell two numbers of four, the front one weighing 2 to the power
/// of 32 times as much.
pub proof fn law_eight_bytes_are_big_endian(bytes: Seq<u8>)
    requires
        bytes.len() == 8,
    ensures
        be_value(bytes) == be_value(bytes.take(4)) * 0x1_0000_0000 + be_value(bytes.skip(4)),
{
    reveal_with_fuel(be_value, 5);
    let a = bytes.drop_last();
    let b = a.drop_last();
    let c = b.drop_last();
    let d = c.drop_last();
    assert(d =~= bytes.take(4));
    assert(a.last() == bytes[6] && b.last() == bytes[5] && c.last() == bytes[4]);
    law_four_bytes_are_big_endian(bytes.skip(4));
}

/// Writing the number that bytes spell gives the bytes back.
pub proof fn law_be_write_of_read(bytes: Seq<u8>)
    ensures
        be_value(bytes) < be_bound(bytes.len()),
        be_bytes(be_value(bytes), bytes.len()) == bytes,
    decreases bytes.len(),
{
    if bytes.len() > 0 {
        law_be_write_of_read(bytes.drop_last());
        assert(be_bytes(be_value(bytes), bytes.len()) =~= bytes);
    } else {
        assert(be_bytes(0, 0) =~= bytes);
    }
}

/// What the header of any datagram says, byte by byte.
pub proof fn law_header_byte_by_byte(d: Seq<u8>)
    requires
        d.len() >= 16,
    ensures
        header_no(d) == d[12] * 0x100_0000 + d[13] * 0x1_0000 + d[14] * 0x100 + d[15],
        header_nanos(d) == ((d[0] * 0x100_0000 + d[1] * 0x1_0000 + d[2] * 0x100 + d[3])
            * 0x1_0000_0000 + (d[4] * 0x100_0000 + d[5] * 0x1_0000 + d[6] * 0x100 + d[7]))
            * 1_000_000_000 + (d[8] * 0x100_0000 + d[9] * 0x1_0000 + d[10] * 0x100 + d[11]),
{
    let secs = d.subrange(0, 8);
    law_four_bytes_are_big_endian(d.subrange(12, 16));
    law_four_bytes_are_big_endian(d.subrange(8, 12));
    law_eight_bytes_are_big_endian(secs);
    law_four_bytes_are_big_endian(secs.take(4));
    law_four_bytes_are_big_endian(secs.skip(4));
}

/// Stamping touches the first twelve bytes and nothing else, numbering the next
/// four and nothing else.
pub proof fn law_stamp_and_number_keep_apart(datagram: Seq<u8>, at: TimeSpan, no: u32)
    ensures
        datagram.len() >= 12 ==> {
            &&& stamped(datagram, at).len() == datagram.len()
            &&& be_value(stamped(datagram, at).take(8)) == at.secs
            &&& be_value(stamped(datagram, at).subrange(8, 12)) == at.nanos
            &&& stamped(datagram, at).skip(12) == datagram.skip(12)
        },
        datagram.len() >= 16 ==> {
            &&& numbered(datagram, no).len() == datagram.len()
            &&& numbered(datagram, no).take(12) == datagram.take(12)
            &&& be_value(numbered(datagram, no).subrange(12, 16)) == no
            &&& numbered(datagram, no).skip(16) == datagram.skip(16)
        },
{
    reveal_with_fuel(be_bound, 9);
    assert(be_bound(4) == 0x1_0000_0000);
    assert(be_bound(8) == 0x1_0000_0000_0000_0000);
    law_be_read_of_write(at.secs as nat, 8);
    law_be_read_of_write(at.nanos as nat, 4);
    law_be_read_of_write(no as nat, 4);
    if datagram.len() >= 12 {
        let s = stamped(datagram, at);
        assert(s.take(8) =~= be_bytes(at.secs as nat, 8));
        assert(s.subrange(8, 12) =~= be_bytes(at.nanos as nat, 4));
        assert(s.skip(12) =~= datagram.skip(12));
    }
    if datagram.len() >= 16 {
        let s = numbered(datagram, no);
        assert(s.take(12) =~= datagram.take(12));
        assert(s.subrange(12, 16) =~= be_bytes(no as nat, 4));
        assert(s.skip(16) =~= datagram.skip(16));
    }
}

} // verus!

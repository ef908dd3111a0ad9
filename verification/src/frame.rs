use vstd::prelude::*;

use crate::error::BleError;

verus! {

/// Second marker byte of a frame sent by the host (`08 ee` on the wire).
pub const START_OF_PACKET_HOST: u8 = 0xee;
/// Second marker byte of a frame sent by the device (`09 ff` on the wire).
pub const START_OF_PACKET_DEVICE: u8 = 0xff;
/// Direction byte of a host frame.
pub const DIRECTION_HOST: u8 = 0x00;
/// Direction byte of a device frame.
pub const DIRECTION_DEVICE: u8 = 0x01;
/// Frame header: marker (2) + `00 00` (2) + direction (1) + command (2) + length (2).
pub const HEADER_LENGTH: usize = 9;

/// One Soundcore v1 frame received from the device.
#[derive(Clone, Debug)]
pub struct Frame {
    pub command: u16,
    pub payload: Vec<u8>,
}

impl View for Frame {
    type V = (u16, Seq<u8>);

    open spec fn view(&self) -> (u16, Seq<u8>) {
        (self.command, self.payload@)
    }
}

/// The view of an optional frame.
pub open spec fn frame_option_view(f: Option<Frame>) -> Option<(u16, Seq<u8>)> {
    match f {
        Some(frame) => Some(frame@),
        None => None,
    }
}

/// Sum of all bytes of `s`.
pub open spec fn byte_sum(s: Seq<u8>) -> nat
    decreases s.len(),
{
    if s.len() == 0 {
        0
    } else {
        byte_sum(s.drop_last()) + s.last() as nat
    }
}

/// The one-byte checksum of the protocol: the sum of the bytes, modulo 256.
pub open spec fn checksum(s: Seq<u8>) -> u8 {
    (byte_sum(s) % 256) as u8
}

/// A 16-bit value in little-endian byte order.
pub open spec fn le16(v: u16) -> Seq<u8> {
    seq![(v % 256) as u8, (v / 256) as u8]
}

/// The 16-bit little-endian value of two bytes.
pub open spec fn read_le16(lo: u8, hi: u8) -> int {
    lo + 256 * hi
}

/// The value of the length field of a frame that carries `payload_len` bytes:
/// header, payload and checksum, truncated to 16 bits.
pub open spec fn frame_length_field(payload_len: nat) -> u16 {
    ((payload_len + HEADER_LENGTH + 1) % 65536) as u16
}

/// A frame without its checksum byte, from its two marker bytes and direction.
pub open spec fn frame_body(m0: u8, m1: u8, direction: u8, command: u16, payload: Seq<u8>) -> Seq<u8> {
    seq![m0, m1, 0x00u8, 0x00u8, direction] + le16(command) + le16(frame_length_field(payload.len()))
        + payload
}

/// A complete frame: body followed by its checksum.
pub open spec fn sealed(body: Seq<u8>) -> Seq<u8> {
    body.push(checksum(body))
}

/// The bytes the host sends for `command` with `payload`.
pub open spec fn spec_host_frame(command: u16, payload: Seq<u8>) -> Seq<u8> {
    sealed(frame_body(0x08, START_OF_PACKET_HOST, DIRECTION_HOST, command, payload))
}

/// The bytes the device sends for `command` with `payload`.
pub open spec fn spec_device_frame(command: u16, payload: Seq<u8>) -> Seq<u8> {
    sealed(frame_body(0x09, START_OF_PACKET_DEVICE, DIRECTION_DEVICE, command, payload))
}

/// Whether `buf` starts with the header bytes of a device frame: `09 ff 00 00 01`.
pub open spec fn has_device_header(buf: Seq<u8>) -> bool {
    &&& buf[0] == 0x09
    &&& buf[1] == START_OF_PACKET_DEVICE
    &&& buf[2] == 0x00
    &&& buf[3] == 0x00
    &&& buf[4] == DIRECTION_DEVICE
}

/// The length field of the frame at the start of `buf`.
pub open spec fn length_at(buf: Seq<u8>) -> int {
    read_le16(buf[7], buf[8])
}

/// What extracting one frame from the receive buffer `buf` yields: the frame,
/// if a complete one with a correct checksum is found, and the bytes left in
/// the buffer. Bytes before a valid header are dropped one at a time; a frame
/// whose checksum is wrong is dropped whole.
pub open spec fn spec_take_frame(buf: Seq<u8>) -> (Option<(u16, Seq<u8>)>, Seq<u8>)
    decreases buf.len(),
{
    if buf.len() < HEADER_LENGTH {
        (None, buf)
    } else if !has_device_header(buf) || length_at(buf) < HEADER_LENGTH + 1 {
        spec_take_frame(buf.drop_first())
    } else if buf.len() < length_at(buf) {
        (None, buf)
    } else {
        let len = length_at(buf);
        if checksum(buf.take(len - 1)) != buf[len - 1] {
            spec_take_frame(buf.skip(len))
        } else {
            (
                Some(((read_le16(buf[5], buf[6])) as u16, buf.subrange(HEADER_LENGTH as int, len - 1))),
                buf.skip(len),
            )
        }
    }
}

/// Reading back a written frame: a frame the device sends for `command` and
/// `payload`, followed by any further bytes, is extracted whole with exactly
/// that command and payload, and the further bytes stay in the buffer.
pub proof fn lemma_device_frame_roundtrip(command: u16, payload: Seq<u8>, rest: Seq<u8>)
    requires
        payload.len() + HEADER_LENGTH + 1 <= 65535,
    ensures
        spec_take_frame(spec_device_frame(command, payload) + rest) == (
            Some((command, payload)),
            rest,
        ),
{
    let body = frame_body(0x09, START_OF_PACKET_DEVICE, DIRECTION_DEVICE, command, payload);
    let f = spec_device_frame(command, payload);
    let buf = f + rest;
    let len = payload.len() + HEADER_LENGTH + 1;
    assert(frame_length_field(payload.len()) == len);
    assert(body.len() == len - 1);
    assert(buf[0] == 0x09 && buf[1] == START_OF_PACKET_DEVICE && buf[2] == 0x00 && buf[3] == 0x00
        && buf[4] == DIRECTION_DEVICE);
    assert(buf[7] == (len % 256) as u8 && buf[8] == (len / 256) as u8);
    assert(length_at(buf) == len);
    assert(buf.take(len - 1) =~= body);
    assert(buf[len - 1] == checksum(body));
    assert(read_le16(buf[5], buf[6]) == command as int);
    assert(buf.subrange(HEADER_LENGTH as int, len - 1) =~= payload);
    assert(buf.skip(len) =~= rest);
}

/// Well-formedness of host frames: the checksum byte is the sum of all
/// earlier bytes modulo 256, the command field reads back as the command, the
/// payload sits between header and checksum, and the length field reads back
/// as the frame's total length whenever that length fits in 16 bits.
pub proof fn lemma_host_frame_well_formed(command: u16, payload: Seq<u8>)
    ensures
        ({
            let f = spec_host_frame(command, payload);
            &&& f.len() == payload.len() + HEADER_LENGTH + 1
            &&& f[0] == 0x08 && f[1] == START_OF_PACKET_HOST && f[4] == DIRECTION_HOST
            &&& checksum(f.drop_last()) == f.last()
            &&& read_le16(f[5], f[6]) == command as int
            &&& f.subrange(HEADER_LENGTH as int, f.len() - 1) == payload
            &&& (f.len() <= 65535 ==> read_le16(f[7], f[8]) == f.len())
        }),
{
    let f = spec_host_frame(command, payload);
    let body = frame_body(0x08, START_OF_PACKET_HOST, DIRECTION_HOST, command, payload);
    assert(f.drop_last() =~= body);
    assert(f.subrange(HEADER_LENGTH as int, f.len() - 1) =~= payload);
}

/// Extraction only ever removes a prefix of the buffer, and it removes at
/// least the frame's bytes when it yields a frame.
pub proof fn lemma_take_frame_leaves_suffix(buf: Seq<u8>)
    ensures
        ({
            let (found, rest) = spec_take_frame(buf);
            &&& rest.len() <= buf.len()
            &&& rest == buf.skip(buf.len() - rest.len())
            &&& (found is Some ==> rest.len() + HEADER_LENGTH + 1 <= buf.len())
        }),
    decreases buf.len(),
{
    if buf.len() < HEADER_LENGTH {
        assert(buf.skip(0) =~= buf);
    } else if !has_device_header(buf) || length_at(buf) < HEADER_LENGTH + 1 {
        lemma_take_frame_leaves_suffix(buf.drop_first());
        let rest = spec_take_frame(buf.drop_first()).1;
        assert(buf.drop_first().skip(buf.drop_first().len() - rest.len()) =~= buf.skip(buf.len() - rest.len()));
    } else if buf.len() < length_at(buf) {
        assert(buf.skip(0) =~= buf);
    } else {
        let len = length_at(buf);
        if checksum(buf.take(len - 1)) != buf[len - 1] {
            lemma_take_frame_leaves_suffix(buf.skip(len));
            let rest = spec_take_frame(buf.skip(len)).1;
            assert(buf.skip(len).skip(buf.skip(len).len() - rest.len()) =~= buf.skip(buf.len() - rest.len()));
        }
    }
}

/// Resynchronisation: bytes that cannot start a device frame (none of them
/// is 0x09) are passed over, and the device frame after them is extracted
/// whole, with the bytes after it left in the buffer.
pub proof fn lemma_take_frame_skips_noise(noise: Seq<u8>, command: u16, payload: Seq<u8>, rest: Seq<u8>)
    requires
        forall|i: int| 0 <= i < noise.len() ==> #[trigger] noise[i] != 0x09,
        payload.len() + HEADER_LENGTH + 1 <= 65535,
    ensures
        spec_take_frame(noise + spec_device_frame(command, payload) + rest) == (Some((command, payload)), rest),
    decreases noise.len(),
{
    let f = spec_device_frame(command, payload);
    if noise.len() == 0 {
        assert(noise + f + rest =~= f + rest);
        lemma_device_frame_roundtrip(command, payload, rest);
    } else {
        let buf = noise + f + rest;
        let tail = noise.drop_first();
        assert(buf[0] == noise[0]);
        assert(buf.len() >= HEADER_LENGTH);
        assert(!has_device_header(buf));
        assert(buf.drop_first() =~= tail + f + rest);
        assert forall|i: int| 0 <= i < tail.len() implies #[trigger] tail[i] != 0x09 by {
            assert(tail[i] == noise[i + 1]);
        }
        lemma_take_frame_skips_noise(tail, command, payload, rest);
    }
}

/// A frame whose checksum byte is wrong is dropped whole, and the frame
/// after it is extracted.
pub proof fn lemma_take_frame_drops_corrupt_frame(
    command: u16,
    payload: Seq<u8>,
    bad: u8,
    next_command: u16,
    next_payload: Seq<u8>,
    rest: Seq<u8>,
)
    requires
        payload.len() + HEADER_LENGTH + 1 <= 65535,
        next_payload.len() + HEADER_LENGTH + 1 <= 65535,
        bad != checksum(frame_body(0x09, START_OF_PACKET_DEVICE, DIRECTION_DEVICE, command, payload)),
    ensures
        spec_take_frame(
            frame_body(0x09, START_OF_PACKET_DEVICE, DIRECTION_DEVICE, command, payload).push(bad)
                + spec_device_frame(next_command, next_payload) + rest,
        ) == (Some((next_command, next_payload)), rest),
{
    let body = frame_body(0x09, START_OF_PACKET_DEVICE, DIRECTION_DEVICE, command, payload);
    let after = spec_device_frame(next_command, next_payload) + rest;
    let buf = body.push(bad) + after;
    let len = payload.len() + HEADER_LENGTH + 1;
    assert(frame_length_field(payload.len()) == len);
    assert(body.len() == len - 1);
    assert(buf[0] == 0x09 && buf[1] == START_OF_PACKET_DEVICE && buf[2] == 0x00 && buf[3] == 0x00
        && buf[4] == DIRECTION_DEVICE);
    assert(buf[7] == (len % 256) as u8 && buf[8] == (len / 256) as u8);
    assert(length_at(buf) == len);
    assert(buf.take(len - 1) =~= body);
    assert(buf[len - 1] == bad);
    assert(buf.skip(len) =~= after);
    lemma_device_frame_roundtrip(next_command, next_payload, rest);
    assert(body.push(bad) + spec_device_frame(next_command, next_payload) + rest =~= buf);
    assert(spec_take_frame(buf) == spec_take_frame(buf.skip(len)));
}

/// Only intact device frames are extracted: a frame found in the buffer
/// stands in it, at some position, as exactly the bytes the device sends for
/// that command and payload (header, length, payload and a correct
/// checksum), and what is left is everything after it.
pub proof fn lemma_take_frame_finds_device_frame(buf: Seq<u8>)
    ensures
        spec_take_frame(buf).0 matches Some(f) ==> exists|k: int|
            0 <= k <= buf.len() && #[trigger] buf.skip(k) == spec_device_frame(f.0, f.1) + spec_take_frame(buf).1,
    decreases buf.len(),
{
    if buf.len() < HEADER_LENGTH {
    } else if !has_device_header(buf) || length_at(buf) < HEADER_LENGTH + 1 {
        let tail = buf.drop_first();
        lemma_take_frame_finds_device_frame(tail);
        if let Some(f) = spec_take_frame(tail).0 {
            let k = choose|k: int|
                0 <= k <= tail.len() && #[trigger] tail.skip(k) == spec_device_frame(f.0, f.1) + spec_take_frame(tail).1;
            assert(buf.skip(k + 1) =~= tail.skip(k));
        }
    } else if buf.len() < length_at(buf) {
    } else {
        let len = length_at(buf);
        if checksum(buf.take(len - 1)) != buf[len - 1] {
            let tail = buf.skip(len);
            lemma_take_frame_finds_device_frame(tail);
            if let Some(f) = spec_take_frame(tail).0 {
                let k = choose|k: int|
                    0 <= k <= tail.len() && #[trigger] tail.skip(k) == spec_device_frame(f.0, f.1) + spec_take_frame(
                        tail,
                    ).1;
                assert(buf.skip(k + len) =~= tail.skip(k));
            }
        } else {
            let c = read_le16(buf[5], buf[6]) as u16;
            let payload = buf.subrange(HEADER_LENGTH as int, len - 1);
            assert(c as int == buf[5] as int + 256 * buf[6] as int);
            assert(c % 256 == buf[5] && c / 256 == buf[6]);
            assert(len <= 65535);
            assert(frame_length_field(payload.len()) == len);
            let lf = frame_length_field(payload.len());
            assert(lf % 256 == buf[7] && lf / 256 == buf[8]);
            let body = frame_body(0x09, START_OF_PACKET_DEVICE, DIRECTION_DEVICE, c, payload);
            assert(body =~= buf.take(len - 1));
            assert(buf.skip(0) =~= sealed(body) + buf.skip(len));
        }
    }
}

proof fn lemma_checksum_step(s: Seq<u8>, i: int)
    requires
        0 <= i < s.len(),
    ensures
        checksum(s.take(i + 1)) as int == (checksum(s.take(i)) as int + s[i] as int) % 256,
{
    assert(s.take(i + 1).drop_last() =~= s.take(i));
    let a = byte_sum(s.take(i));
    let b = s[i] as nat;
    assert(byte_sum(s.take(i + 1)) == a + b);
    assert(((a % 256) + b) % 256 == (a + b) % 256) by (nonlinear_arith);
}

/// Sum of `s` modulo 256, computed byte by byte.
fn checksum_of(s: &Vec<u8>, n: usize) -> (sum: u8)
    requires
        n <= s@.len(),
    ensures
        sum == checksum(s@.take(n as int)),
{
    let mut sum: u8 = 0;
    let mut i: usize = 0;
    assert(s@.take(0) =~= Seq::<u8>::empty());
    while i < n
        invariant
            i <= n <= s@.len(),
            sum == checksum(s@.take(i as int)),
        decreases n - i,
    {
        proof {
            lemma_checksum_step(s@, i as int);
        }
        sum = ((sum as u16 + s[i] as u16) % 256) as u8;
        i = i + 1;
    }
    sum
}

impl Frame {
    /// Builds the frame the host sends for `command` with `payload`.
    pub fn host_frame(command: u16, payload: &[u8]) -> (bytes: Vec<u8>)
        ensures
            bytes@ == spec_host_frame(command, payload@),
    {
        let mut bytes: Vec<u8> = Vec::new();
        bytes.push(0x08);
        bytes.push(START_OF_PACKET_HOST);
        bytes.push(0x00);
        bytes.push(0x00);
        bytes.push(DIRECTION_HOST);
        bytes.push((command % 256) as u8);
        bytes.push((command / 256) as u8);
        let length: u16 = ((payload.len() % 65536 + HEADER_LENGTH + 1) % 65536) as u16;
        assert(length == frame_length_field(payload@.len())) by {
            let n = payload@.len();
            assert((n % 65536 + 10) % 65536 == (n + 10) % 65536) by (nonlinear_arith);
        }
        bytes.push((length % 256) as u8);
        bytes.push((length / 256) as u8);
        let ghost header = bytes@;
        assert(header =~= seq![0x08u8, START_OF_PACKET_HOST, 0x00u8, 0x00u8, DIRECTION_HOST] + le16(command)
            + le16(frame_length_field(payload@.len())));
        let mut i: usize = 0;
        while i < payload.len()
            invariant
                i <= payload@.len(),
                bytes@ == header + payload@.take(i as int),
            decreases payload@.len() - i,
        {
            bytes.push(payload[i]);
            i = i + 1;
            assert(bytes@ =~= header + payload@.take(i as int));
        }
        assert(payload@.take(payload@.len() as int) =~= payload@);
        let body_len = bytes.len();
        let sum = checksum_of(&bytes, body_len);
        assert(bytes@.take(body_len as int) =~= bytes@);
        assert(bytes@ =~= frame_body(0x08, START_OF_PACKET_HOST, DIRECTION_HOST, command, payload@));
        bytes.push(sum);
        bytes
    }

    /// Extracts the next complete frame from the receive buffer. Bytes that
    /// cannot start a device frame are dropped one at a time; a frame with a
    /// wrong checksum is dropped whole. Returns `None` when the buffer holds
    /// no complete frame yet.
    pub fn take_frame(buffer: &mut Vec<u8>) -> (r: Result<Option<Frame>, BleError>)
        ensures
            match r {
                Ok(found) => frame_option_view(found) == spec_take_frame(old(buffer)@).0,
                Err(_) => false,
            },
            final(buffer)@ == spec_take_frame(old(buffer)@).1,
            r matches Ok(Some(f)) ==> exists|k: int|
                0 <= k <= old(buffer)@.len() && #[trigger] old(buffer)@.skip(k) == spec_device_frame(
                    f.command,
                    f.payload@,
                ) + final(buffer)@,
    {
        loop
            invariant
                spec_take_frame(buffer@) == spec_take_frame(old(buffer)@),
            decreases buffer@.len(),
        {
            if buffer.len() < HEADER_LENGTH {
                return Ok(None);
            }
            let ghost start = buffer@;
            if buffer[0] != 0x09 || buffer[1] != START_OF_PACKET_DEVICE || buffer[2] != 0x00
                || buffer[3] != 0x00 || buffer[4] != DIRECTION_DEVICE {
                // Lost alignment: drop one byte.
                buffer.remove(0);
                assert(buffer@ =~= start.drop_first());
                continue;
            }
            let command: u16 = buffer[5] as u16 + (buffer[6] as u16) * 256;
            let length: usize = buffer[7] as usize + (buffer[8] as usize) * 256;
            assert(length == length_at(start));
            if length < HEADER_LENGTH + 1 {
                buffer.remove(0);
                assert(buffer@ =~= start.drop_first());
                continue;
            }
            if buffer.len() < length {
                return Ok(None);
            }
            let sum = checksum_of(buffer, length - 1);
            let last = buffer[length - 1];
            let mut frame_bytes = buffer.split_off(length);
            std::mem::swap(buffer, &mut frame_bytes);
            assert(buffer@ =~= start.skip(length as int));
            if sum != last {
                continue;
            }
            frame_bytes.truncate(length - 1);
            let payload = frame_bytes.split_off(HEADER_LENGTH);
            assert(payload@ =~= start.subrange(HEADER_LENGTH as int, length - 1));
            proof {
                lemma_take_frame_finds_device_frame(old(buffer)@);
            }
            return Ok(Some(Frame { command, payload }));
        }
    }
}

/// The frames extracted, one after another, from a receive buffer `buf`, the
/// bytes left over, and whether extraction stopped at a frame whose command is
/// `stop_at`.
pub open spec fn spec_drain(buf: Seq<u8>, stop_at: Option<u16>) -> (Seq<(u16, Seq<u8>)>, Seq<u8>, bool)
    decreases buf.len(),
{
    match spec_take_frame(buf).0 {
        None => (Seq::empty(), spec_take_frame(buf).1, false),
        Some(f) => {
            proof {
                lemma_take_frame_leaves_suffix(buf);
            }
            if stop_at == Some(f.0) {
                (seq![f], spec_take_frame(buf).1, true)
            } else {
                let next = spec_drain(spec_take_frame(buf).1, stop_at);
                (seq![f] + next.0, next.1, next.2)
            }
        },
    }
}

proof fn lemma_take_frame_extend(x: Seq<u8>, y: Seq<u8>)
    ensures
        spec_take_frame(x).0 is None ==> spec_take_frame(x + y) == spec_take_frame(spec_take_frame(x).1 + y),
        spec_take_frame(x).0 is Some ==> spec_take_frame(x + y) == (
            spec_take_frame(x).0,
            spec_take_frame(x).1 + y,
        ),
    decreases x.len(),
{
    let xy = x + y;
    if x.len() < HEADER_LENGTH {
    } else {
        assert(xy[0] == x[0] && xy[1] == x[1] && xy[2] == x[2] && xy[3] == x[3] && xy[4] == x[4]);
        assert(xy[5] == x[5] && xy[6] == x[6] && xy[7] == x[7] && xy[8] == x[8]);
        if !has_device_header(x) || length_at(x) < HEADER_LENGTH + 1 {
            assert(xy.drop_first() =~= x.drop_first() + y);
            lemma_take_frame_extend(x.drop_first(), y);
        } else if x.len() < length_at(x) {
        } else {
            let len = length_at(x);
            assert(xy.take(len - 1) =~= x.take(len - 1));
            assert(xy[len - 1] == x[len - 1]);
            assert(xy.skip(len) =~= x.skip(len) + y);
            assert(xy.subrange(HEADER_LENGTH as int, len - 1) =~= x.subrange(HEADER_LENGTH as int, len - 1));
            if checksum(x.take(len - 1)) != x[len - 1] {
                lemma_take_frame_extend(x.skip(len), y);
            }
        }
    }
}

/// Chunking does not matter: extracting frames from `x`, then from what is
/// left of it followed by `y`, gives the same frames, leftover bytes and
/// stop as extracting them from `x + y` at once, whenever the first
/// extraction did not stop.
pub proof fn lemma_drain_chunks(x: Seq<u8>, y: Seq<u8>, stop_at: Option<u16>)
    requires
        !spec_drain(x, stop_at).2,
    ensures
        ({
            let first = spec_drain(x, stop_at);
            let second = spec_drain(first.1 + y, stop_at);
            spec_drain(x + y, stop_at) == (first.0 + second.0, second.1, second.2)
        }),
    decreases x.len(),
{
    lemma_take_frame_extend(x, y);
    lemma_take_frame_leaves_suffix(x);
    let (found, rest) = spec_take_frame(x);
    match found {
        None => {
            assert(spec_drain(x, stop_at).0 =~= Seq::<(u16, Seq<u8>)>::empty());
            assert(spec_drain(x, stop_at).1 == rest);
            assert(spec_drain(x + y, stop_at) == spec_drain(rest + y, stop_at));
            assert(Seq::<(u16, Seq<u8>)>::empty() + spec_drain(rest + y, stop_at).0 =~= spec_drain(rest + y, stop_at).0);
        },
        Some(f) => {
            lemma_drain_chunks(rest, y, stop_at);
            let inner = spec_drain(rest, stop_at);
            let second = spec_drain(inner.1 + y, stop_at);
            assert(spec_drain(x, stop_at) == (seq![f] + inner.0, inner.1, inner.2));
            lemma_take_frame_leaves_suffix(x + y);
            assert(spec_drain(x + y, stop_at) == (seq![f] + spec_drain(rest + y, stop_at).0, spec_drain(
                rest + y,
                stop_at,
            ).1, spec_drain(rest + y, stop_at).2));
            assert(seq![f] + (inner.0 + second.0) =~= (seq![f] + inner.0) + second.0);
        },
    }
}

/// When no frame is found, what is left holds none either.
proof fn lemma_take_frame_none_stable(buf: Seq<u8>)
    ensures
        spec_take_frame(buf).0 is None ==> spec_take_frame(spec_take_frame(buf).1) == (
            None::<(u16, Seq<u8>)>,
            spec_take_frame(buf).1,
        ),
    decreases buf.len(),
{
    if buf.len() < HEADER_LENGTH {
    } else if !has_device_header(buf) || length_at(buf) < HEADER_LENGTH + 1 {
        lemma_take_frame_none_stable(buf.drop_first());
    } else if buf.len() < length_at(buf) {
    } else {
        let len = length_at(buf);
        if checksum(buf.take(len - 1)) != buf[len - 1] {
            lemma_take_frame_none_stable(buf.skip(len));
        }
    }
}

/// Extraction stops exactly at the first frame whose command is `stop_at`,
/// whatever that frame carries: when it stops, the last frame extracted is
/// the first one with that command; when it does not, no extracted frame has
/// that command and no complete frame is left in the buffer.
pub proof fn lemma_drain_stops_at_first_match(buf: Seq<u8>, stop_at: Option<u16>)
    ensures
        ({
            let (found, rest, stopped) = spec_drain(buf, stop_at);
            &&& stopped ==> found.len() > 0 && stop_at == Some(found.last().0)
            &&& stopped ==> forall|i: int| 0 <= i < found.len() - 1 ==> stop_at != Some(#[trigger] found[i].0)
            &&& !stopped ==> forall|i: int| 0 <= i < found.len() ==> stop_at != Some(#[trigger] found[i].0)
            &&& !stopped ==> spec_take_frame(rest).0 is None
        }),
    decreases buf.len(),
{
    lemma_take_frame_leaves_suffix(buf);
    let (first, after) = spec_take_frame(buf);
    match first {
        None => {
            lemma_take_frame_none_stable(buf);
        },
        Some(f) => {
            if stop_at != Some(f.0) {
                lemma_drain_stops_at_first_match(after, stop_at);
                let next = spec_drain(after, stop_at);
                let found = seq![f] + next.0;
                assert(spec_drain(buf, stop_at).0 == found);
                assert forall|i: int| 0 < i < found.len() implies found[i] == next.0[i - 1] by {}
                assert(found[0] == f);
                if next.2 {
                    assert(found.last() == next.0.last());
                }
            }
        },
    }
}

/// The views of a sequence of frames.
pub open spec fn frames_view(frames: Seq<Frame>) -> Seq<(u16, Seq<u8>)> {
    frames.map_values(|f: Frame| f@)
}

/// What a reader's frames show after extraction from `buf` was appended to
/// `before`: the new frames end at the first one whose command is `stop_at`
/// when extraction stopped, and hold none with that command otherwise.
proof fn lemma_new_frames_stop(before: Seq<Frame>, after: Seq<Frame>, buf: Seq<u8>, stop_at: Option<u16>)
    requires
        frames_view(after) == frames_view(before) + spec_drain(buf, stop_at).0,
    ensures
        after.len() >= before.len(),
        spec_drain(buf, stop_at).2 ==> after.len() > before.len() && stop_at == Some(after.last().command),
        spec_drain(buf, stop_at).2 ==> forall|i: int|
            before.len() <= i < after.len() - 1 ==> stop_at != Some(#[trigger] after[i].command),
        !spec_drain(buf, stop_at).2 ==> forall|i: int|
            before.len() <= i < after.len() ==> stop_at != Some(#[trigger] after[i].command),
{
    lemma_drain_stops_at_first_match(buf, stop_at);
    let found = spec_drain(buf, stop_at).0;
    let n = before.len();
    assert(frames_view(after).len() == after.len());
    assert(frames_view(before).len() == n);
    assert forall|i: int| n <= i < after.len() implies after[i].command == found[i - n].0 by {
        assert(frames_view(after)[i] == after[i]@);
        assert(frames_view(after)[i] == found[i - n]);
    }
    if spec_drain(buf, stop_at).2 {
        assert(after.last().command == found[found.len() - 1].0);
    }
}

/// Receive state of an RFCOMM read: bytes not yet framed and frames collected.
pub struct FrameReader {
    pub buffer: Vec<u8>,
    pub frames: Vec<Frame>,
}

impl FrameReader {
    /// An empty reader.
    pub fn new() -> (r: FrameReader)
        ensures
            r.buffer@.len() == 0,
            r.frames@.len() == 0,
    {
        FrameReader { buffer: Vec::new(), frames: Vec::new() }
    }

    /// Appends a received chunk and extracts every complete frame from the
    /// buffer. Stops right after a frame whose command is `stop_at` and then
    /// returns `true`; returns `false` when no more complete frame is
    /// buffered.
    pub fn feed(&mut self, chunk: &[u8], stop_at: Option<u16>) -> (done: bool)
        ensures
            ({
                let (found, rest, stopped) = spec_drain(old(self).buffer@ + chunk@, stop_at);
                &&& frames_view(final(self).frames@) == frames_view(old(self).frames@) + found
                &&& final(self).buffer@ == rest
                &&& done == stopped
            }),
            final(self).frames@.len() >= old(self).frames@.len(),
            done ==> final(self).frames@.len() > old(self).frames@.len() && stop_at == Some(
                final(self).frames@.last().command,
            ),
            done ==> forall|i: int|
                old(self).frames@.len() <= i < final(self).frames@.len() - 1 ==> stop_at != Some(
                    #[trigger] final(self).frames@[i].command,
                ),
            !done ==> forall|i: int|
                old(self).frames@.len() <= i < final(self).frames@.len() ==> stop_at != Some(
                    #[trigger] final(self).frames@[i].command,
                ),
            !done ==> spec_take_frame(final(self).buffer@).0 is None,
    {
        let ghost start = self.buffer@ + chunk@;
        let ghost old_frames = frames_view(self.frames@);
        let mut i: usize = 0;
        while i < chunk.len()
            invariant
                i <= chunk@.len(),
                self.buffer@ == old(self).buffer@ + chunk@.take(i as int),
                self.frames@ == old(self).frames@,
            decreases chunk@.len() - i,
        {
            self.buffer.push(chunk[i]);
            i = i + 1;
            assert(self.buffer@ =~= old(self).buffer@ + chunk@.take(i as int));
        }
        assert(chunk@.take(chunk@.len() as int) =~= chunk@);
        loop
            invariant
                ({
                    let (found, rest, stopped) = spec_drain(start, stop_at);
                    let (later, rest2, stopped2) = spec_drain(self.buffer@, stop_at);
                    &&& found == frames_view(self.frames@).skip(old_frames.len() as int) + later
                    &&& rest == rest2
                    &&& stopped == stopped2
                }),
                frames_view(self.frames@).take(old_frames.len() as int) == old_frames,
                start == old(self).buffer@ + chunk@,
                old_frames == frames_view(old(self).frames@),
                old_frames.len() <= self.frames@.len(),
            decreases self.buffer@.len(),
        {
            let ghost before = self.buffer@;
            let ghost before_frames = frames_view(self.frames@);
            proof {
                lemma_take_frame_leaves_suffix(before);
            }
            let taken = Frame::take_frame(&mut self.buffer);
            match taken {
                Ok(Some(frame)) => {
                    let command = frame.command;
                    assert(spec_take_frame(before).0 == Some(frame@));
                    assert(spec_take_frame(before).1 == self.buffer@);
                    self.frames.push(frame);
                    assert(frames_view(self.frames@) =~= before_frames.push(frame@));
                    assert(frames_view(self.frames@).skip(old_frames.len() as int) =~= before_frames.skip(
                        old_frames.len() as int,
                    ).push(frame@));
                    assert(frames_view(self.frames@).take(old_frames.len() as int) =~= before_frames.take(
                        old_frames.len() as int,
                    ));
                    if stop_at == Some(command) {
                        assert(spec_drain(before, stop_at) == (seq![frame@], self.buffer@, true));
                        assert(frames_view(self.frames@) =~= old_frames + spec_drain(start, stop_at).0);
                        proof {
                            lemma_new_frames_stop(old(self).frames@, self.frames@, start, stop_at);
                        }
                        return true;
                    }
                },
                _ => {
                    assert(spec_take_frame(before).0 is None);
                    assert(spec_drain(before, stop_at) == (Seq::<(u16, Seq<u8>)>::empty(), self.buffer@, false));
                    assert(frames_view(self.frames@) =~= old_frames + spec_drain(start, stop_at).0);
                    proof {
                        lemma_new_frames_stop(old(self).frames@, self.frames@, start, stop_at);
                        lemma_drain_stops_at_first_match(start, stop_at);
                    }
                    return false;
                },
            }
        }
    }
}

} // verus!

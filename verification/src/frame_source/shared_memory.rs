use vstd::prelude::*;
use crate::frame_source::SourceState;

verus! {

/// Tag at the start of the shared region ("GOLF").
pub const MAGIC: u32 = 0x474F_4C46;

/// Number of frame slots in the ring buffer.
pub const RING_BUFFER_SIZE: usize = 60;

/// Bytes reserved for the shared header before the first frame slot.
pub const HEADER_SIZE: usize = 104;

/// Bytes of the packed shared header that are read.
pub const SHARED_HEADER_LEN: usize = 72;

/// Bytes of the packed header in front of each frame's pixels.
pub const FRAME_HEADER_SIZE: usize = 36;

/// Offset of the command block in the shared header.
pub const OFFSET_RUST_COMMAND: usize = 48;

/// Bytes of the packed command block.
pub const COMMAND_LEN: usize = 24;

/// Command code: launch a shot.
pub const COMMAND_LAUNCH: i32 = 1;

/// Command code: reset the scene.
pub const COMMAND_RESET: i32 = 2;

/// Command code: show the calibration board.
pub const COMMAND_CALIBRATE: i32 = 3;

/// The producer's state as written in the shared header.
#[derive(Debug, Clone, Copy, PartialEq, Eq, Structural)]
pub enum SharedState {
    Idle,
    Ready,
    Streaming,
    Complete,
}

/// The state a raw header value denotes; unknown values read as idle.
pub open spec fn shared_state_of(v: i32) -> SharedState {
    if v == 1 {
        SharedState::Ready
    } else if v == 2 {
        SharedState::Streaming
    } else if v == 3 {
        SharedState::Complete
    } else {
        SharedState::Idle
    }
}

impl From<i32> for SharedState {
    fn from(v: i32) -> (r: SharedState) {
        match v {
            1 => SharedState::Ready,
            2 => SharedState::Streaming,
            3 => SharedState::Complete,
            _ => SharedState::Idle,
        }
    }
}

impl vstd::std_specs::convert::FromSpecImpl<i32> for SharedState {
    open spec fn obeys_from_spec() -> bool {
        true
    }

    open spec fn from_spec(v: i32) -> SharedState {
        shared_state_of(v)
    }
}

/// The source state for a producer state.
pub open spec fn source_state_of(s: SharedState) -> SourceState {
    match s {
        SharedState::Idle => SourceState::Idle,
        SharedState::Ready => SourceState::Ready,
        SharedState::Streaming => SourceState::Streaming,
        SharedState::Complete => SourceState::Complete,
    }
}

/// The state of the shared-memory source: disconnected until the region is
/// mapped, then the producer's state from the header.
pub fn source_state(connected: bool, raw_state: i32) -> (r: SourceState)
    ensures
        !connected ==> r == SourceState::Disconnected,
        connected ==> r == source_state_of(shared_state_of(raw_state)),
{
    if !connected {
        return SourceState::Disconnected;
    }
    match SharedState::from(raw_state) {
        SharedState::Idle => SourceState::Idle,
        SharedState::Ready => SourceState::Ready,
        SharedState::Streaming => SourceState::Streaming,
        SharedState::Complete => SourceState::Complete,
    }
}

/// The unsigned value stored little-endian in `s[o..o + 4]`.
pub open spec fn le_u32(s: Seq<u8>, o: int) -> u32 {
    (s[o] + 256 * s[o + 1] + 65536 * s[o + 2] + 16777216 * s[o + 3]) as u32
}

/// The unsigned value stored little-endian in `s[o..o + 8]`.
pub open spec fn le_u64(s: Seq<u8>, o: int) -> u64 {
    (le_u32(s, o) + 4294967296 * le_u32(s, o + 4)) as u64
}

/// The two's-complement reading of 32 bits.
pub open spec fn i32_of_bits(u: u32) -> i32 {
    if u <= i32::MAX {
        u as i32
    } else {
        (u - 4294967296) as i32
    }
}

/// The 32 bits of a two's-complement value.
pub open spec fn bits_of_i32(v: i32) -> u32 {
    if v >= 0 {
        v as u32
    } else {
        (v + 4294967296) as u32
    }
}

/// The four little-endian bytes of `u`.
pub open spec fn le_bytes(u: u32) -> Seq<u8> {
    seq![
        (u % 256) as u8,
        ((u / 256) % 256) as u8,
        ((u / 65536) % 256) as u8,
        (u / 16777216) as u8,
    ]
}

fn read_u32_le(b: &[u8], o: usize) -> (r: u32)
    requires
        o + 4 <= b@.len(),
    ensures
        r == le_u32(b@, o as int),
{
    b[o] as u32 + b[o + 1] as u32 * 256 + b[o + 2] as u32 * 65536 + b[o + 3] as u32 * 16777216
}

fn read_u64_le(b: &[u8], o: usize) -> (r: u64)
    requires
        o + 8 <= b@.len(),
    ensures
        r == le_u64(b@, o as int),
{
    // The slice's length is a `usize`, which bounds the offsets below.
    let _len = b.len();
    let lo = read_u32_le(b, o);
    let hi = read_u32_le(b, o + 4);
    lo as u64 + hi as u64 * 4294967296
}

fn to_i32(u: u32) -> (r: i32)
    ensures
        r == i32_of_bits(u),
{
    if u <= 0x7fff_ffff {
        u as i32
    } else {
        (u - 0x8000_0000) as i32 + i32::MIN
    }
}

fn read_i32_le(b: &[u8], o: usize) -> (r: i32)
    requires
        o + 4 <= b@.len(),
    ensures
        r == i32_of_bits(le_u32(b@, o as int)),
{
    to_i32(read_u32_le(b, o))
}

/// The fields of the shared header; floating-point fields are kept as their
/// IEEE-754 bits.
#[derive(Debug, Clone, Copy, PartialEq, Eq)]
pub struct SharedHeaderFields {
    pub magic: u32,
    pub state: i32,
    pub write_head: i32,
    pub frame_count: i32,
    pub width: i32,
    pub height: i32,
    pub fps_bits: u32,
    pub speed_mph_bits: u32,
    pub vla_deg_bits: u32,
    pub hla_deg_bits: u32,
    pub spin_rpm_bits: u32,
    pub spin_axis_deg_bits: u32,
}

/// The shared header stored little-endian at the start of `s`.
pub open spec fn header_of(s: Seq<u8>) -> SharedHeaderFields {
    SharedHeaderFields {
        magic: le_u32(s, 0),
        state: i32_of_bits(le_u32(s, 4)),
        write_head: i32_of_bits(le_u32(s, 8)),
        frame_count: i32_of_bits(le_u32(s, 12)),
        width: i32_of_bits(le_u32(s, 16)),
        height: i32_of_bits(le_u32(s, 20)),
        fps_bits: le_u32(s, 24),
        speed_mph_bits: le_u32(s, 28),
        vla_deg_bits: le_u32(s, 32),
        hla_deg_bits: le_u32(s, 36),
        spin_rpm_bits: le_u32(s, 40),
        spin_axis_deg_bits: le_u32(s, 44),
    }
}

/// Reads the shared header from the start of the shared region.
pub fn parse_shared_header(bytes: &[u8]) -> (r: SharedHeaderFields)
    requires
        bytes@.len() >= SHARED_HEADER_LEN,
    ensures
        r == header_of(bytes@),
{
    SharedHeaderFields {
        magic: read_u32_le(bytes, 0),
        state: read_i32_le(bytes, 4),
        write_head: read_i32_le(bytes, 8),
        frame_count: read_i32_le(bytes, 12),
        width: read_i32_le(bytes, 16),
        height: read_i32_le(bytes, 20),
        fps_bits: read_u32_le(bytes, 24),
        speed_mph_bits: read_u32_le(bytes, 28),
        vla_deg_bits: read_u32_le(bytes, 32),
        hla_deg_bits: read_u32_le(bytes, 36),
        spin_rpm_bits: read_u32_le(bytes, 40),
        spin_axis_deg_bits: read_u32_le(bytes, 44),
    }
}

/// The fields of a frame header; floating-point fields as their bits.
#[derive(Debug, Clone, Copy, PartialEq, Eq)]
pub struct FrameHeaderFields {
    pub frame_index: i32,
    pub timestamp_bits: u64,
    pub ball_pos_bits: [u32; 3],
    pub ball_vel_bits: [u32; 3],
}

/// Reads the header of the frame slot starting at `offset`; `None` for a
/// slot that holds no frame yet (negative frame index).
pub fn parse_frame_header(bytes: &[u8], offset: usize) -> (r: Option<FrameHeaderFields>)
    requires
        offset + FRAME_HEADER_SIZE <= bytes@.len(),
    ensures
        i32_of_bits(le_u32(bytes@, offset as int)) < 0 ==> r is None,
        i32_of_bits(le_u32(bytes@, offset as int)) >= 0 ==> (r matches Some(h) && {
            &&& h.frame_index == i32_of_bits(le_u32(bytes@, offset as int))
            &&& h.timestamp_bits == le_u64(bytes@, offset + 4)
            &&& forall|k: int| 0 <= k < 3 ==> h.ball_pos_bits@[k] == le_u32(bytes@, offset + 12 + 4 * k)
            &&& forall|k: int| 0 <= k < 3 ==> h.ball_vel_bits@[k] == le_u32(bytes@, offset + 24 + 4 * k)
        }),
{
    // The slice's length is a `usize`, which bounds the offsets below.
    let _len = bytes.len();
    let frame_index = read_i32_le(bytes, offset);
    if frame_index < 0 {
        return None;
    }
    let h = FrameHeaderFields {
        frame_index,
        timestamp_bits: read_u64_le(bytes, offset + 4),
        ball_pos_bits: [
            read_u32_le(bytes, offset + 12),
            read_u32_le(bytes, offset + 16),
            read_u32_le(bytes, offset + 20),
        ],
        ball_vel_bits: [
            read_u32_le(bytes, offset + 24),
            read_u32_le(bytes, offset + 28),
            read_u32_le(bytes, offset + 32),
        ],
    };
    proof {
        assert(h.ball_pos_bits@[0] == le_u32(bytes@, offset + 12));
        assert(h.ball_pos_bits@[1] == le_u32(bytes@, offset + 16));
        assert(h.ball_pos_bits@[2] == le_u32(bytes@, offset + 20));
        assert(h.ball_vel_bits@[0] == le_u32(bytes@, offset + 24));
        assert(h.ball_vel_bits@[1] == le_u32(bytes@, offset + 28));
        assert(h.ball_vel_bits@[2] == le_u32(bytes@, offset + 32));
    }
    Some(h)
}

fn push_u32_le(out: &mut Vec<u8>, u: u32)
    ensures
        final(out)@ == old(out)@ + le_bytes(u),
{
    out.push((u % 256) as u8);
    out.push(((u / 256) % 256) as u8);
    out.push(((u / 65536) % 256) as u8);
    out.push((u / 16777216) as u8);
    proof {
        assert(out@ =~= old(out)@ + le_bytes(u));
    }
}

fn bits_i32(v: i32) -> (r: u32)
    ensures
        r == bits_of_i32(v),
{
    if v >= 0 {
        v as u32
    } else {
        (v as i64 + 4294967296) as u32
    }
}

/// The command block: the command code, then five values (speed, launch
/// angles, spin rate, spin axis) given as their `f32` bits.
pub open spec fn command_bytes(command: i32, values: Seq<u32>) -> Seq<u8> {
    le_bytes(bits_of_i32(command)) + le_bytes(values[0]) + le_bytes(values[1]) + le_bytes(values[2])
        + le_bytes(values[3]) + le_bytes(values[4])
}

/// Encodes a command block for offset `OFFSET_RUST_COMMAND` of the header.
pub fn encode_command(command: i32, values: [u32; 5]) -> (r: Vec<u8>)
    ensures
        r@ == command_bytes(command, values@),
        r@.len() == COMMAND_LEN,
{
    let mut out: Vec<u8> = Vec::new();
    push_u32_le(&mut out, bits_i32(command));
    push_u32_le(&mut out, values[0]);
    push_u32_le(&mut out, values[1]);
    push_u32_le(&mut out, values[2]);
    push_u32_le(&mut out, values[3]);
    push_u32_le(&mut out, values[4]);
    out
}

/// Encodes the launch command with the shot to simulate.
pub fn launch_command(values: [u32; 5]) -> (r: Vec<u8>)
    ensures
        r@ == command_bytes(COMMAND_LAUNCH, values@),
{
    encode_command(COMMAND_LAUNCH, values)
}

/// Encodes the reset command (all values zero).
pub fn reset_command() -> (r: Vec<u8>)
    ensures
        r@ == command_bytes(COMMAND_RESET, seq![0u32, 0, 0, 0, 0]),
{
    let zeros: [u32; 5] = [0, 0, 0, 0, 0];
    let r = encode_command(COMMAND_RESET, zeros);
    proof {
        assert(zeros@ =~= seq![0u32, 0, 0, 0, 0]);
    }
    r
}

/// Encodes the calibrate command (all values zero).
pub fn calibrate_command() -> (r: Vec<u8>)
    ensures
        r@ == command_bytes(COMMAND_CALIBRATE, seq![0u32, 0, 0, 0, 0]),
{
    let zeros: [u32; 5] = [0, 0, 0, 0, 0];
    let r = encode_command(COMMAND_CALIBRATE, zeros);
    proof {
        assert(zeros@ =~= seq![0u32, 0, 0, 0, 0]);
    }
    r
}

/// Why the shared region cannot be used.
#[derive(Debug, Clone, Copy, PartialEq, Eq)]
pub enum OpenError {
    /// The region does not start with `MAGIC`.
    BadMagic,
}

/// Sizes of the frame slots of the ring.
#[derive(Debug, Clone, Copy, PartialEq, Eq)]
pub struct FrameLayout {
    /// Bytes of one camera image (RGBA).
    pub pixel_size: usize,
    /// Bytes of one frame slot: frame header and two camera images.
    pub frame_size: usize,
}

/// The inputs on which the slot sizes can be computed: a region with the
/// right tag describes a nonnegative RGBA image size within `i32`, and a
/// slot size within `usize`.
pub open spec fn layout_defined(h: SharedHeaderFields) -> bool {
    h.magic == MAGIC ==> {
        &&& 0 <= h.width * h.height * 4 <= i32::MAX
        &&& FRAME_HEADER_SIZE + 2 * (h.width * h.height * 4) <= usize::MAX
    }
}

/// Checks the tag of the shared region and computes the size of the frame
/// slots from the image size in the header.
pub fn check_header(h: &SharedHeaderFields) -> (r: Result<FrameLayout, OpenError>)
    requires
        layout_defined(*h),
    ensures
        h.magic != MAGIC ==> r == Err::<FrameLayout, OpenError>(OpenError::BadMagic),
        h.magic == MAGIC ==> (r matches Ok(l) && l.pixel_size == h.width * h.height * 4
            && l.frame_size == FRAME_HEADER_SIZE + 2 * l.pixel_size),
{
    if h.magic != MAGIC {
        return Err(OpenError::BadMagic);
    }
    let area = h.width * h.height;
    let pixel_size = (area * 4) as usize;
    let frame_size = FRAME_HEADER_SIZE + pixel_size * 2;
    Ok(FrameLayout { pixel_size, frame_size })
}

/// Byte offset of frame slot `slot`.
pub fn slot_offset(slot: usize, frame_size: usize) -> (r: usize)
    requires
        HEADER_SIZE + slot * frame_size <= usize::MAX,
    ensures
        r == HEADER_SIZE + slot * frame_size,
{
    proof {
        assert(slot * frame_size <= usize::MAX) by (nonlinear_arith)
            requires
                HEADER_SIZE + slot * frame_size <= usize::MAX,
        ;
    }
    HEADER_SIZE + slot * frame_size
}

/// The ring slot that frame `frame` is written to.
pub open spec fn slot_of(frame: int) -> int {
    frame % (RING_BUFFER_SIZE as int)
}

/// The value of `v as usize` in Rust: negative values wrap around.
pub open spec fn usize_of_i32(v: i32) -> int {
    if v >= 0 {
        v as int
    } else {
        v + usize::MAX + 1
    }
}

fn as_usize(v: i32) -> (r: usize)
    ensures
        r == usize_of_i32(v),
{
    if v >= 0 {
        v as usize
    } else {
        usize::MAX - ((-(v + 1)) as usize)
    }
}

/// The slots to read, oldest first, to collect every frame still in the ring:
/// the last `min(frame_count, RING_BUFFER_SIZE, write_head)` frames before
/// `write_head` (both read as `usize`).
pub open spec fn ring_read_slots(write_head: i32, frame_count: i32) -> Seq<usize> {
    let wh = usize_of_i32(write_head);
    let fc = usize_of_i32(frame_count);
    if fc == 0 || wh == 0 {
        Seq::empty()
    } else {
        let available = if fc <= RING_BUFFER_SIZE && fc <= wh {
            fc
        } else if RING_BUFFER_SIZE <= wh {
            RING_BUFFER_SIZE as int
        } else {
            wh
        };
        Seq::new(available as nat, |k: int| slot_of(wh - available + k) as usize)
    }
}

/// The slots to read, oldest first, to collect every frame still in the ring.
pub fn ring_slots(write_head: i32, frame_count: i32) -> (r: Vec<usize>)
    ensures
        r@ == ring_read_slots(write_head, frame_count),
{
    let wh = as_usize(write_head);
    let fc = as_usize(frame_count);
    let mut out: Vec<usize> = Vec::new();
    if fc == 0 || wh == 0 {
        proof {
            assert(out@ =~= ring_read_slots(write_head, frame_count));
        }
        return out;
    }
    let mut available = fc;
    if RING_BUFFER_SIZE < available {
        available = RING_BUFFER_SIZE;
    }
    if wh < available {
        available = wh;
    }
    let first = wh - available;
    let mut k: usize = 0;
    while k < available
        invariant
            k <= available,
            available <= wh,
            first == wh - available,
            out@.len() == k,
            forall|j: int| 0 <= j < k ==> #[trigger] out@[j] == slot_of(first + j) as usize,
        decreases available - k,
    {
        out.push((first + k) % RING_BUFFER_SIZE);
        k += 1;
    }
    proof {
        assert(out@ =~= ring_read_slots(write_head, frame_count));
    }
    out
}

/// What one poll of the ring does: the reader's position after the poll and
/// the frame to read, if any.
#[derive(Debug, Clone, Copy, PartialEq, Eq)]
pub struct PollPlan {
    /// The last frame counted as read once frames that left the ring are
    /// skipped.
    pub last_read: i32,
    /// The frame to read next.
    pub next: Option<i32>,
}

/// The oldest frame still in the ring when `write_head` frames have been
/// written.
pub open spec fn oldest_available(write_head: int) -> int {
    if write_head > RING_BUFFER_SIZE {
        write_head - RING_BUFFER_SIZE
    } else {
        0
    }
}

/// One poll: nothing before the first frame is written; otherwise skip past
/// frames that have left the ring, and read the frame after the last one
/// read if it has been written.
pub open spec fn poll_plan(last_read: i32, write_head: i32) -> PollPlan {
    if write_head <= 0 {
        PollPlan { last_read, next: None }
    } else {
        let oldest = oldest_available(write_head as int);
        let lr = if last_read < oldest - 1 {
            (oldest - 1) as i32
        } else {
            last_read
        };
        if lr >= write_head - 1 {
            PollPlan { last_read: lr, next: None }
        } else {
            PollPlan { last_read: lr, next: Some((lr + 1) as i32) }
        }
    }
}

/// Decides the next frame to read from the ring.
pub fn plan_poll(last_read: i32, write_head: i32) -> (r: PollPlan)
    ensures
        r == poll_plan(last_read, write_head),
{
    if write_head <= 0 {
        return PollPlan { last_read, next: None };
    }
    let oldest = if write_head > RING_BUFFER_SIZE as i32 {
        write_head - RING_BUFFER_SIZE as i32
    } else {
        0
    };
    let lr = if last_read < oldest - 1 {
        oldest - 1
    } else {
        last_read
    };
    if lr >= write_head - 1 {
        PollPlan { last_read: lr, next: None }
    } else {
        PollPlan { last_read: lr, next: Some(lr + 1) }
    }
}

/// The ring slot of a frame that a poll reads.
pub fn slot_for_frame(frame: i32) -> (r: usize)
    requires
        frame >= 0,
    ensures
        r == slot_of(frame as int),
        r < RING_BUFFER_SIZE,
{
    frame as usize % RING_BUFFER_SIZE
}

/// Every slot read is inside the ring and no slot is read twice.
pub proof fn lemma_ring_slots_distinct(write_head: i32, frame_count: i32)
    ensures
        forall|i: int|
            0 <= i < ring_read_slots(write_head, frame_count).len() ==> #[trigger] ring_read_slots(
                write_head,
                frame_count,
            )[i] < RING_BUFFER_SIZE,
        forall|i: int, j: int|
            0 <= i < j < ring_read_slots(write_head, frame_count).len() ==> #[trigger] ring_read_slots(
                write_head,
                frame_count,
            )[i] != #[trigger] ring_read_slots(write_head, frame_count)[j],
{
    let s = ring_read_slots(write_head, frame_count);
    let wh = usize_of_i32(write_head);
    let fc = usize_of_i32(frame_count);
    if !(fc == 0 || wh == 0) {
        let available = s.len() as int;
        let first = wh - available;
        assert forall|i: int, j: int| 0 <= i < j < s.len() implies #[trigger] s[i] != #[trigger] s[j] by {
            let a = first + i;
            let b = first + j;
            assert(0 < b - a < 60);
            if a % 60 == b % 60 {
                vstd::arithmetic::div_mod::lemma_fundamental_div_mod(a, 60);
                vstd::arithmetic::div_mod::lemma_fundamental_div_mod(b, 60);
                assert(60 * (b / 60) - 60 * (a / 60) == b - a);
                assert(false) by (nonlinear_arith)
                    requires
                        60 * (b / 60) - 60 * (a / 60) == b - a,
                        0 < b - a < 60,
                ;
            }
        }
    }
}

/// A poll never reads a frame that has left the ring or has not been
/// written, and never reads a frame at or before the last one read.
pub proof fn lemma_poll_in_window(last_read: i32, write_head: i32)
    ensures
        poll_plan(last_read, write_head).next matches Some(f) ==> {
            &&& oldest_available(write_head as int) <= f < write_head
            &&& f > last_read
            &&& f == poll_plan(last_read, write_head).last_read + 1
        },
{
}

/// Polls after a read move strictly forward: with the written count not
/// going back, the next frame read comes after the one just read.
pub proof fn lemma_poll_monotone(last_read: i32, write_head: i32, later_head: i32)
    requires
        later_head >= write_head,
    ensures
        poll_plan(last_read, write_head).next matches Some(f) ==> (poll_plan(
            f,
            later_head,
        ).next matches Some(g) ==> g > f),
{
}

/// While a frame after the last one read is still in the ring, the poll
/// reads exactly that frame: no frame in the ring is skipped.
pub proof fn lemma_poll_no_skip(last_read: i32, write_head: i32)
    requires
        write_head > 0,
        oldest_available(write_head as int) - 1 <= last_read < write_head - 1,
    ensures
        poll_plan(last_read, write_head).next == Some((last_read + 1) as i32),
{
}

/// A 32-bit value written little-endian reads back unchanged.
pub proof fn lemma_le_roundtrip(u: u32)
    ensures
        le_u32(le_bytes(u), 0) == u,
{
    let b = le_bytes(u);
    let q1 = u / 256;
    let q2 = u / 65536;
    let q3 = u / 16777216;
    assert(u == 256 * q1 + u % 256) by {
        vstd::arithmetic::div_mod::lemma_fundamental_div_mod(u as int, 256);
    }
    assert(q1 == 256 * (q1 / 256) + q1 % 256) by {
        vstd::arithmetic::div_mod::lemma_fundamental_div_mod(q1 as int, 256);
    }
    assert(q1 / 256 == q2) by {
        vstd::arithmetic::div_mod::lemma_div_denominator(u as int, 256, 256);
    }
    assert(q2 == 256 * (q2 / 256) + q2 % 256) by {
        vstd::arithmetic::div_mod::lemma_fundamental_div_mod(q2 as int, 256);
    }
    assert(q2 / 256 == q3) by {
        vstd::arithmetic::div_mod::lemma_div_denominator(u as int, 65536, 256);
    }
    assert(q3 < 256) by {
        vstd::arithmetic::div_mod::lemma_div_is_ordered(u as int, 0xffff_ffff, 16777216);
    }
}

/// A command code written as 32 bits reads back as the same code.
pub proof fn lemma_i32_bits_roundtrip(v: i32)
    ensures
        i32_of_bits(bits_of_i32(v)) == v,
{
}

/// Byte `i` of an RGBA image of `height` rows of `row_bytes` bytes after
/// turning it upside down; bytes past the last row become 0.
pub open spec fn flipped_byte(rgba: Seq<u8>, row_bytes: int, height: int, i: int) -> u8 {
    if i < height * row_bytes {
        rgba[(height - 1 - i / row_bytes) * row_bytes + i % row_bytes]
    } else {
        0
    }
}

/// An RGBA buffer of `height` rows of `row_bytes` bytes turned upside
/// down; bytes past the last row become 0.
pub open spec fn flipped(rgba: Seq<u8>, row_bytes: int, height: int) -> Seq<u8> {
    Seq::new(rgba.len(), |i: int| flipped_byte(rgba, row_bytes, height, i))
}

/// The image with its rows in reverse order (the producer writes them
/// bottom-up). The result has the length of `rgba`; bytes past the last row
/// are 0.
pub fn flip_rgba_y(rgba: &[u8], width: u32, height: u32) -> (r: Vec<u8>)
    requires
        width * 4 <= u32::MAX,
        height * (width * 4) <= rgba@.len(),
    ensures
        r@ == flipped(rgba@, width * 4, height as int),
{
    let row_bytes = (width * 4) as usize;
    let n = rgba.len();
    let limit = height as usize * row_bytes;
    let mut out: Vec<u8> = Vec::with_capacity(n);
    let mut i: usize = 0;
    while i < n
        invariant
            n == rgba@.len(),
            row_bytes == width * 4,
            limit == height * row_bytes,
            limit <= n,
            i <= n,
            out@.len() == i,
            forall|j: int|
                0 <= j < i ==> #[trigger] out@[j] == flipped_byte(
                    rgba@,
                    row_bytes as int,
                    height as int,
                    j,
                ),
        decreases n - i,
    {
        if i < limit {
            proof {
                crate::frame::lemma_nonempty(i as int, row_bytes as int, height as int);
                crate::frame::lemma_index_split(i as int, row_bytes as int, height as int);
            }
            let row = i / row_bytes;
            let col = i % row_bytes;
            proof {
                crate::frame::lemma_pixel_index(
                    col as int,
                    height - 1 - row,
                    row_bytes as int,
                    height as int,
                );
                assert((row_bytes as int) * (height as int) == (height as int) * (row_bytes as int))
                    by (nonlinear_arith);
                assert((height - 1 - row) * row_bytes + col < limit);
            }
            let src = (height as usize - 1 - row) * row_bytes + col;
            out.push(rgba[src]);
        } else {
            out.push(0u8);
        }
        i += 1;
    }
    proof {
        assert(out@ =~= flipped(rgba@, width * 4, height as int));
    }
    out
}

/// Turning an image upside down twice gives it back.
pub proof fn lemma_flip_involution(rgba: Seq<u8>, row_bytes: int, height: int)
    requires
        row_bytes > 0,
        height >= 0,
        rgba.len() == height * row_bytes,
    ensures
        flipped(flipped(rgba, row_bytes, height), row_bytes, height) == rgba,
{
    let once = flipped(rgba, row_bytes, height);
    assert forall|i: int| 0 <= i < rgba.len() implies #[trigger] flipped_byte(
        once,
        row_bytes,
        height,
        i,
    ) == rgba[i] by {
        assert(row_bytes * height == height * row_bytes) by (nonlinear_arith);
        crate::frame::lemma_index_split(i, row_bytes, height);
        let row = i / row_bytes;
        let col = i % row_bytes;
        let j = (height - 1 - row) * row_bytes + col;
        crate::frame::lemma_pixel_index(col, height - 1 - row, row_bytes, height);
        assert(row_bytes * height == height * row_bytes) by (nonlinear_arith);
        crate::frame::lemma_pixel_index(col, row, row_bytes, height);
    }
    assert(flipped(once, row_bytes, height) =~= rgba);
}

} // verus!

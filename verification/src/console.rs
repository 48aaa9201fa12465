//! The kernel console: text on the framebuffer, each line with the time at
//! which it began in front of it, and a history of the last lines.

use vstd::prelude::*;
use crate::abi::Framebuffer;
use crate::framebuffer::draw::{
    drawable, empty_surface, rect_filled, surface_of, FramebufferColor, FramebufferSurface,
};
use crate::framebuffer::font::{FONT_HEIGHT, FONT_WIDTH};
use crate::framebuffer::text::{
    after_bytes, capped_cells, sanitize_byte, sanitized, viewport_of, Cursor, FramebufferConsole,
    Viewport, LINE_STRIDE,
};
use crate::time::{nanos_of, ticks_between, MonotonicClock};

verus! {

/// Most bytes kept of a line.
pub const MAX_LINE_CHARS: usize = 160;

/// Lines that the history keeps.
pub const HISTORY_CAPACITY: usize = 128;

/// Most bytes of the time in front of a line.
pub const TIMESTAMP_PREFIX_MAX: usize = 32;

/// Bytes set aside for each line of the history.
pub const LINE_SLOT_BYTES: usize = 184;

/// A point in time: nanoseconds since the clock was set up, or ticks of
/// the timestamp counter where nanoseconds cannot be told.
#[derive(Clone, Copy, Debug, PartialEq, Eq, Structural)]
pub struct Timestamp {
    pub value: u64,
    pub is_nanos: bool,
}

/// The digits of `value` in base ten, lowest first.
pub open spec fn digits_reversed(value: nat) -> Seq<u8>
    decreases value,
{
    if value < 10 {
        seq![(0x30 + value) as u8]
    } else {
        seq![(0x30 + value % 10) as u8] + digits_reversed(value / 10)
    }
}

/// The digits of `value` in base ten, highest first.
pub open spec fn decimal_digits(value: nat) -> Seq<u8> {
    digits_reversed(value).reverse()
}

/// The lowest `width` digits of `value` in base ten, highest first, with
/// zeros in front where `value` has fewer.
pub open spec fn fixed_digits(value: nat, width: nat) -> Seq<u8>
    decreases width,
{
    if width == 0 {
        Seq::empty()
    } else {
        fixed_digits(value / 10, (width - 1) as nat).push((0x30 + value % 10) as u8)
    }
}

/// The largest value that is left of a 64-bit number after `digits` of its
/// digits were taken off.
pub open spec fn left_after(digits: nat) -> nat
    decreases digits,
{
    if digits == 0 {
        u64::MAX as nat
    } else {
        left_after((digits - 1) as nat) / 10
    }
}

/// Nothing is left of a 64-bit number after twenty digits.
proof fn lemma_left_after(digits: nat)
    requires
        digits >= 20,
    ensures
        left_after(digits) == 0,
    decreases digits,
{
    if digits == 20 {
        reveal_with_fuel(left_after, 21);
    } else {
        lemma_left_after((digits - 1) as nat);
    }
}

/// Appends the digits of `value` in base ten to `out` and returns how many
/// there are.
pub fn write_decimal(out: &mut Vec<u8>, value: u64) -> (n: usize)
    ensures
        final(out)@ == old(out)@ + decimal_digits(value as nat),
        n == decimal_digits(value as nat).len(),
        1 <= n <= 20,
{
    let mut tmp: [u8; 20] = [0u8; 20];
    let mut digits: usize = 0;
    let mut rest: u64 = value;
    if rest == 0 {
        tmp[0] = 0x30;
        digits = 1;
        assert(tmp@.take(1) =~= digits_reversed(0));
    } else {
        while rest > 0
            invariant
                digits <= 20,
                rest <= left_after(digits as nat),
                rest > 0 ==> digits_reversed(value as nat) == tmp@.take(digits as int)
                    + digits_reversed(rest as nat),
                rest == 0 ==> digits >= 1 && digits_reversed(value as nat) == tmp@.take(
                    digits as int,
                ),
            decreases rest,
        {
            proof {
                if digits >= 20 {
                    lemma_left_after(digits as nat);
                }
            }
            let digit: u8 = (rest % 10) as u8;
            let ghost before = tmp@;
            tmp[digits] = 0x30 + digit;
            proof {
                assert(tmp@.take(digits as int + 1) =~= before.take(digits as int) + seq![
                    (0x30 + rest % 10) as u8,
                ]);
                if rest >= 10 {
                    assert(before.take(digits as int) + (seq![(0x30 + rest % 10) as u8]
                        + digits_reversed((rest / 10) as nat)) =~= tmp@.take(digits as int + 1)
                        + digits_reversed((rest / 10) as nat));
                } else {
                    assert(before.take(digits as int) + seq![(0x30 + rest) as u8] =~= tmp@.take(
                        digits as int + 1,
                    ));
                }
            }
            digits = digits + 1;
            rest = rest / 10;
        }
    }
    let ghost lowest_first = tmp@.take(digits as int);
    let mut i: usize = 0;
    while i < digits
        invariant
            i <= digits,
            digits <= 20,
            lowest_first == tmp@.take(digits as int),
            out@ == old(out)@ + lowest_first.reverse().take(i as int),
        decreases digits - i,
    {
        let byte: u8 = tmp[digits - 1 - i];
        out.push(byte);
        proof {
            assert(lowest_first.reverse()[i as int] == byte);
            assert(lowest_first.reverse().take(i as int).push(byte) =~= lowest_first.reverse().take(
                i as int + 1,
            ));
            assert((old(out)@ + lowest_first.reverse().take(i as int)).push(byte) =~= old(out)@
                + lowest_first.reverse().take(i as int + 1));
        }
        i = i + 1;
    }
    proof {
        assert(lowest_first.reverse().take(digits as int) =~= lowest_first.reverse());
    }
    digits
}

/// Appends the lowest `width` digits of `value` in base ten to `out`, with
/// zeros in front where `value` has fewer, and returns `width`.
pub fn write_fixed_width_decimal(out: &mut Vec<u8>, value: u32, width: usize) -> (n: usize)
    ensures
        final(out)@ == old(out)@ + fixed_digits(value as nat, width as nat),
        n == width,
        fixed_digits(value as nat, width as nat).len() == width,
{
    let mut lowest_first: Vec<u8> = Vec::new();
    let mut rest: u32 = value;
    let mut i: usize = 0;
    while i < width
        invariant
            i <= width,
            lowest_first@.len() == i,
            fixed_digits(value as nat, width as nat) == fixed_digits(
                rest as nat,
                (width - i) as nat,
            ) + lowest_first@.reverse(),
            fixed_digits(rest as nat, (width - i) as nat).len() == width - i
                ==> fixed_digits(value as nat, width as nat).len() == width,
        decreases width - i,
    {
        let digit: u8 = (rest % 10) as u8;
        let ghost before = lowest_first@;
        lowest_first.push(0x30 + digit);
        proof {
            let shorter = fixed_digits((rest / 10) as nat, (width - i - 1) as nat);
            assert(lowest_first@.reverse() =~= seq![(0x30 + rest % 10) as u8] + before.reverse());
            assert(shorter.push((0x30 + rest % 10) as u8) + before.reverse() =~= shorter
                + lowest_first@.reverse());
        }
        rest = rest / 10;
        i = i + 1;
    }
    proof {
        assert(fixed_digits(rest as nat, 0) =~= Seq::<u8>::empty());
        assert(Seq::<u8>::empty() + lowest_first@.reverse() =~= lowest_first@.reverse());
    }
    let ghost digits = lowest_first@.reverse();
    let mut k: usize = 0;
    while k < width
        invariant
            k <= width,
            lowest_first@.len() == width,
            digits == lowest_first@.reverse(),
            out@ == old(out)@ + digits.take(k as int),
        decreases width - k,
    {
        let byte: u8 = lowest_first[width - 1 - k];
        out.push(byte);
        proof {
            assert(digits[k as int] == byte);
            assert((old(out)@ + digits.take(k as int)).push(byte) =~= old(out)@ + digits.take(
                k as int + 1,
            ));
        }
        k = k + 1;
    }
    proof {
        assert(digits.take(width as int) =~= digits);
    }
    width
}

/// The time as it stands in front of a line: in square brackets, seconds
/// and microseconds for nanoseconds, the plain number for ticks, and a
/// space behind.
pub open spec fn prefix_text(timestamp: Timestamp) -> Seq<u8> {
    let number = if timestamp.is_nanos {
        decimal_digits((timestamp.value / 1_000_000_000) as nat) + seq![0x2eu8] + fixed_digits(
            ((timestamp.value % 1_000_000_000) / 1_000) as nat,
            6,
        )
    } else {
        decimal_digits(timestamp.value as nat)
    };
    seq![0x5bu8] + number + seq![0x5du8, 0x20u8]
}

/// Writes the time as it stands in front of a line.
pub fn format_timestamp_prefix(timestamp: Timestamp) -> (r: Vec<u8>)
    ensures
        r@ == prefix_text(timestamp),
        r@.len() <= TIMESTAMP_PREFIX_MAX,
{
    let mut buf: Vec<u8> = Vec::new();
    buf.push(0x5b);
    if timestamp.is_nanos {
        let seconds: u64 = timestamp.value / 1_000_000_000;
        let micros: u32 = ((timestamp.value % 1_000_000_000) / 1_000) as u32;
        let _ = write_decimal(&mut buf, seconds);
        buf.push(0x2e);
        let _ = write_fixed_width_decimal(&mut buf, micros, 6);
    } else {
        let _ = write_decimal(&mut buf, timestamp.value);
    }
    buf.push(0x5d);
    buf.push(0x20);
    proof {
        assert(buf@ =~= prefix_text(timestamp));
    }
    buf
}

/// The time that a line gets: nanoseconds where the clock can tell them,
/// ticks else, and zero ticks without a clock.
pub open spec fn timestamp_at(installed: Option<MonotonicClock>, current: u64) -> Timestamp {
    match installed {
        None => Timestamp { value: 0, is_nanos: false },
        Some(clock) => match nanos_of(
            ticks_between(clock.baseline_ticks, current),
            clock.frequency_hz,
        ) {
            Some(nanos) => Timestamp { value: nanos, is_nanos: true },
            None => Timestamp { value: ticks_between(clock.baseline_ticks, current),
                is_nanos: false },
        },
    }
}

/// Takes the time from the clock, at the counter value `current`.
pub fn capture_timestamp(installed: &Option<MonotonicClock>, current: u64) -> (r: Timestamp)
    ensures
        r == timestamp_at(*installed, current),
{
    match crate::time::monotonic_nanos(installed, current) {
        Some(nanos) => Timestamp { value: nanos, is_nanos: true },
        None => {
            let ticks: u64 = match crate::time::monotonic_ticks(installed, current) {
                Some(t) => t,
                None => 0,
            };
            Timestamp { value: ticks, is_nanos: false }
        },
    }
}

/// The line that is being written: at most 160 bytes of it.
pub struct LineBuffer {
    data: Vec<u8>,
}

impl LineBuffer {
    /// The bytes of the line.
    pub closed spec fn view(&self) -> Seq<u8> {
        self.data@
    }

    pub open spec fn wf(&self) -> bool {
        self@.len() <= MAX_LINE_CHARS
    }

    pub fn new() -> (r: Self)
        ensures
            r.wf(),
            r@ == Seq::<u8>::empty(),
    {
        LineBuffer { data: Vec::new() }
    }

    /// Adds a byte, unless the line is full.
    pub fn push(&mut self, byte: u8)
        requires
            old(self).wf(),
        ensures
            final(self).wf(),
            final(self)@ == if old(self)@.len() < MAX_LINE_CHARS {
                old(self)@.push(byte)
            } else {
                old(self)@
            },
    {
        if self.data.len() < MAX_LINE_CHARS {
            self.data.push(byte);
        }
    }

    /// Empties the line.
    pub fn clear(&mut self)
        ensures
            final(self).wf(),
            final(self)@ == Seq::<u8>::empty(),
    {
        self.data.clear();
    }

    /// Number of bytes.
    pub fn len(&self) -> (r: usize)
        ensures
            r == self@.len(),
    {
        self.data.len()
    }

    /// The bytes of the line.
    pub fn as_slice(&self) -> (r: &[u8])
        ensures
            r@ == self@,
    {
        self.data.as_slice()
    }

    /// Adds as many of the bytes as the line has room for.
    pub fn extend_from_slice(&mut self, bytes: &[u8])
        requires
            old(self).wf(),
        ensures
            final(self).wf(),
            final(self)@ == line_extended(old(self)@, bytes@),
    {
        let available: usize = MAX_LINE_CHARS - self.data.len();
        let copy_len: usize = if bytes.len() < available {
            bytes.len()
        } else {
            available
        };
        let mut i: usize = 0;
        proof {
            assert(old(self)@ + bytes@.take(0) =~= old(self)@);
        }
        while i < copy_len
            invariant
                i <= copy_len,
                copy_len <= bytes@.len(),
                old(self)@.len() + copy_len <= MAX_LINE_CHARS,
                self.data@ == old(self)@ + bytes@.take(i as int),
            decreases copy_len - i,
        {
            self.data.push(bytes[i]);
            proof {
                assert(bytes@.take(i as int).push(bytes@[i as int]) =~= bytes@.take(i as int + 1));
                assert((old(self)@ + bytes@.take(i as int)).push(bytes@[i as int]) =~= old(self)@
                    + bytes@.take(i as int + 1));
            }
            i = i + 1;
        }
    }
}

/// `line` with as many of `bytes` behind it as fit in 160 bytes.
pub open spec fn line_extended(line: Seq<u8>, bytes: Seq<u8>) -> Seq<u8> {
    let room = MAX_LINE_CHARS - line.len();
    line + bytes.take(
        if bytes.len() < room {
            bytes.len() as int
        } else {
            room
        },
    )
}

/// A line of the history, with the time at which it began.
#[derive(Clone, Copy, Debug)]
pub struct LineSlot {
    pub len: u16,
    pub timestamp: Timestamp,
    pub data: [u8; 160],
}

/// What a slot holds after `line` was written to it: its first 160 bytes.
pub open spec fn kept_line(line: Seq<u8>) -> Seq<u8> {
    if line.len() < MAX_LINE_CHARS {
        line
    } else {
        line.take(MAX_LINE_CHARS as int)
    }
}

impl LineSlot {
    /// The time and the bytes of the line.
    pub open spec fn view(&self) -> (Timestamp, Seq<u8>) {
        (self.timestamp, self.data@.take(self.len as int))
    }

    /// The bytes past the line are zero.
    pub open spec fn wf(&self) -> bool {
        &&& self.len <= MAX_LINE_CHARS
        &&& forall|i: int| self.len <= i < MAX_LINE_CHARS ==> #[trigger] self.data[i] == 0
    }

    /// A slot without a line.
    pub fn empty() -> (r: Self)
        ensures
            r.wf(),
            r.len == 0,
            r.timestamp == (Timestamp { value: 0, is_nanos: false }),
    {
        LineSlot { len: 0, timestamp: Timestamp { value: 0, is_nanos: false }, data: [0u8; 160] }
    }

    /// Keeps the time and the first 160 bytes of the line, and zeroes the
    /// rest of the slot.
    pub fn write(&mut self, timestamp: Timestamp, line: &[u8])
        ensures
            final(self).wf(),
            final(self)@ == (timestamp, kept_line(line@)),
    {
        self.timestamp = timestamp;
        let copy_len: usize = if line.len() < MAX_LINE_CHARS {
            line.len()
        } else {
            MAX_LINE_CHARS
        };
        self.len = copy_len as u16;
        let mut i: usize = 0;
        while i < MAX_LINE_CHARS
            invariant
                i <= MAX_LINE_CHARS,
                copy_len <= MAX_LINE_CHARS,
                copy_len <= line@.len(),
                self.len == copy_len,
                self.timestamp == timestamp,
                forall|j: int| 0 <= j < i && j < copy_len ==> #[trigger] self.data[j] == line@[j],
                forall|j: int| copy_len <= j < i ==> #[trigger] self.data[j] == 0,
            decreases MAX_LINE_CHARS - i,
        {
            if i < copy_len {
                self.data[i] = line[i];
            } else {
                self.data[i] = 0;
            }
            i = i + 1;
        }
        proof {
            assert(self.data@.take(copy_len as int) =~= kept_line(line@));
        }
    }
}

/// The storage of the history: one slot for each line that is kept.
pub struct ConsoleStorage {
    slots: Vec<LineSlot>,
}

impl ConsoleStorage {
    /// The slots, in order.
    pub closed spec fn view(&self) -> Seq<LineSlot> {
        self.slots@
    }

    /// Number of slots.
    pub closed spec fn capacity(&self) -> nat {
        self.slots@.len()
    }

    /// Bytes that the storage of the history takes.
    pub fn required_bytes() -> (r: usize)
        ensures
            r == HISTORY_CAPACITY * LINE_SLOT_BYTES,
    {
        HISTORY_CAPACITY * LINE_SLOT_BYTES
    }

    /// Storage of 128 slots, each without a line.
    pub fn new() -> (r: Self)
        ensures
            r.capacity() == HISTORY_CAPACITY,
            r@.len() == HISTORY_CAPACITY,
            forall|i: int|
                0 <= i < HISTORY_CAPACITY ==> (#[trigger] r@[i]).wf() && r@[i].len == 0
                    && r@[i].timestamp == (Timestamp { value: 0, is_nanos: false }),
    {
        let mut slots: Vec<LineSlot> = Vec::new();
        let mut i: usize = 0;
        while i < HISTORY_CAPACITY
            invariant
                i <= HISTORY_CAPACITY,
                slots@.len() == i,
                forall|j: int|
                    0 <= j < i ==> (#[trigger] slots@[j]).wf() && slots@[j].len == 0
                        && slots@[j].timestamp == (Timestamp { value: 0, is_nanos: false }),
            decreases HISTORY_CAPACITY - i,
        {
            slots.push(LineSlot::empty());
            i = i + 1;
        }
        ConsoleStorage { slots }
    }

    /// The slots.
    pub fn into_slots(self) -> (r: Vec<LineSlot>)
        ensures
            r@ == self@,
            r@.len() == self.capacity(),
    {
        self.slots
    }
}

/// Why the console could not be set up.
#[derive(Debug, Clone, Copy, PartialEq, Eq, Structural)]
pub enum ConsoleInitError {
    AlreadyInitialized,
    FramebufferUnavailable,
}

/// The history with one more line: the oldest line leaves once the history
/// is full, and a history without room keeps nothing.
pub open spec fn history_pushed(
    lines: Seq<(Timestamp, Seq<u8>)>,
    capacity: nat,
    entry: (Timestamp, Seq<u8>),
) -> Seq<(Timestamp, Seq<u8>)> {
    if capacity == 0 {
        lines
    } else if lines.len() < capacity {
        lines.push(entry)
    } else {
        lines.skip(1).push(entry)
    }
}

/// The last lines that were written, oldest first.
pub struct History {
    slots: Vec<LineSlot>,
    start: usize,
    len: usize,
}

impl History {
    /// Number of lines that the history has room for.
    pub closed spec fn capacity(&self) -> nat {
        self.slots@.len()
    }

    /// The lines, oldest first, each with the time at which it began.
    pub closed spec fn view(&self) -> Seq<(Timestamp, Seq<u8>)> {
        Seq::new(
            self.len as nat,
            |i: int| self.slots@[(self.start + i) % (self.slots@.len() as int)]@,
        )
    }

    pub closed spec fn wf(&self) -> bool {
        &&& self.len <= self.slots@.len()
        &&& self.slots@.len() > 0 ==> self.start < self.slots@.len()
        &&& self.slots@.len() == 0 ==> self.start == 0
        &&& self.len < self.slots@.len() ==> self.start == 0
    }

    /// A history without lines over the slots given.
    pub fn new(slots: Vec<LineSlot>) -> (r: Self)
        ensures
            r.wf(),
            r.capacity() == slots@.len(),
            r@ == Seq::<(Timestamp, Seq<u8>)>::empty(),
    {
        let r = History { slots, start: 0, len: 0 };
        proof {
            assert(r@ =~= Seq::<(Timestamp, Seq<u8>)>::empty());
        }
        r
    }

    /// Number of lines.
    pub fn len(&self) -> (r: usize)
        ensures
            r == self@.len(),
    {
        self.len
    }

    /// Adds a line. Once the history is full the oldest line makes room.
    pub fn push(&mut self, timestamp: Timestamp, line: &[u8])
        requires
            old(self).wf(),
        ensures
            final(self).wf(),
            final(self).capacity() == old(self).capacity(),
            final(self)@ == history_pushed(
                old(self)@,
                old(self).capacity(),
                (timestamp, kept_line(line@)),
            ),
    {
        if self.slots.len() == 0 {
            return ;
        }
        let capacity: usize = self.slots.len();
        let index: usize = if self.len < capacity {
            self.len
        } else {
            self.start
        };
        let ghost before = *self;
        let mut slot: LineSlot = self.slots[index];
        slot.write(timestamp, line);
        self.slots.set(index, slot);
        if self.len < capacity {
            self.len = self.len + 1;
            proof {
                assert forall|i: int| 0 <= i < self.len implies #[trigger] self@[i]
                    == history_pushed(
                    before@,
                    capacity as nat,
                    (timestamp, kept_line(line@)),
                )[i] by {
                    vstd::arithmetic::div_mod::lemma_small_mod(i as nat, capacity as nat);
                    assert((0 + i) % (capacity as int) == i);
                    if i < before.len {
                        assert(before@[i] == before.slots@[(0 + i) % (capacity as int)]@);
                    }
                }
                assert(self@ =~= history_pushed(
                    before@,
                    capacity as nat,
                    (timestamp, kept_line(line@)),
                ));
            }
        } else {
            let next: usize = if self.start + 1 < capacity {
                self.start + 1
            } else {
                0
            };
            self.start = next;
            proof {
                let cap = capacity as int;
                let s = before.start as int;
                assert forall|i: int| 0 <= i < self.len implies #[trigger] self@[i]
                    == history_pushed(
                    before@,
                    capacity as nat,
                    (timestamp, kept_line(line@)),
                )[i] by {
                    let at = (next + i) % cap;
                    if i < cap - 1 {
                        lemma_ring_step(s, i, cap);
                        assert(at == (s + (i + 1)) % cap);
                        assert(at != s);
                        assert(before@[i + 1] == before.slots@[(s + (i + 1)) % cap]@);
                    } else {
                        lemma_ring_last(s, cap);
                        assert(at == s);
                    }
                }
                assert(self@ =~= history_pushed(
                    before@,
                    capacity as nat,
                    (timestamp, kept_line(line@)),
                ));
            }
        }
    }
}

/// In a ring of `cap` slots that starts at `s`, slot `i` of the ring that
/// starts one slot later is slot `i + 1`, and it is not the slot `s`.
proof fn lemma_ring_step(s: int, i: int, cap: int)
    requires
        0 <= s < cap,
        0 <= i < cap - 1,
    ensures
        ((if s + 1 < cap {
            s + 1
        } else {
            0
        }) + i) % cap == (s + (i + 1)) % cap,
        (s + (i + 1)) % cap != s,
{
    if s + 1 < cap {
    } else {
        assert(s + (i + 1) == cap + i);
        assert((cap + i) % cap == i % cap) by {
            vstd::arithmetic::div_mod::lemma_mod_add_multiples_vanish(i, cap);
        }
    }
    if s + i + 1 < cap {
        vstd::arithmetic::div_mod::lemma_small_mod((s + i + 1) as nat, cap as nat);
    } else {
        vstd::arithmetic::div_mod::lemma_mod_add_multiples_vanish(s + i + 1 - cap, cap);
        vstd::arithmetic::div_mod::lemma_small_mod((s + i + 1 - cap) as nat, cap as nat);
    }
}

/// The last slot of the ring that starts one slot after `s` is `s`.
proof fn lemma_ring_last(s: int, cap: int)
    requires
        0 <= s < cap,
    ensures
        ((if s + 1 < cap {
            s + 1
        } else {
            0
        }) + (cap - 1)) % cap == s,
{
    if s + 1 < cap {
        assert(s + 1 + (cap - 1) == cap + s);
        vstd::arithmetic::div_mod::lemma_mod_add_multiples_vanish(s, cap);
        vstd::arithmetic::div_mod::lemma_small_mod(s as nat, cap as nat);
    } else {
        vstd::arithmetic::div_mod::lemma_small_mod((cap - 1) as nat, cap as nat);
    }
}

/// What stays the same while the console writes: where it draws, how wide
/// it is, and how many lines its history keeps.
pub struct ConsoleShape {
    pub surface: FramebufferSurface,
    pub viewport: Viewport,
    pub color: FramebufferColor,
    pub columns: usize,
    pub capacity: nat,
}

/// What changes while the console writes: the cursor and the pixels on the
/// screen, the history, the line that is being written, the column that
/// the line has reached, and the time at which the line began.
pub struct ConsoleModel {
    pub cursor: Cursor,
    pub pixels: Seq<u32>,
    pub history: Seq<(Timestamp, Seq<u8>)>,
    pub line: Seq<u8>,
    pub column: usize,
    pub stamp: Option<Timestamp>,
}

/// The console after `bytes` went to the screen.
pub open spec fn screen_written(
    shape: ConsoleShape,
    m: ConsoleModel,
    bytes: Seq<u8>,
) -> ConsoleModel {
    let (cursor, pixels) = after_bytes(
        shape.surface,
        shape.viewport,
        shape.color,
        m.cursor,
        m.pixels,
        bytes,
    );
    ConsoleModel { cursor, pixels, ..m }
}

/// The console after the line was closed: the line goes to the history,
/// with the time at which it began, or `now` if it has none.
pub open spec fn line_finished(
    shape: ConsoleShape,
    m: ConsoleModel,
    now: Timestamp,
) -> ConsoleModel {
    let began = match m.stamp {
        Some(t) => t,
        None => now,
    };
    ConsoleModel {
        history: history_pushed(m.history, shape.capacity, (began, kept_line(m.line))),
        line: Seq::empty(),
        column: 0,
        stamp: None,
        ..m
    }
}

/// `a + b`, capped at the largest `usize`.
pub open spec fn capped_columns(a: usize, b: nat) -> usize {
    if a + b > usize::MAX {
        usize::MAX
    } else {
        (a + b) as usize
    }
}

/// The console after it made sure that the line begins with its time: an
/// empty line gets the time, on the screen and in the line, and is closed
/// at once if the time fills the row.
pub open spec fn prefix_ensured(
    shape: ConsoleShape,
    m: ConsoleModel,
    now: Timestamp,
) -> ConsoleModel {
    if m.line.len() != 0 {
        m
    } else {
        let began = match m.stamp {
            Some(t) => t,
            None => now,
        };
        let text = prefix_text(began);
        let stamped = ConsoleModel {
            stamp: Some(began),
            line: line_extended(m.line, text),
            ..m
        };
        let shown = screen_written(shape, stamped, text);
        if shape.columns > 0 {
            let reached = capped_columns(m.column, text.len());
            let column = if reached < shape.columns {
                reached
            } else {
                shape.columns
            };
            let placed = ConsoleModel { column, ..shown };
            if column >= shape.columns {
                line_finished(shape, placed, now)
            } else {
                placed
            }
        } else {
            shown
        }
    }
}

/// The console after one byte: a line feed closes the line, a carriage
/// return drops it, and any other byte joins it, on a new line if the row
/// is full.
pub open spec fn byte_handled(
    shape: ConsoleShape,
    m: ConsoleModel,
    byte: u8,
    now: Timestamp,
) -> ConsoleModel {
    let shown = sanitized(byte);
    if shown == 0x0a {
        line_finished(shape, screen_written(shape, prefix_ensured(shape, m, now), seq![shown]), now)
    } else if shown == 0x0d {
        ConsoleModel {
            line: Seq::empty(),
            column: 0,
            stamp: None,
            ..screen_written(shape, m, seq![shown])
        }
    } else {
        let begun = prefix_ensured(shape, m, now);
        let wrapped = if shape.columns > 0 && begun.column >= shape.columns {
            prefix_ensured(shape, line_finished(shape, begun, now), now)
        } else {
            begun
        };
        let joined = ConsoleModel {
            line: if wrapped.line.len() < MAX_LINE_CHARS {
                wrapped.line.push(shown)
            } else {
                wrapped.line
            },
            ..wrapped
        };
        let drawn = screen_written(shape, joined, seq![shown]);
        if shape.columns > 0 {
            ConsoleModel { column: capped_columns(drawn.column, 1), ..drawn }
        } else {
            drawn
        }
    }
}

/// The console after the bytes, one after another, all at the time `now`.
pub open spec fn bytes_handled(
    shape: ConsoleShape,
    m: ConsoleModel,
    bytes: Seq<u8>,
    now: Timestamp,
) -> ConsoleModel
    decreases bytes.len(),
{
    if bytes.len() == 0 {
        m
    } else {
        byte_handled(shape, bytes_handled(shape, m, bytes.drop_last(), now), bytes.last(), now)
    }
}

/// The console.
pub struct ConsoleState {
    fb: FramebufferConsole,
    history: History,
    line: LineBuffer,
    current_column: usize,
    columns: usize,
    current_timestamp: Option<Timestamp>,
}

impl ConsoleState {
    /// What stays the same while the console writes.
    pub closed spec fn shape(&self) -> ConsoleShape {
        ConsoleShape {
            surface: self.fb.surface(),
            viewport: self.fb.viewport(),
            color: self.fb.color(),
            columns: self.columns,
            capacity: self.history.capacity(),
        }
    }

    /// What changes while the console writes, with `pixels` on the screen.
    pub closed spec fn model(&self, pixels: Seq<u32>) -> ConsoleModel {
        ConsoleModel {
            cursor: self.fb.cursor(),
            pixels,
            history: self.history@,
            line: self.line@,
            column: self.current_column,
            stamp: self.current_timestamp,
        }
    }

    /// The screen has cells, and the parts of the console are well formed.
    pub closed spec fn wf(&self) -> bool {
        &&& self.fb.wf()
        &&& self.fb.viewport().cols > 0
        &&& self.fb.viewport().rows > 0
        &&& self.history.wf()
        &&& self.line.wf()
    }

    /// A console that writes through `fb` and keeps its history in `slots`.
    pub fn new(fb: FramebufferConsole, slots: Vec<LineSlot>) -> (r: Self)
        requires
            fb.wf(),
            fb.viewport().cols > 0,
            fb.viewport().rows > 0,
        ensures
            r.wf(),
            r.shape() == (ConsoleShape {
                surface: fb.surface(),
                viewport: fb.viewport(),
                color: fb.color(),
                columns: fb.viewport().cols,
                capacity: slots@.len(),
            }),
            forall|pixels: Seq<u32>| #[trigger]
                r.model(pixels) == (ConsoleModel {
                    cursor: fb.cursor(),
                    pixels,
                    history: Seq::empty(),
                    line: Seq::empty(),
                    column: 0,
                    stamp: None,
                }),
    {
        let columns: usize = fb.cols();
        ConsoleState {
            fb,
            history: History::new(slots),
            line: LineBuffer::new(),
            current_column: 0,
            columns,
            current_timestamp: None,
        }
    }

    /// The lines of the history, oldest first.
    pub fn history_len(&self) -> (r: usize)
        ensures
            r == self.model(Seq::empty()).history.len(),
    {
        self.history.len()
    }

    /// The line that is being written.
    pub fn current_line(&self) -> (r: &[u8])
        ensures
            r@ == self.model(Seq::empty()).line,
    {
        self.line.as_slice()
    }

    /// Writes the bytes, one after another. `now` is the time that a line
    /// gets that begins with one of them.
    pub fn handle_str(&mut self, pixels: &mut [u32], bytes: &[u8], now: Timestamp) -> (r: Result<
        (),
        (),
    >)
        requires
            old(self).wf(),
        ensures
            final(self).wf(),
            final(self).shape() == old(self).shape(),
            final(pixels)@.len() == old(pixels)@.len(),
            r is Ok,
            final(self).model(final(pixels)@) == bytes_handled(
                old(self).shape(),
                old(self).model(old(pixels)@),
                bytes@,
                now,
            ),
    {
        let n: usize = bytes.len();
        let mut i: usize = 0;
        proof {
            assert(bytes@.take(0) =~= Seq::<u8>::empty());
        }
        while i < n
            invariant
                i <= n,
                n == bytes@.len(),
                self.wf(),
                self.shape() == old(self).shape(),
                pixels@.len() == old(pixels)@.len(),
                self.model(pixels@) == bytes_handled(
                    old(self).shape(),
                    old(self).model(old(pixels)@),
                    bytes@.take(i as int),
                    now,
                ),
            decreases n - i,
        {
            proof {
                assert(bytes@.take(i as int + 1).drop_last() =~= bytes@.take(i as int));
                assert(bytes@.take(i as int + 1).last() == bytes@[i as int]);
            }
            match self.handle_byte(pixels, bytes[i], now) {
                Err(e) => {
                    return Err(e);
                },
                Ok(_) => {},
            }
            i = i + 1;
        }
        proof {
            assert(bytes@.take(n as int) =~= bytes@);
        }
        Ok(())
    }

    /// Writes one byte.
    pub fn handle_byte(&mut self, pixels: &mut [u32], byte: u8, now: Timestamp) -> (r: Result<
        (),
        (),
    >)
        requires
            old(self).wf(),
        ensures
            final(self).wf(),
            final(self).shape() == old(self).shape(),
            final(pixels)@.len() == old(pixels)@.len(),
            r is Ok,
            final(self).model(final(pixels)@) == byte_handled(
                old(self).shape(),
                old(self).model(old(pixels)@),
                byte,
                now,
            ),
    {
        let shown: u8 = sanitize_byte(byte);
        let one: [u8; 1] = [shown];
        proof {
            lemma_one_byte(
                self.fb.surface(),
                self.fb.viewport(),
                self.fb.color(),
                shown,
            );
            assert(one@ =~= seq![shown]);
        }
        if shown == 0x0a {
            match self.ensure_line_prefix(pixels, now) {
                Err(e) => {
                    return Err(e);
                },
                Ok(_) => {},
            }
            match self.fb.write_bytes(pixels, one.as_slice()) {
                Err(e) => {
                    return Err(e);
                },
                Ok(_) => {},
            }
            self.finish_line(now);
        } else if shown == 0x0d {
            match self.fb.write_bytes(pixels, one.as_slice()) {
                Err(e) => {
                    return Err(e);
                },
                Ok(_) => {},
            }
            self.line.clear();
            self.current_column = 0;
            self.current_timestamp = None;
        } else {
            match self.ensure_line_prefix(pixels, now) {
                Err(e) => {
                    return Err(e);
                },
                Ok(_) => {},
            }
            if self.columns > 0 && self.current_column >= self.columns {
                self.finish_line(now);
                match self.ensure_line_prefix(pixels, now) {
                    Err(e) => {
                        return Err(e);
                    },
                    Ok(_) => {},
                }
            }
            if self.line.len() < MAX_LINE_CHARS {
                self.line.push(shown);
            }
            match self.fb.write_bytes(pixels, one.as_slice()) {
                Err(e) => {
                    return Err(e);
                },
                Ok(_) => {},
            }
            if self.columns > 0 {
                self.current_column = self.current_column.saturating_add(1);
            }
        }
        Ok(())
    }

    /// Closes the line: it goes to the history with the time at which it
    /// began, or with `now` if it has none.
    pub fn finish_line(&mut self, now: Timestamp)
        requires
            old(self).wf(),
        ensures
            final(self).wf(),
            final(self).shape() == old(self).shape(),
            forall|pixels: Seq<u32>| #[trigger]
                final(self).model(pixels) == line_finished(
                    old(self).shape(),
                    old(self).model(pixels),
                    now,
                ),
    {
        let timestamp: Timestamp = match self.current_timestamp {
            Some(t) => t,
            None => now,
        };
        self.history.push(timestamp, self.line.as_slice());
        self.line.clear();
        self.current_column = 0;
        self.current_timestamp = None;
    }

    /// Makes sure that the line begins with its time.
    pub fn ensure_line_prefix(&mut self, pixels: &mut [u32], now: Timestamp) -> (r: Result<(), ()>)
        requires
            old(self).wf(),
        ensures
            final(self).wf(),
            final(self).shape() == old(self).shape(),
            final(pixels)@.len() == old(pixels)@.len(),
            r is Ok,
            final(self).model(final(pixels)@) == prefix_ensured(
                old(self).shape(),
                old(self).model(old(pixels)@),
                now,
            ),
    {
        if self.line.len() == 0 {
            let timestamp: Timestamp = match self.current_timestamp {
                Some(t) => t,
                None => now,
            };
            self.current_timestamp = Some(timestamp);
            let prefix: Vec<u8> = format_timestamp_prefix(timestamp);
            let prefix_len: usize = prefix.len();
            self.line.extend_from_slice(prefix.as_slice());
            match self.fb.write_bytes(pixels, prefix.as_slice()) {
                Err(e) => {
                    return Err(e);
                },
                Ok(_) => {},
            }
            if self.columns > 0 {
                let reached: usize = self.current_column.saturating_add(prefix_len);
                self.current_column = if reached < self.columns {
                    reached
                } else {
                    self.columns
                };
                if self.current_column >= self.columns {
                    self.finish_line(now);
                    return Ok(());
                }
            }
        }
        Ok(())
    }
}

/// Writing one byte is writing the bytes of a list of one.
proof fn lemma_one_byte(
    surface: FramebufferSurface,
    viewport: Viewport,
    color: FramebufferColor,
    byte: u8,
)
    ensures
        forall|cursor: Cursor, px: Seq<u32>| #[trigger]
            after_bytes(surface, viewport, color, cursor, px, seq![byte])
                == crate::framebuffer::text::after_byte(surface, viewport, color, cursor, px, byte),
{
    assert forall|cursor: Cursor, px: Seq<u32>| #[trigger]
        after_bytes(surface, viewport, color, cursor, px, seq![byte])
            == crate::framebuffer::text::after_byte(surface, viewport, color, cursor, px, byte) by {
        let one = seq![byte];
        assert(one.drop_last() =~= Seq::<u8>::empty());
        assert(one.last() == byte);
        assert(after_bytes(surface, viewport, color, cursor, px, one.drop_last()) == (cursor, px));
    }
}

/// What setting the console up comes to, given whether one is set up
/// already: the console is refused if one is, and if the framebuffer has
/// no room for a cell or for the grid.
pub open spec fn console_ready(installed: bool, fb: Framebuffer, len: int) -> Result<
    (),
    ConsoleInitError,
> {
    let surface = if surface_of(fb).usable() {
        surface_of(fb)
    } else {
        empty_surface()
    };
    let v = viewport_of(surface, 0, FONT_HEIGHT);
    if installed {
        Err(ConsoleInitError::AlreadyInitialized)
    } else if !(v.cols > 0 && v.rows > 0) || !drawable(
        surface,
        len,
        v.origin_x,
        v.origin_y,
        capped_cells(v.cols, FONT_WIDTH),
        capped_cells(v.rows, LINE_STRIDE),
    ) {
        Err(ConsoleInitError::FramebufferUnavailable)
    } else {
        Ok(())
    }
}

/// Sets the console up on the framebuffer: the grid starts one line below
/// the top of the screen, and is blacked out.
pub fn init(
    installed: bool,
    framebuffer: Framebuffer,
    pixels: &mut [u32],
    color: FramebufferColor,
    storage: ConsoleStorage,
) -> (r: Result<ConsoleState, ConsoleInitError>)
    ensures
        final(pixels)@.len() == old(pixels)@.len(),
        match console_ready(installed, framebuffer, old(pixels)@.len() as int) {
            Err(e) => r == Err::<ConsoleState, _>(e) && final(pixels)@ == old(pixels)@,
            Ok(_) => r is Ok && r->Ok_0.wf() && r->Ok_0.shape().color == color
                && r->Ok_0.shape().capacity == storage.capacity() && r->Ok_0.shape().columns
                == r->Ok_0.shape().viewport.cols && r->Ok_0.shape().surface == surface_of(
                framebuffer,
            ) && r->Ok_0.shape().viewport == viewport_of(surface_of(framebuffer), 0, FONT_HEIGHT)
                && final(pixels)@ == rect_filled(
                surface_of(framebuffer),
                old(pixels)@,
                0,
                FONT_HEIGHT,
                capped_cells(r->Ok_0.shape().viewport.cols, FONT_WIDTH),
                capped_cells(r->Ok_0.shape().viewport.rows, LINE_STRIDE),
                FramebufferColor::spec_black(),
            ) && r->Ok_0.model(final(pixels)@).cursor == (Cursor { col: 0, row: 0 })
                && r->Ok_0.model(final(pixels)@).history.len() == 0 && r->Ok_0.model(
                final(pixels)@,
            ).line.len() == 0,
        },
{
    if installed {
        return Err(ConsoleInitError::AlreadyInitialized);
    }
    let mut console = FramebufferConsole::new(framebuffer, 0, FONT_HEIGHT, color);
    if !console.is_usable() {
        return Err(ConsoleInitError::FramebufferUnavailable);
    }
    match console.clear(pixels) {
        Err(_) => {
            return Err(ConsoleInitError::FramebufferUnavailable);
        },
        Ok(_) => {},
    }
    Ok(ConsoleState::new(console, storage.into_slots()))
}

} // verus!

//! The events of the data file that the profiler writes, and the parts of
//! their encoding that are this project's own: identifiers in hexadecimal,
//! the frame count of a partial backtrace, and length-prefixed frames.

use vstd::prelude::*;
use crate::timestamp::Timestamp;

verus! {

/// The header flag that marks data recorded on a little-endian machine.
pub const HEADER_FLAG_IS_LITTLE_ENDIAN: u64 = 1;
/// The allocation flag of a chunk that `calloc` handed out.
pub const ALLOC_FLAG_CALLOC: u32 = 0x8000_0000;
/// The allocation flag set on the chunk before this one being in use.
pub const ALLOC_FLAG_PREV_IN_USE: u32 = 1;
/// The allocation flag of a chunk that was mapped on its own.
pub const ALLOC_FLAG_MMAPED: u32 = 2;
/// The allocation flag of a chunk from an arena other than the main one.
pub const ALLOC_FLAG_NON_MAIN_ARENA: u32 = 4;

/// The identifier of one recording: two 64-bit halves.
#[derive(Copy, Clone, PartialEq, Eq, Hash, Debug, Structural)]
pub struct DataId(pub u64, pub u64);

impl DataId {
    pub fn new(a: u64, b: u64) -> (id: DataId)
        ensures
            id.0 == a,
            id.1 == b,
    {
        DataId(a, b)
    }
}

/// The lowercase hexadecimal digit of `nibble`.
pub open spec fn hex_digit(nibble: u64) -> u8 {
    if nibble < 10 {
        (48 + nibble) as u8
    } else {
        (87 + nibble) as u8
    }
}

/// The value of hexadecimal digit `c`, in either case, if it is one.
pub open spec fn hex_value(c: u8) -> Option<u64> {
    if 48 <= c <= 57 {
        Some((c - 48) as u64)
    } else if 97 <= c <= 102 {
        Some((c - 87) as u64)
    } else if 65 <= c <= 70 {
        Some((c - 55) as u64)
    } else {
        None
    }
}

/// The `n` lowest hexadecimal digits of `value`, most significant first.
pub open spec fn hex_digits(value: nat, n: nat) -> Seq<u8>
    decreases n,
{
    if n == 0 {
        Seq::empty()
    } else {
        hex_digits(value / 16, (n - 1) as nat).push(hex_digit((value % 16) as u64))
    }
}

/// The value of a sequence of hexadecimal digits, if every byte is one.
pub open spec fn hex_number(digits: Seq<u8>) -> Option<nat>
    decreases digits.len(),
{
    if digits.len() == 0 {
        Some(0)
    } else {
        match (hex_number(digits.drop_last()), hex_value(digits.last())) {
            (Some(high), Some(low)) => Some(high * 16 + low as nat),
            _ => None,
        }
    }
}

/// What `u64::from_str_radix(_, 16)` makes of `text`: an optional `+`,
/// then at least one hexadecimal digit, with a value that fits in 64 bits.
pub open spec fn parse_hex_u64(text: Seq<u8>) -> Option<u64> {
    let digits = if text.len() > 0 && text[0] == 43 {
        text.drop_first()
    } else {
        text
    };
    if digits.len() == 0 {
        None
    } else {
        match hex_number(digits) {
            Some(v) => if v <= u64::MAX {
                Some(v as u64)
            } else {
                None
            },
            None => None,
        }
    }
}

/// The 32 lowercase hexadecimal digits of an identifier: those of its
/// first half, then those of its second half.
pub open spec fn data_id_text(id: DataId) -> Seq<u8> {
    hex_digits(id.0 as nat, 16) + hex_digits(id.1 as nat, 16)
}

/// What an identifier written as `text` stands for: 32 bytes, each half
/// read as a hexadecimal number.
pub open spec fn parse_data_id_text(text: Seq<u8>) -> Option<DataId> {
    if text.len() != 32 {
        None
    } else {
        match (parse_hex_u64(text.subrange(0, 16)), parse_hex_u64(text.subrange(16, 32))) {
            (Some(a), Some(b)) => Some(DataId(a, b)),
            _ => None,
        }
    }
}

/// Sixteen to the power `n`.
pub open spec fn pow16(n: nat) -> nat
    decreases n,
{
    if n == 0 {
        1
    } else {
        16 * pow16((n - 1) as nat)
    }
}

proof fn lemma_pow16_positive(n: nat)
    ensures
        pow16(n) >= 1,
    decreases n,
{
    if n > 0 {
        lemma_pow16_positive((n - 1) as nat);
    }
}

/// Appends the 16 hexadecimal digits of `value`.
fn push_hex_digits(out: &mut Vec<u8>, value: u64)
    ensures
        final(out)@ == old(out)@ + hex_digits(value as nat, 16),
{
    let ghost start = out@;
    let mut divisor: u64 = 0x1000_0000_0000_0000;
    let mut done: u64 = 0;
    proof {
        assert(pow16(15) == 0x1000_0000_0000_0000) by { reveal_with_fuel(pow16, 17); }
        assert(pow16(16) == 0x1_0000_0000_0000_0000) by { reveal_with_fuel(pow16, 17); }
        assert((value as nat) / pow16(16) == 0);
        assert(hex_digits(0, 0) =~= Seq::<u8>::empty());
        assert(out@ =~= start + hex_digits((value as nat) / pow16(16), 0));
    }
    while done < 16
        invariant
            0 <= done <= 16,
            done < 16 ==> divisor == pow16((15 - done) as nat),
            out@ == start + hex_digits((value as nat) / pow16((16 - done) as nat), done as nat),
        decreases 16 - done,
    {
        proof {
            lemma_pow16_positive((15 - done) as nat);
        }
        let nibble = (value / divisor) % 16;
        let digit: u8 = if nibble < 10 {
            48 + nibble as u8
        } else {
            87 + nibble as u8
        };
        proof {
            let p = pow16((15 - done) as nat);
            let x = (value as nat) / p;
            vstd::arithmetic::div_mod::lemma_div_denominator(value as int, p as int, 16);
            assert(pow16((16 - done) as nat) == p * 16);
            assert(x / 16 == (value as nat) / pow16((16 - done) as nat));
            assert(hex_digits(x, (done + 1) as nat) == hex_digits(x / 16, done as nat).push(
                hex_digit((x % 16) as u64),
            ));
            assert(digit == hex_digit((x % 16) as u64));
        }
        out.push(digit);
        if done < 15 {
            divisor = divisor / 16;
        }
        done = done + 1;
    }
    proof {
        assert(pow16(0) == 1);
        assert((value as nat) / 1 == value as nat);
    }
}

/// Parses `text` as `u64::from_str_radix(text, 16)` does.
fn parse_hex(text: &[u8], start: usize, end: usize) -> (value: Option<u64>)
    requires
        start <= end <= text@.len(),
    ensures
        value == parse_hex_u64(text@.subrange(start as int, end as int)),
{
    let ghost whole = text@.subrange(start as int, end as int);
    let mut i = start;
    if i < end && text[i] == 43 {
        i = i + 1;
    }
    let ghost digits = text@.subrange(i as int, end as int);
    proof {
        if whole.len() > 0 && whole[0] == 43 {
            assert(whole.drop_first() =~= digits);
        } else {
            assert(whole =~= digits);
        }
    }
    if i == end {
        return None;
    }
    let first = i;
    let mut value: u64 = 0;
    while i < end
        invariant
            first <= i <= end <= text@.len(),
            start <= first,
            first < end,
            whole == text@.subrange(start as int, end as int),
            whole.len() > 0 && whole[0] == 43 ==> whole.drop_first() == digits,
            !(whole.len() > 0 && whole[0] == 43) ==> whole == digits,
            digits == text@.subrange(first as int, end as int),
            hex_number(text@.subrange(first as int, i as int)) == Some(value as nat),
        decreases end - i,
    {
        let c = text[i];
        let digit: u64 = if 48 <= c && c <= 57 {
            (c - 48) as u64
        } else if 97 <= c && c <= 102 {
            (c - 87) as u64
        } else if 65 <= c && c <= 70 {
            (c - 55) as u64
        } else {
            proof {
                assert(text@.subrange(first as int, end as int)[(i - first) as int] == c);
                lemma_hex_number_prefix_fails(text@.subrange(first as int, end as int), (i - first) as int);
            }
            return None;
        };
        proof {
            assert(text@.subrange(first as int, i + 1).drop_last() =~= text@.subrange(first as int, i as int));
            assert(text@.subrange(first as int, i + 1).last() == c);
        }
        if value > 0x0fff_ffff_ffff_ffff {
            proof {
                let ds = text@.subrange(first as int, end as int);
                assert(ds.subrange(0, (i - first) as int) =~= text@.subrange(first as int, i as int));
                assert(ds[(i - first) as int] == c);
                lemma_hex_number_too_big(ds, (i + 1 - first) as int);
            }
            return None;
        }
        value = value * 16 + digit;
        i = i + 1;
    }
    proof {
        assert(text@.subrange(first as int, end as int) =~= digits);
    }
    Some(value)
}

/// A byte that is no digit makes every longer sequence fail too.
proof fn lemma_hex_number_prefix_fails(digits: Seq<u8>, k: int)
    requires
        0 <= k < digits.len(),
        hex_value(digits[k]) is None,
    ensures
        hex_number(digits) is None,
    decreases digits.len(),
{
    if k < digits.len() - 1 {
        assert(digits.drop_last()[k] == digits[k]);
        lemma_hex_number_prefix_fails(digits.drop_last(), k);
    }
}

/// A prefix of digits with a value of 2^64 or more makes every longer
/// sequence either fail or be that large too.
proof fn lemma_hex_number_too_big(digits: Seq<u8>, k: int)
    requires
        1 <= k <= digits.len(),
        hex_number(digits.subrange(0, k - 1)) matches Some(v) && v > 0x0fff_ffff_ffff_ffff,
        hex_value(digits[k - 1]) is Some,
    ensures
        hex_number(digits) matches Some(v) ==> v > u64::MAX,
    decreases digits.len(),
{
    if k == digits.len() {
        assert(digits.drop_last() =~= digits.subrange(0, k - 1));
    } else {
        assert(digits.drop_last().subrange(0, k - 1) =~= digits.subrange(0, k - 1));
        assert(digits.drop_last()[k - 1] == digits[k - 1]);
        lemma_hex_number_too_big(digits.drop_last(), k);
        if let Some(v) = hex_number(digits) {
            let high = hex_number(digits.drop_last()).unwrap();
            assert(high * 16 >= high);
        }
    }
}

impl DataId {
    /// The identifier as 32 lowercase hexadecimal digits.
    pub fn to_text(&self) -> (text: Vec<u8>)
        ensures
            text@ == data_id_text(*self),
    {
        let mut text: Vec<u8> = Vec::new();
        push_hex_digits(&mut text, self.0);
        push_hex_digits(&mut text, self.1);
        proof {
            assert(text@ =~= data_id_text(*self));
        }
        text
    }

    /// Reads an identifier written as 32 hexadecimal digits.
    pub fn parse(text: &[u8]) -> (id: Option<DataId>)
        ensures
            id == parse_data_id_text(text@),
    {
        if text.len() != 32 {
            return None;
        }
        let a = match parse_hex(text, 0, 16) {
            Some(a) => a,
            None => return None,
        };
        let b = match parse_hex(text, 16, 32) {
            Some(b) => b,
            None => return None,
        };
        Some(DataId(a, b))
    }
}

/// Writing an identifier and reading it back gives the identifier.
pub proof fn lemma_data_id_round_trip(id: DataId)
    ensures
        parse_data_id_text(data_id_text(id)) == Some(id),
{
    lemma_hex_round_trip(id.0 as nat, 16);
    lemma_hex_round_trip(id.1 as nat, 16);
    let text = data_id_text(id);
    lemma_hex_digits_len(id.0 as nat, 16);
    lemma_hex_digits_len(id.1 as nat, 16);
    assert(text.subrange(0, 16) =~= hex_digits(id.0 as nat, 16));
    assert(text.subrange(16, 32) =~= hex_digits(id.1 as nat, 16));
    lemma_hex_digits_no_plus(id.0 as nat, 16);
    lemma_hex_digits_no_plus(id.1 as nat, 16);
    assert(pow16(16) == 0x1_0000_0000_0000_0000) by { reveal_with_fuel(pow16, 17); }
    vstd::arithmetic::div_mod::lemma_small_mod(id.0 as nat, pow16(16));
    vstd::arithmetic::div_mod::lemma_small_mod(id.1 as nat, pow16(16));
}

proof fn lemma_hex_digits_no_plus(value: nat, n: nat)
    requires
        n > 0,
    ensures
        hex_digits(value, n)[0] != 43,
        hex_digits(value, n).len() == n,
    decreases n,
{
    lemma_hex_digits_len(value, n);
    if n > 1 {
        lemma_hex_digits_no_plus(value / 16, (n - 1) as nat);
        assert(hex_digits(value, n)[0] == hex_digits(value / 16, (n - 1) as nat)[0]);
    } else {
        assert(hex_digits(value / 16, 0) =~= Seq::<u8>::empty());
    }
}

proof fn lemma_hex_digits_len(value: nat, n: nat)
    ensures
        hex_digits(value, n).len() == n,
    decreases n,
{
    if n > 0 {
        lemma_hex_digits_len(value / 16, (n - 1) as nat);
    }
}

/// The digits of a number read back as the number, modulo 16^n.
proof fn lemma_hex_round_trip(value: nat, n: nat)
    ensures
        hex_number(hex_digits(value, n)) == Some(value % pow16(n)),
    decreases n,
{
    lemma_pow16_positive(n);
    if n == 0 {
        assert(value % 1 == 0);
    } else {
        lemma_hex_round_trip(value / 16, (n - 1) as nat);
        lemma_hex_digits_len(value, n);
        let d = hex_digits(value, n);
        assert(d.drop_last() =~= hex_digits(value / 16, (n - 1) as nat));
        let low = value % 16;
        assert(hex_value(hex_digit(low as u64)) == Some(low as u64));
        lemma_pow16_positive((n - 1) as nat);
        let p = pow16((n - 1) as nat);
        // value % (16 * p) == (value / 16 % p) * 16 + value % 16
        vstd::arithmetic::div_mod::lemma_breakdown(value as int, 16, p as int);
        assert(pow16(n) == 16 * p);
    }
}

/// The first event of a recording: what was recorded, where and when.
#[derive(Clone, PartialEq, Debug)]
pub struct HeaderBody {
    pub id: DataId,
    pub initial_timestamp: Timestamp,
    pub timestamp: Timestamp,
    pub wall_clock_secs: u64,
    pub wall_clock_nsecs: u64,
    pub pid: u32,
    pub cmdline: Vec<u8>,
    pub executable: Vec<u8>,
    pub arch: String,
    pub flags: u64,
    pub pointer_size: u8,
}

/// One allocation as an event records it.
#[derive(Clone, Copy, PartialEq, Debug)]
pub struct AllocBody {
    pub pointer: u64,
    pub size: u64,
    pub backtrace: u64,
    pub thread: u32,
    pub flags: u32,
    pub extra_usable_space: u32,
    pub preceding_free_space: u64,
}

/// How much of a thread's previous backtrace a partial backtrace replaces:
/// all of it, or that many of its innermost frames.
#[derive(Copy, Clone, PartialEq, Eq, Debug, Hash, Structural)]
pub enum FramesInvalidated {
    All,
    Count(u32),
}

impl FramesInvalidated {
    /// The count as the data file holds it, where all ones means all.
    pub fn from_raw(frames: u32) -> (r: FramesInvalidated)
        ensures
            r == (if frames == 0xFFFF_FFFF {
                FramesInvalidated::All
            } else {
                FramesInvalidated::Count(frames)
            }),
    {
        if frames == 0xFFFF_FFFF {
            FramesInvalidated::All
        } else {
            FramesInvalidated::Count(frames)
        }
    }

    /// The count as the data file holds it.
    pub fn raw(&self) -> (frames: u32)
        ensures
            frames == match *self {
                FramesInvalidated::All => 0xFFFF_FFFFu32,
                FramesInvalidated::Count(value) => value,
            },
    {
        match *self {
            FramesInvalidated::All => 0xFFFF_FFFF,
            FramesInvalidated::Count(value) => value,
        }
    }
}

/// Writing a count and reading it back gives the count, but for a count of
/// all ones, which reads back as all.
pub proof fn lemma_frames_invalidated_round_trip(value: FramesInvalidated)
    requires
        value != FramesInvalidated::Count(0xFFFF_FFFF),
    ensures
        (if (match value {
            FramesInvalidated::All => 0xFFFF_FFFFu32,
            FramesInvalidated::Count(v) => v,
        }) == 0xFFFF_FFFF {
            FramesInvalidated::All
        } else {
            FramesInvalidated::Count(match value {
                FramesInvalidated::All => 0xFFFF_FFFFu32,
                FramesInvalidated::Count(v) => v,
            })
        }) == value,
{
}

/// What a thread's full backtrace is after a partial one: the new innermost
/// frames, followed by what is left of the previous backtrace once the
/// frames it invalidates are dropped.
pub open spec fn expanded_backtrace(
    previous: Seq<u64>,
    frames_invalidated: FramesInvalidated,
    partial: Seq<u64>,
) -> Seq<u64> {
    match frames_invalidated {
        FramesInvalidated::All => partial,
        FramesInvalidated::Count(n) => partial + (if n < previous.len() {
            previous.skip(n as int)
        } else {
            Seq::empty()
        }),
    }
}

/// The full backtrace of a thread after a partial backtrace of it.
pub fn expand_partial_backtrace(
    previous: &Vec<u64>,
    frames_invalidated: FramesInvalidated,
    partial: &Vec<u64>,
) -> (addresses: Vec<u64>)
    ensures
        addresses@ == expanded_backtrace(previous@, frames_invalidated, partial@),
{
    let mut addresses: Vec<u64> = Vec::new();
    let mut i: usize = 0;
    while i < partial.len()
        invariant
            0 <= i <= partial@.len(),
            addresses@ == partial@.take(i as int),
        decreases partial@.len() - i,
    {
        addresses.push(partial[i]);
        i = i + 1;
        proof {
            assert(addresses@ =~= partial@.take(i as int));
        }
    }
    proof {
        assert(partial@.take(partial@.len() as int) =~= partial@);
    }
    match frames_invalidated {
        FramesInvalidated::All => addresses,
        FramesInvalidated::Count(n) => {
            let first: usize = if (n as usize) < previous.len() {
                n as usize
            } else {
                previous.len()
            };
            let mut j: usize = first;
            let ghost base = addresses@;
            proof {
                assert(addresses@ =~= base + previous@.subrange(first as int, first as int));
            }
            while j < previous.len()
                invariant
                    first <= j <= previous@.len(),
                    first == (if (n as int) < previous@.len() { n as int } else { previous@.len() as int }),
                    addresses@ == base + previous@.subrange(first as int, j as int),
                decreases previous@.len() - j,
            {
                addresses.push(previous[j]);
                j = j + 1;
                proof {
                    assert(addresses@ =~= base + previous@.subrange(first as int, j as int));
                }
            }
            proof {
                if (n as int) < previous@.len() {
                    assert(previous@.subrange(n as int, previous@.len() as int) =~= previous@.skip(n as int));
                } else {
                    assert(previous@.subrange(first as int, j as int) =~= Seq::<u64>::empty());
                }
            }
            addresses
        },
    }
}

/// An event of a recording.
#[allow(inconsistent_fields)]
#[derive(Clone, PartialEq, Debug)]
pub enum Event {
    Header(HeaderBody),
    Alloc { timestamp: Timestamp, allocation: AllocBody },
    Realloc { timestamp: Timestamp, old_pointer: u64, allocation: AllocBody },
    Free { timestamp: Timestamp, pointer: u64, backtrace: u64, thread: u32 },
    File { timestamp: Timestamp, path: String, contents: Vec<u8> },
    Backtrace { id: u64, addresses: Vec<u64> },
    MemoryDump { address: u64, length: u64, data: Vec<u8> },
    Marker { value: u32 },
    MemoryMap {
        timestamp: Timestamp,
        pointer: u64,
        length: u64,
        backtrace: u64,
        requested_address: u64,
        mmap_protection: u32,
        mmap_flags: u32,
        file_descriptor: u32,
        thread: u32,
        offset: u64,
    },
    MemoryUnmap { timestamp: Timestamp, pointer: u64, length: u64, backtrace: u64, thread: u32 },
    Mallopt { timestamp: Timestamp, backtrace: u64, thread: u32, param: i32, value: i32, result: i32 },
    Environ { entry: Vec<u8> },
    WallClock { timestamp: Timestamp, sec: u64, nsec: u64 },
    PartialBacktrace {
        id: u64,
        thread: u32,
        frames_invalidated: FramesInvalidated,
        addresses: Vec<u64>,
    },
    String { id: u32, string: String },
    DecodedFrame {
        address: u64,
        library: u32,
        raw_function: u32,
        function: u32,
        source: u32,
        line: u32,
        column: u32,
        is_inline: bool,
    },
    DecodedBacktrace { frames: Vec<u32> },
    GroupStatistics {
        backtrace: u64,
        first_allocation: Timestamp,
        last_allocation: Timestamp,
        free_count: u64,
        free_size: u64,
        min_size: u64,
        max_size: u64,
    },
    PartialBacktrace32 {
        id: u64,
        thread: u32,
        frames_invalidated: FramesInvalidated,
        addresses: Vec<u32>,
    },
}

/// An event in a frame of its own: one that was understood, or the bytes
/// of one that was not.
#[derive(Debug)]
pub enum FramedEvent {
    Known(Event),
    Unknown(Vec<u8>),
}

/// A frame: the payload's length as four little-endian bytes, then the
/// payload.
pub open spec fn frame_of(payload: Seq<u8>) -> Seq<u8> {
    seq![
        (payload.len() % 0x100) as u8,
        (payload.len() / 0x100 % 0x100) as u8,
        (payload.len() / 0x1_0000 % 0x100) as u8,
        (payload.len() / 0x100_0000 % 0x100) as u8,
    ] + payload
}

/// The length of the payload that a frame starting with these four bytes
/// holds.
pub open spec fn frame_length(b0: u8, b1: u8, b2: u8, b3: u8) -> nat {
    b0 as nat + b1 as nat * 0x100 + b2 as nat * 0x1_0000 + b3 as nat * 0x100_0000
}

/// Puts `payload` in a frame.
pub fn write_frame(payload: &[u8]) -> (frame: Vec<u8>)
    requires
        payload@.len() <= u32::MAX,
    ensures
        frame@ == frame_of(payload@),
{
    let length = payload.len() as u32;
    let mut frame: Vec<u8> = Vec::new();
    frame.push((length % 0x100) as u8);
    frame.push((length / 0x100 % 0x100) as u8);
    frame.push((length / 0x1_0000 % 0x100) as u8);
    frame.push((length / 0x100_0000 % 0x100) as u8);
    let mut i: usize = 0;
    let ghost head = frame@;
    while i < payload.len()
        invariant
            0 <= i <= payload@.len(),
            frame@ == head + payload@.take(i as int),
        decreases payload@.len() - i,
    {
        frame.push(payload[i]);
        i = i + 1;
        proof {
            assert(frame@ =~= head + payload@.take(i as int));
        }
    }
    proof {
        assert(payload@.take(payload@.len() as int) =~= payload@);
        assert(frame@ =~= frame_of(payload@));
    }
    frame
}

/// Takes the frame at the start of `bytes` apart: its payload and what
/// follows it, or nothing where the bytes end before the frame does.
pub fn read_frame(bytes: &[u8]) -> (split: Option<(Vec<u8>, usize)>)
    ensures
        match split {
            Some((payload, end)) => {
                &&& bytes@.len() >= 4
                &&& payload@.len() == frame_length(bytes@[0], bytes@[1], bytes@[2], bytes@[3])
                &&& end == 4 + payload@.len()
                &&& end <= bytes@.len()
                &&& payload@ == bytes@.subrange(4, end as int)
            },
            None => bytes@.len() < 4 || bytes@.len() < 4 + frame_length(
                bytes@[0],
                bytes@[1],
                bytes@[2],
                bytes@[3],
            ),
        },
{
    if bytes.len() < 4 {
        return None;
    }
    let length: u64 = bytes[0] as u64 + bytes[1] as u64 * 0x100 + bytes[2] as u64 * 0x1_0000 + bytes[3] as u64
        * 0x100_0000;
    if length > (bytes.len() - 4) as u64 {
        return None;
    }
    let end = 4 + length as usize;
    let mut payload: Vec<u8> = Vec::new();
    let mut i: usize = 4;
    while i < end
        invariant
            4 <= i <= end <= bytes@.len(),
            payload@ == bytes@.subrange(4, i as int),
        decreases end - i,
    {
        payload.push(bytes[i]);
        i = i + 1;
        proof {
            assert(payload@ =~= bytes@.subrange(4, i as int));
        }
    }
    Some((payload, end))
}

/// Reading back the frame of a payload gives the payload, and the frame
/// ends where the payload does.
pub proof fn lemma_frame_round_trip(payload: Seq<u8>)
    requires
        payload.len() <= u32::MAX,
    ensures
        frame_of(payload).len() == 4 + payload.len(),
        frame_length(frame_of(payload)[0], frame_of(payload)[1], frame_of(payload)[2], frame_of(payload)[3])
            == payload.len(),
        frame_of(payload).subrange(4, 4 + payload.len() as int) == payload,
{
    let f = frame_of(payload);
    assert(f.subrange(4, 4 + payload.len() as int) =~= payload);
    let n = payload.len();
    assert(n == n % 0x100 + (n / 0x100 % 0x100) * 0x100 + (n / 0x1_0000 % 0x100) * 0x1_0000 + (n / 0x100_0000
        % 0x100) * 0x100_0000) by (nonlinear_arith)
        requires
            n <= 0xffff_ffff,
    ;
}

} // verus!

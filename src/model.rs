//! The mathematical model of a record and the wire format stated over it:
//! what a record encodes to, the size check that precedes encoding, and what
//! a run of bytes decodes to.
#![allow(non_snake_case)]
use vstd::prelude::*;
use vstd::utf8::valid_utf8;
use crate::error::ColferError;
use crate::wire::{be_bytes, var, be_value, read_var};
use crate::ColferLimits;

verus! {

/// An instant at or after the Unix epoch: whole seconds and nanoseconds.
#[derive(Debug, Clone, Copy, PartialEq, Eq)]
pub struct Timestamp {
    pub secs: u64,
    pub nanos: u32,
}

/// A record as a value: text and binaries as byte sequences, floats as their
/// IEEE-754 bit patterns, nested records as models themselves.
pub struct RecordModel {
    pub B: bool,
    pub U32: u32,
    pub U64: u64,
    pub I32: i32,
    pub I64: i64,
    pub F64: u64,
    pub F32: u32,
    pub T: Timestamp,
    pub S: Seq<u8>,
    pub A: Seq<u8>,
    pub O: Option<Box<RecordModel>>,
    pub Os: Seq<RecordModel>,
    pub Ss: Seq<Seq<u8>>,
    pub As: Seq<Seq<u8>>,
    pub U8: u8,
    pub U16: u16,
    pub F32s: Seq<u32>,
    pub F64s: Seq<u64>,
}

/// The record whose every field holds its zero value.
pub open spec fn zero_model() -> RecordModel {
    RecordModel {
        B: false,
        U32: 0,
        U64: 0,
        I32: 0,
        I64: 0,
        F64: 0,
        F32: 0,
        T: Timestamp { secs: 0, nanos: 0 },
        S: Seq::empty(),
        A: Seq::empty(),
        O: None,
        Os: Seq::empty(),
        Ss: Seq::empty(),
        As: Seq::empty(),
        U8: 0,
        U16: 0,
        F32s: Seq::empty(),
        F64s: Seq::empty(),
    }
}

/// Number of fields in a record.
pub const FIELD_COUNT: usize = 18;

/// The byte that closes every record.
pub const TERMINATOR: u8 = 0x7f;

/// Unsigned 32-bit values from here on are written fixed-width.
pub const U32_FIXED_FROM: u32 = 0x20_0000;

/// Unsigned 64-bit values from here on are written fixed-width.
pub const U64_FIXED_FROM: u64 = 0x2_0000_0000_0000;

/// The magnitude of a signed value.
pub open spec fn magnitude(x: int) -> nat {
    if x < 0 {
        (-x) as nat
    } else {
        x as nat
    }
}

/// Each text or binary of a list: its length, then its bytes.
pub open spec fn enc_blobs(s: Seq<Seq<u8>>) -> Seq<u8>
    decreases s.len(),
{
    if s.len() == 0 {
        Seq::empty()
    } else {
        enc_blobs(s.drop_last()) + var(s.last().len()) + s.last()
    }
}

/// Each 32-bit pattern of a list as four big-endian bytes.
pub open spec fn enc_words32(s: Seq<u32>) -> Seq<u8>
    decreases s.len(),
{
    if s.len() == 0 {
        Seq::empty()
    } else {
        enc_words32(s.drop_last()) + be_bytes(s.last() as nat, 4)
    }
}

/// Each 64-bit pattern of a list as eight big-endian bytes.
pub open spec fn enc_words64(s: Seq<u64>) -> Seq<u8>
    decreases s.len(),
{
    if s.len() == 0 {
        Seq::empty()
    } else {
        enc_words64(s.drop_last()) + be_bytes(s.last() as nat, 8)
    }
}

/// What field `k` (0 to 17) adds to the wire: nothing where it holds its zero
/// value, else its header byte and payload.
pub open spec fn enc_field(m: RecordModel, k: int) -> Seq<u8>
    decreases m, 0int,
{
    if k == 0 {
        if m.B { seq![0u8] } else { Seq::empty() }
    } else if k == 1 {
        if m.U32 >= U32_FIXED_FROM {
            seq![0x81u8] + be_bytes(m.U32 as nat, 4)
        } else if m.U32 != 0 {
            seq![1u8] + var(m.U32 as nat)
        } else {
            Seq::empty()
        }
    } else if k == 2 {
        if m.U64 >= U64_FIXED_FROM {
            seq![0x82u8] + be_bytes(m.U64 as nat, 8)
        } else if m.U64 != 0 {
            seq![2u8] + var(m.U64 as nat)
        } else {
            Seq::empty()
        }
    } else if k == 3 {
        if m.I32 > 0 {
            seq![3u8] + var(magnitude(m.I32 as int))
        } else if m.I32 < 0 {
            seq![0x83u8] + var(magnitude(m.I32 as int))
        } else {
            Seq::empty()
        }
    } else if k == 4 {
        if m.I64 > 0 {
            seq![4u8] + var(magnitude(m.I64 as int))
        } else if m.I64 < 0 {
            seq![0x84u8] + var(magnitude(m.I64 as int))
        } else {
            Seq::empty()
        }
    } else if k == 5 {
        if m.F32 != 0 { seq![5u8] + be_bytes(m.F32 as nat, 4) } else { Seq::empty() }
    } else if k == 6 {
        if m.F64 != 0 { seq![6u8] + be_bytes(m.F64 as nat, 8) } else { Seq::empty() }
    } else if k == 7 {
        if m.T.secs == 0 && m.T.nanos == 0 {
            Seq::empty()
        } else if m.T.secs < 0x1_0000_0000 {
            seq![7u8] + be_bytes(m.T.secs as nat, 4) + be_bytes(m.T.nanos as nat, 4)
        } else {
            seq![0x87u8] + be_bytes(m.T.secs as nat, 8) + be_bytes(m.T.nanos as nat, 4)
        }
    } else if k == 8 {
        if m.S.len() > 0 { seq![8u8] + var(m.S.len()) + m.S } else { Seq::empty() }
    } else if k == 9 {
        if m.A.len() > 0 { seq![9u8] + var(m.A.len()) + m.A } else { Seq::empty() }
    } else if k == 10 {
        match m.O {
            Some(o) => seq![10u8] + enc(*o),
            None => Seq::empty(),
        }
    } else if k == 11 {
        if m.Os.len() > 0 {
            seq![11u8] + var(m.Os.len()) + enc_records(m.Os)
        } else {
            Seq::empty()
        }
    } else if k == 12 {
        if m.Ss.len() > 0 { seq![12u8] + var(m.Ss.len()) + enc_blobs(m.Ss) } else { Seq::empty() }
    } else if k == 13 {
        if m.As.len() > 0 { seq![13u8] + var(m.As.len()) + enc_blobs(m.As) } else { Seq::empty() }
    } else if k == 14 {
        if m.U8 > 0 { seq![14u8, m.U8] } else { Seq::empty() }
    } else if k == 15 {
        if m.U16 >= 256 {
            seq![15u8, (m.U16 / 256) as u8, (m.U16 % 256) as u8]
        } else if m.U16 != 0 {
            seq![0x8fu8, m.U16 as u8]
        } else {
            Seq::empty()
        }
    } else if k == 16 {
        if m.F32s.len() > 0 {
            seq![16u8] + var(m.F32s.len()) + enc_words32(m.F32s)
        } else {
            Seq::empty()
        }
    } else if k == 17 {
        if m.F64s.len() > 0 {
            seq![17u8] + var(m.F64s.len()) + enc_words64(m.F64s)
        } else {
            Seq::empty()
        }
    } else {
        Seq::empty()
    }
}

/// The fields before field `k`, in order.
pub open spec fn enc_fields(m: RecordModel, k: int) -> Seq<u8>
    decreases m, k + 1,
{
    if k <= 0 {
        Seq::empty()
    } else {
        enc_fields(m, k - 1) + enc_field(m, k - 1)
    }
}

/// The full encoding of a record: its fields in order, then the terminator.
pub open spec fn enc(m: RecordModel) -> Seq<u8>
    decreases m, FIELD_COUNT + 2,
{
    enc_fields(m, FIELD_COUNT as int).push(TERMINATOR)
}

/// A list of records, each with its own terminator.
pub open spec fn enc_records(s: Seq<RecordModel>) -> Seq<u8>
    decreases s, 0int,
{
    if s.len() == 0 {
        Seq::empty()
    } else {
        enc_records(s.drop_last()) + enc(s.last())
    }
}

/// The name by which errors cite field `k`.
pub open spec fn field_name(k: int) -> &'static str {
    if k == 0 { "B" }
    else if k == 1 { "U32" }
    else if k == 2 { "U64" }
    else if k == 3 { "I32" }
    else if k == 4 { "I64" }
    else if k == 5 { "F32" }
    else if k == 6 { "F64" }
    else if k == 7 { "T" }
    else if k == 8 { "S" }
    else if k == 9 { "A" }
    else if k == 10 { "O" }
    else if k == 11 { "Os" }
    else if k == 12 { "Ss" }
    else if k == 13 { "As" }
    else if k == 14 { "U8" }
    else if k == 15 { "U16" }
    else if k == 16 { "F32s" }
    else if k == 17 { "F64s" }
    else { "self" }
}

/// Adds `part` bytes to a running total, which may not pass the byte ceiling.
pub open spec fn grow(acc: Result<nat, ColferError>, part: nat, field: &'static str, lim: ColferLimits) -> Result<nat, ColferError> {
    match acc {
        Err(e) => Err(e),
        Ok(l) => if l + part > lim.size_max {
            Err(ColferError::MaxSizeBreach { field, overflow: (l + part - lim.size_max) as usize })
        } else {
            Ok(l + part)
        },
    }
}

/// Adds each text or binary of a list: none may pass the byte ceiling alone.
pub open spec fn size_blobs(acc: Result<nat, ColferError>, s: Seq<Seq<u8>>, field: &'static str, lim: ColferLimits) -> Result<nat, ColferError>
    decreases s.len(),
{
    if s.len() == 0 {
        acc
    } else {
        match size_blobs(acc, s.drop_last(), field, lim) {
            Err(e) => Err(e),
            Ok(l) => if s.last().len() > lim.size_max {
                Err(ColferError::MaxSizeBreach { field, overflow: (s.last().len() - lim.size_max) as usize })
            } else {
                grow(Ok(l), var(s.last().len()).len() + s.last().len(), field, lim)
            },
        }
    }
}

/// Adds each record of a list, each checked on its own first.
pub open spec fn size_records(acc: Result<nat, ColferError>, s: Seq<RecordModel>, lim: ColferLimits) -> Result<nat, ColferError>
    decreases s, 0int,
{
    if s.len() == 0 {
        acc
    } else {
        match size_records(acc, s.drop_last(), lim) {
            Err(e) => Err(e),
            Ok(l) => match size(s.last(), lim) {
                Err(e) => Err(e),
                Ok(n) => grow(Ok(l), n, "Os", lim),
            },
        }
    }
}

/// Adds field `k` to the running total, with the checks of its type: the
/// length of a text or binary, the element count of a list, each element.
pub open spec fn size_field(acc: Result<nat, ColferError>, m: RecordModel, k: int, lim: ColferLimits) -> Result<nat, ColferError>
    decreases m, 0int,
{
    match acc {
        Err(e) => Err(e),
        Ok(l) => if k == 8 && m.S.len() > lim.size_max {
            Err(ColferError::MaxSizeBreach { field: "S", overflow: (m.S.len() - lim.size_max) as usize })
        } else if k == 9 && m.A.len() > lim.size_max {
            Err(ColferError::MaxSizeBreach { field: "A", overflow: (m.A.len() - lim.size_max) as usize })
        } else if k == 10 && m.O is Some {
            match size(*m.O->Some_0, lim) {
                Err(e) => Err(e),
                Ok(n) => grow(Ok(l), 1 + n, "O", lim),
            }
        } else if k == 11 && m.Os.len() > 0 {
            if m.Os.len() > lim.list_max {
                Err(ColferError::MaxListBreach { field: "Os", overflow: (m.Os.len() - lim.list_max) as usize })
            } else {
                size_records(grow(Ok(l), 1 + var(m.Os.len()).len(), "Os", lim), m.Os, lim)
            }
        } else if k == 12 && m.Ss.len() > 0 {
            if m.Ss.len() > lim.list_max {
                Err(ColferError::MaxListBreach { field: "Ss", overflow: (m.Ss.len() - lim.list_max) as usize })
            } else {
                size_blobs(grow(Ok(l), 1 + var(m.Ss.len()).len(), "Ss", lim), m.Ss, "Ss", lim)
            }
        } else if k == 13 && m.As.len() > 0 {
            if m.As.len() > lim.list_max {
                Err(ColferError::MaxListBreach { field: "As", overflow: (m.As.len() - lim.list_max) as usize })
            } else {
                size_blobs(grow(Ok(l), 1 + var(m.As.len()).len(), "As", lim), m.As, "As", lim)
            }
        } else if k == 16 && m.F32s.len() > lim.list_max {
            Err(ColferError::MaxListBreach { field: "F32s", overflow: (m.F32s.len() - lim.list_max) as usize })
        } else if k == 17 && m.F64s.len() > lim.list_max {
            Err(ColferError::MaxListBreach { field: "F64s", overflow: (m.F64s.len() - lim.list_max) as usize })
        } else if k == 10 || k == 11 || k == 12 || k == 13 {
            Ok(l)
        } else {
            grow(Ok(l), enc_field(m, k).len(), field_name(k), lim)
        },
    }
}

/// The running total after the terminator and the fields before field `k`.
pub open spec fn size_fields(m: RecordModel, k: int, lim: ColferLimits) -> Result<nat, ColferError>
    decreases m, k + 1,
{
    if k <= 0 {
        grow(Ok(0), 1, "self", lim)
    } else {
        size_field(size_fields(m, k - 1, lim), m, k - 1, lim)
    }
}

/// The size check of a record: its encoded length, or the first ceiling that
/// it breaks, in field order.
pub open spec fn size(m: RecordModel, lim: ColferLimits) -> Result<nat, ColferError>
    decreases m, FIELD_COUNT + 2,
{
    size_fields(m, FIELD_COUNT as int, lim)
}

/// A decoded value and the position just after it.
pub type Parsed<T> = Result<(T, int), ColferError>;

/// The signed 32-bit value with the bit pattern `v mod 2^32`.
pub open spec fn as_i32(v: nat) -> i32 {
    let w = v % 0x1_0000_0000;
    if w < 0x8000_0000 {
        w as i32
    } else {
        (w - 0x1_0000_0000) as i32
    }
}

/// The signed 64-bit value with the bit pattern `v mod 2^64`.
pub open spec fn as_i64(v: nat) -> i64 {
    let w = v % 0x1_0000_0000_0000_0000;
    if w < 0x8000_0000_0000_0000 {
        w as i64
    } else {
        (w - 0x1_0000_0000_0000_0000) as i64
    }
}

/// The signed 32-bit value of magnitude `v` under a sign flag.
pub open spec fn signed32(v: nat, negative: bool) -> i32 {
    if negative {
        as_i32((0x1_0000_0000 - v % 0x1_0000_0000) as nat)
    } else {
        as_i32(v)
    }
}

/// The signed 64-bit value of magnitude `v` under a sign flag.
pub open spec fn signed64(v: nat, negative: bool) -> i64 {
    if negative {
        as_i64((0x1_0000_0000_0000_0000 - v % 0x1_0000_0000_0000_0000) as nat)
    } else {
        as_i64(v)
    }
}

/// Nanoseconds in a second.
pub const NANOS_PER_SEC: u32 = 1_000_000_000;

/// The instant `secs` seconds and `nanos` nanoseconds after the epoch, with
/// whole seconds of `nanos` carried over; `None` where the seconds overflow.
pub open spec fn instant(secs: nat, nanos: nat) -> Option<Timestamp> {
    let total = secs + nanos / (NANOS_PER_SEC as nat);
    if total > u64::MAX {
        None
    } else {
        Some(Timestamp { secs: total as u64, nanos: (nanos % (NANOS_PER_SEC as nat)) as u32 })
    }
}

/// Reads a timestamp of `width`-byte seconds and 4-byte nanoseconds at `pos`.
pub open spec fn parse_time(data: Seq<u8>, pos: int, width: int) -> Parsed<Timestamp> {
    if pos + width + 4 > data.len() {
        Err(ColferError::UnexpectedEof)
    } else {
        match instant(
            be_value(data.subrange(pos, pos + width)),
            be_value(data.subrange(pos + width, pos + width + 4)),
        ) {
            Some(t) => Ok((t, pos + width + 4)),
            None => Err(ColferError::Unknown),
        }
    }
}

/// Reads a byte run preceded by its length; text must be UTF-8.
pub open spec fn parse_blob(data: Seq<u8>, pos: int, field: &'static str, text: bool, lim: ColferLimits) -> Parsed<Seq<u8>> {
    match read_var(data, pos) {
        None => Err(ColferError::UnexpectedEof),
        Some((n, e)) => if n > lim.size_max {
            Err(ColferError::MaxSizeBreach { field, overflow: (n - lim.size_max) as usize })
        } else if e + n > data.len() {
            Err(ColferError::UnexpectedEof)
        } else if text && !valid_utf8(data.subrange(e, e + n)) {
            Err(ColferError::Unknown)
        } else {
            Ok((data.subrange(e, e + n), e + n))
        },
    }
}

/// Reads `n` more byte runs after `acc`.
pub open spec fn parse_blobs(data: Seq<u8>, pos: int, n: nat, acc: Seq<Seq<u8>>, field: &'static str, text: bool, lim: ColferLimits) -> Parsed<Seq<Seq<u8>>>
    decreases n,
{
    if n == 0 {
        Ok((acc, pos))
    } else {
        match parse_blob(data, pos, field, text, lim) {
            Err(e) => Err(e),
            Ok((b, e)) => parse_blobs(data, e, (n - 1) as nat, acc.push(b), field, text, lim),
        }
    }
}

/// `n` 32-bit big-endian words from the start of `s`.
pub open spec fn words32(s: Seq<u8>, n: nat) -> Seq<u32> {
    Seq::new(n, |i: int| be_value(s.subrange(4 * i, 4 * i + 4)) as u32)
}

/// `n` 64-bit big-endian words from the start of `s`.
pub open spec fn words64(s: Seq<u8>, n: nat) -> Seq<u64> {
    Seq::new(n, |i: int| be_value(s.subrange(8 * i, 8 * i + 8)) as u64)
}

/// Reads the count of a list and checks it against the element ceiling.
pub open spec fn parse_count(data: Seq<u8>, pos: int, field: &'static str, lim: ColferLimits) -> Parsed<nat> {
    match read_var(data, pos) {
        None => Err(ColferError::UnexpectedEof),
        Some((n, e)) => if n > lim.list_max {
            Err(ColferError::MaxListBreach { field, overflow: (n - lim.list_max) as usize })
        } else {
            Ok((n, e))
        },
    }
}

/// Decodes fields from `pos` into `m` until the terminator: the record and the
/// position after the terminator.
pub open spec fn parse_fields(data: Seq<u8>, pos: int, m: RecordModel, lim: ColferLimits) -> Parsed<RecordModel>
    decreases data.len() - pos, 1int,
{
    if pos < 0 || pos >= data.len() {
        Err(ColferError::UnexpectedEof)
    } else if data[pos] == TERMINATOR {
        Ok((m, pos + 1))
    } else {
        match parse_field(data, pos, m, lim) {
            Err(e) => Err(e),
            Ok((m_next, next)) => if next <= pos || next > data.len() {
                Err(ColferError::Unknown)
            } else {
                parse_fields(data, next, m_next, lim)
            },
        }
    }
}

/// Decodes `n` more records from `pos`, each from the zero record, after `acc`.
pub open spec fn parse_records(data: Seq<u8>, pos: int, n: nat, acc: Seq<RecordModel>, lim: ColferLimits) -> Parsed<Seq<RecordModel>>
    decreases data.len() - pos, 2int, n,
{
    if n == 0 {
        Ok((acc, pos))
    } else if pos < 0 || pos > data.len() {
        Err(ColferError::UnexpectedEof)
    } else {
        match parse_fields(data, pos, zero_model(), lim) {
            Err(e) => Err(e),
            Ok((r, e)) => if e <= pos || e > data.len() {
                Err(ColferError::Unknown)
            } else {
                parse_records(data, e, (n - 1) as nat, acc.push(r), lim)
            },
        }
    }
}

/// Decodes the field whose header byte stands at `pos` into `m`.
pub open spec fn parse_field(data: Seq<u8>, pos: int, m: RecordModel, lim: ColferLimits) -> Parsed<RecordModel>
    decreases data.len() - pos, 0int,
{
    if pos < 0 || pos >= data.len() {
        Err(ColferError::UnexpectedEof)
    } else {
        let tag = data[pos];
        let p = pos + 1;
        if tag == 0 {
            Ok((RecordModel { B: true, ..m }, p))
        } else if tag == 1 || tag == 2 || tag == 3 || tag == 0x83 || tag == 4 || tag == 0x84 {
            match read_var(data, p) {
                None => Err(ColferError::UnexpectedEof),
                Some((v, e)) => Ok((
                    if tag == 1 {
                        RecordModel { U32: (v % 0x1_0000_0000) as u32, ..m }
                    } else if tag == 2 {
                        RecordModel { U64: (v % 0x1_0000_0000_0000_0000) as u64, ..m }
                    } else if tag == 3 || tag == 0x83 {
                        RecordModel { I32: signed32(v, tag == 0x83), ..m }
                    } else {
                        RecordModel { I64: signed64(v, tag == 0x84), ..m }
                    },
                    e,
                )),
            }
        } else if tag == 0x81 || tag == 5 {
            if p + 4 > data.len() {
                Err(ColferError::UnexpectedEof)
            } else {
                let w = be_value(data.subrange(p, p + 4)) as u32;
                Ok((if tag == 5 { RecordModel { F32: w, ..m } } else { RecordModel { U32: w, ..m } }, p + 4))
            }
        } else if tag == 0x82 || tag == 6 {
            if p + 8 > data.len() {
                Err(ColferError::UnexpectedEof)
            } else {
                let w = be_value(data.subrange(p, p + 8)) as u64;
                Ok((if tag == 6 { RecordModel { F64: w, ..m } } else { RecordModel { U64: w, ..m } }, p + 8))
            }
        } else if tag == 7 || tag == 0x87 {
            match parse_time(data, p, if tag == 7 { 4 } else { 8 }) {
                Err(e) => Err(e),
                Ok((t, e)) => Ok((RecordModel { T: t, ..m }, e)),
            }
        } else if tag == 8 || tag == 9 {
            match parse_blob(data, p, if tag == 8 { "S" } else { "A" }, tag == 8, lim) {
                Err(e) => Err(e),
                Ok((b, e)) => Ok((if tag == 8 { RecordModel { S: b, ..m } } else { RecordModel { A: b, ..m } }, e)),
            }
        } else if tag == 10 {
            match parse_fields(data, p, zero_model(), lim) {
                Err(e) => Err(e),
                Ok((o, e)) => Ok((RecordModel { O: Some(Box::new(o)), ..m }, e)),
            }
        } else if tag == 11 {
            match parse_count(data, p, "Os", lim) {
                Err(e) => Err(e),
                Ok((n, e)) => if e <= pos || e > data.len() {
                    Err(ColferError::Unknown)
                } else {
                    match parse_records(data, e, n, Seq::empty(), lim) {
                        Err(x) => Err(x),
                        Ok((s, e2)) => Ok((RecordModel { Os: s, ..m }, e2)),
                    }
                },
            }
        } else if tag == 12 || tag == 13 {
            let field: &'static str = if tag == 12 { "Ss" } else { "As" };
            match parse_count(data, p, field, lim) {
                Err(e) => Err(e),
                Ok((n, e)) => match parse_blobs(data, e, n, Seq::empty(), field, tag == 12, lim) {
                    Err(x) => Err(x),
                    Ok((s, e2)) => Ok((if tag == 12 { RecordModel { Ss: s, ..m } } else { RecordModel { As: s, ..m } }, e2)),
                },
            }
        } else if tag == 14 || tag == 0x8f {
            if p + 1 > data.len() {
                Err(ColferError::UnexpectedEof)
            } else if tag == 14 {
                Ok((RecordModel { U8: data[p], ..m }, p + 1))
            } else {
                Ok((RecordModel { U16: data[p] as u16, ..m }, p + 1))
            }
        } else if tag == 15 {
            if p + 2 > data.len() {
                Err(ColferError::UnexpectedEof)
            } else {
                Ok((RecordModel { U16: (data[p] * 256 + data[p + 1]) as u16, ..m }, p + 2))
            }
        } else if tag == 16 || tag == 17 {
            let width: int = if tag == 16 { 4 } else { 8 };
            match parse_count(data, p, if tag == 16 { "F32s" } else { "F64s" }, lim) {
                Err(e) => Err(e),
                Ok((n, e)) => if e + width * n > data.len() {
                    Err(ColferError::UnexpectedEof)
                } else if tag == 16 {
                    Ok((RecordModel { F32s: words32(data.subrange(e, e + 4 * n), n), ..m }, e + 4 * n))
                } else {
                    Ok((RecordModel { F64s: words64(data.subrange(e, e + 8 * n), n), ..m }, e + 8 * n))
                },
            }
        } else {
            Err(ColferError::UnknownHeader { byte: pos as usize })
        }
    }
}

/// A result with a machine-sized length, read as one with a natural number.
pub open spec fn lift(r: Result<usize, ColferError>) -> Result<nat, ColferError> {
    match r {
        Ok(n) => Ok(n as nat),
        Err(e) => Err(e),
    }
}

pub proof fn lemma_blobs_err(acc: Result<nat, ColferError>, s: Seq<Seq<u8>>, i: int, field: &'static str, lim: ColferLimits)
    requires
        0 <= i <= s.len(),
        size_blobs(acc, s.take(i), field, lim) is Err,
    ensures
        size_blobs(acc, s, field, lim) == size_blobs(acc, s.take(i), field, lim),
    decreases s.len(),
{
    if i < s.len() {
        assert(s.drop_last().take(i) =~= s.take(i));
        lemma_blobs_err(acc, s.drop_last(), i, field, lim);
    } else {
        assert(s.take(i) =~= s);
    }
}

pub proof fn lemma_records_err(acc: Result<nat, ColferError>, s: Seq<RecordModel>, i: int, lim: ColferLimits)
    requires
        0 <= i <= s.len(),
        size_records(acc, s.take(i), lim) is Err,
    ensures
        size_records(acc, s, lim) == size_records(acc, s.take(i), lim),
    decreases s.len(),
{
    if i < s.len() {
        assert(s.drop_last().take(i) =~= s.take(i));
        lemma_records_err(acc, s.drop_last(), i, lim);
    } else {
        assert(s.take(i) =~= s);
    }
}

pub proof fn lemma_fields_err(m: RecordModel, k: int, j: int, lim: ColferLimits)
    requires
        0 <= k <= j,
        size_fields(m, k, lim) is Err,
    ensures
        size_fields(m, j, lim) == size_fields(m, k, lim),
    decreases j,
{
    if k < j {
        lemma_fields_err(m, k, j - 1, lim);
        assert(size_fields(m, j, lim) == size_field(size_fields(m, j - 1, lim), m, j - 1, lim));
    }
}

} // verus!

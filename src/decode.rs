//! Decoding: reads a record's fields from bytes, in whatever order they come,
//! until its terminator.
use vstd::prelude::*;
use vstd::utf8::valid_utf8;
use crate::error::{ColferError, ColferResult};
use crate::model::{
    Parsed, RecordModel, Timestamp, parse_fields, parse_field, parse_records,
    parse_blob, parse_blobs, parse_count, parse_time, signed32, signed64, words32,
    words64, TERMINATOR, NANOS_PER_SEC,
};
use crate::types::{ColferTypes, blob_views, record_views};
use crate::wire::{get_var, get_be, copy_range, lemma_be_value_bound};
use crate::ColferLimits;

verus! {

/// Relies on `std::str::from_utf8`, which accepts a byte run exactly when it
/// is well-formed UTF-8.
#[verifier::external_body]
fn is_utf8(b: &[u8]) -> (r: bool)
    ensures
        r == valid_utf8(b@),
{
    std::str::from_utf8(b).is_ok()
}

/// A decode result with machine-sized values, read as a spec one.
pub open spec fn lift_parsed<T>(r: ColferResult<(T, usize)>) -> Parsed<T> {
    match r {
        Ok((v, e)) => Ok((v, e as int)),
        Err(x) => Err(x),
    }
}

/// The signed 32-bit value of magnitude `v` under a sign flag.
fn to_signed32(v: u64, negative: bool) -> (r: i32)
    ensures
        r == signed32(v as nat, negative),
{
    let w: u64 = v % 0x1_0000_0000;
    let w2: u64 = if negative { (0x1_0000_0000 - w) % 0x1_0000_0000 } else { w };
    if w2 < 0x8000_0000 {
        w2 as i32
    } else {
        (w2 as i64 - 0x1_0000_0000) as i32
    }
}

/// The signed 64-bit value of magnitude `v` under a sign flag.
fn to_signed64(v: u64, negative: bool) -> (r: i64)
    ensures
        r == signed64(v as nat, negative),
{
    let w2: u64 = if negative && v != 0 { u64::MAX - v + 1 } else { v };
    if w2 < 0x8000_0000_0000_0000 {
        w2 as i64
    } else {
        ((w2 - 0x8000_0000_0000_0000) as i64) + i64::MIN
    }
}

/// Reads a timestamp of `width`-byte seconds and 4-byte nanoseconds at `pos`.
fn get_time(data: &[u8], pos: usize, width: usize) -> (r: ColferResult<(Timestamp, usize)>)
    requires
        width == 4 || width == 8,
        pos <= data@.len(),
    ensures
        lift_parsed(r) == parse_time(data@, pos as int, width as int),
{
    if data.len() - pos < width + 4 {
        return Err(ColferError::UnexpectedEof);
    }
    let secs = get_be(data, pos, width);
    let nanos = get_be(data, pos + width, 4);
    let carry = nanos / (NANOS_PER_SEC as u64);
    if secs > u64::MAX - carry {
        Err(ColferError::Unknown)
    } else {
        proof {
            lemma_be_value_bound(data@.subrange(pos + width, pos + width + 4));
            assert(crate::wire::pow256(4) == 0x1_0000_0000) by {
                reveal_with_fuel(crate::wire::pow256, 5);
            }
        }
        Ok((Timestamp { secs: secs + carry, nanos: (nanos % (NANOS_PER_SEC as u64)) as u32 }, pos + width + 4))
    }
}

/// Reads a byte run preceded by its length; text must be UTF-8.
fn get_blob(data: &[u8], pos: usize, field: &'static str, text: bool, lim: &ColferLimits) -> (r: ColferResult<(Vec<u8>, usize)>)
    ensures
        match parse_blob(data@, pos as int, field, text, *lim) {
            Ok((b, e)) => r is Ok && r->Ok_0.0@ == b && r->Ok_0.1 == e,
            Err(x) => r == Err::<(Vec<u8>, usize), ColferError>(x),
        },
        r is Ok ==> pos < r->Ok_0.1 <= data@.len(),
{
    match get_var(data, pos) {
        None => Err(ColferError::UnexpectedEof),
        Some((n, e)) => {
            if n > lim.size_max as u64 {
                Err(ColferError::MaxSizeBreach { field, overflow: (n - lim.size_max as u64) as usize })
            } else if n as usize > data.len() - e {
                Err(ColferError::UnexpectedEof)
            } else {
                let b = copy_range(data, e, e + n as usize);
                if text && !is_utf8(b.as_slice()) {
                    Err(ColferError::Unknown)
                } else {
                    Ok((b, e + n as usize))
                }
            }
        },
    }
}

/// Reads the count of a list and checks it against the element ceiling.
fn get_count(data: &[u8], pos: usize, field: &'static str, lim: &ColferLimits) -> (r: ColferResult<(usize, usize)>)
    requires
        lim.wf(),
    ensures
        match r {
            Ok((n, e)) => parse_count(data@, pos as int, field, *lim) == Ok::<(nat, int), ColferError>((n as nat, e as int)),
            Err(x) => parse_count(data@, pos as int, field, *lim) == Err::<(nat, int), ColferError>(x),
        },
        r is Ok ==> pos < r->Ok_0.1 <= data@.len() && r->Ok_0.0 <= lim.list_max,
{
    match get_var(data, pos) {
        None => Err(ColferError::UnexpectedEof),
        Some((n, e)) => {
            if n > lim.list_max as u64 {
                Err(ColferError::MaxListBreach { field, overflow: (n - lim.list_max as u64) as usize })
            } else {
                Ok((n as usize, e))
            }
        },
    }
}

impl ColferTypes {
    /// Decodes fields from `pos` into this record until the terminator;
    /// returns the position after the terminator.
    pub fn unmarshal_at(&mut self, data: &[u8], pos: usize, lim: &ColferLimits) -> (r: ColferResult<usize>)
        requires
            lim.wf(),
            pos <= data@.len(),
        ensures
            match r {
                Ok(e) => parse_fields(data@, pos as int, old(self).model(), *lim) == Ok::<(RecordModel, int), ColferError>(
                    (final(self).model(), e as int),
                ),
                Err(x) => parse_fields(data@, pos as int, old(self).model(), *lim) == Err::<(RecordModel, int), ColferError>(x),
            },
        decreases data@.len() - pos, 1int,
    {
        let ghost m0 = self.model();
        let mut p: usize = pos;
        loop
            invariant
                lim.wf(),
                pos <= p <= data@.len(),
                m0 == old(self).model(),
                parse_fields(data@, pos as int, m0, *lim) == parse_fields(data@, p as int, self.model(), *lim),
            decreases data@.len() - p,
        {
            if p >= data.len() {
                return Err(ColferError::UnexpectedEof);
            }
            if data[p] == TERMINATOR {
                return Ok(p + 1);
            }
            let ghost before = self.model();
            assert(parse_fields(data@, p as int, before, *lim) == match parse_field(data@, p as int, before, *lim) {
                Err(e) => Err(e),
                Ok((m_next, next)) => if next <= p || next > data@.len() {
                    Err(ColferError::Unknown)
                } else {
                    parse_fields(data@, next, m_next, *lim)
                },
            });
            match self.unmarshal_field(data, p, lim) {
                Err(e) => {
                    return Err(e);
                },
                Ok(next) => {
                    if next <= p || next > data.len() {
                        return Err(ColferError::Unknown);
                    }
                    p = next;
                },
            }
        }
    }

    /// Decodes the field whose header byte stands at `pos` into this record;
    /// returns the position after it.
    fn unmarshal_field(&mut self, data: &[u8], pos: usize, lim: &ColferLimits) -> (r: ColferResult<usize>)
        requires
            lim.wf(),
            pos < data@.len(),
        ensures
            match r {
                Ok(e) => parse_field(data@, pos as int, old(self).model(), *lim) == Ok::<(RecordModel, int), ColferError>(
                    (final(self).model(), e as int),
                ),
                Err(x) => parse_field(data@, pos as int, old(self).model(), *lim) == Err::<(RecordModel, int), ColferError>(x),
            },
        decreases data@.len() - pos, 0int,
    {
        let ghost m = self.model();
        let len = data.len();
        let tag = data[pos];
        let p = pos + 1;
        if tag == 0 {
            self.B = true;
            Ok(p)
        } else if tag == 1 || tag == 2 || tag == 3 || tag == 0x83 || tag == 4 || tag == 0x84 {
            match get_var(data, p) {
                None => Err(ColferError::UnexpectedEof),
                Some((v, e)) => {
                    if tag == 1 {
                        self.U32 = (v % 0x1_0000_0000) as u32;
                    } else if tag == 2 {
                        self.U64 = v;
                    } else if tag == 3 || tag == 0x83 {
                        self.I32 = to_signed32(v, tag == 0x83);
                    } else {
                        self.I64 = to_signed64(v, tag == 0x84);
                    }
                    Ok(e)
                },
            }
        } else if tag == 0x81 || tag == 5 {
            if len - p < 4 {
                Err(ColferError::UnexpectedEof)
            } else {
                proof {
                    lemma_be_value_bound(data@.subrange(p as int, p + 4));
                    reveal_with_fuel(crate::wire::pow256, 5);
                }
                let w = get_be(data, p, 4) as u32;
                if tag == 5 {
                    self.F32 = w;
                } else {
                    self.U32 = w;
                }
                Ok(p + 4)
            }
        } else if tag == 0x82 || tag == 6 {
            if len - p < 8 {
                Err(ColferError::UnexpectedEof)
            } else {
                let w = get_be(data, p, 8);
                if tag == 6 {
                    self.F64 = w;
                } else {
                    self.U64 = w;
                }
                Ok(p + 8)
            }
        } else if tag == 7 || tag == 0x87 {
            match get_time(data, p, if tag == 7 { 4 } else { 8 }) {
                Err(e) => Err(e),
                Ok((t, e)) => {
                    self.T = t;
                    Ok(e)
                },
            }
        } else if tag == 8 || tag == 9 {
            match get_blob(data, p, if tag == 8 { "S" } else { "A" }, tag == 8, lim) {
                Err(e) => Err(e),
                Ok((b, e)) => {
                    if tag == 8 {
                        self.S = b;
                    } else {
                        self.A = b;
                    }
                    Ok(e)
                },
            }
        } else if tag == 10 {
            let mut o = ColferTypes::default();
            match o.unmarshal_at(data, p, lim) {
                Err(e) => Err(e),
                Ok(e) => {
                    self.O = Some(Box::new(o));
                    Ok(e)
                },
            }
        } else if tag == 11 {
            match get_count(data, p, "Os", lim) {
                Err(e) => Err(e),
                Ok((n, e)) => {
                    let mut out: Vec<ColferTypes> = Vec::new();
                    let mut q: usize = e;
                    let mut i: usize = 0;
                    assert(record_views(out@) =~= Seq::<RecordModel>::empty());
                    let ghost whole = parse_records(data@, e as int, n as nat, Seq::empty(), *lim);
                    assert(parse_count(data@, p as int, "Os", *lim) == Ok::<(nat, int), ColferError>((n as nat, e as int)));
                    assert(data@[pos as int] == 11);
                    assert(parse_field(data@, pos as int, m, *lim) == match whole {
                        Err(x) => Err(x),
                        Ok((s, e2)) => Ok((RecordModel { Os: s, ..m }, e2)),
                    });
                    while i < n
                        invariant
                            lim.wf(),
                            m == old(self).model(),
                            m == self.model(),
                            whole == parse_records(data@, e as int, n as nat, Seq::empty(), *lim),
                            parse_field(data@, pos as int, m, *lim) == match whole {
                                Err(x) => Err(x),
                                Ok((s, e2)) => Ok((RecordModel { Os: s, ..m }, e2)),
                            },
                            i <= n,
                            pos < e <= q <= data@.len(),
                            parse_records(data@, e as int, n as nat, Seq::empty(), *lim)
                                == parse_records(data@, q as int, (n - i) as nat, record_views(out@), *lim),
                        decreases n - i,
                    {
                        let mut r = ColferTypes::default();
                        match r.unmarshal_at(data, q, lim) {
                            Err(x) => {
                                return Err(x);
                            },
                            Ok(e2) => {
                                if e2 <= q || e2 > data.len() {
                                    return Err(ColferError::Unknown);
                                }
                                let ghost before = out@;
                                out.push(r);
                                assert(out@.drop_last() =~= before);
                                q = e2;
                            },
                        }
                        i = i + 1;
                    }
                    self.Os = out;
                    Ok(q)
                },
            }
        } else if tag == 12 || tag == 13 {
            let field: &'static str = if tag == 12 { "Ss" } else { "As" };
            match get_count(data, p, field, lim) {
                Err(e) => Err(e),
                Ok((n, e)) => {
                    let mut out: Vec<Vec<u8>> = Vec::new();
                    let mut q: usize = e;
                    let mut i: usize = 0;
                    assert(blob_views(out@) =~= Seq::<Seq<u8>>::empty());
                    let ghost whole = parse_blobs(data@, e as int, n as nat, Seq::empty(), field, tag == 12, *lim);
                    assert(parse_field(data@, pos as int, m, *lim) == match whole {
                        Err(x) => Err(x),
                        Ok((s, e2)) => Ok((if tag == 12 { RecordModel { Ss: s, ..m } } else { RecordModel { As: s, ..m } }, e2)),
                    });
                    while i < n
                        invariant
                            m == old(self).model(),
                            m == self.model(),
                            whole == parse_blobs(data@, e as int, n as nat, Seq::empty(), field, tag == 12, *lim),
                            parse_field(data@, pos as int, m, *lim) == match whole {
                                Err(x) => Err(x),
                                Ok((s, e2)) => Ok((if tag == 12 { RecordModel { Ss: s, ..m } } else { RecordModel { As: s, ..m } }, e2)),
                            },
                            i <= n,
                            q <= data@.len(),
                            parse_blobs(data@, e as int, n as nat, Seq::empty(), field, tag == 12, *lim)
                                == parse_blobs(data@, q as int, (n - i) as nat, blob_views(out@), field, tag == 12, *lim),
                        decreases n - i,
                    {
                        match get_blob(data, q, field, tag == 12, lim) {
                            Err(x) => {
                                return Err(x);
                            },
                            Ok((b, e2)) => {
                                let ghost before = blob_views(out@);
                                out.push(b);
                                assert(blob_views(out@) =~= before.push(b@));
                                q = e2;
                            },
                        }
                        i = i + 1;
                    }
                    if tag == 12 {
                        self.Ss = out;
                    } else {
                        self.As = out;
                    }
                    Ok(q)
                },
            }
        } else if tag == 14 || tag == 0x8f {
            if len - p < 1 {
                Err(ColferError::UnexpectedEof)
            } else {
                if tag == 14 {
                    self.U8 = data[p];
                } else {
                    self.U16 = data[p] as u16;
                }
                Ok(p + 1)
            }
        } else if tag == 15 {
            if len - p < 2 {
                Err(ColferError::UnexpectedEof)
            } else {
                self.U16 = data[p] as u16 * 256 + data[p + 1] as u16;
                Ok(p + 2)
            }
        } else if tag == 16 || tag == 17 {
            let width: usize = if tag == 16 { 4 } else { 8 };
            match get_count(data, p, if tag == 16 { "F32s" } else { "F64s" }, lim) {
                Err(e) => Err(e),
                Ok((n, e)) => {
                    if width * n > len - e {
                        Err(ColferError::UnexpectedEof)
                    } else if tag == 16 {
                        let ghost sub = data@.subrange(e as int, e + 4 * n);
                        let mut out: Vec<u32> = Vec::new();
                        let mut i: usize = 0;
                        while i < n
                            invariant
                                lim.wf(),
                                len == data@.len(),
                                n <= lim.list_max,
                                i <= n,
                                e + 4 * n <= data@.len(),
                                sub == data@.subrange(e as int, e + 4 * n),
                                out@ =~= words32(sub, n as nat).take(i as int),
                            decreases n - i,
                        {
                            proof {
                                lemma_be_value_bound(data@.subrange(e + 4 * i, e + 4 * i + 4));
                                reveal_with_fuel(crate::wire::pow256, 5);
                                assert(sub.subrange(4 * i, 4 * i + 4) =~= data@.subrange(e + 4 * i, e + 4 * i + 4));
                            }
                            out.push(get_be(data, e + 4 * i, 4) as u32);
                            i = i + 1;
                        }
                        assert(out@ =~= words32(sub, n as nat));
                        self.F32s = out;
                        Ok(e + 4 * n)
                    } else {
                        let ghost sub = data@.subrange(e as int, e + 8 * n);
                        let mut out: Vec<u64> = Vec::new();
                        let mut i: usize = 0;
                        while i < n
                            invariant
                                lim.wf(),
                                len == data@.len(),
                                n <= lim.list_max,
                                i <= n,
                                e + 8 * n <= data@.len(),
                                sub == data@.subrange(e as int, e + 8 * n),
                                out@ =~= words64(sub, n as nat).take(i as int),
                            decreases n - i,
                        {
                            proof {
                                assert(sub.subrange(8 * i, 8 * i + 8) =~= data@.subrange(e + 8 * i, e + 8 * i + 8));
                            }
                            out.push(get_be(data, e + 8 * i, 8));
                            i = i + 1;
                        }
                        assert(out@ =~= words64(sub, n as nat));
                        self.F64s = out;
                        Ok(e + 8 * n)
                    }
                },
            }
        } else {
            Err(ColferError::UnknownHeader { byte: pos })
        }
    }
}

} // verus!

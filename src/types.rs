//! The record of all supported field types, and its codec.
#![allow(non_snake_case)]
use vstd::prelude::*;
use crate::error::{ColferError, ColferResult};
use crate::model::{
    Timestamp, RecordModel, lift, size, size_fields, size_field, size_blobs, size_records, grow,
    enc, enc_field, enc_fields, enc_records, enc_blobs, enc_words32, enc_words64, field_name,
    magnitude, parse_fields, lemma_fields_err, lemma_records_err, lemma_blobs_err, TERMINATOR,
};
use crate::wire::{var_len, lemma_be_bytes_len, put_be, put_var, put_bytes};
use crate::{ColferLimits, ColferSerializable};

verus! {

broadcast use vstd::std_specs::vec::group_vec_axioms;

/// Holds one field of each supported type. Floats are held as their IEEE-754
/// bit patterns; text fields hold UTF-8 bytes.
#[derive(Debug, PartialEq)]
pub struct ColferTypes {
    /// A boolean.
    pub B: bool,
    /// An unsigned 32-bit integer.
    pub U32: u32,
    /// An unsigned 64-bit integer.
    pub U64: u64,
    /// A signed 32-bit integer.
    pub I32: i32,
    /// A signed 64-bit integer.
    pub I64: i64,
    /// A 64-bit float, as its bit pattern.
    pub F64: u64,
    /// A 32-bit float, as its bit pattern.
    pub F32: u32,
    /// A timestamp.
    pub T: Timestamp,
    /// Text, as UTF-8 bytes.
    pub S: Vec<u8>,
    /// A binary.
    pub A: Vec<u8>,
    /// A nested record, or none.
    pub O: Option<Box<ColferTypes>>,
    /// A list of records.
    pub Os: Vec<ColferTypes>,
    /// A list of texts, each as UTF-8 bytes.
    pub Ss: Vec<Vec<u8>>,
    /// A list of binaries.
    pub As: Vec<Vec<u8>>,
    /// An unsigned 8-bit integer.
    pub U8: u8,
    /// An unsigned 16-bit integer.
    pub U16: u16,
    /// A list of 32-bit floats, as bit patterns.
    pub F32s: Vec<u32>,
    /// A list of 64-bit floats, as bit patterns.
    pub F64s: Vec<u64>,
}

/// The byte sequences that a list of byte vectors holds.
pub open spec fn blob_views(s: Seq<Vec<u8>>) -> Seq<Seq<u8>> {
    s.map_values(|v: Vec<u8>| v@)
}

/// The models of a list of records.
pub open spec fn record_views(s: Seq<ColferTypes>) -> Seq<RecordModel>
    decreases s, 0int,
{
    if s.len() == 0 {
        Seq::empty()
    } else {
        record_views(s.drop_last()).push(s.last().model())
    }
}

impl ColferTypes {
    /// The value that this record holds.
    pub open spec fn model(&self) -> RecordModel
        decreases self, 1int,
    {
        RecordModel {
            B: self.B,
            U32: self.U32,
            U64: self.U64,
            I32: self.I32,
            I64: self.I64,
            F64: self.F64,
            F32: self.F32,
            T: self.T,
            S: self.S@,
            A: self.A@,
            O: match self.O {
                Some(o) => Some(Box::new(o.model())),
                None => None,
            },
            Os: record_views(self.Os@),
            Ss: blob_views(self.Ss@),
            As: blob_views(self.As@),
            U8: self.U8,
            U16: self.U16,
            F32s: self.F32s@,
            F64s: self.F64s@,
        }
    }
}

pub proof fn lemma_record_views(s: Seq<ColferTypes>)
    ensures
        record_views(s).len() == s.len(),
        forall|i: int| 0 <= i < s.len() ==> #[trigger] record_views(s)[i] == s[i].model(),
    decreases s.len(),
{
    if s.len() > 0 {
        lemma_record_views(s.drop_last());
    }
}

pub proof fn lemma_words32_len(s: Seq<u32>)
    ensures
        enc_words32(s).len() == 4 * s.len(),
    decreases s.len(),
{
    if s.len() > 0 {
        lemma_words32_len(s.drop_last());
        lemma_be_bytes_len(s.last() as nat, 4);
    }
}

pub proof fn lemma_words64_len(s: Seq<u64>)
    ensures
        enc_words64(s).len() == 8 * s.len(),
    decreases s.len(),
{
    if s.len() > 0 {
        lemma_words64_len(s.drop_last());
        lemma_be_bytes_len(s.last() as nat, 8);
    }
}

/// The magnitude of a signed 32-bit value.
fn magnitude32(x: i32) -> (r: u32)
    ensures
        r == magnitude(x as int),
{
    if x < 0 {
        (-(x as i64)) as u32
    } else {
        x as u32
    }
}

/// The magnitude of a signed 64-bit value.
fn magnitude64(x: i64) -> (r: u64)
    ensures
        r == magnitude(x as int),
{
    if x < 0 {
        if x == i64::MIN {
            0x8000_0000_0000_0000
        } else {
            (-x) as u64
        }
    } else {
        x as u64
    }
}

/// The name by which errors cite field `k`.
fn name_of(k: usize) -> (r: &'static str)
    ensures
        r == field_name(k as int),
{
    if k == 0 { "B" }
    else if k == 1 { "U32" }
    else if k == 2 { "U64" }
    else if k == 3 { "I32" }
    else if k == 4 { "I64" }
    else if k == 5 { "F32" }
    else if k == 6 { "F64" }
    else if k == 7 { "T" }
    else if k == 8 { "S" }
    else if k == 9 { "A" }
    else if k == 10 { "O" }
    else if k == 11 { "Os" }
    else if k == 12 { "Ss" }
    else if k == 13 { "As" }
    else if k == 14 { "U8" }
    else if k == 15 { "U16" }
    else if k == 16 { "F32s" }
    else if k == 17 { "F64s" }
    else { "self" }
}

/// Adds `part` bytes to the running total `l`, within the byte ceiling.
fn grow_by(l: usize, part: usize, field: &'static str, lim: &ColferLimits) -> (r: ColferResult<usize>)
    requires
        lim.wf(),
        l <= lim.size_max,
        part <= usize::MAX - lim.size_max,
    ensures
        lift(r) == grow(Ok(l as nat), part as nat, field, *lim),
        r is Ok ==> r->Ok_0 <= lim.size_max,
{
    if part > lim.size_max - l {
        Err(ColferError::MaxSizeBreach { field, overflow: part - (lim.size_max - l) })
    } else {
        Ok(l + part)
    }
}

/// Adds each text or binary of a list to the running total `l`.
fn grow_by_blobs(l: usize, v: &Vec<Vec<u8>>, field: &'static str, lim: &ColferLimits) -> (r: ColferResult<usize>)
    requires
        lim.wf(),
        l <= lim.size_max,
    ensures
        lift(r) == size_blobs(Ok(l as nat), blob_views(v@), field, *lim),
        r is Ok ==> r->Ok_0 <= lim.size_max,
{
    let ghost s = blob_views(v@);
    let mut acc: usize = l;
    let mut i: usize = 0;
    assert(s.take(0) =~= Seq::<Seq<u8>>::empty());
    while i < v.len()
        invariant
            lim.wf(),
            i <= v@.len(),
            s == blob_views(v@),
            acc <= lim.size_max,
            lift(Ok(acc)) == size_blobs(Ok(l as nat), s.take(i as int), field, *lim),
        decreases v@.len() - i,
    {
        let n = v[i].len();
        assert(s.take(i + 1).drop_last() =~= s.take(i as int));
        assert(s.take(i + 1).last() == v@[i as int]@);
        if n > lim.size_max {
            proof {
                lemma_blobs_err(Ok(l as nat), s, i + 1, field, *lim);
            }
            return Err(ColferError::MaxSizeBreach { field, overflow: n - lim.size_max });
        }
        let part = var_len(n as u64) + n;
        match grow_by(acc, part, field, lim) {
            Ok(a) => {
                acc = a;
            },
            Err(e) => {
                proof {
                    lemma_blobs_err(Ok(l as nat), s, i + 1, field, *lim);
                }
                return Err(e);
            },
        }
        i = i + 1;
    }
    assert(s.take(v@.len() as int) =~= s);
    Ok(acc)
}

impl ColferTypes {
    /// Encoded length of field `k`, one without nested records.
    fn field_len(&self, k: usize, lim: &ColferLimits) -> (r: usize)
        requires
            lim.wf(),
            k < 18,
            k != 10 && k != 11,
            k == 8 ==> self.S@.len() <= lim.size_max,
            k == 9 ==> self.A@.len() <= lim.size_max,
            k == 12 ==> false,
            k == 13 ==> false,
            k == 16 ==> self.F32s@.len() <= lim.list_max,
            k == 17 ==> self.F64s@.len() <= lim.list_max,
        ensures
            r == enc_field(self.model(), k as int).len(),
            r <= usize::MAX - lim.size_max,
    {
        let ghost m = self.model();
        proof {
            lemma_be_bytes_len(m.U32 as nat, 4);
            lemma_be_bytes_len(m.U64 as nat, 8);
            lemma_be_bytes_len(m.F32 as nat, 4);
            lemma_be_bytes_len(m.F64 as nat, 8);
            lemma_be_bytes_len(m.T.secs as nat, 4);
            lemma_be_bytes_len(m.T.secs as nat, 8);
            lemma_be_bytes_len(m.T.nanos as nat, 4);
            lemma_words32_len(m.F32s);
            lemma_words64_len(m.F64s);
        }
        if k == 0 {
            if self.B { 1 } else { 0 }
        } else if k == 1 {
            if self.U32 >= 0x20_0000 { 5 } else if self.U32 != 0 { 1 + var_len(self.U32 as u64) } else { 0 }
        } else if k == 2 {
            if self.U64 >= 0x2_0000_0000_0000 { 9 } else if self.U64 != 0 { 1 + var_len(self.U64) } else { 0 }
        } else if k == 3 {
            if self.I32 != 0 { 1 + var_len(magnitude32(self.I32) as u64) } else { 0 }
        } else if k == 4 {
            if self.I64 != 0 { 1 + var_len(magnitude64(self.I64)) } else { 0 }
        } else if k == 5 {
            if self.F32 != 0 { 5 } else { 0 }
        } else if k == 6 {
            if self.F64 != 0 { 9 } else { 0 }
        } else if k == 7 {
            if self.T.secs == 0 && self.T.nanos == 0 { 0 } else if self.T.secs < 0x1_0000_0000 { 9 } else { 13 }
        } else if k == 8 {
            if self.S.len() > 0 { 1 + var_len(self.S.len() as u64) + self.S.len() } else { 0 }
        } else if k == 9 {
            if self.A.len() > 0 { 1 + var_len(self.A.len() as u64) + self.A.len() } else { 0 }
        } else if k == 14 {
            if self.U8 > 0 { 2 } else { 0 }
        } else if k == 15 {
            if self.U16 >= 256 { 3 } else if self.U16 != 0 { 2 } else { 0 }
        } else if k == 16 {
            if self.F32s.len() > 0 { 1 + var_len(self.F32s.len() as u64) + 4 * self.F32s.len() } else { 0 }
        } else {
            if self.F64s.len() > 0 { 1 + var_len(self.F64s.len() as u64) + 8 * self.F64s.len() } else { 0 }
        }
    }

    /// Adds each record of the list field to the running total `l1`.
    fn grow_by_records(&self, l1: usize, lim: &ColferLimits) -> (r: ColferResult<usize>)
        requires
            lim.wf(),
            l1 <= lim.size_max,
        ensures
            lift(r) == size_records(Ok(l1 as nat), self.model().Os, *lim),
            r is Ok ==> r->Ok_0 <= lim.size_max,
        decreases self, 0int,
    {
        let ghost s = self.model().Os;
        proof {
            lemma_record_views(self.Os@);
        }
        let mut acc: usize = l1;
        let mut i: usize = 0;
        assert(s.take(0) =~= Seq::<RecordModel>::empty());
        while i < self.Os.len()
            invariant
                lim.wf(),
                i <= self.Os@.len(),
                s == record_views(self.Os@),
                s.len() == self.Os@.len(),
                forall|j: int| 0 <= j < s.len() ==> #[trigger] s[j] == self.Os@[j].model(),
                acc <= lim.size_max,
                lift(Ok(acc)) == size_records(Ok(l1 as nat), s.take(i as int), *lim),
            decreases self.Os@.len() - i,
        {
            assert(s.take(i + 1).drop_last() =~= s.take(i as int));
            assert(s.take(i + 1).last() == self.Os@[i as int].model());
            match self.Os[i].colf_marshal_len(lim) {
                Err(e) => {
                    proof {
                        lemma_records_err(Ok(l1 as nat), s, i + 1, *lim);
                    }
                    return Err(e);
                },
                Ok(n) => match grow_by(acc, n, "Os", lim) {
                    Ok(a) => {
                        acc = a;
                    },
                    Err(e) => {
                        proof {
                            lemma_records_err(Ok(l1 as nat), s, i + 1, *lim);
                        }
                        return Err(e);
                    },
                },
            }
            i = i + 1;
        }
        assert(s.take(self.Os@.len() as int) =~= s);
        Ok(acc)
    }

    /// Adds field `k` to the running total `l`, with the checks of its type.
    fn grow_by_field(&self, l: usize, k: usize, lim: &ColferLimits) -> (r: ColferResult<usize>)
        requires
            lim.wf(),
            l <= lim.size_max,
            k < 18,
        ensures
            lift(r) == size_field(Ok(l as nat), self.model(), k as int, *lim),
            r is Ok ==> r->Ok_0 <= lim.size_max,
        decreases self, 1int,
    {
        let ghost m = self.model();
        proof {
            lemma_record_views(self.Os@);
        }
        if k == 8 && self.S.len() > lim.size_max {
            Err(ColferError::MaxSizeBreach { field: "S", overflow: self.S.len() - lim.size_max })
        } else if k == 9 && self.A.len() > lim.size_max {
            Err(ColferError::MaxSizeBreach { field: "A", overflow: self.A.len() - lim.size_max })
        } else if k == 10 && self.O.is_some() {
            match &self.O {
                Some(o) => match o.colf_marshal_len(lim) {
                    Err(e) => Err(e),
                    Ok(n) => grow_by(l, 1 + n, "O", lim),
                },
                None => Ok(l),
            }
        } else if k == 11 && self.Os.len() > 0 {
            if self.Os.len() > lim.list_max {
                Err(ColferError::MaxListBreach { field: "Os", overflow: self.Os.len() - lim.list_max })
            } else {
                let head = grow_by(l, 1 + var_len(self.Os.len() as u64), "Os", lim);
                let ghost s = m.Os;
                proof {
                    lemma_record_views(self.Os@);
                }
                match head {
                    Err(e) => {
                        proof {
                            assert(s.take(0) =~= Seq::<RecordModel>::empty());
                            lemma_records_err(lift(head), s, 0, *lim);
                        }
                        Err(e)
                    },
                    Ok(l1) => self.grow_by_records(l1, lim),
                }
            }
        } else if k == 12 && self.Ss.len() > 0 {
            if self.Ss.len() > lim.list_max {
                Err(ColferError::MaxListBreach { field: "Ss", overflow: self.Ss.len() - lim.list_max })
            } else {
                match grow_by(l, 1 + var_len(self.Ss.len() as u64), "Ss", lim) {
                    Err(e) => {
                        proof {
                            assert(m.Ss.take(0) =~= Seq::<Seq<u8>>::empty());
                            lemma_blobs_err(Err(e), m.Ss, 0, "Ss", *lim);
                        }
                        Err(e)
                    },
                    Ok(l1) => grow_by_blobs(l1, &self.Ss, "Ss", lim),
                }
            }
        } else if k == 13 && self.As.len() > 0 {
            if self.As.len() > lim.list_max {
                Err(ColferError::MaxListBreach { field: "As", overflow: self.As.len() - lim.list_max })
            } else {
                match grow_by(l, 1 + var_len(self.As.len() as u64), "As", lim) {
                    Err(e) => {
                        proof {
                            assert(m.As.take(0) =~= Seq::<Seq<u8>>::empty());
                            lemma_blobs_err(Err(e), m.As, 0, "As", *lim);
                        }
                        Err(e)
                    },
                    Ok(l1) => grow_by_blobs(l1, &self.As, "As", lim),
                }
            }
        } else if k == 16 && self.F32s.len() > lim.list_max {
            Err(ColferError::MaxListBreach { field: "F32s", overflow: self.F32s.len() - lim.list_max })
        } else if k == 17 && self.F64s.len() > lim.list_max {
            Err(ColferError::MaxListBreach { field: "F64s", overflow: self.F64s.len() - lim.list_max })
        } else if k == 10 || k == 11 || k == 12 || k == 13 {
            Ok(l)
        } else {
            grow_by(l, self.field_len(k, lim), name_of(k), lim)
        }
    }
}

/// Appends each text or binary of a list: its length, then its bytes.
fn put_blobs(buf: &mut Vec<u8>, v: &Vec<Vec<u8>>)
    ensures
        final(buf)@ == old(buf)@ + enc_blobs(blob_views(v@)),
{
    let ghost s = blob_views(v@);
    let mut i: usize = 0;
    assert(s.take(0) =~= Seq::<Seq<u8>>::empty());
    while i < v.len()
        invariant
            i <= v@.len(),
            s == blob_views(v@),
            buf@ == old(buf)@ + enc_blobs(s.take(i as int)),
        decreases v@.len() - i,
    {
        assert(s.take(i + 1).drop_last() =~= s.take(i as int));
        assert(s.take(i + 1).last() == v@[i as int]@);
        put_var(buf, v[i].len() as u64);
        put_bytes(buf, v[i].as_slice());
        assert(buf@ =~= old(buf)@ + enc_blobs(s.take(i + 1)));
        i = i + 1;
    }
    assert(s.take(v@.len() as int) =~= s);
}

/// Appends each 32-bit pattern as four big-endian bytes.
fn put_words32(buf: &mut Vec<u8>, v: &Vec<u32>)
    ensures
        final(buf)@ == old(buf)@ + enc_words32(v@),
{
    let mut i: usize = 0;
    assert(v@.take(0) =~= Seq::<u32>::empty());
    while i < v.len()
        invariant
            i <= v@.len(),
            buf@ == old(buf)@ + enc_words32(v@.take(i as int)),
        decreases v@.len() - i,
    {
        assert(v@.take(i + 1).drop_last() =~= v@.take(i as int));
        put_be(buf, v[i] as u64, 4);
        assert(buf@ =~= old(buf)@ + enc_words32(v@.take(i + 1)));
        i = i + 1;
    }
    assert(v@.take(v@.len() as int) =~= v@);
}

/// Appends each 64-bit pattern as eight big-endian bytes.
fn put_words64(buf: &mut Vec<u8>, v: &Vec<u64>)
    ensures
        final(buf)@ == old(buf)@ + enc_words64(v@),
{
    let mut i: usize = 0;
    assert(v@.take(0) =~= Seq::<u64>::empty());
    while i < v.len()
        invariant
            i <= v@.len(),
            buf@ == old(buf)@ + enc_words64(v@.take(i as int)),
        decreases v@.len() - i,
    {
        assert(v@.take(i + 1).drop_last() =~= v@.take(i as int));
        put_be(buf, v[i], 8);
        assert(buf@ =~= old(buf)@ + enc_words64(v@.take(i + 1)));
        i = i + 1;
    }
    assert(v@.take(v@.len() as int) =~= v@);
}

impl ColferTypes {
    /// Appends each record of the list field, each with its own terminator.
    fn put_records(&self, buf: &mut Vec<u8>)
        ensures
            final(buf)@ == old(buf)@ + enc_records(self.model().Os),
        decreases self, 0int,
    {
        let ghost s = self.model().Os;
        proof {
            lemma_record_views(self.Os@);
        }
        let mut i: usize = 0;
        assert(s.take(0) =~= Seq::<RecordModel>::empty());
        while i < self.Os.len()
            invariant
                i <= self.Os@.len(),
                s == record_views(self.Os@),
                s.len() == self.Os@.len(),
                forall|j: int| 0 <= j < s.len() ==> #[trigger] s[j] == self.Os@[j].model(),
                buf@ == old(buf)@ + enc_records(s.take(i as int)),
            decreases self.Os@.len() - i,
        {
            assert(s.take(i + 1).drop_last() =~= s.take(i as int));
            assert(s.take(i + 1).last() == self.Os@[i as int].model());
            self.Os[i].colf_marshal_to(buf);
            assert(buf@ =~= old(buf)@ + enc_records(s.take(i + 1)));
            i = i + 1;
        }
        assert(s.take(self.Os@.len() as int) =~= s);
    }

    /// Appends field `k`: nothing where it holds its zero value.
    fn put_field(&self, buf: &mut Vec<u8>, k: usize)
        requires
            k < 18,
        ensures
            final(buf)@ == old(buf)@ + enc_field(self.model(), k as int),
        decreases self, 1int,
    {
        let ghost m = self.model();
        proof {
            lemma_record_views(self.Os@);
        }
        if k == 0 {
            if self.B {
                buf.push(0);
            }
        } else if k == 1 {
            if self.U32 >= 0x20_0000 {
                buf.push(0x81);
                put_be(buf, self.U32 as u64, 4);
            } else if self.U32 != 0 {
                buf.push(1);
                put_var(buf, self.U32 as u64);
            }
        } else if k == 2 {
            if self.U64 >= 0x2_0000_0000_0000 {
                buf.push(0x82);
                put_be(buf, self.U64, 8);
            } else if self.U64 != 0 {
                buf.push(2);
                put_var(buf, self.U64);
            }
        } else if k == 3 {
            if self.I32 != 0 {
                buf.push(if self.I32 > 0 { 3 } else { 0x83 });
                put_var(buf, magnitude32(self.I32) as u64);
            }
        } else if k == 4 {
            if self.I64 != 0 {
                buf.push(if self.I64 > 0 { 4 } else { 0x84 });
                put_var(buf, magnitude64(self.I64));
            }
        } else if k == 5 {
            if self.F32 != 0 {
                buf.push(5);
                put_be(buf, self.F32 as u64, 4);
            }
        } else if k == 6 {
            if self.F64 != 0 {
                buf.push(6);
                put_be(buf, self.F64, 8);
            }
        } else if k == 7 {
            if self.T.secs != 0 || self.T.nanos != 0 {
                if self.T.secs < 0x1_0000_0000 {
                    buf.push(7);
                    put_be(buf, self.T.secs, 4);
                } else {
                    buf.push(0x87);
                    put_be(buf, self.T.secs, 8);
                }
                put_be(buf, self.T.nanos as u64, 4);
            }
        } else if k == 8 {
            if self.S.len() > 0 {
                buf.push(8);
                put_var(buf, self.S.len() as u64);
                put_bytes(buf, self.S.as_slice());
            }
        } else if k == 9 {
            if self.A.len() > 0 {
                buf.push(9);
                put_var(buf, self.A.len() as u64);
                put_bytes(buf, self.A.as_slice());
            }
        } else if k == 10 {
            match &self.O {
                Some(o) => {
                    buf.push(10);
                    o.colf_marshal_to(buf);
                },
                None => {},
            }
        } else if k == 11 {
            if self.Os.len() > 0 {
                buf.push(11);
                put_var(buf, self.Os.len() as u64);
                self.put_records(buf);
            }
        } else if k == 12 {
            if self.Ss.len() > 0 {
                buf.push(12);
                put_var(buf, self.Ss.len() as u64);
                put_blobs(buf, &self.Ss);
            }
        } else if k == 13 {
            if self.As.len() > 0 {
                buf.push(13);
                put_var(buf, self.As.len() as u64);
                put_blobs(buf, &self.As);
            }
        } else if k == 14 {
            if self.U8 > 0 {
                buf.push(14);
                buf.push(self.U8);
            }
        } else if k == 15 {
            if self.U16 >= 256 {
                buf.push(15);
                buf.push((self.U16 / 256) as u8);
                buf.push((self.U16 % 256) as u8);
            } else if self.U16 != 0 {
                buf.push(0x8f);
                buf.push(self.U16 as u8);
            }
        } else if k == 16 {
            if self.F32s.len() > 0 {
                buf.push(16);
                put_var(buf, self.F32s.len() as u64);
                put_words32(buf, &self.F32s);
            }
        } else {
            if self.F64s.len() > 0 {
                buf.push(17);
                put_var(buf, self.F64s.len() as u64);
                put_words64(buf, &self.F64s);
            }
        }
        assert(buf@ =~= old(buf)@ + enc_field(m, k as int));
    }
}

impl Default for ColferTypes {
    /// The record whose every field holds its zero value.
    fn default() -> (r: ColferTypes)
        ensures
            r.model() == crate::model::zero_model(),
    {
        let r = ColferTypes {
            B: false,
            U32: 0,
            U64: 0,
            I32: 0,
            I64: 0,
            F64: 0,
            F32: 0,
            T: Timestamp { secs: 0, nanos: 0 },
            S: Vec::new(),
            A: Vec::new(),
            O: None,
            Os: Vec::new(),
            Ss: Vec::new(),
            As: Vec::new(),
            U8: 0,
            U16: 0,
            F32s: Vec::new(),
            F64s: Vec::new(),
        };
        assert(blob_views(r.Ss@) =~= Seq::<Seq<u8>>::empty());
        assert(blob_views(r.As@) =~= Seq::<Seq<u8>>::empty());
        assert(record_views(r.Os@) =~= Seq::<RecordModel>::empty());
        assert(r.model() == crate::model::zero_model());
        r
    }
}

impl ColferSerializable for ColferTypes {
    open spec fn encoding(&self) -> Seq<u8> {
        enc(self.model())
    }

    open spec fn size_check(&self, lim: ColferLimits) -> Result<nat, ColferError> {
        size(self.model(), lim)
    }

    open spec fn decode_end(&self, data: Seq<u8>, lim: ColferLimits) -> Result<nat, ColferError> {
        match parse_fields(data, 0, self.model(), lim) {
            Ok((_, e)) => Ok(e as nat),
            Err(x) => Err(x),
        }
    }

    open spec fn decoded_from(&self, before: ColferTypes, data: Seq<u8>, lim: ColferLimits) -> bool {
        match parse_fields(data, 0, before.model(), lim) {
            Ok((m, _)) => self.model() == m,
            Err(_) => false,
        }
    }

    fn colf_unmarshal(&mut self, data: &[u8], lim: &ColferLimits) -> (r: ColferResult<usize>) {
        self.unmarshal_at(data, 0, lim)
    }

    fn colf_marshal_to(&self, buf: &mut Vec<u8>) -> (n: usize)
        decreases self, 2int,
    {
        let ghost m = self.model();
        let previous_len = buf.len();
        let mut k: usize = 0;
        while k < 18
            invariant
                k <= 18,
                m == self.model(),
                buf@ == old(buf)@ + enc_fields(m, k as int),
            decreases 18 - k,
        {
            let ghost before = buf@;
            self.put_field(buf, k);
            assert(buf@ =~= old(buf)@ + enc_fields(m, k + 1));
            k = k + 1;
        }
        buf.push(TERMINATOR);
        assert(buf@ =~= old(buf)@ + enc(m));
        buf.len() - previous_len
    }

    fn colf_marshal_len(&self, lim: &ColferLimits) -> (r: ColferResult<usize>)
        decreases self, 2int,
    {
        let ghost m = self.model();
        let mut l: usize = match grow_by(0, 1, "self", lim) {
            Ok(n) => n,
            Err(e) => {
                proof {
                    lemma_fields_err(m, 0, 18, *lim);
                }
                return Err(e);
            },
        };
        let mut k: usize = 0;
        while k < 18
            invariant
                lim.wf(),
                k <= 18,
                l <= lim.size_max,
                m == self.model(),
                lift(Ok(l)) == size_fields(m, k as int, *lim),
            decreases 18 - k,
        {
            match self.grow_by_field(l, k, lim) {
                Ok(n) => {
                    l = n;
                },
                Err(e) => {
                    proof {
                        lemma_fields_err(m, k + 1, 18, *lim);
                    }
                    return Err(e);
                },
            }
            k = k + 1;
        }
        Ok(l)
    }
}

} // verus!

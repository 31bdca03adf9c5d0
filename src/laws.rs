//! Properties of the codec that hold for every record.
use vstd::prelude::*;
use crate::model::{
    RecordModel, zero_model, enc, enc_field, enc_fields, enc_records, enc_blobs, enc_words32,
    enc_words64, size, size_fields, size_field, size_records, size_blobs, grow, parse_fields,
    parse_field, parse_records, parse_blob, parse_blobs, instant, signed32, signed64, magnitude,
    words32, words64, lemma_records_err, lemma_blobs_err, lemma_fields_err, TERMINATOR,
    NANOS_PER_SEC,
};
use crate::wire::{
    var, be_bytes, be_value, read_var, pow256, lemma_varint_round_trip,
    lemma_varint_limit, lemma_be_round_trip, lemma_be_bytes_len, lemma_varint_len, VARINT_CAP,
};
use vstd::utf8::valid_utf8;
use crate::types::{lemma_words32_len, lemma_words64_len};
use crate::types::ColferTypes;
use crate::{ColferLimits, ColferSerializable};

verus! {

/// A record whose every field holds its zero value encodes to the terminator alone.
pub proof fn lemma_zero_elision()
    ensures
        enc(zero_model()) == seq![TERMINATOR],
{
    let z = zero_model();
    reveal_with_fuel(enc_fields, 19);
    assert(enc_fields(z, 18) =~= Seq::<u8>::empty());
    assert(enc(z) =~= seq![TERMINATOR]);
}

proof fn lemma_blobs_len(l: nat, s: Seq<Seq<u8>>, field: &'static str, lim: ColferLimits)
    ensures
        size_blobs(Ok(l), s, field, lim) is Ok ==> size_blobs(Ok(l), s, field, lim)->Ok_0 == l
            + enc_blobs(s).len(),
    decreases s.len(),
{
    if s.len() > 0 {
        lemma_blobs_len(l, s.drop_last(), field, lim);
    }
}

proof fn lemma_records_len(l: nat, s: Seq<RecordModel>, lim: ColferLimits)
    ensures
        size_records(Ok(l), s, lim) is Ok ==> size_records(Ok(l), s, lim)->Ok_0 == l + enc_records(
            s,
        ).len(),
    decreases s, 0int,
{
    if s.len() > 0 {
        lemma_records_len(l, s.drop_last(), lim);
        lemma_length_agreement(s.last(), lim);
    }
}

proof fn lemma_field_len(l: nat, m: RecordModel, k: int, lim: ColferLimits)
    requires
        0 <= k < 18,
    ensures
        size_field(Ok(l), m, k, lim) is Ok ==> size_field(Ok(l), m, k, lim)->Ok_0 == l + enc_field(
            m,
            k,
        ).len(),
    decreases m, 1int,
{
    if k == 10 {
        if let Some(o) = m.O {
            lemma_length_agreement(*o, lim);
        }
    } else if k == 11 && m.Os.len() > 0 {
        let head = grow(Ok(l), 1 + var(m.Os.len()).len(), "Os", lim);
        if head is Ok {
            lemma_records_len(head->Ok_0, m.Os, lim);
        } else {
            assert(m.Os.take(0) =~= Seq::<RecordModel>::empty());
            assert(size_records(head, m.Os.take(0), lim) == head);
            lemma_records_err(head, m.Os, 0, lim);
        }
    } else if (k == 12 && m.Ss.len() > 0) || (k == 13 && m.As.len() > 0) {
        let s = if k == 12 { m.Ss } else { m.As };
        let f: &'static str = if k == 12 { "Ss" } else { "As" };
        let head = grow(Ok(l), 1 + var(s.len()).len(), f, lim);
        if head is Ok {
            lemma_blobs_len(head->Ok_0, s, f, lim);
        } else {
            assert(s.take(0) =~= Seq::<Seq<u8>>::empty());
            assert(size_blobs(head, s.take(0), f, lim) == head);
            lemma_blobs_err(head, s, 0, f, lim);
        }
    }
}

proof fn lemma_fields_len(m: RecordModel, k: int, lim: ColferLimits)
    requires
        0 <= k <= 18,
    ensures
        size_fields(m, k, lim) is Ok ==> size_fields(m, k, lim)->Ok_0 == 1 + enc_fields(m, k).len(),
    decreases m, k + 2,
{
    if k > 0 {
        lemma_fields_len(m, k - 1, lim);
        assert(size_fields(m, k, lim) == size_field(size_fields(m, k - 1, lim), m, k - 1, lim));
        assert(enc_fields(m, k) == enc_fields(m, k - 1) + enc_field(m, k - 1));
        if size_fields(m, k - 1, lim) is Ok {
            lemma_field_len(size_fields(m, k - 1, lim)->Ok_0, m, k - 1, lim);
        }
    }
}

/// The size check, where it passes, gives exactly the length of the encoding,
/// nested records and lists included.
pub proof fn lemma_length_agreement(m: RecordModel, lim: ColferLimits)
    ensures
        size(m, lim) is Ok ==> size(m, lim)->Ok_0 == enc(m).len(),
    decreases m, 21int,
{
    lemma_fields_len(m, 18, lim);
}

/// A record that decoding gives back: texts are UTF-8, nanoseconds stay
/// below a second, and every text, binary and list, nested ones included,
/// is within the ceilings of `lim`.
pub open spec fn valid_model(m: RecordModel, lim: ColferLimits) -> bool
    decreases m, 1int,
{
    &&& valid_utf8(m.S)
    &&& m.S.len() <= lim.size_max
    &&& m.A.len() <= lim.size_max
    &&& m.T.nanos < NANOS_PER_SEC
    &&& match m.O {
        Some(o) => valid_model(*o, lim),
        None => true,
    }
    &&& m.Os.len() <= lim.list_max
    &&& valid_models(m.Os, lim)
    &&& m.Ss.len() <= lim.list_max
    &&& forall|i: int| 0 <= i < m.Ss.len() ==> valid_utf8(#[trigger] m.Ss[i]) && m.Ss[i].len() <= lim.size_max
    &&& m.As.len() <= lim.list_max
    &&& forall|i: int| 0 <= i < m.As.len() ==> (#[trigger] m.As[i]).len() <= lim.size_max
    &&& m.F32s.len() <= lim.list_max
    &&& m.F64s.len() <= lim.list_max
}

/// Each record of a list is valid.
pub open spec fn valid_models(s: Seq<RecordModel>, lim: ColferLimits) -> bool
    decreases s, 0int,
{
    if s.len() == 0 {
        true
    } else {
        valid_models(s.drop_last(), lim) && valid_model(s.last(), lim)
    }
}

/// `m` with the fields from `k` on at their zero values.
pub open spec fn upto(m: RecordModel, k: int) -> RecordModel {
    let z = zero_model();
    RecordModel {
        B: if k > 0 { m.B } else { z.B },
        U32: if k > 1 { m.U32 } else { z.U32 },
        U64: if k > 2 { m.U64 } else { z.U64 },
        I32: if k > 3 { m.I32 } else { z.I32 },
        I64: if k > 4 { m.I64 } else { z.I64 },
        F32: if k > 5 { m.F32 } else { z.F32 },
        F64: if k > 6 { m.F64 } else { z.F64 },
        T: if k > 7 { m.T } else { z.T },
        S: if k > 8 { m.S } else { z.S },
        A: if k > 9 { m.A } else { z.A },
        O: if k > 10 { m.O } else { z.O },
        Os: if k > 11 { m.Os } else { z.Os },
        Ss: if k > 12 { m.Ss } else { z.Ss },
        As: if k > 13 { m.As } else { z.As },
        U8: if k > 14 { m.U8 } else { z.U8 },
        U16: if k > 15 { m.U16 } else { z.U16 },
        F32s: if k > 16 { m.F32s } else { z.F32s },
        F64s: if k > 17 { m.F64s } else { z.F64s },
    }
}

proof fn lemma_read_var(x: nat, pre: Seq<u8>, rest: Seq<u8>)
    requires
        x < 0x1_0000_0000_0000_0000,
    ensures
        read_var(pre + var(x) + rest, pre.len() as int) == Some((x, pre.len() + var(x).len() as int)),
        1 <= var(x).len() <= 9,
{
    lemma_varint_limit(VARINT_CAP as nat);
    lemma_varint_round_trip(x, VARINT_CAP as nat, pre, rest);
    lemma_varint_len(x, VARINT_CAP as nat);
}

proof fn lemma_be_read(x: nat, n: nat, pre: Seq<u8>, rest: Seq<u8>)
    requires
        x < pow256(n),
    ensures
        (pre + be_bytes(x, n) + rest).subrange(pre.len() as int, (pre.len() + n) as int) == be_bytes(x, n),
        be_value(be_bytes(x, n)) == x,
        be_bytes(x, n).len() == n,
{
    lemma_be_bytes_len(x, n);
    lemma_be_round_trip(x, n);
    vstd::arithmetic::div_mod::lemma_small_mod(x, pow256(n));
    assert((pre + be_bytes(x, n) + rest).subrange(pre.len() as int, (pre.len() + n) as int) =~= be_bytes(x, n));
}

proof fn lemma_split(d: Seq<u8>, a: int, x: Seq<u8>)
    requires
        0 <= a,
        a + x.len() <= d.len(),
        d.subrange(a, a + x.len()) == x,
    ensures
        d == d.take(a) + x + d.skip(a + x.len()),
{
    assert(d =~= d.take(a) + x + d.skip(a + x.len()));
}

proof fn lemma_blobs_prefix(s: Seq<Seq<u8>>, j: int)
    requires
        0 <= j <= s.len(),
    ensures
        enc_blobs(s.take(j)) == enc_blobs(s).take(enc_blobs(s.take(j)).len() as int),
        enc_blobs(s.take(j)).len() <= enc_blobs(s).len(),
    decreases s.len(),
{
    if j == s.len() {
        assert(s.take(j) =~= s);
    } else {
        lemma_blobs_prefix(s.drop_last(), j);
        assert(s.drop_last().take(j) =~= s.take(j));
        assert(enc_blobs(s) == enc_blobs(s.drop_last()) + var(s.last().len()) + s.last());
        assert(enc_blobs(s).take(enc_blobs(s.take(j)).len() as int) =~= enc_blobs(s.drop_last()).take(
            enc_blobs(s.take(j)).len() as int,
        ));
    }
}

proof fn lemma_records_prefix(s: Seq<RecordModel>, j: int)
    requires
        0 <= j <= s.len(),
    ensures
        enc_records(s.take(j)) == enc_records(s).take(enc_records(s.take(j)).len() as int),
        enc_records(s.take(j)).len() <= enc_records(s).len(),
    decreases s.len(),
{
    if j == s.len() {
        assert(s.take(j) =~= s);
    } else {
        lemma_records_prefix(s.drop_last(), j);
        assert(s.drop_last().take(j) =~= s.take(j));
        assert(enc_records(s) == enc_records(s.drop_last()) + enc(s.last()));
        assert(enc_records(s).take(enc_records(s.take(j)).len() as int) =~= enc_records(
            s.drop_last(),
        ).take(enc_records(s.take(j)).len() as int));
    }
}

proof fn lemma_words32_at(s: Seq<u32>, i: int)
    requires
        0 <= i < s.len(),
    ensures
        enc_words32(s).subrange(4 * i, 4 * i + 4) == be_bytes(s[i] as nat, 4),
    decreases s.len(),
{
    lemma_words32_len(s.drop_last());
    lemma_be_bytes_len(s.last() as nat, 4);
    if i < s.len() - 1 {
        lemma_words32_at(s.drop_last(), i);
        assert(enc_words32(s).subrange(4 * i, 4 * i + 4) =~= enc_words32(s.drop_last()).subrange(4 * i, 4 * i + 4));
    } else {
        assert(enc_words32(s).subrange(4 * i, 4 * i + 4) =~= be_bytes(s.last() as nat, 4));
    }
}

proof fn lemma_words64_at(s: Seq<u64>, i: int)
    requires
        0 <= i < s.len(),
    ensures
        enc_words64(s).subrange(8 * i, 8 * i + 8) == be_bytes(s[i] as nat, 8),
    decreases s.len(),
{
    lemma_words64_len(s.drop_last());
    lemma_be_bytes_len(s.last() as nat, 8);
    if i < s.len() - 1 {
        lemma_words64_at(s.drop_last(), i);
        assert(enc_words64(s).subrange(8 * i, 8 * i + 8) =~= enc_words64(s.drop_last()).subrange(8 * i, 8 * i + 8));
    } else {
        assert(enc_words64(s).subrange(8 * i, 8 * i + 8) =~= be_bytes(s.last() as nat, 8));
    }
}

proof fn lemma_words32_round_trip(s: Seq<u32>)
    ensures
        words32(enc_words32(s), s.len()) == s,
{
    reveal_with_fuel(pow256, 5);
    assert forall|i: int| 0 <= i < s.len() implies #[trigger] words32(enc_words32(s), s.len())[i] == s[i] by {
        lemma_words32_at(s, i);
        lemma_be_read(s[i] as nat, 4, Seq::empty(), Seq::empty());
    }
    assert(words32(enc_words32(s), s.len()) =~= s);
}

proof fn lemma_words64_round_trip(s: Seq<u64>)
    ensures
        words64(enc_words64(s), s.len()) == s,
{
    reveal_with_fuel(pow256, 9);
    assert forall|i: int| 0 <= i < s.len() implies #[trigger] words64(enc_words64(s), s.len())[i] == s[i] by {
        lemma_words64_at(s, i);
        lemma_be_read(s[i] as nat, 8, Seq::empty(), Seq::empty());
    }
    assert(words64(enc_words64(s), s.len()) =~= s);
}

/// Reading back a byte run that was written with its length.
proof fn lemma_blob_read(d: Seq<u8>, pos: int, b: Seq<u8>, field: &'static str, text: bool, lim: ColferLimits)
    requires
        0 <= pos,
        pos + var(b.len()).len() + b.len() <= d.len(),
        d.subrange(pos, pos + var(b.len()).len() + b.len()) == var(b.len()) + b,
        b.len() <= lim.size_max,
        text ==> valid_utf8(b),
    ensures
        parse_blob(d, pos, field, text, lim) == Ok::<(Seq<u8>, int), crate::error::ColferError>(
            (b, pos + var(b.len()).len() + b.len()),
        ),
{
    let x = var(b.len()) + b;
    lemma_split(d, pos, x);
    let rest = b + d.skip(pos + x.len());
    assert(d =~= d.take(pos) + var(b.len()) + rest);
    lemma_read_var(b.len(), d.take(pos), rest);
    let e = pos + var(b.len()).len();
    assert(d.subrange(e, e + b.len()) =~= b);
}

proof fn lemma_blobs_round_trip(d: Seq<u8>, base: int, s: Seq<Seq<u8>>, j: int, field: &'static str, text: bool, lim: ColferLimits)
    requires
        0 <= base,
        0 <= j <= s.len(),
        base + enc_blobs(s).len() <= d.len(),
        d.subrange(base, base + enc_blobs(s).len()) == enc_blobs(s),
        forall|i: int| 0 <= i < s.len() ==> (#[trigger] s[i]).len() <= lim.size_max && (text ==> valid_utf8(s[i])),
    ensures
        parse_blobs(d, base + enc_blobs(s.take(j)).len(), (s.len() - j) as nat, s.take(j), field, text, lim)
            == Ok::<(Seq<Seq<u8>>, int), crate::error::ColferError>((s, base + enc_blobs(s).len())),
    decreases s.len() - j,
{
    if j == s.len() {
        assert(s.take(j) =~= s);
    } else {
        lemma_blobs_prefix(s, j + 1);
        let t = s.take(j + 1);
        assert(t.drop_last() =~= s.take(j));
        let a = base + enc_blobs(s.take(j)).len();
        let x = var(s[j].len()) + s[j];
        assert(enc_blobs(t) == enc_blobs(s.take(j)) + x);
        assert(d.subrange(a, a + x.len()) =~= enc_blobs(s).subrange(a - base, a - base + x.len()));
        assert(enc_blobs(s).subrange(a - base, a - base + x.len()) =~= enc_blobs(t).subrange(a - base, a - base + x.len()));
        assert(enc_blobs(t).subrange(a - base, a - base + x.len()) =~= x);
        assert(s[j].len() <= lim.size_max && (text ==> valid_utf8(s[j])));
        lemma_blob_read(d, a, s[j], field, text, lim);
        assert(s.take(j).push(s[j]) =~= t);
        lemma_blobs_round_trip(d, base, s, j + 1, field, text, lim);
    }
}

proof fn lemma_valid_models_at(s: Seq<RecordModel>, lim: ColferLimits)
    requires
        valid_models(s, lim),
    ensures
        forall|i: int| 0 <= i < s.len() ==> valid_model(#[trigger] s[i], lim),
    decreases s.len(),
{
    if s.len() > 0 {
        lemma_valid_models_at(s.drop_last(), lim);
        assert forall|i: int| 0 <= i < s.len() implies valid_model(#[trigger] s[i], lim) by {
            if i < s.len() - 1 {
                assert(s.drop_last()[i] == s[i]);
            }
        }
    }
}

proof fn lemma_signed(x: i32, y: i64)
    ensures
        x != 0 ==> signed32(magnitude(x as int), x < 0) == x,
        y != 0 ==> signed64(magnitude(y as int), y < 0) == y,
{
}

proof fn lemma_fields_prefix(m: RecordModel, k: int, j: int)
    requires
        0 <= k <= j,
    ensures
        enc_fields(m, j).take(enc_fields(m, k).len() as int) == enc_fields(m, k),
        enc_fields(m, k).len() <= enc_fields(m, j).len(),
    decreases j,
{
    if k < j {
        lemma_fields_prefix(m, k, j - 1);
        assert(enc_fields(m, j) == enc_fields(m, j - 1) + enc_field(m, j - 1));
        assert(enc_fields(m, j).take(enc_fields(m, k).len() as int) =~= enc_fields(m, j - 1).take(
            enc_fields(m, k).len() as int,
        ));
    } else {
        assert(enc_fields(m, j).take(enc_fields(m, k).len() as int) =~= enc_fields(m, k));
    }
}

proof fn lemma_records_round_trip(d: Seq<u8>, base: int, s: Seq<RecordModel>, j: int, lim: ColferLimits)
    requires
        0 <= base,
        0 <= j <= s.len(),
        base + enc_records(s).len() <= d.len(),
        d.subrange(base, base + enc_records(s).len()) == enc_records(s),
        forall|i: int| 0 <= i < s.len() ==> valid_model(#[trigger] s[i], lim),
    ensures
        parse_records(d, base + enc_records(s.take(j)).len(), (s.len() - j) as nat, s.take(j), lim)
            == Ok::<(Seq<RecordModel>, int), crate::error::ColferError>((s, base + enc_records(s).len())),
    decreases s, s.len() - j,
{
    if j == s.len() {
        assert(s.take(j) =~= s);
    } else {
        lemma_records_prefix(s, j + 1);
        let t = s.take(j + 1);
        assert(t.drop_last() =~= s.take(j));
        let a = base + enc_records(s.take(j)).len();
        let x = enc(s[j]);
        assert(enc_records(t) == enc_records(s.take(j)) + x);
        assert(d.subrange(a, a + x.len()) =~= enc_records(s).subrange(a - base, a - base + x.len()));
        assert(enc_records(s).subrange(a - base, a - base + x.len()) =~= enc_records(t).subrange(a - base, a - base + x.len()));
        assert(enc_records(t).subrange(a - base, a - base + x.len()) =~= x);
        lemma_decode_enc(s[j], d, a, lim);
        assert(s.take(j).push(s[j]) =~= t);
        lemma_records_round_trip(d, base, s, j + 1, lim);
    }
}

#[verifier::rlimit(80)]
#[verifier::spinoff_prover]
proof fn lemma_step_flag(m: RecordModel, k: int, d: Seq<u8>, pos: int, lim: ColferLimits)
    requires
        0 <= k < 18,
        valid_model(m, lim),
        0 <= pos,
        pos + enc_field(m, k).len() <= d.len(),
        d.subrange(pos, pos + enc_field(m, k).len()) == enc_field(m, k),
        enc_field(m, k).len() > 0,
        k == 0 || k == 14 || k == 15,
    ensures
        parse_field(d, pos, upto(m, k), lim) == Ok::<(RecordModel, int), crate::error::ColferError>(
            (upto(m, k + 1), pos + enc_field(m, k).len()),
        ),
{
    let e = enc_field(m, k);
    let p = pos + 1;
    let after = d.skip(pos + e.len());
    reveal_with_fuel(pow256, 9);
    lemma_split(d, pos, e);
    let pre1 = d.take(pos).push(e[0]);
    assert(d[pos] == e[0]);
    let tail = e.skip(1);
    assert(d =~= pre1 + tail + after);
}

#[verifier::rlimit(80)]
#[verifier::spinoff_prover]
proof fn lemma_step_u32(m: RecordModel, k: int, d: Seq<u8>, pos: int, lim: ColferLimits)
    requires
        0 <= k < 18,
        valid_model(m, lim),
        0 <= pos,
        pos + enc_field(m, k).len() <= d.len(),
        d.subrange(pos, pos + enc_field(m, k).len()) == enc_field(m, k),
        enc_field(m, k).len() > 0,
        k == 1,
    ensures
        parse_field(d, pos, upto(m, k), lim) == Ok::<(RecordModel, int), crate::error::ColferError>(
            (upto(m, k + 1), pos + enc_field(m, k).len()),
        ),
{
    let e = enc_field(m, k);
    let p = pos + 1;
    let after = d.skip(pos + e.len());
    reveal_with_fuel(pow256, 9);
    lemma_split(d, pos, e);
    let pre1 = d.take(pos).push(e[0]);
    assert(d[pos] == e[0]);
    let tail = e.skip(1);
    assert(d =~= pre1 + tail + after);
    if m.U32 >= 0x20_0000 {
        assert(tail =~= be_bytes(m.U32 as nat, 4));
        lemma_be_read(m.U32 as nat, 4, pre1, after);
    } else {
        assert(tail =~= var(m.U32 as nat));
        lemma_read_var(m.U32 as nat, pre1, after);
    }
}

#[verifier::rlimit(80)]
#[verifier::spinoff_prover]
proof fn lemma_step_u64(m: RecordModel, k: int, d: Seq<u8>, pos: int, lim: ColferLimits)
    requires
        0 <= k < 18,
        valid_model(m, lim),
        0 <= pos,
        pos + enc_field(m, k).len() <= d.len(),
        d.subrange(pos, pos + enc_field(m, k).len()) == enc_field(m, k),
        enc_field(m, k).len() > 0,
        k == 2,
    ensures
        parse_field(d, pos, upto(m, k), lim) == Ok::<(RecordModel, int), crate::error::ColferError>(
            (upto(m, k + 1), pos + enc_field(m, k).len()),
        ),
{
    let e = enc_field(m, k);
    let p = pos + 1;
    let after = d.skip(pos + e.len());
    reveal_with_fuel(pow256, 9);
    lemma_split(d, pos, e);
    let pre1 = d.take(pos).push(e[0]);
    assert(d[pos] == e[0]);
    let tail = e.skip(1);
    assert(d =~= pre1 + tail + after);
    if m.U64 >= 0x2_0000_0000_0000 {
        assert(tail =~= be_bytes(m.U64 as nat, 8));
        lemma_be_read(m.U64 as nat, 8, pre1, after);
    } else {
        assert(tail =~= var(m.U64 as nat));
        lemma_read_var(m.U64 as nat, pre1, after);
    }
}

#[verifier::rlimit(80)]
#[verifier::spinoff_prover]
proof fn lemma_step_signed(m: RecordModel, k: int, d: Seq<u8>, pos: int, lim: ColferLimits)
    requires
        0 <= k < 18,
        valid_model(m, lim),
        0 <= pos,
        pos + enc_field(m, k).len() <= d.len(),
        d.subrange(pos, pos + enc_field(m, k).len()) == enc_field(m, k),
        enc_field(m, k).len() > 0,
        k == 3 || k == 4,
    ensures
        parse_field(d, pos, upto(m, k), lim) == Ok::<(RecordModel, int), crate::error::ColferError>(
            (upto(m, k + 1), pos + enc_field(m, k).len()),
        ),
{
    let e = enc_field(m, k);
    let p = pos + 1;
    let after = d.skip(pos + e.len());
    reveal_with_fuel(pow256, 9);
    lemma_split(d, pos, e);
    let pre1 = d.take(pos).push(e[0]);
    assert(d[pos] == e[0]);
    let tail = e.skip(1);
    assert(d =~= pre1 + tail + after);
    if k == 3 {
        lemma_signed(m.I32, 1);
        assert(tail =~= var(magnitude(m.I32 as int)));
        lemma_read_var(magnitude(m.I32 as int), pre1, after);
    } else {
        lemma_signed(1, m.I64);
        assert(tail =~= var(magnitude(m.I64 as int)));
        lemma_read_var(magnitude(m.I64 as int), pre1, after);
    }
}

#[verifier::rlimit(80)]
#[verifier::spinoff_prover]
proof fn lemma_step_float(m: RecordModel, k: int, d: Seq<u8>, pos: int, lim: ColferLimits)
    requires
        0 <= k < 18,
        valid_model(m, lim),
        0 <= pos,
        pos + enc_field(m, k).len() <= d.len(),
        d.subrange(pos, pos + enc_field(m, k).len()) == enc_field(m, k),
        enc_field(m, k).len() > 0,
        k == 5 || k == 6,
    ensures
        parse_field(d, pos, upto(m, k), lim) == Ok::<(RecordModel, int), crate::error::ColferError>(
            (upto(m, k + 1), pos + enc_field(m, k).len()),
        ),
{
    let e = enc_field(m, k);
    let p = pos + 1;
    let after = d.skip(pos + e.len());
    reveal_with_fuel(pow256, 9);
    lemma_split(d, pos, e);
    let pre1 = d.take(pos).push(e[0]);
    assert(d[pos] == e[0]);
    let tail = e.skip(1);
    assert(d =~= pre1 + tail + after);
    if k == 5 {
        assert(tail =~= be_bytes(m.F32 as nat, 4));
        lemma_be_read(m.F32 as nat, 4, pre1, after);
    } else {
        assert(tail =~= be_bytes(m.F64 as nat, 8));
        lemma_be_read(m.F64 as nat, 8, pre1, after);
    }
}

#[verifier::rlimit(80)]
#[verifier::spinoff_prover]
proof fn lemma_step_time(m: RecordModel, k: int, d: Seq<u8>, pos: int, lim: ColferLimits)
    requires
        0 <= k < 18,
        valid_model(m, lim),
        0 <= pos,
        pos + enc_field(m, k).len() <= d.len(),
        d.subrange(pos, pos + enc_field(m, k).len()) == enc_field(m, k),
        enc_field(m, k).len() > 0,
        k == 7,
    ensures
        parse_field(d, pos, upto(m, k), lim) == Ok::<(RecordModel, int), crate::error::ColferError>(
            (upto(m, k + 1), pos + enc_field(m, k).len()),
        ),
{
    let e = enc_field(m, k);
    let p = pos + 1;
    let after = d.skip(pos + e.len());
    reveal_with_fuel(pow256, 9);
    lemma_split(d, pos, e);
    let pre1 = d.take(pos).push(e[0]);
    assert(d[pos] == e[0]);
    let tail = e.skip(1);
    assert(d =~= pre1 + tail + after);
    let w: nat = if m.T.secs < 0x1_0000_0000 { 4 } else { 8 };
    let sb = be_bytes(m.T.secs as nat, w);
    let nb = be_bytes(m.T.nanos as nat, 4);
    assert(tail =~= sb + nb);
    lemma_be_read(m.T.secs as nat, w, pre1, nb + after);
    lemma_be_read(m.T.nanos as nat, 4, pre1 + sb, after);
    assert(pre1 + sb + (nb + after) =~= d);
    assert(pre1 + sb + nb + after =~= d);
    assert(instant(m.T.secs as nat, m.T.nanos as nat) == Some(m.T));
}

#[verifier::rlimit(80)]
#[verifier::spinoff_prover]
proof fn lemma_step_blob(m: RecordModel, k: int, d: Seq<u8>, pos: int, lim: ColferLimits)
    requires
        0 <= k < 18,
        valid_model(m, lim),
        0 <= pos,
        pos + enc_field(m, k).len() <= d.len(),
        d.subrange(pos, pos + enc_field(m, k).len()) == enc_field(m, k),
        enc_field(m, k).len() > 0,
        k == 8 || k == 9,
    ensures
        parse_field(d, pos, upto(m, k), lim) == Ok::<(RecordModel, int), crate::error::ColferError>(
            (upto(m, k + 1), pos + enc_field(m, k).len()),
        ),
{
    let e = enc_field(m, k);
    let p = pos + 1;
    let after = d.skip(pos + e.len());
    reveal_with_fuel(pow256, 9);
    lemma_split(d, pos, e);
    let pre1 = d.take(pos).push(e[0]);
    assert(d[pos] == e[0]);
    let tail = e.skip(1);
    assert(d =~= pre1 + tail + after);
    if k == 8 {
        assert(d.subrange(p, p + var(m.S.len()).len() + m.S.len()) =~= var(m.S.len()) + m.S);
        lemma_blob_read(d, p, m.S, "S", true, lim);
    } else {
        assert(d.subrange(p, p + var(m.A.len()).len() + m.A.len()) =~= var(m.A.len()) + m.A);
        lemma_blob_read(d, p, m.A, "A", false, lim);
    }
}

#[verifier::rlimit(80)]
#[verifier::spinoff_prover]
proof fn lemma_step_blobs(m: RecordModel, k: int, d: Seq<u8>, pos: int, lim: ColferLimits)
    requires
        0 <= k < 18,
        valid_model(m, lim),
        0 <= pos,
        pos + enc_field(m, k).len() <= d.len(),
        d.subrange(pos, pos + enc_field(m, k).len()) == enc_field(m, k),
        enc_field(m, k).len() > 0,
        k == 12 || k == 13,
    ensures
        parse_field(d, pos, upto(m, k), lim) == Ok::<(RecordModel, int), crate::error::ColferError>(
            (upto(m, k + 1), pos + enc_field(m, k).len()),
        ),
{
    let e = enc_field(m, k);
    let p = pos + 1;
    let after = d.skip(pos + e.len());
    reveal_with_fuel(pow256, 9);
    lemma_split(d, pos, e);
    let pre1 = d.take(pos).push(e[0]);
    assert(d[pos] == e[0]);
    let tail = e.skip(1);
    assert(d =~= pre1 + tail + after);
    let ls = if k == 12 { m.Ss } else { m.As };
    let n = ls.len();
    let body = enc_blobs(ls);
    assert(tail =~= var(n) + body);
    lemma_read_var(n, pre1, body + after);
    assert(pre1 + var(n) + (body + after) =~= d);
    let e1 = p + var(n).len();
    assert(d.subrange(e1, e1 + body.len()) =~= body);
    lemma_blobs_round_trip(d, e1, ls, 0, if k == 12 { "Ss" } else { "As" }, k == 12, lim);
    assert(ls.take(0) =~= Seq::<Seq<u8>>::empty());
}

#[verifier::rlimit(80)]
#[verifier::spinoff_prover]
proof fn lemma_step_words(m: RecordModel, k: int, d: Seq<u8>, pos: int, lim: ColferLimits)
    requires
        0 <= k < 18,
        valid_model(m, lim),
        0 <= pos,
        pos + enc_field(m, k).len() <= d.len(),
        d.subrange(pos, pos + enc_field(m, k).len()) == enc_field(m, k),
        enc_field(m, k).len() > 0,
        k == 16 || k == 17,
    ensures
        parse_field(d, pos, upto(m, k), lim) == Ok::<(RecordModel, int), crate::error::ColferError>(
            (upto(m, k + 1), pos + enc_field(m, k).len()),
        ),
{
    let e = enc_field(m, k);
    let p = pos + 1;
    let after = d.skip(pos + e.len());
    reveal_with_fuel(pow256, 9);
    lemma_split(d, pos, e);
    let pre1 = d.take(pos).push(e[0]);
    assert(d[pos] == e[0]);
    let tail = e.skip(1);
    assert(d =~= pre1 + tail + after);
    if k == 16 {
        let n = m.F32s.len();
        let body = enc_words32(m.F32s);
        lemma_words32_len(m.F32s);
        assert(tail =~= var(n) + body);
        lemma_read_var(n, pre1, body + after);
        assert(pre1 + var(n) + (body + after) =~= d);
        let e1 = p + var(n).len();
        assert(d.subrange(e1, e1 + 4 * n) =~= body);
        lemma_words32_round_trip(m.F32s);
    } else {
        let n = m.F64s.len();
        let body = enc_words64(m.F64s);
        lemma_words64_len(m.F64s);
        assert(tail =~= var(n) + body);
        lemma_read_var(n, pre1, body + after);
        assert(pre1 + var(n) + (body + after) =~= d);
        let e1 = p + var(n).len();
        assert(d.subrange(e1, e1 + 8 * n) =~= body);
        lemma_words64_round_trip(m.F64s);
    }
}

#[verifier::rlimit(80)]
#[verifier::spinoff_prover]
proof fn lemma_step_option(m: RecordModel, k: int, d: Seq<u8>, pos: int, lim: ColferLimits)
    requires
        0 <= k < 18,
        valid_model(m, lim),
        0 <= pos,
        pos + enc_field(m, k).len() <= d.len(),
        d.subrange(pos, pos + enc_field(m, k).len()) == enc_field(m, k),
        enc_field(m, k).len() > 0,
        k == 10,
    ensures
        parse_field(d, pos, upto(m, k), lim) == Ok::<(RecordModel, int), crate::error::ColferError>(
            (upto(m, k + 1), pos + enc_field(m, k).len()),
        ),
    decreases m, 0int,
{
    let e = enc_field(m, k);
    let p = pos + 1;
    let after = d.skip(pos + e.len());
    lemma_split(d, pos, e);
    let pre1 = d.take(pos).push(e[0]);
    assert(d[pos] == e[0]);
    let tail = e.skip(1);
    assert(d =~= pre1 + tail + after);
    let o = *m.O->Some_0;
    assert(tail =~= enc(o));
    assert(d.subrange(p, p + enc(o).len()) =~= enc(o));
    lemma_decode_enc(o, d, p, lim);
}

#[verifier::rlimit(80)]
#[verifier::spinoff_prover]
proof fn lemma_step_records(m: RecordModel, k: int, d: Seq<u8>, pos: int, lim: ColferLimits)
    requires
        0 <= k < 18,
        valid_model(m, lim),
        0 <= pos,
        pos + enc_field(m, k).len() <= d.len(),
        d.subrange(pos, pos + enc_field(m, k).len()) == enc_field(m, k),
        enc_field(m, k).len() > 0,
        k == 11,
    ensures
        parse_field(d, pos, upto(m, k), lim) == Ok::<(RecordModel, int), crate::error::ColferError>(
            (upto(m, k + 1), pos + enc_field(m, k).len()),
        ),
    decreases m, 0int,
{
    let e = enc_field(m, k);
    let p = pos + 1;
    let after = d.skip(pos + e.len());
    lemma_split(d, pos, e);
    let pre1 = d.take(pos).push(e[0]);
    assert(d[pos] == e[0]);
    let tail = e.skip(1);
    assert(d =~= pre1 + tail + after);
    let n = m.Os.len();
    let body = enc_records(m.Os);
    assert(tail =~= var(n) + body);
    lemma_read_var(n, pre1, body + after);
    assert(pre1 + var(n) + (body + after) =~= d);
    let e1 = p + var(n).len();
    assert(d.subrange(e1, e1 + body.len()) =~= body);
    lemma_valid_models_at(m.Os, lim);
    lemma_records_round_trip(d, e1, m.Os, 0, lim);
    assert(m.Os.take(0) =~= Seq::<RecordModel>::empty());
}

proof fn lemma_field_step(m: RecordModel, k: int, d: Seq<u8>, pos: int, lim: ColferLimits)
    requires
        0 <= k < 18,
        valid_model(m, lim),
        0 <= pos,
        pos + enc_field(m, k).len() <= d.len(),
        d.subrange(pos, pos + enc_field(m, k).len()) == enc_field(m, k),
    ensures
        enc_field(m, k).len() > 0 ==> parse_field(d, pos, upto(m, k), lim) == Ok::<(RecordModel, int), crate::error::ColferError>(
            (upto(m, k + 1), pos + enc_field(m, k).len()),
        ),
        enc_field(m, k).len() == 0 ==> upto(m, k) == upto(m, k + 1),
    decreases m, 1int,
{
    if enc_field(m, k).len() > 0 {
        if k == 10 {
            lemma_step_option(m, k, d, pos, lim);
        } else if k == 11 {
            lemma_step_records(m, k, d, pos, lim);
        } else if k == 8 || k == 9 {
            lemma_step_blob(m, k, d, pos, lim);
        } else if k == 12 || k == 13 {
            lemma_step_blobs(m, k, d, pos, lim);
        } else if k == 16 || k == 17 {
            lemma_step_words(m, k, d, pos, lim);
        } else if k == 1 {
            lemma_step_u32(m, k, d, pos, lim);
        } else if k == 2 {
            lemma_step_u64(m, k, d, pos, lim);
        } else if k == 3 || k == 4 {
            lemma_step_signed(m, k, d, pos, lim);
        } else if k == 5 || k == 6 {
            lemma_step_float(m, k, d, pos, lim);
        } else if k == 7 {
            lemma_step_time(m, k, d, pos, lim);
        } else {
            lemma_step_flag(m, k, d, pos, lim);
        }
    } else {
        if k == 8 {
            assert(m.S =~= Seq::<u8>::empty());
        } else if k == 9 {
            assert(m.A =~= Seq::<u8>::empty());
        } else if k == 11 {
            assert(m.Os =~= Seq::<RecordModel>::empty());
        } else if k == 12 {
            assert(m.Ss =~= Seq::<Seq<u8>>::empty());
        } else if k == 13 {
            assert(m.As =~= Seq::<Seq<u8>>::empty());
        } else if k == 16 {
            assert(m.F32s =~= Seq::<u32>::empty());
        } else if k == 17 {
            assert(m.F64s =~= Seq::<u64>::empty());
        }
    }
}

proof fn lemma_fields_from(m: RecordModel, k: int, d: Seq<u8>, base: int, lim: ColferLimits)
    requires
        0 <= k <= 18,
        valid_model(m, lim),
        0 <= base,
        base + enc(m).len() <= d.len(),
        d.subrange(base, base + enc(m).len()) == enc(m),
    ensures
        parse_fields(d, base + enc_fields(m, k).len(), upto(m, k), lim) == Ok::<(RecordModel, int), crate::error::ColferError>(
            (m, base + enc(m).len()),
        ),
    decreases m, 20 - k,
{
    let pos = base + enc_fields(m, k).len();
    lemma_fields_prefix(m, k, 18);
    if k == 18 {
        assert(upto(m, 18) == m);
        assert(d[pos] == enc(m)[pos - base]);
    } else {
        lemma_fields_prefix(m, k + 1, 18);
        let e = enc_field(m, k);
        assert(enc_fields(m, k + 1) == enc_fields(m, k) + e);
        assert(d.subrange(pos, pos + e.len()) =~= enc(m).subrange(pos - base, pos - base + e.len()));
        assert(enc(m).subrange(pos - base, pos - base + e.len()) =~= enc_fields(m, k + 1).subrange(
            pos - base,
            pos - base + e.len(),
        ));
        assert(enc_fields(m, k + 1).subrange(pos - base, pos - base + e.len()) =~= e);
        lemma_field_step(m, k, d, pos, lim);
        lemma_fields_from(m, k + 1, d, base, lim);
        if e.len() > 0 {
            assert(d[pos] == e[0]);
            assert(e[0] != TERMINATOR);
        }
    }
}

/// Decoding the bytes of a valid record, from the zero record, gives the
/// record back and consumes exactly its encoding.
proof fn lemma_decode_enc(m: RecordModel, d: Seq<u8>, base: int, lim: ColferLimits)
    requires
        valid_model(m, lim),
        0 <= base,
        base + enc(m).len() <= d.len(),
        d.subrange(base, base + enc(m).len()) == enc(m),
    ensures
        parse_fields(d, base, zero_model(), lim) == Ok::<(RecordModel, int), crate::error::ColferError>(
            (m, base + enc(m).len()),
        ),
    decreases m, 21int,
{
    assert(upto(m, 0) == zero_model());
    lemma_fields_from(m, 0, d, base, lim);
}

/// Texts are UTF-8 and nanoseconds stay below a second, nested records included.
pub open spec fn well_formed(m: RecordModel) -> bool
    decreases m, 1int,
{
    &&& valid_utf8(m.S)
    &&& forall|i: int| 0 <= i < m.Ss.len() ==> valid_utf8(#[trigger] m.Ss[i])
    &&& m.T.nanos < NANOS_PER_SEC
    &&& match m.O {
        Some(o) => well_formed(*o),
        None => true,
    }
    &&& all_well_formed(m.Os)
}

/// Each record of a list is well formed.
pub open spec fn all_well_formed(s: Seq<RecordModel>) -> bool
    decreases s, 0int,
{
    if s.len() == 0 {
        true
    } else {
        all_well_formed(s.drop_last()) && well_formed(s.last())
    }
}

proof fn lemma_blobs_within(l: nat, s: Seq<Seq<u8>>, field: &'static str, lim: ColferLimits)
    requires
        size_blobs(Ok(l), s, field, lim) is Ok,
    ensures
        forall|i: int| 0 <= i < s.len() ==> (#[trigger] s[i]).len() <= lim.size_max,
    decreases s.len(),
{
    if s.len() > 0 {
        lemma_blobs_within(l, s.drop_last(), field, lim);
        assert forall|i: int| 0 <= i < s.len() implies (#[trigger] s[i]).len() <= lim.size_max by {
            if i < s.len() - 1 {
                assert(s.drop_last()[i] == s[i]);
            }
        }
    }
}

proof fn lemma_records_valid(l: nat, s: Seq<RecordModel>, lim: ColferLimits)
    requires
        size_records(Ok(l), s, lim) is Ok,
        all_well_formed(s),
    ensures
        valid_models(s, lim),
    decreases s, 0int,
{
    if s.len() > 0 {
        lemma_records_valid(l, s.drop_last(), lim);
        lemma_valid_from_size(s.last(), lim);
    }
}

proof fn lemma_field_ok(m: RecordModel, k: int, lim: ColferLimits)
    requires
        size(m, lim) is Ok,
        0 <= k < 18,
    ensures
        size_fields(m, k, lim) is Ok,
        size_field(Ok(size_fields(m, k, lim)->Ok_0), m, k, lim) is Ok,
{
    if size_fields(m, k, lim) is Err {
        lemma_fields_err(m, k, 18, lim);
    }
    if size_fields(m, k + 1, lim) is Err {
        lemma_fields_err(m, k + 1, 18, lim);
    }
    assert(size_fields(m, k + 1, lim) == size_field(size_fields(m, k, lim), m, k, lim));
}

proof fn lemma_texts_within(m: RecordModel, lim: ColferLimits)
    requires
        size(m, lim) is Ok,
    ensures
        m.S.len() <= lim.size_max,
        m.A.len() <= lim.size_max,
        m.F32s.len() <= lim.list_max,
        m.F64s.len() <= lim.list_max,
{
    lemma_field_ok(m, 8, lim);
    lemma_field_ok(m, 9, lim);
    lemma_field_ok(m, 16, lim);
    lemma_field_ok(m, 17, lim);
}

proof fn lemma_blob_lists_within(m: RecordModel, k: int, lim: ColferLimits)
    requires
        size(m, lim) is Ok,
        k == 12 || k == 13,
    ensures
        k == 12 ==> m.Ss.len() <= lim.list_max && forall|i: int| 0 <= i < m.Ss.len() ==> (#[trigger] m.Ss[i]).len() <= lim.size_max,
        k == 13 ==> m.As.len() <= lim.list_max && forall|i: int| 0 <= i < m.As.len() ==> (#[trigger] m.As[i]).len() <= lim.size_max,
{
    lemma_field_ok(m, k, lim);
    let l = size_fields(m, k, lim)->Ok_0;
    let ls = if k == 12 { m.Ss } else { m.As };
    let f: &'static str = if k == 12 { "Ss" } else { "As" };
    if ls.len() > 0 {
        let head = grow(Ok(l), 1 + var(ls.len()).len(), f, lim);
        if head is Err {
            assert(size_blobs(head, ls.take(0), f, lim) == head);
            assert(ls.take(0) =~= Seq::<Seq<u8>>::empty());
            lemma_blobs_err(head, ls, 0, f, lim);
        }
        lemma_blobs_within(head->Ok_0, ls, f, lim);
    }
}

proof fn lemma_records_within(m: RecordModel, lim: ColferLimits)
    requires
        size(m, lim) is Ok,
        all_well_formed(m.Os),
    ensures
        m.Os.len() <= lim.list_max,
        valid_models(m.Os, lim),
    decreases m, 1int,
{
    lemma_field_ok(m, 11, lim);
    let l = size_fields(m, 11, lim)->Ok_0;
    if m.Os.len() > 0 {
        let head = grow(Ok(l), 1 + var(m.Os.len()).len(), "Os", lim);
        if head is Err {
            assert(size_records(head, m.Os.take(0), lim) == head);
            assert(m.Os.take(0) =~= Seq::<RecordModel>::empty());
            lemma_records_err(head, m.Os, 0, lim);
        }
        lemma_records_valid(head->Ok_0, m.Os, lim);
    }
}

/// A record that passes the size check and is well formed is valid.
proof fn lemma_valid_from_size(m: RecordModel, lim: ColferLimits)
    requires
        size(m, lim) is Ok,
        well_formed(m),
    ensures
        valid_model(m, lim),
    decreases m, 2int,
{
    lemma_texts_within(m, lim);
    lemma_blob_lists_within(m, 12, lim);
    lemma_blob_lists_within(m, 13, lim);
    lemma_records_within(m, lim);
    lemma_field_ok(m, 10, lim);
    if let Some(o) = m.O {
        lemma_valid_from_size(*o, lim);
    }
}

/// Round trip: a record that passes the size check, whose texts are UTF-8
/// and whose nanoseconds stay below a second, decodes from its own encoding,
/// starting from the zero record, back to itself (texts and binaries by
/// content, floats by bit pattern), and the decoder consumes exactly the
/// encoding, whatever bytes follow it.
pub proof fn lemma_round_trip(m: RecordModel, rest: Seq<u8>, lim: ColferLimits)
    requires
        size(m, lim) is Ok,
        well_formed(m),
    ensures
        parse_fields(enc(m) + rest, 0, zero_model(), lim) == Ok::<(RecordModel, int), crate::error::ColferError>(
            (m, enc(m).len() as int),
        ),
{
    lemma_valid_from_size(m, lim);
    let d = enc(m) + rest;
    assert(d.subrange(0, enc(m).len() as int) =~= enc(m));
    lemma_decode_enc(m, d, 0, lim);
}

/// The round trip on records: where `colf_marshal_binary` succeeds on a well
/// formed record, `colf_unmarshal` of its bytes into a zero record succeeds,
/// consumes every byte, and leaves a record that holds the same value.
pub proof fn lemma_record_round_trip(r: ColferTypes, fresh: ColferTypes, after: ColferTypes, lim: ColferLimits)
    requires
        r.size_check(lim) is Ok,
        well_formed(r.model()),
        fresh.model() == zero_model(),
        after.decoded_from(fresh, r.encoding(), lim),
    ensures
        fresh.decode_end(r.encoding(), lim) == Ok::<nat, crate::error::ColferError>(r.encoding().len()),
        after.model() == r.model(),
{
    lemma_round_trip(r.model(), Seq::empty(), lim);
    assert(r.encoding() + Seq::<u8>::empty() =~= r.encoding());
}

/// Decoding an empty buffer fails for want of input, whatever the record held.
pub proof fn lemma_empty_input(m: RecordModel, lim: ColferLimits)
    ensures
        parse_fields(Seq::empty(), 0, m, lim) == Err::<(RecordModel, int), crate::error::ColferError>(
            crate::error::ColferError::UnexpectedEof,
        ),
{
}

/// A buffer of one byte that is neither the terminator nor a field header
/// fails to decode with an unknown header at offset 0.
pub proof fn lemma_unknown_header(b: u8, m: RecordModel, lim: ColferLimits)
    requires
        b != TERMINATOR,
        !(b <= 17 || b == 0x81 || b == 0x82 || b == 0x83 || b == 0x84 || b == 0x87 || b == 0x8f),
    ensures
        parse_fields(seq![b], 0, m, lim) == Err::<(RecordModel, int), crate::error::ColferError>(
            crate::error::ColferError::UnknownHeader { byte: 0 },
        ),
{
    let d = seq![b];
    assert(d[0] == b);
    assert(parse_field(d, 0, m, lim) == Err::<(RecordModel, int), crate::error::ColferError>(
        crate::error::ColferError::UnknownHeader { byte: 0 },
    ));
}

/// A text one byte over the byte ceiling, in an otherwise zero record, fails
/// the size check with an overflow of one.
pub proof fn lemma_text_over_ceiling(t: Seq<u8>, lim: ColferLimits)
    requires
        lim.size_max >= 1,
        t.len() == lim.size_max + 1,
    ensures
        size(RecordModel { S: t, ..zero_model() }, lim) == Err::<nat, crate::error::ColferError>(
            crate::error::ColferError::MaxSizeBreach { field: "S", overflow: 1 },
        ),
{
    let m = RecordModel { S: t, ..zero_model() };
    reveal_with_fuel(size_fields, 9);
    assert(size_fields(m, 8, lim) == Ok::<nat, crate::error::ColferError>(1));
    assert(size_fields(m, 9, lim) is Err);
    lemma_fields_err(m, 9, 18, lim);
}

/// A list of texts one element over the element ceiling, in an otherwise
/// zero record, fails the size check with an overflow of one.
pub proof fn lemma_list_over_ceiling(ts: Seq<Seq<u8>>, lim: ColferLimits)
    requires
        lim.size_max >= 1,
        ts.len() == lim.list_max + 1,
    ensures
        size(RecordModel { Ss: ts, ..zero_model() }, lim) == Err::<nat, crate::error::ColferError>(
            crate::error::ColferError::MaxListBreach { field: "Ss", overflow: 1 },
        ),
{
    let m = RecordModel { Ss: ts, ..zero_model() };
    reveal_with_fuel(size_fields, 13);
    assert(size_fields(m, 12, lim) == Ok::<nat, crate::error::ColferError>(1));
    assert(size_fields(m, 13, lim) is Err);
    lemma_fields_err(m, 13, 18, lim);
}

} // verus!

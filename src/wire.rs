//! Byte-level building blocks of the wire format: big-endian fixed-width
//! integers and 7-bit variable-length integers.
use vstd::prelude::*;

verus! {

/// `256^n`.
pub open spec fn pow256(n: nat) -> nat
    decreases n,
{
    if n == 0 {
        1
    } else {
        256 * pow256((n - 1) as nat)
    }
}

/// The low `n` bytes of `x`, most significant first.
pub open spec fn be_bytes(x: nat, n: nat) -> Seq<u8>
    decreases n,
{
    if n == 0 {
        Seq::empty()
    } else {
        be_bytes(x / 256, (n - 1) as nat).push((x % 256) as u8)
    }
}

/// The number that a run of bytes spells, most significant first.
pub open spec fn be_value(s: Seq<u8>) -> nat
    decreases s.len(),
{
    if s.len() == 0 {
        0
    } else {
        be_value(s.drop_last()) * 256 + s.last() as nat
    }
}

/// Variable-length form of `x`: 7-bit groups, least significant first, each
/// byte but the last with its top bit set. After `cap` continuation bytes the
/// final byte carries eight bits, so a 64-bit value never takes more than nine
/// bytes.
pub open spec fn varint(x: nat, cap: nat) -> Seq<u8>
    decreases cap,
{
    if x < 128 || cap == 0 {
        seq![(x % 256) as u8]
    } else {
        seq![(x % 128 + 128) as u8] + varint(x / 128, (cap - 1) as nat)
    }
}

/// Continuation bytes allowed before the final byte of a variable-length integer.
pub const VARINT_CAP: usize = 8;

/// The variable-length form used throughout: any 64-bit value fits.
pub open spec fn var(x: nat) -> Seq<u8> {
    varint(x, VARINT_CAP as nat)
}

/// Reads a variable-length integer at `pos`: its value and the position after it,
/// or `None` where the data ends first.
/// One more than the largest value that `varint(_, cap)` writes exactly.
pub open spec fn varint_limit(cap: nat) -> nat
    decreases cap,
{
    if cap == 0 {
        256
    } else {
        128 * varint_limit((cap - 1) as nat)
    }
}

pub open spec fn read_varint(data: Seq<u8>, pos: int, cap: nat) -> Option<(nat, int)>
    decreases cap,
{
    if pos < 0 || pos >= data.len() {
        None
    } else {
        let b = data[pos];
        if b < 128 || cap == 0 {
            Some((b as nat, pos + 1))
        } else {
            match read_varint(data, pos + 1, (cap - 1) as nat) {
                Some((v, e)) => Some(((b - 128) as nat + 128 * v, e)),
                None => None,
            }
        }
    }
}

pub open spec fn read_var(data: Seq<u8>, pos: int) -> Option<(nat, int)> {
    read_varint(data, pos, VARINT_CAP as nat)
}

pub proof fn lemma_pow256_pos(n: nat)
    ensures
        pow256(n) > 0,
    decreases n,
{
    if n > 0 {
        lemma_pow256_pos((n - 1) as nat);
    }
}

pub proof fn lemma_be_bytes_len(x: nat, n: nat)
    ensures
        be_bytes(x, n).len() == n,
    decreases n,
{
    if n > 0 {
        lemma_be_bytes_len(x / 256, (n - 1) as nat);
    }
}

/// Reading back `n` written bytes gives the value modulo `256^n`.
pub proof fn lemma_be_round_trip(x: nat, n: nat)
    ensures
        be_value(be_bytes(x, n)) == x % pow256(n),
    decreases n,
{
    if n == 0 {
    } else {
        let m = (n - 1) as nat;
        lemma_be_round_trip(x / 256, m);
        lemma_pow256_pos(m);
        let s = be_bytes(x, n);
        assert(s.drop_last() == be_bytes(x / 256, m));
        let p = pow256(m);
        assert(((x / 256) % p) * 256 + x % 256 == x % (256 * p)) by (nonlinear_arith)
            requires
                p > 0,
        {
            vstd::arithmetic::div_mod::lemma_breakdown(x as int, 256, p as int);
        }
    }
}

pub proof fn lemma_be_value_bound(s: Seq<u8>)
    ensures
        be_value(s) < pow256(s.len()),
    decreases s.len(),
{
    if s.len() > 0 {
        lemma_be_value_bound(s.drop_last());
        let v = be_value(s.drop_last());
        let p = pow256((s.len() - 1) as nat);
        assert(v * 256 + s.last() < 256 * p) by (nonlinear_arith)
            requires
                v < p,
                s.last() < 256,
        ;
    }
}

pub proof fn lemma_varint_len(x: nat, cap: nat)
    ensures
        1 <= varint(x, cap).len() <= cap + 1,
    decreases cap,
{
    if !(x < 128 || cap == 0) {
        lemma_varint_len(x / 128, (cap - 1) as nat);
    }
}

/// A written variable-length integer reads back as the same value, whatever follows it.
pub proof fn lemma_varint_round_trip(x: nat, cap: nat, pre: Seq<u8>, rest: Seq<u8>)
    requires
        x < varint_limit(cap),
    ensures
        read_varint(pre + varint(x, cap) + rest, pre.len() as int, cap) == Some(
            (x, pre.len() + varint(x, cap).len() as int),
        ),
    decreases cap,
{
    let d = pre + varint(x, cap) + rest;
    lemma_varint_len(x, cap);
    if x < 128 || cap == 0 {
        assert(d[pre.len() as int] == varint(x, cap)[0]);
    } else {
        let c = (cap - 1) as nat;
        let pre2 = pre.push((x % 128 + 128) as u8);
        assert(x / 128 < varint_limit(c)) by (nonlinear_arith)
            requires
                x < 128 * varint_limit(c),
        ;
        lemma_varint_round_trip(x / 128, c, pre2, rest);
        assert(pre2 + varint(x / 128, c) + rest =~= d);
        assert(d[pre.len() as int] == (x % 128 + 128) as u8);
    }
}

/// Writes the low `n` bytes of `x`, most significant first.
pub fn put_be(buf: &mut Vec<u8>, x: u64, n: usize)
    requires
        n <= 8,
    ensures
        final(buf)@ == old(buf)@ + be_bytes(x as nat, n as nat),
    decreases n,
{
    if n > 0 {
        put_be(buf, x / 256, n - 1);
        buf.push((x % 256) as u8);
        assert(final(buf)@ =~= old(buf)@ + be_bytes(x as nat, n as nat));
    }
}

pub proof fn lemma_varint_limit(cap: nat)
    ensures
        varint_limit(cap) >= 256,
        varint_limit(VARINT_CAP as nat) == 0x1_0000_0000_0000_0000,
    decreases cap,
{
    reveal_with_fuel(varint_limit, 9);
    if cap > 0 {
        lemma_varint_limit((cap - 1) as nat);
    }
}

pub proof fn lemma_pow256_mono(i: nat, j: nat)
    requires
        i <= j,
    ensures
        pow256(i) <= pow256(j),
        pow256(8) == 0x1_0000_0000_0000_0000,
    decreases j,
{
    reveal_with_fuel(pow256, 9);
    if i < j {
        lemma_pow256_mono(i, (j - 1) as nat);
        lemma_pow256_pos((j - 1) as nat);
    }
}

/// Appends the bytes of `b`.
pub fn put_bytes(buf: &mut Vec<u8>, b: &[u8])
    ensures
        final(buf)@ == old(buf)@ + b@,
{
    let mut i: usize = 0;
    while i < b.len()
        invariant
            i <= b@.len(),
            buf@ == old(buf)@ + b@.take(i as int),
        decreases b@.len() - i,
    {
        buf.push(b[i]);
        assert(b@.take(i + 1) =~= b@.take(i as int).push(b@[i as int]));
        i = i + 1;
    }
    assert(b@.take(b@.len() as int) =~= b@);
}

/// Writes the variable-length form of `x`.
pub fn put_var(buf: &mut Vec<u8>, x: u64)
    ensures
        final(buf)@ == old(buf)@ + var(x as nat),
{
    let mut v: u64 = x;
    let mut k: usize = 0;
    while v >= 128 && k < VARINT_CAP
        invariant
            k <= VARINT_CAP,
            buf@ + varint(v as nat, (VARINT_CAP - k) as nat) == old(buf)@ + var(x as nat),
        decreases VARINT_CAP - k,
    {
        let ghost before = buf@;
        buf.push((v % 128 + 128) as u8);
        let ghost c = (VARINT_CAP - k) as nat;
        assert(varint(v as nat, c) == seq![(v % 128 + 128) as u8] + varint(
            (v / 128) as nat,
            (c - 1) as nat,
        ));
        assert(buf@ + varint((v / 128) as nat, (c - 1) as nat) =~= before + varint(v as nat, c));
        v = v / 128;
        k = k + 1;
    }
    let ghost before = buf@;
    buf.push((v % 256) as u8);
    assert(buf@ =~= before + varint(v as nat, (VARINT_CAP - k) as nat));
}

/// Number of bytes in the variable-length form of `x`.
pub fn var_len(x: u64) -> (r: usize)
    ensures
        r == var(x as nat).len(),
        1 <= r <= VARINT_CAP + 1,
{
    let mut v: u64 = x;
    let mut k: usize = 0;
    while v >= 128 && k < VARINT_CAP
        invariant
            k <= VARINT_CAP,
            k + varint(v as nat, (VARINT_CAP - k) as nat).len() == var(x as nat).len(),
        decreases VARINT_CAP - k,
    {
        v = v / 128;
        k = k + 1;
    }
    proof {
        lemma_varint_len(x as nat, VARINT_CAP as nat);
    }
    k + 1
}

/// Reads a variable-length integer at `pos`.
pub fn get_var(data: &[u8], pos: usize) -> (r: Option<(u64, usize)>)
    ensures
        match r {
            Some((v, e)) => read_var(data@, pos as int) == Some((v as nat, e as int)) && pos < e
                <= data@.len(),
            None => read_var(data@, pos as int) is None,
        },
{
    if pos >= data.len() {
        return None;
    }
    let mut acc: u64 = 0;
    let mut mult: u64 = 1;
    let mut p: usize = pos;
    let mut k: usize = 0;
    proof {
        lemma_varint_limit(VARINT_CAP as nat);
    }
    while p < data.len()
        invariant
            k <= VARINT_CAP,
            p <= data@.len(),
            p == pos + k,
            acc < mult,
            mult * varint_limit((VARINT_CAP - k) as nat) == 0x1_0000_0000_0000_0000,
            read_var(data@, pos as int) == match read_varint(
                data@,
                p as int,
                (VARINT_CAP - k) as nat,
            ) {
                Some((v, e)) => Some(((acc + mult * v) as nat, e)),
                None => None,
            },
        decreases data.len() - p,
    {
        let b = data[p];
        let ghost c = (VARINT_CAP - k) as nat;
        proof {
            lemma_varint_limit(c);
        }
        if b < 128 || k == VARINT_CAP {
            assert(acc + mult * b < 0x1_0000_0000_0000_0000) by (nonlinear_arith)
                requires
                    acc < mult,
                    b < 256,
                    mult * varint_limit(c) == 0x1_0000_0000_0000_0000,
                    varint_limit(c) >= 256,
            ;
            return Some((acc + mult * (b as u64), p + 1));
        }
        let ghost c1 = (c - 1) as nat;
        assert(varint_limit(c) == 128 * varint_limit(c1));
        proof {
            lemma_varint_limit(c1);
        }
        assert(acc + mult * (b - 128) < mult * 128 && mult * 128 * varint_limit(c1)
            == 0x1_0000_0000_0000_0000) by (nonlinear_arith)
            requires
                acc < mult,
                b < 256,
                b >= 128,
                mult * (128 * varint_limit(c1)) == 0x1_0000_0000_0000_0000,
        ;
        assert(mult * 128 <= 0x1_0000_0000_0000_0000) by (nonlinear_arith)
            requires
                mult * 128 * varint_limit(c1) == 0x1_0000_0000_0000_0000,
                varint_limit(c1) >= 256,
        ;
        let ghost old_acc = acc;
        let ghost old_mult = mult;
        acc = acc + mult * ((b - 128) as u64);
        mult = mult * 128;
        p = p + 1;
        k = k + 1;
        proof {
            match read_varint(data@, p as int, c1) {
                Some((v, e)) => {
                    assert(old_acc + old_mult * ((b - 128) as nat + 128 * v) == (old_acc + old_mult
                        * (b - 128) as nat) + (old_mult * 128) * v) by (nonlinear_arith);
                },
                None => {},
            }
        }
    }
    None
}

/// Copies the bytes from `from` up to `to`.
pub fn copy_range(data: &[u8], from: usize, to: usize) -> (r: Vec<u8>)
    requires
        from <= to <= data@.len(),
    ensures
        r@ == data@.subrange(from as int, to as int),
{
    let mut r: Vec<u8> = Vec::new();
    let mut i: usize = from;
    while i < to
        invariant
            from <= i <= to <= data@.len(),
            r@ == data@.subrange(from as int, i as int),
        decreases to - i,
    {
        r.push(data[i]);
        assert(r@ =~= data@.subrange(from as int, i + 1));
        i = i + 1;
    }
    r
}

/// Reads `n` bytes at `pos` as a big-endian number.
pub fn get_be(data: &[u8], pos: usize, n: usize) -> (r: u64)
    requires
        n <= 8,
        pos + n <= data@.len(),
    ensures
        r == be_value(data@.subrange(pos as int, pos + n)),
{
    let mut acc: u64 = 0;
    let mut i: usize = 0;
    let len = data.len();
    while i < n
        invariant
            len == data@.len(),
            i <= n <= 8,
            pos + n <= data@.len(),
            acc == be_value(data@.subrange(pos as int, pos + i)),
        decreases n - i,
    {
        proof {
            lemma_be_value_bound(data@.subrange(pos as int, pos + i));
            lemma_pow256_mono((i + 1) as nat, 8);
            assert(acc * 256 + data@[pos + i] < pow256((i + 1) as nat)) by (nonlinear_arith)
                requires
                    acc < pow256(i as nat),
                    data@[pos + i] < 256,
                    pow256((i + 1) as nat) == 256 * pow256(i as nat),
            ;
        }
        let ghost s = data@.subrange(pos as int, pos + i + 1);
        assert(s.drop_last() =~= data@.subrange(pos as int, pos + i));
        acc = acc * 256 + data[pos + i] as u64;
        i = i + 1;
    }
    acc
}

} // verus!

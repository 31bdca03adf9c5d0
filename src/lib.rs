//! A binary codec for a fixed schema of typed fields: compact, self-describing
//! records of tagged fields closed by a terminator byte.
use vstd::prelude::*;

pub mod error;
pub mod wire;
pub mod model;
pub mod types;
pub mod decode;
pub mod laws;

pub use error::{ColferError, ColferResult};
pub use model::{RecordModel, Timestamp};
pub use types::ColferTypes;

verus! {

/// Default ceiling on the byte size of a text or binary field and of a record.
pub const COLFER_SIZE_MAX: usize = 16 * 1024 * 1024;

/// Default ceiling on the number of elements in a list field.
pub const COLFER_LIST_MAX: usize = 64 * 1024;

/// The two ceilings that encoding and decoding enforce. Each call reads its
/// own value; nothing is shared between calls.
#[derive(Debug, Clone, Copy, PartialEq, Eq)]
pub struct ColferLimits {
    /// Largest byte size of a text or binary field, and of a whole record.
    pub size_max: usize,
    /// Largest number of elements in a list field.
    pub list_max: usize,
}

impl ColferLimits {
    /// Ceilings small enough that every size computed under them fits in `usize`.
    pub open spec fn wf(&self) -> bool {
        self.size_max <= usize::MAX / 16 && self.list_max <= usize::MAX / 16
    }

    /// The default ceilings: 16 MiB and 65536 elements.
    pub fn new() -> (r: ColferLimits)
        ensures
            r.size_max == COLFER_SIZE_MAX,
            r.list_max == COLFER_LIST_MAX,
            r.wf(),
    {
        ColferLimits { size_max: COLFER_SIZE_MAX, list_max: COLFER_LIST_MAX }
    }

    /// Replaces the byte ceiling.
    pub fn set_size_max(&mut self, size_max: usize)
        ensures
            final(self).size_max == size_max,
            final(self).list_max == old(self).list_max,
    {
        self.size_max = size_max;
    }

    /// Replaces the element ceiling.
    pub fn set_list_max(&mut self, list_max: usize)
        ensures
            final(self).list_max == list_max,
            final(self).size_max == old(self).size_max,
    {
        self.list_max = list_max;
    }
}

impl Default for ColferLimits {
    fn default() -> (r: ColferLimits)
        ensures
            r.size_max == COLFER_SIZE_MAX,
            r.list_max == COLFER_LIST_MAX,
    {
        ColferLimits::new()
    }
}

/// A record type with a wire form: encoded, size-checked and decoded against
/// the value it holds.
pub trait ColferSerializable: Sized {
    /// The bytes that encoding this value appends.
    spec fn encoding(&self) -> Seq<u8>;

    /// The encoded length under `lim`, or the first ceiling that the value breaks.
    spec fn size_check(&self, lim: ColferLimits) -> Result<nat, ColferError>;

    /// Where decoding `data` into this value ends, or why it fails.
    spec fn decode_end(&self, data: Seq<u8>, lim: ColferLimits) -> Result<nat, ColferError>;

    /// `self` is what decoding `data` into `before` gives.
    spec fn decoded_from(&self, before: Self, data: Seq<u8>, lim: ColferLimits) -> bool;

    /// Appends the encoding to `buf`; returns the number of bytes written.
    fn colf_marshal_to(&self, buf: &mut Vec<u8>) -> (n: usize)
        ensures
            final(buf)@ == old(buf)@ + self.encoding(),
            n == self.encoding().len(),
    ;

    /// The exact encoded length, after checking every ceiling of `lim`.
    fn colf_marshal_len(&self, lim: &ColferLimits) -> (r: ColferResult<usize>)
        requires
            lim.wf(),
        ensures
            model::lift(r) == self.size_check(*lim),
            r is Ok ==> r->Ok_0 <= lim.size_max,
    ;

    /// Decodes a record from the start of `data`, which may hold more after
    /// it; returns the number of bytes that the record took.
    fn colf_unmarshal(&mut self, data: &[u8], lim: &ColferLimits) -> (r: ColferResult<usize>)
        requires
            lim.wf(),
        ensures
            model::lift(r) == old(self).decode_end(data@, *lim),
            r is Ok ==> final(self).decoded_from(*old(self), data@, *lim),
    ;

    /// The encoding in a buffer of exactly its length, after the size check.
    fn colf_marshal_binary(&self, lim: &ColferLimits) -> (r: ColferResult<Vec<u8>>)
        requires
            lim.wf(),
        ensures
            match self.size_check(*lim) {
                Ok(_) => r is Ok && r->Ok_0@ == self.encoding(),
                Err(e) => r == Err::<Vec<u8>, ColferError>(e),
            },
    {
        let l = match self.colf_marshal_len(lim) {
            Ok(l) => l,
            Err(e) => {
                return Err(e);
            },
        };
        let mut data: Vec<u8> = Vec::with_capacity(l);
        self.colf_marshal_to(&mut data);
        Ok(data)
    }

    /// Decodes a record that must fill `data` exactly: bytes left after it
    /// are a `Tail` error at the offset where the record ended.
    fn colf_unmarshal_binary(&mut self, data: &[u8], lim: &ColferLimits) -> (r: ColferResult<usize>)
        requires
            lim.wf(),
        ensures
            match old(self).decode_end(data@, *lim) {
                Ok(n) => if n >= data@.len() {
                    r == Ok::<usize, ColferError>(n as usize) && final(self).decoded_from(*old(self), data@, *lim)
                } else {
                    r == Err::<usize, ColferError>(ColferError::Tail { byte: n as usize })
                },
                Err(e) => r == Err::<usize, ColferError>(e),
            },
    {
        let byte = match self.colf_unmarshal(data, lim) {
            Ok(b) => b,
            Err(e) => {
                return Err(e);
            },
        };
        if byte >= data.len() {
            Ok(byte)
        } else {
            Err(ColferError::Tail { byte })
        }
    }
}

} // verus!

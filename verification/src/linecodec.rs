//! The line codec: newline-delimited UTF-8 records over a byte stream.
//!
//! `decode` yields the bytes before the first LF and consumes them together
//! with the LF; a record may be empty, and a CR is left for callers to
//! strip. A record longer than the limit, or one that is not valid UTF-8,
//! is a protocol error. `encode` appends exactly one LF.

use vstd::prelude::*;

use vstd::utf8::valid_utf8;

verus! {

/// The default bound on one record's length: 64 KiB.
pub const DEFAULT_MAX_RECORD: usize = 65536;

/// Index of the first LF byte, if any.
pub open spec fn find_lf(s: Seq<u8>) -> Option<int>
    decreases s.len(),
{
    if s.len() == 0 {
        None
    } else if s[0] == 10u8 {
        Some(0)
    } else {
        match find_lf(s.skip(1)) {
            Some(i) => Some(i + 1),
            None => None,
        }
    }
}

/// `find_lf` returns the position of an LF that no LF precedes.
pub proof fn lemma_find_lf_at(s: Seq<u8>, i: int)
    requires
        0 <= i < s.len(),
        s[i] == 10u8,
        forall|j: int| 0 <= j < i ==> s[j] != 10u8,
    ensures
        find_lf(s) == Some(i),
    decreases i,
{
    if i > 0 {
        lemma_find_lf_at(s.skip(1), i - 1);
    }
}

/// A buffer without an LF has no line yet.
pub proof fn lemma_find_lf_none(s: Seq<u8>)
    requires
        forall|j: int| 0 <= j < s.len() ==> s[j] != 10u8,
    ensures
        find_lf(s) is None,
    decreases s.len(),
{
    if s.len() > 0 {
        lemma_find_lf_none(s.skip(1));
    }
}

/// Why a buffer was rejected: the record outgrew the limit, or its bytes
/// are not UTF-8.
#[derive(Debug, Clone, Copy, PartialEq, Eq)]
pub enum LineError {
    Oversize,
    InvalidUtf8,
}

/// The line decoder's verdict on a buffer.
#[derive(Debug, Clone, PartialEq, Eq)]
pub enum LineDecision {
    NeedMore,
    Record(Vec<u8>, usize),
    Failed(LineError),
}

/// The spec-level verdict, over sequences.
pub enum SpecLineDecision {
    NeedMore,
    Record(Seq<u8>, int),
    Failed(LineError),
}

impl View for LineDecision {
    type V = SpecLineDecision;

    open spec fn view(&self) -> SpecLineDecision {
        match self {
            LineDecision::NeedMore => SpecLineDecision::NeedMore,
            LineDecision::Record(rec, c) => SpecLineDecision::Record(rec@, *c as int),
            LineDecision::Failed(e) => SpecLineDecision::Failed(*e),
        }
    }
}

/// What `decode` returns for any buffer and limit.
pub open spec fn spec_line_decode(s: Seq<u8>, max: int) -> SpecLineDecision {
    match find_lf(s) {
        Some(i) => if i > max {
            SpecLineDecision::Failed(LineError::Oversize)
        } else if !valid_utf8(s.subrange(0, i)) {
            SpecLineDecision::Failed(LineError::InvalidUtf8)
        } else {
            SpecLineDecision::Record(s.subrange(0, i), i + 1)
        },
        None => if s.len() > max {
            SpecLineDecision::Failed(LineError::Oversize)
        } else {
            SpecLineDecision::NeedMore
        },
    }
}

/// Relies on `core::str::from_utf8`: it returns `Ok` exactly when the bytes
/// are valid UTF-8, the property `vstd::utf8::valid_utf8` describes.
#[verifier::external_body]
fn utf8_valid(bytes: &Vec<u8>) -> (r: bool)
    ensures
        r == valid_utf8(bytes@),
{
    core::str::from_utf8(bytes.as_slice()).is_ok()
}

/// A line codec with its record-length limit.
#[derive(Debug, Clone, Copy, PartialEq, Eq)]
pub struct LineCodec {
    pub max_record: usize,
}

impl LineCodec {
    /// A codec with the default 64 KiB record limit.
    pub fn new() -> (c: Self)
        ensures
            c.max_record == DEFAULT_MAX_RECORD,
    {
        LineCodec { max_record: DEFAULT_MAX_RECORD }
    }

    /// Append `record` followed by exactly one LF.
    pub fn encode(&self, record: &Vec<u8>, dst: &mut Vec<u8>)
        requires
            forall|j: int| 0 <= j < record@.len() ==> record@[j] != 10u8,
        ensures
            final(dst)@ == old(dst)@ + record@ + seq![10u8],
    {
        dst.extend_from_slice(record.as_slice());
        dst.push(10u8);
        assert(dst@ =~= old(dst)@ + record@ + seq![10u8]);
    }

    /// Inspect the front of `buf` for one record. Nothing is consumed by
    /// the call itself; a `Record(rec, c)` tells the caller to advance by
    /// `c` bytes: the record and its LF.
    pub fn decode(&self, buf: &Vec<u8>) -> (r: LineDecision)
        ensures
            r@ == spec_line_decode(buf@, self.max_record as int),
            (match r {
                LineDecision::Record(rec, c) => {
                    &&& c == rec@.len() + 1
                    &&& c <= buf@.len()
                    &&& rec@ == buf@.subrange(0, rec@.len() as int)
                    &&& valid_utf8(rec@)
                    &&& forall|j: int| 0 <= j < rec@.len() ==> rec@[j] != 10u8
                },
                _ => true,
            }),
    {
        let n = buf.len();
        let mut i: usize = 0;
        while i < n && buf[i] != 10u8
            invariant
                i <= n,
                n == buf@.len(),
                forall|j: int| 0 <= j < i ==> buf@[j] != 10u8,
            decreases n - i,
        {
            i = i + 1;
        }
        if i == n {
            proof {
                lemma_find_lf_none(buf@);
            }
            if n > self.max_record {
                return LineDecision::Failed(LineError::Oversize);
            }
            return LineDecision::NeedMore;
        }
        proof {
            lemma_find_lf_at(buf@, i as int);
        }
        if i > self.max_record {
            return LineDecision::Failed(LineError::Oversize);
        }
        let mut rec: Vec<u8> = Vec::new();
        let mut k: usize = 0;
        while k < i
            invariant
                k <= i,
                i < n,
                n == buf@.len(),
                rec@ == buf@.subrange(0, k as int),
            decreases i - k,
        {
            rec.push(buf[k]);
            assert(buf@.subrange(0, k + 1) == buf@.subrange(0, k as int).push(buf@[k as int]));
            k = k + 1;
        }
        if !utf8_valid(&rec) {
            return LineDecision::Failed(LineError::InvalidUtf8);
        }
        LineDecision::Record(rec, i + 1)
    }
}

/// Round trip: a record without LF, within the limit and valid as UTF-8,
/// decodes from its own encoding, consuming the record and its LF exactly.
pub proof fn lemma_line_round_trip(r: Seq<u8>, max: int)
    requires
        forall|j: int| 0 <= j < r.len() ==> r[j] != 10u8,
        r.len() <= max,
        valid_utf8(r),
    ensures
        spec_line_decode(r + seq![10u8], max) == SpecLineDecision::Record(r, r.len() + 1int),
{
    let s = r + seq![10u8];
    assert(s[r.len() as int] == 10u8);
    lemma_find_lf_at(s, r.len() as int);
    assert(s.subrange(0, r.len() as int) =~= r);
}

} // verus!

//! The decoded alignment record: the fields of one stream element that the
//! statistics read, held as plain values, together with the per-read
//! identity and quality computations.

use crate::fixed::{abs, ratio, ratio_spec, Fixed, SCALE};
use vstd::prelude::*;

verus! {

/// Flag bit marking an unmapped record.
pub const FLAG_UNMAPPED: u16 = 4;

/// Flag bit marking a secondary alignment.
pub const FLAG_SECONDARY: u16 = 256;

/// Flag bit marking a record that failed quality checks.
pub const FLAG_QCFAIL: u16 = 512;

/// Flag bit marking a PCR or optical duplicate.
pub const FLAG_DUPLICATE: u16 = 1024;

/// Flag bit marking a supplementary alignment.
pub const FLAG_SUPPLEMENTARY: u16 = 2048;

/// A typed auxiliary tag value attached to an alignment record. Fractional
/// tag values are carried as fixed-point numbers; tag types that the
/// statistics never read numerically (strings, arrays, characters) are all
/// `Other`.
#[derive(Clone, Copy, Debug, PartialEq, Eq, Structural)]
pub enum AuxVal {
    I8(i8),
    U8(u8),
    I16(i16),
    U16(u16),
    I32(i32),
    U32(u32),
    F32(Fixed),
    F64(Fixed),
    Other,
}

/// One alignment operation: its kind and its length.
#[derive(Clone, Copy, Debug, PartialEq, Eq, Structural)]
pub enum CigarOp {
    Match(u32),
    Ins(u32),
    Del(u32),
    RefSkip(u32),
    SoftClip(u32),
    HardClip(u32),
    Pad(u32),
    Equal(u32),
    Diff(u32),
}

/// A fatal condition of the statistics core. Every one aborts the whole
/// run; the caller turns it into process termination.
#[derive(Clone, Copy, Debug, PartialEq, Eq, Structural)]
pub enum StatsError {
    /// A required tag (`dx` on a retained read, or `NM` when `de` is
    /// absent) is missing.
    TagMissing,
    /// A tag of interest carries a value of an unexpected type.
    TagTypeMismatch,
    /// A read identifier is not valid text.
    DecodeError,
    /// Fewer than two retained reads at aggregation time.
    InsufficientData,
}

/// One decoded alignment record, holding exactly the fields the statistics
/// read. The three tags of interest are carried separately; a tag that is
/// absent from the record is `None`.
pub struct AlignmentRecord {
    /// Query name, as raw bytes (not yet decoded as text).
    pub qname: Vec<u8>,
    /// Reference-sequence index; -1 when unmapped.
    pub tid: i32,
    /// Mapping quality.
    pub mapq: u8,
    /// Sequence length.
    pub seq_len: usize,
    /// Per-base quality values, one per base.
    pub quals: Vec<u8>,
    /// Alignment operations, in order.
    pub cigar: Vec<CigarOp>,
    /// Alignment flag bit-field.
    pub flags: u16,
    /// The duplex-status tag `dx`, if present.
    pub dx: Option<AuxVal>,
    /// The divergence tag `de`, if present.
    pub de: Option<AuxVal>,
    /// The edit-distance tag `NM`, if present.
    pub nm: Option<AuxVal>,
}

/// Whether a flag bit-field marks the record unmapped.
pub open spec fn is_unmapped(flags: u16) -> bool {
    flags & FLAG_UNMAPPED != 0
}

/// Whether a flag bit-field marks a secondary alignment.
pub open spec fn is_secondary(flags: u16) -> bool {
    flags & FLAG_SECONDARY != 0
}

/// Whether a flag bit-field marks a quality-check failure.
pub open spec fn is_qcfail(flags: u16) -> bool {
    flags & FLAG_QCFAIL != 0
}

/// Whether a flag bit-field marks a duplicate.
pub open spec fn is_duplicate(flags: u16) -> bool {
    flags & FLAG_DUPLICATE != 0
}

/// Whether a flag bit-field marks a supplementary alignment.
pub open spec fn is_supplementary(flags: u16) -> bool {
    flags & FLAG_SUPPLEMENTARY != 0
}

/// A record is retained for the per-read metrics iff it is none of
/// unmapped, secondary, quality-check-failed, duplicate.
pub open spec fn retained(flags: u16) -> bool {
    !(is_unmapped(flags) || is_secondary(flags) || is_qcfail(flags) || is_duplicate(flags))
}

/// The length carried by an alignment operation.
pub open spec fn op_len(op: CigarOp) -> int {
    match op {
        CigarOp::Match(l) => l as int,
        CigarOp::Ins(l) => l as int,
        CigarOp::Del(l) => l as int,
        CigarOp::RefSkip(l) => l as int,
        CigarOp::SoftClip(l) => l as int,
        CigarOp::HardClip(l) => l as int,
        CigarOp::Pad(l) => l as int,
        CigarOp::Equal(l) => l as int,
        CigarOp::Diff(l) => l as int,
    }
}

/// Total length carried by a sequence of alignment operations.
pub open spec fn cigar_total_len(ops: Seq<CigarOp>) -> int
    decreases ops.len(),
{
    if ops.len() == 0 {
        0
    } else {
        cigar_total_len(ops.drop_last()) + op_len(ops.last())
    }
}

/// Total length of the match, equal and mismatch operations.
pub open spec fn cigar_matches(ops: Seq<CigarOp>) -> int
    decreases ops.len(),
{
    if ops.len() == 0 {
        0
    } else {
        cigar_matches(ops.drop_last()) + match ops.last() {
            CigarOp::Match(l) => l as int,
            CigarOp::Equal(l) => l as int,
            CigarOp::Diff(l) => l as int,
            _ => 0,
        }
    }
}

/// Total length of the insertion and deletion operations.
pub open spec fn cigar_gap_size(ops: Seq<CigarOp>) -> int
    decreases ops.len(),
{
    if ops.len() == 0 {
        0
    } else {
        cigar_gap_size(ops.drop_last()) + match ops.last() {
            CigarOp::Ins(l) => l as int,
            CigarOp::Del(l) => l as int,
            _ => 0,
        }
    }
}

/// Number of insertion and deletion operations, each counted once
/// regardless of its length.
pub open spec fn cigar_gap_count(ops: Seq<CigarOp>) -> int
    decreases ops.len(),
{
    if ops.len() == 0 {
        0
    } else {
        cigar_gap_count(ops.drop_last()) + match ops.last() {
            CigarOp::Ins(_) => 1int,
            CigarOp::Del(_) => 1int,
            _ => 0int,
        }
    }
}

/// Sum of a sequence of per-base quality values.
pub open spec fn qual_sum(quals: Seq<u8>) -> int
    decreases quals.len(),
{
    if quals.len() == 0 {
        0
    } else {
        qual_sum(quals.drop_last()) + quals.last() as int
    }
}

/// Bound on the magnitude of a fixed-point tag value the model accepts:
/// ten million whole units, far beyond any meaningful divergence or duplex
/// tag, but small enough that every derived quantity fits the fixed-point
/// range.
pub const AUX_UNITS_BOUND: i128 = 10_000_000_000_000_000;

/// A fractional tag value the model can do arithmetic on.
pub open spec fn aux_val_inv(v: AuxVal) -> bool {
    match v {
        AuxVal::F32(f) => f.inv() && abs(f.units as int) <= AUX_UNITS_BOUND as int,
        AuxVal::F64(f) => f.inv() && abs(f.units as int) <= AUX_UNITS_BOUND as int,
        _ => true,
    }
}

/// A tag of interest that is either absent or well-formed.
pub open spec fn aux_opt_inv(v: Option<AuxVal>) -> bool {
    match v {
        Some(a) => aux_val_inv(a),
        None => true,
    }
}

/// Well-formedness of a decoded record: one quality value per base, a
/// total alignment length and operation count that fit 32-bit counters
/// (as the alignment format guarantees), and fractional tag values in the
/// fixed-point range.
pub open spec fn wf_record(r: AlignmentRecord) -> bool {
    &&& r.quals@.len() == r.seq_len
    &&& cigar_total_len(r.cigar@) <= u32::MAX
    &&& r.cigar@.len() <= u32::MAX
    &&& aux_opt_inv(r.dx)
    &&& aux_opt_inv(r.de)
    &&& aux_opt_inv(r.nm)
}

/// Whether a tag value is numerically equal to one, in any supported
/// numeric representation.
pub open spec fn aux_is_one(v: AuxVal) -> bool {
    match v {
        AuxVal::I8(x) => x == 1,
        AuxVal::U8(x) => x == 1,
        AuxVal::I16(x) => x == 1,
        AuxVal::U16(x) => x == 1,
        AuxVal::I32(x) => x == 1,
        AuxVal::U32(x) => x == 1,
        AuxVal::F32(f) => !f.is_nan && f.units == SCALE,
        AuxVal::F64(f) => !f.is_nan && f.units == SCALE,
        AuxVal::Other => false,
    }
}

/// Whether a tag value is numerically equal to zero, in any supported
/// numeric representation.
pub open spec fn aux_is_zero(v: AuxVal) -> bool {
    match v {
        AuxVal::I8(x) => x == 0,
        AuxVal::U8(x) => x == 0,
        AuxVal::I16(x) => x == 0,
        AuxVal::U16(x) => x == 0,
        AuxVal::I32(x) => x == 0,
        AuxVal::U32(x) => x == 0,
        AuxVal::F32(f) => !f.is_nan && f.units == 0,
        AuxVal::F64(f) => !f.is_nan && f.units == 0,
        AuxVal::Other => false,
    }
}

/// The error, if any, that reading the `NM` tag raises: the tag must be
/// present and an unsigned integer of a supported width.
pub open spec fn nm_err(r: AlignmentRecord) -> Option<StatsError> {
    match r.nm {
        Some(AuxVal::U8(_)) => None,
        Some(AuxVal::U16(_)) => None,
        Some(AuxVal::U32(_)) => None,
        Some(_) => Some(StatsError::TagTypeMismatch),
        None => Some(StatsError::TagMissing),
    }
}

/// The error, if any, that computing the identity of a record raises: a
/// present `de` tag must be a floating-point value (of either precision);
/// failing `de`, the `NM` tag must be present and an unsigned integer.
pub open spec fn identity_err(r: AlignmentRecord) -> Option<StatsError> {
    match r.de {
        Some(AuxVal::F32(_)) => None,
        Some(AuxVal::F64(_)) => None,
        Some(_) => Some(StatsError::TagTypeMismatch),
        None => nm_err(r),
    }
}

/// The edit distance read from the `NM` tag, defined when `identity_err`
/// finds none and `de` is absent.
pub open spec fn nm_value(r: AlignmentRecord) -> int {
    match r.nm {
        Some(AuxVal::U8(x)) => x as int,
        Some(AuxVal::U16(x)) => x as int,
        Some(AuxVal::U32(x)) => x as int,
        _ => 0,
    }
}

/// Gap-compressed identity computed from the alignment operations and the
/// edit distance: `1 - ((NM - gap_size + gap_count) / (matches +
/// gap_count))`, on a zero-to-one scale. Undefined when the denominator is
/// zero.
pub open spec fn identity_from_cigar_spec(r: AlignmentRecord) -> Fixed {
    let num = nm_value(r) - cigar_gap_size(r.cigar@) + cigar_gap_count(r.cigar@);
    let den = cigar_matches(r.cigar@) + cigar_gap_count(r.cigar@);
    let frac = ratio_spec(num, den);
    if frac.is_nan {
        Fixed { units: 0, is_nan: true }
    } else {
        Fixed { units: (SCALE as int - frac.units as int) as i128, is_nan: false }
    }
}

/// `100 * (1 - de)`: the percent identity a divergence value converts to;
/// an undefined divergence stays undefined.
pub open spec fn identity_from_de_spec(f: Fixed) -> Fixed {
    if f.is_nan {
        Fixed { units: 0, is_nan: true }
    } else {
        Fixed { units: ((SCALE as int - f.units as int) * 100) as i128, is_nan: false }
    }
}

/// Percent identity of a record: `100 * (1 - de)` on a zero-to-hundred
/// scale when the divergence tag is present (in either floating-point
/// precision), otherwise the gap-compressed identity from the alignment
/// operations on a zero-to-one scale. The two scales are deliberately
/// kept as they are.
pub open spec fn identity_spec(r: AlignmentRecord) -> Fixed {
    match r.de {
        Some(AuxVal::F32(f)) => identity_from_de_spec(f),
        Some(AuxVal::F64(f)) => identity_from_de_spec(f),
        _ => identity_from_cigar_spec(r),
    }
}

/// Arithmetic mean of the per-base quality values: the sum of the raw
/// quality integers divided by the sequence length (undefined for an
/// empty sequence).
pub open spec fn avg_qual_spec(r: AlignmentRecord) -> Fixed {
    ratio_spec(qual_sum(r.quals@), r.seq_len as int)
}

/// Bound on the magnitude of a per-read identity value in fixed-point
/// units; small enough that a sum of one identity per possible vector
/// element never leaves the fixed-point range.
pub const METRIC_UNITS_BOUND: i128 = 9_000_000_000_000_000_000;

/// Whether a flag bit-field keeps its record in the per-read metrics.
pub fn is_retained(flags: u16) -> (b: bool)
    ensures
        b == retained(flags),
{
    !(flags & FLAG_UNMAPPED != 0 || flags & FLAG_SECONDARY != 0 || flags & FLAG_QCFAIL != 0
        || flags & FLAG_DUPLICATE != 0)
}

/// Whether a tag value is numerically equal to one, in any supported
/// numeric representation.
pub fn aux_eq_one(v: &AuxVal) -> (b: bool)
    ensures
        b == aux_is_one(*v),
{
    match v {
        AuxVal::I8(x) => *x == 1,
        AuxVal::U8(x) => *x == 1,
        AuxVal::I16(x) => *x == 1,
        AuxVal::U16(x) => *x == 1,
        AuxVal::I32(x) => *x == 1,
        AuxVal::U32(x) => *x == 1,
        AuxVal::F32(f) => !f.is_nan && f.units == SCALE,
        AuxVal::F64(f) => !f.is_nan && f.units == SCALE,
        AuxVal::Other => false,
    }
}

/// Whether a tag value is numerically equal to zero, in any supported
/// numeric representation.
pub fn aux_eq_zero(v: &AuxVal) -> (b: bool)
    ensures
        b == aux_is_zero(*v),
{
    match v {
        AuxVal::I8(x) => *x == 0,
        AuxVal::U8(x) => *x == 0,
        AuxVal::I16(x) => *x == 0,
        AuxVal::U16(x) => *x == 0,
        AuxVal::I32(x) => *x == 0,
        AuxVal::U32(x) => *x == 0,
        AuxVal::F32(f) => !f.is_nan && f.units == 0,
        AuxVal::F64(f) => !f.is_nan && f.units == 0,
        AuxVal::Other => false,
    }
}

/// The divergence tag of a record: absent, its value (either
/// floating-point precision is admitted), or a type error if it is
/// present but not a floating-point value.
pub fn get_de(r: &AlignmentRecord) -> (res: Result<Option<Fixed>, StatsError>)
    ensures
        res == (match r.de {
            Some(AuxVal::F32(f)) => Ok::<Option<Fixed>, StatsError>(Some(f)),
            Some(AuxVal::F64(f)) => Ok::<Option<Fixed>, StatsError>(Some(f)),
            Some(_) => Err::<Option<Fixed>, StatsError>(StatsError::TagTypeMismatch),
            None => Ok::<Option<Fixed>, StatsError>(None::<Fixed>),
        }),
{
    match &r.de {
        Some(AuxVal::F32(f)) => Ok(Some(*f)),
        Some(AuxVal::F64(f)) => Ok(Some(*f)),
        Some(_) => Err(StatsError::TagTypeMismatch),
        None => Ok(None),
    }
}

/// The edit distance from the `NM` tag; a missing-tag error if absent, a
/// type error if not an unsigned integer of a supported width.
pub fn get_nm(r: &AlignmentRecord) -> (res: Result<u32, StatsError>)
    ensures
        nm_err(*r) is None ==> (res matches Ok(v) && v as int == nm_value(*r)),
        nm_err(*r) matches Some(e) ==> res == Err::<u32, StatsError>(e),
{
    match &r.nm {
        Some(AuxVal::U8(v)) => Ok(*v as u32),
        Some(AuxVal::U16(v)) => Ok(*v as u32),
        Some(AuxVal::U32(v)) => Ok(*v),
        Some(_) => Err(StatsError::TagTypeMismatch),
        None => Err(StatsError::TagMissing),
    }
}

/// Every prefix of a sequence of alignment operations keeps its match
/// total, gap total and gap count within the total alignment length and
/// the operation count.
proof fn lemma_cigar_prefix_bounds(ops: Seq<CigarOp>)
    ensures
        0 <= cigar_matches(ops) <= cigar_total_len(ops),
        0 <= cigar_gap_size(ops) <= cigar_total_len(ops),
        0 <= cigar_gap_count(ops) <= ops.len(),
        0 <= cigar_total_len(ops),
    decreases ops.len(),
{
    if ops.len() > 0 {
        lemma_cigar_prefix_bounds(ops.drop_last());
    }
}

/// The total alignment length of a prefix never exceeds that of the whole
/// sequence.
proof fn lemma_cigar_take_le(ops: Seq<CigarOp>, i: int)
    requires
        0 <= i <= ops.len(),
    ensures
        cigar_total_len(ops.take(i)) <= cigar_total_len(ops),
    decreases ops.len() - i,
{
    if i == ops.len() {
        assert(ops.take(i) =~= ops);
    } else {
        lemma_cigar_take_le(ops, i + 1);
        assert(ops.take(i + 1).drop_last() =~= ops.take(i));
        lemma_cigar_prefix_bounds(ops.take(i));
        assert(cigar_total_len(ops.take(i + 1)) == cigar_total_len(ops.take(i)) + op_len(
            ops.take(i + 1).last(),
        ));
    }
}

/// Gap-compressed identity from the alignment operations and the `NM`
/// tag: `1 - ((NM - gap_size + gap_count) / (matches + gap_count))`, on a
/// zero-to-one scale.
pub fn compute_gap_compressed_identity(r: &AlignmentRecord) -> (res: Result<Fixed, StatsError>)
    requires
        wf_record(*r),
    ensures
        nm_err(*r) is None ==> res == Ok::<Fixed, StatsError>(identity_from_cigar_spec(*r)),
        nm_err(*r) matches Some(e) ==> res == Err::<Fixed, StatsError>(e),
        res matches Ok(v) ==> v.inv() && abs(v.units as int) <= METRIC_UNITS_BOUND as int,
{
    let ops = &r.cigar;
    let n = ops.len();
    let mut matches: u64 = 0;
    let mut gap_size: u64 = 0;
    let mut gap_count: u64 = 0;
    let mut i: usize = 0;
    while i < n
        invariant
            0 <= i <= n,
            n == r.cigar@.len(),
            wf_record(*r),
            ops == &r.cigar,
            matches as int == cigar_matches(r.cigar@.take(i as int)),
            gap_size as int == cigar_gap_size(r.cigar@.take(i as int)),
            gap_count as int == cigar_gap_count(r.cigar@.take(i as int)),
            matches <= u32::MAX,
            gap_size <= u32::MAX,
            gap_count <= i,
        decreases n - i,
    {
        proof {
            assert(r.cigar@.take(i + 1).drop_last() =~= r.cigar@.take(i as int));
            assert(r.cigar@.take(i + 1).last() == r.cigar@[i as int]);
            lemma_cigar_prefix_bounds(r.cigar@.take(i + 1));
            lemma_cigar_take_le(r.cigar@, i + 1);
        }
        match ops[i] {
            CigarOp::Match(l) => {
                matches = matches + l as u64;
            },
            CigarOp::Equal(l) => {
                matches = matches + l as u64;
            },
            CigarOp::Diff(l) => {
                matches = matches + l as u64;
            },
            CigarOp::Del(l) => {
                gap_size = gap_size + l as u64;
                gap_count = gap_count + 1;
            },
            CigarOp::Ins(l) => {
                gap_size = gap_size + l as u64;
                gap_count = gap_count + 1;
            },
            _ => {},
        }
        i = i + 1;
    }
    proof {
        assert(r.cigar@.take(n as int) =~= r.cigar@);
    }
    let nm = match get_nm(r) {
        Ok(v) => v,
        Err(e) => {
            return Err(e);
        },
    };
    let num: i128 = nm as i128 - gap_size as i128 + gap_count as i128;
    let den: i128 = matches as i128 + gap_count as i128;
    let frac = ratio(num, den);
    proof {
        vstd::arithmetic::mul::lemma_mul_inequality(
            abs(num as int),
            0x2_0000_0000,
            SCALE as int,
        );
    }
    if frac.is_nan {
        Ok(Fixed { units: 0, is_nan: true })
    } else {
        Ok(Fixed { units: SCALE - frac.units, is_nan: false })
    }
}

/// Percent identity of a record: from the divergence tag when present
/// (`100 * (1 - de)`, zero-to-hundred scale), otherwise gap-compressed
/// from the alignment operations and `NM` (zero-to-one scale). The two
/// scales are deliberately kept as they are.
pub fn gap_compressed_identity(r: &AlignmentRecord) -> (res: Result<Fixed, StatsError>)
    requires
        wf_record(*r),
    ensures
        identity_err(*r) is None ==> res == Ok::<Fixed, StatsError>(identity_spec(*r)),
        identity_err(*r) matches Some(e) ==> res == Err::<Fixed, StatsError>(e),
        res matches Ok(v) ==> v.inv() && abs(v.units as int) <= METRIC_UNITS_BOUND as int,
{
    match get_de(r) {
        Ok(Some(de_value)) => if de_value.is_nan {
            Ok(Fixed { units: 0, is_nan: true })
        } else {
            Ok(Fixed { units: (SCALE - de_value.units) * 100, is_nan: false })
        },
        Ok(None) => compute_gap_compressed_identity(r),
        Err(e) => Err(e),
    }
}

/// Arithmetic mean of the per-base quality values: the sum of the raw
/// quality integers divided by the sequence length. Undefined when the
/// sequence is empty.
pub fn average_read_quality(r: &AlignmentRecord) -> (q: Fixed)
    requires
        wf_record(*r),
    ensures
        q == avg_qual_spec(*r),
        q.inv(),
{
    let n = r.quals.len();
    let mut sum: u128 = 0;
    let mut i: usize = 0;
    while i < n
        invariant
            0 <= i <= n,
            n == r.quals@.len(),
            sum as int == qual_sum(r.quals@.take(i as int)),
            sum <= 255 * (i as u128),
        decreases n - i,
    {
        proof {
            assert(r.quals@.take(i + 1).drop_last() =~= r.quals@.take(i as int));
            assert(r.quals@.take(i + 1).last() == r.quals@[i as int]);
        }
        sum = sum + r.quals[i] as u128;
        i = i + 1;
    }
    proof {
        assert(r.quals@.take(n as int) =~= r.quals@);
    }
    ratio(sum as i128, r.seq_len as i128)
}

} // verus!

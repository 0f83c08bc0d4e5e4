//! The single-pass classification and accumulation loop over alignment
//! records, and the aggregate summary computed from the accumulated
//! per-read columns.

use crate::fixed::{
    abs, fixed_add, fixed_add_spec, ratio, ratio_spec, round_spec, round_to_digit, trunc_div,
    trunc_div_i128, Fixed, SCALE,
};
use crate::record::{
    aux_is_one, aux_is_zero, aux_eq_one, aux_eq_zero, avg_qual_spec, average_read_quality,
    gap_compressed_identity, identity_err, identity_spec, is_duplicate, is_qcfail, is_retained,
    is_secondary, is_supplementary, is_unmapped, retained, wf_record, AlignmentRecord, AuxVal,
    StatsError, FLAG_DUPLICATE, FLAG_QCFAIL, FLAG_SECONDARY, FLAG_SUPPLEMENTARY, FLAG_UNMAPPED,
    METRIC_UNITS_BOUND,
};
use vstd::arithmetic::mul::lemma_mul_inequality;
use vstd::multiset::Multiset;
use vstd::prelude::*;

verus! {

/// The decoded text of a byte sequence, when it is valid UTF-8.
pub uninterp spec fn utf8_of(bytes: Seq<u8>) -> Option<Seq<char>>;

/// Relies on `String::from_utf8`: decodes the bytes as UTF-8 text, and
/// reports bytes that are not valid text.
#[verifier::external_body]
fn decode_utf8(bytes: &Vec<u8>) -> (r: Option<String>)
    ensures
        r is Some <==> utf8_of(bytes@) is Some,
        r matches Some(s) ==> utf8_of(bytes@) == Some(s@),
{
    match String::from_utf8(bytes.clone()) {
        Ok(s) => Some(s),
        Err(_) => None,
    }
}

/// The per-read columns accumulated over the record stream, as
/// mathematical sequences, together with the two duplex counters.
pub struct ColumnsModel {
    /// Decoded read identifiers, one per retained record.
    pub read_ids: Seq<Seq<char>>,
    /// Reference-sequence indices, one per retained record.
    pub chrom_ids: Seq<i32>,
    /// Average per-base qualities, one per retained record.
    pub avg_quals: Seq<Fixed>,
    /// Sequence lengths, one per retained record.
    pub lengths: Seq<u64>,
    /// Mapping qualities, one per retained record.
    pub map_quals: Seq<u8>,
    /// Percent identities, one per retained record.
    pub identities: Seq<Fixed>,
    /// Raw flag bit-fields, one per record seen, retained or not.
    pub sam_flags: Seq<u16>,
    /// Retained records whose `dx` tag equals one.
    pub duplex_count: int,
    /// Retained records whose `dx` tag equals zero or one.
    pub classified_count: int,
}

/// The model of the empty stream.
pub open spec fn empty_model() -> ColumnsModel {
    ColumnsModel {
        read_ids: Seq::empty(),
        chrom_ids: Seq::empty(),
        avg_quals: Seq::empty(),
        lengths: Seq::empty(),
        map_quals: Seq::empty(),
        identities: Seq::empty(),
        sam_flags: Seq::empty(),
        duplex_count: 0,
        classified_count: 0,
    }
}

/// One accumulation step: every record contributes its flags; a retained
/// record also contributes one entry to each per-read column and is
/// classified by its `dx` tag (equal to one: duplex; equal to zero:
/// classified only; anything else: neither).
pub open spec fn step_model(m: ColumnsModel, r: AlignmentRecord) -> ColumnsModel {
    if !retained(r.flags) {
        ColumnsModel { sam_flags: m.sam_flags.push(r.flags), ..m }
    } else {
        ColumnsModel {
            read_ids: m.read_ids.push(utf8_of(r.qname@).unwrap()),
            chrom_ids: m.chrom_ids.push(r.tid),
            avg_quals: m.avg_quals.push(avg_qual_spec(r)),
            lengths: m.lengths.push(r.seq_len as u64),
            map_quals: m.map_quals.push(r.mapq),
            identities: m.identities.push(identity_spec(r)),
            sam_flags: m.sam_flags.push(r.flags),
            duplex_count: m.duplex_count + (if r.dx matches Some(v) && aux_is_one(v) {
                1int
            } else {
                0int
            }),
            classified_count: m.classified_count + (if r.dx matches Some(v) && (aux_is_one(v)
                || aux_is_zero(v)) {
                1int
            } else {
                0int
            }),
        }
    }
}

/// The accumulated columns of a whole record stream.
pub open spec fn model_of(records: Seq<AlignmentRecord>) -> ColumnsModel
    decreases records.len(),
{
    if records.len() == 0 {
        empty_model()
    } else {
        step_model(model_of(records.drop_last()), records.last())
    }
}

/// The fatal condition, if any, that a retained record raises, in the
/// order the checks run: the `dx` tag must be present; the identity must
/// be computable; the read identifier must be valid text.
pub open spec fn record_check(r: AlignmentRecord) -> Option<StatsError> {
    if r.dx is None {
        Some(StatsError::TagMissing)
    } else if identity_err(r) is Some {
        identity_err(r)
    } else if utf8_of(r.qname@) is None {
        Some(StatsError::DecodeError)
    } else {
        None
    }
}

/// Whether every retained record of the stream passes every check.
pub open spec fn all_records_ok(records: Seq<AlignmentRecord>) -> bool {
    forall|i: int|
        0 <= i < records.len() && retained(#[trigger] records[i].flags) ==> record_check(
            records[i],
        ) is None
}

/// The per-read columns: parallel vectors aligned by index and populated
/// only for retained records, the raw flags of every record seen, and the
/// duplex counters.
pub struct ReadLevelStats {
    /// Decoded read identifiers, one per retained record.
    pub read_ids: Vec<String>,
    /// Reference-sequence indices, one per retained record.
    pub chrom_ids: Vec<i32>,
    /// Average per-base qualities, one per retained record.
    pub avg_quals: Vec<Fixed>,
    /// Sequence lengths, one per retained record.
    pub lengths: Vec<u64>,
    /// Mapping qualities, one per retained record.
    pub map_quals: Vec<u8>,
    /// Percent identities, one per retained record.
    pub identities: Vec<Fixed>,
    /// Raw flag bit-fields of every record seen, retained or not.
    pub sam_flags: Vec<u16>,
    /// Number of retained records whose `dx` tag equals one.
    pub num_pass_duplex_reads: u64,
    /// `100 * duplex / classified`; undefined when no retained record
    /// carried a `dx` value of zero or one.
    pub pct_duplex_reads: Fixed,
}

impl ReadLevelStats {
    /// The per-read columns stay aligned, the flags column is at least as
    /// long, identities are within the fixed-point metric range, and the
    /// duplex percentage is well-formed.
    pub open spec fn wf(self) -> bool {
        &&& self.chrom_ids@.len() == self.read_ids@.len()
        &&& self.avg_quals@.len() == self.read_ids@.len()
        &&& self.lengths@.len() == self.read_ids@.len()
        &&& self.map_quals@.len() == self.read_ids@.len()
        &&& self.identities@.len() == self.read_ids@.len()
        &&& self.sam_flags@.len() >= self.read_ids@.len()
        &&& forall|i: int|
            0 <= i < self.identities@.len() ==> (#[trigger] self.identities@[i]).inv() && abs(
                self.identities@[i].units as int,
            ) <= METRIC_UNITS_BOUND as int
        &&& self.pct_duplex_reads.inv()
        &&& self.pct_duplex_reads.units > i128::MIN
    }

    /// Whether these columns are exactly the model of a record stream.
    pub open spec fn matches_model(self, m: ColumnsModel) -> bool {
        &&& self.read_ids@.map_values(|s: String| s@) == m.read_ids
        &&& self.chrom_ids@ == m.chrom_ids
        &&& self.avg_quals@ == m.avg_quals
        &&& self.lengths@ == m.lengths
        &&& self.map_quals@ == m.map_quals
        &&& self.identities@ == m.identities
        &&& self.sam_flags@ == m.sam_flags
        &&& self.num_pass_duplex_reads as int == m.duplex_count
        &&& self.pct_duplex_reads == ratio_spec(100 * m.duplex_count, m.classified_count)
    }
}

/// Consume the record stream once and accumulate the per-read columns:
/// the raw flags of every record; for each retained record its duplex
/// classification, identity, mapping quality, length, average quality,
/// reference id and decoded identifier. The first failing check of a
/// retained record aborts the whole extraction.
pub fn extract(records: &Vec<AlignmentRecord>) -> (res: Result<ReadLevelStats, StatsError>)
    requires
        forall|i: int| 0 <= i < records@.len() ==> wf_record(#[trigger] records@[i]),
    ensures
        res is Ok <==> all_records_ok(records@),
        res matches Ok(s) ==> s.matches_model(model_of(records@)) && s.wf(),
        res matches Err(e) ==> exists|i: int|
            0 <= i < records@.len() && retained(#[trigger] records@[i].flags) && record_check(
                records@[i],
            ) == Some(e) && (forall|j: int|
                0 <= j < i && retained(#[trigger] records@[j].flags) ==> record_check(
                    records@[j],
                ) is None),
{
    let mut read_ids: Vec<String> = Vec::new();
    let mut chrom_ids: Vec<i32> = Vec::new();
    let mut avg_quals: Vec<Fixed> = Vec::new();
    let mut lengths: Vec<u64> = Vec::new();
    let mut map_quals: Vec<u8> = Vec::new();
    let mut identities: Vec<Fixed> = Vec::new();
    let mut sam_flags: Vec<u16> = Vec::new();
    let mut duplex_count: u64 = 0;
    let mut classified_count: u64 = 0;
    let n = records.len();
    let mut idx: usize = 0;
    while idx < n
        invariant
            0 <= idx <= n,
            n == records@.len(),
            forall|i: int| 0 <= i < records@.len() ==> wf_record(#[trigger] records@[i]),
            forall|j: int|
                0 <= j < idx && retained(#[trigger] records@[j].flags) ==> record_check(
                    records@[j],
                ) is None,
            read_ids@.map_values(|s: String| s@) == model_of(records@.take(idx as int)).read_ids,
            chrom_ids@ == model_of(records@.take(idx as int)).chrom_ids,
            avg_quals@ == model_of(records@.take(idx as int)).avg_quals,
            lengths@ == model_of(records@.take(idx as int)).lengths,
            map_quals@ == model_of(records@.take(idx as int)).map_quals,
            identities@ == model_of(records@.take(idx as int)).identities,
            sam_flags@ == model_of(records@.take(idx as int)).sam_flags,
            duplex_count as int == model_of(records@.take(idx as int)).duplex_count,
            classified_count as int == model_of(records@.take(idx as int)).classified_count,
            duplex_count <= classified_count,
            classified_count <= idx,
            read_ids@.len() == chrom_ids@.len(),
            read_ids@.len() == avg_quals@.len(),
            read_ids@.len() == lengths@.len(),
            read_ids@.len() == map_quals@.len(),
            read_ids@.len() == identities@.len(),
            read_ids@.len() <= sam_flags@.len(),
            forall|i: int|
                0 <= i < identities@.len() ==> (#[trigger] identities@[i]).inv() && abs(
                    identities@[i].units as int,
                ) <= METRIC_UNITS_BOUND as int,
        decreases n - idx,
    {
        proof {
            assert(records@.take(idx + 1).drop_last() =~= records@.take(idx as int));
            assert(records@.take(idx + 1).last() == records@[idx as int]);
        }
        let r = &records[idx];
        sam_flags.push(r.flags);
        if is_retained(r.flags) {
            match &r.dx {
                Some(v) => {
                    if aux_eq_one(v) {
                        duplex_count = duplex_count + 1;
                        classified_count = classified_count + 1;
                    } else if aux_eq_zero(v) {
                        classified_count = classified_count + 1;
                    }
                },
                None => {
                    proof {
                        assert(record_check(records@[idx as int]) == Some(StatsError::TagMissing));
                    }
                    return Err(StatsError::TagMissing);
                },
            }
            let ident = match gap_compressed_identity(r) {
                Ok(v) => v,
                Err(e) => {
                    proof {
                        assert(record_check(records@[idx as int]) == Some(e));
                    }
                    return Err(e);
                },
            };
            identities.push(ident);
            map_quals.push(r.mapq);
            lengths.push(r.seq_len as u64);
            avg_quals.push(average_read_quality(r));
            chrom_ids.push(r.tid);
            match decode_utf8(&r.qname) {
                Some(s) => {
                    let ghost prev = read_ids@;
                    let ghost sv = s@;
                    read_ids.push(s);
                    proof {
                        assert(read_ids@.map_values(|t: String| t@) =~= prev.map_values(
                            |t: String| t@,
                        ).push(sv));
                    }
                },
                None => {
                    proof {
                        assert(record_check(records@[idx as int]) == Some(StatsError::DecodeError));
                    }
                    return Err(StatsError::DecodeError);
                },
            }
        }
        idx = idx + 1;
    }
    proof {
        assert(records@.take(n as int) =~= records@);
    }
    let pct_duplex_reads = ratio(100 * (duplex_count as i128), classified_count as i128);
    Ok(
        ReadLevelStats {
            read_ids,
            chrom_ids,
            avg_quals,
            lengths,
            map_quals,
            identities,
            sam_flags,
            num_pass_duplex_reads: duplex_count,
            pct_duplex_reads,
        },
    )
}

/// The eight flag counts, as mathematical integers.
pub struct FlagTally {
    pub total: int,
    pub mapped: int,
    pub qcfail: int,
    pub duplicate: int,
    pub unmapped: int,
    pub primary: int,
    pub secondary: int,
    pub supplementary: int,
}

/// The flag counts of a sequence of flag bit-fields: every element counts
/// toward `total`, toward exactly one of `primary` and `secondary`, toward
/// exactly one of `mapped` and `unmapped`, and toward `qcfail`,
/// `duplicate` and `supplementary` when the matching bit is set.
pub open spec fn flag_tally(s: Seq<u16>) -> FlagTally
    decreases s.len(),
{
    if s.len() == 0 {
        FlagTally {
            total: 0,
            mapped: 0,
            qcfail: 0,
            duplicate: 0,
            unmapped: 0,
            primary: 0,
            secondary: 0,
            supplementary: 0,
        }
    } else {
        let t = flag_tally(s.drop_last());
        let f = s.last();
        FlagTally {
            total: t.total + 1,
            mapped: t.mapped + (if is_unmapped(f) {
                0int
            } else {
                1int
            }),
            qcfail: t.qcfail + (if is_qcfail(f) {
                1int
            } else {
                0int
            }),
            duplicate: t.duplicate + (if is_duplicate(f) {
                1int
            } else {
                0int
            }),
            unmapped: t.unmapped + (if is_unmapped(f) {
                1int
            } else {
                0int
            }),
            primary: t.primary + (if is_secondary(f) {
                0int
            } else {
                1int
            }),
            secondary: t.secondary + (if is_secondary(f) {
                1int
            } else {
                0int
            }),
            supplementary: t.supplementary + (if is_supplementary(f) {
                1int
            } else {
                0int
            }),
        }
    }
}

/// Sum of a sequence of lengths.
pub open spec fn sum_u64(s: Seq<u64>) -> int
    decreases s.len(),
{
    if s.len() == 0 {
        0
    } else {
        sum_u64(s.drop_last()) + s.last() as int
    }
}

/// Fixed-point sum of a sequence of values; any undefined element makes
/// the sum undefined.
pub open spec fn sum_fixed(s: Seq<Fixed>) -> Fixed
    decreases s.len(),
{
    if s.len() == 0 {
        Fixed { units: 0, is_nan: false }
    } else {
        fixed_add_spec(sum_fixed(s.drop_last()), s.last())
    }
}

/// A sum of lengths is non-negative.
proof fn lemma_sum_u64_nonneg(s: Seq<u64>)
    ensures
        0 <= sum_u64(s),
    decreases s.len(),
{
    if s.len() > 0 {
        lemma_sum_u64_nonneg(s.drop_last());
    }
}

/// Every prefix sum of lengths is non-negative and within the total.
proof fn lemma_sum_u64_take(s: Seq<u64>, i: int)
    requires
        0 <= i <= s.len(),
    ensures
        0 <= sum_u64(s.take(i)) <= sum_u64(s),
    decreases s.len() - i,
{
    lemma_sum_u64_nonneg(s.take(i));
    if i == s.len() {
        assert(s.take(i) =~= s);
    } else {
        lemma_sum_u64_take(s, i + 1);
        assert(s.take(i + 1).drop_last() =~= s.take(i));
    }
}

/// The midpoint of the length column in encounter order: the average of
/// the two central elements when the count is even, the single central
/// element when it is odd. Deliberately not a sorted median.
pub open spec fn median_u64_spec(s: Seq<u64>) -> Fixed
    recommends
        s.len() > 0,
{
    if s.len() % 2 == 0 {
        Fixed {
            units: ((s[s.len() as int / 2 - 1] as int + s[s.len() as int / 2] as int) * (SCALE as int
                / 2)) as i128,
            is_nan: false,
        }
    } else {
        Fixed { units: (s[s.len() as int / 2] as int * SCALE as int) as i128, is_nan: false }
    }
}

/// The midpoint of the identity column in encounter order, halving the
/// central pair (truncating toward zero) when the count is even.
pub open spec fn median_fixed_spec(s: Seq<Fixed>) -> Fixed
    recommends
        s.len() > 0,
{
    if s.len() % 2 == 0 {
        let pair = fixed_add_spec(s[s.len() as int / 2 - 1], s[s.len() as int / 2]);
        if pair.is_nan {
            pair
        } else {
            Fixed { units: trunc_div(pair.units as int, 2) as i128, is_nan: false }
        }
    } else {
        s[s.len() as int / 2]
    }
}

/// Midpoint of the length column in encounter order (no sorting).
pub fn compute_median_u64(array: &Vec<u64>) -> (r: Fixed)
    requires
        array@.len() > 0,
    ensures
        r == median_u64_spec(array@),
        r.units >= 0,
{
    let n = array.len();
    if n % 2 == 0 {
        let a = array[n / 2 - 1];
        let b = array[n / 2];
        let half_scale: i128 = 500_000_000;
        Fixed { units: (a as i128 + b as i128) * half_scale, is_nan: false }
    } else {
        Fixed { units: (array[n / 2] as i128) * SCALE, is_nan: false }
    }
}

/// Midpoint of the identity column in encounter order (no sorting).
pub fn compute_median(array: &Vec<Fixed>) -> (r: Fixed)
    requires
        array@.len() > 0,
        forall|i: int|
            0 <= i < array@.len() ==> (#[trigger] array@[i]).inv() && abs(
                array@[i].units as int,
            ) <= METRIC_UNITS_BOUND as int,
    ensures
        r == median_fixed_spec(array@),
        abs(r.units as int) <= 2 * METRIC_UNITS_BOUND as int,
{
    let n = array.len();
    if n % 2 == 0 {
        let a = array[n / 2 - 1];
        let b = array[n / 2];
        if a.is_nan || b.is_nan {
            Fixed { units: 0, is_nan: true }
        } else {
            Fixed { units: trunc_div_i128(a.units + b.units, 2), is_nan: false }
        }
    } else {
        array[n / 2]
    }
}

/// The total order on lengths.
pub open spec fn u64_le() -> spec_fn(u64, u64) -> bool {
    |x: u64, y: u64| x <= y
}

/// `u64_le` is a total ordering.
proof fn lemma_u64_le_total_ordering()
    ensures
        vstd::relations::total_ordering(u64_le()),
{
    let leq = u64_le();
    assert forall|x: u64| #[trigger] leq(x, x) by {}
    assert forall|x: u64, y: u64| #[trigger] leq(x, y) && #[trigger] leq(y, x) implies x == y by {}
    assert forall|x: u64, y: u64, z: u64|
        #[trigger] leq(x, y) && #[trigger] leq(y, z) implies leq(x, z) by {}
    assert forall|x: u64, y: u64| #[trigger] leq(x, y) || #[trigger] leq(y, x) by {}
}

/// The ascending walk over a sorted length column: the first element at
/// which the running sum strictly exceeds `half`, or the last element
/// when none does.
pub open spec fn n50_walk(s: Seq<u64>, half: int, i: int, acc: int) -> u64
    decreases s.len() - i,
{
    if i < 0 || i >= s.len() {
        if s.len() == 0 {
            0
        } else {
            s[s.len() - 1]
        }
    } else if acc + s[i] > half {
        s[i]
    } else {
        n50_walk(s, half, i + 1, acc + s[i])
    }
}

/// The N50 of a length column with respect to a total base count: sort
/// the lengths ascending and take the first value at which the running
/// sum strictly exceeds half of the total (integer halving); the maximum
/// length when no prefix does.
pub open spec fn n50_of(lengths: Seq<u64>, total_num_bases: u64) -> u64 {
    n50_walk(lengths.sort_by(u64_le()), total_num_bases as int / 2, 0, 0)
}

/// Sort a length column ascending.
fn sort_u64(v: &Vec<u64>) -> (r: Vec<u64>)
    ensures
        r@ == v@.sort_by(u64_le()),
        r@.len() == v@.len(),
{
    broadcast use vstd::seq_lib::group_to_multiset_ensures;

    let n = v.len();
    let mut rest: Vec<u64> = Vec::new();
    let mut i: usize = 0;
    while i < n
        invariant
            0 <= i <= n,
            n == v@.len(),
            rest@ == v@.take(i as int),
        decreases n - i,
    {
        rest.push(v[i]);
        proof {
            assert(rest@ =~= v@.take(i + 1));
        }
        i = i + 1;
    }
    proof {
        assert(v@.take(n as int) =~= v@);
    }
    let mut out: Vec<u64> = Vec::new();
    while rest.len() > 0
        invariant
            out@.to_multiset().add(rest@.to_multiset()) == v@.to_multiset(),
            vstd::relations::sorted_by(out@, u64_le()),
            forall|a: int, b: int|
                0 <= a < out@.len() && 0 <= b < rest@.len() ==> #[trigger] out@[a] <= #[trigger] rest@[b],
        decreases rest@.len(),
    {
        let mut imin: usize = 0;
        let mut k: usize = 1;
        while k < rest.len()
            invariant
                0 <= imin < k <= rest@.len(),
                rest@.len() > 0,
                forall|j: int| 0 <= j < k ==> rest@[imin as int] <= #[trigger] rest@[j],
            decreases rest@.len() - k,
        {
            if rest[k] < rest[imin] {
                imin = k;
            }
            k = k + 1;
        }
        let ghost old_out = out@;
        let ghost old_rest = rest@;
        let x = rest.remove(imin);
        out.push(x);
        proof {
            broadcast use vstd::multiset::group_multiset_axioms;

            old_rest.to_multiset_ensures();
            old_out.to_multiset_ensures();
            vstd::seq_lib::to_multiset_build(old_out, x);
            vstd::seq_lib::to_multiset_remove(old_rest, imin as int);
            assert(old_rest[imin as int] == x);
            assert(old_rest.contains(x));
            assert(out@ == old_out.push(x));
            assert(out@.to_multiset() =~= old_out.to_multiset().insert(x));
            assert(rest@ == old_rest.remove(imin as int));
            assert(rest@.to_multiset() =~= old_rest.to_multiset().remove(x));
            assert(old_rest.to_multiset().count(x) > 0);
            assert(out@.to_multiset().add(rest@.to_multiset()) =~= old_out.to_multiset().add(
                old_rest.to_multiset(),
            ));
            assert forall|a: int, b: int|
                0 <= a < out@.len() && 0 <= b < rest@.len() implies #[trigger] out@[a]
                <= #[trigger] rest@[b] by {
                if b < imin {
                    assert(rest@[b] == old_rest[b]);
                } else {
                    assert(rest@[b] == old_rest[b + 1]);
                }
            }
            assert(vstd::relations::sorted_by(out@, u64_le()));
        }
    }
    proof {
        lemma_u64_le_total_ordering();
        v@.lemma_sort_by_ensures(u64_le());
        assert(rest@.to_multiset() =~= Multiset::<u64>::empty());
        assert(out@.to_multiset().add(Multiset::<u64>::empty()) =~= out@.to_multiset());
        assert(out@.to_multiset() == v@.sort_by(u64_le()).to_multiset());
        vstd::seq_lib::lemma_sorted_unique(out@, v@.sort_by(u64_le()), u64_le());
        assert(out@ =~= v@.sort_by(u64_le()));
        broadcast use vstd::seq_lib::group_to_multiset_ensures;

        assert(out@.len() == out@.to_multiset().len());
        assert(v@.len() == v@.to_multiset().len());
    }
    out
}

/// The N50 of the length column: the lengths are sorted ascending into a
/// copy and walked from the smallest up, accumulating a running sum; the
/// first length at which the sum strictly exceeds half of
/// `total_num_bases` is returned, and the largest length if none does.
pub fn compute_n50(lengths: &Vec<u64>, total_num_bases: u64) -> (r: u64)
    requires
        lengths@.len() > 0,
    ensures
        r == n50_of(lengths@, total_num_bases),
{
    let sorted = sort_u64(lengths);
    let ghost s = sorted@;
    let half: u128 = (total_num_bases / 2) as u128;
    let n = sorted.len();
    let mut acc: u128 = 0;
    let mut i: usize = 0;
    while i < n
        invariant
            0 <= i <= n,
            n == s.len(),
            n > 0,
            sorted@ == s,
            s == lengths@.sort_by(u64_le()),
            half == total_num_bases as int / 2,
            acc <= half,
            n50_walk(s, half as int, i as int, acc as int) == n50_walk(s, half as int, 0, 0),
        decreases n - i,
    {
        let v = sorted[i];
        let ghost acc0 = acc as int;
        acc = acc + v as u128;
        if acc > half {
            proof {
                assert(acc as int == acc0 + s[i as int]);
                assert(n50_walk(s, half as int, i as int, acc0) == s[i as int]);
                assert(v == n50_walk(s, half as int, 0, 0));
                assert(s == lengths@.sort_by(u64_le()));
                assert(half as int == total_num_bases as int / 2);
            }
            return v;
        }
        proof {
            assert(n50_walk(s, half as int, i as int, acc0) == n50_walk(
                s,
                half as int,
                i + 1,
                acc as int,
            ));
        }
        i = i + 1;
    }
    sorted[n - 1]
}

/// The eight SAM-flag counts over every record seen.
#[derive(Clone, Copy, Debug, PartialEq, Eq, Structural)]
pub struct SamFlagCounts {
    pub total: usize,
    pub mapped: usize,
    pub qcfail: usize,
    pub duplicate: usize,
    pub unmapped: usize,
    pub primary: usize,
    pub secondary: usize,
    pub supplementary: usize,
}

/// Whether the eight machine counts equal a mathematical flag tally.
pub open spec fn counts_match_tally(c: SamFlagCounts, t: FlagTally) -> bool {
    &&& c.total as int == t.total
    &&& c.mapped as int == t.mapped
    &&& c.qcfail as int == t.qcfail
    &&& c.duplicate as int == t.duplicate
    &&& c.unmapped as int == t.unmapped
    &&& c.primary as int == t.primary
    &&& c.secondary as int == t.secondary
    &&& c.supplementary as int == t.supplementary
}

/// The final immutable summary record, created once after the stream
/// ends.
#[derive(Clone, Copy, Debug, PartialEq, Eq, Structural)]
pub struct AggregateStats {
    pub num_pass_reads: usize,
    pub num_pass_duplex_reads: u64,
    pub read_length_n50: u64,
    pub bases_yield: u64,
    pub mean_read_length: Fixed,
    pub median_read_length: Fixed,
    pub mean_pct_identity: Fixed,
    pub median_pct_identity: Fixed,
    pub pct_duplex_reads: Fixed,
    pub sam_flag_counts: SamFlagCounts,
}

/// Dividing a fixed-point sum by a positive count, truncating toward
/// zero; an undefined sum stays undefined.
pub open spec fn div_count_spec(f: Fixed, n: int) -> Fixed
    recommends
        n >= 1,
{
    if f.is_nan {
        f
    } else {
        Fixed { units: trunc_div(f.units as int, n) as i128, is_nan: false }
    }
}

/// What the aggregate summary states about the columns it came from.
pub open spec fn aggregate_matches(s: ReadLevelStats, a: AggregateStats) -> bool {
    let count = s.read_ids@.len() as int;
    &&& a.num_pass_reads as int == count
    &&& a.num_pass_duplex_reads == s.num_pass_duplex_reads
    &&& a.bases_yield as int == sum_u64(s.lengths@)
    &&& a.read_length_n50 == n50_of(s.lengths@, a.bases_yield)
    &&& a.mean_read_length == round_spec(ratio_spec(sum_u64(s.lengths@), count), 2)
    &&& a.median_read_length == round_spec(median_u64_spec(s.lengths@), 2)
    &&& a.mean_pct_identity == round_spec(div_count_spec(sum_fixed(s.identities@), count), 4)
    &&& a.median_pct_identity == round_spec(median_fixed_spec(s.identities@), 4)
    &&& a.pct_duplex_reads == round_spec(s.pct_duplex_reads, 4)
    &&& counts_match_tally(a.sam_flag_counts, flag_tally(s.sam_flags@))
}

impl ReadLevelStats {
    /// Reduce the accumulated per-read columns into the aggregate summary:
    /// total bases, N50, truncated mean and encounter-order median of the
    /// lengths and identities, truncated duplex percentage, and the eight
    /// flag counts over every record seen. Fails when fewer than two reads
    /// were retained, below which the statistics are considered
    /// meaningless.
    pub fn aggregate(&self) -> (res: Result<AggregateStats, StatsError>)
        requires
            self.wf(),
            sum_u64(self.lengths@) <= u64::MAX,
        ensures
            res is Err <==> self.read_ids@.len() < 2,
            res matches Err(e) ==> e == StatsError::InsufficientData,
            res matches Ok(a) ==> aggregate_matches(*self, a),
            res matches Ok(a) ==> a.sam_flag_counts.primary + a.sam_flag_counts.secondary
                == a.sam_flag_counts.total && a.sam_flag_counts.mapped + a.sam_flag_counts.unmapped
                == a.sam_flag_counts.total && a.sam_flag_counts.total == self.sam_flags@.len(),
    {
        proof {
            lemma_flag_counts_partition(self.sam_flags@);
        }
        if self.read_ids.len() < 2 {
            return Err(StatsError::InsufficientData);
        }
        let num_pass_reads = self.read_ids.len();
        let nl = self.lengths.len();
        let mut bases_yield: u64 = 0;
        let mut i: usize = 0;
        while i < nl
            invariant
                0 <= i <= nl,
                nl == self.lengths@.len(),
                sum_u64(self.lengths@) <= u64::MAX,
                bases_yield as int == sum_u64(self.lengths@.take(i as int)),
            decreases nl - i,
        {
            proof {
                assert(self.lengths@.take(i + 1).drop_last() =~= self.lengths@.take(i as int));
                assert(self.lengths@.take(i + 1).last() == self.lengths@[i as int]);
                lemma_sum_u64_take(self.lengths@, i + 1);
            }
            bases_yield = bases_yield + self.lengths[i];
            i = i + 1;
        }
        proof {
            assert(self.lengths@.take(nl as int) =~= self.lengths@);
        }
        let ni = self.identities.len();
        let mut ident_sum = Fixed { units: 0, is_nan: false };
        let mut j: usize = 0;
        while j < ni
            invariant
                0 <= j <= ni,
                ni == self.identities@.len(),
                self.wf(),
                ident_sum == sum_fixed(self.identities@.take(j as int)),
                ident_sum.inv(),
                abs(ident_sum.units as int) <= (j as int) * (METRIC_UNITS_BOUND as int),
            decreases ni - j,
        {
            proof {
                assert(self.identities@.take(j + 1).drop_last() =~= self.identities@.take(
                    j as int,
                ));
                assert(self.identities@.take(j + 1).last() == self.identities@[j as int]);
                lemma_mul_inequality(j as int + 1, ni as int, METRIC_UNITS_BOUND as int);
                assert(ni as int <= u64::MAX as int);
                lemma_mul_inequality(ni as int, u64::MAX as int, METRIC_UNITS_BOUND as int);
            }
            ident_sum = fixed_add(ident_sum, self.identities[j]);
            j = j + 1;
        }
        proof {
            assert(self.identities@.take(ni as int) =~= self.identities@);
            lemma_mul_inequality(ni as int, u64::MAX as int, METRIC_UNITS_BOUND as int);
            assert(ni as int <= u64::MAX as int);
        }
        let read_length_n50 = compute_n50(&self.lengths, bases_yield);
        let mean_read_length = round_to_digit(
            ratio(bases_yield as i128, num_pass_reads as i128),
            2,
        );
        let median_read_length = round_to_digit(compute_median_u64(&self.lengths), 2);
        let mean_ident = if ident_sum.is_nan {
            ident_sum
        } else {
            Fixed {
                units: trunc_div_i128(ident_sum.units, num_pass_reads as i128),
                is_nan: false,
            }
        };
        let mean_pct_identity = round_to_digit(mean_ident, 4);
        let median_pct_identity = round_to_digit(compute_median(&self.identities), 4);
        let pct_duplex_reads = round_to_digit(self.pct_duplex_reads, 4);
        let nf = self.sam_flags.len();
        let mut c_total: usize = 0;
        let mut c_mapped: usize = 0;
        let mut c_qcfail: usize = 0;
        let mut c_duplicate: usize = 0;
        let mut c_unmapped: usize = 0;
        let mut c_primary: usize = 0;
        let mut c_secondary: usize = 0;
        let mut c_supplementary: usize = 0;
        let mut k: usize = 0;
        while k < nf
            invariant
                0 <= k <= nf,
                nf == self.sam_flags@.len(),
                c_total as int == flag_tally(self.sam_flags@.take(k as int)).total,
                c_mapped as int == flag_tally(self.sam_flags@.take(k as int)).mapped,
                c_qcfail as int == flag_tally(self.sam_flags@.take(k as int)).qcfail,
                c_duplicate as int == flag_tally(self.sam_flags@.take(k as int)).duplicate,
                c_unmapped as int == flag_tally(self.sam_flags@.take(k as int)).unmapped,
                c_primary as int == flag_tally(self.sam_flags@.take(k as int)).primary,
                c_secondary as int == flag_tally(self.sam_flags@.take(k as int)).secondary,
                c_supplementary as int == flag_tally(self.sam_flags@.take(k as int)).supplementary,
                c_total == k,
                c_mapped <= k,
                c_qcfail <= k,
                c_duplicate <= k,
                c_unmapped <= k,
                c_primary <= k,
                c_secondary <= k,
                c_supplementary <= k,
            decreases nf - k,
        {
            proof {
                assert(self.sam_flags@.take(k + 1).drop_last() =~= self.sam_flags@.take(k as int));
                assert(self.sam_flags@.take(k + 1).last() == self.sam_flags@[k as int]);
            }
            let f = self.sam_flags[k];
            c_total = c_total + 1;
            if f & FLAG_QCFAIL != 0 {
                c_qcfail = c_qcfail + 1;
            }
            if f & FLAG_DUPLICATE != 0 {
                c_duplicate = c_duplicate + 1;
            }
            if f & FLAG_SUPPLEMENTARY != 0 {
                c_supplementary = c_supplementary + 1;
            }
            if f & FLAG_SECONDARY != 0 {
                c_secondary = c_secondary + 1;
            } else {
                c_primary = c_primary + 1;
            }
            if f & FLAG_UNMAPPED != 0 {
                c_unmapped = c_unmapped + 1;
            } else {
                c_mapped = c_mapped + 1;
            }
            k = k + 1;
        }
        proof {
            assert(self.sam_flags@.take(nf as int) =~= self.sam_flags@);
        }
        Ok(
            AggregateStats {
                num_pass_reads,
                num_pass_duplex_reads: self.num_pass_duplex_reads,
                read_length_n50,
                bases_yield,
                mean_read_length,
                median_read_length,
                mean_pct_identity,
                median_pct_identity,
                pct_duplex_reads,
                sam_flag_counts: SamFlagCounts {
                    total: c_total,
                    mapped: c_mapped,
                    qcfail: c_qcfail,
                    duplicate: c_duplicate,
                    unmapped: c_unmapped,
                    primary: c_primary,
                    secondary: c_secondary,
                    supplementary: c_supplementary,
                },
            },
        )
    }
}

/// For every input stream, the five per-read columns stay aligned: each
/// has exactly one entry per retained record.
pub proof fn lemma_columns_aligned(records: Seq<AlignmentRecord>)
    ensures
        model_of(records).chrom_ids.len() == model_of(records).read_ids.len(),
        model_of(records).avg_quals.len() == model_of(records).read_ids.len(),
        model_of(records).lengths.len() == model_of(records).read_ids.len(),
        model_of(records).map_quals.len() == model_of(records).read_ids.len(),
        model_of(records).identities.len() == model_of(records).read_ids.len(),
        0 <= model_of(records).duplex_count <= model_of(records).classified_count,
        model_of(records).classified_count <= model_of(records).read_ids.len(),
    decreases records.len(),
{
    if records.len() > 0 {
        lemma_columns_aligned(records.drop_last());
    }
}

/// For every input stream, the flags column has one entry per record
/// seen, so it is at least as long as the per-read columns; the lengths
/// are equal exactly when no record was filtered out.
pub proof fn lemma_flags_cover(records: Seq<AlignmentRecord>)
    ensures
        model_of(records).sam_flags.len() == records.len(),
        model_of(records).read_ids.len() <= records.len(),
        (model_of(records).read_ids.len() == model_of(records).sam_flags.len()) <==> (forall|
            i: int,
        |
            0 <= i < records.len() ==> retained(#[trigger] records[i].flags)),
    decreases records.len(),
{
    if records.len() > 0 {
        let prev = records.drop_last();
        lemma_flags_cover(prev);
        assert(forall|i: int| 0 <= i < prev.len() ==> prev[i] == #[trigger] records[i]);
        let last = records.last();
        if retained(last.flags) {
            if model_of(records).read_ids.len() == model_of(records).sam_flags.len() {
                assert forall|i: int| 0 <= i < records.len() implies retained(
                    #[trigger] records[i].flags,
                ) by {
                    if i < records.len() - 1 {
                        assert(prev[i] == records[i]);
                    } else {
                        assert(records[i] == last);
                    }
                }
            }
            if forall|i: int| 0 <= i < records.len() ==> retained(#[trigger] records[i].flags) {
                assert(forall|i: int|
                    0 <= i < prev.len() ==> retained(#[trigger] prev[i].flags));
            }
        } else {
            assert(!retained(records[records.len() - 1].flags));
        }
    }
}

/// For every flags column, each record counts toward exactly one of
/// `primary` and `secondary` and exactly one of `mapped` and `unmapped`:
/// both pairs sum to the total, which is the number of records seen.
pub proof fn lemma_flag_counts_partition(s: Seq<u16>)
    ensures
        flag_tally(s).primary + flag_tally(s).secondary == flag_tally(s).total,
        flag_tally(s).mapped + flag_tally(s).unmapped == flag_tally(s).total,
        flag_tally(s).total == s.len(),
    decreases s.len(),
{
    if s.len() > 0 {
        lemma_flag_counts_partition(s.drop_last());
    }
}

/// Removing one element takes exactly its value out of the sum.
proof fn lemma_sum_u64_remove(s: Seq<u64>, i: int)
    requires
        0 <= i < s.len(),
    ensures
        sum_u64(s.remove(i)) == sum_u64(s) - s[i],
    decreases s.len(),
{
    if i == s.len() - 1 {
        assert(s.remove(i) =~= s.drop_last());
    } else {
        assert(s.remove(i).drop_last() =~= s.drop_last().remove(i));
        assert(s.remove(i).last() == s.last());
        lemma_sum_u64_remove(s.drop_last(), i);
    }
}

/// Two length columns with the same elements have the same sum.
proof fn lemma_sum_u64_permutation(a: Seq<u64>, b: Seq<u64>)
    requires
        a.to_multiset() == b.to_multiset(),
    ensures
        sum_u64(a) == sum_u64(b),
    decreases a.len(),
{
    broadcast use vstd::seq_lib::group_to_multiset_ensures;
    broadcast use vstd::multiset::group_multiset_axioms;

    if a.len() == 0 {
        assert(b.len() == b.to_multiset().len());
    } else {
        let x = a.last();
        assert(a.drop_last().push(x) =~= a);
        assert(a.to_multiset() =~= a.drop_last().to_multiset().insert(x));
        assert(b.to_multiset().count(x) > 0);
        assert(b.contains(x));
        let i = choose|i: int| 0 <= i < b.len() && b[i] == x;
        assert(b.remove(i).to_multiset() =~= b.to_multiset().remove(x));
        assert(a.drop_last().to_multiset() =~= b.remove(i).to_multiset());
        lemma_sum_u64_permutation(a.drop_last(), b.remove(i));
        lemma_sum_u64_remove(b, i);
    }
}

/// The ascending walk stops at an element of the sorted column: at the
/// first position whose cumulative sum strictly exceeds `half`, or at the
/// last element when no prefix does.
proof fn lemma_n50_walk_props(s: Seq<u64>, half: int, i: int, acc: int)
    requires
        0 <= i <= s.len(),
        s.len() > 0,
        acc == sum_u64(s.take(i)),
        i < s.len() || sum_u64(s) <= half,
    ensures
        exists|k: int|
            #![trigger s[k]]
            0 <= k < s.len() && s[k] == n50_walk(s, half, i, acc) && (sum_u64(s.take(k)) + s[k]
                > half || (k == s.len() - 1 && sum_u64(s) <= half)) && (forall|j: int|
                i <= j < k ==> sum_u64(s.take(j)) + s[j] <= half),
    decreases s.len() - i,
{
    if i == s.len() {
        let k = s.len() - 1;
        assert(s.take(i) =~= s);
        assert(s[k] == n50_walk(s, half, i, acc));
    } else if acc + s[i] > half {
        let k = i;
        assert(s[k] == n50_walk(s, half, i, acc));
    } else {
        assert(s.take(i + 1).drop_last() =~= s.take(i));
        assert(s.take(i + 1).last() == s[i]);
        if i + 1 == s.len() {
            assert(s.take(i + 1) =~= s);
        }
        lemma_n50_walk_props(s, half, i + 1, acc + s[i]);
        let k = choose|k: int|
            #![trigger s[k]]
            0 <= k < s.len() && s[k] == n50_walk(s, half, i + 1, acc + s[i]) && (sum_u64(
                s.take(k),
            ) + s[k] > half || (k == s.len() - 1 && sum_u64(s) <= half)) && (forall|j: int|
                i + 1 <= j < k ==> sum_u64(s.take(j)) + s[j] <= half);
        assert(n50_walk(s, half, i, acc) == n50_walk(s, half, i + 1, acc + s[i]));
        assert forall|j: int| i <= j < k implies sum_u64(s.take(j)) + s[j] <= half by {
            if j == i {
            }
        }
        assert(0 <= k < s.len() && s[k] == n50_walk(s, half, i, acc));
    }
}

/// The N50 law: the returned value is a member of the length column; on
/// the ascending sorted column it stands at a position from which the
/// remaining lengths cover at least half of the total, while the lengths
/// strictly after that position cover less than half (unless it is the
/// largest length).
pub proof fn lemma_n50_properties(lengths: Seq<u64>, total: u64)
    requires
        lengths.len() > 0,
        total as int == sum_u64(lengths),
    ensures
        lengths.to_multiset().contains(n50_of(lengths, total)),
        exists|k: int|
            #![trigger lengths.sort_by(u64_le())[k]]
            {
                let s = lengths.sort_by(u64_le());
                0 <= k < s.len() && s[k] == n50_of(lengths, total) && 2 * (total as int - sum_u64(
                    s.take(k),
                )) >= total as int && (k == s.len() - 1 || 2 * (total as int - sum_u64(
                    s.take(k + 1),
                )) < total as int)
            },
{
    lemma_u64_le_total_ordering();
    lengths.lemma_sort_by_ensures(u64_le());
    let s = lengths.sort_by(u64_le());
    lemma_sum_u64_permutation(lengths, s);
    assert(s.len() == lengths.len()) by {
        broadcast use vstd::seq_lib::group_to_multiset_ensures;

        assert(s.len() == s.to_multiset().len());
        assert(lengths.len() == lengths.to_multiset().len());
    }
    let half = total as int / 2;
    assert(sum_u64(s.take(0)) == 0) by {
        assert(s.take(0) =~= Seq::<u64>::empty());
    }
    lemma_n50_walk_props(s, half, 0, 0);
    let k = choose|k: int|
        #![trigger s[k]]
        0 <= k < s.len() && s[k] == n50_walk(s, half, 0, 0) && (sum_u64(s.take(k)) + s[k] > half
            || (k == s.len() - 1 && sum_u64(s) <= half)) && (forall|j: int|
            0 <= j < k ==> sum_u64(s.take(j)) + s[j] <= half);
    assert(s[k] == n50_of(lengths, total));
    assert(s.to_multiset().contains(s[k])) by {
        broadcast use vstd::seq_lib::group_to_multiset_ensures;

        assert(s.contains(s[k]));
    }
    assert(lengths.to_multiset().contains(n50_of(lengths, total)));
    assert(sum_u64(s.take(k)) <= half) by {
        if k > 0 {
            assert(sum_u64(s.take(k - 1)) + s[k - 1] <= half);
            assert(s.take(k).drop_last() =~= s.take(k - 1));
            assert(s.take(k).last() == s[k - 1]);
        } else {
            assert(s.take(0) =~= Seq::<u64>::empty());
        }
    }
    assert(2 * (total as int - sum_u64(s.take(k))) >= total as int);
    if k < s.len() - 1 {
        assert(sum_u64(s.take(k)) + s[k] > half);
        assert(s.take(k + 1).drop_last() =~= s.take(k));
        assert(s.take(k + 1).last() == s[k]);
        assert(sum_u64(s.take(k + 1)) > half);
        assert(2 * (total as int - sum_u64(s.take(k + 1))) < total as int);
    }
}

/// A record flagged both secondary and unmapped counts toward the
/// secondary and unmapped tallies, not toward primary or mapped, and is
/// excluded from every per-read column.
pub proof fn lemma_secondary_unmapped_excluded(records: Seq<AlignmentRecord>, r: AlignmentRecord)
    requires
        is_secondary(r.flags),
        is_unmapped(r.flags),
    ensures
        model_of(records.push(r)).read_ids == model_of(records).read_ids,
        model_of(records.push(r)).chrom_ids == model_of(records).chrom_ids,
        model_of(records.push(r)).avg_quals == model_of(records).avg_quals,
        model_of(records.push(r)).lengths == model_of(records).lengths,
        model_of(records.push(r)).map_quals == model_of(records).map_quals,
        model_of(records.push(r)).identities == model_of(records).identities,
        model_of(records.push(r)).sam_flags == model_of(records).sam_flags.push(r.flags),
        flag_tally(model_of(records.push(r)).sam_flags).secondary == flag_tally(
            model_of(records).sam_flags,
        ).secondary + 1,
        flag_tally(model_of(records.push(r)).sam_flags).primary == flag_tally(
            model_of(records).sam_flags,
        ).primary,
        flag_tally(model_of(records.push(r)).sam_flags).unmapped == flag_tally(
            model_of(records).sam_flags,
        ).unmapped + 1,
        flag_tally(model_of(records.push(r)).sam_flags).mapped == flag_tally(
            model_of(records).sam_flags,
        ).mapped,
{
    assert(records.push(r).drop_last() =~= records);
    assert(records.push(r).last() == r);
    assert(!retained(r.flags));
    let flags = model_of(records).sam_flags;
    assert(flags.push(r.flags).drop_last() =~= flags);
    assert(flags.push(r.flags).last() == r.flags);
}

} // verus!

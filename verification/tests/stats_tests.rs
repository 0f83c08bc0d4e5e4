use lra_stats::fixed::{ratio, round_to_digit, Fixed, SCALE};
use lra_stats::record::{
    average_read_quality, gap_compressed_identity, AlignmentRecord, AuxVal, CigarOp, StatsError,
};
use lra_stats::stats::{compute_median, compute_median_u64, compute_n50, extract};

fn fx(units: i128) -> Fixed {
    Fixed { units, is_nan: false }
}

fn record(flags: u16, dx: Option<AuxVal>, de: Option<AuxVal>, nm: Option<AuxVal>) -> AlignmentRecord {
    AlignmentRecord {
        qname: b"read".to_vec(),
        tid: 0,
        mapq: 60,
        seq_len: 2,
        quals: vec![20, 30],
        cigar: vec![CigarOp::Match(2)],
        flags,
        dx,
        de,
        nm,
    }
}

#[test]
fn rounding_truncates_not_rounds() {
    // 1.239999 rounded to 2 digits is 1.23, never 1.24.
    let v = fx(1_239_999_000);
    let r = round_to_digit(v, 2);
    assert_eq!(r, fx(1_230_000_000));
    assert_ne!(r, fx(1_240_000_000));
}

#[test]
fn rounding_truncates_toward_zero_for_negatives() {
    let r = round_to_digit(fx(-1_239_999_000), 2);
    assert_eq!(r, fx(-1_230_000_000));
}

#[test]
fn rounding_beyond_carried_digits_is_identity() {
    let v = fx(1_239_999_123);
    assert_eq!(round_to_digit(v, 9), v);
    assert_eq!(round_to_digit(v, 12), v);
}

#[test]
fn rounding_keeps_undefined_undefined() {
    let nan = Fixed::nan();
    assert!(round_to_digit(nan, 4).is_nan);
}

#[test]
fn identity_from_divergence_tag_is_percent_scale() {
    // de = 0.02 gives identity 98.0 on the 0-100 scale.
    let r = record(0, Some(AuxVal::U8(1)), Some(AuxVal::F32(fx(20_000_000))), None);
    assert_eq!(gap_compressed_identity(&r).unwrap(), fx(98 * SCALE));
}

#[test]
fn identity_from_double_precision_divergence_tag_is_percent_scale() {
    // A double-precision de is a floating-point value too: same branch.
    let r = record(0, Some(AuxVal::U8(1)), Some(AuxVal::F64(fx(20_000_000))), None);
    assert_eq!(gap_compressed_identity(&r).unwrap(), fx(98 * SCALE));
}

#[test]
fn identity_from_cigar_is_fractional_scale() {
    // matches=90, gap_size=5, gap_count=1, NM=6:
    // 1 - ((6 - 5 + 1) / (90 + 1)) = 1 - 2/91, truncated at nine digits.
    let mut r = record(0, Some(AuxVal::U8(1)), None, Some(AuxVal::U8(6)));
    r.cigar = vec![CigarOp::Match(90), CigarOp::Ins(5)];
    assert_eq!(gap_compressed_identity(&r).unwrap(), fx(978_021_979));
}

#[test]
fn identity_can_drop_below_zero_on_large_edit_distance() {
    let mut r = record(0, Some(AuxVal::U8(1)), None, Some(AuxVal::U32(1000)));
    r.cigar = vec![CigarOp::Match(10)];
    assert_eq!(gap_compressed_identity(&r).unwrap(), fx(-99 * SCALE));
}

#[test]
fn identity_without_alignment_operations_is_undefined() {
    let mut r = record(0, Some(AuxVal::U8(1)), None, Some(AuxVal::U8(0)));
    r.cigar = vec![];
    assert!(gap_compressed_identity(&r).unwrap().is_nan);
}

#[test]
fn identity_errors_on_mistyped_divergence_tag() {
    let r = record(0, Some(AuxVal::U8(1)), Some(AuxVal::U8(2)), None);
    assert_eq!(gap_compressed_identity(&r), Err(StatsError::TagTypeMismatch));
}

#[test]
fn identity_errors_on_missing_edit_distance() {
    let r = record(0, Some(AuxVal::U8(1)), None, None);
    assert_eq!(gap_compressed_identity(&r), Err(StatsError::TagMissing));
}

#[test]
fn identity_errors_on_mistyped_edit_distance() {
    let r = record(0, Some(AuxVal::U8(1)), None, Some(AuxVal::I32(5)));
    assert_eq!(gap_compressed_identity(&r), Err(StatsError::TagTypeMismatch));
}

#[test]
fn average_quality_is_plain_arithmetic_mean() {
    let r = record(0, None, None, None);
    assert_eq!(average_read_quality(&r), fx(25 * SCALE));
}

#[test]
fn average_quality_of_empty_read_is_undefined() {
    let mut r = record(0, None, None, None);
    r.quals = vec![];
    r.seq_len = 0;
    assert!(average_read_quality(&r).is_nan);
}

#[test]
fn ratio_of_zero_by_zero_is_undefined() {
    assert!(ratio(0, 0).is_nan);
}

#[test]
fn median_uses_encounter_order_not_sorted_order() {
    assert_eq!(compute_median_u64(&vec![5, 1, 3]), fx(SCALE));
    assert_eq!(compute_median_u64(&vec![4, 1]), fx(2_500_000_000));
    assert_eq!(compute_median(&vec![fx(5 * SCALE), fx(SCALE), fx(3 * SCALE)]), fx(SCALE));
    assert_eq!(compute_median(&vec![fx(3), fx(4)]), fx(3));
}

#[test]
fn n50_walks_sorted_lengths_past_half_the_total() {
    assert_eq!(compute_n50(&vec![1, 2, 3, 4, 5], 15), 4);
    assert_eq!(compute_n50(&vec![5, 4, 3, 2, 1], 15), 4);
    assert_eq!(compute_n50(&vec![7], 7), 7);
    assert_eq!(compute_n50(&vec![2, 2, 2], 6), 2);
}

#[test]
fn extract_keeps_columns_aligned_and_flags_for_all() {
    let records = vec![
        {
            let mut r = record(0, Some(AuxVal::U8(1)), Some(AuxVal::F32(fx(20_000_000))), None);
            r.qname = b"read1".to_vec();
            r.tid = 0;
            r
        },
        record(256, None, None, None),
        {
            let mut r = record(0, Some(AuxVal::U16(0)), None, Some(AuxVal::U8(6)));
            r.qname = b"read2".to_vec();
            r.tid = 1;
            r.mapq = 30;
            r.quals = vec![10];
            r.seq_len = 1;
            r.cigar = vec![CigarOp::Match(90), CigarOp::Ins(5)];
            r
        },
    ];
    let s = extract(&records).unwrap();
    assert_eq!(s.read_ids, vec!["read1".to_string(), "read2".to_string()]);
    assert_eq!(s.chrom_ids, vec![0, 1]);
    assert_eq!(s.lengths, vec![2, 1]);
    assert_eq!(s.map_quals, vec![60, 30]);
    assert_eq!(s.avg_quals, vec![fx(25 * SCALE), fx(10 * SCALE)]);
    assert_eq!(s.identities, vec![fx(98 * SCALE), fx(978_021_979)]);
    assert_eq!(s.sam_flags, vec![0, 256, 0]);
    assert_eq!(s.num_pass_duplex_reads, 1);
    assert_eq!(s.pct_duplex_reads, fx(50 * SCALE));
    // The five per-read columns stay aligned; flags cover every record.
    assert_eq!(s.read_ids.len(), s.chrom_ids.len());
    assert_eq!(s.read_ids.len(), s.avg_quals.len());
    assert_eq!(s.read_ids.len(), s.lengths.len());
    assert_eq!(s.read_ids.len(), s.map_quals.len());
    assert_eq!(s.read_ids.len(), s.identities.len());
    assert!(s.sam_flags.len() > s.read_ids.len());
}

#[test]
fn extract_without_filtering_has_equal_flag_and_column_lengths() {
    let records = vec![
        record(0, Some(AuxVal::U8(0)), Some(AuxVal::F32(fx(0))), None),
        record(0, Some(AuxVal::U8(1)), Some(AuxVal::F32(fx(0))), None),
    ];
    let s = extract(&records).unwrap();
    assert_eq!(s.sam_flags.len(), s.read_ids.len());
}

#[test]
fn extract_fails_on_missing_dx_of_retained_read() {
    let records = vec![record(0, None, Some(AuxVal::F32(fx(0))), None)];
    assert!(matches!(extract(&records), Err(StatsError::TagMissing)));
}

#[test]
fn extract_ignores_missing_tags_of_filtered_records() {
    // Unmapped record with no tags at all: filtered, so no error.
    let records = vec![record(4, None, None, None)];
    let s = extract(&records).unwrap();
    assert_eq!(s.read_ids.len(), 0);
    assert_eq!(s.sam_flags, vec![4]);
}

#[test]
fn extract_fails_on_undecodable_read_name() {
    let mut r = record(0, Some(AuxVal::U8(1)), Some(AuxVal::F32(fx(0))), None);
    r.qname = vec![0xff, 0xfe];
    assert!(matches!(extract(&vec![r]), Err(StatsError::DecodeError)));
}

#[test]
fn duplex_rate_counts_ones_and_zeros_only() {
    // dx values 1, 1, 0, 1 in mixed representations give 75.0; a fifth
    // read with dx = 5 joins neither the numerator nor the denominator.
    let de = Some(AuxVal::F32(fx(0)));
    let records = vec![
        record(0, Some(AuxVal::I8(1)), de, None),
        record(0, Some(AuxVal::U16(1)), de, None),
        record(0, Some(AuxVal::F64(fx(0))), de, None),
        record(0, Some(AuxVal::F32(Fixed::from_int(1))), de, None),
        record(0, Some(AuxVal::I32(5)), de, None),
    ];
    let s = extract(&records).unwrap();
    assert_eq!(s.num_pass_duplex_reads, 3);
    assert_eq!(s.pct_duplex_reads, fx(75 * SCALE));
}

#[test]
fn duplex_rate_is_undefined_when_nothing_classifies() {
    let de = Some(AuxVal::F32(fx(0)));
    let records = vec![
        record(0, Some(AuxVal::U8(7)), de, None),
        record(0, Some(AuxVal::Other), de, None),
    ];
    let s = extract(&records).unwrap();
    assert!(s.pct_duplex_reads.is_nan);
    let agg = s.aggregate().unwrap();
    assert!(agg.pct_duplex_reads.is_nan);
}

#[test]
fn aggregate_fails_below_two_retained_reads() {
    let one = extract(&vec![record(0, Some(AuxVal::U8(1)), Some(AuxVal::F32(fx(0))), None)])
        .unwrap();
    assert_eq!(one.aggregate(), Err(StatsError::InsufficientData));
    let zero = extract(&vec![record(4, None, None, None)]).unwrap();
    assert_eq!(zero.aggregate(), Err(StatsError::InsufficientData));
}

#[test]
fn aggregate_summarises_lengths_identities_and_flags() {
    let records = vec![
        {
            let mut r = record(0, Some(AuxVal::U8(1)), Some(AuxVal::F32(fx(20_000_000))), None);
            r.qname = b"read1".to_vec();
            r
        },
        record(256, None, None, None),
        {
            let mut r = record(0, Some(AuxVal::U16(0)), None, Some(AuxVal::U8(6)));
            r.qname = b"read2".to_vec();
            r.quals = vec![10];
            r.seq_len = 1;
            r.cigar = vec![CigarOp::Match(90), CigarOp::Ins(5)];
            r
        },
    ];
    let s = extract(&records).unwrap();
    let a = s.aggregate().unwrap();
    assert_eq!(a.num_pass_reads, 2);
    assert_eq!(a.num_pass_duplex_reads, 1);
    assert_eq!(a.bases_yield, 3);
    assert_eq!(a.read_length_n50, 2);
    assert_eq!(a.mean_read_length, fx(1_500_000_000));
    assert_eq!(a.median_read_length, fx(1_500_000_000));
    // (98.0 + 0.978021979) / 2 = 49.4890109895, truncated to 4 digits.
    assert_eq!(a.mean_pct_identity, fx(49_489_000_000));
    assert_eq!(a.median_pct_identity, fx(49_489_000_000));
    assert_eq!(a.pct_duplex_reads, fx(50 * SCALE));
    assert_eq!(a.sam_flag_counts.total, 3);
    assert_eq!(a.sam_flag_counts.secondary, 1);
    assert_eq!(a.sam_flag_counts.primary, 2);
    assert_eq!(a.sam_flag_counts.mapped, 3);
    assert_eq!(a.sam_flag_counts.unmapped, 0);
    assert_eq!(a.sam_flag_counts.qcfail, 0);
    assert_eq!(a.sam_flag_counts.duplicate, 0);
    assert_eq!(a.sam_flag_counts.supplementary, 0);
}

#[test]
fn secondary_unmapped_record_counts_once_per_pair_and_is_excluded() {
    let de = Some(AuxVal::F32(fx(0)));
    let records = vec![
        record(0, Some(AuxVal::U8(1)), de, None),
        record(256 | 4, None, None, None),
        record(0, Some(AuxVal::U8(0)), de, None),
    ];
    let s = extract(&records).unwrap();
    assert_eq!(s.read_ids.len(), 2);
    let a = s.aggregate().unwrap();
    assert_eq!(a.sam_flag_counts.total, 3);
    assert_eq!(a.sam_flag_counts.secondary, 1);
    assert_eq!(a.sam_flag_counts.unmapped, 1);
    assert_eq!(a.sam_flag_counts.primary, 2);
    assert_eq!(a.sam_flag_counts.mapped, 2);
    assert_eq!(
        a.sam_flag_counts.primary + a.sam_flag_counts.secondary,
        a.sam_flag_counts.total
    );
    assert_eq!(
        a.sam_flag_counts.mapped + a.sam_flag_counts.unmapped,
        a.sam_flag_counts.total
    );
}

#[test]
fn qcfail_duplicate_and_supplementary_bits_are_tallied() {
    let de = Some(AuxVal::F32(fx(0)));
    let records = vec![
        record(0, Some(AuxVal::U8(1)), de, None),
        record(0, Some(AuxVal::U8(0)), de, None),
        record(512, None, None, None),
        record(1024, None, None, None),
        {
            // Supplementary alignments are retained (only unmapped,
            // secondary, qcfail and duplicate are filtered).
            record(2048, Some(AuxVal::U8(0)), de, None)
        },
    ];
    let s = extract(&records).unwrap();
    assert_eq!(s.read_ids.len(), 3);
    let a = s.aggregate().unwrap();
    assert_eq!(a.sam_flag_counts.qcfail, 1);
    assert_eq!(a.sam_flag_counts.duplicate, 1);
    assert_eq!(a.sam_flag_counts.supplementary, 1);
}

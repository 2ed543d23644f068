use intergene::engine::get_intergenic_regions;
use intergene::model::GffEntry;

fn mk_entry(ftype: &str, start: i64, end: i64, strand: &str) -> GffEntry {
    GffEntry {
        seqid: "chr1".to_string(),
        source: "test".to_string(),
        ftype: ftype.to_string(),
        start,
        end,
        score: ".".to_string(),
        strand: strand.to_string(),
        phase: ".".to_string(),
        attributes: "ID=x".to_string(),
        seq: String::new(),
    }
}

#[test]
fn no_features_whole_gap() {
    let entries: Vec<GffEntry> = Vec::new();
    let gaps = get_intergenic_regions(&entries, 10, 0, ".");
    assert_eq!(gaps, vec![(0, 10)]);
}

#[test]
fn example_two_features_buffer_zero() {
    let entries = vec![mk_entry("gene", 3, 5, "+"), mk_entry("gene", 8, 9, "+")];
    let gaps = get_intergenic_regions(&entries, 10, 0, ".");
    assert_eq!(gaps, vec![(1, 2), (6, 7), (9, 10)]);
}

#[test]
fn gap_emitted_when_distance_exceeds_buffer() {
    let entries = vec![mk_entry("gene", 7, 10, "+"), mk_entry("gene", 14, 20, "+")];
    let gaps = get_intergenic_regions(&entries, 20, 3, ".");
    assert_eq!(gaps, vec![(1, 6), (11, 13)]);
}

#[test]
fn gap_suppressed_within_buffer() {
    let entries = vec![mk_entry("gene", 7, 10, "+"), mk_entry("gene", 14, 20, "+")];
    let gaps = get_intergenic_regions(&entries, 20, 6, ".");
    assert_eq!(gaps, vec![(1, 6), (10, 20)]);
}

#[test]
fn adjacency_absorbed_no_zero_length_gap() {
    let entries = vec![mk_entry("gene", 2, 4, "+"), mk_entry("gene", 5, 7, "+")];
    let gaps = get_intergenic_regions(&entries, 7, 0, ".");
    assert_eq!(gaps, vec![(1, 1)]);
}

#[test]
fn structural_types_do_not_bound_gaps() {
    let entries = vec![
        mk_entry("region", 1, 100, "+"),
        mk_entry("gene", 10, 20, "+"),
        mk_entry("sequence_feature", 30, 40, "+"),
    ];
    let gaps = get_intergenic_regions(&entries, 100, 0, ".");
    assert_eq!(gaps, vec![(1, 9), (20, 100)]);
}

#[test]
fn codon_markers_are_skipped() {
    let entries = vec![
        mk_entry("start_codon", 1, 3, "+"),
        mk_entry("gene", 10, 20, "+"),
        mk_entry("stop_codon", 21, 23, "+"),
    ];
    let gaps = get_intergenic_regions(&entries, 30, 0, ".");
    assert_eq!(gaps, vec![(1, 9), (20, 30)]);
}

#[test]
fn stranded_runs_filter_features() {
    let entries = vec![mk_entry("gene", 3, 5, "+"), mk_entry("gene", 8, 9, "-")];
    let plus = get_intergenic_regions(&entries, 10, 0, "+");
    assert_eq!(plus, vec![(1, 2), (5, 10)]);
    let minus = get_intergenic_regions(&entries, 10, 0, "-");
    assert_eq!(minus, vec![(1, 7), (9, 10)]);
}

#[test]
fn unspecified_strand_kept_in_both_runs() {
    let entries = vec![mk_entry("gene", 3, 5, ".")];
    let plus = get_intergenic_regions(&entries, 10, 0, "+");
    let minus = get_intergenic_regions(&entries, 10, 0, "-");
    assert_eq!(plus, minus);
    assert_eq!(plus, vec![(1, 2), (5, 10)]);
}

#[test]
fn first_feature_at_position_one_sets_boundary() {
    let entries = vec![mk_entry("gene", 1, 5, "+")];
    let gaps = get_intergenic_regions(&entries, 10, 0, ".");
    assert_eq!(gaps, vec![(5, 10)]);
}

#[test]
fn trailing_gap_absent_when_feature_reaches_end() {
    let entries = vec![mk_entry("gene", 1, 4, "+"), mk_entry("gene", 5, 10, "+")];
    let gaps = get_intergenic_regions(&entries, 10, 0, ".");
    assert_eq!(gaps, Vec::<(i64, i64)>::new());
}

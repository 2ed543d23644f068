use intergene::engine::get_intergenic_regions;
use intergene::extract::add_seq_to_entries;
use intergene::format::{format_fasta, format_gff, type_present};
use intergene::merge::{merge_and_sort, SortKey};
use intergene::model::{GffEntry, GffError};
use intergene::synth::{create_intergenic_entries, intergenic_entries_for};

fn entry_of(ftype: &str, start: i64, end: i64, strand: &str, attributes: &str) -> GffEntry {
    GffEntry {
        seqid: "chr1".to_string(),
        source: "src".to_string(),
        ftype: ftype.to_string(),
        start,
        end,
        score: ".".to_string(),
        strand: strand.to_string(),
        phase: ".".to_string(),
        attributes: attributes.to_string(),
        seq: String::new(),
    }
}

#[test]
fn synthesized_entries_have_deterministic_identifiers() {
    let gaps = vec![(1, 2), (6, 7)];
    let entries = create_intergenic_entries(&gaps, "chr1", "+", 1);
    assert_eq!(entries.len(), 2);
    assert_eq!(entries[0].seqid, "chr1");
    assert_eq!(entries[0].source, "intergene-finder");
    assert_eq!(entries[0].ftype, "intergenic");
    assert_eq!(entries[0].start, 1);
    assert_eq!(entries[0].end, 2);
    assert_eq!(entries[0].score, ".");
    assert_eq!(entries[0].strand, "+");
    assert_eq!(entries[0].phase, ".");
    assert_eq!(
        entries[0].attributes,
        "ID=IGR_1(+);Name=INTERGENIC_1(+);locus_tag=INTERGENIC_1(+)"
    );
    assert_eq!(
        entries[1].attributes,
        "ID=IGR_2(+);Name=INTERGENIC_2(+);locus_tag=INTERGENIC_2(+)"
    );
    assert_eq!(entries[1].seq, "");
}

#[test]
fn counter_restarts_where_the_caller_says() {
    let gaps = vec![(4, 5)];
    let entries = create_intergenic_entries(&gaps, "chr1", "-", 7);
    assert_eq!(
        entries[0].attributes,
        "ID=IGR_7(-);Name=INTERGENIC_7(-);locus_tag=INTERGENIC_7(-)"
    );
}

#[test]
fn stranded_synthesis_keeps_both_strands() {
    let features = vec![entry_of("gene", 3, 5, "+", "a"), entry_of("gene", 8, 9, "-", "b")];
    let synthetic = intergenic_entries_for(&features, "chr1", 10, 0, true);
    let strands: Vec<&str> = synthetic.iter().map(|e| e.strand.as_str()).collect();
    assert_eq!(strands, vec!["+", "+", "-", "-"]);
    assert!(synthetic[0].attributes.contains("IGR_1(+)"));
    assert!(synthetic[2].attributes.contains("IGR_1(-)"));
    let spans: Vec<(i64, i64)> = synthetic.iter().map(|e| (e.start, e.end)).collect();
    assert_eq!(spans, vec![(1, 2), (5, 10), (1, 7), (9, 10)]);
}

#[test]
fn unstranded_synthesis_tags_with_dot() {
    let features = vec![entry_of("gene", 3, 5, "+", "a")];
    let synthetic = intergenic_entries_for(&features, "chr1", 10, 0, false);
    assert_eq!(synthetic.len(), 2);
    assert_eq!(synthetic[0].strand, ".");
}

#[test]
fn merge_orders_by_end_key() {
    let a = vec![entry_of("gene", 1, 5, "+", "a"), entry_of("gene", 6, 2, "+", "b")];
    let b = vec![entry_of("intergenic", 3, 9, ".", "c"), entry_of("intergenic", 2, 1, ".", "d")];
    let merged = merge_and_sort(&a, &b, SortKey::End);
    let ends: Vec<i64> = merged.iter().map(|e| e.end).collect();
    assert_eq!(ends, vec![1, 2, 5, 9]);
    assert_eq!(merged.len(), 4);
}

#[test]
fn merge_orders_by_start_key() {
    let a = vec![entry_of("gene", 9, 10, "+", "a"), entry_of("gene", 4, 6, "+", "b")];
    let b = vec![entry_of("intergenic", 7, 8, ".", "c")];
    let merged = merge_and_sort(&a, &b, SortKey::Start);
    let starts: Vec<i64> = merged.iter().map(|e| e.start).collect();
    assert_eq!(starts, vec![4, 7, 9]);
}

#[test]
fn add_seq_replaces_only_the_sequence() {
    let mut e = entry_of("gene", 1, 4, "+", "a");
    e.add_seq("ACGT".to_string());
    assert_eq!(e.seq, "ACGT");
    e.add_seq("TT".to_string());
    assert_eq!(e.seq, "TT");
    assert_eq!(e.start, 1);
    assert_eq!(e.attributes, "a");
}

#[test]
fn extraction_attaches_subsequences() {
    let mut entries = vec![entry_of("gene", 1, 4, "+", "a"), entry_of("gene", 5, 10, "+", "b")];
    let reference = "ACGTACGTAC";
    let out = add_seq_to_entries(&mut entries, reference).unwrap();
    assert_eq!(out[0].seq, "ACGT");
    assert_eq!(out[1].seq, "ACGTAC");
    assert_eq!(entries[0].seq, "ACGT");
    assert_eq!(entries[1].seq, "ACGTAC");
    assert_eq!(entries[0].attributes, "a");
}

#[test]
fn extraction_rejects_out_of_range_span() {
    let mut entries = vec![entry_of("gene", 5, 11, "+", "a")];
    let err = add_seq_to_entries(&mut entries, "ACGTACGTAC").unwrap_err();
    assert_eq!(err, GffError::OutOfRange(5, 11));
    assert_eq!(entries[0].seq, "");
}

#[test]
fn extraction_rejects_start_below_one() {
    let mut entries = vec![entry_of("intergenic", 0, 3, ".", "a")];
    let err = add_seq_to_entries(&mut entries, "ACGTACGTAC").unwrap_err();
    assert_eq!(err, GffError::OutOfRange(0, 3));
}

#[test]
fn covering_set_round_trips_reference() {
    let reference = "ACGTACGTAC";
    let features = vec![entry_of("gene", 1, 4, "+", "a"), entry_of("gene", 8, 10, "+", "b")];
    let gaps = get_intergenic_regions(&features, 10, 0, ".");
    assert_eq!(gaps, vec![(5, 7)]);
    let synthetic = create_intergenic_entries(&gaps, "chr1", ".", 1);
    let mut merged = merge_and_sort(&features, &synthetic, SortKey::Start);
    let out = add_seq_to_entries(&mut merged, reference).unwrap();
    let rebuilt: String = out.iter().map(|e| e.seq.as_str()).collect::<Vec<&str>>().concat();
    assert_eq!(rebuilt, reference);
}

#[test]
fn format_gff_serializes_nine_columns() {
    let text = "#h\nchr1\tsrc\tgene\t3\t5\t.\t+\t.\tID=g1\n";
    let gff = intergene::parse::parse_gff(text).unwrap();
    let out = format_gff(&gff.header, &gff.entries);
    assert_eq!(out, "#h\n\nchr1\tsrc\tgene\t3\t5\t.\t+\t.\tID=g1\n");
}

#[test]
fn format_fasta_emits_blocks_for_requested_type() {
    let mut e = entry_of("intergenic", 1, 4, ".", "ID=IGR_1(.)");
    e.seq = "ACGT".to_string();
    let other = entry_of("gene", 5, 8, "+", "ID=g1");
    let entries = vec![e, other];
    let out = format_fasta(&entries, "intergenic");
    assert_eq!(out, ">ID=IGR_1(.) length: 4\nACGT\n");
}

#[test]
fn format_fasta_wraps_at_eighty_columns() {
    let mut e = entry_of("intergenic", 1, 100, ".", "x");
    e.seq = "A".repeat(100);
    let entries = vec![e];
    let out = format_fasta(&entries, "intergenic");
    let expected = format!(">x length: 100\n{}\n{}\n", "A".repeat(80), "A".repeat(20));
    assert_eq!(out, expected);
}

#[test]
fn absent_type_yields_empty_output_not_failure() {
    let entries = vec![entry_of("gene", 1, 4, "+", "a")];
    assert!(!type_present(&entries, "intergenic"));
    let out = format_fasta(&entries, "intergenic");
    assert_eq!(out, "");
}

#[test]
fn requested_type_present_is_detected() {
    let entries = vec![entry_of("gene", 1, 4, "+", "a")];
    assert!(type_present(&entries, "gene"));
}

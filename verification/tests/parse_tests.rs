use intergene::model::GffError;
use intergene::parse::{parse_fasta, parse_gff};
use intergene::strutil::{i64_to_string, parse_i64, str_eq, u64_to_string};

#[test]
fn parse_gff_basic() {
    let text = "##gff-version 3\n#made up\nchr1\tsrc\tgene\t3\t5\t.\t+\t.\tID=g1\nchr1\tsrc\tgene\t8\t9\t.\t-\t0\tID=g2\n";
    let gff = parse_gff(text).unwrap();
    assert_eq!(gff.header, "##gff-version 3\n#made up\n");
    assert_eq!(gff.entries.len(), 2);
    assert_eq!(gff.entries[0].seqid, "chr1");
    assert_eq!(gff.entries[0].source, "src");
    assert_eq!(gff.entries[0].ftype, "gene");
    assert_eq!(gff.entries[0].start, 3);
    assert_eq!(gff.entries[0].end, 5);
    assert_eq!(gff.entries[0].score, ".");
    assert_eq!(gff.entries[0].strand, "+");
    assert_eq!(gff.entries[0].phase, ".");
    assert_eq!(gff.entries[0].attributes, "ID=g1");
    assert_eq!(gff.entries[0].seq, "");
    assert_eq!(gff.entries[1].strand, "-");
    assert_eq!(gff.entries[1].start, 8);
}

#[test]
fn parse_gff_mid_file_comments_skipped() {
    let text = "#h\nchr1\ts\tgene\t1\t2\t.\t+\t.\ta\n#note\nchr1\ts\tgene\t4\t6\t.\t+\t.\tb\n";
    let gff = parse_gff(text).unwrap();
    assert_eq!(gff.header, "#h\n");
    assert_eq!(gff.entries.len(), 2);
    assert_eq!(gff.entries[1].attributes, "b");
}

#[test]
fn parse_gff_column_mismatch() {
    let text = "chr1\tsrc\tgene\t3\t5\t.\t+\t.\n";
    assert_eq!(parse_gff(text).unwrap_err(), GffError::ColumnMismatch);
}

#[test]
fn parse_gff_numeric_failure() {
    let text = "chr1\tsrc\tgene\tthree\t5\t.\t+\t.\tID=g1\n";
    assert_eq!(parse_gff(text).unwrap_err(), GffError::NumericParseFailure);
}

#[test]
fn parse_gff_first_error_wins() {
    let text = "a\tb\n chr1\tsrc\tgene\tx\t5\t.\t+\t.\tID=g1\n";
    assert_eq!(parse_gff(text).unwrap_err(), GffError::ColumnMismatch);
}

#[test]
fn parse_gff_empty_text() {
    let gff = parse_gff("").unwrap();
    assert_eq!(gff.header, "");
    assert_eq!(gff.entries.len(), 0);
}

#[test]
fn parse_fasta_two_records() {
    let text = ">chr1 first\nACGT\nACG\n>chr2 second\nTTTT\n";
    let records = parse_fasta(text);
    assert_eq!(records.len(), 2);
    assert_eq!(records[0].header, ">chr1 first");
    assert_eq!(records[0].seq, "ACGTACG");
    assert_eq!(records[1].header, ">chr2 second");
    assert_eq!(records[1].seq, "TTTT");
}

#[test]
fn parse_fasta_without_marker() {
    let records = parse_fasta("ACGT\nGG");
    assert_eq!(records.len(), 1);
    assert_eq!(records[0].header, "");
    assert_eq!(records[0].seq, "ACGTGG");
}

#[test]
fn parse_fasta_empty_text_yields_one_empty_record() {
    let records = parse_fasta("");
    assert_eq!(records.len(), 1);
    assert_eq!(records[0].header, "");
    assert_eq!(records[0].seq, "");
}

#[test]
fn parse_i64_accepts_plain_and_negative() {
    assert_eq!(parse_i64("123"), Some(123));
    assert_eq!(parse_i64("-42"), Some(-42));
    assert_eq!(parse_i64("0"), Some(0));
    assert_eq!(parse_i64("9223372036854775807"), Some(i64::MAX));
    assert_eq!(parse_i64("-9223372036854775808"), Some(i64::MIN));
}

#[test]
fn parse_i64_rejects_malformed() {
    assert_eq!(parse_i64(""), None);
    assert_eq!(parse_i64("-"), None);
    assert_eq!(parse_i64("12x"), None);
    assert_eq!(parse_i64("abc"), None);
    assert_eq!(parse_i64("9223372036854775808"), None);
    assert_eq!(parse_i64("-9223372036854775809"), None);
}

#[test]
fn integer_formatting_round_trip() {
    assert_eq!(u64_to_string(0), "0");
    assert_eq!(u64_to_string(1234), "1234");
    assert_eq!(i64_to_string(-56), "-56");
    assert_eq!(i64_to_string(10), "10");
    assert_eq!(i64_to_string(i64::MIN), "-9223372036854775808");
}

#[test]
fn str_eq_compares_contents() {
    assert!(str_eq("abc", "abc"));
    assert!(!str_eq("abc", "abd"));
    assert!(!str_eq("abc", "ab"));
    assert!(str_eq("", ""));
}

use intergene::depth::{
    add_name_to_depth, format_depths, parse_bed, parse_depths, BedRegion, DepthError, DepthInfo,
};

fn region(start: i64, end: i64, name: &str) -> BedRegion {
    BedRegion {
        chromosome: "chr1".to_string(),
        start,
        end,
        name: name.to_string(),
    }
}

fn depth_at(basenumber: i64, reads: i64) -> DepthInfo {
    DepthInfo {
        chromosome: "chr1".to_string(),
        basenumber,
        reads,
        name: String::new(),
    }
}

#[test]
fn parse_bed_basic() {
    let regions = parse_bed("chr1\t1\t5\ttrnA\nchr1\t6\t10\ttrnB\n").unwrap();
    assert_eq!(regions.len(), 2);
    assert_eq!(regions[0].chromosome, "chr1");
    assert_eq!(regions[0].start, 1);
    assert_eq!(regions[0].end, 5);
    assert_eq!(regions[0].name, "trnA");
    assert_eq!(regions[1].name, "trnB");
}

#[test]
fn parse_bed_rejects_wrong_column_count() {
    assert_eq!(parse_bed("chr1\t1\t5\n").unwrap_err(), DepthError::ColumnMismatch);
    assert_eq!(
        parse_bed("chr1\t1\t5\ttrnA\textra\n").unwrap_err(),
        DepthError::ColumnMismatch
    );
}

#[test]
fn parse_bed_rejects_bad_coordinates() {
    assert_eq!(
        parse_bed("chr1\tone\t5\ttrnA\n").unwrap_err(),
        DepthError::NumericParseFailure
    );
}

#[test]
fn parse_depths_basic() {
    let depths = parse_depths("chr1\t1\t12\nchr1\t2\t30\n").unwrap();
    assert_eq!(depths.len(), 2);
    assert_eq!(depths[0].basenumber, 1);
    assert_eq!(depths[0].reads, 12);
    assert_eq!(depths[0].name, "");
    assert_eq!(depths[1].reads, 30);
}

#[test]
fn parse_depths_ignores_extra_columns() {
    let depths = parse_depths("chr1\t7\t3\tnote\n").unwrap();
    assert_eq!(depths.len(), 1);
    assert_eq!(depths[0].basenumber, 7);
}

#[test]
fn parse_depths_rejects_short_lines() {
    assert_eq!(parse_depths("chr1\t7\n").unwrap_err(), DepthError::ColumnMismatch);
}

#[test]
fn forward_scan_names_positions() {
    let beds = vec![region(1, 5, "a"), region(6, 10, "b")];
    let mut depths = vec![depth_at(1, 3), depth_at(5, 4), depth_at(6, 5), depth_at(9, 6)];
    add_name_to_depth(&mut depths, &beds);
    let names: Vec<&str> = depths.iter().map(|d| d.name.as_str()).collect();
    assert_eq!(names, vec!["a", "a", "b", "b"]);
}

#[test]
fn forward_scan_sticks_to_last_region() {
    let beds = vec![region(1, 5, "a"), region(6, 10, "b")];
    let mut depths = vec![depth_at(100, 1), depth_at(200, 2)];
    add_name_to_depth(&mut depths, &beds);
    assert_eq!(depths[0].name, "b");
    assert_eq!(depths[1].name, "b");
}

#[test]
fn depth_info_add_name_appends() {
    let mut d = depth_at(1, 1);
    d.add_name("trn");
    d.add_name("A");
    assert_eq!(d.name, "trnA");
}

#[test]
fn format_depths_four_columns() {
    let mut depths = vec![depth_at(3, 17)];
    depths[0].name = "trnA".to_string();
    let out = format_depths(&depths);
    assert_eq!(out, "chr1\t3\t17\ttrnA\n");
}

//! Depth annotation: name each base position of a depth listing after the
//! bed-style region it falls in, by a single forward scan over a sorted
//! region list.

use vstd::prelude::*;
use vstd::string::StringExecFns;
use crate::strutil::{int_rep, i64_to_string, lines_spec, parse_i64, parse_i64_spec, push_char, split_lines, split_on, split_seq};

verus! {

/// Errors of the depth and region parsers: a line with the wrong number of
/// tab-separated columns, or a non-integer numeric column.
#[derive(Debug, Clone, Copy, PartialEq, Eq, Structural)]
pub enum DepthError {
    ColumnMismatch,
    NumericParseFailure,
}

/// One bed-style region: a named coordinate range on a chromosome.
#[derive(Debug, Clone)]
pub struct BedRegion {
    pub chromosome: String,
    pub start: i64,
    pub end: i64,
    pub name: String,
}

/// Mathematical view of a `BedRegion`.
pub ghost struct BedRegionV {
    pub chromosome: Seq<char>,
    pub start: int,
    pub end: int,
    pub name: Seq<char>,
}

impl View for BedRegion {
    type V = BedRegionV;

    open spec fn view(&self) -> BedRegionV {
        BedRegionV {
            chromosome: self.chromosome@,
            start: self.start as int,
            end: self.end as int,
            name: self.name@,
        }
    }
}

impl DeepView for BedRegion {
    type V = BedRegionV;

    open spec fn deep_view(&self) -> BedRegionV {
        self.view()
    }
}

/// One line of a depth listing: a base position with its read count, plus
/// the region name filled in by the scan (empty until then).
#[derive(Debug, Clone)]
pub struct DepthInfo {
    pub chromosome: String,
    pub basenumber: i64,
    pub reads: i64,
    pub name: String,
}

/// Mathematical view of a `DepthInfo`.
pub ghost struct DepthInfoV {
    pub chromosome: Seq<char>,
    pub basenumber: int,
    pub reads: int,
    pub name: Seq<char>,
}

impl View for DepthInfo {
    type V = DepthInfoV;

    open spec fn view(&self) -> DepthInfoV {
        DepthInfoV {
            chromosome: self.chromosome@,
            basenumber: self.basenumber as int,
            reads: self.reads as int,
            name: self.name@,
        }
    }
}

impl DeepView for DepthInfo {
    type V = DepthInfoV;

    open spec fn deep_view(&self) -> DepthInfoV {
        self.view()
    }
}

impl DepthInfo {
    /// Append to the position's region name; every other field is
    /// unchanged.
    pub fn add_name(&mut self, name: &str)
        ensures
            final(self)@ == (DepthInfoV { name: old(self)@.name + name@, ..old(self)@ }),
    {
        self.name.append(name);
    }
}

/// What one bed line must parse to: exactly four tab-separated columns with
/// integer coordinates in the middle two.
pub open spec fn bed_line_record(line: Seq<char>) -> Result<BedRegionV, DepthError> {
    let f = split_seq(line, '\t');
    if f.len() != 4 {
        Err(DepthError::ColumnMismatch)
    } else {
        match (parse_i64_spec(f[1]), parse_i64_spec(f[2])) {
            (Some(s), Some(e)) => Ok(
                BedRegionV { chromosome: f[0], start: s as int, end: e as int, name: f[3] },
            ),
            _ => Err(DepthError::NumericParseFailure),
        }
    }
}

/// The regions of the given lines, in order; the first ill-formed line's
/// error aborts the parse.
pub open spec fn bed_records_spec(ls: Seq<Seq<char>>) -> Result<Seq<BedRegionV>, DepthError>
    decreases ls.len(),
{
    if ls.len() == 0 {
        Ok(Seq::empty())
    } else {
        match bed_line_record(ls[0]) {
            Ok(r) => match bed_records_spec(ls.drop_first()) {
                Ok(rest) => Ok(seq![r] + rest),
                Err(e) => Err(e),
            },
            Err(e) => Err(e),
        }
    }
}

pub open spec fn parse_bed_spec(text: Seq<char>) -> Result<Seq<BedRegionV>, DepthError> {
    bed_records_spec(lines_spec(text))
}

fn parse_bed_line(line: &str) -> (r: Result<BedRegion, DepthError>)
    ensures
        match r {
            Ok(b) => bed_line_record(line@) == Ok::<BedRegionV, DepthError>(b@),
            Err(e) => bed_line_record(line@) == Err::<BedRegionV, DepthError>(e),
        },
{
    let fields = split_on(line, '\t');
    if fields.len() != 4 {
        return Err(DepthError::ColumnMismatch);
    }
    proof {
        assert(forall|k: int| 0 <= k < 4 ==> fields.deep_view()[k] == #[trigger] fields@[k]@);
    }
    let start = match parse_i64(fields[1].as_str()) {
        Some(v) => v,
        None => {
            return Err(DepthError::NumericParseFailure);
        },
    };
    let end = match parse_i64(fields[2].as_str()) {
        Some(v) => v,
        None => {
            return Err(DepthError::NumericParseFailure);
        },
    };
    Ok(
        BedRegion {
            chromosome: fields[0].clone(),
            start,
            end,
            name: fields[3].clone(),
        },
    )
}

/// Parse bed-style region text: every line must hold exactly four
/// tab-separated columns — chromosome, start, end, name — with integer
/// coordinates. The first ill-formed line aborts the parse with its error.
pub fn parse_bed(text: &str) -> (r: Result<Vec<BedRegion>, DepthError>)
    ensures
        match r {
            Ok(bs) => parse_bed_spec(text@) == Ok::<Seq<BedRegionV>, DepthError>(bs.deep_view()),
            Err(e) => parse_bed_spec(text@) == Err::<Seq<BedRegionV>, DepthError>(e),
        },
{
    let lines = split_lines(text);
    let ghost ls = lines_spec(text@);
    proof {
        assert(lines.deep_view() == ls);
        assert(forall|j: int| 0 <= j < ls.len() ==> ls[j] == #[trigger] lines@[j]@);
    }
    let n = lines.len();
    let mut out: Vec<BedRegion> = Vec::new();
    let mut k: usize = 0;
    proof {
        assert(ls.subrange(0, n as int) =~= ls);
        match bed_records_spec(ls) {
            Ok(rest) => {
                assert(out.deep_view() + rest =~= rest);
            },
            Err(_) => {},
        }
    }
    while k < n
        invariant
            0 <= k <= n,
            n == ls.len(),
            ls == lines.deep_view(),
            ls == lines_spec(text@),
            forall|j: int| 0 <= j < ls.len() ==> ls[j] == #[trigger] lines@[j]@,
            ({
                let suffix = bed_records_spec(ls.subrange(k as int, n as int));
                match suffix {
                    Ok(rest) => bed_records_spec(ls) == Ok::<Seq<BedRegionV>, DepthError>(
                        out.deep_view() + rest,
                    ),
                    Err(e) => bed_records_spec(ls) == Err::<Seq<BedRegionV>, DepthError>(e),
                }
            }),
        decreases n - k,
    {
        let ghost suffix = ls.subrange(k as int, n as int);
        proof {
            assert(suffix[0] == ls[k as int]);
            assert(suffix.drop_first() =~= ls.subrange(k as int + 1, n as int));
        }
        match parse_bed_line(lines[k].as_str()) {
            Ok(b) => {
                let ghost before = out.deep_view();
                out.push(b);
                proof {
                    assert(out.deep_view() =~= before.push(b@));
                    match bed_records_spec(ls.subrange(k as int + 1, n as int)) {
                        Ok(rest) => {
                            assert(before + (seq![b@] + rest) =~= out.deep_view() + rest);
                        },
                        Err(_) => {},
                    }
                }
            },
            Err(e) => {
                return Err(e);
            },
        }
        k = k + 1;
    }
    proof {
        assert(ls.subrange(n as int, n as int) =~= Seq::<Seq<char>>::empty());
        assert(out.deep_view() + Seq::<BedRegionV>::empty() =~= out.deep_view());
    }
    Ok(out)
}

/// What one depth line must parse to: at least three tab-separated columns
/// — chromosome, base position, read count — with integer values in the
/// second and third; further columns are ignored. The name starts empty.
pub open spec fn depth_line_record(line: Seq<char>) -> Result<DepthInfoV, DepthError> {
    let f = split_seq(line, '\t');
    if f.len() < 3 {
        Err(DepthError::ColumnMismatch)
    } else {
        match (parse_i64_spec(f[1]), parse_i64_spec(f[2])) {
            (Some(b), Some(d)) => Ok(
                DepthInfoV {
                    chromosome: f[0],
                    basenumber: b as int,
                    reads: d as int,
                    name: Seq::empty(),
                },
            ),
            _ => Err(DepthError::NumericParseFailure),
        }
    }
}

/// The depth records of the given lines, in order; the first ill-formed
/// line's error aborts the parse.
pub open spec fn depth_records_spec(ls: Seq<Seq<char>>) -> Result<Seq<DepthInfoV>, DepthError>
    decreases ls.len(),
{
    if ls.len() == 0 {
        Ok(Seq::empty())
    } else {
        match depth_line_record(ls[0]) {
            Ok(r) => match depth_records_spec(ls.drop_first()) {
                Ok(rest) => Ok(seq![r] + rest),
                Err(e) => Err(e),
            },
            Err(e) => Err(e),
        }
    }
}

pub open spec fn parse_depths_spec(text: Seq<char>) -> Result<Seq<DepthInfoV>, DepthError> {
    depth_records_spec(lines_spec(text))
}

fn parse_depth_line(line: &str) -> (r: Result<DepthInfo, DepthError>)
    ensures
        match r {
            Ok(d) => depth_line_record(line@) == Ok::<DepthInfoV, DepthError>(d@),
            Err(e) => depth_line_record(line@) == Err::<DepthInfoV, DepthError>(e),
        },
{
    let fields = split_on(line, '\t');
    if fields.len() < 3 {
        return Err(DepthError::ColumnMismatch);
    }
    proof {
        assert(forall|k: int| 0 <= k < 3 ==> fields.deep_view()[k] == #[trigger] fields@[k]@);
    }
    let basenumber = match parse_i64(fields[1].as_str()) {
        Some(v) => v,
        None => {
            return Err(DepthError::NumericParseFailure);
        },
    };
    let reads = match parse_i64(fields[2].as_str()) {
        Some(v) => v,
        None => {
            return Err(DepthError::NumericParseFailure);
        },
    };
    Ok(
        DepthInfo {
            chromosome: fields[0].clone(),
            basenumber,
            reads,
            name: String::new(),
        },
    )
}

/// Parse depth-listing text: each line holds a chromosome, an integer base
/// position and an integer read count, tab-separated; further columns are
/// ignored. The first ill-formed line aborts the parse with its error.
pub fn parse_depths(text: &str) -> (r: Result<Vec<DepthInfo>, DepthError>)
    ensures
        match r {
            Ok(ds) => parse_depths_spec(text@) == Ok::<Seq<DepthInfoV>, DepthError>(
                ds.deep_view(),
            ),
            Err(e) => parse_depths_spec(text@) == Err::<Seq<DepthInfoV>, DepthError>(e),
        },
{
    let lines = split_lines(text);
    let ghost ls = lines_spec(text@);
    proof {
        assert(lines.deep_view() == ls);
        assert(forall|j: int| 0 <= j < ls.len() ==> ls[j] == #[trigger] lines@[j]@);
    }
    let n = lines.len();
    let mut out: Vec<DepthInfo> = Vec::new();
    let mut k: usize = 0;
    proof {
        assert(ls.subrange(0, n as int) =~= ls);
        match depth_records_spec(ls) {
            Ok(rest) => {
                assert(out.deep_view() + rest =~= rest);
            },
            Err(_) => {},
        }
    }
    while k < n
        invariant
            0 <= k <= n,
            n == ls.len(),
            ls == lines.deep_view(),
            ls == lines_spec(text@),
            forall|j: int| 0 <= j < ls.len() ==> ls[j] == #[trigger] lines@[j]@,
            ({
                let suffix = depth_records_spec(ls.subrange(k as int, n as int));
                match suffix {
                    Ok(rest) => depth_records_spec(ls) == Ok::<Seq<DepthInfoV>, DepthError>(
                        out.deep_view() + rest,
                    ),
                    Err(e) => depth_records_spec(ls) == Err::<Seq<DepthInfoV>, DepthError>(e),
                }
            }),
        decreases n - k,
    {
        let ghost suffix = ls.subrange(k as int, n as int);
        proof {
            assert(suffix[0] == ls[k as int]);
            assert(suffix.drop_first() =~= ls.subrange(k as int + 1, n as int));
        }
        match parse_depth_line(lines[k].as_str()) {
            Ok(d) => {
                let ghost before = out.deep_view();
                out.push(d);
                proof {
                    assert(out.deep_view() =~= before.push(d@));
                    match depth_records_spec(ls.subrange(k as int + 1, n as int)) {
                        Ok(rest) => {
                            assert(before + (seq![d@] + rest) =~= out.deep_view() + rest);
                        },
                        Err(_) => {},
                    }
                }
            },
            Err(e) => {
                return Err(e);
            },
        }
        k = k + 1;
    }
    proof {
        assert(ls.subrange(n as int, n as int) =~= Seq::<Seq<char>>::empty());
        assert(out.deep_view() + Seq::<DepthInfoV>::empty() =~= out.deep_view());
    }
    Ok(out)
}

/// A depth record renamed after a region.
pub open spec fn named(d: DepthInfoV, name: Seq<char>) -> DepthInfoV {
    DepthInfoV { name, ..d }
}

/// The forward scan: each position whose base number still lies at or
/// before the current region's end takes that region's name; otherwise the
/// scan advances one region (staying on the last) and the position takes
/// the new region's name.
pub open spec fn assign_names(ds: Seq<DepthInfoV>, beds: Seq<BedRegionV>, idx: int) -> Seq<
    DepthInfoV,
>
    decreases ds.len(),
{
    if ds.len() == 0 {
        Seq::empty()
    } else if ds[0].basenumber <= beds[idx].end {
        seq![named(ds[0], beds[idx].name)] + assign_names(ds.drop_first(), beds, idx)
    } else {
        let idx2 = if idx < beds.len() - 1 {
            idx + 1
        } else {
            idx
        };
        seq![named(ds[0], beds[idx2].name)] + assign_names(ds.drop_first(), beds, idx2)
    }
}

/// Name every depth position after the region the forward scan pairs it
/// with. Both the depth listing and the region list are assumed sorted by
/// position; the region list must not be empty.
pub fn add_name_to_depth(depths: &mut Vec<DepthInfo>, bed_regions: &Vec<BedRegion>)
    requires
        bed_regions@.len() > 0,
    ensures
        final(depths).deep_view() == assign_names(
            old(depths).deep_view(),
            bed_regions.deep_view(),
            0,
        ),
{
    let ghost dv = depths.deep_view();
    let ghost bv = bed_regions.deep_view();
    let n = depths.len();
    let mut out: Vec<DepthInfo> = Vec::new();
    let mut idx: usize = 0;
    let mut i: usize = 0;
    proof {
        assert(dv.subrange(0, n as int) =~= dv);
        assert(out.deep_view() + assign_names(dv, bv, 0) =~= assign_names(dv, bv, 0));
    }
    while i < n
        invariant
            0 <= i <= n,
            0 <= idx < bv.len(),
            n == dv.len(),
            dv == depths.deep_view(),
            bv == bed_regions.deep_view(),
            depths == old(depths),
            assign_names(dv, bv, 0) == out.deep_view() + assign_names(
                dv.subrange(i as int, n as int),
                bv,
                idx as int,
            ),
        decreases n - i,
    {
        let ghost suffix = dv.subrange(i as int, n as int);
        proof {
            assert(suffix[0] == dv[i as int]);
            assert(suffix.drop_first() =~= dv.subrange(i as int + 1, n as int));
        }
        let d = &depths[i];
        proof {
            assert(dv[i as int] == d@);
        }
        if !(d.basenumber <= bed_regions[idx].end) {
            if idx < bed_regions.len() - 1 {
                idx = idx + 1;
            }
        }
        let renamed = DepthInfo {
            chromosome: d.chromosome.clone(),
            basenumber: d.basenumber,
            reads: d.reads,
            name: bed_regions[idx].name.clone(),
        };
        let ghost before = out.deep_view();
        out.push(renamed);
        proof {
            assert(out.deep_view() =~= before.push(named(dv[i as int], bv[idx as int].name)));
            assert(assign_names(dv, bv, 0) == out.deep_view() + assign_names(
                dv.subrange(i as int + 1, n as int),
                bv,
                idx as int,
            ));
        }
        i = i + 1;
    }
    proof {
        assert(dv.subrange(n as int, n as int) =~= Seq::<DepthInfoV>::empty());
        assert(out.deep_view() + Seq::<DepthInfoV>::empty() =~= out.deep_view());
    }
    *depths = out;
}

/// One depth record as a four-column tab-separated line.
pub open spec fn depth_line(d: DepthInfoV) -> Seq<char> {
    d.chromosome + seq!['\t'] + int_rep(d.basenumber) + seq!['\t'] + int_rep(d.reads)
        + seq!['\t'] + d.name
}

/// The depth lines in order, each ended by a line break.
pub open spec fn depth_lines(ds: Seq<DepthInfoV>) -> Seq<char>
    decreases ds.len(),
{
    if ds.len() == 0 {
        Seq::empty()
    } else {
        depth_lines(ds.drop_last()) + depth_line(ds.last()) + seq!['\n']
    }
}

/// Serialize a depth listing back to text, one four-column line per record.
pub fn format_depths(depths: &Vec<DepthInfo>) -> (r: String)
    ensures
        r@ == depth_lines(depths.deep_view()),
{
    let ghost dv = depths.deep_view();
    let mut out = String::new();
    proof {
        assert(dv.subrange(0, 0) =~= Seq::<DepthInfoV>::empty());
    }
    let n = depths.len();
    let mut i: usize = 0;
    while i < n
        invariant
            0 <= i <= n,
            n == dv.len(),
            dv == depths.deep_view(),
            out@ == depth_lines(dv.subrange(0, i as int)),
        decreases n - i,
    {
        let d = &depths[i];
        out.append(d.chromosome.as_str());
        push_char(&mut out, '\t');
        let base = i64_to_string(d.basenumber);
        out.append(base.as_str());
        push_char(&mut out, '\t');
        let reads = i64_to_string(d.reads);
        out.append(reads.as_str());
        push_char(&mut out, '\t');
        out.append(d.name.as_str());
        push_char(&mut out, '\n');
        proof {
            let prefix = dv.subrange(0, i as int);
            let prefix1 = dv.subrange(0, i as int + 1);
            assert(prefix1.drop_last() =~= prefix);
            assert(prefix1.last() == dv[i as int]);
            assert(out@ =~= depth_lines(prefix1));
        }
        i = i + 1;
    }
    proof {
        assert(dv.subrange(0, n as int) =~= dv);
    }
    out
}

} // verus!

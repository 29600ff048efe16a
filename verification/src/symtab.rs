//! The symbol table of an object: which compilation unit covers an address,
//! and which source line an address belongs to.

use vstd::prelude::*;
use vstd::string::{StrSliceExecFns, StringExecFns};

verus! {

/// The path that results when `p` is added to `path`: an absolute `p` takes
/// the place of `path`; any other is put after it, with a `/` between the two
/// unless `path` ends in one.
pub open spec fn pushed(path: Seq<char>, p: Seq<char>) -> Seq<char> {
    if p.len() > 0 && p[0] == '/' {
        p
    } else if path.len() > 0 && path.last() == '/' {
        path + p
    } else {
        path + seq!['/'] + p
    }
}

/// Adds the path `p` to `path`.
pub fn path_push(path: &mut String, p: &str)
    ensures
        final(path)@ == pushed(old(path)@, p@),
{
    if p.unicode_len() > 0 && p.get_char(0) == '/' {
        *path = p.to_owned();
    } else {
        let len = path.as_str().unicode_len();
        if !(len > 0 && path.as_str().get_char(len - 1) == '/') {
            proof {
                reveal_strlit("/");
                assert("/"@ =~= seq!['/']);
            }
            path.append("/");
        }
        path.append(p);
    }
}

/// The path of a file of a line table: the name of the file added to its
/// directory, and that to the directory the unit was compiled in.
pub open spec fn rendered(
    comp_dir: Option<Seq<char>>,
    directory: Option<Seq<char>>,
    name: Seq<char>,
) -> Seq<char> {
    let base = match comp_dir {
        Some(dir) => dir,
        None => Seq::empty(),
    };
    let dir = match directory {
        Some(dir) => pushed(base, dir),
        None => base,
    };
    pushed(dir, name)
}

/// The path of a file of a line table.
pub fn render_file(comp_dir: Option<&str>, directory: Option<&str>, name: &str) -> (path: String)
    ensures
        path@ == rendered(
            match comp_dir {
                Some(dir) => Some(dir@),
                None => None,
            },
            match directory {
                Some(dir) => Some(dir@),
                None => None,
            },
            name@,
        ),
{
    let mut path = match comp_dir {
        Some(dir) => dir.to_owned(),
        None => String::new(),
    };
    if let Some(directory) = directory {
        path_push(&mut path, directory);
    }
    path_push(&mut path, name);
    path
}

/// A range of addresses that a compilation unit covers.
#[derive(Debug, Clone, Copy, PartialEq, Eq, Structural)]
pub struct UnitRange {
    /// The first address of the range.
    pub begin: u64,
    /// One past the last address of the range.
    pub end: u64,
    /// The number of the unit.
    pub unit: usize,
}

impl UnitRange {
    /// Whether the range holds `probe`.
    pub open spec fn holds(self, probe: u64) -> bool {
        self.begin <= probe < self.end
    }
}

/// The ranges with every beginning moved forward to where the ranges before
/// it end, so that no two overlap. `floor` is the furthest end so far.
pub open spec fn clamped(ranges: Seq<UnitRange>, floor: u64) -> Seq<UnitRange>
    decreases ranges.len(),
{
    if ranges.len() == 0 {
        Seq::empty()
    } else {
        let first = ranges[0];
        let begin = if first.begin < floor {
            floor
        } else {
            first.begin
        };
        let end = if first.end < floor {
            floor
        } else {
            first.end
        };
        seq![UnitRange { begin, end, unit: first.unit }] + clamped(ranges.drop_first(), end)
    }
}

/// Whether each range ends where the next begins, or before.
pub open spec fn disjoint(ranges: Seq<UnitRange>) -> bool {
    forall|i: int, j: int| 0 <= i < j < ranges.len() ==> (#[trigger] ranges[i]).end <= (#[trigger] ranges[j]).begin
}

/// Whether the ranges rise by their beginnings.
pub open spec fn by_begin(ranges: Seq<UnitRange>) -> bool {
    forall|i: int, j: int| 0 <= i <= j < ranges.len() ==> (#[trigger] ranges[i]).begin <= (#[trigger] ranges[j]).begin
}

/// The ranges that are not empty, in the order given.
pub open spec fn nonempty(ranges: Seq<UnitRange>) -> Seq<UnitRange> {
    ranges.filter(|r: UnitRange| r.begin != r.end)
}

/// `slice::sort_by_key` on ranges, by their beginning: afterwards the ranges
/// rise by their beginnings, and each range occurs as often as before.
#[verifier::external_body]
fn sort_ranges(ranges: &mut Vec<UnitRange>)
    ensures
        by_begin(final(ranges)@),
        final(ranges)@.to_multiset() == old(ranges)@.to_multiset(),
{
    ranges.sort_by_key(|x| x.begin);
}

/// What clamping gives: as many ranges, each of the unit it had, none
/// beginning before the floor, none ending before it begins where it did not
/// before, and no two overlapping.
pub proof fn lemma_clamped(ranges: Seq<UnitRange>, floor: u64)
    ensures
        clamped(ranges, floor).len() == ranges.len(),
        forall|i: int|
            0 <= i < ranges.len() ==> {
                let out = #[trigger] clamped(ranges, floor)[i];
                &&& out.unit == ranges[i].unit
                &&& floor <= out.begin
                &&& floor <= out.end
                &&& ranges[i].begin <= out.begin
                &&& ranges[i].end <= out.end
                &&& (ranges[i].begin <= ranges[i].end ==> out.begin <= out.end)
            },
        forall|i: int, j: int|
            0 <= i < j < ranges.len() ==> (#[trigger] clamped(ranges, floor)[i]).end <= (
            #[trigger] clamped(ranges, floor)[j]).begin,
    decreases ranges.len(),
{
    if ranges.len() > 0 {
        let out = clamped(ranges, floor);
        let head = out[0];
        let rest = ranges.drop_first();
        lemma_clamped(rest, head.end);
        let tail = clamped(rest, head.end);
        assert forall|i: int| 0 <= i < ranges.len() implies {
            let o = #[trigger] out[i];
            &&& o.unit == ranges[i].unit
            &&& floor <= o.begin
            &&& floor <= o.end
            &&& ranges[i].begin <= o.begin
            &&& ranges[i].end <= o.end
            &&& (ranges[i].begin <= ranges[i].end ==> o.begin <= o.end)
        } by {
            if i > 0 {
                assert(out[i] == tail[i - 1]);
                assert(rest[i - 1] == ranges[i]);
            }
        }
        assert forall|i: int, j: int| 0 <= i < j < ranges.len() implies (#[trigger] out[i]).end <= (
        #[trigger] out[j]).begin by {
            assert(out[j] == tail[j - 1]);
            if i > 0 {
                assert(out[i] == tail[i - 1]);
            }
        }
    }
}

/// The ranges of the units made fit for searching: empty ranges are dropped,
/// the rest is put in the order of their beginnings, and beginnings are moved
/// forward so that no two ranges overlap. Which of two ranges with the same
/// beginning comes first is left open.
pub fn unit_ranges(raw: Vec<UnitRange>) -> (ranges: Vec<UnitRange>)
    ensures
        exists|ordered: Seq<UnitRange>|
            by_begin(ordered) && ordered.to_multiset() == nonempty(raw@).to_multiset()
                && #[trigger] clamped(ordered, 0) == ranges@,
        disjoint(ranges@),
        (forall|i: int| 0 <= i < raw.len() ==> (#[trigger] raw[i]).begin <= raw[i].end)
            ==> searchable(ranges@),
{
    let mut kept: Vec<UnitRange> = Vec::new();
    let mut i: usize = 0;
    assert(raw@.take(0) =~= Seq::<UnitRange>::empty());
    proof {
        reveal(Seq::filter);
    }
    while i < raw.len()
        invariant
            i <= raw.len(),
            kept@ == nonempty(raw@.take(i as int)),
        decreases raw.len() - i,
    {
        let range = raw[i];
        proof {
            reveal(Seq::filter);
            assert(raw@.take(i + 1).drop_last() =~= raw@.take(i as int));
        }
        if range.begin != range.end {
            kept.push(range);
        }
        i += 1;
    }
    assert(raw@.take(i as int) =~= raw@);
    sort_ranges(&mut kept);
    let ghost ordered = kept@;
    // Ranges need to be disjoint so that we can binary search, but weak symbols can
    // cause overlap. In this case, we don't care which unit is used, so ignore the
    // beginning of the subseqent range to avoid overlap.
    let mut ranges: Vec<UnitRange> = Vec::new();
    let mut prev_end: u64 = 0;
    let mut k: usize = 0;
    assert(ranges@ + clamped(ordered.skip(0), prev_end) =~= clamped(ordered, 0)) by {
        assert(ordered.skip(0) =~= ordered);
    }
    while k < kept.len()
        invariant
            k <= kept.len(),
            kept@ == ordered,
            ranges@ + clamped(ordered.skip(k as int), prev_end) == clamped(ordered, 0),
        decreases kept.len() - k,
    {
        let mut range = kept[k];
        let ghost floor = prev_end;
        if range.begin < prev_end {
            range.begin = prev_end;
        }
        if range.end < prev_end {
            range.end = prev_end;
        } else {
            prev_end = range.end;
        }
        let ghost before = ranges@;
        ranges.push(range);
        proof {
            let rest = ordered.skip(k as int);
            assert(rest[0] == ordered[k as int]);
            assert(rest.drop_first() =~= ordered.skip(k + 1));
            assert(clamped(rest, floor) =~= seq![range] + clamped(ordered.skip(k + 1), prev_end));
            assert(ranges@ + clamped(ordered.skip(k + 1), prev_end) =~= clamped(ordered, 0));
        }
        k += 1;
    }
    proof {
        assert(ordered.skip(k as int) =~= Seq::<UnitRange>::empty());
        assert(ranges@ =~= clamped(ordered, 0));
        lemma_clamped(ordered, 0);
        if forall|i: int| 0 <= i < raw.len() ==> (#[trigger] raw[i]).begin <= raw[i].end {
            assert forall|i: int| 0 <= i < ranges.len() implies (#[trigger] ranges[i]).begin
                <= ranges[i].end by {
                let r = ordered[i];
                assert(ordered.contains(r));
                ordered.to_multiset_ensures();
                nonempty(raw@).to_multiset_ensures();
                assert(ordered.to_multiset().count(r) > 0);
                assert(nonempty(raw@).to_multiset().count(r) > 0);
                assert(nonempty(raw@).contains(r));
                raw@.lemma_filter_contains_rev(|r: UnitRange| r.begin != r.end, r);
                let at = choose|at: int| 0 <= at < raw@.len() && raw@[at] == r;
                assert(raw[at].begin <= raw[at].end);
                assert(clamped(ordered, 0)[i].begin <= clamped(ordered, 0)[i].end);
            }
        }
    }
    ranges
}

/// Whether the ranges can be searched: none ends before it begins, and each
/// ends where the next begins, or before.
pub open spec fn searchable(ranges: Seq<UnitRange>) -> bool {
    disjoint(ranges) && forall|i: int| 0 <= i < ranges.len() ==> (#[trigger] ranges[i]).begin <= ranges[i].end
}

/// The unit whose range holds `probe`. Among searchable ranges at most one
/// holds it, and that one is found.
pub fn find_unit(ranges: &Vec<UnitRange>, probe: u64) -> (found: Option<usize>)
    ensures
        match found {
            Some(unit) => exists|i: int|
                0 <= i < ranges.len() && (#[trigger] ranges[i]).holds(probe) && ranges[i].unit == unit,
            None => searchable(ranges@) ==> forall|i: int|
                0 <= i < ranges.len() ==> !(#[trigger] ranges[i]).holds(probe),
        },
{
    let mut lo: usize = 0;
    let mut hi: usize = ranges.len();
    while lo < hi
        invariant
            lo <= hi <= ranges.len(),
            searchable(ranges@) ==> forall|i: int| 0 <= i < lo ==> (#[trigger] ranges[i]).end <= probe,
            searchable(ranges@) ==> forall|i: int|
                hi <= i < ranges.len() ==> probe < (#[trigger] ranges[i]).begin,
        decreases hi - lo,
    {
        let mid = lo + (hi - lo) / 2;
        let range = ranges[mid];
        if probe < range.begin {
            proof {
                if searchable(ranges@) {
                    assert forall|i: int| mid <= i < ranges.len() implies probe < (
                    #[trigger] ranges[i]).begin by {
                        if i > mid {
                            assert(ranges[mid as int].end <= ranges[i].begin);
                        }
                    }
                }
            }
            hi = mid;
        } else if probe >= range.end {
            proof {
                if searchable(ranges@) {
                    assert forall|i: int| 0 <= i < mid + 1 implies (#[trigger] ranges[i]).end
                        <= probe by {
                        if i < mid {
                            assert(ranges[i].end <= ranges[mid as int].begin);
                        }
                    }
                }
            }
            lo = mid + 1;
        } else {
            assert(ranges[mid as int].holds(probe));
            return Some(range.unit);
        }
    }
    None
}

/// Among searchable ranges, at most one holds a given address.
pub proof fn law_one_unit_per_address(ranges: Seq<UnitRange>, probe: u64, i: int, j: int)
    requires
        searchable(ranges),
        0 <= i < ranges.len(),
        0 <= j < ranges.len(),
        ranges[i].holds(probe),
        ranges[j].holds(probe),
    ensures
        i == j,
{
    if i < j {
        assert(ranges[i].end <= ranges[j].begin);
    } else if j < i {
        assert(ranges[j].end <= ranges[i].begin);
    }
}

/// One row of a line table as the line program gives it.
#[derive(Debug, Clone, Copy, PartialEq, Eq, Structural)]
pub struct RawRow {
    pub address: u64,
    pub file_index: u64,
    pub line: Option<u64>,
    pub column: Option<u64>,
    /// Whether the row closes a sequence of rows; its address is then the
    /// first one past the sequence.
    pub end_sequence: bool,
}

/// One row of a sequence: from its address on, up to the next row, the code
/// belongs to this file, line and column.
#[derive(Debug, Clone, Copy, PartialEq, Eq, Structural)]
pub struct LineRow {
    pub address: u64,
    pub file_index: u64,
    pub line: Option<u64>,
    pub column: Option<u64>,
}

/// A run of rows that covers the addresses from `start` up to `end`.
#[derive(Debug, Clone, PartialEq, Eq)]
pub struct LineSequence {
    pub start: u64,
    pub end: u64,
    pub rows: Vec<LineRow>,
}

/// The mathematical content of a [`LineSequence`].
pub struct LineSequenceView {
    pub start: u64,
    pub end: u64,
    pub rows: Seq<LineRow>,
}

impl View for LineSequence {
    type V = LineSequenceView;

    open spec fn view(&self) -> LineSequenceView {
        LineSequenceView { start: self.start, end: self.end, rows: self.rows@ }
    }
}

/// The views of the sequences, in order.
pub open spec fn sequence_views(sequences: Seq<LineSequence>) -> Seq<LineSequenceView> {
    sequences.map_values(|s: LineSequence| s@)
}

/// Where the reading of a line table stands: the sequences closed so far, and
/// the rows of the sequence that is open.
pub struct Scan {
    pub closed: Seq<LineSequenceView>,
    pub open: Seq<LineRow>,
}

/// The row of a sequence that a row of the line program gives.
pub open spec fn line_row(row: RawRow) -> LineRow {
    LineRow { address: row.address, file_index: row.file_index, line: row.line, column: row.column }
}

/// Takes one row in. A row that ends a sequence closes the open rows into a
/// sequence from the address of their first to its own address, unless there
/// are none; a sequence that starts at address zero is thrown away. A row at
/// the address of the row before it takes that row's place. Any other row is
/// added to the open rows.
pub open spec fn scan_step(scan: Scan, row: RawRow) -> Scan {
    if row.end_sequence {
        if scan.open.len() > 0 {
            let start = scan.open[0].address;
            Scan {
                closed: if start != 0 {
                    scan.closed.push(
                        LineSequenceView { start, end: row.address, rows: scan.open },
                    )
                } else {
                    scan.closed
                },
                open: Seq::empty(),
            }
        } else {
            scan
        }
    } else if scan.open.len() > 0 && scan.open.last().address == row.address {
        Scan { closed: scan.closed, open: scan.open.update(scan.open.len() - 1, line_row(row)) }
    } else {
        Scan { closed: scan.closed, open: scan.open.push(line_row(row)) }
    }
}

/// Where the reading stands after all the rows.
pub open spec fn scanned(rows: Seq<RawRow>) -> Scan
    decreases rows.len(),
{
    if rows.len() == 0 {
        Scan { closed: Seq::empty(), open: Seq::empty() }
    } else {
        scan_step(scanned(rows.drop_last()), rows.last())
    }
}

/// The sequences of a line table, in the order in which they are closed.
pub fn sequences_of(rows: &Vec<RawRow>) -> (sequences: Vec<LineSequence>)
    ensures
        sequence_views(sequences@) == scanned(rows@).closed,
{
    let mut sequences: Vec<LineSequence> = Vec::new();
    let mut sequence_rows: Vec<LineRow> = Vec::new();
    let mut i: usize = 0;
    assert(rows@.take(0) =~= Seq::<RawRow>::empty());
    assert(sequence_views(sequences@) =~= Seq::<LineSequenceView>::empty());
    while i < rows.len()
        invariant
            i <= rows.len(),
            sequence_views(sequences@) == scanned(rows@.take(i as int)).closed,
            sequence_rows@ == scanned(rows@.take(i as int)).open,
        decreases rows.len() - i,
    {
        let row = rows[i];
        proof {
            assert(rows@.take(i + 1).drop_last() =~= rows@.take(i as int));
            assert(rows@.take(i + 1).last() == row);
        }
        let ghost before = sequence_views(sequences@);
        if row.end_sequence {
            if sequence_rows.len() > 0 {
                let start = sequence_rows[0].address;
                let end = row.address;
                let mut rows_of: Vec<LineRow> = Vec::new();
                std::mem::swap(&mut rows_of, &mut sequence_rows);
                if start != 0 {
                    let sequence = LineSequence { start, end, rows: rows_of };
                    sequences.push(sequence);
                    assert(sequence_views(sequences@) =~= before.push(sequence@));
                }
            }
        } else {
            let n = sequence_rows.len();
            if n > 0 && sequence_rows[n - 1].address == row.address {
                sequence_rows[n - 1] = LineRow {
                    address: row.address,
                    file_index: row.file_index,
                    line: row.line,
                    column: row.column,
                };
            } else {
                sequence_rows.push(
                    LineRow {
                        address: row.address,
                        file_index: row.file_index,
                        line: row.line,
                        column: row.column,
                    },
                );
            }
        }
        i += 1;
    }
    assert(rows@.take(i as int) =~= rows@);
    sequences
}

/// Whether the sequences rise by the address they start at.
pub open spec fn by_start(sequences: Seq<LineSequenceView>) -> bool {
    forall|i: int, j: int|
        0 <= i <= j < sequences.len() ==> (#[trigger] sequences[i]).start <= (#[trigger] sequences[j]).start
}

/// `slice::sort_by_key` on sequences, by the address they start at:
/// afterwards they rise by it, and each sequence occurs as often as before.
#[verifier::external_body]
fn sort_sequences(sequences: &mut Vec<LineSequence>)
    ensures
        by_start(sequence_views(final(sequences)@)),
        sequence_views(final(sequences)@).to_multiset() == sequence_views(
            old(sequences)@,
        ).to_multiset(),
{
    sequences.sort_by_key(|x| x.start);
}

/// The line information of a compilation unit: the names of its files, and
/// its sequences of rows.
#[derive(Debug, Clone, PartialEq, Eq)]
pub struct Lines {
    pub files: Vec<String>,
    pub sequences: Vec<LineSequence>,
}

/// A source location.
#[derive(Debug, Clone, Copy, PartialEq, Eq)]
pub struct Location<'a> {
    /// The file name.
    pub file: Option<&'a str>,
    /// The line number.
    pub line: Option<u64>,
    /// The column number.
    pub column: Option<u64>,
}

/// The mathematical content of a [`Location`].
pub struct LocationView {
    pub file: Option<Seq<char>>,
    pub line: Option<u64>,
    pub column: Option<u64>,
}

impl<'a> View for Location<'a> {
    type V = LocationView;

    open spec fn view(&self) -> LocationView {
        LocationView {
            file: match self.file {
                Some(name) => Some(name@),
                None => None,
            },
            line: self.line,
            column: self.column,
        }
    }
}

/// The view of a location that may be absent.
pub open spec fn location_view(found: Option<Location<'_>>) -> Option<LocationView> {
    match found {
        Some(location) => Some(location@),
        None => None,
    }
}

/// Whether `lines` is line information for the names of files and the rows of
/// a line program: it has those names, and the sequences of the rows, in the
/// order of the addresses they start at.
pub open spec fn lines_of(lines: Lines, files: Seq<Seq<char>>, rows: Seq<RawRow>) -> bool {
    &&& lines.files@.map_values(|f: String| f@) == files
    &&& by_start(sequence_views(lines.sequences@))
    &&& sequence_views(lines.sequences@).to_multiset() == scanned(rows).closed.to_multiset()
}

impl Lines {
    /// The line information made of the names of the files and the rows of the
    /// line program: the sequences of the rows, in the order of the addresses
    /// they start at. Which of two sequences that start at the same address
    /// comes first is left open.
    pub fn new(files: Vec<String>, rows: &Vec<RawRow>) -> (lines: Lines)
        ensures
            lines.files == files,
            by_start(sequence_views(lines.sequences@)),
            sequence_views(lines.sequences@).to_multiset() == scanned(rows@).closed.to_multiset(),
    {
        let mut sequences = sequences_of(rows);
        sort_sequences(&mut sequences);
        Lines { files, sequences }
    }

    /// The sequences as views.
    pub open spec fn runs(&self) -> Seq<LineSequenceView> {
        sequence_views(self.sequences@)
    }

    /// Whether the table can be searched: no sequence ends before it starts,
    /// each ends where the next starts or before, and within a sequence the
    /// addresses of the rows rise.
    pub open spec fn searchable(&self) -> bool {
        &&& forall|i: int|
            0 <= i < self.runs().len() ==> (#[trigger] self.runs()[i]).start <= self.runs()[i].end
        &&& forall|i: int, j: int|
            0 <= i < j < self.runs().len() ==> (#[trigger] self.runs()[i]).end <= (
            #[trigger] self.runs()[j]).start
        &&& forall|s: int, i: int, j: int|
            0 <= s < self.runs().len() && 0 <= i <= j < self.runs()[s].rows.len() ==> (
            #[trigger] self.runs()[s].rows[i]).address <= (#[trigger] self.runs()[s].rows[j]).address
    }

    /// The location that row `k` of sequence `s` gives.
    pub open spec fn location_at(&self, s: int, k: int) -> LocationView {
        let row = self.runs()[s].rows[k];
        LocationView {
            file: if row.file_index < self.files.len() {
                Some(self.files[row.file_index as int]@)
            } else {
                None
            },
            line: row.line,
            column: row.column,
        }
    }

    /// Whether row `k` of sequence `s` is the one that says where `probe`
    /// belongs: the sequence holds `probe`, the row is at or below it, and
    /// every later row of the sequence is above it.
    pub open spec fn locates(&self, s: int, k: int, probe: u64) -> bool {
        &&& 0 <= s < self.runs().len()
        &&& self.runs()[s].start <= probe < self.runs()[s].end
        &&& 0 <= k < self.runs()[s].rows.len()
        &&& self.runs()[s].rows[k].address <= probe
        &&& forall|j: int| k < j < self.runs()[s].rows.len() ==> probe < (#[trigger] self.runs()[s].rows[j]).address
    }

    /// Whether `found` is what a search for `probe` may give: a location is
    /// that of a row at or below `probe` in a sequence that holds it. In a
    /// searchable table it is that of the last such row in the one sequence
    /// that holds `probe`, and there is none exactly when no sequence holds
    /// `probe` or every row of the one that does is above it.
    pub open spec fn finds(&self, probe: u64, found: Option<LocationView>) -> bool {
        match found {
            Some(location) => exists|s: int, k: int|
                0 <= s < self.runs().len() && 0 <= k < self.runs()[s].rows.len() && self.runs()[s].start
                    <= probe < self.runs()[s].end && self.runs()[s].rows[k].address <= probe
                    && location == #[trigger] self.location_at(s, k) && (self.searchable()
                    ==> self.locates(s, k, probe)),
            None => self.searchable() ==> forall|s: int, k: int| !#[trigger] self.locates(s, k, probe),
        }
    }

    /// Find the source file and line corresponding to the given virtual memory
    /// address.
    pub fn find_location(&self, probe: u64) -> (found: Option<Location<'_>>)
        ensures
            self.finds(probe, location_view(found)),
    {
        let ghost runs = self.runs();
        let mut lo: usize = 0;
        let mut hi: usize = self.sequences.len();
        let mut at: Option<usize> = None;
        while lo < hi
            invariant_except_break
                at is None,
                lo <= hi <= self.sequences.len(),
                self.searchable() ==> forall|i: int| 0 <= i < lo ==> (#[trigger] runs[i]).end <= probe,
                self.searchable() ==> forall|i: int|
                    hi <= i < runs.len() ==> probe < (#[trigger] runs[i]).start,
            invariant
                runs == self.runs(),
            ensures
                match at {
                    Some(s) => s < self.sequences.len() && runs[s as int].start <= probe
                        < runs[s as int].end,
                    None => self.searchable() ==> forall|i: int|
                        0 <= i < runs.len() ==> !((#[trigger] runs[i]).start <= probe < runs[i].end),
                },
            decreases hi - lo,
        {
            let mid = lo + (hi - lo) / 2;
            let sequence = &self.sequences[mid];
            assert(runs[mid as int] == sequence@);
            if probe < sequence.start {
                proof {
                    if self.searchable() {
                        assert forall|i: int| mid <= i < runs.len() implies probe < (
                        #[trigger] runs[i]).start by {
                            if i > mid {
                                assert(runs[mid as int].end <= runs[i].start);
                            }
                        }
                    }
                }
                hi = mid;
            } else if probe >= sequence.end {
                proof {
                    if self.searchable() {
                        assert forall|i: int| 0 <= i < mid + 1 implies (#[trigger] runs[i]).end
                            <= probe by {
                            if i < mid {
                                assert(runs[i].end <= runs[mid as int].start);
                            }
                        }
                    }
                }
                lo = mid + 1;
            } else {
                at = Some(mid);
                break;
            }
        }
        let s = match at {
            Some(s) => s,
            None => {
                return None;
            },
        };
        let sequence = &self.sequences[s];
        assert(runs[s as int] == sequence@);
        let rows = &sequence.rows;
        // The first row above the probe, if the rows rise.
        let mut low: usize = 0;
        let mut high: usize = rows.len();
        while low < high
            invariant
                low <= high <= rows.len(),
                forall|j: int| 0 <= j < low ==> self.searchable() ==> (#[trigger] rows[j]).address <= probe,
                forall|j: int| high <= j < rows.len() ==> self.searchable() ==> probe < (#[trigger] rows[j]).address,
                low > 0 ==> rows[low - 1].address <= probe,
                runs == self.runs(),
                rows@ == runs[s as int].rows,
                s < runs.len(),
            decreases high - low,
        {
            let mid = low + (high - low) / 2;
            if rows[mid].address <= probe {
                proof {
                    if self.searchable() {
                        assert forall|j: int| 0 <= j < mid + 1 implies (#[trigger] rows[j]).address
                            <= probe by {
                            assert(runs[s as int].rows[j].address <= runs[s as int].rows[mid as int].address);
                        }
                    }
                }
                low = mid + 1;
            } else {
                proof {
                    if self.searchable() {
                        assert forall|j: int| mid <= j < rows.len() implies probe < (
                        #[trigger] rows[j]).address by {
                            assert(runs[s as int].rows[mid as int].address <= runs[s as int].rows[j].address);
                        }
                    }
                }
                high = mid;
            }
        }
        if low == 0 {
            proof {
                if self.searchable() {
                    assert forall|s2: int, k: int| !#[trigger] self.locates(s2, k, probe) by {
                        if self.locates(s2, k, probe) {
                            if s2 < s {
                                assert(runs[s2].end <= runs[s as int].start);
                            } else if s2 > s {
                                assert(runs[s as int].end <= runs[s2].start);
                            } else {
                                assert(probe < rows[k].address);
                            }
                        }
                    }
                }
            }
            return None;
        }
        let row = &rows[low - 1];
        let file: Option<&str> = if row.file_index < self.files.len() as u64 {
            Some(self.files[row.file_index as usize].as_str())
        } else {
            None
        };
        let location = Location { file, line: row.line, column: row.column };
        proof {
            assert(location@ == self.location_at(s as int, low - 1));
        }
        Some(location)
    }
}

/// Whether a sequence covers at least one address, and the addresses of its
/// rows rise.
pub open spec fn run_in_order(run: LineSequenceView) -> bool {
    &&& run.start < run.end
    &&& forall|i: int, j: int|
        0 <= i <= j < run.rows.len() ==> (#[trigger] run.rows[i]).address <= (#[trigger] run.rows[j]).address
}

/// Whether two sequences share no address.
pub open spec fn runs_apart(a: LineSequenceView, b: LineSequenceView) -> bool {
    a.end <= b.start || b.end <= a.start
}

/// An element at two places of a sequence is in it at least twice.
proof fn lemma_twice<A>(s: Seq<A>, i: int, j: int)
    requires
        0 <= i < j < s.len(),
        s[i] == s[j],
    ensures
        s.to_multiset().count(s[i]) >= 2,
{
    broadcast use vstd::multiset::group_multiset_axioms;

    let shorter = s.remove(j);
    assert(shorter =~= s.subrange(0, j) + s.subrange(j + 1, s.len() as int));
    s.to_multiset_ensures();
    shorter.to_multiset_ensures();
    assert(shorter[i] == s[i]);
    assert(shorter.contains(s[i]));
    assert(shorter.to_multiset().count(s[i]) > 0);
    assert(shorter.to_multiset() =~= s.to_multiset().remove(s[j]));
    assert(s.to_multiset().remove(s[j]).count(s[i]) > 0);
}

/// An element that is in a sequence at least twice is at two places of it.
proof fn lemma_two_places<A>(s: Seq<A>, x: A) -> (places: (int, int))
    requires
        s.to_multiset().count(x) >= 2,
    ensures
        0 <= places.0 < s.len(),
        0 <= places.1 < s.len(),
        places.0 != places.1,
        s[places.0] == x,
        s[places.1] == x,
{
    broadcast use vstd::multiset::group_multiset_axioms;

    s.to_multiset_ensures();
    assert(s.contains(x));
    let p = choose|p: int| 0 <= p < s.len() && s[p] == x;
    let shorter = s.remove(p);
    assert(shorter =~= s.subrange(0, p) + s.subrange(p + 1, s.len() as int));
    shorter.to_multiset_ensures();
    assert(shorter.to_multiset() =~= s.to_multiset().remove(s[p]));
    assert(s.to_multiset().remove(x).count(x) >= 1);
    assert(shorter.to_multiset().count(x) > 0);
    assert(shorter.contains(x));
    let r = choose|r: int| 0 <= r < shorter.len() && shorter[r] == x;
    if r < p {
        assert(s[r] == x);
        (p, r)
    } else {
        assert(s[r + 1] == x);
        (p, r + 1)
    }
}

/// The sequences of a line program whose sequences each cover an address,
/// list their rows by rising address and share no address with one another
/// make a table that can be searched, in whatever order sequences that start
/// at one address are put.
pub proof fn law_sequences_in_order_can_be_searched(lines: Lines, closed: Seq<LineSequenceView>)
    requires
        by_start(lines.runs()),
        lines.runs().to_multiset() == closed.to_multiset(),
        forall|i: int| 0 <= i < closed.len() ==> run_in_order(#[trigger] closed[i]),
        forall|i: int, j: int|
            0 <= i < closed.len() && 0 <= j < closed.len() && i != j ==> runs_apart(
                #[trigger] closed[i],
                #[trigger] closed[j],
            ),
    ensures
        lines.searchable(),
{
    let runs = lines.runs();
    runs.to_multiset_ensures();
    closed.to_multiset_ensures();
    assert forall|i: int| 0 <= i < runs.len() implies run_in_order(#[trigger] runs[i]) by {
        assert(runs.contains(runs[i]));
        assert(closed.to_multiset().count(runs[i]) > 0);
        let p = choose|p: int| 0 <= p < closed.len() && closed[p] == runs[i];
        assert(run_in_order(closed[p]));
    }
    assert forall|i: int, j: int| 0 <= i < j < runs.len() implies (#[trigger] runs[i]).end <= (
    #[trigger] runs[j]).start by {
        let x = runs[i];
        let y = runs[j];
        assert(run_in_order(x) && run_in_order(y));
        assert(x.start <= y.start);
        if x == y {
            lemma_twice(runs, i, j);
            let (p, q) = lemma_two_places(closed, x);
            assert(runs_apart(closed[p], closed[q]));
        } else {
            assert(runs.contains(x) && runs.contains(y));
            let p = choose|p: int| 0 <= p < closed.len() && closed[p] == x;
            let q = choose|q: int| 0 <= q < closed.len() && closed[q] == y;
            assert(runs_apart(closed[p], closed[q]));
        }
    }
    assert forall|s: int, i: int, j: int|
        0 <= s < runs.len() && 0 <= i <= j < runs[s].rows.len() implies (#[trigger] runs[s].rows[i]).address
        <= (#[trigger] runs[s].rows[j]).address by {
        assert(run_in_order(runs[s]));
    }
    assert forall|i: int| 0 <= i < runs.len() implies (#[trigger] runs[i]).start <= runs[i].end by {
        assert(run_in_order(runs[i]));
    }
}

} // verus!

//! The table scanner: a single-pass, pull-based decoder over an ordered
//! sequence of text lines that yields one table per call.
//!
//! A line is understood by its first tab-separated field, the tag: `%T`
//! starts a table and carries its name, `%F` declares the column headers,
//! `%R` carries one data row, and `%E` ends the data. Lines with any other
//! tag are skipped, which absorbs the free-form preamble at the top of a
//! file and any stray line between tables.

use vstd::prelude::*;
use crate::split::field_views;
use crate::split::lemma_split_tabs_len;
use crate::split::split_fields;
use crate::split::split_tabs;

verus! {

/// Why a scan failed. Each variant names the malformed shape that was met;
/// running out of input cleanly is not an error.
#[derive(Clone, Copy, Debug, PartialEq, Eq, Structural)]
pub enum FormatError {
    /// A table-start line had no name field after the tag.
    MissingName,
    /// A table-start line was not followed by a header line.
    MissingHeader,
    /// A row line appeared while no table was open.
    OrphanRow,
}

/// Mathematical model of one decoded table.
pub ghost struct TableModel {
    /// The table's identifier, from the second field of its `%T` line.
    pub name: Seq<char>,
    /// The ordered column names, from the fields of the `%F` line after the tag.
    pub header: Seq<Seq<char>>,
    /// The ordered data rows, one per `%R` line, each the line's fields after the tag.
    pub rows: Seq<Seq<Seq<char>>>,
}

/// What one call of the scanner decides: clean exhaustion, one table, or a
/// format error.
pub ghost enum ScanOutcome {
    Finished,
    Found(TableModel),
    Failed(FormatError),
}

/// The first tab-separated field of a line.
pub open spec fn tag_of(l: Seq<char>) -> Seq<char> {
    split_tabs(l)[0]
}

/// A `%T` line: starts a table.
pub open spec fn is_table_line(l: Seq<char>) -> bool {
    tag_of(l) == seq!['%', 'T']
}

/// A `%F` line: declares a table's column headers.
pub open spec fn is_header_line(l: Seq<char>) -> bool {
    tag_of(l) == seq!['%', 'F']
}

/// A `%R` line: one data row.
pub open spec fn is_row_line(l: Seq<char>) -> bool {
    tag_of(l) == seq!['%', 'R']
}

/// A `%E` line: end of data.
pub open spec fn is_end_line(l: Seq<char>) -> bool {
    tag_of(l) == seq!['%', 'E']
}

/// A line with none of the tags the scanner acts on: preamble or stray
/// material, skipped while looking for the next table.
pub open spec fn is_plain_line(l: Seq<char>) -> bool {
    !is_table_line(l) && !is_row_line(l) && !is_end_line(l)
}

/// The values of a row or header line: its fields after the tag.
pub open spec fn row_of(l: Seq<char>) -> Seq<Seq<char>> {
    split_tabs(l).drop_first()
}

/// The rows carried by a sequence of row lines, in order.
pub open spec fn rows_values(ls: Seq<Seq<char>>) -> Seq<Seq<Seq<char>>> {
    ls.map_values(|x: Seq<char>| row_of(x))
}

/// The character sequences of a vector of rows of fields, in order.
pub open spec fn rows_views(rs: Seq<Vec<String>>) -> Seq<Seq<Seq<char>>> {
    rs.map_values(|r: Vec<String>| field_views(r@))
}

/// `rows_values` maps over a push one line at a time.
pub proof fn lemma_rows_values_push(ls: Seq<Seq<char>>, l: Seq<char>)
    ensures
        rows_values(ls.push(l)) == rows_values(ls).push(row_of(l)),
{
    assert(rows_values(ls.push(l)) =~= rows_values(ls).push(row_of(l)));
}

/// `rows_views` maps over a push one row at a time.
pub proof fn lemma_rows_views_push(rs: Seq<Vec<String>>, r: Vec<String>)
    ensures
        rows_views(rs.push(r)) == rows_views(rs).push(field_views(r@)),
{
    assert(rows_views(rs.push(r)) =~= rows_views(rs).push(field_views(r@)));
}

/// The lines left after discarding every leading plain line.
pub open spec fn seek(rem: Seq<Seq<char>>) -> Seq<Seq<char>>
    decreases rem.len(),
{
    if rem.len() == 0 {
        rem
    } else if is_plain_line(rem[0]) {
        seek(rem.drop_first())
    } else {
        rem
    }
}

/// The leading run of row lines.
pub open spec fn rows_taken(rem: Seq<Seq<char>>) -> Seq<Seq<char>>
    decreases rem.len(),
{
    if rem.len() == 0 || !is_row_line(rem[0]) {
        Seq::empty()
    } else {
        seq![rem[0]] + rows_taken(rem.drop_first())
    }
}

/// The lines after the leading run of row lines.
pub open spec fn rows_rest(rem: Seq<Seq<char>>) -> Seq<Seq<char>>
    decreases rem.len(),
{
    if rem.len() == 0 || !is_row_line(rem[0]) {
        rem
    } else {
        rows_rest(rem.drop_first())
    }
}

/// What one scanner call yields on the remaining lines `rem`: skip plain
/// lines; stop cleanly at exhaustion or `%E`; report a row line met with no
/// table open; otherwise decode a `%T` line (whose second field names the
/// table), the `%F` line that must follow it, and the run of `%R` lines
/// after that.
pub open spec fn scan_step(rem: Seq<Seq<char>>) -> ScanOutcome {
    let s = seek(rem);
    if s.len() == 0 || is_end_line(s[0]) {
        ScanOutcome::Finished
    } else if is_row_line(s[0]) {
        ScanOutcome::Failed(FormatError::OrphanRow)
    } else if split_tabs(s[0]).len() < 2 {
        ScanOutcome::Failed(FormatError::MissingName)
    } else if s.len() < 2 || !is_header_line(s[1]) {
        ScanOutcome::Failed(FormatError::MissingHeader)
    } else {
        ScanOutcome::Found(
            TableModel {
                name: split_tabs(s[0])[1],
                header: row_of(s[1]),
                rows: rows_values(rows_taken(s.skip(2))),
            },
        )
    }
}

/// The lines one scanner call leaves unconsumed: everything from the line
/// that stopped it on. A `%E` line is left in place, so later calls keep
/// stopping at it.
pub open spec fn scan_rest(rem: Seq<Seq<char>>) -> Seq<Seq<char>> {
    let s = seek(rem);
    if s.len() == 0 || is_end_line(s[0]) {
        s
    } else if is_row_line(s[0]) {
        s
    } else if split_tabs(s[0]).len() < 2 {
        s
    } else if s.len() < 2 || !is_header_line(s[1]) {
        s.drop_first()
    } else {
        rows_rest(s.skip(2))
    }
}

/// Seeking drops a prefix: what is left is never longer than the input.
pub proof fn lemma_seek_len(rem: Seq<Seq<char>>)
    ensures
        seek(rem).len() <= rem.len(),
    decreases rem.len(),
{
    if rem.len() > 0 && is_plain_line(rem[0]) {
        lemma_seek_len(rem.drop_first());
    }
}

/// Taking the leading row lines drops a prefix: the rest is never longer
/// than the input.
pub proof fn lemma_rows_rest_len(rem: Seq<Seq<char>>)
    ensures
        rows_rest(rem).len() <= rem.len(),
    decreases rem.len(),
{
    if rem.len() > 0 && is_row_line(rem[0]) {
        lemma_rows_rest_len(rem.drop_first());
    }
}

/// One scanner call never leaves more lines than it was given, and leaves
/// strictly fewer whenever it yields a table.
pub proof fn lemma_scan_rest_len(rem: Seq<Seq<char>>)
    ensures
        scan_rest(rem).len() <= rem.len(),
        scan_step(rem) is Found ==> scan_rest(rem).len() < rem.len(),
{
    lemma_seek_len(rem);
    let s = seek(rem);
    if s.len() >= 2 {
        lemma_rows_rest_len(s.skip(2));
    }
}

/// All tables of the input, in source order, or the first format error met.
pub open spec fn parse_all(rem: Seq<Seq<char>>) -> Result<Seq<TableModel>, FormatError>
    decreases rem.len(),
{
    match scan_step(rem) {
        ScanOutcome::Finished => Ok(Seq::empty()),
        ScanOutcome::Failed(e) => Err(e),
        ScanOutcome::Found(t) => {
            proof {
                lemma_scan_rest_len(rem);
            }
            match parse_all(scan_rest(rem)) {
                Ok(ts) => Ok(seq![t] + ts),
                Err(e) => Err(e),
            }
        },
    }
}

/// One decoded table: its name, its ordered column headers, and its ordered
/// data rows. Rows are not forced to match the header's width; the header
/// length bounds the meaningful positions, it does not fix each row's.
#[derive(Debug, PartialEq, Eq)]
pub struct Table {
    pub name: String,
    pub header: Vec<String>,
    pub rows: Vec<Vec<String>>,
}

impl View for Table {
    type V = TableModel;

    open spec fn view(&self) -> TableModel {
        TableModel {
            name: self.name@,
            header: field_views(self.header@),
            rows: rows_views(self.rows@),
        }
    }
}

/// Whether `s` is exactly the two characters `%` followed by `mark`.
fn str_is_tag(s: &str, mark: char) -> (r: bool)
    ensures
        r == (s@ == seq!['%', mark]),
{
    if s.unicode_len() == 2 {
        let hit = s.get_char(0) == '%' && s.get_char(1) == mark;
        proof {
            if hit {
                assert(s@ =~= seq!['%', mark]);
            }
        }
        hit
    } else {
        false
    }
}

/// The fields of `v` after the first: what a tag line carries.
fn tail_of(v: &Vec<String>) -> (r: Vec<String>)
    requires
        v@.len() >= 1,
    ensures
        field_views(r@) == field_views(v@).drop_first(),
{
    let mut r: Vec<String> = Vec::new();
    let mut i: usize = 1;
    while i < v.len()
        invariant
            1 <= i <= v@.len(),
            r@.len() == i - 1,
            forall|k: int| 0 <= k < i - 1 ==> (#[trigger] r@[k])@ == v@[k + 1]@,
        decreases v@.len() - i,
    {
        r.push(v[i].clone());
        i += 1;
    }
    proof {
        assert(field_views(r@) =~= field_views(v@).drop_first());
    }
    r
}

/// A forward-only cursor over the input lines. Each call of `next_table`
/// consumes exactly the lines of one table and yields it; the line that
/// stopped it is left for the next call.
pub struct TableScanner {
    lines: Vec<String>,
    pos: usize,
}

impl TableScanner {
    /// The whole input, one sequence of characters per line.
    pub closed spec fn src(self) -> Seq<Seq<char>> {
        self.lines@.map_values(|l: String| l@)
    }

    /// How many leading lines have been consumed.
    pub closed spec fn cursor(self) -> int {
        self.pos as int
    }

    /// The lines not yet consumed.
    pub open spec fn remaining(self) -> Seq<Seq<char>> {
        self.src().skip(self.cursor())
    }

    /// The cursor never leaves the input.
    pub open spec fn wf(self) -> bool {
        0 <= self.cursor() <= self.src().len()
    }

    /// A scanner positioned at the first of `lines`.
    pub fn new(lines: Vec<String>) -> (r: TableScanner)
        ensures
            r.wf(),
            r.src() == lines@.map_values(|l: String| l@),
            r.remaining() == lines@.map_values(|l: String| l@),
    {
        let r = TableScanner { lines, pos: 0 };
        proof {
            assert(r.remaining() =~= r.src());
        }
        r
    }

    /// Yields the next table, `Ok(None)` at clean exhaustion (no `%T` line
    /// left before `%E` or the end of input), or the format error the input
    /// runs into, exactly as `scan_step` says; the cursor moves exactly to
    /// `scan_rest` of the lines it was given.
    pub fn next_table(&mut self) -> (r: Result<Option<Table>, FormatError>)
        requires
            old(self).wf(),
        ensures
            final(self).wf(),
            final(self).src() == old(self).src(),
            final(self).remaining() == scan_rest(old(self).remaining()),
            match scan_step(old(self).remaining()) {
                ScanOutcome::Finished => r == Ok::<Option<Table>, FormatError>(None),
                ScanOutcome::Found(t) => r matches Ok(Some(tab)) && tab@ == t,
                ScanOutcome::Failed(e) => r == Err::<Option<Table>, FormatError>(e),
            },
    {
        let ghost rem0 = self.remaining();
        // Seek the next table-start line, discarding plain lines.
        loop
            invariant
                self.wf(),
                self.src() == old(self).src(),
                rem0 == old(self).remaining(),
                seek(rem0) == seek(self.remaining()),
            ensures
                self.wf(),
                self.src() == old(self).src(),
                seek(rem0) == self.remaining(),
                self.remaining().len() > 0,
                is_table_line(self.remaining()[0]),
            decreases self.src().len() - self.cursor(),
        {
            if self.pos == self.lines.len() {
                proof {
                    assert(self.remaining().len() == 0);
                    assert(seek(self.remaining()) == self.remaining());
                    assert(scan_step(rem0) == ScanOutcome::Finished);
                    assert(scan_rest(rem0) == self.remaining());
                }
                return Ok(None);
            }
            let fields = split_fields(self.lines[self.pos].as_str());
            let ghost l = self.remaining()[0];
            proof {
                assert(l == self.src()[self.cursor()]);
                assert(self.src()[self.cursor()] == self.lines@[self.pos as int]@);
                lemma_split_tabs_len(l);
                assert(field_views(fields@)[0] == split_tabs(l)[0]);
                assert(fields@.len() >= 1);
            }
            if str_is_tag(fields[0].as_str(), 'T') {
                proof {
                    assert(is_table_line(l));
                }
                break;
            }
            if str_is_tag(fields[0].as_str(), 'E') {
                proof {
                    assert(is_end_line(l));
                    assert(seek(self.remaining()) == self.remaining());
                    assert(scan_step(rem0) == ScanOutcome::Finished);
                    assert(scan_rest(rem0) == self.remaining());
                }
                return Ok(None);
            }
            if str_is_tag(fields[0].as_str(), 'R') {
                proof {
                    assert(is_row_line(l));
                    assert(seek(self.remaining()) == self.remaining());
                    assert(scan_step(rem0) == ScanOutcome::Failed(FormatError::OrphanRow));
                    assert(scan_rest(rem0) == self.remaining());
                }
                return Err(FormatError::OrphanRow);
            }
            proof {
                assert(is_plain_line(l));
                assert(self.remaining().drop_first() =~= self.src().skip(self.cursor() + 1));
            }
            self.pos = self.pos + 1;
        }
        let ghost s = self.remaining();
        let ghost q = self.cursor();
        proof {
            assert(self.src().len() == self.lines@.len());
            assert(self.lines.len() == self.lines@.len());
            assert(self.cursor() < self.src().len());
        }
        // Decode the table-start line: its second field is the name.
        let tfields = split_fields(self.lines[self.pos].as_str());
        proof {
            assert(s[0] == self.src()[q]);
            assert(self.src()[q] == self.lines@[self.pos as int]@);
            assert(field_views(tfields@) == split_tabs(s[0]));
            assert(tfields@.len() == split_tabs(s[0]).len());
        }
        if tfields.len() < 2 {
            return Err(FormatError::MissingName);
        }
        let name = tfields[1].clone();
        proof {
            assert(name@ == split_tabs(s[0])[1]);
        }
        self.pos = self.pos + 1;
        proof {
            assert(self.remaining() =~= s.drop_first());
        }
        // The next line must declare the headers.
        if self.pos == self.lines.len() {
            proof {
                assert(s.len() == 1);
            }
            return Err(FormatError::MissingHeader);
        }
        let hfields = split_fields(self.lines[self.pos].as_str());
        proof {
            assert(s.len() >= 2);
            assert(s[1] == self.src()[q + 1]);
            assert(self.src()[q + 1] == self.lines@[self.pos as int]@);
            lemma_split_tabs_len(s[1]);
            assert(field_views(hfields@) == split_tabs(s[1]));
            assert(field_views(hfields@)[0] == split_tabs(s[1])[0]);
            assert(hfields@.len() >= 1);
        }
        if !str_is_tag(hfields[0].as_str(), 'F') {
            proof {
                assert(!is_header_line(s[1]));
            }
            return Err(FormatError::MissingHeader);
        }
        let header = tail_of(&hfields);
        self.pos = self.pos + 1;
        proof {
            assert(is_header_line(s[1]));
            assert(self.remaining() =~= s.skip(2));
        }
        // Collect the run of row lines that follows.
        let ghost s2 = s.skip(2);
        let mut rows: Vec<Vec<String>> = Vec::new();
        let ghost mut taken: Seq<Seq<char>> = Seq::empty();
        proof {
            assert(taken + rows_taken(self.remaining()) =~= rows_taken(s2));
            assert(rows_views(rows@) =~= rows_values(taken));
        }
        loop
            invariant
                self.wf(),
                self.src() == old(self).src(),
                rows_taken(s2) == taken + rows_taken(self.remaining()),
                rows_rest(s2) == rows_rest(self.remaining()),
                rows_views(rows@) == rows_values(taken),
            ensures
                self.wf(),
                self.src() == old(self).src(),
                rows_taken(s2) == taken,
                rows_rest(s2) == self.remaining(),
                rows_views(rows@) == rows_values(taken),
            decreases self.src().len() - self.cursor(),
        {
            if self.pos == self.lines.len() {
                proof {
                    assert(self.remaining().len() == 0);
                    assert(taken + rows_taken(self.remaining()) =~= taken);
                }
                break;
            }
            let rfields = split_fields(self.lines[self.pos].as_str());
            let ghost prev = self.remaining();
            let ghost l = prev[0];
            proof {
                assert(l == self.src()[self.cursor()]);
                assert(self.src()[self.cursor()] == self.lines@[self.pos as int]@);
                lemma_split_tabs_len(l);
                assert(field_views(rfields@) == split_tabs(l));
                assert(field_views(rfields@)[0] == split_tabs(l)[0]);
                assert(rfields@.len() >= 1);
            }
            if !str_is_tag(rfields[0].as_str(), 'R') {
                proof {
                    assert(!is_row_line(l));
                    assert(taken + rows_taken(prev) =~= taken);
                }
                break;
            }
            let row = tail_of(&rfields);
            let ghost prev_rows = rows@;
            rows.push(row);
            self.pos = self.pos + 1;
            proof {
                assert(is_row_line(l));
                assert(prev.drop_first() =~= self.remaining());
                assert(taken + (seq![l] + rows_taken(self.remaining())) =~= taken.push(l)
                    + rows_taken(self.remaining()));
                assert(field_views(row@) == row_of(l));
                lemma_rows_views_push(prev_rows, row);
                lemma_rows_values_push(taken, l);
                taken = taken.push(l);
                assert(rows_views(rows@) == rows_values(taken));
            }
        }
        proof {
            assert(scan_step(rem0) == ScanOutcome::Found(
                TableModel {
                    name: split_tabs(s[0])[1],
                    header: row_of(s[1]),
                    rows: rows_values(rows_taken(s2)),
                },
            ));
            assert(scan_rest(rem0) == rows_rest(s2));
        }
        let out = Table { name, header, rows };
        proof {
            assert(out@.name == split_tabs(s[0])[1]);
            assert(out@.header == row_of(s[1]));
            assert(out@.rows == rows_values(rows_taken(s2)));
        }
        Ok(Some(out))
    }
}

/// The views of a vector of decoded tables, in order.
pub open spec fn tables_views(ts: Seq<Table>) -> Seq<TableModel> {
    ts.map_values(|t: Table| t@)
}

/// `tables_views` maps over a push one table at a time.
pub proof fn lemma_tables_views_push(ts: Seq<Table>, t: Table)
    ensures
        tables_views(ts.push(t)) == tables_views(ts).push(t@),
{
    assert(tables_views(ts.push(t)) =~= tables_views(ts).push(t@));
}

/// Decodes the whole input at once: every table in source order, or the
/// first format error met, exactly as `parse_all` says of the lines.
pub fn parse_tables(lines: Vec<String>) -> (r: Result<Vec<Table>, FormatError>)
    ensures
        match parse_all(lines@.map_values(|l: String| l@)) {
            Ok(ts) => r matches Ok(tabs) && tables_views(tabs@) == ts,
            Err(e) => r == Err::<Vec<Table>, FormatError>(e),
        },
{
    let ghost all = lines@.map_values(|l: String| l@);
    let mut sc = TableScanner::new(lines);
    let mut out: Vec<Table> = Vec::new();
    proof {
        assert(tables_views(out@) =~= Seq::<TableModel>::empty());
    }
    loop
        invariant
            sc.wf(),
            all == lines@.map_values(|l: String| l@),
            sc.src() == all,
            match parse_all(sc.remaining()) {
                Ok(ts) => parse_all(all) matches Ok(whole) && whole == tables_views(out@) + ts,
                Err(e) => parse_all(all) == Err::<Seq<TableModel>, FormatError>(e),
            },
        decreases sc.remaining().len(),
    {
        let ghost before = sc.remaining();
        proof {
            lemma_scan_rest_len(before);
        }
        match sc.next_table() {
            Ok(Some(t)) => {
                proof {
                    assert(scan_step(before) matches ScanOutcome::Found(m) && t@ == m);
                }
                let ghost prev_out = out@;
                out.push(t);
                proof {
                    lemma_tables_views_push(prev_out, t);
                    if let ScanOutcome::Found(m) = scan_step(before) {
                        if parse_all(sc.remaining()) is Ok {
                            let ts = parse_all(sc.remaining())->Ok_0;
                            assert(parse_all(before) == Ok::<Seq<TableModel>, FormatError>(
                                seq![m] + ts,
                            ));
                            assert(tables_views(prev_out) + (seq![m] + ts) =~= tables_views(
                                prev_out,
                            ).push(m) + ts);
                        }
                    }
                }
            },
            Ok(None) => {
                proof {
                    assert(scan_step(before) is Finished);
                    assert(parse_all(before) == Ok::<Seq<TableModel>, FormatError>(
                        Seq::empty(),
                    ));
                    if parse_all(all) is Ok {
                        assert(tables_views(out@) + Seq::<TableModel>::empty() =~= tables_views(
                            out@,
                        ));
                    }
                }
                return Ok(out);
            },
            Err(e) => {
                proof {
                    assert(scan_step(before) == ScanOutcome::Failed(e));
                    assert(parse_all(before) == Err::<Seq<TableModel>, FormatError>(e));
                }
                return Err(e);
            },
        }
    }
}

} // verus!

//! Properties of the scanner, stated over its specification and proved once
//! for all inputs: writing tables down line by line and scanning them back
//! is the identity, a file with no tables is no error, a table may have no
//! rows, and yielded rows are already in final form.

use vstd::prelude::*;
use crate::scan::FormatError;
use crate::scan::ScanOutcome;
use crate::scan::TableModel;
use crate::scan::is_end_line;
use crate::scan::is_header_line;
use crate::scan::is_plain_line;
use crate::scan::is_row_line;
use crate::scan::is_table_line;
use crate::scan::parse_all;
use crate::scan::row_of;
use crate::scan::rows_rest;
use crate::scan::rows_taken;
use crate::scan::rows_values;
use crate::scan::scan_rest;
use crate::scan::scan_step;
use crate::scan::seek;
use crate::split::join_tabs;
use crate::split::lemma_split_join;
use crate::split::lemma_split_tabs_fields;
use crate::split::lemma_split_tabs_no_tab;
use crate::split::split_tabs;

verus! {

/// The `%T` line that introduces a table named `name`.
pub open spec fn table_line_of(name: Seq<char>) -> Seq<char> {
    join_tabs(seq![seq!['%', 'T'], name])
}

/// The `%F` line that declares `header`.
pub open spec fn header_line_of(header: Seq<Seq<char>>) -> Seq<char> {
    join_tabs(seq![seq!['%', 'F']] + header)
}

/// The `%R` line that carries `row`.
pub open spec fn row_line_of(row: Seq<Seq<char>>) -> Seq<char> {
    join_tabs(seq![seq!['%', 'R']] + row)
}

/// The lines that write `t` down: its `%T` line, its `%F` line, and one
/// `%R` line per row, in order.
pub open spec fn encode_table(t: TableModel) -> Seq<Seq<char>> {
    seq![table_line_of(t.name), header_line_of(t.header)] + Seq::new(
        t.rows.len(),
        |i: int| row_line_of(t.rows[i]),
    )
}

/// The lines that write `ts` down, one table after the other.
pub open spec fn encode_tables(ts: Seq<TableModel>) -> Seq<Seq<char>>
    decreases ts.len(),
{
    if ts.len() == 0 {
        Seq::empty()
    } else {
        encode_table(ts[0]) + encode_tables(ts.drop_first())
    }
}

/// No text of the table holds a tab character, so each value survives the
/// line format unchanged.
pub open spec fn tab_free_table(t: TableModel) -> bool {
    &&& !t.name.contains('\t')
    &&& forall|i: int| 0 <= i < t.header.len() ==> !(#[trigger] t.header[i]).contains('\t')
    &&& forall|i: int, j: int|
        0 <= i < t.rows.len() && 0 <= j < t.rows[i].len() ==> !(#[trigger] t.rows[i][j]).contains(
            '\t',
        )
}

/// `tab_free_table`, of every table in the sequence.
pub open spec fn tab_free_tables(ts: Seq<TableModel>) -> bool {
    forall|i: int| 0 <= i < ts.len() ==> tab_free_table(#[trigger] ts[i])
}

/// The `%T` line of a tab-free name splits into exactly the tag and the
/// name, and carries no other tag.
pub proof fn lemma_table_line(name: Seq<char>)
    requires
        !name.contains('\t'),
    ensures
        split_tabs(table_line_of(name)) == seq![seq!['%', 'T'], name],
        is_table_line(table_line_of(name)),
        !is_plain_line(table_line_of(name)),
        !is_row_line(table_line_of(name)),
        !is_end_line(table_line_of(name)),
{
    let fs = seq![seq!['%', 'T'], name];
    assert(!fs[0].contains('\t'));
    lemma_split_join(fs);
}

/// The `%F` line of a tab-free header splits into the tag followed by the
/// headers, and carries no other tag.
pub proof fn lemma_header_line(header: Seq<Seq<char>>)
    requires
        forall|i: int| 0 <= i < header.len() ==> !(#[trigger] header[i]).contains('\t'),
    ensures
        split_tabs(header_line_of(header)) == seq![seq!['%', 'F']] + header,
        is_header_line(header_line_of(header)),
        row_of(header_line_of(header)) == header,
        !is_row_line(header_line_of(header)),
        !is_table_line(header_line_of(header)),
        !is_end_line(header_line_of(header)),
{
    let fs = seq![seq!['%', 'F']] + header;
    assert(fs[0] == seq!['%', 'F']);
    assert(!fs[0].contains('\t'));
    assert forall|i: int| 0 <= i < fs.len() implies !(#[trigger] fs[i]).contains('\t') by {
        if i >= 1 {
            assert(fs[i] == header[i - 1]);
        }
    }
    lemma_split_join(fs);
    assert(row_of(header_line_of(header)) =~= header);
}

/// The `%R` line of a tab-free row splits into the tag followed by the
/// row's values, and carries no other tag.
pub proof fn lemma_row_line(row: Seq<Seq<char>>)
    requires
        forall|i: int| 0 <= i < row.len() ==> !(#[trigger] row[i]).contains('\t'),
    ensures
        split_tabs(row_line_of(row)) == seq![seq!['%', 'R']] + row,
        is_row_line(row_line_of(row)),
        row_of(row_line_of(row)) == row,
        !is_plain_line(row_line_of(row)),
        !is_table_line(row_line_of(row)),
        !is_end_line(row_line_of(row)),
{
    let fs = seq![seq!['%', 'R']] + row;
    assert(fs[0] == seq!['%', 'R']);
    assert(!fs[0].contains('\t'));
    assert forall|i: int| 0 <= i < fs.len() implies !(#[trigger] fs[i]).contains('\t') by {
        if i >= 1 {
            assert(fs[i] == row[i - 1]);
        }
    }
    lemma_split_join(fs);
    assert(row_of(row_line_of(row)) =~= row);
}

/// A run of row lines followed by anything that is not a row line is taken
/// whole, and exactly the lines after it are left.
pub proof fn lemma_rows_run(ls: Seq<Seq<char>>, rest: Seq<Seq<char>>)
    requires
        forall|i: int| 0 <= i < ls.len() ==> is_row_line(#[trigger] ls[i]),
        rest.len() > 0 ==> !is_row_line(rest[0]),
    ensures
        rows_taken(ls + rest) == ls,
        rows_rest(ls + rest) == rest,
    decreases ls.len(),
{
    if ls.len() == 0 {
        assert(ls + rest =~= rest);
        assert(rows_taken(rest) =~= ls);
    } else {
        assert((ls + rest)[0] == ls[0]);
        assert((ls + rest).drop_first() =~= ls.drop_first() + rest);
        assert forall|i: int| 0 <= i < ls.drop_first().len() implies is_row_line(
            #[trigger] ls.drop_first()[i],
        ) by {
            assert(ls.drop_first()[i] == ls[i + 1]);
        }
        lemma_rows_run(ls.drop_first(), rest);
        assert(seq![ls[0]] + ls.drop_first() =~= ls);
    }
}

/// One well-formed group of lines — a `%T` line, a `%F` line, then any run
/// of `%R` lines — scans to exactly its table and leaves exactly the lines
/// after the group, provided those do not begin with another row line.
/// Nothing here constrains the rows' widths: a row narrower or wider than
/// the header is taken as it stands.
pub proof fn lemma_scan_group(t: TableModel, rest: Seq<Seq<char>>)
    requires
        tab_free_table(t),
        rest.len() > 0 ==> !is_row_line(rest[0]),
    ensures
        scan_step(encode_table(t) + rest) == ScanOutcome::Found(t),
        scan_rest(encode_table(t) + rest) == rest,
{
    let lines = encode_table(t) + rest;
    let rowlines = Seq::new(t.rows.len(), |i: int| row_line_of(t.rows[i]));
    lemma_table_line(t.name);
    lemma_header_line(t.header);
    assert(lines[0] == table_line_of(t.name));
    assert(lines[1] == header_line_of(t.header));
    assert(seek(lines) == lines);
    assert(split_tabs(lines[0]).len() == 2);
    assert(split_tabs(lines[0])[1] == t.name);
    assert(lines.skip(2) =~= rowlines + rest);
    assert forall|i: int| 0 <= i < rowlines.len() implies is_row_line(#[trigger] rowlines[i]) by {
        lemma_row_line(t.rows[i]);
    }
    lemma_rows_run(rowlines, rest);
    assert(rows_values(rowlines) =~= t.rows) by {
        assert forall|i: int| 0 <= i < rowlines.len() implies rows_values(rowlines)[i]
            == t.rows[i] by {
            lemma_row_line(t.rows[i]);
        }
    }
}

/// One well-formed group of lines: a `%T` line that carries a name, a `%F`
/// line right after it, and then nothing but `%R` lines. The `%T` line may
/// carry fields beyond the name; rows may have any widths.
pub open spec fn wf_group(g: Seq<Seq<char>>) -> bool {
    &&& g.len() >= 2
    &&& is_table_line(g[0])
    &&& split_tabs(g[0]).len() >= 2
    &&& is_header_line(g[1])
    &&& forall|i: int| 2 <= i < g.len() ==> is_row_line(#[trigger] g[i])
}

/// The table a well-formed group declares.
pub open spec fn group_table(g: Seq<Seq<char>>) -> TableModel {
    TableModel { name: split_tabs(g[0])[1], header: row_of(g[1]), rows: rows_values(g.skip(2)) }
}

/// `wf_group`, of every group in the sequence.
pub open spec fn wf_groups(gs: Seq<Seq<Seq<char>>>) -> bool {
    forall|i: int| 0 <= i < gs.len() ==> wf_group(#[trigger] gs[i])
}

/// The groups laid out one after the other.
pub open spec fn concat_groups(gs: Seq<Seq<Seq<char>>>) -> Seq<Seq<char>>
    decreases gs.len(),
{
    if gs.len() == 0 {
        Seq::empty()
    } else {
        gs[0] + concat_groups(gs.drop_first())
    }
}

/// The tables the groups declare, in order.
pub open spec fn group_tables(gs: Seq<Seq<Seq<char>>>) -> Seq<TableModel> {
    gs.map_values(|g: Seq<Seq<char>>| group_table(g))
}

/// One well-formed group scans to exactly the table it declares and leaves
/// exactly the lines after it, provided those do not begin with a row line.
pub proof fn lemma_scan_wf_group(g: Seq<Seq<char>>, rest: Seq<Seq<char>>)
    requires
        wf_group(g),
        rest.len() > 0 ==> !is_row_line(rest[0]),
    ensures
        scan_step(g + rest) == ScanOutcome::Found(group_table(g)),
        scan_rest(g + rest) == rest,
{
    let lines = g + rest;
    assert(lines[0] == g[0]);
    assert(lines[1] == g[1]);
    assert(seek(lines) == lines);
    assert(lines.skip(2) =~= g.skip(2) + rest);
    assert forall|i: int| 0 <= i < g.skip(2).len() implies is_row_line(
        #[trigger] g.skip(2)[i],
    ) by {
        assert(g.skip(2)[i] == g[i + 2]);
    }
    lemma_rows_run(g.skip(2), rest);
}

/// Any input of a preamble of plain lines, `n` well-formed groups in order,
/// and an end line parses to exactly the `n` tables those groups declare,
/// in source order: none is dropped, doubled or reordered, and no error is
/// reported.
pub proof fn lemma_well_formed_input(pre: Seq<Seq<char>>, gs: Seq<Seq<Seq<char>>>, end: Seq<char>)
    requires
        forall|i: int| 0 <= i < pre.len() ==> is_plain_line(#[trigger] pre[i]),
        wf_groups(gs),
        is_end_line(end),
    ensures
        parse_all(pre + concat_groups(gs) + seq![end]) == Ok::<Seq<TableModel>, FormatError>(
            group_tables(gs),
        ),
    decreases gs.len(),
{
    let lines = pre + concat_groups(gs) + seq![end];
    if gs.len() == 0 {
        lemma_seek_prefix(pre, seq![end]);
        assert(lines =~= pre + seq![end]);
        assert(seek(seq![end]) == seq![end]);
        assert(seek(lines)[0] == end);
        assert(group_tables(gs) =~= Seq::<TableModel>::empty());
    } else {
        let g0 = gs[0];
        let tail = concat_groups(gs.drop_first()) + seq![end];
        assert(lines =~= pre + (g0 + tail));
        if gs.drop_first().len() == 0 {
            assert(tail =~= seq![end]);
            assert(!is_row_line(tail[0]));
        } else {
            assert(gs.drop_first()[0] == gs[1]);
            assert(concat_groups(gs.drop_first())[0] == gs[1][0]);
            assert(tail[0] == gs[1][0]);
            assert(wf_group(gs[1]));
            assert(!is_row_line(tail[0]));
        }
        lemma_seek_prefix(pre, g0 + tail);
        lemma_scan_wf_group(g0, tail);
        assert(seek(lines) == seek(g0 + tail));
        assert(scan_step(lines) == ScanOutcome::Found(group_table(g0)));
        assert(scan_rest(lines) == tail);
        assert forall|i: int| 0 <= i < gs.drop_first().len() implies wf_group(
            #[trigger] gs.drop_first()[i],
        ) by {
            assert(gs.drop_first()[i] == gs[i + 1]);
        }
        lemma_well_formed_input(Seq::empty(), gs.drop_first(), end);
        assert(Seq::<Seq<char>>::empty() + concat_groups(gs.drop_first()) + seq![end] =~= tail);
        assert(seq![group_table(g0)] + group_tables(gs.drop_first()) =~= group_tables(gs));
    }
}

/// Leading plain lines — the preamble — never change where the scanner
/// settles.
pub proof fn lemma_seek_prefix(pre: Seq<Seq<char>>, tail: Seq<Seq<char>>)
    requires
        forall|i: int| 0 <= i < pre.len() ==> is_plain_line(#[trigger] pre[i]),
    ensures
        seek(pre + tail) == seek(tail),
    decreases pre.len(),
{
    if pre.len() == 0 {
        assert(pre + tail =~= tail);
    } else {
        assert((pre + tail)[0] == pre[0]);
        assert((pre + tail).drop_first() =~= pre.drop_first() + tail);
        assert forall|i: int| 0 <= i < pre.drop_first().len() implies is_plain_line(
            #[trigger] pre.drop_first()[i],
        ) by {
            assert(pre.drop_first()[i] == pre[i + 1]);
        }
        lemma_seek_prefix(pre.drop_first(), tail);
    }
}

/// Round trip: a preamble of plain lines, the encodings of any tables in
/// order, and an end line parse back to exactly those tables — the declared
/// name, header and rows of each, in source order, with nothing dropped,
/// doubled or reordered.
pub proof fn lemma_round_trip(pre: Seq<Seq<char>>, ts: Seq<TableModel>, end: Seq<char>)
    requires
        forall|i: int| 0 <= i < pre.len() ==> is_plain_line(#[trigger] pre[i]),
        tab_free_tables(ts),
        is_end_line(end),
    ensures
        parse_all(pre + encode_tables(ts) + seq![end]) == Ok::<Seq<TableModel>, FormatError>(ts),
    decreases ts.len(),
{
    let lines = pre + encode_tables(ts) + seq![end];
    if ts.len() == 0 {
        lemma_seek_prefix(pre, seq![end]);
        assert(lines =~= pre + seq![end]);
        assert(seek(seq![end]) == seq![end]);
        assert(seek(lines)[0] == end);
        assert(ts =~= Seq::<TableModel>::empty());
    } else {
        let t0 = ts[0];
        let tail = encode_tables(ts.drop_first()) + seq![end];
        assert(lines =~= pre + (encode_table(t0) + tail));
        if ts.drop_first().len() == 0 {
            assert(tail =~= seq![end]);
            assert(!is_row_line(tail[0]));
        } else {
            assert(encode_tables(ts.drop_first())[0] == encode_table(ts.drop_first()[0])[0]);
            assert(tail[0] == table_line_of(ts.drop_first()[0].name));
            assert(tab_free_table(ts[1]));
            assert(ts.drop_first()[0] == ts[1]);
            lemma_table_line(ts[1].name);
            assert(!is_row_line(tail[0]));
        }
        lemma_seek_prefix(pre, encode_table(t0) + tail);
        lemma_scan_group(t0, tail);
        assert(seek(lines) == seek(encode_table(t0) + tail));
        assert(scan_step(lines) == ScanOutcome::Found(t0));
        assert(scan_rest(lines) == tail);
        assert forall|i: int| 0 <= i < ts.drop_first().len() implies tab_free_table(
            #[trigger] ts.drop_first()[i],
        ) by {
            assert(ts.drop_first()[i] == ts[i + 1]);
        }
        lemma_round_trip(Seq::empty(), ts.drop_first(), end);
        assert(Seq::<Seq<char>>::empty() + encode_tables(ts.drop_first()) + seq![end] =~= tail);
        assert(seq![t0] + ts.drop_first() =~= ts);
    }
}

/// A file with no tables — any preamble of plain lines closed by an end
/// line — parses to the empty sequence of tables, not to an error.
pub proof fn lemma_no_tables(pre: Seq<Seq<char>>, end: Seq<char>)
    requires
        forall|i: int| 0 <= i < pre.len() ==> is_plain_line(#[trigger] pre[i]),
        is_end_line(end),
    ensures
        parse_all(pre + seq![end]) == Ok::<Seq<TableModel>, FormatError>(Seq::empty()),
{
    lemma_round_trip(pre, Seq::empty(), end);
    assert(pre + encode_tables(Seq::empty()) + seq![end] =~= pre + seq![end]);
}

/// A `%T`/`%F` pair immediately followed by something that is not a row
/// line — the next table's `%T`, or the `%E` line — yields a table whose
/// row sequence is empty.
pub proof fn lemma_zero_row_group(name: Seq<char>, header: Seq<Seq<char>>, rest: Seq<Seq<char>>)
    requires
        !name.contains('\t'),
        forall|i: int| 0 <= i < header.len() ==> !(#[trigger] header[i]).contains('\t'),
        rest.len() > 0 ==> !is_row_line(rest[0]),
    ensures
        scan_step(seq![table_line_of(name), header_line_of(header)] + rest)
            == ScanOutcome::Found(TableModel { name, header, rows: Seq::empty() }),
        scan_rest(seq![table_line_of(name), header_line_of(header)] + rest) == rest,
{
    let t = TableModel { name, header, rows: Seq::empty() };
    assert(encode_table(t) =~= seq![table_line_of(name), header_line_of(header)]);
    lemma_scan_group(t, rest);
}

/// Rows are yielded in final form: re-splitting any field of a yielded
/// row gives that field alone, so its field count never changes.
pub proof fn lemma_row_fields_final(rem: Seq<Seq<char>>, t: TableModel, i: int, j: int)
    requires
        scan_step(rem) == ScanOutcome::Found(t),
        0 <= i < t.rows.len(),
        0 <= j < t.rows[i].len(),
    ensures
        split_tabs(t.rows[i][j]) == seq![t.rows[i][j]],
{
    let s = seek(rem);
    let ls = rows_taken(s.skip(2));
    assert(t.rows == rows_values(ls));
    assert(t.rows[i] == row_of(ls[i]));
    let line = ls[i];
    assert(t.rows[i][j] == split_tabs(line)[j + 1]);
    lemma_split_tabs_fields(line);
    lemma_split_tabs_no_tab(split_tabs(line)[j + 1]);
}

} // verus!

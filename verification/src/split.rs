//! Splitting a line of text into its tab-separated fields.

use vstd::prelude::*;

verus! {

/// Index of the first tab character in `s`, or `s.len()` when there is none.
pub open spec fn first_tab(s: Seq<char>) -> nat
    decreases s.len(),
{
    if s.len() == 0 {
        0
    } else if s[0] == '\t' {
        0
    } else {
        1 + first_tab(s.skip(1))
    }
}

/// `first_tab` points at the first tab: nothing before it is a tab, and it
/// is a tab unless the whole line is tab-free.
pub proof fn lemma_first_tab(s: Seq<char>)
    ensures
        first_tab(s) <= s.len(),
        forall|k: int| 0 <= k < first_tab(s) ==> s[k] != '\t',
        first_tab(s) < s.len() ==> s[first_tab(s) as int] == '\t',
    decreases s.len(),
{
    if s.len() == 0 {
    } else if s[0] == '\t' {
    } else {
        lemma_first_tab(s.skip(1));
        assert forall|k: int| 0 <= k < first_tab(s) implies s[k] != '\t' by {
            if k >= 1 {
                assert(s.skip(1)[k - 1] == s[k]);
            }
        }
        if first_tab(s) < s.len() {
            assert(s.skip(1)[first_tab(s) - 1] == s[first_tab(s) as int]);
        }
    }
}

/// A position with no tab before it that holds a tab (or is the line's end)
/// is exactly `first_tab`.
pub proof fn lemma_first_tab_is(s: Seq<char>, m: int)
    requires
        0 <= m <= s.len(),
        forall|k: int| 0 <= k < m ==> s[k] != '\t',
        m < s.len() ==> s[m] == '\t',
    ensures
        first_tab(s) == m,
    decreases s.len(),
{
    if m == 0 {
    } else {
        assert(s[0] != '\t');
        assert forall|k: int| 0 <= k < m - 1 implies s.skip(1)[k] != '\t' by {
            assert(s.skip(1)[k] == s[k + 1]);
        }
        if m - 1 < s.skip(1).len() {
            assert(s.skip(1)[m - 1] == s[m]);
        }
        lemma_first_tab_is(s.skip(1), m - 1);
    }
}

/// The tab-separated fields of `s`, in order. A line with no tab is one
/// field; every tab ends a field, so `n` tabs give `n + 1` fields.
pub open spec fn split_tabs(s: Seq<char>) -> Seq<Seq<char>>
    decreases s.len(),
{
    let i = first_tab(s);
    if i >= s.len() {
        seq![s]
    } else {
        seq![s.take(i as int)] + split_tabs(s.skip(i as int + 1))
    }
}

/// A split always yields at least one field.
pub proof fn lemma_split_tabs_len(s: Seq<char>)
    ensures
        split_tabs(s).len() >= 1,
{
}

/// A line without tabs splits into itself alone.
pub proof fn lemma_split_tabs_no_tab(s: Seq<char>)
    requires
        !s.contains('\t'),
    ensures
        split_tabs(s) == seq![s],
{
    lemma_first_tab_is(s, s.len() as int);
}

/// No field of a split contains a tab.
pub proof fn lemma_split_tabs_fields(s: Seq<char>)
    ensures
        forall|i: int|
            0 <= i < split_tabs(s).len() ==> !(#[trigger] split_tabs(s)[i]).contains('\t'),
    decreases s.len(),
{
    lemma_first_tab(s);
    let i = first_tab(s);
    if i >= s.len() {
        assert(!s.contains('\t'));
    } else {
        lemma_split_tabs_fields(s.skip(i as int + 1));
        assert(!s.take(i as int).contains('\t')) by {
            assert(forall|k: int| 0 <= k < i ==> s.take(i as int)[k] == s[k]);
        }
        assert forall|j: int|
            0 <= j < split_tabs(s).len() implies !(#[trigger] split_tabs(s)[j]).contains('\t') by {
            if j >= 1 {
                assert(split_tabs(s)[j] == split_tabs(s.skip(i as int + 1))[j - 1]);
            }
        }
    }
}

/// Splitting after a tab-free prefix and a tab yields that prefix as the
/// first field and the split of the rest after it.
pub proof fn lemma_split_tabs_prefix(a: Seq<char>, rest: Seq<char>)
    requires
        !a.contains('\t'),
    ensures
        split_tabs(a + seq!['\t'] + rest) == seq![a] + split_tabs(rest),
{
    let s = a + seq!['\t'] + rest;
    assert forall|k: int| 0 <= k < a.len() implies s[k] != '\t' by {
        assert(s[k] == a[k]);
    }
    assert(s[a.len() as int] == '\t');
    lemma_first_tab_is(s, a.len() as int);
    assert(s.take(a.len() as int) =~= a);
    assert(s.skip(a.len() as int + 1) =~= rest);
}

/// The fields joined back with tabs between them.
pub open spec fn join_tabs(fs: Seq<Seq<char>>) -> Seq<char>
    decreases fs.len(),
{
    if fs.len() == 0 {
        Seq::empty()
    } else if fs.len() == 1 {
        fs[0]
    } else {
        fs[0] + seq!['\t'] + join_tabs(fs.drop_first())
    }
}

/// Splitting undoes joining, as long as no field holds a tab.
pub proof fn lemma_split_join(fs: Seq<Seq<char>>)
    requires
        fs.len() >= 1,
        forall|i: int| 0 <= i < fs.len() ==> !(#[trigger] fs[i]).contains('\t'),
    ensures
        split_tabs(join_tabs(fs)) == fs,
    decreases fs.len(),
{
    if fs.len() == 1 {
        lemma_split_tabs_no_tab(fs[0]);
        assert(seq![fs[0]] =~= fs);
    } else {
        assert forall|i: int|
            0 <= i < fs.drop_first().len() implies !(#[trigger] fs.drop_first()[i]).contains(
            '\t',
        ) by {
            assert(fs.drop_first()[i] == fs[i + 1]);
        }
        lemma_split_join(fs.drop_first());
        lemma_split_tabs_prefix(fs[0], join_tabs(fs.drop_first()));
        assert(seq![fs[0]] + fs.drop_first() =~= fs);
    }
}

/// The character sequences of a vector of fields, in order.
pub open spec fn field_views(fs: Seq<String>) -> Seq<Seq<char>> {
    fs.map_values(|f: String| f@)
}

/// Splits `line` at every tab character, returning the fields in order.
pub fn split_fields(line: &str) -> (r: Vec<String>)
    ensures
        field_views(r@) == split_tabs(line@),
{
    let n = line.unicode_len();
    let mut out: Vec<String> = Vec::new();
    let mut start: usize = 0;
    proof {
        assert(line@.skip(0) =~= line@);
        assert(field_views(out@) + split_tabs(line@) =~= split_tabs(line@));
    }
    loop
        invariant
            start <= n,
            n == line@.len(),
            split_tabs(line@) == field_views(out@) + split_tabs(line@.skip(start as int)),
        decreases n - start,
    {
        let ghost rem = line@.skip(start as int);
        let mut j: usize = start;
        while j < n && line.get_char(j) != '\t'
            invariant
                start <= j <= n,
                n == line@.len(),
                forall|k: int| start <= k < j ==> line@[k] != '\t',
            decreases n - j,
        {
            j += 1;
        }
        proof {
            assert forall|k: int| 0 <= k < j - start implies rem[k] != '\t' by {
                assert(rem[k] == line@[start + k]);
            }
            if j - start < rem.len() {
                assert(rem[j - start] == line@[j as int]);
            }
            lemma_first_tab_is(rem, j - start);
        }
        let field = String::from_str(line.substring_char(start, j));
        out.push(field);
        proof {
            assert(field_views(out@) =~= field_views(out@.drop_last()).push(field@));
        }
        if j < n {
            proof {
                assert(rem.take(j - start) =~= line@.subrange(start as int, j as int));
                assert(rem.skip(j - start + 1) =~= line@.skip(j + 1));
                assert(field_views(out@) + split_tabs(line@.skip(j + 1))
                    =~= field_views(out@.drop_last()) + (seq![rem.take(j - start)]
                    + split_tabs(rem.skip(j - start + 1))));
            }
            start = j + 1;
        } else {
            proof {
                assert(rem =~= line@.subrange(start as int, j as int));
                assert(field_views(out@) =~= field_views(out@.drop_last()) + seq![rem]);
            }
            return out;
        }
    }
}

} // verus!

//! The substitution-table abstraction shared by the homophonic and the
//! polyalphabetic cipher: parsing a table from line-oriented text under one
//! of two layout rules, serializing it back, checking whole-group
//! uniqueness, and randomly synthesizing tables from a character pool.

use vstd::math::min;
use vstd::prelude::*;

use crate::random::{rand_index, rand_sample, rand_shuffle};
use crate::text::{is_wschar, push_char, wschar};

verus! {

/// How a key source is laid out: one group per line, or one group per
/// character column.
#[derive(Clone, Copy, PartialEq, Eq, Structural, Debug)]
pub enum KeyRule {
    /// Each line of the source is one group.
    Row,
    /// Each character column across the lines is one group.
    Column,
}

/// Everything that can go wrong when building or using a cipher.
#[derive(Clone, Copy, PartialEq, Eq, Structural, Debug)]
pub enum CipherError {
    /// The key source could not be read at all.
    IoError,
    /// A homophonic key needs at least 52 groups.
    KeyTooShort,
    /// A homophonic key needs pairwise distinct groups.
    KeyNotUnique,
    /// A polyalphabetic key may hold letters only.
    NonAlphabeticKey,
    /// A character of the text to decrypt appears in no group of the key.
    UnmappableCipherChar,
}

/// A substitution table: an ordered sequence of character groups, the layout
/// rule it was read under, and whether its groups are pairwise distinct.
#[derive(Debug)]
pub struct Key {
    /// The groups, one string per group.
    pub data: Vec<String>,
    /// The layout rule the table was read under and will be written under.
    pub rule: KeyRule,
    /// True iff no two groups are equal as whole strings.
    pub unique: bool,
}

/// A line with its whitespace removed.
pub open spec fn strip(l: Seq<char>) -> Seq<char> {
    l.filter(|c: char| !wschar(c))
}

/// The pieces of `s` split at every newline; one piece more than there are
/// newlines, so the result is never empty.
pub open spec fn raw_split(s: Seq<char>) -> Seq<Seq<char>>
    decreases s.len(),
{
    if s.len() == 0 {
        seq![Seq::<char>::empty()]
    } else if s.last() == '\n' {
        raw_split(s.drop_last()).push(Seq::<char>::empty())
    } else {
        let r = raw_split(s.drop_last());
        r.update(r.len() - 1, r.last().push(s.last()))
    }
}

/// The lines of `s`, as `str::lines` reads them: split at newlines, with no
/// empty piece after a trailing newline.
pub open spec fn spec_lines(s: Seq<char>) -> Seq<Seq<char>> {
    if s.len() == 0 {
        Seq::empty()
    } else if s.last() == '\n' {
        raw_split(s.drop_last())
    } else {
        raw_split(s)
    }
}

/// The groups of a row-major table: each line stripped of its whitespace.
pub open spec fn row_groups(ls: Seq<Seq<char>>) -> Seq<Seq<char>> {
    ls.map_values(|l: Seq<char>| strip(l))
}

/// The number of groups of a column-major table: the largest stripped line
/// length.
pub open spec fn col_cap(ls: Seq<Seq<char>>) -> int
    decreases ls.len(),
{
    if ls.len() == 0 {
        0
    } else {
        let rest = col_cap(ls.drop_last());
        let sl = strip(ls.last()).len() as int;
        if sl > rest {
            sl
        } else {
            rest
        }
    }
}

/// Group `j` of a column-major table: the non-whitespace characters standing
/// at position `j` of each line, in line order.
pub open spec fn col_group(ls: Seq<Seq<char>>, j: int) -> Seq<char>
    decreases ls.len(),
{
    if ls.len() == 0 {
        Seq::empty()
    } else {
        let rest = col_group(ls.drop_last(), j);
        let l = ls.last();
        if 0 <= j < l.len() && !wschar(l[j]) {
            rest.push(l[j])
        } else {
            rest
        }
    }
}

/// The groups of a column-major table.
pub open spec fn column_groups(ls: Seq<Seq<char>>) -> Seq<Seq<char>> {
    Seq::new(col_cap(ls) as nat, |j: int| col_group(ls, j))
}

/// The groups a source text parses to under the given rule.
pub open spec fn key_groups(s: Seq<char>, rule: KeyRule) -> Seq<Seq<char>> {
    match rule {
        KeyRule::Row => row_groups(spec_lines(s)),
        KeyRule::Column => column_groups(spec_lines(s)),
    }
}

/// No two groups are equal as whole character sequences.
pub open spec fn unique_groups(gs: Seq<Seq<char>>) -> bool {
    forall|i: int, j: int| 0 <= i < j < gs.len() ==> gs[i] != gs[j]
}

impl Key {
    /// The table as a sequence of character groups.
    pub open spec fn groups(&self) -> Seq<Seq<char>> {
        self.data.deep_view()
    }

    /// The `unique` flag tells the truth about the groups.
    pub open spec fn wf(&self) -> bool {
        self.unique == unique_groups(self.groups())
    }
}

proof fn lemma_strip_push(l: Seq<char>, c: char)
    ensures
        strip(l.push(c)) == if wschar(c) {
            strip(l)
        } else {
            strip(l).push(c)
        },
{
    reveal(Seq::filter);
    assert(l.push(c).drop_last() =~= l);
    assert(l.push(c).last() == c);
}

proof fn lemma_raw_split_push(s: Seq<char>, c: char)
    ensures
        c == '\n' ==> raw_split(s.push(c)) == raw_split(s).push(Seq::<char>::empty()),
        c != '\n' ==> raw_split(s.push(c)) == raw_split(s).update(
            raw_split(s).len() - 1,
            raw_split(s).last().push(c),
        ),
{
    assert(s.push(c).drop_last() =~= s);
    assert(s.push(c).last() == c);
}

/// Strips the whitespace out of one line.
fn strip_line(line: &str) -> (r: String)
    ensures
        r@ == strip(line@),
{
    let n = line.unicode_len();
    let mut out = String::new();
    let mut i: usize = 0;
    while i < n
        invariant
            i <= n,
            n == line@.len(),
            out@ == strip(line@.take(i as int)),
        decreases n - i,
    {
        let c = line.get_char(i);
        proof {
            assert(line@.take(i as int).push(c) =~= line@.take(i + 1 as int));
            lemma_strip_push(line@.take(i as int), c);
        }
        if !is_wschar(c) {
            push_char(&mut out, c);
        }
        i += 1;
    }
    proof {
        assert(line@.take(n as int) =~= line@);
    }
    out
}

/// Splits a source text into its lines.
fn split_lines(source: &str) -> (r: Vec<String>)
    ensures
        r.deep_view() == spec_lines(source@),
{
    let n = source.unicode_len();
    let mut acc: Vec<String> = Vec::new();
    let mut cur = String::new();
    let mut i: usize = 0;
    while i < n
        invariant
            i <= n,
            n == source@.len(),
            raw_split(source@.take(i as int)) == acc.deep_view().push(cur@),
        decreases n - i,
    {
        let c = source.get_char(i);
        proof {
            assert(source@.take(i as int).push(c) =~= source@.take(i + 1 as int));
            lemma_raw_split_push(source@.take(i as int), c);
        }
        if c == '\n' {
            let ghost prev = acc.deep_view();
            acc.push(cur);
            cur = String::new();
            proof {
                assert(acc.deep_view() =~= prev.push(raw_split(source@.take(i as int)).last()));
                assert(raw_split(source@.take(i + 1 as int)) =~= acc.deep_view().push(cur@));
            }
        } else {
            let ghost prevsplit = raw_split(source@.take(i as int));
            push_char(&mut cur, c);
            proof {
                assert(prevsplit.last() == cur@.drop_last());
                assert(raw_split(source@.take(i + 1 as int)) =~= acc.deep_view().push(cur@));
            }
        }
        i += 1;
    }
    proof {
        assert(source@.take(n as int) =~= source@);
    }
    if n > 0 {
        let c = source.get_char(n - 1);
        if c != '\n' {
            let ghost prev = acc.deep_view();
            acc.push(cur);
            proof {
                assert(acc.deep_view() =~= prev.push(raw_split(source@).last()));
            }
        } else {
            proof {
                assert(source@.drop_last() =~= source@.take(n - 1 as int));
                assert(raw_split(source@) == raw_split(source@.drop_last()).push(
                    Seq::<char>::empty(),
                )) by {
                    lemma_raw_split_push(source@.take(n - 1 as int), '\n');
                    assert(source@.take(n - 1 as int).push('\n') =~= source@);
                }
                assert(acc.deep_view().push(cur@).drop_last() =~= acc.deep_view());
                assert(raw_split(source@.drop_last()).push(Seq::<char>::empty()).drop_last() =~= raw_split(
                    source@.drop_last(),
                ));
                assert(acc.deep_view() =~= raw_split(source@.drop_last()));
            }
        }
    } else {
        proof {
            assert(acc.deep_view() =~= Seq::<Seq<char>>::empty());
        }
    }
    acc
}

proof fn lemma_col_cap_push(ls: Seq<Seq<char>>, l: Seq<char>)
    ensures
        col_cap(ls.push(l)) == if strip(l).len() > col_cap(ls) {
            strip(l).len() as int
        } else {
            col_cap(ls)
        },
{
    assert(ls.push(l).drop_last() =~= ls);
    assert(ls.push(l).last() == l);
}

proof fn lemma_col_group_push(ls: Seq<Seq<char>>, l: Seq<char>, j: int)
    ensures
        col_group(ls.push(l), j) == if 0 <= j < l.len() && !wschar(l[j]) {
            col_group(ls, j).push(l[j])
        } else {
            col_group(ls, j)
        },
{
    assert(ls.push(l).drop_last() =~= ls);
    assert(ls.push(l).last() == l);
}

/// Builds the row-major groups: one stripped line each.
fn build_row_groups(lines: &Vec<String>) -> (r: Vec<String>)
    ensures
        r.deep_view() == row_groups(lines.deep_view()),
{
    let mut out: Vec<String> = Vec::new();
    let mut k: usize = 0;
    while k < lines.len()
        invariant
            k <= lines.len(),
            out.deep_view() == row_groups(lines.deep_view().take(k as int)),
        decreases lines.len() - k,
    {
        let ghost prev = out.deep_view();
        let g = strip_line(lines[k].as_str());
        out.push(g);
        proof {
            assert(out.deep_view() =~= prev.push(g@));
            assert(out.deep_view() =~= row_groups(lines.deep_view().take(k + 1 as int)));
        }
        k += 1;
    }
    proof {
        assert(lines.deep_view().take(lines@.len() as int) =~= lines.deep_view());
    }
    out
}

/// The length of a line once its whitespace is removed.
fn stripped_len(line: &str) -> (r: usize)
    ensures
        r == strip(line@).len(),
{
    let s = strip_line(line);
    s.as_str().unicode_len()
}

/// The number of groups of a column-major table.
fn col_capacity(lines: &Vec<String>) -> (r: usize)
    ensures
        r as int == col_cap(lines.deep_view()),
{
    let mut cap: usize = 0;
    let mut k: usize = 0;
    while k < lines.len()
        invariant
            k <= lines.len(),
            cap as int == col_cap(lines.deep_view().take(k as int)),
        decreases lines.len() - k,
    {
        let sl = stripped_len(lines[k].as_str());
        proof {
            assert(lines.deep_view().take(k as int).push(lines.deep_view()[k as int])
                =~= lines.deep_view().take(k + 1 as int));
            lemma_col_cap_push(lines.deep_view().take(k as int), lines.deep_view()[k as int]);
        }
        if sl > cap {
            cap = sl;
        }
        k += 1;
    }
    proof {
        assert(lines.deep_view().take(lines@.len() as int) =~= lines.deep_view());
    }
    cap
}

/// Builds one column group: the non-whitespace characters at position `j`.
fn build_col_group(lines: &Vec<String>, j: usize) -> (r: String)
    ensures
        r@ == col_group(lines.deep_view(), j as int),
{
    let mut out = String::new();
    let mut k: usize = 0;
    while k < lines.len()
        invariant
            k <= lines.len(),
            out@ == col_group(lines.deep_view().take(k as int), j as int),
        decreases lines.len() - k,
    {
        proof {
            assert(lines.deep_view().take(k as int).push(lines.deep_view()[k as int])
                =~= lines.deep_view().take(k + 1 as int));
            lemma_col_group_push(
                lines.deep_view().take(k as int),
                lines.deep_view()[k as int],
                j as int,
            );
        }
        let line = lines[k].as_str();
        if j < line.unicode_len() {
            let c = line.get_char(j);
            if !is_wschar(c) {
                push_char(&mut out, c);
            }
        }
        k += 1;
    }
    proof {
        assert(lines.deep_view().take(lines@.len() as int) =~= lines.deep_view());
    }
    out
}

/// Builds the column-major groups.
fn build_column_groups(lines: &Vec<String>) -> (r: Vec<String>)
    ensures
        r.deep_view() == column_groups(lines.deep_view()),
{
    let cap = col_capacity(lines);
    let mut out: Vec<String> = Vec::new();
    let mut j: usize = 0;
    while j < cap
        invariant
            j <= cap,
            cap as int == col_cap(lines.deep_view()),
            out.deep_view().len() == j as int,
            forall|m: int|
                0 <= m < j as int ==> out.deep_view()[m] == col_group(lines.deep_view(), m),
        decreases cap - j,
    {
        let g = build_col_group(lines, j);
        out.push(g);
        j += 1;
    }
    proof {
        assert(out.deep_view() =~= column_groups(lines.deep_view()));
    }
    out
}

/// Checks whether the groups are pairwise distinct as whole strings.
fn compute_unique(data: &Vec<String>) -> (r: bool)
    ensures
        r == unique_groups(data.deep_view()),
{
    let ghost gs = data.deep_view();
    let n = data.len();
    let mut i: usize = 0;
    while i < n
        invariant
            i <= n,
            n == data@.len(),
            gs == data.deep_view(),
            forall|a: int, b: int| 0 <= a < b < gs.len() && a < i as int ==> gs[a] != gs[b],
        decreases n - i,
    {
        let mut j = i + 1;
        while j < n
            invariant
                i < j <= n || (i + 1 == j && j > n),
                i < n,
                n == data@.len(),
                gs == data.deep_view(),
                forall|b: int| (i as int) < b && b < (j as int) ==> gs[i as int] != gs[b],
            decreases n - j,
        {
            if data[i].eq(&data[j]) {
                proof {
                    assert(gs[i as int] == gs[j as int]);
                }
                return false;
            }
            j += 1;
        }
        i += 1;
    }
    true
}

/// The given lines joined with single newline separators.
pub open spec fn join_lines(gs: Seq<Seq<char>>) -> Seq<char>
    decreases gs.len(),
{
    if gs.len() == 0 {
        Seq::empty()
    } else if gs.len() == 1 {
        gs[0]
    } else {
        join_lines(gs.drop_last()) + seq!['\n'] + gs.last()
    }
}

/// The length of the longest group.
pub open spec fn max_group_len(gs: Seq<Seq<char>>) -> int
    decreases gs.len(),
{
    if gs.len() == 0 {
        0
    } else {
        let rest = max_group_len(gs.drop_last());
        if gs.last().len() > rest {
            gs.last().len() as int
        } else {
            rest
        }
    }
}

/// Output row `i` of a column-major serialization: each group's character
/// at position `i`, or a space where the group is too short.
pub open spec fn col_row(gs: Seq<Seq<char>>, i: int) -> Seq<char> {
    Seq::new(
        gs.len(),
        |k: int|
            if i < gs[k].len() {
                gs[k][i]
            } else {
                ' '
            },
    )
}

/// A column-major serialization: one output row per character position of
/// the longest group.
pub open spec fn column_text(gs: Seq<Seq<char>>) -> Seq<char> {
    join_lines(Seq::new(max_group_len(gs) as nat, |i: int| col_row(gs, i)))
}

/// What serializing a table under the given rule yields.
pub open spec fn key_text(gs: Seq<Seq<char>>, rule: KeyRule) -> Seq<char> {
    match rule {
        KeyRule::Row => join_lines(gs),
        KeyRule::Column => column_text(gs),
    }
}

proof fn lemma_join_lines_push(gs: Seq<Seq<char>>, l: Seq<char>)
    ensures
        join_lines(gs.push(l)) == if gs.len() == 0 {
            l
        } else {
            join_lines(gs) + seq!['\n'] + l
        },
{
    assert(gs.push(l).drop_last() =~= gs);
    assert(gs.push(l).last() == l);
    if gs.len() == 0 {
        assert(gs.push(l)[0] == l);
    }
}

proof fn lemma_max_group_len_push(gs: Seq<Seq<char>>, l: Seq<char>)
    ensures
        max_group_len(gs.push(l)) == if l.len() > max_group_len(gs) {
            l.len() as int
        } else {
            max_group_len(gs)
        },
{
    assert(gs.push(l).drop_last() =~= gs);
    assert(gs.push(l).last() == l);
}

/// Joins the given groups with newline separators.
fn join_groups(data: &Vec<String>) -> (r: String)
    ensures
        r@ == join_lines(data.deep_view()),
{
    let mut out = String::new();
    let mut k: usize = 0;
    while k < data.len()
        invariant
            k <= data.len(),
            out@ == join_lines(data.deep_view().take(k as int)),
        decreases data.len() - k,
    {
        proof {
            assert(data.deep_view().take(k as int).push(data.deep_view()[k as int])
                =~= data.deep_view().take(k + 1 as int));
            lemma_join_lines_push(data.deep_view().take(k as int), data.deep_view()[k as int]);
        }
        if k > 0 {
            push_char(&mut out, '\n');
        }
        out.append(data[k].as_str());
        proof {
            if k == 0 {
                assert(out@ =~= data.deep_view()[0]);
            } else {
                assert(out@ =~= join_lines(data.deep_view().take(k as int)) + seq!['\n']
                    + data.deep_view()[k as int]);
            }
        }
        k += 1;
    }
    proof {
        assert(data.deep_view().take(data@.len() as int) =~= data.deep_view());
    }
    out
}

/// The length of the longest group of the table.
fn max_len_of(data: &Vec<String>) -> (r: usize)
    ensures
        r as int == max_group_len(data.deep_view()),
{
    let mut max: usize = 0;
    let mut k: usize = 0;
    while k < data.len()
        invariant
            k <= data.len(),
            max as int == max_group_len(data.deep_view().take(k as int)),
        decreases data.len() - k,
    {
        proof {
            assert(data.deep_view().take(k as int).push(data.deep_view()[k as int])
                =~= data.deep_view().take(k + 1 as int));
            lemma_max_group_len_push(data.deep_view().take(k as int), data.deep_view()[k as int]);
        }
        let l = data[k].as_str().unicode_len();
        if l > max {
            max = l;
        }
        k += 1;
    }
    proof {
        assert(data.deep_view().take(data@.len() as int) =~= data.deep_view());
    }
    max
}

/// Builds output row `i` of a column-major serialization.
fn build_col_row(data: &Vec<String>, i: usize) -> (r: String)
    ensures
        r@ == col_row(data.deep_view(), i as int),
{
    let mut out = String::new();
    let mut k: usize = 0;
    while k < data.len()
        invariant
            k <= data.len(),
            out@.len() == k as int,
            forall|m: int| 0 <= m < k as int ==> out@[m] == col_row(data.deep_view(), i as int)[m],
        decreases data.len() - k,
    {
        let g = data[k].as_str();
        if i < g.unicode_len() {
            let c = g.get_char(i);
            push_char(&mut out, c);
        } else {
            push_char(&mut out, ' ');
        }
        k += 1;
    }
    proof {
        assert(out@ =~= col_row(data.deep_view(), i as int));
    }
    out
}

impl Key {
    /// Serializes the table back to text, the inverse of `read`: groups as
    /// lines under the `Row` rule, groups as character columns padded with
    /// spaces under the `Column` rule.
    pub fn to_text(&self) -> (r: String)
        ensures
            r@ == key_text(self.groups(), self.rule),
    {
        match self.rule {
            KeyRule::Row => join_groups(&self.data),
            KeyRule::Column => {
                let max = max_len_of(&self.data);
                let mut rows: Vec<String> = Vec::new();
                let mut i: usize = 0;
                while i < max
                    invariant
                        i <= max,
                        max as int == max_group_len(self.groups()),
                        rows.deep_view().len() == i as int,
                        forall|m: int|
                            0 <= m < i as int ==> rows.deep_view()[m] == col_row(self.groups(), m),
                    decreases max - i,
                {
                    let row = build_col_row(&self.data, i);
                    rows.push(row);
                    i += 1;
                }
                proof {
                    assert(rows.deep_view() =~= Seq::new(
                        max_group_len(self.groups()) as nat,
                        |i: int| col_row(self.groups(), i),
                    ));
                }
                join_groups(&rows)
            },
        }
    }
}

impl Key {
    /// Parses a key source under the given rule: one group per line with its
    /// whitespace removed (`Row`), or one group per character column with
    /// whitespace positions skipped (`Column`). The `unique` flag records
    /// whether the groups came out pairwise distinct.
    pub fn read(source: &str, rule: KeyRule) -> (r: Result<Key, CipherError>)
        ensures
            r matches Ok(k) && k.groups() == key_groups(source@, rule) && k.rule == rule
                && k.unique == unique_groups(key_groups(source@, rule)) && k.wf(),
    {
        let lines = split_lines(source);
        let data = match rule {
            KeyRule::Row => build_row_groups(&lines),
            KeyRule::Column => build_column_groups(&lines),
        };
        let unique = compute_unique(&data);
        Ok(Key { data, rule, unique })
    }
}

/// No character stands in two places of the table: character-level
/// uniqueness, strictly stronger than the whole-group `unique` flag.
pub open spec fn distinct_table_chars(gs: Seq<Seq<char>>) -> bool {
    forall|a: int, i: int, b: int, j: int|
        #![trigger gs[a][i], gs[b][j]]
        0 <= a < gs.len() && 0 <= i < gs[a].len() && 0 <= b < gs.len() && 0 <= j < gs[b].len()
            && (a != b || i != j) ==> gs[a][i] != gs[b][j]
}

proof fn lemma_permutation_facts(a: Seq<char>, b: Seq<char>)
    requires
        a.to_multiset() == b.to_multiset(),
    ensures
        forall|c: char| a.contains(c) == b.contains(c),
        a.no_duplicates() ==> b.no_duplicates(),
{
    broadcast use vstd::seq_lib::group_to_multiset_ensures;

    assert forall|c: char| a.contains(c) == b.contains(c) by {
        assert(a.contains(c) <==> a.to_multiset().count(c) > 0);
        assert(b.contains(c) <==> b.to_multiset().count(c) > 0);
    }
    if a.no_duplicates() {
        a.lemma_multiset_has_no_duplicates();
        b.lemma_multiset_has_no_duplicates_conv();
    }
}

/// Turns a vector of characters into the string of exactly them.
fn chars_to_string(v: &Vec<char>) -> (r: String)
    ensures
        r@ == v@,
{
    let mut out = String::new();
    let mut i: usize = 0;
    while i < v.len()
        invariant
            i <= v.len(),
            out@ == v@.take(i as int),
        decreases v.len() - i,
    {
        push_char(&mut out, v[i]);
        proof {
            assert(v@.take(i + 1 as int) =~= v@.take(i as int).push(v@[i as int]));
        }
        i += 1;
    }
    proof {
        assert(v@.take(v@.len() as int) =~= v@);
    }
    out
}

impl Key {
    /// Synthesizes a table from a shuffled copy of `char_range`: with
    /// `unique` each pool character is consumed at most once across the
    /// whole table, without it each group samples the full pool afresh. The
    /// `unique` flag of the result records, either way, whether the groups
    /// came out pairwise distinct.
    pub fn generate(
        rule: KeyRule,
        char_count: usize,
        max_sub_count: usize,
        char_range: Vec<char>,
        unique: bool,
    ) -> (r: Key)
        requires
            max_sub_count >= 1,
            !unique ==> char_range@.len() >= 1,
        ensures
            r.rule == rule,
            r.wf(),
            r.groups().len() == min(char_count as int, char_range@.len() as int),
            forall|k: int, m: int|
                0 <= k < r.groups().len() && 0 <= m < r.groups()[k].len()
                    ==> char_range@.contains(#[trigger] r.groups()[k][m]),
            forall|k: int|
                0 <= k < r.groups().len() ==> 1 <= (#[trigger] r.groups()[k]).len()
                    <= max_sub_count as int,
            unique && char_range@.no_duplicates() ==> distinct_table_chars(r.groups())
                && r.unique,
    {
        if unique {
            Key::unique_generate(rule, char_count, max_sub_count, char_range)
        } else {
            Key::non_unique_generate(rule, char_count, max_sub_count, char_range)
        }
    }

    /// Seeds one singleton group per pool character up to `char_count`, then
    /// extends each group with further pool characters, every character
    /// consumed at most once across the table.
    fn unique_generate(
        rule: KeyRule,
        char_count: usize,
        max_sub_count: usize,
        char_range: Vec<char>,
    ) -> (r: Key)
        requires
            max_sub_count >= 1,
        ensures
            r.rule == rule,
            r.wf(),
            r.groups().len() == min(char_count as int, char_range@.len() as int),
            forall|k: int, m: int|
                0 <= k < r.groups().len() && 0 <= m < r.groups()[k].len()
                    ==> char_range@.contains(#[trigger] r.groups()[k][m]),
            forall|k: int|
                0 <= k < r.groups().len() ==> 1 <= (#[trigger] r.groups()[k]).len()
                    <= max_sub_count as int,
            char_range@.no_duplicates() ==> distinct_table_chars(r.groups()) && r.unique,
    {
        let mut pool = char_range;
        let ghost orig = pool@;
        rand_shuffle(&mut pool);
        proof {
            lemma_permutation_facts(orig, pool@);
        }
        let plen = pool.len();
        let seeds = if char_count <= plen {
            char_count
        } else {
            plen
        };
        let mut used: usize = seeds;
        let ghost mut offs: Seq<int> = seq![seeds as int];
        let mut data: Vec<String> = Vec::new();
        let mut k: usize = 0;
        while k < seeds
            invariant
                k <= seeds,
                plen == pool@.len(),
                seeds <= plen,
                seeds <= used <= plen,
                max_sub_count >= 1,
                data.deep_view().len() == k as int,
                offs.len() == k + 1,
                offs[0] == seeds as int,
                offs.last() == used as int,
                forall|u: int, v: int| 0 <= u <= v < offs.len() ==> offs[u] <= offs[v],
                forall|t: int|
                    0 <= t < k as int ==> #[trigger] data.deep_view()[t] == seq![pool@[t]]
                        + pool@.subrange(offs[t], offs[t + 1]),
                forall|t: int|
                    0 <= t < k as int ==> 1 <= (#[trigger] data.deep_view()[t]).len()
                        <= max_sub_count as int,
            decreases seeds - k,
        {
            let mut g = String::new();
            push_char(&mut g, pool[k]);
            let rem = plen - used;
            let cap = if rem <= max_sub_count - 1 {
                rem
            } else {
                max_sub_count - 1
            };
            let amount = rand_index(cap + 1);
            let ghost start = used as int;
            let mut t: usize = 0;
            while t < amount
                invariant
                    t <= amount,
                    start == used as int,
                    plen == pool@.len(),
                    used + amount <= plen,
                    k < plen,
                    g@ == seq![pool@[k as int]] + pool@.subrange(start, start + t as int),
                decreases amount - t,
            {
                push_char(&mut g, pool[used + t]);
                proof {
                    assert(pool@.subrange(start, start + (t + 1) as int) =~= pool@.subrange(
                        start,
                        start + t as int,
                    ).push(pool@[start + t as int]));
                    assert(g@ =~= seq![pool@[k as int]] + pool@.subrange(
                        start,
                        start + (t + 1) as int,
                    ));
                }
                t += 1;
            }
            used += amount;
            let ghost prevoffs = offs;
            let ghost prevdv = data.deep_view();
            proof {
                offs = offs.push(used as int);
            }
            data.push(g);
            proof {
                assert(data.deep_view() =~= prevdv.push(g@));
                assert(offs.last() == used as int);
                assert forall|u: int, v: int| 0 <= u <= v < offs.len() implies offs[u]
                    <= offs[v] by {
                    if v < offs.len() - 1 {
                        assert(prevoffs[u] <= prevoffs[v]);
                    } else if u < offs.len() - 1 {
                        assert(prevoffs[u] <= prevoffs[prevoffs.len() - 1]);
                    }
                }
            }
            k += 1;
        }
        let ghost gs = data.deep_view();
        proof {
            assert forall|a: int, m: int|
                0 <= a < gs.len() && 0 <= m < gs[a].len() implies char_range@.contains(
                #[trigger] gs[a][m],
            ) by {
                assert(offs[a] <= offs[a + 1] && offs[a + 1] <= offs[offs.len() - 1]);
                if m == 0 {
                    assert(gs[a][m] == pool@[a]);
                    assert(pool@.contains(pool@[a]));
                } else {
                    let p = offs[a] + m - 1;
                    assert(gs[a][m] == pool@[p]);
                    assert(pool@.contains(pool@[p]));
                }
            }
            if orig.no_duplicates() {
                assert forall|a: int, i: int, b: int, j: int|
                    0 <= a < gs.len() && 0 <= i < gs[a].len() && 0 <= b < gs.len() && 0 <= j
                        < gs[b].len() && (a != b || i != j) implies #[trigger] gs[a][i]
                    != #[trigger] gs[b][j] by {
                    assert(offs[a] <= offs[a + 1] && offs[a + 1] <= offs[offs.len() - 1]);
                    assert(offs[b] <= offs[b + 1] && offs[b + 1] <= offs[offs.len() - 1]);
                    assert(offs[0] <= offs[a] && offs[0] <= offs[b]);
                    if a + 1 <= b {
                        assert(offs[a + 1] <= offs[b]);
                    }
                    if b + 1 <= a {
                        assert(offs[b + 1] <= offs[a]);
                    }
                    let p1 = if i == 0 {
                        a
                    } else {
                        offs[a] + i - 1
                    };
                    let p2 = if j == 0 {
                        b
                    } else {
                        offs[b] + j - 1
                    };
                    assert(gs[a][i] == pool@[p1]);
                    assert(gs[b][j] == pool@[p2]);
                    assert(p1 != p2);
                }
                assert(distinct_table_chars(gs));
                assert forall|a: int, b: int| 0 <= a < b < gs.len() implies gs[a] != gs[b] by {
                    assert(gs[a][0] != gs[b][0]);
                }
            }
        }
        let unique = compute_unique(&data);
        Key { data, rule, unique }
    }

    /// Forms up to `char_count` groups, each filled with a fresh sample of
    /// the pool, so characters may repeat across groups.
    fn non_unique_generate(
        rule: KeyRule,
        char_count: usize,
        max_sub_count: usize,
        char_range: Vec<char>,
    ) -> (r: Key)
        requires
            max_sub_count >= 1,
            char_range@.len() >= 1,
        ensures
            r.rule == rule,
            r.wf(),
            r.groups().len() == min(char_count as int, char_range@.len() as int),
            forall|k: int, m: int|
                0 <= k < r.groups().len() && 0 <= m < r.groups()[k].len()
                    ==> char_range@.contains(#[trigger] r.groups()[k][m]),
            forall|k: int|
                0 <= k < r.groups().len() ==> 1 <= (#[trigger] r.groups()[k]).len()
                    <= max_sub_count as int,
    {
        let mut pool = char_range;
        let ghost orig = pool@;
        rand_shuffle(&mut pool);
        proof {
            lemma_permutation_facts(orig, pool@);
        }
        let count = if char_count <= pool.len() {
            char_count
        } else {
            pool.len()
        };
        let mut data: Vec<String> = Vec::new();
        let mut k: usize = 0;
        while k < count
            invariant
                k <= count,
                count <= pool@.len(),
                pool@.len() >= 1,
                max_sub_count >= 1,
                forall|c: char| orig.contains(c) == pool@.contains(c),
                data.deep_view().len() == k as int,
                forall|t: int, m: int|
                    0 <= t < k as int && 0 <= m < data.deep_view()[t].len() ==> orig.contains(
                        #[trigger] data.deep_view()[t][m],
                    ),
                forall|t: int|
                    0 <= t < k as int ==> 1 <= (#[trigger] data.deep_view()[t]).len()
                        <= max_sub_count as int,
            decreases count - k,
        {
            let cap = if max_sub_count <= pool.len() {
                max_sub_count
            } else {
                pool.len()
            };
            let amount = rand_index(cap) + 1;
            let sample = rand_sample(&pool, amount);
            let g = chars_to_string(&sample);
            let ghost prevdv = data.deep_view();
            data.push(g);
            proof {
                assert(data.deep_view() =~= prevdv.push(g@));
            }
            k += 1;
        }
        let unique = compute_unique(&data);
        Key { data, rule, unique }
    }
}

} // verus!

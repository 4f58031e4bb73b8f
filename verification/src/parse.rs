//! Extraction of localization entries from UTF-8 text.
//!
//! An entry line has the exact shape `"key" = "value";` with nothing before
//! or after. The key is everything between the opening quote and the last
//! occurrence of the `" = "` separator that still leaves room for the closing
//! `";`, so keys and values may themselves contain quotes. Lines of any other
//! shape (comments, blank lines, spans of multi-line values) are skipped.

use crate::table::LocalizationTable;
use vstd::prelude::*;

verus! {

/// How many `%` placeholder characters a value holds. This is a bare
/// character count, not a parse of format specifiers: `%%` counts twice.
pub open spec fn percent_count(s: Seq<char>) -> nat
    decreases s.len(),
{
    if s.len() == 0 {
        0
    } else {
        percent_count(s.drop_last()) + (if s.last() == '%' {
            1nat
        } else {
            0nat
        })
    }
}

/// The five-character separator `" = "` (closing quote of the key, ` = `,
/// opening quote of the value) starts at position `i` of the line, after the
/// opening quote and leaving room for the trailing `";`.
pub open spec fn is_sep_at(line: Seq<char>, i: int) -> bool {
    &&& 1 <= i
    &&& i + 5 <= line.len() - 2
    &&& line[i] == '"'
    &&& line[i + 1] == ' '
    &&& line[i + 2] == '='
    &&& line[i + 3] == ' '
    &&& line[i + 4] == '"'
}

/// The largest separator position at or below `i`, or -1 if there is none.
/// Taking the largest one makes the key as long as possible, which is how a
/// greedy match of `"anything" = "anything";` divides the line.
pub open spec fn last_sep_before(line: Seq<char>, i: int) -> int
    decreases i,
{
    if i < 1 {
        -1
    } else if is_sep_at(line, i) {
        i
    } else {
        last_sep_before(line, i - 1)
    }
}

/// The separator position that a match of the line uses, or -1.
pub open spec fn sep_index(line: Seq<char>) -> int {
    last_sep_before(line, line.len() - 7)
}

/// The fixed outer shape of an entry line: an opening quote and a closing
/// `";`, with at least `"" = "";` in between.
pub open spec fn line_shape_ok(line: Seq<char>) -> bool {
    &&& line.len() >= 8
    &&& line[0] == '"'
    &&& line[line.len() - 2] == '"'
    &&& line[line.len() - 1] == ';'
}

/// Whether a line is an entry line.
pub open spec fn line_matches(line: Seq<char>) -> bool {
    &&& line_shape_ok(line)
    &&& sep_index(line) >= 1
}

/// The key of a matching line: between the opening quote and the separator.
pub open spec fn parsed_key(line: Seq<char>) -> Seq<char> {
    line.subrange(1, sep_index(line))
}

/// The value of a matching line: between the separator and the closing `";`.
pub open spec fn parsed_value(line: Seq<char>) -> Seq<char> {
    line.subrange(sep_index(line) + 5, line.len() - 2)
}

proof fn lemma_last_sep_before_none(line: Seq<char>, i: int)
    requires
        forall|j: int| 1 <= j <= i ==> !is_sep_at(line, j),
    ensures
        last_sep_before(line, i) == -1,
    decreases i,
{
    if i >= 1 {
        lemma_last_sep_before_none(line, i - 1);
    }
}

proof fn lemma_last_sep_before_found(line: Seq<char>, i: int, s: int)
    requires
        1 <= s <= i,
        is_sep_at(line, s),
        forall|j: int| s < j <= i ==> !is_sep_at(line, j),
    ensures
        last_sep_before(line, i) == s,
    decreases i,
{
    if i > s {
        lemma_last_sep_before_found(line, i - 1, s);
    }
}

/// Reports whether the separator `" = "` sits at position `j` of the line.
fn sep_at(line: &str, j: usize, n: usize) -> (b: bool)
    requires
        n == line@.len(),
        1 <= j,
        j + 7 <= n,
    ensures
        b == is_sep_at(line@, j as int),
{
    line.get_char(j) == '"' && line.get_char(j + 1) == ' ' && line.get_char(j + 2) == '='
        && line.get_char(j + 3) == ' ' && line.get_char(j + 4) == '"'
}

/// Parses one line. Returns the key and the value's placeholder count when
/// the line is an entry line, and `None` when it is not.
pub fn parse_line(line: &str) -> (r: Option<(String, usize)>)
    ensures
        r is Some <==> line_matches(line@),
        r matches Some(kc) ==> kc.0@ == parsed_key(line@) && kc.1 as nat == percent_count(
            parsed_value(line@),
        ),
{
    let n = line.unicode_len();
    if n < 8 {
        return None;
    }
    if line.get_char(0) != '"' || line.get_char(n - 2) != '"' || line.get_char(n - 1) != ';' {
        return None;
    }
    // Scan for the last separator position in [1, n - 7].
    let mut j: usize = 1;
    let mut si: usize = 0;
    while j <= n - 7
        invariant
            n == line@.len(),
            8 <= n,
            1 <= j <= n - 6,
            si == 0 ==> forall|t: int| 1 <= t < j ==> !is_sep_at(line@, t),
            si >= 1 ==> si < j && is_sep_at(line@, si as int) && forall|t: int|
                si < t < j ==> !is_sep_at(line@, t),
        decreases n - j,
    {
        if sep_at(line, j, n) {
            si = j;
        }
        j += 1;
    }
    proof {
        if si == 0 {
            lemma_last_sep_before_none(line@, n as int - 7);
        } else {
            lemma_last_sep_before_found(line@, n as int - 7, si as int);
        }
    }
    if si == 0 {
        return None;
    }
    let key = line.substring_char(1, si).to_owned();
    let mut count: usize = 0;
    let mut p: usize = si + 5;
    while p < n - 2
        invariant
            n == line@.len(),
            8 <= n,
            1 <= si,
            si + 5 <= p <= n - 2,
            count <= p - (si + 5),
            count as nat == percent_count(line@.subrange(si as int + 5, p as int)),
        decreases n - p,
    {
        let c = line.get_char(p);
        p += 1;
        proof {
            let pre = line@.subrange(si as int + 5, p as int - 1);
            let cur = line@.subrange(si as int + 5, p as int);
            assert(cur.drop_last() =~= pre);
            assert(cur.last() == line@[p as int - 1]);
        }
        if c == '%' {
            count += 1;
        }
    }
    proof {
        assert(line@.subrange(si as int + 5, n as int - 2) =~= parsed_value(line@));
    }
    Some((key, count))
}

/// The position of the first newline at or after `i`, or the text's length
/// if there is none.
pub open spec fn first_newline_from(s: Seq<char>, i: int) -> int
    decreases s.len() - i,
{
    if i < 0 || i >= s.len() {
        s.len() as int
    } else if s[i] == '\n' {
        i
    } else {
        first_newline_from(s, i + 1)
    }
}

proof fn lemma_first_newline_from(s: Seq<char>, i: int)
    requires
        0 <= i <= s.len(),
    ensures
        i <= first_newline_from(s, i) <= s.len(),
        first_newline_from(s, i) < s.len() ==> s[first_newline_from(s, i)] == '\n',
        forall|j: int| i <= j < first_newline_from(s, i) ==> s[j] != '\n',
    decreases s.len() - i,
{
    if i < s.len() && s[i] != '\n' {
        lemma_first_newline_from(s, i + 1);
    }
}

/// A line with one trailing carriage return removed, as `str::lines` does.
pub open spec fn strip_cr(l: Seq<char>) -> Seq<char> {
    if l.len() > 0 && l[l.len() - 1] == '\r' {
        l.drop_last()
    } else {
        l
    }
}

/// The lines of a text, split at `'\n'`, each stripped of one trailing
/// `'\r'`; a final newline does not open an extra empty line. This follows
/// `str::lines`.
pub open spec fn spec_lines(s: Seq<char>) -> Seq<Seq<char>>
    decreases s.len(),
    via spec_lines_decreases
{
    if s.len() == 0 {
        Seq::empty()
    } else {
        let i = first_newline_from(s, 0);
        if i == s.len() {
            seq![strip_cr(s)]
        } else {
            seq![strip_cr(s.take(i))] + spec_lines(s.skip(i + 1))
        }
    }
}

#[via_fn]
proof fn spec_lines_decreases(s: Seq<char>) {
    if s.len() > 0 {
        lemma_first_newline_from(s, 0);
    }
}

proof fn lemma_first_newline_shift(s: Seq<char>, p: int, i: int)
    requires
        0 <= p,
        0 <= i,
        p + i <= s.len(),
    ensures
        first_newline_from(s.skip(p), i) == first_newline_from(s, p + i) - p,
    decreases s.len() - p - i,
{
    if p + i < s.len() {
        assert(s.skip(p)[i] == s[p + i]);
        if s[p + i] != '\n' {
            lemma_first_newline_shift(s, p, i + 1);
        }
    }
}

/// Splits a text into its lines, as `str::lines` would.
pub fn split_lines(text: &str) -> (lines: Vec<String>)
    ensures
        lines@.map_values(|l: String| l@) == spec_lines(text@),
{
    let n = text.unicode_len();
    let mut lines: Vec<String> = Vec::new();
    let mut p: usize = 0;
    proof {
        assert(text@.skip(0) =~= text@);
    }
    while p < n
        invariant
            n == text@.len(),
            p <= n,
            spec_lines(text@) == lines@.map_values(|l: String| l@) + spec_lines(
                text@.skip(p as int),
            ),
        decreases n - p,
    {
        let ghost p0 = p as int;
        let ghost su = text@.skip(p0);
        let mut q: usize = p;
        while q < n && text.get_char(q) != '\n'
            invariant
                n == text@.len(),
                p <= q <= n,
                forall|j: int| p <= j < q ==> text@[j] != '\n',
            decreases n - q,
        {
            q += 1;
        }
        proof {
            lemma_first_newline_from(text@, p0);
            lemma_first_newline_shift(text@, p0, 0);
            let f = first_newline_from(text@, p0);
            if q < n {
                assert(text@[q as int] == '\n');
                assert(f <= q as int);
                assert(f >= q as int) by {
                    if f < q as int {
                        assert(text@[f] == '\n');
                    }
                }
            } else {
                assert(f == n as int) by {
                    if f < n as int {
                        assert(text@[f] == '\n');
                    }
                }
            }
            assert(first_newline_from(su, 0) == q as int - p0);
        }
        let mut end: usize = q;
        if q > p && text.get_char(q - 1) == '\r' {
            end = q - 1;
        }
        let piece = text.substring_char(p, end).to_owned();
        proof {
            assert(su.take(q as int - p0) =~= text@.subrange(p0, q as int));
            if q > p && text@[q as int - 1] == '\r' {
                assert(text@.subrange(p0, q as int).drop_last() =~= text@.subrange(
                    p0,
                    q as int - 1,
                ));
                assert(piece@ == strip_cr(text@.subrange(p0, q as int)));
            } else {
                assert(piece@ == strip_cr(text@.subrange(p0, q as int)));
            }
        }
        let ghost old_lines = lines@;
        lines.push(piece);
        if q < n {
            p = q + 1;
        } else {
            p = n;
        }
        proof {
            assert(lines@.map_values(|l: String| l@) =~= old_lines.map_values(|l: String| l@)
                + seq![piece@]);
            if q < n {
                assert(su.skip(q as int - p0 + 1) =~= text@.skip(q as int + 1));
                assert(spec_lines(su) == seq![strip_cr(su.take(q as int - p0))] + spec_lines(
                    text@.skip(p as int),
                ));
                assert(spec_lines(text@) =~= lines@.map_values(|l: String| l@) + spec_lines(
                    text@.skip(p as int),
                ));
            } else {
                assert(su =~= text@.subrange(p0, q as int));
                assert(spec_lines(su) == seq![strip_cr(su)]);
                assert(text@.skip(n as int) =~= Seq::<char>::empty());
                assert(spec_lines(text@) =~= lines@.map_values(|l: String| l@) + spec_lines(
                    text@.skip(p as int),
                ));
            }
        }
    }
    proof {
        assert(text@.skip(n as int) =~= Seq::<char>::empty());
        assert(lines@.map_values(|l: String| l@) =~= spec_lines(text@));
    }
    lines
}

/// The table that a sequence of lines describes: every matching line binds
/// its key to its value's placeholder count, later lines overriding earlier
/// ones.
pub open spec fn table_of_lines(lines: Seq<Seq<char>>) -> Map<Seq<char>, nat>
    decreases lines.len(),
{
    if lines.len() == 0 {
        Map::empty()
    } else {
        let m = table_of_lines(lines.drop_last());
        if line_matches(lines.last()) {
            m.insert(parsed_key(lines.last()), percent_count(parsed_value(lines.last())))
        } else {
            m
        }
    }
}

/// The table that a whole text describes.
pub open spec fn table_of_text(s: Seq<char>) -> Map<Seq<char>, nat> {
    table_of_lines(spec_lines(s))
}

/// Builds the localization table of a recoded UTF-8 text: one binding per
/// matching line, a later line for a key overwriting an earlier one, every
/// other line ignored. A text without matching lines gives the empty table.
pub fn extract(text: &str) -> (t: LocalizationTable)
    ensures
        t.wf(),
        t@ == table_of_text(text@),
{
    let lines = split_lines(text);
    let ghost lv = spec_lines(text@);
    let mut t = LocalizationTable::new();
    let mut i: usize = 0;
    proof {
        assert(lv.take(0) =~= Seq::<Seq<char>>::empty());
    }
    while i < lines.len()
        invariant
            t.wf(),
            i <= lines@.len(),
            lines@.map_values(|l: String| l@) == lv,
            lv == spec_lines(text@),
            t@ == table_of_lines(lv.take(i as int)),
        decreases lines@.len() - i,
    {
        proof {
            assert(lv.take(i as int + 1).drop_last() =~= lv.take(i as int));
            assert(lv.take(i as int + 1).last() == lv[i as int]);
            assert(lines@[i as int]@ == lv[i as int]);
        }
        match parse_line(lines[i].as_str()) {
            Some((k, c)) => {
                t.insert(k, c);
            },
            None => {},
        }
        i += 1;
    }
    proof {
        assert(lv.take(lines@.len() as int) =~= lv);
    }
    t
}

/// Law: extraction is a pure function of the text, so parsing the same file
/// twice yields the identical table.
pub proof fn lemma_extract_idempotent(
    s: Seq<char>,
    m1: Map<Seq<char>, nat>,
    m2: Map<Seq<char>, nat>,
)
    requires
        m1 == table_of_text(s),
        m2 == table_of_text(s),
    ensures
        m1 == m2,
{
}

} // verus!

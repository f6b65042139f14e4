use vstd::prelude::*;

verus! {

/// How one table cell is wrapped in the produced markup.
#[derive(Clone, Copy, PartialEq, Eq, Structural, Debug)]
pub enum CellType {
    /// Regular text: the cell content between square brackets.
    SquareBrackets,
    /// Equation: the cell content between dollar signs.
    Dollars,
}

impl Default for CellType {
    fn default() -> (r: CellType)
        ensures
            r == CellType::SquareBrackets,
    {
        CellType::SquareBrackets
    }
}

/// The decimal-comma fix applied to every character: a comma becomes a dot.
pub open spec fn dot_for_comma(c: char) -> char {
    if c == ',' {
        '.'
    } else {
        c
    }
}

/// The parts of `s` between occurrences of `sep`; always at least one
/// part, and an empty input gives one empty part.
pub open spec fn split_by(s: Seq<char>, sep: char) -> Seq<Seq<char>>
    decreases s.len(),
{
    if s.len() == 0 {
        seq![s]
    } else if s[0] == sep {
        seq![Seq::<char>::empty()] + split_by(s.drop_first(), sep)
    } else {
        let rest = split_by(s.drop_first(), sep);
        seq![seq![s[0]] + rest[0]] + rest.drop_first()
    }
}

/// A trailing carriage return is dropped, as the line splitting of the
/// standard library does inside a `\r\n` line ending.
pub open spec fn strip_cr(line: Seq<char>) -> Seq<char> {
    if line.len() > 0 && line.last() == '\r' {
        line.drop_last()
    } else {
        line
    }
}

/// The lines of `s`: split at `\n`, one optional final line ending
/// ignored, and a `\r` belonging to a `\r\n` ending dropped. A lone
/// trailing `\r` of the last line, with no newline after it, stays.
pub open spec fn lines_of(s: Seq<char>) -> Seq<Seq<char>> {
    if s.len() == 0 {
        Seq::empty()
    } else {
        let body = if s.last() == '\n' {
            s.drop_last()
        } else {
            s
        };
        let raw = split_by(body, '\n');
        Seq::new(
            raw.len(),
            |j: int|
                if j < raw.len() - 1 || s.last() == '\n' {
                    strip_cr(raw[j])
                } else {
                    raw[j]
                },
        )
    }
}

/// One cell of the produced markup: the element between its delimiters,
/// followed by a separating comma and space.
pub open spec fn wrapped(elem: Seq<char>, select: CellType) -> Seq<char> {
    match select {
        CellType::SquareBrackets => "["@ + elem + "], "@,
        CellType::Dollars => "$"@ + elem + "$, "@,
    }
}

/// All parts of one line wrapped and concatenated, in order.
pub open spec fn concat_wrapped(parts: Seq<Seq<char>>, select: CellType) -> Seq<char>
    decreases parts.len(),
{
    if parts.len() == 0 {
        Seq::empty()
    } else {
        wrapped(parts[0], select) + concat_wrapped(parts.drop_first(), select)
    }
}

/// One produced table row: indented, each tab-separated element wrapped,
/// and a final newline.
pub open spec fn converted_line(line: Seq<char>, select: CellType) -> Seq<char> {
    "  "@ + concat_wrapped(split_by(line, '\t'), select) + "\n"@
}

/// All produced table rows, in order.
pub open spec fn concat_converted_lines(ls: Seq<Seq<char>>, select: CellType) -> Seq<char>
    decreases ls.len(),
{
    if ls.len() == 0 {
        Seq::empty()
    } else {
        converted_line(ls[0], select) + concat_converted_lines(ls.drop_first(), select)
    }
}

/// The column count: the number of tab-separated elements of the first
/// line, or zero where there is no line at all.
pub open spec fn columns_of(ls: Seq<Seq<char>>) -> nat {
    if ls.len() == 0 {
        0
    } else {
        split_by(ls[0], '\t').len()
    }
}

/// One decimal digit as a character sequence; `d` at least 10 is clamped
/// to the last digit.
pub open spec fn digit_seq(d: nat) -> Seq<char> {
    if d == 0 {
        "0"@
    } else if d == 1 {
        "1"@
    } else if d == 2 {
        "2"@
    } else if d == 3 {
        "3"@
    } else if d == 4 {
        "4"@
    } else if d == 5 {
        "5"@
    } else if d == 6 {
        "6"@
    } else if d == 7 {
        "7"@
    } else if d == 8 {
        "8"@
    } else {
        "9"@
    }
}

/// The decimal digits of `n`, most significant first, no leading zero
/// except for `n == 0` itself.
pub open spec fn dec_rep(n: nat) -> Seq<char>
    decreases n,
{
    if n < 10 {
        digit_seq(n)
    } else {
        dec_rep(n / 10) + digit_seq(n % 10)
    }
}

/// The whole produced markup for an input table: commas turned into
/// dots, then a `#table` call listing the column count and every line's
/// wrapped cells.
pub open spec fn converted_table(s: Seq<char>, select: CellType) -> Seq<char> {
    let ls = lines_of(s.map_values(|c: char| dot_for_comma(c)));
    "#table(\n  columns: "@ + dec_rep(columns_of(ls)) + ",\n"@ + concat_converted_lines(ls, select)
        + ")"@
}

/// A separator-free input is a single part.
pub proof fn lemma_split_by_no_sep(s: Seq<char>, sep: char)
    requires
        forall|k: int| 0 <= k < s.len() ==> s[k] != sep,
    ensures
        split_by(s, sep) == seq![s],
    decreases s.len(),
{
    if s.len() == 0 {
    } else {
        assert forall|k: int| 0 <= k < s.drop_first().len() implies s.drop_first()[k] != sep by {
            assert(s.drop_first()[k] == s[k + 1]);
        }
        lemma_split_by_no_sep(s.drop_first(), sep);
        assert(seq![s[0]] + s.drop_first() =~= s);
        assert(split_by(s, sep) =~~= seq![s]);
    }
}

/// Splitting around the first separator: a separator-free prefix becomes
/// the first part, and the rest is split on its own.
pub proof fn lemma_split_by_mid(elem: Seq<char>, rest: Seq<char>, sep: char)
    requires
        forall|k: int| 0 <= k < elem.len() ==> elem[k] != sep,
    ensures
        split_by(elem + seq![sep] + rest, sep) == seq![elem] + split_by(rest, sep),
    decreases elem.len(),
{
    let s = elem + seq![sep] + rest;
    if elem.len() == 0 {
        assert(s[0] == sep);
        assert(s.drop_first() =~= rest);
        assert(split_by(s, sep) =~~= seq![elem] + split_by(rest, sep));
    } else {
        assert(s[0] == elem[0]);
        assert(s.drop_first() =~= elem.drop_first() + seq![sep] + rest);
        assert forall|k: int| 0 <= k < elem.drop_first().len() implies elem.drop_first()[k]
            != sep by {
            assert(elem.drop_first()[k] == elem[k + 1]);
        }
        lemma_split_by_mid(elem.drop_first(), rest, sep);
        let r = split_by(elem.drop_first() + seq![sep] + rest, sep);
        assert(r == seq![elem.drop_first()] + split_by(rest, sep));
        assert(seq![s[0]] + r[0] =~= elem);
        assert(r.drop_first() =~~= split_by(rest, sep));
        assert(split_by(s, sep) =~~= seq![elem] + split_by(rest, sep));
    }
}

/// Wrapping distributes over appending one more part at the end.
pub proof fn lemma_concat_wrapped_snoc(parts: Seq<Seq<char>>, p: Seq<char>, select: CellType)
    ensures
        concat_wrapped(parts.push(p), select) == concat_wrapped(parts, select) + wrapped(p, select),
    decreases parts.len(),
{
    if parts.len() == 0 {
        assert(parts.push(p)[0] == p);
        assert(parts.push(p).drop_first() =~~= parts);
        assert(concat_wrapped(parts.push(p), select) =~= concat_wrapped(parts, select) + wrapped(
            p,
            select,
        ));
    } else {
        assert(parts.push(p).drop_first() =~~= parts.drop_first().push(p));
        lemma_concat_wrapped_snoc(parts.drop_first(), p, select);
        assert(parts.push(p)[0] == parts[0]);
        assert(concat_wrapped(parts.push(p), select) == wrapped(parts[0], select) + concat_wrapped(
            parts.drop_first().push(p),
            select,
        ));
        assert(concat_wrapped(parts, select) == wrapped(parts[0], select) + concat_wrapped(
            parts.drop_first(),
            select,
        ));
        assert(concat_wrapped(parts.push(p), select) =~= concat_wrapped(parts, select) + wrapped(
            p,
            select,
        ));
    }
}

/// Row production distributes over appending one more line at the end.
pub proof fn lemma_concat_lines_snoc(ls: Seq<Seq<char>>, l: Seq<char>, select: CellType)
    ensures
        concat_converted_lines(ls.push(l), select) == concat_converted_lines(ls, select)
            + converted_line(l, select),
    decreases ls.len(),
{
    if ls.len() == 0 {
        assert(ls.push(l)[0] == l);
        assert(ls.push(l).drop_first() =~~= ls);
        assert(concat_converted_lines(ls.push(l), select) =~= concat_converted_lines(ls, select)
            + converted_line(l, select));
    } else {
        assert(ls.push(l).drop_first() =~~= ls.drop_first().push(l));
        lemma_concat_lines_snoc(ls.drop_first(), l, select);
        assert(ls.push(l)[0] == ls[0]);
        assert(concat_converted_lines(ls.push(l), select) == converted_line(ls[0], select)
            + concat_converted_lines(ls.drop_first().push(l), select));
        assert(concat_converted_lines(ls, select) == converted_line(ls[0], select)
            + concat_converted_lines(ls.drop_first(), select));
        assert(concat_converted_lines(ls.push(l), select) =~= concat_converted_lines(ls, select)
            + converted_line(l, select));
    }
}

/// Relies on String::push: appends exactly the given character.
#[verifier::external_body]
fn push_char(s: &mut String, c: char)
    ensures
        final(s)@ == old(s)@.push(c),
{
    s.push(c);
}

/// The parts of `s` between occurrences of `sep`, as owned strings.
fn split_str(s: &str, sep: char) -> (parts: Vec<String>)
    ensures
        parts@.map_values(|p: String| p@) == split_by(s@, sep),
{
    let n = s.unicode_len();
    let mut parts: Vec<String> = Vec::new();
    let mut start: usize = 0;
    let mut i: usize = 0;
    proof {
        assert(parts@.map_values(|p: String| p@) =~~= Seq::<Seq<char>>::empty());
        assert(s@.skip(0) =~= s@);
        assert(Seq::<Seq<char>>::empty() + split_by(s@, sep) =~~= split_by(s@, sep));
    }
    while i < n
        invariant
            n == s@.len(),
            start <= i <= n,
            forall|k: int| start <= k < i ==> s@[k] != sep,
            split_by(s@, sep) == parts@.map_values(|p: String| p@) + split_by(
                s@.skip(start as int),
                sep,
            ),
        decreases n - i,
    {
        let c = s.get_char(i);
        if c == sep {
            let part = s.substring_char(start, i);
            let ghost old_map = parts@.map_values(|p: String| p@);
            parts.push(String::from_str(part));
            proof {
                let elem = s@.subrange(start as int, i as int);
                assert(s@[i as int] == sep);
                assert(s@.skip(start as int) =~= elem + seq![sep] + s@.skip(i as int + 1));
                lemma_split_by_mid(elem, s@.skip(i as int + 1), sep);
                assert(parts@.map_values(|p: String| p@) =~~= old_map.push(elem));
                assert(old_map + seq![elem] =~~= old_map.push(elem));
            }
            start = i + 1;
        }
        i = i + 1;
    }
    let part = s.substring_char(start, n);
    let ghost old_map = parts@.map_values(|p: String| p@);
    parts.push(String::from_str(part));
    proof {
        let elem = s@.skip(start as int);
        assert(elem =~= s@.subrange(start as int, n as int));
        assert forall|k: int| 0 <= k < elem.len() implies elem[k] != sep by {
            assert(elem[k] == s@[start + k]);
        }
        lemma_split_by_no_sep(elem, sep);
        assert(parts@.map_values(|p: String| p@) =~~= old_map.push(elem));
        assert(old_map + seq![elem] =~~= old_map.push(elem));
        assert(parts@.map_values(|p: String| p@) =~~= split_by(s@, sep));
    }
    parts
}

/// A copy of `p` with a trailing carriage return dropped.
fn strip_cr_string(p: &str) -> (out: String)
    ensures
        out@ == strip_cr(p@),
{
    let n = p.unicode_len();
    if n > 0 && p.get_char(n - 1) == '\r' {
        let out = String::from_str(p.substring_char(0, n - 1));
        proof {
            assert(p@.subrange(0, n - 1 as int) =~= p@.drop_last());
        }
        out
    } else {
        String::from_str(p)
    }
}

/// The lines of `s`, as the line splitting of the standard library
/// produces them.
fn lines_list(s: &str) -> (ls: Vec<String>)
    ensures
        ls@.map_values(|l: String| l@) == lines_of(s@),
{
    let n = s.unicode_len();
    if n == 0 {
        let empty: Vec<String> = Vec::new();
        proof {
            assert(empty@.map_values(|l: String| l@) =~~= lines_of(s@));
        }
        return empty;
    }
    let ends_nl = s.get_char(n - 1) == '\n';
    let body = if ends_nl {
        s.substring_char(0, n - 1)
    } else {
        s
    };
    proof {
        if ends_nl {
            assert(body@ =~= s@.drop_last());
        }
    }
    let raw = split_str(body, '\n');
    let ghost raw_v = raw@.map_values(|p: String| p@);
    let mut ls: Vec<String> = Vec::new();
    let mut j: usize = 0;
    while j < raw.len()
        invariant
            n == s@.len(),
            n > 0,
            j <= raw.len(),
            ends_nl == (s@.last() == '\n'),
            raw_v == raw@.map_values(|p: String| p@),
            raw_v == split_by(
                if ends_nl {
                    s@.drop_last()
                } else {
                    s@
                },
                '\n',
            ),
            lines_of(s@).len() == raw_v.len(),
            ls@.map_values(|l: String| l@) == lines_of(s@).take(j as int),
        decreases raw.len() - j,
    {
        let ghost old_map = ls@.map_values(|l: String| l@);
        if j + 1 < raw.len() || ends_nl {
            ls.push(strip_cr_string(raw[j].as_str()));
        } else {
            ls.push(raw[j].clone());
        }
        proof {
            assert(ls@.map_values(|l: String| l@) =~~= old_map.push(lines_of(s@)[j as int]));
            assert(lines_of(s@).take(j + 1 as int) =~~= lines_of(s@).take(j as int).push(
                lines_of(s@)[j as int],
            ));
        }
        j = j + 1;
    }
    proof {
        assert(lines_of(s@).take(raw_v.len() as int) =~~= lines_of(s@));
    }
    ls
}

/// A copy of `s` with every comma turned into a dot.
fn replace_commas(s: &str) -> (out: String)
    ensures
        out@ == s@.map_values(|c: char| dot_for_comma(c)),
{
    let n = s.unicode_len();
    let mut out = String::new();
    let mut i: usize = 0;
    while i < n
        invariant
            n == s@.len(),
            i <= n,
            out@ == s@.take(i as int).map_values(|c: char| dot_for_comma(c)),
        decreases n - i,
    {
        let c = s.get_char(i);
        if c == ',' {
            push_char(&mut out, '.');
        } else {
            push_char(&mut out, c);
        }
        proof {
            assert(s@.take(i + 1 as int).map_values(|c: char| dot_for_comma(c)) =~= s@.take(
                i as int,
            ).map_values(|c: char| dot_for_comma(c)).push(dot_for_comma(s@[i as int])));
        }
        i = i + 1;
    }
    proof {
        assert(s@.take(n as int) =~= s@);
    }
    out
}

/// One decimal digit as a string slice.
fn digit_str(d: usize) -> (s: &'static str)
    requires
        d < 10,
    ensures
        s@ == digit_seq(d as nat),
{
    if d == 0 {
        "0"
    } else if d == 1 {
        "1"
    } else if d == 2 {
        "2"
    } else if d == 3 {
        "3"
    } else if d == 4 {
        "4"
    } else if d == 5 {
        "5"
    } else if d == 6 {
        "6"
    } else if d == 7 {
        "7"
    } else if d == 8 {
        "8"
    } else {
        "9"
    }
}

/// The decimal representation of `n`.
fn dec_string(n: usize) -> (out: String)
    ensures
        out@ == dec_rep(n as nat),
    decreases n,
{
    if n < 10 {
        String::from_str(digit_str(n))
    } else {
        let mut out = dec_string(n / 10);
        out.append(digit_str(n % 10));
        out
    }
}

/// One input line turned into one row of the produced markup: two spaces
/// of indentation, every tab-separated element wrapped for `select`, and
/// a final newline.
pub fn convert_line(line: &str, select: CellType) -> (out: String)
    ensures
        out@ == converted_line(line@, select),
{
    let parts = split_str(line, '\t');
    let ghost pv = parts@.map_values(|p: String| p@);
    let mut out = String::from_str("  ");
    let mut j: usize = 0;
    while j < parts.len()
        invariant
            pv == parts@.map_values(|p: String| p@),
            pv == split_by(line@, '\t'),
            j <= parts.len(),
            out@ == "  "@ + concat_wrapped(pv.take(j as int), select),
        decreases parts.len() - j,
    {
        match select {
            CellType::SquareBrackets => {
                out.append("[");
                out.append(parts[j].as_str());
                out.append("], ");
            },
            CellType::Dollars => {
                out.append("$");
                out.append(parts[j].as_str());
                out.append("$, ");
            },
        }
        proof {
            lemma_concat_wrapped_snoc(pv.take(j as int), pv[j as int], select);
            assert(pv.take(j + 1 as int) =~~= pv.take(j as int).push(pv[j as int]));
            assert(out@ =~= "  "@ + concat_wrapped(pv.take(j + 1 as int), select));
        }
        j = j + 1;
    }
    out.append("\n");
    proof {
        assert(pv.take(parts@.len() as int) =~~= pv);
        assert(out@ =~= converted_line(line@, select));
    }
    out
}

/// The whole conversion: commas turned into dots, the input cut into
/// lines, and a `#table` call produced that lists the column count of
/// the first line and every line's wrapped cells.
pub fn convert(table: String, select: CellType) -> (out: String)
    ensures
        out@ == converted_table(table@, select),
{
    let replaced = replace_commas(table.as_str());
    let ls = lines_list(replaced.as_str());
    let ghost lv = ls@.map_values(|l: String| l@);
    let columns: usize = if ls.len() == 0 {
        0
    } else {
        let first_parts = split_str(ls[0].as_str(), '\t');
        first_parts.len()
    };
    proof {
        assert(columns as nat == columns_of(lv));
    }
    let mut out = String::from_str("#table(\n  columns: ");
    let num = dec_string(columns);
    out.append(num.as_str());
    out.append(",\n");
    let ghost header = "#table(\n  columns: "@ + dec_rep(columns_of(lv)) + ",\n"@;
    let mut j: usize = 0;
    while j < ls.len()
        invariant
            lv == ls@.map_values(|l: String| l@),
            header == "#table(\n  columns: "@ + dec_rep(columns_of(lv)) + ",\n"@,
            j <= ls.len(),
            out@ == header + concat_converted_lines(lv.take(j as int), select),
        decreases ls.len() - j,
    {
        let cl = convert_line(ls[j].as_str(), select);
        out.append(cl.as_str());
        proof {
            lemma_concat_lines_snoc(lv.take(j as int), lv[j as int], select);
            assert(lv.take(j + 1 as int) =~~= lv.take(j as int).push(lv[j as int]));
            assert(out@ =~= header + concat_converted_lines(lv.take(j + 1 as int), select));
        }
        j = j + 1;
    }
    out.append(")");
    proof {
        assert(lv.take(ls@.len() as int) =~~= lv);
        assert(out@ =~= converted_table(table@, select));
    }
    out
}

} // verus!

//! Canonical re-serialization of each segment of a buffer, in its dialect.

use vstd::prelude::*;
use crate::classify::Kind;
use crate::segment::Segment;
use crate::text::{lines, lines_of, string_of, to_chars, trim, trim_chars};

verus! {

/// Whether serde_json parses `s` as a JSON document and prints it back.
pub uninterp spec fn json_accepts(s: Seq<char>) -> bool;

/// The pretty-printed form serde_json gives the JSON document `s`.
pub uninterp spec fn json_pretty_of(s: Seq<char>) -> Seq<char>;

/// Whether the csv crate reads `s` as rows of equal length.
pub uninterp spec fn csv_accepts(s: Seq<char>) -> bool;

/// The rows of cells that the csv crate reads from `s`.
pub uninterp spec fn csv_rows_of(s: Seq<char>) -> Seq<Seq<Seq<char>>>;

/// Whether quick-xml reads `s` and writes it back, indented.
pub uninterp spec fn xml_accepts(s: Seq<char>) -> bool;

/// The indented form quick-xml writes for the markup `s`.
pub uninterp spec fn xml_pretty_of(s: Seq<char>) -> Seq<char>;

/// Whether serde_yaml parses `s` and writes it back.
pub uninterp spec fn yaml_accepts(s: Seq<char>) -> bool;

/// The canonical form serde_yaml writes for the YAML document `s`.
pub uninterp spec fn yaml_canonical_of(s: Seq<char>) -> Seq<char>;

/// Relies on `serde_json::from_str` into a `serde_json::Value` and
/// `serde_json::to_string_pretty` of that value.
#[verifier::external_body]
fn json_pretty(s: &str) -> (r: Result<String, String>)
    ensures
        r is Ok <==> json_accepts(s@),
        r is Ok ==> r->Ok_0@ == json_pretty_of(s@),
{
    let v: serde_json::Value = serde_json::from_str(s).map_err(|e| e.to_string())?;
    serde_json::to_string_pretty(&v).map_err(|e| e.to_string())
}

/// Relies on `csv::ReaderBuilder` without a header row and its `records`:
/// every record, each cell as a string.
#[verifier::external_body]
fn csv_rows(s: &str) -> (r: Result<Vec<Vec<String>>, String>)
    ensures
        r is Ok <==> csv_accepts(s@),
        r is Ok ==> r->Ok_0@.map_values(|row: Vec<String>| row@.map_values(|c: String| c@))
            == csv_rows_of(s@),
{
    let mut rd = csv::ReaderBuilder::new().has_headers(false).from_reader(s.as_bytes());
    rd.records()
        .map(|rec| rec.map(|rec| rec.iter().map(String::from).collect()))
        .collect::<Result<Vec<Vec<String>>, csv::Error>>()
        .map_err(|e| e.to_string())
}

/// Relies on quick-xml's `Reader` (text trimmed) and its `Writer` indenting
/// by two spaces: every event read is written back.
#[verifier::external_body]
fn xml_pretty(s: &str) -> (r: Result<String, String>)
    ensures
        r is Ok <==> xml_accepts(s@),
        r is Ok ==> r->Ok_0@ == xml_pretty_of(s@),
{
    let mut reader = quick_xml::Reader::from_reader(s.as_bytes());
    reader.config_mut().trim_text(true);
    let mut writer = quick_xml::Writer::new_with_indent(Vec::new(), b' ', 2);
    let mut buf = Vec::new();
    loop {
        match reader.read_event_into(&mut buf).map_err(|e| e.to_string())? {
            quick_xml::events::Event::Eof => break,
            ev => writer.write_event(ev).map_err(|e| e.to_string())?,
        }
        buf.clear();
    }
    String::from_utf8(writer.into_inner()).map_err(|e| e.to_string())
}

/// Relies on `serde_yaml::from_str` into a `serde_yaml::Value` and
/// `serde_yaml::to_string` of that value.
#[verifier::external_body]
fn yaml_canonical(s: &str) -> (r: Result<String, String>)
    ensures
        r is Ok <==> yaml_accepts(s@),
        r is Ok ==> r->Ok_0@ == yaml_canonical_of(s@),
{
    let v: serde_yaml::Value = serde_yaml::from_str(s).map_err(|e| e.to_string())?;
    serde_yaml::to_string(&v).map_err(|e| e.to_string())
}

/// Pretty-prints a JSON document; fails with the parser's message on text
/// that is not JSON.
pub fn format_json(content: String) -> (r: Result<String, String>)
    ensures
        r is Ok <==> json_accepts(content@),
        r is Ok ==> r->Ok_0@ == json_pretty_of(content@),
{
    json_pretty(content.as_str())
}

/// `parts` joined with newlines.
pub open spec fn join_nl(parts: Seq<Seq<char>>) -> Seq<char>
    decreases parts.len(),
{
    if parts.len() == 0 {
        Seq::<char>::empty()
    } else if parts.len() == 1 {
        parts[0]
    } else {
        join_nl(parts.drop_last()) + seq!['\n'] + parts.last()
    }
}

/// `parts[lo..hi]` joined with newlines.
pub fn join_range(parts: &Vec<Vec<char>>, lo: usize, hi: usize) -> (r: Vec<char>)
    requires
        lo <= hi <= parts@.len(),
    ensures
        r@ == join_nl(parts@.subrange(lo as int, hi as int).map_values(|p: Vec<char>| p@)),
{
    let mut out: Vec<char> = Vec::new();
    let mut i: usize = lo;
    while i < hi
        invariant
            lo <= i <= hi <= parts@.len(),
            out@ == join_nl(parts@.subrange(lo as int, i as int).map_values(|p: Vec<char>| p@)),
        decreases hi - i,
    {
        let ghost before = parts@.subrange(lo as int, i as int).map_values(|p: Vec<char>| p@);
        if i > lo {
            out.push('\n');
        }
        let p = &parts[i];
        let mut j: usize = 0;
        let ghost base = out@;
        while j < p.len()
            invariant
                j <= p@.len(),
                out@ == base + p@.take(j as int),
            decreases p@.len() - j,
        {
            out.push(p[j]);
            j = j + 1;
            assert(out@ =~= base + p@.take(j as int));
        }
        i = i + 1;
        proof {
            let after = parts@.subrange(lo as int, i as int).map_values(|p: Vec<char>| p@);
            assert(after.drop_last() =~= before);
            assert(p@.take(p@.len() as int) =~= p@);
            if i - 1 == lo {
                assert(after.len() == 1);
                assert(out@ =~= after[0]);
            } else {
                assert(out@ =~= join_nl(before) + seq!['\n'] + after.last());
            }
        }
    }
    out
}


/// `a` comes before `b` in lexicographic order of character codes, the
/// order of `String`'s `Ord`.
pub open spec fn lex_lt(a: Seq<char>, b: Seq<char>) -> bool
    decreases a.len(),
{
    if a.len() == 0 {
        b.len() > 0
    } else if b.len() == 0 {
        false
    } else if a[0] != b[0] {
        a[0] < b[0]
    } else {
        lex_lt(a.drop_first(), b.drop_first())
    }
}

fn less_lex(a: &Vec<char>, b: &Vec<char>) -> (r: bool)
    ensures
        r == lex_lt(a@, b@),
{
    let mut i: usize = 0;
    assert(a@.skip(0) =~= a@);
    assert(b@.skip(0) =~= b@);
    while i < a.len() && i < b.len() && a[i] == b[i]
        invariant
            i <= a@.len(),
            i <= b@.len(),
            lex_lt(a@, b@) == lex_lt(a@.skip(i as int), b@.skip(i as int)),
        decreases a@.len() - i,
    {
        assert(a@.skip(i as int).drop_first() =~= a@.skip(i + 1));
        assert(b@.skip(i as int).drop_first() =~= b@.skip(i + 1));
        i = i + 1;
    }
    if i == a.len() {
        i < b.len()
    } else if i == b.len() {
        false
    } else {
        a[i] < b[i]
    }
}

/// `x` inserted into `s` before the first element that `x` does not follow.
pub open spec fn insert_lex(x: Seq<char>, s: Seq<Seq<char>>) -> Seq<Seq<char>>
    decreases s.len(),
{
    if s.len() == 0 || !lex_lt(s[0], x) {
        seq![x] + s
    } else {
        seq![s[0]] + insert_lex(x, s.drop_first())
    }
}

/// `v` in ascending lexicographic order.
pub open spec fn sort_lex(v: Seq<Seq<char>>) -> Seq<Seq<char>>
    decreases v.len(),
{
    if v.len() == 0 {
        v
    } else {
        insert_lex(v.last(), sort_lex(v.drop_last()))
    }
}

proof fn lemma_insert_at(x: Seq<char>, s: Seq<Seq<char>>, p: int)
    requires
        0 <= p <= s.len(),
        forall|q: int| 0 <= q < p ==> lex_lt(#[trigger] s[q], x),
        p < s.len() ==> !lex_lt(s[p], x),
    ensures
        insert_lex(x, s) == s.insert(p, x),
    decreases p,
{
    if p == 0 {
        assert(seq![x] + s =~= s.insert(0, x));
    } else {
        assert(lex_lt(s[0], x));
        let t = s.drop_first();
        assert forall|q: int| 0 <= q < p - 1 implies lex_lt(#[trigger] t[q], x) by {
            assert(t[q] == s[q + 1]);
        }
        lemma_insert_at(x, t, p - 1);
        assert(seq![s[0]] + t.insert(p - 1, x) =~= s.insert(p, x));
    }
}

/// Sorts lines in ascending lexicographic order.
pub fn sort_lines(v: Vec<Vec<char>>) -> (r: Vec<Vec<char>>)
    ensures
        r@.map_values(|p: Vec<char>| p@) == sort_lex(v@.map_values(|p: Vec<char>| p@)),
{
    let ghost vv = v@.map_values(|p: Vec<char>| p@);
    let mut out: Vec<Vec<char>> = Vec::new();
    let mut i: usize = 0;
    while i < v.len()
        invariant
            i <= v@.len(),
            vv == v@.map_values(|p: Vec<char>| p@),
            out@.map_values(|p: Vec<char>| p@) == sort_lex(vv.take(i as int)),
        decreases v@.len() - i,
    {
        let x = v[i].clone();
        let ghost ov = out@.map_values(|p: Vec<char>| p@);
        let mut p: usize = 0;
        while p < out.len() && less_lex(&out[p], &x)
            invariant
                p <= out@.len(),
                ov == out@.map_values(|p: Vec<char>| p@),
                forall|q: int| 0 <= q < p ==> lex_lt(#[trigger] ov[q], x@),
            decreases out@.len() - p,
        {
            p = p + 1;
        }
        proof {
            lemma_insert_at(x@, ov, p as int);
            assert(vv.take(i + 1).drop_last() =~= vv.take(i as int));
            assert(x@ == vv[i as int]);
        }
        out.insert(p, x);
        i = i + 1;
        assert(out@.map_values(|p: Vec<char>| p@) =~= ov.insert(p as int, vv[i - 1]));
    }
    assert(vv.take(i as int) =~= vv);
    out
}

/// The trimmed lines of `ls` that are not empty, in order.
pub open spec fn kept_lines(ls: Seq<Seq<char>>) -> Seq<Seq<char>>
    decreases ls.len(),
{
    if ls.len() == 0 {
        ls
    } else if trim(ls.last()).len() > 0 {
        kept_lines(ls.drop_last()).push(trim(ls.last()))
    } else {
        kept_lines(ls.drop_last())
    }
}

/// The canonical form of a properties or `.env` text: its trimmed non-empty
/// lines, comments included, sorted and joined with newlines.
pub open spec fn properties_form(s: Seq<char>) -> Seq<char> {
    join_nl(sort_lex(kept_lines(lines_of(s))))
}

/// Normalizes a properties or `.env` text (see `properties_form`); never
/// fails.
pub fn format_properties(content: &str) -> (r: Result<String, String>)
    ensures
        r is Ok,
        r->Ok_0@ == properties_form(content@),
{
    let ls = lines(&to_chars(content));
    let ghost lv = lines_of(content@);
    let mut kept: Vec<Vec<char>> = Vec::new();
    let mut i: usize = 0;
    while i < ls.len()
        invariant
            i <= ls@.len() == lv.len(),
            lv == lines_of(content@),
            forall|q: int| 0 <= q < ls@.len() ==> #[trigger] ls@[q]@ == lv[q],
            kept@.map_values(|p: Vec<char>| p@) == kept_lines(lv.take(i as int)),
        decreases ls@.len() - i,
    {
        let t = trim_chars(&ls[i]);
        let ghost k0 = kept@.map_values(|p: Vec<char>| p@);
        assert(lv.take(i + 1).drop_last() =~= lv.take(i as int));
        if t.len() > 0 {
            kept.push(t);
            assert(kept@.map_values(|p: Vec<char>| p@) =~= k0.push(t@));
        }
        i = i + 1;
    }
    assert(lv.take(i as int) =~= lv);
    let sorted = sort_lines(kept);
    let n = sorted.len();
    let joined = join_range(&sorted, 0, n);
    assert(sorted@.subrange(0, n as int) =~= sorted@);
    Ok(string_of(&joined))
}


/// The number of cells of the longest row.
pub open spec fn col_count(rows: Seq<Seq<Seq<char>>>) -> int
    decreases rows.len(),
{
    if rows.len() == 0 {
        0
    } else {
        let m = col_count(rows.drop_last());
        if rows.last().len() > m { rows.last().len() as int } else { m }
    }
}

/// The width of column `c`: the largest number of characters of a cell in it.
pub open spec fn col_width(rows: Seq<Seq<Seq<char>>>, c: int) -> int
    decreases rows.len(),
{
    if rows.len() == 0 {
        0
    } else {
        let m = col_width(rows.drop_last(), c);
        let w = if 0 <= c < rows.last().len() { rows.last()[c].len() as int } else { 0 };
        if w > m { w } else { m }
    }
}

/// `cell` followed by spaces up to `w` characters.
pub open spec fn pad(cell: Seq<char>, w: int) -> Seq<char> {
    if cell.len() < w {
        cell + Seq::new((w - cell.len()) as nat, |i: int| ' ')
    } else {
        cell
    }
}

/// `parts` joined with two spaces.
pub open spec fn join_gap(parts: Seq<Seq<char>>) -> Seq<char>
    decreases parts.len(),
{
    if parts.len() == 0 {
        Seq::<char>::empty()
    } else if parts.len() == 1 {
        parts[0]
    } else {
        join_gap(parts.drop_last()) + seq![' ', ' '] + parts.last()
    }
}

/// One row laid out: each cell padded to its column's width, two spaces
/// between cells.
pub open spec fn row_text(row: Seq<Seq<char>>, rows: Seq<Seq<Seq<char>>>) -> Seq<char> {
    join_gap(Seq::new(row.len(), |c: int| pad(row[c], col_width(rows, c))))
}

/// All rows laid out, one per line.
pub open spec fn table_text(rows: Seq<Seq<Seq<char>>>) -> Seq<char> {
    join_nl(Seq::new(rows.len(), |i: int| row_text(rows[i], rows)))
}

/// The aligned form of a CSV text `s` of which the csv crate reads `rows`:
/// nothing for no rows, `s` itself for rows without cells, else the table.
pub open spec fn csv_layout(rows: Seq<Seq<Seq<char>>>, s: Seq<char>) -> Seq<char> {
    if rows.len() == 0 {
        Seq::<char>::empty()
    } else if col_count(rows) == 0 {
        s
    } else {
        table_text(rows)
    }
}

/// The cells of `rows` as character sequences.
pub open spec fn cells_of(rows: Seq<Vec<String>>) -> Seq<Seq<Seq<char>>> {
    rows.map_values(|row: Vec<String>| row@.map_values(|c: String| c@))
}

fn push_all(out: &mut Vec<char>, p: &Vec<char>)
    ensures
        final(out)@ == old(out)@ + p@,
{
    let mut j: usize = 0;
    let ghost base = out@;
    while j < p.len()
        invariant
            j <= p@.len(),
            out@ == base + p@.take(j as int),
        decreases p@.len() - j,
    {
        out.push(p[j]);
        j = j + 1;
        assert(out@ =~= base + p@.take(j as int));
    }
    assert(p@.take(j as int) =~= p@);
}

fn layout_row(row: &Vec<String>, widths: &Vec<usize>, Ghost(rows): Ghost<Seq<Seq<Seq<char>>>>) -> (r: Vec<char>)
    requires
        row@.len() <= widths@.len(),
        forall|c: int| 0 <= c < row@.len() ==> #[trigger] widths@[c] as int == col_width(rows, c),
    ensures
        r@ == row_text(row@.map_values(|c: String| c@), rows),
{
    let ghost cells = row@.map_values(|c: String| c@);
    let ghost padded = Seq::new(cells.len(), |c: int| pad(cells[c], col_width(rows, c)));
    let mut out: Vec<char> = Vec::new();
    let mut c: usize = 0;
    while c < row.len()
        invariant
            c <= row@.len() <= widths@.len(),
            cells == row@.map_values(|c: String| c@),
            padded == Seq::new(cells.len(), |c: int| pad(cells[c], col_width(rows, c))),
            forall|k: int| 0 <= k < row@.len() ==> #[trigger] widths@[k] as int == col_width(rows, k),
            out@ == join_gap(padded.take(c as int)),
        decreases row@.len() - c,
    {
        let ghost before = out@;
        if c > 0 {
            out.push(' ');
            out.push(' ');
        }
        let cell = to_chars(row[c].as_str());
        push_all(&mut out, &cell);
        let w = widths[c];
        let mut k: usize = cell.len();
        let ghost mid = out@;
        while k < w
            invariant
                cell@.len() <= k <= w || w < cell@.len() == k,
                out@ == mid + Seq::new((k - cell@.len()) as nat, |i: int| ' '),
            decreases w - k,
        {
            out.push(' ');
            k = k + 1;
            assert(out@ =~= mid + Seq::new((k - cell@.len()) as nat, |i: int| ' '));
        }
        proof {
            let p = padded[c as int];
            assert(cell@ == cells[c as int]);
            if cell@.len() < w {
                assert(out@ =~= before + (if c > 0 { seq![' ', ' '] } else { Seq::<char>::empty() }) + p);
            } else {
                assert(Seq::new((k - cell@.len()) as nat, |i: int| ' ') =~= Seq::<char>::empty());
                assert(out@ =~= before + (if c > 0 { seq![' ', ' '] } else { Seq::<char>::empty() }) + p);
            }
            assert(padded.take(c + 1).drop_last() =~= padded.take(c as int));
            if c == 0 {
                assert(out@ =~= join_gap(padded.take(1)));
            }
        }
        c = c + 1;
    }
    assert(padded.take(c as int) =~= padded);
    out
}

/// Lays out parsed CSV rows (see `csv_layout`) for the text `content`.
pub fn align_rows(rows: &Vec<Vec<String>>, content: &str) -> (r: String)
    ensures
        r@ == csv_layout(cells_of(rows@), content@),
{
    let ghost rv = cells_of(rows@);
    if rows.len() == 0 {
        return String::new();
    }
    let mut ncols: usize = 0;
    let mut i: usize = 0;
    while i < rows.len()
        invariant
            i <= rows@.len(),
            rv == cells_of(rows@),
            ncols as int == col_count(rv.take(i as int)),
        decreases rows@.len() - i,
    {
        assert(rv.take(i + 1).drop_last() =~= rv.take(i as int));
        assert(rows@[i as int]@.len() == rv[i as int].len());
        if rows[i].len() > ncols {
            ncols = rows[i].len();
        }
        i = i + 1;
    }
    assert(rv.take(i as int) =~= rv);
    if ncols == 0 {
        return content.to_string();
    }
    let mut widths: Vec<usize> = Vec::new();
    let mut c: usize = 0;
    while c < ncols
        invariant
            c <= ncols,
            widths@.len() == c,
            forall|k: int| 0 <= k < c ==> #[trigger] widths@[k] == 0,
        decreases ncols - c,
    {
        widths.push(0);
        c = c + 1;
    }
    let mut i: usize = 0;
    while i < rows.len()
        invariant
            i <= rows@.len(),
            rv == cells_of(rows@),
            widths@.len() == ncols,
            ncols as int == col_count(rv),
            forall|k: int| 0 <= k < ncols ==> #[trigger] widths@[k] as int == col_width(rv.take(i as int), k),
        decreases rows@.len() - i,
    {
        let row = &rows[i];
        proof { lemma_row_fits(rv, i as int); }
        let mut c: usize = 0;
        let ghost before = widths@;
        while c < row.len()
            invariant
                c <= row@.len() <= ncols == widths@.len(),
                row == rows@[i as int],
                forall|k: int| c <= k < ncols ==> #[trigger] widths@[k] == before[k],
                forall|k: int| 0 <= k < c ==> #[trigger] widths@[k] as int == (if before[k] as int >= row@[k]@.len() { before[k] as int } else { row@[k]@.len() as int }),
            decreases row@.len() - c,
        {
            let n = row[c].as_str().unicode_len();
            if n > widths[c] {
                widths.set(c, n);
            }
            c = c + 1;
        }
        proof {
            assert(rv.take(i + 1).drop_last() =~= rv.take(i as int));
            assert forall|k: int| 0 <= k < ncols implies #[trigger] widths@[k] as int == col_width(rv.take(i + 1), k) by {
                if k < row@.len() {
                    assert(rv[i as int][k] == row@[k]@);
                }
            }
        }
        i = i + 1;
    }
    assert(rv.take(i as int) =~= rv);
    let mut texts: Vec<Vec<char>> = Vec::new();
    let mut i: usize = 0;
    while i < rows.len()
        invariant
            i <= rows@.len(),
            rv == cells_of(rows@),
            widths@.len() == ncols,
            ncols as int == col_count(rv),
            forall|k: int| 0 <= k < ncols ==> #[trigger] widths@[k] as int == col_width(rv, k),
            texts@.len() == i,
            forall|q: int| 0 <= q < i ==> #[trigger] texts@[q]@ == row_text(rv[q], rv),
        decreases rows@.len() - i,
    {
        proof { lemma_row_fits(rv, i as int); }
        let t = layout_row(&rows[i], &widths, Ghost(rv));
        texts.push(t);
        i = i + 1;
    }
    let joined = join_range(&texts, 0, rows.len());
    assert(texts@.subrange(0, rows@.len() as int).map_values(|p: Vec<char>| p@)
        =~= Seq::new(rv.len(), |i: int| row_text(rv[i], rv)));
    string_of(&joined)
}

proof fn lemma_row_fits(rows: Seq<Seq<Seq<char>>>, i: int)
    requires
        0 <= i < rows.len(),
    ensures
        rows[i].len() <= col_count(rows),
    decreases rows.len(),
{
    if i < rows.len() - 1 {
        lemma_row_fits(rows.drop_last(), i);
    }
}

/// Aligns the columns of a CSV text: every row read (with no header row),
/// each cell padded to its column's width, two spaces between cells. Fails
/// with the reader's message where the csv crate refuses the text.
pub fn format_csv(content: &str) -> (r: Result<String, String>)
    ensures
        r is Ok <==> csv_accepts(content@),
        r is Ok ==> r->Ok_0@ == csv_layout(csv_rows_of(content@), content@),
{
    match csv_rows(content) {
        Ok(rows) => Ok(align_rows(&rows, content)),
        Err(e) => Err(e),
    }
}


/// The dialect whose formatter a segment label selects; other labels, `text`
/// among them, select none.
pub open spec fn format_kind(label: Seq<char>) -> Option<Kind> {
    if label == seq!['j', 's', 'o', 'n'] {
        Some(Kind::Json)
    } else if label == seq!['c', 's', 'v'] {
        Some(Kind::Csv)
    } else if label == seq!['x', 'm', 'l'] || label == seq!['h', 't', 'm', 'l'] {
        Some(Kind::Xml)
    } else if label == seq!['y', 'a', 'm', 'l'] {
        Some(Kind::Yaml)
    } else if label == seq!['p', 'r', 'o', 'p', 'e', 'r', 't', 'i', 'e', 's'] || label == seq![
        'e',
        'n',
        'v',
    ] {
        Some(Kind::Properties)
    } else {
        None
    }
}

fn same_chars(a: &[char], b: &[char]) -> (r: bool)
    ensures
        r == (a@ == b@),
{
    if a.len() != b.len() {
        return false;
    }
    let mut i: usize = 0;
    while i < a.len()
        invariant
            i <= a@.len() == b@.len(),
            forall|k: int| 0 <= k < i ==> a@[k] == b@[k],
        decreases a@.len() - i,
    {
        if a[i] != b[i] {
            return false;
        }
        i = i + 1;
    }
    assert(a@ =~= b@);
    true
}

pub fn kind_of_label(label: &[char]) -> (r: Option<Kind>)
    ensures
        r == format_kind(label@),
{
    let json = ['j', 's', 'o', 'n'];
    let csv = ['c', 's', 'v'];
    let xml = ['x', 'm', 'l'];
    let html = ['h', 't', 'm', 'l'];
    let yaml = ['y', 'a', 'm', 'l'];
    let props = ['p', 'r', 'o', 'p', 'e', 'r', 't', 'i', 'e', 's'];
    let env = ['e', 'n', 'v'];
    assert(json@ =~= seq!['j', 's', 'o', 'n']);
    assert(csv@ =~= seq!['c', 's', 'v']);
    assert(xml@ =~= seq!['x', 'm', 'l']);
    assert(html@ =~= seq!['h', 't', 'm', 'l']);
    assert(yaml@ =~= seq!['y', 'a', 'm', 'l']);
    assert(props@ =~= seq!['p', 'r', 'o', 'p', 'e', 'r', 't', 'i', 'e', 's']);
    assert(env@ =~= seq!['e', 'n', 'v']);
    if same_chars(label, &json) {
        Some(Kind::Json)
    } else if same_chars(label, &csv) {
        Some(Kind::Csv)
    } else if same_chars(label, &xml) || same_chars(label, &html) {
        Some(Kind::Xml)
    } else if same_chars(label, &yaml) {
        Some(Kind::Yaml)
    } else if same_chars(label, &props) || same_chars(label, &env) {
        Some(Kind::Properties)
    } else {
        None
    }
}

/// What a formatter's result stands for: its text on success, else the
/// text as it was.
pub open spec fn success_or(ok: bool, out: Seq<char>, unchanged: Seq<char>) -> Seq<char> {
    if ok { out } else { unchanged }
}

/// The canonical form of text `t` in dialect `k`; text that the dialect's
/// formatter refuses, and text of no formatted dialect, stays as it is.
pub open spec fn formatted(k: Option<Kind>, t: Seq<char>) -> Seq<char> {
    match k {
        Some(Kind::Json) => success_or(json_accepts(t), json_pretty_of(t), t),
        Some(Kind::Csv) => success_or(csv_accepts(t), csv_layout(csv_rows_of(t), t), t),
        Some(Kind::Xml) => success_or(xml_accepts(t), xml_pretty_of(t), t),
        Some(Kind::Yaml) => success_or(yaml_accepts(t), yaml_canonical_of(t), t),
        Some(Kind::Properties) => properties_form(t),
        _ => t,
    }
}

/// A formatter's result, or the text as it was where the formatter failed.
pub fn or_unchanged(r: Result<String, String>, unchanged: String) -> (out: String)
    ensures
        out@ == (match r {
            Ok(s) => s@,
            Err(_) => unchanged@,
        }),
{
    match r {
        Ok(s) => s,
        Err(_) => unchanged,
    }
}

/// Canonicalizes `text` in dialect `k` (see `formatted`); never fails.
pub fn format_as(k: Option<Kind>, text: String) -> (r: String)
    ensures
        r@ == formatted(k, text@),
{
    match k {
        Some(Kind::Json) => or_unchanged(json_pretty(text.as_str()), text),
        Some(Kind::Csv) => or_unchanged(format_csv(text.as_str()), text),
        Some(Kind::Xml) => or_unchanged(xml_pretty(text.as_str()), text),
        Some(Kind::Yaml) => or_unchanged(yaml_canonical(text.as_str()), text),
        Some(Kind::Properties) => or_unchanged(format_properties(text.as_str()), text),
        _ => text,
    }
}

/// The first line (0-based) that segment `s` covers.
pub open spec fn seg_lo(s: Segment) -> int {
    if s.start_line >= 1 { s.start_line - 1 } else { 0 }
}

/// One past the last line (0-based) that segment `s` covers within `n` lines.
pub open spec fn seg_hi(s: Segment, n: int) -> int {
    if s.end_line < n { s.end_line as int } else { n }
}

/// The formatted texts of the first `k` segments over lines `ls`; a segment
/// whose range is empty within `ls` gives none.
pub open spec fn segment_outputs(ls: Seq<Seq<char>>, segs: Seq<Segment>, k: nat) -> Seq<Seq<char>>
    decreases k,
{
    if k == 0 || k > segs.len() {
        Seq::<Seq<char>>::empty()
    } else {
        let prev = segment_outputs(ls, segs, (k - 1) as nat);
        let s = segs[k - 1];
        let lo = seg_lo(s);
        let hi = seg_hi(s, ls.len() as int);
        if lo >= hi {
            prev
        } else {
            prev.push(formatted(format_kind(s.kind@), join_nl(ls.subrange(lo, hi))))
        }
    }
}

/// The result of formatting `content` segment by segment: empty content as
/// it is; with no segments, the whole buffer as JSON, or as it is; else the
/// segments' formatted texts joined with newlines.
pub open spec fn segmented_form(content: Seq<char>, segs: Seq<Segment>) -> Seq<char> {
    let ls = lines_of(content);
    if ls.len() == 0 {
        content
    } else if segs.len() == 0 {
        success_or(json_accepts(content), json_pretty_of(content), content)
    } else {
        join_nl(segment_outputs(ls, segs, segs.len()))
    }
}

/// Formats each segment of `content` in its dialect and joins the results
/// with newlines. A segment that its formatter refuses stays as it is, so
/// this never fails.
pub fn format_content_segmented(content: String, segments: Vec<Segment>) -> (r: String)
    ensures
        r@ == segmented_form(content@, segments@),
{
    let ls = lines(&to_chars(content.as_str()));
    let ghost lv = lines_of(content@);
    if ls.len() == 0 {
        return content;
    }
    if segments.len() == 0 {
        let r = json_pretty(content.as_str());
        return or_unchanged(r, content);
    }
    let n = ls.len();
    let mut outs: Vec<Vec<char>> = Vec::new();
    let mut k: usize = 0;
    while k < segments.len()
        invariant
            k <= segments@.len(),
            n == ls@.len() == lv.len(),
            lv == lines_of(content@),
            forall|q: int| 0 <= q < ls@.len() ==> #[trigger] ls@[q]@ == lv[q],
            outs@.map_values(|p: Vec<char>| p@) == segment_outputs(lv, segments@, k as nat),
        decreases segments@.len() - k,
    {
        let seg = &segments[k];
        let lo: usize = if seg.start_line >= 1 { (seg.start_line - 1) as usize } else { 0 };
        let hi: usize = if (seg.end_line as usize) < n { seg.end_line as usize } else { n };
        let ghost o0 = outs@.map_values(|p: Vec<char>| p@);
        if lo < hi {
            let text = join_range(&ls, lo, hi);
            assert(ls@.subrange(lo as int, hi as int).map_values(|p: Vec<char>| p@)
                =~= lv.subrange(lo as int, hi as int));
            let kind = kind_of_label(&to_chars(seg.kind.as_str()));
            let f = format_as(kind, string_of(&text));
            let fc = to_chars(f.as_str());
            outs.push(fc);
            assert(outs@.map_values(|p: Vec<char>| p@) =~= o0.push(fc@));
        }
        k = k + 1;
    }
    let m = outs.len();
    let joined = join_range(&outs, 0, m);
    assert(outs@.subrange(0, m as int) =~= outs@);
    string_of(&joined)
}

} // verus!

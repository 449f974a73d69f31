//! Splitting a buffer into maximal runs of same-dialect, non-blank lines.

use vstd::prelude::*;
use crate::classify::{
    content_heuristic, ext_kind, heuristic, hint_chars, hint_of, kind_of_extension, label_of,
    line_kind, line_kind_of, Kind,
};
use crate::text::{lines, lines_of, split_lines, to_chars, trim, trim_chars};

verus! {

/// A run of lines `start_line..=end_line` (1-based) of one dialect.
#[derive(Clone, Debug)]
pub struct Segment {
    pub start_line: u32,
    pub end_line: u32,
    pub kind: String,
}

/// A segment as mathematics: first line, last line (1-based) and dialect.
pub type SegModel = (int, int, Kind);

/// Line `i` (0-based) holds something once trimmed.
pub open spec fn non_blank(ls: Seq<Seq<char>>, i: int) -> bool {
    trim(ls[i]).len() > 0
}

/// The segments after the first `n` lines have been scanned: a blank line is
/// skipped; a non-blank line extends the last segment when that segment has
/// its dialect and ends on the line before; else it opens a segment.
pub open spec fn scan(ls: Seq<Seq<char>>, ext: Seq<char>, n: nat) -> Seq<SegModel>
    decreases n,
{
    if n == 0 {
        Seq::<SegModel>::empty()
    } else {
        let prev = scan(ls, ext, (n - 1) as nat);
        let i = n - 1;
        if !non_blank(ls, i) {
            prev
        } else {
            let k = line_kind(ls[i], i, ext);
            if prev.len() > 0 && prev.last().2 == k && prev.last().1 + 1 == i + 1 {
                prev.update(prev.len() - 1, (prev.last().0, i + 1, k))
            } else {
                prev.push((i + 1, i + 1, k))
            }
        }
    }
}

/// The segments of a buffer with extension hint `ext`.
pub open spec fn segments_model(s: Seq<char>, ext: Seq<char>) -> Seq<SegModel> {
    let ls = lines_of(s);
    if ls.len() == 0 {
        let k = match ext_kind(ext) {
            Some(k) => k,
            None => heuristic(trim(s)).0,
        };
        seq![(1int, 1int, k)]
    } else {
        let m = scan(ls, ext, ls.len());
        if m.len() == 0 {
            seq![(1int, ls.len() as int, Kind::Text)]
        } else {
            m
        }
    }
}

/// `r` holds the segments `m`.
pub open spec fn segments_match(r: Seq<Segment>, m: Seq<SegModel>) -> bool {
    &&& r.len() == m.len()
    &&& forall|j: int|
        0 <= j < r.len() ==> {
            &&& #[trigger] r[j].start_line as int == m[j].0
            &&& r[j].end_line as int == m[j].1
            &&& r[j].kind@ == label_of(m[j].2)
        }
}

/// `m` lists disjoint segments of lines `1..=n` in increasing order; each
/// holds only non-blank lines of its own dialect; two segments that touch
/// differ in dialect; every non-blank line lies in one.
pub open spec fn partitions(m: Seq<SegModel>, ls: Seq<Seq<char>>, ext: Seq<char>, n: int) -> bool {
    &&& forall|j: int| 0 <= j < m.len() ==> 1 <= (#[trigger] m[j]).0 <= m[j].1 <= n
    &&& forall|j1: int, j2: int| 0 <= j1 < j2 < m.len() ==> (#[trigger] m[j1]).1 < (#[trigger] m[j2]).0
    &&& forall|j: int|
        0 <= j && j + 1 < m.len() && (#[trigger] m[j]).1 + 1 == m[j + 1].0 ==> m[j].2 != m[j + 1].2
    &&& forall|j: int, l: int|
        0 <= j < m.len() && (#[trigger] m[j]).0 <= l <= m[j].1 ==> non_blank(ls, l - 1)
            && line_kind(#[trigger] ls[l - 1], l - 1, ext) == m[j].2
    &&& forall|i: int|
        0 <= i < n && #[trigger] non_blank(ls, i) ==> exists|j: int|
            0 <= j < m.len() && (#[trigger] m[j]).0 <= i + 1 <= m[j].1
}

proof fn lemma_scan_partitions(ls: Seq<Seq<char>>, ext: Seq<char>, n: nat)
    requires
        n <= ls.len(),
    ensures
        partitions(scan(ls, ext, n), ls, ext, n as int),
    decreases n,
{
    if n > 0 {
        lemma_scan_partitions(ls, ext, (n - 1) as nat);
        let prev = scan(ls, ext, (n - 1) as nat);
        let m = scan(ls, ext, n);
        let i = n - 1;
        if non_blank(ls, i) {
            let k = line_kind(ls[i], i, ext);
            if prev.len() > 0 && prev.last().2 == k && prev.last().1 + 1 == i + 1 {
                assert forall|l: int| 0 <= l < n && #[trigger] non_blank(ls, l) implies exists|j: int|
                    0 <= j < m.len() && (#[trigger] m[j]).0 <= l + 1 <= m[j].1 by {
                    if l == i {
                        assert(m[m.len() - 1].0 <= l + 1 <= m[m.len() - 1].1);
                    } else {
                        let j = choose|j: int| 0 <= j < prev.len() && (#[trigger] prev[j]).0 <= l + 1 <= prev[j].1;
                        assert(m[j].0 <= l + 1 <= m[j].1);
                    }
                }
            } else {
                assert forall|l: int| 0 <= l < n && #[trigger] non_blank(ls, l) implies exists|j: int|
                    0 <= j < m.len() && (#[trigger] m[j]).0 <= l + 1 <= m[j].1 by {
                    if l == i {
                        assert(m[m.len() - 1].0 <= l + 1 <= m[m.len() - 1].1);
                    } else {
                        let j = choose|j: int| 0 <= j < prev.len() && (#[trigger] prev[j]).0 <= l + 1 <= prev[j].1;
                        assert(m[j].0 <= l + 1 <= m[j].1);
                    }
                }
            }
        }
    }
}


/// A list of exec triples as segment models.
pub open spec fn model_of(m: Seq<(u32, u32, Kind)>) -> Seq<SegModel> {
    m.map_values(|t: (u32, u32, Kind)| (t.0 as int, t.1 as int, t.2))
}

fn to_segments(m: &Vec<(u32, u32, Kind)>) -> (r: Vec<Segment>)
    ensures
        segments_match(r@, model_of(m@)),
{
    let mut r: Vec<Segment> = Vec::new();
    let mut j: usize = 0;
    while j < m.len()
        invariant
            j <= m@.len(),
            r@.len() == j,
            forall|q: int|
                0 <= q < j ==> {
                    &&& #[trigger] r@[q].start_line as int == model_of(m@)[q].0
                    &&& r@[q].end_line as int == model_of(m@)[q].1
                    &&& r@[q].kind@ == label_of(model_of(m@)[q].2)
                },
        decreases m@.len() - j,
    {
        let (a, b, k) = m[j];
        r.push(Segment { start_line: a, end_line: b, kind: k.label() });
        j = j + 1;
    }
    r
}

/// Splits a buffer into segments: maximal runs of consecutive non-blank
/// lines of one dialect. The first line honours a known extension hint.
pub fn detect_segments(content: String, extension: Option<String>) -> (r: Vec<Segment>)
    requires
        content@.len() < 0xffff_fff0,
    ensures
        segments_match(r@, segments_model(content@, hint_of(extension))),
{
    let ext = hint_chars(&extension);
    let cs = to_chars(content.as_str());
    let ls = lines(&cs);
    let ghost lv = lines_of(cs@);
    assert(ls@.map_values(|l: Vec<char>| l@) =~= lv);
    if ls.len() == 0 {
        let k = match kind_of_extension(&ext) {
            Some(k) => k,
            None => content_heuristic(&trim_chars(&cs)).0,
        };
        let r = vec![Segment { start_line: 1, end_line: 1, kind: k.label() }];
        assert(segments_match(r@, segments_model(content@, hint_of(extension))));
        return r;
    }
    let mut m: Vec<(u32, u32, Kind)> = Vec::new();
    let mut i: usize = 0;
    while i < ls.len()
        invariant
            i <= ls@.len() == lv.len() <= 0xffff_fff0,
            forall|q: int| 0 <= q < ls@.len() ==> #[trigger] ls@[q]@ == lv[q],
            model_of(m@) == scan(lv, ext@, i as nat),
        decreases ls@.len() - i,
    {
        proof { lemma_scan_partitions(lv, ext@, i as nat); }
        let t = trim_chars(&ls[i]);
        if t.len() > 0 {
            let k = line_kind_of(&ls[i], i, &ext);
            let line = (i + 1) as u32;
            let nm = m.len();
            if nm > 0 && m[nm - 1].2 == k && m[nm - 1].1 + 1 == line {
                let st = m[nm - 1].0;
                m.set(nm - 1, (st, line, k));
                assert(model_of(m@) =~= scan(lv, ext@, (i + 1) as nat));
            } else {
                assert(nm > 0 ==> model_of(m@)[nm - 1] == model_of(m@).last());
                m.push((line, line, k));
                assert(model_of(m@) =~= scan(lv, ext@, (i + 1) as nat));
            }
        }
        i = i + 1;
    }
    if m.len() == 0 {
        m.push((1, ls.len() as u32, Kind::Text));
        assert(model_of(m@) =~= segments_model(content@, hint_of(extension)));
    }
    to_segments(&m)
}

/// Segments cover the buffer: they are disjoint and in increasing order,
/// every non-blank line lies in exactly one, and two segments that touch
/// have different dialects. Unless every line is blank, a segment holds only
/// non-blank lines, each of the segment's dialect.
pub proof fn segments_partition(s: Seq<char>, ext: Seq<char>)
    requires
        s.len() > 0,
    ensures
        ({
            let m = segments_model(s, ext);
            let ls = lines_of(s);
            &&& forall|j: int| 0 <= j < m.len() ==> 1 <= (#[trigger] m[j]).0 <= m[j].1 <= ls.len()
            &&& forall|j1: int, j2: int|
                0 <= j1 < j2 < m.len() ==> (#[trigger] m[j1]).1 < (#[trigger] m[j2]).0
            &&& forall|j: int|
                0 <= j && j + 1 < m.len() && (#[trigger] m[j]).1 + 1 == m[j + 1].0 ==> m[j].2
                    != m[j + 1].2
            &&& forall|i: int|
                0 <= i < ls.len() && #[trigger] non_blank(ls, i) ==> exists|j: int|
                    0 <= j < m.len() && (#[trigger] m[j]).0 <= i + 1 <= m[j].1
            &&& (exists|i: int| 0 <= i < ls.len() && #[trigger] non_blank(ls, i)) ==> forall|
                j: int,
                l: int,
            |
                0 <= j < m.len() && (#[trigger] m[j]).0 <= l <= m[j].1 ==> non_blank(ls, l - 1)
                    && line_kind(#[trigger] ls[l - 1], l - 1, ext) == m[j].2
        }),
{
    let ls = lines_of(s);
    let p = split_lines(s);
    crate::text::lemma_split_lines_nonempty(s.drop_last());
    assert(ls.len() > 0);
    let sc = scan(ls, ext, ls.len());
    lemma_scan_partitions(ls, ext, ls.len());
    if sc.len() == 0 {
        assert forall|i: int| 0 <= i < ls.len() implies !#[trigger] non_blank(ls, i) by {}
    }
}

} // verus!

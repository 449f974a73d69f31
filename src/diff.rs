//! Line diffs of two buffers: a unified patch and a list of blocks.

use vstd::prelude::*;
use crate::text::{lines, lines_of, string_of, to_chars};
use similar::{DiffOp, TextDiff};

verus! {

/// One step of an edit script: whether the two ranges hold equal lines, then
/// the range `start..end` of old lines and the range of new lines.
pub type EditOp = (bool, usize, usize, usize, usize);

/// The edit script that similar's Myers diff gives for two lists of lines.
pub uninterp spec fn edit_script_of(old: Seq<Seq<char>>, new: Seq<Seq<char>>) -> Seq<EditOp>;

/// The unified patch text that similar renders for two lists of lines.
pub uninterp spec fn unified_text_of(old: Seq<Seq<char>>, new: Seq<Seq<char>>) -> Seq<char>;

/// The text of each string of `v`.
pub open spec fn strs(v: Seq<String>) -> Seq<Seq<char>> {
    v.map_values(|s: String| s@)
}

/// Step `k` of `ops`.
pub open spec fn step(ops: Seq<EditOp>, k: int) -> EditOp {
    ops[k]
}

/// The ranges of `ops` follow each other without gap from the start to the
/// end of a list of `na` old lines and one of `nb` new lines.
pub open spec fn tiled(ops: Seq<EditOp>, na: int, nb: int) -> bool {
    &&& forall|k: int|
        0 <= k < ops.len() ==> {
            &&& (#[trigger] step(ops, k)).1 <= step(ops, k).2
            &&& step(ops, k).3 <= step(ops, k).4
            &&& step(ops, k).1 == (if k == 0 { 0 } else { ops[k - 1].2 as int })
            &&& step(ops, k).3 == (if k == 0 { 0 } else { ops[k - 1].4 as int })
            &&& step(ops, k).0 ==> step(ops, k).2 - step(ops, k).1 == step(ops, k).4 - step(ops, k).3
        }
    &&& ops.len() == 0 ==> na == 0 && nb == 0
    &&& ops.len() > 0 ==> ops.last().2 == na && ops.last().4 == nb
}

/// Each equal step of `ops` pairs ranges of the same lines of `a` and `b`.
pub open spec fn equal_steps_match(ops: Seq<EditOp>, a: Seq<Seq<char>>, b: Seq<Seq<char>>) -> bool {
    forall|k: int|
        0 <= k < ops.len() && (#[trigger] ops[k]).0 ==> a.subrange(ops[k].1 as int, ops[k].2 as int) == b.subrange(
            ops[k].3 as int,
            ops[k].4 as int,
        )
}

/// Relies on similar's `TextDiff::from_slices` and `TextDiff::ops`: the ops
/// of a diff tile both inputs in order, and an `Equal` op spans equal items.
#[verifier::external_body]
fn diff_ops(old: &Vec<String>, new: &Vec<String>) -> (r: Vec<EditOp>)
    ensures
        r@ == edit_script_of(strs(old@), strs(new@)),
        tiled(r@, old@.len() as int, new@.len() as int),
        equal_steps_match(r@, strs(old@), strs(new@)),
{
    let o: Vec<&str> = old.iter().map(|s| s.as_str()).collect();
    let n: Vec<&str> = new.iter().map(|s| s.as_str()).collect();
    let diff = TextDiff::from_slices(&o, &n);
    diff.ops().iter().map(|op| {
        let (or, nr) = (op.old_range(), op.new_range());
        (matches!(op, DiffOp::Equal { .. }), or.start, or.end, nr.start, nr.end)
    }).collect()
}

/// Relies on similar's unified diff rendering of `TextDiff::from_slices`,
/// with the headers `current` and `clipboard` and no missing-newline hint.
#[verifier::external_body]
fn unified_text(old: &Vec<String>, new: &Vec<String>) -> (r: String)
    ensures
        r@ == unified_text_of(strs(old@), strs(new@)),
{
    let o: Vec<&str> = old.iter().map(|s| s.as_str()).collect();
    let n: Vec<&str> = new.iter().map(|s| s.as_str()).collect();
    let diff = TextDiff::from_slices(&o, &n);
    format!("{}", diff.unified_diff().header("current", "clipboard").missing_newline_hint(false))
}

/// A block of a structured diff.
#[derive(Debug)]
pub enum DiffBlock {
    /// Lines that both sides share.
    Unchanged { count: usize, lines: Vec<String> },
    /// Lines of the old side replaced by lines of the new side.
    Changed { old_lines: Vec<String>, new_lines: Vec<String> },
}

/// A block as mathematics: unchanged or not, old lines, new lines.
pub type BlockModel = (bool, Seq<Seq<char>>, Seq<Seq<char>>);

pub open spec fn block_model(b: DiffBlock) -> BlockModel {
    match b {
        DiffBlock::Unchanged { lines, .. } => (true, strs(lines@), strs(lines@)),
        DiffBlock::Changed { old_lines, new_lines } => (false, strs(old_lines@), strs(new_lines@)),
    }
}

/// An unchanged block counts its lines.
pub open spec fn block_wf(b: DiffBlock) -> bool {
    match b {
        DiffBlock::Unchanged { count, lines } => count == lines@.len(),
        DiffBlock::Changed { .. } => true,
    }
}

/// The blocks of one step: an equal step gives an unchanged block unless it
/// is empty; any other step gives one changed block.
pub open spec fn op_blocks(op: EditOp, a: Seq<Seq<char>>, b: Seq<Seq<char>>) -> Seq<BlockModel> {
    let old = a.subrange(op.1 as int, op.2 as int);
    if op.0 {
        if op.2 > op.1 {
            seq![(true, old, old)]
        } else {
            Seq::<BlockModel>::empty()
        }
    } else {
        seq![(false, old, b.subrange(op.3 as int, op.4 as int))]
    }
}

/// The blocks of the first `n` steps of `ops`.
pub open spec fn blocks_upto(ops: Seq<EditOp>, a: Seq<Seq<char>>, b: Seq<Seq<char>>, n: nat) -> Seq<BlockModel>
    decreases n,
{
    if n == 0 || n > ops.len() {
        Seq::<BlockModel>::empty()
    } else {
        blocks_upto(ops, a, b, (n - 1) as nat) + op_blocks(ops[n - 1], a, b)
    }
}

/// The number of old lines in `bs`.
pub open spec fn old_total(bs: Seq<BlockModel>) -> int
    decreases bs.len(),
{
    if bs.len() == 0 {
        0
    } else {
        old_total(bs.drop_last()) + bs.last().1.len()
    }
}

/// The number of new lines in `bs`.
pub open spec fn new_total(bs: Seq<BlockModel>) -> int
    decreases bs.len(),
{
    if bs.len() == 0 {
        0
    } else {
        new_total(bs.drop_last()) + bs.last().2.len()
    }
}

/// Result of comparing the current buffer with a second one.
#[derive(Debug)]
pub struct StructuredDiff {
    pub left_label: String,
    pub right_label: String,
    pub blocks: Vec<DiffBlock>,
}

proof fn lemma_step_in_bounds(ops: Seq<EditOp>, na: int, nb: int, k: int)
    requires
        tiled(ops, na, nb),
        0 <= k < ops.len(),
    ensures
        ops[k].1 <= ops[k].2 <= na,
        ops[k].3 <= ops[k].4 <= nb,
    decreases ops.len() - k,
{
    assert(step(ops, k) == ops[k]);
    if k + 1 < ops.len() {
        lemma_step_in_bounds(ops, na, nb, k + 1);
        assert(step(ops, k + 1).1 == ops[k].2);
    } else {
        assert(step(ops, k).2 == na);
    }
}

fn copy_range(v: &Vec<String>, lo: usize, hi: usize) -> (r: Vec<String>)
    requires
        lo <= hi <= v@.len(),
    ensures
        strs(r@) == strs(v@).subrange(lo as int, hi as int),
{
    let mut r: Vec<String> = Vec::new();
    let mut i: usize = lo;
    while i < hi
        invariant
            lo <= i <= hi <= v@.len(),
            strs(r@) == strs(v@).subrange(lo as int, i as int),
        decreases hi - i,
    {
        let x = v[i].clone();
        assert(x@ == strs(v@)[i as int]);
        let ghost r0 = r@;
        r.push(x);
        assert(strs(r@) =~= strs(r0).push(x@));
        i = i + 1;
        assert(strs(r@) =~= strs(v@).subrange(lo as int, i as int));
    }
    r
}

/// Renders an edit script from `old` to `new` as blocks.
pub fn blocks_from_script(old: &Vec<String>, new: &Vec<String>, ops: &Vec<EditOp>) -> (r: Vec<DiffBlock>)
    requires
        tiled(ops@, old@.len() as int, new@.len() as int),
    ensures
        r@.map_values(|b: DiffBlock| block_model(b)) == blocks_upto(ops@, strs(old@), strs(new@), ops@.len()),
        forall|j: int| 0 <= j < r@.len() ==> block_wf(#[trigger] r@[j]),
{
    let ghost a = strs(old@);
    let ghost b = strs(new@);
    let mut blocks: Vec<DiffBlock> = Vec::new();
    let mut k: usize = 0;
    while k < ops.len()
        invariant
            k <= ops@.len(),
            a == strs(old@),
            b == strs(new@),
            tiled(ops@, old@.len() as int, new@.len() as int),
            blocks@.map_values(|b: DiffBlock| block_model(b)) == blocks_upto(ops@, a, b, k as nat),
            forall|j: int| 0 <= j < blocks@.len() ==> block_wf(#[trigger] blocks@[j]),
        decreases ops@.len() - k,
    {
        let (eq, os, oe, ns, ne) = ops[k];
        proof { lemma_step_in_bounds(ops@, old@.len() as int, new@.len() as int, k as int); }
        if eq {
            if oe > os {
                let lines = copy_range(old, os, oe);
                assert(strs(lines@).len() == lines@.len());
                blocks.push(DiffBlock::Unchanged { count: oe - os, lines });
            }
        } else {
            let old_lines = copy_range(old, os, oe);
            let new_lines = copy_range(new, ns, ne);
            blocks.push(DiffBlock::Changed { old_lines, new_lines });
        }
        assert(forall|j: int| 0 <= j < blocks@.len() ==> block_wf(#[trigger] blocks@[j]));
        k = k + 1;
        assert(blocks@.map_values(|b: DiffBlock| block_model(b)) =~= blocks_upto(ops@, a, b, k as nat));
    }
    blocks
}


/// The lines of `s`, as strings.
pub fn line_strings(s: &str) -> (r: Vec<String>)
    ensures
        strs(r@) == lines_of(s@),
{
    let ls = lines(&to_chars(s));
    let mut r: Vec<String> = Vec::new();
    let mut i: usize = 0;
    while i < ls.len()
        invariant
            i <= ls@.len() == lines_of(s@).len(),
            forall|q: int| 0 <= q < ls@.len() ==> #[trigger] ls@[q]@ == lines_of(s@)[q],
            strs(r@) == lines_of(s@).take(i as int),
        decreases ls@.len() - i,
    {
        let x = string_of(&ls[i]);
        let ghost r0 = r@;
        r.push(x);
        assert(strs(r@) =~= strs(r0).push(x@));
        i = i + 1;
        assert(strs(r@) =~= lines_of(s@).take(i as int));
    }
    assert(lines_of(s@).take(i as int) =~= lines_of(s@));
    r
}

/// Tiling scripts account for every line: the old lines of all blocks add up
/// to the old list, the new lines to the new list.
pub proof fn script_block_totals(ops: Seq<EditOp>, a: Seq<Seq<char>>, b: Seq<Seq<char>>)
    requires
        tiled(ops, a.len() as int, b.len() as int),
    ensures
        old_total(blocks_upto(ops, a, b, ops.len())) == a.len(),
        new_total(blocks_upto(ops, a, b, ops.len())) == b.len(),
{
    lemma_totals_upto(ops, a, b, ops.len());
}

proof fn lemma_totals_upto(ops: Seq<EditOp>, a: Seq<Seq<char>>, b: Seq<Seq<char>>, n: nat)
    requires
        tiled(ops, a.len() as int, b.len() as int),
        n <= ops.len(),
    ensures
        old_total(blocks_upto(ops, a, b, n)) == (if n == 0 { 0 } else { ops[n - 1].2 as int }),
        new_total(blocks_upto(ops, a, b, n)) == (if n == 0 { 0 } else { ops[n - 1].4 as int }),
        n == ops.len() ==> (if n == 0 { 0 } else { ops[n - 1].2 as int }) == a.len(),
        n == ops.len() ==> (if n == 0 { 0 } else { ops[n - 1].4 as int }) == b.len(),
    decreases n,
{
    if n > 0 {
        let k = n - 1;
        lemma_totals_upto(ops, a, b, k as nat);
        lemma_step_in_bounds(ops, a.len() as int, b.len() as int, k);
        assert(step(ops, k) == ops[k]);
        let prev = blocks_upto(ops, a, b, k as nat);
        let cur = blocks_upto(ops, a, b, n);
        let ob = op_blocks(ops[k], a, b);
        if ob.len() == 0 {
            assert(cur =~= prev);
        } else {
            assert(cur.drop_last() =~= prev);
        }
    }
}

/// The blocks of `v` as mathematics.
pub open spec fn models_of(v: Seq<DiffBlock>) -> Seq<BlockModel> {
    v.map_values(|b: DiffBlock| block_model(b))
}

/// Compares two buffers line by line and renders the edit script as blocks.
pub fn compute_diff_structured(left: String, right: String) -> (r: StructuredDiff)
    ensures
        r.left_label@ == seq!['c', 'u', 'r', 'r', 'e', 'n', 't'],
        r.right_label@ == seq!['c', 'l', 'i', 'p', 'b', 'o', 'a', 'r', 'd'],
        ({
            let a = lines_of(left@);
            let b = lines_of(right@);
            let ops = edit_script_of(a, b);
            &&& models_of(r.blocks@) == blocks_upto(ops, a, b, ops.len())
            &&& old_total(models_of(r.blocks@)) == a.len()
            &&& new_total(models_of(r.blocks@)) == b.len()
        }),
        forall|j: int| 0 <= j < r.blocks@.len() ==> block_wf(#[trigger] r.blocks@[j]),
{
    let old = line_strings(left.as_str());
    let new = line_strings(right.as_str());
    let ops = diff_ops(&old, &new);
    let blocks = blocks_from_script(&old, &new, &ops);
    proof { script_block_totals(ops@, strs(old@), strs(new@)); }
    let left_label = "current".to_string();
    let right_label = "clipboard".to_string();
    proof {
        reveal_strlit("current");
        reveal_strlit("clipboard");
    }
    StructuredDiff { left_label, right_label, blocks }
}

/// The unified patch between two buffers, with headers `current` and
/// `clipboard`, rendered from the same edit script as the blocks.
pub fn compute_diff(left: String, right: String) -> (r: String)
    ensures
        r@ == unified_text_of(lines_of(left@), lines_of(right@)),
{
    let old = line_strings(left.as_str());
    let new = line_strings(right.as_str());
    unified_text(&old, &new)
}

} // verus!

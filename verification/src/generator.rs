//! The block merge engine: insert/update, remove, and listing of named
//! blocks in a line buffer.
//!
//! Every operation parses the buffer into its block index, edits the
//! buffer, and keeps the index consistent by shifting the recorded start
//! offsets of the blocks that follow an edit, instead of re-scanning.
//! The contracts state each operation against the model functions
//! `apply_insert`, `run_insert`, `apply_remove` and `run_remove`.

use vstd::prelude::*;

verus! {

use vstd::string::StrSliceExecFns;
use vstd::string::StringExecFns;
use crate::markers::{start_marker, end_marker, is_marker_line};
use crate::blocks::{
    Block, BlockModel, BlockVec, StructureError, end_pos, block_at, covered, wf_index,
};

/// The lower-case image of one character: the ASCII letters `A` to `Z`
/// map to `a` to `z`, every other character stays.
pub open spec fn lower_char(c: char) -> char {
    if 'A' <= c && c <= 'Z' {
        ((c as u32) + 32) as char
    } else {
        c
    }
}

/// The lower-case image of a character sequence.
pub open spec fn lower(s: Seq<char>) -> Seq<char> {
    s.map_values(|c: char| lower_char(c))
}

/// The single-character string holding the lower-case image of an ASCII
/// upper-case letter.
fn lower_char_str(c: char) -> (r: &'static str)
    requires
        'A' <= c && c <= 'Z',
    ensures
        r@.len() == 1,
        r@[0] == lower_char(c),
{
    proof {
        reveal_strlit("a");
        reveal_strlit("b");
        reveal_strlit("c");
        reveal_strlit("d");
        reveal_strlit("e");
        reveal_strlit("f");
        reveal_strlit("g");
        reveal_strlit("h");
        reveal_strlit("i");
        reveal_strlit("j");
        reveal_strlit("k");
        reveal_strlit("l");
        reveal_strlit("m");
        reveal_strlit("n");
        reveal_strlit("o");
        reveal_strlit("p");
        reveal_strlit("q");
        reveal_strlit("r");
        reveal_strlit("s");
        reveal_strlit("t");
        reveal_strlit("u");
        reveal_strlit("v");
        reveal_strlit("w");
        reveal_strlit("x");
        reveal_strlit("y");
        reveal_strlit("z");
    }
    match c {
        'A' => "a",
        'B' => "b",
        'C' => "c",
        'D' => "d",
        'E' => "e",
        'F' => "f",
        'G' => "g",
        'H' => "h",
        'I' => "i",
        'J' => "j",
        'K' => "k",
        'L' => "l",
        'M' => "m",
        'N' => "n",
        'O' => "o",
        'P' => "p",
        'Q' => "q",
        'R' => "r",
        'S' => "s",
        'T' => "t",
        'U' => "u",
        'V' => "v",
        'W' => "w",
        'X' => "x",
        'Y' => "y",
        _ => {
            assert(c == 'Z');
            "z"
        },
    }
}

/// Lower-case a string: the ASCII letters `A` to `Z` map to `a` to `z`,
/// every other character stays.
pub fn to_lower(s: &str) -> (r: String)
    ensures
        r@ == lower(s@),
{
    let len = s.unicode_len();
    let mut r = String::new();
    let mut i: usize = 0;
    while i < len
        invariant
            len == s@.len(),
            0 <= i <= len,
            r@.len() == i,
            forall|j: int| 0 <= j < i ==> r@[j] == lower_char(s@[j]),
        decreases len - i,
    {
        let c = s.get_char(i);
        if 'A' <= c && c <= 'Z' {
            r.append(lower_char_str(c));
        } else {
            r.append(s.substring_char(i, i + 1));
        }
        i = i + 1;
    }
    proof {
        assert(r@ =~= lower(s@));
    }
    r
}

/// One template to merge: the file stem that names the block, and the
/// content lines read from the template file.
pub struct Template {
    pub stem: String,
    pub lines: Vec<String>,
}

/// The mathematical image of one template.
pub struct TemplateModel {
    pub stem: Seq<char>,
    pub content: Seq<Seq<char>>,
}

impl View for Template {
    type V = TemplateModel;

    open spec fn view(&self) -> TemplateModel {
        TemplateModel { stem: self.stem@, content: self.lines.deep_view() }
    }
}

/// The models of a list of templates.
pub open spec fn templates_view(ts: &Vec<Template>) -> Seq<TemplateModel> {
    Seq::new(ts@.len(), |i: int| ts@[i]@)
}

/// Content that may stand inside a block: no line carries the marker
/// prefix, so splicing it in moves no marker.
pub open spec fn content_ok(content: Seq<Seq<char>>) -> bool {
    forall|i: int| 0 <= i < content.len() ==> !is_marker_line(#[trigger] content[i])
}

/// Whether some line of `lines` carries the marker prefix.
fn content_has_marker(lines: &Vec<String>) -> (r: bool)
    ensures
        r == !content_ok(lines.deep_view()),
{
    let prefix = crate::markers::marker_prefix_str();
    let mut i: usize = 0;
    while i < lines.len()
        invariant
            prefix@ == crate::markers::marker_prefix(),
            0 <= i <= lines@.len(),
            forall|j: int|
                0 <= j < i ==> !is_marker_line(#[trigger] lines.deep_view()[j]),
        decreases lines@.len() - i,
    {
        let has = crate::markers::str_has_prefix(lines[i].as_str(), prefix);
        proof {
            assert(lines.deep_view()[i as int] == lines@[i as int]@);
        }
        if has {
            return true;
        }
        i = i + 1;
    }
    false
}

/// The position of the first block named `name` in `bs`.
pub open spec fn find_block(bs: Seq<BlockModel>, name: Seq<char>) -> Option<int>
    decreases bs.len(),
{
    if bs.len() == 0 {
        None
    } else if bs[0].name == name {
        Some(0int)
    } else {
        match find_block(bs.subrange(1, bs.len() as int), name) {
            None => None,
            Some(i) => Some(i + 1),
        }
    }
}

/// `find_block` returns the first position whose block carries `name`,
/// and `None` exactly when no block does.
pub proof fn lemma_find_block(bs: Seq<BlockModel>, name: Seq<char>)
    ensures
        match find_block(bs, name) {
            Some(i) => {
                &&& 0 <= i < bs.len()
                &&& bs[i].name == name
                &&& forall|k: int| 0 <= k < i ==> (#[trigger] bs[k]).name != name
            },
            None => forall|k: int| 0 <= k < bs.len() ==> (#[trigger] bs[k]).name != name,
        },
    decreases bs.len(),
{
    if bs.len() > 0 && bs[0].name != name {
        let sub = bs.subrange(1, bs.len() as int);
        lemma_find_block(sub, name);
        assert(forall|k: int| 0 <= k < sub.len() ==> #[trigger] sub[k] == bs[k + 1]);
        match find_block(sub, name) {
            Some(i) => {
                assert(find_block(bs, name) == Some(i + 1));
                assert(sub[i] == bs[i + 1]);
                assert forall|k: int| 0 <= k < i + 1 implies (#[trigger] bs[k]).name != name by {
                    if k >= 1 {
                        assert(sub[k - 1] == bs[k]);
                    }
                }
            },
            None => {
                assert forall|k: int| 0 <= k < bs.len() implies (#[trigger] bs[k]).name
                    != name by {
                    if k >= 1 {
                        assert(sub[k - 1] == bs[k]);
                    }
                }
            },
        }
    }
}

/// Replace the `removed` lines of `lines` at position `at` with `newc`.
pub open spec fn splice(
    lines: Seq<Seq<char>>,
    at: int,
    removed: int,
    newc: Seq<Seq<char>>,
) -> Seq<Seq<char>> {
    lines.subrange(0, at) + newc + lines.subrange(at + removed, lines.len() as int)
}

/// How each line of a spliced buffer reads: lines before the splice stay,
/// the new content stands at the splice position, and lines after the
/// removed region shift by the length difference.
pub proof fn lemma_splice_parts(lines: Seq<Seq<char>>, at: int, removed: int, newc: Seq<Seq<char>>)
    requires
        0 <= at,
        0 <= removed,
        at + removed <= lines.len(),
    ensures
        splice(lines, at, removed, newc).len() == lines.len() - removed + newc.len(),
        forall|k: int| 0 <= k < at ==> #[trigger] splice(lines, at, removed, newc)[k] == lines[k],
        forall|k: int|
            at <= k < at + newc.len() ==> #[trigger] splice(lines, at, removed, newc)[k]
                == newc[k - at],
        forall|k: int|
            at + newc.len() <= k < lines.len() - removed + newc.len()
                ==> #[trigger] splice(lines, at, removed, newc)[k] == lines[k - newc.len() + removed],
{
}

/// A blank separator line is owed before an appended block when the
/// buffer is non-empty and its last line is not blank.
pub open spec fn sep_needed(lines: Seq<Seq<char>>) -> bool {
    lines.len() > 0 && lines.last().len() > 0
}

/// The buffer after appending a brand-new block at the end: an optional
/// blank separator, the start marker, the content, the end marker, and a
/// trailing blank line.
pub open spec fn appended_block(
    lines: Seq<Seq<char>>,
    name: Seq<char>,
    content: Seq<Seq<char>>,
) -> Seq<Seq<char>> {
    let base = if sep_needed(lines) {
        lines.push(Seq::<char>::empty())
    } else {
        lines
    };
    base + seq![start_marker(name)] + content + seq![end_marker(name)] + seq![
        Seq::<char>::empty(),
    ]
}

/// The start position of a block appended to `lines`.
pub open spec fn appended_start(lines: Seq<Seq<char>>) -> int {
    if sep_needed(lines) {
        lines.len() as int + 1
    } else {
        lines.len() as int
    }
}

/// One insert step on a buffer and its index: update the block named
/// `name` in place when the index holds one, else append a new block at
/// the end. Returns the new buffer and the new index.
pub open spec fn apply_insert(
    lines: Seq<Seq<char>>,
    bs: Seq<BlockModel>,
    name: Seq<char>,
    content: Seq<Seq<char>>,
) -> (Seq<Seq<char>>, Seq<BlockModel>) {
    match find_block(bs, name) {
        Some(i) => {
            let b = bs[i];
            let delta = content.len() - b.size;
            let nl = splice(lines, b.start + 1, b.size, content);
            let nbs = Seq::new(
                bs.len(),
                |j: int|
                    if j < i {
                        bs[j]
                    } else if j == i {
                        BlockModel { name: b.name, start: b.start, size: content.len() as int }
                    } else {
                        BlockModel {
                            name: bs[j].name,
                            start: bs[j].start + delta,
                            size: bs[j].size,
                        }
                    },
            );
            (nl, nbs)
        },
        None => {
            (
                appended_block(lines, name, content),
                bs.push(
                    BlockModel {
                        name: name,
                        start: appended_start(lines),
                        size: content.len() as int,
                    },
                ),
            )
        },
    }
}

/// A fault that stops the merge.
#[derive(Clone, Copy, Debug, PartialEq, Eq, Structural)]
pub enum MergeError {
    /// The target buffer has no well-formed block index.
    Structure(StructureError),
    /// A template's lower-cased stem is empty and cannot name a block.
    EmptyName,
    /// A template content line carries the marker prefix and would corrupt
    /// the block structure.
    ContentMarker,
}

/// The fault a template itself carries, checked before it is applied.
pub open spec fn template_fault(t: TemplateModel) -> Option<MergeError> {
    if lower(t.stem).len() == 0 {
        Some(MergeError::EmptyName)
    } else if !content_ok(t.content) {
        Some(MergeError::ContentMarker)
    } else {
        None
    }
}

/// Apply the templates to the buffer and its index in order, stopping at
/// the first faulty template. Returns the final buffer, the final index,
/// and the fault, if any.
pub open spec fn run_insert(
    lines: Seq<Seq<char>>,
    bs: Seq<BlockModel>,
    ts: Seq<TemplateModel>,
) -> (Seq<Seq<char>>, Seq<BlockModel>, Option<MergeError>)
    decreases ts.len(),
{
    if ts.len() == 0 {
        (lines, bs, None)
    } else {
        match template_fault(ts[0]) {
            Some(e) => (lines, bs, Some(e)),
            None => {
                let stepped = apply_insert(lines, bs, lower(ts[0].stem), ts[0].content);
                run_insert(stepped.0, stepped.1, ts.subrange(1, ts.len() as int))
            },
        }
    }
}


/// Updating the block named `name` in place preserves well-formedness of
/// the buffer and its index.
#[verifier::rlimit(100)]
proof fn lemma_update_wf(
    lines: Seq<Seq<char>>,
    bs: Seq<BlockModel>,
    name: Seq<char>,
    content: Seq<Seq<char>>,
    i: int,
)
    requires
        wf_index(lines, bs),
        find_block(bs, name) == Some(i),
        0 <= i < bs.len(),
        content_ok(content),
    ensures
        ({
            let r = apply_insert(lines, bs, name, content);
            wf_index(r.0, r.1)
        }),
{
    let b = bs[i];
    let at = b.start + 1;
    let delta = content.len() - b.size;
    let nl = splice(lines, at, b.size, content);
    let r = apply_insert(lines, bs, name, content);
    let nbs = r.1;
    assert(r.0 == nl);
    assert(block_at(lines, b));
    lemma_splice_parts(lines, at, b.size, content);
    assert(nl.len() == lines.len() + delta);
    crate::markers::lemma_marker_is_marker_line();

    // Every block of the new index is a genuine block of the new buffer.
    assert forall|m: int| 0 <= m < nbs.len() implies block_at(nl, #[trigger] nbs[m]) by {
        assert(block_at(lines, bs[m]));
        if m < i {
            assert(end_pos(bs[m]) < b.start);
            assert(nbs[m] == bs[m]);
            assert(nl[bs[m].start] == lines[bs[m].start]);
            assert(nl[end_pos(bs[m])] == lines[end_pos(bs[m])]);
            assert forall|j: int|
                nbs[m].start < j < end_pos(nbs[m]) implies !is_marker_line(#[trigger] nl[j]) by {
                assert(nl[j] == lines[j]);
            }
        } else if m == i {
            assert(nbs[m].start == b.start);
            assert(nbs[m].size == content.len());
            assert(nl[b.start] == lines[b.start]);
            assert(end_pos(nbs[m]) == at + content.len());
            assert(at + content.len() < nl.len());
            assert(nl[at + content.len()] == lines[at + content.len() - content.len() + b.size]);
            assert(lines[at + b.size] == end_marker(b.name));
            assert forall|j: int|
                nbs[m].start < j < end_pos(nbs[m]) implies !is_marker_line(#[trigger] nl[j]) by {
                assert(nl[j] == content[j - at]);
            }
        } else {
            assert(end_pos(b) < bs[m].start);
            assert(nbs[m].start == bs[m].start + delta);
            assert(nbs[m].size == bs[m].size);
            assert(nbs[m].start >= at + content.len() + 1);
            assert(nl[nbs[m].start] == lines[bs[m].start]);
            assert(end_pos(nbs[m]) == end_pos(bs[m]) + delta);
            assert(nl[end_pos(nbs[m])] == lines[end_pos(bs[m])]);
            assert forall|j: int|
                nbs[m].start < j < end_pos(nbs[m]) implies !is_marker_line(#[trigger] nl[j]) by {
                assert(nl[j] == lines[j - delta]);
                assert(bs[m].start < j - delta < end_pos(bs[m]));
            }
        }
    }

    // The new index stays ordered, and names are untouched.
    assert forall|m1: int, m2: int|
        0 <= m1 < m2 < nbs.len() implies end_pos(#[trigger] nbs[m1]) < (#[trigger] nbs[m2]).start by {
        assert(end_pos(bs[m1]) < bs[m2].start);
        assert(block_at(lines, bs[m1]));
        assert(block_at(lines, bs[m2]));
    }
    assert forall|m1: int, m2: int|
        0 <= m1 < m2 < nbs.len() implies (#[trigger] nbs[m1]).name != (#[trigger] nbs[m2]).name by {
        assert(bs[m1].name != bs[m2].name);
    }

    // Every marker line of the new buffer belongs to a block of the new
    // index.
    assert forall|k: int|
        0 <= k < nl.len() && is_marker_line(#[trigger] nl[k]) implies covered(nbs, k) by {
        if k < at {
            assert(nl[k] == lines[k]);
            assert(covered(bs, k));
            let m = choose|m: int|
                0 <= m < bs.len() && ((#[trigger] bs[m]).start == k || end_pos(bs[m]) == k);
            assert(block_at(lines, bs[m]));
            if m > i {
                assert(end_pos(b) < bs[m].start);
            } else if m == i {
                assert(bs[m].start == k);
                assert(nbs[i].start == k);
            } else {
                assert(nbs[m] == bs[m]);
            }
        } else if k < at + content.len() {
            assert(nl[k] == content[k - at]);
        } else {
            let p = k - content.len() + b.size;
            assert(nl[k] == lines[p]);
            assert(p >= end_pos(b));
            assert(covered(bs, p));
            let m = choose|m: int|
                0 <= m < bs.len() && ((#[trigger] bs[m]).start == p || end_pos(bs[m]) == p);
            assert(block_at(lines, bs[m]));
            if m < i {
                assert(end_pos(bs[m]) < b.start);
            } else if m == i {
                assert(end_pos(b) == p);
                assert(end_pos(nbs[i]) == k);
            } else {
                assert(nbs[m].start == bs[m].start + delta);
                assert(end_pos(nbs[m]) == end_pos(bs[m]) + delta);
            }
        }
    }
}

/// Appending a brand-new block named `name` at the end of the buffer
/// preserves well-formedness of the buffer and its index.
proof fn lemma_append_wf(
    lines: Seq<Seq<char>>,
    bs: Seq<BlockModel>,
    name: Seq<char>,
    content: Seq<Seq<char>>,
)
    requires
        wf_index(lines, bs),
        find_block(bs, name) is None,
        name.len() > 0,
        content_ok(content),
    ensures
        ({
            let r = apply_insert(lines, bs, name, content);
            wf_index(r.0, r.1)
        }),
{
    let base = if sep_needed(lines) {
        lines.push(Seq::<char>::empty())
    } else {
        lines
    };
    let st = appended_start(lines);
    assert(st == base.len());
    let nl = appended_block(lines, name, content);
    let nb = BlockModel { name: name, start: st, size: content.len() as int };
    let nbs = bs.push(nb);
    let r = apply_insert(lines, bs, name, content);
    assert(r.0 == nl && r.1 == nbs);
    lemma_find_block(bs, name);
    crate::markers::lemma_marker_is_marker_line();
    crate::markers::lemma_marker_prefix_nonempty();

    assert(nl.len() == st + content.len() + 3);
    assert forall|k: int| 0 <= k < lines.len() implies #[trigger] nl[k] == lines[k] by {}
    assert(nl[st] == start_marker(name));
    assert forall|q: int| 0 <= q < content.len() implies #[trigger] nl[st + 1 + q] == content[q] by {}
    assert(nl[st + content.len() + 1] == end_marker(name));
    assert(nl[st + content.len() + 2] == Seq::<char>::empty());
    if sep_needed(lines) {
        assert(nl[lines.len() as int] == Seq::<char>::empty());
    }

    assert forall|m: int| 0 <= m < nbs.len() implies block_at(nl, #[trigger] nbs[m]) by {
        if m < bs.len() {
            assert(nbs[m] == bs[m]);
            assert(block_at(lines, bs[m]));
            assert(nl[bs[m].start] == lines[bs[m].start]);
            assert(nl[end_pos(bs[m])] == lines[end_pos(bs[m])]);
            assert forall|j: int|
                nbs[m].start < j < end_pos(nbs[m]) implies !is_marker_line(#[trigger] nl[j]) by {
                assert(nl[j] == lines[j]);
            }
        } else {
            assert(nbs[m] == nb);
            assert(end_pos(nb) == st + content.len() + 1);
            assert forall|j: int|
                nb.start < j < end_pos(nb) implies !is_marker_line(#[trigger] nl[j]) by {
                assert(nl[j] == content[j - (st + 1)]);
            }
        }
    }

    assert forall|m1: int, m2: int|
        0 <= m1 < m2 < nbs.len() implies end_pos(#[trigger] nbs[m1]) < (#[trigger] nbs[m2]).start by {
        if m2 < bs.len() {
            assert(end_pos(bs[m1]) < bs[m2].start);
        } else {
            assert(block_at(lines, bs[m1]));
            assert(end_pos(bs[m1]) < lines.len() <= st);
        }
    }

    assert forall|m1: int, m2: int|
        0 <= m1 < m2 < nbs.len() implies (#[trigger] nbs[m1]).name != (#[trigger] nbs[m2]).name by {
        if m2 < bs.len() {
            assert(bs[m1].name != bs[m2].name);
        } else {
            assert(bs[m1].name != name);
        }
    }

    assert forall|k: int|
        0 <= k < nl.len() && is_marker_line(#[trigger] nl[k]) implies covered(nbs, k) by {
        if k < lines.len() {
            assert(nl[k] == lines[k]);
            assert(covered(bs, k));
            let m = choose|m: int|
                0 <= m < bs.len() && ((#[trigger] bs[m]).start == k || end_pos(bs[m]) == k);
            assert(nbs[m] == bs[m]);
        } else if k == st || k == st + content.len() + 1 {
            assert(nbs[bs.len() as int] == nb);
        } else if st + 1 <= k < st + content.len() + 1 {
            assert(nl[k] == content[k - (st + 1)]);
        } else if k == st + content.len() + 2 {
            assert(nl[k] == Seq::<char>::empty());
        } else {
            assert(sep_needed(lines) && k == lines.len());
            assert(nl[k] == Seq::<char>::empty());
        }
    }
}

/// One insert step preserves well-formedness of the buffer and its index.
pub proof fn lemma_apply_insert_wf(
    lines: Seq<Seq<char>>,
    bs: Seq<BlockModel>,
    name: Seq<char>,
    content: Seq<Seq<char>>,
)
    requires
        wf_index(lines, bs),
        name.len() > 0,
        content_ok(content),
    ensures
        ({
            let r = apply_insert(lines, bs, name, content);
            wf_index(r.0, r.1)
        }),
{
    lemma_find_block(bs, name);
    match find_block(bs, name) {
        Some(i) => lemma_update_wf(lines, bs, name, content, i),
        None => lemma_append_wf(lines, bs, name, content),
    }
}



/// One remove step on a buffer and its index: delete the block named
/// `name` (markers and content) when the index holds one, else leave
/// both untouched.
pub open spec fn apply_remove(
    lines: Seq<Seq<char>>,
    bs: Seq<BlockModel>,
    name: Seq<char>,
) -> (Seq<Seq<char>>, Seq<BlockModel>) {
    match find_block(bs, name) {
        None => (lines, bs),
        Some(i) => {
            let b = bs[i];
            let width = b.size + 2;
            let nl = splice(lines, b.start, width, Seq::<Seq<char>>::empty());
            let nbs = Seq::new(
                (bs.len() - 1) as nat,
                |j: int|
                    if j < i {
                        bs[j]
                    } else {
                        BlockModel {
                            name: bs[j + 1].name,
                            start: bs[j + 1].start - width,
                            size: bs[j + 1].size,
                        }
                    },
            );
            (nl, nbs)
        },
    }
}

/// Apply the removals to the buffer and its index in order. Names with
/// no matching block change nothing.
pub open spec fn run_remove(
    lines: Seq<Seq<char>>,
    bs: Seq<BlockModel>,
    names: Seq<Seq<char>>,
) -> (Seq<Seq<char>>, Seq<BlockModel>)
    decreases names.len(),
{
    if names.len() == 0 {
        (lines, bs)
    } else {
        let stepped = apply_remove(lines, bs, lower(names[0]));
        run_remove(stepped.0, stepped.1, names.subrange(1, names.len() as int))
    }
}

/// One remove step preserves well-formedness of the buffer and its index.
#[verifier::rlimit(100)]
pub proof fn lemma_apply_remove_wf(lines: Seq<Seq<char>>, bs: Seq<BlockModel>, name: Seq<char>)
    requires
        wf_index(lines, bs),
    ensures
        ({
            let r = apply_remove(lines, bs, name);
            wf_index(r.0, r.1)
        }),
{
    lemma_find_block(bs, name);
    match find_block(bs, name) {
        None => {},
        Some(i) => {
            let b = bs[i];
            let width = b.size + 2;
            let at = b.start;
            let nl = splice(lines, at, width, Seq::<Seq<char>>::empty());
            let r = apply_remove(lines, bs, name);
            let nbs = r.1;
            assert(r.0 == nl);
            assert(block_at(lines, b));
            lemma_splice_parts(lines, at, width, Seq::<Seq<char>>::empty());
            assert(nl.len() == lines.len() - width);

            assert forall|m: int| 0 <= m < nbs.len() implies block_at(nl, #[trigger] nbs[m]) by {
                if m < i {
                    assert(block_at(lines, bs[m]));
                    assert(end_pos(bs[m]) < at);
                    assert(nbs[m] == bs[m]);
                    assert(nl[bs[m].start] == lines[bs[m].start]);
                    assert(nl[end_pos(bs[m])] == lines[end_pos(bs[m])]);
                    assert forall|j: int|
                        nbs[m].start < j < end_pos(nbs[m]) implies !is_marker_line(
                        #[trigger] nl[j],
                    ) by {
                        assert(nl[j] == lines[j]);
                    }
                } else {
                    assert(block_at(lines, bs[m + 1]));
                    assert(end_pos(b) < bs[m + 1].start);
                    assert(nbs[m].start == bs[m + 1].start - width);
                    assert(nbs[m].start >= at);
                    assert(nl[nbs[m].start] == lines[bs[m + 1].start]);
                    assert(end_pos(nbs[m]) == end_pos(bs[m + 1]) - width);
                    assert(nl[end_pos(nbs[m])] == lines[end_pos(bs[m + 1])]);
                    assert forall|j: int|
                        nbs[m].start < j < end_pos(nbs[m]) implies !is_marker_line(
                        #[trigger] nl[j],
                    ) by {
                        assert(nl[j] == lines[j + width]);
                        assert(bs[m + 1].start < j + width < end_pos(bs[m + 1]));
                    }
                }
            }

            assert forall|m1: int, m2: int|
                0 <= m1 < m2 < nbs.len() implies end_pos(#[trigger] nbs[m1]) < (
            #[trigger] nbs[m2]).start by {
                if m2 < i {
                    assert(end_pos(bs[m1]) < bs[m2].start);
                } else if m1 < i {
                    assert(end_pos(bs[m1]) < bs[m2 + 1].start);
                    assert(end_pos(bs[m1]) < at);
                    assert(bs[m2 + 1].start > end_pos(b));
                } else {
                    assert(end_pos(bs[m1 + 1]) < bs[m2 + 1].start);
                }
            }

            assert forall|m1: int, m2: int|
                0 <= m1 < m2 < nbs.len() implies (#[trigger] nbs[m1]).name != (
            #[trigger] nbs[m2]).name by {
                if m2 < i {
                    assert(bs[m1].name != bs[m2].name);
                } else if m1 < i {
                    assert(bs[m1].name != bs[m2 + 1].name);
                } else {
                    assert(bs[m1 + 1].name != bs[m2 + 1].name);
                }
            }

            assert forall|k: int|
                0 <= k < nl.len() && is_marker_line(#[trigger] nl[k]) implies covered(nbs, k) by {
                if k < at {
                    assert(nl[k] == lines[k]);
                    assert(covered(bs, k));
                    let m = choose|m: int|
                        0 <= m < bs.len() && ((#[trigger] bs[m]).start == k || end_pos(bs[m])
                            == k);
                    assert(block_at(lines, bs[m]));
                    if m > i {
                        assert(end_pos(b) < bs[m].start);
                    } else if m == i {
                        assert(b.start <= k);
                    } else {
                        assert(nbs[m] == bs[m]);
                    }
                } else {
                    let p = k + width;
                    assert(nl[k] == lines[p]);
                    assert(p > end_pos(b));
                    assert(covered(bs, p));
                    let m = choose|m: int|
                        0 <= m < bs.len() && ((#[trigger] bs[m]).start == p || end_pos(bs[m])
                            == p);
                    assert(block_at(lines, bs[m]));
                    if m <= i {
                        assert(bs[m].start <= b.start);
                        assert(end_pos(bs[m]) <= end_pos(b));
                    } else {
                        assert(nbs[m - 1].start == bs[m].start - width);
                        assert(end_pos(nbs[m - 1]) == end_pos(bs[m]) - width);
                    }
                }
            }
        },
    }
}



/// `find_block` agrees with a first-match search.
pub proof fn lemma_find_block_agrees(bs: Seq<BlockModel>, name: Seq<char>, bi: int)
    requires
        0 <= bi < bs.len(),
        bs[bi].name == name,
        forall|k: int| 0 <= k < bi ==> (#[trigger] bs[k]).name != name,
    ensures
        find_block(bs, name) == Some(bi),
{
    lemma_find_block(bs, name);
    match find_block(bs, name) {
        Some(j) => {
            if j < bi {
                assert(bs[j].name != name);
            } else if j > bi {
                assert(bs[bi].name != name);
            }
        },
        None => {
            assert(bs[bi].name != name);
        },
    }
}

/// `find_block` finds nothing when no block carries the name.
pub proof fn lemma_find_block_none(bs: Seq<BlockModel>, name: Seq<char>)
    requires
        forall|k: int| 0 <= k < bs.len() ==> (#[trigger] bs[k]).name != name,
    ensures
        find_block(bs, name) is None,
{
    lemma_find_block(bs, name);
    match find_block(bs, name) {
        Some(j) => {
            assert(bs[j].name != name);
        },
        None => {},
    }
}

/// The names of the listed blocks, in index order.
pub open spec fn block_names(bs: Seq<BlockModel>) -> Seq<Seq<char>> {
    Seq::new(bs.len(), |i: int| bs[i].name)
}

/// List the names of the blocks of the buffer, in buffer order, without
/// touching the buffer.
pub fn get_block_names(lines: &Vec<String>) -> (r: Result<Vec<String>, MergeError>)
    ensures
        forall|bs: Seq<BlockModel>|
            wf_index(lines.deep_view(), bs) ==> (r matches Ok(ns) && ns.deep_view()
                == block_names(bs)),
        r matches Err(e) ==> (e is Structure && forall|bs: Seq<BlockModel>|
            !wf_index(lines.deep_view(), bs)),
        (forall|bs: Seq<BlockModel>| !wf_index(lines.deep_view(), bs)) ==> r is Err,
{
    let bv = match BlockVec::from(lines) {
        Ok(bv) => bv,
        Err(e) => {
            return Err(MergeError::Structure(e));
        },
    };
    let mut names: Vec<String> = Vec::new();
    let mut i: usize = 0;
    while i < bv.len()
        invariant
            0 <= i <= bv@.len(),
            names@.len() == i,
            forall|k: int| 0 <= k < i ==> (#[trigger] names@[k])@ == bv@[k].name,
        decreases bv@.len() - i,
    {
        let b = bv.get(i);
        names.push(b.name.clone());
        i = i + 1;
    }
    proof {
        assert forall|k: int| 0 <= k < names@.len() implies names.deep_view()[k] == block_names(
            bv@,
        )[k] by {
            assert(names.deep_view()[k] == names@[k]@);
        }
        assert(names.deep_view() =~= block_names(bv@));
    }
    Ok(names)
}

/// Remove the blocks carrying the given names (lower-cased) from the
/// buffer, markers and content alike. Names with no matching block are
/// silently skipped. On a structural violation the buffer is untouched.
pub fn remove(lines: &mut Vec<String>, names: &Vec<String>) -> (r: Result<(), MergeError>)
    ensures
        forall|bs: Seq<BlockModel>|
            wf_index(old(lines).deep_view(), bs) ==> {
                let stepped = run_remove(old(lines).deep_view(), bs, names.deep_view());
                &&& r is Ok
                &&& final(lines).deep_view() == stepped.0
                &&& wf_index(stepped.0, stepped.1)
            },
        (forall|bs: Seq<BlockModel>| !wf_index(old(lines).deep_view(), bs)) ==> (r matches Err(e)
            && e is Structure && final(lines)@ == old(lines)@),
{
    let mut bv = match BlockVec::from(lines) {
        Ok(bv) => bv,
        Err(e) => {
            return Err(MergeError::Structure(e));
        },
    };
    let ghost ld0: Seq<Seq<char>> = lines.deep_view();
    let ghost bs0: Seq<BlockModel> = bv@;
    let ghost nsv: Seq<Seq<char>> = names.deep_view();
    proof {
        assert(nsv.subrange(0, nsv.len() as int) =~= nsv);
    }
    let mut t: usize = 0;
    while t < names.len()
        invariant
            0 <= t <= names@.len(),
            nsv == names.deep_view(),
            nsv.len() == names@.len(),
            ld0 == old(lines).deep_view(),
            wf_index(ld0, bs0),
            wf_index(lines.deep_view(), bv@),
            forall|bs: Seq<BlockModel>| wf_index(ld0, bs) ==> bs == bs0,
            run_remove(ld0, bs0, nsv) == run_remove(
                lines.deep_view(),
                bv@,
                nsv.subrange(t as int, nsv.len() as int),
            ),
        decreases names@.len() - t,
    {
        let ghost cur_ld = lines.deep_view();
        let ghost cur_bs = bv@;
        let ghost sub_t = nsv.subrange(t as int, nsv.len() as int);
        let lname = to_lower(names[t].as_str());
        proof {
            assert(nsv[t as int] == names@[t as int]@);
            assert(sub_t[0] == nsv[t as int]);
            assert(sub_t.subrange(1, sub_t.len() as int) =~= nsv.subrange(
                t as int + 1,
                nsv.len() as int,
            ));
            lemma_apply_remove_wf(cur_ld, cur_bs, lname@);
        }
        match bv.index_of(&lname) {
            None => {
                proof {
                    lemma_find_block_none(cur_bs, lname@);
                    assert(apply_remove(cur_ld, cur_bs, lname@) == (cur_ld, cur_bs));
                }
            },
            Some(bi) => {
                proof {
                    lemma_find_block_agrees(cur_bs, lname@, bi as int);
                }
                let b_start = bv.get(bi).start;
                let b_size = bv.get(bi).size;
                let ghost pre_v: Seq<String> = lines@;
                let cur_len = lines.len();
                proof {
                    assert(block_at(cur_ld, cur_bs[bi as int]));
                    assert(b_start + b_size + 1 < cur_len);
                }
                let width = b_size + 2;
                let mut q: usize = 0;
                while q < width
                    invariant
                        0 <= q <= width,
                        b_start + width <= pre_v.len(),
                        lines@.len() == pre_v.len() - q,
                        lines@ == pre_v.subrange(0, b_start as int) + pre_v.subrange(
                            b_start + q,
                            pre_v.len() as int,
                        ),
                    decreases width - q,
                {
                    lines.remove(b_start);
                    q = q + 1;
                    proof {
                        assert(lines@ =~= pre_v.subrange(0, b_start as int) + pre_v.subrange(
                            b_start + q,
                            pre_v.len() as int,
                        ));
                    }
                }
                bv.remove(bi);
                bv.shift_starts_down(bi, width);
                proof {
                    let stepped = apply_remove(cur_ld, cur_bs, lname@);
                    assert forall|k: int|
                        0 <= k < lines.deep_view().len() implies #[trigger] lines.deep_view()[k]
                        == stepped.0[k] by {
                        assert(lines.deep_view()[k] == lines@[k]@);
                        crate::generator::lemma_splice_parts(
                            cur_ld,
                            b_start as int,
                            width as int,
                            Seq::<Seq<char>>::empty(),
                        );
                        if k < b_start {
                            assert(lines@[k] == pre_v[k]);
                            assert(cur_ld[k] == pre_v[k]@);
                        } else {
                            assert(lines@[k] == pre_v[k + width]);
                            assert(cur_ld[k + width] == pre_v[k + width]@);
                        }
                    }
                    assert(lines.deep_view() =~= stepped.0);
                    assert(bv@ =~= stepped.1);
                    assert(wf_index(lines.deep_view(), bv@));
                }
            },
        }
        t = t + 1;
        proof {
            assert(run_remove(ld0, bs0, nsv) == run_remove(
                lines.deep_view(),
                bv@,
                nsv.subrange(t as int, nsv.len() as int),
            ));
        }
    }
    proof {
        assert(nsv.subrange(t as int, nsv.len() as int).len() == 0);
        assert forall|bs: Seq<BlockModel>|
            wf_index(old(lines).deep_view(), bs) implies {
            let stepped = run_remove(old(lines).deep_view(), bs, names.deep_view());
            &&& final(lines).deep_view() == stepped.0
            &&& wf_index(stepped.0, stepped.1)
        } by {
            assert(bs == bs0);
        }
    }
    Ok(())
}



/// Merge the templates into the buffer, in the order given: a template
/// whose lower-cased stem names an existing block replaces that block's
/// content in place; otherwise a new block is appended at the end. The
/// block index is kept consistent by shifting later start offsets by the
/// length difference. Stops at the first faulty template, leaving the
/// templates before it applied; on a structural violation the buffer is
/// untouched.
#[verifier::rlimit(100)]
pub fn insert(lines: &mut Vec<String>, templates: &Vec<Template>) -> (r: Result<(), MergeError>)
    ensures
        forall|bs: Seq<BlockModel>|
            wf_index(old(lines).deep_view(), bs) ==> {
                let stepped = run_insert(old(lines).deep_view(), bs, templates_view(templates));
                &&& final(lines).deep_view() == stepped.0
                &&& wf_index(stepped.0, stepped.1)
                &&& (stepped.2 is None ==> r is Ok)
                &&& (stepped.2 matches Some(e) ==> r == Err::<(), MergeError>(e))
            },
        (forall|bs: Seq<BlockModel>| !wf_index(old(lines).deep_view(), bs)) ==> (r matches Err(e)
            && e is Structure && final(lines)@ == old(lines)@),
{
    let mut bv = match BlockVec::from(lines) {
        Ok(bv) => bv,
        Err(e) => {
            return Err(MergeError::Structure(e));
        },
    };
    let ghost ld0: Seq<Seq<char>> = lines.deep_view();
    let ghost bs0: Seq<BlockModel> = bv@;
    let ghost tsv: Seq<TemplateModel> = templates_view(templates);
    proof {
        assert(tsv.subrange(0, tsv.len() as int) =~= tsv);
    }
    let mut t: usize = 0;
    while t < templates.len()
        invariant
            0 <= t <= templates@.len(),
            tsv == templates_view(templates),
            tsv.len() == templates@.len(),
            ld0 == old(lines).deep_view(),
            wf_index(ld0, bs0),
            wf_index(lines.deep_view(), bv@),
            forall|bs: Seq<BlockModel>| wf_index(ld0, bs) ==> bs == bs0,
            run_insert(ld0, bs0, tsv) == run_insert(
                lines.deep_view(),
                bv@,
                tsv.subrange(t as int, tsv.len() as int),
            ),
        decreases templates@.len() - t,
    {
        let ghost cur_ld = lines.deep_view();
        let ghost cur_bs = bv@;
        let ghost sub_t = tsv.subrange(t as int, tsv.len() as int);
        let tpl = &templates[t];
        let lname = to_lower(tpl.stem.as_str());
        let ghost lname_v: Seq<char> = lname@;
        let ghost content_v: Seq<Seq<char>> = tpl.lines.deep_view();
        proof {
            assert(tsv[t as int] == templates@[t as int]@);
            assert(sub_t[0] == tsv[t as int]);
            assert(sub_t.subrange(1, sub_t.len() as int) =~= tsv.subrange(
                t as int + 1,
                tsv.len() as int,
            ));
            assert(lname_v == lower(tsv[t as int].stem));
            assert(content_v == tsv[t as int].content);
        }
        if lname.as_str().unicode_len() == 0 {
            proof {
                assert(template_fault(sub_t[0]) == Some(MergeError::EmptyName));
                assert(run_insert(cur_ld, cur_bs, sub_t) == (
                    cur_ld,
                    cur_bs,
                    Some(MergeError::EmptyName),
                ));
                assert forall|bs: Seq<BlockModel>| wf_index(ld0, bs) implies bs == bs0 by {}
            }
            return Err(MergeError::EmptyName);
        }
        if content_has_marker(&tpl.lines) {
            proof {
                assert(template_fault(sub_t[0]) == Some(MergeError::ContentMarker));
                assert(run_insert(cur_ld, cur_bs, sub_t) == (
                    cur_ld,
                    cur_bs,
                    Some(MergeError::ContentMarker),
                ));
            }
            return Err(MergeError::ContentMarker);
        }
        proof {
            assert(template_fault(sub_t[0]) is None);
            lemma_apply_insert_wf(cur_ld, cur_bs, lname_v, content_v);
        }
        let ghost stepped = apply_insert(cur_ld, cur_bs, lname_v, content_v);
        let new_len = tpl.lines.len();
        match bv.index_of(&lname) {
            Some(bi) => {
                proof {
                    lemma_find_block_agrees(cur_bs, lname_v, bi as int);
                }
                let b_start = bv.get(bi).start;
                let b_size = bv.get(bi).size;
                let cur_len = lines.len();
                proof {
                    assert(block_at(cur_ld, cur_bs[bi as int]));
                    assert(b_start + b_size + 1 < cur_len);
                    lemma_splice_parts(cur_ld, b_start + 1, b_size as int, content_v);
                }
                let at = b_start + 1;
                let ghost pre_v: Seq<String> = lines@;
                let mut q: usize = 0;
                while q < b_size
                    invariant
                        0 <= q <= b_size,
                        at + b_size < pre_v.len(),
                        lines@.len() == pre_v.len() - q,
                        lines@ == pre_v.subrange(0, at as int) + pre_v.subrange(
                            at + q,
                            pre_v.len() as int,
                        ),
                    decreases b_size - q,
                {
                    lines.remove(at);
                    q = q + 1;
                    proof {
                        assert(lines@ =~= pre_v.subrange(0, at as int) + pre_v.subrange(
                            at + q,
                            pre_v.len() as int,
                        ));
                    }
                }
                let ghost mid_v: Seq<String> = lines@;
                let mut q2: usize = 0;
                while q2 < new_len
                    invariant
                        0 <= q2 <= new_len,
                        new_len == tpl.lines@.len(),
                        at <= mid_v.len(),
                        lines@.len() == mid_v.len() + q2,
                        lines@ == mid_v.subrange(0, at as int) + tpl.lines@.subrange(
                            0,
                            q2 as int,
                        ) + mid_v.subrange(at as int, mid_v.len() as int),
                    decreases new_len - q2,
                {
                    let cl = lines.len();
                    proof {
                        assert(at + q2 <= cl);
                    }
                    lines.insert(at + q2, tpl.lines[q2].clone());
                    q2 = q2 + 1;
                    proof {
                        assert(lines@ =~= mid_v.subrange(0, at as int) + tpl.lines@.subrange(
                            0,
                            q2 as int,
                        ) + mid_v.subrange(at as int, mid_v.len() as int));
                    }
                }
                let now_len = lines.len();
                let bvlen = bv.len();
                bv.set_size(bi, new_len);
                if new_len > b_size {
                    proof {
                        assert forall|k: int|
                            bi + 1 <= k < bv@.len() implies bv@[k].start + (new_len - b_size)
                            <= usize::MAX by {
                            assert(bv@[k] == cur_bs[k]);
                            assert(stepped.1[k].start == cur_bs[k].start + (new_len - b_size));
                            assert(block_at(stepped.0, stepped.1[k]));
                            assert(stepped.1[k].start < stepped.0.len());
                            assert(stepped.0.len() == now_len);
                        }
                    }
                    bv.shift_starts_up(bi + 1, new_len - b_size);
                } else if b_size > new_len {
                    proof {
                        assert forall|k: int|
                            bi + 1 <= k < bv@.len() implies bv@[k].start >= b_size - new_len by {
                            assert(bv@[k] == cur_bs[k]);
                            assert(end_pos(cur_bs[bi as int]) < cur_bs[k].start);
                        }
                    }
                    bv.shift_starts_down(bi + 1, b_size - new_len);
                }
                proof {
                    assert forall|k: int|
                        0 <= k < lines.deep_view().len() implies #[trigger] lines.deep_view()[k]
                        == stepped.0[k] by {
                        assert(lines.deep_view()[k] == lines@[k]@);
                        if k < at {
                            assert(lines@[k] == pre_v[k]);
                            assert(cur_ld[k] == pre_v[k]@);
                        } else if k < at + new_len {
                            assert(lines@[k] == tpl.lines@[k - at]);
                            assert(content_v[k - at] == tpl.lines@[k - at]@);
                        } else {
                            assert(lines@[k] == mid_v[k - new_len]);
                            assert(mid_v[k - new_len] == pre_v[k - new_len + b_size]);
                            assert(cur_ld[k - new_len + b_size] == pre_v[k - new_len + b_size]@);
                        }
                    }
                    assert(lines.deep_view() =~= stepped.0);
                    assert forall|k: int| 0 <= k < bv@.len() implies #[trigger] bv@[k]
                        == stepped.1[k] by {}
                    assert(bv@ =~= stepped.1);
                }
            },
            None => {
                proof {
                    lemma_find_block_none(cur_bs, lname_v);
                    crate::markers::lemma_marker_prefix_nonempty();
                }
                let ghost pre_v2: Seq<String> = lines@;
                if lines.len() > 0 {
                    let last_empty = lines[lines.len() - 1].as_str().is_empty();
                    if !last_empty {
                        lines.push(String::new());
                    }
                }
                proof {
                    if sep_needed(cur_ld) {
                        assert(lines@ == pre_v2.push(lines@[pre_v2.len() as int]));
                    } else {
                        assert(lines@ == pre_v2);
                    }
                }
                let st = lines.len();
                let ghost base_v: Seq<String> = lines@;
                let sm = crate::markers::make_start_marker(lname.as_str());
                lines.push(sm);
                let ghost basep_v: Seq<String> = lines@;
                let mut q3: usize = 0;
                while q3 < new_len
                    invariant
                        0 <= q3 <= new_len,
                        new_len == tpl.lines@.len(),
                        lines@ == basep_v + tpl.lines@.subrange(0, q3 as int),
                    decreases new_len - q3,
                {
                    lines.push(tpl.lines[q3].clone());
                    q3 = q3 + 1;
                    proof {
                        assert(lines@ =~= basep_v + tpl.lines@.subrange(0, q3 as int));
                    }
                }
                let em = crate::markers::make_end_marker(lname.as_str());
                lines.push(em);
                lines.push(String::new());
                bv.push_block(Block { name: lname, start: st, size: new_len });
                proof {
                    assert(st == appended_start(cur_ld));
                    assert forall|k: int|
                        0 <= k < lines.deep_view().len() implies #[trigger] lines.deep_view()[k]
                        == stepped.0[k] by {
                        assert(lines.deep_view()[k] == lines@[k]@);
                        if k < cur_ld.len() {
                            assert(lines@[k] == pre_v2[k]);
                            assert(cur_ld[k] == pre_v2[k]@);
                        } else if k < st {
                            assert(lines@[k]@ =~= Seq::<char>::empty());
                        } else if k == st {
                        } else if k < st + 1 + new_len {
                            assert(lines@[k] == tpl.lines@[k - (st + 1)]);
                            assert(content_v[k - (st + 1)] == tpl.lines@[k - (st + 1)]@);
                        } else if k == st + 1 + new_len {
                        } else {
                            assert(lines@[k]@ =~= Seq::<char>::empty());
                        }
                    }
                    assert(lines.deep_view() =~= stepped.0);
                    assert(bv@ =~= stepped.1);
                }
            },
        }
        t = t + 1;
        proof {
            assert(run_insert(ld0, bs0, tsv) == run_insert(
                lines.deep_view(),
                bv@,
                tsv.subrange(t as int, tsv.len() as int),
            ));
        }
    }
    proof {
        assert(tsv.subrange(t as int, tsv.len() as int).len() == 0);
        assert forall|bs: Seq<BlockModel>|
            wf_index(old(lines).deep_view(), bs) implies {
            let stepped2 = run_insert(old(lines).deep_view(), bs, templates_view(templates));
            &&& final(lines).deep_view() == stepped2.0
            &&& wf_index(stepped2.0, stepped2.1)
            &&& stepped2.2 is None
        } by {
            assert(bs == bs0);
        }
    }
    Ok(())
}



/// Updating a block with the very content it already holds changes
/// nothing: neither the buffer nor the index.
proof fn lemma_update_identity(
    l2: Seq<Seq<char>>,
    bs2: Seq<BlockModel>,
    name: Seq<char>,
    content: Seq<Seq<char>>,
    i: int,
)
    requires
        wf_index(l2, bs2),
        find_block(bs2, name) == Some(i),
        0 <= i < bs2.len(),
        bs2[i].size == content.len(),
        forall|q: int| 0 <= q < content.len() ==> l2[bs2[i].start + 1 + q] == content[q],
    ensures
        apply_insert(l2, bs2, name, content) == (l2, bs2),
{
    let b = bs2[i];
    assert(block_at(l2, b));
    lemma_splice_parts(l2, b.start + 1, b.size, content);
    let r = apply_insert(l2, bs2, name, content);
    assert forall|k: int| 0 <= k < l2.len() implies #[trigger] r.0[k] == l2[k] by {
        if b.start + 1 <= k < b.start + 1 + content.len() {
            assert(r.0[k] == content[k - (b.start + 1)]);
        }
    }
    assert(r.0 =~= l2);
    assert forall|j: int| 0 <= j < bs2.len() implies #[trigger] r.1[j] == bs2[j] by {}
    assert(r.1 =~= bs2);
}

/// Inserting the same unchanged template twice yields the same buffer
/// after the second run as after the first: the second run finds the
/// block holding exactly the template's content and replaces it with
/// itself.
pub proof fn lemma_insert_idempotent(
    lines: Seq<Seq<char>>,
    bs: Seq<BlockModel>,
    tpl: TemplateModel,
)
    requires
        wf_index(lines, bs),
        template_fault(tpl) is None,
    ensures
        ({
            let first = run_insert(lines, bs, seq![tpl]);
            let second = run_insert(first.0, first.1, seq![tpl]);
            &&& first.2 is None
            &&& second.2 is None
            &&& second.0 == first.0
            &&& second.1 == first.1
        }),
{
    let name = lower(tpl.stem);
    let content = tpl.content;
    let stepped = apply_insert(lines, bs, name, content);
    assert(seq![tpl][0] == tpl);
    let sub = seq![tpl].subrange(1, 1);
    assert(sub.len() == 0);
    assert(run_insert(stepped.0, stepped.1, sub) == (stepped.0, stepped.1, None::<MergeError>));
    assert(run_insert(lines, bs, seq![tpl]) == run_insert(stepped.0, stepped.1, sub));
    assert(run_insert(lines, bs, seq![tpl]) == (stepped.0, stepped.1, None::<MergeError>));
    lemma_apply_insert_wf(lines, bs, name, content);
    lemma_find_block(bs, name);
    match find_block(bs, name) {
        Some(i) => {
            let b = bs[i];
            assert(block_at(lines, b));
            lemma_splice_parts(lines, b.start + 1, b.size, content);
            assert forall|k: int| 0 <= k < i implies (#[trigger] stepped.1[k]).name != name by {
                assert(stepped.1[k] == bs[k]);
            }
            lemma_find_block_agrees(stepped.1, name, i);
            assert(stepped.1[i].size == content.len());
            assert forall|q: int|
                0 <= q < content.len() implies stepped.0[stepped.1[i].start + 1 + q] == content[q] by {
            }
            lemma_update_identity(stepped.0, stepped.1, name, content, i);
        },
        None => {
            let st = appended_start(lines);
            let i = bs.len() as int;
            assert(stepped.1[i].name == name);
            assert forall|k: int| 0 <= k < i implies (#[trigger] stepped.1[k]).name != name by {
                assert(stepped.1[k] == bs[k]);
            }
            lemma_find_block_agrees(stepped.1, name, i);
            assert(stepped.1[i].size == content.len());
            assert forall|q: int|
                0 <= q < content.len() implies stepped.0[stepped.1[i].start + 1 + q] == content[q] by {
            }
            lemma_update_identity(stepped.0, stepped.1, name, content, i);
        },
    }
    assert(run_insert(stepped.0, stepped.1, seq![tpl]) == (
        stepped.0,
        stepped.1,
        None::<MergeError>,
    ));
}

/// Updating one block leaves every other block untouched: earlier blocks
/// keep their records and their lines; later blocks keep their names,
/// sizes, markers and content, at starts shifted by the length
/// difference.
pub proof fn lemma_update_preserves_others(
    lines: Seq<Seq<char>>,
    bs: Seq<BlockModel>,
    name: Seq<char>,
    content: Seq<Seq<char>>,
    i: int,
)
    requires
        wf_index(lines, bs),
        find_block(bs, name) == Some(i),
        0 <= i < bs.len(),
        content_ok(content),
    ensures
        ({
            let r = apply_insert(lines, bs, name, content);
            &&& r.1.len() == bs.len()
            &&& forall|m: int| 0 <= m < i ==> r.1[m] == bs[m]
            &&& forall|m: int| 0 <= m < bs.len() ==> (#[trigger] r.1[m]).name == bs[m].name
            &&& forall|m: int|
                0 <= m < bs.len() && m != i ==> (#[trigger] r.1[m]).size == bs[m].size
            &&& forall|m: int, p: int|
                0 <= m < bs.len() && m != i && bs[m].start <= p <= end_pos(bs[m]) ==> r.0[p
                    + (r.1[m].start - bs[m].start)] == lines[p]
        }),
{
    let b = bs[i];
    assert(block_at(lines, b));
    lemma_splice_parts(lines, b.start + 1, b.size, content);
    let r = apply_insert(lines, bs, name, content);
    let delta = content.len() - b.size;
    assert forall|m: int, p: int|
        0 <= m < bs.len() && m != i && bs[m].start <= p <= end_pos(bs[m]) implies r.0[p + (r.1[m].start
        - bs[m].start)] == lines[p] by {
        assert(block_at(lines, bs[m]));
        if m < i {
            assert(end_pos(bs[m]) < b.start);
            assert(r.1[m] == bs[m]);
            assert(r.0[p] == lines[p]);
        } else {
            assert(end_pos(b) < bs[m].start);
            assert(r.1[m].start == bs[m].start + delta);
            assert(r.0[p + delta] == lines[p]);
        }
    }
}

/// Removing a name with no matching block leaves the buffer and the
/// index untouched.
pub proof fn lemma_remove_absent(lines: Seq<Seq<char>>, bs: Seq<BlockModel>, name: Seq<char>)
    requires
        find_block(bs, lower(name)) is None,
    ensures
        run_remove(lines, bs, seq![name]) == (lines, bs),
{
    assert(seq![name][0] == name);
    let sub = seq![name].subrange(1, 1);
    assert(sub.len() == 0);
    assert(apply_remove(lines, bs, lower(name)) == (lines, bs));
    assert(run_remove(lines, bs, sub) == (lines, bs));
    assert(run_remove(lines, bs, seq![name]) == run_remove(lines, bs, sub));
}

/// Appending a brand-new block puts exactly one blank separator line
/// before the start marker when the buffer is non-empty and its last
/// line is not blank, and none otherwise; the block is followed by one
/// trailing blank line.
pub proof fn lemma_append_formatting(
    lines: Seq<Seq<char>>,
    bs: Seq<BlockModel>,
    name: Seq<char>,
    content: Seq<Seq<char>>,
)
    requires
        find_block(bs, name) is None,
    ensures
        sep_needed(lines) ==> apply_insert(lines, bs, name, content).0 =~= lines + seq![
            Seq::<char>::empty(),
        ] + seq![start_marker(name)] + content + seq![end_marker(name)] + seq![
            Seq::<char>::empty(),
        ],
        !sep_needed(lines) ==> apply_insert(lines, bs, name, content).0 =~= lines + seq![
            start_marker(name),
        ] + content + seq![end_marker(name)] + seq![Seq::<char>::empty()],
        lines.len() == 0 ==> apply_insert(lines, bs, name, content).0 =~= seq![
            start_marker(name),
        ] + content + seq![end_marker(name)] + seq![Seq::<char>::empty()],
{
    if sep_needed(lines) {
        assert(lines.push(Seq::<char>::empty()) =~= lines + seq![Seq::<char>::empty()]);
    }
}



/// The lines joined with a newline between each pair, the buffer's
/// on-disk form.
pub open spec fn join_lines(lines: Seq<Seq<char>>) -> Seq<char>
    decreases lines.len(),
{
    if lines.len() == 0 {
        Seq::<char>::empty()
    } else if lines.len() == 1 {
        lines[0]
    } else {
        lines[0] + seq!['\n'] + join_lines(lines.subrange(1, lines.len() as int))
    }
}

/// Joining after appending one line appends a newline and that line.
proof fn lemma_join_snoc(lines: Seq<Seq<char>>, x: Seq<char>)
    ensures
        lines.len() == 0 ==> join_lines(lines.push(x)) == x,
        lines.len() > 0 ==> join_lines(lines.push(x)) == join_lines(lines) + seq!['\n'] + x,
    decreases lines.len(),
{
    let p = lines.push(x);
    if lines.len() == 0 {
        assert(p.len() == 1);
        assert(p[0] == x);
    } else {
        let subl = lines.subrange(1, lines.len() as int);
        lemma_join_snoc(subl, x);
        assert(p.subrange(1, p.len() as int) =~= subl.push(x));
        assert(p[0] == lines[0]);
        if lines.len() == 1 {
            assert(subl.len() == 0);
            assert(join_lines(p) == lines[0] + seq!['\n'] + x);
            assert(join_lines(lines) == lines[0]);
        } else {
            assert(join_lines(p) == lines[0] + seq!['\n'] + (join_lines(subl) + seq!['\n'] + x));
            assert(join_lines(lines) == lines[0] + seq!['\n'] + join_lines(subl));
            assert(join_lines(p) =~= join_lines(lines) + seq!['\n'] + x);
        }
    }
}

/// Serialize the buffer: its lines joined with newlines, without a
/// trailing newline beyond the lines themselves.
pub fn serialize(lines: &Vec<String>) -> (r: String)
    ensures
        r@ == join_lines(lines.deep_view()),
{
    let ghost ld: Seq<Seq<char>> = lines.deep_view();
    let mut r = String::new();
    let mut i: usize = 0;
    while i < lines.len()
        invariant
            ld == lines.deep_view(),
            0 <= i <= lines@.len(),
            r@ == join_lines(ld.subrange(0, i as int)),
        decreases lines@.len() - i,
    {
        if i > 0 {
            r.append("\n");
        }
        r.append(lines[i].as_str());
        proof {
            reveal_strlit("\n");
            assert("\n"@ =~= seq!['\n']);
            assert(ld[i as int] == lines@[i as int]@);
            lemma_join_snoc(ld.subrange(0, i as int), ld[i as int]);
            assert(ld.subrange(0, i as int + 1) =~= ld.subrange(0, i as int).push(ld[i as int]));
        }
        i = i + 1;
    }
    proof {
        assert(ld.subrange(0, i as int) =~= ld);
    }
    r
}



/// Lower-casing is idempotent: a block name, which is a lower-cased
/// stem, is matched unchanged by a template whose stem differs only in
/// case.
pub proof fn lemma_lower_idempotent(s: Seq<char>)
    ensures
        lower(lower(s)) == lower(s),
{
    assert forall|j: int| 0 <= j < lower(s).len() implies lower(lower(s))[j] == lower(s)[j] by {
        assert(lower(s)[j] == lower_char(s[j]));
        assert(lower(lower(s))[j] == lower_char(lower_char(s[j])));
    }
    assert(lower(lower(s)) =~= lower(s));
}



/// One insert step establishes its own block: afterwards the block
/// named `name` holds exactly `content`.
proof fn lemma_apply_insert_establishes(
    lines: Seq<Seq<char>>,
    bs: Seq<BlockModel>,
    name: Seq<char>,
    content: Seq<Seq<char>>,
)
    requires
        wf_index(lines, bs),
        name.len() > 0,
        content_ok(content),
    ensures
        ({
            let r = apply_insert(lines, bs, name, content);
            let i = match find_block(bs, name) {
                Some(i) => i,
                None => bs.len() as int,
            };
            &&& find_block(r.1, name) == Some(i)
            &&& 0 <= i < r.1.len()
            &&& r.1[i].size == content.len()
            &&& forall|q: int|
                0 <= q < content.len() ==> r.0[r.1[i].start + 1 + q] == #[trigger] content[q]
        }),
{
    lemma_find_block(bs, name);
    let r = apply_insert(lines, bs, name, content);
    match find_block(bs, name) {
        Some(i) => {
            let b = bs[i];
            assert(block_at(lines, b));
            lemma_splice_parts(lines, b.start + 1, b.size, content);
            assert forall|k: int| 0 <= k < i implies (#[trigger] r.1[k]).name != name by {
                assert(r.1[k] == bs[k]);
            }
            lemma_find_block_agrees(r.1, name, i);
        },
        None => {
            let i = bs.len() as int;
            assert(r.1[i].name == name);
            assert forall|k: int| 0 <= k < i implies (#[trigger] r.1[k]).name != name by {
                assert(r.1[k] == bs[k]);
            }
            lemma_find_block_agrees(r.1, name, i);
        },
    }
}

/// One insert step for another name leaves the block named `n0`
/// untouched: same index, same name and size, same marker and content
/// lines.
proof fn lemma_apply_insert_preserves_block(
    lines: Seq<Seq<char>>,
    bs: Seq<BlockModel>,
    name: Seq<char>,
    content: Seq<Seq<char>>,
    n0: Seq<char>,
    j: int,
)
    requires
        wf_index(lines, bs),
        name.len() > 0,
        content_ok(content),
        name != n0,
        find_block(bs, n0) == Some(j),
        0 <= j < bs.len(),
    ensures
        ({
            let r = apply_insert(lines, bs, name, content);
            &&& r.1.len() >= bs.len()
            &&& find_block(r.1, n0) == Some(j)
            &&& r.1[j].name == bs[j].name
            &&& r.1[j].size == bs[j].size
            &&& forall|p: int|
                0 <= p <= bs[j].size + 1 ==> r.0[r.1[j].start + p] == lines[#[trigger] (bs[j].start
                    + p)]
        }),
{
    lemma_find_block(bs, name);
    lemma_find_block(bs, n0);
    let r = apply_insert(lines, bs, name, content);
    assert(bs[j].name == n0);
    match find_block(bs, name) {
        Some(i) => {
            assert(bs[i].name == name);
            assert(i != j);
            lemma_update_preserves_others(lines, bs, name, content, i);
            assert forall|p: int|
                0 <= p <= bs[j].size + 1 implies r.0[r.1[j].start + p] == lines[#[trigger] (
            bs[j].start + p)] by {
                assert(block_at(lines, bs[j]));
                assert(bs[j].start <= bs[j].start + p <= end_pos(bs[j]));
                assert(r.0[(bs[j].start + p) + (r.1[j].start - bs[j].start)] == lines[bs[j].start
                    + p]);
            }
            assert forall|k: int| 0 <= k < j implies (#[trigger] r.1[k]).name != n0 by {
                assert(r.1[k].name == bs[k].name);
            }
            lemma_find_block_agrees(r.1, n0, j);
        },
        None => {
            assert(r.1[j] == bs[j]);
            assert(block_at(lines, bs[j]));
            assert forall|p: int|
                0 <= p <= bs[j].size + 1 implies r.0[r.1[j].start + p] == lines[#[trigger] (
            bs[j].start + p)] by {
                assert(bs[j].start + p <= end_pos(bs[j]) < lines.len());
                assert(r.0[bs[j].start + p] == lines[bs[j].start + p]);
            }
            assert forall|k: int| 0 <= k < j implies (#[trigger] r.1[k]).name != n0 by {
                assert(r.1[k] == bs[k]);
            }
            lemma_find_block_agrees(r.1, n0, j);
        },
    }
}

/// Running templates none of which carries the name `n0` leaves the
/// block named `n0` untouched.
proof fn lemma_run_insert_preserves_block(
    lines: Seq<Seq<char>>,
    bs: Seq<BlockModel>,
    ts: Seq<TemplateModel>,
    n0: Seq<char>,
    j: int,
)
    requires
        wf_index(lines, bs),
        forall|i: int| 0 <= i < ts.len() ==> template_fault(#[trigger] ts[i]) is None,
        forall|i: int| 0 <= i < ts.len() ==> lower((#[trigger] ts[i]).stem) != n0,
        find_block(bs, n0) == Some(j),
        0 <= j < bs.len(),
    ensures
        ({
            let r = run_insert(lines, bs, ts);
            &&& r.2 is None
            &&& wf_index(r.0, r.1)
            &&& j < r.1.len()
            &&& find_block(r.1, n0) == Some(j)
            &&& r.1[j].name == bs[j].name
            &&& r.1[j].size == bs[j].size
            &&& forall|p: int|
                0 <= p <= bs[j].size + 1 ==> r.0[r.1[j].start + p] == lines[#[trigger] (bs[j].start
                    + p)]
        }),
    decreases ts.len(),
{
    if ts.len() == 0 {
        assert(run_insert(lines, bs, ts) == (lines, bs, None::<MergeError>));
    } else {
        let t0 = ts[0];
        let n = lower(t0.stem);
        let c = t0.content;
        assert(template_fault(t0) is None);
        let s1 = apply_insert(lines, bs, n, c);
        lemma_apply_insert_wf(lines, bs, n, c);
        lemma_apply_insert_preserves_block(lines, bs, n, c, n0, j);
        let rest = ts.subrange(1, ts.len() as int);
        assert forall|i: int|
            0 <= i < rest.len() implies template_fault(#[trigger] rest[i]) is None && lower(
            rest[i].stem) != n0 by {
            assert(rest[i] == ts[i + 1]);
        }
        lemma_run_insert_preserves_block(s1.0, s1.1, rest, n0, j);
        let r = run_insert(s1.0, s1.1, rest);
        assert(run_insert(lines, bs, ts) == r);
        assert forall|p: int|
            0 <= p <= bs[j].size + 1 implies r.0[r.1[j].start + p] == lines[#[trigger] (bs[j].start
            + p)] by {
            assert(s1.1[j].size == bs[j].size);
            assert(r.0[r.1[j].start + p] == s1.0[s1.1[j].start + p]);
            assert(s1.0[s1.1[j].start + p] == lines[bs[j].start + p]);
        }
    }
}

/// Re-running insert with templates whose content has not changed is a
/// no-op: with each template naming its own block, the second run finds
/// every block holding exactly its template's content and leaves the
/// buffer byte-identical.
pub proof fn lemma_insert_list_idempotent(
    lines: Seq<Seq<char>>,
    bs: Seq<BlockModel>,
    ts: Seq<TemplateModel>,
)
    requires
        wf_index(lines, bs),
        forall|i: int| 0 <= i < ts.len() ==> template_fault(#[trigger] ts[i]) is None,
        forall|i: int, k: int|
            0 <= i < k < ts.len() ==> lower((#[trigger] ts[i]).stem) != lower(
                (#[trigger] ts[k]).stem,
            ),
    ensures
        ({
            let first = run_insert(lines, bs, ts);
            let second = run_insert(first.0, first.1, ts);
            &&& first.2 is None
            &&& second == (first.0, first.1, None::<MergeError>)
        }),
    decreases ts.len(),
{
    if ts.len() == 0 {
        assert(run_insert(lines, bs, ts) == (lines, bs, None::<MergeError>));
    } else {
        let t0 = ts[0];
        let n0 = lower(t0.stem);
        let c0 = t0.content;
        assert(template_fault(t0) is None);
        let s1 = apply_insert(lines, bs, n0, c0);
        lemma_apply_insert_wf(lines, bs, n0, c0);
        lemma_apply_insert_establishes(lines, bs, n0, c0);
        let j = match find_block(bs, n0) {
            Some(i) => i,
            None => bs.len() as int,
        };
        let rest = ts.subrange(1, ts.len() as int);
        assert forall|i: int, k: int|
            0 <= i < k < rest.len() implies lower((#[trigger] rest[i]).stem) != lower(
            (#[trigger] rest[k]).stem) by {
            assert(rest[i] == ts[i + 1]);
            assert(rest[k] == ts[k + 1]);
        }
        assert forall|i: int|
            0 <= i < rest.len() implies template_fault(#[trigger] rest[i]) is None && lower(
            rest[i].stem) != n0 by {
            assert(rest[i] == ts[i + 1]);
        }
        lemma_insert_list_idempotent(s1.0, s1.1, rest);
        lemma_run_insert_preserves_block(s1.0, s1.1, rest, n0, j);
        let fr = run_insert(s1.0, s1.1, rest);
        assert(run_insert(lines, bs, ts) == fr);
        let lf = fr.0;
        let bf = fr.1;
        // The second run's first step finds block `n0` holding exactly
        // `c0` and replaces it with itself.
        assert(bf[j].size == c0.len());
        assert forall|q: int|
            0 <= q < c0.len() implies lf[bf[j].start + 1 + q] == #[trigger] c0[q] by {
            assert(s1.1[j].size == s1.1[j].size);
            assert(lf[bf[j].start + (1 + q)] == s1.0[s1.1[j].start + (1 + q)]);
            assert(s1.0[s1.1[j].start + 1 + q] == c0[q]);
        }
        lemma_update_identity(lf, bf, n0, c0, j);
        assert(apply_insert(lf, bf, n0, c0) == (lf, bf));
        assert(run_insert(lf, bf, ts) == run_insert(lf, bf, rest));
        assert(run_insert(lf, bf, rest) == (lf, bf, None::<MergeError>));
    }
}


} // verus!

//! The block index: an ordered collection of the named blocks found in a
//! line buffer, together with the well-formedness predicate `wf_index` that
//! ties the index to the buffer.
//!
//! A block named `n` occupies a contiguous region of the buffer: the
//! start-marker line at `start`, `size` content lines, and the end-marker
//! line at `start + size + 1`. A well-formed index lists every block of the
//! buffer in physical order, with unique non-empty names, and accounts for
//! every line that carries the marker prefix.

use vstd::prelude::*;

verus! {

use vstd::string::StrSliceExecFns;
use crate::markers::{
    start_marker, end_marker, is_marker_line, LineClass, classify_line, str_eq,
    lemma_marker_is_marker_line, lemma_markers_injective, lemma_start_ne_end,
};

/// The mathematical image of one block: its name, the index of its
/// start-marker line, and the count of its content lines.
pub struct BlockModel {
    pub name: Seq<char>,
    pub start: int,
    pub size: int,
}

/// The index of the end-marker line of `b`.
pub open spec fn end_pos(b: BlockModel) -> int {
    b.start + b.size + 1
}

/// `b` names a genuine block of `lines`: its markers stand at its recorded
/// positions, its name is non-empty, and no content line carries the
/// marker prefix.
pub open spec fn block_at(lines: Seq<Seq<char>>, b: BlockModel) -> bool {
    &&& 0 <= b.start
    &&& 0 <= b.size
    &&& end_pos(b) < lines.len()
    &&& lines[b.start] == start_marker(b.name)
    &&& lines[end_pos(b)] == end_marker(b.name)
    &&& b.name.len() > 0
    &&& forall|j: int| b.start < j < end_pos(b) ==> !is_marker_line(#[trigger] lines[j])
}

/// Every listed block is a genuine block of `lines`.
pub open spec fn blocks_at(lines: Seq<Seq<char>>, bs: Seq<BlockModel>) -> bool {
    forall|i: int| 0 <= i < bs.len() ==> block_at(lines, #[trigger] bs[i])
}

/// The listed blocks stand in physical order and do not overlap.
pub open spec fn blocks_ordered(bs: Seq<BlockModel>) -> bool {
    forall|i: int, j: int|
        0 <= i < j < bs.len() ==> end_pos(#[trigger] bs[i]) < (#[trigger] bs[j]).start
}

/// Line `j` is the start- or end-marker line of some listed block.
pub open spec fn covered(bs: Seq<BlockModel>, j: int) -> bool {
    exists|i: int| 0 <= i < bs.len() && ((#[trigger] bs[i]).start == j || end_pos(bs[i]) == j)
}

/// Every line of the buffer that carries the marker prefix is the start or
/// end marker of some listed block.
pub open spec fn covers_markers(lines: Seq<Seq<char>>, bs: Seq<BlockModel>) -> bool {
    forall|j: int| 0 <= j < lines.len() && is_marker_line(#[trigger] lines[j]) ==> covered(bs, j)
}

/// No two listed blocks share a name.
pub open spec fn names_unique(bs: Seq<BlockModel>) -> bool {
    forall|i: int, j: int|
        0 <= i < j < bs.len() ==> (#[trigger] bs[i]).name != (#[trigger] bs[j]).name
}

/// `bs` is the well-formed block index of `lines`.
pub open spec fn wf_index(lines: Seq<Seq<char>>, bs: Seq<BlockModel>) -> bool {
    &&& blocks_at(lines, bs)
    &&& blocks_ordered(bs)
    &&& covers_markers(lines, bs)
    &&& names_unique(bs)
}

/// The models of a sequence of block records.
spec fn models_of(v: Seq<Block>) -> Seq<BlockModel> {
    Seq::new(v.len(), |i: int| v[i]@)
}

/// One block record of the index.
pub struct Block {
    pub name: String,
    pub start: usize,
    pub size: usize,
}

impl View for Block {
    type V = BlockModel;

    open spec fn view(&self) -> BlockModel {
        BlockModel { name: self.name@, start: self.start as int, size: self.size as int }
    }
}

/// A structural-consistency violation found while scanning a buffer: the
/// buffer was not produced by this engine, or was edited by hand.
#[derive(Clone, Copy, Debug, PartialEq, Eq, Structural)]
pub enum StructureError {
    /// A start marker opened while another block was still open.
    NestedStart,
    /// An end marker closed with no block open.
    StrayEnd,
    /// An end marker's name differs from the open block's name.
    NameMismatch,
    /// A start marker carries an empty name.
    EmptyName,
    /// A start marker repeats the name of an earlier block.
    DuplicateName,
    /// A line carries the marker prefix but is neither kind of marker.
    ForeignMarker,
    /// The buffer ended while a block was still open.
    UnclosedBlock,
}

/// The ordered block index of one buffer.
pub struct BlockVec {
    vec: Vec<Block>,
}

impl View for BlockVec {
    type V = Seq<BlockModel>;

    closed spec fn view(&self) -> Seq<BlockModel> {
        models_of(self.vec@)
    }
}

impl BlockVec {
    /// The block at position `index` of the index.
    pub fn get(&self, index: usize) -> (r: &Block)
        requires
            index < self@.len(),
        ensures
            r@ == self@[index as int],
    {
        &self.vec[index]
    }

    /// Remove and return the block at position `index`; later blocks move
    /// one position forward.
    pub fn remove(&mut self, index: usize) -> (r: Block)
        requires
            index < old(self)@.len(),
        ensures
            r@ == old(self)@[index as int],
            final(self)@ =~= old(self)@.remove(index as int),
    {
        let b = self.vec.remove(index);
        b
    }

    /// The number of blocks in the index.
    pub fn len(&self) -> (r: usize)
        ensures
            r == self@.len(),
    {
        self.vec.len()
    }

    /// The position of the block named `name`, if the index holds one.
    pub fn index_of(&self, name: &String) -> (r: Option<usize>)
        ensures
            match r {
                Some(j) => {
                    &&& j < self@.len()
                    &&& self@[j as int].name == name@
                    &&& forall|k: int| 0 <= k < j ==> self@[k].name != name@
                },
                None => forall|k: int| 0 <= k < self@.len() ==> self@[k].name != name@,
            },
    {
        let mut index: usize = 0;
        while index < self.vec.len()
            invariant
                0 <= index <= self@.len(),
                self@.len() == self.vec@.len(),
                forall|k: int| 0 <= k < index ==> self@[k].name != name@,
            decreases self@.len() - index,
        {
            if str_eq(self.vec[index].name.as_str(), name.as_str()) {
                return Some(index);
            }
            index = index + 1;
        }
        None
    }

    /// Append a block at the end of the index.
    pub fn push_block(&mut self, b: Block)
        ensures
            final(self)@ =~= old(self)@.push(b@),
    {
        proof {
            assert(models_of(self.vec@.push(b)) =~= models_of(self.vec@).push(b@));
        }
        self.vec.push(b);
    }

    /// Record a new content-line count for the block at position `index`.
    pub fn set_size(&mut self, index: usize, size: usize)
        requires
            index < old(self)@.len(),
        ensures
            final(self)@.len() == old(self)@.len(),
            forall|k: int|
                0 <= k < final(self)@.len() && k != index ==> final(self)@[k] == old(self)@[k],
            final(self)@[index as int].name == old(self)@[index as int].name,
            final(self)@[index as int].start == old(self)@[index as int].start,
            final(self)@[index as int].size == size,
    {
        self.vec[index].size = size;
        proof {
            assert forall|k: int|
                0 <= k < final(self)@.len() && k != index implies final(self)@[k] == old(
                self,
            )@[k] by {
                assert(final(self)@[k] == self.vec@[k]@);
                assert(old(self)@[k] == old(self).vec@[k]@);
            }
            assert(final(self)@[index as int] == self.vec@[index as int]@);
            assert(old(self)@[index as int] == old(self).vec@[index as int]@);
        }
    }

    /// Shift the `start` of every block at position `from` or later
    /// forward by `by` lines.
    pub fn shift_starts_up(&mut self, from: usize, by: usize)
        requires
            forall|k: int|
                from <= k < old(self)@.len() ==> old(self)@[k].start + by <= usize::MAX,
        ensures
            final(self)@.len() == old(self)@.len(),
            forall|k: int|
                0 <= k < from && k < final(self)@.len() ==> final(self)@[k] == old(self)@[k],
            forall|k: int|
                from <= k < final(self)@.len() ==> {
                    &&& (#[trigger] final(self)@[k]).name == old(self)@[k].name
                    &&& final(self)@[k].size == old(self)@[k].size
                    &&& final(self)@[k].start == old(self)@[k].start + by
                },
    {
        let ghost orig: Seq<Block> = self.vec@;
        proof {
            assert forall|k: int| 0 <= k < orig.len() implies orig[k]@.start + by
                <= usize::MAX || k < from by {
                assert(old(self)@[k] == orig[k]@);
            }
        }
        let mut i: usize = from;
        while i < self.vec.len()
            invariant
                from <= i <= self.vec@.len() || (from > self.vec@.len() && i == from),
                self.vec@.len() == orig.len(),
                forall|k: int| i <= k < orig.len() ==> orig[k]@.start + by <= usize::MAX,
                forall|k: int|
                    (0 <= k < from || i <= k) && k < orig.len() ==> #[trigger] self.vec@[k]
                        == orig[k],
                forall|k: int|
                    from <= k < i && k < orig.len() ==> {
                        &&& (#[trigger] self.vec@[k])@.name == orig[k]@.name
                        &&& self.vec@[k]@.size == orig[k]@.size
                        &&& self.vec@[k]@.start == orig[k]@.start + by
                    },
            decreases self.vec@.len() - i,
        {
            let new_start = self.vec[i].start + by;
            self.vec[i].start = new_start;
            i = i + 1;
        }
        proof {
            assert(old(self)@ =~= Seq::new(orig.len(), |k: int| orig[k]@));
            assert forall|k: int| from <= k < final(self)@.len() implies {
                &&& (#[trigger] final(self)@[k]).name == old(self)@[k].name
                &&& final(self)@[k].size == old(self)@[k].size
                &&& final(self)@[k].start == old(self)@[k].start + by
            } by {
                assert(final(self)@[k] == self.vec@[k]@);
            }
            assert forall|k: int|
                0 <= k < from && k < final(self)@.len() implies #[trigger] final(self)@[k]
                == old(self)@[k] by {
                assert(final(self)@[k] == self.vec@[k]@);
            }
        }
    }

    /// Shift the `start` of every block at position `from` or later
    /// backward    /// Shift the `start` of every block at position `from` or later
    /// backward by `by` lines.
    pub fn shift_starts_down(&mut self, from: usize, by: usize)
        requires
            forall|k: int| from <= k < old(self)@.len() ==> old(self)@[k].start >= by,
        ensures
            final(self)@.len() == old(self)@.len(),
            forall|k: int|
                0 <= k < from && k < final(self)@.len() ==> final(self)@[k] == old(self)@[k],
            forall|k: int|
                from <= k < final(self)@.len() ==> {
                    &&& (#[trigger] final(self)@[k]).name == old(self)@[k].name
                    &&& final(self)@[k].size == old(self)@[k].size
                    &&& final(self)@[k].start == old(self)@[k].start - by
                },
    {
        let ghost orig: Seq<Block> = self.vec@;
        proof {
            assert forall|k: int| 0 <= k < orig.len() implies orig[k]@.start >= by
                || k < from by {
                assert(old(self)@[k] == orig[k]@);
            }
        }
        let mut i: usize = from;
        while i < self.vec.len()
            invariant
                from <= i <= self.vec@.len() || (from > self.vec@.len() && i == from),
                self.vec@.len() == orig.len(),
                forall|k: int| i <= k < orig.len() ==> orig[k]@.start >= by,
                forall|k: int|
                    (0 <= k < from || i <= k) && k < orig.len() ==> #[trigger] self.vec@[k]
                        == orig[k],
                forall|k: int|
                    from <= k < i && k < orig.len() ==> {
                        &&& (#[trigger] self.vec@[k])@.name == orig[k]@.name
                        &&& self.vec@[k]@.size == orig[k]@.size
                        &&& self.vec@[k]@.start == orig[k]@.start - by
                    },
            decreases self.vec@.len() - i,
        {
            let new_start = self.vec[i].start - by;
            self.vec[i].start = new_start;
            i = i + 1;
        }
        proof {
            assert(old(self)@ =~= Seq::new(orig.len(), |k: int| orig[k]@));
            assert forall|k: int| from <= k < final(self)@.len() implies {
                &&& (#[trigger] final(self)@[k]).name == old(self)@[k].name
                &&& final(self)@[k].size == old(self)@[k].size
                &&& final(self)@[k].start == old(self)@[k].start - by
            } by {
                assert(final(self)@[k] == self.vec@[k]@);
            }
            assert forall|k: int|
                0 <= k < from && k < final(self)@.len() implies #[trigger] final(self)@[k]
                == old(self)@[k] by {
                assert(final(self)@[k] == self.vec@[k]@);
            }
        }
    }
}


/// While scanning with no block open: the scanned blocks `acc` are an
/// initial segment of any well-formed index `bs`, and the next block of
/// `bs`, if any, starts at or after the scan position `i`.
spec fn agree_closed(bs: Seq<BlockModel>, acc: Seq<BlockModel>, i: int) -> bool {
    &&& acc.len() <= bs.len()
    &&& acc == bs.subrange(0, acc.len() as int)
    &&& (acc.len() < bs.len() ==> bs[acc.len() as int].start >= i)
}

/// While scanning with a block open: the scanned blocks `acc` are an
/// initial segment of any well-formed index `bs`, and the next block of
/// `bs` is the open one, its end not yet reached.
spec fn agree_open(bs: Seq<BlockModel>, acc: Seq<BlockModel>, i: int, name: Seq<char>, st: int) -> bool {
    &&& acc.len() < bs.len()
    &&& acc == bs.subrange(0, acc.len() as int)
    &&& bs[acc.len() as int].start == st
    &&& bs[acc.len() as int].name == name
    &&& end_pos(bs[acc.len() as int]) >= i
}

/// In a well-formed index whose first `k` blocks all end before `i`, and
/// whose block `k` (if any) starts at or after `i`, a marker line at `i`
/// can only be the start marker of block `k`.
proof fn lemma_next_marker_is_start(lines: Seq<Seq<char>>, bs: Seq<BlockModel>, k: int, i: int)
    requires
        wf_index(lines, bs),
        0 <= k <= bs.len(),
        forall|m: int| 0 <= m < k ==> end_pos(#[trigger] bs[m]) < i,
        k < bs.len() ==> bs[k].start >= i,
        0 <= i < lines.len(),
        is_marker_line(lines[i]),
    ensures
        k < bs.len() && bs[k].start == i,
{
    assert(covered(bs, i));
    let m = choose|m: int| 0 <= m < bs.len() && ((#[trigger] bs[m]).start == i || end_pos(bs[m]) == i);
    if m < k {
        assert(end_pos(bs[m]) < i);
        assert(bs[m].start < end_pos(bs[m]));
    } else {
        if m > k {
            assert(end_pos(bs[k]) < bs[m].start);
            assert(bs[k].start >= i);
            assert(bs[m].start > i);
            assert(end_pos(bs[m]) > i);
        } else {
            if end_pos(bs[k]) == i {
                assert(bs[k].start < i);
            }
        }
    }
}

/// In a well-formed index, while block `k` is open at scan position `i`
/// (its start behind, its end not yet reached), a marker line at `i` is
/// its end marker.
proof fn lemma_open_marker_is_end(lines: Seq<Seq<char>>, bs: Seq<BlockModel>, k: int, i: int)
    requires
        wf_index(lines, bs),
        0 <= k < bs.len(),
        bs[k].start < i <= end_pos(bs[k]),
        i < lines.len(),
        is_marker_line(lines[i]),
    ensures
        end_pos(bs[k]) == i,
{
    if end_pos(bs[k]) > i {
        assert(block_at(lines, bs[k]));
        assert(!is_marker_line(lines[i]));
    }
}

/// Whether some block of `v` carries the name `n`.
fn contains_block_name(v: &Vec<Block>, n: &str) -> (r: bool)
    ensures
        r == exists|m: int| 0 <= m < v@.len() && (#[trigger] v@[m])@.name == n@,
{
    let mut i: usize = 0;
    while i < v.len()
        invariant
            0 <= i <= v@.len(),
            forall|m: int| 0 <= m < i ==> (#[trigger] v@[m])@.name != n@,
        decreases v@.len() - i,
    {
        if str_eq(v[i].name.as_str(), n) {
            return true;
        }
        i = i + 1;
    }
    false
}

impl BlockVec {
    /// Scan a line buffer left to right and build its block index.
    ///
    /// Returns the one well-formed index of the buffer, or a
    /// `StructureError` when the buffer has none: then the buffer was not
    /// produced by this engine, or was edited by hand, and no operation
    /// may touch it.
    pub fn from(lines: &Vec<String>) -> (r: Result<BlockVec, StructureError>)
        ensures
            r matches Ok(bv) ==> wf_index(lines.deep_view(), bv@),
            forall|bs: Seq<BlockModel>|
                wf_index(lines.deep_view(), bs) ==> (r matches Ok(bv) && bv@ == bs),
            r is Err ==> forall|bs: Seq<BlockModel>| !wf_index(lines.deep_view(), bs),
    {
        let ghost ld: Seq<Seq<char>> = lines.deep_view();
        let mut vec: Vec<Block> = Vec::new();
        let mut pending: Option<String> = None;
        let mut pstart: usize = 0;
        let mut idx: usize = 0;
        proof {
            assert(models_of(vec@) =~= Seq::<BlockModel>::empty());
            assert forall|bs: Seq<BlockModel>|
                wf_index(ld, bs) implies agree_closed(bs, models_of(vec@), 0) by {
                assert(models_of(vec@) =~= bs.subrange(0, 0));
                if bs.len() > 0 {
                    assert(block_at(ld, bs[0]));
                }
            }
        }
        while idx < lines.len()
            invariant
                ld == lines.deep_view(),
                ld.len() == lines@.len(),
                0 <= idx <= lines@.len(),
                blocks_at(ld, models_of(vec@)),
                blocks_ordered(models_of(vec@)),
                names_unique(models_of(vec@)),
                match pending {
                    None => {
                        &&& forall|m: int|
                            0 <= m < models_of(vec@).len() ==> end_pos(
                                #[trigger] models_of(vec@)[m],
                            ) < idx
                        &&& forall|j: int|
                            0 <= j < idx && is_marker_line(#[trigger] ld[j]) ==> covered(
                                models_of(vec@),
                                j,
                            )
                        &&& forall|bs: Seq<BlockModel>|
                            wf_index(ld, bs) ==> agree_closed(bs, models_of(vec@), idx as int)
                    },
                    Some(pn) => {
                        &&& pstart < idx
                        &&& ld[pstart as int] == start_marker(pn@)
                        &&& pn@.len() > 0
                        &&& forall|j: int|
                            pstart < j < idx ==> !is_marker_line(#[trigger] ld[j])
                        &&& forall|m: int|
                            0 <= m < models_of(vec@).len() ==> end_pos(
                                #[trigger] models_of(vec@)[m],
                            ) < pstart
                        &&& forall|m: int|
                            0 <= m < models_of(vec@).len() ==> (#[trigger] models_of(
                                vec@,
                            )[m]).name != pn@
                        &&& forall|j: int|
                            0 <= j < idx && is_marker_line(#[trigger] ld[j]) ==> covered(
                                models_of(vec@),
                                j,
                            ) || j == pstart
                        &&& forall|bs: Seq<BlockModel>|
                            wf_index(ld, bs) ==> agree_open(
                                bs,
                                models_of(vec@),
                                idx as int,
                                pn@,
                                pstart as int,
                            )
                    },
                },
            decreases lines@.len() - idx,
        {
            let ghost i = idx as int;
            let ghost ms = models_of(vec@);
            proof {
                assert(ld[i] == lines@[i]@);
            }
            match classify_line(lines[idx].as_str()) {
                LineClass::Plain => {
                    proof {
                        match &pending {
                            None => {
                                assert forall|bs: Seq<BlockModel>|
                                    wf_index(ld, bs) implies agree_closed(bs, ms, i + 1) by {
                                    let k = ms.len() as int;
                                    if k < bs.len() && bs[k].start == i {
                                        assert(block_at(ld, bs[k]));
                                        lemma_marker_is_marker_line();
                                    }
                                }
                            },
                            Some(pn) => {
                                assert forall|bs: Seq<BlockModel>|
                                    wf_index(ld, bs) implies agree_open(
                                    bs,
                                    ms,
                                    i + 1,
                                    pn@,
                                    pstart as int,
                                ) by {
                                    let k = ms.len() as int;
                                    if end_pos(bs[k]) == i {
                                        assert(block_at(ld, bs[k]));
                                        lemma_marker_is_marker_line();
                                    }
                                }
                            },
                        }
                    }
                },
                LineClass::Start(n) => {
                    if pending.is_some() {
                        proof {
                            let pn = pending->0;
                            lemma_marker_is_marker_line();
                            assert forall|bs: Seq<BlockModel>| !wf_index(ld, bs) by {
                                if wf_index(ld, bs) {
                                    let k = ms.len() as int;
                                    assert(agree_open(bs, ms, i, pn@, pstart as int));
                                    lemma_open_marker_is_end(ld, bs, k, i);
                                    assert(ld[i] == end_marker(bs[k].name));
                                    lemma_start_ne_end();
                                }
                            }
                        }
                        return Err(StructureError::NestedStart);
                    }
                    if n.as_str().unicode_len() == 0 {
                        proof {
                            lemma_marker_is_marker_line();
                            lemma_markers_injective();
                            lemma_start_ne_end();
                            assert forall|bs: Seq<BlockModel>| !wf_index(ld, bs) by {
                                if wf_index(ld, bs) {
                                    let k = ms.len() as int;
                                    assert(agree_closed(bs, ms, i));
                                    assert forall|m: int| 0 <= m < k implies end_pos(#[trigger] bs[m]) < i by {
                                        assert(bs[m] == ms[m]);
                                    }
                                    lemma_next_marker_is_start(ld, bs, k, i);
                                    assert(block_at(ld, bs[k]));
                                    assert(ld[i] == start_marker(bs[k].name));
                                    assert(bs[k].name == n@);
                                }
                            }
                        }
                        return Err(StructureError::EmptyName);
                    }
                    if contains_block_name(&vec, n.as_str()) {
                        proof {
                            lemma_marker_is_marker_line();
                            lemma_markers_injective();
                            lemma_start_ne_end();
                            assert forall|bs: Seq<BlockModel>| !wf_index(ld, bs) by {
                                if wf_index(ld, bs) {
                                    let k = ms.len() as int;
                                    assert(agree_closed(bs, ms, i));
                                    assert forall|m: int| 0 <= m < k implies end_pos(#[trigger] bs[m]) < i by {
                                        assert(bs[m] == ms[m]);
                                    }
                                    lemma_next_marker_is_start(ld, bs, k, i);
                                    assert(ld[i] == start_marker(bs[k].name));
                                    assert(bs[k].name == n@);
                                    let m = choose|m: int|
                                        0 <= m < vec@.len() && (#[trigger] vec@[m])@.name == n@;
                                    assert(bs[m] == ms[m]);
                                    assert(bs[m].name == n@);
                                }
                            }
                        }
                        return Err(StructureError::DuplicateName);
                    }
                    proof {
                        lemma_marker_is_marker_line();
                        lemma_markers_injective();
                        assert forall|bs: Seq<BlockModel>|
                            wf_index(ld, bs) implies agree_open(bs, ms, i + 1, n@, i) by {
                            let k = ms.len() as int;
                            assert(agree_closed(bs, ms, i));
                            assert forall|m: int| 0 <= m < k implies end_pos(#[trigger] bs[m]) < i by {
                                        assert(bs[m] == ms[m]);
                                    }
                                    lemma_next_marker_is_start(ld, bs, k, i);
                            assert(block_at(ld, bs[k]));
                            assert(ld[i] == start_marker(bs[k].name));
                            assert(bs[k].name == n@);
                            assert(end_pos(bs[k]) >= i + 1);
                        }
                    }
                    pending = Some(n);
                    pstart = idx;
                },
                LineClass::End(n) => {
                    if pending.is_none() {
                        proof {
                            lemma_marker_is_marker_line();
                            lemma_start_ne_end();
                            assert forall|bs: Seq<BlockModel>| !wf_index(ld, bs) by {
                                if wf_index(ld, bs) {
                                    let k = ms.len() as int;
                                    assert(agree_closed(bs, ms, i));
                                    assert forall|m: int| 0 <= m < k implies end_pos(#[trigger] bs[m]) < i by {
                                        assert(bs[m] == ms[m]);
                                    }
                                    lemma_next_marker_is_start(ld, bs, k, i);
                                    assert(ld[i] == start_marker(bs[k].name));
                                }
                            }
                        }
                        return Err(StructureError::StrayEnd);
                    }
                    let pn = pending.take().unwrap();
                    if !str_eq(pn.as_str(), n.as_str()) {
                        proof {
                            lemma_marker_is_marker_line();
                            lemma_markers_injective();
                            assert forall|bs: Seq<BlockModel>| !wf_index(ld, bs) by {
                                if wf_index(ld, bs) {
                                    let k = ms.len() as int;
                                    assert(agree_open(bs, ms, i, pn@, pstart as int));
                                    lemma_open_marker_is_end(ld, bs, k, i);
                                    assert(ld[i] == end_marker(bs[k].name));
                                    assert(bs[k].name == pn@);
                                    assert(bs[k].name == n@);
                                }
                            }
                        }
                        return Err(StructureError::NameMismatch);
                    }
                    let blk = Block { name: pn, start: pstart, size: idx - pstart - 1 };
                    let ghost bm = blk@;
                    proof {
                        lemma_marker_is_marker_line();
                        lemma_markers_injective();
                        assert(end_pos(bm) == i);
                        assert(block_at(ld, bm));
                        assert(models_of(vec@.push(blk)) =~= ms.push(bm));
                        assert forall|bs: Seq<BlockModel>|
                            wf_index(ld, bs) implies agree_closed(bs, ms.push(bm), i + 1) by {
                            let k = ms.len() as int;
                            assert(agree_open(bs, ms, i, bm.name, pstart as int));
                            lemma_open_marker_is_end(ld, bs, k, i);
                            assert(bs[k] == bm);
                            assert(ms.push(bm) =~= bs.subrange(0, k + 1));
                            if k + 1 < bs.len() {
                                assert(end_pos(bs[k]) < bs[k + 1].start);
                            }
                        }
                        assert forall|j: int|
                            0 <= j < i + 1 && is_marker_line(#[trigger] ld[j]) implies covered(
                            ms.push(bm),
                            j,
                        ) by {
                            if j == i || j == pstart {
                                assert(ms.push(bm)[ms.len() as int] == bm);
                            } else {
                                assert(covered(ms, j));
                                let m = choose|m: int|
                                    0 <= m < ms.len() && ((#[trigger] ms[m]).start == j || end_pos(
                                        ms[m],
                                    ) == j);
                                assert(ms.push(bm)[m] == ms[m]);
                            }
                        }
                    }
                    vec.push(blk);
                },
                LineClass::Foreign => {
                    proof {
                        lemma_marker_is_marker_line();
                        assert forall|bs: Seq<BlockModel>| !wf_index(ld, bs) by {
                            if wf_index(ld, bs) {
                                let k = ms.len() as int;
                                match pending {
                                    None => {
                                        assert(agree_closed(bs, ms, i));
                                        assert forall|m: int| 0 <= m < k implies end_pos(#[trigger] bs[m]) < i by {
                                        assert(bs[m] == ms[m]);
                                    }
                                    lemma_next_marker_is_start(ld, bs, k, i);
                                        assert(ld[i] == start_marker(bs[k].name));
                                    },
                                    Some(pn) => {
                                        assert(agree_open(bs, ms, i, pn@, pstart as int));
                                        lemma_open_marker_is_end(ld, bs, k, i);
                                        assert(ld[i] == end_marker(bs[k].name));
                                    },
                                }
                            }
                        }
                    }
                    return Err(StructureError::ForeignMarker);
                },
            }
            idx = idx + 1;
        }
        if pending.is_some() {
            proof {
                let pn = pending->0;
                assert forall|bs: Seq<BlockModel>| !wf_index(ld, bs) by {
                    if wf_index(ld, bs) {
                        let k = models_of(vec@).len() as int;
                        assert(agree_open(bs, models_of(vec@), ld.len() as int, pn@, pstart as int));
                        assert(block_at(ld, bs[k]));
                    }
                }
            }
            return Err(StructureError::UnclosedBlock);
        }
        proof {
            assert forall|bs: Seq<BlockModel>|
                wf_index(ld, bs) implies models_of(vec@) == bs by {
                let k = models_of(vec@).len() as int;
                assert(agree_closed(bs, models_of(vec@), ld.len() as int));
                if k < bs.len() {
                    assert(block_at(ld, bs[k]));
                }
                assert(models_of(vec@) =~= bs);
            }
        }
        Ok(BlockVec { vec })
    }
}

} // verus!

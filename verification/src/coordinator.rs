//! The coordinator: allocates lines and segments of the shared display
//! buffer to form elements, translating each element's relative segment and
//! line requests into absolute buffer indices, and splitting or joining
//! shared lines as elements grow and shrink.

use vstd::prelude::*;

use crate::buffer::{
    has_line_id, ids_of, index_of_line, index_of_seg, line_has_seg, lines_wf, LineId, LineModel,
    SegModel, SegmentId, TerminalBuffer,
};
use crate::style::Style;

verus! {

/// Identifies one element of the form: the index of its step, and its index
/// within the step. Assigned once at initialization, in declaration order.
#[derive(Debug, Clone, Copy, PartialEq, Eq, Structural, Hash)]
pub struct ElementId {
    pub step_index: usize,
    pub element_index: usize,
}

impl ElementId {
    /// Create an element identifier from its step and in-step indices.
    pub fn new(step_index: usize, element_index: usize) -> (r: ElementId)
        ensures
            r == (ElementId { step_index, element_index }),
    {
        ElementId { step_index, element_index }
    }
}

/// The declaration order of element identifiers: lexicographic on
/// (step index, element index).
pub open spec fn id_lt(a: ElementId, b: ElementId) -> bool {
    a.step_index < b.step_index || (a.step_index == b.step_index && a.element_index
        < b.element_index)
}

/// The coordinator's per-element interface bookkeeping.
#[derive(Debug)]
pub struct ElementData {
    /// The single buffer line this element shares with zero or more siblings.
    pub inline_line_id: LineId,
    /// This element's own segments on its inline line, in order.
    pub segment_ids: Vec<SegmentId>,
    /// Buffer lines owned exclusively by this element, immediately following
    /// its inline line.
    pub block_line_ids: Vec<LineId>,
}

/// The mathematical content of one element record.
#[verifier::ext_equal]
pub ghost struct RecordModel {
    pub inline_line: LineId,
    pub segments: Seq<SegmentId>,
    pub block_lines: Seq<LineId>,
}

/// The mathematical content of the coordinator: elements in declaration
/// order, their records, and the buffer they map onto.
#[verifier::ext_equal]
pub ghost struct CoordModel {
    pub elems: Seq<ElementId>,
    pub recs: Seq<RecordModel>,
    pub lines: Seq<LineModel>,
    pub next_line: int,
    pub next_segment: int,
}

impl CoordModel {
    /// The number of elements.
    pub open spec fn n(self) -> int {
        self.elems.len() as int
    }

    /// The inline line of element `k`.
    pub open spec fn inline(self, k: int) -> LineId {
        self.recs[k].inline_line
    }

    /// Whether element `k` opens a new inline-line group.
    pub open spec fn group_start(self, k: int) -> bool {
        k == 0 || self.inline(k - 1) != self.inline(k)
    }

    /// Whether element `k` closes its inline-line group.
    pub open spec fn group_end(self, k: int) -> bool {
        k == self.n() - 1 || self.inline(k + 1) != self.inline(k)
    }

    /// The index, on its inline line, where element `k`'s own segment run
    /// begins: the sum of the segment counts of the group members that
    /// precede it.
    pub open spec fn run_offset(self, k: int) -> int
        decreases k,
    {
        if k <= 0 || self.group_start(k) {
            0
        } else {
            self.run_offset(k - 1) + self.recs[k - 1].segments.len()
        }
    }

    /// The buffer lines occupied by the sections of elements `0..k`, in
    /// display order: each group's inline line once, at its first member,
    /// followed by each member's block lines.
    pub open spec fn layout_to(self, k: int) -> Seq<LineId>
        decreases k,
    {
        if k <= 0 {
            Seq::empty()
        } else {
            self.layout_to(k - 1) + (if self.group_start(k - 1) {
                seq![self.inline(k - 1)]
            } else {
                Seq::empty()
            }) + self.recs[k - 1].block_lines
        }
    }

    /// The line identifier a split would mint next.
    pub open spec fn next_line_id(self) -> LineId {
        LineId(self.next_line as u64)
    }

    /// The absolute index on element `k`'s inline line where its own run
    /// ends; a split on `k` moves every segment at or past it.
    pub open spec fn split_boundary(self, k: int) -> int {
        self.run_offset(k) + self.recs[k].segments.len()
    }

    /// The model after splitting element `k`'s inline line: a fresh line is
    /// inserted right after it, the segments past `k`'s run move there in
    /// order, and the group members after `k` are reparented to it.
    pub open spec fn with_group_split(self, k: int) -> CoordModel {
        CoordModel {
            elems: self.elems,
            recs: Seq::new(
                self.recs.len(),
                |i: int| if i <= k || self.inline(i) != self.inline(k) {
                    self.recs[i]
                } else {
                    RecordModel {
                        inline_line: self.next_line_id(),
                        segments: self.recs[i].segments,
                        block_lines: self.recs[i].block_lines,
                    }
                },
            ),
            lines: self.lines.update(
                self.line_of(k),
                LineModel {
                    id: self.inline(k),
                    segs: self.lines[self.line_of(k)].segs.take(self.split_boundary(k)),
                },
            ).insert(
                self.line_of(k) + 1,
                LineModel {
                    id: self.next_line_id(),
                    segs: self.lines[self.line_of(k)].segs.skip(self.split_boundary(k)),
                },
            ),
            next_line: self.next_line + 1,
            next_segment: self.next_segment,
        }
    }

    /// The absolute buffer row where block line `brel` of element `k`
    /// belongs: right after the element's inline line (if it opens its
    /// group) and its earlier block lines.
    pub open spec fn block_position(self, k: int, brel: int) -> int {
        self.layout_to(k).len() + (if self.group_start(k) {
            1int
        } else {
            0int
        }) + brel
    }

    /// The model after giving element `k` a fresh private block line at
    /// relative index `brel`.
    pub open spec fn with_block_inserted(self, k: int, brel: int) -> CoordModel {
        CoordModel {
            elems: self.elems,
            recs: self.recs.update(
                k,
                RecordModel {
                    inline_line: self.inline(k),
                    segments: self.recs[k].segments,
                    block_lines: self.recs[k].block_lines.insert(brel, self.next_line_id()),
                },
            ),
            lines: self.lines.insert(
                self.block_position(k, brel),
                LineModel { id: self.next_line_id(), segs: Seq::empty() },
            ),
            next_line: self.next_line + 1,
            next_segment: self.next_segment,
        }
    }

    /// The state `insert_line` leaves behind: a split first, if the element
    /// still shares its inline line, then a fresh block line at relative
    /// index `brel` of its section.
    pub open spec fn after_insert_line(self, k: int, brel: int) -> CoordModel {
        if self.recs[k].block_lines.len() == 0 && !self.group_end(k) {
            self.with_group_split(k).with_block_inserted(k, brel)
        } else {
            self.with_block_inserted(k, brel)
        }
    }

    /// The state `add_line` leaves behind: a split first, if the element
    /// still shares its inline line, then a fresh block line appended to
    /// its section.
    pub open spec fn after_add_line(self, k: int) -> CoordModel {
        self.after_insert_line(k, self.recs[k].block_lines.len() as int)
    }

    /// The identifier `insert_line` and `add_line` mint for the element's
    /// fresh block line.
    pub open spec fn add_line_result(self, k: int) -> LineId {
        if self.recs[k].block_lines.len() == 0 && !self.group_end(k) {
            self.with_group_split(k).next_line_id()
        } else {
            self.next_line_id()
        }
    }

    /// The model after removing block line `brel` of element `k`, from the
    /// record and from the buffer.
    pub open spec fn with_block_removed(self, k: int, brel: int) -> CoordModel {
        CoordModel {
            elems: self.elems,
            recs: self.recs.update(
                k,
                RecordModel {
                    inline_line: self.inline(k),
                    segments: self.recs[k].segments,
                    block_lines: self.recs[k].block_lines.remove(brel),
                },
            ),
            lines: self.lines.remove(self.block_position(k, brel)),
            next_line: self.next_line,
            next_segment: self.next_segment,
        }
    }

    /// The model after joining the inline-line group that follows element
    /// `k`'s collapsed section back onto `k`'s line: its segments move to
    /// the end of `k`'s line, its line is removed, and its members are
    /// reparented.
    pub open spec fn with_groups_joined(self, k: int) -> CoordModel {
        CoordModel {
            elems: self.elems,
            recs: Seq::new(
                self.recs.len(),
                |i: int| if i <= k || self.inline(i) != self.inline(k + 1) {
                    self.recs[i]
                } else {
                    RecordModel {
                        inline_line: self.inline(k),
                        segments: self.recs[i].segments,
                        block_lines: self.recs[i].block_lines,
                    }
                },
            ),
            lines: self.lines.update(
                self.line_of(k),
                LineModel {
                    id: self.inline(k),
                    segs: self.lines[self.line_of(k)].segs + self.lines[self.line_of(k + 1)].segs,
                },
            ).remove(self.line_of(k + 1)),
            next_line: self.next_line,
            next_segment: self.next_segment,
        }
    }

    /// The state `remove_line_at` leaves behind: the block line released,
    /// and, if it was the element's last one and another group follows, the
    /// following group joined back onto the element's line.
    pub open spec fn after_remove_line(self, k: int, brel: int) -> CoordModel {
        if self.recs[k].block_lines.len() == 1 && k < self.n() - 1 {
            self.with_block_removed(k, brel).with_groups_joined(k)
        } else {
            self.with_block_removed(k, brel)
        }
    }

    /// The index, within element `k`'s own run, of the given segment
    /// identifier.
    pub open spec fn seg_rel(self, k: int, sid: SegmentId) -> int {
        choose|j: int| 0 <= j < self.recs[k].segments.len() && self.recs[k].segments[j] == sid
    }

    /// Whether element `k` owns the given block line.
    pub open spec fn has_block(self, k: int, lid: LineId) -> bool {
        exists|j: int| 0 <= j < self.recs[k].block_lines.len() && self.recs[k].block_lines[j] == lid
    }

    /// Whether the buffer line with the given identifier holds exactly one
    /// segment, with the given identifier and text.
    pub open spec fn row_holds(self, lid: LineId, sid: SegmentId, text: Seq<char>) -> bool {
        &&& has_line_id(self.lines, lid)
        &&& self.lines[index_of_line(self.lines, lid)].segs.len() == 1
        &&& self.lines[index_of_line(self.lines, lid)].segs[0].id == sid
        &&& self.lines[index_of_line(self.lines, lid)].segs[0].text == text
    }

    /// Whether the buffer line with the given identifier holds exactly one
    /// segment carrying the given text.
    pub open spec fn row_shows(self, lid: LineId, text: Seq<char>) -> bool {
        &&& has_line_id(self.lines, lid)
        &&& self.lines[index_of_line(self.lines, lid)].segs.len() == 1
        &&& self.lines[index_of_line(self.lines, lid)].segs[0].text == text
    }

    /// Whether every line of `self`, except the one named `excluded`, keeps
    /// its identifier-addressed content in `b`.
    pub open spec fn lines_kept_except(self, b: CoordModel, excluded: LineId) -> bool {
        forall|lid: LineId|
            has_line_id(self.lines, lid) && lid != excluded ==> #[trigger] has_line_id(
                b.lines,
                lid,
            ) && b.lines[index_of_line(b.lines, lid)] == self.lines[index_of_line(
                self.lines,
                lid,
            )]
    }

    /// Whether element `k`'s own run holds the given segment identifier.
    pub open spec fn has_seg(self, k: int, sid: SegmentId) -> bool {
        exists|j: int| 0 <= j < self.recs[k].segments.len() && self.recs[k].segments[j] == sid
    }

    /// The first member of element `k`'s inline-line group.
    pub open spec fn group_first(self, k: int) -> int
        decreases k,
    {
        if k <= 0 || self.group_start(k) {
            k
        } else {
            self.group_first(k - 1)
        }
    }

    /// Whether the coordinator tracks the given element.
    pub open spec fn has_elem(self, e: ElementId) -> bool {
        exists|k: int| 0 <= k < self.n() && self.elems[k] == e
    }

    /// The declaration index of the given element.
    pub open spec fn index_of(self, e: ElementId) -> int {
        choose|k: int| 0 <= k < self.n() && self.elems[k] == e
    }

    /// The display index of element `k`'s inline line in the buffer.
    pub open spec fn line_of(self, k: int) -> int {
        index_of_line(self.lines, self.inline(k))
    }

    /// The model after inserting a fresh segment at relative index `rel` of
    /// element `k`'s run: the record gains the identifier there, and the
    /// element's inline line gains an empty segment at the matching absolute
    /// index.
    pub open spec fn with_segment_inserted(self, k: int, rel: int, sid: SegmentId) -> CoordModel {
        CoordModel {
            elems: self.elems,
            recs: self.recs.update(
                k,
                RecordModel {
                    inline_line: self.inline(k),
                    segments: self.recs[k].segments.insert(rel, sid),
                    block_lines: self.recs[k].block_lines,
                },
            ),
            lines: self.lines.update(
                self.line_of(k),
                LineModel {
                    id: self.inline(k),
                    segs: self.lines[self.line_of(k)].segs.insert(
                        self.run_offset(k) + rel,
                        SegModel { id: sid, text: Seq::empty(), style: None },
                    ),
                },
            ),
            next_line: self.next_line,
            next_segment: self.next_segment + 1,
        }
    }

    /// The model after removing the segment at relative index `rel` of
    /// element `k`'s run, both from the record and from the matching
    /// absolute index of the element's inline line.
    pub open spec fn with_segment_removed(self, k: int, rel: int) -> CoordModel {
        CoordModel {
            elems: self.elems,
            recs: self.recs.update(
                k,
                RecordModel {
                    inline_line: self.inline(k),
                    segments: self.recs[k].segments.remove(rel),
                    block_lines: self.recs[k].block_lines,
                },
            ),
            lines: self.lines.update(
                self.line_of(k),
                LineModel {
                    id: self.inline(k),
                    segs: self.lines[self.line_of(k)].segs.remove(self.run_offset(k) + rel),
                },
            ),
            next_line: self.next_line,
            next_segment: self.next_segment,
        }
    }

    /// Well-formedness: the element table is sorted, groups are contiguous,
    /// only a group's last member owns block lines, the buffer's lines are
    /// exactly the elements' sections in order, and each line's segments are
    /// exactly the concatenation of its group members' runs.
    pub open spec fn wf(self) -> bool {
        &&& self.recs.len() == self.elems.len()
        &&& lines_wf(self.lines, self.next_line, self.next_segment)
        // sorted by declaration order
        &&& forall|i: int, j: int|
            0 <= i < j < self.n() ==> id_lt(#[trigger] self.elems[i], #[trigger] self.elems[j])
        // inline-line groups are contiguous
        &&& forall|i: int, j: int, k: int|
            0 <= i <= j <= k < self.n() && #[trigger] self.inline(i) == #[trigger] self.inline(k)
                ==> #[trigger] self.inline(j) == self.inline(i)
        // only the last member of a group owns block lines
        &&& forall|k: int|
            0 <= k < self.n() && (#[trigger] self.recs[k].block_lines).len() > 0
                ==> self.group_end(k)
        // every element's inline line is a buffer line
        &&& forall|k: int| 0 <= k < self.n() ==> has_line_id(self.lines, #[trigger] self.inline(k))
        // the buffer's lines are exactly the element sections
        &&& ids_of(self.lines) == self.layout_to(self.n())
        // each member's run lies at its offset on its inline line
        &&& forall|k: int|
            0 <= k < self.n() ==> self.run_offset(k) + (#[trigger] self.recs[k].segments).len()
                <= self.lines[self.line_of(k)].segs.len()
        &&& forall|k: int, j: int|
            0 <= k < self.n() && 0 <= j < self.recs[k].segments.len() ==> self.lines[self.line_of(
                k,
            )].segs[self.run_offset(k) + j].id == #[trigger] self.recs[k].segments[j]
        // a group's runs fill its line completely
        &&& forall|k: int|
            0 <= k < self.n() && #[trigger] self.group_end(k) ==> self.lines[self.line_of(
                k,
            )].segs.len() == self.run_offset(k) + self.recs[k].segments.len()
    }
}

/// The total count of block lines owned by elements `a..=b`.
pub open spec fn blocks_between(m: CoordModel, a: int, b: int) -> int
    decreases b - a,
{
    if b < a {
        0
    } else if b == a {
        m.recs[a].block_lines.len() as int
    } else {
        blocks_between(m, a, b - 1) + m.recs[b].block_lines.len()
    }
}

/// The number of elements declared by the steps before step `s`.
pub open spec fn count_before(sizes: Seq<usize>, s: int) -> int
    decreases s,
{
    if s <= 0 {
        0
    } else {
        count_before(sizes, s - 1) + sizes[s - 1]
    }
}

/// Element counts are never negative.
pub proof fn lemma_count_before_nonneg(sizes: Seq<usize>, s: int)
    ensures
        count_before(sizes, s) >= 0,
    decreases s,
{
    if s > 0 {
        lemma_count_before_nonneg(sizes, s - 1);
    }
}

/// The element count before a later step is at least the count before an
/// earlier one.
pub proof fn lemma_count_before_mono(sizes: Seq<usize>, a: int, b: int)
    requires
        0 <= a <= b <= sizes.len(),
        forall|t: int| 0 <= t < sizes.len() ==> sizes[t] >= 1,
    ensures
        count_before(sizes, a) <= count_before(sizes, b),
    decreases b - a,
{
    if a < b {
        lemma_count_before_mono(sizes, a, b - 1);
    }
}

/// A cursor position relative to a line and segment of the buffer.
#[derive(Debug, Clone, Copy, PartialEq, Eq, Structural)]
pub struct RelativePosition {
    pub line: LineId,
    pub segment: SegmentId,
    pub column: u16,
}

impl RelativePosition {
    /// Create a relative position on the given line and segment.
    pub fn new(line: LineId, segment: SegmentId, column: u16) -> (r: RelativePosition)
        ensures
            r == (RelativePosition { line, segment, column }),
    {
        RelativePosition { line, segment, column }
    }
}

/// Provides controlled access to the display buffer: coordinates the
/// allocation of its lines and segments to elements.
pub struct Coordinator {
    pub elements: Vec<(ElementId, ElementData)>,
    pub buffer: TerminalBuffer,
    pub cursor: Option<RelativePosition>,
}

impl Coordinator {
    /// The mathematical content of the coordinator.
    pub open spec fn model(self) -> CoordModel {
        CoordModel {
            elems: self.elements@.map_values(|p: (ElementId, ElementData)| p.0),
            recs: self.elements@.map_values(
                |p: (ElementId, ElementData)| RecordModel {
                    inline_line: p.1.inline_line_id,
                    segments: p.1.segment_ids@,
                    block_lines: p.1.block_line_ids@,
                },
            ),
            lines: self.buffer.model(),
            next_line: self.buffer.next_line as int,
            next_segment: self.buffer.next_segment as int,
        }
    }

    /// Well-formedness of the coordinator's bookkeeping.
    pub open spec fn wf(self) -> bool {
        self.model().wf()
    }

    /// Create a new coordinator over an empty buffer.
    pub fn new() -> (r: Coordinator)
        ensures
            r.wf(),
            r.model().elems.len() == 0,
            r.model().recs.len() == 0,
            r.model().lines.len() == 0,
            r.model().next_line == 0,
            r.model().next_segment == 0,
            r.cursor == None::<RelativePosition>,
    {
        let r = Coordinator { elements: Vec::new(), buffer: TerminalBuffer::new(), cursor: None };
        proof {
            assert(r.model().elems =~= Seq::<ElementId>::empty());
            assert(r.model().recs =~= Seq::<RecordModel>::empty());
            assert(ids_of(r.model().lines) =~= r.model().layout_to(r.model().n()));
        }
        r
    }

    /// Initialize the element table from the form's step sizes: one inline
    /// line is minted per step and shared, in declaration order, by that
    /// step's elements. Must run once, before any other operation. Every
    /// step must hold at least one element: the row arithmetic assumes each
    /// buffer row belongs to some element's section, and a memberless row
    /// would fall outside it.
    #[verifier::loop_isolation(false)]
    #[verifier::rlimit(100)]
    #[verifier::spinoff_prover]
    pub fn initialize_elements(&mut self, step_sizes: &Vec<usize>)
        requires
            old(self).wf(),
            old(self).model().elems.len() == 0,
            old(self).model().lines.len() == 0,
            forall|s: int| 0 <= s < step_sizes@.len() ==> step_sizes@[s] >= 1,
            old(self).model().next_line + step_sizes@.len() <= u64::MAX,
        ensures
            final(self).wf(),
            final(self).cursor == old(self).cursor,
            final(self).model().next_segment == old(self).model().next_segment,
            final(self).model().next_line == old(self).model().next_line + step_sizes@.len(),
            final(self).model().lines.len() == step_sizes@.len(),
            forall|s: int|
                0 <= s < step_sizes@.len() ==> (#[trigger] final(self).model().lines[s].id).0
                    == old(self).model().next_line + s && final(self).model().lines[s].segs.len()
                    == 0,
            final(self).model().elems.len() == count_before(
                step_sizes@,
                step_sizes@.len() as int,
            ),
            forall|s: int, j: int|
                0 <= s < step_sizes@.len() && 0 <= j < step_sizes@[s]
                    ==> #[trigger] final(self).model().elems[count_before(step_sizes@, s) + j]
                    == (ElementId { step_index: s as usize, element_index: j as usize })
                    && final(self).model().recs[count_before(step_sizes@, s) + j]
                    == (RecordModel {
                    inline_line: final(self).model().lines[s].id,
                    segments: Seq::empty(),
                    block_lines: Seq::empty(),
                }),
    {
        let ghost m0 = old(self).model();
        let ghost sizes = step_sizes@;
        let mut s: usize = 0;
        while s < step_sizes.len()
            invariant
                self.wf(),
                self.cursor == old(self).cursor,
                s <= sizes.len(),
                sizes == step_sizes@,
                forall|t: int| 0 <= t < sizes.len() ==> sizes[t] >= 1,
                m0.next_line + sizes.len() <= u64::MAX,
                self.model().next_segment == m0.next_segment,
                self.model().next_line == m0.next_line + s,
                self.model().lines.len() == s,
                forall|t: int|
                    0 <= t < s ==> (#[trigger] self.model().lines[t].id).0 == m0.next_line + t
                        && self.model().lines[t].segs.len() == 0,
                self.model().elems.len() == count_before(sizes, s as int),
                forall|i: int|
                    0 <= i < self.model().elems.len() ==> (#[trigger] self.model().elems[i]).step_index < s,
                forall|t: int, j: int|
                    0 <= t < s && 0 <= j < sizes[t] ==> #[trigger] self.model().elems[count_before(sizes, t) + j] == (ElementId { step_index: t as usize, element_index: j as usize })
                        && self.model().recs[count_before(sizes, t) + j] == (RecordModel {
                        inline_line: self.model().lines[t].id,
                        segments: Seq::empty(),
                        block_lines: Seq::empty(),
                    }),
            decreases sizes.len() - s,
        {
            let ghost mpre = self.model();
            let lid = self.buffer.add_line();
            let mut j: usize = 0;
            let size = step_sizes[s];
            while j < size
                invariant
                    self.cursor == old(self).cursor,
                    s < sizes.len(),
                    sizes == step_sizes@,
                    size == sizes[s as int],
                    forall|t: int| 0 <= t < sizes.len() ==> sizes[t] >= 1,
                    m0.next_line + sizes.len() <= u64::MAX,
                    1 <= size,
                    0 <= j <= size,
                    self.model().next_segment == m0.next_segment,
                    self.model().next_line == m0.next_line + s + 1,
                    self.model().lines.len() == s + 1,
                    lid.0 == m0.next_line + s,
                    forall|t: int|
                        0 <= t < s + 1 ==> (#[trigger] self.model().lines[t].id).0 == m0.next_line
                            + t && self.model().lines[t].segs.len() == 0,
                    self.model().elems.len() == count_before(sizes, s as int) + j,
                    forall|i: int|
                        0 <= i < count_before(sizes, s as int)
                            ==> (#[trigger] self.model().elems[i]).step_index < s,
                    forall|i: int|
                        count_before(sizes, s as int) <= i < self.model().elems.len() ==> (
                        #[trigger] self.model().elems[i]) == (ElementId {
                            step_index: s,
                            element_index: (i - count_before(sizes, s as int)) as usize,
                        }),
                    forall|t: int, jj: int|
                        0 <= t < s && 0 <= jj < sizes[t] ==> #[trigger] self.model().elems[count_before(sizes, t) + jj] == (ElementId { step_index: t as usize, element_index: jj as usize })
                            && self.model().recs[count_before(sizes, t) + jj] == (RecordModel {
                            inline_line: self.model().lines[t].id,
                            segments: Seq::empty(),
                            block_lines: Seq::empty(),
                        }),
                    forall|i: int|
                        count_before(sizes, s as int) <= i < self.model().elems.len() ==> (
                        #[trigger] self.model().recs[i]) == (RecordModel {
                            inline_line: lid,
                            segments: Seq::empty(),
                            block_lines: Seq::empty(),
                        }),
                    j == 0 ==> self.model().lines == mpre.lines.push(
                        (LineModel { id: lid, segs: Seq::empty() }),
                    ) && self.model().elems == mpre.elems && self.model().recs == mpre.recs
                        && mpre.wf(),
                    j > 0 ==> self.wf(),
                decreases size - j,
            {
                let ghost pre = self.model();
                let id = ElementId::new(s, j);
                let data = ElementData {
                    inline_line_id: lid,
                    segment_ids: Vec::new(),
                    block_line_ids: Vec::new(),
                };
                self.elements.push((id, data));
                proof {
                    let post = self.model();
                    assert(post.elems =~= pre.elems.push(id));
                    assert(post.recs =~~= pre.recs.push(
                        (RecordModel {
                            inline_line: lid,
                            segments: Seq::empty(),
                            block_lines: Seq::empty(),
                        }),
                    ));
                    assert(post.lines == pre.lines);
                    if j == 0 {
                        // the first element of the step arrives together with
                        // its fresh line
                        assert(mpre.wf());
                        assert(post.elems =~= mpre.elems.push(id));
                        assert(post.recs =~~= mpre.recs.push(
                            (RecordModel {
                                inline_line: lid,
                                segments: Seq::empty(),
                                block_lines: Seq::empty(),
                            }),
                        ));
                        assert forall|i: int|
                            0 <= i < mpre.n() implies id_lt(#[trigger] mpre.elems[i], id) by {
                            assert(mpre.elems[i].step_index < s);
                        }
                        lemma_push_empty_element(mpre, post, id, lid, true);
                    } else {
                        assert forall|i: int|
                            0 <= i < pre.n() implies id_lt(#[trigger] pre.elems[i], id) by {
                            if i >= count_before(sizes, s as int) {
                                assert(pre.elems[i].step_index == s);
                            } else {
                                assert(pre.elems[i].step_index < s);
                            }
                        }
                        assert(pre.recs[pre.n() - 1].inline_line == lid);
                        assert(pre.recs[pre.n() - 1].block_lines.len() == 0);
                        lemma_push_empty_element(pre, post, id, lid, false);
                    }
                    assert(self.wf());
                    assert forall|t: int, jj: int|
                        0 <= t < s && 0 <= jj < sizes[t]
                        implies #[trigger] self.model().elems[count_before(sizes, t) + jj]
                        == pre.elems[count_before(sizes, t) + jj] && self.model().recs[
                        count_before(sizes, t) + jj] == pre.recs[count_before(sizes, t) + jj] by {
                        lemma_count_before_mono(sizes, t + 1, s as int);
                        lemma_count_before_nonneg(sizes, t);
                        assert(count_before(sizes, t + 1) == count_before(sizes, t) + sizes[t]);
                        let i = count_before(sizes, t) + jj;
                        assert(0 <= i);
                        assert(i < count_before(sizes, s as int));
                        assert(pre.elems.len() == count_before(sizes, s as int) + j);
                        assert(i < pre.elems.len());
                        assert(self.model().elems == pre.elems.push(id));
                        assert(self.model().elems[i] == pre.elems[i]);
                        assert(self.model().recs == pre.recs.push(
                            (RecordModel {
                                inline_line: lid,
                                segments: Seq::empty(),
                                block_lines: Seq::empty(),
                            }),
                        ));
                        assert(self.model().recs[i] == pre.recs[i]);
                    }
                }
                j = j + 1;
            }
            proof {
                lemma_count_before_nonneg(sizes, s as int);
                assert forall|t: int, jj: int|
                    0 <= t <= s && 0 <= jj < sizes[t]
                    implies #[trigger] self.model().elems[count_before(sizes, t) + jj]
                    == (ElementId { step_index: t as usize, element_index: jj as usize })
                    && self.model().recs[count_before(sizes, t) + jj] == (RecordModel {
                    inline_line: self.model().lines[t].id,
                    segments: Seq::empty(),
                    block_lines: Seq::empty(),
                }) by {
                    if t < s {
                        assert(self.model().elems[count_before(sizes, t) + jj] == (ElementId {
                            step_index: t as usize,
                            element_index: jj as usize,
                        }));
                    } else {
                        lemma_count_before_mono(sizes, 0, t);
                        assert(self.model().lines[s as int].id == lid);
                        assert(self.model().recs[count_before(sizes, t) + jj] == (RecordModel {
                            inline_line: lid,
                            segments: Seq::empty(),
                            block_lines: Seq::empty(),
                        }));
                    }
                }
            }
            s = s + 1;
            proof {
                assert(count_before(sizes, s as int) == count_before(sizes, s as int - 1)
                    + sizes[s as int - 1]);
            }
        }
    }

    /// The absolute index, on element `idx`'s inline line, where its own
    /// segment run begins: the sum of the segment counts of the group
    /// members preceding it, computed by the O(n) walk.
    #[verifier::loop_isolation(false)]
    fn run_offset_at(&self, idx: usize) -> (r: usize)
        requires
            self.wf(),
            idx < self.model().n(),
        ensures
            r == self.model().run_offset(idx as int),
    {
        let ghost m = self.model();
        let mut acc: usize = 0;
        let mut k: usize = 0;
        while k < idx
            invariant
                k <= idx,
                acc == m.run_offset(k as int),
            decreases idx - k,
        {
            proof {
                lemma_run_offset_nonneg(m, k as int + 1);
                assert(m.run_offset(k as int + 1) + m.recs[k as int + 1].segments.len()
                    <= m.lines[m.line_of(k as int + 1)].segs.len());
                let w = m.line_of(k as int + 1);
                assert(has_line_id(m.lines, m.inline(k as int + 1)));
                assert(0 <= w < m.lines.len());
                assert(m.lines[w].segs.len() == self.buffer.lines@[w].segments@.len());
                vstd::std_specs::vec::axiom_spec_len(&self.buffer.lines@[w].segments);
            }
            if self.elements[k + 1].1.inline_line_id == self.elements[k].1.inline_line_id {
                proof {
                    assert(!m.group_start(k as int + 1));
                }
                acc = acc + self.elements[k].1.segment_ids.len();
            } else {
                proof {
                    assert(m.group_start(k as int + 1));
                }
                acc = 0;
            }
            k = k + 1;
        }
        acc
    }

    /// The absolute index on the inline line where the element's own run
    /// begins: the sum of the segment counts of its inline-line siblings
    /// that precede it in declaration order.
    pub fn get_element_segment_index(&self, element_id: &ElementId) -> (r: usize)
        requires
            self.wf(),
            self.model().has_elem(*element_id),
        ensures
            r == self.model().run_offset(self.model().index_of(*element_id)),
    {
        let idx = self.find_element(element_id);
        self.run_offset_at(idx)
    }

    /// Insert a fresh inline segment at the given index within the
    /// element's own run, and return its identifier.
    #[verifier::rlimit(100)]
    pub fn insert_segment(&mut self, element_id: &ElementId, index: usize) -> (r: SegmentId)
        requires
            old(self).wf(),
            old(self).model().has_elem(*element_id),
            index <= old(self).model().recs[old(self).model().index_of(
                *element_id,
            )].segments.len(),
            old(self).model().next_segment < u64::MAX,
        ensures
            final(self).wf(),
            final(self).cursor == old(self).cursor,
            r.0 == old(self).model().next_segment,
            final(self).model() == old(self).model().with_segment_inserted(
                old(self).model().index_of(*element_id),
                index as int,
                r,
            ),
    {
        let ghost m = old(self).model();
        let idx = self.find_element(element_id);
        let ghost ki = idx as int;
        let off = self.run_offset_at(idx);
        let line = self.elements[idx].1.inline_line_id;
        proof {
            lemma_run_offset_nonneg(m, ki);
            assert(m.run_offset(ki) + m.recs[ki].segments.len() <= m.lines[m.line_of(
                ki,
            )].segs.len());
            let w = m.line_of(ki);
            assert(has_line_id(m.lines, m.inline(ki)));
            assert(0 <= w < m.lines.len());
            assert(m.lines[w].segs.len() == self.buffer.lines@[w].segments@.len());
            vstd::std_specs::vec::axiom_spec_len(&self.buffer.lines@[w].segments);
            assert(self.buffer.has_line(line));
            assert(self.buffer.line_index_spec(line) == m.line_of(ki));
        }
        let p = off + index;
        let sid = self.buffer.insert_segment(line, p);
        let mut entry = self.elements.remove(idx);
        entry.1.segment_ids.insert(index, sid);
        self.elements.insert(idx, entry);
        proof {
            let post = self.model();
            assert(post.elems =~= m.elems);
            assert(post.recs =~~= m.recs.update(
                ki,
                RecordModel {
                    inline_line: m.inline(ki),
                    segments: m.recs[ki].segments.insert(index as int, sid),
                    block_lines: m.recs[ki].block_lines,
                },
            ));
            assert(post.lines =~~= m.lines.update(
                m.line_of(ki),
                LineModel {
                    id: m.inline(ki),
                    segs: m.lines[m.line_of(ki)].segs.insert(
                        m.run_offset(ki) + index,
                        SegModel { id: sid, text: Seq::empty(), style: None },
                    ),
                },
            ));
            assert(post =~~= m.with_segment_inserted(ki, index as int, sid));
            lemma_insert_segment_wf(m, post, ki, index as int, sid);
        }
        sid
    }

    /// Append a fresh inline segment at the end of the element's own run,
    /// and return its identifier.
    pub fn add_segment(&mut self, element_id: &ElementId) -> (r: SegmentId)
        requires
            old(self).wf(),
            old(self).model().has_elem(*element_id),
            old(self).model().next_segment < u64::MAX,
        ensures
            final(self).wf(),
            final(self).cursor == old(self).cursor,
            r.0 == old(self).model().next_segment,
            final(self).model() == old(self).model().with_segment_inserted(
                old(self).model().index_of(*element_id),
                old(self).model().recs[old(self).model().index_of(*element_id)].segments.len()
                    as int,
                r,
            ),
    {
        let idx = self.find_element(element_id);
        let len = self.elements[idx].1.segment_ids.len();
        self.insert_segment(element_id, len)
    }

    /// Remove the inline segment at the given index within the element's
    /// own run.
    #[verifier::rlimit(100)]
    pub fn remove_segment_at(&mut self, element_id: &ElementId, index: usize)
        requires
            old(self).wf(),
            old(self).model().has_elem(*element_id),
            index < old(self).model().recs[old(self).model().index_of(*element_id)].segments.len(),
        ensures
            final(self).wf(),
            final(self).cursor == old(self).cursor,
            final(self).model() == old(self).model().with_segment_removed(
                old(self).model().index_of(*element_id),
                index as int,
            ),
    {
        let ghost m = old(self).model();
        let idx = self.find_element(element_id);
        let ghost ki = idx as int;
        let off = self.run_offset_at(idx);
        let line = self.elements[idx].1.inline_line_id;
        proof {
            lemma_run_offset_nonneg(m, ki);
            assert(m.run_offset(ki) + m.recs[ki].segments.len() <= m.lines[m.line_of(
                ki,
            )].segs.len());
            let w = m.line_of(ki);
            assert(has_line_id(m.lines, m.inline(ki)));
            assert(0 <= w < m.lines.len());
            assert(m.lines[w].segs.len() == self.buffer.lines@[w].segments@.len());
            vstd::std_specs::vec::axiom_spec_len(&self.buffer.lines@[w].segments);
            assert(self.buffer.has_line(line));
            assert(self.buffer.line_index_spec(line) == m.line_of(ki));
        }
        let p = off + index;
        self.buffer.remove_segment_at(line, p);
        let mut entry = self.elements.remove(idx);
        entry.1.segment_ids.remove(index);
        self.elements.insert(idx, entry);
        proof {
            let post = self.model();
            assert(post.elems =~= m.elems);
            assert(post.recs =~~= m.recs.update(
                ki,
                RecordModel {
                    inline_line: m.inline(ki),
                    segments: m.recs[ki].segments.remove(index as int),
                    block_lines: m.recs[ki].block_lines,
                },
            ));
            assert(post.lines =~~= m.lines.update(
                m.line_of(ki),
                LineModel {
                    id: m.inline(ki),
                    segs: m.lines[m.line_of(ki)].segs.remove(m.run_offset(ki) + index),
                },
            ));
            assert(post =~~= m.with_segment_removed(ki, index as int));
            lemma_remove_segment_wf(m, post, ki, index as int);
        }
    }

    /// The index, within the element's own run, of the given segment.
    #[verifier::loop_isolation(false)]
    #[verifier::rlimit(100)]
    fn seg_position(&self, idx: usize, segment_id: &SegmentId) -> (r: usize)
        requires
            self.wf(),
            idx < self.model().n(),
            self.model().has_seg(idx as int, *segment_id),
        ensures
            r < self.model().recs[idx as int].segments.len(),
            self.model().recs[idx as int].segments[r as int] == *segment_id,
            r == self.model().seg_rel(idx as int, *segment_id),
    {
        let ghost m = self.model();
        let ghost ki = idx as int;
        proof {
            lemma_record_segments_distinct(m, ki);
        }
        let n = self.elements[idx].1.segment_ids.len();
        let mut rel: usize = 0;
        while rel < n
            invariant
                rel <= n,
                forall|j: int| 0 <= j < rel ==> m.recs[ki].segments[j] != *segment_id,
            decreases n - rel,
        {
            if self.elements[idx].1.segment_ids[rel].0 == segment_id.0 {
                proof {
                    assert(m.recs[ki].segments[rel as int] == *segment_id);
                    let w = m.seg_rel(ki, *segment_id);
                    assert(0 <= w < m.recs[ki].segments.len() && m.recs[ki].segments[w]
                        == *segment_id);
                    assert(w == rel as int);
                }
                return rel;
            }
            rel = rel + 1;
        }
        proof {
            let w = m.seg_rel(ki, *segment_id);
            assert(0 <= w < m.recs[ki].segments.len() && m.recs[ki].segments[w] == *segment_id);
            assert(false);
        }
        unreached()
    }

    /// Remove the specified inline segment from the element's run.
    pub fn remove_segment(&mut self, element_id: &ElementId, segment_id: &SegmentId)
        requires
            old(self).wf(),
            old(self).model().has_elem(*element_id),
            old(self).model().has_seg(old(self).model().index_of(*element_id), *segment_id),
        ensures
            final(self).wf(),
            final(self).cursor == old(self).cursor,
            final(self).model() == old(self).model().with_segment_removed(
                old(self).model().index_of(*element_id),
                old(self).model().seg_rel(old(self).model().index_of(*element_id), *segment_id),
            ),
    {
        let idx = self.find_element(element_id);
        let rel = self.seg_position(idx, segment_id);
        self.remove_segment_at(element_id, rel);
    }

    /// The identifiers of the element's own inline segments, in order.
    #[verifier::loop_isolation(false)]
    pub fn segments(&self, element_id: &ElementId) -> (r: Vec<SegmentId>)
        requires
            self.wf(),
            self.model().has_elem(*element_id),
        ensures
            r@ == self.model().recs[self.model().index_of(*element_id)].segments,
    {
        let idx = self.find_element(element_id);
        let ghost ki = idx as int;
        let segs = &self.elements[idx].1.segment_ids;
        let mut out: Vec<SegmentId> = Vec::new();
        let mut k: usize = 0;
        while k < segs.len()
            invariant
                segs == self.elements@[ki].1.segment_ids,
                k <= self.model().recs[ki].segments.len(),
                out@.len() == k,
                forall|j: int| 0 <= j < k ==> out@[j] == self.model().recs[ki].segments[j],
            decreases self.model().recs[ki].segments.len() - k,
        {
            out.push(segs[k]);
            k = k + 1;
        }
        proof {
            assert(out@ =~= self.model().recs[ki].segments);
        }
        out
    }

    /// The element's current inline line identifier. This identifier should
    /// be considered stale after any block-line change.
    pub fn get_inline_line_id(&self, element_id: &ElementId) -> (r: LineId)
        requires
            self.wf(),
            self.model().has_elem(*element_id),
        ensures
            r == self.model().inline(self.model().index_of(*element_id)),
    {
        let idx = self.find_element(element_id);
        self.elements[idx].1.inline_line_id
    }

    /// Set the text of one of the element's own inline segments.
    #[verifier::rlimit(100)]
    pub fn set_segment_text(&mut self, element_id: &ElementId, segment_id: &SegmentId, text: &str)
        requires
            old(self).wf(),
            old(self).model().has_elem(*element_id),
            old(self).model().has_seg(old(self).model().index_of(*element_id), *segment_id),
        ensures
            final(self).wf(),
            final(self).cursor == old(self).cursor,
            final(self).model().elems == old(self).model().elems,
            final(self).model().recs == old(self).model().recs,
            final(self).model().next_line == old(self).model().next_line,
            final(self).model().next_segment == old(self).model().next_segment,
            final(self).model().lines == old(self).model().lines.update(
                old(self).model().line_of(old(self).model().index_of(*element_id)),
                LineModel {
                    id: old(self).model().inline(old(self).model().index_of(*element_id)),
                    segs: old(self).model().lines[old(self).model().line_of(
                        old(self).model().index_of(*element_id),
                    )].segs.update(
                        old(self).model().run_offset(old(self).model().index_of(*element_id))
                            + old(self).model().seg_rel(
                            old(self).model().index_of(*element_id),
                            *segment_id,
                        ),
                        SegModel {
                            id: *segment_id,
                            text: text@,
                            style: old(self).model().lines[old(self).model().line_of(
                                old(self).model().index_of(*element_id),
                            )].segs[old(self).model().run_offset(
                                old(self).model().index_of(*element_id),
                            ) + old(self).model().seg_rel(
                                old(self).model().index_of(*element_id),
                                *segment_id,
                            )].style,
                        },
                    ),
                },
            ),
    {
        let ghost m = old(self).model();
        let idx = self.find_element(element_id);
        let ghost ki = idx as int;
        let rel = self.seg_position(idx, segment_id);
        let line = self.elements[idx].1.inline_line_id;
        let ghost li = m.line_of(ki);
        let ghost p = m.run_offset(ki) + rel;
        proof {
            lemma_run_offset_nonneg(m, ki);
            assert(has_line_id(m.lines, m.inline(ki)));
            assert(0 <= li < m.lines.len() && m.lines[li].id == m.inline(ki));
            assert(m.run_offset(ki) + m.recs[ki].segments.len() <= m.lines[li].segs.len());
            assert(m.lines[li].segs[p].id == *segment_id);
            assert(self.buffer.has_line(line));
            assert(self.buffer.line_index_spec(line) == li);
            assert(self.buffer.line_has_segment(li, *segment_id));
            assert(self.buffer.seg_index_spec(li, *segment_id) == p) by {
                let w = self.buffer.seg_index_spec(li, *segment_id);
                assert(0 <= w < m.lines[li].segs.len() && m.lines[li].segs[w].id == *segment_id);
                assert(w == p);
            }
        }
        self.buffer.set_segment_text(line, *segment_id, text);
        proof {
            let post = self.model();
            assert(post.elems =~= m.elems);
            assert(post.recs =~~= m.recs);
            lemma_reskin_wf(m, post);
        }
    }

    /// Set the styling of one of the element's own inline segments.
    #[verifier::rlimit(100)]
    pub fn set_segment_style(
        &mut self,
        element_id: &ElementId,
        segment_id: &SegmentId,
        style: Option<Style>,
    )
        requires
            old(self).wf(),
            old(self).model().has_elem(*element_id),
            old(self).model().has_seg(old(self).model().index_of(*element_id), *segment_id),
        ensures
            final(self).wf(),
            final(self).cursor == old(self).cursor,
            final(self).model().elems == old(self).model().elems,
            final(self).model().recs == old(self).model().recs,
            final(self).model().next_line == old(self).model().next_line,
            final(self).model().next_segment == old(self).model().next_segment,
            final(self).model().lines == old(self).model().lines.update(
                old(self).model().line_of(old(self).model().index_of(*element_id)),
                LineModel {
                    id: old(self).model().inline(old(self).model().index_of(*element_id)),
                    segs: old(self).model().lines[old(self).model().line_of(
                        old(self).model().index_of(*element_id),
                    )].segs.update(
                        old(self).model().run_offset(old(self).model().index_of(*element_id))
                            + old(self).model().seg_rel(
                            old(self).model().index_of(*element_id),
                            *segment_id,
                        ),
                        SegModel {
                            id: *segment_id,
                            text: old(self).model().lines[old(self).model().line_of(
                                old(self).model().index_of(*element_id),
                            )].segs[old(self).model().run_offset(
                                old(self).model().index_of(*element_id),
                            ) + old(self).model().seg_rel(
                                old(self).model().index_of(*element_id),
                                *segment_id,
                            )].text,
                            style: style,
                        },
                    ),
                },
            ),
    {
        let ghost m = old(self).model();
        let idx = self.find_element(element_id);
        let ghost ki = idx as int;
        let rel = self.seg_position(idx, segment_id);
        let line = self.elements[idx].1.inline_line_id;
        let ghost li = m.line_of(ki);
        let ghost p = m.run_offset(ki) + rel;
        proof {
            lemma_run_offset_nonneg(m, ki);
            assert(has_line_id(m.lines, m.inline(ki)));
            assert(0 <= li < m.lines.len() && m.lines[li].id == m.inline(ki));
            assert(m.run_offset(ki) + m.recs[ki].segments.len() <= m.lines[li].segs.len());
            assert(m.lines[li].segs[p].id == *segment_id);
            assert(self.buffer.has_line(line));
            assert(self.buffer.line_index_spec(line) == li);
            assert(self.buffer.line_has_segment(li, *segment_id));
            assert(self.buffer.seg_index_spec(li, *segment_id) == p) by {
                let w = self.buffer.seg_index_spec(li, *segment_id);
                assert(0 <= w < m.lines[li].segs.len() && m.lines[li].segs[w].id == *segment_id);
                assert(w == p);
            }
        }
        self.buffer.set_segment_style(line, *segment_id, style);
        proof {
            let post = self.model();
            assert(post.elems =~= m.elems);
            assert(post.recs =~~= m.recs);
            lemma_reskin_wf(m, post);
        }
    }

    /// The text of one of the element's own inline segments.
    pub fn get_segment_text(&self, element_id: &ElementId, segment_id: &SegmentId) -> (r: String)
        requires
            self.wf(),
            self.model().has_elem(*element_id),
            self.model().has_seg(self.model().index_of(*element_id), *segment_id),
        ensures
            r@ == self.model().lines[self.model().line_of(self.model().index_of(
                *element_id,
            ))].segs[self.model().run_offset(self.model().index_of(*element_id))
                + self.model().seg_rel(self.model().index_of(*element_id), *segment_id)].text,
    {
        let ghost m = self.model();
        let idx = self.find_element(element_id);
        let ghost ki = idx as int;
        let rel = self.seg_position(idx, segment_id);
        let line = self.elements[idx].1.inline_line_id;
        let ghost li = m.line_of(ki);
        let ghost p = m.run_offset(ki) + rel;
        proof {
            lemma_run_offset_nonneg(m, ki);
            assert(has_line_id(m.lines, m.inline(ki)));
            assert(0 <= li < m.lines.len() && m.lines[li].id == m.inline(ki));
            assert(m.run_offset(ki) + m.recs[ki].segments.len() <= m.lines[li].segs.len());
            assert(m.lines[li].segs[p].id == *segment_id);
            assert(self.buffer.has_line(line));
            assert(self.buffer.line_index_spec(line) == li);
            assert(self.buffer.line_has_segment(li, *segment_id));
            assert(self.buffer.seg_index_spec(li, *segment_id) == p) by {
                let w = self.buffer.seg_index_spec(li, *segment_id);
                assert(0 <= w < m.lines[li].segs.len() && m.lines[li].segs[w].id == *segment_id);
                assert(w == p);
            }
        }
        self.buffer.get_segment_text(line, *segment_id)
    }

    /// Stage the cursor's relative position for the next paint.
    pub fn set_cursor(&mut self, cursor: RelativePosition)
        ensures
            final(self).model() == old(self).model(),
            final(self).cursor == Some(cursor),
    {
        self.cursor = Some(cursor);
    }

    /// Hide the cursor on the next paint.
    pub fn hide_cursor(&mut self)
        ensures
            final(self).model() == old(self).model(),
            final(self).cursor == None::<RelativePosition>,
    {
        self.cursor = None;
    }

    /// The absolute buffer row index just past the element's section: the
    /// sum, over all elements up to and including it, of one row per
    /// distinct inline line encountered plus that element's block lines.
    #[verifier::loop_isolation(false)]
    #[verifier::rlimit(100)]
    pub fn get_element_line_index(&self, element_id: &ElementId) -> (r: usize)
        requires
            self.wf(),
            self.model().has_elem(*element_id),
        ensures
            r == self.model().layout_to(self.model().index_of(*element_id) + 1).len(),
    {
        let ghost m = self.model();
        let idx = self.find_element(element_id);
        let mut count: usize = 0;
        let mut k: usize = 0;
        proof {
            vstd::std_specs::vec::axiom_spec_len(&self.buffer.lines);
            vstd::std_specs::vec::axiom_spec_len(&self.elements);
        }
        while k <= idx
            invariant
                k <= idx + 1,
                count == m.layout_to(k as int).len(),
            decreases idx + 1 - k,
        {
            proof {
                lemma_layout_prefix(m, k as int + 1, m.n());
                assert(m.layout_to(m.n()).len() == ids_of(m.lines).len());
                assert(m.layout_to(k as int + 1).len() <= m.lines.len());
                assert(m.lines.len() == self.buffer.lines@.len());
            }
            if k == 0 || !(self.elements[k].1.inline_line_id == self.elements[k - 1].1.inline_line_id) {
                proof {
                    assert(m.group_start(k as int));
                }
                count = count + 1;
            } else {
                proof {
                    assert(!m.group_start(k as int));
                }
            }
            count = count + self.elements[k].1.block_line_ids.len();
            proof {
                assert(m.layout_to(k as int + 1) == m.layout_to(k as int) + (
                if m.group_start(k as int) {
                    seq![m.inline(k as int)]
                } else {
                    Seq::empty()
                }) + m.recs[k as int].block_lines);
            }
            k = k + 1;
        }
        count
    }

    /// The identifiers of the element's own block lines, in order.
    #[verifier::loop_isolation(false)]
    pub fn lines(&self, element_id: &ElementId) -> (r: Vec<LineId>)
        requires
            self.wf(),
            self.model().has_elem(*element_id),
        ensures
            r@ == self.model().recs[self.model().index_of(*element_id)].block_lines,
    {
        let ghost m = self.model();
        let idx = self.find_element(element_id);
        let ghost ki = idx as int;
        let blocks = &self.elements[idx].1.block_line_ids;
        let mut out: Vec<LineId> = Vec::new();
        let mut k: usize = 0;
        while k < blocks.len()
            invariant
                blocks == self.elements@[ki].1.block_line_ids,
                k <= m.recs[ki].block_lines.len(),
                out@.len() == k,
                forall|j: int| 0 <= j < k ==> out@[j] == m.recs[ki].block_lines[j],
            decreases m.recs[ki].block_lines.len() - k,
        {
            out.push(blocks[k]);
            k = k + 1;
        }
        proof {
            assert(out@ =~= m.recs[ki].block_lines);
        }
        out
    }

    /// Split the element's inline line if group members follow it there: a
    /// fresh line is inserted immediately after it, the segments past the
    /// element's own run move to the fresh line in order, and the
    /// subsequent members are re-registered on the fresh line. A no-op when
    /// the element already closes its group.
    #[verifier::loop_isolation(false)]
    #[verifier::rlimit(100)]
    #[verifier::spinoff_prover]
    pub fn try_inline_split(&mut self, element_id: &ElementId)
        requires
            old(self).wf(),
            old(self).model().has_elem(*element_id),
            old(self).model().next_line < u64::MAX,
        ensures
            final(self).wf(),
            final(self).cursor == old(self).cursor,
            old(self).model().group_end(old(self).model().index_of(*element_id))
                ==> *final(self) == *old(self),
            !old(self).model().group_end(old(self).model().index_of(*element_id))
                ==> final(self).model() == old(self).model().with_group_split(
                old(self).model().index_of(*element_id),
            ),
    {
        let ghost m = old(self).model();
        let idx = self.find_element(element_id);
        let ghost ki = idx as int;
        proof {
            vstd::std_specs::vec::axiom_spec_len(&self.elements);
        }
        if idx + 1 >= self.elements.len() || !(
        self.elements[idx + 1].1.inline_line_id == self.elements[idx].1.inline_line_id) {
            proof {
                assert(m.group_end(ki));
            }
            return ;
        }
        proof {
            assert(!m.group_end(ki));
        }
        let off = self.run_offset_at(idx);
        let own = self.elements[idx].1.segment_ids.len();
        let line = self.elements[idx].1.inline_line_id;
        let ghost gli = m.line_of(ki);
        let ghost nid = m.next_line_id();
        proof {
            lemma_run_offset_nonneg(m, ki);
            assert(has_line_id(m.lines, m.inline(ki)));
            assert(0 <= gli < m.lines.len() && m.lines[gli].id == line);
            assert(m.run_offset(ki) + m.recs[ki].segments.len() <= m.lines[gli].segs.len());
            assert(m.lines[gli].segs.len() == self.buffer.lines@[gli].segments@.len());
            vstd::std_specs::vec::axiom_spec_len(&self.buffer.lines@[gli].segments);
            vstd::std_specs::vec::axiom_spec_len(&self.buffer.lines);
        }
        let b = off + own;
        let li = self.buffer.get_line_index(line);
        let new_line_id = self.buffer.insert_line(li + 1);
        proof {
            assert(new_line_id == nid);
            assert(self.buffer.model() =~~= m.lines.insert(
                li + 1,
                LineModel { id: nid, segs: Seq::empty() },
            ));
            assert(self.buffer.model()[gli].id == line);
            assert(self.buffer.has_line(line));
            assert(self.buffer.line_index_spec(line) == gli) by {
                let w = self.buffer.line_index_spec(line);
                assert(0 <= w < self.buffer.model().len() && self.buffer.model()[w].id == line);
                assert(w == gli);
            }
            assert(self.buffer.model()[li + 1].id == nid);
            assert(self.buffer.has_line(nid));
            assert(self.buffer.line_index_spec(nid) == li + 1) by {
                let w = self.buffer.line_index_spec(nid);
                assert(0 <= w < self.buffer.model().len() && self.buffer.model()[w].id == nid);
                assert(w == li + 1);
            }
        }
        // move every segment past the element's run onto the fresh line
        let ghost orig_segs = m.lines[gli].segs;
        self.buffer.move_tail(line, new_line_id, b);
        proof {
            assert(self.buffer.model() =~~= m.lines.update(
                gli,
                (LineModel { id: line, segs: orig_segs.take(b as int) }),
            ).insert(li + 1, (LineModel { id: nid, segs: orig_segs.skip(b as int) })));
        }
        // re-register the subsequent members on the fresh line
        let ghost bsnap = self.buffer;
        let mut k2 = idx + 1;
        while k2 < self.elements.len() && self.elements[k2].1.inline_line_id == line
            invariant
                idx + 1 <= k2 <= m.n(),
                self.buffer == bsnap,
                self.cursor == old(self).cursor,
                self.model().elems =~= m.elems,
                self.model().recs.len() == m.recs.len(),
                forall|i: int|
                    0 <= i < m.n() && !(idx + 1 <= i < k2) ==> #[trigger] self.model().recs[i]
                        == m.recs[i],
                forall|i: int|
                    idx + 1 <= i < k2 ==> #[trigger] self.model().recs[i] == (RecordModel {
                        inline_line: nid,
                        segments: m.recs[i].segments,
                        block_lines: m.recs[i].block_lines,
                    }),
                forall|i: int| idx + 1 <= i < k2 ==> #[trigger] m.inline(i) == line,
            decreases m.n() - k2,
        {
            let ghost before = self.model();
            proof {
                assert(before.recs[k2 as int] == m.recs[k2 as int]);
                assert(before.recs[k2 as int].inline_line == self.elements@[k2 as int].1.inline_line_id);
                assert(m.inline(k2 as int) == line);
            }
            let mut entry = self.elements.remove(k2);
            entry.1.inline_line_id = new_line_id;
            self.elements.insert(k2, entry);
            proof {
                let cur = self.model();
                assert(cur.elems =~= before.elems);
                assert forall|i: int|
                    0 <= i < m.n() && i != k2 implies #[trigger] cur.recs[i] == before.recs[i] by {
                    assert(cur.recs[i] == before.recs[i]);
                }
                assert(cur.recs[k2 as int] =~~= (RecordModel {
                    inline_line: nid,
                    segments: m.recs[k2 as int].segments,
                    block_lines: m.recs[k2 as int].block_lines,
                }));
            }
            k2 = k2 + 1;
        }
        proof {
            let post = self.model();
            if (k2 as int) < m.n() {
                assert(post.recs[k2 as int] == m.recs[k2 as int]);
                assert(post.recs[k2 as int].inline_line == self.elements@[k2 as int].1.inline_line_id);
                assert(m.inline(k2 as int) != line);
            }
            assert forall|i: int| k2 <= i < m.n() implies #[trigger] m.inline(i) != line by {
                if m.inline(i) == line {
                    assert(ki + 1 <= k2 as int <= i);
                    assert(m.inline(ki + 1) == line);
                    assert(m.inline(k2 as int) == m.inline(ki + 1));
                }
            }
            assert(post.elems =~= m.with_group_split(ki).elems);
            assert(post.recs =~~= m.with_group_split(ki).recs);
            assert(post.lines =~~= m.with_group_split(ki).lines);
            assert(post =~~= m.with_group_split(ki));
            lemma_split_wf(m, post, ki);
        }
    }

    /// Give the element a fresh private block line at the given relative
    /// index of its section, splitting its inline line first if it still
    /// shares it with later group members. Returns the fresh identifier.
    #[verifier::rlimit(100)]
    #[verifier::spinoff_prover]
    pub fn insert_line(&mut self, element_id: &ElementId, index: usize) -> (r: LineId)
        requires
            old(self).wf(),
            old(self).model().has_elem(*element_id),
            index <= old(self).model().recs[old(self).model().index_of(
                *element_id,
            )].block_lines.len(),
            old(self).model().next_line + 1 < u64::MAX,
        ensures
            final(self).wf(),
            final(self).cursor == old(self).cursor,
            r == old(self).model().add_line_result(old(self).model().index_of(*element_id)),
            final(self).model() == old(self).model().after_insert_line(
                old(self).model().index_of(*element_id),
                index as int,
            ),
    {
        let ghost m = old(self).model();
        let idx = self.find_element(element_id);
        let ghost ki = idx as int;
        if self.elements[idx].1.block_line_ids.len() == 0 {
            self.try_inline_split(element_id);
        }
        let ghost m1 = self.model();
        proof {
            assert(m1.wf());
            assert(m1.elems == m.elems);
            assert(m1.index_of(*element_id) == ki) by {
                assert(m1.elems[ki] == *element_id);
                let w = m1.index_of(*element_id);
                assert(0 <= w < m1.n() && m1.elems[w] == *element_id);
                if w != ki {
                    if w < ki {
                        assert(id_lt(m1.elems[w], m1.elems[ki]));
                    } else {
                        assert(id_lt(m1.elems[ki], m1.elems[w]));
                    }
                }
            }
            assert(m1.group_end(ki)) by {
                if m.recs[ki].block_lines.len() == 0 {
                    if m.group_end(ki) {
                        assert(m1 == m);
                    } else {
                        assert(m1 == m.with_group_split(ki));
                        assert(m1.inline(ki + 1) == m.next_line_id());
                        assert(m1.inline(ki) == m.inline(ki));
                        assert(has_line_id(m.lines, m.inline(ki)));
                        let w = m.line_of(ki);
                        assert(0 <= w < m.lines.len() && m.lines[w].id == m.inline(ki));
                        assert(m.inline(ki).0 < m.next_line);
                    }
                } else {
                    assert(m.recs[ki].block_lines.len() > 0);
                    assert(m.group_end(ki));
                    assert(m1 == m);
                }
            }
            assert(m1.recs[ki].block_lines == m.recs[ki].block_lines);
            assert(m1.next_line < u64::MAX);
        }
        let blocks_len = self.elements[idx].1.block_line_ids.len();
        let pos: usize;
        if blocks_len > 0 {
            let last = self.elements[idx].1.block_line_ids[blocks_len - 1];
            proof {
                lemma_block_line_index(m1, ki, blocks_len as int - 1);
                vstd::std_specs::vec::axiom_spec_len(&self.buffer.lines);
            }
            let last_index = self.buffer.get_line_index(last);
            pos = last_index + 1 - blocks_len + index;
            proof {
                assert(pos as int == m1.block_position(ki, index as int));
            }
        } else {
            proof {
                lemma_group_first(m1, ki);
                lemma_layout_group(m1, ki);
                assert(m1.layout_to(ki + 1) == m1.layout_to(ki) + (if m1.group_start(ki) {
                    seq![m1.inline(ki)]
                } else {
                    Seq::empty()
                }) + m1.recs[ki].block_lines);
                vstd::std_specs::vec::axiom_spec_len(&self.buffer.lines);
            }
            pos = self.get_element_line_index(element_id);
            proof {
                assert(pos as int == m1.layout_to(ki + 1).len());
                assert(pos as int == m1.block_position(ki, 0));
                assert(index == 0);
            }
        }
        proof {
            lemma_group_first(m1, ki);
            lemma_layout_group(m1, ki);
            lemma_layout_prefix(m1, ki + 1, m1.n());
            assert(m1.layout_to(m1.n()).len() == ids_of(m1.lines).len());
            assert(pos as int <= m1.lines.len());
        }
        let r = self.buffer.insert_line(pos);
        let mut entry = self.elements.remove(idx);
        entry.1.block_line_ids.insert(index, r);
        self.elements.insert(idx, entry);
        proof {
            let post = self.model();
            assert(r == m1.next_line_id());
            assert(post.elems =~= m1.elems);
            assert(post.recs =~~= m1.recs.update(
                ki,
                RecordModel {
                    inline_line: m1.inline(ki),
                    segments: m1.recs[ki].segments,
                    block_lines: m1.recs[ki].block_lines.insert(index as int, m1.next_line_id()),
                },
            ));
            assert(post.lines =~~= m1.lines.insert(
                m1.block_position(ki, index as int),
                LineModel { id: m1.next_line_id(), segs: Seq::empty() },
            ));
            assert(post =~~= m1.with_block_inserted(ki, index as int));
            lemma_insert_block_wf(m1, post, ki, index as int);
            assert(post == m.after_insert_line(ki, index as int));
            assert(r == m.add_line_result(ki));
        }
        r
    }

    /// Append a fresh private block line to the element's section,
    /// splitting its inline line first if it still shares it with later
    /// group members. Returns the fresh identifier.
    pub fn add_line(&mut self, element_id: &ElementId) -> (r: LineId)
        requires
            old(self).wf(),
            old(self).model().has_elem(*element_id),
            old(self).model().next_line + 1 < u64::MAX,
        ensures
            final(self).wf(),
            final(self).cursor == old(self).cursor,
            r == old(self).model().add_line_result(old(self).model().index_of(*element_id)),
            final(self).model() == old(self).model().after_add_line(
                old(self).model().index_of(*element_id),
            ),
    {
        let idx = self.find_element(element_id);
        let len = self.elements[idx].1.block_line_ids.len();
        self.insert_line(element_id, len)
    }

    /// Join the inline-line group that begins on the buffer line
    /// immediately following the element's collapsed section back onto the
    /// element's own line: its segments move over in order, its line is
    /// removed, and its members are reparented. A no-op when no line
    /// follows the section.
    #[verifier::loop_isolation(false)]
    #[verifier::rlimit(100)]
    #[verifier::spinoff_prover]
    pub fn try_inline_join(&mut self, element_id: &ElementId)
        requires
            old(self).wf(),
            old(self).model().has_elem(*element_id),
            old(self).model().recs[old(self).model().index_of(
                *element_id,
            )].block_lines.len() == 0,
            old(self).model().group_end(old(self).model().index_of(*element_id)),
        ensures
            final(self).wf(),
            final(self).cursor == old(self).cursor,
            old(self).model().index_of(*element_id) == old(self).model().n() - 1 ==> *final(self)
                == *old(self),
            old(self).model().index_of(*element_id) < old(self).model().n() - 1
                ==> final(self).model() == old(self).model().with_groups_joined(
                old(self).model().index_of(*element_id),
            ),
    {
        let ghost m = old(self).model();
        let idx = self.find_element(element_id);
        let ghost ki = idx as int;
        proof {
            vstd::std_specs::vec::axiom_spec_len(&self.elements);
        }
        if idx + 1 >= self.elements.len() {
            return ;
        }
        let line = self.elements[idx].1.inline_line_id;
        let after = self.elements[idx + 1].1.inline_line_id;
        let ghost li = m.line_of(ki);
        let ghost li2 = m.line_of(ki + 1);
        proof {
            assert(m.inline(ki + 1) != m.inline(ki));
            assert(has_line_id(m.lines, m.inline(ki)));
            assert(0 <= li < m.lines.len() && m.lines[li].id == line);
            assert(has_line_id(m.lines, m.inline(ki + 1)));
            assert(0 <= li2 < m.lines.len() && m.lines[li2].id == after);
            assert(li != li2);
            assert(self.buffer.line_index_spec(line) == li);
            assert(self.buffer.line_index_spec(after) == li2);
        }
        let ghost lsegs = m.lines[li].segs;
        let ghost asegs = m.lines[li2].segs;
        self.buffer.move_tail(after, line, 0);
        proof {
            assert(asegs.skip(0) =~= asegs);
            assert(self.buffer.model() =~~= m.lines.update(
                li2,
                (LineModel { id: after, segs: asegs.take(0) }),
            ).update(li, (LineModel { id: line, segs: lsegs + asegs })));
            assert(self.buffer.has_line(after)) by {
                assert(self.buffer.model()[li2].id == after);
            }
            assert(self.buffer.line_index_spec(after) == li2) by {
                let w = self.buffer.line_index_spec(after);
                assert(0 <= w < self.buffer.model().len() && self.buffer.model()[w].id == after);
                assert(w == li2);
            }
        }
        self.buffer.remove_line(after);
        proof {
            assert(self.buffer.model() =~~= m.lines.update(
                li,
                (LineModel { id: line, segs: lsegs + asegs }),
            ).remove(li2));
        }
        // re-register the joined group's members on the element's line
        let ghost bsnap = self.buffer;
        let mut k2 = idx + 1;
        while k2 < self.elements.len() && self.elements[k2].1.inline_line_id == after
            invariant
                idx + 1 <= k2 <= m.n(),
                self.buffer == bsnap,
                self.cursor == old(self).cursor,
                self.model().elems =~= m.elems,
                self.model().recs.len() == m.recs.len(),
                forall|i: int|
                    0 <= i < m.n() && !(idx + 1 <= i < k2) ==> #[trigger] self.model().recs[i]
                        == m.recs[i],
                forall|i: int|
                    idx + 1 <= i < k2 ==> #[trigger] self.model().recs[i] == (RecordModel {
                        inline_line: line,
                        segments: m.recs[i].segments,
                        block_lines: m.recs[i].block_lines,
                    }),
                forall|i: int| idx + 1 <= i < k2 ==> #[trigger] m.inline(i) == after,
            decreases m.n() - k2,
        {
            let ghost before = self.model();
            proof {
                assert(before.recs[k2 as int] == m.recs[k2 as int]);
                assert(before.recs[k2 as int].inline_line == self.elements@[k2 as int].1.inline_line_id);
                assert(m.inline(k2 as int) == after);
            }
            let mut entry = self.elements.remove(k2);
            entry.1.inline_line_id = line;
            self.elements.insert(k2, entry);
            proof {
                let cur = self.model();
                assert(cur.elems =~= before.elems);
                assert forall|i: int|
                    0 <= i < m.n() && i != k2 implies #[trigger] cur.recs[i] == before.recs[i] by {
                    assert(cur.recs[i] == before.recs[i]);
                }
                assert(cur.recs[k2 as int] =~~= (RecordModel {
                    inline_line: line,
                    segments: m.recs[k2 as int].segments,
                    block_lines: m.recs[k2 as int].block_lines,
                }));
            }
            k2 = k2 + 1;
        }
        proof {
            let post = self.model();
            if (k2 as int) < m.n() {
                assert(post.recs[k2 as int] == m.recs[k2 as int]);
                assert(post.recs[k2 as int].inline_line == self.elements@[k2 as int].1.inline_line_id);
                assert(m.inline(k2 as int) != after);
            }
            assert forall|i: int| k2 <= i < m.n() implies #[trigger] m.inline(i) != after by {
                if m.inline(i) == after {
                    assert(ki + 1 <= k2 as int <= i);
                    assert(m.inline(ki + 1) == after);
                    assert(m.inline(k2 as int) == m.inline(ki + 1));
                }
            }
            assert(post.elems =~= m.with_groups_joined(ki).elems);
            assert(post.recs =~~= m.with_groups_joined(ki).recs);
            assert(post.lines =~~= m.with_groups_joined(ki).lines);
            assert(post =~~= m.with_groups_joined(ki));
            lemma_join_wf(m, post, ki);
        }
    }

    /// Whether the element owns the given block line, and its index within
    /// the element's block lines.
    #[verifier::loop_isolation(false)]
    #[verifier::rlimit(100)]
    fn block_rel(&self, idx: usize, line_id: &LineId) -> (r: usize)
        requires
            self.wf(),
            idx < self.model().n(),
            self.model().has_block(idx as int, *line_id),
        ensures
            r < self.model().recs[idx as int].block_lines.len(),
            self.model().recs[idx as int].block_lines[r as int] == *line_id,
    {
        let ghost m = self.model();
        let ghost ki = idx as int;
        let n = self.elements[idx].1.block_line_ids.len();
        let mut rel: usize = 0;
        while rel < n
            invariant
                rel <= n,
                forall|j: int| 0 <= j < rel ==> m.recs[ki].block_lines[j] != *line_id,
            decreases n - rel,
        {
            if self.elements[idx].1.block_line_ids[rel].0 == line_id.0 {
                proof {
                    assert(m.recs[ki].block_lines[rel as int] == *line_id);
                }
                return rel;
            }
            rel = rel + 1;
        }
        proof {
            let w = choose|j: int|
                0 <= j < m.recs[ki].block_lines.len() && m.recs[ki].block_lines[j] == *line_id;
            assert(0 <= w < m.recs[ki].block_lines.len() && m.recs[ki].block_lines[w]
                == *line_id);
            assert(false);
        }
        unreached()
    }

    /// Release the element's block line at the given relative index. If
    /// this releases the element's last block line and another group
    /// follows, the following group is joined back onto the element's line.
    #[verifier::rlimit(100)]
    #[verifier::spinoff_prover]
    pub fn remove_line_at(&mut self, element_id: &ElementId, index: usize)
        requires
            old(self).wf(),
            old(self).model().has_elem(*element_id),
            index < old(self).model().recs[old(self).model().index_of(
                *element_id,
            )].block_lines.len(),
        ensures
            final(self).wf(),
            final(self).cursor == old(self).cursor,
            final(self).model() == old(self).model().after_remove_line(
                old(self).model().index_of(*element_id),
                index as int,
            ),
    {
        let ghost m = old(self).model();
        let idx = self.find_element(element_id);
        let ghost ki = idx as int;
        let was_single = self.elements[idx].1.block_line_ids.len() == 1;
        let target = self.elements[idx].1.block_line_ids[index];
        proof {
            lemma_block_line_index(m, ki, index as int);
        }
        self.buffer.remove_line(target);
        let mut entry = self.elements.remove(idx);
        entry.1.block_line_ids.remove(index);
        self.elements.insert(idx, entry);
        let ghost m1 = m.with_block_removed(ki, index as int);
        proof {
            let post1 = self.model();
            assert(post1.elems =~= m.elems);
            assert(post1.recs =~~= m1.recs);
            assert(post1.lines =~~= m1.lines);
            assert(post1 =~~= m1);
            lemma_remove_block_wf(m, post1, ki, index as int);
            assert(self.model() == m1);
            assert(m1.wf());
        }
        if was_single {
            proof {
                assert(m.group_end(ki)) by {
                    assert(m.recs[ki].block_lines.len() > 0);
                }
                assert(m1.group_end(ki)) by {
                    assert(m1.inline(ki) == m.inline(ki));
                    if ki < m.n() - 1 {
                        assert(m1.inline(ki + 1) == m.inline(ki + 1));
                    }
                }
                assert(m1.recs[ki].block_lines.len() == 0);
                assert(m1.has_elem(*element_id)) by {
                    assert(m1.elems[ki] == *element_id);
                }
                assert(m1.index_of(*element_id) == ki) by {
                    let w = m1.index_of(*element_id);
                    assert(0 <= w < m1.n() && m1.elems[w] == *element_id);
                    if w < ki {
                        assert(id_lt(m1.elems[w], m1.elems[ki]));
                    }
                    if w > ki {
                        assert(id_lt(m1.elems[ki], m1.elems[w]));
                    }
                }
            }
            self.try_inline_join(element_id);
        }
        proof {
            assert(self.model() == m.after_remove_line(ki, index as int));
        }
    }

    /// Release the specified block line from the element. If this releases
    /// the element's last block line and another group follows, the
    /// following group is joined back onto the element's line.
    pub fn remove_line(&mut self, element_id: &ElementId, line_id: &LineId)
        requires
            old(self).wf(),
            old(self).model().has_elem(*element_id),
            old(self).model().has_block(old(self).model().index_of(*element_id), *line_id),
        ensures
            final(self).wf(),
            final(self).cursor == old(self).cursor,
            exists|brel: int|
                0 <= brel < old(self).model().recs[old(self).model().index_of(
                    *element_id,
                )].block_lines.len() && old(self).model().recs[old(self).model().index_of(
                    *element_id,
                )].block_lines[brel] == *line_id && final(self).model() == old(self).model().after_remove_line(old(self).model().index_of(*element_id), brel),
    {
        let idx = self.find_element(element_id);
        let rel = self.block_rel(idx, line_id);
        self.remove_line_at(element_id, rel);
    }

    /// Append a fresh segment to one of the element's own block lines, and
    /// return its identifier. Block-line content belongs to the element
    /// alone; the inline bookkeeping never reads it.
    #[verifier::rlimit(100)]
    #[verifier::spinoff_prover]
    pub fn add_block_segment(&mut self, element_id: &ElementId, line_id: &LineId) -> (r: SegmentId)
        requires
            old(self).wf(),
            old(self).model().has_elem(*element_id),
            old(self).model().has_block(old(self).model().index_of(*element_id), *line_id),
            old(self).model().next_segment < u64::MAX,
        ensures
            final(self).wf(),
            final(self).cursor == old(self).cursor,
            r.0 == old(self).model().next_segment,
            final(self).model().elems == old(self).model().elems,
            final(self).model().recs == old(self).model().recs,
            final(self).model().next_line == old(self).model().next_line,
            final(self).model().next_segment == old(self).model().next_segment + 1,
            final(self).model().lines == old(self).model().lines.update(
                index_of_line(old(self).model().lines, *line_id),
                (LineModel {
                    id: *line_id,
                    segs: old(self).model().lines[index_of_line(
                        old(self).model().lines,
                        *line_id,
                    )].segs.push(SegModel { id: r, text: Seq::empty(), style: None }),
                }),
            ),
    {
        let ghost m = old(self).model();
        let idx = self.find_element(element_id);
        let ghost ki = idx as int;
        let ghost brel = choose|j: int|
            0 <= j < m.recs[ki].block_lines.len() && m.recs[ki].block_lines[j] == *line_id;
        proof {
            assert(0 <= brel < m.recs[ki].block_lines.len() && m.recs[ki].block_lines[brel]
                == *line_id);
            lemma_block_line_index(m, ki, brel);
            lemma_block_not_inline(m, ki, brel);
            let w = index_of_line(m.lines, *line_id);
            assert(m.lines[w].segs.len() == self.buffer.lines@[w].segments@.len());
            vstd::std_specs::vec::axiom_spec_len(&self.buffer.lines@[w].segments);
        }
        let count = self.buffer.segment_count(*line_id);
        let sid = self.buffer.insert_segment(*line_id, count);
        proof {
            let w = index_of_line(m.lines, *line_id);
            let post = self.model();
            assert(post.elems =~= m.elems);
            assert(post.recs =~~= m.recs);
            assert(post.lines =~~= m.lines.update(
                w,
                (LineModel {
                    id: *line_id,
                    segs: m.lines[w].segs.push(SegModel { id: sid, text: Seq::empty(), style: None }),
                }),
            ));
            lemma_append_foreign_segment_wf(m, post, w, sid);
        }
        sid
    }

    /// Set the text of a segment on one of the element's own block lines.
    #[verifier::rlimit(100)]
    #[verifier::spinoff_prover]
    pub fn set_block_segment_text(
        &mut self,
        element_id: &ElementId,
        line_id: &LineId,
        segment_id: &SegmentId,
        text: &str,
    )
        requires
            old(self).wf(),
            old(self).model().has_elem(*element_id),
            old(self).model().has_block(old(self).model().index_of(*element_id), *line_id),
            line_has_seg(
                old(self).model().lines[index_of_line(old(self).model().lines, *line_id)],
                *segment_id,
            ),
        ensures
            final(self).wf(),
            final(self).cursor == old(self).cursor,
            final(self).model().elems == old(self).model().elems,
            final(self).model().recs == old(self).model().recs,
            final(self).model().next_line == old(self).model().next_line,
            final(self).model().next_segment == old(self).model().next_segment,
            final(self).model().lines == old(self).model().lines.update(
                index_of_line(old(self).model().lines, *line_id),
                (LineModel {
                    id: *line_id,
                    segs: old(self).model().lines[index_of_line(
                        old(self).model().lines,
                        *line_id,
                    )].segs.update(
                        index_of_seg(
                            old(self).model().lines[index_of_line(
                                old(self).model().lines,
                                *line_id,
                            )],
                            *segment_id,
                        ),
                        (SegModel {
                            id: *segment_id,
                            text: text@,
                            style: old(self).model().lines[index_of_line(
                                old(self).model().lines,
                                *line_id,
                            )].segs[index_of_seg(
                                old(self).model().lines[index_of_line(
                                    old(self).model().lines,
                                    *line_id,
                                )],
                                *segment_id,
                            )].style,
                        }),
                    ),
                }),
            ),
    {
        let ghost m = old(self).model();
        let idx = self.find_element(element_id);
        let ghost ki = idx as int;
        let ghost brel = choose|j: int|
            0 <= j < m.recs[ki].block_lines.len() && m.recs[ki].block_lines[j] == *line_id;
        proof {
            assert(0 <= brel < m.recs[ki].block_lines.len() && m.recs[ki].block_lines[brel]
                == *line_id);
            lemma_block_line_index(m, ki, brel);
        }
        self.buffer.set_segment_text(*line_id, *segment_id, text);
        proof {
            let post = self.model();
            assert(post.elems =~= m.elems);
            assert(post.recs =~~= m.recs);
            lemma_reskin_wf(m, post);
        }
    }

    /// The text of a segment on one of the element's own block lines.
    pub fn get_block_segment_text(
        &self,
        element_id: &ElementId,
        line_id: &LineId,
        segment_id: &SegmentId,
    ) -> (r: String)
        requires
            self.wf(),
            self.model().has_elem(*element_id),
            self.model().has_block(self.model().index_of(*element_id), *line_id),
            line_has_seg(
                self.model().lines[index_of_line(self.model().lines, *line_id)],
                *segment_id,
            ),
        ensures
            r@ == self.model().lines[index_of_line(self.model().lines, *line_id)].segs[
                index_of_seg(
                self.model().lines[index_of_line(self.model().lines, *line_id)],
                *segment_id,
            )].text,
    {
        let ghost m = self.model();
        let idx = self.find_element(element_id);
        let ghost ki = idx as int;
        let ghost brel = choose|j: int|
            0 <= j < m.recs[ki].block_lines.len() && m.recs[ki].block_lines[j] == *line_id;
        proof {
            assert(0 <= brel < m.recs[ki].block_lines.len() && m.recs[ki].block_lines[brel]
                == *line_id);
            lemma_block_line_index(m, ki, brel);
        }
        self.buffer.get_segment_text(*line_id, *segment_id)
    }

    /// Append to the element's section a fresh private block line holding
    /// one segment with the given text, splitting the inline line first if
    /// needed. Every line the buffer already had, other than the element's
    /// own inline line, keeps its content, and the element's own run stays
    /// in place.
    #[verifier::rlimit(100)]
    #[verifier::spinoff_prover]
    pub fn append_block_row(&mut self, element_id: &ElementId, text: &str) -> (r: (LineId, SegmentId))
        requires
            old(self).wf(),
            old(self).model().has_elem(*element_id),
            old(self).model().next_line + 2 < u64::MAX,
            old(self).model().next_segment < u64::MAX,
        ensures
            final(self).wf(),
            final(self).cursor == old(self).cursor,
            final(self).model().elems == old(self).model().elems,
            final(self).model().recs[old(self).model().index_of(*element_id)].block_lines == old(self).model().recs[old(self).model().index_of(*element_id)].block_lines.push(r.0),
            final(self).model().recs[old(self).model().index_of(*element_id)].segments == old(self).model().recs[old(self).model().index_of(*element_id)].segments,
            final(self).model().recs[old(self).model().index_of(*element_id)].inline_line == old(self).model().recs[old(self).model().index_of(*element_id)].inline_line,
            final(self).model().row_holds(r.0, r.1, text@),
            forall|i: int|
                0 <= i < old(self).model().n() && i != old(self).model().index_of(*element_id)
                    ==> #[trigger] final(self).model().recs[i].segments == old(self).model().recs[i].segments
                    && final(self).model().recs[i].block_lines == old(self).model().recs[i].block_lines,
            old(self).model().lines_kept_except(
                final(self).model(),
                old(self).model().inline(old(self).model().index_of(*element_id)),
            ),
            final(self).model().run_offset(old(self).model().index_of(*element_id)) == old(self).model().run_offset(old(self).model().index_of(*element_id)),
            forall|j: int|
                0 <= j < old(self).model().recs[old(self).model().index_of(*element_id)].segments.len()
                    ==> #[trigger] final(self).model().lines[final(self).model().line_of(
                    old(self).model().index_of(*element_id),
                )].segs[final(self).model().run_offset(old(self).model().index_of(*element_id)) + j]
                    == old(self).model().lines[old(self).model().line_of(old(self).model().index_of(*element_id))].segs[old(self).model().run_offset(old(self).model().index_of(*element_id)) + j],
            r.0.0 >= old(self).model().next_line,
            final(self).model().next_line >= old(self).model().next_line,
            final(self).model().next_line <= old(self).model().next_line + 2,
            final(self).model().next_segment == old(self).model().next_segment + 1,
    {
        let ghost m = old(self).model();
        let ghost ki = m.index_of(*element_id);
        let lid = self.add_line(element_id);
        let ghost m1 = self.model();
        proof {
            lemma_index_of_eq(m, m1, *element_id);
            lemma_append_stage_add_line(m, m1, ki, lid);
            assert(m1.has_block(ki, lid)) by {
                assert(m1.recs[ki].block_lines.last() == lid);
            }
        }
        let sid = self.add_block_segment(element_id, &lid);
        let ghost m2 = self.model();
        proof {
            lemma_index_of_eq(m, m2, *element_id);
            lemma_append_stage_fill(m, m1, m2, ki, lid, sid);
            assert(m2.has_block(ki, lid)) by {
                assert(m2.recs[ki].block_lines.last() == lid);
            }
            assert(line_has_seg(m2.lines[index_of_line(m2.lines, lid)], sid));
        }
        self.set_block_segment_text(element_id, &lid, &sid, text);
        proof {
            lemma_index_of_eq(m, self.model(), *element_id);
            lemma_append_stage_text(m, m1, m2, self.model(), ki, lid, sid, text@);
            assert(m.lines_kept_except(self.model(), m.inline(ki)));
        }
        (lid, sid)
    }

    /// Release the element's last block line. It must not be the only one:
    /// releasing the last one triggers the inline join, which belongs to
    /// `remove_line_at`.
    #[verifier::rlimit(100)]
    #[verifier::spinoff_prover]
    pub fn remove_trailing_block_row(&mut self, element_id: &ElementId)
        requires
            old(self).wf(),
            old(self).model().has_elem(*element_id),
            old(self).model().recs[old(self).model().index_of(
                *element_id,
            )].block_lines.len() >= 2,
        ensures
            final(self).wf(),
            final(self).cursor == old(self).cursor,
            final(self).model().elems == old(self).model().elems,
            final(self).model().recs[old(self).model().index_of(*element_id)].block_lines == old(self).model().recs[old(self).model().index_of(*element_id)].block_lines.drop_last(),
            final(self).model().recs[old(self).model().index_of(*element_id)].segments == old(self).model().recs[old(self).model().index_of(*element_id)].segments,
            forall|i: int|
                0 <= i < old(self).model().n() && i != old(self).model().index_of(*element_id)
                    ==> #[trigger] final(self).model().recs[i].segments == old(self).model().recs[i].segments && final(self).model().recs[i].block_lines == old(self).model().recs[i].block_lines,
            old(self).model().lines_kept_except(
                final(self).model(),
                old(self).model().recs[old(self).model().index_of(
                    *element_id,
                )].block_lines.last(),
            ),
            final(self).model().next_line == old(self).model().next_line,
            final(self).model().next_segment == old(self).model().next_segment,
    {
        let ghost m = old(self).model();
        let ghost ki = m.index_of(*element_id);
        let idx = self.find_element(element_id);
        let last = self.elements[idx].1.block_line_ids.len() - 1;
        self.remove_line_at(element_id, last);
        proof {
            assert(self.model() == m.with_block_removed(ki, last as int));
            assert(self.model().recs[ki].block_lines =~= m.recs[ki].block_lines.drop_last());
            lemma_block_line_index(m, ki, last as int);
            let pos = m.block_position(ki, last as int);
            assert(m.lines[pos].id == m.recs[ki].block_lines.last());
            assert(m.lines_kept_except(self.model(), m.recs[ki].block_lines.last())) by {
                assert forall|lid0: LineId|
                    has_line_id(m.lines, lid0) && lid0 != m.recs[ki].block_lines.last()
                    implies #[trigger] has_line_id(self.model().lines, lid0)
                    && self.model().lines[index_of_line(self.model().lines, lid0)] == m.lines[
                    index_of_line(m.lines, lid0)] by {
                    lemma_line_kept_on_remove(m.lines, self.model().lines, pos, lid0);
                }
            }
        }
    }

    /// Locate the element carrying the given identifier.
    fn find_element(&self, element_id: &ElementId) -> (r: usize)
        requires
            self.wf(),
            self.model().has_elem(*element_id),
        ensures
            r < self.model().n(),
            self.model().elems[r as int] == *element_id,
            r == self.model().index_of(*element_id),
    {
        let ghost m = self.model();
        let mut k: usize = 0;
        while k < self.elements.len()
            invariant
                self.wf(),
                m == self.model(),
                self.model().has_elem(*element_id),
                k <= m.n(),
                forall|i: int| 0 <= i < k ==> m.elems[i] != *element_id,
            decreases m.n() - k,
        {
            if self.elements[k].0 == *element_id {
                proof {
                    assert(m.elems[k as int] == *element_id);
                    let w = m.index_of(*element_id);
                    assert(0 <= w < m.n() && m.elems[w] == *element_id);
                    if w < k as int {
                        assert(id_lt(m.elems[w], m.elems[k as int]));
                    }
                    if w > k as int {
                        assert(id_lt(m.elems[k as int], m.elems[w]));
                    }
                    assert(w == k as int);
                }
                return k;
            }
            k = k + 1;
        }
        proof {
            let w = m.index_of(*element_id);
            assert(0 <= w < m.n() && m.elems[w] == *element_id);
            assert(false);
        }
        unreached()
    }
}

/// Given a collection of element identifiers and a target, returns those
/// after the target's first occurrence (all in order), or none if the target
/// does not occur.
pub fn get_subsequent_elements(element_ids: &Vec<ElementId>, element_id: &ElementId) -> (r: Vec<
    ElementId,
>)
    ensures
        (forall|i: int| 0 <= i < element_ids@.len() ==> element_ids@[i] != *element_id) ==> r@
            == Seq::<ElementId>::empty(),
        forall|k: int|
            0 <= k < element_ids@.len() && element_ids@[k] == *element_id && (forall|i: int|
                0 <= i < k ==> element_ids@[i] != *element_id) ==> r@ == element_ids@.skip(k + 1),
{
    let mut k: usize = 0;
    while k < element_ids.len()
        invariant
            k <= element_ids@.len(),
            forall|i: int| 0 <= i < k ==> element_ids@[i] != *element_id,
        decreases element_ids@.len() - k,
    {
        if element_ids[k].step_index == element_id.step_index && element_ids[k].element_index
            == element_id.element_index {
            proof {
                assert(element_ids@[k as int] == *element_id);
            }
            let mut out: Vec<ElementId> = Vec::new();
            let mut j: usize = k + 1;
            while j < element_ids.len()
                invariant
                    k < j <= element_ids@.len(),
                    out@.len() == j - k - 1,
                    forall|i: int| 0 <= i < out@.len() ==> out@[i] == element_ids@[k + 1 + i],
                decreases element_ids@.len() - j,
            {
                out.push(element_ids[j]);
                j = j + 1;
            }
            proof {
                assert(out@ =~= element_ids@.skip(k as int + 1));
            }
            return out;
        }
        k = k + 1;
    }
    let out: Vec<ElementId> = Vec::new();
    proof {
        assert(out@ =~= Seq::<ElementId>::empty());
    }
    out
}

/// The segment identifiers of one element's run are distinct: they name
/// distinct positions of its inline line.
pub proof fn lemma_record_segments_distinct(m: CoordModel, k: int)
    requires
        m.wf(),
        0 <= k < m.n(),
    ensures
        forall|a: int, b: int|
            0 <= a < b < m.recs[k].segments.len() ==> #[trigger] m.recs[k].segments[a]
                != #[trigger] m.recs[k].segments[b],
{
    let li = m.line_of(k);
    assert(has_line_id(m.lines, m.inline(k)));
    assert(0 <= li < m.lines.len() && m.lines[li].id == m.inline(k));
    lemma_run_offset_nonneg(m, k);
    assert forall|a: int, b: int|
        0 <= a < b < m.recs[k].segments.len() implies #[trigger] m.recs[k].segments[a]
        != #[trigger] m.recs[k].segments[b] by {
        assert(m.lines[li].segs[m.run_offset(k) + a].id == m.recs[k].segments[a]);
        assert(m.lines[li].segs[m.run_offset(k) + b].id == m.recs[k].segments[b]);
    }
}

/// A change that only touches segment texts or styles, leaving every
/// identifier and length in place, preserves well-formedness.
#[verifier::rlimit(100)]
#[verifier::spinoff_prover]
proof fn lemma_reskin_wf(pre: CoordModel, post: CoordModel)
    requires
        pre.wf(),
        post.elems == pre.elems,
        post.recs == pre.recs,
        post.next_line == pre.next_line,
        post.next_segment == pre.next_segment,
        post.lines.len() == pre.lines.len(),
        forall|i: int|
            0 <= i < pre.lines.len() ==> #[trigger] post.lines[i].id == pre.lines[i].id
                && post.lines[i].segs.len() == pre.lines[i].segs.len(),
        forall|i: int, j: int|
            0 <= i < pre.lines.len() && 0 <= j < pre.lines[i].segs.len()
                ==> #[trigger] post.lines[i].segs[j].id == pre.lines[i].segs[j].id,
    ensures
        post.wf(),
{
    assert(forall|i: int| 0 <= i < pre.n() ==> #[trigger] post.inline(i) == pre.inline(i));
    lemma_layout_congruence(pre, post, pre.n());
    assert(ids_of(post.lines) =~= ids_of(pre.lines));
    assert forall|i: int|
        0 <= i < post.n() implies has_line_id(post.lines, #[trigger] post.inline(i))
        && post.line_of(i) == pre.line_of(i) by {
        let w = pre.line_of(i);
        assert(has_line_id(pre.lines, pre.inline(i)));
        assert(0 <= w < pre.lines.len() && pre.lines[w].id == pre.inline(i));
        assert(post.lines[w].id == post.inline(i));
        assert(has_line_id(post.lines, post.inline(i)));
        let w2 = post.line_of(i);
        assert(0 <= w2 < post.lines.len() && post.lines[w2].id == post.inline(i));
        assert(pre.lines[w2].id == pre.inline(i));
        assert(w2 == w);
    }
    assert forall|m: int|
        0 <= m < post.n() implies post.run_offset(m) == pre.run_offset(m) by {
        lemma_run_offset_congruence(pre, post, m);
    }
    assert(lines_wf(post.lines, post.next_line, post.next_segment)) by {
        assert forall|i: int, j: int|
            0 <= i < post.lines.len() && 0 <= j < post.lines[i].segs.len() implies (
        #[trigger] post.lines[i].segs[j].id).0 < post.next_segment by {
            assert(post.lines[i].segs[j].id == pre.lines[i].segs[j].id);
        }
        assert forall|i1: int, j1: int, i2: int, j2: int|
            0 <= i1 < post.lines.len() && 0 <= j1 < post.lines[i1].segs.len() && 0 <= i2
            < post.lines.len() && 0 <= j2 < post.lines[i2].segs.len() && (i1 != i2 || j1 != j2)
            implies #[trigger] post.lines[i1].segs[j1].id
            != #[trigger] post.lines[i2].segs[j2].id by {
            assert(post.lines[i1].segs[j1].id == pre.lines[i1].segs[j1].id);
            assert(post.lines[i2].segs[j2].id == pre.lines[i2].segs[j2].id);
            assert(pre.lines[i1].segs[j1].id != pre.lines[i2].segs[j2].id);
        }
    }
    assert forall|m: int, j: int|
        0 <= m < post.n() && 0 <= j < post.recs[m].segments.len() implies post.lines[post.line_of(
        m,
    )].segs[post.run_offset(m) + j].id == #[trigger] post.recs[m].segments[j] by {
        lemma_run_offset_nonneg(pre, m);
        assert(pre.lines[pre.line_of(m)].segs[pre.run_offset(m) + j].id
            == pre.recs[m].segments[j]);
        assert(post.lines[pre.line_of(m)].segs[pre.run_offset(m) + j].id == pre.lines[pre.line_of(
            m,
        )].segs[pre.run_offset(m) + j].id);
    }
    assert forall|m: int|
        0 <= m < post.n() implies post.run_offset(m) + (#[trigger] post.recs[m].segments).len()
        <= post.lines[post.line_of(m)].segs.len() by {
        assert(pre.run_offset(m) + pre.recs[m].segments.len() <= pre.lines[pre.line_of(
            m,
        )].segs.len());
        assert(post.lines[pre.line_of(m)].segs.len() == pre.lines[pre.line_of(m)].segs.len());
    }
    assert forall|m: int|
        0 <= m < post.n() && #[trigger] post.group_end(m) implies post.lines[post.line_of(
        m,
    )].segs.len() == post.run_offset(m) + post.recs[m].segments.len() by {
        assert(pre.group_end(m));
        assert(pre.lines[pre.line_of(m)].segs.len() == pre.run_offset(m)
            + pre.recs[m].segments.len());
        assert(post.lines[pre.line_of(m)].segs.len() == pre.lines[pre.line_of(m)].segs.len());
    }
    assert(post.wf());
}

/// The first member of a group is a group start, lies at or before `k`,
/// and shares `k`'s inline line, as does every member in between.
pub proof fn lemma_group_first(m: CoordModel, k: int)
    requires
        0 <= k,
    ensures
        0 <= m.group_first(k) <= k,
        m.group_start(m.group_first(k)),
        forall|j: int| m.group_first(k) <= j <= k ==> #[trigger] m.inline(j) == m.inline(k),
    decreases k,
{
    if !(k <= 0 || m.group_start(k)) {
        lemma_group_first(m, k - 1);
        assert forall|j: int|
            m.group_first(k) <= j <= k implies #[trigger] m.inline(j) == m.inline(k) by {
            if j < k {
                assert(m.inline(j) == m.inline(k - 1));
            }
        }
    }
}

/// Within one group, each member's section adds only its block lines to the
/// layout; the group's inline line is emitted at its first member.
pub proof fn lemma_layout_group(m: CoordModel, k: int)
    requires
        m.wf(),
        0 <= k < m.n(),
    ensures
        m.layout_to(k + 1).len() == m.layout_to(m.group_first(k)).len() + 1 + blocks_between(
            m,
            m.group_first(k),
            k,
        ),
        m.line_of(k) == m.layout_to(m.group_first(k)).len(),
        m.layout_to(k + 1).len() <= m.lines.len(),
    decreases k,
{
    lemma_group_first(m, k);
    let gf = m.group_first(k);
    lemma_layout_prefix(m, k + 1, m.n());
    assert(ids_of(m.lines).len() == m.layout_to(m.n()).len());
    if m.group_start(k) {
        assert(gf == k);
        assert(m.layout_to(k + 1) == m.layout_to(k) + seq![m.inline(k)] + m.recs[k].block_lines);
        assert(blocks_between(m, k, k) == m.recs[k].block_lines.len());
        // the inline line sits exactly at the end of the preceding layout
        lemma_layout_prefix(m, k + 1, m.n());
        assert(m.layout_to(m.n()).take(m.layout_to(k + 1).len() as int) == m.layout_to(k + 1));
        assert(m.layout_to(m.n())[m.layout_to(k).len() as int] == m.inline(k)) by {
            assert(m.layout_to(k + 1)[m.layout_to(k).len() as int] == m.inline(k));
        }
        assert(ids_of(m.lines)[m.layout_to(k).len() as int] == m.inline(k));
        assert(m.lines[m.layout_to(k).len() as int].id == m.inline(k));
        let w = m.line_of(k);
        assert(has_line_id(m.lines, m.inline(k)));
        assert(0 <= w < m.lines.len() && m.lines[w].id == m.inline(k));
        assert(w == m.layout_to(k).len() as int);
    } else {
        lemma_layout_group(m, k - 1);
        assert(m.group_first(k) == m.group_first(k - 1));
        assert(m.inline(k - 1) == m.inline(k));
        assert(m.line_of(k) == m.line_of(k - 1));
        assert(gf <= k - 1);
        assert(blocks_between(m, gf, k) == blocks_between(m, gf, k - 1)
            + m.recs[k].block_lines.len());
        assert(m.layout_to(k + 1) == m.layout_to(k) + Seq::<LineId>::empty()
            + m.recs[k].block_lines);
        assert(m.layout_to(k + 1).len() == m.layout_to(k).len() + m.recs[k].block_lines.len());
    }
}

/// A stretch of elements without block lines contributes no block lines.
pub proof fn lemma_blocks_between_zero(m: CoordModel, a: int, b: int)
    requires
        forall|j: int| a <= j <= b ==> (#[trigger] m.recs[j].block_lines).len() == 0,
    ensures
        blocks_between(m, a, b) == 0,
    decreases b - a,
{
    if b > a {
        lemma_blocks_between_zero(m, a, b - 1);
    }
}

/// After a split on `k`, a reparented member's run offset drops by the
/// split boundary: the segments before the boundary stayed behind.
#[verifier::spinoff_prover]
proof fn lemma_split_run_member(pre: CoordModel, post: CoordModel, k: int, i: int)
    requires
        pre.wf(),
        0 <= pre.next_line <= u64::MAX,
        0 <= k < pre.n(),
        !pre.group_end(k),
        post == pre.with_group_split(k),
        k < i < pre.n(),
        pre.inline(i) == pre.inline(k),
    ensures
        post.run_offset(i) == pre.run_offset(i) - pre.split_boundary(k),
    decreases i,
{
    let l = pre.inline(k);
    let nid = pre.next_line_id();
    assert(has_line_id(pre.lines, l));
    assert(l.0 < pre.next_line) by {
        let w = pre.line_of(k);
        assert(0 <= w < pre.lines.len() && pre.lines[w].id == l);
    }
    assert(nid != l);
    if i == k + 1 {
        assert(post.inline(k + 1) == nid);
        assert(post.inline(k) == l);
        assert(post.group_start(k + 1));
        assert(post.run_offset(k + 1) == 0);
        assert(!pre.group_start(k + 1));
        assert(pre.run_offset(k + 1) == pre.run_offset(k) + pre.recs[k].segments.len());
    } else {
        assert(pre.inline(i - 1) == l) by {
            assert(k + 1 <= i - 1 <= i);
            assert(pre.inline(k + 1) == l);
        }
        lemma_split_run_member(pre, post, k, i - 1);
        assert(post.inline(i) == nid && post.inline(i - 1) == nid);
        assert(!post.group_start(i));
        assert(!pre.group_start(i));
        assert(post.recs[i - 1].segments == pre.recs[i - 1].segments);
        assert(post.run_offset(i) == post.run_offset(i - 1) + pre.recs[i - 1].segments.len());
    }
}

/// After a split on `k`, elements outside `k`'s old group keep their run
/// offsets.
#[verifier::spinoff_prover]
proof fn lemma_split_run_other(pre: CoordModel, post: CoordModel, k: int, i: int)
    requires
        pre.wf(),
        0 <= pre.next_line <= u64::MAX,
        0 <= k < pre.n(),
        !pre.group_end(k),
        post == pre.with_group_split(k),
        0 <= i < pre.n(),
        i <= k || pre.inline(i) != pre.inline(k),
    ensures
        post.run_offset(i) == pre.run_offset(i),
    decreases i,
{
    let l = pre.inline(k);
    let nid = pre.next_line_id();
    assert(has_line_id(pre.lines, l));
    assert(l.0 < pre.next_line) by {
        let w = pre.line_of(k);
        assert(0 <= w < pre.lines.len() && pre.lines[w].id == l);
    }
    if i <= k {
        lemma_run_offset_congruence(pre, post, i);
    } else {
        // i lies past the group; its own line is untouched
        assert(post.inline(i) == pre.inline(i));
        assert(pre.inline(i) != nid) by {
            assert(has_line_id(pre.lines, pre.inline(i)));
            let w = pre.line_of(i);
            assert(0 <= w < pre.lines.len() && pre.lines[w].id == pre.inline(i));
        }
        if pre.group_start(i) {
            assert(post.group_start(i)) by {
                if pre.inline(i - 1) == l && i - 1 > k {
                    assert(post.inline(i - 1) == nid);
                } else {
                    assert(post.inline(i - 1) == pre.inline(i - 1));
                }
            }
        } else {
            assert(pre.inline(i - 1) == pre.inline(i));
            assert(i - 1 > k || i - 1 == k) by {
                assert(i - 1 >= k);
            }
            assert(i - 1 != k) by {
                if i - 1 == k {
                    assert(pre.inline(i) == l);
                }
            }
            assert(pre.inline(i - 1) != l);
            assert(post.inline(i - 1) == pre.inline(i - 1));
            assert(!post.group_start(i));
            lemma_split_run_other(pre, post, k, i - 1);
            assert(post.recs[i - 1].segments == pre.recs[i - 1].segments);
        }
    }
}

/// After a split on `k`, the layout gains exactly the fresh line, right
/// after `k`'s inline line.
#[verifier::spinoff_prover]
proof fn lemma_split_layout(pre: CoordModel, post: CoordModel, k: int, i: int)
    requires
        pre.wf(),
        0 <= pre.next_line <= u64::MAX,
        0 <= k < pre.n(),
        !pre.group_end(k),
        post == pre.with_group_split(k),
        0 <= i <= pre.n(),
    ensures
        i <= k + 1 ==> post.layout_to(i) == pre.layout_to(i),
        i > k + 1 ==> post.layout_to(i) == pre.layout_to(i).insert(
            pre.layout_to(k + 1).len() as int,
            pre.next_line_id(),
        ),
    decreases i,
{
    let l = pre.inline(k);
    let nid = pre.next_line_id();
    assert(has_line_id(pre.lines, l));
    assert(l.0 < pre.next_line) by {
        let w = pre.line_of(k);
        assert(0 <= w < pre.lines.len() && pre.lines[w].id == l);
    }
    if i <= k + 1 {
        lemma_layout_congruence(pre, post, i);
    } else if i == k + 2 {
        lemma_layout_congruence(pre, post, k + 1);
        assert(post.inline(k + 1) == nid);
        assert(post.inline(k) == l);
        assert(post.group_start(k + 1));
        assert(!pre.group_start(k + 1));
        assert(post.recs[k + 1].block_lines == pre.recs[k + 1].block_lines);
        assert(post.layout_to(k + 2) == post.layout_to(k + 1) + seq![nid]
            + pre.recs[k + 1].block_lines);
        assert(pre.layout_to(k + 2) == pre.layout_to(k + 1) + Seq::<LineId>::empty()
            + pre.recs[k + 1].block_lines);
        assert(post.layout_to(k + 2) =~= pre.layout_to(k + 2).insert(
            pre.layout_to(k + 1).len() as int,
            nid,
        ));
    } else {
        lemma_split_layout(pre, post, k, i - 1);
        lemma_layout_prefix(pre, k + 1, i - 1);
        let p = pre.layout_to(k + 1).len() as int;
        // element i - 1 contributes the same lines in both models
        assert(post.recs[i - 1].block_lines == pre.recs[i - 1].block_lines);
        let member = pre.inline(i - 1) == l && i - 1 > k;
        if member {
            assert(post.inline(i - 1) == nid);
            assert(pre.inline(i - 2) == l) by {
                assert(k + 1 <= i - 2 <= i - 1);
                assert(pre.inline(k + 1) == l);
            }
            assert(post.inline(i - 2) == nid);
            assert(!post.group_start(i - 1));
            assert(!pre.group_start(i - 1));
            assert(post.layout_to(i) == post.layout_to(i - 1) + Seq::<LineId>::empty()
                + pre.recs[i - 1].block_lines);
            assert(pre.layout_to(i) == pre.layout_to(i - 1) + Seq::<LineId>::empty()
                + pre.recs[i - 1].block_lines);
            assert(post.layout_to(i) =~= pre.layout_to(i).insert(p, nid));
        } else {
            assert(post.inline(i - 1) == pre.inline(i - 1));
            assert(pre.inline(i - 1) != nid) by {
                assert(has_line_id(pre.lines, pre.inline(i - 1)));
                let w = pre.line_of(i - 1);
                assert(0 <= w < pre.lines.len() && pre.lines[w].id == pre.inline(i - 1));
            }
            assert(post.group_start(i - 1) == pre.group_start(i - 1)) by {
                if pre.inline(i - 2) == l && i - 2 > k {
                    assert(post.inline(i - 2) == nid);
                    assert(pre.inline(i - 1) != l);
                    assert(pre.inline(i - 1) != nid);
                } else {
                    assert(post.inline(i - 2) == pre.inline(i - 2));
                }
            }
            if pre.group_start(i - 1) {
                assert(post.layout_to(i) == post.layout_to(i - 1) + seq![pre.inline(i - 1)]
                    + pre.recs[i - 1].block_lines);
                assert(pre.layout_to(i) == pre.layout_to(i - 1) + seq![pre.inline(i - 1)]
                    + pre.recs[i - 1].block_lines);
            } else {
                assert(post.layout_to(i) == post.layout_to(i - 1) + Seq::<LineId>::empty()
                    + pre.recs[i - 1].block_lines);
                assert(pre.layout_to(i) == pre.layout_to(i - 1) + Seq::<LineId>::empty()
                    + pre.recs[i - 1].block_lines);
            }
            assert(post.layout_to(i) =~= pre.layout_to(i).insert(p, nid));
        }
    }
}

/// The index each element's inline line occupies after a split on `k`.
pub open spec fn split_line_index(pre: CoordModel, k: int, i: int) -> int {
    if i > k && pre.inline(i) == pre.inline(k) {
        pre.line_of(k) + 1
    } else if pre.inline(i) == pre.inline(k) {
        pre.line_of(k)
    } else if pre.line_of(i) < pre.line_of(k) {
        pre.line_of(i)
    } else {
        pre.line_of(i) + 1
    }
}

/// After a split on `k`, every element's inline line is still a buffer
/// line, at a predictable index.
#[verifier::rlimit(100)]
#[verifier::spinoff_prover]
proof fn lemma_split_line_of(pre: CoordModel, post: CoordModel, k: int)
    requires
        pre.wf(),
        0 <= pre.next_line <= u64::MAX,
        0 <= k < pre.n(),
        !pre.group_end(k),
        post == pre.with_group_split(k),
    ensures
        forall|i: int|
            0 <= i < pre.n() ==> has_line_id(post.lines, #[trigger] post.inline(i))
                && post.line_of(i) == split_line_index(pre, k, i),
{
    let l = pre.inline(k);
    let nid = pre.next_line_id();
    let li = pre.line_of(k);
    let b = pre.split_boundary(k);
    let gf = pre.group_first(k);
    let n = pre.n();
    lemma_group_first(pre, k);
    lemma_layout_group(pre, k);
    lemma_run_offset_nonneg(pre, k);
    assert(has_line_id(pre.lines, l));
    assert(0 <= li < pre.lines.len() && pre.lines[li].id == l);
    assert(l.0 < pre.next_line);
    assert(nid != l);
    assert forall|i: int| 0 <= i < n implies pre.inline(i) != nid by {
        let w = pre.line_of(i);
        assert(has_line_id(pre.lines, pre.inline(i)));
        assert(0 <= w < pre.lines.len() && pre.lines[w].id == pre.inline(i));
    }
    assert(b <= pre.lines[li].segs.len());
    assert(post.lines.len() == pre.lines.len() + 1);
    assert(post.lines[li].id == l && post.lines[li].segs == pre.lines[li].segs.take(b));
    assert(post.lines[li + 1].id == nid && post.lines[li + 1].segs == pre.lines[li].segs.skip(b));
    assert(forall|w: int| 0 <= w < li ==> post.lines[w] == pre.lines[w]);
    assert(forall|w: int| li + 1 < w < post.lines.len() ==> post.lines[w] == pre.lines[w - 1]);
    assert(forall|i: int|
        0 <= i < n ==> post.inline(i) == (if i > k && pre.inline(i) == l {
            nid
        } else {
            pre.inline(i)
        }));
    assert forall|i: int|
        0 <= i < n implies has_line_id(post.lines, #[trigger] post.inline(i)) && post.line_of(i)
        == split_line_index(pre, k, i) by {
        let w = pre.line_of(i);
        assert(has_line_id(pre.lines, pre.inline(i)));
        assert(0 <= w < pre.lines.len() && pre.lines[w].id == pre.inline(i));
        if i > k && pre.inline(i) == l {
            assert(post.lines[li + 1].id == nid);
            assert(post.inline(i) == nid);
            assert(has_line_id(post.lines, post.inline(i)));
            let w2 = post.line_of(i);
            assert(0 <= w2 < post.lines.len() && post.lines[w2].id == nid);
            assert(w2 == li + 1);
        } else if pre.inline(i) == l {
            assert(post.lines[li].id == l);
            assert(has_line_id(post.lines, post.inline(i)));
            let w2 = post.line_of(i);
            assert(0 <= w2 < post.lines.len() && post.lines[w2].id == l);
            assert(w2 == li);
        } else {
            let t = if w < li { w } else { w + 1 };
            assert(post.lines[t].id == pre.inline(i));
            assert(has_line_id(post.lines, post.inline(i)));
            let w2 = post.line_of(i);
            assert(0 <= w2 < post.lines.len() && post.lines[w2].id == pre.inline(i));
            assert(w2 == t);
        }
    }
}

/// After a split on `k`, line and segment identifiers stay distinct and
/// bounded.
#[verifier::rlimit(100)]
#[verifier::spinoff_prover]
proof fn lemma_split_lines_wf(pre: CoordModel, post: CoordModel, k: int)
    requires
        pre.wf(),
        0 <= pre.next_line <= u64::MAX,
        0 <= k < pre.n(),
        !pre.group_end(k),
        post == pre.with_group_split(k),
    ensures
        lines_wf(post.lines, post.next_line, post.next_segment),
{
    let l = pre.inline(k);
    let nid = pre.next_line_id();
    let li = pre.line_of(k);
    let b = pre.split_boundary(k);
    let gf = pre.group_first(k);
    let n = pre.n();
    lemma_group_first(pre, k);
    lemma_layout_group(pre, k);
    lemma_run_offset_nonneg(pre, k);
    assert(has_line_id(pre.lines, l));
    assert(0 <= li < pre.lines.len() && pre.lines[li].id == l);
    assert(l.0 < pre.next_line);
    assert(nid != l);
    assert forall|i: int| 0 <= i < n implies pre.inline(i) != nid by {
        let w = pre.line_of(i);
        assert(has_line_id(pre.lines, pre.inline(i)));
        assert(0 <= w < pre.lines.len() && pre.lines[w].id == pre.inline(i));
    }
    assert(b <= pre.lines[li].segs.len());
    assert(post.lines.len() == pre.lines.len() + 1);
    assert(post.lines[li].id == l && post.lines[li].segs == pre.lines[li].segs.take(b));
    assert(post.lines[li + 1].id == nid && post.lines[li + 1].segs == pre.lines[li].segs.skip(b));
    assert(forall|w: int| 0 <= w < li ==> post.lines[w] == pre.lines[w]);
    assert(forall|w: int| li + 1 < w < post.lines.len() ==> post.lines[w] == pre.lines[w - 1]);
    assert(forall|i: int|
        0 <= i < n ==> post.inline(i) == (if i > k && pre.inline(i) == l {
            nid
        } else {
            pre.inline(i)
        }));
    assert forall|w1: int, w2: int|
        0 <= w1 < w2 < post.lines.len() implies #[trigger] post.lines[w1].id
        != #[trigger] post.lines[w2].id by {
        let q1 = if w1 <= li { w1 } else { w1 - 1 };
        let q2 = if w2 <= li { w2 } else { w2 - 1 };
        if w1 == li + 1 {
            assert(post.lines[w1].id == nid);
            assert(post.lines[w2].id == pre.lines[q2].id);
        } else if w2 == li + 1 {
            assert(post.lines[w2].id == nid);
            assert(post.lines[w1].id == pre.lines[q1].id);
        } else {
            assert(post.lines[w1].id == pre.lines[q1].id);
            assert(post.lines[w2].id == pre.lines[q2].id);
            assert(q1 < q2);
        }
    }
    assert forall|w: int|
        0 <= w < post.lines.len() implies (#[trigger] post.lines[w].id).0 < post.next_line by {
        if w != li + 1 {
            let q = if w <= li { w } else { w - 1 };
            assert(post.lines[w].id == pre.lines[q].id);
        }
    }
    assert forall|w: int, j: int|
        0 <= w < post.lines.len() && 0 <= j < post.lines[w].segs.len() implies (
    #[trigger] post.lines[w].segs[j].id).0 < post.next_segment by {
        if w == li {
            assert(post.lines[w].segs[j] == pre.lines[li].segs[j]);
        } else if w == li + 1 {
            assert(post.lines[w].segs[j] == pre.lines[li].segs[b + j]);
        } else {
            let q = if w < li { w } else { w - 1 };
            assert(post.lines[w].segs[j] == pre.lines[q].segs[j]);
        }
    }
    assert forall|w1: int, j1: int, w2: int, j2: int|
        0 <= w1 < post.lines.len() && 0 <= j1 < post.lines[w1].segs.len() && 0 <= w2
        < post.lines.len() && 0 <= j2 < post.lines[w2].segs.len() && (w1 != w2 || j1 != j2)
        implies #[trigger] post.lines[w1].segs[j1].id != #[trigger] post.lines[w2].segs[j2].id by {
        let q1 = if w1 < li { w1 } else if w1 <= li + 1 { li } else { w1 - 1 };
        let r1 = if w1 == li + 1 { b + j1 } else { j1 };
        let q2 = if w2 < li { w2 } else if w2 <= li + 1 { li } else { w2 - 1 };
        let r2 = if w2 == li + 1 { b + j2 } else { j2 };
        assert(post.lines[w1].segs[j1] == pre.lines[q1].segs[r1]);
        assert(post.lines[w2].segs[j2] == pre.lines[q2].segs[r2]);
        assert(q1 != q2 || r1 != r2);
        assert(pre.lines[q1].segs[r1].id != pre.lines[q2].segs[r2].id);
    }
}

/// After a split on `k`, every element's run still tiles its line, and each
/// group still fills its line exactly.
#[verifier::rlimit(100)]
#[verifier::spinoff_prover]
proof fn lemma_split_tiles(pre: CoordModel, post: CoordModel, k: int)
    requires
        pre.wf(),
        0 <= pre.next_line <= u64::MAX,
        0 <= k < pre.n(),
        !pre.group_end(k),
        post == pre.with_group_split(k),
    ensures
        forall|i: int|
            0 <= i < post.n() ==> post.run_offset(i) + (#[trigger] post.recs[i].segments).len()
                <= post.lines[post.line_of(i)].segs.len(),
        forall|i: int, j: int|
            0 <= i < post.n() && 0 <= j < post.recs[i].segments.len() ==> post.lines[post.line_of(
                i,
            )].segs[post.run_offset(i) + j].id == #[trigger] post.recs[i].segments[j],
        forall|i: int|
            0 <= i < post.n() && #[trigger] post.group_end(i) ==> post.lines[post.line_of(
                i,
            )].segs.len() == post.run_offset(i) + post.recs[i].segments.len(),
{
    let l = pre.inline(k);
    let nid = pre.next_line_id();
    let li = pre.line_of(k);
    let b = pre.split_boundary(k);
    let gf = pre.group_first(k);
    let n = pre.n();
    lemma_group_first(pre, k);
    lemma_layout_group(pre, k);
    lemma_run_offset_nonneg(pre, k);
    assert(has_line_id(pre.lines, l));
    assert(0 <= li < pre.lines.len() && pre.lines[li].id == l);
    assert(l.0 < pre.next_line);
    assert(nid != l);
    assert forall|i: int| 0 <= i < n implies pre.inline(i) != nid by {
        let w = pre.line_of(i);
        assert(has_line_id(pre.lines, pre.inline(i)));
        assert(0 <= w < pre.lines.len() && pre.lines[w].id == pre.inline(i));
    }
    assert(b <= pre.lines[li].segs.len());
    assert(post.lines.len() == pre.lines.len() + 1);
    assert(post.lines[li].id == l && post.lines[li].segs == pre.lines[li].segs.take(b));
    assert(post.lines[li + 1].id == nid && post.lines[li + 1].segs == pre.lines[li].segs.skip(b));
    assert(forall|w: int| 0 <= w < li ==> post.lines[w] == pre.lines[w]);
    assert(forall|w: int| li + 1 < w < post.lines.len() ==> post.lines[w] == pre.lines[w - 1]);
    assert(forall|i: int|
        0 <= i < n ==> post.inline(i) == (if i > k && pre.inline(i) == l {
            nid
        } else {
            pre.inline(i)
        }));
    lemma_split_line_of(pre, post, k);
    assert forall|i: int|
        0 <= i < n implies post.run_offset(i) == pre.run_offset(i) - (
    if i > k && pre.inline(i) == l {
        b
    } else {
        0int
    }) by {
        if i > k && pre.inline(i) == l {
            lemma_split_run_member(pre, post, k, i);
        } else {
            lemma_split_run_other(pre, post, k, i);
        }
    }
    assert forall|i: int|
        0 <= i < n && i != k implies #[trigger] post.group_end(i) == pre.group_end(i) by {}
    assert(post.group_end(k));
    assert forall|i: int|
        0 <= i < n implies post.run_offset(i) + (#[trigger] post.recs[i].segments).len()
        <= post.lines[post.line_of(i)].segs.len() by {
        lemma_run_offset_nonneg(pre, i);
        if pre.inline(i) == l {
            if i <= k {
                if i < k {
                    lemma_run_monotone(pre, i, k);
                }
                assert(post.lines[li].segs.len() == b);
            } else {
                lemma_run_monotone(pre, k, i);
                assert(post.lines[li + 1].segs.len() == pre.lines[li].segs.len() - b);
            }
        } else {
            assert(post.lines[post.line_of(i)].segs == pre.lines[pre.line_of(i)].segs);
        }
    }
    assert forall|i: int, j: int|
        0 <= i < n && 0 <= j < post.recs[i].segments.len() implies post.lines[post.line_of(
        i,
    )].segs[post.run_offset(i) + j].id == #[trigger] post.recs[i].segments[j] by {
        lemma_run_offset_nonneg(pre, i);
        assert(pre.lines[pre.line_of(i)].segs[pre.run_offset(i) + j].id
            == pre.recs[i].segments[j]);
        if pre.inline(i) == l {
            if i <= k {
                if i < k {
                    lemma_run_monotone(pre, i, k);
                }
                assert(post.lines[li].segs[pre.run_offset(i) + j]
                    == pre.lines[li].segs[pre.run_offset(i) + j]);
            } else {
                lemma_run_monotone(pre, k, i);
                assert(post.run_offset(i) + j == pre.run_offset(i) + j - b);
                assert(post.lines[li + 1].segs[pre.run_offset(i) + j - b]
                    == pre.lines[li].segs[pre.run_offset(i) + j]);
            }
        } else {
            assert(post.lines[post.line_of(i)].segs == pre.lines[pre.line_of(i)].segs);
        }
    }
    assert forall|i: int|
        0 <= i < n && #[trigger] post.group_end(i) implies post.lines[post.line_of(
        i,
    )].segs.len() == post.run_offset(i) + post.recs[i].segments.len() by {
        if i == k {
            assert(post.lines[li].segs.len() == b);
        } else {
            assert(pre.group_end(i));
            assert(pre.lines[pre.line_of(i)].segs.len() == pre.run_offset(i)
                + pre.recs[i].segments.len());
            if pre.inline(i) == l {
                assert(i > k) by {
                    if i < k {
                        assert(pre.inline(i) == pre.inline(k));
                        assert(!pre.group_end(i));
                    }
                }
                lemma_run_monotone(pre, k, i);
                assert(post.lines[li + 1].segs.len() == pre.lines[li].segs.len() - b);
            } else {
                assert(post.lines[post.line_of(i)].segs == pre.lines[pre.line_of(i)].segs);
            }
        }
    }
}

/// Splitting an inline line preserves well-formedness: the group divides in
/// two, contents and order intact.
#[verifier::rlimit(100)]
#[verifier::spinoff_prover]
proof fn lemma_split_wf(pre: CoordModel, post: CoordModel, k: int)
    requires
        pre.wf(),
        0 <= pre.next_line <= u64::MAX,
        0 <= k < pre.n(),
        !pre.group_end(k),
        post == pre.with_group_split(k),
    ensures
        post.wf(),
{
    let l = pre.inline(k);
    let nid = pre.next_line_id();
    let li = pre.line_of(k);
    let b = pre.split_boundary(k);
    let gf = pre.group_first(k);
    let n = pre.n();
    lemma_group_first(pre, k);
    lemma_layout_group(pre, k);
    lemma_run_offset_nonneg(pre, k);
    assert(has_line_id(pre.lines, l));
    assert(0 <= li < pre.lines.len() && pre.lines[li].id == l);
    assert(l.0 < pre.next_line);
    assert(nid != l);
    assert forall|i: int| 0 <= i < n implies pre.inline(i) != nid by {
        let w = pre.line_of(i);
        assert(has_line_id(pre.lines, pre.inline(i)));
        assert(0 <= w < pre.lines.len() && pre.lines[w].id == pre.inline(i));
    }
    assert(b <= pre.lines[li].segs.len());
    assert(post.lines.len() == pre.lines.len() + 1);
    assert(post.lines[li].id == l && post.lines[li].segs == pre.lines[li].segs.take(b));
    assert(post.lines[li + 1].id == nid && post.lines[li + 1].segs == pre.lines[li].segs.skip(b));
    assert(forall|w: int| 0 <= w < li ==> post.lines[w] == pre.lines[w]);
    assert(forall|w: int| li + 1 < w < post.lines.len() ==> post.lines[w] == pre.lines[w - 1]);
    assert(forall|i: int|
        0 <= i < n ==> post.inline(i) == (if i > k && pre.inline(i) == l {
            nid
        } else {
            pre.inline(i)
        }));
    // the group members up to k carry no block lines
    assert forall|j: int| gf <= j <= k implies (#[trigger] pre.recs[j].block_lines).len() == 0 by {
        if j < k {
            assert(pre.inline(j) == l && pre.inline(j + 1) == l);
            assert(!pre.group_end(j));
        }
        if pre.recs[j].block_lines.len() > 0 {
            assert(pre.group_end(j));
        }
    }
    lemma_blocks_between_zero(pre, gf, k);
    assert(li == pre.layout_to(gf).len());
    assert(pre.layout_to(k + 1).len() == li + 1);
    assert(k + 1 < n && pre.inline(k + 1) == l);
    lemma_split_line_of(pre, post, k);
    lemma_split_lines_wf(pre, post, k);
    lemma_split_tiles(pre, post, k);
    lemma_split_layout(pre, post, k, n);
    assert(ids_of(post.lines) =~= ids_of(pre.lines).insert(li + 1, nid));
    assert(ids_of(post.lines) == post.layout_to(post.n()));
    assert(forall|i: int, j: int|
        0 <= i < j < post.n() ==> id_lt(#[trigger] post.elems[i], #[trigger] post.elems[j]));
    // contiguity of the two new groups and of everything else
    assert forall|i: int, j: int, kk: int|
        0 <= i <= j <= kk < post.n() && #[trigger] post.inline(i) == #[trigger] post.inline(kk)
        implies #[trigger] post.inline(j) == post.inline(i) by {
        if post.inline(i) == nid {
            assert(i > k && pre.inline(i) == l);
            assert(kk > k && pre.inline(kk) == l);
            assert(pre.inline(j) == l);
            assert(j > k);
        } else if post.inline(i) == l {
            assert(i <= k && pre.inline(i) == l);
            assert(kk <= k && pre.inline(kk) == l);
            assert(pre.inline(j) == l);
            assert(j <= k);
        } else {
            assert(pre.inline(i) == post.inline(i) && pre.inline(kk) == post.inline(kk));
            assert(pre.inline(j) == pre.inline(i));
            assert(pre.inline(j) != l);
        }
    }
    assert forall|i: int|
        0 <= i < n && i != k implies #[trigger] post.group_end(i) == pre.group_end(i) by {}
    assert(post.group_end(k));
    assert forall|i: int|
        0 <= i < n && (#[trigger] post.recs[i].block_lines).len() > 0 implies post.group_end(
        i,
    ) by {
        assert(pre.recs[i].block_lines.len() > 0);
        assert(pre.group_end(i));
        if i == k {
            assert(pre.recs[k].block_lines.len() == 0);
        }
    }
    assert(post.wf());
}

/// Each block line of each element sits in the buffer at its layout
/// position: immediately after the element's inline line and its earlier
/// block lines, strictly increasing and contiguous.
#[verifier::rlimit(100)]
#[verifier::spinoff_prover]
pub proof fn lemma_block_line_index(m: CoordModel, k: int, brel: int)
    requires
        m.wf(),
        0 <= k < m.n(),
        0 <= brel < m.recs[k].block_lines.len(),
    ensures
        m.block_position(k, brel) < m.lines.len(),
        m.lines[m.block_position(k, brel)].id == m.recs[k].block_lines[brel],
        has_line_id(m.lines, m.recs[k].block_lines[brel]),
        index_of_line(m.lines, m.recs[k].block_lines[brel]) == m.block_position(k, brel),
        m.block_position(k, 0) == m.layout_to(k + 1).len() - m.recs[k].block_lines.len(),
{
    lemma_group_first(m, k);
    lemma_layout_group(m, k);
    let gf = m.group_first(k);
    assert forall|j: int| gf <= j < k implies (#[trigger] m.recs[j].block_lines).len() == 0 by {
        assert(m.inline(j) == m.inline(k) && m.inline(j + 1) == m.inline(k));
        assert(!m.group_end(j));
        if m.recs[j].block_lines.len() > 0 {
            assert(m.group_end(j));
        }
    }
    lemma_blocks_between_zero(m, gf, k - 1);
    // the element's contribution closes the prefix layout
    assert(m.layout_to(k + 1) == m.layout_to(k) + (if m.group_start(k) {
        seq![m.inline(k)]
    } else {
        Seq::empty()
    }) + m.recs[k].block_lines);
    assert(blocks_between(m, gf, k) == blocks_between(m, gf, k - 1)
        + m.recs[k].block_lines.len()) by {
        if gf == k {
            assert(blocks_between(m, gf, k - 1) == 0);
        }
    }
    assert(m.block_position(k, brel) == m.layout_to(k).len() + (if m.group_start(k) {
        1int
    } else {
        0int
    }) + brel);
    assert(m.layout_to(k + 1)[m.block_position(k, brel)] == m.recs[k].block_lines[brel]);
    lemma_layout_prefix(m, k + 1, m.n());
    assert(m.layout_to(m.n()).take(m.layout_to(k + 1).len() as int) == m.layout_to(k + 1));
    assert(m.layout_to(m.n())[m.block_position(k, brel)] == m.recs[k].block_lines[brel]);
    assert(ids_of(m.lines)[m.block_position(k, brel)] == m.recs[k].block_lines[brel]);
    assert(m.lines[m.block_position(k, brel)].id == m.recs[k].block_lines[brel]);
    assert(has_line_id(m.lines, m.recs[k].block_lines[brel]));
    let w = index_of_line(m.lines, m.recs[k].block_lines[brel]);
    assert(0 <= w < m.lines.len() && m.lines[w].id == m.recs[k].block_lines[brel]);
    assert(w == m.block_position(k, brel));
}

/// Giving an element a fresh block line preserves well-formedness, provided
/// the element closes its inline-line group.
#[verifier::rlimit(100)]
#[verifier::spinoff_prover]
proof fn lemma_insert_block_wf(pre: CoordModel, post: CoordModel, k: int, brel: int)
    requires
        pre.wf(),
        0 <= pre.next_line <= u64::MAX,
        0 <= k < pre.n(),
        0 <= brel <= pre.recs[k].block_lines.len(),
        pre.group_end(k),
        post == pre.with_block_inserted(k, brel),
    ensures
        post.wf(),
{
    let nid = pre.next_line_id();
    let pos = pre.block_position(k, brel);
    let n = pre.n();
    lemma_group_first(pre, k);
    lemma_layout_group(pre, k);
    let gf = pre.group_first(k);
    assert forall|j: int| gf <= j < k implies (#[trigger] pre.recs[j].block_lines).len() == 0 by {
        assert(pre.inline(j) == pre.inline(k) && pre.inline(j + 1) == pre.inline(k));
        assert(!pre.group_end(j));
        if pre.recs[j].block_lines.len() > 0 {
            assert(pre.group_end(j));
        }
    }
    lemma_blocks_between_zero(pre, gf, k - 1);
    assert(blocks_between(pre, gf, k) == blocks_between(pre, gf, k - 1)
        + pre.recs[k].block_lines.len()) by {
        if gf == k {
            assert(blocks_between(pre, gf, k - 1) == 0);
        }
    }
    assert(pre.layout_to(k + 1).len() == pre.layout_to(gf).len() + 1
        + pre.recs[k].block_lines.len());
    assert(pre.layout_to(k).len() + (if pre.group_start(k) {
        1int
    } else {
        0int
    }) == pre.layout_to(k + 1).len() - pre.recs[k].block_lines.len()) by {
        if gf == k {
            assert(pre.layout_to(k + 1) == pre.layout_to(k) + seq![pre.inline(k)]
                + pre.recs[k].block_lines);
        } else {
            lemma_layout_group(pre, k - 1);
            assert(pre.layout_to(k + 1) == pre.layout_to(k) + Seq::<LineId>::empty()
                + pre.recs[k].block_lines);
            assert(pre.layout_to(k).len() == pre.layout_to(gf).len() + 1
                + blocks_between(pre, gf, k - 1));
        }
    }
    assert(0 <= pos <= pre.layout_to(k + 1).len());
    assert(pre.layout_to(k + 1).len() <= pre.lines.len());
    // freshness
    assert forall|w: int| 0 <= w < pre.lines.len() implies pre.lines[w].id != nid by {}
    assert forall|i: int| 0 <= i < n implies pre.inline(i) != nid by {
        let w = pre.line_of(i);
        assert(has_line_id(pre.lines, pre.inline(i)));
        assert(0 <= w < pre.lines.len() && pre.lines[w].id == pre.inline(i));
    }
    // the reshaped table
    assert(post.lines.len() == pre.lines.len() + 1);
    assert(post.lines[pos].id == nid && post.lines[pos].segs.len() == 0);
    assert(forall|w: int| 0 <= w < pos ==> post.lines[w] == pre.lines[w]);
    assert(forall|w: int| pos < w < post.lines.len() ==> post.lines[w] == pre.lines[w - 1]);
    assert(forall|i: int| 0 <= i < n ==> post.inline(i) == pre.inline(i));
    assert forall|i: int| 0 <= i < n implies post.run_offset(i) == pre.run_offset(i) by {
        lemma_run_offset_congruence(pre, post, i);
    }
    // layout gains exactly the fresh line at `pos`
    assert(post.layout_to(k + 1) =~= pre.layout_to(k + 1).insert(pos, nid)) by {
        lemma_layout_congruence(pre, post, k);
        assert(post.layout_to(k) == pre.layout_to(k));
        assert(post.group_start(k) == pre.group_start(k));
        assert(post.recs[k].block_lines == pre.recs[k].block_lines.insert(brel, nid));
        assert(post.layout_to(k + 1) == post.layout_to(k) + (if pre.group_start(k) {
            seq![pre.inline(k)]
        } else {
            Seq::empty()
        }) + pre.recs[k].block_lines.insert(brel, nid));
        assert(pre.layout_to(k + 1) == pre.layout_to(k) + (if pre.group_start(k) {
            seq![pre.inline(k)]
        } else {
            Seq::empty()
        }) + pre.recs[k].block_lines);
    }
    assert forall|i: int|
        k + 1 <= i <= n implies #[trigger] post.layout_to(i) == pre.layout_to(i).insert(
        pos,
        nid,
    ) by {
        lemma_insert_block_layout(pre, post, k, brel, i);
    }
    assert(ids_of(post.lines) =~= ids_of(pre.lines).insert(pos, nid));
    assert(ids_of(post.lines) == post.layout_to(post.n()));
    // identifiers stay distinct and bounded
    assert(lines_wf(post.lines, post.next_line, post.next_segment)) by {
        assert forall|w1: int, w2: int|
            0 <= w1 < w2 < post.lines.len() implies #[trigger] post.lines[w1].id
            != #[trigger] post.lines[w2].id by {
            let q1 = if w1 < pos { w1 } else { w1 - 1 };
            let q2 = if w2 < pos { w2 } else { w2 - 1 };
            if w1 == pos {
                assert(post.lines[w2].id == pre.lines[q2].id);
            } else if w2 == pos {
                assert(post.lines[w1].id == pre.lines[q1].id);
            } else {
                assert(post.lines[w1].id == pre.lines[q1].id);
                assert(post.lines[w2].id == pre.lines[q2].id);
                assert(q1 < q2);
            }
        }
        assert forall|w: int|
            0 <= w < post.lines.len() implies (#[trigger] post.lines[w].id).0 < post.next_line by {
            if w != pos {
                let q = if w < pos { w } else { w - 1 };
                assert(post.lines[w].id == pre.lines[q].id);
            }
        }
        assert forall|w: int, j: int|
            0 <= w < post.lines.len() && 0 <= j < post.lines[w].segs.len() implies (
        #[trigger] post.lines[w].segs[j].id).0 < post.next_segment by {
            let q = if w < pos { w } else { w - 1 };
            assert(w != pos);
            assert(post.lines[w].segs[j] == pre.lines[q].segs[j]);
        }
        assert forall|w1: int, j1: int, w2: int, j2: int|
            0 <= w1 < post.lines.len() && 0 <= j1 < post.lines[w1].segs.len() && 0 <= w2
            < post.lines.len() && 0 <= j2 < post.lines[w2].segs.len() && (w1 != w2 || j1 != j2)
            implies #[trigger] post.lines[w1].segs[j1].id
            != #[trigger] post.lines[w2].segs[j2].id by {
            let q1 = if w1 < pos { w1 } else { w1 - 1 };
            let q2 = if w2 < pos { w2 } else { w2 - 1 };
            assert(w1 != pos && w2 != pos);
            assert(post.lines[w1].segs[j1] == pre.lines[q1].segs[j1]);
            assert(post.lines[w2].segs[j2] == pre.lines[q2].segs[j2]);
            assert(q1 != q2 || j1 != j2);
        }
    }
    // each element's line is still present, with unchanged contents
    assert forall|i: int|
        0 <= i < n implies has_line_id(post.lines, #[trigger] post.inline(i))
        && post.lines[index_of_line(post.lines, post.inline(i))]
        == pre.lines[pre.line_of(i)] by {
        let w = pre.line_of(i);
        assert(has_line_id(pre.lines, pre.inline(i)));
        assert(0 <= w < pre.lines.len() && pre.lines[w].id == pre.inline(i));
        let t = if w < pos { w } else { w + 1 };
        assert(post.lines[t].id == pre.inline(i));
        assert(has_line_id(post.lines, post.inline(i)));
        let w2 = index_of_line(post.lines, post.inline(i));
        assert(0 <= w2 < post.lines.len() && post.lines[w2].id == post.inline(i));
        assert(w2 == t);
        assert(post.lines[t] == pre.lines[w]);
    }
    assert(forall|i: int| 0 <= i < n ==> #[trigger] post.group_end(i) == pre.group_end(i));
    assert(post.wf());
}

/// After a block-line insertion on `k`, later layouts gain exactly that
/// line at its position.
#[verifier::rlimit(100)]
#[verifier::spinoff_prover]
proof fn lemma_insert_block_layout(pre: CoordModel, post: CoordModel, k: int, brel: int, i: int)
    requires
        pre.wf(),
        0 <= pre.next_line <= u64::MAX,
        0 <= k < pre.n(),
        0 <= brel <= pre.recs[k].block_lines.len(),
        post == pre.with_block_inserted(k, brel),
        k + 1 <= i <= pre.n(),
        post.layout_to(k + 1) == pre.layout_to(k + 1).insert(pre.block_position(k, brel), pre.next_line_id()),
        pre.block_position(k, brel) <= pre.layout_to(k + 1).len(),
        0 <= pre.block_position(k, brel),
    ensures
        post.layout_to(i) == pre.layout_to(i).insert(
            pre.block_position(k, brel),
            pre.next_line_id(),
        ),
    decreases i,
{
    let pos = pre.block_position(k, brel);
    let nid = pre.next_line_id();
    if i > k + 1 {
        lemma_insert_block_layout(pre, post, k, brel, i - 1);
        lemma_layout_prefix(pre, k + 1, i - 1);
        assert(post.recs[i - 1] == pre.recs[i - 1]);
        assert(post.group_start(i - 1) == pre.group_start(i - 1)) by {
            assert(post.inline(i - 1) == pre.inline(i - 1));
            assert(post.inline(i - 2) == pre.inline(i - 2));
        }
        if pre.group_start(i - 1) {
            assert(post.layout_to(i) == post.layout_to(i - 1) + seq![pre.inline(i - 1)]
                + pre.recs[i - 1].block_lines);
            assert(pre.layout_to(i) == pre.layout_to(i - 1) + seq![pre.inline(i - 1)]
                + pre.recs[i - 1].block_lines);
        } else {
            assert(post.layout_to(i) == post.layout_to(i - 1) + Seq::<LineId>::empty()
                + pre.recs[i - 1].block_lines);
            assert(pre.layout_to(i) == pre.layout_to(i - 1) + Seq::<LineId>::empty()
                + pre.recs[i - 1].block_lines);
        }
        assert(post.layout_to(i) =~= pre.layout_to(i).insert(pos, nid));
    }
}

/// A block line is never any element's inline line: the layout gives the
/// two different kinds of slots.
#[verifier::rlimit(100)]
#[verifier::spinoff_prover]
proof fn lemma_block_not_inline(m: CoordModel, k: int, brel: int)
    requires
        m.wf(),
        0 <= k < m.n(),
        0 <= brel < m.recs[k].block_lines.len(),
    ensures
        forall|i: int|
            0 <= i < m.n() ==> #[trigger] m.inline(i) != m.recs[k].block_lines[brel],
{
    let bid = m.recs[k].block_lines[brel];
    lemma_block_line_index(m, k, brel);
    let pos = m.block_position(k, brel);
    lemma_group_first(m, k);
    lemma_layout_group(m, k);
    assert(pos < m.layout_to(k + 1).len());
    assert forall|i: int| 0 <= i < m.n() implies #[trigger] m.inline(i) != bid by {
        if m.inline(i) == bid {
            lemma_group_first(m, i);
            lemma_layout_group(m, i);
            let gfi = m.group_first(i);
            assert(m.line_of(i) == m.layout_to(gfi).len());
            assert(m.line_of(i) == index_of_line(m.lines, m.inline(i)));
            assert(index_of_line(m.lines, bid) == pos);
            assert(m.layout_to(gfi).len() == pos);
            if gfi <= k {
                assert(m.layout_to(gfi + 1).len() >= m.layout_to(gfi).len() + 1) by {
                    assert(m.group_start(gfi));
                    assert(m.layout_to(gfi + 1) == m.layout_to(gfi) + seq![m.inline(gfi)]
                        + m.recs[gfi].block_lines);
                }
                if gfi == k {
                    assert(m.group_start(k));
                    assert(pos >= m.layout_to(k).len() + 1);
                } else {
                    lemma_layout_prefix(m, gfi + 1, k);
                    assert(pos >= m.layout_to(k).len());
                }
                assert(false);
            } else {
                lemma_layout_prefix(m, k + 1, gfi);
                assert(m.layout_to(gfi).len() >= m.layout_to(k + 1).len());
                assert(false);
            }
        }
    }
}

/// After removing a block line, identifiers stay distinct and bounded.
#[verifier::rlimit(100)]
#[verifier::spinoff_prover]
proof fn lemma_remove_block_lines_wf(pre: CoordModel, post: CoordModel, k: int, brel: int)
    requires
        pre.wf(),
        0 <= k < pre.n(),
        0 <= brel < pre.recs[k].block_lines.len(),
        post == pre.with_block_removed(k, brel),
    ensures
        lines_wf(post.lines, post.next_line, post.next_segment),
{
    lemma_block_line_index(pre, k, brel);
    let pos = pre.block_position(k, brel);
    assert(0 <= pos < pre.lines.len());
    assert(post.lines.len() == pre.lines.len() - 1);
    assert(forall|w: int| 0 <= w < pos ==> post.lines[w] == pre.lines[w]);
    assert(forall|w: int| pos <= w < post.lines.len() ==> post.lines[w] == pre.lines[w + 1]);
    assert forall|w1: int, w2: int|
        0 <= w1 < w2 < post.lines.len() implies #[trigger] post.lines[w1].id
        != #[trigger] post.lines[w2].id by {
        let q1 = if w1 < pos { w1 } else { w1 + 1 };
        let q2 = if w2 < pos { w2 } else { w2 + 1 };
        assert(post.lines[w1].id == pre.lines[q1].id);
        assert(post.lines[w2].id == pre.lines[q2].id);
        assert(q1 < q2);
    }
    assert forall|w: int|
        0 <= w < post.lines.len() implies (#[trigger] post.lines[w].id).0 < post.next_line by {
        let q = if w < pos { w } else { w + 1 };
        assert(post.lines[w].id == pre.lines[q].id);
    }
    assert forall|w: int, j: int|
        0 <= w < post.lines.len() && 0 <= j < post.lines[w].segs.len() implies (
    #[trigger] post.lines[w].segs[j].id).0 < post.next_segment by {
        let q = if w < pos { w } else { w + 1 };
        assert(post.lines[w].segs[j] == pre.lines[q].segs[j]);
    }
    assert forall|w1: int, j1: int, w2: int, j2: int|
        0 <= w1 < post.lines.len() && 0 <= j1 < post.lines[w1].segs.len() && 0 <= w2
        < post.lines.len() && 0 <= j2 < post.lines[w2].segs.len() && (w1 != w2 || j1 != j2)
        implies #[trigger] post.lines[w1].segs[j1].id != #[trigger] post.lines[w2].segs[j2].id by {
        let q1 = if w1 < pos { w1 } else { w1 + 1 };
        let q2 = if w2 < pos { w2 } else { w2 + 1 };
        assert(post.lines[w1].segs[j1] == pre.lines[q1].segs[j1]);
        assert(post.lines[w2].segs[j2] == pre.lines[q2].segs[j2]);
        assert(q1 != q2 || j1 != j2);
    }
}

/// Removing a block line preserves well-formedness.
#[verifier::rlimit(100)]
#[verifier::spinoff_prover]
proof fn lemma_remove_block_wf(pre: CoordModel, post: CoordModel, k: int, brel: int)
    requires
        pre.wf(),
        0 <= k < pre.n(),
        0 <= brel < pre.recs[k].block_lines.len(),
        post == pre.with_block_removed(k, brel),
    ensures
        post.wf(),
{
    let pos = pre.block_position(k, brel);
    let n = pre.n();
    lemma_block_line_index(pre, k, brel);
    let bid = pre.recs[k].block_lines[brel];
    assert(0 <= pos < pre.lines.len() && pre.lines[pos].id == bid);
    assert(pre.group_end(k));
    lemma_block_not_inline(pre, k, brel);
    // the reshaped table
    assert(post.lines.len() == pre.lines.len() - 1);
    assert(forall|w: int| 0 <= w < pos ==> post.lines[w] == pre.lines[w]);
    assert(forall|w: int| pos <= w < post.lines.len() ==> post.lines[w] == pre.lines[w + 1]);
    assert(forall|i: int| 0 <= i < n ==> post.inline(i) == pre.inline(i));
    assert forall|i: int| 0 <= i < n implies post.run_offset(i) == pre.run_offset(i) by {
        lemma_run_offset_congruence(pre, post, i);
    }
    // layout loses exactly the removed line
    assert(post.layout_to(k + 1) =~= pre.layout_to(k + 1).remove(pos)) by {
        lemma_layout_congruence(pre, post, k);
        assert(post.group_start(k) == pre.group_start(k));
        assert(post.recs[k].block_lines == pre.recs[k].block_lines.remove(brel));
        assert(post.layout_to(k + 1) == post.layout_to(k) + (if pre.group_start(k) {
            seq![pre.inline(k)]
        } else {
            Seq::empty()
        }) + pre.recs[k].block_lines.remove(brel));
        assert(pre.layout_to(k + 1) == pre.layout_to(k) + (if pre.group_start(k) {
            seq![pre.inline(k)]
        } else {
            Seq::empty()
        }) + pre.recs[k].block_lines);
    }
    assert forall|i: int|
        k + 1 <= i <= n implies #[trigger] post.layout_to(i) == pre.layout_to(i).remove(pos) by {
        lemma_remove_block_layout(pre, post, k, brel, i);
    }
    assert(ids_of(post.lines) =~= ids_of(pre.lines).remove(pos));
    assert(ids_of(post.lines) == post.layout_to(post.n()));
    lemma_remove_block_lines_wf(pre, post, k, brel);
    assert forall|i: int|
        0 <= i < n implies has_line_id(post.lines, #[trigger] post.inline(i))
        && post.lines[index_of_line(post.lines, post.inline(i))]
        == pre.lines[pre.line_of(i)] by {
        let w = pre.line_of(i);
        assert(has_line_id(pre.lines, pre.inline(i)));
        assert(0 <= w < pre.lines.len() && pre.lines[w].id == pre.inline(i));
        assert(w != pos);
        let t = if w < pos { w } else { w - 1 };
        assert(post.lines[t].id == pre.inline(i));
        assert(has_line_id(post.lines, post.inline(i)));
        let w2 = index_of_line(post.lines, post.inline(i));
        assert(0 <= w2 < post.lines.len() && post.lines[w2].id == post.inline(i));
        assert(w2 == t);
        assert(post.lines[t] == pre.lines[w]);
    }
    assert(forall|i: int| 0 <= i < n ==> #[trigger] post.group_end(i) == pre.group_end(i));
    assert(post.wf());
}

/// After a block-line removal on `k`, later layouts lose exactly that
/// line.
#[verifier::rlimit(100)]
#[verifier::spinoff_prover]
proof fn lemma_remove_block_layout(pre: CoordModel, post: CoordModel, k: int, brel: int, i: int)
    requires
        pre.wf(),
        0 <= k < pre.n(),
        0 <= brel < pre.recs[k].block_lines.len(),
        post == pre.with_block_removed(k, brel),
        k + 1 <= i <= pre.n(),
        post.layout_to(k + 1) == pre.layout_to(k + 1).remove(pre.block_position(k, brel)),
        pre.block_position(k, brel) < pre.layout_to(k + 1).len(),
        0 <= pre.block_position(k, brel),
    ensures
        post.layout_to(i) == pre.layout_to(i).remove(pre.block_position(k, brel)),
    decreases i,
{
    let pos = pre.block_position(k, brel);
    if i > k + 1 {
        lemma_remove_block_layout(pre, post, k, brel, i - 1);
        lemma_layout_prefix(pre, k + 1, i - 1);
        assert(post.recs[i - 1] == pre.recs[i - 1]);
        assert(post.group_start(i - 1) == pre.group_start(i - 1)) by {
            assert(post.inline(i - 1) == pre.inline(i - 1));
            assert(post.inline(i - 2) == pre.inline(i - 2));
        }
        if pre.group_start(i - 1) {
            assert(post.layout_to(i) == post.layout_to(i - 1) + seq![pre.inline(i - 1)]
                + pre.recs[i - 1].block_lines);
            assert(pre.layout_to(i) == pre.layout_to(i - 1) + seq![pre.inline(i - 1)]
                + pre.recs[i - 1].block_lines);
        } else {
            assert(post.layout_to(i) == post.layout_to(i - 1) + Seq::<LineId>::empty()
                + pre.recs[i - 1].block_lines);
            assert(pre.layout_to(i) == pre.layout_to(i - 1) + Seq::<LineId>::empty()
                + pre.recs[i - 1].block_lines);
        }
        assert(post.layout_to(i) =~= pre.layout_to(i).remove(pos));
    }
}

/// After a join below `k`, a reparented member's run offset grows by the
/// length of `k`'s line: the merged segments precede its own.
#[verifier::spinoff_prover]
#[verifier::rlimit(100)]
proof fn lemma_join_run_member(pre: CoordModel, post: CoordModel, k: int, i: int)
    requires
        pre.wf(),
        0 <= k < pre.n() - 1,
        pre.recs[k].block_lines.len() == 0,
        pre.group_end(k),
        post == pre.with_groups_joined(k),
        k < i < pre.n(),
        pre.inline(i) == pre.inline(k + 1),
    ensures
        post.run_offset(i) == pre.run_offset(i) + pre.lines[pre.line_of(k)].segs.len(),
    decreases i,
{
    let l = pre.inline(k);
    let l2 = pre.inline(k + 1);
    assert(l2 != l);
    if i == k + 1 {
        assert(post.inline(k + 1) == l && post.inline(k) == l);
        assert(!post.group_start(k + 1));
        assert(post.run_offset(k + 1) == post.run_offset(k) + pre.recs[k].segments.len());
        lemma_run_offset_congruence(pre, post, k);
        assert(pre.group_start(k + 1));
        assert(pre.run_offset(k + 1) == 0);
        assert(pre.lines[pre.line_of(k)].segs.len() == pre.run_offset(k)
            + pre.recs[k].segments.len());
    } else {
        assert(pre.inline(i - 1) == l2) by {
            assert(k + 1 <= i - 1 <= i);
        }
        lemma_join_run_member(pre, post, k, i - 1);
        assert(post.inline(i) == l && post.inline(i - 1) == l);
        assert(!post.group_start(i));
        assert(!pre.group_start(i));
        assert(post.recs[i - 1].segments == pre.recs[i - 1].segments);
    }
}

/// After a join below `k`, elements outside the moved group keep their run
/// offsets.
#[verifier::spinoff_prover]
#[verifier::rlimit(100)]
proof fn lemma_join_run_other(pre: CoordModel, post: CoordModel, k: int, i: int)
    requires
        pre.wf(),
        0 <= k < pre.n() - 1,
        pre.recs[k].block_lines.len() == 0,
        pre.group_end(k),
        post == pre.with_groups_joined(k),
        0 <= i < pre.n(),
        i <= k || pre.inline(i) != pre.inline(k + 1),
    ensures
        post.run_offset(i) == pre.run_offset(i),
    decreases i,
{
    let l = pre.inline(k);
    let l2 = pre.inline(k + 1);
    if i <= k {
        lemma_run_offset_congruence(pre, post, i);
    } else {
        assert(post.inline(i) == pre.inline(i));
        assert(pre.inline(i) != l) by {
            if pre.inline(i) == l {
                assert(k <= k + 1 <= i);
                assert(pre.inline(k + 1) == l);
            }
        }
        if pre.group_start(i) {
            assert(post.group_start(i)) by {
                if pre.inline(i - 1) == l2 && i - 1 > k {
                    assert(post.inline(i - 1) == l);
                } else {
                    assert(post.inline(i - 1) == pre.inline(i - 1));
                }
            }
        } else {
            assert(pre.inline(i - 1) == pre.inline(i));
            assert(i - 1 != k) by {
                if i - 1 == k {
                    assert(pre.inline(i) == l);
                }
            }
            assert(pre.inline(i - 1) != l2);
            assert(post.inline(i - 1) == pre.inline(i - 1));
            assert(!post.group_start(i));
            lemma_join_run_other(pre, post, k, i - 1);
            assert(post.recs[i - 1].segments == pre.recs[i - 1].segments);
        }
    }
}

/// After a join below `k`, the layout loses exactly the joined group's
/// line.
#[verifier::spinoff_prover]
#[verifier::rlimit(100)]
proof fn lemma_join_layout(pre: CoordModel, post: CoordModel, k: int, i: int)
    requires
        pre.wf(),
        0 <= k < pre.n() - 1,
        pre.recs[k].block_lines.len() == 0,
        pre.group_end(k),
        post == pre.with_groups_joined(k),
        0 <= i <= pre.n(),
    ensures
        i <= k + 1 ==> post.layout_to(i) == pre.layout_to(i),
        i > k + 1 ==> post.layout_to(i) == pre.layout_to(i).remove(
            pre.layout_to(k + 1).len() as int,
        ),
    decreases i,
{
    let l = pre.inline(k);
    let l2 = pre.inline(k + 1);
    let p = pre.layout_to(k + 1).len() as int;
    if i <= k + 1 {
        lemma_layout_congruence(pre, post, i);
    } else if i == k + 2 {
        lemma_layout_congruence(pre, post, k + 1);
        assert(post.inline(k + 1) == l && post.inline(k) == l);
        assert(!post.group_start(k + 1));
        assert(pre.group_start(k + 1));
        assert(post.recs[k + 1].block_lines == pre.recs[k + 1].block_lines);
        assert(post.layout_to(k + 2) == post.layout_to(k + 1) + Seq::<LineId>::empty()
            + pre.recs[k + 1].block_lines);
        assert(pre.layout_to(k + 2) == pre.layout_to(k + 1) + seq![l2]
            + pre.recs[k + 1].block_lines);
        assert(post.layout_to(k + 2) =~= pre.layout_to(k + 2).remove(p));
    } else {
        lemma_join_layout(pre, post, k, i - 1);
        assert(pre.group_start(k + 1));
        assert(pre.layout_to(k + 2) == pre.layout_to(k + 1) + seq![pre.inline(k + 1)]
            + pre.recs[k + 1].block_lines);
        assert(pre.layout_to(k + 2).len() >= p + 1);
        lemma_layout_prefix(pre, k + 2, i - 1);
        assert(pre.layout_to(i - 1).len() >= p + 1);
        assert(post.recs[i - 1].block_lines == pre.recs[i - 1].block_lines);
        let member = pre.inline(i - 1) == l2 && i - 1 > k;
        if member {
            assert(post.inline(i - 1) == l);
            assert(pre.inline(i - 2) == l2) by {
                assert(k + 1 <= i - 2 <= i - 1);
            }
            assert(post.inline(i - 2) == l);
            assert(!post.group_start(i - 1));
            assert(!pre.group_start(i - 1));
            assert(post.layout_to(i) == post.layout_to(i - 1) + Seq::<LineId>::empty()
                + pre.recs[i - 1].block_lines);
            assert(pre.layout_to(i) == pre.layout_to(i - 1) + Seq::<LineId>::empty()
                + pre.recs[i - 1].block_lines);
            assert(post.layout_to(i) =~= pre.layout_to(i).remove(p));
        } else {
            assert(post.inline(i - 1) == pre.inline(i - 1));
            assert(pre.inline(i - 1) != l) by {
                if pre.inline(i - 1) == l {
                    assert(k <= k + 1 <= i - 1);
                    assert(pre.inline(k + 1) == l);
                }
            }
            assert(post.group_start(i - 1) == pre.group_start(i - 1)) by {
                if pre.inline(i - 2) == l2 && i - 2 > k {
                    assert(post.inline(i - 2) == l);
                    assert(pre.inline(i - 1) != l2);
                } else {
                    assert(post.inline(i - 2) == pre.inline(i - 2));
                }
            }
            if pre.group_start(i - 1) {
                assert(post.layout_to(i) == post.layout_to(i - 1) + seq![pre.inline(i - 1)]
                    + pre.recs[i - 1].block_lines);
                assert(pre.layout_to(i) == pre.layout_to(i - 1) + seq![pre.inline(i - 1)]
                    + pre.recs[i - 1].block_lines);
            } else {
                assert(post.layout_to(i) == post.layout_to(i - 1) + Seq::<LineId>::empty()
                    + pre.recs[i - 1].block_lines);
                assert(pre.layout_to(i) == pre.layout_to(i - 1) + Seq::<LineId>::empty()
                    + pre.recs[i - 1].block_lines);
            }
            assert(post.layout_to(i) =~= pre.layout_to(i).remove(p));
        }
    }
}

/// Joining the group after `k`'s collapsed section back onto its line
/// preserves well-formedness.
#[verifier::rlimit(100)]
#[verifier::spinoff_prover]
proof fn lemma_join_wf(pre: CoordModel, post: CoordModel, k: int)
    requires
        pre.wf(),
        0 <= k < pre.n() - 1,
        pre.recs[k].block_lines.len() == 0,
        pre.group_end(k),
        post == pre.with_groups_joined(k),
    ensures
        post.wf(),
{
    let l = pre.inline(k);
    let l2 = pre.inline(k + 1);
    let li = pre.line_of(k);
    let li2 = pre.line_of(k + 1);
    let n = pre.n();
    let lseg = pre.lines[li].segs.len() as int;
    assert(l2 != l);
    assert(has_line_id(pre.lines, l));
    assert(0 <= li < pre.lines.len() && pre.lines[li].id == l);
    assert(has_line_id(pre.lines, l2));
    assert(0 <= li2 < pre.lines.len() && pre.lines[li2].id == l2);
    assert(li != li2);
    // the joined line sits immediately after k's section
    lemma_group_first(pre, k);
    lemma_layout_group(pre, k);
    let gf = pre.group_first(k);
    assert forall|j: int| gf <= j <= k implies (#[trigger] pre.recs[j].block_lines).len() == 0 by {
        if j < k {
            assert(pre.inline(j) == l && pre.inline(j + 1) == l);
            assert(!pre.group_end(j));
        }
        if pre.recs[j].block_lines.len() > 0 {
            assert(pre.group_end(j));
        }
    }
    lemma_blocks_between_zero(pre, gf, k);
    assert(li == pre.layout_to(gf).len());
    assert(pre.layout_to(k + 1).len() == li + 1);
    lemma_group_first(pre, k + 1);
    lemma_layout_group(pre, k + 1);
    assert(pre.group_first(k + 1) == k + 1);
    assert(li2 == pre.layout_to(k + 1).len());
    assert(li2 == li + 1);
    // no element at or before k, nor outside the moved group, uses l2; no
    // element after k uses l
    assert forall|i: int| 0 <= i < n && i <= k implies pre.inline(i) != l2 by {
        if pre.inline(i) == l2 {
            assert(i <= k <= k + 1);
            assert(pre.inline(k) == pre.inline(i));
        }
    }
    assert forall|i: int| k < i < n implies pre.inline(i) != l by {
        if pre.inline(i) == l {
            assert(k <= k + 1 <= i);
            assert(pre.inline(k + 1) == pre.inline(k));
        }
    }
    // the reshaped table
    assert(post.lines.len() == pre.lines.len() - 1);
    assert(post.lines[li].id == l && post.lines[li].segs == pre.lines[li].segs
        + pre.lines[li2].segs);
    assert(forall|w: int| 0 <= w < li ==> post.lines[w] == pre.lines[w]);
    assert(forall|w: int| li < w < post.lines.len() ==> post.lines[w] == pre.lines[w + 1]);
    assert(forall|i: int|
        0 <= i < n ==> post.inline(i) == (if i > k && pre.inline(i) == l2 {
            l
        } else {
            pre.inline(i)
        }));
    // run offsets
    assert forall|i: int|
        0 <= i < n implies post.run_offset(i) == pre.run_offset(i) + (
    if i > k && pre.inline(i) == l2 {
        lseg
    } else {
        0int
    }) by {
        if i > k && pre.inline(i) == l2 {
            lemma_join_run_member(pre, post, k, i);
        } else {
            lemma_join_run_other(pre, post, k, i);
        }
    }
    // layout
    lemma_join_layout(pre, post, k, n);
    assert(ids_of(post.lines) =~= ids_of(pre.lines).remove(li2));
    assert(ids_of(post.lines) == post.layout_to(post.n()));
    // identifiers stay distinct and bounded
    assert(lines_wf(post.lines, post.next_line, post.next_segment)) by {
        assert forall|w1: int, w2: int|
            0 <= w1 < w2 < post.lines.len() implies #[trigger] post.lines[w1].id
            != #[trigger] post.lines[w2].id by {
            let q1 = if w1 <= li { w1 } else { w1 + 1 };
            let q2 = if w2 <= li { w2 } else { w2 + 1 };
            assert(post.lines[w1].id == pre.lines[q1].id);
            assert(post.lines[w2].id == pre.lines[q2].id);
            assert(q1 < q2);
        }
        assert forall|w: int|
            0 <= w < post.lines.len() implies (#[trigger] post.lines[w].id).0 < post.next_line by {
            let q = if w <= li { w } else { w + 1 };
            assert(post.lines[w].id == pre.lines[q].id);
        }
        assert forall|w: int, j: int|
            0 <= w < post.lines.len() && 0 <= j < post.lines[w].segs.len() implies (
        #[trigger] post.lines[w].segs[j].id).0 < post.next_segment by {
            if w == li {
                if j < lseg {
                    assert(post.lines[w].segs[j] == pre.lines[li].segs[j]);
                } else {
                    assert(post.lines[w].segs[j] == pre.lines[li2].segs[j - lseg]);
                }
            } else {
                let q = if w < li { w } else { w + 1 };
                assert(post.lines[w].segs[j] == pre.lines[q].segs[j]);
            }
        }
        assert forall|w1: int, j1: int, w2: int, j2: int|
            0 <= w1 < post.lines.len() && 0 <= j1 < post.lines[w1].segs.len() && 0 <= w2
            < post.lines.len() && 0 <= j2 < post.lines[w2].segs.len() && (w1 != w2 || j1 != j2)
            implies #[trigger] post.lines[w1].segs[j1].id
            != #[trigger] post.lines[w2].segs[j2].id by {
            let q1 = if w1 < li { w1 } else if w1 == li && j1 < lseg { li } else if w1 == li { li2 } else { w1 + 1 };
            let r1 = if w1 == li && j1 >= lseg { j1 - lseg } else { j1 };
            let q2 = if w2 < li { w2 } else if w2 == li && j2 < lseg { li } else if w2 == li { li2 } else { w2 + 1 };
            let r2 = if w2 == li && j2 >= lseg { j2 - lseg } else { j2 };
            assert(post.lines[w1].segs[j1] == pre.lines[q1].segs[r1]);
            assert(post.lines[w2].segs[j2] == pre.lines[q2].segs[r2]);
            assert(q1 != q2 || r1 != r2);
            assert(pre.lines[q1].segs[r1].id != pre.lines[q2].segs[r2].id);
        }
    }
    // line indices
    assert forall|i: int|
        0 <= i < n implies has_line_id(post.lines, #[trigger] post.inline(i)) && index_of_line(
        post.lines,
        post.inline(i),
    ) == (if post.inline(i) == l {
        li
    } else if pre.line_of(i) < li {
        pre.line_of(i)
    } else {
        pre.line_of(i) - 1
    }) by {
        let w = pre.line_of(i);
        assert(has_line_id(pre.lines, pre.inline(i)));
        assert(0 <= w < pre.lines.len() && pre.lines[w].id == pre.inline(i));
        if post.inline(i) == l {
            assert(post.lines[li].id == l);
            assert(has_line_id(post.lines, post.inline(i)));
            let w2 = index_of_line(post.lines, post.inline(i));
            assert(0 <= w2 < post.lines.len() && post.lines[w2].id == l);
            assert(w2 == li);
        } else {
            assert(pre.inline(i) != l && pre.inline(i) != l2);
            assert(w != li && w != li2);
            let t = if w < li { w } else { w - 1 };
            assert(post.lines[t].id == pre.inline(i));
            assert(has_line_id(post.lines, post.inline(i)));
            let w2 = index_of_line(post.lines, post.inline(i));
            assert(0 <= w2 < post.lines.len() && post.lines[w2].id == post.inline(i));
            assert(w2 == t);
        }
    }
    // sortedness
    assert(forall|i: int, j: int|
        0 <= i < j < post.n() ==> id_lt(#[trigger] post.elems[i], #[trigger] post.elems[j]));
    // contiguity: the merged group and everything else
    assert forall|i: int, j: int, kk: int|
        0 <= i <= j <= kk < post.n() && #[trigger] post.inline(i) == #[trigger] post.inline(kk)
        implies #[trigger] post.inline(j) == post.inline(i) by {
        if post.inline(i) == l {
            if kk <= k {
                assert(pre.inline(j) == l);
            } else if i > k {
                assert(pre.inline(i) == l2 && pre.inline(kk) == l2);
                assert(pre.inline(j) == l2);
                assert(j > k);
            } else {
                // i within the old l group, kk within the moved group
                assert(pre.inline(i) == l);
                if j <= k {
                    assert(pre.inline(i) == pre.inline(k));
                    assert(pre.inline(j) == pre.inline(i));
                } else {
                    assert(pre.inline(kk) == l2);
                    assert(pre.inline(k + 1) == l2);
                    assert(k + 1 <= j <= kk);
                    assert(pre.inline(j) == l2);
                }
            }
        } else {
            assert(pre.inline(i) == post.inline(i) && pre.inline(kk) == post.inline(kk));
            assert(pre.inline(j) == pre.inline(i));
            assert(pre.inline(j) != l2) by {
                if pre.inline(j) == l2 {
                    assert(j > k);
                }
            }
        }
    }
    // group ends
    assert forall|i: int|
        0 <= i < n && i != k implies #[trigger] post.group_end(i) == pre.group_end(i) by {
        if i == n - 1 {
        } else {
            if pre.inline(i) == l2 && pre.inline(i + 1) == l2 {
            } else if pre.inline(i) == l2 || pre.inline(i + 1) == l2 {
                assert(post.inline(i) != post.inline(i + 1) <==> pre.inline(i) != pre.inline(
                    i + 1,
                )) by {
                    if i > k && pre.inline(i) == l2 {
                        assert(post.inline(i) == l);
                        assert(pre.inline(i + 1) != l);
                    }
                    if i + 1 > k && pre.inline(i + 1) == l2 && i != k {
                        assert(post.inline(i + 1) == l);
                        assert(pre.inline(i) != l);
                    }
                }
            }
        }
    }
    // only last members own block lines
    assert forall|i: int|
        0 <= i < n && (#[trigger] post.recs[i].block_lines).len() > 0 implies post.group_end(
        i,
    ) by {
        assert(pre.recs[i].block_lines.len() > 0);
        assert(pre.group_end(i));
        assert(i != k);
    }
    // runs tile the lines
    assert forall|i: int|
        0 <= i < n implies post.run_offset(i) + (#[trigger] post.recs[i].segments).len()
        <= post.lines[index_of_line(post.lines, post.inline(i))].segs.len() by {
        lemma_run_offset_nonneg(pre, i);
        if post.inline(i) == l {
            assert(post.lines[li].segs.len() == pre.lines[li].segs.len()
                + pre.lines[li2].segs.len());
            if i <= k {
                assert(pre.run_offset(i) + pre.recs[i].segments.len() <= pre.lines[li].segs.len());
            } else {
                assert(pre.run_offset(i) + pre.recs[i].segments.len()
                    <= pre.lines[li2].segs.len());
            }
        } else {
            assert(post.lines[index_of_line(post.lines, post.inline(i))].segs == pre.lines[
                pre.line_of(i)].segs);
        }
    }
    assert forall|i: int, j: int|
        0 <= i < n && 0 <= j < post.recs[i].segments.len() implies post.lines[index_of_line(
        post.lines,
        post.inline(i),
    )].segs[post.run_offset(i) + j].id == #[trigger] post.recs[i].segments[j] by {
        lemma_run_offset_nonneg(pre, i);
        assert(pre.lines[pre.line_of(i)].segs[pre.run_offset(i) + j].id
            == pre.recs[i].segments[j]);
        if post.inline(i) == l {
            if i <= k {
                assert(pre.run_offset(i) + pre.recs[i].segments.len() <= pre.lines[li].segs.len());
                assert(post.lines[li].segs[pre.run_offset(i) + j]
                    == pre.lines[li].segs[pre.run_offset(i) + j]);
            } else {
                assert(post.run_offset(i) + j == lseg + (pre.run_offset(i) + j));
                assert(post.lines[li].segs[lseg + pre.run_offset(i) + j]
                    == pre.lines[li2].segs[pre.run_offset(i) + j]);
            }
        } else {
            assert(post.lines[index_of_line(post.lines, post.inline(i))].segs == pre.lines[
                pre.line_of(i)].segs);
        }
    }
    // group ends close out their lines
    assert forall|i: int|
        0 <= i < n && #[trigger] post.group_end(i) implies post.lines[index_of_line(
        post.lines,
        post.inline(i),
    )].segs.len() == post.run_offset(i) + post.recs[i].segments.len() by {
        assert(i != k);
        assert(pre.group_end(i));
        assert(pre.lines[pre.line_of(i)].segs.len() == pre.run_offset(i)
            + pre.recs[i].segments.len());
        if post.inline(i) == l {
            assert(i > k && pre.inline(i) == l2) by {
                if i <= k {
                    assert(pre.inline(i) == pre.inline(k));
                    assert(!pre.group_end(i) || i == k);
                }
            }
            assert(post.lines[li].segs.len() == pre.lines[li].segs.len()
                + pre.lines[li2].segs.len());
        } else {
            assert(post.lines[index_of_line(post.lines, post.inline(i))].segs == pre.lines[
                pre.line_of(i)].segs);
        }
    }
    assert(post.wf());
}

/// Splitting an element's inline line (by giving it its first block line)
/// and then immediately releasing that block line, with no other mutation
/// in between, restores the original state exactly: one inline-line group
/// with the original member order, per-member segment lists, block lists,
/// and buffer lines.
#[verifier::rlimit(100)]
#[verifier::spinoff_prover]
pub proof fn lemma_split_join_round_trip(m: CoordModel, k: int)
    requires
        m.wf(),
        0 <= m.next_line,
        m.next_line + 1 < u64::MAX,
        0 <= k < m.n(),
        !m.group_end(k),
        m.recs[k].block_lines.len() == 0,
    ensures
        m.after_add_line(k).after_remove_line(k, 0).elems == m.elems,
        m.after_add_line(k).after_remove_line(k, 0).recs == m.recs,
        m.after_add_line(k).after_remove_line(k, 0).lines == m.lines,
{
    let l = m.inline(k);
    let nid = m.next_line_id();
    let li = m.line_of(k);
    let b = m.split_boundary(k);
    let n = m.n();
    let m1 = m.with_group_split(k);
    lemma_split_wf(m, m1, k);
    assert(m.after_add_line(k) == m1.with_block_inserted(k, 0));
    let m2 = m1.with_block_inserted(k, 0);
    assert(has_line_id(m.lines, l));
    assert(0 <= li < m.lines.len() && m.lines[li].id == l);
    assert(l.0 < m.next_line);
    assert(nid != l);
    // the split line's position facts, in the split state
    assert(m1.lines.len() == m.lines.len() + 1);
    assert(m1.lines[li].id == l);
    assert(m1.lines[li + 1].id == nid);
    assert(m1.inline(k) == l);
    assert(m1.recs[k].segments == m.recs[k].segments);
    assert(m1.recs[k].block_lines == m.recs[k].block_lines);
    let pos = m1.block_position(k, 0);
    // the block insertion and removal cancel
    assert(m2.recs[k].block_lines.len() == 1);
    assert(m2.n() == n);
    assert(k < n - 1);
    assert(m2.after_remove_line(k, 0) == m2.with_block_removed(k, 0).with_groups_joined(k));
    let m3 = m2.with_block_removed(k, 0);
    assert(m2.block_position(k, 0) == pos) by {
        lemma_layout_congruence(m2, m1, k);
        assert(m2.layout_to(k) == m1.layout_to(k));
        assert(m2.group_start(k) == m1.group_start(k));
    }
    lemma_group_first(m1, k);
    lemma_layout_group(m1, k);
    assert(m1.layout_to(k + 1) == m1.layout_to(k) + (if m1.group_start(k) {
        seq![m1.inline(k)]
    } else {
        Seq::empty()
    }) + m1.recs[k].block_lines);
    assert(pos == m1.layout_to(k + 1).len());
    assert(0 <= pos <= m1.lines.len());
    assert(m3.lines =~~= m1.lines) by {
        assert(m2.lines == m1.lines.insert(
            pos,
            LineModel { id: m1.next_line_id(), segs: Seq::empty() },
        ));
        assert(m3.lines == m2.lines.remove(pos));
    }
    assert(m3.recs =~~= m1.recs) by {
        assert(m2.recs[k].block_lines == m1.recs[k].block_lines.insert(0, m1.next_line_id()));
        assert(m2.recs[k].block_lines.remove(0) =~= m1.recs[k].block_lines);
    }
    assert(m3.elems == m.elems);
    let m4 = m3.with_groups_joined(k);
    // indices in the cancelled state match the split state
    assert(m3.inline(k) == l && m3.inline(k + 1) == nid);
    assert(m3.line_of(k) == li) by {
        assert(m3.lines[li].id == l);
        assert(has_line_id(m3.lines, l));
        let w = index_of_line(m3.lines, l);
        assert(0 <= w < m3.lines.len() && m3.lines[w].id == l);
        lemma_split_lines_wf(m, m1, k);
        assert(w == li);
    }
    assert(m3.line_of(k + 1) == li + 1) by {
        assert(m3.lines[li + 1].id == nid);
        assert(has_line_id(m3.lines, nid));
        let w = index_of_line(m3.lines, nid);
        assert(0 <= w < m3.lines.len() && m3.lines[w].id == nid);
        lemma_split_lines_wf(m, m1, k);
        assert(w == li + 1);
    }
    lemma_run_offset_nonneg(m, k);
    assert(m.run_offset(k) + m.recs[k].segments.len() <= m.lines[li].segs.len());
    assert(0 <= b <= m.lines[li].segs.len());
    assert(m4.lines =~~= m.lines) by {
        assert(m3.lines[li].segs == m.lines[li].segs.take(b));
        assert(m3.lines[li + 1].segs == m.lines[li].segs.skip(b));
        assert(m.lines[li].segs.take(b) + m.lines[li].segs.skip(b) =~= m.lines[li].segs);
    }
    assert(m4.recs =~~= m.recs) by {
        assert forall|i: int| 0 <= i < n implies #[trigger] m4.recs[i] == m.recs[i] by {
            if i <= k || m3.inline(i) != nid {
                assert(m4.recs[i] == m3.recs[i]);
                if i > k && m.inline(i) == l {
                    assert(m1.recs[i].inline_line == nid);
                    assert(m3.inline(i) == nid);
                    assert(false);
                }
                assert(m1.recs[i] == m.recs[i]);
            } else {
                assert(i > k && m.inline(i) == l);
                assert(m4.recs[i] == (RecordModel {
                    inline_line: m3.inline(k),
                    segments: m3.recs[i].segments,
                    block_lines: m3.recs[i].block_lines,
                }));
                assert(m3.recs[i].segments == m.recs[i].segments);
                assert(m3.recs[i].block_lines == m.recs[i].block_lines);
                assert(m.recs[i].inline_line == l);
                assert(m4.recs[i] =~~= m.recs[i]);
            }
        }
    }
    assert(m4.elems == m.elems);
}

/// A line keeps its identifier-addressed content when another line is
/// inserted.
pub proof fn lemma_line_kept_on_insert(
    pre: Seq<LineModel>,
    post: Seq<LineModel>,
    pos: int,
    added: LineModel,
    lid: LineId,
)
    requires
        forall|i: int, j: int| 0 <= i < j < pre.len() ==> #[trigger] pre[i].id != #[trigger] pre[j].id,
        0 <= pos <= pre.len(),
        post == pre.insert(pos, added),
        added.id != lid,
        has_line_id(pre, lid),
    ensures
        has_line_id(post, lid),
        post[index_of_line(post, lid)] == pre[index_of_line(pre, lid)],
{
    let w = index_of_line(pre, lid);
    assert(0 <= w < pre.len() && pre[w].id == lid);
    let t = if w < pos {
        w
    } else {
        w + 1
    };
    assert(post[t] == pre[w]);
    assert(has_line_id(post, lid));
    let w2 = index_of_line(post, lid);
    assert(0 <= w2 < post.len() && post[w2].id == lid);
    assert(w2 != pos);
    let q = if w2 < pos {
        w2
    } else {
        w2 - 1
    };
    assert(post[w2] == pre[q]);
    assert(q == w);
}

/// A line keeps its identifier-addressed content when another line is
/// updated.
pub proof fn lemma_line_kept_on_update(
    pre: Seq<LineModel>,
    post: Seq<LineModel>,
    pos: int,
    written: LineModel,
    lid: LineId,
)
    requires
        forall|i: int, j: int| 0 <= i < j < pre.len() ==> #[trigger] pre[i].id != #[trigger] pre[j].id,
        0 <= pos < pre.len(),
        post == pre.update(pos, written),
        pre[pos].id != lid,
        written.id == pre[pos].id,
        has_line_id(pre, lid),
    ensures
        has_line_id(post, lid),
        post[index_of_line(post, lid)] == pre[index_of_line(pre, lid)],
{
    let w = index_of_line(pre, lid);
    assert(0 <= w < pre.len() && pre[w].id == lid);
    assert(w != pos);
    assert(post[w] == pre[w]);
    assert(has_line_id(post, lid));
    let w2 = index_of_line(post, lid);
    assert(0 <= w2 < post.len() && post[w2].id == lid);
    assert(w2 != pos);
    assert(post[w2] == pre[w2]);
    assert(w2 == w);
}

/// A line keeps its identifier-addressed content when another line is
/// removed.
pub proof fn lemma_line_kept_on_remove(
    pre: Seq<LineModel>,
    post: Seq<LineModel>,
    pos: int,
    lid: LineId,
)
    requires
        forall|i: int, j: int| 0 <= i < j < pre.len() ==> #[trigger] pre[i].id != #[trigger] pre[j].id,
        0 <= pos < pre.len(),
        post == pre.remove(pos),
        pre[pos].id != lid,
        has_line_id(pre, lid),
    ensures
        has_line_id(post, lid),
        post[index_of_line(post, lid)] == pre[index_of_line(pre, lid)],
{
    let w = index_of_line(pre, lid);
    assert(0 <= w < pre.len() && pre[w].id == lid);
    assert(w != pos);
    let t = if w < pos {
        w
    } else {
        w - 1
    };
    assert(post[t] == pre[w]);
    assert(has_line_id(post, lid));
    let w2 = index_of_line(post, lid);
    assert(0 <= w2 < post.len() && post[w2].id == lid);
    let q = if w2 < pos {
        w2
    } else {
        w2 + 1
    };
    assert(post[w2] == pre[q]);
    assert(q == w);
}

/// Appending a fresh segment to a line that is no element's inline line
/// preserves well-formedness: the bookkeeping never looks inside it.
#[verifier::rlimit(100)]
#[verifier::spinoff_prover]
proof fn lemma_append_foreign_segment_wf(pre: CoordModel, post: CoordModel, w: int, sid: SegmentId)
    requires
        pre.wf(),
        0 <= w < pre.lines.len(),
        forall|i: int| 0 <= i < pre.n() ==> #[trigger] pre.inline(i) != pre.lines[w].id,
        sid.0 == pre.next_segment,
        post.elems == pre.elems,
        post.recs == pre.recs,
        post.next_line == pre.next_line,
        post.next_segment == pre.next_segment + 1,
        post.lines == pre.lines.update(
            w,
            (LineModel {
                id: pre.lines[w].id,
                segs: pre.lines[w].segs.push(SegModel { id: sid, text: Seq::empty(), style: None }),
            }),
        ),
    ensures
        post.wf(),
{
    assert(forall|i: int| 0 <= i < pre.lines.len() ==> #[trigger] post.lines[i].id == pre.lines[i].id);
    assert(forall|i: int| 0 <= i < pre.n() ==> #[trigger] post.inline(i) == pre.inline(i));
    lemma_layout_congruence(pre, post, pre.n());
    assert(ids_of(post.lines) =~= ids_of(pre.lines));
    assert forall|m: int| 0 <= m < post.n() implies post.run_offset(m) == pre.run_offset(m) by {
        lemma_run_offset_congruence(pre, post, m);
    }
    assert forall|i: int|
        0 <= i < post.n() implies has_line_id(post.lines, #[trigger] post.inline(i))
        && post.line_of(i) == pre.line_of(i) && post.lines[post.line_of(i)] == pre.lines[
        pre.line_of(i)] by {
        let v = pre.line_of(i);
        assert(has_line_id(pre.lines, pre.inline(i)));
        assert(0 <= v < pre.lines.len() && pre.lines[v].id == pre.inline(i));
        assert(v != w);
        assert(post.lines[v].id == post.inline(i));
        assert(has_line_id(post.lines, post.inline(i)));
        let v2 = post.line_of(i);
        assert(0 <= v2 < post.lines.len() && post.lines[v2].id == post.inline(i));
        assert(v2 == v);
        assert(post.lines[v2] == pre.lines[v]);
    }
    assert(lines_wf(post.lines, post.next_line, post.next_segment)) by {
        let p = pre.lines[w].segs.len() as int;
        assert forall|i: int, j: int|
            0 <= i < post.lines.len() && 0 <= j < post.lines[i].segs.len() implies (
        #[trigger] post.lines[i].segs[j].id).0 < post.next_segment by {
            if i == w && j == p {
                assert(post.lines[i].segs[j].id == sid);
            } else {
                assert(post.lines[i].segs[j] == pre.lines[i].segs[j]);
            }
        }
        assert forall|i1: int, j1: int, i2: int, j2: int|
            0 <= i1 < post.lines.len() && 0 <= j1 < post.lines[i1].segs.len() && 0 <= i2
            < post.lines.len() && 0 <= j2 < post.lines[i2].segs.len() && (i1 != i2 || j1 != j2)
            implies #[trigger] post.lines[i1].segs[j1].id
            != #[trigger] post.lines[i2].segs[j2].id by {
            if i1 == w && j1 == p {
                assert(post.lines[i2].segs[j2] == pre.lines[i2].segs[j2]);
                assert(pre.lines[i2].segs[j2].id.0 < pre.next_segment);
            } else if i2 == w && j2 == p {
                assert(post.lines[i1].segs[j1] == pre.lines[i1].segs[j1]);
                assert(pre.lines[i1].segs[j1].id.0 < pre.next_segment);
            } else {
                assert(post.lines[i1].segs[j1] == pre.lines[i1].segs[j1]);
                assert(post.lines[i2].segs[j2] == pre.lines[i2].segs[j2]);
            }
        }
    }
    assert(forall|m: int| 0 <= m < post.n() ==> #[trigger] post.group_end(m) == pre.group_end(m));
    assert forall|m: int|
        0 <= m < post.n() implies post.run_offset(m) + (#[trigger] post.recs[m].segments).len()
        <= post.lines[post.line_of(m)].segs.len() by {
        assert(pre.run_offset(m) + pre.recs[m].segments.len() <= pre.lines[pre.line_of(
            m,
        )].segs.len());
    }
    assert forall|m: int, j: int|
        0 <= m < post.n() && 0 <= j < post.recs[m].segments.len() implies post.lines[post.line_of(
        m,
    )].segs[post.run_offset(m) + j].id == #[trigger] post.recs[m].segments[j] by {
        assert(pre.lines[pre.line_of(m)].segs[pre.run_offset(m) + j].id
            == pre.recs[m].segments[j]);
    }
    assert forall|m: int|
        0 <= m < post.n() && #[trigger] post.group_end(m) implies post.lines[post.line_of(
        m,
    )].segs.len() == post.run_offset(m) + post.recs[m].segments.len() by {
        assert(pre.group_end(m));
        assert(pre.lines[pre.line_of(m)].segs.len() == pre.run_offset(m)
            + pre.recs[m].segments.len());
    }
    assert(post.wf());
}

/// What the add-line stage of a block-row append guarantees: the fresh
/// line is empty and registered, everything else keeps its content.
#[verifier::rlimit(100)]
#[verifier::spinoff_prover]
proof fn lemma_append_stage_add_line(m: CoordModel, m1: CoordModel, ki: int, lid: LineId)
    requires
        m.wf(),
        m1.wf(),
        0 <= ki < m.n(),
        0 <= m.next_line,
        m.next_line + 2 < u64::MAX,
        m1 == m.after_insert_line(ki, m.recs[ki].block_lines.len() as int),
        lid == m.add_line_result(ki),
    ensures
        m1.elems == m.elems,
        m1.recs.len() == m.recs.len(),
        m1.recs[ki].block_lines == m.recs[ki].block_lines.push(lid),
        m1.recs[ki].segments == m.recs[ki].segments,
        m1.recs[ki].inline_line == m.recs[ki].inline_line,
        forall|i: int|
            0 <= i < m.n() && i != ki ==> #[trigger] m1.recs[i].segments == m.recs[i].segments
                && m1.recs[i].block_lines == m.recs[i].block_lines,
        m1.run_offset(ki) == m.run_offset(ki),
        forall|lid0: LineId|
            has_line_id(m.lines, lid0) && lid0 != m.inline(ki) ==> #[trigger] has_line_id(
                m1.lines,
                lid0,
            ) && m1.lines[index_of_line(m1.lines, lid0)] == m.lines[index_of_line(m.lines, lid0)],
        forall|j: int|
            0 <= j < m.recs[ki].segments.len() ==> #[trigger] m1.lines[m1.line_of(ki)].segs[
                m1.run_offset(ki) + j] == m.lines[m.line_of(ki)].segs[m.run_offset(ki) + j],
        has_line_id(m1.lines, lid),
        m1.lines[index_of_line(m1.lines, lid)].segs.len() == 0,
        m1.lines[index_of_line(m1.lines, lid)].id == lid,
        lid.0 >= m.next_line,
        m1.next_line <= m.next_line + 2,
        m1.next_segment == m.next_segment,
{
    let l = m.inline(ki);
    assert(has_line_id(m.lines, l));
    let li = m.line_of(ki);
    assert(0 <= li < m.lines.len() && m.lines[li].id == l);
    assert(l.0 < m.next_line);
    lemma_run_offset_nonneg(m, ki);
    assert(m.run_offset(ki) + m.recs[ki].segments.len() <= m.lines[li].segs.len());
    if m.recs[ki].block_lines.len() == 0 && !m.group_end(ki) {
        lemma_append_add_line_split(m, m1, ki, lid);
    } else {
        lemma_append_add_line_plain(m, m1, ki, lid);
    }
}

/// The add-line stage when a split fires first.
#[verifier::rlimit(100)]
#[verifier::spinoff_prover]
proof fn lemma_append_add_line_split(m: CoordModel, m1: CoordModel, ki: int, lid: LineId)
    requires
        m.wf(),
        m1.wf(),
        0 <= ki < m.n(),
        0 <= m.next_line,
        m.next_line + 2 < u64::MAX,
        m.recs[ki].block_lines.len() == 0,
        !m.group_end(ki),
        m1 == m.after_insert_line(ki, 0),
        lid == m.add_line_result(ki),
    ensures
        m1.recs[ki].block_lines == m.recs[ki].block_lines.push(lid),
        m1.recs[ki].segments == m.recs[ki].segments,
        m1.recs[ki].inline_line == m.recs[ki].inline_line,
        forall|i: int|
            0 <= i < m.n() && i != ki ==> #[trigger] m1.recs[i].segments == m.recs[i].segments
                && m1.recs[i].block_lines == m.recs[i].block_lines,
        m1.run_offset(ki) == m.run_offset(ki),
        forall|lid0: LineId|
            has_line_id(m.lines, lid0) && lid0 != m.inline(ki) ==> #[trigger] has_line_id(
                m1.lines,
                lid0,
            ) && m1.lines[index_of_line(m1.lines, lid0)] == m.lines[index_of_line(m.lines, lid0)],
        forall|j: int|
            0 <= j < m.recs[ki].segments.len() ==> #[trigger] m1.lines[m1.line_of(ki)].segs[
                m1.run_offset(ki) + j] == m.lines[m.line_of(ki)].segs[m.run_offset(ki) + j],
        has_line_id(m1.lines, lid),
        m1.lines[index_of_line(m1.lines, lid)].segs.len() == 0,
        m1.lines[index_of_line(m1.lines, lid)].id == lid,
        lid.0 >= m.next_line,
        m1.next_line <= m.next_line + 2,
        m1.next_segment == m.next_segment,
{
    let l = m.inline(ki);
    let nid1 = m.next_line_id();
    let li = m.line_of(ki);
    let b = m.split_boundary(ki);
    assert(has_line_id(m.lines, l));
    assert(0 <= li < m.lines.len() && m.lines[li].id == l);
    assert(l.0 < m.next_line);
    lemma_run_offset_nonneg(m, ki);
    assert(m.run_offset(ki) + m.recs[ki].segments.len() <= m.lines[li].segs.len());
    let ms = m.with_group_split(ki);
    lemma_split_wf(m, ms, ki);
    assert(ms.group_end(ki)) by {
        assert(ms.inline(ki + 1) == nid1);
        assert(ms.inline(ki) == l);
        assert(nid1 != l);
    }
    assert(m1 == ms.with_block_inserted(ki, 0));
    assert(m1.recs[ki].block_lines =~= m.recs[ki].block_lines.push(lid));
    // run offset is carried through both steps
    lemma_split_run_other(m, ms, ki, ki);
    lemma_run_offset_congruence(ms, m1, ki);
    // intermediate tables and the positions touched
    let stage1 = m.lines.update(li, LineModel { id: l, segs: m.lines[li].segs.take(b) });
    assert(ms.lines == stage1.insert(
        li + 1,
        LineModel { id: nid1, segs: m.lines[li].segs.skip(b) },
    ));
    let pos1 = ms.block_position(ki, 0);
    assert(m1.lines == ms.lines.insert(pos1, LineModel { id: lid, segs: Seq::empty() }));
    assert(forall|i: int, j2: int|
        0 <= i < j2 < stage1.len() ==> #[trigger] stage1[i].id != #[trigger] stage1[j2].id);
    assert(forall|i: int, j2: int|
        0 <= i < j2 < ms.lines.len() ==> #[trigger] ms.lines[i].id != #[trigger] ms.lines[j2].id);
    lemma_group_first(ms, ki);
    lemma_layout_group(ms, ki);
    let gf1 = ms.group_first(ki);
    assert forall|j2: int| gf1 <= j2 < ki implies (#[trigger] ms.recs[j2].block_lines).len() == 0 by {
        assert(ms.inline(j2) == ms.inline(ki) && ms.inline(j2 + 1) == ms.inline(ki));
        assert(!ms.group_end(j2));
        if ms.recs[j2].block_lines.len() > 0 {
            assert(ms.group_end(j2));
        }
    }
    lemma_blocks_between_zero(ms, gf1, ki - 1);
    assert(blocks_between(ms, gf1, ki) == blocks_between(ms, gf1, ki - 1)
        + ms.recs[ki].block_lines.len()) by {
        if gf1 == ki {
            assert(blocks_between(ms, gf1, ki - 1) == 0);
        }
    }
    assert(pos1 == ms.layout_to(ki + 1).len()) by {
        if gf1 == ki {
            assert(ms.layout_to(ki + 1) == ms.layout_to(ki) + seq![ms.inline(ki)]
                + ms.recs[ki].block_lines);
        } else {
            lemma_layout_group(ms, ki - 1);
            assert(ms.layout_to(ki + 1) == ms.layout_to(ki) + Seq::<LineId>::empty()
                + ms.recs[ki].block_lines);
            assert(ms.layout_to(ki).len() == ms.layout_to(gf1).len() + 1 + blocks_between(
                ms,
                gf1,
                ki - 1,
            ));
        }
    }
    assert(0 <= pos1 <= ms.lines.len());
    // fresh identifiers differ from everything already present
    assert(lid.0 == m.next_line + 1);
    // contents of other lines survive all three steps
    assert forall|lid0: LineId|
        has_line_id(m.lines, lid0) && lid0 != l implies #[trigger] has_line_id(m1.lines, lid0)
        && m1.lines[index_of_line(m1.lines, lid0)] == m.lines[index_of_line(m.lines, lid0)] by {
        assert(nid1 != lid0 && lid != lid0) by {
            let w0 = index_of_line(m.lines, lid0);
            assert(0 <= w0 < m.lines.len() && m.lines[w0].id == lid0);
        }
        lemma_line_kept_on_update(
            m.lines,
            stage1,
            li,
            LineModel { id: l, segs: m.lines[li].segs.take(b) },
            lid0,
        );
        lemma_line_kept_on_insert(
            stage1,
            ms.lines,
            li + 1,
            LineModel { id: nid1, segs: m.lines[li].segs.skip(b) },
            lid0,
        );
        lemma_line_kept_on_insert(
            ms.lines,
            m1.lines,
            pos1,
            LineModel { id: lid, segs: Seq::empty() },
            lid0,
        );
    }
    // the element's own run stays below the truncation boundary
    assert forall|j: int|
        0 <= j < m.recs[ki].segments.len() implies #[trigger] m1.lines[m1.line_of(ki)].segs[
        m1.run_offset(ki) + j] == m.lines[m.line_of(ki)].segs[m.run_offset(ki) + j] by {
        assert(stage1[li].segs[m.run_offset(ki) + j] == m.lines[li].segs[m.run_offset(ki) + j]);
        assert(stage1[li].id == l);
        assert(has_line_id(stage1, l));
        assert(index_of_line(stage1, l) == li) by {
            let w0 = index_of_line(stage1, l);
            assert(0 <= w0 < stage1.len() && stage1[w0].id == l);
        }
        lemma_line_kept_on_insert(
            stage1,
            ms.lines,
            li + 1,
            LineModel { id: nid1, segs: m.lines[li].segs.skip(b) },
            l,
        );
        lemma_line_kept_on_insert(
            ms.lines,
            m1.lines,
            pos1,
            LineModel { id: lid, segs: Seq::empty() },
            l,
        );
        assert(m1.line_of(ki) == index_of_line(m1.lines, l));
    }
    // the fresh block line is empty
    assert(m1.lines[pos1].id == lid && m1.lines[pos1].segs.len() == 0);
    assert(has_line_id(m1.lines, lid));
    assert(index_of_line(m1.lines, lid) == pos1) by {
        let w2 = index_of_line(m1.lines, lid);
        assert(0 <= w2 < m1.lines.len() && m1.lines[w2].id == lid);
        assert(forall|i: int, j2: int|
            0 <= i < j2 < m1.lines.len() ==> #[trigger] m1.lines[i].id
                != #[trigger] m1.lines[j2].id);
        assert(w2 == pos1);
    }
}

/// The add-line stage when the element already closes its group.
#[verifier::rlimit(100)]
#[verifier::spinoff_prover]
proof fn lemma_append_add_line_plain(m: CoordModel, m1: CoordModel, ki: int, lid: LineId)
    requires
        m.wf(),
        m1.wf(),
        0 <= ki < m.n(),
        0 <= m.next_line,
        m.next_line + 2 < u64::MAX,
        m.recs[ki].block_lines.len() > 0 || m.group_end(ki),
        m1 == m.after_insert_line(ki, m.recs[ki].block_lines.len() as int),
        lid == m.add_line_result(ki),
    ensures
        m1.recs[ki].block_lines == m.recs[ki].block_lines.push(lid),
        m1.recs[ki].segments == m.recs[ki].segments,
        m1.recs[ki].inline_line == m.recs[ki].inline_line,
        forall|i: int|
            0 <= i < m.n() && i != ki ==> #[trigger] m1.recs[i].segments == m.recs[i].segments
                && m1.recs[i].block_lines == m.recs[i].block_lines,
        m1.run_offset(ki) == m.run_offset(ki),
        forall|lid0: LineId|
            has_line_id(m.lines, lid0) && lid0 != m.inline(ki) ==> #[trigger] has_line_id(
                m1.lines,
                lid0,
            ) && m1.lines[index_of_line(m1.lines, lid0)] == m.lines[index_of_line(m.lines, lid0)],
        forall|j: int|
            0 <= j < m.recs[ki].segments.len() ==> #[trigger] m1.lines[m1.line_of(ki)].segs[
                m1.run_offset(ki) + j] == m.lines[m.line_of(ki)].segs[m.run_offset(ki) + j],
        has_line_id(m1.lines, lid),
        m1.lines[index_of_line(m1.lines, lid)].segs.len() == 0,
        m1.lines[index_of_line(m1.lines, lid)].id == lid,
        lid.0 >= m.next_line,
        m1.next_line <= m.next_line + 2,
        m1.next_segment == m.next_segment,
{
    let l = m.inline(ki);
    let li = m.line_of(ki);
    assert(has_line_id(m.lines, l));
    assert(0 <= li < m.lines.len() && m.lines[li].id == l);
    assert(l.0 < m.next_line);
    lemma_run_offset_nonneg(m, ki);
    assert(m1 == m.with_block_inserted(ki, m.recs[ki].block_lines.len() as int));
    assert(m1.recs[ki].block_lines =~= m.recs[ki].block_lines.push(lid));
    lemma_run_offset_congruence(m, m1, ki);
    let pos = m.block_position(ki, m.recs[ki].block_lines.len() as int);
    assert(m1.lines == m.lines.insert(pos, LineModel { id: lid, segs: Seq::empty() }));
    lemma_group_first(m, ki);
    lemma_layout_group(m, ki);
    let gf = m.group_first(ki);
    assert forall|j2: int| gf <= j2 < ki implies (#[trigger] m.recs[j2].block_lines).len() == 0 by {
        assert(m.inline(j2) == m.inline(ki) && m.inline(j2 + 1) == m.inline(ki));
        assert(!m.group_end(j2));
        if m.recs[j2].block_lines.len() > 0 {
            assert(m.group_end(j2));
        }
    }
    lemma_blocks_between_zero(m, gf, ki - 1);
    assert(blocks_between(m, gf, ki) == blocks_between(m, gf, ki - 1)
        + m.recs[ki].block_lines.len()) by {
        if gf == ki {
            assert(blocks_between(m, gf, ki - 1) == 0);
        }
    }
    assert(pos == m.layout_to(ki + 1).len()) by {
        if gf == ki {
            assert(m.layout_to(ki + 1) == m.layout_to(ki) + seq![m.inline(ki)]
                + m.recs[ki].block_lines);
        } else {
            lemma_layout_group(m, ki - 1);
            assert(m.layout_to(ki + 1) == m.layout_to(ki) + Seq::<LineId>::empty()
                + m.recs[ki].block_lines);
            assert(m.layout_to(ki).len() == m.layout_to(gf).len() + 1 + blocks_between(
                m,
                gf,
                ki - 1,
            ));
        }
    }
    assert(0 <= pos <= m.lines.len());
    assert forall|lid0: LineId|
        has_line_id(m.lines, lid0) implies #[trigger] has_line_id(m1.lines, lid0)
        && m1.lines[index_of_line(m1.lines, lid0)] == m.lines[index_of_line(m.lines, lid0)] by {
        assert(lid != lid0) by {
            let w0 = index_of_line(m.lines, lid0);
            assert(0 <= w0 < m.lines.len() && m.lines[w0].id == lid0);
            assert(lid0.0 < m.next_line);
        }
        lemma_line_kept_on_insert(
            m.lines,
            m1.lines,
            pos,
            LineModel { id: lid, segs: Seq::empty() },
            lid0,
        );
    }
    assert forall|j: int|
        0 <= j < m.recs[ki].segments.len() implies #[trigger] m1.lines[m1.line_of(ki)].segs[
        m1.run_offset(ki) + j] == m.lines[m.line_of(ki)].segs[m.run_offset(ki) + j] by {
        assert(has_line_id(m.lines, l));
        assert(m1.line_of(ki) == index_of_line(m1.lines, l));
        assert(m1.lines[m1.line_of(ki)] == m.lines[m.line_of(ki)]);
    }
    assert(m1.lines[pos].id == lid && m1.lines[pos].segs.len() == 0);
    assert(has_line_id(m1.lines, lid));
    assert(index_of_line(m1.lines, lid) == pos) by {
        let w2 = index_of_line(m1.lines, lid);
        assert(0 <= w2 < m1.lines.len() && m1.lines[w2].id == lid);
        assert(forall|i: int, j2: int|
            0 <= i < j2 < m1.lines.len() ==> #[trigger] m1.lines[i].id
                != #[trigger] m1.lines[j2].id);
        assert(w2 == pos);
    }
}

/// What the segment-fill stage of a block-row append guarantees.
#[verifier::rlimit(100)]
#[verifier::spinoff_prover]
proof fn lemma_append_stage_fill(
    m: CoordModel,
    m1: CoordModel,
    m2: CoordModel,
    ki: int,
    lid: LineId,
    sid: SegmentId,
)
    requires
        m.wf(),
        m1.wf(),
        m2.wf(),
        0 <= ki < m.n(),
        m1.elems == m.elems,
        m1.recs.len() == m.recs.len(),
        has_line_id(m1.lines, lid),
        m1.lines[index_of_line(m1.lines, lid)].segs.len() == 0,
        m1.lines[index_of_line(m1.lines, lid)].id == lid,
        lid.0 >= m.next_line,
        forall|lid0: LineId|
            has_line_id(m.lines, lid0) && lid0 != m.inline(ki) ==> #[trigger] has_line_id(
                m1.lines,
                lid0,
            ) && m1.lines[index_of_line(m1.lines, lid0)] == m.lines[index_of_line(m.lines, lid0)],
        forall|j: int|
            0 <= j < m.recs[ki].segments.len() ==> #[trigger] m1.lines[m1.line_of(ki)].segs[
                m1.run_offset(ki) + j] == m.lines[m.line_of(ki)].segs[m.run_offset(ki) + j],
        m1.run_offset(ki) == m.run_offset(ki),
        m1.recs[ki].segments == m.recs[ki].segments,
        m1.recs[ki].inline_line == m.recs[ki].inline_line,
        m2.elems == m1.elems,
        m2.recs == m1.recs,
        m2.lines == m1.lines.update(
            index_of_line(m1.lines, lid),
            (LineModel {
                id: lid,
                segs: m1.lines[index_of_line(m1.lines, lid)].segs.push(
                    SegModel { id: sid, text: Seq::empty(), style: None },
                ),
            }),
        ),
    ensures
        m2.row_holds(lid, sid, Seq::empty()),
        line_has_seg(m2.lines[index_of_line(m2.lines, lid)], sid),
        index_of_line(m2.lines, lid) == index_of_line(m1.lines, lid),
        forall|lid0: LineId|
            has_line_id(m.lines, lid0) && lid0 != m.inline(ki) ==> #[trigger] has_line_id(
                m2.lines,
                lid0,
            ) && m2.lines[index_of_line(m2.lines, lid0)] == m.lines[index_of_line(m.lines, lid0)],
        forall|j: int|
            0 <= j < m.recs[ki].segments.len() ==> #[trigger] m2.lines[m2.line_of(ki)].segs[
                m2.run_offset(ki) + j] == m.lines[m.line_of(ki)].segs[m.run_offset(ki) + j],
        m2.run_offset(ki) == m.run_offset(ki),
{
    let w1 = index_of_line(m1.lines, lid);
    assert(0 <= w1 < m1.lines.len());
    assert(m2.lines[w1].segs =~= seq![SegModel { id: sid, text: Seq::empty(), style: None }]);
    assert(forall|i: int, j2: int|
        0 <= i < j2 < m1.lines.len() ==> #[trigger] m1.lines[i].id != #[trigger] m1.lines[j2].id);
    assert(index_of_line(m2.lines, lid) == w1) by {
        assert(m2.lines[w1].id == lid);
        assert(has_line_id(m2.lines, lid));
        let w2 = index_of_line(m2.lines, lid);
        assert(0 <= w2 < m2.lines.len() && m2.lines[w2].id == lid);
        assert(w2 == w1);
    }
    assert(m2.row_holds(lid, sid, Seq::empty()));
    lemma_run_offset_congruence(m1, m2, ki);
    let l = m.inline(ki);
    assert(l.0 < m.next_line) by {
        let w0 = m.line_of(ki);
        assert(has_line_id(m.lines, l));
        assert(0 <= w0 < m.lines.len() && m.lines[w0].id == l);
    }
    assert(lid != l);
    assert forall|lid0: LineId|
        has_line_id(m.lines, lid0) && lid0 != l implies #[trigger] has_line_id(m2.lines, lid0)
        && m2.lines[index_of_line(m2.lines, lid0)] == m.lines[index_of_line(m.lines, lid0)] by {
        assert(lid0 != lid) by {
            let w0 = index_of_line(m.lines, lid0);
            assert(0 <= w0 < m.lines.len() && m.lines[w0].id == lid0);
            assert(lid0.0 < m.next_line);
        }
        assert(has_line_id(m1.lines, lid0));
        lemma_line_kept_on_update(m1.lines, m2.lines, w1, m2.lines[w1], lid0);
    }
    assert forall|j: int|
        0 <= j < m.recs[ki].segments.len() implies #[trigger] m2.lines[m2.line_of(ki)].segs[
        m2.run_offset(ki) + j] == m.lines[m.line_of(ki)].segs[m.run_offset(ki) + j] by {
        assert(m1.inline(ki) == l);
        assert(has_line_id(m1.lines, m1.inline(ki)));
        assert(has_line_id(m1.lines, l));
        lemma_line_kept_on_update(m1.lines, m2.lines, w1, m2.lines[w1], l);
        assert(m2.line_of(ki) == index_of_line(m2.lines, l));
        assert(m1.line_of(ki) == index_of_line(m1.lines, l));
    }
}

/// What the text stage of a block-row append guarantees.
#[verifier::rlimit(100)]
#[verifier::spinoff_prover]
proof fn lemma_append_stage_text(
    m: CoordModel,
    m1: CoordModel,
    m2: CoordModel,
    fm: CoordModel,
    ki: int,
    lid: LineId,
    sid: SegmentId,
    text: Seq<char>,
)
    requires
        m.wf(),
        m2.wf(),
        fm.wf(),
        0 <= ki < m.n(),
        m2.row_holds(lid, sid, Seq::empty()),
        lid.0 >= m.next_line,
        forall|lid0: LineId|
            has_line_id(m.lines, lid0) && lid0 != m.inline(ki) ==> #[trigger] has_line_id(
                m2.lines,
                lid0,
            ) && m2.lines[index_of_line(m2.lines, lid0)] == m.lines[index_of_line(m.lines, lid0)],
        forall|j: int|
            0 <= j < m.recs[ki].segments.len() ==> #[trigger] m2.lines[m2.line_of(ki)].segs[
                m2.run_offset(ki) + j] == m.lines[m.line_of(ki)].segs[m.run_offset(ki) + j],
        m2.run_offset(ki) == m.run_offset(ki),
        m2.recs[ki].segments == m.recs[ki].segments,
        m2.recs[ki].inline_line == m.recs[ki].inline_line,
        m2.elems == m.elems,
        m2.recs.len() == m.recs.len(),
        fm.elems == m2.elems,
        fm.recs == m2.recs,
        fm.lines == m2.lines.update(
            index_of_line(m2.lines, lid),
            (LineModel {
                id: lid,
                segs: m2.lines[index_of_line(m2.lines, lid)].segs.update(
                    index_of_seg(m2.lines[index_of_line(m2.lines, lid)], sid),
                    (SegModel {
                        id: sid,
                        text: text,
                        style: m2.lines[index_of_line(m2.lines, lid)].segs[index_of_seg(
                            m2.lines[index_of_line(m2.lines, lid)],
                            sid,
                        )].style,
                    }),
                ),
            }),
        ),
    ensures
        fm.row_holds(lid, sid, text),
        forall|lid0: LineId|
            has_line_id(m.lines, lid0) && lid0 != m.inline(ki) ==> #[trigger] has_line_id(
                fm.lines,
                lid0,
            ) && fm.lines[index_of_line(fm.lines, lid0)] == m.lines[index_of_line(m.lines, lid0)],
        forall|j: int|
            0 <= j < m.recs[ki].segments.len() ==> #[trigger] fm.lines[fm.line_of(ki)].segs[
                fm.run_offset(ki) + j] == m.lines[m.line_of(ki)].segs[m.run_offset(ki) + j],
        fm.run_offset(ki) == m.run_offset(ki),
{
    let w2 = index_of_line(m2.lines, lid);
    assert(0 <= w2 < m2.lines.len() && m2.lines[w2].id == lid);
    assert(index_of_seg(m2.lines[w2], sid) == 0) by {
        let q = index_of_seg(m2.lines[w2], sid);
        assert(0 <= q < m2.lines[w2].segs.len() && m2.lines[w2].segs[q].id == sid);
    }
    assert(fm.lines[w2].segs.len() == 1);
    assert(fm.lines[w2].segs[0].id == sid && fm.lines[w2].segs[0].text == text);
    assert(forall|i: int, j2: int|
        0 <= i < j2 < m2.lines.len() ==> #[trigger] m2.lines[i].id != #[trigger] m2.lines[j2].id);
    assert(index_of_line(fm.lines, lid) == w2) by {
        assert(fm.lines[w2].id == lid);
        assert(has_line_id(fm.lines, lid));
        let w3 = index_of_line(fm.lines, lid);
        assert(0 <= w3 < fm.lines.len() && fm.lines[w3].id == lid);
        assert(w3 == w2);
    }
    assert(fm.row_holds(lid, sid, text));
    lemma_run_offset_congruence(m2, fm, ki);
    let l = m.inline(ki);
    assert(l.0 < m.next_line) by {
        let w0 = m.line_of(ki);
        assert(has_line_id(m.lines, l));
        assert(0 <= w0 < m.lines.len() && m.lines[w0].id == l);
    }
    assert(lid != l);
    assert forall|lid0: LineId|
        has_line_id(m.lines, lid0) && lid0 != l implies #[trigger] has_line_id(fm.lines, lid0)
        && fm.lines[index_of_line(fm.lines, lid0)] == m.lines[index_of_line(m.lines, lid0)] by {
        assert(lid0 != lid) by {
            let w0 = index_of_line(m.lines, lid0);
            assert(0 <= w0 < m.lines.len() && m.lines[w0].id == lid0);
            assert(lid0.0 < m.next_line);
        }
        assert(has_line_id(m2.lines, lid0));
        lemma_line_kept_on_update(m2.lines, fm.lines, w2, fm.lines[w2], lid0);
    }
    assert forall|j: int|
        0 <= j < m.recs[ki].segments.len() implies #[trigger] fm.lines[fm.line_of(ki)].segs[
        fm.run_offset(ki) + j] == m.lines[m.line_of(ki)].segs[m.run_offset(ki) + j] by {
        assert(m2.inline(ki) == l);
        assert(has_line_id(m2.lines, m2.inline(ki)));
        assert(has_line_id(m2.lines, l));
        lemma_line_kept_on_update(m2.lines, fm.lines, w2, fm.lines[w2], l);
        assert(fm.line_of(ki) == index_of_line(fm.lines, l));
        assert(m2.line_of(ki) == index_of_line(m2.lines, l));
    }
}

/// Two well-formed models with the same element table locate an element at
/// the same index.
pub proof fn lemma_index_of_eq(a: CoordModel, b: CoordModel, e: ElementId)
    requires
        a.wf(),
        b.wf(),
        a.elems == b.elems,
        a.has_elem(e),
    ensures
        b.has_elem(e),
        b.index_of(e) == a.index_of(e),
{
    let w = a.index_of(e);
    assert(0 <= w < a.n() && a.elems[w] == e);
    assert(b.elems[w] == e);
    assert(b.has_elem(e));
    let w2 = b.index_of(e);
    assert(0 <= w2 < b.n() && b.elems[w2] == e);
    if w < w2 {
        assert(id_lt(b.elems[w], b.elems[w2]));
    }
    if w2 < w {
        assert(id_lt(b.elems[w2], b.elems[w]));
    }
}

/// Appending an element with an empty record preserves well-formedness,
/// whether it opens a fresh line of its own (`newline`) or extends the
/// group of the last element.
#[verifier::rlimit(100)]
#[verifier::spinoff_prover]
proof fn lemma_push_empty_element(
    pre: CoordModel,
    post: CoordModel,
    id: ElementId,
    lid: LineId,
    newline: bool,
)
    requires
        pre.wf(),
        post.elems == pre.elems.push(id),
        post.recs == pre.recs.push(
            (RecordModel {
                inline_line: lid,
                segments: Seq::empty(),
                block_lines: Seq::empty(),
            }),
        ),
        post.next_segment == pre.next_segment,
        forall|i: int| 0 <= i < pre.n() ==> id_lt(#[trigger] pre.elems[i], id),
        newline ==> post.lines == pre.lines.push((LineModel { id: lid, segs: Seq::empty() }))
            && post.next_line == pre.next_line + 1 && lid.0 == pre.next_line,
        !newline ==> post.lines == pre.lines && post.next_line == pre.next_line && pre.n() > 0
            && pre.recs[pre.n() - 1].inline_line == lid && pre.recs[pre.n() - 1].block_lines.len()
            == 0,
    ensures
        post.wf(),
{
    let n = pre.n();
    assert(post.n() == n + 1);
    assert(forall|i: int| 0 <= i < n ==> post.recs[i] == pre.recs[i]);
    assert(forall|i: int| 0 <= i < n ==> post.elems[i] == pre.elems[i]);
    lemma_layout_congruence(pre, post, n);
    lemma_run_offset_congruence(pre, post, n - 1);
    if newline {
        // the fresh line's identifier differs from every existing inline line
        assert forall|i: int| 0 <= i < n implies pre.inline(i) != lid by {
            assert(has_line_id(pre.lines, pre.inline(i)));
            let w = choose|t: int| 0 <= t < pre.lines.len() && pre.lines[t].id == pre.inline(i);
            assert(pre.lines[w].id.0 < pre.next_line);
        }
        assert(post.group_start(n));
        assert(post.layout_to(n + 1) =~= pre.layout_to(n) + seq![lid]);
        assert(ids_of(post.lines) =~= ids_of(pre.lines).push(lid));
        assert(ids_of(post.lines) =~= post.layout_to(post.n()));
        // every existing line keeps its index; the fresh line sits at the end
        assert forall|k: int|
            0 <= k < n implies post.line_of(k) == pre.line_of(k) && #[trigger] post.lines[post.line_of(
            k,
        )] == pre.lines[pre.line_of(k)] by {
            let w = pre.line_of(k);
            assert(has_line_id(pre.lines, pre.inline(k)));
            assert(0 <= w < pre.lines.len() && pre.lines[w].id == pre.inline(k));
            assert(post.lines[w].id == pre.inline(k));
            assert(has_line_id(post.lines, post.inline(k)));
            let w2 = post.line_of(k);
            assert(0 <= w2 < post.lines.len() && post.lines[w2].id == pre.inline(k));
            if w2 == pre.lines.len() as int {
                assert(post.lines[w2].id == lid);
                assert(pre.inline(k) != lid);
            }
            assert(w2 == w);
        }
        assert(post.line_of(n) == pre.lines.len()) by {
            assert(post.lines[pre.lines.len() as int].id == lid);
            assert(has_line_id(post.lines, lid));
            let w2 = post.line_of(n);
            assert(0 <= w2 < post.lines.len() && post.lines[w2].id == lid);
            if w2 < pre.lines.len() as int {
                assert(pre.lines[w2].id.0 < pre.next_line);
            }
        }
        assert(post.run_offset(n) == 0);
        assert(lines_wf(post.lines, post.next_line, post.next_segment)) by {
            assert forall|i: int, j: int|
                0 <= i < j < post.lines.len() implies #[trigger] post.lines[i].id
                != #[trigger] post.lines[j].id by {
                if j < pre.lines.len() {
                    assert(pre.lines[i].id != pre.lines[j].id);
                } else {
                    assert(pre.lines[i].id.0 < pre.next_line);
                }
            }
            assert forall|i: int, j: int|
                0 <= i < post.lines.len() && 0 <= j < post.lines[i].segs.len() implies (
            #[trigger] post.lines[i].segs[j].id).0 < post.next_segment by {
                assert(i < pre.lines.len());
                assert(pre.lines[i].segs[j].id.0 < pre.next_segment);
            }
            assert forall|i1: int, j1: int, i2: int, j2: int|
                0 <= i1 < post.lines.len() && 0 <= j1 < post.lines[i1].segs.len() && 0 <= i2
                < post.lines.len() && 0 <= j2 < post.lines[i2].segs.len() && (i1 != i2 || j1 != j2)
                implies #[trigger] post.lines[i1].segs[j1].id
                != #[trigger] post.lines[i2].segs[j2].id by {
                assert(i1 < pre.lines.len() && i2 < pre.lines.len());
                assert(pre.lines[i1].segs[j1].id != pre.lines[i2].segs[j2].id);
            }
        }
    } else {
        assert(pre.group_end(n - 1));
        assert(pre.inline(n - 1) == lid);
        assert(!post.group_start(n));
        assert(post.layout_to(n + 1) =~= pre.layout_to(n));
        assert(ids_of(post.lines) =~= post.layout_to(post.n()));
        assert(forall|k: int|
            0 <= k < n ==> post.line_of(k) == pre.line_of(k) && #[trigger] post.lines[post.line_of(
                k,
            )] == pre.lines[pre.line_of(k)]);
        assert(post.line_of(n) == pre.line_of(n - 1));
        assert(post.run_offset(n) == pre.run_offset(n - 1) + pre.recs[n - 1].segments.len());
        assert(post.lines[post.line_of(n)].segs.len() == post.run_offset(n));
    }
    // sortedness
    assert forall|i: int, j: int|
        0 <= i < j < post.n() implies id_lt(#[trigger] post.elems[i], #[trigger] post.elems[j]) by {
        if j < n {
            assert(id_lt(pre.elems[i], pre.elems[j]));
        } else {
            assert(id_lt(pre.elems[i], id));
        }
    }
    // group contiguity
    assert forall|i: int, j: int, k: int|
        0 <= i <= j <= k < post.n() && #[trigger] post.inline(i) == #[trigger] post.inline(k)
        implies #[trigger] post.inline(j) == post.inline(i) by {
        if k < n {
            assert(pre.inline(i) == pre.inline(k));
            assert(pre.inline(j) == pre.inline(i));
        } else if i < n {
            assert(post.inline(k) == lid);
            if newline {
                assert(pre.inline(i) != lid);
                assert(false);
            } else {
                assert(pre.inline(i) == pre.inline(n - 1));
                if j < n {
                    assert(pre.inline(j) == pre.inline(i));
                }
            }
        }
    }
    // only a group's last member owns block lines
    assert forall|k: int|
        0 <= k < post.n() && (#[trigger] post.recs[k].block_lines).len() > 0 implies post.group_end(
        k,
    ) by {
        assert(k < n);
        assert(pre.recs[k].block_lines.len() > 0);
        assert(pre.group_end(k));
        if k == n - 1 {
            if newline {
                assert(pre.inline(n - 1) != lid);
            } else {
                assert(pre.recs[n - 1].block_lines.len() == 0);
            }
        } else {
            assert(pre.inline(k + 1) != pre.inline(k));
        }
    }
    // every inline line is a buffer line
    assert forall|k: int| 0 <= k < post.n() implies has_line_id(post.lines, #[trigger] post.inline(k)) by {
        if k < n {
            let w = pre.line_of(k);
            assert(has_line_id(pre.lines, pre.inline(k)));
            assert(0 <= w < pre.lines.len() && pre.lines[w].id == pre.inline(k));
            assert(post.lines[w].id == post.inline(k));
        } else {
            if newline {
                assert(post.lines[pre.lines.len() as int].id == lid);
            } else {
                let w = pre.line_of(n - 1);
                assert(has_line_id(pre.lines, pre.inline(n - 1)));
                assert(0 <= w < pre.lines.len() && pre.lines[w].id == lid);
            }
        }
    }
    // runs lie within their lines
    assert forall|k: int|
        0 <= k < post.n() implies post.run_offset(k) + (#[trigger] post.recs[k].segments).len()
        <= post.lines[post.line_of(k)].segs.len() by {
        if k < n {
            assert(pre.run_offset(k) + pre.recs[k].segments.len() <= pre.lines[pre.line_of(k)].segs.len());
        }
    }
    assert forall|k: int, j: int|
        0 <= k < post.n() && 0 <= j < post.recs[k].segments.len() implies post.lines[post.line_of(
        k,
    )].segs[post.run_offset(k) + j].id == #[trigger] post.recs[k].segments[j] by {
        assert(k < n);
        assert(pre.lines[pre.line_of(k)].segs[pre.run_offset(k) + j].id == pre.recs[k].segments[j]);
    }
    // group ends close out their lines exactly
    assert forall|k: int|
        0 <= k < post.n() && #[trigger] post.group_end(k) implies post.lines[post.line_of(
        k,
    )].segs.len() == post.run_offset(k) + post.recs[k].segments.len() by {
        if k < n - 1 {
            assert(pre.group_end(k));
            assert(pre.lines[pre.line_of(k)].segs.len() == pre.run_offset(k) + pre.recs[k].segments.len());
        } else if k == n - 1 {
            assert(pre.group_end(n - 1));
            assert(pre.lines[pre.line_of(k)].segs.len() == pre.run_offset(k) + pre.recs[k].segments.len());
        }
    }
    assert(post.wf());
}

/// Run offsets are never negative.
pub proof fn lemma_run_offset_nonneg(m: CoordModel, k: int)
    ensures
        m.run_offset(k) >= 0,
    decreases k,
{
    if k > 0 && !m.group_start(k) {
        lemma_run_offset_nonneg(m, k - 1);
    }
}

/// Within one group, an earlier member's run ends at or before a later
/// member's run begins.
#[verifier::rlimit(100)]
pub proof fn lemma_run_monotone(m: CoordModel, a: int, b: int)
    requires
        m.wf(),
        0 <= a < b < m.n(),
        m.inline(a) == m.inline(b),
    ensures
        m.run_offset(a) + m.recs[a].segments.len() <= m.run_offset(b),
    decreases b - a,
{
    assert(m.inline(b - 1) == m.inline(a));
    assert(!m.group_start(b));
    if a < b - 1 {
        lemma_run_monotone(m, a, b - 1);
    }
}

/// Run offsets after a pure segment-count change at element `k`: members of
/// `k`'s group after `k` shift by the count delta, everyone else is
/// unchanged.
pub proof fn lemma_run_offset_reseg(pre: CoordModel, post: CoordModel, k: int, delta: int, m: int)
    requires
        pre.wf(),
        0 <= k < pre.n(),
        post.recs.len() == pre.recs.len(),
        forall|i: int| 0 <= i < pre.n() ==> post.recs[i].inline_line == pre.recs[i].inline_line,
        forall|i: int|
            0 <= i < pre.n() && i != k ==> (#[trigger] post.recs[i].segments).len()
                == pre.recs[i].segments.len(),
        post.recs[k].segments.len() == pre.recs[k].segments.len() + delta,
        0 <= m < pre.n(),
    ensures
        m > k && pre.inline(m) == pre.inline(k) ==> post.run_offset(m) == pre.run_offset(m)
            + delta,
        !(m > k && pre.inline(m) == pre.inline(k)) ==> post.run_offset(m) == pre.run_offset(m),
    decreases m,
{
    if m > 0 {
        lemma_run_offset_reseg(pre, post, k, delta, m - 1);
        assert(post.group_start(m) == pre.group_start(m));
        if !pre.group_start(m) {
            if m - 1 > k && pre.inline(m - 1) == pre.inline(k) {
                assert(pre.inline(m) == pre.inline(m - 1));
            }
            if m > k && pre.inline(m) == pre.inline(k) && m - 1 != k {
                if m - 1 > k {
                    assert(pre.inline(m - 1) == pre.inline(m));
                } else {
                    // m - 1 < k: k lies strictly between m - 1 and m, impossible
                    assert(m - 1 < k && k < m);
                    assert(false);
                }
            }
        }
    }
}

/// Inserting a fresh segment into an element's run preserves
/// well-formedness.
#[verifier::rlimit(100)]
#[verifier::spinoff_prover]
proof fn lemma_insert_segment_wf(pre: CoordModel, post: CoordModel, k: int, rel: int, sid: SegmentId)
    requires
        pre.wf(),
        0 <= k < pre.n(),
        0 <= rel <= pre.recs[k].segments.len(),
        sid.0 == pre.next_segment,
        post == pre.with_segment_inserted(k, rel, sid),
    ensures
        post.wf(),
{
    let li = pre.line_of(k);
    let p = pre.run_offset(k) + rel;
    lemma_run_offset_nonneg(pre, k);
    assert(has_line_id(pre.lines, pre.inline(k)));
    assert(0 <= li < pre.lines.len() && pre.lines[li].id == pre.inline(k));
    assert(pre.run_offset(k) + pre.recs[k].segments.len() <= pre.lines[li].segs.len());
    assert(0 <= p <= pre.lines[li].segs.len());
    assert(post.recs.len() == pre.recs.len());
    assert(post.lines.len() == pre.lines.len());
    assert(forall|i: int| 0 <= i < pre.n() ==> #[trigger] post.recs[i].inline_line == pre.recs[i].inline_line);
    assert(forall|i: int| 0 <= i < pre.n() ==> #[trigger] post.recs[i].block_lines == pre.recs[i].block_lines);
    assert(forall|i: int| 0 <= i < pre.lines.len() ==> #[trigger] post.lines[i].id == pre.lines[i].id);
    assert(forall|i: int| 0 <= i < pre.n() ==> #[trigger] post.inline(i) == pre.inline(i));
    lemma_layout_congruence(pre, post, pre.n());
    assert(ids_of(post.lines) =~= ids_of(pre.lines));
    // line indices are unchanged
    assert forall|i: int|
        0 <= i < post.n() implies has_line_id(post.lines, #[trigger] post.inline(i))
        && post.line_of(i) == pre.line_of(i) by {
        let w = pre.line_of(i);
        assert(has_line_id(pre.lines, pre.inline(i)));
        assert(0 <= w < pre.lines.len() && pre.lines[w].id == pre.inline(i));
        assert(post.lines[w].id == post.inline(i));
        assert(has_line_id(post.lines, post.inline(i)));
        let w2 = post.line_of(i);
        assert(0 <= w2 < post.lines.len() && post.lines[w2].id == post.inline(i));
        assert(pre.lines[w2].id == pre.inline(i));
        assert(w2 == w);
    }
    // run offsets shift by one past `k` within its group
    assert forall|m: int|
        0 <= m < post.n() implies post.run_offset(m) == pre.run_offset(m) + (
        if m > k && pre.inline(m) == pre.inline(k) {
            1int
        } else {
            0int
        }) by {
        lemma_run_offset_reseg(pre, post, k, 1, m);
    }
    // group structure is unchanged
    assert(forall|m: int| 0 <= m < post.n() ==> #[trigger] post.group_end(m) == pre.group_end(m));
    // identifier bookkeeping stays well-formed
    assert(lines_wf(post.lines, post.next_line, post.next_segment)) by {
        assert forall|i: int, j: int|
            0 <= i < post.lines.len() && 0 <= j < post.lines[i].segs.len() implies (
        #[trigger] post.lines[i].segs[j].id).0 < post.next_segment by {
            if i == li {
                if j < p {
                    assert(post.lines[i].segs[j] == pre.lines[i].segs[j]);
                } else if j == p {
                    assert(post.lines[i].segs[j].id == sid);
                } else {
                    assert(post.lines[i].segs[j] == pre.lines[i].segs[j - 1]);
                }
            } else {
                assert(post.lines[i].segs[j] == pre.lines[i].segs[j]);
            }
        }
        assert forall|i1: int, j1: int, i2: int, j2: int|
            0 <= i1 < post.lines.len() && 0 <= j1 < post.lines[i1].segs.len() && 0 <= i2
            < post.lines.len() && 0 <= j2 < post.lines[i2].segs.len() && (i1 != i2 || j1 != j2)
            implies #[trigger] post.lines[i1].segs[j1].id
            != #[trigger] post.lines[i2].segs[j2].id by {
            let q1 = if i1 == li && j1 > p { j1 - 1 } else { j1 };
            let q2 = if i2 == li && j2 > p { j2 - 1 } else { j2 };
            if i1 == li && j1 == p {
                if !(i2 == li && j2 == p) {
                    assert(post.lines[i2].segs[j2] == pre.lines[i2].segs[q2]);
                    assert(pre.lines[i2].segs[q2].id.0 < pre.next_segment);
                }
            } else if i2 == li && j2 == p {
                assert(post.lines[i1].segs[j1] == pre.lines[i1].segs[q1]);
                assert(pre.lines[i1].segs[q1].id.0 < pre.next_segment);
            } else {
                assert(post.lines[i1].segs[j1] == pre.lines[i1].segs[q1]);
                assert(post.lines[i2].segs[j2] == pre.lines[i2].segs[q2]);
                assert(pre.lines[i1].segs[q1].id != pre.lines[i2].segs[q2].id);
            }
        }
    }
    // each run still sits at its offset
    assert forall|m: int|
        0 <= m < post.n() implies post.run_offset(m) + (#[trigger] post.recs[m].segments).len()
        <= post.lines[post.line_of(m)].segs.len() by {
        if pre.inline(m) == pre.inline(k) {
            if m < k {
                lemma_run_monotone(pre, m, k);
            } else if m > k {
                lemma_run_monotone(pre, k, m);
            }
        } else {
            assert(post.line_of(m) != li) by {
                assert(pre.lines[pre.line_of(m)].id == pre.inline(m));
            }
            assert(post.lines[post.line_of(m)].segs == pre.lines[pre.line_of(m)].segs);
        }
    }
    assert forall|m: int, j: int|
        0 <= m < post.n() && 0 <= j < post.recs[m].segments.len() implies post.lines[post.line_of(
        m,
    )].segs[post.run_offset(m) + j].id == #[trigger] post.recs[m].segments[j] by {
        lemma_run_offset_nonneg(pre, m);
        if pre.inline(m) == pre.inline(k) {
            if m < k {
                lemma_run_monotone(pre, m, k);
                assert(post.lines[li].segs[pre.run_offset(m) + j] == pre.lines[li].segs[
                    pre.run_offset(m) + j]);
            } else if m > k {
                lemma_run_monotone(pre, k, m);
                assert(post.run_offset(m) + j == (pre.run_offset(m) + j) + 1);
                assert(post.lines[li].segs[pre.run_offset(m) + j + 1] == pre.lines[li].segs[
                    pre.run_offset(m) + j]);
            } else {
                // m == k: three zones of the reshaped run
                if j < rel {
                    assert(post.lines[li].segs[p - rel + j] == pre.lines[li].segs[p - rel + j]);
                    assert(post.recs[k].segments[j] == pre.recs[k].segments[j]);
                } else if j == rel {
                    assert(post.lines[li].segs[p].id == sid);
                    assert(post.recs[k].segments[j] == sid);
                } else {
                    assert(post.lines[li].segs[pre.run_offset(k) + j] == pre.lines[li].segs[
                        pre.run_offset(k) + j - 1]);
                    assert(post.recs[k].segments[j] == pre.recs[k].segments[j - 1]);
                }
            }
        } else {
            assert(post.line_of(m) != li) by {
                assert(pre.lines[pre.line_of(m)].id == pre.inline(m));
            }
            assert(post.lines[post.line_of(m)].segs == pre.lines[pre.line_of(m)].segs);
        }
    }
    // group ends still close out their lines
    assert forall|m: int|
        0 <= m < post.n() && #[trigger] post.group_end(m) implies post.lines[post.line_of(
        m,
    )].segs.len() == post.run_offset(m) + post.recs[m].segments.len() by {
        assert(pre.group_end(m));
        if pre.inline(m) == pre.inline(k) {
            assert(post.lines[li].segs.len() == pre.lines[li].segs.len() + 1);
            if m < k {
                lemma_run_monotone(pre, m, k);
                assert(pre.run_offset(m) + pre.recs[m].segments.len() <= pre.run_offset(k));
                lemma_run_offset_nonneg(pre, k);
                assert(pre.lines[li].segs.len() == pre.run_offset(m) + pre.recs[m].segments.len());
                assert(pre.run_offset(k) + pre.recs[k].segments.len() <= pre.lines[li].segs.len());
                assert(false);
            }
        } else {
            assert(post.line_of(m) != li) by {
                assert(pre.lines[pre.line_of(m)].id == pre.inline(m));
            }
            assert(post.lines[post.line_of(m)].segs == pre.lines[pre.line_of(m)].segs);
        }
    }
    assert(post.wf());
}

/// After removing a segment, line and segment identifiers stay distinct
/// and bounded.
#[verifier::rlimit(100)]
#[verifier::spinoff_prover]
proof fn lemma_remove_segment_lines_wf(pre: CoordModel, post: CoordModel, k: int, rel: int)
    requires
        pre.wf(),
        0 <= k < pre.n(),
        0 <= rel < pre.recs[k].segments.len(),
        post == pre.with_segment_removed(k, rel),
    ensures
        lines_wf(post.lines, post.next_line, post.next_segment),
{
    let li = pre.line_of(k);
    let p = pre.run_offset(k) + rel;
    lemma_run_offset_nonneg(pre, k);
    assert(has_line_id(pre.lines, pre.inline(k)));
    assert(0 <= li < pre.lines.len() && pre.lines[li].id == pre.inline(k));
    assert(pre.run_offset(k) + pre.recs[k].segments.len() <= pre.lines[li].segs.len());
    assert(0 <= p < pre.lines[li].segs.len());
    assert(forall|i: int| 0 <= i < pre.lines.len() ==> #[trigger] post.lines[i].id == pre.lines[i].id);
    assert forall|i: int, j: int|
        0 <= i < post.lines.len() && 0 <= j < post.lines[i].segs.len() implies (
    #[trigger] post.lines[i].segs[j].id).0 < post.next_segment by {
        if i == li && j >= p {
            assert(post.lines[i].segs[j] == pre.lines[i].segs[j + 1]);
        } else {
            assert(post.lines[i].segs[j] == pre.lines[i].segs[j]);
        }
    }
    assert forall|i1: int, j1: int, i2: int, j2: int|
        0 <= i1 < post.lines.len() && 0 <= j1 < post.lines[i1].segs.len() && 0 <= i2
        < post.lines.len() && 0 <= j2 < post.lines[i2].segs.len() && (i1 != i2 || j1 != j2)
        implies #[trigger] post.lines[i1].segs[j1].id
        != #[trigger] post.lines[i2].segs[j2].id by {
        let q1 = if i1 == li && j1 >= p { j1 + 1 } else { j1 };
        let q2 = if i2 == li && j2 >= p { j2 + 1 } else { j2 };
        assert(post.lines[i1].segs[j1] == pre.lines[i1].segs[q1]);
        assert(post.lines[i2].segs[j2] == pre.lines[i2].segs[q2]);
        assert(pre.lines[i1].segs[q1].id != pre.lines[i2].segs[q2].id);
    }
}

/// Removing a segment from an element's run preserves well-formedness.
#[verifier::rlimit(100)]
#[verifier::spinoff_prover]
proof fn lemma_remove_segment_wf(pre: CoordModel, post: CoordModel, k: int, rel: int)
    requires
        pre.wf(),
        0 <= k < pre.n(),
        0 <= rel < pre.recs[k].segments.len(),
        post == pre.with_segment_removed(k, rel),
    ensures
        post.wf(),
{
    let li = pre.line_of(k);
    let p = pre.run_offset(k) + rel;
    lemma_run_offset_nonneg(pre, k);
    assert(has_line_id(pre.lines, pre.inline(k)));
    assert(0 <= li < pre.lines.len() && pre.lines[li].id == pre.inline(k));
    assert(pre.run_offset(k) + pre.recs[k].segments.len() <= pre.lines[li].segs.len());
    assert(0 <= p < pre.lines[li].segs.len());
    assert(post.recs.len() == pre.recs.len());
    assert(post.lines.len() == pre.lines.len());
    assert(forall|i: int| 0 <= i < pre.n() ==> #[trigger] post.recs[i].inline_line == pre.recs[i].inline_line);
    assert(forall|i: int| 0 <= i < pre.n() ==> #[trigger] post.recs[i].block_lines == pre.recs[i].block_lines);
    assert(forall|i: int| 0 <= i < pre.lines.len() ==> #[trigger] post.lines[i].id == pre.lines[i].id);
    assert(forall|i: int| 0 <= i < pre.n() ==> #[trigger] post.inline(i) == pre.inline(i));
    lemma_layout_congruence(pre, post, pre.n());
    assert(ids_of(post.lines) =~= ids_of(pre.lines));
    assert forall|i: int|
        0 <= i < post.n() implies has_line_id(post.lines, #[trigger] post.inline(i))
        && post.line_of(i) == pre.line_of(i) by {
        let w = pre.line_of(i);
        assert(has_line_id(pre.lines, pre.inline(i)));
        assert(0 <= w < pre.lines.len() && pre.lines[w].id == pre.inline(i));
        assert(post.lines[w].id == post.inline(i));
        assert(has_line_id(post.lines, post.inline(i)));
        let w2 = post.line_of(i);
        assert(0 <= w2 < post.lines.len() && post.lines[w2].id == post.inline(i));
        assert(pre.lines[w2].id == pre.inline(i));
        assert(w2 == w);
    }
    assert forall|m: int|
        0 <= m < post.n() implies post.run_offset(m) == pre.run_offset(m) + (
        if m > k && pre.inline(m) == pre.inline(k) {
            -1int
        } else {
            0int
        }) by {
        lemma_run_offset_reseg(pre, post, k, -1, m);
    }
    assert(forall|m: int| 0 <= m < post.n() ==> #[trigger] post.group_end(m) == pre.group_end(m));
    lemma_remove_segment_lines_wf(pre, post, k, rel);
    assert forall|m: int|
        0 <= m < post.n() implies post.run_offset(m) + (#[trigger] post.recs[m].segments).len()
        <= post.lines[post.line_of(m)].segs.len() by {
        if pre.inline(m) == pre.inline(k) {
            if m < k {
                lemma_run_monotone(pre, m, k);
            } else if m > k {
                lemma_run_monotone(pre, k, m);
            }
        } else {
            assert(post.line_of(m) != li) by {
                assert(pre.lines[pre.line_of(m)].id == pre.inline(m));
            }
            assert(post.lines[post.line_of(m)].segs == pre.lines[pre.line_of(m)].segs);
        }
    }
    assert forall|m: int, j: int|
        0 <= m < post.n() && 0 <= j < post.recs[m].segments.len() implies post.lines[post.line_of(
        m,
    )].segs[post.run_offset(m) + j].id == #[trigger] post.recs[m].segments[j] by {
        lemma_run_offset_nonneg(pre, m);
        if pre.inline(m) == pre.inline(k) {
            if m < k {
                lemma_run_monotone(pre, m, k);
                assert(post.lines[li].segs[pre.run_offset(m) + j] == pre.lines[li].segs[
                    pre.run_offset(m) + j]);
            } else if m > k {
                lemma_run_monotone(pre, k, m);
                assert(post.run_offset(m) + j == (pre.run_offset(m) + j) - 1);
                assert(post.lines[li].segs[pre.run_offset(m) + j - 1] == pre.lines[li].segs[
                    pre.run_offset(m) + j]);
            } else {
                if j < rel {
                    assert(post.lines[li].segs[p - rel + j] == pre.lines[li].segs[p - rel + j]);
                    assert(post.recs[k].segments[j] == pre.recs[k].segments[j]);
                } else {
                    assert(post.lines[li].segs[pre.run_offset(k) + j] == pre.lines[li].segs[
                        pre.run_offset(k) + j + 1]);
                    assert(post.recs[k].segments[j] == pre.recs[k].segments[j + 1]);
                }
            }
        } else {
            assert(post.line_of(m) != li) by {
                assert(pre.lines[pre.line_of(m)].id == pre.inline(m));
            }
            assert(post.lines[post.line_of(m)].segs == pre.lines[pre.line_of(m)].segs);
        }
    }
    assert forall|m: int|
        0 <= m < post.n() && #[trigger] post.group_end(m) implies post.lines[post.line_of(
        m,
    )].segs.len() == post.run_offset(m) + post.recs[m].segments.len() by {
        assert(pre.group_end(m));
        if pre.inline(m) == pre.inline(k) {
            assert(post.lines[li].segs.len() == pre.lines[li].segs.len() - 1);
            if m < k {
                lemma_run_monotone(pre, m, k);
                lemma_run_offset_nonneg(pre, k);
                assert(false);
            }
        } else {
            assert(post.line_of(m) != li) by {
                assert(pre.lines[pre.line_of(m)].id == pre.inline(m));
            }
            assert(post.lines[post.line_of(m)].segs == pre.lines[pre.line_of(m)].segs);
        }
    }
    assert(post.wf());
}

/// Layout depends only on the records of the elements before `k`: two models
/// agreeing there lay out identically.
pub proof fn lemma_layout_congruence(a: CoordModel, b: CoordModel, k: int)
    requires
        forall|i: int|
            0 <= i < k ==> a.recs[i].inline_line == b.recs[i].inline_line
                && a.recs[i].block_lines == b.recs[i].block_lines,
    ensures
        forall|i: int| 0 <= i <= k ==> a.layout_to(i) == b.layout_to(i),
    decreases k,
{
    if k > 0 {
        lemma_layout_congruence(a, b, k - 1);
        assert(a.layout_to(k - 1) == b.layout_to(k - 1));
        if k - 1 > 0 {
            assert(a.recs[k - 2].inline_line == b.recs[k - 2].inline_line);
        }
        assert(a.recs[k - 1].inline_line == b.recs[k - 1].inline_line);
        assert(a.group_start(k - 1) == b.group_start(k - 1));
        assert(a.layout_to(k) == b.layout_to(k));
    } else {
        assert(a.layout_to(0) =~= b.layout_to(0));
    }
}

/// Run offsets depend only on the inline lines and segment counts of the
/// elements before `k`.
pub proof fn lemma_run_offset_congruence(a: CoordModel, b: CoordModel, k: int)
    requires
        forall|i: int|
            0 <= i <= k ==> a.recs[i].inline_line == b.recs[i].inline_line
                && a.recs[i].segments.len() == b.recs[i].segments.len(),
    ensures
        forall|i: int| 0 <= i <= k ==> a.run_offset(i) == b.run_offset(i),
    decreases k,
{
    if k > 0 {
        lemma_run_offset_congruence(a, b, k - 1);
        assert(a.recs[k - 1].inline_line == b.recs[k - 1].inline_line);
        assert(a.recs[k].inline_line == b.recs[k].inline_line);
        assert(a.group_start(k) == b.group_start(k));
        assert(a.run_offset(k - 1) == b.run_offset(k - 1));
        assert(a.recs[k - 1].segments.len() == b.recs[k - 1].segments.len());
        assert(a.run_offset(k) == b.run_offset(k));
    }
}

/// Each earlier layout is a prefix of each later one.
pub proof fn lemma_layout_prefix(m: CoordModel, i: int, k: int)
    requires
        0 <= i <= k,
    ensures
        m.layout_to(k).len() >= m.layout_to(i).len(),
        m.layout_to(k).take(m.layout_to(i).len() as int) == m.layout_to(i),
    decreases k - i,
{
    if i < k {
        lemma_layout_prefix(m, i, k - 1);
        assert(m.layout_to(k).take(m.layout_to(i).len() as int) =~= m.layout_to(i));
    } else {
        assert(m.layout_to(k).take(m.layout_to(i).len() as int) =~= m.layout_to(i));
    }
}

} // verus!

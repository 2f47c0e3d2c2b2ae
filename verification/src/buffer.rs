//! The shared display buffer: an ordered sequence of display lines, each an
//! ordered sequence of text segments, addressed by opaque minted identifiers.

use vstd::prelude::*;
use vstd::string::StringExecFns;

use crate::style::Style;

verus! {

/// Identifies one display line of the buffer. Minted by the buffer, never
/// reused.
#[derive(Debug, Clone, Copy, PartialEq, Eq, Structural)]
pub struct LineId(pub u64);

/// Identifies one text segment of a display line. Minted by the buffer, never
/// reused.
#[derive(Debug, Clone, Copy, PartialEq, Eq, Structural)]
pub struct SegmentId(pub u64);

/// One text segment of a display line.
#[derive(Debug)]
pub struct BufferSegment {
    pub id: SegmentId,
    pub text: String,
    pub style: Option<Style>,
}

/// One display line: an identifier and its ordered segments.
#[derive(Debug)]
pub struct BufferLine {
    pub id: LineId,
    pub segments: Vec<BufferSegment>,
}

/// The mathematical content of one segment.
#[verifier::ext_equal]
pub ghost struct SegModel {
    pub id: SegmentId,
    pub text: Seq<char>,
    pub style: Option<Style>,
}

/// The mathematical content of one line.
#[verifier::ext_equal]
pub ghost struct LineModel {
    pub id: LineId,
    pub segs: Seq<SegModel>,
}

/// The mathematical content of one segment of the buffer.
pub open spec fn seg_model(s: BufferSegment) -> SegModel {
    SegModel { id: s.id, text: s.text@, style: s.style }
}

/// The mathematical content of one line of the buffer.
pub open spec fn line_model(l: BufferLine) -> LineModel {
    LineModel { id: l.id, segs: l.segments@.map_values(|s: BufferSegment| seg_model(s)) }
}

/// The shared terminal display buffer.
pub struct TerminalBuffer {
    pub lines: Vec<BufferLine>,
    pub next_line: u64,
    pub next_segment: u64,
}

/// The identifiers of a sequence of lines, in display order.
pub open spec fn ids_of(lines: Seq<LineModel>) -> Seq<LineId> {
    Seq::new(lines.len(), |i: int| lines[i].id)
}

/// The identifiers of the segments of one line, in display order.
pub open spec fn seg_ids_of(line: LineModel) -> Seq<SegmentId> {
    Seq::new(line.segs.len(), |j: int| line.segs[j].id)
}

/// Whether some line of the sequence carries the given identifier.
pub open spec fn has_line_id(lines: Seq<LineModel>, id: LineId) -> bool {
    exists|i: int| 0 <= i < lines.len() && lines[i].id == id
}

/// The display index of the line carrying the given identifier.
pub open spec fn index_of_line(lines: Seq<LineModel>, id: LineId) -> int {
    choose|i: int| 0 <= i < lines.len() && lines[i].id == id
}

/// Whether the line holds a segment with the given identifier.
pub open spec fn line_has_seg(line: LineModel, id: SegmentId) -> bool {
    exists|j: int| 0 <= j < line.segs.len() && line.segs[j].id == id
}

/// The index within the line of the segment carrying the given identifier.
pub open spec fn index_of_seg(line: LineModel, id: SegmentId) -> int {
    choose|j: int| 0 <= j < line.segs.len() && line.segs[j].id == id
}

/// Well-formedness of a line sequence: line and segment identifiers are
/// distinct across the whole sequence and below the minting counters.
pub open spec fn lines_wf(lines: Seq<LineModel>, next_line: int, next_segment: int) -> bool {
    &&& forall|i: int, j: int|
        0 <= i < j < lines.len() ==> #[trigger] lines[i].id != #[trigger] lines[j].id
    &&& forall|i: int| 0 <= i < lines.len() ==> (#[trigger] lines[i].id).0 < next_line
    &&& forall|i: int, j: int|
        0 <= i < lines.len() && 0 <= j < lines[i].segs.len() ==> (
        #[trigger] lines[i].segs[j].id).0 < next_segment
    &&& forall|i1: int, j1: int, i2: int, j2: int|
        0 <= i1 < lines.len() && 0 <= j1 < lines[i1].segs.len() && 0 <= i2 < lines.len() && 0
            <= j2 < lines[i2].segs.len() && (i1 != i2 || j1 != j2)
            ==> #[trigger] lines[i1].segs[j1].id != #[trigger] lines[i2].segs[j2].id
}

impl TerminalBuffer {
    /// The mathematical content of the whole buffer, in display order.
    pub open spec fn model(self) -> Seq<LineModel> {
        self.lines@.map_values(|l: BufferLine| line_model(l))
    }

    /// The identifiers of the buffer's lines, in display order.
    pub open spec fn ids(self) -> Seq<LineId> {
        ids_of(self.model())
    }

    /// The identifiers of the segments of line `i`, in display order.
    pub open spec fn seg_ids_at(self, i: int) -> Seq<SegmentId> {
        seg_ids_of(self.model()[i])
    }

    /// Whether some line of the buffer carries the given identifier.
    pub open spec fn has_line(self, id: LineId) -> bool {
        has_line_id(self.model(), id)
    }

    /// The display index of the line carrying the given identifier.
    pub open spec fn line_index_spec(self, id: LineId) -> int {
        index_of_line(self.model(), id)
    }

    /// Whether line `i` holds a segment with the given identifier.
    pub open spec fn line_has_segment(self, i: int, id: SegmentId) -> bool {
        line_has_seg(self.model()[i], id)
    }

    /// The index within line `i` of the segment carrying the given identifier.
    pub open spec fn seg_index_spec(self, i: int, id: SegmentId) -> int {
        index_of_seg(self.model()[i], id)
    }

    /// Well-formedness: line and segment identifiers are distinct across the
    /// whole buffer and below the minting counters.
    pub open spec fn wf(self) -> bool {
        lines_wf(self.model(), self.next_line as int, self.next_segment as int)
    }

    /// Create a new, empty buffer.
    pub fn new() -> (r: TerminalBuffer)
        ensures
            r.wf(),
            r.model() == Seq::<LineModel>::empty(),
            r.next_line == 0,
            r.next_segment == 0,
    {
        let r = TerminalBuffer { lines: Vec::new(), next_line: 0, next_segment: 0 };
        proof {
            assert(r.model() =~= Seq::<LineModel>::empty());
        }
        r
    }

    /// The number of lines currently in the buffer.
    pub fn line_count(&self) -> (r: usize)
        ensures
            r == self.model().len(),
    {
        self.lines.len()
    }

    /// Locate the line carrying the given identifier.
    fn find_line(&self, id: LineId) -> (r: usize)
        requires
            self.wf(),
            self.has_line(id),
        ensures
            r < self.model().len(),
            self.model()[r as int].id == id,
            r == self.line_index_spec(id),
    {
        let mut k: usize = 0;
        while k < self.lines.len()
            invariant
                self.wf(),
                self.has_line(id),
                k <= self.model().len(),
                forall|i: int| 0 <= i < k ==> self.model()[i].id != id,
            decreases self.model().len() - k,
        {
            if self.lines[k].id == id {
                proof {
                    assert(self.model()[k as int].id == id);
                    let w = self.line_index_spec(id);
                    assert(0 <= w < self.model().len() && self.model()[w].id == id);
                    assert(w == k as int);
                }
                return k;
            }
            k = k + 1;
        }
        proof {
            let w = self.line_index_spec(id);
            assert(0 <= w < self.model().len() && self.model()[w].id == id);
            assert(false);
        }
        unreached()
    }

    /// Mint a new, empty line and insert it at the given display index.
    pub fn insert_line(&mut self, index: usize) -> (r: LineId)
        requires
            old(self).wf(),
            index <= old(self).model().len(),
            old(self).next_line < u64::MAX,
        ensures
            final(self).wf(),
            final(self).model() == old(self).model().insert(
                index as int,
                (LineModel { id: r, segs: Seq::empty() }),
            ),
            forall|i: int| 0 <= i < old(self).model().len() ==> old(self).model()[i].id != r,
            r.0 == old(self).next_line,
            final(self).next_line == old(self).next_line + 1,
            final(self).next_segment == old(self).next_segment,
    {
        let id = LineId(self.next_line);
        self.next_line = self.next_line + 1;
        let line = BufferLine { id, segments: Vec::new() };
        self.lines.insert(index, line);
        proof {
            assert(line_model(self.lines@[index as int]).segs =~= Seq::<SegModel>::empty());
            assert(self.model() =~~= old(self).model().insert(
                index as int,
                (LineModel { id, segs: Seq::empty() }),
            ));
        }
        id
    }

    /// Mint a new, empty line and append it at the end of the buffer.
    pub fn add_line(&mut self) -> (r: LineId)
        requires
            old(self).wf(),
            old(self).next_line < u64::MAX,
        ensures
            final(self).wf(),
            final(self).model() == old(self).model().push(
                (LineModel { id: r, segs: Seq::empty() }),
            ),
            forall|i: int| 0 <= i < old(self).model().len() ==> old(self).model()[i].id != r,
            r.0 == old(self).next_line,
            final(self).next_line == old(self).next_line + 1,
            final(self).next_segment == old(self).next_segment,
    {
        let index = self.lines.len();
        let r = self.insert_line(index);
        proof {
            assert(self.model() =~~= old(self).model().push(
                (LineModel { id: r, segs: Seq::empty() }),
            ));
        }
        r
    }

    /// The display index of the line carrying the given identifier.
    pub fn get_line_index(&self, id: LineId) -> (r: usize)
        requires
            self.wf(),
            self.has_line(id),
        ensures
            r < self.model().len(),
            self.model()[r as int].id == id,
            r == self.line_index_spec(id),
    {
        self.find_line(id)
    }

    /// Remove the line at the given display index, discarding its segments.
    pub fn remove_line_at(&mut self, index: usize)
        requires
            old(self).wf(),
            index < old(self).model().len(),
        ensures
            final(self).wf(),
            final(self).model() == old(self).model().remove(index as int),
            final(self).next_line == old(self).next_line,
            final(self).next_segment == old(self).next_segment,
    {
        self.lines.remove(index);
        proof {
            assert(self.model() =~~= old(self).model().remove(index as int));
        }
    }

    /// Remove the line carrying the given identifier, discarding its segments.
    pub fn remove_line(&mut self, id: LineId)
        requires
            old(self).wf(),
            old(self).has_line(id),
        ensures
            final(self).wf(),
            final(self).model() == old(self).model().remove(old(self).line_index_spec(id)),
            final(self).next_line == old(self).next_line,
            final(self).next_segment == old(self).next_segment,
    {
        let index = self.find_line(id);
        self.remove_line_at(index);
    }

    /// Locate, within line `li`, the segment carrying the given identifier.
    fn find_segment(&self, li: usize, id: SegmentId) -> (r: usize)
        requires
            self.wf(),
            li < self.model().len(),
            self.line_has_segment(li as int, id),
        ensures
            r < self.model()[li as int].segs.len(),
            self.model()[li as int].segs[r as int].id == id,
            r == self.seg_index_spec(li as int, id),
    {
        let segs = &self.lines[li].segments;
        let mut k: usize = 0;
        while k < segs.len()
            invariant
                self.wf(),
                li < self.model().len(),
                self.line_has_segment(li as int, id),
                segs == self.lines@[li as int].segments,
                k <= self.model()[li as int].segs.len(),
                forall|j: int| 0 <= j < k ==> self.model()[li as int].segs[j].id != id,
            decreases self.model()[li as int].segs.len() - k,
        {
            if segs[k].id == id {
                proof {
                    assert(self.model()[li as int].segs[k as int].id == id);
                    let w = self.seg_index_spec(li as int, id);
                    assert(0 <= w < self.model()[li as int].segs.len());
                    assert(self.model()[li as int].segs[w].id == id);
                    assert(w == k as int);
                }
                return k;
            }
            k = k + 1;
        }
        proof {
            let w = self.seg_index_spec(li as int, id);
            assert(0 <= w < self.model()[li as int].segs.len());
            assert(self.model()[li as int].segs[w].id == id);
            assert(false);
        }
        unreached()
    }

    /// Mint a new, empty segment and insert it at the given index of the
    /// given line.
    pub fn insert_segment(&mut self, line: LineId, index: usize) -> (r: SegmentId)
        requires
            old(self).wf(),
            old(self).has_line(line),
            index <= old(self).model()[old(self).line_index_spec(line)].segs.len(),
            old(self).next_segment < u64::MAX,
        ensures
            final(self).wf(),
            final(self).model() == old(self).model().update(
                old(self).line_index_spec(line),
                (LineModel {
                    id: line,
                    segs: old(self).model()[old(self).line_index_spec(line)].segs.insert(
                        index as int,
                        (SegModel { id: r, text: Seq::empty(), style: None }),
                    ),
                }),
            ),
            forall|i: int, j: int|
                0 <= i < old(self).model().len() && 0 <= j < old(self).model()[i].segs.len()
                    ==> old(self).model()[i].segs[j].id != r,
            r.0 == old(self).next_segment,
            final(self).next_line == old(self).next_line,
            final(self).next_segment == old(self).next_segment + 1,
    {
        let li = self.find_line(line);
        let id = SegmentId(self.next_segment);
        self.next_segment = self.next_segment + 1;
        let mut bline = self.lines.remove(li);
        let seg = BufferSegment { id, text: String::new(), style: None };
        bline.segments.insert(index, seg);
        self.lines.insert(li, bline);
        proof {
            assert(self.model() =~~= old(self).model().update(
                li as int,
                (LineModel {
                    id: line,
                    segs: old(self).model()[li as int].segs.insert(
                        index as int,
                        (SegModel { id, text: Seq::empty(), style: None }),
                    ),
                }),
            ));
        }
        id
    }

    /// Remove the segment at the given index of the given line.
    pub fn remove_segment_at(&mut self, line: LineId, index: usize)
        requires
            old(self).wf(),
            old(self).has_line(line),
            index < old(self).model()[old(self).line_index_spec(line)].segs.len(),
        ensures
            final(self).wf(),
            final(self).model() == old(self).model().update(
                old(self).line_index_spec(line),
                (LineModel {
                    id: line,
                    segs: old(self).model()[old(self).line_index_spec(line)].segs.remove(
                        index as int,
                    ),
                }),
            ),
            final(self).next_line == old(self).next_line,
            final(self).next_segment == old(self).next_segment,
    {
        let li = self.find_line(line);
        let mut bline = self.lines.remove(li);
        bline.segments.remove(index);
        self.lines.insert(li, bline);
        proof {
            assert(self.model() =~~= old(self).model().update(
                li as int,
                (LineModel {
                    id: line,
                    segs: old(self).model()[li as int].segs.remove(index as int),
                }),
            ));
        }
    }

    /// Remove the segment carrying the given identifier from the given line.
    pub fn remove_segment(&mut self, line: LineId, seg: SegmentId)
        requires
            old(self).wf(),
            old(self).has_line(line),
            old(self).line_has_segment(old(self).line_index_spec(line), seg),
        ensures
            final(self).wf(),
            final(self).model() == old(self).model().update(
                old(self).line_index_spec(line),
                (LineModel {
                    id: line,
                    segs: old(self).model()[old(self).line_index_spec(line)].segs.remove(
                        old(self).seg_index_spec(old(self).line_index_spec(line), seg),
                    ),
                }),
            ),
            final(self).next_line == old(self).next_line,
            final(self).next_segment == old(self).next_segment,
    {
        let li = self.find_line(line);
        let si = self.find_segment(li, seg);
        self.remove_segment_at(line, si);
    }

    /// The index, within its line, of the segment carrying the given
    /// identifier.
    pub fn get_segment_index(&self, line: LineId, seg: SegmentId) -> (r: usize)
        requires
            self.wf(),
            self.has_line(line),
            self.line_has_segment(self.line_index_spec(line), seg),
        ensures
            r < self.model()[self.line_index_spec(line)].segs.len(),
            self.model()[self.line_index_spec(line)].segs[r as int].id == seg,
            r == self.seg_index_spec(self.line_index_spec(line), seg),
    {
        let li = self.find_line(line);
        self.find_segment(li, seg)
    }

    /// The number of segments on the given line.
    pub fn segment_count(&self, line: LineId) -> (r: usize)
        requires
            self.wf(),
            self.has_line(line),
        ensures
            r == self.model()[self.line_index_spec(line)].segs.len(),
    {
        let li = self.find_line(line);
        self.lines[li].segments.len()
    }

    /// The identifier of the segment at the given index of the given line.
    pub fn segment_id_at(&self, line: LineId, index: usize) -> (r: SegmentId)
        requires
            self.wf(),
            self.has_line(line),
            index < self.model()[self.line_index_spec(line)].segs.len(),
        ensures
            r == self.model()[self.line_index_spec(line)].segs[index as int].id,
    {
        let li = self.find_line(line);
        self.lines[li].segments[index].id
    }

    /// Move the segment carrying the given identifier from one line to the
    /// end of another.
    pub fn move_segment(&mut self, seg: SegmentId, from: LineId, to: LineId)
        requires
            old(self).wf(),
            from != to,
            old(self).has_line(from),
            old(self).has_line(to),
            old(self).line_has_segment(old(self).line_index_spec(from), seg),
        ensures
            final(self).wf(),
            final(self).model() == old(self).model().update(
                old(self).line_index_spec(from),
                (LineModel {
                    id: from,
                    segs: old(self).model()[old(self).line_index_spec(from)].segs.remove(
                        old(self).seg_index_spec(old(self).line_index_spec(from), seg),
                    ),
                }),
            ).update(
                old(self).line_index_spec(to),
                (LineModel {
                    id: to,
                    segs: old(self).model()[old(self).line_index_spec(to)].segs.push(
                        old(self).model()[old(self).line_index_spec(from)].segs[old(
                            self,
                        ).seg_index_spec(old(self).line_index_spec(from), seg)],
                    ),
                }),
            ),
            final(self).next_line == old(self).next_line,
            final(self).next_segment == old(self).next_segment,
    {
        let fi = self.find_line(from);
        let si = self.find_segment(fi, seg);
        let mut fline = self.lines.remove(fi);
        let moved = fline.segments.remove(si);
        self.lines.insert(fi, fline);
        proof {
            assert(self.model() =~~= old(self).model().update(
                fi as int,
                (LineModel {
                    id: from,
                    segs: old(self).model()[fi as int].segs.remove(si as int),
                }),
            ));
            let w = old(self).line_index_spec(to);
            assert(0 <= w < old(self).model().len() && old(self).model()[w].id == to);
            assert(w != fi as int);
            assert(self.model()[w].id == to);
            assert(self.has_line(to));
            let w2 = self.line_index_spec(to);
            assert(0 <= w2 < self.model().len() && self.model()[w2].id == to);
            assert(w == w2);
        }
        let ti = self.find_line(to);
        let mut tline = self.lines.remove(ti);
        tline.segments.push(moved);
        self.lines.insert(ti, tline);
        proof {
            assert(self.model() =~~= old(self).model().update(
                fi as int,
                (LineModel {
                    id: from,
                    segs: old(self).model()[fi as int].segs.remove(si as int),
                }),
            ).update(
                ti as int,
                (LineModel {
                    id: to,
                    segs: old(self).model()[ti as int].segs.push(
                        old(self).model()[fi as int].segs[si as int],
                    ),
                }),
            ));
        }
    }

    /// Move every segment at or past index `b` from one line to the end of
    /// another, preserving order.
    #[verifier::loop_isolation(false)]
    #[verifier::rlimit(100)]
    pub fn move_tail(&mut self, from: LineId, to: LineId, b: usize)
        requires
            old(self).wf(),
            from != to,
            old(self).has_line(from),
            old(self).has_line(to),
            b <= old(self).model()[old(self).line_index_spec(from)].segs.len(),
        ensures
            final(self).wf(),
            final(self).model() == old(self).model().update(
                old(self).line_index_spec(from),
                (LineModel {
                    id: from,
                    segs: old(self).model()[old(self).line_index_spec(from)].segs.take(b as int),
                }),
            ).update(
                old(self).line_index_spec(to),
                (LineModel {
                    id: to,
                    segs: old(self).model()[old(self).line_index_spec(to)].segs + old(
                        self,
                    ).model()[old(self).line_index_spec(from)].segs.skip(b as int),
                }),
            ),
            final(self).next_line == old(self).next_line,
            final(self).next_segment == old(self).next_segment,
    {
        let ghost m0 = self.model();
        let ghost fi = self.line_index_spec(from);
        let ghost ti = self.line_index_spec(to);
        let ghost fsegs = m0[fi].segs;
        let ghost tsegs = m0[ti].segs;
        proof {
            assert(0 <= fi < m0.len() && m0[fi].id == from);
            assert(0 <= ti < m0.len() && m0[ti].id == to);
            assert(fi != ti);
            assert(m0[fi].segs.len() == self.lines@[fi].segments@.len());
            vstd::std_specs::vec::axiom_spec_len(&self.lines@[fi].segments);
        }
        let total = self.segment_count(from);
        let to_move = total - b;
        let mut moved: usize = 0;
        while moved < to_move
            invariant
                moved <= to_move,
                b + to_move == total,
                total == fsegs.len(),
                self.wf(),
                self.next_line == old(self).next_line,
                self.next_segment == old(self).next_segment,
                self.model() =~~= m0.update(
                    fi,
                    (LineModel { id: from, segs: fsegs.take(b as int) + fsegs.skip(b + moved) }),
                ).update(ti, (LineModel { id: to, segs: tsegs + fsegs.subrange(b as int, b + moved) })),
                self.has_line(from),
                self.has_line(to),
                self.line_index_spec(from) == fi,
                self.line_index_spec(to) == ti,
            decreases to_move - moved,
        {
            let ghost cur = self.model();
            proof {
                assert(cur[fi].segs =~= fsegs.take(b as int) + fsegs.skip(b + moved));
                assert(cur[fi].segs.len() == total - moved);
                assert(cur[fi].segs[b as int] == fsegs[b + moved]);
            }
            let sid = self.segment_id_at(from, b);
            proof {
                assert(self.line_has_segment(fi, sid)) by {
                    assert(cur[fi].segs[b as int].id == sid);
                }
                assert(self.seg_index_spec(fi, sid) == b as int) by {
                    let w = self.seg_index_spec(fi, sid);
                    assert(0 <= w < cur[fi].segs.len() && cur[fi].segs[w].id == sid);
                    assert(w == b as int);
                }
            }
            self.move_segment(sid, from, to);
            proof {
                assert(self.model() =~~= m0.update(
                    fi,
                    (LineModel {
                        id: from,
                        segs: fsegs.take(b as int) + fsegs.skip(b + moved + 1),
                    }),
                ).update(
                    ti,
                    (LineModel { id: to, segs: tsegs + fsegs.subrange(b as int, b + moved + 1) }),
                ));
                assert(self.has_line(from)) by {
                    assert(self.model()[fi].id == from);
                }
                assert(self.has_line(to)) by {
                    assert(self.model()[ti].id == to);
                }
                let w = self.line_index_spec(from);
                assert(0 <= w < self.model().len() && self.model()[w].id == from);
                assert(w == fi);
                let w2 = self.line_index_spec(to);
                assert(0 <= w2 < self.model().len() && self.model()[w2].id == to);
                assert(w2 == ti);
            }
            moved = moved + 1;
        }
        proof {
            assert(fsegs.take(b as int) + fsegs.skip(b + moved) =~= fsegs.take(b as int));
            assert(fsegs.subrange(b as int, b + moved) =~= fsegs.skip(b as int));
            assert(self.model() =~~= m0.update(
                fi,
                (LineModel { id: from, segs: fsegs.take(b as int) }),
            ).update(ti, (LineModel { id: to, segs: tsegs + fsegs.skip(b as int) })));
        }
    }

    /// Set the text of the segment carrying the given identifier.
    pub fn set_segment_text(&mut self, line: LineId, seg: SegmentId, text: &str)
        requires
            old(self).wf(),
            old(self).has_line(line),
            old(self).line_has_segment(old(self).line_index_spec(line), seg),
        ensures
            final(self).wf(),
            final(self).model() == old(self).model().update(
                old(self).line_index_spec(line),
                (LineModel {
                    id: line,
                    segs: old(self).model()[old(self).line_index_spec(line)].segs.update(
                        old(self).seg_index_spec(old(self).line_index_spec(line), seg),
                        (SegModel {
                            id: seg,
                            text: text@,
                            style: old(self).model()[old(self).line_index_spec(line)].segs[old(
                                self,
                            ).seg_index_spec(old(self).line_index_spec(line), seg)].style,
                        }),
                    ),
                }),
            ),
            final(self).next_line == old(self).next_line,
            final(self).next_segment == old(self).next_segment,
    {
        let li = self.find_line(line);
        let si = self.find_segment(li, seg);
        let mut bline = self.lines.remove(li);
        let mut bseg = bline.segments.remove(si);
        bseg.text = String::from_str(text);
        bline.segments.insert(si, bseg);
        self.lines.insert(li, bline);
        proof {
            assert(self.model()[li as int].segs =~~= old(self).model()[li as int].segs.update(
                si as int,
                (SegModel {
                    id: seg,
                    text: text@,
                    style: old(self).model()[li as int].segs[si as int].style,
                }),
            ));
            assert(self.model() =~~= old(self).model().update(
                li as int,
                (LineModel {
                    id: line,
                    segs: old(self).model()[li as int].segs.update(
                        si as int,
                        (SegModel {
                            id: seg,
                            text: text@,
                            style: old(self).model()[li as int].segs[si as int].style,
                        }),
                    ),
                }),
            ));
        }
    }

    /// Set the styling of the segment carrying the given identifier.
    pub fn set_segment_style(&mut self, line: LineId, seg: SegmentId, style: Option<Style>)
        requires
            old(self).wf(),
            old(self).has_line(line),
            old(self).line_has_segment(old(self).line_index_spec(line), seg),
        ensures
            final(self).wf(),
            final(self).model() == old(self).model().update(
                old(self).line_index_spec(line),
                (LineModel {
                    id: line,
                    segs: old(self).model()[old(self).line_index_spec(line)].segs.update(
                        old(self).seg_index_spec(old(self).line_index_spec(line), seg),
                        (SegModel {
                            id: seg,
                            text: old(self).model()[old(self).line_index_spec(line)].segs[old(
                                self,
                            ).seg_index_spec(old(self).line_index_spec(line), seg)].text,
                            style: style,
                        }),
                    ),
                }),
            ),
            final(self).next_line == old(self).next_line,
            final(self).next_segment == old(self).next_segment,
    {
        let li = self.find_line(line);
        let si = self.find_segment(li, seg);
        let mut bline = self.lines.remove(li);
        let mut bseg = bline.segments.remove(si);
        bseg.style = style;
        bline.segments.insert(si, bseg);
        self.lines.insert(li, bline);
        proof {
            assert(self.model()[li as int].segs =~~= old(self).model()[li as int].segs.update(
                si as int,
                (SegModel {
                    id: seg,
                    text: old(self).model()[li as int].segs[si as int].text,
                    style: style,
                }),
            ));
            assert(self.model() =~~= old(self).model().update(
                li as int,
                (LineModel {
                    id: line,
                    segs: old(self).model()[li as int].segs.update(
                        si as int,
                        (SegModel {
                            id: seg,
                            text: old(self).model()[li as int].segs[si as int].text,
                            style: style,
                        }),
                    ),
                }),
            ));
        }
    }

    /// The text of the segment carrying the given identifier.
    pub fn get_segment_text(&self, line: LineId, seg: SegmentId) -> (r: String)
        requires
            self.wf(),
            self.has_line(line),
            self.line_has_segment(self.line_index_spec(line), seg),
        ensures
            r@ == self.model()[self.line_index_spec(line)].segs[self.seg_index_spec(
                self.line_index_spec(line),
                seg,
            )].text,
    {
        let li = self.find_line(line);
        let si = self.find_segment(li, seg);
        String::from_str(self.lines[li].segments[si].text.as_str())
    }

    /// The identifiers of the segments of the given line, in order.
    pub fn segment_ids(&self, line: LineId) -> (r: Vec<SegmentId>)
        requires
            self.wf(),
            self.has_line(line),
        ensures
            r@ == self.seg_ids_at(self.line_index_spec(line)),
    {
        let li = self.find_line(line);
        let segs = &self.lines[li].segments;
        let mut out: Vec<SegmentId> = Vec::new();
        let mut k: usize = 0;
        while k < segs.len()
            invariant
                self.wf(),
                li < self.model().len(),
                li == self.line_index_spec(line),
                segs == self.lines@[li as int].segments,
                k <= self.model()[li as int].segs.len(),
                out@.len() == k,
                forall|j: int| 0 <= j < k ==> out@[j] == self.model()[li as int].segs[j].id,
            decreases self.model()[li as int].segs.len() - k,
        {
            out.push(segs[k].id);
            k = k + 1;
        }
        proof {
            assert(out@ =~= self.seg_ids_at(li as int));
        }
        out
    }

    /// The identifiers of the buffer's lines, in display order.
    pub fn line_ids(&self) -> (r: Vec<LineId>)
        ensures
            r@ == self.ids(),
    {
        let mut out: Vec<LineId> = Vec::new();
        let mut k: usize = 0;
        while k < self.lines.len()
            invariant
                k <= self.model().len(),
                out@.len() == k,
                forall|i: int| 0 <= i < k ==> out@[i] == self.model()[i].id,
            decreases self.model().len() - k,
        {
            out.push(self.lines[k].id);
            k = k + 1;
        }
        proof {
            assert(out@ =~= self.ids());
        }
        out
    }
}

} // verus!

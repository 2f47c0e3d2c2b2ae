//! The post-paint layout report, as plain values: for each rendered line,
//! the segments it held and the widths of each segment's wrapped parts.
//! The embedding converts the paint engine's report into this model once,
//! at the edge; elements consume it to recompute wrap boundaries.

use vstd::prelude::*;

use crate::buffer::SegmentId;

verus! {

/// The rendered geometry of one segment: which segment it was, and the
/// column widths of each of its wrapped parts.
#[derive(Debug)]
pub struct SegmentLayoutModel {
    pub segment_id: Option<SegmentId>,
    pub part_widths: Vec<Vec<u16>>,
}

/// The post-paint geometry of the whole display: one entry per rendered
/// line, each an ordered list of segment layouts.
#[derive(Debug)]
pub struct LayoutReportModel {
    pub lines: Vec<Vec<SegmentLayoutModel>>,
}

/// Whether position (i, j) of the report names the given segment.
pub open spec fn layout_pos_matches(report: LayoutReportModel, id: SegmentId, i: int, j: int) -> bool {
    0 <= i < report.lines@.len() && 0 <= j < report.lines@[i]@.len()
        && report.lines@[i]@[j].segment_id == Some(id)
}

/// Provides an element access to the post-paint geometry of its own
/// segments.
#[derive(Debug)]
pub struct LayoutAccessor {
    pub report: LayoutReportModel,
}

impl LayoutAccessor {
    /// Wrap a layout report.
    pub fn new(report: LayoutReportModel) -> (r: LayoutAccessor)
        ensures
            r.report == report,
    {
        LayoutAccessor { report }
    }

    /// The rendered geometry of the given segment: the first entry naming
    /// it, scanning lines in order and each line's segments in order;
    /// absent exactly when no entry names it.
    pub fn get_segment(&self, segment_id: SegmentId) -> (r: Option<&SegmentLayoutModel>)
        ensures
            (match r {
                Some(s) => exists|i: int, j: int|
                    #[trigger] layout_pos_matches(self.report, segment_id, i, j) && *s
                        == self.report.lines@[i]@[j] && (forall|i2: int, j2: int|
                        #[trigger] layout_pos_matches(self.report, segment_id, i2, j2) ==> i < i2
                            || (i == i2 && j <= j2)),
                None => forall|i: int, j: int|
                    !(#[trigger] layout_pos_matches(self.report, segment_id, i, j)),
            }),
    {
        let mut i: usize = 0;
        while i < self.report.lines.len()
            invariant
                i <= self.report.lines@.len(),
                forall|i2: int, j2: int|
                    #[trigger] layout_pos_matches(self.report, segment_id, i2, j2) ==> i2 >= i,
            decreases self.report.lines@.len() - i,
        {
            let row = &self.report.lines[i];
            let mut j: usize = 0;
            while j < row.len()
                invariant
                    i < self.report.lines@.len(),
                    row == self.report.lines@[i as int],
                    j <= row@.len(),
                    forall|i2: int, j2: int|
                        #[trigger] layout_pos_matches(self.report, segment_id, i2, j2) ==> i2 > i
                            || (i2 == i && j2 >= j),
                decreases row@.len() - j,
            {
                let matches_here = match row[j].segment_id {
                    Some(id) => id.0 == segment_id.0,
                    None => false,
                };
                if matches_here {
                    proof {
                        assert(self.report.lines@[i as int]@[j as int].segment_id == Some(
                            segment_id,
                        ));
                        assert(layout_pos_matches(self.report, segment_id, i as int, j as int));
                    }
                    return Some(&self.report.lines[i][j]);
                }
                proof {
                    assert(!layout_pos_matches(self.report, segment_id, i as int, j as int));
                }
                j = j + 1;
            }
            i = i + 1;
        }
        None
    }
}

} // verus!

use tty_form::{Coordinator, ElementId};

fn ids(step_sizes: &[usize]) -> Vec<ElementId> {
    let mut out = Vec::new();
    for (s, n) in step_sizes.iter().enumerate() {
        for j in 0..*n {
            out.push(ElementId::new(s, j));
        }
    }
    out
}

/// Index consistency: an element's segment index is the sum of the segment
/// counts of the inline-line siblings preceding it.
#[test]
fn index_consistency() {
    let mut coordinator = Coordinator::new();
    coordinator.initialize_elements(&vec![3]);
    let elems = ids(&[3]);

    coordinator.add_segment(&elems[0]);
    coordinator.add_segment(&elems[0]);
    coordinator.add_segment(&elems[1]);
    coordinator.add_segment(&elems[2]);
    coordinator.add_segment(&elems[2]);

    assert_eq!(0, coordinator.get_element_segment_index(&elems[0]));
    assert_eq!(2, coordinator.get_element_segment_index(&elems[1]));
    assert_eq!(3, coordinator.get_element_segment_index(&elems[2]));
}

/// Split correctness: splitting on B in [A, B, C] leaves [A, B] on the old
/// line and moves C's segments, in order, to the new line.
#[test]
fn split_correctness() {
    let mut coordinator = Coordinator::new();
    coordinator.initialize_elements(&vec![3]);
    let elems = ids(&[3]);
    let (a, b, c) = (&elems[0], &elems[1], &elems[2]);

    let a0 = coordinator.add_segment(a);
    let a1 = coordinator.add_segment(a);
    let b0 = coordinator.add_segment(b);
    let c0 = coordinator.add_segment(c);
    let c1 = coordinator.add_segment(c);
    coordinator.set_segment_text(c, &c0, "c0");
    coordinator.set_segment_text(c, &c1, "c1");

    let old_line = coordinator.get_inline_line_id(a);
    coordinator.try_inline_split(b);

    // A and B keep the original line; C has a fresh one
    assert_eq!(old_line, coordinator.get_inline_line_id(a));
    assert_eq!(old_line, coordinator.get_inline_line_id(b));
    let new_line = coordinator.get_inline_line_id(c);
    assert_ne!(old_line, new_line);
    assert_eq!(2, coordinator.buffer.line_count());

    // the original line holds exactly A's and B's segments
    assert_eq!(
        vec![a0, a1, b0],
        coordinator.buffer.segment_ids(old_line)
    );
    // C's segments moved to the new line, preserving order and content
    assert_eq!(vec![c0, c1], coordinator.buffer.segment_ids(new_line));
    assert_eq!("c0", coordinator.get_segment_text(c, &c0));
    assert_eq!("c1", coordinator.get_segment_text(c, &c1));
    assert_eq!(0, coordinator.get_element_segment_index(c));
}

/// Split/join round trip: giving an element its first block line and then
/// releasing it restores the original single-line grouping.
#[test]
fn split_join_round_trip() {
    let mut coordinator = Coordinator::new();
    coordinator.initialize_elements(&vec![4]);
    let elems = ids(&[4]);

    for e in &elems {
        coordinator.add_segment(e);
    }
    let original_line = coordinator.get_inline_line_id(&elems[1]);
    let before: Vec<_> = elems
        .iter()
        .map(|e| coordinator.segments(e))
        .collect();

    let block = coordinator.add_line(&elems[1]);
    assert_eq!(3, coordinator.buffer.line_count());
    assert_ne!(
        coordinator.get_inline_line_id(&elems[1]),
        coordinator.get_inline_line_id(&elems[2])
    );

    coordinator.remove_line(&elems[1], &block);

    assert_eq!(1, coordinator.buffer.line_count());
    for e in &elems {
        assert_eq!(original_line, coordinator.get_inline_line_id(e));
    }
    let after: Vec<_> = elems
        .iter()
        .map(|e| coordinator.segments(e))
        .collect();
    assert_eq!(before, after);
}

/// No-op split and join: an element with no subsequent group members splits
/// to nothing, and a join with no following group changes nothing.
#[test]
fn noop_split_and_join() {
    let mut coordinator = Coordinator::new();
    coordinator.initialize_elements(&vec![2, 1]);
    let last_of_step0 = ElementId::new(0, 1);
    let only_of_step1 = ElementId::new(1, 0);

    coordinator.add_segment(&last_of_step0);
    let lines_before = coordinator.buffer.line_count();
    let line_before = coordinator.get_inline_line_id(&last_of_step0);

    coordinator.try_inline_split(&last_of_step0);
    assert_eq!(lines_before, coordinator.buffer.line_count());
    assert_eq!(line_before, coordinator.get_inline_line_id(&last_of_step0));

    // the last element of the whole form: no line follows its section
    let block = coordinator.add_line(&only_of_step1);
    coordinator.remove_line(&only_of_step1, &block);
    assert_eq!(lines_before, coordinator.buffer.line_count());
}

/// Block-line ordering: after two add_line calls the element owns two
/// block lines at strictly increasing, contiguous buffer rows immediately
/// after its inline line.
#[test]
fn block_line_ordering() {
    let mut coordinator = Coordinator::new();
    coordinator.initialize_elements(&vec![2]);
    let first = ElementId::new(0, 0);

    coordinator.add_line(&first);
    coordinator.add_line(&first);

    let blocks = coordinator.lines(&first);
    assert_eq!(2, blocks.len());
    let inline_index = coordinator
        .buffer
        .get_line_index(coordinator.get_inline_line_id(&first));
    let b0 = coordinator.buffer.get_line_index(blocks[0]);
    let b1 = coordinator.buffer.get_line_index(blocks[1]);
    assert_eq!(inline_index + 1, b0);
    assert_eq!(b0 + 1, b1);
}

/// The multi-state dynamic element scenario: a second inline segment
/// arrives with a split, a private block line replaces it, and releasing
/// the block line joins the original grouping back together.
#[test]
fn dynamic_element_scenario() {
    let mut coordinator = Coordinator::new();
    coordinator.initialize_elements(&vec![2]);
    let dynamic = ElementId::new(0, 0);
    let fixed = ElementId::new(0, 1);

    // state 0: one inline segment, on a line shared with the later element
    let s0 = coordinator.add_segment(&dynamic);
    coordinator.set_segment_text(&dynamic, &s0, "D0S0");
    let f0 = coordinator.add_segment(&fixed);
    coordinator.set_segment_text(&fixed, &f0, "E0S1");
    let shared = coordinator.get_inline_line_id(&dynamic);
    assert_eq!(shared, coordinator.get_inline_line_id(&fixed));

    // state 1: a second segment, inserted before the first, and a split
    let s1 = coordinator.insert_segment(&dynamic, 0);
    coordinator.set_segment_text(&dynamic, &s1, "D0S1");
    coordinator.try_inline_split(&dynamic);
    assert_eq!(shared, coordinator.get_inline_line_id(&dynamic));
    let moved = coordinator.get_inline_line_id(&fixed);
    assert_ne!(shared, moved);
    assert_eq!(vec![s1, s0], coordinator.buffer.segment_ids(shared));
    assert_eq!("D0S1", coordinator.get_segment_text(&dynamic, &s1));
    assert_eq!(vec![f0], coordinator.buffer.segment_ids(moved));

    // state 2: the inserted segment goes away; a private block line arrives
    coordinator.remove_segment(&dynamic, &s1);
    let block = coordinator.add_line(&dynamic);
    assert_eq!(3, coordinator.buffer.line_count());
    assert_eq!(vec![block], coordinator.lines(&dynamic));

    // back to state 1: releasing the block line joins the groups again
    coordinator.remove_line(&dynamic, &block);
    assert_eq!(1, coordinator.buffer.line_count());
    assert_eq!(shared, coordinator.get_inline_line_id(&dynamic));
    assert_eq!(shared, coordinator.get_inline_line_id(&fixed));
    assert_eq!(vec![s0, f0], coordinator.buffer.segment_ids(shared));
    assert_eq!("D0S0", coordinator.get_segment_text(&dynamic, &s0));
    assert_eq!("E0S1", coordinator.get_segment_text(&fixed, &f0));
}

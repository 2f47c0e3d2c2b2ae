//! Multi-part formatted text content and range-based restyling.

use vstd::prelude::*;
use vstd::string::{StrSliceExecFns, StringExecFns};

use crate::style::Style;

verus! {

/// A tuple of text content and optional styling.
#[derive(Debug, Clone, Eq, PartialEq)]
pub struct Text(pub String, pub Option<Style>);

/// A segment of multi-part formatted text content.
pub type Segment = Vec<Text>;

/// A collection of text segments representing each item in the drawer, each
/// rendered vertically-separated.
pub type DrawerContents = Vec<Segment>;

/// The styled characters a single text part contributes to its segment.
pub open spec fn text_chars(t: Text) -> Seq<(char, Option<Style>)> {
    t.0@.map_values(|c: char| (c, t.1))
}

/// The styled characters of a whole segment, in rendered order.
pub open spec fn segment_chars(s: Seq<Text>) -> Seq<(char, Option<Style>)>
    decreases s.len(),
{
    if s.len() == 0 {
        Seq::empty()
    } else {
        segment_chars(s.drop_last()) + text_chars(s.last())
    }
}

/// Appending one part to a segment appends its characters.
proof fn lemma_segment_chars_take_step(s: Seq<Text>, k: int)
    requires
        0 <= k < s.len(),
    ensures
        segment_chars(s.take(k + 1)) == segment_chars(s.take(k)) + text_chars(s[k]),
{
    assert(s.take(k + 1).drop_last() =~= s.take(k));
    assert(s.take(k + 1).last() == s[k]);
}

/// A segment's characters decompose at any part boundary.
proof fn lemma_segment_chars_split(s: Seq<Text>, k: int)
    requires
        0 <= k <= s.len(),
    ensures
        segment_chars(s) == segment_chars(s.take(k)) + segment_chars(s.skip(k)),
    decreases s.len() - k,
{
    if k == s.len() {
        assert(s.take(k) =~= s);
        assert(s.skip(k) =~= Seq::<Text>::empty());
        assert(segment_chars(s) =~= segment_chars(s.take(k)) + segment_chars(s.skip(k)));
    } else {
        lemma_segment_chars_split(s, k + 1);
        lemma_segment_chars_take_step(s, k);
        assert(s.skip(k).drop_last() =~= s.skip(k).take(s.skip(k).len() - 1));
        assert(s.take(k + 1) =~= s.take(k).push(s[k]));
        assert(s.skip(k) =~= seq![s[k]] + s.skip(k + 1));
        lemma_segment_chars_prepend(s[k], s.skip(k + 1));
        assert(segment_chars(s) =~= segment_chars(s.take(k)) + segment_chars(s.skip(k)));
    }
}

/// Prepending one part to a segment prepends its characters.
proof fn lemma_segment_chars_prepend(t: Text, s: Seq<Text>)
    ensures
        segment_chars(seq![t] + s) == text_chars(t) + segment_chars(s),
    decreases s.len(),
{
    if s.len() == 0 {
        assert((seq![t] + s).drop_last() =~= Seq::<Text>::empty());
        assert((seq![t] + s).last() == t);
        assert(segment_chars(Seq::<Text>::empty()) == Seq::<(char, Option<Style>)>::empty());
        assert(segment_chars(seq![t] + s) == segment_chars((seq![t] + s).drop_last())
            + text_chars((seq![t] + s).last()));
        assert(segment_chars(seq![t] + s) =~= text_chars(t) + segment_chars(s));
    } else {
        assert((seq![t] + s).drop_last() =~= seq![t] + s.drop_last());
        assert((seq![t] + s).last() == s.last());
        lemma_segment_chars_prepend(t, s.drop_last());
        assert(segment_chars(seq![t] + s) == segment_chars((seq![t] + s).drop_last())
            + text_chars((seq![t] + s).last()));
        assert(segment_chars(s) == segment_chars(s.drop_last()) + text_chars(s.last()));
        assert(segment_chars(seq![t] + s) =~= text_chars(t) + segment_chars(s));
    }
}

impl Text {
    /// Create a new, unstyled text part.
    pub fn new(content: String) -> (r: Text)
        ensures
            r.0 == content,
            r.1 == None::<Style>,
    {
        Text(content, None)
    }

    /// Create a new, styled text part.
    pub fn new_styled(content: String, style: Style) -> (r: Text)
        ensures
            r.0 == content,
            r.1 == Some(style),
    {
        Text(content, Some(style))
    }

    /// This text's content.
    pub fn content(&self) -> (r: &str)
        ensures
            r@ == self.0@,
    {
        self.0.as_str()
    }

    /// This text's styling, if specified.
    pub fn style(&self) -> (r: Option<Style>)
        ensures
            r == self.1,
    {
        self.1
    }

    /// This text as a single-part segment.
    pub fn as_segment(self) -> (r: Segment)
        ensures
            r@.len() == 1,
            r@[0] == self,
    {
        let mut seg: Vec<Text> = Vec::new();
        seg.push(self);
        seg
    }
}

/// Split a text part at the specified character index, both halves keeping
/// the original styling.
pub fn split_text(text: &Text, index: usize) -> (r: (Text, Text))
    requires
        index <= text.0@.len(),
    ensures
        r.0.0@ == text.0@.take(index as int),
        r.1.0@ == text.0@.skip(index as int),
        r.0.1 == text.1,
        r.1.1 == text.1,
{
    let len = text.0.as_str().unicode_len();
    let prefix = String::from_str(text.0.as_str().substring_char(0, index));
    let suffix = String::from_str(text.0.as_str().substring_char(index, len));
    proof {
        assert(text.0@.subrange(0, index as int) =~= text.0@.take(index as int));
        assert(text.0@.subrange(index as int, text.0@.len() as int) =~= text.0@.skip(index as int));
    }
    (Text(prefix, text.1), Text(suffix, text.1))
}

/// The total character length of a segment's content.
pub fn get_segment_length(segment: &Segment) -> (r: usize)
    requires
        segment_chars(segment@).len() <= usize::MAX,
    ensures
        r == segment_chars(segment@).len(),
{
    let mut total: usize = 0;
    let mut k: usize = 0;
    while k < segment.len()
        invariant
            k <= segment@.len(),
            segment_chars(segment@).len() <= usize::MAX,
            total == segment_chars(segment@.take(k as int)).len(),
        decreases segment@.len() - k,
    {
        proof {
            lemma_segment_chars_take_step(segment@, k as int);
            lemma_segment_chars_split(segment@, k as int + 1);
        }
        let len = segment[k].0.as_str().unicode_len();
        total = total + len;
        k = k + 1;
    }
    proof {
        assert(segment@.take(segment@.len() as int) =~= segment@);
    }
    total
}

/// The restyled characters of a segment after styling the character range
/// `[start, end)`: content is unchanged, and exactly the characters in the
/// range carry the new style.
pub open spec fn restyled_chars(
    oc: Seq<(char, Option<Style>)>,
    start: int,
    end: int,
    style: Style,
) -> Seq<(char, Option<Style>)> {
    Seq::new(
        oc.len(),
        |i: int| if start <= i < end { (oc[i].0, Some(style)) } else { oc[i] },
    )
}

/// Apply the specified style to the characters of a segment whose index lies
/// in `[start, end)`, splitting parts where the range crosses a part.
#[verifier::rlimit(60)]
pub fn set_segment_subset_style(segment: &mut Segment, start: usize, end: usize, style: Style)
    requires
        segment_chars(old(segment)@).len() <= usize::MAX,
    ensures
        segment_chars(final(segment)@) == restyled_chars(
            segment_chars(old(segment)@),
            start as int,
            end as int,
            style,
        ),
{
    let ghost orig = segment@;
    let ghost oc = segment_chars(orig);
    let ghost target = restyled_chars(oc, start as int, end as int, style);
    let mut out: Vec<Text> = Vec::new();
    let mut offset: usize = 0;
    let mut k: usize = 0;
    while k < segment.len()
        invariant
            k <= orig.len(),
            segment@ == orig,
            oc == segment_chars(orig),
            oc.len() <= usize::MAX,
            target == restyled_chars(oc, start as int, end as int, style),
            offset as int == segment_chars(orig.take(k as int)).len(),
            segment_chars(out@) == target.take(offset as int),
        decreases orig.len() - k,
    {
        proof {
            lemma_segment_chars_take_step(orig, k as int);
            lemma_segment_chars_split(orig, k as int + 1);
        }
        let ghost tc = text_chars(orig[k as int]);
        let len = segment[k].0.as_str().unicode_len();
        proof {
            assert(offset + len <= oc.len());
            assert(forall|j: int| 0 <= j < len ==> oc[offset + j] == tc[j]);
        }
        let past_start: usize = if start <= offset {
            0
        } else if start >= offset + len {
            len
        } else {
            start - offset
        };
        let past_end: usize = if end <= offset {
            0
        } else if end >= offset + len {
            len
        } else {
            end - offset
        };
        let a = past_start;
        let b = if past_end < past_start {
            past_start
        } else {
            past_end
        };
        let ghost styled = Seq::new(
            tc.len(),
            |j: int| if a as int <= j < b as int { (tc[j].0, Some(style)) } else { tc[j] },
        );
        let ghost out_pre = out@;
        if a > 0 {
            let ghost before = out@;
            let piece = String::from_str(segment[k].0.as_str().substring_char(0, a));
            out.push(Text(piece, segment[k].1));
            proof {
                assert(out@.drop_last() =~= before);
                assert(segment_chars(out@) =~= segment_chars(before) + text_chars(out@.last()));
            }
        }
        proof {
            assert(segment_chars(out@) =~= segment_chars(out_pre) + styled.take(a as int));
        }
        if b > a {
            let ghost before = out@;
            let piece = String::from_str(segment[k].0.as_str().substring_char(a, b));
            out.push(Text(piece, Some(style)));
            proof {
                assert(out@.drop_last() =~= before);
                assert(segment_chars(out@) =~= segment_chars(before) + text_chars(out@.last()));
            }
        }
        proof {
            assert(segment_chars(out@) =~= segment_chars(out_pre) + styled.take(b as int));
        }
        if len > b {
            let ghost before = out@;
            let piece = String::from_str(segment[k].0.as_str().substring_char(b, len));
            out.push(Text(piece, segment[k].1));
            proof {
                assert(out@.drop_last() =~= before);
                assert(segment_chars(out@) =~= segment_chars(before) + text_chars(out@.last()));
            }
        }
        proof {
            assert(segment_chars(out@) =~= segment_chars(out_pre) + styled);
            assert(styled =~= target.subrange(offset as int, offset + len));
            assert(target.take(offset + len) =~= target.take(offset as int) + target.subrange(
                offset as int,
                offset + len,
            ));
        }
        offset = offset + len;
        k = k + 1;
    }
    proof {
        assert(orig.take(orig.len() as int) =~= orig);
        assert(target.take(offset as int) =~= target);
    }
    *segment = out;
}

/// Apply the specified style to every part of a segment, leaving content
/// unchanged.
pub fn set_segment_style(segment: &mut Segment, style: Style)
    ensures
        final(segment)@.len() == old(segment)@.len(),
        forall|k: int|
            0 <= k < final(segment)@.len() ==> final(segment)@[k].0@ == old(segment)@[k].0@
                && final(segment)@[k].1 == Some(style),
{
    let mut out: Vec<Text> = Vec::new();
    let mut k: usize = 0;
    while k < segment.len()
        invariant
            k <= segment@.len(),
            segment@ == old(segment)@,
            out@.len() == k,
            forall|j: int|
                0 <= j < k ==> out@[j].0@ == old(segment)@[j].0@ && out@[j].1 == Some(style),
        decreases segment@.len() - k,
    {
        let content = String::from_str(segment[k].0.as_str());
        out.push(Text(content, Some(style)));
        k = k + 1;
    }
    *segment = out;
}

} // verus!

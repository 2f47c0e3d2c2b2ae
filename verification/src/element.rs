//! Elements of the coordinator-driven rendering path: the static literal
//! and the text-input element. Each renders itself through the verified
//! coordinator; the text engine's state arrives as a plain-value view.

use vstd::prelude::*;
use vstd::string::{StrSliceExecFns, StringExecFns};

use crate::key::InputKey;

verus! {

/// The text split at every newline: n newlines give n + 1 lines, so a
/// trailing newline contributes a final empty line.
pub open spec fn lines_of(s: Seq<char>) -> Seq<Seq<char>>
    decreases s.len(),
{
    if s.len() == 0 {
        seq![Seq::<char>::empty()]
    } else if s[0] == '\n' {
        seq![Seq::<char>::empty()] + lines_of(s.skip(1))
    } else {
        seq![seq![s[0]] + lines_of(s.skip(1))[0]] + lines_of(s.skip(1)).skip(1)
    }
}

/// A text always splits into at least one line.
pub proof fn lemma_lines_nonempty(s: Seq<char>)
    ensures
        lines_of(s).len() >= 1,
    decreases s.len(),
{
    if s.len() > 0 {
        lemma_lines_nonempty(s.skip(1));
    }
}

/// Appending one character extends the last line, or opens a fresh empty
/// one if it is a newline.
proof fn lemma_lines_snoc(s: Seq<char>, ch: char)
    ensures
        lines_of(s).len() >= 1,
        ch == '\n' ==> lines_of(s.push(ch)) == lines_of(s).push(Seq::<char>::empty()),
        ch != '\n' ==> lines_of(s.push(ch)) == lines_of(s).update(
            lines_of(s).len() - 1,
            lines_of(s).last().push(ch),
        ),
    decreases s.len(),
{
    lemma_lines_nonempty(s);
    if s.len() == 0 {
        assert(s.push(ch).len() == 1);
        assert(s.push(ch)[0] == ch);
        assert(s.push(ch).skip(1) =~= Seq::<char>::empty());
        assert(lines_of(Seq::<char>::empty()) == seq![Seq::<char>::empty()]);
        if ch == '\n' {
            assert(lines_of(s.push(ch)) == seq![Seq::<char>::empty()] + lines_of(
                s.push(ch).skip(1),
            ));
            assert(lines_of(s.push(ch)) =~~= lines_of(s).push(Seq::<char>::empty()));
        } else {
            assert(lines_of(s.push(ch)) == seq![seq![ch] + lines_of(s.push(ch).skip(1))[0]]
                + lines_of(s.push(ch).skip(1)).skip(1));
            assert(seq![ch] + lines_of(Seq::<char>::empty())[0] =~= seq![ch]);
            assert(lines_of(s.push(ch)) =~~= lines_of(s).update(0, lines_of(s).last().push(ch)));
        }
    } else {
        lemma_lines_snoc(s.skip(1), ch);
        lemma_lines_nonempty(s.skip(1));
        assert(s.push(ch)[0] == s[0]);
        assert(s.push(ch).skip(1) =~= s.skip(1).push(ch));
        if s[0] == '\n' {
            assert(lines_of(s.push(ch)) == seq![Seq::<char>::empty()] + lines_of(
                s.skip(1).push(ch),
            ));
            if ch == '\n' {
                assert(lines_of(s.push(ch)) =~~= lines_of(s).push(Seq::<char>::empty()));
            } else {
                assert(lines_of(s.push(ch)) =~~= lines_of(s).update(
                    lines_of(s).len() - 1,
                    lines_of(s).last().push(ch),
                ));
            }
        } else {
            let rest = lines_of(s.skip(1));
            let restp = lines_of(s.skip(1).push(ch));
            assert(lines_of(s.push(ch)) == seq![seq![s[0]] + restp[0]] + restp.skip(1));
            assert(lines_of(s) == seq![seq![s[0]] + rest[0]] + rest.skip(1));
            if ch == '\n' {
                assert(restp == rest.push(Seq::<char>::empty()));
                assert(restp[0] == rest[0]);
                assert(lines_of(s.push(ch)) =~~= lines_of(s).push(Seq::<char>::empty()));
            } else {
                assert(restp == rest.update(rest.len() - 1, rest.last().push(ch)));
                if rest.len() == 1 {
                    assert(restp[0] == rest[0].push(ch));
                    assert(lines_of(s.push(ch)) =~~= lines_of(s).update(
                        lines_of(s).len() - 1,
                        lines_of(s).last().push(ch),
                    ));
                } else {
                    assert(restp[0] == rest[0]);
                    assert(lines_of(s.push(ch)) =~~= lines_of(s).update(
                        lines_of(s).len() - 1,
                        lines_of(s).last().push(ch),
                    ));
                }
            }
        }
    }
}

/// Split a text at its newlines, in rendering order.
#[verifier::loop_isolation(false)]
#[verifier::rlimit(100)]
pub fn split_lines(s: &str) -> (r: Vec<String>)
    ensures
        r@.len() == lines_of(s@).len(),
        forall|i: int| 0 <= i < r@.len() ==> (#[trigger] r@[i])@ == lines_of(s@)[i],
{
    let len = s.unicode_len();
    let mut out: Vec<String> = Vec::new();
    let mut piece_start: usize = 0;
    let mut k: usize = 0;
    proof {
        assert(s@.take(0) =~= Seq::<char>::empty());
        assert(s@.subrange(0, 0) =~= Seq::<char>::empty());
    }
    while k < len
        invariant
            piece_start <= k <= len,
            out@.len() + 1 == lines_of(s@.take(k as int)).len(),
            forall|i: int|
                0 <= i < out@.len() ==> (#[trigger] out@[i])@ == lines_of(s@.take(k as int))[i],
            lines_of(s@.take(k as int)).last() == s@.subrange(piece_start as int, k as int),
        decreases len - k,
    {
        proof {
            lemma_lines_snoc(s@.take(k as int), s@[k as int]);
            assert(s@.take(k as int + 1) =~= s@.take(k as int).push(s@[k as int]));
        }
        if s.get_char(k) == '\n' {
            let piece = String::from_str(s.substring_char(piece_start, k));
            out.push(piece);
            piece_start = k + 1;
            proof {
                assert(s@.subrange(piece_start as int, k as int + 1) =~= Seq::<char>::empty());
            }
        } else {
            proof {
                assert(s@.subrange(piece_start as int, k as int + 1) =~= s@.subrange(
                    piece_start as int,
                    k as int,
                ).push(s@[k as int]));
            }
        }
        k = k + 1;
    }
    let piece = String::from_str(s.substring_char(piece_start, len));
    out.push(piece);
    proof {
        assert(s@.take(len as int) =~= s@);
    }
    out
}

/// A static literal text element: on its first render it writes its first
/// line as an inline segment and each further line as a private block line,
/// and afterwards never touches the display again.
#[derive(Debug)]
pub struct Literal {
    pub text: String,
    pub rendered: bool,
}

impl Literal {
    /// Create a literal with the given content, not yet rendered.
    pub fn new(text: String) -> (r: Literal)
        ensures
            r.text == text,
            r.rendered == false,
    {
        Literal { text, rendered: false }
    }

    /// This literal's content.
    pub fn text(&self) -> (r: &str)
        ensures
            r@ == self.text@,
    {
        self.text.as_str()
    }

    /// A literal never receives focus.
    pub fn is_input(&self) -> (r: bool)
        ensures
            r == false,
    {
        false
    }

    /// A literal never captures the advance key.
    pub fn captures_enter(&self) -> (r: bool)
        ensures
            r == false,
    {
        false
    }

    /// A literal ignores every key and never asks the form to advance.
    pub fn update(&mut self, key: InputKey) -> (r: bool)
        ensures
            r == false,
            *final(self) == *old(self),
    {
        let _ = key;
        false
    }
}

} // verus!

//! The early schema path's simple text control: a single editable value.

use vstd::prelude::*;
use vstd::string::StringExecFns;

use crate::key::InputKey;

verus! {

/// The value held by a simple text control.
#[derive(Debug)]
pub struct TextControlData {
    pub value: String,
}

impl TextControlData {
    /// Create an empty value.
    pub fn new() -> (r: TextControlData)
        ensures
            r.value@.len() == 0,
    {
        TextControlData { value: String::new() }
    }

    /// This control's current value.
    pub fn value(&self) -> (r: &str)
        ensures
            r@ == self.value@,
    {
        self.value.as_str()
    }
}

/// A simple single-value text control.
#[derive(Debug)]
pub struct TextControl {
    pub data: TextControlData,
}

impl TextControl {
    /// Create a control with an empty value.
    pub fn new() -> (r: TextControl)
        ensures
            r.data.value@.len() == 0,
    {
        TextControl { data: TextControlData::new() }
    }

    /// This control's current value.
    pub fn value(&self) -> (r: &str)
        ensures
            r@ == self.data.value@,
    {
        self.data.value.as_str()
    }

    /// Append a typed character to the value; every other key is ignored.
    pub fn handle_input(&mut self, key: InputKey)
        ensures
            (match key {
                InputKey::Char(ch) => final(self).data.value@ == old(self).data.value@.push(ch),
                _ => final(self).data.value@ == old(self).data.value@,
            }),
    {
        match key {
            InputKey::Char(ch) => {
                push_char(&mut self.data.value, ch);
            },
            _ => {},
        }
    }
}

/// Relies on char::to_string: the result is the one-character string
/// holding exactly the given character.
#[verifier::external_body]
fn char_to_string(ch: char) -> (r: String)
    ensures
        r@ == seq![ch],
{
    ch.to_string()
}

/// Append one character to a string.
fn push_char(s: &mut String, ch: char)
    ensures
        final(s)@ == old(s)@.push(ch),
{
    let tail = char_to_string(ch);
    s.append(tail.as_str());
    proof {
        assert(old(s)@ + seq![ch] =~= old(s)@.push(ch));
    }
}

} // verus!

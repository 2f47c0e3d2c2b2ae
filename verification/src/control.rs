//! Input controls: selection among options, and the simple option control
//! of the early schema path.

use vstd::prelude::*;
use vstd::string::StringExecFns;

use crate::dependency::Evaluation;
use crate::key::InputKey;

verus! {

/// An option for an option-selection input: a value and a description.
#[derive(Debug)]
pub struct SelectInputOption {
    pub value: String,
    pub description: String,
}

impl SelectInputOption {
    /// Create a new option with the specified value and description.
    pub fn new(value: &str, description: &str) -> (r: SelectInputOption)
        ensures
            r.value@ == value@,
            r.description@ == description@,
    {
        SelectInputOption {
            value: String::from_str(value),
            description: String::from_str(description),
        }
    }

    /// This option's value.
    pub fn value(&self) -> (r: &str)
        ensures
            r@ == self.value@,
    {
        self.value.as_str()
    }

    /// This option's descriptive text.
    pub fn description(&self) -> (r: &str)
        ensures
            r@ == self.description@,
    {
        self.description.as_str()
    }
}

/// An option selection field.
#[derive(Debug)]
pub struct SelectInput {
    pub prompt: String,
    pub options: Vec<SelectInputOption>,
    pub selected_option: usize,
}

impl SelectInput {
    /// Create a new option-selection input with the specified prompt and
    /// options.
    pub fn new(prompt: &str, options: Vec<(&str, &str)>) -> (r: SelectInput)
        ensures
            r.prompt@ == prompt@,
            r.selected_option == 0,
            r.options@.len() == options@.len(),
            forall|i: int|
                0 <= i < options@.len() ==> (#[trigger] r.options@[i]).value@ == options@[i].0@
                    && r.options@[i].description@ == options@[i].1@,
    {
        let mut opts: Vec<SelectInputOption> = Vec::new();
        let mut k: usize = 0;
        while k < options.len()
            invariant
                k <= options@.len(),
                opts@.len() == k,
                forall|i: int|
                    0 <= i < k ==> (#[trigger] opts@[i]).value@ == options@[i].0@
                        && opts@[i].description@ == options@[i].1@,
            decreases options@.len() - k,
        {
            opts.push(SelectInputOption::new(options[k].0, options[k].1));
            k = k + 1;
        }
        SelectInput { prompt: String::from_str(prompt), options: opts, selected_option: 0 }
    }

    /// Update this input's prompt text.
    pub fn set_prompt(&mut self, prompt: &str)
        ensures
            final(self).prompt@ == prompt@,
            final(self).options == old(self).options,
            final(self).selected_option == old(self).selected_option,
    {
        self.prompt = String::from_str(prompt);
    }

    /// Add an option to this input's list.
    pub fn add_option(&mut self, option: SelectInputOption)
        ensures
            final(self).prompt == old(self).prompt,
            final(self).options@ == old(self).options@.push(option),
            final(self).selected_option == old(self).selected_option,
    {
        self.options.push(option);
    }

    /// Set this input's options.
    pub fn set_options(&mut self, options: Vec<SelectInputOption>)
        ensures
            final(self).prompt == old(self).prompt,
            final(self).options == options,
            final(self).selected_option == old(self).selected_option,
    {
        self.options = options;
    }

    /// The currently-selected option's value.
    pub fn selected_option_value(&self) -> (r: &str)
        requires
            self.selected_option < self.options@.len(),
        ensures
            r@ == self.options@[self.selected_option as int].value@,
    {
        self.options[self.selected_option].value.as_str()
    }

    /// Move the selection up or down, wrapping around at either end; any
    /// other key leaves the selection unchanged.
    pub fn update(&mut self, input: InputKey)
        requires
            old(self).options@.len() > 0,
            old(self).selected_option < old(self).options@.len(),
        ensures
            final(self).prompt == old(self).prompt,
            final(self).options == old(self).options,
            final(self).selected_option < final(self).options@.len(),
            input == InputKey::Up ==> final(self).selected_option == (
            if old(self).selected_option == 0 {
                old(self).options@.len() - 1
            } else {
                old(self).selected_option - 1
            }),
            input == InputKey::Down ==> final(self).selected_option == (
            if old(self).selected_option + 1 == old(self).options@.len() {
                0int
            } else {
                old(self).selected_option + 1
            }),
            input != InputKey::Up && input != InputKey::Down ==> final(self).selected_option
                == old(self).selected_option,
    {
        proof {
            vstd::std_specs::vec::axiom_spec_len(&self.options);
        }
        match input {
            InputKey::Up => {
                if self.selected_option == 0 {
                    self.selected_option = self.options.len() - 1;
                } else {
                    self.selected_option = self.selected_option - 1;
                }
            },
            InputKey::Down => {
                if self.selected_option + 1 == self.options.len() {
                    self.selected_option = 0;
                } else {
                    self.selected_option = self.selected_option + 1;
                }
            },
            _ => {},
        }
    }

    /// Evaluate a dependency condition against the currently-selected
    /// value: equality and inequality compare against it, and a selection
    /// is never empty.
    pub fn evaluate(&self, evaluation: &Evaluation) -> (r: bool)
        requires
            self.selected_option < self.options@.len(),
        ensures
            r == (match *evaluation {
                Evaluation::Equal(ref value) => self.options@[self.selected_option as int].value@
                    == value@,
                Evaluation::NotEqual(ref value) => self.options@[self.selected_option as int].value@
                    != value@,
                Evaluation::IsEmpty => false,
            }),
    {
        match evaluation {
            Evaluation::Equal(value) => compare_str(self.selected_option_value(), value.as_str()),
            Evaluation::NotEqual(value) => !compare_str(
                self.selected_option_value(),
                value.as_str(),
            ),
            Evaluation::IsEmpty => false,
        }
    }
}

/// Whether two strings hold the same characters.
pub fn compare_str(a: &str, b: &str) -> (r: bool)
    ensures
        r == (a@ == b@),
{
    let la = a.unicode_len();
    let lb = b.unicode_len();
    if la != lb {
        proof {
            assert(a@ != b@);
        }
        return false;
    }
    let mut k: usize = 0;
    while k < la
        invariant
            k <= la,
            la == a@.len(),
            lb == b@.len(),
            la == lb,
            forall|i: int| 0 <= i < k ==> a@[i] == b@[i],
        decreases la - k,
    {
        if a.get_char(k) != b.get_char(k) {
            proof {
                assert(a@[k as int] != b@[k as int]);
            }
            return false;
        }
        k = k + 1;
    }
    proof {
        assert(a@ =~= b@);
    }
    true
}

/// The option control of the early schema path: a selection with wrapping
/// navigation.
#[derive(Debug)]
pub struct OptionControl {
    pub help_text: String,
    pub options: Vec<(String, String)>,
    pub selected_option: usize,
}

impl OptionControl {
    /// Move the selection with Up/Down, wrapping at the ends; never asks
    /// the form to advance.
    pub fn handle_input(&mut self, key: InputKey) -> (r: bool)
        requires
            old(self).options@.len() > 0,
            old(self).selected_option < old(self).options@.len(),
        ensures
            r == false,
            final(self).help_text == old(self).help_text,
            final(self).options == old(self).options,
            final(self).selected_option < final(self).options@.len(),
            key == InputKey::Down ==> final(self).selected_option == (
            if old(self).selected_option + 1 == old(self).options@.len() {
                0int
            } else {
                old(self).selected_option + 1
            }),
            key == InputKey::Up ==> final(self).selected_option == (
            if old(self).selected_option == 0 {
                old(self).options@.len() - 1
            } else {
                old(self).selected_option - 1
            }),
            key != InputKey::Up && key != InputKey::Down ==> final(self).selected_option == old(
                self,
            ).selected_option,
    {
        proof {
            vstd::std_specs::vec::axiom_spec_len(&self.options);
        }
        match key {
            InputKey::Down => {
                if self.selected_option + 1 == self.options.len() {
                    self.selected_option = 0;
                } else {
                    self.selected_option = self.selected_option + 1;
                }
            },
            InputKey::Up => {
                if self.selected_option == 0 {
                    self.selected_option = self.options.len() - 1;
                } else {
                    self.selected_option = self.selected_option - 1;
                }
            },
            _ => {},
        }
        false
    }

    /// Whether this control captures the advance key.
    pub fn captures_enter(&self) -> (r: bool)
        ensures
            r == false,
    {
        false
    }

    /// Whether this control can receive focus.
    pub fn is_focusable(&self) -> (r: bool)
        ensures
            r == true,
    {
        true
    }
}

} // verus!

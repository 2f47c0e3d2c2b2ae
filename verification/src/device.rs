//! Input devices that feed key events to a form. Reading from a real
//! terminal is I/O and lives with the program embedding the library; the
//! virtual device used by tests is deterministic and lives here.

use vstd::prelude::*;

use crate::key::InputKey;

verus! {

/// The standard input device: a marker for a form driven by the real
/// terminal. The embedding program reads its events and converts them to
/// [`InputKey`] values.
#[derive(Debug)]
pub struct StdinDevice;

/// A virtual input device that always reports the advance key, used to
/// drive a form to completion in tests.
#[derive(Debug)]
pub struct VirtualInputDevice;

impl VirtualInputDevice {
    /// The next input event: always the advance key.
    pub fn read(&mut self) -> (r: InputKey)
        ensures
            r == InputKey::Enter,
    {
        InputKey::Enter
    }
}

} // verus!

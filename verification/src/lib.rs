//! # tty_form
//!
//! A multi-step terminal input-form toolkit whose core allocates lines and
//! segments of a shared display buffer to independently-updating form
//! elements, keeping absolute row/column bookkeeping consistent as elements
//! grow and shrink across redraw cycles.

pub mod buffer;
pub use buffer::{BufferLine, BufferSegment, LineId, SegmentId, TerminalBuffer};

pub mod control;
pub use control::{OptionControl, SelectInput, SelectInputOption};

pub mod coordinator;
pub use coordinator::{get_subsequent_elements, Coordinator, ElementData, ElementId};
pub use coordinator::RelativePosition;

pub mod dependency;
pub use dependency::{Action, DependencyId, DependencyIdSource, DependencyState, Evaluation};

pub mod device;
pub use device::{StdinDevice, VirtualInputDevice};

pub mod element;
pub use element::Literal;

pub mod key;
pub use key::{InputKey, InputResult};

pub mod layout;
pub use layout::{LayoutAccessor, LayoutReportModel, SegmentLayoutModel};

pub mod schema;
pub use schema::{TextControl, TextControlData};

pub mod style;
pub use style::{drawer_selected_style, drawer_style, error_style, help_style, muted_style};
pub use style::{Color, Style};

pub mod text;
pub use text::{get_segment_length, set_segment_style, set_segment_subset_style, split_text};
pub use text::{DrawerContents, Segment, Text};

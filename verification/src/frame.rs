use vstd::prelude::*;
use crate::ids::{CodePointer, StringId};

verus! {

/// A frame of a backtrace: the address of the instruction, with what the
/// debug information says of it. A line or column of zero means that it is
/// not known.
#[derive(Clone, PartialEq, Eq, Hash, Debug)]
pub struct Frame {
    pub address: CodePointer,
    pub count: u64,
    pub is_inline: bool,
    pub library: Option<StringId>,
    pub function: Option<StringId>,
    pub raw_function: Option<StringId>,
    pub source: Option<StringId>,
    pub line: Option<u32>,
    pub column: Option<u32>,
}

/// The optional form of a line or column number, where zero stands for none.
pub open spec fn nonzero(value: u32) -> Option<u32> {
    if value == 0 {
        None
    } else {
        Some(value)
    }
}

impl Frame {
    /// A frame of which nothing but the address is known.
    pub fn new_unknown(address: CodePointer) -> (frame: Frame)
        ensures
            frame.address == address,
            frame.count == 0,
            !frame.is_inline,
            frame.library is None,
            frame.function is None,
            frame.raw_function is None,
            frame.source is None,
            frame.line is None,
            frame.column is None,
    {
        Frame {
            address,
            count: 0,
            is_inline: false,
            library: None,
            function: None,
            raw_function: None,
            source: None,
            line: None,
            column: None,
        }
    }

    pub fn address(&self) -> (r: CodePointer)
        ensures
            r == self.address,
    {
        self.address
    }

    pub fn count(&self) -> (r: u64)
        ensures
            r == self.count,
    {
        self.count
    }

    pub fn is_inline(&self) -> (r: bool)
        ensures
            r == self.is_inline,
    {
        self.is_inline
    }

    pub fn library(&self) -> (r: Option<StringId>)
        ensures
            r == self.library,
    {
        self.library
    }

    pub fn function(&self) -> (r: Option<StringId>)
        ensures
            r == self.function,
    {
        self.function
    }

    pub fn raw_function(&self) -> (r: Option<StringId>)
        ensures
            r == self.raw_function,
    {
        self.raw_function
    }

    pub fn source(&self) -> (r: Option<StringId>)
        ensures
            r == self.source,
    {
        self.source
    }

    pub fn line(&self) -> (r: Option<u32>)
        ensures
            r == self.line,
    {
        self.line
    }

    pub fn column(&self) -> (r: Option<u32>)
        ensures
            r == self.column,
    {
        self.column
    }

    pub fn set_is_inline(&mut self, value: bool)
        ensures
            *final(self) == (Frame { is_inline: value, ..*old(self) }),
    {
        self.is_inline = value;
    }

    pub fn set_library(&mut self, string_id: StringId)
        ensures
            *final(self) == (Frame { library: Some(string_id), ..*old(self) }),
    {
        self.library = Some(string_id);
    }

    pub fn set_function(&mut self, string_id: StringId)
        ensures
            *final(self) == (Frame { function: Some(string_id), ..*old(self) }),
    {
        self.function = Some(string_id);
    }

    pub fn set_raw_function(&mut self, string_id: StringId)
        ensures
            *final(self) == (Frame { raw_function: Some(string_id), ..*old(self) }),
    {
        self.raw_function = Some(string_id);
    }

    pub fn set_source(&mut self, string_id: StringId)
        ensures
            *final(self) == (Frame { source: Some(string_id), ..*old(self) }),
    {
        self.source = Some(string_id);
    }

    /// Sets the line number; zero means that the line is not known.
    pub fn set_line(&mut self, value: u32)
        ensures
            *final(self) == (Frame { line: nonzero(value), ..*old(self) }),
    {
        self.line = if value == 0 {
            None
        } else {
            Some(value)
        };
    }

    /// Sets the column number; zero means that the column is not known.
    pub fn set_column(&mut self, value: u32)
        ensures
            *final(self) == (Frame { column: nonzero(value), ..*old(self) }),
    {
        self.column = if value == 0 {
            None
        } else {
            Some(value)
        };
    }

    /// Adds `value` to the number of times the frame was seen.
    pub fn increment_count(&mut self, value: u64)
        requires
            old(self).count + value <= u64::MAX,
        ensures
            *final(self) == (Frame { count: (old(self).count + value) as u64, ..*old(self) }),
    {
        self.count = self.count + value;
    }

    /// The demangled name of the function, or else its raw name.
    pub fn any_function(&self) -> (r: Option<StringId>)
        ensures
            r == (if self.function is Some {
                self.function
            } else {
                self.raw_function
            }),
    {
        match self.function {
            Some(function) => Some(function),
            None => self.raw_function,
        }
    }
}

} // verus!

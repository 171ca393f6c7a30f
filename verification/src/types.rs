use vstd::prelude::*;

verus! {

/// Index of a line inside a buffer's line arena; `LineId(0)` is the header line.
#[derive(Clone, Copy, PartialEq, Eq, Debug, Structural)]
pub struct LineId(pub usize);

/// Byte offset inside a line.
#[derive(Clone, Copy, PartialEq, Eq, Debug, Structural)]
pub struct LineOffset(pub usize);

/// Index of a buffer inside the editor's buffer list.
#[derive(Clone, Copy, PartialEq, Eq, Debug, Structural)]
pub struct BufferId(pub usize);

/// Identifier of a window; identifiers are handed out in increasing order.
#[derive(Clone, Copy, PartialEq, Eq, Debug, Structural)]
pub struct WindowId(pub usize);

/// The ways a command can fail.
#[derive(Clone, Copy, PartialEq, Eq, Debug, Structural)]
pub enum Error {
    Abort,
    IoError,
}

pub type Result<T> = core::result::Result<T, Error>;

/// Bit for a control key in a `KeyCode`.
pub const CONTROL: u32 = 0x1000_0000;

/// Bit for a meta (escape-prefixed) key in a `KeyCode`.
pub const META: u32 = 0x2000_0000;

/// A key folded into one integer: the character code plus the `CONTROL` and `META` bits.
#[derive(Clone, Copy, PartialEq, Eq, Debug, Structural)]
pub struct KeyCode(pub u32);

/// Redisplay hints kept per window, as a set of bits.
#[derive(Clone, Copy, PartialEq, Eq, Debug, Structural)]
pub struct WindowFlags(pub u32);

impl WindowFlags {
    #[verifier::allow_in_spec]
    pub fn empty() -> WindowFlags
        returns
            WindowFlags(0),
    {
        WindowFlags(0)
    }
    #[verifier::allow_in_spec]
    pub fn force() -> WindowFlags
        returns
            WindowFlags(0x01),
    {
        WindowFlags(0x01)
    }
    #[verifier::allow_in_spec]
    pub fn moved() -> WindowFlags
        returns
            WindowFlags(0x02),
    {
        WindowFlags(0x02)
    }
    #[verifier::allow_in_spec]
    pub fn edited() -> WindowFlags
        returns
            WindowFlags(0x04),
    {
        WindowFlags(0x04)
    }
    #[verifier::allow_in_spec]
    pub fn hard() -> WindowFlags
        returns
            WindowFlags(0x08),
    {
        WindowFlags(0x08)
    }
    #[verifier::allow_in_spec]
    pub fn mode_line() -> WindowFlags
        returns
            WindowFlags(0x10),
    {
        WindowFlags(0x10)
    }

    /// The bits set in either operand.
    pub fn union(self, other: WindowFlags) -> (r: WindowFlags)
        ensures
            r.0 == self.0 | other.0,
    {
        WindowFlags(self.0 | other.0)
    }

    /// The bits of `self` that are not set in `other`.
    pub fn without(self, other: WindowFlags) -> (r: WindowFlags)
        ensures
            r.0 == self.0 & !other.0,
    {
        WindowFlags(self.0 & !other.0)
    }

    /// Whether the two sets share a bit.
    pub fn intersects(self, other: WindowFlags) -> (r: bool)
        ensures
            r == (self.0 & other.0 != 0),
    {
        self.0 & other.0 != 0
    }

    /// Whether no bit is set.
    pub fn is_empty(self) -> (r: bool)
        ensures
            r == (self.0 == 0),
    {
        self.0 == 0
    }
}

/// Per-buffer editing modes, as a set of bits.
#[derive(Clone, Copy, PartialEq, Eq, Debug, Structural)]
pub struct Mode(pub u32);

impl Mode {
    #[verifier::allow_in_spec]
    pub fn empty() -> Mode
        returns
            Mode(0),
    {
        Mode(0)
    }
    #[verifier::allow_in_spec]
    pub fn wrap() -> Mode
        returns
            Mode(0x01),
    {
        Mode(0x01)
    }
    #[verifier::allow_in_spec]
    pub fn c_mode() -> Mode
        returns
            Mode(0x02),
    {
        Mode(0x02)
    }
    #[verifier::allow_in_spec]
    pub fn spell() -> Mode
        returns
            Mode(0x04),
    {
        Mode(0x04)
    }
    #[verifier::allow_in_spec]
    pub fn exact() -> Mode
        returns
            Mode(0x08),
    {
        Mode(0x08)
    }
    #[verifier::allow_in_spec]
    pub fn view() -> Mode
        returns
            Mode(0x10),
    {
        Mode(0x10)
    }
    #[verifier::allow_in_spec]
    pub fn overwrite() -> Mode
        returns
            Mode(0x20),
    {
        Mode(0x20)
    }
    #[verifier::allow_in_spec]
    pub fn magic() -> Mode
        returns
            Mode(0x40),
    {
        Mode(0x40)
    }
    #[verifier::allow_in_spec]
    pub fn crypt() -> Mode
        returns
            Mode(0x80),
    {
        Mode(0x80)
    }
    #[verifier::allow_in_spec]
    pub fn auto_save() -> Mode
        returns
            Mode(0x100),
    {
        Mode(0x100)
    }

    /// The bits set in either operand.
    pub fn union(self, other: Mode) -> (r: Mode)
        ensures
            r.0 == self.0 | other.0,
    {
        Mode(self.0 | other.0)
    }

    /// The bits set in exactly one operand.
    pub fn toggle(self, other: Mode) -> (r: Mode)
        ensures
            r.0 == self.0 ^ other.0,
    {
        Mode(self.0 ^ other.0)
    }

    /// Whether the two sets share a bit.
    pub fn intersects(self, other: Mode) -> (r: bool)
        ensures
            r == (self.0 & other.0 != 0),
    {
        self.0 & other.0 != 0
    }
}

/// Per-buffer state bits.
#[derive(Clone, Copy, PartialEq, Eq, Debug, Structural)]
pub struct BufferFlags(pub u32);

impl BufferFlags {
    #[verifier::allow_in_spec]
    pub fn empty() -> BufferFlags
        returns
            BufferFlags(0),
    {
        BufferFlags(0)
    }
    #[verifier::allow_in_spec]
    pub fn invisible() -> BufferFlags
        returns
            BufferFlags(0x01),
    {
        BufferFlags(0x01)
    }
    #[verifier::allow_in_spec]
    pub fn changed() -> BufferFlags
        returns
            BufferFlags(0x02),
    {
        BufferFlags(0x02)
    }
    #[verifier::allow_in_spec]
    pub fn truncated() -> BufferFlags
        returns
            BufferFlags(0x04),
    {
        BufferFlags(0x04)
    }

    /// The bits set in either operand.
    pub fn union(self, other: BufferFlags) -> (r: BufferFlags)
        ensures
            r.0 == self.0 | other.0,
    {
        BufferFlags(self.0 | other.0)
    }

    /// The bits of `self` that are not set in `other`.
    pub fn without(self, other: BufferFlags) -> (r: BufferFlags)
        ensures
            r.0 == self.0 & !other.0,
    {
        BufferFlags(self.0 & !other.0)
    }

    /// Whether the two sets share a bit.
    pub fn intersects(self, other: BufferFlags) -> (r: bool)
        ensures
            r == (self.0 & other.0 != 0),
    {
        self.0 & other.0 != 0
    }
}

/// What the previous and the current command did, as a set of bits.
#[derive(Clone, Copy, PartialEq, Eq, Debug, Structural)]
pub struct CmdFlags(pub u32);

impl CmdFlags {
    #[verifier::allow_in_spec]
    pub fn empty() -> CmdFlags
        returns
            CmdFlags(0),
    {
        CmdFlags(0)
    }
    #[verifier::allow_in_spec]
    pub fn line_move() -> CmdFlags
        returns
            CmdFlags(0x01),
    {
        CmdFlags(0x01)
    }
    #[verifier::allow_in_spec]
    pub fn kill() -> CmdFlags
        returns
            CmdFlags(0x02),
    {
        CmdFlags(0x02)
    }

    /// The bits set in either operand.
    pub fn union(self, other: CmdFlags) -> (r: CmdFlags)
        ensures
            r.0 == self.0 | other.0,
    {
        CmdFlags(self.0 | other.0)
    }

    /// Whether the two sets share a bit.
    pub fn intersects(self, other: CmdFlags) -> (r: bool)
        ensures
            r == (self.0 & other.0 != 0),
    {
        self.0 & other.0 != 0
    }
}

/// One reversible change to a buffer.
pub enum UndoAction {
    /// `data` was inserted at `offset` of `line`.
    Insert { line: LineId, offset: usize, data: Vec<u8> },
    /// `data` was removed from `offset` of `line`.
    Delete { line: LineId, offset: usize, data: Vec<u8> },
    /// `line` was split at `offset`; the tail became `new_line`.
    Split { line: LineId, offset: usize, new_line: LineId },
    /// `next_line`, which followed `line` and held `next_data`, was joined onto `line` at `offset`.
    Merge { line: LineId, offset: usize, next_line: LineId, next_data: Vec<u8>, after_next: LineId },
}

/// The changes of one command, with the cursor position to restore.
pub struct UndoEntry {
    pub buffer_id: BufferId,
    pub dot_line: LineId,
    pub dot_offset: LineOffset,
    pub actions: Vec<UndoAction>,
}

} // verus!

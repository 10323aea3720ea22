//! How a hex text representation is shaped.

use vstd::prelude::*;

verus! {

/// Byte order of multi-byte values.
///
/// Carried by [`Config`] for callers; the byte-level conversion writes bytes
/// in stream order and does not consult it.
#[derive(Debug, Clone, Copy, PartialEq, Eq, Structural)]
pub enum Endian {
    /// Least significant byte first.
    Little,
    /// Most significant byte first.
    Big,
}

impl Default for Endian {
    fn default() -> (endian: Self)
        ensures
            endian == Endian::Little,
    {
        Endian::Little
    }
}

/// Width of the address column, as the size of the address in bytes.
#[derive(Debug, Clone, Copy, PartialEq, Eq, Structural)]
pub enum AddressSize {
    /// One byte: 2 hex digits.
    U8,
    /// Two bytes: 4 hex digits.
    U16,
    /// Three bytes: 6 hex digits.
    U24,
    /// Four bytes: 8 hex digits.
    U32,
    /// Five bytes: 10 hex digits.
    U40,
    /// Six bytes: 12 hex digits.
    U48,
    /// Eight bytes: 16 hex digits.
    U64,
    /// As narrow as the address of the line allows.
    Stretch,
}

impl Default for AddressSize {
    fn default() -> (size: Self)
        ensures
            size == AddressSize::U32,
    {
        AddressSize::U32
    }
}

/// What stands in for bytes that an address gap leaves out.
///
/// Carried by [`Config`] for callers; a conversion works on one contiguous
/// stream, in which no gap occurs, and does not consult it.
#[derive(Debug, Clone, Copy, PartialEq, Eq, Structural)]
pub enum Padding {
    /// Gaps are filled with this byte.
    Value(u8),
    /// Gaps are not allowed.
    Forbidden,
}

impl Default for Padding {
    fn default() -> (padding: Self)
        ensures
            padding == Padding::Value(0x00),
    {
        Padding::Value(0x00)
    }
}

/// The shape of the hex text that an encoder produces.
#[derive(Debug, Clone)]
pub struct Config {
    /// Byte order.
    pub endian: Endian,
    /// Width of the address column.
    pub address_size: AddressSize,
    /// Treatment of address gaps.
    pub padding: Padding,
    /// Number of bytes on one line. An encoder with `line_length == 0`
    /// produces no output.
    pub line_length: usize,
    /// Number of bytes in one block. Blocks are separated by one space; with
    /// `block_length == 0` the bytes of a line are written without any space.
    pub block_length: usize,
    /// Whether every line carries its address, or only the first one.
    pub repeat_address: bool,
    /// Whether an ASCII preview in square brackets follows the hex bytes.
    pub show_preview: bool,
}

impl Config {
    /// The configuration that [`Config::new`] and `Config::default` return.
    pub open spec fn standard() -> Config {
        Config {
            endian: Endian::Little,
            address_size: AddressSize::U32,
            padding: Padding::Value(0x00),
            line_length: 16,
            block_length: 1,
            repeat_address: true,
            show_preview: true,
        }
    }

    /// Whether the configuration describes lines that hold at least one byte.
    pub open spec fn is_valid(self) -> bool {
        self.line_length > 0
    }

    /// A configuration with the default values.
    pub fn new() -> (config: Self)
        ensures
            config == Config::standard(),
    {
        Self::default()
    }

    /// The same configuration with another byte order.
    pub fn with_endian(self, endian: Endian) -> (config: Self)
        ensures
            config == (Config { endian, ..self }),
    {
        Config { endian, ..self }
    }

    /// The same configuration with another address width.
    pub fn with_address_size(self, address_size: AddressSize) -> (config: Self)
        ensures
            config == (Config { address_size, ..self }),
    {
        Config { address_size, ..self }
    }

    /// The same configuration with another treatment of gaps.
    pub fn with_padding(self, padding: Padding) -> (config: Self)
        ensures
            config == (Config { padding, ..self }),
    {
        Config { padding, ..self }
    }

    /// The same configuration with another number of bytes per line.
    pub fn with_line_length(self, line_length: usize) -> (config: Self)
        ensures
            config == (Config { line_length, ..self }),
    {
        Config { line_length, ..self }
    }

    /// The same configuration with another number of bytes per block.
    pub fn with_block_length(self, block_length: usize) -> (config: Self)
        ensures
            config == (Config { block_length, ..self }),
    {
        Config { block_length, ..self }
    }

    /// The same configuration with the address on every line, or on the
    /// first line only.
    pub fn with_repeat_address(self, repeat: bool) -> (config: Self)
        ensures
            config == (Config { repeat_address: repeat, ..self }),
    {
        Config { repeat_address: repeat, ..self }
    }

    /// The same configuration with or without the ASCII preview.
    pub fn with_preview(self, show: bool) -> (config: Self)
        ensures
            config == (Config { show_preview: show, ..self }),
    {
        Config { show_preview: show, ..self }
    }
}

impl Default for Config {
    fn default() -> (config: Self)
        ensures
            config == Config::standard(),
    {
        Config {
            endian: Endian::default(),
            address_size: AddressSize::default(),
            padding: Padding::default(),
            line_length: 16,
            block_length: 1,
            repeat_address: true,
            show_preview: true,
        }
    }
}

} // verus!

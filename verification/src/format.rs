//! The hex text format, as mathematics: what an encoder writes for given
//! bytes, and which bytes a decoder reads out of given text.
//!
//! Text is a sequence of characters, binary data a sequence of bytes. The
//! executable functions in [`crate::convert`] are specified by the functions
//! of this module.

use crate::config::{AddressSize, Config};
use crate::digits::{byte_digits, byte_of_digits, is_hex_digit, upper_hex_digit};
use crate::error::Error;
use crate::text::{after_char, before_char, before_pair, lemma_first_index_of, trim};
use vstd::prelude::*;

verus! {

/// The number of digits that the address column is padded to, for a line
/// that starts at `address`.
pub open spec fn address_width(size: AddressSize, address: nat) -> nat {
    match size {
        AddressSize::U8 => 2,
        AddressSize::U16 => 4,
        AddressSize::U24 => 6,
        AddressSize::U32 => 8,
        AddressSize::U40 => 10,
        AddressSize::U48 => 12,
        AddressSize::U64 => 16,
        AddressSize::Stretch => if address < 0x100 {
            2
        } else if address < 0x1_0000 {
            4
        } else if address < 0x100_0000 {
            6
        } else if address < 0x1_0000_0000 {
            8
        } else {
            16
        },
    }
}

/// `n` in upper-case hexadecimal, without leading zeros; `0` is one digit.
pub open spec fn hex_number(n: nat) -> Seq<char>
    decreases n,
{
    if n < 16 {
        seq![upper_hex_digit(n as int)]
    } else {
        hex_number(n / 16).push(upper_hex_digit(n as int % 16))
    }
}

/// `digits` with zeros in front, as many as it takes to reach `width`
/// characters; longer text is left as it is.
pub open spec fn zero_padded(digits: Seq<char>, width: nat) -> Seq<char> {
    if digits.len() < width {
        Seq::new((width - digits.len()) as nat, |i: int| '0') + digits
    } else {
        digits
    }
}

/// The address of a line in the width that `size` asks for.
pub open spec fn address_text(address: nat, size: AddressSize) -> Seq<char> {
    zero_padded(hex_number(address), address_width(size, address))
}

/// Whether a line that starts at `address` shows its address.
pub open spec fn shows_address(address: nat, config: Config) -> bool {
    config.repeat_address || address == 0
}

/// The ten spaces that stand in for the address column.
pub open spec fn indentation() -> Seq<char> {
    Seq::new(10, |i: int| ' ')
}

/// What a line begins with: the address, a colon and a space, or the
/// indentation on a line that does not show its address.
pub open spec fn address_column(address: nat, config: Config) -> Seq<char> {
    if shows_address(address, config) {
        address_text(address, config.address_size) + seq![':', ' ']
    } else {
        indentation()
    }
}

/// Whether a space stands before the byte at `index` of a line: between two
/// blocks of `block_length` bytes.
pub open spec fn starts_block(index: int, block_length: nat) -> bool {
    index > 0 && block_length > 0 && index % (block_length as int) == 0
}

/// The bytes of a line as pairs of hex digits, with one space between blocks.
pub open spec fn hex_bytes(data: Seq<u8>, block_length: nat) -> Seq<char>
    decreases data.len(),
{
    if data.len() == 0 {
        Seq::empty()
    } else {
        hex_bytes(data.drop_last(), block_length) + (if starts_block(
            data.len() - 1,
            block_length,
        ) {
            seq![' ']
        } else {
            Seq::empty()
        }) + byte_digits(data.last())
    }
}

/// How the preview shows one byte: printable ASCII as itself, any other byte
/// as a dot.
pub open spec fn preview_char(byte: u8) -> char {
    if 32 <= byte <= 126 {
        byte as char
    } else {
        '.'
    }
}

/// The characters of the preview, without the brackets around them.
pub open spec fn preview_chars(data: Seq<u8>) -> Seq<char> {
    Seq::new(data.len(), |i: int| preview_char(data[i]))
}

/// The preview of a line in its square brackets.
pub open spec fn ascii_preview(data: Seq<u8>) -> Seq<char> {
    seq!['['] + preview_chars(data) + seq![']']
}

/// One line for the bytes `data` at `address`, without its terminator.
pub open spec fn line_text(address: nat, data: Seq<u8>, config: Config) -> Seq<char> {
    address_column(address, config) + hex_bytes(data, config.block_length as nat) + (
    if config.show_preview {
        seq![' '] + ascii_preview(data)
    } else {
        Seq::empty()
    })
}

/// One line for the bytes `data` at `address`, with its terminator.
pub open spec fn encoded_line(address: nat, data: Seq<u8>, config: Config) -> Seq<char> {
    line_text(address, data, config).push('\n')
}

/// The lines for `data`, the first of which starts at `address`: one line
/// for every `line_length` bytes, the last one for what is left. With a
/// `line_length` of 0 there are no lines.
pub open spec fn encoded_from(data: Seq<u8>, address: nat, config: Config) -> Seq<char>
    decreases data.len(),
{
    if data.len() == 0 || config.line_length == 0 {
        Seq::empty()
    } else if data.len() <= config.line_length {
        encoded_line(address, data, config)
    } else {
        encoded_line(address, data.take(config.line_length as int), config) + encoded_from(
            data.skip(config.line_length as int),
            address + config.line_length as nat,
            config,
        )
    }
}

/// The hex text for `data`.
pub open spec fn encoded(data: Seq<u8>, config: Config) -> Seq<char> {
    encoded_from(data, 0, config)
}

/// Whether `line` begins with `a` directly followed by `b`.
pub open spec fn begins_with(line: Seq<char>, a: char, b: char) -> bool {
    line.len() >= 2 && line[0] == a && line[1] == b
}

/// Whether `line` ends with `a` directly followed by `b`.
pub open spec fn ends_with(line: Seq<char>, a: char, b: char) -> bool {
    line.len() >= 2 && line[line.len() - 2] == a && line[line.len() - 1] == b
}

/// Whether a trimmed line holds no data at all: an empty line, a comment
/// line, a directive, or a line that opens or closes a block comment.
pub open spec fn is_ignored_line(line: Seq<char>) -> bool {
    ||| line.len() == 0
    ||| begins_with(line, '/', '/')
    ||| line[0] == '#'
    ||| begins_with(line, '/', '*')
    ||| ends_with(line, '*', '/')
}

/// The part of a line in which hex digits count: what is left when an inline
/// comment, the address column, the preview and the annotations are removed,
/// in this order.
pub open spec fn payload_region(line: Seq<char>) -> Seq<char> {
    before_char(before_char(after_char(before_pair(line, '/', '/'), ':'), '['), '|')
}

/// The hex digits of `s` in their order, everything else left out.
pub open spec fn hex_digits_of(s: Seq<char>) -> Seq<char>
    decreases s.len(),
{
    if s.len() == 0 {
        s
    } else if is_hex_digit(s.last()) {
        hex_digits_of(s.drop_last()).push(s.last())
    } else {
        hex_digits_of(s.drop_last())
    }
}

/// The hex digits that a line contributes.
pub open spec fn line_payload(line: Seq<char>) -> Seq<char> {
    hex_digits_of(payload_region(line))
}

/// The index of the first character of `s` that is no hex digit, or
/// `s.len()` where all are.
pub open spec fn first_non_hex(s: Seq<char>) -> int
    decreases s.len(),
{
    if s.len() == 0 || !is_hex_digit(s.first()) {
        0
    } else {
        1 + first_non_hex(s.drop_first())
    }
}

/// The bytes that consecutive pairs of the digits in `hex` spell.
pub open spec fn bytes_of_hex(hex: Seq<char>) -> Seq<u8> {
    Seq::new(hex.len() / 2, |i: int| byte_of_digits(hex[2 * i], hex[2 * i + 1]))
}

/// The bytes that a hex string stands for. White space around it does not
/// count. An odd number of characters is an error; otherwise the first
/// character that is no hex digit is one, reported with its index.
pub open spec fn parsed_hex(hex: Seq<char>) -> Result<Seq<u8>, Error> {
    let digits = trim(hex);
    if digits.len() % 2 != 0 {
        Err(Error::OddHexLength)
    } else if first_non_hex(digits) < digits.len() {
        Err(Error::InvalidHexChar(digits[first_non_hex(digits)], first_non_hex(digits) as usize))
    } else {
        Ok(bytes_of_hex(digits))
    }
}

/// The bytes that one line of text stands for.
pub open spec fn decoded_line(line: Seq<char>) -> Result<Seq<u8>, Error> {
    if is_ignored_line(trim(line)) {
        Ok(Seq::empty())
    } else {
        parsed_hex(line_payload(trim(line)))
    }
}

/// What a decoder makes of a text: the bytes it writes, and the error it
/// ends with if a line fails.
pub struct Decoded {
    /// The bytes of the lines before the first one that fails; of all lines
    /// where none fails.
    pub bytes: Seq<u8>,
    /// The error of the first line that fails.
    pub error: Option<Error>,
}

/// What decoding `text` line by line gives. Lines end at `'\n'`; what
/// follows the last `'\n'` is a line too.
pub open spec fn decoded(text: Seq<char>) -> Decoded
    decreases text.len(),
{
    match decoded_line(before_char(text, '\n')) {
        Err(error) => Decoded { bytes: Seq::empty(), error: Some(error) },
        Ok(bytes) => if text.contains('\n') {
            proof {
                lemma_first_index_of(text, '\n');
            }
            let rest = decoded(after_char(text, '\n'));
            Decoded { bytes: bytes + rest.bytes, error: rest.error }
        } else {
            Decoded { bytes, error: None }
        },
    }
}

/// Whether a decoder takes part of the preview of this line for its address
/// column. That happens on a line that has a preview but does not show its
/// address, where the preview holds a `:` that no `//` stands before: the
/// decoder then drops the hex bytes together with everything else up to
/// that `:`.
pub open spec fn line_is_masked(address: nat, data: Seq<u8>, config: Config) -> bool {
    &&& !shows_address(address, config)
    &&& config.show_preview
    &&& before_pair(preview_chars(data), '/', '/').contains(':')
}

/// Whether one of the lines for `data`, the first of which starts at
/// `address`, is masked.
pub open spec fn is_masked_from(data: Seq<u8>, address: nat, config: Config) -> bool
    decreases data.len(),
{
    if data.len() == 0 || config.line_length == 0 {
        false
    } else if data.len() <= config.line_length {
        line_is_masked(address, data, config)
    } else {
        line_is_masked(address, data.take(config.line_length as int), config) || is_masked_from(
            data.skip(config.line_length as int),
            address + config.line_length as nat,
            config,
        )
    }
}

/// Whether one of the lines of the hex text for `data` is masked.
pub open spec fn is_masked(data: Seq<u8>, config: Config) -> bool {
    is_masked_from(data, 0, config)
}

} // verus!

//! Conversion between binary data and hex text.
//!
//! [`bin_to_hex`] and [`hex_to_bin`] convert data that is in memory. Data
//! that arrives piece by piece is encoded chunk by chunk with an
//! [`Encoder`], and decoded line by line with [`decode_line`].

use crate::config::{AddressSize, Config};
use crate::digits::{
    byte_digits, byte_of_digits, hex_value, is_hex_digit, is_hex_digit_char, upper_digit,
};
use crate::error::Error;
use crate::format::{
    address_column, address_text, address_width, ascii_preview, bytes_of_hex, decoded,
    decoded_line, encoded, encoded_from, encoded_line, hex_bytes, hex_digits_of, hex_number,
    indentation, is_ignored_line, line_payload, parsed_hex, payload_region, preview_chars,
    starts_block, zero_padded,
};
use crate::lemmas::lemma_first_non_hex_is;
use crate::text::{
    after_char, before_char, chars_of, find_char, find_pair, lemma_first_index_of,
    lemma_first_index_of_is, trim, trim_bounds,
};
use vstd::prelude::*;

verus! {

/// Reversing a sequence that grew by one element at its end.
proof fn lemma_reverse_push(s: Seq<char>, c: char)
    ensures
        s.push(c).reverse() == seq![c] + s.reverse(),
{
    assert(s.push(c).reverse() =~= seq![c] + s.reverse());
}

/// Appends the address of a line to `writer`: `address` in upper-case
/// hexadecimal, with zeros in front up to the width that
/// `config.address_size` asks for. An address that needs more digits than
/// that is written in full.
pub fn write_address(writer: &mut String, address: u64, config: &Config)
    ensures
        final(writer)@ == old(writer)@ + address_text(address as nat, config.address_size),
{
    let ghost before = writer@;
    let width: usize = match config.address_size {
        AddressSize::U8 => 2,
        AddressSize::U16 => 4,
        AddressSize::U24 => 6,
        AddressSize::U32 => 8,
        AddressSize::U40 => 10,
        AddressSize::U48 => 12,
        AddressSize::U64 => 16,
        AddressSize::Stretch => {
            if address < 0x100 {
                2
            } else if address < 0x1_0000 {
                4
            } else if address < 0x100_0000 {
                6
            } else if address < 0x1_0000_0000 {
                8
            } else {
                16
            }
        },
    };
    assert(width == address_width(config.address_size, address as nat));
    // The digits of the address, the last one first.
    let mut digits: Vec<char> = Vec::new();
    let mut rest = address;
    while rest >= 16
        invariant
            hex_number(address as nat) == hex_number(rest as nat) + digits@.reverse(),
        decreases rest,
    {
        let digit = upper_digit((rest % 16) as u8);
        proof {
            lemma_reverse_push(digits@, digit);
            assert(hex_number(rest as nat) == hex_number((rest / 16) as nat).push(digit));
            assert(hex_number((rest / 16) as nat).push(digit) + digits@.reverse() =~= hex_number(
                (rest / 16) as nat,
            ) + (seq![digit] + digits@.reverse()));
        }
        digits.push(digit);
        rest = rest / 16;
    }
    let digit = upper_digit(rest as u8);
    proof {
        lemma_reverse_push(digits@, digit);
        assert(hex_number(rest as nat) =~= seq![digit]);
    }
    digits.push(digit);
    assert(digits@.reverse() == hex_number(address as nat));
    let ghost number = hex_number(address as nat);
    let mut length: usize = digits.len();
    while length < width
        invariant
            digits.len() <= length,
            length <= width || length == digits.len(),
            writer@ == before + Seq::new((length - digits.len()) as nat, |i: int| '0'),
        decreases width - length,
    {
        writer.push('0');
        length += 1;
        assert(writer@ =~= before + Seq::new((length - digits.len()) as nat, |i: int| '0'));
    }
    let ghost padding = Seq::new((length - digits.len()) as nat, |i: int| '0');
    assert(padding + number == zero_padded(number, width as nat));
    let mut i: usize = digits.len();
    while i > 0
        invariant
            i <= digits.len(),
            number == digits@.reverse(),
            writer@ == before + padding + number.take(digits.len() - i),
        decreases i,
    {
        i -= 1;
        writer.push(digits[i]);
        assert(writer@ =~= before + padding + number.take(digits.len() - i));
    }
    assert(writer@ =~= before + (padding + number));
}

/// Appends the bytes of a line to `writer`, two upper-case hex digits each,
/// with one space between blocks of `config.block_length` bytes and none
/// inside a block. A block length of 0 leaves all spaces out.
pub fn write_hex_bytes(writer: &mut String, data: &[u8], config: &Config)
    ensures
        final(writer)@ == old(writer)@ + hex_bytes(data@, config.block_length as nat),
{
    let ghost before = writer@;
    let ghost block = config.block_length as nat;
    let mut i: usize = 0;
    while i < data.len()
        invariant
            i <= data.len(),
            block == config.block_length,
            writer@ == before + hex_bytes(data@.take(i as int), block),
        decreases data.len() - i,
    {
        let ghost written = writer@;
        if i > 0 && config.block_length > 0 && i % config.block_length == 0 {
            writer.push(' ');
        }
        let byte = data[i];
        writer.push(upper_digit(byte / 16));
        writer.push(upper_digit(byte % 16));
        proof {
            let next = data@.take(i + 1);
            assert(next.drop_last() =~= data@.take(i as int));
            assert(next.last() == byte);
            assert(writer@ =~= written + (if starts_block(i as int, block) {
                seq![' ']
            } else {
                Seq::empty()
            }) + byte_digits(byte));
            assert(writer@ =~= before + hex_bytes(next, block));
        }
        i += 1;
    }
    assert(data@.take(data.len() as int) =~= data@);
}

/// Appends the preview of a line to `writer`: in square brackets, one
/// character for each byte, the byte itself where it is printable ASCII
/// (32 to 126) and a dot where it is not.
pub fn write_ascii_preview(writer: &mut String, data: &[u8])
    ensures
        final(writer)@ == old(writer)@ + ascii_preview(data@),
{
    let ghost before = writer@;
    writer.push('[');
    let mut i: usize = 0;
    while i < data.len()
        invariant
            i <= data.len(),
            writer@ == before + seq!['['] + preview_chars(data@).take(i as int),
        decreases data.len() - i,
    {
        let byte = data[i];
        if byte >= 32 && byte < 127 {
            writer.push(byte as char);
        } else {
            writer.push('.');
        }
        i += 1;
        assert(writer@ =~= before + seq!['['] + preview_chars(data@).take(i as int));
    }
    writer.push(']');
    assert(writer@ =~= before + ascii_preview(data@));
}

/// Appends one line to `writer`, for the bytes `data` that start at
/// `address`: the address with a colon and a space, or ten spaces where the
/// line does not show its address; the hex bytes; a space and the preview
/// where `config.show_preview` asks for it; and a line feed.
pub fn write_line(writer: &mut String, address: u64, data: &[u8], config: &Config)
    ensures
        final(writer)@ == old(writer)@ + encoded_line(address as nat, data@, *config),
{
    let ghost before = writer@;
    if config.repeat_address || address == 0 {
        write_address(writer, address, config);
        writer.push(':');
        writer.push(' ');
        assert(writer@ =~= before + address_column(address as nat, *config));
    } else {
        let mut i: usize = 0;
        while i < 10
            invariant
                i <= 10,
                writer@ == before + indentation().take(i as int),
            decreases 10 - i,
        {
            writer.push(' ');
            i += 1;
            assert(writer@ =~= before + indentation().take(i as int));
        }
        assert(indentation().take(10) =~= indentation());
    }
    write_hex_bytes(writer, data, config);
    if config.show_preview {
        writer.push(' ');
        write_ascii_preview(writer, data);
    }
    writer.push('\n');
    assert(writer@ =~= before + encoded_line(address as nat, data@, *config));
}

/// An encoding in progress, for input that arrives chunk by chunk: it
/// holds the configuration and the address that the next line starts at.
pub struct Encoder<'a> {
    config: &'a Config,
    address: u64,
}

impl<'a> Encoder<'a> {
    /// The configuration that shapes the lines.
    pub closed spec fn config(&self) -> Config {
        *self.config
    }

    /// The address that the next line starts at: the number of bytes
    /// encoded so far.
    pub closed spec fn address(&self) -> nat {
        self.address as nat
    }

    /// An encoder whose first line starts at address 0.
    pub fn new(config: &'a Config) -> (encoder: Self)
        ensures
            encoder.config() == *config,
            encoder.address() == 0,
    {
        Encoder { config, address: 0 }
    }

    /// The number of bytes that belong on one line: the length of the
    /// chunks to hand to [`Encoder::write_chunk`], but for the last one,
    /// which holds what is left.
    pub fn chunk_length(&self) -> (length: usize)
        ensures
            length == self.config().line_length,
    {
        self.config.line_length
    }

    /// The address that the next line starts at.
    pub fn next_address(&self) -> (address: u64)
        ensures
            address == self.address(),
    {
        self.address
    }

    /// Appends to `writer` the line for the next chunk of the input; the
    /// address moves on by the length of the chunk. An empty chunk marks
    /// the end of the input and adds nothing.
    pub fn write_chunk(&mut self, writer: &mut String, data: &[u8])
        requires
            old(self).address() + data.len() <= u64::MAX,
        ensures
            final(self).config() == old(self).config(),
            final(self).address() == old(self).address() + data.len(),
            data.len() == 0 ==> final(writer)@ == old(writer)@,
            data.len() > 0 ==> final(writer)@ == old(writer)@ + encoded_line(
                old(self).address(),
                data@,
                old(self).config(),
            ),
    {
        if data.len() > 0 {
            write_line(writer, self.address, data, self.config);
            self.address = self.address + data.len() as u64;
        }
    }
}

/// Converts binary data to hex text: appends to `writer` one line for every
/// `config.line_length` bytes of `reader`, and one for the bytes that are
/// left. The first line is at address 0, each further line at the address
/// after the last byte of the line before it. Empty input adds nothing, and
/// so does a line length of 0.
///
/// Always succeeds: a `String` takes all that is written to it.
pub fn bin_to_hex(reader: &[u8], writer: &mut String, config: &Config) -> (result: Result<
    (),
    Error,
>)
    ensures
        result is Ok,
        final(writer)@ == old(writer)@ + encoded(reader@, *config),
{
    let ghost before = writer@;
    let mut encoder = Encoder::new(config);
    let mut position: usize = 0;
    if encoder.chunk_length() == 0 {
        assert(writer@ =~= before + encoded(reader@, *config));
        return Ok(());
    }
    assert(reader@.skip(0) =~= reader@);
    while position < reader.len()
        invariant
            position <= reader.len(),
            config.line_length > 0,
            encoder.config() == *config,
            encoder.address() == position,
            before + encoded(reader@, *config) == writer@ + encoded_from(
                reader@.skip(position as int),
                position as nat,
                *config,
            ),
        decreases reader.len() - position,
    {
        let ghost written = writer@;
        let ghost rest = reader@.skip(position as int);
        let left = reader.len() - position;
        let count = if left < encoder.chunk_length() {
            left
        } else {
            encoder.chunk_length()
        };
        encoder.write_chunk(writer, &reader[position..position + count]);
        proof {
            assert(reader@.subrange(position as int, position + count) =~= rest.take(
                count as int,
            ));
            if left <= config.line_length {
                assert(rest.take(count as int) =~= rest);
                assert(reader@.skip(position + count) =~= Seq::<u8>::empty());
            } else {
                assert(rest.skip(count as int) =~= reader@.skip(position + count));
            }
            assert(written + encoded_from(rest, position as nat, *config) =~= writer@
                + encoded_from(
                reader@.skip(position + count),
                (position + count) as nat,
                *config,
            ));
        }
        position += count;
    }
    assert(writer@ =~= before + encoded(reader@, *config)) by {
        assert(reader@.skip(position as int) =~= Seq::<u8>::empty());
    }
    Ok(())
}

/// Taking the digits of a sequence that grew by one character.
proof fn lemma_hex_digits_step(s: Seq<char>, i: int)
    requires
        0 <= i < s.len(),
    ensures
        hex_digits_of(s.take(i + 1)) == if is_hex_digit(s[i]) {
            hex_digits_of(s.take(i)).push(s[i])
        } else {
            hex_digits_of(s.take(i))
        },
{
    assert(s.take(i + 1).drop_last() =~= s.take(i));
}

/// The hex digits in the payload region of a line: the line without an
/// inline comment, without the address column, without the preview and
/// without annotations, and of that only the hex digits.
///
/// Never fails.
pub fn extract_hex_from_line(line: &str) -> (hex: Result<String, Error>)
    ensures
        hex matches Ok(digits) && digits@ == line_payload(line@),
{
    let chars = chars_of(line);
    let line = chars.as_slice();
    // An inline comment runs from the first "//" to the end.
    let line = &line[0..find_pair(line, '/', '/')];
    // The address column ends with the first ':'.
    let colon = find_char(line, ':');
    proof {
        lemma_first_index_of(line@, ':');
    }
    let line = if colon < line.len() {
        &line[colon + 1..line.len()]
    } else {
        line
    };
    // The preview starts with the first '[', annotations with the first '|'.
    let line = &line[0..find_char(line, '[')];
    let line = &line[0..find_char(line, '|')];
    assert(line@ == payload_region(chars@));
    let mut digits = String::new();
    let mut i: usize = 0;
    while i < line.len()
        invariant
            i <= line.len(),
            digits@ == hex_digits_of(line@.take(i as int)),
        decreases line.len() - i,
    {
        proof {
            lemma_hex_digits_step(line@, i as int);
        }
        if is_hex_digit_char(line[i]) {
            digits.push(line[i]);
        }
        i += 1;
    }
    assert(line@.take(line.len() as int) =~= line@);
    Ok(digits)
}

/// Parses a hex string to bytes. White space around the string does not
/// count. An empty string gives no bytes. A string with an odd number of
/// characters is refused as [`Error::OddHexLength`]; otherwise each pair of
/// hex digits, in either case, gives one byte, and the first character that
/// is no hex digit is refused as [`Error::InvalidHexChar`], with its index
/// in the trimmed string.
pub fn parse_hex_string(hex: &str) -> (result: Result<Vec<u8>, Error>)
    ensures
        match parsed_hex(hex@) {
            Ok(bytes) => result matches Ok(parsed) && parsed@ == bytes,
            Err(error) => result matches Err(e) && e == error,
        },
{
    let chars = chars_of(hex);
    let (from, to) = trim_bounds(chars.as_slice());
    let digits = &chars.as_slice()[from..to];
    let length = digits.len();
    if length % 2 != 0 {
        return Err(Error::OddHexLength);
    }
    let mut bytes: Vec<u8> = Vec::new();
    let mut i: usize = 0;
    while i < length
        invariant
            digits@ == trim(hex@),
            length == digits.len(),
            length % 2 == 0,
            i % 2 == 0,
            i <= length,
            forall|j: int| 0 <= j < i ==> is_hex_digit(digits@[j]),
            bytes@ == bytes_of_hex(digits@.take(i as int)),
        decreases length - i,
    {
        let high = match hex_value(digits[i]) {
            Some(value) => value,
            None => {
                proof {
                    lemma_first_non_hex_is(digits@, i as int);
                }
                return Err(Error::InvalidHexChar(digits[i], i));
            },
        };
        let low = match hex_value(digits[i + 1]) {
            Some(value) => value,
            None => {
                proof {
                    lemma_first_non_hex_is(digits@, i + 1);
                }
                return Err(Error::InvalidHexChar(digits[i + 1], i + 1));
            },
        };
        bytes.push(high * 16 + low);
        proof {
            assert(high * 16 + low == byte_of_digits(digits@[i as int], digits@[i + 1]));
            assert(bytes@ =~= bytes_of_hex(digits@.take(i + 2)));
        }
        i += 2;
    }
    proof {
        lemma_first_non_hex_is(digits@, length as int);
        assert(digits@.take(length as int) =~= digits@);
    }
    Ok(bytes)
}

/// Tells whether a trimmed line holds no data: an empty line, a line that
/// starts with `//`, `#` or `/*`, or a line that ends with `*/`.
pub fn is_ignored(line: &[char]) -> (ignored: bool)
    ensures
        ignored == is_ignored_line(line@),
{
    let length = line.len();
    if length == 0 {
        return true;
    }
    if line[0] == '#' {
        return true;
    }
    if length < 2 {
        return false;
    }
    (line[0] == '/' && (line[1] == '/' || line[1] == '*')) || (line[length - 2] == '*'
        && line[length - 1] == '/')
}

/// The bytes that one line of hex text stands for. White space around the
/// line does not count. A line that holds no data gives no bytes; any other
/// line gives the bytes that [`parse_hex_string`] reads out of what
/// [`extract_hex_from_line`] leaves of it, or the error of that.
pub fn decode_line(line: &str) -> (result: Result<Vec<u8>, Error>)
    ensures
        match decoded_line(line@) {
            Ok(bytes) => result matches Ok(parsed) && parsed@ == bytes,
            Err(error) => result matches Err(e) && e == error,
        },
{
    let chars = chars_of(line);
    let (from, to) = trim_bounds(chars.as_slice());
    if is_ignored(&chars.as_slice()[from..to]) {
        return Ok(Vec::new());
    }
    let line = line.substring_char(from, to);
    match extract_hex_from_line(line) {
        Ok(hex) => parse_hex_string(hex.as_str()),
        Err(error) => Err(error),
    }
}

/// Converts hex text to binary data: reads `reader` line by line, lines
/// ending at a line feed, and appends to `writer` the bytes that each line
/// stands for, as [`decode_line`] gives them. The first line that fails ends
/// the conversion with its error; the bytes of the lines before it have
/// been appended by then.
pub fn hex_to_bin(reader: &str, writer: &mut Vec<u8>) -> (result: Result<(), Error>)
    ensures
        final(writer)@ == old(writer)@ + decoded(reader@).bytes,
        match decoded(reader@).error {
            None => result is Ok,
            Some(error) => result matches Err(e) && e == error,
        },
{
    let ghost before = writer@;
    let ghost mut start: int = 0;
    let mut line = String::new();
    assert(reader@.skip(0) =~= reader@);
    assert(writer@ + decoded(reader@).bytes =~= before + decoded(reader@).bytes);
    for c in it: reader.chars()
        invariant
            before == old(writer)@,
            it.seq() == reader@,
            0 <= start <= it.index() <= reader@.len(),
            line@ == reader@.subrange(start, it.index() as int),
            forall|j: int| start <= j < it.index() ==> reader@[j] != '\n',
            before + decoded(reader@).bytes == writer@ + decoded(reader@.skip(start)).bytes,
            decoded(reader@).error == decoded(reader@.skip(start)).error,
    {
        let ghost index = it.index() as int;
        let ghost rest = reader@.skip(start);
        if c == '\n' {
            proof {
                lemma_first_index_of_is(rest, '\n', index - start);
                lemma_first_index_of(rest, '\n');
                assert(before_char(rest, '\n') =~= line@);
                assert(after_char(rest, '\n') =~= reader@.skip(index + 1));
            }
            let ghost written = writer@;
            match decode_line(line.as_str()) {
                Ok(mut bytes) => {
                    writer.append(&mut bytes);
                    assert(written + decoded(rest).bytes =~= writer@ + decoded(
                        reader@.skip(index + 1),
                    ).bytes);
                },
                Err(error) => {
                    assert(writer@ + decoded(rest).bytes =~= writer@);
                    return Err(error);
                },
            }
            line = String::new();
            proof {
                start = index + 1;
            }
            assert(line@ =~= reader@.subrange(start, index + 1));
        } else {
            line.push(c);
            assert(line@ =~= reader@.subrange(start, index + 1));
        }
    }
    let ghost rest = reader@.skip(start);
    proof {
        lemma_first_index_of_is(rest, '\n', rest.len() as int);
        lemma_first_index_of(rest, '\n');
        assert(before_char(rest, '\n') =~= line@);
    }
    let ghost written = writer@;
    match decode_line(line.as_str()) {
        Ok(mut bytes) => {
            writer.append(&mut bytes);
            Ok(())
        },
        Err(error) => {
            assert(writer@ + decoded(rest).bytes =~= writer@);
            Err(error)
        },
    }
}

} // verus!

//! What holds of encoding and decoding together.
//!
//! Each law is a proof function over the functions of [`crate::format`],
//! by which the executable functions of [`crate::convert`] are specified.

use crate::config::{AddressSize, Config};
use crate::digits::is_hex_digit;
use crate::error::Error;
use crate::format::{
    address_text, address_width, decoded, decoded_line, encoded, encoded_from, encoded_line,
    hex_bytes, hex_digits_of, is_masked, is_masked_from, line_is_masked, line_text,
    payload_region, preview_chars, Decoded,
};
use crate::lemmas::{
    is_hex_or_space, lemma_decoded_line_len, lemma_empty_line_round_trip,
    lemma_hex_digits_concat, lemma_hex_digits_none, lemma_hex_number_len,
    lemma_line_core_chars, lemma_line_core_counts, lemma_line_core_payload,
    lemma_line_text_is_one_line, lemma_no_digits_no_bytes, lemma_parse_flat_hex,
    lemma_trim_line, line_core, sixteen_to,
};
use crate::text::{
    after_char, before_char, before_pair, first_index_of_pair, lemma_first_index_of,
    lemma_first_index_of_is, lemma_first_index_of_pair, pair_at, trim,
};
use vstd::prelude::*;
use vstd::utf8::is_ascii_chars;

verus! {

/// Round trip: decoding the hex text of `data` gives `data` back, and no
/// error, whatever the configuration that shaped the text, as long as its
/// lines hold at least one byte and none of them is masked.
pub proof fn lemma_round_trip(data: Seq<u8>, config: Config)
    requires
        config.is_valid(),
        !is_masked(data, config),
    ensures
        decoded(encoded(data, config)) == (Decoded { bytes: data, error: None }),
{
    lemma_round_trip_from(data, 0, config);
}

/// Round trip for the lines from any address on.
proof fn lemma_round_trip_from(data: Seq<u8>, address: nat, config: Config)
    requires
        config.is_valid(),
        !is_masked_from(data, address, config),
    ensures
        decoded(encoded_from(data, address, config)) == (Decoded { bytes: data, error: None }),
    decreases data.len(),
{
    lemma_decoded_empty();
    if data.len() == 0 {
        assert(data =~= Seq::<u8>::empty());
    } else if data.len() <= config.line_length {
        let line = line_text(address, data, config);
        lemma_line_text_is_one_line(address, data, config);
        lemma_line_round_trip(address, data, config);
        lemma_decoded_by_lines(line, Seq::empty());
        assert(line.push('\n') + Seq::<char>::empty() =~= line.push('\n'));
        assert(data + Seq::<u8>::empty() =~= data);
    } else {
        let count = config.line_length as int;
        let first = data.take(count);
        let others = data.skip(count);
        let line = line_text(address, first, config);
        let rest = encoded_from(others, address + config.line_length as nat, config);
        lemma_line_text_is_one_line(address, first, config);
        lemma_line_round_trip(address, first, config);
        lemma_round_trip_from(others, address + config.line_length as nat, config);
        lemma_decoded_by_lines(line, rest);
        assert(first + others =~= data);
    }
}

/// Round trip for the configurations that cannot mask a line: with the
/// address on every line, or without a preview, decoding the hex text of
/// any `data` gives `data` back.
pub proof fn lemma_round_trip_when_never_masked(data: Seq<u8>, config: Config)
    requires
        config.is_valid(),
        config.repeat_address || !config.show_preview,
    ensures
        decoded(encoded(data, config)) == (Decoded { bytes: data, error: None }),
{
    lemma_not_masked_from(data, 0, config);
    lemma_round_trip(data, config);
}

/// A line that shows its address, or has no preview, is not masked.
proof fn lemma_not_masked_from(data: Seq<u8>, address: nat, config: Config)
    requires
        config.repeat_address || !config.show_preview,
    ensures
        !is_masked_from(data, address, config),
    decreases data.len(),
{
    if data.len() > config.line_length && config.line_length > 0 {
        lemma_not_masked_from(
            data.skip(config.line_length as int),
            address + config.line_length as nat,
            config,
        );
    }
}

/// No round trip with a masked line: decoding hex text of which a line is
/// masked fails, or gives fewer bytes than were encoded.
pub proof fn lemma_masked_text_is_misread(data: Seq<u8>, config: Config)
    requires
        config.is_valid(),
        is_masked(data, config),
    ensures
        decoded(encoded(data, config)).error is Some || decoded(
            encoded(data, config),
        ).bytes.len() < data.len(),
{
    lemma_misread_from(data, 0, config);
}

/// With a masked line, the decoded bytes are fewer than the encoded ones,
/// unless decoding fails.
proof fn lemma_misread_from(data: Seq<u8>, address: nat, config: Config)
    requires
        config.is_valid(),
    ensures
        ({
            let read = decoded(encoded_from(data, address, config));
            read.error is None ==> {
                &&& read.bytes.len() <= data.len()
                &&& is_masked_from(data, address, config) ==> read.bytes.len() < data.len()
            }
        }),
    decreases data.len(),
{
    lemma_decoded_empty();
    if data.len() == 0 {
    } else if data.len() <= config.line_length {
        let line = line_text(address, data, config);
        lemma_line_text_is_one_line(address, data, config);
        lemma_decoded_by_lines(line, Seq::empty());
        assert(line.push('\n') + Seq::<char>::empty() =~= line.push('\n'));
        if line_is_masked(address, data, config) {
            lemma_masked_line_is_misread(address, data, config);
        } else {
            lemma_line_round_trip(address, data, config);
        }
    } else {
        let count = config.line_length as int;
        let first = data.take(count);
        let others = data.skip(count);
        let line = line_text(address, first, config);
        let rest = encoded_from(others, address + config.line_length as nat, config);
        lemma_line_text_is_one_line(address, first, config);
        lemma_decoded_by_lines(line, rest);
        lemma_misread_from(others, address + config.line_length as nat, config);
        if line_is_masked(address, first, config) {
            lemma_masked_line_is_misread(address, first, config);
        } else {
            lemma_line_round_trip(address, first, config);
        }
    }
}

/// Decoding a line gives back the bytes that it was encoded from, whatever
/// the address and the configuration, unless the line is masked.
pub proof fn lemma_line_round_trip(address: nat, data: Seq<u8>, config: Config)
    requires
        !line_is_masked(address, data, config),
    ensures
        decoded_line(line_text(address, data, config)) == Ok::<Seq<u8>, Error>(data),
{
    if data.len() == 0 {
        assert(data =~= Seq::<u8>::empty());
        lemma_empty_line_round_trip(address, config);
    } else {
        lemma_trim_line(address, data, config);
        lemma_line_core_counts(address, data, config);
        lemma_line_core_payload(address, data, config);
        lemma_parse_flat_hex(data);
    }
}

/// A masked line is read wrongly: it fails, or gives fewer bytes than it
/// was encoded from.
pub proof fn lemma_masked_line_is_misread(address: nat, data: Seq<u8>, config: Config)
    requires
        line_is_masked(address, data, config),
    ensures
        decoded_line(line_text(address, data, config)) matches Ok(bytes) ==> bytes.len()
            < data.len(),
{
    assert(data.len() > 0) by {
        let shortened = before_pair(preview_chars(data), '/', '/');
        let p = choose|p: int| 0 <= p < shortened.len() && shortened[p] == ':';
        assert(0 <= p < shortened.len());
    }
    let core = line_core(address, data, config);
    let preview = preview_chars(data);
    let h = hex_bytes(data, config.block_length as nat).len() as int;
    let n = core.len() as int;
    lemma_trim_line(address, data, config);
    lemma_line_core_chars(address, data, config);
    let shortened = before_pair(preview, '/', '/');
    let stop = first_index_of_pair(preview, '/', '/');
    lemma_first_index_of_pair(preview, '/', '/');
    let p = choose|p: int| 0 <= p < shortened.len() && shortened[p] == ':';
    assert(0 <= p < stop && preview[p] == ':');
    let cut = first_index_of_pair(core, '/', '/');
    lemma_first_index_of_pair(core, '/', '/');
    assert(cut > h + 2 + p) by {
        if cut < n {
            assert(pair_at(core, cut, '/', '/'));
            if cut < h {
                assert(is_hex_or_space(core[cut]));
            }
            let q = cut - h - 2;
            assert(core[h + 2 + q] == preview[q]);
            assert(core[h + 2 + (q + 1)] == preview[q + 1]);
            assert(pair_at(preview, q, '/', '/'));
            assert(q >= stop) by {
                if q < stop {
                    assert(!pair_at(preview, q, '/', '/'));
                }
            }
        }
    }
    let kept = before_pair(core, '/', '/');
    assert(kept[h + 2 + p] == ':') by {
        assert(core[h + 2 + p] == preview[p]);
    }
    assert forall|j: int| 0 <= j < h + 2 && j < kept.len() implies kept[j] != ':' by {
        if j < h {
            assert(is_hex_or_space(core[j]));
        }
    }
    lemma_decoded_line_len(line_text(address, data, config), h + 2);
}

/// Decoding does not depend on the layout that an encoder chose: the hex
/// texts that two configurations give for the same bytes decode alike,
/// whatever their address widths, line lengths, grouping and previews.
pub proof fn lemma_layout_does_not_matter(data: Seq<u8>, one: Config, other: Config)
    requires
        one.is_valid(),
        other.is_valid(),
        !is_masked(data, one),
        !is_masked(data, other),
    ensures
        decoded(encoded(data, one)) == decoded(encoded(data, other)),
{
    lemma_round_trip(data, one);
    lemma_round_trip(data, other);
}

/// Decoding a line does not depend on where the line stands nor on its
/// layout: two lines for the same bytes decode alike, whatever their
/// addresses and configurations.
pub proof fn lemma_line_layout_does_not_matter(
    data: Seq<u8>,
    address: nat,
    config: Config,
    other_address: nat,
    other_config: Config,
)
    requires
        !line_is_masked(address, data, config),
        !line_is_masked(other_address, data, other_config),
    ensures
        decoded_line(line_text(address, data, config)) == decoded_line(
            line_text(other_address, data, other_config),
        ),
{
    lemma_line_round_trip(address, data, config);
    lemma_line_round_trip(other_address, data, other_config);
}

/// Spacing does not count: characters that are no hex digits can stand
/// anywhere among the hex digits of a payload, or be left out, and the hex
/// digits stay the same.
pub proof fn lemma_spacing_does_not_count(before: Seq<char>, between: Seq<char>, after: Seq<char>)
    requires
        forall|i: int| 0 <= i < between.len() ==> !is_hex_digit(between[i]),
    ensures
        hex_digits_of(before + between + after) == hex_digits_of(before + after),
{
    lemma_hex_digits_concat(before + between, after);
    lemma_hex_digits_concat(before, between);
    lemma_hex_digits_concat(before, after);
    lemma_hex_digits_none(between);
    assert(hex_digits_of(before) + Seq::<char>::empty() =~= hex_digits_of(before));
}

/// Empty input gives empty output, both ways: no bytes encode to no lines,
/// and no text decodes to no bytes.
pub proof fn lemma_empty_input(config: Config)
    ensures
        encoded(Seq::<u8>::empty(), config) == Seq::<char>::empty(),
        decoded(Seq::<char>::empty()) == (Decoded { bytes: Seq::empty(), error: None }),
{
    lemma_decoded_empty();
}

/// Empty text decodes to no bytes.
proof fn lemma_decoded_empty()
    ensures
        decoded(Seq::<char>::empty()) == (Decoded { bytes: Seq::empty(), error: None }),
{
    let text = Seq::<char>::empty();
    assert(before_char(text, '\n') =~= text);
    assert(trim(text) =~= text);
    assert(!text.contains('\n'));
}

/// A line with no hex digit in its payload region decodes to no bytes, and
/// without error.
pub proof fn lemma_line_without_hex_digits(line: Seq<char>)
    requires
        forall|i: int|
            0 <= i < payload_region(trim(line)).len() ==> !is_hex_digit(
                #[trigger] payload_region(trim(line))[i],
            ),
    ensures
        decoded_line(line) == Ok::<Seq<u8>, Error>(Seq::empty()),
{
    lemma_no_digits_no_bytes(line);
}

/// Decoding text that begins with a whole line decodes that line, and then
/// what follows it.
pub proof fn lemma_decoded_by_lines(line: Seq<char>, rest: Seq<char>)
    requires
        !line.contains('\n'),
    ensures
        decoded(line.push('\n') + rest) == match decoded_line(line) {
            Err(error) => (Decoded { bytes: Seq::empty(), error: Some(error) }),
            Ok(bytes) => (Decoded {
                bytes: bytes + decoded(rest).bytes,
                error: decoded(rest).error,
            }),
        },
{
    let text = line.push('\n') + rest;
    assert forall|j: int| 0 <= j < line.len() implies text[j] != '\n' by {
        assert(text[j] == line[j]);
        assert(line.contains(line[j]));
    }
    assert(text[line.len() as int] == '\n');
    lemma_first_index_of_is(text, '\n', line.len() as int);
    lemma_first_index_of(text, '\n');
    assert(before_char(text, '\n') =~= line);
    assert(after_char(text, '\n') =~= rest);
}

/// Encoding can be split at the end of a line: where `first` fills whole
/// lines, the hex text of `first` followed by `second` is the hex text of
/// `first`, and then that of `second` at the address after `first`. Each
/// line depends on its own bytes and address only.
pub proof fn lemma_encoded_in_parts(
    first: Seq<u8>,
    second: Seq<u8>,
    address: nat,
    config: Config,
)
    requires
        config.is_valid(),
        first.len() % (config.line_length as nat) == 0,
    ensures
        encoded_from(first + second, address, config) == encoded_from(first, address, config)
            + encoded_from(second, address + first.len(), config),
    decreases first.len(),
{
    let count = config.line_length as int;
    let all = first + second;
    if first.len() == 0 {
        assert(all =~= second);
        assert(encoded_from(first, address, config) + encoded_from(second, address, config)
            =~= encoded_from(second, address, config));
    } else {
        assert(first.len() >= count) by {
            if first.len() < count {
                vstd::arithmetic::div_mod::lemma_small_mod(first.len(), count as nat);
            }
        }
        let later = first.skip(count);
        assert(later.len() % (count as nat) == 0) by {
            vstd::arithmetic::div_mod::lemma_mod_sub_multiples_vanish(
                first.len() as int,
                count,
            );
        }
        lemma_encoded_in_parts(later, second, address + count as nat, config);
        assert(all.take(count) =~= first.take(count));
        assert(all.skip(count) =~= later + second);
        let line = encoded_line(address, first.take(count), config);
        if first.len() == count {
            assert(first.take(count) =~= first);
            assert(encoded_from(later, address + count as nat, config) =~= Seq::<char>::empty());
            if second.len() == 0 {
                assert(all =~= first);
                assert(line + Seq::<char>::empty() =~= line);
            } else {
                assert(later + second =~= second);
                assert(line + Seq::<char>::empty() =~= line);
            }
        } else {
            assert(line + (encoded_from(later, address + count as nat, config) + encoded_from(
                second,
                address + first.len(),
                config,
            )) =~= (line + encoded_from(later, address + count as nat, config)) + encoded_from(
                second,
                address + first.len(),
                config,
            ));
        }
    }
}

/// The address column is never narrower than the configuration asks for,
/// and exactly that wide for every address that fits the width. With
/// `Stretch` every address below 2 to the power of 64 fits: the column has
/// 2 digits below `0x100`, 4 below `0x1_0000`, 6 below `0x100_0000`, 8 below
/// `0x1_0000_0000` and 16 from there on.
pub proof fn lemma_address_column_width(address: u64, size: AddressSize)
    ensures
        address_text(address as nat, size).len() >= address_width(size, address as nat),
        size == AddressSize::Stretch ==> address_text(address as nat, size).len()
            == address_width(size, address as nat),
        size == AddressSize::U8 && address < 0x100 ==> address_text(address as nat, size).len()
            == 2,
        size == AddressSize::U16 && address < 0x1_0000 ==> address_text(
            address as nat,
            size,
        ).len() == 4,
        size == AddressSize::U24 && address < 0x100_0000 ==> address_text(
            address as nat,
            size,
        ).len() == 6,
        size == AddressSize::U32 && address < 0x1_0000_0000 ==> address_text(
            address as nat,
            size,
        ).len() == 8,
        size == AddressSize::U40 && address < 0x100_0000_0000 ==> address_text(
            address as nat,
            size,
        ).len() == 10,
        size == AddressSize::U48 && address < 0x1_0000_0000_0000 ==> address_text(
            address as nat,
            size,
        ).len() == 12,
        size == AddressSize::U64 ==> address_text(address as nat, size).len() == 16,
{
    let n = address as nat;
    assert(sixteen_to(2) == 0x100 && sixteen_to(4) == 0x1_0000 && sixteen_to(6) == 0x100_0000
        && sixteen_to(8) == 0x1_0000_0000 && sixteen_to(10) == 0x100_0000_0000 && sixteen_to(12)
        == 0x1_0000_0000_0000 && sixteen_to(16) == 0x1_0000_0000_0000_0000) by {
        reveal_with_fuel(sixteen_to, 17);
    }
    lemma_hex_number_len(n, 16);
    if n < 0x100 {
        lemma_hex_number_len(n, 2);
    }
    if n < 0x1_0000 {
        lemma_hex_number_len(n, 4);
    }
    if n < 0x100_0000 {
        lemma_hex_number_len(n, 6);
    }
    if n < 0x1_0000_0000 {
        lemma_hex_number_len(n, 8);
    }
    if n < 0x100_0000_0000 {
        lemma_hex_number_len(n, 10);
    }
    if n < 0x1_0000_0000_0000 {
        lemma_hex_number_len(n, 12);
    }
}

/// Hex text is ASCII text: an encoder writes no character beyond `'\u{7f}'`,
/// so that each character of the text is one byte of its UTF-8 form.
pub proof fn lemma_encoded_is_ascii(data: Seq<u8>, config: Config)
    ensures
        is_ascii_chars(encoded(data, config)),
{
    lemma_encoded_is_ascii_from(data, 0, config);
}

/// The lines from any address on are ASCII text.
proof fn lemma_encoded_is_ascii_from(data: Seq<u8>, address: nat, config: Config)
    ensures
        is_ascii_chars(encoded_from(data, address, config)),
    decreases data.len(),
{
    let text = encoded_from(data, address, config);
    if data.len() == 0 || config.line_length == 0 {
    } else if data.len() <= config.line_length {
        let line = line_text(address, data, config);
        lemma_line_text_is_one_line(address, data, config);
        assert forall|i: int| 0 <= i < text.len() implies '\0' <= #[trigger] text[i]
            <= '\u{7f}' by {
            if i < line.len() {
                assert(text[i] == line[i]);
            }
        }
    } else {
        let count = config.line_length as int;
        let line = line_text(address, data.take(count), config);
        let rest = encoded_from(data.skip(count), address + count as nat, config);
        lemma_line_text_is_one_line(address, data.take(count), config);
        lemma_encoded_is_ascii_from(data.skip(count), address + count as nat, config);
        assert forall|i: int| 0 <= i < text.len() implies '\0' <= #[trigger] text[i]
            <= '\u{7f}' by {
            if i < line.len() {
                assert(text[i] == line[i]);
            } else if i > line.len() {
                assert(text[i] == rest[i - line.len() - 1]);
            }
        }
    }
}

/// The byte order and the padding of a configuration do not show in the hex
/// text.
pub proof fn lemma_endian_and_padding_do_not_matter(data: Seq<u8>, one: Config, other: Config)
    requires
        one.address_size == other.address_size,
        one.line_length == other.line_length,
        one.block_length == other.block_length,
        one.repeat_address == other.repeat_address,
        one.show_preview == other.show_preview,
    ensures
        encoded(data, one) == encoded(data, other),
{
    lemma_same_text_from(data, 0, one, other);
}

/// Configurations that agree on the layout give the same lines.
proof fn lemma_same_text_from(data: Seq<u8>, address: nat, one: Config, other: Config)
    requires
        one.address_size == other.address_size,
        one.line_length == other.line_length,
        one.block_length == other.block_length,
        one.repeat_address == other.repeat_address,
        one.show_preview == other.show_preview,
    ensures
        encoded_from(data, address, one) == encoded_from(data, address, other),
    decreases data.len(),
{
    if data.len() > one.line_length && one.line_length > 0 {
        lemma_same_text_from(
            data.skip(one.line_length as int),
            address + one.line_length as nat,
            one,
            other,
        );
    }
}

} // verus!

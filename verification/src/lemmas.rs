//! Lemmas about the hex text format: which characters the parts of a line
//! hold, and what the steps of decoding make of them.

use crate::config::{AddressSize, Config};
use crate::digits::{byte_digits, is_hex_digit, lemma_byte_digits, lemma_upper_hex_digit};
use crate::error::Error;
use crate::format::{
    address_text, ascii_preview, bytes_of_hex, decoded_line, first_non_hex, hex_bytes,
    hex_digits_of, hex_number, indentation, is_ignored_line, line_is_masked, line_payload,
    line_text, parsed_hex, payload_region, preview_chars, shows_address, starts_block,
};
use crate::text::{
    after_char, before_char, before_pair, first_index_of, first_index_of_pair, is_whitespace,
    lemma_first_index_of, lemma_first_index_of_is, lemma_first_index_of_pair,
    lemma_first_index_of_pair_is, lemma_trim, lemma_trim_is, pair_at, trim,
};
use vstd::prelude::*;

verus! {

/// Whether `c` is a hex digit as an encoder writes it.
pub(crate) open spec fn is_upper_hex(c: char) -> bool {
    '0' <= c <= '9' || 'A' <= c <= 'F'
}

/// Whether `c` can stand among the hex bytes of a line.
pub(crate) open spec fn is_hex_or_space(c: char) -> bool {
    is_upper_hex(c) || c == ' '
}

/// The two digits of a byte are upper-case hex digits.
pub(crate) proof fn lemma_byte_digits_upper(byte: u8)
    ensures
        byte_digits(byte).len() == 2,
        is_upper_hex(byte_digits(byte)[0]),
        is_upper_hex(byte_digits(byte)[1]),
{
    lemma_upper_hex_digit(byte as int / 16);
    lemma_upper_hex_digit(byte as int % 16);
}

/// A number in hexadecimal has at least one digit, and upper-case hex digits
/// only.
pub(crate) proof fn lemma_hex_number_chars(n: nat)
    ensures
        hex_number(n).len() >= 1,
        forall|i: int| 0 <= i < hex_number(n).len() ==> is_upper_hex(#[trigger] hex_number(n)[i]),
    decreases n,
{
    if n < 16 {
        lemma_upper_hex_digit(n as int);
    } else {
        lemma_hex_number_chars(n / 16);
        lemma_upper_hex_digit(n as int % 16);
    }
}

/// 16 to the power of `digits`: the least number that does not fit in
/// `digits` hex digits.
pub(crate) open spec fn sixteen_to(digits: nat) -> nat
    decreases digits,
{
    if digits == 0 {
        1
    } else {
        16 * sixteen_to((digits - 1) as nat)
    }
}

/// A number below 16 to the power of `digits` has at most `digits` digits.
pub(crate) proof fn lemma_hex_number_len(n: nat, digits: nat)
    requires
        digits >= 1,
        n < sixteen_to(digits),
    ensures
        hex_number(n).len() <= digits,
    decreases digits,
{
    if n >= 16 {
        assert(digits >= 2) by {
            reveal_with_fuel(sixteen_to, 2);
        }
        lemma_hex_number_len(n / 16, (digits - 1) as nat);
    }
}

/// The address of a line has at least one digit, and upper-case hex digits
/// only.
pub(crate) proof fn lemma_address_text_chars(address: nat, size: AddressSize)
    ensures
        address_text(address, size).len() >= 1,
        forall|i: int|
            0 <= i < address_text(address, size).len() ==> is_upper_hex(
                #[trigger] address_text(address, size)[i],
            ),
{
    lemma_hex_number_chars(address);
}

/// The hex bytes of a line hold hex digits and spaces only, and begin and
/// end with a digit.
pub(crate) proof fn lemma_hex_bytes_chars(data: Seq<u8>, block_length: nat)
    ensures
        forall|i: int|
            0 <= i < hex_bytes(data, block_length).len() ==> is_hex_or_space(
                #[trigger] hex_bytes(data, block_length)[i],
            ),
        data.len() > 0 ==> {
            &&& hex_bytes(data, block_length).len() >= 2
            &&& is_upper_hex(hex_bytes(data, block_length).first())
            &&& is_upper_hex(hex_bytes(data, block_length).last())
        },
    decreases data.len(),
{
    if data.len() > 0 {
        let front = hex_bytes(data.drop_last(), block_length);
        let gap = if starts_block(data.len() - 1, block_length) {
            seq![' ']
        } else {
            Seq::<char>::empty()
        };
        let digits = byte_digits(data.last());
        let all = hex_bytes(data, block_length);
        lemma_hex_bytes_chars(data.drop_last(), block_length);
        lemma_byte_digits_upper(data.last());
        assert(all == front + gap + digits);
        assert forall|i: int| 0 <= i < all.len() implies is_hex_or_space(#[trigger] all[i]) by {
            if i < front.len() {
                assert(all[i] == front[i]);
            } else if i < front.len() + gap.len() {
                assert(all[i] == gap[i - front.len()]);
            } else {
                assert(all[i] == digits[i - front.len() - gap.len()]);
            }
        }
        assert(all.last() == digits[1]);
        if data.len() == 1 {
            assert(data.drop_last().len() == 0);
            assert(front.len() == 0);
            assert(gap.len() == 0);
            assert(all.first() == digits[0]);
        } else {
            assert(all.first() == front.first());
        }
    }
}

/// The hex digits of two texts in a row are those of the first and then
/// those of the second.
pub(crate) proof fn lemma_hex_digits_concat(x: Seq<char>, y: Seq<char>)
    ensures
        hex_digits_of(x + y) == hex_digits_of(x) + hex_digits_of(y),
    decreases y.len(),
{
    if y.len() == 0 {
        assert(x + y =~= x);
        assert(hex_digits_of(x) + hex_digits_of(y) =~= hex_digits_of(x));
    } else {
        lemma_hex_digits_concat(x, y.drop_last());
        assert((x + y).drop_last() =~= x + y.drop_last());
        assert((x + y).last() == y.last());
        if is_hex_digit(y.last()) {
            assert(hex_digits_of(x + y) =~= hex_digits_of(x) + hex_digits_of(y));
        }
    }
}

/// Text without hex digits has no hex digits to give.
pub(crate) proof fn lemma_hex_digits_none(s: Seq<char>)
    requires
        forall|i: int| 0 <= i < s.len() ==> !is_hex_digit(s[i]),
    ensures
        hex_digits_of(s) == Seq::<char>::empty(),
    decreases s.len(),
{
    if s.len() > 0 {
        lemma_hex_digits_none(s.drop_last());
    }
}

/// Text of hex digits only gives itself.
pub(crate) proof fn lemma_hex_digits_all(s: Seq<char>)
    requires
        forall|i: int| 0 <= i < s.len() ==> is_hex_digit(s[i]),
    ensures
        hex_digits_of(s) == s,
    decreases s.len(),
{
    if s.len() > 0 {
        lemma_hex_digits_all(s.drop_last());
        assert(s.drop_last().push(s.last()) =~= s);
    }
}

/// Leaving characters out does not make text longer.
pub(crate) proof fn lemma_hex_digits_len(s: Seq<char>)
    ensures
        hex_digits_of(s).len() <= s.len(),
    decreases s.len(),
{
    if s.len() > 0 {
        lemma_hex_digits_len(s.drop_last());
    }
}

/// The hex digits among the hex bytes of a line are the digits of its
/// bytes, whatever the grouping.
pub(crate) proof fn lemma_hex_digits_of_hex_bytes(data: Seq<u8>, block_length: nat)
    ensures
        hex_digits_of(hex_bytes(data, block_length)) == hex_bytes(data, 0),
    decreases data.len(),
{
    if data.len() > 0 {
        let front = hex_bytes(data.drop_last(), block_length);
        let gap = if starts_block(data.len() - 1, block_length) {
            seq![' ']
        } else {
            Seq::<char>::empty()
        };
        let digits = byte_digits(data.last());
        lemma_hex_digits_of_hex_bytes(data.drop_last(), block_length);
        lemma_hex_digits_concat(front + gap, digits);
        lemma_hex_digits_concat(front, gap);
        lemma_hex_digits_none(gap);
        lemma_byte_digits(data.last());
        lemma_hex_digits_all(digits);
        assert(hex_bytes(data.drop_last(), 0) + Seq::<char>::empty() + digits =~= hex_bytes(
            data.drop_last(),
            0,
        ) + digits);
        assert(hex_digits_of(front) + hex_digits_of(gap) + digits =~= hex_bytes(
            data.drop_last(),
            0,
        ) + digits);
    }
}

/// Ungrouped hex bytes are two digits for each byte, in order.
pub(crate) proof fn lemma_flat_hex(data: Seq<u8>)
    ensures
        hex_bytes(data, 0).len() == 2 * data.len(),
        forall|i: int|
            0 <= i < data.len() ==> {
                &&& #[trigger] hex_bytes(data, 0)[2 * i] == byte_digits(data[i])[0]
                &&& hex_bytes(data, 0)[2 * i + 1] == byte_digits(data[i])[1]
            },
    decreases data.len(),
{
    if data.len() > 0 {
        let front = data.drop_last();
        lemma_flat_hex(front);
        lemma_byte_digits(data.last());
        assert(hex_bytes(data, 0) =~= hex_bytes(front, 0) + byte_digits(data.last()));
        assert forall|i: int| 0 <= i < data.len() implies {
            &&& #[trigger] hex_bytes(data, 0)[2 * i] == byte_digits(data[i])[0]
            &&& hex_bytes(data, 0)[2 * i + 1] == byte_digits(data[i])[1]
        } by {
            if i < front.len() {
                assert(hex_bytes(front, 0)[2 * i] == byte_digits(front[i])[0]);
                assert(front[i] == data[i]);
            }
        }
    }
}

/// Parsing the ungrouped hex bytes of `data` gives `data`.
pub(crate) proof fn lemma_parse_flat_hex(data: Seq<u8>)
    ensures
        parsed_hex(hex_bytes(data, 0)) == Ok::<Seq<u8>, Error>(data),
{
    let hex = hex_bytes(data, 0);
    lemma_flat_hex(data);
    assert forall|j: int| 0 <= j < hex.len() implies is_hex_digit(hex[j]) && !is_whitespace(
        hex[j],
    ) by {
        let i = j / 2;
        lemma_byte_digits(data[i]);
        lemma_byte_digits_upper(data[i]);
        assert(hex[2 * i] == byte_digits(data[i])[0]);
        if j == 2 * i {
        } else {
            assert(j == 2 * i + 1);
        }
    }
    assert(hex.subrange(0, hex.len() as int) =~= hex);
    lemma_trim_is(hex, 0, hex.len() as int);
    lemma_first_non_hex_is(hex, hex.len() as int);
    assert(bytes_of_hex(hex) =~= data) by {
        assert forall|i: int| 0 <= i < data.len() implies bytes_of_hex(hex)[i] == data[i] by {
            lemma_byte_digits(data[i]);
            assert(hex[2 * i] == byte_digits(data[i])[0]);
        }
    }
}

/// An index that holds no hex digit, with only hex digits before it, is the
/// first such index; so is `s.len()` where `s` holds hex digits only.
pub(crate) proof fn lemma_first_non_hex_is(s: Seq<char>, k: int)
    requires
        0 <= k <= s.len(),
        forall|j: int| 0 <= j < k ==> is_hex_digit(s[j]),
        k < s.len() ==> !is_hex_digit(s[k]),
    ensures
        first_non_hex(s) == k,
    decreases s.len(),
{
    if s.len() == 0 || !is_hex_digit(s.first()) {
    } else {
        let rest = s.drop_first();
        assert forall|j: int| 0 <= j < k - 1 implies is_hex_digit(rest[j]) by {
            assert(rest[j] == s[j + 1]);
        }
        if k < s.len() {
            assert(rest[k - 1] == s[k]);
        }
        lemma_first_non_hex_is(rest, k - 1);
    }
}

/// The address of a line with its colon and space, where the line shows
/// its address.
pub(crate) open spec fn shown_address(address: nat, config: Config) -> Seq<char> {
    if shows_address(address, config) {
        address_text(address, config.address_size) + seq![':', ' ']
    } else {
        Seq::empty()
    }
}

/// The preview of a line with the space before it, where the line has one.
pub(crate) open spec fn preview_part(data: Seq<u8>, config: Config) -> Seq<char> {
    if config.show_preview {
        seq![' '] + ascii_preview(data)
    } else {
        Seq::empty()
    }
}

/// A line without the white space around it.
pub(crate) open spec fn line_core(address: nat, data: Seq<u8>, config: Config) -> Seq<char> {
    shown_address(address, config) + hex_bytes(data, config.block_length as nat) + preview_part(
        data,
        config,
    )
}

/// The three parts of a line core and the characters that each can hold.
pub(crate) proof fn lemma_line_core_chars(address: nat, data: Seq<u8>, config: Config)
    requires
        data.len() > 0,
    ensures
        ({
            let front = shown_address(address, config);
            let hex = hex_bytes(data, config.block_length as nat);
            let back = preview_part(data, config);
            let core = line_core(address, data, config);
            let a = front.len() as int;
            let h = hex.len() as int;
            &&& core.len() == a + h + back.len()
            &&& h >= 2
            &&& shows_address(address, config) ==> a >= 3 && core[a - 2] == ':' && core[a - 1]
                == ' ' && forall|j: int| 0 <= j < a - 2 ==> is_upper_hex(#[trigger] core[j])
            &&& !shows_address(address, config) ==> a == 0
            &&& forall|j: int| a <= j < a + h ==> is_hex_or_space(#[trigger] core[j])
            &&& is_upper_hex(core[a])
            &&& is_upper_hex(core[a + h - 1])
            &&& core.subrange(a, a + h) == hex
            &&& config.show_preview ==> {
                &&& back.len() == data.len() + 3
                &&& core[a + h] == ' '
                &&& core[a + h + 1] == '['
                &&& core[core.len() - 1] == ']'
                &&& forall|p: int|
                    0 <= p < data.len() ==> #[trigger] core[a + h + 2 + p] == preview_chars(
                        data,
                    )[p]
            }
            &&& !config.show_preview ==> back.len() == 0
        }),
{
    let front = shown_address(address, config);
    let hex = hex_bytes(data, config.block_length as nat);
    let back = preview_part(data, config);
    let core = line_core(address, data, config);
    let a = front.len() as int;
    let h = hex.len() as int;
    lemma_address_text_chars(address, config.address_size);
    lemma_hex_bytes_chars(data, config.block_length as nat);
    assert(core.subrange(a, a + h) =~= hex);
    assert forall|j: int| a <= j < a + h implies is_hex_or_space(#[trigger] core[j]) by {
        assert(core[j] == hex[j - a]);
    }
    assert(core[a] == hex.first());
    assert(core[a + h - 1] == hex.last());
    if shows_address(address, config) {
        let text = address_text(address, config.address_size);
        assert forall|j: int| 0 <= j < a - 2 implies is_upper_hex(#[trigger] core[j]) by {
            assert(core[j] == text[j]);
        }
    }
    if config.show_preview {
        let preview = preview_chars(data);
        assert(back =~= seq![' ', '['] + preview + seq![']']);
        assert forall|p: int| 0 <= p < data.len() implies #[trigger] core[a + h + 2 + p]
            == preview[p] by {
            assert(core[a + h + 2 + p] == back[2 + p]);
        }
    }
}

/// Trimming a line leaves its core.
pub(crate) proof fn lemma_trim_line(address: nat, data: Seq<u8>, config: Config)
    requires
        data.len() > 0,
    ensures
        trim(line_text(address, data, config)) == line_core(address, data, config),
{
    let line = line_text(address, data, config);
    let core = line_core(address, data, config);
    lemma_line_core_chars(address, data, config);
    let from: int = if shows_address(address, config) {
        0
    } else {
        10
    };
    assert(line.subrange(from, line.len() as int) =~= core);
    assert(!is_whitespace(line[from])) by {
        assert(line[from] == core[0]);
        if shows_address(address, config) {
            assert(is_upper_hex(core[0]));
        }
    }
    assert(!is_whitespace(line[line.len() - 1])) by {
        assert(line[line.len() - 1] == core[core.len() - 1]);
    }
    lemma_trim_is(line, from, line.len() as int);
}

/// The core of a line is not taken for a comment or a directive.
pub(crate) proof fn lemma_line_core_counts(address: nat, data: Seq<u8>, config: Config)
    requires
        data.len() > 0,
    ensures
        !is_ignored_line(line_core(address, data, config)),
{
    let core = line_core(address, data, config);
    lemma_line_core_chars(address, data, config);
    if shows_address(address, config) {
        assert(is_upper_hex(core[0]));
    }
}

/// The payload of a line that is not masked is the digits of its bytes.
pub(crate) proof fn lemma_line_core_payload(address: nat, data: Seq<u8>, config: Config)
    requires
        data.len() > 0,
        !line_is_masked(address, data, config),
    ensures
        line_payload(line_core(address, data, config)) == hex_bytes(data, 0),
{
    let hex = hex_bytes(data, config.block_length as nat);
    let preview = preview_chars(data);
    let core = line_core(address, data, config);
    let a = shown_address(address, config).len() as int;
    let h = hex.len() as int;
    let n = core.len() as int;
    lemma_line_core_chars(address, data, config);
    // The inline comment, if there is one, starts inside the preview.
    let cut = first_index_of_pair(core, '/', '/');
    let kept = before_pair(core, '/', '/');
    lemma_first_index_of_pair(core, '/', '/');
    let bound = if config.show_preview {
        a + h + 2
    } else {
        a + h
    };
    assert(cut >= bound) by {
        if cut < n {
            assert(pair_at(core, cut, '/', '/'));
            if cut < a {
                if cut < a - 2 {
                    assert(is_upper_hex(core[cut]));
                }
            } else if cut < a + h {
                assert(is_hex_or_space(core[cut]));
            }
        }
    }
    // The address column ends at the colon of the address.
    let start = if shows_address(address, config) {
        a - 1
    } else {
        0
    };
    let body = after_char(kept, ':');
    assert(body == core.subrange(start, cut)) by {
        if shows_address(address, config) {
            assert forall|j: int| 0 <= j < a - 2 implies kept[j] != ':' by {
                assert(is_upper_hex(core[j]));
            }
            assert(kept[a - 2] == ':');
            lemma_first_index_of_is(kept, ':', a - 2);
            lemma_first_index_of(kept, ':');
            assert(kept.skip(a - 1) =~= core.subrange(start, cut));
        } else {
            assert forall|j: int| 0 <= j < kept.len() implies kept[j] != ':' by {
                if j < h {
                    assert(is_hex_or_space(core[j]));
                } else if config.show_preview && h + 2 <= j < n - 1 {
                    let p = j - h - 2;
                    let stop = first_index_of_pair(preview, '/', '/');
                    lemma_first_index_of_pair(preview, '/', '/');
                    if kept[j] == ':' {
                        if stop <= p {
                            assert(pair_at(preview, stop, '/', '/'));
                            assert(core[a + h + 2 + stop] == preview[stop]);
                            assert(core[a + h + 2 + (stop + 1)] == preview[stop + 1]);
                            assert(pair_at(core, h + 2 + stop, '/', '/'));
                            assert(false);
                        }
                        assert(core[a + h + 2 + p] == preview[p]);
                        assert(before_pair(preview, '/', '/')[p] == ':');
                        assert(false);
                    }
                }
            }
            lemma_first_index_of(kept, ':');
            assert(kept =~= core.subrange(start, cut));
        }
    }
    // The preview starts at its bracket.
    let end = if config.show_preview {
        a + h + 1
    } else {
        a + h
    };
    let region = before_char(body, '[');
    assert(region == core.subrange(start, end)) by {
        assert forall|j: int| 0 <= j < end - start implies body[j] != '[' by {
            let i = start + j;
            assert(body[j] == core[i]);
            if a <= i < a + h {
                assert(is_hex_or_space(core[i]));
            }
        }
        lemma_first_index_of_is(body, '[', end - start);
        assert(body.take(end - start) =~= core.subrange(start, end));
    }
    // What is left holds no annotation.
    assert(before_char(region, '|') == region) by {
        assert forall|j: int| 0 <= j < region.len() implies region[j] != '|' by {
            let i = start + j;
            assert(region[j] == core[i]);
            if a <= i < a + h {
                assert(is_hex_or_space(core[i]));
            }
        }
        lemma_first_index_of_is(region, '|', region.len() as int);
        assert(region.take(region.len() as int) =~= region);
    }
    assert(payload_region(core) == region);
    // Around the hex bytes stand spaces only.
    let before = core.subrange(start, a);
    let after = core.subrange(a + h, end);
    assert(region =~= before + hex + after) by {
        assert(core.subrange(a, a + h) == hex);
    }
    lemma_hex_digits_none(before);
    lemma_hex_digits_none(after);
    lemma_hex_digits_concat(before + hex, after);
    lemma_hex_digits_concat(before, hex);
    lemma_hex_digits_of_hex_bytes(data, config.block_length as nat);
    assert(hex_digits_of(before) + hex_digits_of(hex) + hex_digits_of(after) =~= hex_digits_of(
        hex,
    ));
}

/// A line with no hex digit in its payload region decodes to no bytes.
pub(crate) proof fn lemma_no_digits_no_bytes(line: Seq<char>)
    requires
        forall|i: int|
            0 <= i < payload_region(trim(line)).len() ==> !is_hex_digit(
                #[trigger] payload_region(trim(line))[i],
            ),
    ensures
        decoded_line(line) == Ok::<Seq<u8>, Error>(Seq::empty()),
{
    let none = Seq::<char>::empty();
    lemma_hex_digits_none(payload_region(trim(line)));
    assert(trim(none) =~= none);
    assert(bytes_of_hex(none) =~= Seq::<u8>::empty());
}

/// A line for no bytes decodes to no bytes.
pub(crate) proof fn lemma_empty_line_round_trip(address: nat, config: Config)
    ensures
        decoded_line(line_text(address, Seq::empty(), config)) == Ok::<Seq<u8>, Error>(
            Seq::empty(),
        ),
{
    let data = Seq::<u8>::empty();
    let line = line_text(address, data, config);
    let number = address_text(address, config.address_size);
    let w = number.len() as int;
    lemma_address_text_chars(address, config.address_size);
    assert(hex_bytes(data, config.block_length as nat) =~= Seq::<char>::empty());
    assert(preview_chars(data) =~= Seq::<char>::empty());
    let core = if shows_address(address, config) {
        if config.show_preview {
            number + seq![':', ' ', ' ', '[', ']']
        } else {
            number + seq![':']
        }
    } else {
        if config.show_preview {
            seq!['[', ']']
        } else {
            Seq::<char>::empty()
        }
    };
    assert(trim(line) == core) by {
        if shows_address(address, config) {
            assert(is_upper_hex(line[0])) by {
                assert(line[0] == number[0]);
            }
            if config.show_preview {
                assert(line =~= core);
                assert(line.subrange(0, line.len() as int) =~= core);
                lemma_trim_is(line, 0, line.len() as int);
            } else {
                assert(line =~= number + seq![':', ' ']);
                assert(line.subrange(0, line.len() - 1) =~= core);
                lemma_trim_is(line, 0, line.len() - 1);
            }
        } else {
            if config.show_preview {
                assert(line =~= indentation() + seq![' ', '[', ']']);
                assert(line.subrange(11, 13) =~= core);
                lemma_trim_is(line, 11, 13);
            } else {
                assert(line =~= indentation());
                assert(line.subrange(10, 10) =~= core);
                lemma_trim_is(line, 10, 10);
            }
        }
    }
    if core.len() > 0 {
        // No inline comment.
        assert forall|j: int| 0 <= j < core.len() implies !#[trigger] pair_at(
            core,
            j,
            '/',
            '/',
        ) by {
            if j < w && shows_address(address, config) {
                assert(is_upper_hex(number[j]));
            }
        }
        lemma_first_index_of_pair_is(core, '/', '/', core.len() as int);
        assert(before_pair(core, '/', '/') =~= core);
        // What follows the address holds no hex digit.
        let body = after_char(core, ':');
        lemma_first_index_of(core, ':');
        if shows_address(address, config) {
            assert forall|j: int| 0 <= j < w implies core[j] != ':' by {
                assert(is_upper_hex(number[j]));
            }
            lemma_first_index_of_is(core, ':', w);
            assert(body =~= core.skip(w + 1));
        } else {
            lemma_first_index_of_is(core, ':', core.len() as int);
        }
        assert forall|j: int| 0 <= j < body.len() implies !is_hex_digit(body[j]) by {}
        lemma_first_index_of(body, '[');
        let region = before_char(body, '[');
        lemma_first_index_of(region, '|');
        assert forall|i: int| 0 <= i < payload_region(core).len() implies !is_hex_digit(
            #[trigger] payload_region(core)[i],
        ) by {
            assert(payload_region(core)[i] == body[i]);
        }
    }
    lemma_no_digits_no_bytes(line);
}

/// A line holds printable ASCII characters only, and so no line feed
/// before its end.
pub(crate) proof fn lemma_line_text_is_one_line(address: nat, data: Seq<u8>, config: Config)
    requires
        data.len() > 0,
    ensures
        forall|j: int|
            0 <= j < line_text(address, data, config).len() ==> ' ' <= #[trigger] line_text(
                address,
                data,
                config,
            )[j] <= '~',
        !line_text(address, data, config).contains('\n'),
{
    let line = line_text(address, data, config);
    let core = line_core(address, data, config);
    let a = shown_address(address, config).len() as int;
    let h = hex_bytes(data, config.block_length as nat).len() as int;
    lemma_line_core_chars(address, data, config);
    let from: int = if shows_address(address, config) {
        0
    } else {
        10
    };
    assert(line.subrange(from, line.len() as int) =~= core);
    assert forall|j: int| 0 <= j < line.len() implies ' ' <= #[trigger] line[j] <= '~' by {
        if j >= from {
            let i = j - from;
            assert(line[j] == core[i]);
            if i < a - 2 {
                assert(is_upper_hex(core[i]));
            } else if a <= i < a + h {
                assert(is_hex_or_space(core[i]));
            } else if a + h + 2 <= i < core.len() - 1 {
                assert(core[a + h + 2 + (i - a - h - 2)] == preview_chars(data)[i - a - h - 2]);
            }
        }
    }
}

/// A line with a colon, but none among the first `low` characters of its
/// core, gives at most one byte for every two characters that follow those.
pub(crate) proof fn lemma_decoded_line_len(line: Seq<char>, low: int)
    requires
        before_pair(trim(line), '/', '/').contains(':'),
        0 <= low,
        forall|j: int|
            0 <= j < low && j < before_pair(trim(line), '/', '/').len() ==> before_pair(
                trim(line),
                '/',
                '/',
            )[j] != ':',
    ensures
        decoded_line(line) matches Ok(bytes) ==> 2 * bytes.len() <= trim(line).len() - low - 1,
{
    let core = trim(line);
    let kept = before_pair(core, '/', '/');
    lemma_first_index_of_pair(core, '/', '/');
    lemma_first_index_of(kept, ':');
    let first = first_index_of(kept, ':');
    assert(first >= low) by {
        if first < low {
            assert(kept[first] == ':');
        }
    }
    let body = after_char(kept, ':');
    assert(body.len() <= core.len() - low - 1);
    lemma_first_index_of(body, '[');
    let region = before_char(body, '[');
    lemma_first_index_of(region, '|');
    let payload = line_payload(core);
    lemma_hex_digits_len(payload_region(core));
    assert(payload.len() <= body.len());
    let digits = trim(payload);
    lemma_trim(payload);
    assert(digits.len() <= payload.len());
}

} // verus!

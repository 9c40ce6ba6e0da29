//! What holds of addresses, their text and their wire forms.

use crate::address::{
    addresses_encodable, complement, decode_addresses, decode_numbers, encode_addresses,
    encode_numbers, normal_addresses, AddressView,
};
use crate::address::notation::{
    colon_groups, digit_char, digit_run, digit_value, digits_value, dotted_quad, format_fields,
    format_number, is_digit, parse_address, parse_fields, Notation,
};
use crate::binary_stream::BinaryStreamError;
use crate::endian::{
    encode_uint, lemma_encode_uint_len, lemma_radix_values, lemma_uint_round_trip, radix,
    Endianness,
};
use vstd::prelude::*;

verus! {

/// A text that parses holds as many numbers as were asked for.
pub proof fn lemma_parse_fields_len(text: Seq<char>, at: int, fields: nat, notation: Notation)
    ensures
        parse_fields(text, at, fields, notation) matches Some(values) ==> values.len() == fields,
    decreases fields,
{
    if fields > 1 {
        let count = digit_run(text, at, notation.radix, notation.max_digits + 1);
        lemma_parse_fields_len(text, at + count + 1, (fields - 1) as nat, notation);
    }
}

/// Numbers of `width` bytes each take `width` bytes each.
pub proof fn lemma_encode_numbers_len(values: Seq<nat>, width: nat)
    ensures
        encode_numbers(values, width).len() == values.len() * width,
    decreases values.len(),
{
    if values.len() > 0 {
        lemma_encode_numbers_len(values.drop_last(), width);
        lemma_encode_uint_len(values.last(), width, Endianness::Big);
        assert(values.len() * width == (values.len() - 1) * width + width) by (nonlinear_arith);
    } else {
        assert(values.len() * width == 0) by (nonlinear_arith)
            requires
                values.len() == 0,
        ;
    }
}

/// The wire form of an address is as long as its version says.
pub proof fn lemma_address_len(address: AddressView)
    requires
        address.encodable(),
    ensures
        address.encode().len() == AddressView::wire_len(address.version),
        address.encode().len() <= 29,
        address.encode()[0] == address.version,
{
    if address.version == 4 {
        let values = parse_address(address.address, dotted_quad())->Some_0;
        lemma_parse_fields_len(address.address, 0, 4, dotted_quad());
        lemma_encode_numbers_len(complement(values, 255), 1);
        lemma_encode_uint_len(address.port as nat, 2, Endianness::Big);
    } else if address.version == 6 {
        let values = parse_address(address.address, colon_groups())->Some_0;
        lemma_parse_fields_len(address.address, 0, 8, colon_groups());
        lemma_encode_numbers_len(complement(values, 0xFFFF), 2);
        lemma_encode_uint_len(23, 2, Endianness::Big);
        lemma_encode_uint_len(address.port as nat, 2, Endianness::Big);
        lemma_encode_uint_len(0, 4, Endianness::Big);
    }
}

/// The wire forms of addresses take at most 29 bytes each.
pub proof fn lemma_addresses_len(list: Seq<AddressView>)
    requires
        addresses_encodable(list),
    ensures
        encode_addresses(list).len() <= 29 * list.len(),
    decreases list.len(),
{
    if list.len() > 0 {
        let shorter = list.drop_last();
        assert forall|i: int| 0 <= i < shorter.len() implies (#[trigger] shorter[i]).encodable() by {
            assert(shorter[i] == list[i]);
        }
        lemma_addresses_len(shorter);
        assert(list[list.len() - 1].encodable());
        lemma_address_len(list.last());
    }
}

/// A digit reads back as the value it stands for.
pub proof fn lemma_digit_char_value(value: nat)
    requires
        value < 16,
    ensures
        digit_value(digit_char(value)) == Some(value),
{
}

/// The number that digits spell depends on the digits alone, not on where they
/// stand.
pub proof fn lemma_digits_value_same(
    first: Seq<char>,
    at: int,
    second: Seq<char>,
    other_at: int,
    count: nat,
    radix: nat,
)
    requires
        forall|k: int| 0 <= k < count ==> #[trigger] first[at + k] == second[other_at + k],
    ensures
        digits_value(first, at, count, radix) == digits_value(second, other_at, count, radix),
    decreases count,
{
    if count > 0 {
        lemma_digits_value_same(first, at, second, other_at, (count - 1) as nat, radix);
        assert(first[at + (count - 1)] == second[other_at + (count - 1)]);
    }
}

/// Where `count` digits stand at `at` and no digit follows them, the run of digits
/// there has length `count`, as long as the limit allows for one more.
pub proof fn lemma_digit_run(text: Seq<char>, at: int, count: nat, radix: nat, limit: nat)
    requires
        0 <= at,
        at + count <= text.len(),
        count < limit,
        forall|k: int| 0 <= k < count ==> is_digit(#[trigger] text[at + k], radix),
        at + count == text.len() || !is_digit(text[at + count], radix),
    ensures
        digit_run(text, at, radix, limit) == count,
    decreases count,
{
    if count > 0 {
        assert(is_digit(text[at + 0], radix));
        assert forall|k: int| 0 <= k < count - 1 implies is_digit(
            #[trigger] text[(at + 1) + k],
            radix,
        ) by {
            assert(text[(at + 1) + k] == text[at + (k + 1)]);
        }
        lemma_digit_run(text, at + 1, (count - 1) as nat, radix, (limit - 1) as nat);
    }
}

/// The digits of a number are digits, no more than the notation allows, and spell
/// the number.
pub proof fn lemma_format_number(value: nat, notation: Notation)
    requires
        notation == dotted_quad() || notation == colon_groups(),
        value <= notation.max_value,
    ensures
        1 <= format_number(value, notation.radix).len() <= notation.max_digits,
        forall|k: int|
            0 <= k < format_number(value, notation.radix).len() ==> is_digit(
                #[trigger] format_number(value, notation.radix)[k],
                notation.radix,
            ),
        digits_value(
            format_number(value, notation.radix),
            0,
            format_number(value, notation.radix).len(),
            notation.radix,
        ) == value,
{
    lemma_format_digits(value, notation.radix);
    reveal_with_fuel(format_number, 6);
}

/// The digits of a number are digits and spell the number; a number below
/// `radix^n` has at most `n` of them.
proof fn lemma_format_digits(value: nat, radix: nat)
    requires
        radix == 10 || radix == 16,
    ensures
        format_number(value, radix).len() >= 1,
        forall|k: int|
            0 <= k < format_number(value, radix).len() ==> is_digit(
                #[trigger] format_number(value, radix)[k],
                radix,
            ),
        digits_value(format_number(value, radix), 0, format_number(value, radix).len(), radix)
            == value,
        value < radix ==> format_number(value, radix).len() == 1,
        value < radix * radix ==> format_number(value, radix).len() <= 2,
        value < radix * radix * radix ==> format_number(value, radix).len() <= 3,
        value < radix * radix * radix * radix ==> format_number(value, radix).len() <= 4,
    decreases value,
{
    let text = format_number(value, radix);
    if value >= radix {
        let head = format_number(value / radix, radix);
        let last = digit_char(value % radix);
        lemma_format_digits(value / radix, radix);
        assert(text == head.push(last));
        lemma_digit_char_value(value % radix);
        assert forall|k: int| 0 <= k < text.len() implies is_digit(#[trigger] text[k], radix) by {
            if k < head.len() {
                assert(text[k] == head[k]);
            }
        }
        lemma_digits_value_same(text, 0, head, 0, head.len(), radix);
        assert(value == (value / radix) * radix + value % radix) by {
            vstd::arithmetic::div_mod::lemma_fundamental_div_mod(value as int, radix as int);
            assert((value / radix) * radix == radix * (value / radix)) by (nonlinear_arith);
        }
        if value < radix * radix {
            assert(value / radix < radix) by (nonlinear_arith)
                requires
                    value < radix * radix,
                    value == (value / radix) * radix + value % radix,
                    0 <= value % radix,
                    radix > 0,
            ;
        }
        if value < radix * radix * radix {
            assert(value / radix < radix * radix) by (nonlinear_arith)
                requires
                    value < radix * radix * radix,
                    value == (value / radix) * radix + value % radix,
                    0 <= value % radix,
                    radix > 0,
            ;
        }
        if value < radix * radix * radix * radix {
            assert(value / radix < radix * radix * radix) by (nonlinear_arith)
                requires
                    value < radix * radix * radix * radix,
                    value == (value / radix) * radix + value % radix,
                    0 <= value % radix,
                    radix > 0,
            ;
        }
    } else {
        lemma_digit_char_value(value);
        assert(text =~= seq![digit_char(value)]);
        reveal_with_fuel(digits_value, 2);
    }
}

/// The text of two numbers or more starts with the first number and a separator.
pub proof fn lemma_format_fields_front(values: Seq<nat>, notation: Notation)
    requires
        values.len() >= 2,
    ensures
        format_fields(values, notation) == format_number(values[0], notation.radix).push(
            notation.separator,
        ) + format_fields(values.drop_first(), notation),
    decreases values.len(),
{
    let first = format_number(values[0], notation.radix);
    let last = format_number(values.last(), notation.radix);
    let shorter = values.drop_last();
    if values.len() == 2 {
        assert(shorter.len() == 1);
        assert(values.drop_first().len() == 1);
        assert(shorter[0] == values[0]);
        assert(values.drop_first()[0] == values.last());
        assert(format_fields(shorter, notation) == first);
        assert(format_fields(values.drop_first(), notation) == last);
        assert(format_fields(values, notation) == format_fields(shorter, notation).push(
            notation.separator,
        ) + last);
        assert(format_fields(values, notation) =~= first.push(notation.separator) + last);
    } else {
        lemma_format_fields_front(shorter, notation);
        assert(shorter[0] == values[0]);
        assert(shorter.drop_first() =~= values.drop_first().drop_last());
        assert(values.drop_first().last() == values.last());
        assert(format_fields(values, notation) =~= first.push(notation.separator) + format_fields(
            values.drop_first(),
            notation,
        ));
    }
}

/// The separators are no digits.
proof fn lemma_separator_is_no_digit(notation: Notation)
    requires
        notation == dotted_quad() || notation == colon_groups(),
    ensures
        !is_digit(notation.separator, notation.radix),
{
}

/// Numbers that were written in a notation read back from their text, wherever it
/// stands at the end of a longer text.
pub proof fn lemma_parse_formatted(before: Seq<char>, values: Seq<nat>, notation: Notation)
    requires
        notation == dotted_quad() || notation == colon_groups(),
        values.len() >= 1,
        forall|i: int| 0 <= i < values.len() ==> values[i] <= notation.max_value,
    ensures
        parse_fields(
            before + format_fields(values, notation),
            before.len() as int,
            values.len(),
            notation,
        ) == Some(values),
    decreases values.len(),
{
    let text = before + format_fields(values, notation);
    let at = before.len() as int;
    let first = format_number(values[0], notation.radix);
    let count = first.len();
    lemma_format_number(values[0], notation);
    lemma_separator_is_no_digit(notation);
    assert forall|k: int| 0 <= k < count implies #[trigger] text[at + k] == first[0 + k] by {
        if values.len() >= 2 {
            lemma_format_fields_front(values, notation);
        }
    }
    assert forall|k: int| 0 <= k < count implies is_digit(#[trigger] text[at + k], notation.radix) by {
        assert(text[at + k] == first[0 + k]);
        assert(is_digit(first[k], notation.radix));
    }
    lemma_digits_value_same(text, at, first, 0, count, notation.radix);
    if values.len() == 1 {
        assert(at + count == text.len());
        lemma_digit_run(text, at, count, notation.radix, notation.max_digits + 1);
        assert(seq![values[0]] =~= values);
    } else {
        lemma_format_fields_front(values, notation);
        let rest = values.drop_first();
        assert(text[at + count] == notation.separator);
        lemma_digit_run(text, at, count, notation.radix, notation.max_digits + 1);
        assert forall|i: int| 0 <= i < rest.len() implies rest[i] <= notation.max_value by {
            assert(rest[i] == values[i + 1]);
        }
        let longer = before + first.push(notation.separator);
        lemma_parse_formatted(longer, rest, notation);
        assert(text =~= longer + format_fields(rest, notation));
        assert(longer.len() == at + count + 1);
        assert(seq![values[0]] + rest =~= values);
    }
}

/// An address that was written in a notation reads back as its numbers.
pub proof fn lemma_parse_address_of_formatted(values: Seq<nat>, notation: Notation)
    requires
        notation == dotted_quad() || notation == colon_groups(),
        values.len() == notation.fields,
        forall|i: int| 0 <= i < values.len() ==> values[i] <= notation.max_value,
    ensures
        parse_address(format_fields(values, notation), notation) == Some(values),
{
    lemma_parse_formatted(Seq::empty(), values, notation);
    assert(Seq::<char>::empty() + format_fields(values, notation) =~= format_fields(
        values,
        notation,
    ));
}

/// A text that parses holds numbers within the bounds of its notation.
pub proof fn lemma_parse_fields_bound(
    text: Seq<char>,
    at: int,
    fields: nat,
    notation: Notation,
    i: int,
)
    requires
        parse_fields(text, at, fields, notation) is Some,
        0 <= i < fields,
    ensures
        parse_fields(text, at, fields, notation)->Some_0.len() == fields,
        parse_fields(text, at, fields, notation)->Some_0[i] <= notation.max_value,
    decreases fields,
{
    lemma_parse_fields_len(text, at, fields, notation);
    if fields > 1 {
        let count = digit_run(text, at, notation.radix, notation.max_digits + 1);
        lemma_parse_fields_len(text, at + count + 1, (fields - 1) as nat, notation);
        if i > 0 {
            lemma_parse_fields_bound(text, at + count + 1, (fields - 1) as nat, notation, i - 1);
        }
    }
}

/// The wire form of the number with the given index stands at its place among the
/// wire forms of all.
pub proof fn lemma_encode_numbers_index(values: Seq<nat>, width: nat, i: int)
    requires
        0 <= i < values.len(),
    ensures
        encode_numbers(values, width).len() == values.len() * width,
        0 <= i * width <= (i + 1) * width <= values.len() * width,
        encode_numbers(values, width).subrange(i * width, (i + 1) * width) == encode_uint(
            values[i],
            width,
            Endianness::Big,
        ),
    decreases values.len(),
{
    lemma_encode_numbers_len(values, width);
    let shorter = values.drop_last();
    lemma_encode_numbers_len(shorter, width);
    lemma_encode_uint_len(values.last(), width, Endianness::Big);
    let all = encode_numbers(values, width);
    assert(i * width + width == (i + 1) * width) by (nonlinear_arith);
    assert(0 <= i * width) by (nonlinear_arith)
        requires
            0 <= i,
            0 <= width,
    ;
    assert((i + 1) * width <= values.len() * width) by (nonlinear_arith)
        requires
            i + 1 <= values.len(),
            0 <= width,
    ;
    assert(shorter.len() * width == values.len() * width - width) by (nonlinear_arith)
        requires
            shorter.len() == values.len() - 1,
    ;
    if i == values.len() - 1 {
        assert(all.subrange(i * width, (i + 1) * width) =~= encode_uint(
            values[i],
            width,
            Endianness::Big,
        ));
    } else {
        lemma_encode_numbers_index(shorter, width, i);
        assert(shorter[i] == values[i]);
        assert((i + 1) * width <= shorter.len() * width) by (nonlinear_arith)
            requires
                i + 1 <= shorter.len(),
                0 <= width,
        ;
        assert(all.subrange(i * width, (i + 1) * width) =~= encode_numbers(
            shorter,
            width,
        ).subrange(i * width, (i + 1) * width));
    }
}

/// The numbers that stand on the wire read back as what was written, complemented
/// twice.
proof fn lemma_decode_written_numbers(
    bytes: Seq<u8>,
    at: int,
    values: Seq<nat>,
    width: nat,
    limit: nat,
)
    requires
        0 <= at,
        (width == 1 && limit == 255) || (width == 2 && limit == 0xFFFF),
        forall|i: int| 0 <= i < values.len() ==> values[i] <= limit,
        at + values.len() * width <= bytes.len(),
        bytes.subrange(at, at + values.len() * width) == encode_numbers(
            complement(values, limit),
            width,
        ),
    ensures
        complement(decode_numbers(bytes, at, values.len(), width), limit) == values,
{
    let written = complement(values, limit);
    let read = decode_numbers(bytes, at, values.len(), width);
    lemma_radix_values();
    assert forall|i: int| 0 <= i < values.len() implies read[i] == written[i] by {
        lemma_encode_numbers_index(written, width, i);
        let piece = encode_uint(written[i], width, Endianness::Big);
        assert(bytes.subrange(at + i * width, at + (i + 1) * width) =~= encode_numbers(
            written,
            width,
        ).subrange(i * width, (i + 1) * width));
        lemma_uint_round_trip(written[i], width, Endianness::Big);
    }
    assert(complement(read, limit) =~= values);
}

/// An address that has a wire form reads back from it in its normal form, wherever
/// the wire form stands.
pub proof fn lemma_address_round_trip(address: AddressView, before: Seq<u8>, after: Seq<u8>)
    requires
        address.encodable(),
    ensures
        AddressView::decode(before + address.encode() + after, before.len() as int) == Ok::<
            (AddressView, int),
            BinaryStreamError,
        >((address.normal(), (before.len() + address.encode().len()) as int)),
{
    let written = address.encode();
    let bytes = before + written + after;
    let offset = before.len() as int;
    lemma_address_len(address);
    lemma_radix_values();
    assert(bytes[offset] == written[0]);
    if address.version == 4 {
        let values = parse_address(address.address, dotted_quad())->Some_0;
        lemma_parse_fields_len(address.address, 0, 4, dotted_quad());
        assert forall|i: int| 0 <= i < values.len() implies values[i] <= 255 by {
            lemma_parse_fields_bound(address.address, 0, 4, dotted_quad(), i);
        }
        let numbers = encode_numbers(complement(values, 255), 1);
        lemma_encode_numbers_len(complement(values, 255), 1);
        let port = encode_uint(address.port as nat, 2, Endianness::Big);
        lemma_encode_uint_len(address.port as nat, 2, Endianness::Big);
        lemma_uint_round_trip(address.port as nat, 2, Endianness::Big);
        assert(written =~= seq![4u8] + numbers + port);
        assert(bytes.subrange(offset + 1, offset + 1 + 4 * 1) =~= numbers);
        assert(bytes.subrange(offset + 5, offset + 7) =~= port);
        lemma_decode_written_numbers(bytes, offset + 1, values, 1, 255);
    } else if address.version == 6 {
        let values = parse_address(address.address, colon_groups())->Some_0;
        lemma_parse_fields_len(address.address, 0, 8, colon_groups());
        assert forall|i: int| 0 <= i < values.len() implies values[i] <= 0xFFFF by {
            lemma_parse_fields_bound(address.address, 0, 8, colon_groups(), i);
        }
        let family = encode_uint(23, 2, Endianness::Big);
        let port = encode_uint(address.port as nat, 2, Endianness::Big);
        let zeros = encode_uint(0, 4, Endianness::Big);
        let numbers = encode_numbers(complement(values, 0xFFFF), 2);
        lemma_encode_numbers_len(complement(values, 0xFFFF), 2);
        lemma_encode_uint_len(23, 2, Endianness::Big);
        lemma_encode_uint_len(address.port as nat, 2, Endianness::Big);
        lemma_encode_uint_len(0, 4, Endianness::Big);
        lemma_uint_round_trip(address.port as nat, 2, Endianness::Big);
        assert(written =~= seq![6u8] + family + port + zeros + numbers + zeros);
        assert(bytes.subrange(offset + 3, offset + 5) =~= port);
        assert(bytes.subrange(offset + 9, offset + 9 + 8 * 2) =~= numbers);
        lemma_decode_written_numbers(bytes, offset + 9, values, 2, 0xFFFF);
    } else {
    }
}

/// An address in normal form reads back from its wire form as itself, and the
/// normal form of an address is in normal form.
pub proof fn lemma_normal_address(address: AddressView)
    requires
        address.encodable(),
    ensures
        address.normal().encodable(),
        address.normal().normal() == address.normal(),
        address.normal().encode() == address.encode() || !(address.version == 4
            || address.version == 6),
{
    if address.version == 4 {
        let values = parse_address(address.address, dotted_quad())->Some_0;
        lemma_parse_fields_len(address.address, 0, 4, dotted_quad());
        assert forall|i: int| 0 <= i < values.len() implies values[i] <= 255 by {
            lemma_parse_fields_bound(address.address, 0, 4, dotted_quad(), i);
        }
        lemma_parse_address_of_formatted(values, dotted_quad());
    } else if address.version == 6 {
        let values = parse_address(address.address, colon_groups())->Some_0;
        lemma_parse_fields_len(address.address, 0, 8, colon_groups());
        assert forall|i: int| 0 <= i < values.len() implies values[i] <= 0xFFFF by {
            lemma_parse_fields_bound(address.address, 0, 8, colon_groups(), i);
        }
        lemma_parse_address_of_formatted(values, colon_groups());
    }
}

/// The wire forms of addresses start with the wire form of the first.
pub proof fn lemma_encode_addresses_front(list: Seq<AddressView>)
    requires
        list.len() > 0,
    ensures
        encode_addresses(list) == list[0].encode() + encode_addresses(list.drop_first()),
    decreases list.len(),
{
    if list.len() == 1 {
        assert(list.drop_last() =~= Seq::<AddressView>::empty());
        assert(list.drop_first() =~= Seq::<AddressView>::empty());
        assert(encode_addresses(list) =~= list[0].encode() + encode_addresses(list.drop_first()));
    } else {
        let shorter = list.drop_last();
        lemma_encode_addresses_front(shorter);
        assert(shorter.drop_first() =~= list.drop_first().drop_last());
        assert(list.drop_first().last() == list.last());
        assert(shorter[0] == list[0]);
        assert(encode_addresses(list) =~= list[0].encode() + encode_addresses(list.drop_first()));
    }
}

/// Addresses that have wire forms read back from them in their normal forms, one
/// after the other.
pub proof fn lemma_addresses_round_trip(list: Seq<AddressView>, before: Seq<u8>, after: Seq<u8>)
    requires
        addresses_encodable(list),
    ensures
        decode_addresses(
            before + encode_addresses(list) + after,
            before.len() as int,
            list.len(),
        ) == Ok::<(Seq<AddressView>, int), BinaryStreamError>(
            (normal_addresses(list), (before.len() + encode_addresses(list).len()) as int),
        ),
    decreases list.len(),
{
    let bytes = before + encode_addresses(list) + after;
    if list.len() == 0 {
        assert(normal_addresses(list) =~= Seq::<AddressView>::empty());
    } else {
        let first = list[0];
        let rest = list.drop_first();
        lemma_encode_addresses_front(list);
        assert(first.encodable());
        assert forall|i: int| 0 <= i < rest.len() implies (#[trigger] rest[i]).encodable() by {
            assert(rest[i] == list[i + 1]);
        }
        lemma_address_round_trip(first, before, encode_addresses(rest) + after);
        assert(bytes =~= before + first.encode() + (encode_addresses(rest) + after));
        lemma_addresses_round_trip(rest, before + first.encode(), after);
        assert(bytes =~= (before + first.encode()) + encode_addresses(rest) + after);
        assert(seq![first.normal()] + normal_addresses(rest) =~= normal_addresses(list));
    }
}

/// The wire forms of IPv4 addresses take seven bytes each.
pub proof fn lemma_ipv4_addresses_len(list: Seq<AddressView>)
    requires
        addresses_encodable(list),
        forall|i: int| 0 <= i < list.len() ==> (#[trigger] list[i]).version == 4,
    ensures
        encode_addresses(list).len() == 7 * list.len(),
    decreases list.len(),
{
    if list.len() > 0 {
        let shorter = list.drop_last();
        assert forall|i: int| 0 <= i < shorter.len() implies (#[trigger] shorter[i]).encodable()
            && shorter[i].version == 4 by {
            assert(shorter[i] == list[i]);
        }
        lemma_ipv4_addresses_len(shorter);
        assert(list[list.len() - 1].encodable());
        assert(list[list.len() - 1].version == 4);
        lemma_address_len(list.last());
    }
}

} // verus!

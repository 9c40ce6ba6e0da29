//! How addresses are written as text: four decimal octets with dots between them, or
//! eight hexadecimal groups with colons between them.

use crate::endian::radix;
use vstd::prelude::*;
use vstd::string::*;

verus! {

/// How the numbers of an address are written.
pub struct Notation {
    /// 10 or 16.
    pub radix: nat,
    /// The most digits a number may have.
    pub max_digits: nat,
    /// The largest number allowed.
    pub max_value: nat,
    /// What stands between two numbers.
    pub separator: char,
    /// How many numbers make an address.
    pub fields: nat,
}

/// Four decimal octets with dots between them.
pub open spec fn dotted_quad() -> Notation {
    Notation { radix: 10, max_digits: 3, max_value: 255, separator: '.', fields: 4 }
}

/// Eight hexadecimal groups with colons between them.
pub open spec fn colon_groups() -> Notation {
    Notation { radix: 16, max_digits: 4, max_value: 0xFFFF, separator: ':', fields: 8 }
}

/// The value of a hexadecimal digit, in either case.
pub open spec fn digit_value(c: char) -> Option<nat> {
    if c == '0' {
        Some(0)
    } else if c == '1' {
        Some(1)
    } else if c == '2' {
        Some(2)
    } else if c == '3' {
        Some(3)
    } else if c == '4' {
        Some(4)
    } else if c == '5' {
        Some(5)
    } else if c == '6' {
        Some(6)
    } else if c == '7' {
        Some(7)
    } else if c == '8' {
        Some(8)
    } else if c == '9' {
        Some(9)
    } else if c == 'a' || c == 'A' {
        Some(10)
    } else if c == 'b' || c == 'B' {
        Some(11)
    } else if c == 'c' || c == 'C' {
        Some(12)
    } else if c == 'd' || c == 'D' {
        Some(13)
    } else if c == 'e' || c == 'E' {
        Some(14)
    } else if c == 'f' || c == 'F' {
        Some(15)
    } else {
        None
    }
}

/// The digit, in lower case, that stands for a value below 16.
pub open spec fn digit_char(value: nat) -> char {
    if value == 0 {
        '0'
    } else if value == 1 {
        '1'
    } else if value == 2 {
        '2'
    } else if value == 3 {
        '3'
    } else if value == 4 {
        '4'
    } else if value == 5 {
        '5'
    } else if value == 6 {
        '6'
    } else if value == 7 {
        '7'
    } else if value == 8 {
        '8'
    } else if value == 9 {
        '9'
    } else if value == 10 {
        'a'
    } else if value == 11 {
        'b'
    } else if value == 12 {
        'c'
    } else if value == 13 {
        'd'
    } else if value == 14 {
        'e'
    } else {
        'f'
    }
}

/// Whether `c` is a digit of the given radix.
pub open spec fn is_digit(c: char, radix: nat) -> bool {
    digit_value(c) matches Some(v) && v < radix
}

/// How many digits of the given radix stand at `at`, counted up to `limit`.
pub open spec fn digit_run(text: Seq<char>, at: int, radix: nat, limit: nat) -> nat
    decreases limit,
{
    if limit > 0 && 0 <= at < text.len() && is_digit(text[at], radix) {
        1 + digit_run(text, at + 1, radix, (limit - 1) as nat)
    } else {
        0
    }
}

/// The number that the `count` digits at `at` spell.
pub open spec fn digits_value(text: Seq<char>, at: int, count: nat, radix: nat) -> nat
    decreases count,
{
    if count == 0 {
        0
    } else {
        digits_value(text, at, (count - 1) as nat, radix) * radix + digit_value(
            text[at + count - 1],
        )->Some_0
    }
}

/// The `fields` numbers that fill `text` from `at` to its end, with the separator
/// between them; nothing where the text is anything else.
pub open spec fn parse_fields(text: Seq<char>, at: int, fields: nat, notation: Notation) -> Option<
    Seq<nat>,
>
    decreases fields,
{
    if fields == 0 {
        None
    } else {
        let count = digit_run(text, at, notation.radix, notation.max_digits + 1);
        let value = digits_value(text, at, count, notation.radix);
        let end = at + count;
        if count < 1 || count > notation.max_digits || value > notation.max_value {
            None
        } else if fields == 1 {
            if end == text.len() {
                Some(seq![value])
            } else {
                None
            }
        } else if end < text.len() && text[end] == notation.separator {
            match parse_fields(text, end + 1, (fields - 1) as nat, notation) {
                Some(rest) => Some(seq![value] + rest),
                None => None,
            }
        } else {
            None
        }
    }
}

/// The numbers of an address written in the given notation.
pub open spec fn parse_address(text: Seq<char>, notation: Notation) -> Option<Seq<nat>> {
    parse_fields(text, 0, notation.fields, notation)
}

/// The digits of `value`, without leading zeros.
pub open spec fn format_number(value: nat, radix: nat) -> Seq<char>
    decreases value,
{
    if radix == 16 && value >= 16 {
        format_number(value / 16, radix).push(digit_char(value % 16))
    } else if radix == 10 && value >= 10 {
        format_number(value / 10, radix).push(digit_char(value % 10))
    } else {
        seq![digit_char(value)]
    }
}

/// The numbers written one after the other with the separator between them.
pub open spec fn format_fields(values: Seq<nat>, notation: Notation) -> Seq<char>
    decreases values.len(),
{
    if values.len() == 0 {
        Seq::empty()
    } else if values.len() == 1 {
        format_number(values[0], notation.radix)
    } else {
        format_fields(values.drop_last(), notation).push(notation.separator) + format_number(
            values.last(),
            notation.radix,
        )
    }
}

/// The value of `c` as a digit of the given radix.
fn digit_of(c: char, radix: u32) -> (value: Option<u32>)
    requires
        radix == 10 || radix == 16,
    ensures
        value is Some <==> is_digit(c, radix as nat),
        value matches Some(v) ==> digit_value(c) == Some(v as nat) && v < radix,
{
    let value: Option<u32> = if c == '0' {
        Some(0)
    } else if c == '1' {
        Some(1)
    } else if c == '2' {
        Some(2)
    } else if c == '3' {
        Some(3)
    } else if c == '4' {
        Some(4)
    } else if c == '5' {
        Some(5)
    } else if c == '6' {
        Some(6)
    } else if c == '7' {
        Some(7)
    } else if c == '8' {
        Some(8)
    } else if c == '9' {
        Some(9)
    } else if c == 'a' || c == 'A' {
        Some(10)
    } else if c == 'b' || c == 'B' {
        Some(11)
    } else if c == 'c' || c == 'C' {
        Some(12)
    } else if c == 'd' || c == 'D' {
        Some(13)
    } else if c == 'e' || c == 'E' {
        Some(14)
    } else if c == 'f' || c == 'F' {
        Some(15)
    } else {
        None
    };
    match value {
        Some(v) => if v < radix {
            Some(v)
        } else {
            None
        },
        None => None,
    }
}

/// The one-character text of a digit.
fn digit_text(value: u32) -> (text: &'static str)
    requires
        value < 16,
    ensures
        text@ == seq![digit_char(value as nat)],
{
    proof {
        reveal_strlit("0");
        reveal_strlit("1");
        reveal_strlit("2");
        reveal_strlit("3");
        reveal_strlit("4");
        reveal_strlit("5");
        reveal_strlit("6");
        reveal_strlit("7");
        reveal_strlit("8");
        reveal_strlit("9");
        reveal_strlit("a");
        reveal_strlit("b");
        reveal_strlit("c");
        reveal_strlit("d");
        reveal_strlit("e");
        reveal_strlit("f");
    }
    let text = if value == 0 {
        "0"
    } else if value == 1 {
        "1"
    } else if value == 2 {
        "2"
    } else if value == 3 {
        "3"
    } else if value == 4 {
        "4"
    } else if value == 5 {
        "5"
    } else if value == 6 {
        "6"
    } else if value == 7 {
        "7"
    } else if value == 8 {
        "8"
    } else if value == 9 {
        "9"
    } else if value == 10 {
        "a"
    } else if value == 11 {
        "b"
    } else if value == 12 {
        "c"
    } else if value == 13 {
        "d"
    } else if value == 14 {
        "e"
    } else {
        "f"
    };
    assert(text@ =~= seq![digit_char(value as nat)]);
    text
}

/// Appends the digits of `value` to `text`.
fn push_number(text: &mut String, value: u32, radix: u32)
    requires
        radix == 10 || radix == 16,
        value <= 0xFFFF,
    ensures
        final(text)@ == old(text)@ + format_number(value as nat, radix as nat),
    decreases value,
{
    if value < radix {
        text.append(digit_text(value));
    } else {
        push_number(text, value / radix, radix);
        text.append(digit_text(value % radix));
        proof {
            assert(final(text)@ =~= old(text)@ + format_number(value as nat, radix as nat));
        }
    }
}

/// The numbers of a text in dotted-quad or colon-group notation.
pub(crate) fn parse_text(text: &str, hexadecimal: bool) -> (values: Option<Vec<u32>>)
    ensures
        ({
            let notation = if hexadecimal {
                colon_groups()
            } else {
                dotted_quad()
            };
            &&& values is Some <==> parse_address(text@, notation) is Some
            &&& values matches Some(found) ==> {
                &&& Seq::new(found@.len(), |i: int| found@[i] as nat) == parse_address(
                    text@,
                    notation,
                )->Some_0
                &&& found@.len() == notation.fields
                &&& forall|i: int| 0 <= i < found@.len() ==> #[trigger] found@[i] <= notation.max_value
            }
        }),
{
    let ghost notation = if hexadecimal {
        colon_groups()
    } else {
        dotted_quad()
    };
    let radix: u32 = if hexadecimal {
        16
    } else {
        10
    };
    let max_digits: usize = if hexadecimal {
        4
    } else {
        3
    };
    let max_value: u32 = if hexadecimal {
        0xFFFF
    } else {
        255
    };
    let separator: char = if hexadecimal {
        ':'
    } else {
        '.'
    };
    let fields: usize = if hexadecimal {
        8
    } else {
        4
    };
    let len: usize = text.unicode_len();
    let mut values: Vec<u32> = Vec::new();
    let mut at: usize = 0;
    let mut left: usize = fields;
    while left > 0
        invariant
            notation == (if hexadecimal {
                colon_groups()
            } else {
                dotted_quad()
            }),
            radix == notation.radix,
            max_digits == notation.max_digits,
            max_value == notation.max_value,
            separator == notation.separator,
            radix == 10 || radix == 16,
            max_digits <= 4,
            max_value <= 0xFFFF,
            len == text@.len(),
            at <= len,
            left <= fields,
            fields == notation.fields,
            fields <= 8,
            values@.len() + left == fields,
            forall|i: int| 0 <= i < values@.len() ==> #[trigger] values@[i] <= max_value,
            left > 0 ==> parse_address(text@, notation) == (match parse_fields(
                text@,
                at as int,
                left as nat,
                notation,
            ) {
                Some(rest) => Some(Seq::new(values@.len(), |i: int| values@[i] as nat) + rest),
                None => None::<Seq<nat>>,
            }),
            left == 0 ==> parse_address(text@, notation) == Some(
                Seq::new(values@.len(), |i: int| values@[i] as nat),
            ),
        decreases left,
    {
        let ghost start = at as int;
        let ghost before = Seq::new(values@.len(), |i: int| values@[i] as nat);
        let mut count: usize = 0;
        let mut value: u32 = 0;
while count <= max_digits && at < len && digit_of(text.get_char(at), radix).is_some()
            invariant
                radix == notation.radix,
                max_digits == notation.max_digits,
                radix == 10 || radix == 16,
                max_digits <= 4,
                len == text@.len(),
                start + count == at,
                at <= len,
                count <= max_digits + 1,
                value == digits_value(text@, start, count as nat, radix as nat),
                forall|k: int| start <= k < at ==> is_digit(#[trigger] text@[k], radix as nat),
                value < 0x10_0000,
                count <= 4 ==> value < 0x1_0000,
                digit_run(text@, start, radix as nat, (max_digits + 1) as nat) == count + digit_run(
                    text@,
                    at as int,
                    radix as nat,
                    (max_digits + 1 - count) as nat,
                ),
            decreases len - at,
        {
            let d: u32 = match digit_of(text.get_char(at), radix) {
                Some(d) => d,
                None => 0,
            };
            proof {
                lemma_digits_bound(text@, start, count as nat, radix as nat);
            }
            value = value * radix + d;
            count += 1;
            at += 1;
            proof {
                lemma_digits_bound(text@, start, count as nat, radix as nat);
                lemma_radix_powers();
            }
        }
        proof {
            assert(digit_run(text@, start, radix as nat, (max_digits + 1) as nat) == count);
        }
        if count < 1 || count > max_digits || value > max_value {
            return None;
        }
        values.push(value);
        proof {
            assert(Seq::new(values@.len(), |i: int| values@[i] as nat) =~= before.push(
                value as nat,
            ));
        }
        let ghost pushed = values@.len();
        if left == 1 {
            if at != len {
                return None;
            }
            proof {
                assert(before + seq![value as nat] =~= before.push(value as nat));
            }
            left = 0;
        } else {
            if at >= len {
                return None;
            }
            let c: char = text.get_char(at);
            if c != separator {
                return None;
            }
            at += 1;
            left -= 1;
            proof {
                match parse_fields(text@, at as int, left as nat, notation) {
                    Some(rest) => {
                        assert(before + (seq![value as nat] + rest) =~= before.push(value as nat)
                            + rest);
                    },
                    None => {},
                }
            }
        }
    }
    Some(values)
}

/// `16^4`, `16^5`, `10^3` and `10^4`: bounds on numbers of few digits.
proof fn lemma_radix_powers()
    ensures
        16 * 16 * 16 * 16 == 0x1_0000,
        16 * 16 * 16 * 16 * 16 == 0x10_0000,
{
}

/// A number of `count` digits is below `radix^count`; here for up to five digits.
proof fn lemma_digits_bound(text: Seq<char>, at: int, count: nat, radix: nat)
    requires
        radix == 10 || radix == 16,
        count <= 5,
        0 <= at,
        at + count <= text.len(),
        forall|k: int| at <= k < at + count ==> is_digit(#[trigger] text[k], radix),
    ensures
        count == 0 ==> digits_value(text, at, count, radix) == 0,
        count == 1 ==> digits_value(text, at, count, radix) < 16,
        count == 2 ==> digits_value(text, at, count, radix) < 16 * 16,
        count == 3 ==> digits_value(text, at, count, radix) < 16 * 16 * 16,
        count == 4 ==> digits_value(text, at, count, radix) < 16 * 16 * 16 * 16,
        count == 5 ==> digits_value(text, at, count, radix) < 16 * 16 * 16 * 16 * 16,
    decreases count,
{
    if count > 0 {
        lemma_digits_bound(text, at, (count - 1) as nat, radix);
        assert(is_digit(text[at + count - 1], radix));
    }
}

/// The text of the numbers in dotted-quad or colon-group notation.
pub(crate) fn format_text(values: &Vec<u32>, hexadecimal: bool) -> (text: String)
    requires
        values@.len() >= 1,
        forall|i: int| 0 <= i < values@.len() ==> values@[i] <= 0xFFFF,
    ensures
        text@ == format_fields(
            Seq::new(values@.len(), |i: int| values@[i] as nat),
            if hexadecimal {
                colon_groups()
            } else {
                dotted_quad()
            },
        ),
{
    let ghost notation = if hexadecimal {
        colon_groups()
    } else {
        dotted_quad()
    };
    let ghost numbers = Seq::new(values@.len(), |i: int| values@[i] as nat);
    let radix: u32 = if hexadecimal {
        16
    } else {
        10
    };
    proof {
        reveal_strlit(".");
        reveal_strlit(":");
    }
    let separator: &str = if hexadecimal {
        ":"
    } else {
        "."
    };
    assert(separator@ =~= seq![notation.separator]);
    let mut text = String::new();
    push_number(&mut text, values[0], radix);
    proof {
        assert(numbers.take(1).len() == 1);
        assert(text@ =~= format_fields(numbers.take(1), notation));
    }
    let mut i: usize = 1;
    while i < values.len()
        invariant
            1 <= i <= values@.len(),
            radix == notation.radix,
            radix == 10 || radix == 16,
            separator@ == seq![notation.separator],
            numbers == Seq::new(values@.len(), |i: int| values@[i] as nat),
            forall|i: int| 0 <= i < values@.len() ==> values@[i] <= 0xFFFF,
            text@ == format_fields(numbers.take(i as int), notation),
        decreases values@.len() - i,
    {
        let ghost before = text@;
        text.append(separator);
        push_number(&mut text, values[i], radix);
        proof {
            let longer = numbers.take(i + 1);
            assert(longer.drop_last() =~= numbers.take(i as int));
            assert(longer.last() == values@[i as int] as nat);
            assert(text@ =~= before.push(notation.separator) + format_number(
                longer.last(),
                notation.radix,
            ));
        }
        i += 1;
    }
    proof {
        assert(numbers.take(i as int) =~= numbers);
    }
    text
}

} // verus!

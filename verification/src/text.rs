//! Small pieces of text: the decimal form of a number, and the four
//! characters of a section's magic.
use vstd::prelude::*;
use vstd::string::StrSliceExecFns;

verus! {

/// The character that stands for a byte: the one with the byte's value as its
/// code point.
pub open spec fn spec_byte_char(byte: u8) -> char {
    byte as char
}

/// The characters that stand for a run of bytes, one for each byte.
pub open spec fn spec_byte_chars(bytes: Seq<u8>) -> Seq<char> {
    Seq::new(bytes.len(), |i: int| spec_byte_char(bytes[i]))
}

/// The decimal digit for a value below ten.
pub open spec fn spec_digit(value: nat) -> char
    recommends
        value < 10,
{
    (0x30 + value) as char
}

/// The decimal form of a number, without sign or leading zeros.
pub open spec fn spec_decimal(value: nat) -> Seq<char>
    decreases value,
{
    if value < 10 {
        seq![spec_digit(value)]
    } else {
        spec_decimal(value / 10).push(spec_digit(value % 10))
    }
}

/// Appends one character with `String::push`.
#[verifier::external_body]
pub(crate) fn push_char(text: &mut String, c: char)
    ensures
        final(text)@ == old(text)@.push(c),
{
    text.push(c)
}

/// Writes `value` in decimal.
pub fn decimal_string(value: u32) -> (text: String)
    ensures
        text@ == spec_decimal(value as nat),
    decreases value,
{
    let digit: u8 = (value % 10) as u8;
    let c: char = (0x30u8 + digit) as char;
    if value < 10 {
        let mut text = String::new();
        push_char(&mut text, c);
        text
    } else {
        let mut text = decimal_string(value / 10);
        push_char(&mut text, c);
        text
    }
}

/// Writes a run of bytes as text, one character for each byte.
pub fn byte_string(bytes: &[u8]) -> (text: String)
    ensures
        text@ == spec_byte_chars(bytes@),
{
    let mut text = String::new();
    let mut i: usize = 0;
    while i < bytes.len()
        invariant
            i <= bytes.len(),
            text@ == spec_byte_chars(bytes@.take(i as int)),
        decreases bytes.len() - i,
    {
        push_char(&mut text, bytes[i] as char);
        i += 1;
    }
    text
}

/// The position of the last `'.'` in a name, or -1 where it has none.
pub open spec fn spec_last_dot(name: Seq<char>) -> int
    decreases name.len(),
{
    if name.len() == 0 {
        -1
    } else if name.last() == '.' {
        name.len() - 1
    } else {
        spec_last_dot(name.drop_last())
    }
}

/// The extension of a name: what follows its last `'.'`, and nothing where
/// it has none.
pub open spec fn spec_extension(name: Seq<char>) -> Seq<char> {
    if spec_last_dot(name) < 0 {
        Seq::empty()
    } else {
        name.skip(spec_last_dot(name) + 1)
    }
}

/// The last dot of a name stands behind every position that holds none up
/// to the end.
proof fn lemma_last_dot(name: Seq<char>, from: int)
    requires
        0 <= from <= name.len(),
        forall|j: int| from <= j < name.len() ==> name[j] != '.',
    ensures
        spec_last_dot(name) == spec_last_dot(name.take(from)),
    decreases name.len() - from,
{
    if from < name.len() {
        lemma_last_dot(name.drop_last(), from);
        assert(name.drop_last().take(from) == name.take(from));
    } else {
        assert(name.take(from) == name);
    }
}

/// The extension of a name.
pub fn extension(name: &str) -> (ext: &str)
    ensures
        ext@ == spec_extension(name@),
{
    let len = name.unicode_len();
    let mut at: usize = len;
    while at > 0
        invariant
            at <= len,
            len == name@.len(),
            forall|j: int| at <= j < len ==> name@[j] != '.',
        decreases at,
    {
        if name.get_char(at - 1) == '.' {
            proof {
                lemma_last_dot(name@, at as int);
            }
            return name.substring_char(at, len);
        }
        at -= 1;
    }
    proof {
        lemma_last_dot(name@, 0);
    }
    name.substring_char(0, 0)
}

} // verus!

//! Handles to GAP objects, and handles written as text.

use crate::text::{digit_char, digits, number_text, to_chars, trim, trimmed};
use vstd::prelude::*;
use vstd::string::*;

verus! {

/// The word by which libgap names an object.
pub type Obj = usize;

/// An unrooted handle to a GAP object.
///
/// This is a copyable wrapper around GAP's object word. It does not root the
/// object with GAP's garbage collector and may become invalid after a GAP
/// operation that allocates.
#[derive(Clone, Copy, Debug, PartialEq, Eq, Structural)]
pub struct GapRef {
    /// The object word produced by libgap.
    pub obj: Obj,
}

/// Deprecated alias for [`GapRef`].
pub type GapElement = GapRef;

/// Why a text is not an address.
#[derive(Clone, Copy, Debug, PartialEq, Eq, Structural)]
pub enum AddressError {
    /// There is no digit.
    Empty,
    /// A character is not a hexadecimal digit.
    InvalidDigit,
    /// The number does not fit an object word.
    Overflow,
}

/// `s` without any `0x` at its start.
pub open spec fn without_hex_prefix(s: Seq<char>) -> Seq<char>
    decreases s.len(),
{
    if s.len() >= 2 && s[0] == '0' && s[1] == 'x' {
        without_hex_prefix(s.skip(2))
    } else {
        s
    }
}

/// The value of a hexadecimal digit.
pub open spec fn hex_value(c: char) -> Option<int> {
    if '0' <= c <= '9' {
        Some(c as int - '0' as int)
    } else if 'a' <= c <= 'f' {
        Some(c as int - 'a' as int + 10)
    } else if 'A' <= c <= 'F' {
        Some(c as int - 'A' as int + 10)
    } else {
        None
    }
}

/// The number that the digits `s` give when they follow digits with the value `value`;
/// the first digit that is invalid or does not fit decides the error.
pub open spec fn hex_number(value: int, s: Seq<char>) -> Result<int, AddressError>
    decreases s.len(),
{
    if s.len() == 0 {
        Ok(value)
    } else {
        match hex_value(s[0]) {
            None => Err(AddressError::InvalidDigit),
            Some(d) => if value * 16 + d > usize::MAX {
                Err(AddressError::Overflow)
            } else {
                hex_number(value * 16 + d, s.skip(1))
            },
        }
    }
}

/// The address that a text gives: hexadecimal digits after any `0x` and one plus sign.
pub open spec fn address_of(s: Seq<char>) -> Result<int, AddressError> {
    let t = without_hex_prefix(s);
    if t.len() == 0 {
        Err(AddressError::Empty)
    } else if t[0] == '+' && t.len() > 1 {
        hex_number(0, t.skip(1))
    } else {
        hex_number(0, t)
    }
}

/// The address as text: `0x` and the hexadecimal digits.
pub open spec fn address_text(obj: Obj) -> Seq<char> {
    "0x"@ + digits(obj as nat, 16)
}

fn hex_digit(c: char) -> (d: Option<usize>)
    ensures
        match d {
            Some(v) => hex_value(c) == Some(v as int) && v < 16,
            None => hex_value(c) is None,
        },
{
    if '0' <= c && c <= '9' {
        Some((c as u32 - '0' as u32) as usize)
    } else if 'a' <= c && c <= 'f' {
        Some((c as u32 - 'a' as u32) as usize + 10)
    } else if 'A' <= c && c <= 'F' {
        Some((c as u32 - 'A' as u32) as usize + 10)
    } else {
        None
    }
}

/// Parses a hexadecimal address string into an object word.
///
/// This is meant for texts that were made from a live handle of the same process.
/// The word is not validated.
pub fn hex_str_to_ptr(hex_str: &str) -> (result: Result<Obj, AddressError>)
    ensures
        match result {
            Ok(obj) => address_of(hex_str@) == Ok::<int, AddressError>(obj as int),
            Err(e) => address_of(hex_str@) == Err::<int, AddressError>(e),
        },
{
    let chars = to_chars(hex_str);
    let mut i: usize = 0;
    assert(chars@.skip(0) =~= chars@);
    while chars.len() - i >= 2 && chars[i] == '0' && chars[i + 1] == 'x'
        invariant
            i <= chars.len(),
            without_hex_prefix(chars@) == without_hex_prefix(chars@.skip(i as int)),
        decreases chars.len() - i,
    {
        assert(chars@.skip(i as int).skip(2) =~= chars@.skip(i + 2));
        i = i + 2;
    }
    let ghost t = chars@.skip(i as int);
    assert(without_hex_prefix(hex_str@) == t);
    if i == chars.len() {
        return Err(AddressError::Empty);
    }
    if chars[i] == '+' && chars.len() - i > 1 {
        assert(t.skip(1) =~= chars@.skip(i + 1));
        i = i + 1;
    }
    let mut value: usize = 0;
    while i < chars.len()
        invariant
            i <= chars.len(),
            address_of(hex_str@) == hex_number(value as int, chars@.skip(i as int)),
        decreases chars.len() - i,
    {
        assert(chars@.skip(i as int).skip(1) =~= chars@.skip(i + 1));
        match hex_digit(chars[i]) {
            None => {
                return Err(AddressError::InvalidDigit);
            },
            Some(d) => {
                if value > (usize::MAX - d) / 16 {
                    return Err(AddressError::Overflow);
                }
                value = value * 16 + d;
            },
        }
        i = i + 1;
    }
    assert(chars@.skip(i as int).len() == 0);
    Ok(value)
}

impl GapRef {
    /// Converts a textual address into a handle, white space around it ignored.
    pub fn from_address(text: &str) -> (result: Result<GapRef, AddressError>)
        ensures
            match result {
                Ok(r) => address_of(trimmed(text@)) == Ok::<int, AddressError>(r.obj as int),
                Err(e) => address_of(trimmed(text@)) == Err::<int, AddressError>(e),
            },
    {
        match hex_str_to_ptr(trim(text)) {
            Ok(obj) => Ok(GapRef { obj }),
            Err(e) => Err(e),
        }
    }

    /// The handle's address as text.
    pub fn to_address(&self) -> (text: String)
        ensures
            text@ == address_text(self.obj),
    {
        let mut text = "0x".to_owned();
        text.append(number_text(self.obj as u64, 16).as_str());
        text
    }
}

/// Reading one more digit goes on from what the digits before it gave.
proof fn lemma_hex_push(value: int, s: Seq<char>, c: char)
    requires
        hex_number(value, s) is Ok,
    ensures
        hex_number(value, s.push(c)) == (match hex_value(c) {
            None => Err::<int, AddressError>(AddressError::InvalidDigit),
            Some(d) => if hex_number(value, s)->Ok_0 * 16 + d > usize::MAX {
                Err(AddressError::Overflow)
            } else {
                Ok(hex_number(value, s)->Ok_0 * 16 + d)
            },
        }),
    decreases s.len(),
{
    if s.len() == 0 {
        assert(s.push(c).skip(1) =~= s);
        reveal_with_fuel(hex_number, 2);
    } else {
        let d = hex_value(s[0])->0;
        lemma_hex_push(value * 16 + d, s.skip(1), c);
        assert(s.push(c).skip(1) =~= s.skip(1).push(c));
    }
}

/// Hexadecimal digits read back as the number they were written from.
proof fn lemma_hex_digits(n: nat)
    requires
        n <= usize::MAX,
    ensures
        hex_number(0, digits(n, 16)) == Ok::<int, AddressError>(n as int),
        digits(n, 16).len() > 0,
        forall|i: int|
            0 <= i < digits(n, 16).len() ==> #[trigger] digits(n, 16)[i] != 'x' && digits(
                n,
                16,
            )[i] != '+' && !crate::text::is_space(digits(n, 16)[i]),
    decreases n,
{
    if n < 16 {
        reveal_with_fuel(hex_number, 2);
        let s = seq![digit_char(n as int)];
        assert(s.skip(1) =~= seq![]);
    } else {
        let high = n / 16;
        lemma_hex_digits(high);
        lemma_hex_push(0, digits(high, 16), digit_char((n % 16) as int));
    }
}

/// A handle's address, written as text and read back, is the same handle.
pub proof fn law_address_round_trip(obj: Obj)
    ensures
        address_of(address_text(obj)) == Ok::<int, AddressError>(obj as int),
        trimmed(address_text(obj)) == address_text(obj),
{
    let d = digits(obj as nat, 16);
    let s = address_text(obj);
    lemma_hex_digits(obj as nat);
    reveal_strlit("0x");
    assert(s.skip(2) =~= d);
    assert(s[0] == '0' && s[1] == 'x');
    assert(s.last() == d.last());
    assert(without_hex_prefix(d) == d);
    assert(without_hex_prefix(s) == d);
}


// --- Reading addresses ---
/// A hexadecimal digit of either case has its value, and no other character has one.
pub proof fn law_hex_digit_values(c: char)
    ensures
        hex_value(c) is Some <==> 48 <= c as int <= 57 || 65 <= c as int <= 70 || 97 <= c as int
            <= 102,
        48 <= c as int <= 57 ==> hex_value(c) == Some(c as int - 48),
        65 <= c as int <= 70 ==> hex_value(c) == Some(c as int - 55),
        97 <= c as int <= 102 ==> hex_value(c) == Some(c as int - 87),
{
}

/// The number that hexadecimal digits stand for, when each is at its place.
pub open spec fn hex_places(s: Seq<char>) -> int
    decreases s.len(),
{
    if s.len() == 0 {
        0
    } else {
        hex_places(s.drop_last()) * 16 + hex_value(s.last())->0
    }
}

/// Whether all characters are hexadecimal digits.
pub open spec fn all_hex(s: Seq<char>) -> bool {
    forall|i: int| 0 <= i < s.len() ==> hex_value(#[trigger] s[i]) is Some
}

/// An error in the digits is not undone by more characters.
proof fn lemma_hex_error_stays(value: int, s: Seq<char>, c: char)
    requires
        hex_number(value, s) is Err,
    ensures
        hex_number(value, s.push(c)) == hex_number(value, s),
    decreases s.len(),
{
    assert(s.push(c)[0] == s[0]);
    assert(s.push(c).skip(1) =~= s.skip(1).push(c));
    if let Some(d) = hex_value(s[0]) {
        if value * 16 + d <= usize::MAX {
            lemma_hex_error_stays(value * 16 + d, s.skip(1), c);
        }
    }
}

proof fn lemma_hex_places(s: Seq<char>)
    requires
        all_hex(s),
    ensures
        hex_places(s) >= 0,
        hex_number(0, s) == (if hex_places(s) <= usize::MAX {
            Ok::<int, AddressError>(hex_places(s))
        } else {
            Err(AddressError::Overflow)
        }),
    decreases s.len(),
{
    if s.len() > 0 {
        let shorter = s.drop_last();
        let c = s.last();
        assert(hex_value(s[s.len() - 1]) is Some);
        assert forall|i: int| 0 <= i < shorter.len() implies hex_value(
            #[trigger] shorter[i],
        ) is Some by {
            assert(hex_value(s[i]) is Some);
        }
        lemma_hex_places(shorter);
        assert(shorter.push(c) =~= s);
        if hex_places(shorter) <= usize::MAX {
            lemma_hex_push(0, shorter, c);
        } else {
            lemma_hex_error_stays(0, shorter, c);
        }
    }
}

/// Hexadecimal digits are read as the number that they stand for, if it fits an object
/// word, with or without a plus sign before them.
pub proof fn law_address_of_digits(s: Seq<char>)
    requires
        s.len() > 0,
        all_hex(s),
    ensures
        hex_places(s) <= usize::MAX ==> address_of(s) == Ok::<int, AddressError>(hex_places(s)),
        hex_places(s) > usize::MAX ==> address_of(s) == Err::<int, AddressError>(
            AddressError::Overflow,
        ),
        address_of(seq!['+'] + s) == address_of(s),
{
    lemma_hex_places(s);
    assert(hex_value(s[0]) is Some);
    if s.len() >= 2 {
        assert(hex_value(s[1]) is Some);
    }
    let t = seq!['+'] + s;
    assert(t[0] == '+');
    assert(t.skip(1) =~= s);
}

/// Any number of `0x` before an address does not count.
pub proof fn law_hex_prefix_does_not_count(s: Seq<char>)
    ensures
        address_of(seq!['0', 'x'] + s) == address_of(s),
{
    let t = seq!['0', 'x'] + s;
    assert(t.skip(2) =~= s);
    assert(t[0] == '0' && t[1] == 'x');
}

/// No digits are no address; and digits that fit, followed by a character that is no
/// digit, are none either, whatever comes after it.
pub proof fn law_what_is_no_address(s: Seq<char>, c: char, rest: Seq<char>)
    requires
        s.len() > 0,
        all_hex(s),
        hex_places(s) <= usize::MAX,
        hex_value(c) is None,
        !(s == seq!['0'] && c == 'x'),
    ensures
        address_of(seq![]) == Err::<int, AddressError>(AddressError::Empty),
        address_of(s.push(c) + rest) == Err::<int, AddressError>(AddressError::InvalidDigit),
    decreases rest.len(),
{
    lemma_hex_places(s);
    lemma_hex_push(0, s, c);
    let t = s.push(c) + rest;
    lemma_hex_error_goes_on(s.push(c), rest);
    assert(t[0] == s[0]);
    assert(hex_value(s[0]) is Some);
    if s.len() >= 2 {
        assert(t[1] == s[1]);
        assert(hex_value(s[1]) is Some);
    } else {
        assert(t[1] == c);
        if s[0] == '0' {
            assert(s =~= seq!['0']);
        }
    }
    assert(without_hex_prefix(t) == t);
}

proof fn lemma_hex_error_goes_on(s: Seq<char>, rest: Seq<char>)
    requires
        hex_number(0, s) is Err,
    ensures
        hex_number(0, s + rest) == hex_number(0, s),
    decreases rest.len(),
{
    if rest.len() == 0 {
        assert(s + rest =~= s);
    } else {
        lemma_hex_error_goes_on(s, rest.drop_last());
        lemma_hex_error_stays(0, s + rest.drop_last(), rest.last());
        assert((s + rest.drop_last()).push(rest.last()) =~= s + rest);
    }
}

/// An address is written as `0x` and the hexadecimal digits of the object word.
pub proof fn law_address_as_text(obj: Obj)
    ensures
        ({
            let s = address_text(obj);
            &&& s.len() > 2
            &&& s[0] == '0'
            &&& s[1] == 'x'
            &&& all_hex(s.skip(2))
            &&& hex_places(s.skip(2)) == obj
        }),
{
    let d = digits(obj as nat, 16);
    let s = address_text(obj);
    reveal_strlit("0x");
    assert(s.skip(2) =~= d);
    lemma_digit_places(obj as nat);
}

proof fn lemma_digit_places(n: nat)
    ensures
        digits(n, 16).len() > 0,
        all_hex(digits(n, 16)),
        hex_places(digits(n, 16)) == n,
    decreases n,
{
    let s = digits(n, 16);
    if n < 16 {
        assert(s =~= seq![digit_char(n as int)]);
        assert(s.drop_last() =~= seq![]);
        assert(hex_places(s.drop_last()) == 0);
    } else {
        lemma_digit_places(n / 16);
        assert(s.drop_last() =~= digits(n / 16, 16));
        assert forall|i: int| 0 <= i < s.len() implies hex_value(#[trigger] s[i]) is Some by {
            if i < s.len() - 1 {
                assert(s[i] == digits(n / 16, 16)[i]);
            }
        }
    }
}

}

//! Text helpers: characters, trimming, lines, prefixes and number rendering.

use vstd::prelude::*;
use vstd::string::*;
use vstd::utf8::{decode_utf8, valid_utf8};

verus! {

/// The text that a byte string stands for when every ill-formed UTF-8 piece is
/// shown as a replacement character.
pub uninterp spec fn lossy_text(bytes: Seq<u8>) -> Seq<char>;

/// Calls `String::from_utf8_lossy`: the result is a function of the bytes, and
/// for well-formed UTF-8 it is the text that the bytes encode. Which replacement
/// characters stand for ill-formed pieces is left to the name `lossy_text`.
#[verifier::external_body]
pub(crate) fn utf8_lossy(bytes: &[u8]) -> (text: String)
    ensures
        text@ == lossy_text(bytes@),
        valid_utf8(bytes@) ==> text@ == decode_utf8(bytes@),
{
    String::from_utf8_lossy(bytes).into_owned()
}

/// Calls `std::str::from_utf8`: it succeeds exactly on well-formed UTF-8 and then
/// gives the text that the bytes encode.
#[verifier::external_body]
pub(crate) fn utf8_text(bytes: &[u8]) -> (text: Option<String>)
    ensures
        text is Some <==> valid_utf8(bytes@),
        text matches Some(t) ==> t@ == decode_utf8(bytes@),
{
    match std::str::from_utf8(bytes) {
        Ok(text) => Some(text.to_owned()),
        Err(_) => None,
    }
}

/// The text that `bytes` stand for: what they encode, if they are well-formed UTF-8, and
/// otherwise what is shown of them.
pub open spec fn text_of(bytes: Seq<u8>) -> Seq<char> {
    if valid_utf8(bytes) {
        decode_utf8(bytes)
    } else {
        lossy_text(bytes)
    }
}

/// The bytes before the first NUL.
pub open spec fn before_nul(bytes: Seq<u8>) -> Seq<u8> {
    match bytes.index_of_first(0) {
        Some(end) => bytes.take(end),
        None => bytes,
    }
}

/// Cuts bytes off at the first NUL.
pub fn cut_at_nul(bytes: Vec<u8>) -> (cut: Vec<u8>)
    ensures
        cut@ == before_nul(bytes@),
{
    let mut cut: Vec<u8> = Vec::new();
    let mut i: usize = 0;
    while i < bytes.len()
        invariant
            i <= bytes.len(),
            cut@ == bytes@.take(i as int),
            forall|j: int| 0 <= j < i ==> bytes@[j] != 0,
        decreases bytes.len() - i,
    {
        if bytes[i] == 0 {
            proof {
                assert(bytes@[i as int] == 0);
                bytes@.index_of_first_ensures(0);
                assert(bytes@.index_of_first(0) == Some(i as int));
            }
            return cut;
        }
        cut.push(bytes[i]);
        assert(bytes@.take(i + 1) =~= cut@);
        i = i + 1;
    }
    proof {
        bytes@.index_of_first_ensures(0);
        assert(bytes@.take(i as int) =~= bytes@);
    }
    cut
}

/// The characters of `text`, in order.
pub fn to_chars(text: &str) -> (chars: Vec<char>)
    ensures
        chars@ == text@,
{
    let mut chars: Vec<char> = Vec::new();
    for c in it: text.chars()
        invariant
            it.seq() == text@,
            chars@ == text@.take(it.index() as int),
    {
        chars.push(c);
    }
    chars
}

/// The White_Space property of Unicode.
pub open spec fn is_space(c: char) -> bool {
    ||| '\u{9}' <= c <= '\u{d}'
    ||| c == ' '
    ||| c == '\u{85}'
    ||| c == '\u{a0}'
    ||| c == '\u{1680}'
    ||| '\u{2000}' <= c <= '\u{200a}'
    ||| c == '\u{2028}'
    ||| c == '\u{2029}'
    ||| c == '\u{202f}'
    ||| c == '\u{205f}'
    ||| c == '\u{3000}'
}

fn is_space_char(c: char) -> (b: bool)
    ensures
        b == is_space(c),
{
    ('\u{9}' <= c && c <= '\u{d}') || c == ' ' || c == '\u{85}' || c == '\u{a0}' || c == '\u{1680}'
        || ('\u{2000}' <= c && c <= '\u{200a}') || c == '\u{2028}' || c == '\u{2029}'
        || c == '\u{202f}' || c == '\u{205f}' || c == '\u{3000}'
}

/// `s` without its leading white space.
pub open spec fn trim_start(s: Seq<char>) -> Seq<char>
    decreases s.len(),
{
    if s.len() > 0 && is_space(s[0]) {
        trim_start(s.skip(1))
    } else {
        s
    }
}

/// `s` without its trailing white space.
pub open spec fn trim_end(s: Seq<char>) -> Seq<char>
    decreases s.len(),
{
    if s.len() > 0 && is_space(s.last()) {
        trim_end(s.drop_last())
    } else {
        s
    }
}

/// `s` without its leading and trailing white space.
pub open spec fn trimmed(s: Seq<char>) -> Seq<char> {
    trim_end(trim_start(s))
}

/// Removes leading and trailing white space.
pub fn trim<'a>(text: &'a str) -> (result: &'a str)
    ensures
        result@ == trimmed(text@),
{
    let chars = to_chars(text);
    let mut from: usize = 0;
    assert(chars@.skip(0) =~= chars@);
    while from < chars.len() && is_space_char(chars[from])
        invariant
            from <= chars.len(),
            trim_start(chars@) == trim_start(chars@.skip(from as int)),
        decreases chars.len() - from,
    {
        assert(chars@.skip(from as int).skip(1) =~= chars@.skip(from + 1));
        from = from + 1;
    }
    let ghost rest = chars@.skip(from as int);
    let mut to: usize = chars.len();
    assert(chars@.subrange(from as int, to as int) =~= rest);
    while from < to && is_space_char(chars[to - 1])
        invariant
            from <= to <= chars.len(),
            trim_end(rest) == trim_end(chars@.subrange(from as int, to as int)),
        decreases to,
    {
        assert(chars@.subrange(from as int, to as int).drop_last() =~= chars@.subrange(
            from as int,
            to - 1,
        ));
        to = to - 1;
    }
    text.substring_char(from, to)
}

/// The lines of `s`: the pieces between line feeds, without an empty last piece.
pub open spec fn split_lines(s: Seq<char>) -> Seq<Seq<char>>
    decreases s.len(),
{
    if s.len() == 0 {
        seq![]
    } else if s.contains('\n') {
        proof {
            s.index_of_first_ensures('\n');
        }
        let cut = s.index_of_first('\n')->0;
        seq![s.take(cut)] + split_lines(s.skip(cut + 1))
    } else {
        seq![s]
    }
}

/// Splits `text` into its lines. A carriage return before a line feed stays in its line.
pub fn lines(text: &str) -> (result: Vec<String>)
    ensures
        result.deep_view() == split_lines(text@),
{
    let chars = to_chars(text);
    let mut result: Vec<String> = Vec::new();
    let mut start: usize = 0;
    let mut end: usize = 0;
    assert(text@.skip(0) =~= text@);
    assert(result.deep_view() =~= seq![]);
    while end < chars.len()
        invariant
            chars@ == text@,
            start <= end <= chars.len(),
            forall|i: int| start <= i < end ==> chars@[i] != '\n',
            split_lines(text@) == result.deep_view() + split_lines(text@.skip(start as int)),
        decreases chars.len() - end,
    {
        if chars[end] == '\n' {
            let piece = text.substring_char(start, end);
            proof {
                let rest = text@.skip(start as int);
                let cut = end - start;
                assert(rest[cut] == '\n');
                rest.index_of_first_ensures('\n');
                assert(rest.index_of_first('\n') == Some(cut));
                assert(rest.take(cut) =~= text@.subrange(start as int, end as int));
                assert(rest.skip(cut + 1) =~= text@.skip(end + 1));
            }
            let ghost before = result.deep_view();
            result.push(piece.to_owned());
            assert(result.deep_view() =~= before.push(piece@));
            assert(before + (seq![piece@] + split_lines(text@.skip(end + 1)))
                =~= result.deep_view() + split_lines(text@.skip(end + 1)));
            start = end + 1;
        }
        end = end + 1;
    }
    let ghost rest = text@.skip(start as int);
    if start < chars.len() {
        let piece = text.substring_char(start, end);
        proof {
            if rest.contains('\n') {
                let i = rest.index_of('\n');
                assert(chars@[start + i] != '\n');
            }
            assert(rest =~= piece@);
        }
        let ghost before = result.deep_view();
        result.push(piece.to_owned());
        assert(result.deep_view() =~= before.push(piece@));
        assert(before + seq![piece@] =~= result.deep_view());
    } else {
        assert(rest =~= seq![]);
        assert(result.deep_view() + Seq::<Seq<char>>::empty() =~= result.deep_view());
    }
    result
}

/// Whether `text` starts with `prefix`.
pub fn starts_with(text: &str, prefix: &str) -> (b: bool)
    ensures
        b == prefix@.is_prefix_of(text@),
{
    let text_chars = to_chars(text);
    let prefix_chars = to_chars(prefix);
    if prefix_chars.len() > text_chars.len() {
        return false;
    }
    let mut i: usize = 0;
    while i < prefix_chars.len()
        invariant
            text_chars@ == text@,
            prefix_chars@ == prefix@,
            i <= prefix_chars.len() <= text_chars.len(),
            forall|j: int| 0 <= j < i ==> prefix@[j] == text@[j],
        decreases prefix_chars.len() - i,
    {
        if prefix_chars[i] != text_chars[i] {
            assert(text@.subrange(0, prefix@.len() as int)[i as int] != prefix@[i as int]);
            return false;
        }
        i = i + 1;
    }
    assert(prefix@ =~= text@.subrange(0, prefix@.len() as int));
    true
}

/// Whether `text` ends with `suffix`.
pub fn ends_with(text: &str, suffix: &str) -> (b: bool)
    ensures
        b == suffix@.is_suffix_of(text@),
{
    let text_chars = to_chars(text);
    let suffix_chars = to_chars(suffix);
    if suffix_chars.len() > text_chars.len() {
        return false;
    }
    let offset: usize = text_chars.len() - suffix_chars.len();
    let mut i: usize = 0;
    while i < suffix_chars.len()
        invariant
            text_chars@ == text@,
            suffix_chars@ == suffix@,
            i <= suffix_chars.len(),
            offset + suffix_chars.len() == text_chars.len(),
            forall|j: int| 0 <= j < i ==> suffix@[j] == text@[offset + j],
        decreases suffix_chars.len() - i,
    {
        if suffix_chars[i] != text_chars[offset + i] {
            assert(text@.subrange(offset as int, text@.len() as int)[i as int] != suffix@[i as int]);
            return false;
        }
        i = i + 1;
    }
    assert(suffix@ =~= text@.subrange(offset as int, text@.len() as int));
    true
}

/// Whether two texts are the same.
pub fn same_text(a: &str, b: &str) -> (same: bool)
    ensures
        same == (a@ == b@),
{
    let a_chars = to_chars(a);
    let b_chars = to_chars(b);
    if a_chars.len() != b_chars.len() {
        return false;
    }
    let same = starts_with(a, b);
    assert(a@.subrange(0, a@.len() as int) =~= a@);
    same
}

/// Whether `text` holds a NUL character.
pub fn has_nul(text: &str) -> (b: bool)
    ensures
        b == text@.contains('\0'),
{
    let chars = to_chars(text);
    let mut i: usize = 0;
    while i < chars.len()
        invariant
            chars@ == text@,
            i <= chars.len(),
            forall|j: int| 0 <= j < i ==> chars@[j] != '\0',
        decreases chars.len() - i,
    {
        if chars[i] == '\0' {
            return true;
        }
        i = i + 1;
    }
    false
}

/// The pieces put together with `separator` between each two.
pub open spec fn joined_texts(pieces: Seq<Seq<char>>, separator: Seq<char>) -> Seq<char>
    decreases pieces.len(),
{
    if pieces.len() == 0 {
        seq![]
    } else if pieces.len() == 1 {
        pieces[0]
    } else {
        joined_texts(pieces.drop_last(), separator) + separator + pieces.last()
    }
}

/// Puts the pieces together with `separator` between each two.
pub fn join_texts(pieces: &Vec<String>, separator: &str) -> (text: String)
    ensures
        text@ == joined_texts(pieces.deep_view(), separator@),
{
    let mut text = String::new();
    let mut i: usize = 0;
    let ghost all = pieces.deep_view();
    assert(all.take(0) =~= seq![]);
    while i < pieces.len()
        invariant
            i <= pieces.len(),
            all == pieces.deep_view(),
            text@ == joined_texts(all.take(i as int), separator@),
        decreases pieces.len() - i,
    {
        if i > 0 {
            text.append(separator);
        }
        text.append(pieces[i].as_str());
        assert(all[i as int] == pieces@[i as int]@);
        assert(all.take(i + 1).drop_last() =~= all.take(i as int));
        assert(i == 0 ==> text@ =~= all.take(1)[0]);
        i = i + 1;
    }
    assert(all.take(i as int) =~= all);
    text
}

/// The digit with value `d`, for bases up to sixteen.
pub open spec fn digit_char(d: int) -> char {
    if d < 10 {
        ('0' as int + d) as char
    } else {
        ('a' as int + d - 10) as char
    }
}

/// The digits of `n` in base `base`, most significant first.
pub open spec fn digits(n: nat, base: nat) -> Seq<char>
    decreases n,
{
    if n < base || base < 2 {
        seq![digit_char(n as int)]
    } else {
        proof {
            assert(n / base < n) by (nonlinear_arith)
                requires
                    2 <= base <= n,
            ;
        }
        digits(n / base, base).push(digit_char((n % base) as int))
    }
}

/// The decimal digits of `n`, after a minus sign if `n` is negative.
pub open spec fn signed_decimal(n: int) -> Seq<char> {
    if n < 0 {
        seq!['-'] + digits((-n) as nat, 10)
    } else {
        digits(n as nat, 10)
    }
}

fn digit_text(d: u64) -> (text: &'static str)
    requires
        d < 16,
    ensures
        text@ == seq![digit_char(d as int)],
{
    proof {
        reveal_strlit("0");
        reveal_strlit("1");
        reveal_strlit("2");
        reveal_strlit("3");
        reveal_strlit("4");
        reveal_strlit("5");
        reveal_strlit("6");
        reveal_strlit("7");
        reveal_strlit("8");
        reveal_strlit("9");
        reveal_strlit("a");
        reveal_strlit("b");
        reveal_strlit("c");
        reveal_strlit("d");
        reveal_strlit("e");
        reveal_strlit("f");
    }
    match d {
        0 => "0",
        1 => "1",
        2 => "2",
        3 => "3",
        4 => "4",
        5 => "5",
        6 => "6",
        7 => "7",
        8 => "8",
        9 => "9",
        10 => "a",
        11 => "b",
        12 => "c",
        13 => "d",
        14 => "e",
        _ => "f",
    }
}

/// Writes `n` in base `base`.
pub fn number_text(n: u64, base: u64) -> (text: String)
    requires
        2 <= base <= 16,
    ensures
        text@ == digits(n as nat, base as nat),
    decreases n,
{
    if n < base {
        digit_text(n).to_owned()
    } else {
        assert(n / base < n) by (nonlinear_arith)
            requires
                2 <= base <= n,
        ;
        let mut text = number_text(n / base, base);
        text.append(digit_text(n % base));
        text
    }
}

/// Writes `n` in decimal.
pub fn signed_text(n: i64) -> (text: String)
    ensures
        text@ == signed_decimal(n as int),
{
    if n < 0 {
        let magnitude: u64 = (-(n + 1)) as u64 + 1;
        proof {
            reveal_strlit("-");
        }
        let mut text = "-".to_owned();
        text.append(number_text(magnitude, 10).as_str());
        assert("-"@ =~= seq!['-']);
        text
    } else {
        number_text(n as u64, 10)
    }
}

}

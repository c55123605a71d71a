//! What holds of text: white space, lines, joined pieces, digits and encoded bytes.

use crate::text::{
    before_nul, digit_char, digits, is_space, joined_texts, lossy_text, signed_decimal, split_lines,
    text_of, trim_end, trim_start, trimmed,
};
use vstd::prelude::*;
use vstd::utf8::*;

verus! {

// --- White space ---
/// White space is what Unicode calls so: these twenty-five code points and no others.
pub proof fn law_white_space(c: char)
    ensures
        is_space(c) <==> {
            let n = c as int;
            ||| 9 <= n <= 13
            ||| n == 32
            ||| n == 133
            ||| n == 160
            ||| n == 5760
            ||| 8192 <= n <= 8202
            ||| n == 8232 || n == 8233
            ||| n == 8239
            ||| n == 8287
            ||| n == 12288
        },
{
}

/// Trimming takes white space off both ends and nothing else: what is left is a stretch
/// of the text that neither starts nor ends with white space.
pub proof fn law_trim_takes_white_space(s: Seq<char>)
    ensures
        exists|from: int, to: int|
            0 <= from <= to <= s.len() && trimmed(s) == #[trigger] s.subrange(from, to) && (forall|
                i: int,
            |
                0 <= i < from ==> is_space(#[trigger] s[i])) && (forall|i: int|
                to <= i < s.len() ==> is_space(#[trigger] s[i])),
        trimmed(s).len() > 0 ==> !is_space(trimmed(s)[0]) && !is_space(trimmed(s).last()),
{
    lemma_trim_start(s);
    let from = choose|from: int|
        0 <= from <= s.len() && trim_start(s) == #[trigger] s.skip(from) && (forall|i: int|
            0 <= i < from ==> is_space(#[trigger] s[i]));
    let t = s.skip(from);
    lemma_trim_end(t);
    let len = choose|len: int|
        0 <= len <= t.len() && trim_end(t) == #[trigger] t.take(len) && (forall|i: int|
            len <= i < t.len() ==> is_space(#[trigger] t[i]));
    let to = from + len;
    assert(t.take(len) =~= s.subrange(from, to));
    assert forall|i: int| to <= i < s.len() implies is_space(#[trigger] s[i]) by {
        assert(t[i - from] == s[i]);
    }
    if trimmed(s).len() > 0 {
        assert(trimmed(s)[0] == t[0]);
    }
}

/// A text without white space at its ends stays as it is.
pub(crate) proof fn lemma_trim_nothing(s: Seq<char>)
    requires
        s.len() > 0 ==> !is_space(s[0]) && !is_space(s.last()),
    ensures
        trimmed(s) == s,
{
}

proof fn lemma_trim_start(s: Seq<char>)
    ensures
        exists|from: int|
            0 <= from <= s.len() && trim_start(s) == #[trigger] s.skip(from) && (forall|i: int|
                0 <= i < from ==> is_space(#[trigger] s[i])),
        trim_start(s).len() > 0 ==> !is_space(trim_start(s)[0]),
    decreases s.len(),
{
    if s.len() > 0 && is_space(s[0]) {
        let rest = s.skip(1);
        lemma_trim_start(rest);
        let from = choose|from: int|
            0 <= from <= rest.len() && trim_start(rest) == #[trigger] rest.skip(from) && (forall|
                i: int,
            |
                0 <= i < from ==> is_space(#[trigger] rest[i]));
        assert(rest.skip(from) =~= s.skip(from + 1));
        assert forall|i: int| 0 <= i < from + 1 implies is_space(#[trigger] s[i]) by {
            if i > 0 {
                assert(rest[i - 1] == s[i]);
            }
        }
        assert(trim_start(s) == s.skip(from + 1));
    } else {
        assert(s.skip(0) =~= s);
    }
}

proof fn lemma_trim_end(s: Seq<char>)
    ensures
        exists|len: int|
            0 <= len <= s.len() && trim_end(s) == #[trigger] s.take(len) && (forall|i: int|
                len <= i < s.len() ==> is_space(#[trigger] s[i])),
        trim_end(s).len() > 0 ==> !is_space(trim_end(s).last()),
    decreases s.len(),
{
    if s.len() > 0 && is_space(s.last()) {
        let rest = s.drop_last();
        lemma_trim_end(rest);
        let len = choose|len: int|
            0 <= len <= rest.len() && trim_end(rest) == #[trigger] rest.take(len) && (forall|
                i: int,
            |
                len <= i < rest.len() ==> is_space(#[trigger] rest[i]));
        assert(rest.take(len) =~= s.take(len));
        assert forall|i: int| len <= i < s.len() implies is_space(#[trigger] s[i]) by {
            if i < rest.len() {
                assert(rest[i] == s[i]);
            }
        }
        assert(trim_end(s) == s.take(len));
    } else {
        assert(s.take(s.len() as int) =~= s);
    }
}

// --- Lines ---
/// The lines, each with a line feed after it.
pub open spec fn lines_ended(lines: Seq<Seq<char>>) -> Seq<char>
    decreases lines.len(),
{
    if lines.len() == 0 {
        seq![]
    } else {
        lines[0].push('\n') + lines_ended(lines.skip(1))
    }
}

/// The lines of a text hold no line feed, and with a line feed after each they are the
/// text, which gets one at its end if it has none.
pub proof fn law_lines_make_up_text(s: Seq<char>)
    ensures
        lines_ended(split_lines(s)) == (if s.len() == 0 || s.last() == '\n' {
            s
        } else {
            s.push('\n')
        }),
        forall|i: int, j: int|
            0 <= i < split_lines(s).len() && 0 <= j < split_lines(s)[i].len()
                ==> #[trigger] split_lines(s)[i][j] != '\n',
    decreases s.len(),
{
    let all = split_lines(s);
    if s.len() == 0 {
    } else if s.contains('\n') {
        s.index_of_first_ensures('\n');
        let cut = s.index_of_first('\n')->0;
        let rest = s.skip(cut + 1);
        law_lines_make_up_text(rest);
        let more = split_lines(rest);
        assert(all =~= seq![s.take(cut)] + more);
        assert(all.skip(1) =~= more);
        assert(all[0] == s.take(cut));
        if rest.len() > 0 {
            assert(rest.last() == s.last());
        } else {
            assert(s.last() == s[cut]);
        }
        assert(s.take(cut).push('\n') + rest =~= s);
        assert(s.take(cut).push('\n') + rest.push('\n') =~= s.push('\n'));
        assert forall|i: int, j: int| 0 <= i < all.len() && 0 <= j < all[i].len() implies
            #[trigger] all[i][j] != '\n' by {
            if i == 0 {
                assert(all[0][j] == s[j]);
            } else {
                assert(all[i] == more[i - 1]);
            }
        }
    } else {
        assert(all =~= seq![s]);
        assert(all.skip(1) =~= seq![]);
        assert(lines_ended(all.skip(1)) =~= seq![]);
        assert(s.push('\n') + Seq::<char>::empty() =~= s.push('\n'));
        assert(s.contains(s.last()));
        assert forall|i: int, j: int| 0 <= i < all.len() && 0 <= j < all[i].len() implies
            #[trigger] all[i][j] != '\n' by {
            assert(s.contains(s[j]));
        }
    }
}

// --- Joined pieces ---
/// No pieces make no text, one piece makes itself, and two lists of pieces make what each
/// makes with the separator between.
pub proof fn law_joined_pieces(
    one: Seq<char>,
    first: Seq<Seq<char>>,
    second: Seq<Seq<char>>,
    separator: Seq<char>,
)
    requires
        first.len() > 0,
        second.len() > 0,
    ensures
        joined_texts(seq![], separator) == Seq::<char>::empty(),
        joined_texts(seq![one], separator) == one,
        joined_texts(first + second, separator) == joined_texts(first, separator) + separator
            + joined_texts(second, separator),
    decreases second.len(),
{
    let all = first + second;
    assert(all.last() == second.last());
    if second.len() == 1 {
        assert(all.drop_last() =~= first);
        assert(joined_texts(second, separator) == second[0]);
    } else {
        let fewer = second.drop_last();
        assert(all.drop_last() =~= first + fewer);
        law_joined_pieces(one, first, fewer, separator);
        let a = joined_texts(first, separator);
        let b = joined_texts(fewer, separator);
        assert((a + separator + b) + separator + second.last() =~= a + separator + (b + separator
            + second.last()));
    }
}

// --- Numbers ---
/// The number that digits stand for in a base, when each is at its place.
pub open spec fn digits_value(s: Seq<char>, base: nat) -> nat
    decreases s.len(),
{
    if s.len() == 0 {
        0
    } else {
        let c = s.last();
        let d = if '0' <= c <= '9' {
            (c as int - 48) as nat
        } else {
            (c as int - 87) as nat
        };
        digits_value(s.drop_last(), base) * base + d
    }
}

/// The digits of a number stand for it, are digits of the base in lower case, and do not
/// start with a zero unless the number is zero.
pub proof fn law_digits_stand_for_number(n: nat, base: nat)
    requires
        2 <= base <= 16,
    ensures
        digits_value(digits(n, base), base) == n,
        digits(n, base).len() > 0,
        n > 0 ==> digits(n, base)[0] != '0',
        n == 0 ==> digits(n, base) == seq!['0'],
        forall|i: int|
            0 <= i < digits(n, base).len() ==> ({
                let c = #[trigger] digits(n, base)[i];
                48 <= c as int <= 57 || 97 <= c as int <= 102
            }),
    decreases n,
{
    let s = digits(n, base);
    if n < base {
        assert(s =~= seq![digit_char(n as int)]);
        assert(s.drop_last() =~= seq![]);
        assert(digits_value(s.drop_last(), base) == 0);
        assert(0 * base == 0) by (nonlinear_arith);
    } else {
        assert(n / base < n && n / base >= 1 && n == (n / base) * base + n % base && n % base
            < base) by (nonlinear_arith)
            requires
                2 <= base <= n,
        ;
        law_digits_stand_for_number(n / base, base);
        assert(s.drop_last() =~= digits(n / base, base));
        assert(s[0] == digits(n / base, base)[0]);
    }
}

/// A number in decimal is its digits, after a minus sign if it is negative.
pub proof fn law_decimal_has_sign(n: int)
    ensures
        n >= 0 ==> signed_decimal(n) == digits(n as nat, 10),
        n < 0 ==> signed_decimal(n).len() > 1 && signed_decimal(n)[0] == '-' && signed_decimal(
            n,
        ).skip(1) == digits((-n) as nat, 10),
{
    if n < 0 {
        law_digits_stand_for_number((-n) as nat, 10);
        assert(signed_decimal(n).skip(1) =~= digits((-n) as nat, 10));
    }
}

// --- Bytes ---
/// The bytes that encode a text stand for that text.
pub proof fn law_encoded_text_comes_back(s: Seq<char>)
    ensures
        text_of(encode_utf8(s)) == s,
{
    encode_utf8_valid_utf8(s);
    encode_utf8_decode_utf8(s);
}

/// Well-formed bytes stand for the text that they encode, and others for what is shown of
/// them.
pub proof fn law_text_of_bytes(bytes: Seq<u8>)
    ensures
        valid_utf8(bytes) ==> text_of(bytes) == decode_utf8(bytes) && encode_utf8(text_of(bytes))
            == bytes,
        !valid_utf8(bytes) ==> text_of(bytes) == lossy_text(bytes),
{
    if valid_utf8(bytes) {
        decode_utf8_encode_utf8(bytes);
    }
}

/// What stands before the first NUL is the bytes up to it, or all of them.
pub proof fn law_cut_before_nul(bytes: Seq<u8>)
    ensures
        ({
            let cut = before_nul(bytes);
            &&& cut.len() <= bytes.len()
            &&& forall|i: int| 0 <= i < cut.len() ==> #[trigger] cut[i] == bytes[i] && cut[i] != 0
            &&& cut.len() < bytes.len() ==> bytes[cut.len() as int] == 0
        }),
{
    bytes.index_of_first_ensures(0);
    if bytes.index_of_first(0) is None {
        assert forall|i: int| 0 <= i < bytes.len() implies #[trigger] bytes[i] != 0 by {
            assert(bytes.contains(bytes[i]));
        }
    }
}

}

//! Text: comparison, trimming, slicing by byte offsets, decimal numerals.
use vstd::prelude::*;
use vstd::string::*;
use vstd::utf8::*;

verus! {

/// The sets of characters that are trimmed off the ends of a text.
#[derive(Clone, Copy)]
pub enum CharClass {
    /// `(`, `)` and the space.
    Bracketing,
    /// `;`.
    Semicolon,
    /// The characters with the Unicode property `White_Space`.
    WhiteSpace,
}

/// The characters with the Unicode property `White_Space`.
pub open spec fn is_white_space(c: char) -> bool {
    ||| '\u{9}' <= c <= '\u{d}'
    ||| c == '\u{20}'
    ||| c == '\u{85}'
    ||| c == '\u{a0}'
    ||| c == '\u{1680}'
    ||| '\u{2000}' <= c <= '\u{200a}'
    ||| c == '\u{2028}'
    ||| c == '\u{2029}'
    ||| c == '\u{202f}'
    ||| c == '\u{205f}'
    ||| c == '\u{3000}'
}

/// Whether `c` belongs to `class`.
pub open spec fn in_class(class: CharClass, c: char) -> bool {
    match class {
        CharClass::Bracketing => c == '(' || c == ')' || c == ' ',
        CharClass::Semicolon => c == ';',
        CharClass::WhiteSpace => is_white_space(c),
    }
}

/// `s` without the longest prefix that lies in `class`.
pub open spec fn trim_start_of(s: Seq<char>, class: CharClass) -> Seq<char>
    decreases s.len(),
{
    if s.len() > 0 && in_class(class, s.first()) {
        trim_start_of(s.drop_first(), class)
    } else {
        s
    }
}

/// `s` without the longest suffix that lies in `class`.
pub open spec fn trim_end_of(s: Seq<char>, class: CharClass) -> Seq<char>
    decreases s.len(),
{
    if s.len() > 0 && in_class(class, s.last()) {
        trim_end_of(s.drop_last(), class)
    } else {
        s
    }
}

/// `s` without the characters of `class` at both its ends.
pub open spec fn trim_of(s: Seq<char>, class: CharClass) -> Seq<char> {
    trim_end_of(trim_start_of(s, class), class)
}

/// Whether the bytes from `start` to `end` of `s` are a slice of whole
/// characters.
pub open spec fn is_slice(s: Seq<char>, start: nat, end: nat) -> bool {
    &&& start <= end <= encode_utf8(s).len()
    &&& is_char_boundary(encode_utf8(s), start as int)
    &&& is_char_boundary(encode_utf8(s), end as int)
}

/// The characters that the bytes from `start` to `end` of `s` encode.
pub open spec fn slice_of(s: Seq<char>, start: nat, end: nat) -> Seq<char>
    recommends
        is_slice(s, start, end),
{
    decode_utf8(encode_utf8(s).subrange(start as int, end as int))
}

/// The decimal digit of value `d`.
pub open spec fn digit(d: nat) -> char {
    if d == 0 {
        '0'
    } else if d == 1 {
        '1'
    } else if d == 2 {
        '2'
    } else if d == 3 {
        '3'
    } else if d == 4 {
        '4'
    } else if d == 5 {
        '5'
    } else if d == 6 {
        '6'
    } else if d == 7 {
        '7'
    } else if d == 8 {
        '8'
    } else {
        '9'
    }
}

/// The decimal numeral of `n`, without leading zeros.
pub open spec fn decimal(n: nat) -> Seq<char>
    decreases n,
{
    if n < 10 {
        seq![digit(n)]
    } else {
        decimal(n / 10).push(digit(n % 10))
    }
}

/// Whether `c` belongs to `class`.
pub fn class_has(class: CharClass, c: char) -> (res: bool)
    ensures
        res == in_class(class, c),
{
    match class {
        CharClass::Bracketing => c == '(' || c == ')' || c == ' ',
        CharClass::Semicolon => c == ';',
        CharClass::WhiteSpace => ('\u{9}' <= c && c <= '\u{d}') || c == '\u{20}' || c == '\u{85}'
            || c == '\u{a0}' || c == '\u{1680}' || ('\u{2000}' <= c && c <= '\u{200a}') || c
            == '\u{2028}' || c == '\u{2029}' || c == '\u{202f}' || c == '\u{205f}' || c
            == '\u{3000}',
    }
}

/// The characters of `s`.
fn chars_of(s: &str) -> (res: Vec<char>)
    ensures
        res@ == s@,
{
    let mut res: Vec<char> = Vec::new();
    for c in it: s.chars()
        invariant
            it.seq() == s@,
            res@ == s@.take(it.index()),
    {
        res.push(c);
    }
    res
}

/// `s` without the longest prefix that lies in `class`.
pub fn trim_start<'a>(s: &'a str, class: CharClass) -> (res: &'a str)
    ensures
        res@ == trim_start_of(s@, class),
{
    let cs = chars_of(s);
    let mut i: usize = 0;
    proof {
        assert(s@.skip(0) == s@);
    }
    while i < cs.len() && class_has(class, cs[i])
        invariant
            cs@ == s@,
            i <= cs.len(),
            trim_start_of(s@.skip(i as int), class) == trim_start_of(s@, class),
        decreases cs.len() - i,
    {
        proof {
            assert(s@.skip(i as int).drop_first() == s@.skip(i + 1));
        }
        i = i + 1;
    }
    s.substring_char(i, cs.len())
}

/// `s` without the longest suffix that lies in `class`.
pub fn trim_end<'a>(s: &'a str, class: CharClass) -> (res: &'a str)
    ensures
        res@ == trim_end_of(s@, class),
{
    let cs = chars_of(s);
    let mut j: usize = cs.len();
    proof {
        assert(s@.take(j as int) == s@);
    }
    while j > 0 && class_has(class, cs[j - 1])
        invariant
            cs@ == s@,
            j <= cs.len(),
            trim_end_of(s@.take(j as int), class) == trim_end_of(s@, class),
        decreases j,
    {
        proof {
            assert(s@.take(j as int).drop_last() == s@.take(j - 1));
        }
        j = j - 1;
    }
    s.substring_char(0, j)
}

/// `s` without the characters of `class` at both its ends.
pub fn trim<'a>(s: &'a str, class: CharClass) -> (res: &'a str)
    ensures
        res@ == trim_of(s@, class),
{
    trim_end(trim_start(s, class), class)
}

/// Whether `wanted` occurs in `s`.
pub fn has_char(s: &str, wanted: char) -> (res: bool)
    ensures
        res == s@.contains(wanted),
{
    for c in it: s.chars()
        invariant
            it.seq() == s@,
            !s@.take(it.index()).contains(wanted),
    {
        proof {
            let k = it.index();
            assert(s@[k] == c);
            assert(s@.take(k + 1) == s@.take(k).push(c));
        }
        if c == wanted {
            return true;
        }
    }
    proof {
        assert(s@.take(s@.len() as int) == s@);
    }
    false
}

/// Whether `a` and `b` are the same text.
pub fn same_text(a: &str, b: &str) -> (res: bool)
    ensures
        res == (a@ == b@),
{
    broadcast use encode_utf8_decode_utf8;

    let x = a.as_bytes();
    let y = b.as_bytes();
    if x.len() != y.len() {
        return false;
    }
    let mut i: usize = 0;
    while i < x.len()
        invariant
            i <= x.len(),
            x.len() == y.len(),
            x@ == encode_utf8(a@),
            y@ == encode_utf8(b@),
            forall|k: int| 0 <= k < i ==> x@[k] == y@[k],
        decreases x.len() - i,
    {
        if x[i] != y[i] {
            return false;
        }
        i = i + 1;
    }
    proof {
        assert(x@ == y@);
        assert(decode_utf8(encode_utf8(a@)) == decode_utf8(encode_utf8(b@)));
    }
    true
}

/// The text between two byte offsets, if both lie between characters.
pub fn slice<'a>(s: &'a str, start: usize, end: usize) -> (res: Option<&'a str>)
    ensures
        res is Some <==> is_slice(s@, start as nat, end as nat),
        res matches Some(t) ==> t@ == slice_of(s@, start as nat, end as nat),
{
    broadcast use {encode_utf8_decode_utf8, encode_utf8_valid_utf8};

    if start > end || !s.is_char_boundary(start) || !s.is_char_boundary(end) {
        return None;
    }
    let (head, _) = s.split_at(end);
    proof {
        let bytes = encode_utf8(s@);
        let front = encode_utf8(head@);
        assert(is_char_boundary(front, start as int)) by {
            if start < end {
                assert(front[start as int] == bytes[start as int]);
                is_char_boundary_iff_not_is_continuation_byte(bytes, start as int);
                is_char_boundary_iff_not_is_continuation_byte(front, start as int);
            } else {
                is_char_boundary_start_end_of_seq(front);
            }
        }
    }
    let (_, body) = head.split_at(start);
    proof {
        assert(encode_utf8(body@) == encode_utf8(s@).subrange(start as int, end as int));
    }
    Some(body)
}

/// The decimal numeral of `n`.
pub fn decimal_string(n: u64) -> (res: String)
    ensures
        res@ == decimal(n as nat),
    decreases n,
{
    let low: usize = (n % 10) as usize;
    proof {
        reveal_strlit("0123456789");
    }
    let last = "0123456789".substring_char(low, low + 1);
    proof {
        assert(last@ == seq![digit(low as nat)]);
    }
    if n < 10 {
        last.to_owned()
    } else {
        let mut res = decimal_string(n / 10);
        res.append(last);
        res
    }
}

/// The characters of the classes: of bracketing the two parentheses and the
/// space, of semicolons that one, and of white space those with the Unicode
/// property `White_Space`, by their code points.
pub proof fn law_class_characters(c: char)
    ensures
        in_class(CharClass::Bracketing, c) <==> (c == '(' || c == ')' || c == ' '),
        in_class(CharClass::Semicolon, c) <==> c == ';',
        in_class(CharClass::WhiteSpace, c) <==> (9 <= c as u32 <= 13 || c as u32 == 32 || c as u32
            == 133 || c as u32 == 160 || c as u32 == 5760 || 8192 <= c as u32 <= 8202 || c as u32
            == 8232 || c as u32 == 8233 || c as u32 == 8239 || c as u32 == 8287 || c as u32
            == 12288),
{
}

/// What is trimmed off the start of a text lies in the class, and no more of
/// the class follows.
proof fn lemma_trim_start(s: Seq<char>, class: CharClass) -> (a: nat)
    ensures
        a <= s.len(),
        trim_start_of(s, class) == s.skip(a as int),
        forall|i: int| 0 <= i < a ==> in_class(class, #[trigger] s[i]),
        a < s.len() ==> !in_class(class, s[a as int]),
    decreases s.len(),
{
    if s.len() > 0 && in_class(class, s.first()) {
        let rest = s.drop_first();
        let b = lemma_trim_start(rest, class);
        assert(rest.skip(b as int) == s.skip((b + 1) as int));
        assert forall|i: int| 0 <= i < b + 1 implies in_class(class, #[trigger] s[i]) by {
            if i > 0 {
                assert(s[i] == rest[i - 1]);
            }
        }
        b + 1
    } else {
        assert(s.skip(0) == s);
        0
    }
}

/// What is trimmed off the end of a text lies in the class, and no more of the
/// class stands before it.
pub(crate) proof fn lemma_trim_end(s: Seq<char>, class: CharClass) -> (b: nat)
    ensures
        b <= s.len(),
        trim_end_of(s, class) == s.take(b as int),
        forall|i: int| b <= i < s.len() ==> in_class(class, #[trigger] s[i]),
        b > 0 ==> !in_class(class, s[b - 1]),
    decreases s.len(),
{
    if s.len() > 0 && in_class(class, s.last()) {
        let rest = s.drop_last();
        let b = lemma_trim_end(rest, class);
        assert(rest.take(b as int) == s.take(b as int));
        assert forall|i: int| b <= i < s.len() implies in_class(class, #[trigger] s[i]) by {
            if i < s.len() - 1 {
                assert(s[i] == rest[i]);
            }
        }
        b
    } else {
        assert(s.take(s.len() as int) == s);
        s.len()
    }
}

/// Trimming one end of a text cuts off a prefix, or a suffix, that lies in the
/// class, and all of it.
pub proof fn law_trim_one_end(s: Seq<char>, class: CharClass)
    ensures
        exists|a: int|
            0 <= a <= s.len() && trim_start_of(s, class) == #[trigger] s.skip(a) && (forall|
                i: int,
            |
                0 <= i < a ==> in_class(class, #[trigger] s[i])) && (a < s.len() ==> !in_class(
                class,
                s[a],
            )),
        exists|b: int|
            0 <= b <= s.len() && trim_end_of(s, class) == #[trigger] s.take(b) && (forall|i: int|
                b <= i < s.len() ==> in_class(class, #[trigger] s[i])) && (b > 0 ==> !in_class(
                class,
                s[b - 1],
            )),
{
    let a = lemma_trim_start(s, class) as int;
    let b = lemma_trim_end(s, class) as int;
    assert(trim_start_of(s, class) == s.skip(a));
    assert(trim_end_of(s, class) == s.take(b));
}

/// A trimmed text is a part of the text, neither begins nor ends in the class,
/// and all that was trimmed off lies in the class.
pub proof fn law_trim(s: Seq<char>, class: CharClass)
    ensures
        ({
            let t = trim_of(s, class);
            &&& t.len() > 0 ==> !in_class(class, t.first()) && !in_class(class, t.last())
            &&& exists|a: int, b: int|
                0 <= a <= b <= s.len() && t == #[trigger] s.subrange(a, b) && (forall|i: int|
                    (0 <= i < a || b <= i < s.len()) ==> in_class(class, #[trigger] s[i]))
        }),
{
    let a = lemma_trim_start(s, class);
    let rest = s.skip(a as int);
    let b = lemma_trim_end(rest, class);
    let t = trim_of(s, class);
    assert(t == s.subrange(a as int, (a + b) as int));
    assert forall|i: int| 0 <= i < a || a + b <= i < s.len() implies in_class(
        class,
        #[trigger] s[i],
    ) by {
        if i >= a {
            assert(s[i] == rest[i - a]);
        }
    }
}

/// To trim a text twice is to trim it once.
pub proof fn law_trim_once(s: Seq<char>, class: CharClass)
    ensures
        trim_of(trim_of(s, class), class) == trim_of(s, class),
{
    law_trim(s, class);
}

/// The bytes of a text are those of its parts.
proof fn lemma_encode_concat(a: Seq<char>, b: Seq<char>)
    ensures
        encode_utf8(a + b) == encode_utf8(a) + encode_utf8(b),
    decreases a.len(),
{
    if a.len() == 0 {
        assert(a + b == b);
    } else {
        lemma_encode_concat(a.drop_first(), b);
        assert((a + b).drop_first() == a.drop_first() + b);
    }
}

/// Between two parts of a text lies a boundary between characters.
proof fn lemma_boundary_between(a: Seq<char>, b: Seq<char>)
    ensures
        is_char_boundary(encode_utf8(a + b), encode_utf8(a).len() as int),
{
    broadcast use encode_utf8_valid_utf8;

    let whole = encode_utf8(a + b);
    let front = encode_utf8(a);
    let back = encode_utf8(b);
    lemma_encode_concat(a, b);
    if back.len() == 0 {
        is_char_boundary_start_end_of_seq(whole);
    } else {
        assert(whole[front.len() as int] == back[0]);
        is_char_boundary_start_end_of_seq(back);
        is_char_boundary_iff_not_is_continuation_byte(back, 0);
        is_char_boundary_iff_not_is_continuation_byte(whole, front.len() as int);
    }
}

/// A part of a text is the slice between the byte offsets at which it begins
/// and ends.
pub proof fn law_slice_of_part(before: Seq<char>, part: Seq<char>, behind: Seq<char>)
    ensures
        ({
            let start = encode_utf8(before).len();
            let end = start + encode_utf8(part).len();
            &&& is_slice(before + part + behind, start, end)
            &&& slice_of(before + part + behind, start, end) == part
        }),
{
    let s = before + part + behind;
    let start = encode_utf8(before).len();
    let end = start + encode_utf8(part).len();
    lemma_encode_concat(before, part);
    lemma_encode_concat(before + part, behind);
    lemma_boundary_between(before + part, behind);
    assert(before + (part + behind) == s);
    lemma_boundary_between(before, part + behind);
    assert(encode_utf8(s).subrange(start as int, end as int) == encode_utf8(part));
    encode_utf8_decode_utf8(part);
}

/// Whether the bytes from `start` to `end` are those of `part`, between `before`
/// and `behind`.
pub open spec fn stands_at(
    start: nat,
    end: nat,
    before: Seq<char>,
    part: Seq<char>,
    behind: Seq<char>,
) -> bool {
    &&& start == encode_utf8(before).len()
    &&& end == encode_utf8(before).len() + encode_utf8(part).len()
}

/// A slice is a part of the text that stands at its offsets.
pub proof fn law_slices_are_parts(s: Seq<char>, start: nat, end: nat)
    requires
        is_slice(s, start, end),
    ensures
        exists|before: Seq<char>, behind: Seq<char>|
            s == before + slice_of(s, start, end) + behind && #[trigger] stands_at(
                start,
                end,
                before,
                slice_of(s, start, end),
                behind,
            ),
{
    broadcast use {encode_utf8_valid_utf8, encode_utf8_decode_utf8, decode_utf8_encode_utf8};

    let bytes = encode_utf8(s);
    let front = bytes.subrange(0, end as int);
    let behind = decode_utf8(bytes.subrange(end as int, bytes.len() as int));
    valid_utf8_split(bytes, end as int);
    decode_utf8_split(bytes, end as int);
    assert(is_char_boundary(front, start as int)) by {
        if start < end {
            assert(front[start as int] == bytes[start as int]);
            is_char_boundary_iff_not_is_continuation_byte(bytes, start as int);
            is_char_boundary_iff_not_is_continuation_byte(front, start as int);
        } else {
            is_char_boundary_start_end_of_seq(front);
        }
    }
    valid_utf8_split(front, start as int);
    decode_utf8_split(front, start as int);
    let before = decode_utf8(front.subrange(0, start as int));
    let part = slice_of(s, start, end);
    assert(front.subrange(start as int, front.len() as int) == bytes.subrange(
        start as int,
        end as int,
    ));
    assert(front.subrange(0, start as int).len() == start);
    assert(encode_utf8(before) == front.subrange(0, start as int));
    assert(encode_utf8(part) == bytes.subrange(start as int, end as int));
    assert(s == before + part + behind);
    assert(stands_at(start, end, before, part, behind));
}

/// The number that a row of decimal digits stands for.
pub open spec fn value_of(digits: Seq<char>) -> int
    decreases digits.len(),
{
    if digits.len() == 0 {
        0
    } else {
        10 * value_of(digits.drop_last()) + (digits.last() as u32 - 48)
    }
}

/// The numeral of a number is a row of digits that stands for it, without
/// leading zeros.
pub proof fn law_numerals(n: nat)
    ensures
        value_of(decimal(n)) == n,
        decimal(n).len() >= 1,
        forall|i: int| 0 <= i < decimal(n).len() ==> '0' <= #[trigger] decimal(n)[i] <= '9',
        decimal(n).len() > 1 ==> decimal(n)[0] != '0',
    decreases n,
{
    if n >= 10 {
        law_numerals(n / 10);
        let front = decimal(n / 10);
        assert(decimal(n).drop_last() == front);
        assert(decimal(n)[0] == front[0]);
        if front.len() == 1 {
            assert(value_of(front.drop_last()) == 0);
            assert(front[0] != '0');
        }
    } else {
        assert(decimal(n).drop_last() == Seq::<char>::empty());
        assert(value_of(Seq::<char>::empty()) == 0);
    }
}

} // verus!

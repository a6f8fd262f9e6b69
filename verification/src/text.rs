//! Reading answers typed by the players: whole words and small numbers.
use vstd::prelude::*;
use crate::cards::is_game;

verus! {

broadcast use vstd::seq_lib::group_seq_properties;

/// The characters that Rust's `str::trim` removes: the Unicode
/// White_Space characters.
pub open spec fn is_white_space(c: char) -> bool {
    ('\u{9}' <= c && c <= '\u{d}') || c == ' ' || c == '\u{85}' || c == '\u{a0}' || c == '\u{1680}' || (
    '\u{2000}' <= c && c <= '\u{200a}') || c == '\u{2028}' || c == '\u{2029}' || c == '\u{202f}' || c
        == '\u{205f}' || c == '\u{3000}'
}

fn white_space(c: char) -> (w: bool)
    ensures
        w == is_white_space(c),
{
    ('\u{9}' <= c && c <= '\u{d}') || c == ' ' || c == '\u{85}' || c == '\u{a0}' || c == '\u{1680}' || (
    '\u{2000}' <= c && c <= '\u{200a}') || c == '\u{2028}' || c == '\u{2029}' || c == '\u{202f}' || c
        == '\u{205f}' || c == '\u{3000}'
}

/// The text without white space at its start and its end.
pub closed spec fn trimmed(s: Seq<char>) -> Seq<char> {
    if forall|i: int| 0 <= i < s.len() ==> #[trigger] is_white_space(s[i]) {
        Seq::empty()
    } else {
        let start = choose|i: int|
            0 <= i < s.len() && !is_white_space(s[i]) && forall|k: int| 0 <= k < i ==> #[trigger] is_white_space(s[k]);
        let end = choose|j: int|
            0 <= j < s.len() && !is_white_space(s[j]) && forall|k: int| j < k < s.len() ==> #[trigger] is_white_space(s[k]);
        s.subrange(start, end + 1)
    }
}

/// Whether the character is a decimal digit.
pub open spec fn is_digit(c: char) -> bool {
    '0' <= c && c <= '9'
}

/// The value of a sequence of decimal digits.
pub open spec fn digits_value(s: Seq<char>) -> nat
    decreases s.len(),
{
    if s.len() == 0 {
        0
    } else {
        digits_value(s.drop_last()) * 10 + ((s.last() as u32) - ('0' as u32)) as nat
    }
}

/// The text without the `+` sign that may stand in front of a number.
pub open spec fn unsigned_part(t: Seq<char>) -> Seq<char> {
    if t.len() > 0 && t[0] == '+' {
        t.drop_first()
    } else {
        t
    }
}

/// Whether every character of the text is a decimal digit.
pub open spec fn all_digits(s: Seq<char>) -> bool {
    forall|i: int| 0 <= i < s.len() ==> #[trigger] is_digit(s[i])
}

/// What `u8::from_str` accepts: an optional `+` followed by at least one
/// decimal digit, with a value of at most 255.
pub open spec fn byte_number(t: Seq<char>) -> Option<u8> {
    let digits = unsigned_part(t);
    if digits.len() > 0 && all_digits(digits) && digits_value(digits) <= 255 {
        Some(digits_value(digits) as u8)
    } else {
        None
    }
}

/// The number typed on a line: the line without surrounding white space,
/// read as `u8::from_str` reads it; `None` when it is not such a number.
pub fn parse_u8(line: &str) -> (n: Option<u8>)
    ensures
        n == byte_number(trimmed(line@)),
{
    let len = line.unicode_len();
    let ghost s = line@;
    // find the first character that is not white space
    let mut start: usize = 0;
    while start < len && white_space(line.get_char(start))
        invariant
            0 <= start <= len,
            len == s.len(),
            s == line@,
            forall|k: int| 0 <= k < start ==> #[trigger] is_white_space(s[k]),
        decreases len - start,
    {
        start = start + 1;
    }
    if start == len {
        proof {
            assert(trimmed(s) =~= Seq::<char>::empty());
        }
        return None;
    }
    // find the last character that is not white space
    let mut end: usize = len - 1;
    while white_space(line.get_char(end))
        invariant
            start <= end < len,
            len == s.len(),
            s == line@,
            !is_white_space(s[start as int]),
            forall|k: int| 0 <= k < start ==> #[trigger] is_white_space(s[k]),
            forall|k: int| end < k < len ==> #[trigger] is_white_space(s[k]),
        decreases end,
    {
        end = end - 1;
    }
    let ghost t = s.subrange(start as int, end + 1);
    proof {
        let a = choose|i: int|
            0 <= i < s.len() && !is_white_space(s[i]) && forall|k: int| 0 <= k < i ==> #[trigger] is_white_space(s[k]);
        let b = choose|j: int|
            0 <= j < s.len() && !is_white_space(s[j]) && forall|k: int| j < k < s.len() ==> #[trigger] is_white_space(s[k]);
        assert(!is_white_space(s[start as int]));
        if a < start {
            assert(is_white_space(s[a]));
        }
        if a > start {
            assert(is_white_space(s[start as int]));
        }
        if b > end {
            assert(is_white_space(s[b]));
        }
        if b < end {
            assert(is_white_space(s[end as int]));
        }
        assert(trimmed(s) == t);
    }
    // an optional plus sign
    let mut i: usize = start;
    if line.get_char(start) == '+' {
        i = start + 1;
    }
    let ghost digits = s.subrange(i as int, end + 1);
    assert(digits =~= unsigned_part(t));
    if i > end {
        return None;
    }
    let read = digits_byte_value(line, i, end + 1);
    proof {
        if read is Some {
            assert forall|m: int| 0 <= m < digits.len() implies #[trigger] is_digit(digits[m]) by {
                assert(digits[m] == s[i + m]);
            }
        } else {
            let m = choose|m: int| i <= m < end + 1 && !is_digit(#[trigger] line@[m]);
            assert(digits[m - i] == s[m]);
        }
    }
    match read {
        Some(value) => {
            if value <= 255 {
                Some(value as u8)
            } else {
                None
            }
        },
        None => None,
    }
}

/// A number capped at 256: what is left of a value once it is known to be
/// too large for a byte.
pub open spec fn capped(n: nat) -> nat {
    if n <= 255 {
        n
    } else {
        256
    }
}

proof fn lemma_digits_push(p: Seq<char>, c: char)
    requires
        is_digit(c),
    ensures
        digits_value(p.push(c)) == digits_value(p) * 10 + ((c as u32) - ('0' as u32)),
        capped(digits_value(p.push(c))) == capped((capped(digits_value(p)) * 10 + ((c as u32) - ('0' as u32))) as nat),
{
    assert(p.push(c).drop_last() =~= p);
}

/// The value of the characters `line[from..to]` read as decimal digits,
/// capped at 256; `None` when one of them is not a digit.
fn digits_byte_value(line: &str, from: usize, to: usize) -> (r: Option<u32>)
    requires
        from <= to <= line@.len(),
    ensures
        r is Some <==> forall|m: int| from <= m < to ==> #[trigger] is_digit(line@[m]),
        r is Some ==> r->0 == capped(digits_value(line@.subrange(from as int, to as int))),
{
    let ghost s = line@;
    let mut value: u32 = 0;
    let mut k: usize = from;
    while k < to
        invariant
            from <= k <= to,
            to <= s.len(),
            s == line@,
            forall|m: int| from <= m < k ==> #[trigger] is_digit(s[m]),
            value == capped(digits_value(s.subrange(from as int, k as int))),
        decreases to - k,
    {
        let c = line.get_char(k);
        if !('0' <= c && c <= '9') {
            assert(!is_digit(s[k as int]));
            return None;
        }
        proof {
            lemma_digits_push(s.subrange(from as int, k as int), c);
            assert(s.subrange(from as int, k as int).push(c) =~= s.subrange(from as int, k + 1));
        }
        let d = (c as u32) - ('0' as u32);
        value = value * 10 + d;
        if value > 255 {
            value = 256;
        }
        k = k + 1;
    }
    Some(value)
}

/// The game that a one-letter word names: `g`, `b`, `n`, `c`, `s`, `h`
/// or `d`.
pub open spec fn game_named(word: Seq<char>) -> Option<char> {
    if word.len() == 1 && is_game(word[0]) {
        Some(word[0])
    } else {
        None
    }
}

/// The game that the word names, if it is one of the seven game letters.
pub fn game_letter(word: &str) -> (g: Option<char>)
    ensures
        g == game_named(word@),
{
    if word.unicode_len() != 1 {
        return None;
    }
    let c = word.get_char(0);
    if c == 'g' || c == 'b' || c == 'n' || c == 'c' || c == 's' || c == 'h' || c == 'd' {
        Some(c)
    } else {
        None
    }
}

/// Whether the word consists of the two characters `a` and `b`.
pub fn is_two_letters(word: &str, a: char, b: char) -> (same: bool)
    ensures
        same == (word@ == seq![a, b]),
{
    if word.unicode_len() != 2 {
        return false;
    }
    let same = word.get_char(0) == a && word.get_char(1) == b;
    if same {
        assert(word@ =~= seq![a, b]);
    }
    same
}

/// The word typed on a line that was read with its line break: the line
/// without the break; `None` when the line has no break (the input ended).
pub open spec fn typed_word(line: Seq<char>) -> Option<Seq<char>> {
    if line.len() > 0 && line.last() == '\n' {
        Some(line.drop_last())
    } else {
        None
    }
}

/// The game typed on a line: one of the seven game letters followed by a
/// line break.
pub fn game_typed(line: &str) -> (g: Option<char>)
    ensures
        g == match typed_word(line@) {
            Some(w) => game_named(w),
            None => None,
        },
{
    let n = line.unicode_len();
    if n != 2 || line.get_char(1) != '\n' {
        return None;
    }
    let c = line.get_char(0);
    assert(line@.drop_last() =~= seq![c]);
    if c == 'g' || c == 'b' || c == 'n' || c == 'c' || c == 's' || c == 'h' || c == 'd' {
        Some(c)
    } else {
        None
    }
}

/// The game that is offered when a game is to be announced: the game the
/// hand was sorted for, or Diamonds when that is none of the seven games.
pub open spec fn offered(g: char) -> char {
    if is_game(g) {
        g
    } else {
        'd'
    }
}

/// The game offered for `g` (see `offered`).
pub fn offered_game(g: char) -> (o: char)
    ensures
        o == offered(g),
{
    if g == 'g' || g == 'b' || g == 'n' || g == 'c' || g == 's' || g == 'h' || g == 'd' {
        g
    } else {
        'd'
    }
}

/// An answer when a game is to be announced.
#[derive(PartialEq, Eq, Structural)]
pub enum AnnounceReply {
    /// This game is announced.
    Game(char),
    /// Ouvert is announced; the game is still to be told.
    Ouvert,
    /// The answer is not understood; ask again.
    Again,
}

/// What a typed line answers when game `current` is offered: `y` or an
/// empty line take the offered game, a game letter announces that game, `o`
/// announces Ouvert, and anything else asks again.
pub open spec fn announce_answer(current: char, line: Seq<char>) -> AnnounceReply {
    match typed_word(line) {
        Some(w) => if w == seq!['y'] || w.len() == 0 {
            AnnounceReply::Game(offered(current))
        } else if game_named(w) is Some {
            AnnounceReply::Game(game_named(w)->0)
        } else if w == seq!['o'] {
            AnnounceReply::Ouvert
        } else {
            AnnounceReply::Again
        },
        None => AnnounceReply::Again,
    }
}

/// Reads the answer typed when game `current` is offered (see
/// `announce_answer`).
pub fn announce_reply(current: char, line: &str) -> (r: AnnounceReply)
    ensures
        r == announce_answer(current, line@),
{
    let n = line.unicode_len();
    if n == 0 || line.get_char(n - 1) != '\n' {
        return AnnounceReply::Again;
    }
    if n == 1 {
        assert(line@.drop_last() =~= Seq::<char>::empty());
        return AnnounceReply::Game(offered_game(current));
    }
    if n != 2 {
        assert(line@.drop_last().len() > 1);
        return AnnounceReply::Again;
    }
    let c = line.get_char(0);
    assert(line@.drop_last() =~= seq![c]);
    if c == 'y' {
        AnnounceReply::Game(offered_game(current))
    } else if c == 'g' || c == 'b' || c == 'n' || c == 'c' || c == 's' || c == 'h' || c == 'd' {
        AnnounceReply::Game(c)
    } else if c == 'o' {
        AnnounceReply::Ouvert
    } else {
        AnnounceReply::Again
    }
}

} // verus!

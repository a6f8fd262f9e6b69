//! How cards and numbers are shown on a terminal.
use vstd::prelude::*;
use ansi_term::Colour;

verus! {

broadcast use vstd::seq_lib::group_seq_properties;

/// A terminal colour in which a card is painted.
#[derive(Clone, Copy, Debug, PartialEq, Eq)]
pub enum Ink {
    Black,
    Red,
    Green,
    Yellow,
    White,
}

/// The ANSI number of the foreground colour.
pub open spec fn ink_code(ink: Ink) -> Seq<char> {
    match ink {
        Ink::Black => "30"@,
        Ink::Red => "31"@,
        Ink::Green => "32"@,
        Ink::Yellow => "33"@,
        Ink::White => "37"@,
    }
}

/// `text` in bold with foreground colour `ink`: the escape sequence that
/// switches both on, the text, and the sequence that resets all styles.
pub open spec fn bold_painted(ink: Ink, text: Seq<char>) -> Seq<char> {
    "\u{1b}[1;"@ + ink_code(ink) + "m"@ + text + "\u{1b}[0m"@
}

/// `text` painted bold in `ink` with `ansi_term`: `Colour::bold()` then
/// `Style::paint`, written out through `Display`. For a bold style with a
/// foreground colour, `ansi_term` writes the prefix `ESC[1;<code>m`, the
/// text, and the suffix `ESC[0m`; that is what the contract states.
#[verifier::external_body]
fn paint_bold(ink: Ink, text: &str) -> (painted: String)
    ensures
        painted@ == bold_painted(ink, text@),
{
    let colour = match ink {
        Ink::Black => Colour::Black,
        Ink::Red => Colour::Red,
        Ink::Green => Colour::Green,
        Ink::Yellow => Colour::Yellow,
        Ink::White => Colour::White,
    };
    format!("{}", colour.bold().paint(text))
}

/// How the face of a card is written.
pub open spec fn face_text(c: u8) -> Seq<char> {
    if c % 8 == 0 {
        " A"@
    } else if c % 8 == 1 {
        "10"@
    } else if c % 8 == 2 {
        " K"@
    } else if c % 8 == 3 {
        " Q"@
    } else if c % 8 == 4 {
        " J"@
    } else if c % 8 == 5 {
        " 9"@
    } else if c % 8 == 6 {
        " 8"@
    } else {
        " 7"@
    }
}

/// The symbol of the suit of a card.
pub open spec fn suit_symbol(c: u8) -> Seq<char> {
    if c / 8 == 0 {
        "♣"@
    } else if c / 8 == 1 {
        "♠"@
    } else if c / 8 == 2 {
        "♥"@
    } else {
        "♦"@
    }
}

/// The colour of a suit: clubs black, spades green, hearts red, diamonds yellow.
pub open spec fn suit_ink(c: u8) -> Ink {
    if c / 8 == 0 {
        Ink::Black
    } else if c / 8 == 1 {
        Ink::Green
    } else if c / 8 == 2 {
        Ink::Red
    } else {
        Ink::Yellow
    }
}

/// A card as shown: face and suit symbol, bold, in the suit's colour, or
/// in white when it is not to be shown in colour.
pub open spec fn card_text(c: u8, in_color: bool) -> Seq<char> {
    bold_painted(if in_color { suit_ink(c) } else { Ink::White }, face_text(c) + suit_symbol(c))
}

/// The card `card` as shown on the terminal (see `card_text`).
pub fn card_label(card: u8, in_color: bool) -> (label: String)
    requires
        card < 32,
    ensures
        label@ == card_text(card, in_color),
{
    let face = match card % 8 {
        0 => " A",
        1 => "10",
        2 => " K",
        3 => " Q",
        4 => " J",
        5 => " 9",
        6 => " 8",
        _ => " 7",
    };
    let symbol = match card / 8 {
        0 => "♣",
        1 => "♠",
        2 => "♥",
        _ => "♦",
    };
    let ink = if !in_color {
        Ink::White
    } else {
        match card / 8 {
            0 => Ink::Black,
            1 => Ink::Green,
            2 => Ink::Red,
            _ => Ink::Yellow,
        }
    };
    let mut text = String::from_str(face);
    text.append(symbol);
    paint_bold(ink, text.as_str())
}

/// The decimal digit `d` as a character.
pub open spec fn digit_char(d: int) -> char {
    if d == 0 {
        '0'
    } else if d == 1 {
        '1'
    } else if d == 2 {
        '2'
    } else if d == 3 {
        '3'
    } else if d == 4 {
        '4'
    } else if d == 5 {
        '5'
    } else if d == 6 {
        '6'
    } else if d == 7 {
        '7'
    } else if d == 8 {
        '8'
    } else {
        '9'
    }
}

/// A number written in decimal, without leading zeros.
pub open spec fn decimal(n: nat) -> Seq<char>
    decreases n,
{
    if n < 10 {
        seq![digit_char(n as int)]
    } else {
        decimal(n / 10) + seq![digit_char((n % 10) as int)]
    }
}

fn digit_str(d: u8) -> (s: &'static str)
    requires
        d < 10,
    ensures
        s@ == seq![digit_char(d as int)],
{
    proof {
        reveal_strlit("0");
        reveal_strlit("1");
        reveal_strlit("2");
        reveal_strlit("3");
        reveal_strlit("4");
        reveal_strlit("5");
        reveal_strlit("6");
        reveal_strlit("7");
        reveal_strlit("8");
        reveal_strlit("9");
    }
    let s = match d {
        0 => "0",
        1 => "1",
        2 => "2",
        3 => "3",
        4 => "4",
        5 => "5",
        6 => "6",
        7 => "7",
        8 => "8",
        _ => "9",
    };
    assert(s@ =~= seq![digit_char(d as int)]);
    s
}

/// Appends the decimal form of `n` to `text`.
pub fn push_decimal(text: &mut String, n: u8)
    ensures
        final(text)@ == old(text)@ + decimal(n as nat),
{
    if n >= 100 {
        text.append(digit_str(n / 100));
        text.append(digit_str((n / 10) % 10));
        text.append(digit_str(n % 10));
        assert((n as nat) / 10 == (n / 10) as nat);
        assert(((n / 10) as nat) / 10 == (n / 100) as nat);
        assert(decimal((n / 100) as nat) == seq![digit_char((n / 100) as int)]);
        assert(decimal(n as nat) == decimal((n as nat) / 10) + seq![digit_char(((n as nat) % 10) as int)]);
        assert(decimal((n / 10) as nat) == decimal((n / 100) as nat) + seq![digit_char(((n / 10) % 10) as int)]);
        assert(old(text)@ + decimal(n as nat) =~= old(text)@ + seq![digit_char((n / 100) as int)] + seq![
            digit_char(((n / 10) % 10) as int),
        ] + seq![digit_char((n % 10) as int)]);
    } else if n >= 10 {
        text.append(digit_str(n / 10));
        text.append(digit_str(n % 10));
        assert((n as nat) / 10 == (n / 10) as nat);
        assert(decimal((n / 10) as nat) == seq![digit_char((n / 10) as int)]);
        assert(decimal(n as nat) == decimal((n as nat) / 10) + seq![digit_char(((n as nat) % 10) as int)]);
        assert(old(text)@ + decimal(n as nat) =~= old(text)@ + seq![digit_char((n / 10) as int)] + seq![
            digit_char((n % 10) as int),
        ]);
    } else {
        text.append(digit_str(n));
    }
}

/// The numbers of the cards, each followed by a space.
pub open spec fn numbers_text(s: Seq<u8>) -> Seq<char>
    decreases s.len(),
{
    if s.len() == 0 {
        Seq::empty()
    } else {
        numbers_text(s.drop_last()) + decimal(s.last() as nat) + " "@
    }
}

/// The numbers of the cards, each followed by a space, and a line break.
pub fn cards_text(cards: &Vec<u8>) -> (text: String)
    ensures
        text@ == numbers_text(cards@) + "\n"@,
{
    let mut text = String::new();
    let mut index: usize = 0;
    while index < cards.len()
        invariant
            0 <= index <= cards.len(),
            text@ == numbers_text(cards@.take(index as int)),
        decreases cards.len() - index,
    {
        push_decimal(&mut text, cards[index]);
        text.append(" ");
        assert(cards@.take(index + 1).drop_last() =~= cards@.take(index as int));
        index = index + 1;
    }
    text.append("\n");
    assert(cards@.take(cards.len() as int) =~= cards@);
    text
}

/// Faces in the sequence in which a record shows a suit for a game other
/// than Null: the jack first, then ace, ten, king, queen, nine, eight, seven.
pub open spec fn record_faces_plain() -> Seq<u8> {
    seq![4u8, 0u8, 1u8, 2u8, 3u8, 5u8, 6u8, 7u8]
}

/// Faces in the sequence in which a record shows a suit in Null: ace,
/// king, queen, jack, ten, nine, eight, seven.
pub open spec fn record_faces_null() -> Seq<u8> {
    seq![0u8, 2u8, 3u8, 4u8, 1u8, 5u8, 6u8, 7u8]
}

/// The positions of the 32 cards of a record in the sequence in which they
/// are shown for game `g`: suit after suit from clubs to diamonds, eight
/// positions each.
pub open spec fn record_layout(g: char) -> Seq<u8> {
    let faces = if g == 'n' { record_faces_null() } else { record_faces_plain() };
    Seq::new(32, |i: int| ((i / 8) * 8 + faces[i % 8]) as u8)
}

/// The positions of a record in the sequence in which they are shown (see
/// `record_layout`).
pub fn record_layout_of(game: char) -> (layout: Vec<u8>)
    ensures
        layout@ == record_layout(game),
{
    let faces: [u8; 8] = if game == 'n' { [0, 2, 3, 4, 1, 5, 6, 7] } else { [4, 0, 1, 2, 3, 5, 6, 7] };
    let ghost fs = if game == 'n' { record_faces_null() } else { record_faces_plain() };
    assert(faces@ =~= fs);
    let mut layout: Vec<u8> = Vec::new();
    let mut i: usize = 0;
    while i < 32
        invariant
            0 <= i <= 32,
            faces@ == fs,
            fs == if game == 'n' { record_faces_null() } else { record_faces_plain() },
            layout@ == record_layout(game).take(i as int),
        decreases 32 - i,
    {
        assert(faces@[(i % 8) as int] < 8);
        layout.push(((i / 8) * 8) as u8 + faces[i % 8]);
        i = i + 1;
        assert(layout@ =~= record_layout(game).take(i as int));
    }
    assert(record_layout(game).take(32) =~= record_layout(game));
    layout
}

} // verus!

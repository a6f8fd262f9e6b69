//! The value of the declarer's game and the score it earns.
use vstd::prelude::*;
use crate::cards::{is_game, is_null_value};

verus! {

/// The base value of a game: Grand 24, Sächsische Spitze 20, clubs 12,
/// spades 11, hearts 10, diamonds 9 (Null has fixed values instead).
pub open spec fn base_value(g: char) -> int {
    if g == 'g' {
        24
    } else if g == 'b' {
        20
    } else if g == 'c' {
        12
    } else if g == 's' {
        11
    } else if g == 'h' {
        10
    } else {
        9
    }
}

/// The value of the declarer's game. Null: 23, Hand 35, Ouvert 46, Ouvert
/// Hand 59. Other games: the base value times the levels, which are the
/// matadors, one for the game, one for Hand, one for Schneider (90 points
/// or more), one for Schwarz (all 120 points in all 30 cards of tricks),
/// and one for Ouvert when played from the hand.
pub open spec fn game_value_of(
    matadors: u8,
    hand: bool,
    ouvert: bool,
    declarer_count: u8,
    tricks_len: usize,
    g: char,
) -> int {
    if g == 'n' {
        if hand {
            if ouvert { 59 } else { 35 }
        } else {
            if ouvert { 46 } else { 23 }
        }
    } else {
        let levels = matadors + 1 + (if hand { 1int } else { 0 }) + (if declarer_count >= 90 { 1int } else { 0 })
            + (if declarer_count == 120 && tricks_len == 30 { 1int } else { 0 }) + (if hand && ouvert { 1int } else { 0 });
        levels * base_value(g)
    }
}

/// Whether the value of the declarer's game (see `game_value_of`) fits in
/// a byte.
pub fn game_value_in_range(
    matadors: u8,
    hand: bool,
    ouvert: bool,
    declarer_count: u8,
    tricks_len: usize,
    game: char,
) -> (ok: bool)
    requires
        is_game(game),
    ensures
        ok == (game_value_of(matadors, hand, ouvert, declarer_count, tricks_len, game) <= 255),
{
    if game == 'n' {
        return true;
    }
    let base: u32 = if game == 'g' {
        24
    } else if game == 'b' {
        20
    } else if game == 'c' {
        12
    } else if game == 's' {
        11
    } else if game == 'h' {
        10
    } else {
        9
    };
    let mut levels: u32 = matadors as u32 + 1;
    if hand {
        levels = levels + 1;
    }
    if declarer_count >= 90u8 {
        levels = levels + 1;
    }
    if declarer_count == 120u8 && tricks_len == 30 {
        levels = levels + 1;
    }
    if hand && ouvert {
        levels = levels + 1;
    }
    assert(levels * base <= 260 * 24) by (nonlinear_arith)
        requires
            levels <= 260,
            base <= 24,
    ;
    levels * base <= 255
}

/// The value of the declarer's game (see `game_value_of`).
pub fn declarer_game_value(
    matadors: u8,
    hand: bool,
    ouvert: bool,
    declarer_count: u8,
    tricks_len: usize,
    game: char,
) -> (value: u8)
    requires
        is_game(game),
        game_value_of(matadors, hand, ouvert, declarer_count, tricks_len, game) <= 255,
    ensures
        value == game_value_of(matadors, hand, ouvert, declarer_count, tricks_len, game),
{
    if game == 'n' {
        return if hand {
            if ouvert { 59 } else { 35 }
        } else {
            if ouvert { 46 } else { 23 }
        };
    }
    let base: u8 = if game == 'g' {
        24
    } else if game == 'b' {
        20
    } else if game == 'c' {
        12
    } else if game == 's' {
        11
    } else if game == 'h' {
        10
    } else {
        9
    };
    let ghost levels = game_value_of(matadors, hand, ouvert, declarer_count, tricks_len, game) / base_value(game);
    assert(base > 0);
    assert(matadors * base <= 255) by (nonlinear_arith)
        requires
            (matadors + 1) * base <= 255,
            base > 0,
    {
    }
    let mut levels: u8 = matadors;
    // game
    levels = levels + 1;
    if hand {
        levels = levels + 1;
    }
    if declarer_count >= 90u8 {
        // Schneider
        levels = levels + 1;
    }
    if declarer_count == 120u8 && tricks_len == 30 {
        // Schwarz
        levels = levels + 1;
    }
    if hand && ouvert {
        levels = levels + 1;
    }
    assert(levels * base <= 255);
    levels * base
}

/// The declarer wins a Null game when he takes no trick; another game when
/// he counts more points than the two others together.
pub open spec fn declarer_wins(g: char, declarer_count: u8, team_count: u8, tricks_len: usize) -> bool {
    if g == 'n' {
        declarer_count == 0 || tricks_len == 0
    } else {
        declarer_count > team_count
    }
}

/// Whether the declarer won the play (see `declarer_wins`).
pub fn declarer_won(game: char, declarer_count: u8, team_count: u8, tricks_len: usize) -> (won: bool)
    ensures
        won == declarer_wins(game, declarer_count, team_count, tricks_len),
{
    if game == 'n' {
        declarer_count == 0 || tricks_len == 0
    } else {
        declarer_count > team_count
    }
}

/// The change of the declarer's score: the game value when he wins (and,
/// outside Null, his game is worth at least the value he bid), twice the
/// game value taken off when he loses.
pub open spec fn score_change_of(
    g: char,
    declarer_count: u8,
    team_count: u8,
    tricks_len: usize,
    decl_game_value: u8,
    game_value: u8,
) -> int {
    if declarer_wins(g, declarer_count, team_count, tricks_len) && (g == 'n' || decl_game_value >= game_value) {
        decl_game_value as int
    } else {
        -2 * decl_game_value
    }
}

/// The change of the declarer's score (see `score_change_of`). A won Null
/// game must have one of the four Null values.
pub fn score_change(
    game: char,
    declarer_count: u8,
    team_count: u8,
    tricks_len: usize,
    decl_game_value: u8,
    game_value: u8,
) -> (change: i32)
    requires
        game == 'n' && declarer_wins(game, declarer_count, team_count, tricks_len) ==> is_null_value(
            decl_game_value,
        ),
    ensures
        change == score_change_of(game, declarer_count, team_count, tricks_len, decl_game_value, game_value),
{
    if game == 'n' {
        // check Null first
        if declarer_count == 0 || tricks_len == 0 {
            decl_game_value as i32
        } else {
            -(2 * (decl_game_value as i32))
        }
    } else {
        if declarer_count > team_count {
            if decl_game_value >= game_value {
                decl_game_value as i32
            } else {
                -(2 * (decl_game_value as i32))
            }
        } else {
            -(2 * (decl_game_value as i32))
        }
    }
}

/// The name of a game.
pub open spec fn game_name(g: char) -> Seq<char> {
    if g == 'g' {
        "Grand"@
    } else if g == 'b' {
        "Sächsische Spitze"@
    } else if g == 'n' {
        "Null"@
    } else if g == 'c' {
        "Clubs"@
    } else if g == 's' {
        "Spades"@
    } else if g == 'h' {
        "Hearts"@
    } else {
        "Diamonds"@
    }
}

/// The words that follow the name of the game: " Hand " or " " (in Null
/// Ouvert Hand: " Ouvert Hand "), then "Ouvert " or nothing.
pub open spec fn announcement_of(g: char, hand: bool, ouvert: bool) -> (Seq<char>, Seq<char>, Seq<char>) {
    let hand_words = if g == 'n' && hand && ouvert {
        " Ouvert Hand "@
    } else if hand {
        " Hand "@
    } else {
        " "@
    };
    let ouvert_words = if g == 'n' {
        if ouvert && !hand { "Ouvert "@ } else { ""@ }
    } else if hand && ouvert {
        "Ouvert "@
    } else {
        ""@
    };
    (game_name(g), hand_words, ouvert_words)
}

/// The game as announced: its name, the Hand words and the Ouvert word
/// (see `announcement_of`).
pub fn announcement(game: char, hand: bool, ouvert: bool) -> (a: (String, String, String))
    requires
        is_game(game),
    ensures
        (a.0@, a.1@, a.2@) == announcement_of(game, hand, ouvert),
{
    let name = if game == 'g' {
        "Grand"
    } else if game == 'b' {
        "Sächsische Spitze"
    } else if game == 'n' {
        "Null"
    } else if game == 'c' {
        "Clubs"
    } else if game == 's' {
        "Spades"
    } else if game == 'h' {
        "Hearts"
    } else {
        "Diamonds"
    };
    let hand_words = if game == 'n' && hand && ouvert {
        " Ouvert Hand "
    } else if hand {
        " Hand "
    } else {
        " "
    };
    let ouvert_words = if game == 'n' {
        if ouvert && !hand { "Ouvert " } else { "" }
    } else if hand && ouvert {
        "Ouvert "
    } else {
        ""
    };
    (String::from_str(name), String::from_str(hand_words), String::from_str(ouvert_words))
}

/// Matadors that count for the announced game: those for Sächsische
/// Spitze in that game, the usual ones otherwise.
pub fn matadors_for(game: char, matadors: (u8, u8)) -> (m: u8)
    ensures
        m == if game == 'b' { matadors.1 } else { matadors.0 },
{
    if game == 'b' {
        matadors.1
    } else {
        matadors.0
    }
}

proof fn lemma_one_level_more(x: int, b: int)
    ensures
        (x + 1) * b == x * b + b,
{
    assert((x + 1) * b == x * b + b) by (nonlinear_arith);
}

/// How the value of a game is made up. Outside Null the simplest game
/// (no matador, not Hand, no Schneider) is worth the game's base value:
/// Grand 24, Sächsische Spitze 20, clubs 12, spades 11, hearts 10, diamonds
/// 9; and each of these adds that base value once: a matador, playing Hand,
/// Schneider (90 points or more, whether or not the game is played Hand),
/// Schwarz (all 120 points in all 30 cards), and Ouvert when played Hand
/// (Ouvert without Hand adds nothing). Null is worth 23, Hand 35, Ouvert 46
/// and Ouvert Hand 59, whatever the matadors and the cards taken.
pub proof fn lemma_game_value_levels(m: u8, hand: bool, ouvert: bool, c: u8, t: usize, g: char)
    requires
        is_game(g),
    ensures
        g == 'g' ==> game_value_of(0, false, false, 0, 0, g) == 24,
        g == 'b' ==> game_value_of(0, false, false, 0, 0, g) == 20,
        g == 'c' ==> game_value_of(0, false, false, 0, 0, g) == 12,
        g == 's' ==> game_value_of(0, false, false, 0, 0, g) == 11,
        g == 'h' ==> game_value_of(0, false, false, 0, 0, g) == 10,
        g == 'd' ==> game_value_of(0, false, false, 0, 0, g) == 9,
        g != 'n' && m < 255 ==> game_value_of((m + 1) as u8, hand, ouvert, c, t, g) == game_value_of(
            m,
            hand,
            ouvert,
            c,
            t,
            g,
        ) + game_value_of(0, false, false, 0, 0, g),
        g != 'n' && 90 <= c < 120 ==> game_value_of(m, hand, ouvert, c, t, g) == game_value_of(
            m,
            hand,
            ouvert,
            0,
            t,
            g,
        ) + game_value_of(0, false, false, 0, 0, g),
        g != 'n' ==> game_value_of(m, hand, ouvert, 120, 30, g) == game_value_of(m, hand, ouvert, 119, 30, g)
            + game_value_of(0, false, false, 0, 0, g),
        g != 'n' && t != 30 ==> game_value_of(m, hand, ouvert, 120, t, g) == game_value_of(
            m,
            hand,
            ouvert,
            119,
            t,
            g,
        ),
        g != 'n' ==> game_value_of(m, true, false, c, t, g) == game_value_of(m, false, false, c, t, g)
            + game_value_of(0, false, false, 0, 0, g),
        g != 'n' ==> game_value_of(m, true, true, c, t, g) == game_value_of(m, true, false, c, t, g)
            + game_value_of(0, false, false, 0, 0, g),
        g != 'n' ==> game_value_of(m, false, true, c, t, g) == game_value_of(m, false, false, c, t, g),
        g == 'n' ==> game_value_of(m, hand, ouvert, c, t, g) == if hand {
            if ouvert { 59int } else { 35int }
        } else {
            if ouvert { 46int } else { 23int }
        },
{
    if g != 'n' {
        let b = base_value(g);
        assert(game_value_of(0, false, false, 0, 0, g) == b);
        let h = if hand { 1int } else { 0 };
        let o = if hand && ouvert { 1int } else { 0 };
        let sn = if c >= 90 { 1int } else { 0 };
        let sw = if c == 120 && t == 30 { 1int } else { 0 };
        let sw30 = if t == 30 { 1int } else { 0 };
        // a matador more
        lemma_one_level_more(m + 1 + h + sn + sw + o, b);
        // Schneider
        lemma_one_level_more(m + 1 + h + o, b);
        // Schwarz
        lemma_one_level_more(m + 1 + h + 1 + o, b);
        // Hand
        lemma_one_level_more(m + 1 + sn + sw, b);
        // Ouvert Hand
        lemma_one_level_more(m + 1 + 1 + sn + sw, b);
    }
}

} // verus!

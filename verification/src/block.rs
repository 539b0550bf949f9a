use vstd::prelude::*;

use crate::arena::Render;
use crate::text::push_char;

verus! {

/// The building blocks of a regular expression tree.
#[derive(Copy, Clone, PartialEq, Eq, Structural)]
pub enum RegexBuildingBlock {
    CharacterLiteral(char),
    Concatenation,
    CharacterClass(char, char),
    Repeat(u8, u8),
    Or,
    OpeningBraces,
    ClosingBraces,
    ClosedBraces,
}

/// The decimal digit `d`, for `d < 10`.
pub open spec fn digit_char(d: int) -> char {
    if d == 0 { '0' }
    else if d == 1 { '1' }
    else if d == 2 { '2' }
    else if d == 3 { '3' }
    else if d == 4 { '4' }
    else if d == 5 { '5' }
    else if d == 6 { '6' }
    else if d == 7 { '7' }
    else if d == 8 { '8' }
    else { '9' }
}

/// `n` written in decimal, without leading zeros.
pub open spec fn decimal(n: u8) -> Seq<char> {
    if n < 10 {
        seq![digit_char(n as int)]
    } else if n < 100 {
        seq![digit_char(n as int / 10), digit_char(n as int % 10)]
    } else {
        seq![digit_char(n as int / 100), digit_char((n as int / 10) % 10), digit_char(n as int % 10)]
    }
}

/// The postfix text of a building block: a literal is itself, a concatenation is `#`, a class
/// is `[start-end]`, a repeat is `?`, `*`, `+`, `{n}` or `{min,max}`, an alternative is `|`,
/// braces are `(` and `)`, and a closed pair of braces leaves no text.
pub open spec fn block_text(b: RegexBuildingBlock) -> Seq<char> {
    match b {
        RegexBuildingBlock::CharacterLiteral(c) => seq![c],
        RegexBuildingBlock::Concatenation => seq!['#'],
        RegexBuildingBlock::CharacterClass(s, e) => seq!['[', s, '-', e, ']'],
        RegexBuildingBlock::Repeat(min, max) => {
            if min == 0 && max == 1 {
                seq!['?']
            } else if min == 0 && max == u8::MAX {
                seq!['*']
            } else if min == 1 && max == u8::MAX {
                seq!['+']
            } else if min == max {
                seq!['{'] + decimal(min) + seq!['}']
            } else {
                seq!['{'] + decimal(min) + seq![','] + decimal(max) + seq!['}']
            }
        },
        RegexBuildingBlock::Or => seq!['|'],
        RegexBuildingBlock::OpeningBraces => seq!['('],
        RegexBuildingBlock::ClosingBraces => seq![')'],
        RegexBuildingBlock::ClosedBraces => Seq::empty(),
    }
}

fn digit(d: u8) -> (c: char)
    requires
        d < 10,
    ensures
        c == digit_char(d as int),
{
    match d {
        0 => '0',
        1 => '1',
        2 => '2',
        3 => '3',
        4 => '4',
        5 => '5',
        6 => '6',
        7 => '7',
        8 => '8',
        _ => '9',
    }
}

fn push_decimal(text: &mut String, n: u8)
    ensures
        final(text)@ == old(text)@ + decimal(n),
{
    if n >= 100 {
        push_char(text, digit(n / 100));
    }
    if n >= 10 {
        push_char(text, digit((n / 10) % 10));
    }
    push_char(text, digit(n % 10));
    proof {
        assert(final(text)@ =~= old(text)@ + decimal(n));
    }
}

impl Render for RegexBuildingBlock {
    open spec fn spec_render(&self) -> Seq<char> {
        block_text(*self)
    }

    fn render(&self) -> (text: String) {
        let mut text = String::new();
        match *self {
            RegexBuildingBlock::CharacterLiteral(c) => {
                push_char(&mut text, c);
            },
            RegexBuildingBlock::Concatenation => {
                push_char(&mut text, '#');
            },
            RegexBuildingBlock::CharacterClass(start, end) => {
                push_char(&mut text, '[');
                push_char(&mut text, start);
                push_char(&mut text, '-');
                push_char(&mut text, end);
                push_char(&mut text, ']');
            },
            RegexBuildingBlock::Repeat(min, max) => {
                if min == 0 && max == 1 {
                    push_char(&mut text, '?');
                } else if min == 0 && max == u8::MAX {
                    push_char(&mut text, '*');
                } else if min == 1 && max == u8::MAX {
                    push_char(&mut text, '+');
                } else if min == max {
                    push_char(&mut text, '{');
                    push_decimal(&mut text, min);
                    push_char(&mut text, '}');
                } else {
                    push_char(&mut text, '{');
                    push_decimal(&mut text, min);
                    push_char(&mut text, ',');
                    push_decimal(&mut text, max);
                    push_char(&mut text, '}');
                }
            },
            RegexBuildingBlock::Or => {
                push_char(&mut text, '|');
            },
            RegexBuildingBlock::OpeningBraces => {
                push_char(&mut text, '(');
            },
            RegexBuildingBlock::ClosingBraces => {
                push_char(&mut text, ')');
            },
            RegexBuildingBlock::ClosedBraces => {},
        }
        proof {
            assert(text@ =~= block_text(*self));
        }
        text
    }
}

} // verus!

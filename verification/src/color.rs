//! Colors: a base palette of thirty colors, and their hexadecimal notation.
use vstd::prelude::*;
use vstd::string::StringExecFns;

verus! {

/// The number of colors of the base palette.
pub const PALETTE_SIZE: usize = 30;

/// The colors of the base palette, as red, green and blue channels.
pub open spec fn palette_spec() -> Seq<(u8, u8, u8)> {
    seq![
        (31u8, 119u8, 180u8),
        (255u8, 127u8, 14u8),
        (44u8, 160u8, 44u8),
        (214u8, 39u8, 40u8),
        (148u8, 103u8, 189u8),
        (140u8, 86u8, 75u8),
        (227u8, 119u8, 194u8),
        (127u8, 127u8, 127u8),
        (188u8, 189u8, 34u8),
        (23u8, 190u8, 207u8),
        (174u8, 199u8, 232u8),
        (255u8, 187u8, 120u8),
        (152u8, 223u8, 138u8),
        (255u8, 152u8, 150u8),
        (197u8, 176u8, 213u8),
        (196u8, 156u8, 148u8),
        (247u8, 182u8, 210u8),
        (199u8, 199u8, 199u8),
        (219u8, 219u8, 141u8),
        (158u8, 218u8, 229u8),
        (255u8, 255u8, 51u8),
        (0u8, 128u8, 128u8),
        (128u8, 0u8, 128u8),
        (255u8, 165u8, 0u8),
        (0u8, 255u8, 0u8),
        (128u8, 128u8, 128u8),
        (255u8, 20u8, 147u8),
        (75u8, 0u8, 130u8),
        (255u8, 69u8, 0u8),
        (0u8, 191u8, 255u8),
    ]
}

/// The colors of the base palette, in order.
pub fn base_palette() -> (palette: Vec<(u8, u8, u8)>)
    ensures
        palette@ == palette_spec(),
        palette@.len() == PALETTE_SIZE,
{
    let palette = vec![
        (31u8, 119u8, 180u8),
        (255u8, 127u8, 14u8),
        (44u8, 160u8, 44u8),
        (214u8, 39u8, 40u8),
        (148u8, 103u8, 189u8),
        (140u8, 86u8, 75u8),
        (227u8, 119u8, 194u8),
        (127u8, 127u8, 127u8),
        (188u8, 189u8, 34u8),
        (23u8, 190u8, 207u8),
        (174u8, 199u8, 232u8),
        (255u8, 187u8, 120u8),
        (152u8, 223u8, 138u8),
        (255u8, 152u8, 150u8),
        (197u8, 176u8, 213u8),
        (196u8, 156u8, 148u8),
        (247u8, 182u8, 210u8),
        (199u8, 199u8, 199u8),
        (219u8, 219u8, 141u8),
        (158u8, 218u8, 229u8),
        (255u8, 255u8, 51u8),
        (0u8, 128u8, 128u8),
        (128u8, 0u8, 128u8),
        (255u8, 165u8, 0u8),
        (0u8, 255u8, 0u8),
        (128u8, 128u8, 128u8),
        (255u8, 20u8, 147u8),
        (75u8, 0u8, 130u8),
        (255u8, 69u8, 0u8),
        (0u8, 191u8, 255u8),
    ];
    assert(palette@ =~= palette_spec());
    palette
}

/// The hexadecimal digit of `d`, in upper case.
pub open spec fn hex_char(d: int) -> char {
    if d == 0 {
        '0'
    } else if d == 1 {
        '1'
    } else if d == 2 {
        '2'
    } else if d == 3 {
        '3'
    } else if d == 4 {
        '4'
    } else if d == 5 {
        '5'
    } else if d == 6 {
        '6'
    } else if d == 7 {
        '7'
    } else if d == 8 {
        '8'
    } else if d == 9 {
        '9'
    } else if d == 10 {
        'A'
    } else if d == 11 {
        'B'
    } else if d == 12 {
        'C'
    } else if d == 13 {
        'D'
    } else if d == 14 {
        'E'
    } else {
        'F'
    }
}

/// The two hexadecimal digits of a channel, in upper case.
pub open spec fn hex_pair(x: u8) -> Seq<char> {
    seq![hex_char(x as int / 16), hex_char(x as int % 16)]
}

/// The notation `#RRGGBB` of a color, with upper-case hexadecimal digits.
pub open spec fn hex_color(r: u8, g: u8, b: u8) -> Seq<char> {
    seq!['#'] + hex_pair(r) + hex_pair(g) + hex_pair(b)
}

/// The hexadecimal digit of `d`.
fn hex_digit(d: u8) -> (s: &'static str)
    requires
        d < 16,
    ensures
        s@ == seq![hex_char(d as int)],
{
    match d {
        0 => {
            proof {
                reveal_strlit("0");
            }
            "0"
        },
        1 => {
            proof {
                reveal_strlit("1");
            }
            "1"
        },
        2 => {
            proof {
                reveal_strlit("2");
            }
            "2"
        },
        3 => {
            proof {
                reveal_strlit("3");
            }
            "3"
        },
        4 => {
            proof {
                reveal_strlit("4");
            }
            "4"
        },
        5 => {
            proof {
                reveal_strlit("5");
            }
            "5"
        },
        6 => {
            proof {
                reveal_strlit("6");
            }
            "6"
        },
        7 => {
            proof {
                reveal_strlit("7");
            }
            "7"
        },
        8 => {
            proof {
                reveal_strlit("8");
            }
            "8"
        },
        9 => {
            proof {
                reveal_strlit("9");
            }
            "9"
        },
        10 => {
            proof {
                reveal_strlit("A");
            }
            "A"
        },
        11 => {
            proof {
                reveal_strlit("B");
            }
            "B"
        },
        12 => {
            proof {
                reveal_strlit("C");
            }
            "C"
        },
        13 => {
            proof {
                reveal_strlit("D");
            }
            "D"
        },
        14 => {
            proof {
                reveal_strlit("E");
            }
            "E"
        },
        _ => {
            proof {
                reveal_strlit("F");
            }
            "F"
        },
    }
}

/// Append the two hexadecimal digits of `x` to `s`.
fn push_hex_pair(s: &mut String, x: u8)
    ensures
        final(s)@ == old(s)@ + hex_pair(x),
{
    s.append(hex_digit(x / 16));
    s.append(hex_digit(x % 16));
    assert(final(s)@ =~= old(s)@ + hex_pair(x));
}

/// The notation `#RRGGBB` of the color of channels `r`, `g` and `b`, with upper-case
/// hexadecimal digits.
pub fn rgb_to_hex(r: u8, g: u8, b: u8) -> (s: String)
    ensures
        s@ == hex_color(r, g, b),
{
    let mut s = String::from_str("#");
    proof {
        reveal_strlit("#");
    }
    push_hex_pair(&mut s, r);
    push_hex_pair(&mut s, g);
    push_hex_pair(&mut s, b);
    s
}

/// The notation of each of `colors`, in order.
pub fn hex_colors(colors: &Vec<(u8, u8, u8)>) -> (r: Vec<String>)
    ensures
        r@.len() == colors@.len(),
        forall|i: int|
            0 <= i < colors@.len() ==> (#[trigger] r@[i])@ == hex_color(
                colors@[i].0,
                colors@[i].1,
                colors@[i].2,
            ),
{
    let mut r: Vec<String> = Vec::new();
    let mut i: usize = 0;
    while i < colors.len()
        invariant
            i <= colors@.len(),
            r@.len() == i,
            forall|j: int|
                0 <= j < i ==> (#[trigger] r@[j])@ == hex_color(
                    colors@[j].0,
                    colors@[j].1,
                    colors@[j].2,
                ),
        decreases colors@.len() - i,
    {
        let (red, green, blue) = colors[i];
        r.push(rgb_to_hex(red, green, blue));
        i = i + 1;
    }
    r
}

} // verus!

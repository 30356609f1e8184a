//! Color helpers: hex color text and an exact integer HSL conversion.
//!
//! Hex text decodes two digits per byte (a trailing lone digit is its own
//! value, as the step-by-two reading gives). The RGB-to-HSL conversion is
//! done in exact integer arithmetic, scaled straight to the ranges the bridge
//! uses: hue in 0..=65535 across the circle, saturation and lightness in
//! 0..=254.

use vstd::prelude::*;

use crate::digits::is_digit_char;
use crate::errors::DecodeError;

verus! {

/// Whether `c` is a hexadecimal digit.
pub open spec fn is_hex_digit(c: char) -> bool {
    is_digit_char(c) || (97 <= c as u32 && c as u32 <= 102) || (65 <= c as u32 && c as u32 <= 70)
}

/// The value of a hexadecimal digit.
pub open spec fn hex_val(c: char) -> nat {
    if is_digit_char(c) {
        crate::digits::char_digit(c)
    } else if 97 <= c as u32 && c as u32 <= 102 {
        (c as u32 - 87) as nat
    } else if 65 <= c as u32 && c as u32 <= 70 {
        (c as u32 - 55) as nat
    } else {
        0
    }
}

/// The bytes a hex string denotes, two digits each, a lone trailing digit by
/// itself.
pub open spec fn hex_bytes(s: Seq<char>) -> Seq<u8>
    decreases s.len(),
{
    if s.len() == 0 {
        Seq::<u8>::empty()
    } else if s.len() == 1 {
        seq![hex_val(s[0]) as u8]
    } else {
        seq![(hex_val(s[0]) * 16 + hex_val(s[1])) as u8] + hex_bytes(s.skip(2))
    }
}

/// The value of one hex digit character, or `None` on any other character.
fn hex_digit_val(c: char) -> (r: Option<u8>)
    ensures
        r is Some <==> is_hex_digit(c),
        r is Some ==> r.unwrap() as nat == hex_val(c),
{
    match crate::digits::digit_of_char(c) {
        Some(d) => Some(d as u8),
        None => {
            let x = c as u32;
            if 97 <= x && x <= 102 {
                Some((x - 87) as u8)
            } else if 65 <= x && x <= 70 {
                Some((x - 55) as u8)
            } else {
                None
            }
        },
    }
}

/// Decodes a hex color string to its bytes.
///
/// Succeeds exactly when every character is a hex digit (the empty string
/// gives no bytes); each pair of digits is one byte, and a lone trailing
/// digit is its own value.
pub fn hex_to_rgb(s: &str) -> (r: Result<Vec<u8>, DecodeError>)
    ensures
        r is Ok <==> (forall|i: int| 0 <= i < s@.len() ==> is_hex_digit(s@[i])),
        r is Ok ==> r.unwrap()@ == hex_bytes(s@),
        r is Err ==> r.unwrap_err() == DecodeError::Malformed,
{
    let n = s.unicode_len();
    let mut out: Vec<u8> = Vec::new();
    proof {
        assert(s@.skip(0) =~= s@);
        assert(out@ + hex_bytes(s@) =~= hex_bytes(s@));
    }
    let mut i: usize = 0;
    while i < n
        invariant
            n == s@.len(),
            i <= n,
            forall|k: int| 0 <= k < i ==> is_hex_digit(s@[k]),
            out@ + hex_bytes(s@.skip(i as int)) == hex_bytes(s@),
        decreases n - i,
    {
        let hi = match hex_digit_val(s.get_char(i)) {
            Some(v) => v,
            None => {
                return Err(DecodeError::Malformed);
            },
        };
        assert(hi <= 15);
        if i + 1 < n {
            let lo = match hex_digit_val(s.get_char(i + 1)) {
                Some(v) => v,
                None => {
                    return Err(DecodeError::Malformed);
                },
            };
            assert(lo <= 15);
            let b0 = hi * 16 + lo;
            let ghost pre_out = out@;
            out.push(b0);
            proof {
                let rest = s@.skip(i as int);
                assert(rest.len() >= 2);
                assert(rest[0] == s@[i as int]);
                assert(rest[1] == s@[i + 1]);
                assert(rest.skip(2) =~= s@.skip(i + 2));
                assert(b0 == (hex_val(rest[0]) * 16 + hex_val(rest[1])) as u8);
                assert(hex_bytes(rest) == seq![b0] + hex_bytes(s@.skip(i + 2)));
                assert(out@ + hex_bytes(s@.skip(i + 2)) =~= pre_out + hex_bytes(rest));
            }
            i = i + 2;
        } else {
            let ghost pre_out = out@;
            out.push(hi);
            proof {
                let rest = s@.skip(i as int);
                assert(rest.len() == 1);
                assert(rest[0] == s@[i as int]);
                assert(hex_bytes(rest) =~= seq![hi]);
                assert(s@.skip(i + 1).len() == 0);
                assert(hex_bytes(s@.skip(i + 1)) =~= Seq::<u8>::empty());
                assert(out@ + hex_bytes(s@.skip(i + 1)) =~= pre_out + hex_bytes(rest));
            }
            i = i + 1;
        }
    }
    proof {
        assert(hex_bytes(s@.skip(i as int)) =~= Seq::<u8>::empty());
        assert(out@ =~= out@ + Seq::<u8>::empty());
    }
    Ok(out)
}

/// The larger of the last two of three channel values, then of all three:
/// written to mirror the running-maximum computation.
pub open spec fn max3(r: int, g: int, b: int) -> int {
    let m = if g > r {
        g
    } else {
        r
    };
    if b > m {
        b
    } else {
        m
    }
}

/// The smallest of three channel values.
pub open spec fn min3(r: int, g: int, b: int) -> int {
    let m = if g < r {
        g
    } else {
        r
    };
    if b < m {
        b
    } else {
        m
    }
}

/// Hue position scaled by six times the chroma: the exact integer form of the
/// usual sector formula, in [0, 6*delta).
pub open spec fn hue_pos(r: int, g: int, b: int) -> int {
    let mx = max3(r, g, b);
    let d = mx - min3(r, g, b);
    if mx == r {
        if g >= b {
            g - b
        } else {
            6 * d - (b - g)
        }
    } else if mx == g {
        if b >= r {
            2 * d + (b - r)
        } else {
            2 * d - (r - b)
        }
    } else {
        if r >= g {
            4 * d + (r - g)
        } else {
            4 * d - (g - r)
        }
    }
}

/// The integer HSL of an RGB triple, scaled to the bridge's ranges: hue in
/// 0..=65535, saturation and lightness in 0..=254.
pub open spec fn hsl_spec(r: int, g: int, b: int) -> (int, int, int) {
    let mx = max3(r, g, b);
    let mn = min3(r, g, b);
    let d = mx - mn;
    let sum = mx + mn;
    let dev = if sum >= 255 {
        sum - 255
    } else {
        255 - sum
    };
    let h = if d == 0 {
        0
    } else {
        hue_pos(r, g, b) * 65535 / (6 * d)
    };
    let s = if d == 0 {
        0
    } else {
        d * 254 / (255 - dev)
    };
    let l = sum * 254 / 510;
    (h, s, l)
}

/// Converts an RGB triple to the bridge's HSL ranges in exact integer
/// arithmetic.
pub fn rgb_to_hsl(r: u8, g: u8, b: u8) -> (hsl: (u16, u8, u8))
    ensures
        (hsl.0 as int, hsl.1 as int, hsl.2 as int) == hsl_spec(r as int, g as int, b as int),
        hsl.1 <= 254,
        hsl.2 <= 254,
{
    let mut mx: u32 = r as u32;
    if (g as u32) > mx {
        mx = g as u32;
    }
    if (b as u32) > mx {
        mx = b as u32;
    }
    let mut mn: u32 = r as u32;
    if (g as u32) < mn {
        mn = g as u32;
    }
    if (b as u32) < mn {
        mn = b as u32;
    }
    let d: u32 = mx - mn;
    let sum: u32 = mx + mn;
    let dev: u32 = if sum >= 255 {
        sum - 255
    } else {
        255 - sum
    };
    let l: u32 = sum * 254 / 510;
    let h: u32;
    let s: u32;
    if d == 0 {
        h = 0;
        s = 0;
    } else {
        let pos: u32 = if mx == r as u32 {
            if g >= b {
                (g - b) as u32
            } else {
                6 * d - (b - g) as u32
            }
        } else if mx == g as u32 {
            if b >= r {
                2 * d + (b - r) as u32
            } else {
                2 * d - (r - b) as u32
            }
        } else {
            if r >= g {
                4 * d + (r - g) as u32
            } else {
                4 * d - (g - r) as u32
            }
        };
        assert(pos == hue_pos(r as int, g as int, b as int));
        assert(pos < 6 * d);
        h = pos * 65535 / (6 * d);
        assert(h < 65535) by (nonlinear_arith)
            requires
                h == pos * 65535 / (6 * d),
                pos < 6 * d,
                d >= 1,
        ;
        assert(255 - dev >= d) by {
            if sum >= 255 {
                assert(mx <= 255);
            }
        }
        s = d * 254 / (255 - dev);
        assert(s <= 254) by (nonlinear_arith)
            requires
                s == d * 254 / (255 - dev),
                1 <= d <= 255 - dev,
        ;
    }
    assert(l <= 254) by (nonlinear_arith)
        requires
            l == sum * 254 / 510,
            sum <= 510,
    ;
    (h as u16, s as u8, l as u8)
}

/// Converts a hex color string to the bridge's HSL ranges.
///
/// Succeeds exactly when the string is all hex digits and long enough to
/// denote at least three bytes; the conversion then reads the first three
/// bytes as red, green and blue.
pub fn hex_to_hsl(s: &str) -> (r: Result<(u16, u8, u8), DecodeError>)
    ensures
        r is Ok <==> ((forall|i: int| 0 <= i < s@.len() ==> is_hex_digit(s@[i])) && s@.len() >= 5),
        r is Ok ==> {
            let bs = hex_bytes(s@);
            r.unwrap() == rgb_to_hsl_value(bs[0], bs[1], bs[2])
        },
        r is Err ==> r.unwrap_err() == DecodeError::Malformed,
{
    let bytes = match hex_to_rgb(s) {
        Ok(v) => v,
        Err(e) => {
            return Err(e);
        },
    };
    if bytes.len() < 3 {
        proof {
            lemma_hex_bytes_len(s@);
        }
        return Err(DecodeError::Malformed);
    }
    proof {
        lemma_hex_bytes_len(s@);
    }
    let hsl = rgb_to_hsl(bytes[0], bytes[1], bytes[2]);
    proof {
        let bs = hex_bytes(s@);
        assert((hsl.0 as int, hsl.1 as int, hsl.2 as int) == hsl_spec(
            bs[0] as int,
            bs[1] as int,
            bs[2] as int,
        ));
    }
    Ok(hsl)
}

/// The HSL triple of three bytes, at the executable types.
pub open spec fn rgb_to_hsl_value(r: u8, g: u8, b: u8) -> (u16, u8, u8) {
    let hsl = hsl_spec(r as int, g as int, b as int);
    (hsl.0 as u16, hsl.1 as u8, hsl.2 as u8)
}

/// A hex string of length `n` denotes `(n + 1) / 2` bytes.
pub proof fn lemma_hex_bytes_len(s: Seq<char>)
    ensures
        hex_bytes(s).len() == (s.len() + 1) / 2,
    decreases s.len(),
{
    if s.len() >= 2 {
        lemma_hex_bytes_len(s.skip(2));
    }
}

} // verus!

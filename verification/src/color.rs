use vstd::prelude::*;
use vstd::string::StrSliceExecFns;
use crate::digits::digit_run_end;
use crate::digits::digits_value;

verus! {

/// A resolved color: one of the fixed palette, or an explicit RGB triple.
#[derive(PartialEq, Eq, Structural, Clone, Copy, Debug)]
pub enum ColorValue {
    Black,
    Red,
    Green,
    Yellow,
    Blue,
    Purple,
    Cyan,
    White,
    Rgb(u8, u8, u8),
}

/// The code point a character compares as when matched case-insensitively:
/// ASCII capitals fold to their lower-case forms.
pub open spec fn lower_code(c: char) -> int {
    if 65 <= c as int && c as int <= 90 {
        c as int + 32
    } else {
        c as int
    }
}

/// Whether `s` spells `kw` (a lower-case word) up to ASCII case.
pub open spec fn matches_kw(s: Seq<char>, kw: Seq<char>) -> bool {
    s.len() == kw.len() && forall|j: int| 0 <= j < s.len() ==> lower_code(s[j]) == #[trigger] (
    kw[j]) as int
}

/// The position of the first comma at or after `i`, or the end.
pub open spec fn comma_end(s: Seq<char>, i: int) -> int
    decreases s.len() - i,
{
    if i < 0 || i >= s.len() {
        s.len() as int
    } else if s[i] == ',' {
        i
    } else {
        comma_end(s, i + 1)
    }
}

/// An explicit triple: three runs of digits separated by two commas, nothing
/// else, each value at most 255.
pub open spec fn spec_parse_rgb(s: Seq<char>) -> Option<ColorValue> {
    let c1 = comma_end(s, 0);
    let c2 = comma_end(s, c1 + 1);
    if c1 < s.len() && c2 < s.len() && digit_run_end(s, 0) == c1 && 0 < c1 && digit_run_end(
        s,
        c1 + 1,
    ) == c2 && c1 + 1 < c2 && digit_run_end(s, c2 + 1) == s.len() && c2 + 1 < s.len()
        && digits_value(s, 0, c1) <= 255 && digits_value(s, c1 + 1, c2) <= 255 && digits_value(
        s,
        c2 + 1,
        s.len() as int,
    ) <= 255 {
        Some(
            ColorValue::Rgb(
                digits_value(s, 0, c1) as u8,
                digits_value(s, c1 + 1, c2) as u8,
                digits_value(s, c2 + 1, s.len() as int) as u8,
            ),
        )
    } else {
        None
    }
}

/// What a color token resolves to: a palette name matched up to ASCII case,
/// else an RGB triple, else nothing.
pub open spec fn spec_parse_color(s: Seq<char>) -> Option<ColorValue> {
    if matches_kw(s, seq!['b', 'l', 'a', 'c', 'k']) {
        Some(ColorValue::Black)
    } else if matches_kw(s, seq!['r', 'e', 'd']) {
        Some(ColorValue::Red)
    } else if matches_kw(s, seq!['g', 'r', 'e', 'e', 'n']) {
        Some(ColorValue::Green)
    } else if matches_kw(s, seq!['y', 'e', 'l', 'l', 'o', 'w']) {
        Some(ColorValue::Yellow)
    } else if matches_kw(s, seq!['b', 'l', 'u', 'e']) {
        Some(ColorValue::Blue)
    } else if matches_kw(s, seq!['p', 'u', 'r', 'p', 'l', 'e']) {
        Some(ColorValue::Purple)
    } else if matches_kw(s, seq!['c', 'y', 'a', 'n']) {
        Some(ColorValue::Cyan)
    } else if matches_kw(s, seq!['w', 'h', 'i', 't', 'e']) {
        Some(ColorValue::White)
    } else {
        spec_parse_rgb(s)
    }
}

fn eq_lower_kw(s: &str, n: usize, kw: &str, klen: usize) -> (b: bool)
    requires
        n == s@.len(),
        klen == kw@.len(),
    ensures
        b == matches_kw(s@, kw@),
{
    if n != klen {
        return false;
    }
    let mut j: usize = 0;
    while j < n
        invariant
            n == s@.len() == kw@.len(),
            j <= n,
            forall|t: int| 0 <= t < j ==> lower_code(s@[t]) == #[trigger] (kw@[t]) as int,
        decreases n - j,
    {
        let cv = s.get_char(j) as u32;
        let lc: u32 = if cv >= 65 && cv <= 90 {
            cv + 32
        } else {
            cv
        };
        let kv = kw.get_char(j) as u32;
        if lc != kv {
            return false;
        }
        j = j + 1;
    }
    true
}

fn comma_end_exec(s: &str, i: usize, n: usize) -> (e: usize)
    requires
        n == s@.len(),
        i <= n,
    ensures
        e == comma_end(s@, i as int),
        i <= e <= n,
{
    let mut j = i;
    while j < n
        invariant
            n == s@.len(),
            i <= j <= n,
            comma_end(s@, i as int) == comma_end(s@, j as int),
        decreases n - j,
    {
        if s.get_char(j) == ',' {
            return j;
        }
        j = j + 1;
    }
    j
}

/// Scans the digit run at `t` and gives its exact value when it is small;
/// a run worth more than 255 only reports that it is too large.
fn scan_byte(s: &str, t: usize, n: usize) -> (r: (u32, usize))
    requires
        n == s@.len(),
        t <= n,
    ensures
        r.1 == digit_run_end(s@, t as int),
        t <= r.1 <= n,
        digits_value(s@, t as int, r.1 as int) <= 255 ==> r.0 == digits_value(
            s@,
            t as int,
            r.1 as int,
        ),
        digits_value(s@, t as int, r.1 as int) > 255 ==> r.0 > 255,
{
    let mut j = t;
    let mut acc: u32 = 0;
    loop
        invariant_except_break
            n == s@.len(),
            t <= j <= n,
            digit_run_end(s@, t as int) == digit_run_end(s@, j as int),
            digits_value(s@, t as int, j as int) <= 255 ==> acc == digits_value(
                s@,
                t as int,
                j as int,
            ),
            digits_value(s@, t as int, j as int) > 255 ==> acc > 255,
            acc <= 2559 + 9,
        ensures
            n == s@.len(),
            t <= j <= n,
            j as int == digit_run_end(s@, t as int),
            digits_value(s@, t as int, j as int) <= 255 ==> acc == digits_value(
                s@,
                t as int,
                j as int,
            ),
            digits_value(s@, t as int, j as int) > 255 ==> acc > 255,
        decreases n - j,
    {
        if j >= n {
            proof {
                assert(digit_run_end(s@, j as int) == j as int);
            }
            break;
        }
        let c = s.get_char(j);
        let cv = c as u32;
        if !(cv >= 48 && cv <= 57) {
            proof {
                assert(!crate::digits::is_digit_char(s@[j as int]));
                assert(digit_run_end(s@, j as int) == j as int);
            }
            break;
        }
        let d: u32 = cv - 48;
        proof {
            assert(crate::digits::is_digit_char(s@[j as int]));
            assert(digit_run_end(s@, j as int) == digit_run_end(s@, j + 1));
            let v = digits_value(s@, t as int, j as int);
            let v2 = digits_value(s@, t as int, j + 1);
            assert(v2 == v * 10 + (d as nat));
            if v > 255 {
                assert(v * 10 >= v) by (nonlinear_arith)
                    requires
                        v >= 0,
                ;
                assert(v2 > 255);
            }
        }
        if acc <= 255 {
            acc = acc * 10 + d;
        }
        j = j + 1;
    }
    (acc, j)
}

/// Reads an explicit `R,G,B` triple. Anything that is not exactly three
/// small decimal numbers joined by commas yields nothing.
pub fn parse_rgb(rgb_str: &str) -> (r: Option<ColorValue>)
    ensures
        r == spec_parse_rgb(rgb_str@),
{
    let n = rgb_str.unicode_len();
    let c1 = comma_end_exec(rgb_str, 0, n);
    if c1 >= n {
        return None;
    }
    let c2 = comma_end_exec(rgb_str, c1 + 1, n);
    if c2 >= n {
        return None;
    }
    let (v1, d1) = scan_byte(rgb_str, 0, n);
    let (v2, d2) = scan_byte(rgb_str, c1 + 1, n);
    let (v3, d3) = scan_byte(rgb_str, c2 + 1, n);
    if d1 == c1 && c1 > 0 && d2 == c2 && c1 + 1 < c2 && d3 == n && c2 + 1 < n && v1 <= 255 && v2
        <= 255 && v3 <= 255 {
        Some(ColorValue::Rgb(v1 as u8, v2 as u8, v3 as u8))
    } else {
        None
    }
}

/// Resolves a color token: a palette name, case-insensitively, or an
/// explicit `R,G,B` triple; anything else resolves to no color.
pub fn parse_color(color_str: &str) -> (r: Option<ColorValue>)
    ensures
        r == spec_parse_color(color_str@),
{
    let n = color_str.unicode_len();
    proof {
        reveal_strlit("black");
        reveal_strlit("red");
        reveal_strlit("green");
        reveal_strlit("yellow");
        reveal_strlit("blue");
        reveal_strlit("purple");
        reveal_strlit("cyan");
        reveal_strlit("white");
        assert("black"@ =~= seq!['b', 'l', 'a', 'c', 'k']);
        assert("red"@ =~= seq!['r', 'e', 'd']);
        assert("green"@ =~= seq!['g', 'r', 'e', 'e', 'n']);
        assert("yellow"@ =~= seq!['y', 'e', 'l', 'l', 'o', 'w']);
        assert("blue"@ =~= seq!['b', 'l', 'u', 'e']);
        assert("purple"@ =~= seq!['p', 'u', 'r', 'p', 'l', 'e']);
        assert("cyan"@ =~= seq!['c', 'y', 'a', 'n']);
        assert("white"@ =~= seq!['w', 'h', 'i', 't', 'e']);
    }
    if eq_lower_kw(color_str, n, "black", 5) {
        Some(ColorValue::Black)
    } else if eq_lower_kw(color_str, n, "red", 3) {
        Some(ColorValue::Red)
    } else if eq_lower_kw(color_str, n, "green", 5) {
        Some(ColorValue::Green)
    } else if eq_lower_kw(color_str, n, "yellow", 6) {
        Some(ColorValue::Yellow)
    } else if eq_lower_kw(color_str, n, "blue", 4) {
        Some(ColorValue::Blue)
    } else if eq_lower_kw(color_str, n, "purple", 6) {
        Some(ColorValue::Purple)
    } else if eq_lower_kw(color_str, n, "cyan", 4) {
        Some(ColorValue::Cyan)
    } else if eq_lower_kw(color_str, n, "white", 5) {
        Some(ColorValue::White)
    } else {
        parse_rgb(color_str)
    }
}

} // verus!

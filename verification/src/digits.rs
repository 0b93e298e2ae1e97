use vstd::prelude::*;

verus! {

/// The character for one decimal digit value.
pub open spec fn digit_char(d: nat) -> char {
    if d == 0 {
        '0'
    } else if d == 1 {
        '1'
    } else if d == 2 {
        '2'
    } else if d == 3 {
        '3'
    } else if d == 4 {
        '4'
    } else if d == 5 {
        '5'
    } else if d == 6 {
        '6'
    } else if d == 7 {
        '7'
    } else if d == 8 {
        '8'
    } else {
        '9'
    }
}

/// The decimal rendering of a number: its digits, most significant first,
/// with no leading zeros (a lone `'0'` for zero).
pub open spec fn spec_decimal(n: nat) -> Seq<char>
    decreases n,
{
    if n < 10 {
        seq![digit_char(n)]
    } else {
        spec_decimal(n / 10).push(digit_char(n % 10))
    }
}

pub open spec fn is_digit_char(c: char) -> bool {
    '0' as int <= c as int && c as int <= '9' as int
}

pub open spec fn digit_val(c: char) -> nat {
    ((c as int) - ('0' as int)) as nat
}

/// The value of the digit characters `s[from..to]`, read left to right.
pub open spec fn digits_value(s: Seq<char>, from: int, to: int) -> nat
    decreases to - from,
{
    if to <= from {
        0
    } else {
        digits_value(s, from, to - 1) * 10 + digit_val(s[to - 1])
    }
}

/// The end of the run of digit characters that starts at `i`.
pub open spec fn digit_run_end(s: Seq<char>, i: int) -> int
    decreases s.len() - i,
{
    if i < 0 || i >= s.len() || !is_digit_char(s[i]) {
        i
    } else {
        digit_run_end(s, i + 1)
    }
}

/// The single-character string for one decimal digit.
fn digit_str(d: u8) -> (r: &'static str)
    requires
        d < 10,
    ensures
        r@ == seq![digit_char(d as nat)],
{
    proof {
        reveal_strlit("0");
        reveal_strlit("1");
        reveal_strlit("2");
        reveal_strlit("3");
        reveal_strlit("4");
        reveal_strlit("5");
        reveal_strlit("6");
        reveal_strlit("7");
        reveal_strlit("8");
        reveal_strlit("9");
    }
    if d == 0 {
        "0"
    } else if d == 1 {
        "1"
    } else if d == 2 {
        "2"
    } else if d == 3 {
        "3"
    } else if d == 4 {
        "4"
    } else if d == 5 {
        "5"
    } else if d == 6 {
        "6"
    } else if d == 7 {
        "7"
    } else if d == 8 {
        "8"
    } else {
        "9"
    }
}

/// The digit characters named by `ds`, taken from the last one backwards:
/// `[digit(ds.last()), ..., digit(ds[0])]`.
spec fn rev_digit_chars(ds: Seq<u8>) -> Seq<char>
    decreases ds.len(),
{
    if ds.len() == 0 {
        Seq::empty()
    } else {
        seq![digit_char(ds.last() as nat)] + rev_digit_chars(ds.drop_last())
    }
}

proof fn lemma_rev_digit_chars_push(ds: Seq<u8>, d: u8)
    ensures
        rev_digit_chars(ds.push(d)) == seq![digit_char(d as nat)] + rev_digit_chars(ds),
{
    assert(ds.push(d).drop_last() =~= ds);
    assert(ds.push(d).last() == d);
}

/// Renders `n` in decimal, exactly as `spec_decimal` says.
pub fn u32_to_string(n: u32) -> (s: String)
    ensures
        s@ == spec_decimal(n as nat),
{
    let mut ds: Vec<u8> = Vec::new();
    let mut m: u32 = n;
    proof {
        assert(spec_decimal(n as nat) + rev_digit_chars(Seq::<u8>::empty()) =~= spec_decimal(
            n as nat,
        ));
    }
    loop
        invariant_except_break
            m > 0 ==> spec_decimal(n as nat) == spec_decimal(m as nat) + rev_digit_chars(ds@),
            m == 0 ==> n == 0 && ds@.len() == 0,
            forall|k: int| 0 <= k < ds@.len() ==> ds@[k] < 10,
        ensures
            ds@.len() > 0,
            forall|k: int| 0 <= k < ds@.len() ==> ds@[k] < 10,
            spec_decimal(n as nat) == rev_digit_chars(ds@),
        decreases m + (if ds@.len() == 0 { 1int } else { 0int }),
    {
        let d: u8 = (m % 10) as u8;
        let ghost old_ds = ds@;
        ds.push(d);
        proof {
            lemma_rev_digit_chars_push(old_ds, d);
            if m == 0 {
                assert(rev_digit_chars(old_ds) =~= Seq::<char>::empty());
                assert(seq![digit_char(0 as nat)] + Seq::<char>::empty() =~= seq![digit_char(
                    0 as nat,
                )]);
                assert(spec_decimal(0 as nat) == seq![digit_char(0 as nat)]);
            } else if m < 10 {
                assert(spec_decimal(m as nat) == seq![digit_char((m % 10) as nat)]);
            } else {
                assert(spec_decimal(m as nat) == spec_decimal((m / 10) as nat).push(
                    digit_char((m % 10) as nat)));
                assert(spec_decimal((m / 10) as nat).push(digit_char((m % 10) as nat))
                    =~= spec_decimal((m / 10) as nat) + seq![digit_char((m % 10) as nat)]);
                assert((spec_decimal((m / 10) as nat) + seq![digit_char((m % 10) as nat)])
                    + rev_digit_chars(old_ds) =~= spec_decimal((m / 10) as nat) + (seq![digit_char(
                    (m % 10) as nat,
                )] + rev_digit_chars(old_ds)));
            }
        }
        m = m / 10;
        if m == 0 {
            break;
        }
    }
    let mut s = String::new();
    let mut i: usize = ds.len();
    while i > 0
        invariant
            i <= ds@.len(),
            ds@.len() > 0,
            forall|k: int| 0 <= k < ds@.len() ==> ds@[k] < 10,
            spec_decimal(n as nat) == rev_digit_chars(ds@),
            s@ == rev_digit_chars(ds@).take(ds@.len() - i),
        decreases i,
    {
        i = i - 1;
        let c = digit_str(ds[i]);
        s.append(c);
        proof {
            lemma_rev_take_step(ds@, i as int);
        }
    }
    proof {
        lemma_rev_digit_chars_len(ds@);
        assert(rev_digit_chars(ds@).take(ds@.len() as int) =~= rev_digit_chars(ds@));
    }
    s
}

/// Taking one more character of the reversed digit string appends
/// the digit at position `i`.
proof fn lemma_rev_take_step(ds: Seq<u8>, i: int)
    requires
        0 <= i < ds.len(),
    ensures
        rev_digit_chars(ds).take(ds.len() - i) =~= rev_digit_chars(ds).take(ds.len() - i - 1)
            + seq![digit_char(ds[i] as nat)],
    decreases ds.len(),
{
    lemma_rev_digit_chars_index(ds, i);
    lemma_rev_digit_chars_len(ds);
}

proof fn lemma_rev_digit_chars_len(ds: Seq<u8>)
    ensures
        rev_digit_chars(ds).len() == ds.len(),
    decreases ds.len(),
{
    if ds.len() > 0 {
        lemma_rev_digit_chars_len(ds.drop_last());
    }
}

proof fn lemma_rev_digit_chars_index(ds: Seq<u8>, i: int)
    requires
        0 <= i < ds.len(),
    ensures
        rev_digit_chars(ds).len() == ds.len(),
        rev_digit_chars(ds)[ds.len() - 1 - i] == digit_char(ds[i] as nat),
    decreases ds.len(),
{
    lemma_rev_digit_chars_len(ds);
    if ds.len() > 0 {
        lemma_rev_digit_chars_len(ds.drop_last());
        if i < ds.len() - 1 {
            lemma_rev_digit_chars_index(ds.drop_last(), i);
        }
    }
}

} // verus!

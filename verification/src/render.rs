//! The textual form of boards and cells: values in decimal digits, an empty
//! cell as a dot, nothing in between.

use crate::board::Board;
use crate::cells::{count_set, lemma_count_set_bounds, CellOptions, CellState};
use vstd::prelude::*;

verus! {

/// The character of a decimal digit.
pub open spec fn digit_char(d: int) -> char {
    (48 + d) as u8 as char
}

/// A number in decimal digits, without leading zeros.
pub open spec fn decimal(n: nat) -> Seq<char>
    decreases n,
{
    if n < 10 {
        seq![digit_char(n as int)]
    } else {
        decimal(n / 10).push(digit_char((n % 10) as int))
    }
}

/// A cell in text: a dot where it is empty, else its value.
pub open spec fn cell_text(v: usize) -> Seq<char> {
    if v == 0 {
        seq!['.']
    } else {
        decimal(v as nat)
    }
}

/// The first `k` cells in text, one after the other.
pub open spec fn cells_text(s: Seq<usize>, k: int) -> Seq<char>
    decreases k,
{
    if k <= 0 {
        Seq::empty()
    } else {
        cells_text(s, k - 1) + cell_text(s[k - 1])
    }
}

/// The candidates among the first `k` values in text, with commas between.
pub open spec fn options_text(s: Seq<bool>, k: int) -> Seq<char>
    decreases k,
{
    if k <= 0 {
        Seq::empty()
    } else if !s[k - 1] {
        options_text(s, k - 1)
    } else if count_set(s, k - 1) == 0 {
        decimal(k as nat)
    } else {
        options_text(s, k - 1) + seq![','] + decimal(k as nat)
    }
}

/// `String::push`. Trusted: the character is added at the end, and nothing
/// else changes.
#[verifier::external_body]
fn push_char(out: &mut String, c: char)
    ensures
        final(out)@ == old(out)@.push(c),
{
    out.push(c);
}

/// Adds `v` in decimal digits at the end of `out`.
pub fn push_decimal(out: &mut String, v: usize)
    ensures
        final(out)@ == old(out)@ + decimal(v as nat),
{
    let mut digits: Vec<char> = Vec::new();
    let mut rest = v;
    while rest >= 10
        invariant
            decimal(v as nat) == decimal(rest as nat) + digits@.reverse(),
        decreases rest,
    {
        let c = (48u8 + (rest % 10) as u8) as char;
        proof {
            let tail = digits@.reverse();
            assert(digits@.push(c).reverse() =~= seq![c] + tail);
            assert(decimal((rest / 10) as nat).push(c) + tail =~= decimal((rest / 10) as nat) + (
            seq![c] + tail));
        }
        digits.push(c);
        rest = rest / 10;
    }
    let c = (48u8 + rest as u8) as char;
    proof {
        let tail = digits@.reverse();
        assert(digits@.push(c).reverse() =~= seq![c] + tail);
    }
    digits.push(c);
    let mut i = digits.len();
    while i > 0
        invariant
            i <= digits@.len(),
            decimal(v as nat) == digits@.reverse(),
            out@ == old(out)@ + digits@.reverse().take(digits@.len() - i),
        decreases i,
    {
        i -= 1;
        proof {
            let r = digits@.reverse();
            let k = digits@.len() - i;
            assert(r.take(k) =~= r.take(k - 1).push(digits@[i as int]));
            assert(old(out)@ + r.take(k) =~= (old(out)@ + r.take(k - 1)).push(digits@[i as int]));
        }
        push_char(out, digits[i]);
    }
    proof {
        let r = digits@.reverse();
        assert(r.take(digits@.len() as int) =~= r);
    }
}

impl<const N: usize> Board<N> {
    /// The board in text: its cells in linear order, each value in decimal
    /// digits and each empty cell as a dot.
    pub fn display(&self) -> (text: String)
        ensures
            text@ == cells_text(self@, self@.len() as int),
    {
        let mut text = String::new();
        let mut p: usize = 0;
        while p < self.base.len()
            invariant
                p <= self@.len(),
                text@ == cells_text(self@, p as int),
            decreases self@.len() - p,
        {
            let v = self.base[p];
            if v == 0 {
                push_char(&mut text, '.');
                assert(text@ =~= cells_text(self@, p as int) + seq!['.']);
            } else {
                push_decimal(&mut text, v);
            }
            p += 1;
        }
        text
    }
}

impl<const N: usize> CellOptions<N> {
    /// The candidates in text: in rising order, with commas between and square
    /// brackets around.
    pub fn display(&self) -> (text: String)
        ensures
            text@ == seq!['['] + options_text(self@, self@.len() as int) + seq![']'],
    {
        let mut text = String::new();
        push_char(&mut text, '[');
        let mut any = false;
        let mut i: usize = 0;
        while i < self.options.len()
            invariant
                i <= self@.len(),
                any == (count_set(self@, i as int) != 0),
                count_set(self@, i as int) >= 0,
                text@ == seq!['['] + options_text(self@, i as int),
            decreases self@.len() - i,
        {
            if self.options[i] {
                if any {
                    push_char(&mut text, ',');
                }
                push_decimal(&mut text, i + 1);
                proof {
                    let before = options_text(self@, i as int);
                    if any {
                        assert(text@ =~= seq!['['] + (before + seq![','] + decimal((i + 1) as nat)));
                    } else {
                        lemma_no_options_no_text(self@, i as int);
                        assert(text@ =~= seq!['['] + decimal((i + 1) as nat));
                    }
                }
                any = true;
            }
            i += 1;
        }
        push_char(&mut text, ']');
        text
    }
}

/// Where none of the first `k` values is a candidate, their text is empty.
pub proof fn lemma_no_options_no_text(s: Seq<bool>, k: int)
    requires
        count_set(s, k) == 0,
        0 <= k <= s.len(),
    ensures
        options_text(s, k) == Seq::<char>::empty(),
    decreases k,
{
    if k > 0 {
        lemma_count_set_bounds(s, k - 1);
        lemma_no_options_no_text(s, k - 1);
    }
}

impl<const N: usize> CellState<N> {
    /// The state in text: the number of candidates of an open cell between
    /// angle brackets, the value of a settled cell between equals signs.
    pub fn display(&self) -> (text: String)
        ensures
            match self {
                CellState::Unfixed(co) => text@ == seq!['<'] + decimal(co.count() as nat) + seq![
                    '>',
                ],
                CellState::Fixed(c) => text@ == seq!['='] + decimal(c.value as nat) + seq!['='],
            },
    {
        let mut text = String::new();
        match self {
            CellState::Unfixed(co) => {
                push_char(&mut text, '<');
                push_decimal(&mut text, co.count_options());
                push_char(&mut text, '>');
            },
            CellState::Fixed(c) => {
                push_char(&mut text, '=');
                push_decimal(&mut text, c.value);
                push_char(&mut text, '=');
            },
        }
        text
    }
}

} // verus!

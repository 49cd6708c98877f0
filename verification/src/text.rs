//! Reading the cells of a grid from delimited text: rows end in `;`, cells in
//! `,`, and a piece that holds nothing but white space is passed over.

use vstd::prelude::*;

verus! {

/// The characters that end a cell or a row.
pub open spec fn is_separator(c: char) -> bool {
    c == ';' || c == ','
}

/// White space: the characters that trimming removes.
pub open spec fn is_space(c: char) -> bool {
    let u = c as u32;
    ||| 0x09 <= u <= 0x0D
    ||| u == 0x20
    ||| u == 0x85
    ||| u == 0xA0
    ||| u == 0x1680
    ||| 0x2000 <= u <= 0x200A
    ||| u == 0x2028
    ||| u == 0x2029
    ||| u == 0x202F
    ||| u == 0x205F
    ||| u == 0x3000
}

/// The decimal digits.
pub open spec fn is_digit(c: char) -> bool {
    48 <= c as u32 <= 57
}

/// Every character is a decimal digit.
pub open spec fn all_digits(t: Seq<char>) -> bool {
    forall|i: int| 0 <= i < t.len() ==> is_digit(#[trigger] t[i])
}

/// The number that a sequence of decimal digits writes.
pub open spec fn number(t: Seq<char>) -> int
    decreases t.len(),
{
    if t.len() == 0 {
        0
    } else {
        10 * number(t.drop_last()) + (t.last() as u32 - 48)
    }
}

/// The text without a leading plus sign.
pub open spec fn unsigned(t: Seq<char>) -> Seq<char> {
    if t.len() > 0 && t[0] == '+' {
        t.skip(1)
    } else {
        t
    }
}

/// What a piece of text reads as: an optional plus sign and then at least one
/// decimal digit make a number, if it fits the machine word; anything else
/// makes none.
pub open spec fn token_value(t: Seq<char>) -> Option<usize> {
    let d = unsigned(t);
    if d.len() > 0 && all_digits(d) && number(d) <= usize::MAX {
        Some(number(d) as usize)
    } else {
        None
    }
}

/// The text holds nothing but white space.
pub open spec fn blank(t: Seq<char>) -> bool {
    forall|i: int| 0 <= i < t.len() ==> is_space(#[trigger] t[i])
}

/// The text without the white space at its ends.
pub open spec fn trimmed(t: Seq<char>) -> Seq<char>
    decreases t.len(),
{
    if t.len() == 0 {
        t
    } else if is_space(t[0]) {
        trimmed(t.skip(1))
    } else if is_space(t.last()) {
        trimmed(t.drop_last())
    } else {
        t
    }
}

/// The pieces between the separators of a text, in order. There is one more
/// piece than there are separators.
pub open spec fn pieces(s: Seq<char>) -> Seq<Seq<char>>
    decreases s.len(),
{
    if s.len() == 0 {
        seq![Seq::empty()]
    } else {
        let before = pieces(s.drop_last());
        if is_separator(s.last()) {
            before.push(Seq::empty())
        } else {
            before.drop_last().push(before.last().push(s.last()))
        }
    }
}

/// What the pieces that are not blank read as, in order.
pub open spec fn readings(ps: Seq<Seq<char>>) -> Seq<Option<usize>>
    decreases ps.len(),
{
    if ps.len() == 0 {
        Seq::empty()
    } else if blank(ps.last()) {
        readings(ps.drop_last())
    } else {
        readings(ps.drop_last()).push(token_value(trimmed(ps.last())))
    }
}

/// The numbers that a text lists, if every piece that is not blank is a number.
pub open spec fn parsed(s: Seq<char>) -> Option<Seq<usize>> {
    let r = readings(pieces(s));
    if forall|i: int| 0 <= i < r.len() ==> (#[trigger] r[i]) is Some {
        Some(Seq::new(r.len(), |i: int| r[i]->0))
    } else {
        None
    }
}

/// A text has at least one piece.
pub proof fn lemma_pieces_nonempty(s: Seq<char>)
    ensures
        pieces(s).len() >= 1,
    decreases s.len(),
{
    if s.len() > 0 {
        lemma_pieces_nonempty(s.drop_last());
    }
}

/// Digits that follow can only make a number larger.
pub proof fn lemma_number_grows(d: Seq<char>, k: int)
    requires
        all_digits(d),
        0 <= k <= d.len(),
    ensures
        0 <= number(d.take(k)) <= number(d),
    decreases d.len(),
{
    if k == d.len() {
        assert(d.take(k) =~= d);
        if k > 0 {
            assert(d.drop_last() =~= d.take(k - 1));
            lemma_number_grows(d.drop_last(), k - 1);
            assert(d.drop_last().take(k - 1) =~= d.drop_last());
            assert(is_digit(d[k - 1]));
        }
    } else {
        lemma_number_grows(d.drop_last(), k);
        assert(d.drop_last().take(k) =~= d.take(k));
        assert(is_digit(d[d.len() - 1]));
    }
}

fn is_space_char(c: char) -> (b: bool)
    ensures
        b == is_space(c),
{
    let u = c as u32;
    (0x09 <= u && u <= 0x0D) || u == 0x20 || u == 0x85 || u == 0xA0 || u == 0x1680 || (0x2000 <= u
        && u <= 0x200A) || u == 0x2028 || u == 0x2029 || u == 0x202F || u == 0x205F || u
        == 0x3000
}

/// Reads the characters from `lo` up to `hi` as a number.
fn read_number(chars: &Vec<char>, lo: usize, hi: usize) -> (r: Option<usize>)
    requires
        lo <= hi <= chars@.len(),
    ensures
        r == token_value(chars@.subrange(lo as int, hi as int)),
{
    let ghost t = chars@.subrange(lo as int, hi as int);
    let mut i = lo;
    if i < hi && chars[i] == '+' {
        i += 1;
    }
    let start = i;
    let ghost d = chars@.subrange(start as int, hi as int);
    assert(unsigned(t) =~= d);
    if i == hi {
        return None;
    }
    let mut acc: usize = 0;
    while i < hi
        invariant
            lo <= start <= i <= hi <= chars@.len(),
            t == chars@.subrange(lo as int, hi as int),
            d == chars@.subrange(start as int, hi as int),
            unsigned(t) == d,
            all_digits(chars@.subrange(start as int, i as int)),
            acc == number(chars@.subrange(start as int, i as int)),
        decreases hi - i,
    {
        let u = chars[i] as u32;
        if u < 48 || u > 57 {
            assert(!is_digit(d[i - start]));
            return None;
        }
        let digit = (u - 48) as usize;
        let ghost upto = chars@.subrange(start as int, i + 1);
        assert(upto.drop_last() =~= chars@.subrange(start as int, i as int));
        assert(upto.last() == chars@[i as int]);
        if acc > (usize::MAX - digit) / 10 {
            proof {
                if all_digits(d) {
                    lemma_number_grows(d, i + 1 - start);
                    assert(d.take(i + 1 - start) =~= upto);
                }
            }
            return None;
        }
        acc = acc * 10 + digit;
        i += 1;
    }
    assert(chars@.subrange(start as int, i as int) =~= d);
    Some(acc)
}

/// Reads the piece from `a` up to `b`: nothing where it is blank, else what it
/// reads as without the white space at its ends.
fn read_piece(chars: &Vec<char>, a: usize, b: usize) -> (r: Option<Option<usize>>)
    requires
        a <= b <= chars@.len(),
    ensures
        blank(chars@.subrange(a as int, b as int)) ==> r is None,
        !blank(chars@.subrange(a as int, b as int)) ==> r == Some(
            token_value(trimmed(chars@.subrange(a as int, b as int))),
        ),
{
    let ghost piece = chars@.subrange(a as int, b as int);
    let mut lo = a;
    while lo < b && is_space_char(chars[lo])
        invariant
            a <= lo <= b <= chars@.len(),
            piece == chars@.subrange(a as int, b as int),
            forall|i: int| a <= i < lo ==> is_space(#[trigger] chars@[i]),
            trimmed(piece) == trimmed(chars@.subrange(lo as int, b as int)),
        decreases b - lo,
    {
        assert(chars@.subrange(lo as int, b as int).skip(1) =~= chars@.subrange(lo + 1, b as int));
        lo += 1;
    }
    if lo == b {
        assert forall|i: int| 0 <= i < piece.len() implies is_space(#[trigger] piece[i]) by {
            assert(piece[i] == chars@[a + i]);
        }
        return None;
    }
    assert(!is_space(piece[lo - a]));
    let mut hi = b;
    while hi > lo + 1 && is_space_char(chars[hi - 1])
        invariant
            a <= lo < hi <= b <= chars@.len(),
            !is_space(chars@[lo as int]),
            trimmed(piece) == trimmed(chars@.subrange(lo as int, hi as int)),
        decreases hi,
    {
        assert(chars@.subrange(lo as int, hi as int).drop_last() =~= chars@.subrange(
            lo as int,
            hi - 1,
        ));
        hi -= 1;
    }
    Some(read_number(chars, lo, hi))
}

/// The numbers that `input` lists, or nothing where a piece that is not blank
/// is no number. Rows and cells come out as one flat sequence; a separator at
/// the end, or several in a row, add nothing.
pub fn parse_str_into_grid(input: &str) -> (r: Option<Vec<usize>>)
    ensures
        parsed(input@) matches Some(vals) ==> (r matches Some(v) && v@ == vals),
        parsed(input@) is None ==> r is None,
{
    let ghost s = input@;
    let mut chars: Vec<char> = Vec::new();
    for c in it: input.chars()
        invariant
            it.seq() == s,
            chars@ == s.take(it.index()),
    {
        chars.push(c);
        assert(s.take(it.index() + 1) =~= s.take(it.index()).push(s[it.index()]));
    }
    assert(chars@ =~= s);
    let n = chars.len();
    let mut out: Vec<Option<usize>> = Vec::new();
    let mut start: usize = 0;
    let mut i: usize = 0;
    proof {
        assert(s.take(0) =~= Seq::<char>::empty());
        assert(pieces(s.take(0)).last() =~= s.subrange(0, 0));
        assert(pieces(s.take(0)).drop_last() =~= Seq::<Seq<char>>::empty());
    }
    while i < n
        invariant
            chars@ == s,
            n == s.len(),
            start <= i <= n,
            pieces(s.take(i as int)).len() >= 1,
            pieces(s.take(i as int)).last() == s.subrange(start as int, i as int),
            out@ == readings(pieces(s.take(i as int)).drop_last()),
        decreases n - i,
    {
        let ghost before = pieces(s.take(i as int));
        let ghost upto = s.take(i + 1);
        proof {
            assert(upto.drop_last() =~= s.take(i as int));
            assert(upto.last() == s[i as int]);
            lemma_pieces_nonempty(upto);
        }
        let c = chars[i];
        if c == ';' || c == ',' {
            match read_piece(&chars, start, i) {
                Some(reading) => {
                    out.push(reading);
                },
                None => {},
            }
            start = i + 1;
            proof {
                assert(pieces(upto) == before.push(Seq::empty()));
                assert(pieces(upto).drop_last() =~= before);
                assert(pieces(upto).last() =~= s.subrange(start as int, i + 1));
            }
        } else {
            proof {
                assert(pieces(upto).drop_last() =~= before.drop_last());
                assert(pieces(upto).last() =~= s.subrange(start as int, i + 1));
            }
        }
        i += 1;
    }
    proof {
        assert(s.take(n as int) =~= s);
    }
    match read_piece(&chars, start, n) {
        Some(reading) => {
            out.push(reading);
        },
        None => {},
    }
    assert(out@ == readings(pieces(s)));
    let mut vals: Vec<usize> = Vec::new();
    let mut j: usize = 0;
    while j < out.len()
        invariant
            j <= out@.len(),
            out@ == readings(pieces(s)),
            s == input@,
            vals@.len() == j,
            forall|k: int| 0 <= k < j ==> (#[trigger] out@[k]) is Some,
            forall|k: int| 0 <= k < j ==> vals@[k] == (#[trigger] out@[k])->0,
        decreases out@.len() - j,
    {
        match out[j] {
            Some(v) => {
                vals.push(v);
            },
            None => {
                return None;
            },
        }
        j += 1;
    }
    assert(vals@ =~= Seq::new(out@.len(), |i: int| out@[i]->0));
    Some(vals)
}

} // verus!

//! Reading one line of a temporal edge list: `u v t`, separated by white
//! space, as unsigned decimal numbers.

use vstd::prelude::*;

verus! {

/// Whether `c` is white space in Unicode (the `White_Space` property).
pub open spec fn is_white_space(c: char) -> bool {
    let x = c as u32;
    (9 <= x <= 13) || x == 32 || x == 0x85 || x == 0xa0 || x == 0x1680 || (0x2000 <= x <= 0x200a)
        || x == 0x2028 || x == 0x2029 || x == 0x202f || x == 0x205f || x == 0x3000
}

/// The first index at or after `i` that holds no white space (the length of
/// `s` when there is none).
pub open spec fn skip_space(s: Seq<char>, i: int) -> int
    decreases s.len() - i,
{
    if 0 <= i < s.len() && is_white_space(s[i]) {
        skip_space(s, i + 1)
    } else {
        i
    }
}

/// The first index at or after `i` that holds white space (the length of `s`
/// when there is none).
pub open spec fn word_end(s: Seq<char>, i: int) -> int
    decreases s.len() - i,
{
    if 0 <= i < s.len() && !is_white_space(s[i]) {
        word_end(s, i + 1)
    } else {
        i
    }
}

pub proof fn lemma_skip_space(s: Seq<char>, i: int)
    requires
        0 <= i <= s.len(),
    ensures
        i <= skip_space(s, i) <= s.len(),
        skip_space(s, i) < s.len() ==> !is_white_space(s[skip_space(s, i)]),
        forall|j: int| i <= j < skip_space(s, i) ==> is_white_space(#[trigger] s[j]),
    decreases s.len() - i,
{
    if i < s.len() && is_white_space(s[i]) {
        lemma_skip_space(s, i + 1);
    }
}

pub proof fn lemma_word_end(s: Seq<char>, i: int)
    requires
        0 <= i <= s.len(),
    ensures
        i <= word_end(s, i) <= s.len(),
        i < s.len() && !is_white_space(s[i]) ==> i < word_end(s, i),
        word_end(s, i) < s.len() ==> is_white_space(s[word_end(s, i)]),
        forall|j: int| i <= j < word_end(s, i) ==> !is_white_space(#[trigger] s[j]),
    decreases s.len() - i,
{
    if i < s.len() && !is_white_space(s[i]) {
        lemma_word_end(s, i + 1);
    }
}

/// The words of `s` from index `i` on: the maximal runs of characters other
/// than white space, in order.
pub open spec fn words_from(s: Seq<char>, i: int) -> Seq<Seq<char>>
    decreases s.len() - i,
{
    if 0 <= i <= s.len() {
        let b = skip_space(s, i);
        if b >= s.len() {
            Seq::empty()
        } else {
            let e = word_end(s, b);
            proof {
                lemma_skip_space(s, i);
                lemma_word_end(s, b);
            }
            seq![s.subrange(b, e)] + words_from(s, e)
        }
    } else {
        Seq::empty()
    }
}

/// The words of `s`.
pub open spec fn words(s: Seq<char>) -> Seq<Seq<char>> {
    words_from(s, 0)
}

/// The value of a decimal digit.
pub open spec fn digit_value(c: char) -> int {
    c as u32 - 48
}

/// Whether `c` is a decimal digit.
pub open spec fn is_digit(c: char) -> bool {
    48 <= c as u32 <= 57
}

/// The value of a sequence of decimal digits.
pub open spec fn digits_value(d: Seq<char>) -> nat
    decreases d.len(),
{
    if d.len() == 0 {
        0
    } else {
        (digits_value(d.drop_last()) * 10 + digit_value(d.last())) as nat
    }
}

/// A word without its leading `+`, if any.
pub open spec fn unsigned_digits(w: Seq<char>) -> Seq<char> {
    if w.len() > 0 && w[0] == '+' { w.drop_first() } else { w }
}

/// Whether every character of `d` is a decimal digit.
pub open spec fn all_digits(d: Seq<char>) -> bool {
    forall|i: int| 0 <= i < d.len() ==> is_digit(#[trigger] d[i])
}

/// The unsigned number a word denotes, as `usize::from_str` reads it: an
/// optional `+`, then at least one decimal digit and nothing else, the value
/// fitting in a `usize`.
pub open spec fn parse_usize(w: Seq<char>) -> Option<usize> {
    let d = unsigned_digits(w);
    if d.len() > 0 && all_digits(d) && digits_value(d) <= usize::MAX {
        Some(digits_value(d) as usize)
    } else {
        None
    }
}

/// The edge a line denotes: its first three words read as numbers `u v t`;
/// `None` when the line has fewer than three words or one of them is not a
/// number. Further words are ignored.
pub open spec fn spec_parse_edge_line(s: Seq<char>) -> Option<(usize, usize, usize)> {
    let ws = words(s);
    if ws.len() >= 3 && parse_usize(ws[0]) is Some && parse_usize(ws[1]) is Some && parse_usize(ws[2]) is Some {
        Some((parse_usize(ws[0])->0, parse_usize(ws[1])->0, parse_usize(ws[2])->0))
    } else {
        None
    }
}

/// The decimal digit for `d` (below ten).
pub open spec fn digit_char(d: nat) -> char {
    (d + 48) as char
}

/// The decimal rendering of `n`, without leading zeros.
pub open spec fn decimal(n: nat) -> Seq<char>
    decreases n,
{
    if n < 10 {
        seq![digit_char(n)]
    } else {
        decimal(n / 10).push(digit_char(n % 10))
    }
}

proof fn lemma_decimal(n: nat)
    ensures
        decimal(n).len() >= 1,
        all_digits(decimal(n)),
        digits_value(decimal(n)) == n,
        forall|i: int| 0 <= i < decimal(n).len() ==> !is_white_space(#[trigger] decimal(n)[i]),
        decimal(n)[0] != '+',
    decreases n,
{
    if n < 10 {
        let d = decimal(n);
        assert(d.drop_last() =~= Seq::<char>::empty());
        assert((n + 48) as char as u32 == n + 48);
        assert(d.last() == digit_char(n));
        assert(digit_value(d.last()) == n);
        assert(digits_value(d.drop_last()) == 0);
        assert(digits_value(d) == digits_value(d.drop_last()) * 10 + digit_value(d.last()));
    } else {
        lemma_decimal(n / 10);
        let d = decimal(n);
        let p = decimal(n / 10);
        assert(d.drop_last() =~= p);
        assert(((n % 10) + 48) as char as u32 == (n % 10) + 48);
        assert(d.last() == digit_char(n % 10));
        assert(digit_value(d.last()) == n % 10);
        assert((n / 10) * 10 + n % 10 == n) by (nonlinear_arith);
        assert(digits_value(d) == digits_value(p) * 10 + digit_value(d.last()));
        assert forall|i: int| 0 <= i < d.len() implies !is_white_space(#[trigger] d[i]) && is_digit(d[i]) by {
            if i < p.len() {
                assert(d[i] == p[i]);
                assert(is_digit(p[i]));
            }
        }
        assert(d[0] == p[0]);
    }
}

/// Reading the decimal rendering of a number gives the number back, when
/// it fits in a `usize`, also after a leading `+`; a number too large for a
/// `usize` is refused.
pub proof fn lemma_parse_decimal(n: nat)
    ensures
        n <= usize::MAX ==> parse_usize(decimal(n)) == Some(n as usize),
        n <= usize::MAX ==> parse_usize(seq!['+'] + decimal(n)) == Some(n as usize),
        n > usize::MAX ==> parse_usize(decimal(n)) is None,
{
    lemma_decimal(n);
    assert(unsigned_digits(decimal(n)) == decimal(n));
    assert((seq!['+'] + decimal(n)).drop_first() =~= decimal(n));
}

proof fn lemma_word_end_at(s: Seq<char>, i: int, j: int)
    requires
        0 <= i <= j <= s.len(),
        forall|x: int| i <= x < j ==> !is_white_space(#[trigger] s[x]),
        j == s.len() || is_white_space(s[j]),
    ensures
        word_end(s, i) == j,
    decreases j - i,
{
    if i < j {
        lemma_word_end_at(s, i + 1, j);
    }
}

/// The words of `a`, a white space, `b`, a white space and `c`, where the
/// three parts are non-empty and hold no white space, are `a`, `b`, `c`.
proof fn lemma_three_words(a: Seq<char>, b: Seq<char>, c: Seq<char>)
    requires
        a.len() >= 1,
        b.len() >= 1,
        c.len() >= 1,
        forall|i: int| 0 <= i < a.len() ==> !is_white_space(#[trigger] a[i]),
        forall|i: int| 0 <= i < b.len() ==> !is_white_space(#[trigger] b[i]),
        forall|i: int| 0 <= i < c.len() ==> !is_white_space(#[trigger] c[i]),
    ensures
        words(a + seq![' '] + b + seq![' '] + c) == seq![a, b, c],
{
    let s = a + seq![' '] + b + seq![' '] + c;
    let la = a.len() as int;
    let lb = b.len() as int;
    let lc = c.len() as int;
    assert(s.len() == la + lb + lc + 2);
    assert(forall|x: int| 0 <= x < la ==> s[x] == a[x]);
    assert(s[la] == ' ');
    assert(forall|x: int| la + 1 <= x < la + 1 + lb ==> s[x] == b[x - la - 1]);
    assert(s[la + 1 + lb] == ' ');
    assert(forall|x: int| la + lb + 2 <= x < s.len() ==> s[x] == c[x - la - lb - 2]);
    assert(is_white_space(' '));
    assert(skip_space(s, 0) == 0) by {
        assert(!is_white_space(s[0]));
    }
    assert forall|x: int| 0 <= x < la implies !is_white_space(#[trigger] s[x]) by {
        assert(s[x] == a[x]);
    }
    lemma_word_end_at(s, 0, la);
    assert(skip_space(s, la + 1) == la + 1) by {
        assert(s[la + 1] == b[0]);
    }
    assert(skip_space(s, la) == la + 1);
    assert forall|x: int| la + 1 <= x < la + 1 + lb implies !is_white_space(#[trigger] s[x]) by {
        assert(s[x] == b[x - la - 1]);
    }
    lemma_word_end_at(s, la + 1, la + 1 + lb);
    let m = la + lb + 2;
    assert(skip_space(s, m) == m) by {
        assert(s[m] == c[0]);
    }
    assert(skip_space(s, la + 1 + lb) == m);
    assert forall|x: int| m <= x < s.len() implies !is_white_space(#[trigger] s[x]) by {
        assert(s[x] == c[x - m]);
    }
    lemma_word_end_at(s, m, s.len() as int);
    assert(skip_space(s, s.len() as int) == s.len());
    assert(words_from(s, s.len() as int) == Seq::<Seq<char>>::empty());
    assert(s.subrange(0, la) =~= a);
    assert(s.subrange(la + 1, la + 1 + lb) =~= b);
    assert(s.subrange(m, s.len() as int) =~= c);
    assert(words_from(s, m) =~= seq![c]);
    assert(words_from(s, la + 1 + lb) =~= seq![c]);
    assert(words_from(s, la + 1) =~= seq![b, c]);
    assert(words_from(s, la) =~= seq![b, c]);
    assert(words_from(s, 0) =~= seq![a, b, c]);
}

/// Reading the line `u v t`, the three numbers written in decimal and
/// separated by one space, gives back `(u, v, t)`.
pub proof fn lemma_parse_rendered_line(u: usize, v: usize, t: usize)
    ensures
        spec_parse_edge_line(decimal(u as nat) + seq![' '] + decimal(v as nat) + seq![' '] + decimal(t as nat))
            == Some((u, v, t)),
{
    lemma_decimal(u as nat);
    lemma_decimal(v as nat);
    lemma_decimal(t as nat);
    lemma_parse_decimal(u as nat);
    lemma_parse_decimal(v as nat);
    lemma_parse_decimal(t as nat);
    lemma_three_words(decimal(u as nat), decimal(v as nat), decimal(t as nat));
}

proof fn lemma_digits_value_grows(d: Seq<char>, k: int)
    requires
        0 <= k <= d.len(),
        forall|i: int| 0 <= i < d.len() ==> is_digit(#[trigger] d[i]),
    ensures
        digits_value(d.subrange(0, k)) <= digits_value(d),
    decreases d.len() - k,
{
    if k < d.len() {
        lemma_digits_value_grows(d, k + 1);
        assert(d.subrange(0, k + 1).drop_last() =~= d.subrange(0, k));
        assert(is_digit(d[k]));
    } else {
        assert(d.subrange(0, k) =~= d);
    }
}

fn is_white_space_char(c: char) -> (r: bool)
    ensures
        r == is_white_space(c),
{
    let x = c as u32;
    (9 <= x && x <= 13) || x == 32 || x == 0x85 || x == 0xa0 || x == 0x1680 || (0x2000 <= x && x <= 0x200a)
        || x == 0x2028 || x == 0x2029 || x == 0x202f || x == 0x205f || x == 0x3000
}

/// Reads the characters `cs[b..e]` as an unsigned number.
fn parse_word(cs: &Vec<char>, b: usize, e: usize) -> (r: Option<usize>)
    requires
        b <= e <= cs@.len(),
    ensures
        r == parse_usize(cs@.subrange(b as int, e as int)),
{
    let ghost w = cs@.subrange(b as int, e as int);
    let mut i = b;
    if i < e && cs[i] == '+' {
        i = i + 1;
    }
    let start = i;
    let ghost d = unsigned_digits(w);
    assert(d =~= cs@.subrange(start as int, e as int));
    if i == e {
        return None;
    }
    let mut acc: usize = 0;
    while i < e
        invariant
            start <= i <= e,
            e <= cs@.len(),
            b <= start,
            w == cs@.subrange(b as int, e as int),
            d == unsigned_digits(w),
            d == cs@.subrange(start as int, e as int),
            forall|j: int| start <= j < i ==> is_digit(#[trigger] cs@[j]),
            acc == digits_value(cs@.subrange(start as int, i as int)),
        decreases e - i,
    {
        let c = cs[i];
        let x = c as u32;
        if x < 48 || x > 57 {
            proof {
                let k = i - start;
                assert(d[k] == cs@[i as int]);
                assert(!is_digit(d[k]));
                assert(!all_digits(d));
            }
            return None;
        }
        let digit = (x - 48) as usize;
        assert(cs@.subrange(start as int, i + 1).drop_last() =~= cs@.subrange(start as int, i as int));
        match acc.checked_mul(10) {
            None => {
                proof {
                    assert(digits_value(cs@.subrange(start as int, i + 1)) > usize::MAX);
                    if all_digits(d) {
                        lemma_digits_value_grows(d, i + 1 - start);
                        assert(d.subrange(0, i + 1 - start) =~= cs@.subrange(start as int, i + 1));
                    }
                }
                return None;
            },
            Some(y) => match y.checked_add(digit) {
                None => {
                    proof {
                        assert(digits_value(cs@.subrange(start as int, i + 1)) > usize::MAX);
                        if all_digits(d) {
                            lemma_digits_value_grows(d, i + 1 - start);
                            assert(d.subrange(0, i + 1 - start) =~= cs@.subrange(start as int, i + 1));
                        }
                    }
                    return None;
                },
                Some(z) => {
                    acc = z;
                },
            },
        }
        i = i + 1;
    }
    assert(cs@.subrange(start as int, e as int) =~= d);
    Some(acc)
}

/// The characters of `s`.
fn chars_of(s: &str) -> (r: Vec<char>)
    ensures
        r@ == s@,
{
    let mut r: Vec<char> = Vec::new();
    for c in it: s.chars()
        invariant
            it.seq() == s@,
            r@ == s@.take(it.index()),
    {
        r.push(c);
        assert(r@ =~= s@.take(it.index() + 1));
    }
    assert(r@ =~= s@);
    r
}

/// Reads a line of the edge list: its first three words as the numbers
/// `u v t` (see `spec_parse_edge_line`).
pub fn parse_edge_line(line: &str) -> (r: Option<(usize, usize, usize)>)
    ensures
        r == spec_parse_edge_line(line@),
{
    let cs = chars_of(line);
    let ghost s = cs@;
    let n = cs.len();
    let mut pos: usize = 0;
    let mut vals: Vec<usize> = Vec::new();
    let ghost mut done: Seq<Seq<char>> = Seq::empty();
    while vals.len() < 3
        invariant
            s == cs@,
            s == line@,
            n == s.len(),
            pos <= n,
            vals@.len() <= 3,
            done.len() == vals@.len(),
            words(s) == done + words_from(s, pos as int),
            forall|j: int| 0 <= j < vals@.len() ==> parse_usize(#[trigger] done[j]) == Some(vals@[j]),
        decreases 3 - vals@.len(),
    {
        let mut b = pos;
        while b < n && is_white_space_char(cs[b])
            invariant
                pos <= b <= n,
                n == cs@.len(),
                skip_space(s, pos as int) == skip_space(s, b as int),
                s == cs@,
            decreases n - b,
        {
            b = b + 1;
        }
        proof {
            lemma_skip_space(s, pos as int);
        }
        if b >= n {
            assert(words_from(s, pos as int) == Seq::<Seq<char>>::empty());
            assert(words(s).len() == done.len());
            return None;
        }
        let mut e = b;
        while e < n && !is_white_space_char(cs[e])
            invariant
                b <= e <= n,
                n == cs@.len(),
                word_end(s, b as int) == word_end(s, e as int),
                s == cs@,
            decreases n - e,
        {
            e = e + 1;
        }
        proof {
            lemma_word_end(s, b as int);
            assert(words_from(s, pos as int) == seq![s.subrange(b as int, e as int)] + words_from(s, e as int));
        }
        let v = parse_word(&cs, b, e);
        proof {
            let w = s.subrange(b as int, e as int);
            assert(words(s) == done.push(w) + words_from(s, e as int)) by {
                assert(done + (seq![w] + words_from(s, e as int)) =~= done.push(w) + words_from(s, e as int));
            }
            done = done.push(w);
        }
        match v {
            None => {
                assert(words(s)[vals@.len() as int] == done.last());
                return None;
            },
            Some(x) => {
                vals.push(x);
            },
        }
        pos = e;
    }
    proof {
        assert(words(s)[0] == done[0]);
        assert(words(s)[1] == done[1]);
        assert(words(s)[2] == done[2]);
    }
    Some((vals[0], vals[1], vals[2]))
}

} // verus!

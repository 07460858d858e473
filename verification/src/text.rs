//! Text helpers and the mathematical functions on character sequences that
//! the contracts of this crate are written in.

use crate::lines::{glued, lemma_split_concat, split};
use vstd::prelude::*;
use vstd::string::*;

verus! {

/// `String::push`: the character goes to the end of the text.
pub assume_specification[ std::string::String::push ](s: &mut std::string::String, c: char)
    ensures
        final(s)@ == old(s)@.push(c),
;

/// The characters of Unicode's `White_Space` property.
pub open spec fn is_white(c: char) -> bool {
    ||| '\u{9}' <= c <= '\u{d}'
    ||| c == ' '
    ||| c == '\u{85}'
    ||| c == '\u{a0}'
    ||| c == '\u{1680}'
    ||| '\u{2000}' <= c <= '\u{200a}'
    ||| c == '\u{2028}'
    ||| c == '\u{2029}'
    ||| c == '\u{202f}'
    ||| c == '\u{205f}'
    ||| c == '\u{3000}'
}

/// Whether `c` is white space.
pub fn white(c: char) -> (r: bool)
    ensures
        r == is_white(c),
{
    ('\u{9}' <= c && c <= '\u{d}') || c == ' ' || c == '\u{85}' || c == '\u{a0}' || c == '\u{1680}'
        || ('\u{2000}' <= c && c <= '\u{200a}') || c == '\u{2028}' || c == '\u{2029}'
        || c == '\u{202f}' || c == '\u{205f}' || c == '\u{3000}'
}

/// `s` without its leading white space.
pub open spec fn trim_start(s: Seq<char>) -> Seq<char>
    decreases s.len(),
{
    if s.len() > 0 && is_white(s[0]) {
        trim_start(s.skip(1))
    } else {
        s
    }
}

/// `s` without its trailing white space.
pub open spec fn trim_end(s: Seq<char>) -> Seq<char>
    decreases s.len(),
{
    if s.len() > 0 && is_white(s.last()) {
        trim_end(s.drop_last())
    } else {
        s
    }
}

/// `s` without leading and trailing white space.
pub open spec fn trim(s: Seq<char>) -> Seq<char> {
    trim_end(trim_start(s))
}

/// The ASCII lower-case form of a character; other characters stay.
pub open spec fn lower_char(c: char) -> char {
    if 'A' <= c <= 'Z' {
        (c as u32 + 32) as char
    } else {
        c
    }
}

/// `s` with each ASCII capital replaced by its small letter.
pub open spec fn lower(s: Seq<char>) -> Seq<char> {
    s.map_values(|c: char| lower_char(c))
}

/// Whether the two texts hold the same characters.
pub fn same(a: &str, b: &str) -> (r: bool)
    ensures
        r == (a@ == b@),
{
    a.to_owned() == b.to_owned()
}

/// The characters of `s`, one by one.
pub fn chars_of(s: &str) -> (r: Vec<char>)
    ensures
        r@ == s@,
{
    let mut out: Vec<char> = Vec::new();
    for c in it: s.chars()
        invariant
            it.seq() == s@,
            out@ == s@.take(it.index() as int),
    {
        out.push(c);
    }
    out
}

/// The text made of the characters `from..to` of `v`.
pub fn text_of(v: &Vec<char>, from: usize, to: usize) -> (r: String)
    requires
        from <= to <= v@.len(),
    ensures
        r@ == v@.subrange(from as int, to as int),
{
    let mut out = String::new();
    let mut i: usize = from;
    while i < to
        invariant
            from <= i <= to <= v@.len(),
            out@ == v@.subrange(from as int, i as int),
        decreases to - i,
    {
        out.push(v[i]);
        i += 1;
    }
    out
}

/// `s` with ASCII capitals made small.
pub fn lowered(s: &str) -> (r: String)
    ensures
        r@ == lower(s@),
{
    let v = chars_of(s);
    let mut out = String::new();
    let mut i: usize = 0;
    while i < v.len()
        invariant
            i <= v@.len(),
            v@ == s@,
            out@ == lower(s@.take(i as int)),
        decreases v@.len() - i,
    {
        let c: char = v[i];
        let d: char = if 'A' <= c && c <= 'Z' { ((c as u8) + 32) as char } else { c };
        out.push(d);
        i += 1;
        assert(s@.take(i as int) == s@.take(i - 1).push(c));
        assert(lower(s@.take(i as int)) =~= lower(s@.take(i - 1)).push(lower_char(c)));
    }
    assert(s@.take(i as int) == s@);
    out
}

/// What `trim_start` drops is a run of white space up to a character that is none.
pub proof fn lemma_trim_start(s: Seq<char>, n: int)
    requires
        0 <= n <= s.len(),
        forall|i: int| 0 <= i < n ==> is_white(#[trigger] s[i]),
        n < s.len() ==> !is_white(s[n]),
    ensures
        trim_start(s) == s.skip(n),
    decreases s.len(),
{
    if n > 0 {
        assert(is_white(s[0]));
        assert forall|i: int| 0 <= i < n - 1 implies is_white(#[trigger] s.skip(1)[i]) by {
            assert(s.skip(1)[i] == s[i + 1]);
        }
        lemma_trim_start(s.skip(1), n - 1);
        assert(s.skip(1).skip(n - 1) =~= s.skip(n));
    } else {
        assert(s.skip(0) =~= s);
    }
}

/// What `trim_end` drops is a run of white space back to a character that is none.
pub proof fn lemma_trim_end(s: Seq<char>, n: int)
    requires
        0 <= n <= s.len(),
        forall|i: int| n <= i < s.len() ==> is_white(#[trigger] s[i]),
        n > 0 ==> !is_white(s[n - 1]),
    ensures
        trim_end(s) == s.take(n),
    decreases s.len(),
{
    if n < s.len() {
        assert(is_white(s[s.len() - 1]));
        lemma_trim_end(s.drop_last(), n);
        assert(s.drop_last().take(n) =~= s.take(n));
    } else {
        assert(s.take(n) =~= s);
    }
}

/// `s` without leading and trailing white space.
pub fn trimmed(s: &str) -> (r: String)
    ensures
        r@ == trim(s@),
{
    let v = chars_of(s);
    let mut i: usize = 0;
    while i < v.len() && white(v[i])
        invariant
            i <= v@.len(),
            forall|k: int| 0 <= k < i ==> is_white(#[trigger] v@[k]),
        decreases v@.len() - i,
    {
        i += 1;
    }
    let mut j: usize = v.len();
    while j > i && white(v[j - 1])
        invariant
            i <= j <= v@.len(),
            forall|k: int| j <= k < v@.len() ==> is_white(#[trigger] v@[k]),
        decreases j,
    {
        j -= 1;
    }
    proof {
        lemma_trim_start(v@, i as int);
        let t = v@.skip(i as int);
        assert forall|k: int| j - i <= k < t.len() implies is_white(#[trigger] t[k]) by {
            assert(t[k] == v@[k + i]);
        }
        if j > i {
            assert(t[j - i - 1] == v@[j - 1]);
        }
        lemma_trim_end(t, j - i);
        assert(t.take(j - i) =~= v@.subrange(i as int, j as int));
    }
    text_of(&v, i, j)
}

/// Whether `part` stands in `v` at `at`.
pub fn found_at(v: &Vec<char>, at: usize, part: &Vec<char>) -> (r: bool)
    ensures
        r == (at + part@.len() <= v@.len() && v@.subrange(at as int, at + part@.len()) == part@),
{
    if at > v.len() || v.len() - at < part.len() {
        return false;
    }
    let n: usize = v.len();
    let mut i: usize = 0;
    while i < part.len()
        invariant
            at + part@.len() <= v@.len() == n,
            i <= part@.len(),
            forall|k: int| 0 <= k < i ==> v@[at + k] == #[trigger] part@[k],
        decreases part@.len() - i,
    {
        if v[at + i] != part[i] {
            assert(v@.subrange(at as int, at + part@.len())[i as int] != part@[i as int]);
            return false;
        }
        i += 1;
    }
    assert(v@.subrange(at as int, at + part@.len()) =~= part@);
    true
}

/// The decimal digit with the value `d`.
pub open spec fn digit(d: nat) -> char {
    ('0' as u32 + d) as char
}

/// `n` in decimal notation, without leading zeros.
pub open spec fn decimal(n: nat) -> Seq<char>
    decreases n,
{
    if n < 10 {
        seq![digit(n)]
    } else {
        decimal(n / 10).push(digit(n % 10))
    }
}

/// `n` in decimal notation.
pub fn decimal_text(n: u64) -> (r: String)
    ensures
        r@ == decimal(n as nat),
    decreases n,
{
    let d: u8 = (n % 10) as u8;
    let c: char = (48u8 + d) as char;
    let mut out = if n < 10 { String::new() } else { decimal_text(n / 10) };
    out.push(c);
    assert(n < 10 ==> out@ =~= seq![digit(n as nat)]);
    out
}

/// Whether `c` is an ASCII digit.
pub open spec fn is_digit(c: char) -> bool {
    '0' <= c <= '9'
}

/// Whether `s` is a non-empty run of ASCII digits.
pub open spec fn all_digits(s: Seq<char>) -> bool {
    s.len() > 0 && forall|i: int| 0 <= i < s.len() ==> is_digit(#[trigger] s[i])
}

/// The number that a run of decimal digits denotes.
pub open spec fn digits_value(s: Seq<char>) -> nat
    decreases s.len(),
{
    if s.len() == 0 {
        0
    } else {
        digits_value(s.drop_last()) * 10 + (s.last() as u32 - '0' as u32) as nat
    }
}

/// An unsigned decimal number of at most `max`, with an optional `+` in front.
pub open spec fn parse_unsigned(s: Seq<char>, max: nat) -> Option<nat> {
    let t = if s.len() > 0 && s[0] == '+' { s.skip(1) } else { s };
    if all_digits(t) && digits_value(t) <= max {
        Some(digits_value(t))
    } else {
        None
    }
}

/// A decimal number that fits in `i64`, with an optional sign in front.
pub open spec fn parse_signed(s: Seq<char>) -> Option<int> {
    let negative = s.len() > 0 && s[0] == '-';
    let t = if s.len() > 0 && (s[0] == '+' || s[0] == '-') { s.skip(1) } else { s };
    let n = if negative { -(digits_value(t) as int) } else { digits_value(t) as int };
    if all_digits(t) && i64::MIN <= n <= i64::MAX {
        Some(n)
    } else {
        None
    }
}

/// Decimal notation is a run of digits that denotes the number.
pub proof fn lemma_decimal(n: nat)
    ensures
        all_digits(decimal(n)),
        digits_value(decimal(n)) == n,
    decreases n,
{
    if n < 10 {
        let s = decimal(n);
        assert(s =~= seq![digit(n)]);
        assert(s.drop_last() =~= Seq::empty());
        assert(digits_value(s.drop_last()) == 0);
    } else {
        lemma_decimal(n / 10);
        let s = decimal(n);
        assert(s.drop_last() =~= decimal(n / 10));
        assert(s.last() == digit(n % 10));
        assert forall|i: int| 0 <= i < s.len() implies is_digit(#[trigger] s[i]) by {
            if i < s.len() - 1 {
                assert(s[i] == decimal(n / 10)[i]);
            }
        }
    }
}

/// Longer runs of digits denote numbers at least as large.
proof fn lemma_digits_grow(s: Seq<char>, n: int)
    requires
        0 <= n <= s.len(),
    ensures
        digits_value(s.take(n)) <= digits_value(s),
    decreases s.len(),
{
    if n < s.len() {
        assert(s.drop_last().take(n) =~= s.take(n));
        lemma_digits_grow(s.drop_last(), n);
    } else {
        assert(s.take(n) =~= s);
    }
}

/// The number that the digits `from..` of `v` denote, if they are digits and it is at most `max`.
fn digits_from(v: &Vec<char>, from: usize, max: u64) -> (r: Option<u64>)
    requires
        from <= v@.len(),
    ensures
        r == (if all_digits(v@.skip(from as int)) && digits_value(v@.skip(from as int)) <= max {
            Some(digits_value(v@.skip(from as int)) as u64)
        } else {
            None
        }),
{
    let ghost t = v@.skip(from as int);
    if from == v.len() {
        return None;
    }
    let mut n: u64 = 0;
    let mut i: usize = from;
    assert(t.take(0) =~= Seq::<char>::empty());
    while i < v.len()
        invariant
            from <= i <= v@.len(),
            t == v@.skip(from as int),
            n == digits_value(t.take(i - from)),
            n <= max,
            forall|k: int| 0 <= k < i - from ==> is_digit(#[trigger] t[k]),
        decreases v@.len() - i,
    {
        let c: char = v[i];
        assert(t[i - from] == c);
        if !('0' <= c && c <= '9') {
            return None;
        }
        let d: u64 = (c as u32 - 48) as u64;
        assert(t.take(i - from + 1).drop_last() =~= t.take(i - from));
        proof {
            lemma_digits_grow(t, i - from + 1);
        }
        if n > u64::MAX / 10 || n * 10 > u64::MAX - d || n * 10 + d > max {
            return None;
        }
        n = n * 10 + d;
        i += 1;
    }
    assert(t.take(i - from) =~= t);
    Some(n)
}

/// Reads an unsigned decimal number of at most `max`.
pub fn unsigned(s: &str, max: u64) -> (r: Option<u64>)
    ensures
        r == (match parse_unsigned(s@, max as nat) {
            Some(n) => Some(n as u64),
            None => None,
        }),
{
    let v = chars_of(s);
    assert(v@.skip(0) =~= v@);
    if v.len() > 0 && v[0] == '+' {
        digits_from(&v, 1, max)
    } else {
        digits_from(&v, 0, max)
    }
}

/// Reads a decimal number that fits in `i64`.
pub fn signed(s: &str) -> (r: Option<i64>)
    ensures
        r == (match parse_signed(s@) {
            Some(n) => Some(n as i64),
            None => None,
        }),
{
    let v = chars_of(s);
    assert(v@.skip(0) =~= v@);
    if v.len() > 0 && v[0] == '-' {
        match digits_from(&v, 1, 0x8000_0000_0000_0000) {
            Some(n) => {
                if n == 0x8000_0000_0000_0000 {
                    Some(i64::MIN)
                } else {
                    Some(-(n as i64))
                }
            },
            None => None,
        }
    } else {
        let from: usize = if v.len() > 0 && v[0] == '+' { 1 } else { 0 };
        match digits_from(&v, from, 0x7fff_ffff_ffff_ffff) {
            Some(n) => Some(n as i64),
            None => None,
        }
    }
}

/// The runs of characters between white space.
pub open spec fn words(s: Seq<char>) -> Seq<Seq<char>>
    decreases s.len(),
{
    if s.len() == 0 {
        Seq::empty()
    } else {
        let front = words(s.drop_last());
        if is_white(s.last()) {
            front
        } else if s.len() == 1 || is_white(s[s.len() - 2]) {
            front.push(seq![s.last()])
        } else {
            front.drop_last().push(front.last().push(s.last()))
        }
    }
}

/// Words with one space between them.
pub open spec fn spaced(w: Seq<Seq<char>>) -> Seq<char>
    decreases w.len(),
{
    if w.len() == 0 {
        Seq::empty()
    } else if w.len() == 1 {
        w[0]
    } else {
        spaced(w.drop_last()) + seq![' '] + w.last()
    }
}

/// The words of a text.
pub fn words_of(s: &str) -> (r: Vec<String>)
    ensures
        r@.map_values(|t: String| t@) == words(s@),
{
    let v = chars_of(s);
    let ghost all = v@;
    let mut out: Vec<String> = Vec::new();
    let mut word = String::new();
    let mut inside = false;
    let mut i: usize = 0;
    proof {
        assert(all.take(0) =~= Seq::empty());
        assert(out@.map_values(|t: String| t@) =~= Seq::empty());
    }
    while i < v.len()
        invariant
            i <= v@.len(),
            all == v@,
            inside == (i > 0 && !is_white(all[i - 1])),
            inside ==> words(all.take(i as int)) == out@.map_values(|t: String| t@).push(word@),
            !inside ==> words(all.take(i as int)) == out@.map_values(|t: String| t@),
        decreases v@.len() - i,
    {
        let c: char = v[i];
        let ghost before = out@.map_values(|t: String| t@);
        let ghost so_far = words(all.take(i as int));
        proof {
            assert(all.take(i + 1).drop_last() =~= all.take(i as int));
            assert(all.take(i + 1).last() == c);
            if i > 0 {
                assert(all.take(i + 1)[i - 1] == all[i - 1]);
            }
        }
        if white(c) {
            if inside {
                let mut done = String::new();
                std::mem::swap(&mut done, &mut word);
                out.push(done);
                assert(out@.map_values(|t: String| t@) =~= before.push(done@));
            }
            inside = false;
        } else {
            if inside {
                let ghost w = word@;
                word.push(c);
                assert(so_far.drop_last().push(so_far.last().push(c)) =~= before.push(w.push(c)));
            } else {
                word = String::new();
                word.push(c);
                assert(word@ =~= seq![c]);
            }
            inside = true;
        }
        i += 1;
    }
    assert(all.take(i as int) =~= all);
    if inside {
        let ghost before = out@.map_values(|t: String| t@);
        out.push(word);
        assert(out@.map_values(|t: String| t@) =~= before.push(word@));
    }
    out
}

/// The first `n` words with one space between them.
pub fn spaced_text(w: &Vec<String>, n: usize) -> (r: String)
    requires
        n <= w@.len(),
    ensures
        r@ == spaced(w@.map_values(|t: String| t@).take(n as int)),
{
    let ghost all = w@.map_values(|t: String| t@);
    let mut out = String::new();
    let mut i: usize = 0;
    assert(out@ =~= spaced(all.take(0)));
    while i < n
        invariant
            i <= n <= w@.len(),
            all == w@.map_values(|t: String| t@),
            out@ == spaced(all.take(i as int)),
        decreases n - i,
    {
        let ghost before = out@;
        if i > 0 {
            out.push(' ');
        }
        out.append(w[i].as_str());
        proof {
            let t = all.take(i + 1);
            assert(t.drop_last() =~= all.take(i as int));
            assert(t.last() == w@[i as int]@);
            if i > 0 {
                assert(out@ =~= before + seq![' '] + t.last());
            } else {
                assert(out@ =~= t[0]);
            }
        }
        i += 1;
    }
    out
}

/// A text without white space around it and with one space in place of each run of
/// white space in it.
pub open spec fn collapsed(s: Seq<char>) -> Seq<char> {
    spaced(words(s))
}

/// Trims a text and makes one space of each run of white space in it.
pub fn collapse_ws(s: &str) -> (r: String)
    ensures
        r@ == collapsed(s@),
{
    let w = words_of(s);
    let n: usize = w.len();
    let ghost all = w@.map_values(|t: String| t@);
    assert(all.take(n as int) =~= all);
    spaced_text(&w, n)
}

/// The pieces of a text between separators.
pub fn pieces(v: &Vec<char>, to: usize, sep: char) -> (r: Vec<String>)
    requires
        to <= v@.len(),
    ensures
        r@.map_values(|t: String| t@) == split(v@.take(to as int), sep),
{
    let ghost all = v@.take(to as int);
    let mut out: Vec<String> = Vec::new();
    let mut piece = String::new();
    let mut i: usize = 0;
    proof {
        assert(all.take(0) =~= Seq::empty());
        assert(out@.map_values(|t: String| t@).push(piece@) =~= split(all.take(0), sep));
    }
    while i < to
        invariant
            i <= to <= v@.len(),
            all == v@.take(to as int),
            out@.map_values(|t: String| t@).push(piece@) == split(all.take(i as int), sep),
        decreases to - i,
    {
        let c: char = v[i];
        let ghost before = out@.map_values(|t: String| t@);
        let ghost p = piece@;
        proof {
            let a = all.take(i as int);
            assert(all.take(i + 1) =~= a + seq![c]);
            lemma_split_concat(a, seq![c], sep);
            reveal_with_fuel(split, 2);
            assert(seq![c].skip(1) =~= Seq::empty());
            if c == sep {
                assert(split(seq![c], sep) =~= seq![Seq::empty(), Seq::empty()]);
                assert(split(a, sep).drop_last() + glued(split(a, sep).last(), split(seq![c], sep))
                    =~= before.push(p).push(Seq::empty()));
            } else {
                assert(seq![c] + Seq::<char>::empty() =~= seq![c]);
                assert(split(seq![c], sep) =~= seq![seq![c]]);
                assert(split(a, sep).last() == p);
                assert(split(a, sep).drop_last() =~= before);
                assert(p + seq![c] =~= p.push(c));
                assert(glued(p, split(seq![c], sep)) =~= seq![p.push(c)]);
                assert(split(a, sep).drop_last() + glued(split(a, sep).last(), split(seq![c], sep))
                    =~= before.push(p.push(c)));
            }
        }
        if c == sep {
            let mut done = String::new();
            std::mem::swap(&mut done, &mut piece);
            out.push(done);
            assert(out@.map_values(|t: String| t@) =~= before.push(done@));
            assert(piece@ =~= Seq::empty());
        } else {
            piece.push(c);
        }
        i += 1;
    }
    assert(all.take(i as int) =~= all);
    let ghost before = out@.map_values(|t: String| t@);
    out.push(piece);
    assert(out@.map_values(|t: String| t@) =~= before.push(piece@));
    out
}

} // verus!

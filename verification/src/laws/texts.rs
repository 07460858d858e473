//! What the pieces of texts are: trimmed texts, words, numbers, and texts cut at a character.

use crate::lines::{lemma_split_concat, lemma_split_some, lemma_split_whole, split};
use crate::text::{
    all_digits, decimal, digits_value, is_digit, is_white, lemma_decimal, lower, parse_signed,
    parse_unsigned, spaced, trim, trim_end, trim_start, words,
};
use vstd::prelude::*;
use vstd::string::*;

verus! {

/// Whether all characters are white space.
pub open spec fn all_white(s: Seq<char>) -> bool {
    forall|i: int| 0 <= i < s.len() ==> is_white(#[trigger] s[i])
}

/// Whether no character is white space.
pub open spec fn none_white(s: Seq<char>) -> bool {
    forall|i: int| 0 <= i < s.len() ==> !is_white(#[trigger] s[i])
}

/// White space are the tab, the line feeds and the carriage return, the spaces, whatever
/// their width, and the separators of lines and paragraphs; the zero-width ones are not.
pub proof fn law_what_is_white_space(c: char)
    ensures
        ({
            let n = c as u32;
            is_white(c) <==> n == 0x9 || n == 0xa || n == 0xb || n == 0xc || n == 0xd || n == 0x20
                || n == 0x85 || n == 0xa0 || n == 0x1680 || n == 0x2000 || n == 0x2001 || n == 0x2002
                || n == 0x2003 || n == 0x2004 || n == 0x2005 || n == 0x2006 || n == 0x2007 || n
                == 0x2008 || n == 0x2009 || n == 0x200a || n == 0x2028 || n == 0x2029 || n == 0x202f
                || n == 0x205f || n == 0x3000
        }),
{
}

/// Trimming takes white space off both ends, all of it, and nothing else.
pub proof fn law_trimming_takes_off_the_ends(s: Seq<char>)
    ensures
        exists|i: int, j: int|
            0 <= i <= j <= s.len() && trim(s) == #[trigger] s.subrange(i, j) && all_white(s.take(i))
                && all_white(s.skip(j)),
        trim(s).len() > 0 ==> !is_white(trim(s)[0]) && !is_white(trim(s).last()),
{
    lemma_start(s);
    let i = choose|i: int| 0 <= i <= s.len() && trim_start(s) == s.skip(i) && all_white(s.take(i));
    let t = s.skip(i);
    lemma_end(t);
    let j = choose|j: int| 0 <= j <= t.len() && trim_end(t) == t.take(j) && all_white(t.skip(j));
    assert(t.take(j) =~= s.subrange(i, i + j));
    assert(t.skip(j) =~= s.skip(i + j));
    if trim(s).len() > 0 {
        assert(trim(s)[0] == t[0]);
    }
}

proof fn lemma_start(s: Seq<char>)
    ensures
        exists|i: int|
            0 <= i <= s.len() && trim_start(s) == #[trigger] s.skip(i) && all_white(s.take(i)),
        trim_start(s).len() > 0 ==> !is_white(trim_start(s)[0]),
    decreases s.len(),
{
    if s.len() > 0 && is_white(s[0]) {
        let r = s.skip(1);
        lemma_start(r);
        let i = choose|i: int|
            0 <= i <= r.len() && trim_start(r) == #[trigger] r.skip(i) && all_white(r.take(i));
        assert(r.skip(i) =~= s.skip(i + 1));
        assert(all_white(s.take(i + 1))) by {
            assert forall|k: int| 0 <= k < i + 1 implies is_white(#[trigger] s.take(i + 1)[k]) by {
                if k > 0 {
                    assert(r.take(i)[k - 1] == s[k]);
                }
            }
        }
    } else {
        assert(s.skip(0) =~= s);
        assert(all_white(s.take(0)));
    }
}

proof fn lemma_end(s: Seq<char>)
    ensures
        exists|j: int|
            0 <= j <= s.len() && trim_end(s) == #[trigger] s.take(j) && all_white(s.skip(j)),
        trim_end(s).len() > 0 ==> !is_white(trim_end(s).last()),
    decreases s.len(),
{
    if s.len() > 0 && is_white(s.last()) {
        let r = s.drop_last();
        lemma_end(r);
        let j = choose|j: int|
            0 <= j <= r.len() && trim_end(r) == #[trigger] r.take(j) && all_white(r.skip(j));
        assert(r.take(j) =~= s.take(j));
        assert(all_white(s.skip(j))) by {
            assert forall|k: int| 0 <= k < s.len() - j implies is_white(#[trigger] s.skip(j)[k]) by {
                if k < r.len() - j {
                    assert(r.skip(j)[k] == s.skip(j)[k]);
                }
            }
        }
    } else {
        assert(s.take(s.len() as int) =~= s);
        assert(all_white(s.skip(s.len() as int)));
    }
}

/// Small letters stand for the capitals of ASCII, and every other character stays.
pub proof fn law_only_capitals_are_lowered(s: Seq<char>)
    ensures
        lower(s).len() == s.len(),
        forall|i: int|
            0 <= i < s.len() ==> if 'A' <= s[i] <= 'Z' {
                #[trigger] lower(s)[i] as u32 == s[i] as u32 + 32
            } else {
                lower(s)[i] == s[i]
            },
{
}

/// A text without white space is one word, and white space between two texts parts their
/// words.
pub proof fn law_words_are_parted_by_white_space(a: Seq<char>, c: char, b: Seq<char>)
    requires
        is_white(c),
    ensures
        words(a + seq![c] + b) == words(a) + words(b),
        a.len() > 0 && none_white(a) ==> words(a) == seq![a],
        all_white(a) ==> words(a) == Seq::<Seq<char>>::empty(),
    decreases a.len() + b.len(),
{
    let s = a + seq![c] + b;
    if b.len() == 0 {
        assert(s.drop_last() =~= a);
        assert(s.last() == c);
        assert(words(a) + words(b) =~= words(a));
    } else {
        let f = b.drop_last();
        law_words_are_parted_by_white_space(a, c, f);
        assert(s.drop_last() =~= a + seq![c] + f);
        assert(s.last() == b.last());
        if !is_white(b.last()) {
            if b.len() == 1 {
                assert(s[s.len() - 2] == c);
                assert(words(f) =~= Seq::empty());
                assert(words(s) =~= words(a) + words(b));
            } else {
                assert(s[s.len() - 2] == b[b.len() - 2]);
                if !is_white(b[b.len() - 2]) {
                    lemma_words_end(f);
                    assert((words(a) + words(f)).drop_last() =~= words(a) + words(f).drop_last());
                }
                assert(words(s) =~= words(a) + words(b));
            }
        }
    }
    lemma_one_word(a);
}

/// A text that ends in a word has words.
proof fn lemma_words_end(s: Seq<char>)
    requires
        s.len() > 0,
        !is_white(s.last()),
    ensures
        words(s).len() > 0,
{
}

proof fn lemma_one_word(a: Seq<char>)
    ensures
        a.len() > 0 && none_white(a) ==> words(a) == seq![a],
        all_white(a) ==> words(a) == Seq::<Seq<char>>::empty(),
    decreases a.len(),
{
    if a.len() > 0 {
        let f = a.drop_last();
        lemma_one_word(f);
        if none_white(a) {
            assert(none_white(f)) by {
                assert forall|i: int| 0 <= i < f.len() implies !is_white(#[trigger] f[i]) by {
                    assert(f[i] == a[i]);
                }
            }
            assert(!is_white(a[a.len() - 1]));
            if f.len() == 0 {
                assert(words(f) =~= Seq::empty());
                assert(words(a) =~= seq![a]) by {
                    assert(seq![a.last()] =~= a);
                }
            } else {
                assert(!is_white(a[a.len() - 2]));
                assert(words(f) == seq![f]);
                assert(f.push(a.last()) =~= a);
                assert(words(a) =~= seq![a]);
            }
        }
        if all_white(a) {
            assert(all_white(f)) by {
                assert forall|i: int| 0 <= i < f.len() implies is_white(#[trigger] f[i]) by {
                    assert(f[i] == a[i]);
                }
            }
            assert(is_white(a[a.len() - 1]));
        }
    }
}

/// Words are put in a row with one space between each two of them.
pub proof fn law_words_are_put_in_a_row(a: Seq<Seq<char>>, b: Seq<Seq<char>>, w: Seq<char>)
    requires
        a.len() > 0,
        b.len() > 0,
    ensures
        spaced(a + b) == spaced(a) + seq![' '] + spaced(b),
        spaced(seq![w]) == w,
    decreases b.len(),
{
    let s = a + b;
    if b.len() == 1 {
        assert(s.drop_last() =~= a);
        assert(s.last() == b[0]);
    } else {
        law_words_are_put_in_a_row(a, b.drop_last(), w);
        assert(s.drop_last() =~= a + b.drop_last());
        assert(s.last() == b.last());
        assert(spaced(s) =~= spaced(a) + seq![' '] + spaced(b));
    }
}

/// A number is read back from its decimal notation, which has no zero in front, with and
/// without a sign, as long as it fits; and what holds another character is no number.
pub proof fn law_numbers_are_read_back(n: nat, s: Seq<char>, i: int)
    ensures
        all_digits(decimal(n)),
        n > 0 ==> decimal(n)[0] != '0',
        n <= i64::MAX ==> parse_signed(decimal(n)) == Some(n as int),
        n <= i64::MAX ==> parse_signed(seq!['-'] + decimal(n)) == Some(-(n as int)),
        n > i64::MAX ==> parse_signed(decimal(n)) is None,
        n > i64::MAX + 1 ==> parse_signed(seq!['-'] + decimal(n)) is None,
        n == i64::MAX + 1 ==> parse_signed(seq!['-'] + decimal(n)) == Some(i64::MIN as int),
        parse_signed(seq!['+'] + decimal(n)) == parse_signed(decimal(n)),
        parse_unsigned(decimal(n), n) == Some(n),
        parse_unsigned(seq!['+'] + decimal(n), n) == Some(n),
        n > 0 ==> parse_unsigned(decimal(n), (n - 1) as nat) is None,
        parse_unsigned(seq!['-'] + s, n) is None,
        1 <= i < s.len() && !is_digit(s[i]) ==> parse_signed(s) is None && parse_unsigned(
            s,
            n,
        ) is None,
        s.len() == 0 ==> parse_signed(s) is None && parse_unsigned(s, n) is None,
{
    lemma_decimal(n);
    lemma_no_zero_in_front(n);
    let d = decimal(n);
    assert(is_digit(d[0]));
    let m = seq!['-'] + d;
    assert(m.skip(1) =~= d);
    let p = seq!['+'] + d;
    assert(p.skip(1) =~= d);
    let o = seq!['-'] + s;
    assert(o[0] == '-');
    assert(!all_digits(o)) by {
        if all_digits(o) {
            assert(is_digit(o[0]));
        }
    }
    if 1 <= i < s.len() && !is_digit(s[i]) {
        let t = s.skip(1);
        assert(t[i - 1] == s[i]);
        assert(!all_digits(t));
        assert(!all_digits(s));
    }
}

proof fn lemma_no_zero_in_front(n: nat)
    ensures
        decimal(n).len() > 0,
        n > 0 ==> decimal(n)[0] != '0',
    decreases n,
{
    if n >= 10 {
        lemma_no_zero_in_front(n / 10);
    }
}

/// A run of digits denotes ten times what it denotes without its last digit, and that digit.
pub proof fn law_digits_have_their_places(s: Seq<char>, c: char)
    requires
        is_digit(c),
    ensures
        digits_value(s.push(c)) == 10 * digits_value(s) + (c as u32 - '0' as u32),
        digits_value(Seq::empty()) == 0,
{
    assert(s.push(c).drop_last() =~= s);
}

/// A text is cut at each separator: two texts with one between them have the pieces of the
/// first and then those of the second, and a text without one is its only piece.
pub proof fn law_texts_are_cut_at_separators<T>(a: Seq<T>, sep: T, b: Seq<T>)
    ensures
        split(a + seq![sep] + b, sep) == split(a, sep) + split(b, sep),
        !a.contains(sep) ==> split(a, sep) == seq![a],
{
    let one = seq![sep];
    lemma_split_some(a, sep);
    lemma_split_some(b, sep);
    lemma_split_concat(a, one + b, sep);
    assert(a + one + b =~= a + (one + b));
    assert((one + b).skip(1) =~= b);
    let r = split(one + b, sep);
    assert(r =~= seq![Seq::<T>::empty()] + split(b, sep));
    assert(split(a + one + b, sep) =~= split(a, sep) + split(b, sep)) by {
        assert(split(a, sep).last() + Seq::<T>::empty() =~= split(a, sep).last());
    }
    if !a.contains(sep) {
        lemma_split_whole(a, sep);
    }
}

} // verus!

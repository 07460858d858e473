//! Splitting bytes and texts into lines.

use vstd::prelude::*;
use vstd::string::*;
use vstd::utf8::*;

verus! {

/// `pieces` with `front` put in front of the first of them.
pub open spec fn glued<T>(front: Seq<T>, pieces: Seq<Seq<T>>) -> Seq<Seq<T>> {
    pieces.update(0, front + pieces[0])
}

/// The pieces of `s` between separators; there is one more of them than separators.
pub open spec fn split<T>(s: Seq<T>, sep: T) -> Seq<Seq<T>>
    decreases s.len(),
{
    if s.len() == 0 {
        seq![Seq::empty()]
    } else if s[0] == sep {
        seq![Seq::empty()] + split(s.skip(1), sep)
    } else {
        glued(seq![s[0]], split(s.skip(1), sep))
    }
}

/// There is always a piece.
pub proof fn lemma_split_some<T>(s: Seq<T>, sep: T)
    ensures
        split(s, sep).len() > 0,
    decreases s.len(),
{
    if s.len() > 0 {
        lemma_split_some(s.skip(1), sep);
    }
}

/// The pieces of two sequences in a row: the last piece of the first and the first
/// piece of the second become one.
pub proof fn lemma_split_concat<T>(a: Seq<T>, b: Seq<T>, sep: T)
    ensures
        split(a + b, sep) == split(a, sep).drop_last() + glued(split(a, sep).last(), split(b, sep)),
    decreases a.len(),
{
    lemma_split_some(a, sep);
    lemma_split_some(b, sep);
    if a.len() == 0 {
        assert(a + b =~= b);
        assert(split(a, sep).drop_last() =~= Seq::empty());
        assert(glued(Seq::empty(), split(b, sep)) =~= split(b, sep));
        assert(split(a + b, sep) =~= split(a, sep).drop_last() + glued(
            split(a, sep).last(),
            split(b, sep),
        ));
    } else {
        let rest = a.skip(1);
        lemma_split_concat(rest, b, sep);
        lemma_split_some(rest, sep);
        assert((a + b).skip(1) =~= rest + b);
        assert((a + b)[0] == a[0]);
        let right = split(a, sep).drop_last() + glued(split(a, sep).last(), split(b, sep));
        if a[0] == sep {
            assert(split(a + b, sep) =~= right);
        } else {
            let tail = split(rest, sep).drop_last() + glued(split(rest, sep).last(), split(b, sep));
            if split(rest, sep).len() == 1 {
                assert(seq![a[0]] + (split(rest, sep)[0] + split(b, sep)[0]) =~= (seq![a[0]]
                    + split(rest, sep)[0]) + split(b, sep)[0]);
                assert(glued(seq![a[0]], tail) =~= right);
            } else {
                assert(glued(seq![a[0]], tail) =~= right);
            }
        }
    }
}

/// What holds no separator is one piece.
pub proof fn lemma_split_whole<T>(s: Seq<T>, sep: T)
    requires
        forall|i: int| 0 <= i < s.len() ==> #[trigger] s[i] != sep,
    ensures
        split(s, sep) == seq![s],
    decreases s.len(),
{
    if s.len() > 0 {
        let rest = s.skip(1);
        assert forall|i: int| 0 <= i < rest.len() implies #[trigger] rest[i] != sep by {
            assert(rest[i] == s[i + 1]);
        }
        lemma_split_whole(rest, sep);
        assert(seq![s[0]] + rest =~= s);
        assert(split(s, sep) =~= seq![s]);
    } else {
        assert(s =~= Seq::empty());
    }
}

/// A line and its separator at the end of what is split add the line as a piece
/// before the last, empty one.
pub proof fn lemma_split_append<T>(a: Seq<T>, line: Seq<T>, sep: T)
    requires
        forall|i: int| 0 <= i < line.len() ==> #[trigger] line[i] != sep,
        split(a, sep).last() == Seq::<T>::empty(),
    ensures
        split(a + line + seq![sep], sep) == split(a, sep).drop_last() + seq![line, Seq::empty()],
{
    lemma_split_some(a, sep);
    lemma_split_whole(line, sep);
    lemma_split_concat(line, seq![sep], sep);
    assert(split(seq![sep], sep) =~= seq![Seq::empty(), Seq::empty()]) by {
        assert(seq![sep].skip(1) =~= Seq::empty());
        assert(split(seq![sep].skip(1), sep) =~= seq![Seq::empty()]);
    }
    assert(line + Seq::empty() =~= line);
    assert(split(line + seq![sep], sep) =~= seq![line, Seq::empty()]);
    lemma_split_concat(a, line + seq![sep], sep);
    assert(a + (line + seq![sep]) =~= a + line + seq![sep]);
    assert(Seq::<T>::empty() + line =~= line);
    assert(split(a + line + seq![sep], sep) =~= split(a, sep).drop_last() + seq![
        line,
        Seq::empty(),
    ]);
}

/// The pieces of `bytes` between line feeds.
pub fn byte_lines(bytes: &[u8]) -> (r: Vec<Vec<u8>>)
    ensures
        r@.map_values(|v: Vec<u8>| v@) == split(bytes@, 10u8),
{
    let mut out: Vec<Vec<u8>> = Vec::new();
    let mut line: Vec<u8> = Vec::new();
    let mut i: usize = 0;
    let ghost all = split(bytes@, 10u8);
    let ghost view = |v: Vec<u8>| v@;
    proof {
        lemma_split_some(bytes@, 10u8);
        assert(bytes@.skip(0) =~= bytes@);
        assert(glued(line@, all) =~= all);
        assert(out@.map_values(view) + all =~= all);
    }
    while i < bytes.len()
        invariant
            i <= bytes@.len(),
            all == split(bytes@, 10u8),
            view == (|v: Vec<u8>| v@),
            all == out@.map_values(view) + glued(line@, split(bytes@.skip(i as int), 10u8)),
        decreases bytes@.len() - i,
    {
        let ghost rest = bytes@.skip(i as int);
        let ghost done = out@.map_values(view);
        proof {
            assert(rest.skip(1) =~= bytes@.skip(i + 1));
            lemma_split_some(rest.skip(1), 10u8);
        }
        let b: u8 = bytes[i];
        if b == 10 {
            let ghost before = line@;
            let mut full: Vec<u8> = Vec::new();
            std::mem::swap(&mut full, &mut line);
            out.push(full);
            proof {
                assert(out@.map_values(view) =~= done.push(before));
                assert(before + Seq::empty() =~= before);
                let next = split(rest.skip(1), 10u8);
                assert(glued(Seq::<u8>::empty(), next) =~= next);
                assert(done + glued(before, split(rest, 10u8)) =~= done.push(before) + next);
            }
        } else {
            let ghost before = line@;
            line.push(b);
            proof {
                let next = split(rest.skip(1), 10u8);
                assert(before + (seq![b] + next[0]) =~= before.push(b) + next[0]);
                assert(glued(before, split(rest, 10u8)) =~= glued(line@, next));
            }
        }
        i += 1;
    }
    let ghost done = out@.map_values(view);
    let ghost last = line@;
    out.push(line);
    proof {
        assert(bytes@.skip(i as int) =~= Seq::empty());
        assert(last + Seq::empty() =~= last);
        assert(out@.map_values(view) =~= done.push(last));
        assert(all =~= done.push(last));
        assert(out@.map_values(|v: Vec<u8>| v@) =~= out@.map_values(view));
    }
    out
}

/// The UTF-8 encoding of two texts in a row.
pub proof fn lemma_encode_concat(a: Seq<char>, b: Seq<char>)
    ensures
        encode_utf8(a + b) == encode_utf8(a) + encode_utf8(b),
    decreases a.len(),
{
    if a.len() == 0 {
        assert(a + b =~= b);
        assert(encode_utf8(a) + encode_utf8(b) =~= encode_utf8(b));
    } else {
        assert((a + b).drop_first() =~= a.drop_first() + b);
        lemma_encode_concat(a.drop_first(), b);
        assert(encode_utf8(a + b) =~= encode_utf8(a) + encode_utf8(b));
    }
}

/// Among the encodings of characters only that of the line feed holds its byte.
proof fn lemma_encode_char(c: char)
    ensures
        c == '\n' ==> encode_scalar(c as u32) == seq![10u8],
        c != '\n' ==> forall|i: int|
            0 <= i < encode_scalar(c as u32).len() ==> #[trigger] encode_scalar(c as u32)[i]
                != 10u8,
{
    let s = c as u32;
    assert(has_width_1_encoding(s) ==> leading_byte_width_1(s) == s) by (bit_vector);
    assert(leading_byte_width_2(s) >= 0x80 && leading_byte_width_3(s) >= 0x80
        && leading_byte_width_4(s) >= 0x80 && last_continuation_byte(s) >= 0x80
        && second_last_continuation_byte(s) >= 0x80 && third_last_continuation_byte(s) >= 0x80)
        by (bit_vector);
    assert(c == '\n' <==> s == 10);
    if c == '\n' {
        assert(encode_scalar(s) =~= seq![10u8]);
    }
}

/// The encoding of a text without line feeds has no line feed byte.
pub proof fn lemma_encode_without_feed(s: Seq<char>)
    requires
        forall|i: int| 0 <= i < s.len() ==> #[trigger] s[i] != '\n',
    ensures
        forall|i: int| 0 <= i < encode_utf8(s).len() ==> #[trigger] encode_utf8(s)[i] != 10u8,
    decreases s.len(),
{
    if s.len() > 0 {
        let rest = s.drop_first();
        assert forall|i: int| 0 <= i < rest.len() implies #[trigger] rest[i] != '\n' by {
            assert(rest[i] == s[i + 1]);
        }
        assert(s[0] != '\n');
        lemma_encode_without_feed(rest);
        lemma_encode_char(s[0]);
        let head = encode_scalar(s[0] as u32);
        assert forall|i: int| 0 <= i < encode_utf8(s).len() implies #[trigger] encode_utf8(s)[i]
            != 10u8 by {
            if i < head.len() {
                assert(encode_utf8(s)[i] == head[i]);
            } else {
                assert(encode_utf8(s)[i] == encode_utf8(rest)[i - head.len()]);
            }
        }
    }
}

/// The lines of a text, encoded, are the lines of its encoding.
pub proof fn lemma_lines_of_encoding(s: Seq<char>)
    ensures
        split(encode_utf8(s), 10u8) == split(s, '\n').map_values(|l: Seq<char>| encode_utf8(l)),
    decreases s.len(),
{
    let enc = |l: Seq<char>| encode_utf8(l);
    let left = split(encode_utf8(s), 10u8);
    let right = split(s, '\n').map_values(enc);
    if s.len() == 0 {
        assert(left =~= right);
    } else {
        let rest = s.drop_first();
        assert(rest =~= s.skip(1));
        lemma_lines_of_encoding(rest);
        lemma_encode_char(s[0]);
        lemma_split_some(rest, '\n');
        lemma_split_some(encode_utf8(rest), 10u8);
        let head = encode_scalar(s[0] as u32);
        lemma_split_concat(head, encode_utf8(rest), 10u8);
        let tail = split(encode_utf8(rest), 10u8);
        assert(tail =~= split(rest, '\n').map_values(enc));
        if s[0] == '\n' {
            assert(head.skip(1) =~= Seq::empty());
            assert(split(head, 10u8) =~= seq![Seq::empty(), Seq::empty()]) by {
                assert(split(head.skip(1), 10u8) =~= seq![Seq::empty()]);
            }
            assert(Seq::<u8>::empty() + tail[0] =~= tail[0]);
            assert(left =~= right);
        } else {
            lemma_split_whole(head, 10u8);
            assert(left =~= glued(head, tail));
            let first = split(rest, '\n')[0];
            lemma_encode_concat(seq![s[0]], first);
            assert(encode_utf8(seq![s[0]]) =~= head) by {
                assert(seq![s[0]].drop_first() =~= Seq::empty());
                assert(encode_utf8(seq![s[0]].drop_first()) =~= Seq::empty());
            }
            assert(left =~= right);
        }
    }
    assert(right =~= split(s, '\n').map_values(|l: Seq<char>| encode_utf8(l)));
}

} // verus!

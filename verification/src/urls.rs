//! Percent encoding and decoding, and what a URL names.

use crate::text::{chars_of, found_at, text_of};
use vstd::prelude::*;
use vstd::string::*;
use vstd::utf8::{decode_utf8, encode_utf8, valid_utf8};

verus! {

/// Whether a byte stands for itself in a URL: a letter, a digit, one of `-._~`, and
/// a slash where slashes are kept.
pub open spec fn is_kept(b: u8, slash: bool) -> bool {
    ||| 0x30 <= b <= 0x39
    ||| 0x41 <= b <= 0x5a
    ||| 0x61 <= b <= 0x7a
    ||| b == 0x2d
    ||| b == 0x2e
    ||| b == 0x5f
    ||| b == 0x7e
    ||| (slash && b == 0x2f)
}

/// A hexadecimal digit, capital letters for ten and more.
pub open spec fn hex_digit(n: int) -> u8 {
    if n < 10 {
        (0x30 + n) as u8
    } else {
        (0x37 + n) as u8
    }
}

/// A byte as it stands in a URL: itself, or a percent sign and two digits.
pub open spec fn encoded_byte(b: u8, slash: bool) -> Seq<u8> {
    if is_kept(b, slash) {
        seq![b]
    } else {
        seq![0x25u8, hex_digit(b as int / 16), hex_digit(b as int % 16)]
    }
}

/// Bytes as they stand in a URL.
pub open spec fn encoded(bytes: Seq<u8>, slash: bool) -> Seq<u8>
    decreases bytes.len(),
{
    if bytes.len() == 0 {
        Seq::empty()
    } else {
        encoded(bytes.drop_last(), slash) + encoded_byte(bytes.last(), slash)
    }
}

/// ASCII bytes as characters.
pub open spec fn ascii_text(bytes: Seq<u8>) -> Seq<char> {
    bytes.map_values(|b: u8| b as char)
}

/// A text percent-encoded for a URL.
pub open spec fn url_text(s: Seq<char>, slash: bool) -> Seq<char> {
    ascii_text(encoded(encode_utf8(s), slash))
}

fn hex_char(n: u8) -> (r: char)
    requires
        n < 16,
    ensures
        r == hex_digit(n as int) as char,
{
    let b: u8 = if n < 10 { 0x30 + n } else { 0x37 + n };
    b as char
}

/// Percent-encodes a text for a URL. Slashes stand for themselves only where `slash`
/// says so.
pub fn percent_encode(s: &str, slash: bool) -> (r: String)
    ensures
        r@ == url_text(s@, slash),
{
    let bytes = s.as_bytes();
    let ghost all = bytes@;
    let mut out = String::new();
    let mut i: usize = 0;
    proof {
        assert(all.take(0) =~= Seq::empty());
        assert(out@ =~= ascii_text(encoded(all.take(0), slash)));
    }
    while i < bytes.len()
        invariant
            i <= bytes@.len(),
            all == bytes@,
            out@ == ascii_text(encoded(all.take(i as int), slash)),
        decreases bytes@.len() - i,
    {
        let b: u8 = bytes[i];
        let ghost before = out@;
        proof {
            assert(all.take(i + 1).drop_last() =~= all.take(i as int));
            assert(all.take(i + 1).last() == b);
        }
        let keep = (0x30 <= b && b <= 0x39) || (0x41 <= b && b <= 0x5a) || (0x61 <= b && b <= 0x7a)
            || b == 0x2d || b == 0x2e || b == 0x5f || b == 0x7e || (slash && b == 0x2f);
        if keep {
            out.push(b as char);
        } else {
            out.push('%');
            out.push(hex_char(b / 16));
            out.push(hex_char(b % 16));
        }
        assert(out@ =~= before + ascii_text(encoded_byte(b, slash)));
        assert(out@ =~= ascii_text(encoded(all.take(i + 1), slash)));
        i += 1;
    }
    assert(all.take(i as int) =~= all);
    out
}

/// The value of a hexadecimal digit in either case.
pub open spec fn hex_value(c: u8) -> Option<int> {
    if 0x30 <= c <= 0x39 {
        Some(c - 0x30)
    } else if 0x61 <= c <= 0x66 {
        Some(c - 0x57)
    } else if 0x41 <= c <= 0x46 {
        Some(c - 0x37)
    } else {
        None
    }
}

/// The value of a hexadecimal digit in either case.
pub fn hex_val(c: u8) -> (r: Option<u8>)
    ensures
        match r {
            Some(v) => hex_value(c) == Some(v as int) && v < 16,
            None => hex_value(c) is None,
        },
{
    if 0x30 <= c && c <= 0x39 {
        Some(c - 0x30)
    } else if 0x61 <= c && c <= 0x66 {
        Some(c - 0x57)
    } else if 0x41 <= c && c <= 0x46 {
        Some(c - 0x37)
    } else {
        None
    }
}

/// Whether bytes begin with a percent sign and two hexadecimal digits.
pub open spec fn escape_first(bytes: Seq<u8>) -> bool {
    bytes.len() >= 3 && bytes[0] == 0x25 && hex_value(bytes[1]) is Some && hex_value(bytes[2]) is Some
}

/// Bytes with their escapes replaced by what they stand for. A percent sign without
/// two digits behind it stays.
pub open spec fn decoded(bytes: Seq<u8>) -> Seq<u8>
    decreases bytes.len(),
{
    if bytes.len() == 0 {
        Seq::empty()
    } else if escape_first(bytes) {
        seq![(hex_value(bytes[1])->Some_0 * 16 + hex_value(bytes[2])->Some_0) as u8] + decoded(
            bytes.skip(3),
        )
    } else {
        seq![bytes[0]] + decoded(bytes.skip(1))
    }
}

/// `String::from_utf8_lossy`: what bytes read as where what is no UTF-8 is replaced.
pub uninterp spec fn lossy_text(bytes: Seq<u8>) -> Seq<char>;

/// `String::from_utf8_lossy`: the text that the bytes encode if they are UTF-8;
/// otherwise some text that depends on the bytes alone.
#[verifier::external_body]
fn lossy(bytes: &Vec<u8>) -> (r: String)
    ensures
        r@ == lossy_text(bytes@),
        valid_utf8(bytes@) ==> r@ == decode_utf8(bytes@),
{
    String::from_utf8_lossy(bytes).into_owned()
}

/// The bytes with their escapes replaced.
pub fn unescaped(bytes: &[u8]) -> (r: Vec<u8>)
    ensures
        r@ == decoded(bytes@),
{
    let ghost all = bytes@;
    let n: usize = bytes.len();
    let mut out: Vec<u8> = Vec::new();
    let mut i: usize = 0;
    proof {
        assert(all.skip(0) =~= all);
        assert(out@ + decoded(all) =~= decoded(all));
    }
    while i < n
        invariant
            i <= n == bytes@.len(),
            all == bytes@,
            out@ + decoded(all.skip(i as int)) == decoded(all),
        decreases n - i,
    {
        let ghost rest = all.skip(i as int);
        let ghost before = out@;
        let mut step: usize = 1;
        let mut b: u8 = bytes[i];
        if b == 0x25 && n - i > 2 {
            assert(rest[1] == all[i + 1] && rest[2] == all[i + 2]);
            if let (Some(h), Some(l)) = (hex_val(bytes[i + 1]), hex_val(bytes[i + 2])) {
                b = h * 16 + l;
                step = 3;
            }
        }
        out.push(b);
        i += step;
        proof {
            assert(rest.skip(step as int) =~= all.skip(i as int));
            assert(out@ + decoded(all.skip(i as int)) =~= before + (seq![b] + decoded(
                rest.skip(step as int),
            )));
        }
    }
    assert(all.skip(n as int) =~= Seq::empty());
    assert(out@ + Seq::<u8>::empty() =~= out@);
    out
}

/// A text with its escapes replaced by what they stand for.
pub fn percent_decode(s: &str) -> (r: String)
    ensures
        r@ == lossy_text(decoded(encode_utf8(s@))),
        valid_utf8(decoded(encode_utf8(s@))) ==> r@ == decode_utf8(decoded(encode_utf8(s@))),
{
    let bytes = unescaped(s.as_bytes());
    lossy(&bytes)
}

/// Whether the first text begins with the second.
pub open spec fn begins(s: Seq<char>, start: Seq<char>) -> bool {
    s.len() >= start.len() && s.take(start.len() as int) == start
}

/// The path that a `file:` URL names, before its escapes are replaced: what stands
/// behind `file://` and the host, or what stands behind `file:`.
pub open spec fn raw_path(url: Seq<char>) -> Seq<char> {
    if begins(url, "file://"@) {
        let rest = url.skip(7);
        if rest.contains('/') {
            rest.skip(rest.index_of_first('/')->Some_0)
        } else {
            rest
        }
    } else {
        url.skip(5)
    }
}

/// The path that a text names: that of a `file:` URL with its escapes replaced, and a
/// bare path as it stands.
pub open spec fn path_of(url: Seq<char>) -> Seq<char> {
    if begins(url, "file:"@) {
        lossy_text(decoded(encode_utf8(raw_path(url))))
    } else {
        url
    }
}

/// Whether a text begins with the characters of another.
fn starts(v: &Vec<char>, start: &str) -> (r: bool)
    ensures
        r == begins(v@, start@),
{
    let part = chars_of(start);
    let r = found_at(v, 0, &part);
    assert(begins(v@, start@) == (v@.len() >= start@.len() && v@.subrange(
        0,
        start@.len() as int,
    ) =~= start@)) by {
        if v@.len() >= start@.len() {
            assert(v@.take(start@.len() as int) =~= v@.subrange(0, start@.len() as int));
        }
    }
    r
}

/// Whether a URL is to be fetched over the network.
pub fn is_http(url: &str) -> (r: bool)
    ensures
        r == (begins(url@, "http://"@) || begins(url@, "https://"@)),
{
    let v = chars_of(url);
    starts(&v, "http://") || starts(&v, "https://")
}

/// The file system path that a `file:` URL or a bare path names. A bare path is taken
/// as it stands, so that a percent sign in it means itself.
pub fn local_path(url: &str) -> (r: String)
    ensures
        r@ == path_of(url@),
        begins(url@, "file:"@) && valid_utf8(decoded(encode_utf8(raw_path(url@)))) ==> r@
            == decode_utf8(decoded(encode_utf8(raw_path(url@)))),
{
    let v = chars_of(url);
    let n: usize = v.len();
    let mut from: usize = 5;
    proof {
        reveal_strlit("file://");
        reveal_strlit("file:");
    }
    if !starts(&v, "file:") {
        return url.to_owned();
    }
    if starts(&v, "file://") {
        from = 7;
        let ghost rest = v@.skip(7);
        let mut i: usize = 7;
        while i < n && v[i] != '/'
            invariant
                7 <= i <= n == v@.len(),
                rest == v@.skip(7),
                forall|k: int| 0 <= k < i - 7 ==> #[trigger] rest[k] != '/',
            decreases n - i,
        {
            assert(rest[i - 7] == v@[i as int]);
            i += 1;
        }
        if i < n {
            proof {
                assert(rest[i - 7] == '/');
                assert(rest.contains('/'));
                rest.index_of_first_ensures('/');
                let at = rest.index_of_first('/')->Some_0;
                assert(at == i - 7);
                assert(rest.skip(at) =~= v@.skip(i as int));
            }
            from = i;
        }
    }
    let raw = text_of(&v, from, n);
    assert(raw@ =~= v@.skip(from as int));
    percent_decode(raw.as_str())
}

/// Decoding undoes encoding, whether or not slashes are kept.
pub proof fn law_decoding_undoes_encoding(bytes: Seq<u8>, slash: bool)
    ensures
        decoded(encoded(bytes, slash)) == bytes,
    decreases bytes.len(),
{
    if bytes.len() > 0 {
        let front = bytes.drop_last();
        let b = bytes.last();
        law_decoding_undoes_encoding(front, slash);
        lemma_decoded_piece(b, slash);
        lemma_decoded_concat(front, encoded_byte(b, slash), slash);
        assert(bytes =~= front + seq![b]);
    } else {
        assert(bytes =~= Seq::empty());
    }
}

proof fn lemma_decoded_piece(b: u8, slash: bool)
    ensures
        decoded(encoded_byte(b, slash)) == seq![b],
{
    let e = encoded_byte(b, slash);
    reveal_with_fuel(decoded, 2);
    if is_kept(b, slash) {
        assert(e.skip(1) =~= Seq::empty());
        assert(decoded(e) =~= seq![b]);
    } else {
        assert(hex_value(e[1]) == Some(b as int / 16));
        assert(hex_value(e[2]) == Some(b as int % 16));
        assert(e.skip(3) =~= Seq::empty());
        assert(decoded(e) =~= seq![b]);
    }
}

/// Decoding what was encoded, followed by something else, goes piece by piece.
proof fn lemma_decoded_concat(bytes: Seq<u8>, tail: Seq<u8>, slash: bool)
    ensures
        decoded(encoded(bytes, slash) + tail) == decoded(encoded(bytes, slash)) + decoded(tail),
    decreases bytes.len(),
{
    if bytes.len() == 0 {
        assert(encoded(bytes, slash) + tail =~= tail);
        assert(decoded(encoded(bytes, slash)) + decoded(tail) =~= decoded(tail));
    } else {
        let front = bytes.drop_last();
        let e = encoded_byte(bytes.last(), slash);
        assert(encoded(bytes, slash) + tail =~= encoded(front, slash) + (e + tail));
        lemma_decoded_concat(front, e + tail, slash);
        lemma_decoded_concat(front, e, slash);
        lemma_decoded_piece(bytes.last(), slash);
        assert(decoded(e + tail) == decoded(e) + decoded(tail)) by {
            if is_kept(bytes.last(), slash) {
                assert((e + tail).skip(1) =~= tail);
            } else {
                let b = bytes.last();
                assert(hex_value((e + tail)[1]) == Some(b as int / 16));
                assert(hex_value((e + tail)[2]) == Some(b as int % 16));
                assert((e + tail).skip(3) =~= tail);
            }
        }
        assert(decoded(encoded(front, slash)) + (decoded(e) + decoded(tail)) =~= decoded(
            encoded(front, slash),
        ) + decoded(e) + decoded(tail));
    }
}

} // verus!

//! Parsing of request paths: percent-decoding, query strings and fragments.
//!
//! A raw path splits at the first `?` into the path proper and the rest,
//! and the rest splits at the first `#` into a query string and a fragment.
//! A query string is `&`-separated parameters, each a name and an optional
//! `=`-separated value, both percent-decoded.

use vstd::prelude::*;

use crate::params::{params_insert, Parameters};
use crate::segment::{lemma_split_on_len, split_on, split_string};

verus! {

/// An ASCII hexadecimal digit.
pub open spec fn is_hex_digit(b: u8) -> bool {
    (0x30 <= b <= 0x39) || (0x41 <= b <= 0x46) || (0x61 <= b <= 0x66)
}

/// The value of an ASCII hexadecimal digit.
pub open spec fn hex_value(b: u8) -> u8 {
    if 0x30 <= b <= 0x39 {
        (b - 0x30) as u8
    } else if 0x41 <= b <= 0x46 {
        (b - 0x37) as u8
    } else {
        (b - 0x57) as u8
    }
}

/// The byte written as two hexadecimal digits.
pub open spec fn hex_byte(hi: u8, lo: u8) -> u8 {
    (hex_value(hi) * 16 + hex_value(lo)) as u8
}

/// Whether every `%` in a byte sequence starts a well-formed escape: two
/// hexadecimal digits must follow it.
pub open spec fn escapes_ok(bs: Seq<u8>) -> bool
    decreases bs.len(),
{
    if bs.len() == 0 {
        true
    } else if bs[0] == 0x25 {
        bs.len() >= 3 && is_hex_digit(bs[1]) && is_hex_digit(bs[2]) && escapes_ok(bs.skip(3))
    } else {
        escapes_ok(bs.drop_first())
    }
}

/// The bytes with every `%`-escape replaced by the byte it names.
pub open spec fn decoded_bytes(bs: Seq<u8>) -> Seq<u8>
    decreases bs.len(),
{
    if bs.len() == 0 {
        Seq::empty()
    } else if bs[0] == 0x25 && bs.len() >= 3 {
        seq![hex_byte(bs[1], bs[2])].add(decoded_bytes(bs.skip(3)))
    } else {
        seq![bs[0]].add(decoded_bytes(bs.drop_first()))
    }
}

/// Percent-decoding of a string: its bytes are decoded, and if they then
/// form valid UTF-8 the result is that text; otherwise the string is
/// returned unchanged.
pub open spec fn spec_url_decode(s: Seq<char>) -> Seq<char> {
    let decoded = decoded_bytes(vstd::utf8::encode_utf8(s));
    if vstd::utf8::valid_utf8(decoded) {
        vstd::utf8::decode_utf8(decoded)
    } else {
        s
    }
}

/// A string whose bytes carry only well-formed escapes.
pub open spec fn decodable(s: Seq<char>) -> bool {
    escapes_ok(vstd::utf8::encode_utf8(s))
}

/// The position of the first occurrence of a character, or the length if it
/// does not occur.
pub open spec fn first_index_of(s: Seq<char>, c: char) -> int
    decreases s.len(),
{
    if s.len() == 0 {
        0
    } else if s[0] == c {
        0
    } else {
        1 + first_index_of(s.drop_first(), c)
    }
}

/// The position found by a scan is the first occurrence.
proof fn lemma_first_index_is(s: Seq<char>, c: char, j: int)
    requires
        0 <= j <= s.len(),
        forall|q: int| 0 <= q < j ==> s[q] != c,
        j < s.len() ==> s[j] == c,
    ensures
        first_index_of(s, c) == j,
    decreases j,
{
    if j > 0 {
        lemma_first_index_is(s.drop_first(), c, j - 1);
    }
}

/// Finds the first occurrence of a character, or the string's length if it
/// does not occur.
fn find_char(s: &str, c: char) -> (i: usize)
    ensures
        i == first_index_of(s@, c),
        i <= s@.len(),
{
    let n = s.unicode_len();
    let mut i: usize = 0;
    while i < n
        invariant
            i <= n,
            n == s@.len(),
            forall|q: int| 0 <= q < i ==> s@[q] != c,
        decreases n - i,
    {
        if s.get_char(i) == c {
            proof {
                lemma_first_index_is(s@, c, i as int);
            }
            return i;
        }
        i += 1;
    }
    proof {
        lemma_first_index_is(s@, c, n as int);
    }
    n
}

/// A path split at the first `#` into the part before it and the fragment
/// after it; without a `#` the fragment is empty.
pub open spec fn spec_parse_fragment(s: Seq<char>) -> (Seq<char>, Seq<char>) {
    let i = first_index_of(s, '#');
    if i < s.len() {
        (s.subrange(0, i), s.subrange(i + 1, s.len() as int))
    } else {
        (s, Seq::empty())
    }
}

/// Splits a path at the first `#` into the part before it and the fragment
/// after it; without a `#` the fragment is empty.
pub fn parse_fragment(path: &str) -> (result: (String, String))
    ensures
        result.0@ == spec_parse_fragment(path@).0,
        result.1@ == spec_parse_fragment(path@).1,
{
    let n = path.unicode_len();
    let i = find_char(path, '#');
    if i < n {
        (path.substring_char(0, i).to_owned(), path.substring_char(i + 1, n).to_owned())
    } else {
        let r = (path.to_owned(), String::new());
        proof {
            assert(r.1@ =~~= Seq::<char>::empty());
        }
        r
    }
}

/// The value of an ASCII hexadecimal digit.
fn hex_digit_value(b: u8) -> (v: u8)
    requires
        is_hex_digit(b),
    ensures
        v == hex_value(b),
{
    if b >= 0x61 {
        b - 0x57
    } else if b >= 0x41 {
        b - 0x37
    } else {
        b - 0x30
    }
}

/// Relies on `std::str::from_utf8`: it accepts exactly the byte sequences
/// that are valid UTF-8, and decodes them to the text they encode.
#[verifier::external_body]
fn utf8_to_string(bytes: &Vec<u8>) -> (r: Option<String>)
    ensures
        r is Some <==> vstd::utf8::valid_utf8(bytes@),
        r is Some ==> r->0@ == vstd::utf8::decode_utf8(bytes@),
{
    match std::str::from_utf8(bytes.as_slice()) {
        Ok(s) => Some(s.to_owned()),
        Err(_) => None,
    }
}

/// Percent-decodes a string: every `%` followed by two hexadecimal digits
/// becomes the byte they name. If the decoded bytes are not valid UTF-8 the
/// string is returned unchanged. Every `%` must begin a well-formed escape.
pub fn url_decode(string: &str) -> (decoded: String)
    requires
        decodable(string@),
    ensures
        decoded@ == spec_url_decode(string@),
{
    let bytes = string.as_bytes_vec();
    let ghost all = bytes@;
    let mut out: Vec<u8> = Vec::new();
    let mut i: usize = 0;
    proof {
        assert(all.skip(0) =~~= all);
        assert(decoded_bytes(all) =~~= out@.add(decoded_bytes(all.skip(0))));
    }
    while i < bytes.len()
        invariant
            i <= bytes@.len(),
            bytes@ == all,
            escapes_ok(all.skip(i as int)),
            decoded_bytes(all) == out@.add(decoded_bytes(all.skip(i as int))),
        decreases bytes@.len() - i,
    {
        let b = bytes[i];
        proof {
            assert(all.skip(i as int)[0] == b);
        }
        if b == 0x25 {
            proof {
                assert(all.skip(i as int).len() >= 3);
                assert(all.skip(i as int)[1] == all[i + 1]);
                assert(all.skip(i as int)[2] == all[i + 2]);
            }
            let hi = bytes[i + 1];
            let lo = bytes[i + 2];
            let v = hex_digit_value(hi) * 16 + hex_digit_value(lo);
            out.push(v);
            proof {
                assert(all.skip(i as int).skip(3) =~~= all.skip(i + 3));
                assert(decoded_bytes(all) =~~= out@.add(decoded_bytes(all.skip(i + 3))));
            }
            i += 3;
        } else {
            out.push(b);
            proof {
                assert(all.skip(i as int).drop_first() =~~= all.skip(i + 1));
                assert(decoded_bytes(all) =~~= out@.add(decoded_bytes(all.skip(i + 1))));
            }
            i += 1;
        }
    }
    proof {
        assert(decoded_bytes(all) =~~= out@);
    }
    match utf8_to_string(&out) {
        Some(text) => text,
        None => string.to_owned(),
    }
}

/// One query parameter, already split on `=`: the name is the first piece,
/// the value the second or empty, both percent-decoded.
pub open spec fn param_of(part: Seq<char>) -> (Seq<char>, Seq<char>) {
    let pieces = split_on(part, '=');
    if pieces.len() >= 2 {
        (spec_url_decode(pieces[0]), spec_url_decode(pieces[1]))
    } else {
        (spec_url_decode(pieces[0]), Seq::empty())
    }
}

/// Whether one query parameter's name and value carry only well-formed
/// escapes.
pub open spec fn param_decodable(part: Seq<char>) -> bool {
    let pieces = split_on(part, '=');
    decodable(pieces[0]) && (pieces.len() >= 2 ==> decodable(pieces[1]))
}

/// A query string's parameters, inserted in order; a repeated name keeps
/// the last value.
pub open spec fn params_fold(
    acc: Seq<(Seq<char>, Seq<char>)>,
    parts: Seq<Seq<char>>,
) -> Seq<(Seq<char>, Seq<char>)>
    decreases parts.len(),
{
    if parts.len() == 0 {
        acc
    } else {
        let p = param_of(parts[0]);
        params_fold(params_insert(acc, p.0, p.1), parts.drop_first())
    }
}

/// The parameters of a whole query string.
pub open spec fn spec_parse_parameters(s: Seq<char>) -> Seq<(Seq<char>, Seq<char>)> {
    params_fold(Seq::empty(), split_on(s, '&'))
}

/// Whether every parameter of a query string carries only well-formed
/// escapes.
pub open spec fn parameters_decodable(s: Seq<char>) -> bool {
    forall|i: int|
        0 <= i < split_on(s, '&').len() ==> param_decodable(#[trigger] split_on(s, '&')[i])
}

/// Parses a query string: parameters are separated by `&`, a parameter is
/// a name and optionally `=` and a value, names and values are
/// percent-decoded, and a repeated name keeps the last value.
pub fn parse_parameters(source: &str) -> (parameters: Parameters)
    requires
        parameters_decodable(source@),
    ensures
        parameters@ == spec_parse_parameters(source@),
{
    let ghost all = split_on(source@, '&');
    let parts = split_string(source, '&');
    let mut parameters = Parameters::new();
    let mut i: usize = 0;
    proof {
        assert(all.skip(0) =~~= all);
    }
    while i < parts.len()
        invariant
            i <= parts@.len(),
            parts.deep_view() == all,
            parameters_decodable(source@),
            all == split_on(source@, '&'),
            spec_parse_parameters(source@) == params_fold(parameters@, all.skip(i as int)),
        decreases parts@.len() - i,
    {
        let part = &parts[i];
        proof {
            assert(part@ == all[i as int]);
            lemma_split_on_len(part@, '=');
        }
        let pieces = split_string(part.as_str(), '=');
        proof {
            assert(pieces.deep_view() == split_on(part@, '='));
            assert(pieces@[0]@ == split_on(part@, '=')[0]);
        }
        let name = url_decode(pieces[0].as_str());
        let value = if pieces.len() >= 2 {
            proof {
                assert(pieces@[1]@ == split_on(part@, '=')[1]);
            }
            url_decode(pieces[1].as_str())
        } else {
            String::new()
        };
        proof {
            assert((name@, value@) == param_of(all[i as int]));
            assert(all.skip(i as int).drop_first() =~~= all.skip(i + 1));
        }
        parameters.insert(name, value);
        i += 1;
    }
    proof {
        assert(all.skip(i as int).len() == 0);
    }
    parameters
}

/// A raw path split at the first `?`: the path proper, the query string's
/// parameters, and the fragment after the first `#` of the rest. Without a
/// `?` there are no parameters and the whole path splits on `#` alone.
pub open spec fn spec_parse_path(s: Seq<char>) -> (Seq<char>, Seq<(Seq<char>, Seq<char>)>, Seq<
    char,
>) {
    let i = first_index_of(s, '?');
    if i < s.len() {
        let rest = s.subrange(i + 1, s.len() as int);
        let qf = spec_parse_fragment(rest);
        (s.subrange(0, i), spec_parse_parameters(qf.0), qf.1)
    } else {
        let pf = spec_parse_fragment(s);
        (pf.0, Seq::empty(), pf.1)
    }
}

/// Whether a raw path's query string carries only well-formed escapes.
pub open spec fn path_decodable(s: Seq<char>) -> bool {
    let i = first_index_of(s, '?');
    i < s.len() ==> parameters_decodable(
        spec_parse_fragment(s.subrange(i + 1, s.len() as int)).0,
    )
}

/// Splits a raw path into the path proper, the parsed query parameters and
/// the fragment.
pub fn parse_path(path: &str) -> (result: (String, Parameters, String))
    requires
        path_decodable(path@),
    ensures
        result.0@ == spec_parse_path(path@).0,
        result.1@ == spec_parse_path(path@).1,
        result.2@ == spec_parse_path(path@).2,
{
    let n = path.unicode_len();
    let i = find_char(path, '?');
    if i < n {
        let rest = path.substring_char(i + 1, n);
        let qf = parse_fragment(rest);
        let parameters = parse_parameters(qf.0.as_str());
        (path.substring_char(0, i).to_owned(), parameters, qf.1)
    } else {
        let pf = parse_fragment(path);
        let r = (pf.0, Parameters::new(), pf.1);
        proof {
            assert(r.1@ =~~= spec_parse_path(path@).1);
        }
        r
    }
}

} // verus!

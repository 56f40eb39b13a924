//! Path segmentation: splitting a slash-delimited path string into its
//! ordered sequence of segments, and classifying pattern segments as
//! literal, variable or wildcard.

use vstd::prelude::*;

verus! {

/// Splitting a character sequence on a separator, in the way `str::split`
/// does it: an empty input yields one empty piece, and every separator
/// starts a new piece, so consecutive separators yield empty pieces.
pub open spec fn split_on(s: Seq<char>, sep: char) -> Seq<Seq<char>>
    decreases s.len(),
{
    if s.len() == 0 {
        seq![Seq::<char>::empty()]
    } else if s[0] == sep {
        seq![Seq::<char>::empty()].add(split_on(s.drop_first(), sep))
    } else {
        let rest = split_on(s.drop_first(), sep);
        rest.update(0, seq![s[0]].add(rest[0]))
    }
}

/// The segments of a path string: an empty path or a single `"/"` has no
/// segments; otherwise exactly one leading and one trailing slash are
/// stripped, if present, and the remainder is split on `'/'`. Consecutive
/// slashes produce empty segments, which are kept.
pub open spec fn segment_path(s: Seq<char>) -> Seq<Seq<char>> {
    if s.len() == 0 {
        Seq::empty()
    } else if s.len() == 1 {
        if s[0] == '/' {
            Seq::empty()
        } else {
            seq![s]
        }
    } else {
        let lo: int = if s[0] == '/' {
            1
        } else {
            0
        };
        let hi: int = if s[s.len() - 1] == '/' {
            s.len() - 1
        } else {
            s.len() as int
        };
        split_on(s.subrange(lo, hi), '/')
    }
}

/// A wildcard pattern segment: exactly the text `"*"`.
pub open spec fn seg_is_wildcard(s: Seq<char>) -> bool {
    s.len() == 1 && s[0] == '*'
}

/// A variable pattern segment: any text starting with `':'`.
pub open spec fn seg_is_variable(s: Seq<char>) -> bool {
    s.len() > 0 && s[0] == ':'
}

/// The name bound by a variable segment: the text after the leading `':'`.
pub open spec fn seg_name(s: Seq<char>) -> Seq<char> {
    s.drop_first()
}

/// The kind of one pattern segment: two patterns whose segments have equal
/// kinds, position by position, address the same node of a route tree.
#[verifier::ext_equal]
pub enum SegKind {
    Literal(Seq<char>),
    Variable,
    Wildcard,
}

/// The kind of a single segment. Wildcard and variable marks are recognized
/// first; all remaining text, the empty segment included, is literal.
pub open spec fn kind_of(s: Seq<char>) -> SegKind {
    if seg_is_wildcard(s) {
        SegKind::Wildcard
    } else if seg_is_variable(s) {
        SegKind::Variable
    } else {
        SegKind::Literal(s)
    }
}

/// The kinds of a whole pattern, segment by segment.
pub open spec fn kinds_of(segs: Seq<Seq<char>>) -> Seq<SegKind> {
    segs.map_values(|s: Seq<char>| kind_of(s))
}

/// The variable names declared by a pattern, in order. Wildcard segments
/// contribute no name.
pub open spec fn names_of(segs: Seq<Seq<char>>) -> Seq<Seq<char>>
    decreases segs.len(),
{
    if segs.len() == 0 {
        Seq::empty()
    } else if seg_is_variable(segs[0]) {
        seq![seg_name(segs[0])].add(names_of(segs.drop_first()))
    } else {
        names_of(segs.drop_first())
    }
}

/// Splitting distributes over the first separator: everything before the
/// first `'/'` is the first piece, and the rest is split on its own.
pub proof fn lemma_split_on_first(s: Seq<char>, sep: char, k: int)
    requires
        0 <= k < s.len(),
        s[k] == sep,
        forall|j: int| 0 <= j < k ==> s[j] != sep,
    ensures
        split_on(s, sep) == seq![s.subrange(0, k)].add(
            split_on(s.subrange(k + 1, s.len() as int), sep),
        ),
    decreases k,
{
    if k == 0 {
        assert(s.subrange(0, 0) =~~= Seq::<char>::empty());
        assert(s.drop_first() =~~= s.subrange(1, s.len() as int));
    } else {
        let d = s.drop_first();
        lemma_split_on_first(d, sep, k - 1);
        assert(d.subrange(0, k - 1) =~~= s.subrange(1, k));
        assert(d.subrange(k, d.len() as int) =~~= s.subrange(k + 1, s.len() as int));
        let rest = split_on(d, sep);
        assert(rest == seq![s.subrange(1, k)].add(split_on(s.subrange(k + 1, s.len() as int), sep)));
        assert(rest.update(0, seq![s[0]].add(rest[0])) =~~= seq![s.subrange(0, k)].add(
            split_on(s.subrange(k + 1, s.len() as int), sep)));
    }
}

/// A piece with no separator in it splits into itself alone.
pub proof fn lemma_split_on_whole(s: Seq<char>, sep: char)
    requires
        forall|j: int| 0 <= j < s.len() ==> s[j] != sep,
    ensures
        split_on(s, sep) == seq![s],
    decreases s.len(),
{
    if s.len() == 0 {
        assert(seq![Seq::<char>::empty()] =~~= seq![s]);
    } else {
        lemma_split_on_whole(s.drop_first(), sep);
        let rest = split_on(s.drop_first(), sep);
        assert(rest.update(0, seq![s[0]].add(rest[0])) =~~= seq![s]);
    }
}

/// Whether one executable segment is the wildcard mark `"*"`.
pub fn is_wildcard(piece: &str) -> (b: bool)
    ensures
        b == seg_is_wildcard(piece@),
{
    piece.unicode_len() == 1 && piece.get_char(0) == '*'
}

/// Whether one executable segment is a variable mark `":name"`.
pub fn is_variable(piece: &str) -> (b: bool)
    ensures
        b == seg_is_variable(piece@),
{
    piece.unicode_len() > 0 && piece.get_char(0) == ':'
}

/// The name after the leading `':'` of a variable segment.
pub fn variable_name(piece: &str) -> (name: String)
    requires
        seg_is_variable(piece@),
    ensures
        name@ == seg_name(piece@),
{
    let n = piece.unicode_len();
    piece.substring_char(1, n).to_owned()
}

/// Splits a string on a separator, keeping empty pieces: an empty input
/// yields one empty piece.
pub fn split_string(s: &str, sep: char) -> (pieces: Vec<String>)
    ensures
        pieces.deep_view() == split_on(s@, sep),
{
    let n = s.unicode_len();
    let mut pieces: Vec<String> = Vec::new();
    let mut start: usize = 0;
    let mut i: usize = 0;
    proof {
        assert(s@.subrange(0, n as int) =~~= s@);
        assert(pieces.deep_view() =~~= Seq::<Seq<char>>::empty());
    }
    while i < n
        invariant
            start <= i <= n,
            n == s@.len(),
            split_on(s@, sep) == pieces.deep_view().add(
                (split_on(s@.subrange(start as int, n as int), sep)),
            ),
            forall|j: int| start <= j < i ==> s@[j] != sep,
        decreases n - i,
    {
        if s.get_char(i) == sep {
            let piece = s.substring_char(start, i).to_owned();
            proof {
                let u = s@.subrange(start as int, n as int);
                lemma_split_on_first(u, sep, i - start);
                assert(u.subrange(0, i - start) =~~= s@.subrange(start as int, i as int));
                assert(u.subrange(i - start + 1, u.len() as int) =~~= s@.subrange(
                    i + 1, n as int));
                assert(piece@ == s@.subrange(start as int, i as int));
            }
            pieces.push(piece);
            proof {
                assert(split_on(s@, sep) =~~= pieces.deep_view().add(
                    (split_on(s@.subrange(i + 1, n as int), sep))));
            }
            start = i + 1;
        }
        i += 1;
    }
    let piece = s.substring_char(start, n).to_owned();
    pieces.push(piece);
    proof {
        let u = s@.subrange(start as int, n as int);
        lemma_split_on_whole(u, sep);
        assert(s@.subrange(0, n as int) =~~= s@);
        assert(pieces.deep_view() =~~= split_on(s@, sep));
    }
    pieces
}

/// Splitting yields at least one piece.
pub proof fn lemma_split_on_len(s: Seq<char>, sep: char)
    ensures
        split_on(s, sep).len() >= 1,
    decreases s.len(),
{
    if s.len() > 0 && s[0] != sep {
        lemma_split_on_len(s.drop_first(), sep);
    }
}

/// Splits a path into its segments: no segments for `""` or `"/"`, one
/// leading and one trailing slash stripped, the rest split on `'/'` with
/// empty segments kept.
pub fn path_to_vec(path: &str) -> (segments: Vec<String>)
    ensures
        segments.deep_view() == segment_path(path@),
{
    let n = path.unicode_len();
    let mut segments: Vec<String> = Vec::new();
    if n == 0 {
        return segments;
    }
    if n == 1 {
        if path.get_char(0) == '/' {
            return segments;
        }
        segments.push(path.to_owned());
        proof {
            assert(segments.deep_view() =~~= seq![path@]);
        }
        return segments;
    }
    let lo: usize = if path.get_char(0) == '/' {
        1
    } else {
        0
    };
    let hi: usize = if path.get_char(n - 1) == '/' {
        n - 1
    } else {
        n
    };
    let ghost trimmed = path@.subrange(lo as int, hi as int);
    let mut start = lo;
    let mut i = lo;
    while i < hi
        invariant
            lo <= start <= i <= hi <= n,
            n == path@.len(),
            1 <= hi,
            trimmed == path@.subrange(lo as int, hi as int),
            split_on(trimmed, '/') == segments.deep_view().add(
                (split_on(path@.subrange(start as int, hi as int), '/'))),
            forall|j: int| start <= j < i ==> path@[j] != '/',
        decreases hi - i,
    {
        if path.get_char(i) == '/' {
            let piece = path.substring_char(start, i).to_owned();
            proof {
                let u = path@.subrange(start as int, hi as int);
                lemma_split_on_first(u, '/', i - start);
                assert(u.subrange(0, i - start) =~~= path@.subrange(start as int, i as int));
                assert(u.subrange(i - start + 1, u.len() as int) =~~= path@.subrange(
                    i + 1, hi as int));
                assert(piece@ == path@.subrange(start as int, i as int));
            }
            segments.push(piece);
            proof {
                assert(split_on(trimmed, '/') =~~= segments.deep_view().add(
                    (split_on(path@.subrange(i + 1, hi as int), '/'))));
            }
            start = i + 1;
        }
        i += 1;
    }
    let piece = path.substring_char(start, hi).to_owned();
    segments.push(piece);
    proof {
        let u = path@.subrange(start as int, hi as int);
        lemma_split_on_whole(u, '/');
        assert(segments.deep_view() =~~= split_on(trimmed, '/'));
    }
    segments
}

} // verus!

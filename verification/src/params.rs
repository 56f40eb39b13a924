//! An ordered collection of named text values: the variables captured by a
//! route lookup, or the key-value pairs of a query string. Names are unique;
//! inserting a name again replaces its value in place.

use vstd::prelude::*;

verus! {

/// Inserting a pair into an ordered association sequence: an existing name
/// keeps its position and gets the new value; a new name goes to the end.
pub open spec fn params_insert(
    ps: Seq<(Seq<char>, Seq<char>)>,
    name: Seq<char>,
    value: Seq<char>,
) -> Seq<(Seq<char>, Seq<char>)>
    decreases ps.len(),
{
    if ps.len() == 0 {
        seq![(name, value)]
    } else if ps[0].0 == name {
        seq![(name, value)].add(ps.drop_first())
    } else {
        seq![ps[0]].add(params_insert(ps.drop_first(), name, value))
    }
}

/// Looking a name up in an ordered association sequence: the first pair with
/// that name answers.
pub open spec fn params_get(ps: Seq<(Seq<char>, Seq<char>)>, name: Seq<char>) -> Option<Seq<char>>
    decreases ps.len(),
{
    if ps.len() == 0 {
        None
    } else if ps[0].0 == name {
        Some(ps[0].1)
    } else {
        params_get(ps.drop_first(), name)
    }
}

/// Pairing variable names with captured values, position by position, and
/// inserting each pair in order. The longer of the two lists is silently
/// truncated to the shorter.
pub open spec fn zip_params(
    acc: Seq<(Seq<char>, Seq<char>)>,
    names: Seq<Seq<char>>,
    values: Seq<Seq<char>>,
) -> Seq<(Seq<char>, Seq<char>)>
    decreases names.len(),
{
    if names.len() == 0 || values.len() == 0 {
        acc
    } else {
        zip_params(params_insert(acc, names[0], values[0]), names.drop_first(), values.drop_first())
    }
}

/// The number of pairs whose name is `name`.
pub open spec fn params_count(ps: Seq<(Seq<char>, Seq<char>)>, name: Seq<char>) -> int
    decreases ps.len(),
{
    if ps.len() == 0 {
        0
    } else if ps[0].0 == name {
        1 + params_count(ps.drop_first(), name)
    } else {
        params_count(ps.drop_first(), name)
    }
}

/// Every name occurs at most once.
pub open spec fn params_unique(ps: Seq<(Seq<char>, Seq<char>)>) -> bool {
    forall|name: Seq<char>| params_count(ps, name) <= 1
}

/// A keyed, ordered collection of `(name, value)` text pairs with unique
/// names.
pub struct Parameters {
    entries: Vec<(String, String)>,
}

impl View for Parameters {
    type V = Seq<(Seq<char>, Seq<char>)>;

    closed spec fn view(&self) -> Seq<(Seq<char>, Seq<char>)> {
        self.entries@.map_values(|e: (String, String)| (e.0@, e.1@))
    }
}

/// Compares two text slices character by character.
pub fn str_eq(a: &str, b: &str) -> (r: bool)
    ensures
        r == (a@ == b@),
{
    let n = a.unicode_len();
    if n != b.unicode_len() {
        proof {
            assert(a@ != b@);
        }
        return false;
    }
    let mut i: usize = 0;
    while i < n
        invariant
            i <= n,
            n == a@.len(),
            n == b@.len(),
            forall|j: int| 0 <= j < i ==> a@[j] == b@[j],
        decreases n - i,
    {
        if a.get_char(i) != b.get_char(i) {
            return false;
        }
        i += 1;
    }
    proof {
        assert(a@ =~= b@);
    }
    true
}

impl Parameters {
    /// Creates an empty collection.
    pub fn new() -> (params: Parameters)
        ensures
            params@ == Seq::<(Seq<char>, Seq<char>)>::empty(),
    {
        let params = Parameters { entries: Vec::new() };
        proof {
            assert(params@ =~~= Seq::<(Seq<char>, Seq<char>)>::empty());
        }
        params
    }

    /// The number of stored pairs.
    pub fn len(&self) -> (n: usize)
        ensures
            n == self@.len(),
    {
        self.entries.len()
    }

    /// The pair at one position.
    pub fn entry(&self, i: usize) -> (e: (&String, &String))
        requires
            i < self@.len(),
        ensures
            (e.0@, e.1@) == self@[i as int],
    {
        let e = &self.entries[i];
        (&e.0, &e.1)
    }

    /// The position of the first pair with this name, if the name occurs.
    fn index_of(&self, name: &str) -> (res: Option<usize>)
        ensures
            match res {
                Some(i) => i < self@.len() && self@[i as int].0 == name@ && forall|j: int|
                    0 <= j < i ==> self@[j].0 != name@,
                None => forall|j: int| 0 <= j < self@.len() ==> self@[j].0 != name@,
            },
    {
        let mut i: usize = 0;
        while i < self.entries.len()
            invariant
                i <= self.entries.len(),
                self@.len() == self.entries.len(),
                forall|j: int| 0 <= j < i ==> self@[j].0 != name@,
            decreases self.entries.len() - i,
        {
            if str_eq(self.entries[i].0.as_str(), name) {
                return Some(i);
            }
            i += 1;
        }
        None
    }

    /// Stores a value under a name, replacing the value of an existing name
    /// in place and appending a new name at the end.
    pub fn insert(&mut self, name: String, value: String)
        ensures
            final(self)@ == params_insert(old(self)@, name@, value@),
    {
        let ghost orig = self@;
        match self.index_of(name.as_str()) {
            Some(i) => {
                proof {
                    lemma_params_insert_found(orig, name@, value@, i as int);
                }
                self.entries[i] = (name, value);
                proof {
                    assert(self@ =~~= orig.update(i as int, (self.entries@[i as int].0@,
                        self.entries@[i as int].1@)));
                }
            },
            None => {
                self.entries.push((name, value));
                proof {
                    let e = self.entries@.last();
                    lemma_params_insert_absent(orig, e.0@, e.1@);
                    assert(self@ =~~= orig.push((e.0@, e.1@)));
                }
            },
        }
    }

    /// Tries to parse the value stored under a name. The error is `None`
    /// when the name is absent, and `Some` when the name is there but its
    /// value does not parse.
    pub fn parse<T: core::str::FromStr>(&self, key: &str) -> (res: Result<
        T,
        Option<ParseError>,
    >)
        ensures
            params_get(self@, key@) is None <==> (res matches Err(e) && e is None),
    {
        match self.get(key) {
            Some(value) => match parse_str::<T>(value.as_str()) {
                Some(v) => Ok(v),
                None => Err(Some(ParseError)),
            },
            None => Err(None),
        }
    }

    /// Parses the value stored under a name, or falls back to the given
    /// value when the name is absent or its value does not parse.
    pub fn parse_or<T: core::str::FromStr>(&self, key: &str, or: T) -> (res: T)
        ensures
            params_get(self@, key@) is None ==> res == or,
    {
        match self.parse::<T>(key) {
            Ok(v) => v,
            Err(_) => or,
        }
    }

    /// Parses the value stored under a name, or builds the result from the
    /// failure: the closure receives `None` when the name is absent and
    /// `Some` when its value does not parse.
    pub fn parse_or_else<T: core::str::FromStr, F: FnOnce(Option<ParseError>) -> T>(
        &self,
        key: &str,
        or_else: F,
    ) -> (res: T)
        requires
            forall|e: Option<ParseError>| #[trigger] or_else.requires((e,)),
        ensures
            params_get(self@, key@) is None ==> or_else.ensures((None::<ParseError>,), res),
    {
        match self.parse::<T>(key) {
            Ok(v) => v,
            Err(e) => or_else(e),
        }
    }

    /// Borrows the value stored under a name, if there is one.
    pub fn get(&self, name: &str) -> (res: Option<&String>)
        ensures
            match res {
                Some(v) => params_get(self@, name@) == Some(v@),
                None => params_get(self@, name@) is None,
            },
    {
        match self.index_of(name) {
            Some(i) => {
                proof {
                    lemma_params_get_found(self@, name@, i as int);
                }
                Some(&self.entries[i].1)
            },
            None => {
                proof {
                    lemma_params_get_absent(self@, name@);
                }
                None
            },
        }
    }
}

/// A stored value that could not be parsed as the requested type.
#[derive(Clone, Copy, Debug, Eq, PartialEq, Structural)]
pub struct ParseError;

/// Relies on `str::parse`: its result is decided by the target type's
/// `FromStr` implementation alone, so nothing is promised of it.
#[verifier::external_body]
fn parse_str<T: core::str::FromStr>(s: &str) -> Option<T> {
    s.parse().ok()
}

/// Inserting a name that first occurs at position `i` updates that position.
proof fn lemma_params_insert_found(
    ps: Seq<(Seq<char>, Seq<char>)>,
    name: Seq<char>,
    value: Seq<char>,
    i: int,
)
    requires
        0 <= i < ps.len(),
        ps[i].0 == name,
        forall|j: int| 0 <= j < i ==> ps[j].0 != name,
    ensures
        params_insert(ps, name, value) == ps.update(i, (name, value)),
    decreases i,
{
    if i == 0 {
        assert(params_insert(ps, name, value) =~~= ps.update(0, (name, value)));
    } else {
        lemma_params_insert_found(ps.drop_first(), name, value, i - 1);
        assert(params_insert(ps, name, value) =~~= ps.update(i, (name, value)));
    }
}

/// Inserting a name that occurs nowhere appends at the end.
proof fn lemma_params_insert_absent(
    ps: Seq<(Seq<char>, Seq<char>)>,
    name: Seq<char>,
    value: Seq<char>,
)
    requires
        forall|j: int| 0 <= j < ps.len() ==> ps[j].0 != name,
    ensures
        params_insert(ps, name, value) == ps.push((name, value)),
    decreases ps.len(),
{
    if ps.len() == 0 {
        assert(params_insert(ps, name, value) =~~= ps.push((name, value)));
    } else {
        lemma_params_insert_absent(ps.drop_first(), name, value);
        assert(params_insert(ps, name, value) =~~= ps.push((name, value)));
    }
}

/// A name that first occurs at position `i` answers with that value.
proof fn lemma_params_get_found(ps: Seq<(Seq<char>, Seq<char>)>, name: Seq<char>, i: int)
    requires
        0 <= i < ps.len(),
        ps[i].0 == name,
        forall|j: int| 0 <= j < i ==> ps[j].0 != name,
    ensures
        params_get(ps, name) == Some(ps[i].1),
    decreases i,
{
    if i > 0 {
        lemma_params_get_found(ps.drop_first(), name, i - 1);
    }
}

/// A name that occurs nowhere answers with nothing.
proof fn lemma_params_get_absent(ps: Seq<(Seq<char>, Seq<char>)>, name: Seq<char>)
    requires
        forall|j: int| 0 <= j < ps.len() ==> ps[j].0 != name,
    ensures
        params_get(ps, name) is None,
    decreases ps.len(),
{
    if ps.len() > 0 {
        lemma_params_get_absent(ps.drop_first(), name);
    }
}

} // verus!

//! The laws of the route tree, proved over the model in [`crate::tree`]:
//! what a single registered pattern matches and binds, that static routes
//! win over variable and wildcard routes, and that merge-insertion keeps a
//! subtree's contents with the prefix's variable names prepended.

use vstd::prelude::*;

use crate::method::Method;
use crate::params::zip_params;
use crate::segment::{seg_is_variable, seg_is_wildcard, seg_name, SegKind};
use crate::tree::{
    assoc_node, child_or_empty, empty_node, item_at, item_of, merge_items, merge_statics,
    node_insert, node_insert_router, node_merge, node_search, set_child, set_item, update_assoc,
    wild_search, RouteNode,
};

verus! {

/// A pattern with no wildcard matches a path when both have the same number
/// of segments and every literal segment is matched by identical text; a
/// variable segment matches whatever text stands at its position.
pub open spec fn matches_plain(segs: Seq<Seq<char>>, path: Seq<Seq<char>>) -> bool
    decreases segs.len(),
{
    if segs.len() == 0 {
        path.len() == 0
    } else {
        path.len() > 0 && (seg_is_variable(segs[0]) || path[0] == segs[0]) && matches_plain(
            segs.drop_first(),
            path.drop_first(),
        )
    }
}

/// The text captured by a pattern's variable segments, in order, when the
/// pattern and the path run side by side.
pub open spec fn captures(segs: Seq<Seq<char>>, path: Seq<Seq<char>>) -> Seq<Seq<char>>
    decreases segs.len(),
{
    if segs.len() == 0 || path.len() == 0 {
        Seq::empty()
    } else if seg_is_variable(segs[0]) {
        seq![path[0]].add(captures(segs.drop_first(), path.drop_first()))
    } else {
        captures(segs.drop_first(), path.drop_first())
    }
}

/// What any pattern accepts: literals need identical text, a variable needs
/// one segment of any text, and a wildcard needs one or more segments
/// before the rest of the pattern matches the rest of the path.
pub open spec fn pattern_accepts(segs: Seq<Seq<char>>, path: Seq<Seq<char>>) -> bool
    decreases segs.len(),
{
    if segs.len() == 0 {
        path.len() == 0
    } else if seg_is_wildcard(segs[0]) {
        exists|k: int|
            1 <= k <= path.len() && pattern_accepts(segs.drop_first(), path.skip(k))
    } else if seg_is_variable(segs[0]) {
        path.len() > 0 && pattern_accepts(segs.drop_first(), path.drop_first())
    } else {
        path.len() > 0 && path[0] == segs[0] && pattern_accepts(
            segs.drop_first(),
            path.drop_first(),
        )
    }
}

/// The empty node answers no lookup.
proof fn lemma_item_at_empty<T>(kinds: Seq<SegKind>, m: Method)
    ensures
        item_at(empty_node::<T>(), kinds, m) is None,
{
}

/// A single route registered in an empty tree, with no wildcard in its
/// pattern: the lookup answers exactly when the method is the route's and
/// the path matches the pattern segment by segment, and then it answers
/// with the route's item and with the pattern's variable names bound to the
/// text at their positions. `names0` and `vars` are the names and captured
/// values accumulated before this subtree is reached.
pub proof fn lemma_plain_pattern_lookup<T>(
    m: Method,
    m2: Method,
    segs: Seq<Seq<char>>,
    path: Seq<Seq<char>>,
    names0: Seq<Seq<char>>,
    vars: Seq<Seq<char>>,
    t: T,
)
    requires
        forall|k: int| 0 <= k < segs.len() ==> !seg_is_wildcard(#[trigger] segs[k]),
    ensures
        node_search(node_insert(empty_node::<T>(), m, segs, names0, t), m2, path, vars) == (
        if m2 == m && matches_plain(segs, path) {
            Some(
                (
                    t,
                    zip_params(
                        Seq::empty(),
                        names0.add(crate::segment::names_of(segs)),
                        vars.add(captures(segs, path)),
                    ),
                ),
            )
        } else {
            None::<(T, Seq<(Seq<char>, Seq<char>)>)>
        }),
    decreases segs.len(),
{
    reveal_with_fuel(item_of, 3);
    reveal_with_fuel(assoc_node, 3);
    let chain = node_insert(empty_node::<T>(), m, segs, names0, t);
    if segs.len() == 0 {
        assert(chain.items =~~= seq![(m, t, names0)]);
        if path.len() == 0 {
            assert(names0.add(crate::segment::names_of(segs)) =~~= names0);
            assert(vars.add(captures(segs, path)) =~~= vars);
        } else {
            assert(node_search(chain, m2, path, vars) is None);
        }
    } else {
        let s0 = segs[0];
        let rest = segs.drop_first();
        assert(forall|k: int| 0 <= k < rest.len() ==> !seg_is_wildcard(#[trigger] rest[k]));
        if path.len() == 0 {
            assert(chain.items =~~= Seq::<(Method, T, Seq<Seq<char>>)>::empty());
            assert(node_search(chain, m2, path, vars) is None);
        } else {
            let p0 = path[0];
            let prest = path.drop_first();
            if seg_is_variable(s0) {
                let names2 = names0.push(seg_name(s0));
                let chain2 = node_insert(empty_node::<T>(), m, rest, names2, t);
                assert(chain == set_child(empty_node::<T>(), SegKind::Variable, chain2));
                assert(assoc_node(chain.statics, p0) is None);
                lemma_plain_pattern_lookup(m, m2, rest, prest, names2, vars.push(p0), t);
                assert(node_search(chain, m2, path, vars) == node_search(chain2, m2, prest,
                    vars.push(p0)));
                assert(names2.add(crate::segment::names_of(rest)) =~~= names0.add(
                    crate::segment::names_of(segs)));
                assert(vars.push(p0).add(captures(rest, prest)) =~~= vars.add(captures(segs,
                    path)));
            } else {
                let chain2 = node_insert(empty_node::<T>(), m, rest, names0, t);
                assert(chain == set_child(empty_node::<T>(), SegKind::Literal(s0), chain2));
                assert(chain.statics =~~= seq![(s0, chain2)]);
                if p0 == s0 {
                    assert(assoc_node(chain.statics, p0) == Some(chain2));
                    lemma_plain_pattern_lookup(m, m2, rest, prest, names0, vars, t);
                    assert(node_search(chain, m2, path, vars) == node_search(chain2, m2, prest,
                        vars));
                    assert(names0.add(crate::segment::names_of(rest)) =~~= names0.add(
                        crate::segment::names_of(segs)));
                    assert(vars.add(captures(rest, prest)) =~~= vars.add(captures(segs, path)));
                } else {
                    assert(assoc_node(chain.statics, p0) is None);
                    assert(node_search(chain, m2, path, vars) is None);
                }
            }
        }
    }
}

/// A pattern of literal segments alone matches exactly the identical path.
pub proof fn lemma_literal_pattern_exact<T>(
    m: Method,
    m2: Method,
    segs: Seq<Seq<char>>,
    path: Seq<Seq<char>>,
    t: T,
)
    requires
        forall|k: int|
            0 <= k < segs.len() ==> !seg_is_wildcard(#[trigger] segs[k]) && !seg_is_variable(
                segs[k],
            ),
    ensures
        node_search(node_insert(empty_node::<T>(), m, segs, Seq::empty(), t), m2, path,
            Seq::empty()) == (if m2 == m && path =~~= segs {
            Some((t, Seq::<(Seq<char>, Seq<char>)>::empty()))
        } else {
            None::<(T, Seq<(Seq<char>, Seq<char>)>)>
        }),
{
    lemma_plain_pattern_lookup(m, m2, segs, path, Seq::empty(), Seq::empty(), t);
    lemma_matches_plain_literal(segs, path);
    lemma_names_of_no_variables(segs);
    if m2 == m && matches_plain(segs, path) {
        assert(Seq::<Seq<char>>::empty().add(crate::segment::names_of(segs)) =~~= Seq::<
            Seq<char>,
        >::empty());
    }
}

/// Without variables and wildcards, the plain match is exact equality.
proof fn lemma_matches_plain_literal(segs: Seq<Seq<char>>, path: Seq<Seq<char>>)
    requires
        forall|k: int| 0 <= k < segs.len() ==> !seg_is_variable(#[trigger] segs[k]),
    ensures
        matches_plain(segs, path) <==> path =~~= segs,
    decreases segs.len(),
{
    if segs.len() == 0 {
    } else if path.len() > 0 {
        lemma_matches_plain_literal(segs.drop_first(), path.drop_first());
        if matches_plain(segs, path) {
            assert(path.drop_first() == segs.drop_first());
            assert forall|i: int| 0 <= i < segs.len() implies path[i] == segs[i] by {
                if i > 0 {
                    assert(path.drop_first()[i - 1] == segs.drop_first()[i - 1]);
                }
            }
            assert(path =~~= segs);
        }
        if path =~~= segs {
            assert(path.drop_first() =~~= segs.drop_first());
        }
    }
}

/// A pattern without variable segments declares no names.
proof fn lemma_names_of_no_variables(segs: Seq<Seq<char>>)
    requires
        forall|k: int| 0 <= k < segs.len() ==> !seg_is_variable(#[trigger] segs[k]),
    ensures
        crate::segment::names_of(segs) == Seq::<Seq<char>>::empty(),
    decreases segs.len(),
{
    if segs.len() > 0 {
        lemma_names_of_no_variables(segs.drop_first());
    }
}

/// The wildcard's backtracking finds a match exactly when some number of
/// consumed segments leads to one.
proof fn lemma_wild_search_some<T>(
    c: RouteNode<T>,
    m: Method,
    tail: Seq<Seq<char>>,
    vars: Seq<Seq<char>>,
)
    ensures
        (wild_search(c, m, tail, vars) is Some) <==> exists|j: int|
            0 <= j <= tail.len() && node_search(c, m, #[trigger] tail.skip(j), vars) is Some,
    decreases tail.len(),
{
    assert(tail.skip(0) =~~= tail);
    if tail.len() > 0 {
        lemma_wild_search_some(c, m, tail.drop_first(), vars);
        assert(tail.drop_first() =~~= tail.skip(1));
        if wild_search(c, m, tail, vars) is Some {
            if node_search(c, m, tail, vars) is Some {
                assert(node_search(c, m, tail.skip(0), vars) is Some);
            } else {
                let j = choose|j: int|
                    0 <= j <= tail.drop_first().len() && node_search(
                        c,
                        m,
                        #[trigger] tail.drop_first().skip(j),
                        vars,
                    ) is Some;
                assert(tail.drop_first().skip(j) =~~= tail.skip(j + 1));
                assert(node_search(c, m, tail.skip(j + 1), vars) is Some);
            }
        }
        if exists|j: int|
            0 <= j <= tail.len() && node_search(c, m, #[trigger] tail.skip(j), vars) is Some {
            let j = choose|j: int|
                0 <= j <= tail.len() && node_search(c, m, #[trigger] tail.skip(j), vars) is Some;
            if j == 0 {
                assert(node_search(c, m, tail, vars) is Some);
            } else {
                assert(tail.drop_first().skip(j - 1) =~~= tail.skip(j));
                assert(node_search(c, m, tail.drop_first().skip(j - 1), vars) is Some);
                assert(wild_search(c, m, tail.drop_first(), vars) is Some);
            }
        }
    }
}

/// A single route registered in an empty tree answers a lookup with its own
/// method exactly when the pattern accepts the path: literal segments by
/// identical text, a variable segment by any one segment, and a wildcard by
/// one or more segments, backtracking until the rest of the pattern matches
/// the rest of the path.
pub proof fn lemma_wildcard_backtracking<T>(
    m: Method,
    m2: Method,
    segs: Seq<Seq<char>>,
    path: Seq<Seq<char>>,
    names0: Seq<Seq<char>>,
    vars: Seq<Seq<char>>,
    t: T,
)
    ensures
        (node_search(node_insert(empty_node::<T>(), m, segs, names0, t), m2, path, vars)
            is Some) <==> (m2 == m && pattern_accepts(segs, path)),
    decreases segs.len(),
{
    reveal_with_fuel(item_of, 3);
    reveal_with_fuel(assoc_node, 3);
    let chain = node_insert(empty_node::<T>(), m, segs, names0, t);
    if segs.len() == 0 {
        assert(chain.items =~~= seq![(m, t, names0)]);
        if path.len() > 0 {
            assert(node_search(chain, m2, path, vars) is None);
        }
    } else {
        let s0 = segs[0];
        let rest = segs.drop_first();
        if path.len() == 0 {
            assert(chain.items =~~= Seq::<(Method, T, Seq<Seq<char>>)>::empty());
            assert(node_search(chain, m2, path, vars) is None);
            if seg_is_wildcard(s0) {
                assert(!pattern_accepts(segs, path));
            }
        } else {
            let p0 = path[0];
            let prest = path.drop_first();
            if seg_is_wildcard(s0) {
                let names2 = names0;
                let chain2 = node_insert(empty_node::<T>(), m, rest, names2, t);
                assert(chain == set_child(empty_node::<T>(), SegKind::Wildcard, chain2));
                assert(assoc_node(chain.statics, p0) is None);
                assert(node_search(chain, m2, path, vars) == wild_search(chain2, m2, prest,
                    vars));
                lemma_wild_search_some(chain2, m2, prest, vars);
                assert forall|j: int| 0 <= j <= prest.len() implies ((node_search(
                    chain2,
                    m2,
                    #[trigger] prest.skip(j),
                    vars,
                ) is Some) <==> (m2 == m && pattern_accepts(rest, prest.skip(j)))) by {
                    lemma_wildcard_backtracking(m, m2, rest, prest.skip(j), names2, vars, t);
                }
                if node_search(chain, m2, path, vars) is Some {
                    let j = choose|j: int|
                        0 <= j <= prest.len() && node_search(
                            chain2,
                            m2,
                            #[trigger] prest.skip(j),
                            vars,
                        ) is Some;
                    assert(pattern_accepts(rest, prest.skip(j)));
                    assert(path.skip(j + 1) =~~= prest.skip(j));
                    assert(1 <= j + 1 <= path.len() && pattern_accepts(rest, path.skip(j + 1)));
                    assert(pattern_accepts(segs, path));
                }
                if m2 == m && pattern_accepts(segs, path) {
                    let k = choose|k: int|
                        1 <= k <= path.len() && pattern_accepts(rest, #[trigger] path.skip(k));
                    assert(prest.skip(k - 1) =~~= path.skip(k));
                    assert(node_search(chain2, m2, prest.skip(k - 1), vars) is Some);
                    assert(wild_search(chain2, m2, prest, vars) is Some);
                }
            } else if seg_is_variable(s0) {
                let names2 = names0.push(seg_name(s0));
                let chain2 = node_insert(empty_node::<T>(), m, rest, names2, t);
                assert(chain == set_child(empty_node::<T>(), SegKind::Variable, chain2));
                assert(assoc_node(chain.statics, p0) is None);
                lemma_wildcard_backtracking(m, m2, rest, prest, names2, vars.push(p0), t);
                assert(node_search(chain, m2, path, vars) == node_search(chain2, m2, prest,
                    vars.push(p0)));
            } else {
                let chain2 = node_insert(empty_node::<T>(), m, rest, names0, t);
                assert(chain == set_child(empty_node::<T>(), SegKind::Literal(s0), chain2));
                assert(chain.statics =~~= seq![(s0, chain2)]);
                if p0 == s0 {
                    assert(assoc_node(chain.statics, p0) == Some(chain2));
                    lemma_wildcard_backtracking(m, m2, rest, prest, names0, vars, t);
                    assert(node_search(chain, m2, path, vars) == node_search(chain2, m2, prest,
                        vars));
                } else {
                    assert(assoc_node(chain.statics, p0) is None);
                    assert(node_search(chain, m2, path, vars) is None);
                }
            }
        }
    }
}

/// The purely static answer: descend along the path's own text through the
/// static children only, and take the item stored there for the method.
pub open spec fn static_lookup<T>(n: RouteNode<T>, segs: Seq<Seq<char>>, m: Method) -> Option<
    (T, Seq<Seq<char>>),
>
    decreases segs.len(),
{
    if segs.len() == 0 {
        item_of(n.items, m)
    } else {
        match assoc_node(n.statics, segs[0]) {
            Some(c) => static_lookup(c, segs.drop_first(), m),
            None => None,
        }
    }
}

/// Static routes win: whenever the path has a purely static answer in any
/// tree, the lookup returns exactly that answer, whatever variable or
/// wildcard routes stand beside it.
pub proof fn lemma_static_wins<T>(
    n: RouteNode<T>,
    m: Method,
    segs: Seq<Seq<char>>,
    vars: Seq<Seq<char>>,
)
    requires
        static_lookup(n, segs, m) is Some,
    ensures
        ({
            let hit = static_lookup(n, segs, m)->0;
            node_search(n, m, segs, vars) == Some(
                (hit.0, zip_params(Seq::empty(), hit.1, vars)),
            )
        }),
    decreases segs.len(),
{
    if segs.len() > 0 {
        let c = assoc_node(n.statics, segs[0])->0;
        lemma_static_wins(c, m, segs.drop_first(), vars);
    }
}

/// How many items a method keys.
pub open spec fn method_count<T>(items: Seq<(Method, T, Seq<Seq<char>>)>, m: Method) -> nat
    decreases items.len(),
{
    if items.len() == 0 {
        0
    } else if items[0].0 == m {
        1 + method_count(items.drop_first(), m)
    } else {
        method_count(items.drop_first(), m)
    }
}

/// How many static children a literal text keys.
pub open spec fn key_count<T>(statics: Seq<(Seq<char>, RouteNode<T>)>, key: Seq<char>) -> nat
    decreases statics.len(),
{
    if statics.len() == 0 {
        0
    } else if statics[0].0 == key {
        1 + key_count(statics.drop_first(), key)
    } else {
        key_count(statics.drop_first(), key)
    }
}

/// Every method keys at most one item.
pub open spec fn methods_unique<T>(items: Seq<(Method, T, Seq<Seq<char>>)>) -> bool {
    forall|m: Method| method_count(items, m) <= 1
}

/// Every literal text keys at most one static child.
pub open spec fn keys_unique<T>(statics: Seq<(Seq<char>, RouteNode<T>)>) -> bool {
    forall|key: Seq<char>| key_count(statics, key) <= 1
}

/// A well-formed node: its methods and static keys are unique, and so are
/// those of every node below it.
pub open spec fn node_wf<T>(n: RouteNode<T>) -> bool
    decreases n,
{
    &&& methods_unique(n.items)
    &&& keys_unique(n.statics)
    &&& forall|i: int| 0 <= i < n.statics.len() ==> node_wf(#[trigger] n.statics[i].1)
    &&& match n.variable {
        Some(b) => node_wf(*b),
        None => true,
    }
    &&& match n.wildcard {
        Some(b) => node_wf(*b),
        None => true,
    }
}

/// Storing an item answers later lookups for its method with it and leaves
/// every other method's answer alone.
proof fn lemma_item_of_set_item<T>(
    items: Seq<(Method, T, Seq<Seq<char>>)>,
    m: Method,
    t: T,
    names: Seq<Seq<char>>,
    m2: Method,
)
    ensures
        item_of(set_item(items, m, t, names), m2) == (if m2 == m {
            Some((t, names))
        } else {
            item_of(items, m2)
        }),
    decreases items.len(),
{
    reveal_with_fuel(item_of, 3);
    reveal_with_fuel(set_item, 2);
    if items.len() == 0 {
    } else if items[0].0 == m {
        assert(set_item(items, m, t, names)[0] == (m, t, names));
        assert(set_item(items, m, t, names).drop_first() =~~= items.drop_first());
    } else {
        lemma_item_of_set_item(items.drop_first(), m, t, names, m2);
        assert(set_item(items, m, t, names)[0] == items[0]);
        assert(set_item(items, m, t, names).drop_first() =~~= set_item(
            items.drop_first(),
            m,
            t,
            names,
        ));
    }
}

/// Replacing a key's child answers later lookups for that key with the new
/// child and leaves every other key's answer alone.
proof fn lemma_assoc_update<T>(
    statics: Seq<(Seq<char>, RouteNode<T>)>,
    key: Seq<char>,
    c: RouteNode<T>,
    key2: Seq<char>,
)
    ensures
        assoc_node(update_assoc(statics, key, c), key2) == (if key2 == key {
            Some(c)
        } else {
            assoc_node(statics, key2)
        }),
    decreases statics.len(),
{
    reveal_with_fuel(assoc_node, 3);
    reveal_with_fuel(update_assoc, 2);
    if statics.len() == 0 {
    } else if statics[0].0 == key {
        assert(update_assoc(statics, key, c)[0] == (key, c));
        assert(update_assoc(statics, key, c).drop_first() =~~= statics.drop_first());
    } else {
        lemma_assoc_update(statics.drop_first(), key, c, key2);
        assert(update_assoc(statics, key, c)[0] == statics[0]);
        assert(update_assoc(statics, key, c).drop_first() =~~= update_assoc(
            statics.drop_first(),
            key,
            c,
        ));
    }
}

/// A found static child is one of the node's children.
proof fn lemma_assoc_node_wf<T>(statics: Seq<(Seq<char>, RouteNode<T>)>, key: Seq<char>)
    requires
        forall|i: int| 0 <= i < statics.len() ==> node_wf(#[trigger] statics[i].1),
        assoc_node(statics, key) is Some,
    ensures
        node_wf(assoc_node(statics, key)->0),
    decreases statics.len(),
{
    if statics.len() > 0 && statics[0].0 != key {
        lemma_assoc_node_wf(statics.drop_first(), key);
    }
}

/// Merged items answer with the other node's item, its names behind the
/// prefix, where the other node has one, and with the left side's item
/// everywhere else.
proof fn lemma_merge_items_lookup<T>(
    items: Seq<(Method, T, Seq<Seq<char>>)>,
    prefix: Seq<Seq<char>>,
    other: Seq<(Method, T, Seq<Seq<char>>)>,
    m: Method,
)
    requires
        methods_unique(other),
    ensures
        item_of(merge_items(items, prefix, other), m) == (match item_of(other, m) {
            Some(hit) => Some((hit.0, prefix.add(hit.1))),
            None => item_of(items, m),
        }),
    decreases other.len(),
{
    if other.len() > 0 {
        assert(forall|m2: Method| #[trigger] method_count(other.drop_first(), m2)
            <= method_count(other, m2));
        let items2 = set_item(items, other[0].0, other[0].1, prefix.add(other[0].2));
        lemma_merge_items_lookup(items2, prefix, other.drop_first(), m);
        lemma_item_of_set_item(items, other[0].0, other[0].1, prefix.add(other[0].2), m);
        if other[0].0 == m {
            lemma_item_of_missing_unique(other.drop_first(), m);
        }
    }
}

/// A method that keys nothing answers the item lookup with nothing.
proof fn lemma_item_of_missing_unique<T>(items: Seq<(Method, T, Seq<Seq<char>>)>, m: Method)
    requires
        method_count(items, m) == 0,
    ensures
        item_of(items, m) is None,
    decreases items.len(),
{
    if items.len() > 0 {
        lemma_item_of_missing_unique(items.drop_first(), m);
    }
}

/// A literal text that keys nothing answers the lookup with nothing.
proof fn lemma_assoc_node_missing_unique<T>(
    statics: Seq<(Seq<char>, RouteNode<T>)>,
    key: Seq<char>,
)
    requires
        key_count(statics, key) == 0,
    ensures
        assoc_node(statics, key) is None,
    decreases statics.len(),
{
    if statics.len() > 0 {
        lemma_assoc_node_missing_unique(statics.drop_first(), key);
    }
}

/// Merged static children answer with the merge of both sides' children
/// where the other node has one, and with the left side's child everywhere
/// else.
proof fn lemma_merge_statics_assoc<T>(
    statics: Seq<(Seq<char>, RouteNode<T>)>,
    prefix: Seq<Seq<char>>,
    others: Seq<(Seq<char>, RouteNode<T>)>,
    key: Seq<char>,
)
    requires
        keys_unique(others),
    ensures
        assoc_node(merge_statics(statics, prefix, others), key) == (match assoc_node(
            others,
            key,
        ) {
            Some(c) => Some(
                node_merge(
                    match assoc_node(statics, key) {
                        Some(x) => x,
                        None => empty_node(),
                    },
                    prefix,
                    c,
                ),
            ),
            None => assoc_node(statics, key),
        }),
    decreases others.len(),
{
    if others.len() > 0 {
        assert(forall|k2: Seq<char>| #[trigger] key_count(others.drop_first(), k2) <= key_count(
            others,
            k2,
        ));
        let k0 = others[0].0;
        let merged0 = node_merge(
            match assoc_node(statics, k0) {
                Some(c) => c,
                None => empty_node(),
            },
            prefix,
            others[0].1,
        );
        let statics2 = update_assoc(statics, k0, merged0);
        lemma_merge_statics_assoc(statics2, prefix, others.drop_first(), key);
        lemma_assoc_update(statics, k0, merged0, key);
        if key == k0 {
            lemma_assoc_node_missing_unique(others.drop_first(), k0);
        }
    }
}

/// Merge-insertion preserves the merged subtree: after merging `o` into
/// `n` under a name prefix, every item of `o` is found at its own position
/// with the prefix prepended to its variable names, and every other
/// position answers as `n` did.
pub proof fn lemma_merge_keeps_subtree<T>(
    n: RouteNode<T>,
    prefix: Seq<Seq<char>>,
    o: RouteNode<T>,
    kinds: Seq<SegKind>,
    m: Method,
)
    requires
        node_wf(o),
    ensures
        item_at(node_merge(n, prefix, o), kinds, m) == (match item_at(o, kinds, m) {
            Some(hit) => Some((hit.0, prefix.add(hit.1))),
            None => item_at(n, kinds, m),
        }),
    decreases kinds.len(),
{
    let merged = node_merge(n, prefix, o);
    if kinds.len() == 0 {
        lemma_merge_items_lookup(n.items, prefix, o.items, m);
    } else {
        let rest = kinds.drop_first();
        match kinds[0] {
            SegKind::Literal(key) => {
                lemma_merge_statics_assoc(n.statics, prefix, o.statics, key);
                match assoc_node(o.statics, key) {
                    Some(c) => {
                        lemma_assoc_node_wf(o.statics, key);
                        let base = match assoc_node(n.statics, key) {
                            Some(x) => x,
                            None => empty_node(),
                        };
                        lemma_merge_keeps_subtree(base, prefix, c, rest, m);
                        if assoc_node(n.statics, key) is None && item_at(c, rest, m) is None {
                            lemma_item_at_empty::<T>(rest, m);
                        }
                    },
                    None => {},
                }
            },
            SegKind::Variable => {
                match o.variable {
                    Some(b) => {
                        let base = match n.variable {
                            Some(x) => *x,
                            None => empty_node(),
                        };
                        lemma_merge_keeps_subtree(base, prefix, *b, rest, m);
                        if n.variable is None && item_at(*b, rest, m) is None {
                            lemma_item_at_empty::<T>(rest, m);
                        }
                    },
                    None => {},
                }
            },
            SegKind::Wildcard => {
                match o.wildcard {
                    Some(b) => {
                        let base = match n.wildcard {
                            Some(x) => *x,
                            None => empty_node(),
                        };
                        lemma_merge_keeps_subtree(base, prefix, *b, rest, m);
                        if n.wildcard is None && item_at(*b, rest, m) is None {
                            lemma_item_at_empty::<T>(rest, m);
                        }
                    },
                    None => {},
                }
            },
        }
    }
}

/// Merge-insertion at a path prefix preserves the subtree: every item of
/// the inserted router is found under the prefix followed by its own
/// position, with the prefix's variable names prepended to the item's, and
/// every other position under the prefix answers as before.
pub proof fn lemma_insert_router_keeps_subtree<T>(
    n: RouteNode<T>,
    segs: Seq<Seq<char>>,
    names0: Seq<Seq<char>>,
    o: RouteNode<T>,
    kinds: Seq<SegKind>,
    m: Method,
)
    requires
        node_wf(o),
    ensures
        item_at(node_insert_router(n, segs, names0, o), crate::segment::kinds_of(segs).add(kinds), m)
            == (match item_at(o, kinds, m) {
            Some(hit) => Some((hit.0, names0.add(crate::segment::names_of(segs)).add(hit.1))),
            None => item_at(n, crate::segment::kinds_of(segs).add(kinds), m),
        }),
    decreases segs.len(),
{
    if segs.len() == 0 {
        assert(crate::segment::kinds_of(segs).add(kinds) =~~= kinds);
        lemma_merge_keeps_subtree(n, names0, o, kinds, m);
        match item_at(o, kinds, m) {
            Some(hit) => {
                assert(names0.add(crate::segment::names_of(segs)) =~~= names0);
            },
            None => {},
        }
    } else {
        let s0 = segs[0];
        let srest = segs.drop_first();
        let kind0 = crate::segment::kind_of(s0);
        let names2 = if seg_is_variable(s0) {
            names0.push(seg_name(s0))
        } else {
            names0
        };
        let base = child_or_empty(n, kind0);
        let inner = node_insert_router(base, srest, names2, o);
        let result = set_child(n, kind0, inner);
        let full = crate::segment::kinds_of(segs).add(kinds);
        let full_rest = crate::segment::kinds_of(srest).add(kinds);
        assert(full[0] == kind0);
        assert(full.drop_first() =~~= full_rest);
        lemma_insert_router_keeps_subtree(base, srest, names2, o, kinds, m);
        match kind0 {
            SegKind::Literal(key) => {
                lemma_assoc_update(n.statics, key, inner, key);
                assert(crate::tree::child_of(result, full[0]) == Some(inner));
            },
            SegKind::Variable => {
                assert(crate::tree::child_of(result, full[0]) == Some(inner));
            },
            SegKind::Wildcard => {
                assert(crate::tree::child_of(result, full[0]) == Some(inner));
            },
        }
        assert(item_at(result, full, m) == item_at(inner, full_rest, m));
        match item_at(o, kinds, m) {
            Some(hit) => {
                assert(names2.add(crate::segment::names_of(srest)) =~~= names0.add(
                    crate::segment::names_of(segs)));
            },
            None => {
                if child_or_empty(n, kind0) == empty_node::<T>() && crate::tree::child_of(
                    n,
                    kind0,
                ) is None {
                    lemma_item_at_empty::<T>(full_rest, m);
                }
            },
        }
    }
}

/// Storing an item raises its method's count to one and leaves every other
/// method's count alone.
proof fn lemma_set_item_count<T>(
    items: Seq<(Method, T, Seq<Seq<char>>)>,
    m: Method,
    t: T,
    names: Seq<Seq<char>>,
    m2: Method,
)
    ensures
        method_count(set_item(items, m, t, names), m2) == (if m2 == m {
            if method_count(items, m) == 0 {
                1nat
            } else {
                method_count(items, m)
            }
        } else {
            method_count(items, m2)
        }),
    decreases items.len(),
{
    reveal_with_fuel(method_count, 2);
    reveal_with_fuel(set_item, 2);
    if items.len() == 0 {
    } else if items[0].0 == m {
        assert(set_item(items, m, t, names)[0] == (m, t, names));
        assert(set_item(items, m, t, names).drop_first() =~~= items.drop_first());
    } else {
        lemma_set_item_count(items.drop_first(), m, t, names, m2);
        assert(set_item(items, m, t, names)[0] == items[0]);
        assert(set_item(items, m, t, names).drop_first() =~~= set_item(
            items.drop_first(),
            m,
            t,
            names,
        ));
    }
}

/// Replacing a key's child raises its count to one and leaves every other
/// key's count alone.
proof fn lemma_update_assoc_count<T>(
    statics: Seq<(Seq<char>, RouteNode<T>)>,
    key: Seq<char>,
    c: RouteNode<T>,
    key2: Seq<char>,
)
    ensures
        key_count(update_assoc(statics, key, c), key2) == (if key2 == key {
            if key_count(statics, key) == 0 {
                1nat
            } else {
                key_count(statics, key)
            }
        } else {
            key_count(statics, key2)
        }),
    decreases statics.len(),
{
    reveal_with_fuel(key_count, 2);
    reveal_with_fuel(update_assoc, 2);
    if statics.len() == 0 {
    } else if statics[0].0 == key {
        assert(update_assoc(statics, key, c)[0] == (key, c));
        assert(update_assoc(statics, key, c).drop_first() =~~= statics.drop_first());
    } else {
        lemma_update_assoc_count(statics.drop_first(), key, c, key2);
        assert(update_assoc(statics, key, c)[0] == statics[0]);
        assert(update_assoc(statics, key, c).drop_first() =~~= update_assoc(
            statics.drop_first(),
            key,
            c,
        ));
    }
}

/// Every entry after a replacement is the new pair or one of the old
/// entries.
proof fn lemma_update_assoc_children<T>(
    statics: Seq<(Seq<char>, RouteNode<T>)>,
    key: Seq<char>,
    c: RouteNode<T>,
)
    ensures
        forall|i: int|
            0 <= i < update_assoc(statics, key, c).len() ==> (#[trigger] update_assoc(
                statics,
                key,
                c,
            )[i] == (key, c) || exists|j: int|
                0 <= j < statics.len() && statics[j] == update_assoc(statics, key, c)[i]),
    decreases statics.len(),
{
    if statics.len() == 0 {
    } else if statics[0].0 == key {
        assert forall|i: int| 0 <= i < update_assoc(statics, key, c).len() implies (
        #[trigger] update_assoc(statics, key, c)[i] == (key, c) || exists|j: int|
            0 <= j < statics.len() && statics[j] == update_assoc(statics, key, c)[i]) by {
            if i > 0 {
                assert(statics[i] == update_assoc(statics, key, c)[i]);
            }
        }
    } else {
        lemma_update_assoc_children(statics.drop_first(), key, c);
        assert forall|i: int| 0 <= i < update_assoc(statics, key, c).len() implies (
        #[trigger] update_assoc(statics, key, c)[i] == (key, c) || exists|j: int|
            0 <= j < statics.len() && statics[j] == update_assoc(statics, key, c)[i]) by {
            if i > 0 {
                let e = update_assoc(statics, key, c)[i];
                assert(e == update_assoc(statics.drop_first(), key, c)[i - 1]);
                if e != (key, c) {
                    let j = choose|j: int|
                        0 <= j < statics.drop_first().len() && statics.drop_first()[j] == e;
                    assert(statics[j + 1] == e);
                }
            }
        }
    }
}

/// The empty node is well-formed.
pub proof fn lemma_empty_node_wf<T>()
    ensures
        node_wf(empty_node::<T>()),
{
    assert forall|m: Method| method_count(empty_node::<T>().items, m) <= 1 by {
        reveal_with_fuel(method_count, 1);
    }
    assert forall|key: Seq<char>| key_count(empty_node::<T>().statics, key) <= 1 by {
        reveal_with_fuel(key_count, 1);
    }
}

/// Route registration keeps the tree well-formed: methods and static keys
/// stay unique at every node.
pub proof fn lemma_insert_preserves_wf<T>(
    n: RouteNode<T>,
    m: Method,
    segs: Seq<Seq<char>>,
    names: Seq<Seq<char>>,
    t: T,
)
    requires
        node_wf(n),
    ensures
        node_wf(node_insert(n, m, segs, names, t)),
    decreases segs.len(),
{
    let result = node_insert(n, m, segs, names, t);
    if segs.len() == 0 {
        assert forall|m2: Method| method_count(result.items, m2) <= 1 by {
            lemma_set_item_count(n.items, m, t, names, m2);
        }
    } else {
        let kind = crate::segment::kind_of(segs[0]);
        let names2 = if seg_is_variable(segs[0]) {
            names.push(seg_name(segs[0]))
        } else {
            names
        };
        let base = child_or_empty(n, kind);
        match crate::tree::child_of(n, kind) {
            Some(c) => {
                match kind {
                    SegKind::Literal(key) => {
                        lemma_assoc_node_wf(n.statics, key);
                    },
                    _ => {},
                }
            },
            None => {
                lemma_empty_node_wf::<T>();
            },
        }
        lemma_insert_preserves_wf(base, m, segs.drop_first(), names2, t);
        let inner = node_insert(base, m, segs.drop_first(), names2, t);
        match kind {
            SegKind::Literal(key) => {
                assert forall|k2: Seq<char>| key_count(result.statics, k2) <= 1 by {
                    lemma_update_assoc_count(n.statics, key, inner, k2);
                }
                lemma_update_assoc_children(n.statics, key, inner);
                assert forall|i: int| 0 <= i < result.statics.len() implies node_wf(
                    #[trigger] result.statics[i].1,
                ) by {
                    if result.statics[i] != (key, inner) {
                        let j = choose|j: int|
                            0 <= j < n.statics.len() && n.statics[j] == result.statics[i];
                        assert(node_wf(n.statics[j].1));
                    }
                }
            },
            SegKind::Variable => {},
            SegKind::Wildcard => {},
        }
    }
}

/// Registering a whole list of routes in an empty tree gives a well-formed
/// tree.
pub proof fn lemma_routes_wf<T>(n: RouteNode<T>, routes: Seq<(Method, Seq<char>, T)>)
    requires
        node_wf(n),
    ensures
        node_wf(crate::tree::node_insert_all(n, routes)),
    decreases routes.len(),
{
    if routes.len() > 0 {
        lemma_insert_preserves_wf(
            n,
            routes[0].0,
            crate::segment::segment_path(routes[0].1),
            Seq::empty(),
            routes[0].2,
        );
        lemma_routes_wf(
            crate::tree::node_insert_path(n, routes[0].0, routes[0].1, routes[0].2),
            routes.drop_first(),
        );
    }
}

/// Merged items keep methods unique.
proof fn lemma_merge_items_unique<T>(
    items: Seq<(Method, T, Seq<Seq<char>>)>,
    prefix: Seq<Seq<char>>,
    other: Seq<(Method, T, Seq<Seq<char>>)>,
)
    requires
        methods_unique(items),
    ensures
        methods_unique(merge_items(items, prefix, other)),
    decreases other.len(),
{
    if other.len() > 0 {
        let items2 = set_item(items, other[0].0, other[0].1, prefix.add(other[0].2));
        assert forall|m2: Method| method_count(items2, m2) <= 1 by {
            lemma_set_item_count(items, other[0].0, other[0].1, prefix.add(other[0].2), m2);
        }
        lemma_merge_items_unique(items2, prefix, other.drop_first());
    }
}

/// Merging keeps the tree well-formed: methods and static keys stay unique
/// at every node.
pub proof fn lemma_merge_preserves_wf<T>(n: RouteNode<T>, prefix: Seq<Seq<char>>, o: RouteNode<T>)
    requires
        node_wf(n),
        node_wf(o),
    ensures
        node_wf(node_merge(n, prefix, o)),
    decreases o,
{
    lemma_merge_items_unique(n.items, prefix, o.items);
    lemma_merge_statics_wf(n.statics, prefix, o.statics);
    match o.variable {
        Some(b) => {
            match n.variable {
                Some(x) => {
                    lemma_merge_preserves_wf(*x, prefix, *b);
                },
                None => {
                    lemma_empty_node_wf::<T>();
                    lemma_merge_preserves_wf(empty_node::<T>(), prefix, *b);
                },
            }
        },
        None => {},
    }
    match o.wildcard {
        Some(b) => {
            match n.wildcard {
                Some(x) => {
                    lemma_merge_preserves_wf(*x, prefix, *b);
                },
                None => {
                    lemma_empty_node_wf::<T>();
                    lemma_merge_preserves_wf(empty_node::<T>(), prefix, *b);
                },
            }
        },
        None => {},
    }
}

/// Merged static children keep keys unique and every child well-formed.
proof fn lemma_merge_statics_wf<T>(
    statics: Seq<(Seq<char>, RouteNode<T>)>,
    prefix: Seq<Seq<char>>,
    others: Seq<(Seq<char>, RouteNode<T>)>,
)
    requires
        keys_unique(statics),
        forall|i: int| 0 <= i < statics.len() ==> node_wf(#[trigger] statics[i].1),
        forall|i: int| 0 <= i < others.len() ==> node_wf(#[trigger] others[i].1),
    ensures
        keys_unique(merge_statics(statics, prefix, others)),
        forall|i: int|
            0 <= i < merge_statics(statics, prefix, others).len() ==> node_wf(
                #[trigger] merge_statics(statics, prefix, others)[i].1,
            ),
    decreases others,
{
    if others.len() > 0 {
        let k0 = others[0].0;
        let base = match assoc_node(statics, k0) {
            Some(c) => c,
            None => empty_node(),
        };
        match assoc_node(statics, k0) {
            Some(c) => {
                lemma_assoc_node_wf(statics, k0);
            },
            None => {
                lemma_empty_node_wf::<T>();
            },
        }
        lemma_merge_preserves_wf(base, prefix, others[0].1);
        let merged0 = node_merge(base, prefix, others[0].1);
        let statics2 = update_assoc(statics, k0, merged0);
        assert forall|k2: Seq<char>| key_count(statics2, k2) <= 1 by {
            lemma_update_assoc_count(statics, k0, merged0, k2);
        }
        lemma_update_assoc_children(statics, k0, merged0);
        assert forall|i: int| 0 <= i < statics2.len() implies node_wf(
            #[trigger] statics2[i].1,
        ) by {
            if statics2[i] != (k0, merged0) {
                let j = choose|j: int| 0 <= j < statics.len() && statics[j] == statics2[i];
                assert(node_wf(statics[j].1));
            }
        }
        assert(forall|i: int| 0 <= i < others.drop_first().len() ==> node_wf(
            #[trigger] others.drop_first()[i].1,
        ));
        lemma_merge_statics_wf(statics2, prefix, others.drop_first());
    }
}

/// Merge-insertion keeps the tree well-formed: methods and static keys
/// stay unique at every node.
pub proof fn lemma_insert_router_preserves_wf<T>(
    n: RouteNode<T>,
    segs: Seq<Seq<char>>,
    names: Seq<Seq<char>>,
    o: RouteNode<T>,
)
    requires
        node_wf(n),
        node_wf(o),
    ensures
        node_wf(node_insert_router(n, segs, names, o)),
    decreases segs.len(),
{
    if segs.len() == 0 {
        lemma_merge_preserves_wf(n, names, o);
    } else {
        let kind = crate::segment::kind_of(segs[0]);
        let names2 = if seg_is_variable(segs[0]) {
            names.push(seg_name(segs[0]))
        } else {
            names
        };
        let base = child_or_empty(n, kind);
        match crate::tree::child_of(n, kind) {
            Some(c) => {
                match kind {
                    SegKind::Literal(key) => {
                        lemma_assoc_node_wf(n.statics, key);
                    },
                    _ => {},
                }
            },
            None => {
                lemma_empty_node_wf::<T>();
            },
        }
        lemma_insert_router_preserves_wf(base, segs.drop_first(), names2, o);
        let inner = node_insert_router(base, segs.drop_first(), names2, o);
        let result = node_insert_router(n, segs, names, o);
        match kind {
            SegKind::Literal(key) => {
                assert forall|k2: Seq<char>| key_count(result.statics, k2) <= 1 by {
                    lemma_update_assoc_count(n.statics, key, inner, k2);
                }
                lemma_update_assoc_children(n.statics, key, inner);
                assert forall|i: int| 0 <= i < result.statics.len() implies node_wf(
                    #[trigger] result.statics[i].1,
                ) by {
                    if result.statics[i] != (key, inner) {
                        let j = choose|j: int|
                            0 <= j < n.statics.len() && n.statics[j] == result.statics[i];
                        assert(node_wf(n.statics[j].1));
                    }
                }
            },
            SegKind::Variable => {},
            SegKind::Wildcard => {},
        }
    }
}

/// Registration stores exactly one item: the route's own position answers
/// with the new item and the pattern's variable names behind the collected
/// prefix, and every other position answers as before.
pub proof fn lemma_insert_item_at<T>(
    n: RouteNode<T>,
    m: Method,
    segs: Seq<Seq<char>>,
    names0: Seq<Seq<char>>,
    t: T,
    kinds: Seq<SegKind>,
    m2: Method,
)
    ensures
        item_at(node_insert(n, m, segs, names0, t), kinds, m2) == (if kinds
            == crate::segment::kinds_of(segs) && m2 == m {
            Some((t, names0.add(crate::segment::names_of(segs))))
        } else {
            item_at(n, kinds, m2)
        }),
    decreases segs.len(),
{
    let result = node_insert(n, m, segs, names0, t);
    if segs.len() == 0 {
        assert(crate::segment::kinds_of(segs) =~~= Seq::<SegKind>::empty());
        if kinds.len() == 0 {
            assert(kinds =~~= crate::segment::kinds_of(segs));
            lemma_item_of_set_item(n.items, m, t, names0, m2);
            if m2 == m {
                assert(names0.add(crate::segment::names_of(segs)) =~~= names0);
            }
        }
    } else {
        let kind0 = crate::segment::kind_of(segs[0]);
        let names2 = if seg_is_variable(segs[0]) {
            names0.push(seg_name(segs[0]))
        } else {
            names0
        };
        let base = child_or_empty(n, kind0);
        let inner = node_insert(base, m, segs.drop_first(), names2, t);
        assert(crate::segment::kinds_of(segs)[0] == kind0);
        assert(crate::segment::kinds_of(segs).drop_first() =~~= crate::segment::kinds_of(
            segs.drop_first(),
        ));
        if kinds.len() == 0 {
            assert(kinds != crate::segment::kinds_of(segs));
        } else {
            let krest = kinds.drop_first();
            lemma_insert_item_at(base, m, segs.drop_first(), names2, t, krest, m2);
            if kinds[0] == kind0 {
                match kind0 {
                    SegKind::Literal(key) => {
                        lemma_assoc_update(n.statics, key, inner, key);
                    },
                    _ => {},
                }
                assert(crate::tree::child_of(result, kinds[0]) == Some(inner));
                assert(item_at(result, kinds, m2) == item_at(inner, krest, m2));
                if krest == crate::segment::kinds_of(segs.drop_first()) && m2 == m {
                    assert forall|i: int| 0 <= i < kinds.len() implies kinds[i]
                        == crate::segment::kinds_of(segs)[i] by {
                        if i > 0 {
                            assert(kinds.drop_first()[i - 1] == crate::segment::kinds_of(
                                segs,
                            ).drop_first()[i - 1]);
                        }
                    }
                    assert(kinds =~~= crate::segment::kinds_of(segs));
                    assert(names2.add(crate::segment::names_of(segs.drop_first())) =~~= names0.add(
                        crate::segment::names_of(segs)));
                } else {
                    if kinds == crate::segment::kinds_of(segs) {
                        assert(krest == crate::segment::kinds_of(segs).drop_first());
                        assert(m2 != m);
                    }
                    match crate::tree::child_of(n, kind0) {
                        Some(c) => {
                            assert(item_at(result, kinds, m2) == item_at(n, kinds, m2));
                        },
                        None => {
                            lemma_item_at_empty::<T>(krest, m2);
                            assert(item_at(n, kinds, m2) is None);
                        },
                    }
                }
            } else {
                assert(kinds != crate::segment::kinds_of(segs));
                match kind0 {
                    SegKind::Literal(key) => {
                        match kinds[0] {
                            SegKind::Literal(k2) => {
                                lemma_assoc_update(n.statics, key, inner, k2);
                            },
                            _ => {},
                        }
                    },
                    _ => {},
                }
                assert(crate::tree::child_of(result, kinds[0]) == crate::tree::child_of(
                    n,
                    kinds[0],
                ));
            }
        }
    }
}

} // verus!


//! The mathematical model of a route tree. A node stores items keyed by HTTP
//! method, an ordered association of literal segments to child nodes, and
//! optional variable and wildcard children. Route registration, merging and
//! lookup are defined here as specification functions; the executable router
//! is proved against them.

use vstd::prelude::*;

use crate::method::Method;
use crate::params::zip_params;
use crate::segment::{kind_of, seg_is_variable, seg_name, segment_path, SegKind};

verus! {

/// One node of the route tree model.
///
/// `items` maps an HTTP method to a handler and to the names of the variable
/// segments on the path from the root to this node, in root-to-leaf order.
/// `statics` maps literal segment text to a child; a node has at most one
/// variable child and one wildcard child, whatever names its variable
/// segments were declared under.
#[verifier::ext_equal]
pub struct RouteNode<T> {
    pub items: Seq<(Method, T, Seq<Seq<char>>)>,
    pub statics: Seq<(Seq<char>, RouteNode<T>)>,
    pub variable: Option<Box<RouteNode<T>>>,
    pub wildcard: Option<Box<RouteNode<T>>>,
}

/// The empty node: no items, no children.
pub open spec fn empty_node<T>() -> RouteNode<T> {
    RouteNode {
        items: Seq::empty(),
        statics: Seq::empty(),
        variable: None,
        wildcard: None,
    }
}

/// The item stored for a method: the first entry with that method answers.
pub open spec fn item_of<T>(items: Seq<(Method, T, Seq<Seq<char>>)>, m: Method) -> Option<
    (T, Seq<Seq<char>>),
>
    decreases items.len(),
{
    if items.len() == 0 {
        None
    } else if items[0].0 == m {
        Some((items[0].1, items[0].2))
    } else {
        item_of(items.drop_first(), m)
    }
}

/// Storing an item for a method: an existing method keeps its position and
/// gets the new item; a new method goes to the end.
pub open spec fn set_item<T>(
    items: Seq<(Method, T, Seq<Seq<char>>)>,
    m: Method,
    t: T,
    names: Seq<Seq<char>>,
) -> Seq<(Method, T, Seq<Seq<char>>)>
    decreases items.len(),
{
    if items.len() == 0 {
        seq![(m, t, names)]
    } else if items[0].0 == m {
        seq![(m, t, names)].add(items.drop_first())
    } else {
        seq![items[0]].add(set_item(items.drop_first(), m, t, names))
    }
}

/// The static child stored under a literal segment: the first entry with
/// that text answers.
pub open spec fn assoc_node<T>(statics: Seq<(Seq<char>, RouteNode<T>)>, key: Seq<char>) -> Option<
    RouteNode<T>,
>
    decreases statics.len(),
{
    if statics.len() == 0 {
        None
    } else if statics[0].0 == key {
        Some(statics[0].1)
    } else {
        assoc_node(statics.drop_first(), key)
    }
}

/// Replacing the static child stored under a literal segment: an existing
/// text keeps its position; a new text goes to the end.
pub open spec fn update_assoc<T>(
    statics: Seq<(Seq<char>, RouteNode<T>)>,
    key: Seq<char>,
    child: RouteNode<T>,
) -> Seq<(Seq<char>, RouteNode<T>)>
    decreases statics.len(),
{
    if statics.len() == 0 {
        seq![(key, child)]
    } else if statics[0].0 == key {
        seq![(key, child)].add(statics.drop_first())
    } else {
        seq![statics[0]].add(update_assoc(statics.drop_first(), key, child))
    }
}

/// The child a segment kind selects, if the node has one.
pub open spec fn child_of<T>(n: RouteNode<T>, kind: SegKind) -> Option<RouteNode<T>> {
    match kind {
        SegKind::Literal(key) => assoc_node(n.statics, key),
        SegKind::Variable => match n.variable {
            Some(b) => Some(*b),
            None => None,
        },
        SegKind::Wildcard => match n.wildcard {
            Some(b) => Some(*b),
            None => None,
        },
    }
}

/// The child a segment kind selects, or the empty node if there is none.
pub open spec fn child_or_empty<T>(n: RouteNode<T>, kind: SegKind) -> RouteNode<T> {
    match child_of(n, kind) {
        Some(c) => c,
        None => empty_node(),
    }
}

/// The node with the child under one segment kind replaced.
pub open spec fn set_child<T>(n: RouteNode<T>, kind: SegKind, child: RouteNode<T>) -> RouteNode<
    T,
> {
    match kind {
        SegKind::Literal(key) => RouteNode { statics: update_assoc(n.statics, key, child), ..n },
        SegKind::Variable => RouteNode { variable: Some(Box::new(child)), ..n },
        SegKind::Wildcard => RouteNode { wildcard: Some(Box::new(child)), ..n },
    }
}

/// The item reached by descending along a sequence of segment kinds.
pub open spec fn item_at<T>(n: RouteNode<T>, kinds: Seq<SegKind>, m: Method) -> Option<
    (T, Seq<Seq<char>>),
>
    decreases kinds.len(),
{
    if kinds.len() == 0 {
        item_of(n.items, m)
    } else {
        match child_of(n, kinds[0]) {
            Some(c) => item_at(c, kinds.drop_first(), m),
            None => None,
        }
    }
}

/// Registration of one route: descend along the pattern's segments, creating
/// nodes as needed, collect the names of the variable segments passed on the
/// way, and store the item at the final node under the route's method,
/// overwriting any earlier item stored there for that method.
pub open spec fn node_insert<T>(
    n: RouteNode<T>,
    m: Method,
    segs: Seq<Seq<char>>,
    names: Seq<Seq<char>>,
    t: T,
) -> RouteNode<T>
    decreases segs.len(),
{
    if segs.len() == 0 {
        RouteNode { items: set_item(n.items, m, t, names), ..n }
    } else {
        let kind = kind_of(segs[0]);
        let names2 = if seg_is_variable(segs[0]) {
            names.push(seg_name(segs[0]))
        } else {
            names
        };
        set_child(n, kind, node_insert(child_or_empty(n, kind), m, segs.drop_first(), names2, t))
    }
}

/// Registration of a route given by a whole path string.
pub open spec fn node_insert_path<T>(n: RouteNode<T>, m: Method, path: Seq<char>, t: T) -> RouteNode<
    T,
> {
    node_insert(n, m, segment_path(path), Seq::empty(), t)
}

/// Registration of a list of routes, first to last; a later route for the
/// same method and the same tree position wins.
pub open spec fn node_insert_all<T>(
    n: RouteNode<T>,
    routes: Seq<(Method, Seq<char>, T)>,
) -> RouteNode<T>
    decreases routes.len(),
{
    if routes.len() == 0 {
        n
    } else {
        node_insert_all(
            node_insert_path(n, routes[0].0, routes[0].1, routes[0].2),
            routes.drop_first(),
        )
    }
}

/// Merging another node's items into an item sequence, first to last. Each
/// merged item gets the accumulated variable-name prefix prepended to its
/// stored names, and overwrites an item stored for the same method.
pub open spec fn merge_items<T>(
    items: Seq<(Method, T, Seq<Seq<char>>)>,
    prefix: Seq<Seq<char>>,
    other: Seq<(Method, T, Seq<Seq<char>>)>,
) -> Seq<(Method, T, Seq<Seq<char>>)>
    decreases other.len(),
{
    if other.len() == 0 {
        items
    } else {
        merge_items(
            set_item(items, other[0].0, other[0].1, prefix.add(other[0].2)),
            prefix,
            other.drop_first(),
        )
    }
}

/// The node behind an optional child, or the empty node.
pub open spec fn opt_node<T>(c: Option<Box<RouteNode<T>>>) -> RouteNode<T> {
    match c {
        Some(b) => *b,
        None => empty_node(),
    }
}

/// Merging a whole node into another: items are merged with the name prefix
/// prepended, static children are merged key by key, and variable and
/// wildcard children are merged recursively, created on the left side where
/// absent. Merging never removes anything from the left side.
pub open spec fn node_merge<T>(
    n: RouteNode<T>,
    prefix: Seq<Seq<char>>,
    o: RouteNode<T>,
) -> RouteNode<T>
    decreases o,
{
    RouteNode {
        items: merge_items(n.items, prefix, o.items),
        statics: merge_statics(n.statics, prefix, o.statics),
        variable: match o.variable {
            Some(b) => Some(Box::new(node_merge(opt_node(n.variable), prefix, *b))),
            None => n.variable,
        },
        wildcard: match o.wildcard {
            Some(b) => Some(Box::new(node_merge(opt_node(n.wildcard), prefix, *b))),
            None => n.wildcard,
        },
    }
}

/// Merging a sequence of static children into an association sequence, first
/// to last, key by key.
pub open spec fn merge_statics<T>(
    statics: Seq<(Seq<char>, RouteNode<T>)>,
    prefix: Seq<Seq<char>>,
    others: Seq<(Seq<char>, RouteNode<T>)>,
) -> Seq<(Seq<char>, RouteNode<T>)>
    decreases others,
{
    if others.len() == 0 {
        statics
    } else {
        let key = others[0].0;
        let merged = node_merge(
            match assoc_node(statics, key) {
                Some(c) => c,
                None => empty_node(),
            },
            prefix,
            others[0].1,
        );
        merge_statics(update_assoc(statics, key, merged), prefix, others.drop_first())
    }
}

/// Merge-insertion of a whole subtree at a path prefix: descend along the
/// prefix exactly as route registration does, collecting variable names, and
/// merge the subtree into the node reached.
pub open spec fn node_insert_router<T>(
    n: RouteNode<T>,
    segs: Seq<Seq<char>>,
    names: Seq<Seq<char>>,
    o: RouteNode<T>,
) -> RouteNode<T>
    decreases segs.len(),
{
    if segs.len() == 0 {
        node_merge(n, names, o)
    } else {
        let kind = kind_of(segs[0]);
        let names2 = if seg_is_variable(segs[0]) {
            names.push(seg_name(segs[0]))
        } else {
            names
        };
        set_child(
            n,
            kind,
            node_insert_router(child_or_empty(n, kind), segs.drop_first(), names2, o),
        )
    }
}

/// Lookup of a path in the tree, with backtracking.
///
/// At a node with no segments left, the item stored for the method answers,
/// its variable names paired with the captured values. Otherwise the head
/// segment is tried against the static children first; on failure against
/// the variable child, capturing the head; on failure against the wildcard
/// child, which consumes the head and then as few further segments as it
/// can: `wild_search` first tries to leave the whole tail, then drops one
/// leading segment at a time until a match is found or everything was
/// consumed.
pub open spec fn node_search<T>(
    n: RouteNode<T>,
    m: Method,
    path: Seq<Seq<char>>,
    vars: Seq<Seq<char>>,
) -> Option<(T, Seq<(Seq<char>, Seq<char>)>)>
    decreases path.len(), 0int,
{
    if path.len() == 0 {
        match item_of(n.items, m) {
            Some((t, names)) => Some((t, zip_params(Seq::empty(), names, vars))),
            None => None,
        }
    } else {
        let head = path[0];
        let rest = path.drop_first();
        let from_static = match assoc_node(n.statics, head) {
            Some(c) => node_search(c, m, rest, vars),
            None => None,
        };
        if from_static is Some {
            from_static
        } else {
            let from_variable = match n.variable {
                Some(b) => node_search(*b, m, rest, vars.push(head)),
                None => None,
            };
            if from_variable is Some {
                from_variable
            } else {
                match n.wildcard {
                    Some(b) => wild_search(*b, m, rest, vars),
                    None => None,
                }
            }
        }
    }
}

/// The wildcard's backtracking: try the lookup with the given tail left
/// over, and on failure consume one more leading segment, down to the empty
/// tail.
pub open spec fn wild_search<T>(
    c: RouteNode<T>,
    m: Method,
    tail: Seq<Seq<char>>,
    vars: Seq<Seq<char>>,
) -> Option<(T, Seq<(Seq<char>, Seq<char>)>)>
    decreases tail.len(), 1int,
{
    let here = node_search(c, m, tail, vars);
    if here is Some {
        here
    } else if tail.len() > 0 {
        wild_search(c, m, tail.drop_first(), vars)
    } else {
        None
    }
}

/// Lookup of a whole path string from the root: no captured values yet.
pub open spec fn node_find<T>(n: RouteNode<T>, m: Method, path: Seq<char>) -> Option<
    (T, Seq<(Seq<char>, Seq<char>)>),
> {
    node_search(n, m, segment_path(path), Seq::empty())
}

} // verus!

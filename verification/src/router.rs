//! The executable route tree. It stores items, such as request handlers,
//! under an HTTP method and a slash-delimited path pattern.
//!
//! Paths can be static (`"path/to/item"`) or variable (`"users/:group/:user"`)
//! and contain wildcards (`"path/*/item/*"`). A variable segment (starting
//! with `:`) matches whatever text the looked-up path holds at that position
//! and binds it to the variable's name; a wildcard (`*`) consumes segments
//! until the rest of the path gives a match.
//!
//! Every operation is specified against the tree model in [`crate::tree`]:
//! a router's view is a [`RouteNode`], registration refines
//! [`node_insert`], merging refines [`node_merge`], and lookup refines
//! [`node_search`].

use vstd::prelude::*;

use crate::laws::{
    lemma_empty_node_wf, lemma_insert_item_at, lemma_insert_preserves_wf,
    lemma_insert_router_keeps_subtree, lemma_routes_wf, node_wf,
};
use crate::method::Method;
use crate::params::{str_eq, zip_params, Parameters};
use crate::segment::{
    is_variable, is_wildcard, kind_of, kinds_of, names_of, path_to_vec, seg_name, segment_path,
    variable_name, SegKind,
};
use crate::tree::{
    child_or_empty, empty_node, item_at, item_of, merge_items, merge_statics, node_find,
    node_insert, node_insert_all, node_insert_path, node_insert_router, node_merge, node_search,
    set_item, update_assoc, wild_search, RouteNode,
};

verus! {

/// Stores items, such as request handlers, under an HTTP method and a path
/// pattern built from literal, variable and wildcard segments.
pub struct Router<T> {
    items: Vec<(Method, T, Vec<String>)>,
    static_routes: Vec<(String, Router<T>)>,
    variable_route: Option<Box<Router<T>>>,
    wildcard_route: Option<Box<Router<T>>>,
}

/// The model of an item sequence: each item's variable names as text.
spec fn items_view<T>(items: Seq<(Method, T, Vec<String>)>) -> Seq<(Method, T, Seq<Seq<char>>)> {
    items.map_values(|it: (Method, T, Vec<String>)| (it.0, it.1, it.2.deep_view()))
}

/// The model of a router: its items with their variable names, its static
/// children keyed by literal text, and its variable and wildcard children.
spec fn router_view<T>(r: Router<T>) -> RouteNode<T>
    decreases r,
{
    RouteNode {
        items: items_view(r.items@),
        statics: statics_view(r.static_routes@),
        variable: match r.variable_route {
            Some(b) => Some(Box::new(router_view(*b))),
            None => None,
        },
        wildcard: match r.wildcard_route {
            Some(b) => Some(Box::new(router_view(*b))),
            None => None,
        },
    }
}

/// The model of a router's static children, key by key.
spec fn statics_view<T>(s: Seq<(String, Router<T>)>) -> Seq<(Seq<char>, RouteNode<T>)>
    decreases s,
{
    if s.len() == 0 {
        Seq::empty()
    } else {
        seq![(s[0].0@, router_view(s[0].1))].add(statics_view(s.drop_first()))
    }
}

impl<T> View for Router<T> {
    type V = RouteNode<T>;

    closed spec fn view(&self) -> RouteNode<T> {
        router_view(*self)
    }
}

/// The static-children model has one entry per stored child, in order.
proof fn lemma_statics_view_index<T>(s: Seq<(String, Router<T>)>)
    ensures
        statics_view(s).len() == s.len(),
        forall|i: int| 0 <= i < s.len() ==> statics_view(s)[i] == (s[i].0@, router_view(s[i].1)),
    decreases s.len(),
{
    if s.len() > 0 {
        lemma_statics_view_index(s.drop_first());
    }
}

/// The position of the first static child stored under this literal text.
fn find_static<T>(statics: &Vec<(String, Router<T>)>, piece: &String) -> (res: Option<usize>)
    ensures
        match res {
            Some(j) => j < statics@.len() && statics@[j as int].0@ == piece@ && forall|q: int|
                0 <= q < j ==> statics@[q].0@ != piece@,
            None => forall|q: int| 0 <= q < statics@.len() ==> statics@[q].0@ != piece@,
        },
{
    let mut i: usize = 0;
    while i < statics.len()
        invariant
            i <= statics@.len(),
            forall|q: int| 0 <= q < i ==> statics@[q].0@ != piece@,
        decreases statics@.len() - i,
    {
        if str_eq(statics[i].0.as_str(), piece.as_str()) {
            return Some(i);
        }
        i += 1;
    }
    None
}

/// The position of the first item stored under this method.
fn find_item<T>(items: &Vec<(Method, T, Vec<String>)>, method: Method) -> (res: Option<usize>)
    ensures
        match res {
            Some(j) => j < items@.len() && items@[j as int].0 == method && forall|q: int|
                0 <= q < j ==> items@[q].0 != method,
            None => forall|q: int| 0 <= q < items@.len() ==> items@[q].0 != method,
        },
{
    let mut i: usize = 0;
    while i < items.len()
        invariant
            i <= items@.len(),
            forall|q: int| 0 <= q < i ==> items@[q].0 != method,
        decreases items@.len() - i,
    {
        if items[i].0 == method {
            return Some(i);
        }
        i += 1;
    }
    None
}

impl<T> Router<T> {
    /// Creates an empty router.
    pub fn new() -> (router: Router<T>)
        ensures
            router@ == empty_node::<T>(),
            node_wf(router@),
    {
        proof {
            lemma_empty_node_wf::<T>();
        }
        let router = Router {
            items: Vec::new(),
            static_routes: Vec::new(),
            variable_route: None,
            wildcard_route: None,
        };
        proof {
            assert(router@.items =~~= empty_node::<T>().items);
            assert(router.static_routes@ =~~= Seq::<(String, Router<T>)>::empty());
            lemma_statics_view_index(router.static_routes@);
            assert(router@.statics =~~= empty_node::<T>().statics);
            assert(router@ =~~= empty_node::<T>());
        }
        router
    }

    /// Stores the item at the final node of this method's entry, overwriting
    /// an item stored there earlier for the same method.
    fn store_item(&mut self, method: Method, item: T, variable_names: Vec<String>)
        ensures
            final(self)@ == (RouteNode {
                items: set_item(
                    old(self)@.items,
                    method,
                    item,
                    variable_names.deep_view(),
                ),
                ..old(self)@
            }),
    {
        let ghost orig = self@;
        proof {
            assert(forall|q: int| 0 <= q < orig.items.len() ==> #[trigger] orig.items[q].0
                == self.items@[q].0);
        }
        if let Some(hit) = find_item(&self.items, method) {
            proof {
                lemma_set_item_found(orig.items, method, item, variable_names.deep_view(),
                    hit as int);
            }
            self.items[hit] = (method, item, variable_names);
            proof {
                assert(self@.items =~~= orig.items.update(hit as int, (self.items@[
                    hit as int].0, self.items@[hit as int].1, self.items@[
                    hit as int].2.deep_view())));
                assert(self@ =~~= (RouteNode {
                    items: orig.items.update(hit as int, (self.items@[hit as int].0,
                        self.items@[hit as int].1, self.items@[hit as int].2.deep_view())),
                    ..orig
                }));
            }
        } else {
            proof {
                lemma_set_item_absent(orig.items, method, item, variable_names.deep_view());
            }
            self.items.push((method, item, variable_names));
            proof {
                let e = self.items@.last();
                assert(self@.items =~~= orig.items.push((e.0, e.1, e.2.deep_view())));
                assert(self@ =~~= (RouteNode {
                    items: orig.items.push((e.0, e.1, e.2.deep_view())),
                    ..orig
                }));
            }
        }
    }

    /// Registers an item under a method and a path pattern. Exactly the
    /// node the pattern leads to gains the item under the method, with the
    /// pattern's variable names, overwriting an earlier item there for the
    /// same method; every other position answers as before.
    pub fn insert_item(&mut self, method: Method, path: &str, item: T)
        ensures
            final(self)@ == node_insert_path(old(self)@, method, path@, item),
            forall|kinds: Seq<SegKind>, m2: Method|
                #[trigger] item_at(final(self)@, kinds, m2) == (if kinds == kinds_of(
                    segment_path(path@),
                ) && m2 == method {
                    Some((item, names_of(segment_path(path@))))
                } else {
                    item_at(old(self)@, kinds, m2)
                }),
            node_wf(old(self)@) ==> node_wf(final(self)@),
    {
        let ghost orig = self@;
        let segments = path_to_vec(path);
        let names: Vec<String> = Vec::new();
        proof {
            assert(segments.deep_view().skip(0) =~~= segment_path(path@));
            assert(names.deep_view() =~~= Seq::<Seq<char>>::empty());
        }
        self.insert_item_vec(method, &segments, 0, names, item);
        proof {
            let segs = segment_path(path@);
            assert forall|kinds: Seq<SegKind>, m2: Method|
                #[trigger] item_at(self@, kinds, m2) == (if kinds == kinds_of(segs) && m2
                    == method {
                    Some((item, names_of(segs)))
                } else {
                    item_at(orig, kinds, m2)
                }) by {
                lemma_insert_item_at(orig, method, segs, Seq::empty(), item, kinds, m2);
                assert(Seq::<Seq<char>>::empty().add(names_of(segs)) =~~= names_of(segs));
            }
            if node_wf(orig) {
                lemma_insert_preserves_wf(orig, method, segs, Seq::empty(), item);
            }
        }
    }

    /// Registers an item at the node reached from the segments at and after
    /// position `i`, with the variable names collected so far.
    fn insert_item_vec(
        &mut self,
        method: Method,
        path: &Vec<String>,
        i: usize,
        variable_names: Vec<String>,
        item: T,
    )
        requires
            i <= path@.len(),
        ensures
            final(self)@ == node_insert(
                old(self)@,
                method,
                path.deep_view().skip(i as int),
                variable_names.deep_view(),
                item,
            ),
        decreases path@.len() - i,
    {
        let ghost orig = self@;
        let ghost segs = path.deep_view().skip(i as int);
        if i == path.len() {
            self.store_item(method, item, variable_names);
            return ;
        }
        let piece = &path[i];
        proof {
            assert(piece@ == segs[0]);
            assert(segs.drop_first() =~~= path.deep_view().skip(i + 1));
        }
        let mut names = variable_names;
        if is_variable(piece.as_str()) {
            names.push(variable_name(piece.as_str()));
            proof {
                assert(names.deep_view() =~~= variable_names.deep_view().push(seg_name(segs[0])));
            }
        }
        if is_wildcard(piece.as_str()) {
            let taken = self.wildcard_route.take();
            let mut child = match taken {
                Some(b) => *b,
                None => Router::new(),
            };
            proof {
                assert(child@ == child_or_empty(orig, SegKind::Wildcard));
            }
            child.insert_item_vec(method, path, i + 1, names, item);
            self.wildcard_route = Some(Box::new(child));
            proof {
                assert(kind_of(segs[0]) == SegKind::Wildcard);
                assert(self@ =~~= node_insert(orig, method, segs, variable_names.deep_view(),
                    item));
            }
        } else if is_variable(piece.as_str()) {
            let taken = self.variable_route.take();
            let mut child = match taken {
                Some(b) => *b,
                None => Router::new(),
            };
            proof {
                assert(child@ == child_or_empty(orig, SegKind::Variable));
            }
            child.insert_item_vec(method, path, i + 1, names, item);
            self.variable_route = Some(Box::new(child));
            proof {
                assert(kind_of(segs[0]) == SegKind::Variable);
                assert(self@ =~~= node_insert(orig, method, segs, variable_names.deep_view(),
                    item));
            }
        } else {
            proof {
                assert(kind_of(segs[0]) == SegKind::Literal(segs[0]));
                lemma_statics_view_index(self.static_routes@);
            }
            match find_static(&self.static_routes, piece) {
                Some(j) => {
                    proof {
                        lemma_assoc_node_found(orig.statics, piece@, j as int);
                        assert(child_or_empty(orig, SegKind::Literal(piece@)) == orig.statics[
                            j as int].1);
                    }
                    let mut entry = self.static_routes.remove(j);
                    proof {
                        assert(entry.1@ == orig.statics[j as int].1);
                    }
                    entry.1.insert_item_vec(method, path, i + 1, names, item);
                    self.static_routes.insert(j, entry);
                    proof {
                        assert(self.static_routes@ =~~= old(self).static_routes@.update(j as int,
                            self.static_routes@[j as int]));
                        lemma_statics_view_index(self.static_routes@);
                        lemma_update_assoc_found(orig.statics, piece@, self.static_routes@[
                            j as int].1@, j as int);
                        assert(self@.statics =~~= orig.statics.update(j as int, (piece@,
                            self.static_routes@[j as int].1@)));
                        assert(self@.statics =~~= update_assoc(orig.statics, piece@,
                            self.static_routes@[j as int].1@));
                        assert(self@ =~~= node_insert(orig, method, segs,
                            variable_names.deep_view(), item));
                    }
                },
                None => {
                    proof {
                        lemma_assoc_node_missing(orig.statics, piece@);
                    }
                    let mut child = Router::new();
                    child.insert_item_vec(method, path, i + 1, names, item);
                    self.static_routes.push((piece.clone(), child));
                    proof {
                        lemma_statics_view_index(self.static_routes@);
                        lemma_update_assoc_missing(orig.statics, piece@,
                            self.static_routes@.last().1@);
                        assert(self@.statics =~~= orig.statics.push((piece@,
                            self.static_routes@.last().1@)));
                        assert(self@ =~~= node_insert(orig, method, segs,
                            variable_names.deep_view(), item));
                    }
                },
            }
        }
    }

    /// The stored item and the collected bindings, when the whole path has
    /// been consumed at this node.
    fn item_for<'a>(&'a self, method: Method, vars: &Vec<String>) -> (res: Option<
        (&'a T, Parameters),
    >)
        ensures
            ({
                let expected = node_search(self@, method, Seq::empty(), vars.deep_view());
                match res {
                    Some(hit) => expected == Some((*hit.0, hit.1@)),
                    None => expected is None,
                }
            }),
    {
        proof {
            assert(forall|q: int| 0 <= q < self@.items.len() ==> #[trigger] self@.items[q].0
                == self.items@[q].0);
        }
        match find_item(&self.items, method) {
            Some(j) => {
                proof {
                    lemma_item_of_found(self@.items, method, j as int);
                }
                let t = &self.items[j].1;
                let names = &self.items[j].2;
                let ghost gnames = self@.items[j as int].2;
                let ghost gvars = vars.deep_view();
                proof {
                    assert(gnames == names.deep_view());
                }
                let mut params = Parameters::new();
                let k: usize = if names.len() < vars.len() {
                    names.len()
                } else {
                    vars.len()
                };
                let mut idx: usize = 0;
                proof {
                    assert(gnames.skip(0) =~~= gnames);
                    assert(gvars.skip(0) =~~= gvars);
                }
                while idx < k
                    invariant
                        idx <= k,
                        k <= names.deep_view().len(),
                        k <= gvars.len(),
                        k == names.deep_view().len() || k == gvars.len(),
                        gnames == names.deep_view(),
                        gvars == vars.deep_view(),
                        names.deep_view().len() == names@.len(),
                        gvars.len() == vars@.len(),
                        zip_params(Seq::empty(), gnames, gvars) == zip_params(
                            params@,
                            gnames.skip(idx as int),
                            gvars.skip(idx as int),
                        ),
                    decreases k - idx,
                {
                    let name = names[idx].clone();
                    let value = vars[idx].clone();
                    proof {
                        assert(name@ == gnames.skip(idx as int)[0]);
                        assert(value@ == gvars.skip(idx as int)[0]);
                        assert(gnames.skip(idx as int).drop_first() =~~= gnames.skip(
                            idx as int + 1));
                        assert(gvars.skip(idx as int).drop_first() =~~= gvars.skip(
                            idx as int + 1));
                    }
                    params.insert(name, value);
                    idx += 1;
                }
                proof {
                    assert(gnames.skip(k as int).len() == 0 || gvars.skip(k as int).len() == 0);
                    assert(zip_params(Seq::empty(), gnames, gvars) == params@);
                }
                Some((t, params))
            },
            None => {
                proof {
                    lemma_item_of_missing(self@.items, method);
                }
                None
            },
        }
    }

    /// Looks the path's remaining segments up from this node, with the
    /// values captured so far in `vars`: static children first, then the
    /// variable child, then the wildcard child. On failure the captured
    /// values are left as they were.
    fn search<'a>(&'a self, method: Method, path: &Vec<String>, i: usize, vars: &mut Vec<String>)
        -> (res: Option<(&'a T, Parameters)>)
        requires
            i <= path@.len(),
        ensures
            ({
                let expected = node_search(
                    self@,
                    method,
                    path.deep_view().skip(i as int),
                    old(vars).deep_view(),
                );
                match res {
                    Some(hit) => expected == Some((*hit.0, hit.1@)),
                    None => expected is None && final(vars).deep_view() == old(
                        vars,
                    ).deep_view(),
                }
            }),
        decreases path@.len() - i, 0int,
    {
        let ghost segs = path.deep_view().skip(i as int);
        let ghost gvars = vars.deep_view();
        if i == path.len() {
            proof {
                assert(segs =~~= Seq::<Seq<char>>::empty());
            }
            return self.item_for(method, vars);
        }
        let piece = &path[i];
        proof {
            assert(piece@ == segs[0]);
            assert(segs.drop_first() =~~= path.deep_view().skip(i + 1));
            lemma_statics_view_index(self.static_routes@);
        }
        match find_static(&self.static_routes, piece) {
            Some(j) => {
                proof {
                    lemma_assoc_node_found(self@.statics, piece@, j as int);
                }
                let r = self.static_routes[j].1.search(method, path, i + 1, vars);
                if r.is_some() {
                    return r;
                }
            },
            None => {
                proof {
                    lemma_assoc_node_missing(self@.statics, piece@);
                }
            },
        }
        if let Some(b) = &self.variable_route {
            vars.push(piece.clone());
            proof {
                assert(vars.deep_view() =~~= gvars.push(segs[0]));
            }
            let r = b.search(method, path, i + 1, vars);
            match r {
                Some(hit) => {
                    return Some(hit);
                },
                None => {
                    let ghost pre_exec = vars@;
                    let ghost pre_deep = vars.deep_view();
                    proof {
                        assert(pre_deep =~~= gvars.push(segs[0]));
                    }
                    vars.pop();
                    proof {
                        assert forall|q: int| 0 <= q < gvars.len() implies vars.deep_view()[q]
                            == gvars[q] by {
                            assert(vars@[q] == pre_exec[q]);
                            assert(pre_deep[q] == pre_exec[q].deep_view());
                            assert(vars.deep_view()[q] == vars@[q].deep_view());
                        }
                        assert(vars.deep_view() =~~= gvars);
                    }
                },
            }
        }
        if let Some(b) = &self.wildcard_route {
            let r = b.search_wild(method, path, i + 1, vars);
            if r.is_some() {
                return r;
            }
        }
        None
    }

    /// The wildcard's backtracking: the wildcard has consumed the segments
    /// before position `i`; try the lookup from there, and on failure let
    /// the wildcard consume one more segment, until nothing is left.
    fn search_wild<'a>(
        &'a self,
        method: Method,
        path: &Vec<String>,
        i: usize,
        vars: &mut Vec<String>,
    ) -> (res: Option<(&'a T, Parameters)>)
        requires
            i <= path@.len(),
        ensures
            ({
                let expected = wild_search(
                    self@,
                    method,
                    path.deep_view().skip(i as int),
                    old(vars).deep_view(),
                );
                match res {
                    Some(hit) => expected == Some((*hit.0, hit.1@)),
                    None => expected is None && final(vars).deep_view() == old(
                        vars,
                    ).deep_view(),
                }
            }),
        decreases path@.len() - i, 1int,
    {
        let r = self.search(method, path, i, vars);
        if r.is_some() {
            return r;
        }
        if i < path.len() {
            proof {
                assert(path.deep_view().skip(i as int).drop_first() =~~= path.deep_view().skip(
                    i + 1));
            }
            self.search_wild(method, path, i + 1, vars)
        } else {
            None
        }
    }

    /// Finds the item stored for this method under the pattern the path
    /// matches, together with the text each variable segment captured.
    /// Static matches win over variable matches, which win over wildcard
    /// matches, with backtracking: a greedy choice higher up never hides a
    /// match further down. `None` is the ordinary answer for a path no
    /// route matches.
    pub fn find<'a>(&'a self, method: Method, path: &str) -> (res: Option<(&'a T, Parameters)>)
        ensures
            ({
                let expected = node_find(self@, method, path@);
                match res {
                    Some(hit) => expected == Some((*hit.0, hit.1@)),
                    None => expected is None,
                }
            }),
    {
        let segments = path_to_vec(path);
        let mut vars: Vec<String> = Vec::new();
        proof {
            assert(segments.deep_view().skip(0) =~~= segment_path(path@));
            assert(vars.deep_view() =~~= Seq::<Seq<char>>::empty());
        }
        self.search(method, &segments, 0, &mut vars)
    }

    /// Builds a router from an ordered list of routes, registering them
    /// first to last; a later route for the same method and the same tree
    /// position wins.
    pub fn from_routes(routes: Vec<(Method, String, T)>) -> (router: Router<T>)
        ensures
            router@ == node_insert_all(empty_node::<T>(), routes_view(routes@)),
            node_wf(router@),
    {
        proof {
            lemma_empty_node_wf::<T>();
            lemma_routes_wf(empty_node::<T>(), routes_view(routes@));
        }
        let ghost all = routes_view(routes@);
        let mut router = Router::new();
        let mut rest = routes;
        while rest.len() > 0
            invariant
                node_insert_all(empty_node::<T>(), all) == node_insert_all(router@, routes_view(
                    rest@)),
            decreases rest@.len(),
        {
            let ghost before = routes_view(rest@);
            let (method, path, item) = rest.remove(0);
            proof {
                assert(routes_view(rest@) =~~= before.drop_first());
            }
            router.insert_item(method, path.as_str(), item);
        }
        proof {
            assert(routes_view(rest@) =~~= Seq::<(Method, Seq<char>, T)>::empty());
        }
        router
    }

    /// Merge-inserts another router at a path prefix. The other router's
    /// whole contents are merged into the node the prefix leads to, with the
    /// prefix's variable names prepended to the names of every merged item;
    /// nothing already registered is removed, but a merged item overwrites
    /// an item stored for the same method at the same node.
    pub fn insert_router(&mut self, path: &str, router: Router<T>)
        ensures
            final(self)@ == node_insert_router(
                old(self)@,
                segment_path(path@),
                Seq::empty(),
                router@,
            ),
            node_wf(router@) ==> forall|kinds: Seq<SegKind>, m2: Method|
                #[trigger] item_at(
                    final(self)@,
                    kinds_of(segment_path(path@)).add(kinds),
                    m2,
                ) == (match item_at(router@, kinds, m2) {
                    Some(hit) => Some((hit.0, names_of(segment_path(path@)).add(hit.1))),
                    None => item_at(old(self)@, kinds_of(segment_path(path@)).add(kinds), m2),
                }),
            node_wf(old(self)@) && node_wf(router@) ==> node_wf(final(self)@),
    {
        let ghost orig = self@;
        let ghost other = router@;
        let segments = path_to_vec(path);
        let names: Vec<String> = Vec::new();
        proof {
            assert(segments.deep_view().skip(0) =~~= segment_path(path@));
            assert(names.deep_view() =~~= Seq::<Seq<char>>::empty());
        }
        self.insert_router_vec(&segments, 0, names, router);
        proof {
            let segs = segment_path(path@);
            if node_wf(orig) && node_wf(other) {
                crate::laws::lemma_insert_router_preserves_wf(orig, segs, Seq::empty(), other);
            }
            if node_wf(other) {
                assert forall|kinds: Seq<SegKind>, m2: Method|
                    #[trigger] item_at(self@, kinds_of(segs).add(kinds), m2) == (match item_at(
                        other,
                        kinds,
                        m2,
                    ) {
                        Some(hit) => Some((hit.0, names_of(segs).add(hit.1))),
                        None => item_at(orig, kinds_of(segs).add(kinds), m2),
                    }) by {
                    lemma_insert_router_keeps_subtree(orig, segs, Seq::empty(), other, kinds, m2);
                    match item_at(other, kinds, m2) {
                        Some(hit) => {
                            assert(Seq::<Seq<char>>::empty().add(names_of(segs)) =~~= names_of(
                                segs));
                        },
                        None => {},
                    }
                }
            }
        }
    }

    /// Merge-inserts a router at the node reached from the segments at and
    /// after position `i`, with the variable names collected so far.
    fn insert_router_vec(
        &mut self,
        path: &Vec<String>,
        i: usize,
        variable_names: Vec<String>,
        router: Router<T>,
    )
        requires
            i <= path@.len(),
        ensures
            final(self)@ == node_insert_router(
                old(self)@,
                path.deep_view().skip(i as int),
                variable_names.deep_view(),
                router@,
            ),
        decreases path@.len() - i,
    {
        let ghost orig = self@;
        let ghost segs = path.deep_view().skip(i as int);
        if i == path.len() {
            self.merge_router(variable_names, router);
            return ;
        }
        let piece = &path[i];
        proof {
            assert(piece@ == segs[0]);
            assert(segs.drop_first() =~~= path.deep_view().skip(i + 1));
        }
        let mut names = variable_names;
        if is_variable(piece.as_str()) {
            names.push(variable_name(piece.as_str()));
            proof {
                assert(names.deep_view() =~~= variable_names.deep_view().push(seg_name(segs[0])));
            }
        }
        if is_wildcard(piece.as_str()) {
            let taken = self.wildcard_route.take();
            let mut child = match taken {
                Some(b) => *b,
                None => Router::new(),
            };
            proof {
                assert(child@ == child_or_empty(orig, SegKind::Wildcard));
            }
            child.insert_router_vec(path, i + 1, names, router);
            self.wildcard_route = Some(Box::new(child));
            proof {
                assert(kind_of(segs[0]) == SegKind::Wildcard);
                assert(self@ =~~= node_insert_router(orig, segs, variable_names.deep_view(),
                    router@));
            }
        } else if is_variable(piece.as_str()) {
            let taken = self.variable_route.take();
            let mut child = match taken {
                Some(b) => *b,
                None => Router::new(),
            };
            proof {
                assert(child@ == child_or_empty(orig, SegKind::Variable));
            }
            child.insert_router_vec(path, i + 1, names, router);
            self.variable_route = Some(Box::new(child));
            proof {
                assert(kind_of(segs[0]) == SegKind::Variable);
                assert(self@ =~~= node_insert_router(orig, segs, variable_names.deep_view(),
                    router@));
            }
        } else {
            proof {
                assert(kind_of(segs[0]) == SegKind::Literal(segs[0]));
                lemma_statics_view_index(self.static_routes@);
            }
            match find_static(&self.static_routes, piece) {
                Some(j) => {
                    proof {
                        lemma_assoc_node_found(orig.statics, piece@, j as int);
                        assert(child_or_empty(orig, SegKind::Literal(piece@)) == orig.statics[
                            j as int].1);
                    }
                    let mut entry = self.static_routes.remove(j);
                    proof {
                        assert(entry.1@ == orig.statics[j as int].1);
                    }
                    entry.1.insert_router_vec(path, i + 1, names, router);
                    self.static_routes.insert(j, entry);
                    proof {
                        assert(self.static_routes@ =~~= old(self).static_routes@.update(j as int,
                            self.static_routes@[j as int]));
                        lemma_statics_view_index(self.static_routes@);
                        lemma_update_assoc_found(orig.statics, piece@, self.static_routes@[
                            j as int].1@, j as int);
                        assert(self@.statics =~~= orig.statics.update(j as int, (piece@,
                            self.static_routes@[j as int].1@)));
                        assert(self@.statics =~~= update_assoc(orig.statics, piece@,
                            self.static_routes@[j as int].1@));
                        assert(self@ =~~= node_insert_router(orig, segs,
                            variable_names.deep_view(), router@));
                    }
                },
                None => {
                    proof {
                        lemma_assoc_node_missing(orig.statics, piece@);
                    }
                    let mut child = Router::new();
                    child.insert_router_vec(path, i + 1, names, router);
                    self.static_routes.push((piece.clone(), child));
                    proof {
                        lemma_statics_view_index(self.static_routes@);
                        lemma_update_assoc_missing(orig.statics, piece@,
                            self.static_routes@.last().1@);
                        assert(self@.statics =~~= orig.statics.push((piece@,
                            self.static_routes@.last().1@)));
                        assert(self@ =~~= node_insert_router(orig, segs,
                            variable_names.deep_view(), router@));
                    }
                },
            }
        }
    }

    /// Merges another router into this one: its items, with the given name
    /// prefix prepended to their variable names, and all its children,
    /// recursively.
    #[verifier::loop_isolation(false)]
    fn merge_router(&mut self, variable_names: Vec<String>, router: Router<T>)
        ensures
            final(self)@ == node_merge(old(self)@, variable_names.deep_view(), router@),
        decreases router,
    {
        let ghost orig = self@;
        let ghost o = router@;
        let ghost prefix = variable_names.deep_view();
        let ghost rsnap = router;
        let Router {
            items: mut o_items,
            static_routes: mut o_statics,
            variable_route: o_variable,
            wildcard_route: o_wildcard,
        } = router;
        while o_items.len() > 0
            invariant
                merge_items(orig.items, prefix, o.items) == merge_items(
                    self@.items,
                    prefix,
                    items_view(o_items@),
                ),
                self@.statics == orig.statics,
                self@.variable == orig.variable,
                self@.wildcard == orig.wildcard,
                prefix == variable_names.deep_view(),
            decreases o_items@.len(),
        {
            let ghost before = items_view(o_items@);
            let entry = o_items.remove(0);
            proof {
                assert(items_view(o_items@) =~~= before.drop_first());
                assert(before[0] == (entry.0, entry.1, entry.2.deep_view()));
            }
            let combined = variable_names.clone();
            proof {
                lemma_cloned_strings_deep(variable_names, combined);
            }
            let ghost cb = combined;
            let mut combined = combined;
            let mut entry_names = entry.2;
            let ghost en = entry_names;
            combined.append(&mut entry_names);
            proof {
                lemma_deep_concat_strings(cb, en, combined);
                assert(combined.deep_view() == prefix.add(before[0].2));
            }
            self.store_item(entry.0, entry.1, combined);
        }
        proof {
            assert(items_view(o_items@) =~~= Seq::<(Method, T, Seq<Seq<char>>)>::empty());
            assert(self@.items == merge_items(orig.items, prefix, o.items));
        }
        let ghost items_done = self@.items;
        let ghost mut consumed: int = 0;
        proof {
            assert(o_statics@ =~~= rsnap.static_routes@.skip(0));
            assert(statics_view(o_statics@) =~~= o.statics);
        }
        while o_statics.len() > 0
            invariant
                merge_statics(orig.statics, prefix, o.statics) == merge_statics(
                    self@.statics,
                    prefix,
                    statics_view(o_statics@),
                ),
                self@.items == items_done,
                self@.variable == orig.variable,
                self@.wildcard == orig.wildcard,
                prefix == variable_names.deep_view(),
                0 <= consumed <= rsnap.static_routes@.len(),
                o_statics@ =~= rsnap.static_routes@.skip(consumed),
            decreases o_statics@.len(),
        {
            let ghost before = statics_view(o_statics@);
            let ghost statics_before = self@.statics;
            let ghost sr_pre = self.static_routes@;
            let entry = o_statics.remove(0);
            proof {
                assert(statics_view(o_statics@) =~~= before.drop_first());
                assert(entry == rsnap.static_routes@[consumed]);
                assert(before[0] == (entry.0@, entry.1@));
            }
            let key = entry.0;
            let sub = entry.1;
            proof {
                assert(decreases_to!(rsnap => rsnap.static_routes));
                assert(decreases_to!(rsnap.static_routes => rsnap.static_routes@));
                assert(decreases_to!(rsnap.static_routes@ => rsnap.static_routes@[consumed]));
                assert(decreases_to!(rsnap.static_routes@[consumed] => sub));
                lemma_statics_view_index(self.static_routes@);
            }
            match find_static(&self.static_routes, &key) {
                Some(j) => {
                    proof {
                        lemma_assoc_node_found(statics_before, key@, j as int);
                    }
                    let mut entry2 = self.static_routes.remove(j);
                    proof {
                        assert(entry2.1@ == statics_before[j as int].1);
                    }
                    let pnames = variable_names.clone();
                    proof {
                        lemma_cloned_strings_deep(variable_names, pnames);
                    }
                    entry2.1.merge_router(pnames, sub);
                    self.static_routes.insert(j, entry2);
                    proof {
                        assert(self.static_routes@ =~~= sr_pre.update(j as int,
                            self.static_routes@[j as int]));
                        lemma_statics_view_index(self.static_routes@);
                        lemma_update_assoc_found(statics_before, key@, self.static_routes@[
                            j as int].1@, j as int);
                        assert(self@.statics =~~= statics_before.update(j as int, (key@,
                            self.static_routes@[j as int].1@)));
                        assert(self@.statics == update_assoc(statics_before, key@,
                            self.static_routes@[j as int].1@));
                        assert(self.static_routes@[j as int].1@ == node_merge(statics_before[
                            j as int].1, prefix, before[0].1));
                    }
                },
                None => {
                    proof {
                        lemma_assoc_node_missing(statics_before, key@);
                    }
                    let pnames = variable_names.clone();
                    proof {
                        lemma_cloned_strings_deep(variable_names, pnames);
                    }
                    let mut child = Router::new();
                    child.merge_router(pnames, sub);
                    self.static_routes.push((key, child));
                    proof {
                        lemma_statics_view_index(self.static_routes@);
                        lemma_update_assoc_missing(statics_before, key@,
                            self.static_routes@.last().1@);
                        assert(self@.statics =~~= statics_before.push((key@,
                            self.static_routes@.last().1@)));
                        assert(self@.statics == update_assoc(statics_before, key@,
                            self.static_routes@.last().1@));
                        assert(self.static_routes@.last().1@ == node_merge(empty_node::<T>(),
                            prefix, before[0].1));
                    }
                },
            }
            proof {
                consumed = consumed + 1;
                assert(o_statics@ =~= rsnap.static_routes@.skip(consumed));
            }
        }
        proof {
            assert(statics_view(o_statics@) =~~= Seq::<(Seq<char>, RouteNode<T>)>::empty());
            assert(self@.statics == merge_statics(orig.statics, prefix, o.statics));
        }
        if let Some(b) = o_variable {
            proof {
                assert(decreases_to!(rsnap => rsnap.variable_route));
                assert(decreases_to!(rsnap.variable_route => *b));
            }
            let taken = self.variable_route.take();
            let mut child = match taken {
                Some(c) => *c,
                None => Router::new(),
            };
            let pnames = variable_names.clone();
            proof {
                lemma_cloned_strings_deep(variable_names, pnames);
            }
            child.merge_router(pnames, *b);
            self.variable_route = Some(Box::new(child));
        }
        if let Some(b) = o_wildcard {
            proof {
                assert(decreases_to!(rsnap => rsnap.wildcard_route));
                assert(decreases_to!(rsnap.wildcard_route => *b));
            }
            let taken = self.wildcard_route.take();
            let mut child = match taken {
                Some(c) => *c,
                None => Router::new(),
            };
            child.merge_router(variable_names, *b);
            self.wildcard_route = Some(Box::new(child));
        }
        proof {
            assert(self@ =~~= node_merge(orig, prefix, o));
        }
    }
}

/// The routes list as the model sees it: each path as its text.
pub open spec fn routes_view<T>(routes: Seq<(Method, String, T)>) -> Seq<(Method, Seq<char>, T)> {
    routes.map_values(|r: (Method, String, T)| (r.0, r.1@, r.2))
}

/// Storing an item for a method that first occurs at this position updates
/// that position.
proof fn lemma_set_item_found<T>(
    items: Seq<(Method, T, Seq<Seq<char>>)>,
    m: Method,
    t: T,
    names: Seq<Seq<char>>,
    i: int,
)
    requires
        0 <= i < items.len(),
        items[i].0 == m,
        forall|j: int| 0 <= j < i ==> items[j].0 != m,
    ensures
        set_item(items, m, t, names) == items.update(i, (m, t, names)),
    decreases i,
{
    if i == 0 {
        assert(set_item(items, m, t, names) =~~= items.update(0, (m, t, names)));
    } else {
        lemma_set_item_found(items.drop_first(), m, t, names, i - 1);
        assert(set_item(items, m, t, names) =~~= items.update(i, (m, t, names)));
    }
}

/// Storing an item for a method that occurs nowhere appends at the end.
proof fn lemma_set_item_absent<T>(
    items: Seq<(Method, T, Seq<Seq<char>>)>,
    m: Method,
    t: T,
    names: Seq<Seq<char>>,
)
    requires
        forall|j: int| 0 <= j < items.len() ==> items[j].0 != m,
    ensures
        set_item(items, m, t, names) == items.push((m, t, names)),
    decreases items.len(),
{
    if items.len() == 0 {
        assert(set_item(items, m, t, names) =~~= items.push((m, t, names)));
    } else {
        lemma_set_item_absent(items.drop_first(), m, t, names);
        assert(set_item(items, m, t, names) =~~= items.push((m, t, names)));
    }
}

/// A method that first occurs at this position answers the item lookup.
proof fn lemma_item_of_found<T>(items: Seq<(Method, T, Seq<Seq<char>>)>, m: Method, i: int)
    requires
        0 <= i < items.len(),
        items[i].0 == m,
        forall|j: int| 0 <= j < i ==> items[j].0 != m,
    ensures
        item_of(items, m) == Some((items[i].1, items[i].2)),
    decreases i,
{
    if i > 0 {
        lemma_item_of_found(items.drop_first(), m, i - 1);
    }
}

/// A method that occurs nowhere answers the item lookup with nothing.
proof fn lemma_item_of_missing<T>(items: Seq<(Method, T, Seq<Seq<char>>)>, m: Method)
    requires
        forall|j: int| 0 <= j < items.len() ==> items[j].0 != m,
    ensures
        item_of(items, m) is None,
    decreases items.len(),
{
    if items.len() > 0 {
        lemma_item_of_missing(items.drop_first(), m);
    }
}

/// A key that first occurs at this position answers the lookup there.
proof fn lemma_assoc_node_found<T>(statics: Seq<(Seq<char>, RouteNode<T>)>, key: Seq<char>, i: int)
    requires
        0 <= i < statics.len(),
        statics[i].0 == key,
        forall|j: int| 0 <= j < i ==> statics[j].0 != key,
    ensures
        crate::tree::assoc_node(statics, key) == Some(statics[i].1),
    decreases i,
{
    if i > 0 {
        lemma_assoc_node_found(statics.drop_first(), key, i - 1);
    }
}

/// A key that occurs nowhere answers the lookup with nothing.
proof fn lemma_assoc_node_missing<T>(statics: Seq<(Seq<char>, RouteNode<T>)>, key: Seq<char>)
    requires
        forall|j: int| 0 <= j < statics.len() ==> statics[j].0 != key,
    ensures
        crate::tree::assoc_node(statics, key) is None,
    decreases statics.len(),
{
    if statics.len() > 0 {
        lemma_assoc_node_missing(statics.drop_first(), key);
    }
}

/// Replacing the child of a key that first occurs at this position updates
/// that position.
proof fn lemma_update_assoc_found<T>(
    statics: Seq<(Seq<char>, RouteNode<T>)>,
    key: Seq<char>,
    c: RouteNode<T>,
    i: int,
)
    requires
        0 <= i < statics.len(),
        statics[i].0 == key,
        forall|j: int| 0 <= j < i ==> statics[j].0 != key,
    ensures
        update_assoc(statics, key, c) == statics.update(i, (key, c)),
    decreases i,
{
    if i == 0 {
        assert(update_assoc(statics, key, c) =~~= statics.update(0, (key, c)));
    } else {
        lemma_update_assoc_found(statics.drop_first(), key, c, i - 1);
        assert(update_assoc(statics, key, c) =~~= statics.update(i, (key, c)));
    }
}

/// A clone of a vector of strings holds the same text.
proof fn lemma_cloned_strings_deep(a: Vec<String>, b: Vec<String>)
    requires
        a@.len() == b@.len(),
        forall|i: int| #![all_triggers] 0 <= i < a@.len() ==> cloned::<String>(a@[i], b@[i]),
    ensures
        b.deep_view() == a.deep_view(),
{
    assert forall|i: int| 0 <= i < a@.len() implies a.deep_view()[i] == b.deep_view()[i] by {
        assert(cloned::<String>(a@[i], b@[i]));
        assert(b@[i]@ == a@[i]@);
        assert(a.deep_view()[i] == a@[i]@);
        assert(b.deep_view()[i] == b@[i]@);
    }
    assert(b.deep_view() =~~= a.deep_view());
}

/// The text of a concatenation is the concatenation of the texts.
proof fn lemma_deep_concat_strings(a: Vec<String>, b: Vec<String>, c: Vec<String>)
    requires
        c@ == a@ + b@,
    ensures
        c.deep_view() == a.deep_view() + b.deep_view(),
{
    assert forall|q: int| 0 <= q < c@.len() implies c.deep_view()[q] == (a.deep_view()
        + b.deep_view())[q] by {
        assert(c.deep_view()[q] == c@[q]@);
        if q < a@.len() {
            assert(c@[q] == a@[q]);
            assert(a.deep_view()[q] == a@[q]@);
        } else {
            assert(c@[q] == b@[q - a@.len()]);
            assert(b.deep_view()[q - a@.len()] == b@[q - a@.len()]@);
        }
    }
    assert(c.deep_view() =~~= a.deep_view() + b.deep_view());
}

/// Replacing the child of a key that occurs nowhere appends at the end.
proof fn lemma_update_assoc_missing<T>(
    statics: Seq<(Seq<char>, RouteNode<T>)>,
    key: Seq<char>,
    c: RouteNode<T>,
)
    requires
        forall|j: int| 0 <= j < statics.len() ==> statics[j].0 != key,
    ensures
        update_assoc(statics, key, c) == statics.push((key, c)),
    decreases statics.len(),
{
    if statics.len() == 0 {
        assert(update_assoc(statics, key, c) =~~= statics.push((key, c)));
    } else {
        lemma_update_assoc_missing(statics.drop_first(), key, c);
        assert(update_assoc(statics, key, c) =~~= statics.push((key, c)));
    }
}

} // verus!

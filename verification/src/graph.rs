//! The workspace dependency graph and the reachability closure over it.
//!
//! A node is a workspace package name; an edge says "depends on", restricted
//! to targets that are themselves workspace packages. The keep set of a
//! reduction is the set of names transitively reachable from the root set.

use vstd::prelude::*;

use crate::recipe::{ManifestView, Recipe};
use crate::toml_ops::{crate_name_of, dep_keys_of, extract_crate_name, manifest_dep_names};

verus! {

broadcast use vstd::seq_lib::group_seq_lib_default;

/// One node of the dependency graph: a package name and the names of the
/// workspace packages it depends on.
pub struct GraphEntry {
    pub name: String,
    pub deps: Vec<String>,
}

/// The mathematical value of a [`GraphEntry`].
pub ghost struct GraphEntryView {
    pub name: Seq<char>,
    pub deps: Seq<Seq<char>>,
}

impl View for GraphEntry {
    type V = GraphEntryView;

    open spec fn view(&self) -> GraphEntryView {
        GraphEntryView { name: self.name@, deps: self.deps.deep_view() }
    }
}

/// The entry views of an entry collection.
pub open spec fn entry_views(es: Seq<GraphEntry>) -> Seq<GraphEntryView> {
    es.map_values(|e: GraphEntry| e@)
}

/// The map that an entry collection denotes: each entry's name maps to the
/// set of its dependency names.
pub open spec fn entries_map(es: Seq<GraphEntryView>) -> Map<Seq<char>, Set<Seq<char>>>
    decreases es.len(),
{
    if es.len() == 0 {
        Map::empty()
    } else {
        entries_map(es.drop_last()).insert(es.last().name, es.last().deps.to_set())
    }
}

/// The dependency graph: a mapping from workspace package name to the set of
/// workspace package names it depends on.
pub struct DepGraph {
    pub entries: Vec<GraphEntry>,
}

impl View for DepGraph {
    type V = Map<Seq<char>, Set<Seq<char>>>;

    open spec fn view(&self) -> Map<Seq<char>, Set<Seq<char>>> {
        entries_map(entry_views(self.entries@))
    }
}

impl DepGraph {
    /// Each package has at most one entry.
    pub open spec fn wf(self) -> bool {
        forall|i: int, j: int|
            0 <= i < j < self.entries@.len() ==> self.entries@[i]@.name != self.entries@[j]@.name
    }
}

/// The domain of an entry collection's map is exactly the set of its entry
/// names.
pub proof fn lemma_entries_map_dom(es: Seq<GraphEntryView>)
    ensures
        forall|n: Seq<char>|
            #[trigger] entries_map(es).dom().contains(n) <==> exists|i: int|
                0 <= i < es.len() && es[i].name == n,
    decreases es.len(),
{
    if es.len() > 0 {
        lemma_entries_map_dom(es.drop_last());
        assert forall|n: Seq<char>| #[trigger]
            entries_map(es).dom().contains(n) implies exists|i: int|
            0 <= i < es.len() && es[i].name == n by {
            if es.last().name == n {
                assert(es[es.len() - 1].name == n);
            } else {
                assert(entries_map(es.drop_last()).dom().contains(n));
                let i = choose|i: int| 0 <= i < es.drop_last().len() && es.drop_last()[i].name == n;
                assert(es.drop_last()[i] == es[i]);
                assert(es[i].name == n);
            }
        }
        assert forall|n: Seq<char>|
            (exists|i: int| 0 <= i < es.len() && es[i].name == n) implies #[trigger]
            entries_map(es).dom().contains(n) by {
            let i = choose|i: int| 0 <= i < es.len() && es[i].name == n;
            if i < es.len() - 1 {
                assert(es.drop_last()[i] == es[i]);
                assert(es.drop_last()[i].name == n);
                assert(entries_map(es.drop_last()).dom().contains(n));
            } else {
                assert(es.last().name == n);
            }
        }
    }
}

/// In a collection with pairwise distinct names, each entry's name maps to
/// that entry's dependency set.
pub proof fn lemma_entries_map_index(es: Seq<GraphEntryView>, i: int)
    requires
        forall|k: int, j: int| 0 <= k < j < es.len() ==> es[k].name != es[j].name,
        0 <= i < es.len(),
    ensures
        entries_map(es).dom().contains(es[i].name),
        entries_map(es)[es[i].name] == es[i].deps.to_set(),
    decreases es.len(),
{
    if i == es.len() - 1 {
        assert(es.last() == es[i]);
    } else {
        lemma_entries_map_index(es.drop_last(), i);
        assert(es.drop_last()[i] == es[i]);
        assert(es.last().name != es[i].name);
    }
}

/// Whether a name is a member of a name list, by linear scan.
pub fn contains_name(names: &Vec<String>, name: &String) -> (r: bool)
    ensures
        r == names.deep_view().to_set().contains(name@),
{
    let mut i: usize = 0;
    while i < names.len()
        invariant
            0 <= i <= names.len(),
            forall|j: int| 0 <= j < i ==> names.deep_view()[j] != name@,
        decreases names.len() - i,
    {
        if names[i] == *name {
            assert(names.deep_view()[i as int] == name@);
            assert(names.deep_view().contains(name@));
            return true;
        }
        i += 1;
    }
    assert(!names.deep_view().contains(name@));
    false
}

impl DepGraph {
    /// The dependency set recorded for a name, if the name is a node of the
    /// graph.
    pub fn lookup(&self, name: &String) -> (r: Option<&Vec<String>>)
        requires
            self.wf(),
        ensures
            match r {
                Some(ds) => self@.dom().contains(name@) && ds.deep_view().to_set() == self@[name@],
                None => !self@.dom().contains(name@),
            },
    {
        let ghost es = entry_views(self.entries@);
        let mut i: usize = 0;
        while i < self.entries.len()
            invariant
                0 <= i <= self.entries@.len(),
                es == entry_views(self.entries@),
                self.wf(),
                forall|j: int| 0 <= j < i ==> es[j].name != name@,
            decreases self.entries@.len() - i,
        {
            if self.entries[i].name == *name {
                proof {
                    lemma_entries_map_index(es, i as int);
                }
                return Some(&self.entries[i].deps);
            }
            i += 1;
        }
        proof {
            lemma_entries_map_dom(es);
        }
        None
    }
}

/// There is a dependency edge from `a` to `b` in the graph.
pub open spec fn graph_edge(g: Map<Seq<char>, Set<Seq<char>>>, a: Seq<char>, b: Seq<char>) -> bool {
    g.dom().contains(a) && g[a].contains(b)
}

/// `p` is a dependency path: it starts at a root and each step follows a
/// graph edge.
pub open spec fn is_dep_path(
    g: Map<Seq<char>, Set<Seq<char>>>,
    roots: Set<Seq<char>>,
    p: Seq<Seq<char>>,
) -> bool {
    &&& p.len() > 0
    &&& roots.contains(p[0])
    &&& forall|i: int| 0 <= i < p.len() - 1 ==> #[trigger] graph_edge(g, p[i], p[i + 1])
}

/// `c` is reachable from the root set by zero or more dependency edges.
pub open spec fn reachable(
    g: Map<Seq<char>, Set<Seq<char>>>,
    roots: Set<Seq<char>>,
    c: Seq<char>,
) -> bool {
    exists|p: Seq<Seq<char>>| is_dep_path(g, roots, p) && p.last() == c
}

/// The set of names reachable from the root set: the least set that contains
/// the roots and is closed under the graph's edges.
pub open spec fn reachable_set(g: Map<Seq<char>, Set<Seq<char>>>, roots: Set<Seq<char>>) -> Set<
    Seq<char>,
> {
    Set::new(|c: Seq<char>| reachable(g, roots, c))
}

/// Every root is reachable, by the path of length one.
pub proof fn lemma_root_reachable(
    g: Map<Seq<char>, Set<Seq<char>>>,
    roots: Set<Seq<char>>,
    r: Seq<char>,
)
    requires
        roots.contains(r),
    ensures
        reachable(g, roots, r),
{
    let p = seq![r];
    assert(is_dep_path(g, roots, p) && p.last() == r);
}

/// Reachability is closed under one more edge.
pub proof fn lemma_step_reachable(
    g: Map<Seq<char>, Set<Seq<char>>>,
    roots: Set<Seq<char>>,
    a: Seq<char>,
    b: Seq<char>,
)
    requires
        reachable(g, roots, a),
        graph_edge(g, a, b),
    ensures
        reachable(g, roots, b),
{
    let p = choose|p: Seq<Seq<char>>| is_dep_path(g, roots, p) && p.last() == a;
    let q = p.push(b);
    assert forall|i: int| 0 <= i < q.len() - 1 implies #[trigger] graph_edge(g, q[i], q[i + 1]) by {
        if i < p.len() - 1 {
            assert(q[i] == p[i]);
            assert(q[i + 1] == p[i + 1]);
            assert(graph_edge(g, p[i], p[i + 1]));
        } else {
            assert(q[i] == p.last());
            assert(q[i + 1] == b);
        }
    }
    assert(is_dep_path(g, roots, q) && q.last() == b);
}

/// The last name of a dependency path lies in every set that contains the
/// roots and is closed under the graph's edges.
proof fn lemma_path_end_in_closed(
    g: Map<Seq<char>, Set<Seq<char>>>,
    roots: Set<Seq<char>>,
    ks: Set<Seq<char>>,
    p: Seq<Seq<char>>,
)
    requires
        forall|r: Seq<char>| roots.contains(r) ==> ks.contains(r),
        forall|a: Seq<char>, b: Seq<char>|
            ks.contains(a) && #[trigger] graph_edge(g, a, b) ==> ks.contains(b),
        is_dep_path(g, roots, p),
    ensures
        ks.contains(p.last()),
    decreases p.len(),
{
    if p.len() == 1 {
        assert(p.last() == p[0]);
    } else {
        let q = p.drop_last();
        assert forall|i: int| 0 <= i < q.len() - 1 implies #[trigger] graph_edge(g, q[i], q[i + 1]) by {
            assert(q[i] == p[i]);
            assert(q[i + 1] == p[i + 1]);
            assert(graph_edge(g, p[i], p[i + 1]));
        }
        assert(is_dep_path(g, roots, q));
        lemma_path_end_in_closed(g, roots, ks, q);
        let i = p.len() - 2;
        assert(q.last() == p[i]);
        assert(graph_edge(g, p[i], p[i + 1]));
        assert(p.last() == p[i + 1]);
    }
}

/// Every set that contains the roots and is closed under the graph's edges
/// contains everything reachable.
pub proof fn lemma_reachable_in_closed(
    g: Map<Seq<char>, Set<Seq<char>>>,
    roots: Set<Seq<char>>,
    ks: Set<Seq<char>>,
    c: Seq<char>,
)
    requires
        forall|r: Seq<char>| roots.contains(r) ==> ks.contains(r),
        forall|a: Seq<char>, b: Seq<char>|
            ks.contains(a) && #[trigger] graph_edge(g, a, b) ==> ks.contains(b),
        reachable(g, roots, c),
    ensures
        ks.contains(c),
{
    let p = choose|p: Seq<Seq<char>>| is_dep_path(g, roots, p) && p.last() == c;
    lemma_path_end_in_closed(g, roots, ks, p);
}

/// All names that occur in an entry collection, as node or as dependency.
pub open spec fn graph_names(es: Seq<GraphEntryView>) -> Set<Seq<char>>
    decreases es.len(),
{
    if es.len() == 0 {
        Set::<Seq<char>>::empty()
    } else {
        graph_names(es.drop_last()).insert(es.last().name).union(es.last().deps.to_set())
    }
}

/// The name set of an entry collection is finite.
pub proof fn lemma_graph_names_finite(es: Seq<GraphEntryView>)
    ensures
        graph_names(es).finite(),
    decreases es.len(),
{
    if es.len() > 0 {
        lemma_graph_names_finite(es.drop_last());
    }
}

/// Every node of the entry collection's map, and every edge target, is in
/// its name set.
pub proof fn lemma_graph_names_cover(es: Seq<GraphEntryView>)
    ensures
        forall|a: Seq<char>|
            #[trigger] entries_map(es).dom().contains(a) ==> graph_names(es).contains(a),
        forall|a: Seq<char>, b: Seq<char>|
            #[trigger] graph_edge(entries_map(es), a, b) ==> graph_names(es).contains(b),
    decreases es.len(),
{
    if es.len() > 0 {
        lemma_graph_names_cover(es.drop_last());
        let prev = entries_map(es.drop_last());
        let prevn = graph_names(es.drop_last());
        assert forall|a: Seq<char>| #[trigger]
            entries_map(es).dom().contains(a) implies graph_names(es).contains(a) by {
            if a != es.last().name {
                assert(prev.dom().contains(a));
            }
        }
        assert forall|a: Seq<char>, b: Seq<char>| #[trigger]
            graph_edge(entries_map(es), a, b) implies graph_names(es).contains(b) by {
            if a == es.last().name {
                assert(entries_map(es)[a] == es.last().deps.to_set());
                assert(es.last().deps.to_set().contains(b));
            } else {
                assert(prev.dom().contains(a));
                assert(entries_map(es)[a] == prev[a]);
                assert(graph_edge(prev, a, b));
            }
        }
    }
}

/// Append every element of `items` to `stack`.
fn push_all(stack: &mut Vec<String>, items: &Vec<String>)
    ensures
        final(stack).deep_view() == old(stack).deep_view() + items.deep_view(),
{
    let mut j: usize = 0;
    while j < items.len()
        invariant
            0 <= j <= items@.len(),
            stack.deep_view() == old(stack).deep_view() + items.deep_view().take(j as int),
        decreases items@.len() - j,
    {
        let ghost pre = stack.deep_view();
        stack.push(items[j].clone());
        proof {
            assert(stack.deep_view() =~= pre.push(items.deep_view()[j as int]));
            assert(items.deep_view().take(j + 1) =~= items.deep_view().take(j as int).push(
                items.deep_view()[j as int],
            ));
        }
        j += 1;
    }
    proof {
        assert(items.deep_view().take(items@.len() as int) =~= items.deep_view());
    }
}

/// Compute the set of workspace members transitively reachable from the root
/// members: the keep set of the reduction. Dependency cycles are harmless;
/// the visited check stops them.
pub fn compute_transitive_members(root_members: &Vec<String>, deps: &DepGraph) -> (keep: Vec<
    String,
>)
    requires
        deps.wf(),
    ensures
        keep.deep_view().to_set() == reachable_set(deps@, root_members.deep_view().to_set()),
{
    let ghost g = deps@;
    let ghost rset = root_members.deep_view().to_set();
    let ghost univ = graph_names(entry_views(deps.entries@)).union(rset);
    proof {
        lemma_graph_names_finite(entry_views(deps.entries@));
        lemma_graph_names_cover(entry_views(deps.entries@));
        assert(univ.finite());
    }

    let mut keep: Vec<String> = Vec::new();
    let mut stack: Vec<String> = Vec::new();
    let mut i: usize = 0;
    while i < root_members.len()
        invariant
            0 <= i <= root_members@.len(),
            stack.deep_view() == root_members.deep_view().take(i as int),
        decreases root_members@.len() - i,
    {
        let ghost pre = stack.deep_view();
        stack.push(root_members[i].clone());
        proof {
            assert(stack.deep_view() =~= pre.push(root_members.deep_view()[i as int]));
            assert(root_members.deep_view().take(i + 1) =~= root_members.deep_view().take(
                i as int,
            ).push(root_members.deep_view()[i as int]));
        }
        i += 1;
    }
    proof {
        assert(root_members.deep_view().take(root_members@.len() as int)
            =~= root_members.deep_view());
        assert(stack.deep_view() =~= root_members.deep_view());
        assert forall|n: Seq<char>| #[trigger]
            stack.deep_view().to_set().contains(n) implies reachable(g, rset, n)
            && univ.contains(n) by {
            assert(rset.contains(n));
            lemma_root_reachable(g, rset, n);
        }
        assert forall|n: Seq<char>| #[trigger]
            rset.contains(n) implies stack.deep_view().to_set().contains(n) by {}
    }

    while stack.len() > 0
        invariant
            deps.wf(),
            g == deps@,
            rset == root_members.deep_view().to_set(),
            univ == graph_names(entry_views(deps.entries@)).union(rset),
            univ.finite(),
            forall|n: Seq<char>|
                #[trigger] keep.deep_view().to_set().contains(n) ==> reachable(g, rset, n),
            forall|n: Seq<char>|
                #[trigger] stack.deep_view().to_set().contains(n) ==> reachable(g, rset, n),
            forall|n: Seq<char>|
                #[trigger] rset.contains(n) ==> keep.deep_view().to_set().contains(n)
                    || stack.deep_view().to_set().contains(n),
            forall|a: Seq<char>, b: Seq<char>|
                keep.deep_view().to_set().contains(a) && #[trigger] graph_edge(g, a, b)
                    ==> keep.deep_view().to_set().contains(b) || stack.deep_view().to_set().contains(
                    b,
                ),
            forall|n: Seq<char>| #[trigger] keep.deep_view().to_set().contains(n) ==> univ.contains(n),
            forall|n: Seq<char>|
                #[trigger] stack.deep_view().to_set().contains(n) ==> univ.contains(n),
        decreases univ.difference(keep.deep_view().to_set()).len(), stack@.len(),
    {
        let ghost old_keep = keep.deep_view();
        let ghost old_stack = stack.deep_view();
        let member = stack.pop().unwrap();
        proof {
            assert(stack.deep_view() =~= old_stack.drop_last());
            assert(member@ == old_stack.last());
            assert(old_stack =~= stack.deep_view().push(member@));
            assert(old_stack.to_set().contains(member@));
            assert forall|n: Seq<char>| #[trigger]
                old_stack.to_set().contains(n) implies stack.deep_view().to_set().contains(n) || n
                == member@ by {
                let k = choose|k: int| 0 <= k < old_stack.len() && old_stack[k] == n;
                if k < old_stack.len() - 1 {
                    assert(stack.deep_view()[k] == n);
                    assert(stack.deep_view().contains(n));
                }
            }
            assert forall|n: Seq<char>| #[trigger]
                stack.deep_view().to_set().contains(n) implies old_stack.to_set().contains(n) by {
                let k = choose|k: int| 0 <= k < stack.deep_view().len() && stack.deep_view()[k] == n;
                assert(old_stack[k] == n);
            }
        }
        if !contains_name(&keep, &member) {
            keep.push(member.clone());
            proof {
                assert(keep.deep_view() =~= old_keep.push(member@));
                assert forall|n: Seq<char>| #[trigger]
                    keep.deep_view().to_set().contains(n) implies old_keep.to_set().contains(n) || n
                    == member@ by {
                    let k = choose|k: int|
                        0 <= k < keep.deep_view().len() && keep.deep_view()[k] == n;
                    if k < keep.deep_view().len() - 1 {
                        assert(old_keep[k] == n);
                    }
                }
                assert(keep.deep_view().to_set().contains(member@)) by {
                    assert(keep.deep_view().last() == member@);
                    assert(keep.deep_view().contains(member@));
                }
                assert forall|n: Seq<char>| #[trigger]
                    old_keep.to_set().contains(n) implies keep.deep_view().to_set().contains(n) by {
                    let k = choose|k: int| 0 <= k < old_keep.len() && old_keep[k] == n;
                    assert(keep.deep_view()[k] == n);
                }
                // the first component of the measure shrinks
                assert(univ.contains(member@));
                assert(!old_keep.to_set().contains(member@));
                univ.lemma_set_insert_diff_decreases(old_keep.to_set(), member@);
                assert(keep.deep_view().to_set() =~= old_keep.to_set().insert(member@));
            }
            let ghost mid_keep = keep.deep_view();
            let ghost mid_stack = stack.deep_view();
            match deps.lookup(&member) {
                Some(ds) => {
                    push_all(&mut stack, ds);
                    proof {
                        assert forall|n: Seq<char>| #[trigger]
                            stack.deep_view().to_set().contains(n) implies mid_stack.to_set().contains(
                            n,
                        ) || ds.deep_view().to_set().contains(n) by {
                            let k = choose|k: int|
                                0 <= k < stack.deep_view().len() && stack.deep_view()[k] == n;
                            if k < mid_stack.len() {
                                assert(mid_stack[k] == n);
                            } else {
                                assert(ds.deep_view()[k - mid_stack.len()] == n);
                                assert(ds.deep_view().contains(n));
                            }
                        }
                        assert forall|n: Seq<char>| #[trigger]
                            mid_stack.to_set().contains(n)
                                || ds.deep_view().to_set().contains(n) implies stack.deep_view().to_set().contains(
                            n,
                        ) by {
                            if mid_stack.to_set().contains(n) {
                                let k = choose|k: int|
                                    0 <= k < mid_stack.len() && mid_stack[k] == n;
                                assert(stack.deep_view()[k] == n);
                            } else {
                                let k = choose|k: int|
                                    0 <= k < ds.deep_view().len() && ds.deep_view()[k] == n;
                                assert(stack.deep_view()[mid_stack.len() + k] == n);
                            }
                        }
                        assert(stack.deep_view().to_set() =~= mid_stack.to_set().union(
                            ds.deep_view().to_set(),
                        ));
                        lemma_graph_names_cover(entry_views(deps.entries@));
                        assert forall|n: Seq<char>| #[trigger]
                            ds.deep_view().to_set().contains(n) implies reachable(g, rset, n)
                            && univ.contains(n) by {
                            assert(graph_edge(g, member@, n));
                            lemma_step_reachable(g, rset, member@, n);
                            assert(graph_names(entry_views(deps.entries@)).contains(n));
                        }
                        assert forall|a: Seq<char>, b: Seq<char>|
                            keep.deep_view().to_set().contains(a) && #[trigger] graph_edge(
                                g,
                                a,
                                b,
                            ) implies keep.deep_view().to_set().contains(b)
                            || stack.deep_view().to_set().contains(b) by {
                            if a == member@ {
                                assert(g[member@].contains(b));
                                assert(ds.deep_view().to_set().contains(b));
                            } else {
                                assert(old_keep.to_set().contains(a));
                            }
                        }
                    }
                },
                None => {
                    proof {
                        assert forall|a: Seq<char>, b: Seq<char>|
                            keep.deep_view().to_set().contains(a) && #[trigger] graph_edge(
                                g,
                                a,
                                b,
                            ) implies keep.deep_view().to_set().contains(b)
                            || stack.deep_view().to_set().contains(b) by {
                            if a == member@ {
                                assert(g.dom().contains(a));
                            } else {
                                assert(old_keep.to_set().contains(a));
                            }
                        }
                    }
                },
            }
        } else {
            proof {
                assert(keep.deep_view().to_set().contains(member@));
            }
        }
    }
    proof {
        assert(stack.deep_view().to_set() =~= Set::<Seq<char>>::empty()) by {
            assert(stack.deep_view().len() == 0);
            assert forall|n: Seq<char>| !(#[trigger] stack.deep_view().to_set().contains(n)) by {
                if stack.deep_view().to_set().contains(n) {
                    let k = choose|k: int|
                        0 <= k < stack.deep_view().len() && stack.deep_view()[k] == n;
                }
            }
        }
        let kset = keep.deep_view().to_set();
        assert forall|c: Seq<char>| #[trigger]
            reachable_set(g, rset).contains(c) implies kset.contains(c) by {
            lemma_reachable_in_closed(g, rset, kset, c);
        }
        assert(kset =~= reachable_set(g, rset));
    }
    keep
}

/// Pushing an element and converting to a set is inserting into the set.
pub proof fn lemma_to_set_push<A>(s: Seq<A>, x: A)
    ensures
        s.push(x).to_set() == s.to_set().insert(x),
{
    assert forall|n: A| #[trigger] s.push(x).to_set().contains(n) implies s.to_set().contains(n)
        || n == x by {
        let k = choose|k: int| 0 <= k < s.push(x).len() && s.push(x)[k] == n;
        if k < s.len() {
            assert(s[k] == n);
        }
    }
    assert forall|n: A| #[trigger] s.to_set().contains(n) implies s.push(x).to_set().contains(n) by {
        let k = choose|k: int| 0 <= k < s.len() && s[k] == n;
        assert(s.push(x)[k] == n);
    }
    assert(s.push(x).last() == x);
    assert(s.push(x).contains(x));
    assert(s.push(x).to_set() =~= s.to_set().insert(x));
}

/// The workspace-restricted dependency graph that a manifest collection
/// denotes: each manifest with a package name contributes a node (the first
/// manifest wins if two declare the same name), mapped to its dependency
/// keys restricted to the given member-name set. A manifest without an
/// extractable name contributes nothing.
pub open spec fn graph_of(ms: Seq<ManifestView>, all: Set<Seq<char>>) -> Map<
    Seq<char>,
    Set<Seq<char>>,
>
    decreases ms.len(),
{
    if ms.len() == 0 {
        Map::<Seq<char>, Set<Seq<char>>>::empty()
    } else {
        let prev = graph_of(ms.drop_last(), all);
        match crate_name_of(ms.last().contents) {
            Some(n) => if prev.dom().contains(n) {
                prev
            } else {
                prev.insert(n, dep_keys_of(ms.last().contents).to_set().intersect(all))
            },
            None => prev,
        }
    }
}

/// Every edge of the graph that a manifest collection denotes points at a
/// member of the restricting name set.
pub proof fn lemma_graph_of_targets(ms: Seq<ManifestView>, all: Set<Seq<char>>)
    ensures
        forall|a: Seq<char>, b: Seq<char>|
            #[trigger] graph_edge(graph_of(ms, all), a, b) ==> all.contains(b),
    decreases ms.len(),
{
    if ms.len() > 0 {
        lemma_graph_of_targets(ms.drop_last(), all);
        let prev = graph_of(ms.drop_last(), all);
        let g = graph_of(ms, all);
        assert forall|a: Seq<char>, b: Seq<char>| #[trigger]
            graph_edge(g, a, b) implies all.contains(b) by {
            match crate_name_of(ms.last().contents) {
                Some(n) => {
                    if !prev.dom().contains(n) && a == n {
                        assert(g[a] == dep_keys_of(ms.last().contents).to_set().intersect(all));
                    } else {
                        assert(graph_edge(prev, a, b));
                    }
                },
                None => {
                    assert(graph_edge(prev, a, b));
                },
            }
        }
    }
}

/// A name reachable over such a graph is a root or a member of the
/// restricting name set.
pub proof fn lemma_reachable_target(
    ms: Seq<ManifestView>,
    all: Set<Seq<char>>,
    roots: Set<Seq<char>>,
    c: Seq<char>,
)
    requires
        reachable(graph_of(ms, all), roots, c),
    ensures
        roots.contains(c) || all.contains(c),
{
    let g = graph_of(ms, all);
    let p = choose|p: Seq<Seq<char>>| is_dep_path(g, roots, p) && p.last() == c;
    if p.len() == 1 {
        assert(p.last() == p[0]);
    } else {
        let i = p.len() - 2;
        assert(graph_edge(g, p[i], p[i + 1]));
        assert(p.last() == p[i + 1]);
        lemma_graph_of_targets(ms, all);
    }
}

/// The members of `names` that are also members of `all_members`.
fn retain_known(names: &Vec<String>, all_members: &Vec<String>) -> (r: Vec<String>)
    ensures
        r.deep_view().to_set() == names.deep_view().to_set().intersect(
            all_members.deep_view().to_set(),
        ),
{
    let ghost allset = all_members.deep_view().to_set();
    let mut r: Vec<String> = Vec::new();
    let mut i: usize = 0;
    while i < names.len()
        invariant
            0 <= i <= names@.len(),
            allset == all_members.deep_view().to_set(),
            r.deep_view().to_set() == names.deep_view().take(i as int).to_set().intersect(allset),
        decreases names@.len() - i,
    {
        let ghost pre = r.deep_view();
        let ghost x = names.deep_view()[i as int];
        let keep_it = contains_name(all_members, &names[i]);
        if keep_it {
            r.push(names[i].clone());
            proof {
                assert(r.deep_view() =~= pre.push(x));
                lemma_to_set_push(pre, x);
            }
        }
        proof {
            assert(names.deep_view().take(i + 1) =~= names.deep_view().take(i as int).push(x));
            lemma_to_set_push(names.deep_view().take(i as int), x);
            if keep_it {
                assert(r.deep_view().to_set() =~= names.deep_view().take(i + 1).to_set().intersect(
                    allset,
                ));
            } else {
                assert(r.deep_view().to_set() =~= names.deep_view().take(i + 1).to_set().intersect(
                    allset,
                ));
            }
        }
        i += 1;
    }
    proof {
        assert(names.deep_view().take(names@.len() as int) =~= names.deep_view());
    }
    r
}

/// Whether the graph under construction already has a node of this name.
fn entries_contain_name(entries: &Vec<GraphEntry>, name: &String) -> (r: bool)
    ensures
        r == entries_map(entry_views(entries@)).dom().contains(name@),
{
    let ghost es = entry_views(entries@);
    let mut i: usize = 0;
    while i < entries.len()
        invariant
            0 <= i <= entries@.len(),
            es == entry_views(entries@),
            forall|j: int| 0 <= j < i ==> es[j].name != name@,
        decreases entries@.len() - i,
    {
        if entries[i].name == *name {
            proof {
                assert(es[i as int].name == name@);
                lemma_entries_map_dom(es);
            }
            return true;
        }
        i += 1;
    }
    proof {
        lemma_entries_map_dom(es);
    }
    false
}

/// Build the workspace dependency graph of a recipe's manifest collection:
/// a node for each manifest with an extractable package name, its edges the
/// manifest's dependency keys restricted to the workspace member names.
/// Manifests whose text yields no package name are silently skipped.
pub fn build_workspace_deps(recipe: &Recipe, all_members: &Vec<String>) -> (r: DepGraph)
    ensures
        r.wf(),
        r@ == graph_of(recipe@.manifests, all_members.deep_view().to_set()),
{
    let ghost allset = all_members.deep_view().to_set();
    let ghost mvs = recipe@.manifests;
    let mut entries: Vec<GraphEntry> = Vec::new();
    let mut i: usize = 0;
    while i < recipe.skeleton.manifests.len()
        invariant
            0 <= i <= recipe.skeleton.manifests@.len(),
            mvs == recipe@.manifests,
            allset == all_members.deep_view().to_set(),
            mvs.len() == recipe.skeleton.manifests@.len(),
            forall|k: int, j: int|
                0 <= k < j < entries@.len() ==> entries@[k]@.name != entries@[j]@.name,
            entries_map(entry_views(entries@)) == graph_of(mvs.take(i as int), allset),
        decreases recipe.skeleton.manifests@.len() - i,
    {
        let m = &recipe.skeleton.manifests[i];
        proof {
            assert(m@ == mvs[i as int]);
            assert(mvs.take(i + 1).drop_last() =~= mvs.take(i as int));
            assert(mvs.take(i + 1).last() == mvs[i as int]);
        }
        if let Some(name) = extract_crate_name(m) {
            let ghost pre_es = entry_views(entries@);
            if !entries_contain_name(&entries, &name) {
                let dep_names = manifest_dep_names(m);
                let deps = retain_known(&dep_names, all_members);
                proof {
                    lemma_entries_map_dom(pre_es);
                }
                entries.push(GraphEntry { name, deps });
                proof {
                    assert(entry_views(entries@) =~= pre_es.push(entries@.last()@));
                    assert(entry_views(entries@).drop_last() =~= pre_es);
                    assert(entries@.last()@.deps.to_set() =~= dep_keys_of(
                        mvs[i as int].contents,
                    ).to_set().intersect(allset));
                    assert(entries_map(entry_views(entries@)) == entries_map(pre_es).insert(
                        entries@.last()@.name,
                        entries@.last()@.deps.to_set(),
                    ));
                    assert(entries_map(entry_views(entries@)) == graph_of(mvs.take(i + 1), allset));
                    assert forall|k: int, j: int|
                        0 <= k < j < entries@.len() implies entries@[k]@.name
                        != entries@[j]@.name by {
                        if j == entries@.len() - 1 {
                            assert(pre_es[k].name == entries@[k]@.name);
                        }
                    }
                }
            }
        }
        i += 1;
    }
    proof {
        assert(mvs.take(recipe.skeleton.manifests@.len() as int) =~= mvs);
    }
    DepGraph { entries }
}

} // verus!

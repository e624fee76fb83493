//! The reduction itself: find the root manifest, resolve the root member
//! set, compute the keep set, and prune the manifest collection and the
//! lock-file entries.

use vstd::prelude::*;

use crate::graph::{
    build_workspace_deps, compute_transitive_members, contains_name, graph_of, lemma_to_set_push,
    reachable, reachable_set,
};
use crate::recipe::{manifest_views, Manifest, ManifestView, Recipe, RecipeView, Skeleton};
use crate::toml_ops::{
    crate_name_of, extract_crate_name, lock_entry_names, lock_package_names, member_list_of,
    parse_workspace_members, remove_lock_entry, toml_parses, MemberListParse,
};

verus! {

broadcast use vstd::seq_lib::group_seq_lib_default;

/// Why a reduction failed. Each variant names exactly one fatal condition;
/// all other parse failures are tolerated and never abort a reduction.
#[derive(Clone, Copy, Debug, PartialEq, Eq)]
pub enum ReduceError {
    /// No manifest of the recipe has the canonical root path.
    RootManifestNotFound,
    /// The root manifest's text is not a valid structured document.
    RootManifestNotToml,
    /// The root manifest has no workspace member array.
    MembersNotArray,
    /// The lock-file text is not a valid structured document.
    LockFileNotToml,
}

/// The canonical relative path of the workspace's root manifest.
pub open spec fn root_path() -> Seq<char> {
    "Cargo.toml"@
}

/// The first manifest whose relative path is the canonical root path.
pub open spec fn root_manifest_of(ms: Seq<ManifestView>) -> Option<ManifestView>
    decreases ms.len(),
{
    if ms.len() == 0 {
        None
    } else if ms[0].path == root_path() {
        Some(ms[0])
    } else {
        root_manifest_of(ms.drop_first())
    }
}

/// There is no root manifest exactly when no manifest has the root path.
pub proof fn lemma_root_manifest_none(ms: Seq<ManifestView>)
    ensures
        (root_manifest_of(ms) is None) <==> (forall|i: int|
            0 <= i < ms.len() ==> ms[i].path != root_path()),
    decreases ms.len(),
{
    if ms.len() == 0 {
    } else if ms[0].path == root_path() {
        assert(0 <= 0 < ms.len() && ms[0].path == root_path());
    } else {
        lemma_root_manifest_none(ms.drop_first());
        let tail = ms.drop_first();
        if root_manifest_of(ms) is None {
            assert forall|i: int| 0 <= i < ms.len() implies ms[i].path != root_path() by {
                if i > 0 {
                    assert(tail[i - 1] == ms[i]);
                }
            }
        } else {
            let j = choose|j: int| 0 <= j < tail.len() && tail[j].path == root_path();
            assert(ms[j + 1] == tail[j]);
            assert(ms[j + 1].path == root_path());
        }
    }
}

/// The set of all workspace member names: every package name extractable
/// from some manifest of the collection.
pub open spec fn manifest_names(ms: Seq<ManifestView>) -> Set<Seq<char>> {
    Set::new(
        |n: Seq<char>|
            exists|i: int| 0 <= i < ms.len() && crate_name_of(#[trigger] ms[i].contents) == Some(n),
    )
}

/// A manifest survives pruning when it has no extractable package name (a
/// virtual manifest, e.g. the workspace root) or its name is in the keep set.
pub open spec fn manifest_kept(m: ManifestView, keep: Set<Seq<char>>) -> bool {
    match crate_name_of(m.contents) {
        Some(n) => keep.contains(n),
        None => true,
    }
}

/// A lock-file entry survives pruning when its name is absent or not a
/// string, names no workspace member (an external dependency, always kept),
/// or names a member of the keep set.
pub open spec fn lock_entry_kept(
    e: Option<Seq<char>>,
    all: Set<Seq<char>>,
    keep: Set<Seq<char>>,
) -> bool {
    match e {
        Some(n) => !all.contains(n) || keep.contains(n),
        None => true,
    }
}

/// The keep set of a reduction: the names transitively reachable from the
/// roots over the collection's workspace-restricted dependency graph.
pub open spec fn keep_set_of(ms: Seq<ManifestView>, roots: Seq<Seq<char>>) -> Set<Seq<char>> {
    reachable_set(graph_of(ms, manifest_names(ms)), roots.to_set())
}

/// What a successful reduction returns: the manifests are the kept subset in
/// their original order, and the lock-file entries are the kept subset, the
/// text untouched when every entry is kept.
pub open spec fn reduced_output_ok(inp: RecipeView, out: RecipeView) -> bool {
    match root_manifest_of(inp.manifests) {
        Some(root) => match member_list_of(root.contents) {
            Some(roots) => {
                let all = manifest_names(inp.manifests);
                let keep = keep_set_of(inp.manifests, roots);
                &&& toml_parses(root.contents)
                &&& out.manifests == inp.manifests.filter(
                    |m: ManifestView| manifest_kept(m, keep),
                )
                &&& match (inp.lock_file, out.lock_file) {
                    (None, None) => true,
                    (Some(l), Some(l2)) => {
                        &&& toml_parses(l)
                        &&& lock_entry_names(l2) == lock_entry_names(l).filter(
                            |e: Option<Seq<char>>| lock_entry_kept(e, all, keep),
                        )
                        &&& ((forall|j: int|
                            0 <= j < lock_entry_names(l).len() ==> lock_entry_kept(
                                #[trigger] lock_entry_names(l)[j],
                                all,
                                keep,
                            )) ==> l2 == l)
                    },
                    _ => false,
                }
            },
            None => false,
        },
        None => false,
    }
}

/// Find the workspace's root manifest: the first manifest whose relative
/// path is the canonical root manifest name.
pub fn get_root_manifest(recipe: &Recipe) -> (r: Option<&Manifest>)
    ensures
        match r {
            Some(m) => root_manifest_of(recipe@.manifests) == Some(m@),
            None => root_manifest_of(recipe@.manifests) is None,
        },
{
    let ghost mvs = recipe@.manifests;
    let root_name: String = "Cargo.toml".to_owned();
    proof {
        assert(mvs.skip(0) =~= mvs);
    }
    let mut i: usize = 0;
    while i < recipe.skeleton.manifests.len()
        invariant
            0 <= i <= recipe.skeleton.manifests@.len(),
            mvs == recipe@.manifests,
            mvs.len() == recipe.skeleton.manifests@.len(),
            root_name@ == root_path(),
            root_manifest_of(mvs) == root_manifest_of(mvs.skip(i as int)),
        decreases recipe.skeleton.manifests@.len() - i,
    {
        proof {
            assert(mvs.skip(i as int)[0] == mvs[i as int]);
            assert(mvs[i as int] == recipe.skeleton.manifests@[i as int]@);
        }
        if recipe.skeleton.manifests[i].relative_path == root_name {
            proof {
                assert(root_manifest_of(mvs.skip(i as int)) == Some(mvs[i as int]));
            }
            return Some(&recipe.skeleton.manifests[i]);
        }
        proof {
            assert(mvs.skip(i as int).drop_first() =~= mvs.skip(i + 1));
        }
        i += 1;
    }
    proof {
        assert(mvs.skip(mvs.len() as int).len() == 0);
    }
    None
}

/// Resolve the root member set from the root manifest's workspace member
/// array. Every listed member is a root (the multi-root policy).
pub fn get_root_workspace_members(root: &Manifest) -> (r: Result<Vec<String>, ReduceError>)
    ensures
        match r {
            Ok(v) => toml_parses(root@.contents) && member_list_of(root@.contents) == Some(
                v.deep_view(),
            ),
            Err(ReduceError::RootManifestNotToml) => !toml_parses(root@.contents),
            Err(ReduceError::MembersNotArray) => toml_parses(root@.contents) && member_list_of(
                root@.contents,
            ) is None,
            Err(_) => false,
        },
{
    match parse_workspace_members(root.contents.as_str()) {
        MemberListParse::NotToml => Err(ReduceError::RootManifestNotToml),
        MemberListParse::NoMemberArray => Err(ReduceError::MembersNotArray),
        MemberListParse::Members(v) => Ok(v),
    }
}

/// Collect every extractable package name of the manifest collection.
pub fn get_all_workspace_members(recipe: &Recipe) -> (r: Vec<String>)
    ensures
        r.deep_view().to_set() == manifest_names(recipe@.manifests),
{
    let ghost mvs = recipe@.manifests;
    let mut r: Vec<String> = Vec::new();
    let mut i: usize = 0;
    while i < recipe.skeleton.manifests.len()
        invariant
            0 <= i <= recipe.skeleton.manifests@.len(),
            mvs == recipe@.manifests,
            mvs.len() == recipe.skeleton.manifests@.len(),
            forall|n: Seq<char>|
                #[trigger] r.deep_view().to_set().contains(n) <==> exists|j: int|
                    0 <= j < i && crate_name_of(mvs[j].contents) == Some(n),
        decreases recipe.skeleton.manifests@.len() - i,
    {
        let m = &recipe.skeleton.manifests[i];
        proof {
            assert(m@ == mvs[i as int]);
        }
        let ghost pre = r.deep_view();
        if let Some(name) = extract_crate_name(m) {
            r.push(name);
            proof {
                assert(r.deep_view() =~= pre.push(r@.last()@));
                lemma_to_set_push(pre, r@.last()@);
                assert(crate_name_of(mvs[i as int].contents) == Some(r@.last()@));
                assert forall|n: Seq<char>| #[trigger]
                    r.deep_view().to_set().contains(n) implies exists|j: int|
                    0 <= j < i + 1 && crate_name_of(mvs[j].contents) == Some(n) by {
                    if pre.to_set().contains(n) {
                        let j = choose|j: int|
                            0 <= j < i && crate_name_of(mvs[j].contents) == Some(n);
                        assert(crate_name_of(mvs[j].contents) == Some(n));
                    } else {
                        assert(crate_name_of(mvs[i as int].contents) == Some(n));
                    }
                }
                assert forall|n: Seq<char>|
                    (exists|j: int|
                        0 <= j < i + 1 && crate_name_of(mvs[j].contents) == Some(
                            n,
                        )) implies #[trigger] r.deep_view().to_set().contains(n) by {
                    let j = choose|j: int|
                        0 <= j < i + 1 && crate_name_of(mvs[j].contents) == Some(n);
                    if j < i {
                        assert(pre.to_set().contains(n));
                    }
                }
            }
        } else {
            proof {
                assert forall|n: Seq<char>|
                    (exists|j: int|
                        0 <= j < i + 1 && crate_name_of(mvs[j].contents) == Some(
                            n,
                        )) implies #[trigger] r.deep_view().to_set().contains(n) by {
                    let j = choose|j: int|
                        0 <= j < i + 1 && crate_name_of(mvs[j].contents) == Some(n);
                    assert(j < i);
                }
            }
        }
        i += 1;
    }
    proof {
        assert(r.deep_view().to_set() =~= manifest_names(mvs));
    }
    r
}

/// Filtering a sequence after a push keeps or drops exactly the new element.
proof fn lemma_filter_push<A>(s: Seq<A>, x: A, p: spec_fn(A) -> bool)
    ensures
        p(x) ==> s.push(x).filter(p) == s.filter(p).push(x),
        !p(x) ==> s.push(x).filter(p) == s.filter(p),
{
    reveal(Seq::filter);
    assert(s.push(x).drop_last() =~= s);
    assert(s.push(x).last() == x);
    assert(s.push(x).filter(p) == if p(x) {
        s.filter(p).push(x)
    } else {
        s.filter(p)
    });
}

/// Prune the manifest collection: a manifest is retained when it has no
/// extractable package name or its name is among the kept members. Order is
/// preserved.
pub fn filter_manifests(manifests: &Vec<Manifest>, keep_members: &Vec<String>) -> (r: Vec<Manifest>)
    ensures
        manifest_views(r@) == manifest_views(manifests@).filter(
            |m: ManifestView| manifest_kept(m, keep_members.deep_view().to_set()),
        ),
{
    let ghost keepset = keep_members.deep_view().to_set();
    let ghost mvs = manifest_views(manifests@);
    let ghost pred = |m: ManifestView| manifest_kept(m, keepset);
    let mut r: Vec<Manifest> = Vec::new();
    let mut i: usize = 0;
    while i < manifests.len()
        invariant
            0 <= i <= manifests@.len(),
            keepset == keep_members.deep_view().to_set(),
            mvs == manifest_views(manifests@),
            mvs.len() == manifests@.len(),
            pred == (|m: ManifestView| manifest_kept(m, keepset)),
            manifest_views(r@) == mvs.take(i as int).filter(pred),
        decreases manifests@.len() - i,
    {
        let m = &manifests[i];
        proof {
            assert(m@ == mvs[i as int]);
            assert(mvs.take(i + 1) =~= mvs.take(i as int).push(mvs[i as int]));
            lemma_filter_push(mvs.take(i as int), mvs[i as int], pred);
        }
        let kept = match extract_crate_name(m) {
            Some(name) => contains_name(keep_members, &name),
            None => true,
        };
        proof {
            assert(kept == pred(mvs[i as int]));
        }
        if kept {
            let ghost prev = manifest_views(r@);
            r.push(m.clone());
            proof {
                assert(manifest_views(r@) =~= prev.push(mvs[i as int]));
            }
        }
        i += 1;
    }
    proof {
        assert(mvs.take(manifests@.len() as int) =~= mvs);
    }
    r
}

/// Prune the lock-file entries: an entry whose name names a workspace member
/// outside the keep set is removed; every other entry, external dependencies
/// included, is retained. Returns `None` exactly when the lock-file text
/// does not parse. When every entry is kept the text is returned untouched.
pub fn filter_lockfile_members(
    lock: &String,
    all_members: &Vec<String>,
    keep_members: &Vec<String>,
) -> (r: Option<String>)
    ensures
        ({
            let allset = all_members.deep_view().to_set();
            let keepset = keep_members.deep_view().to_set();
            match r {
                None => !toml_parses(lock@),
                Some(out) => {
                    &&& toml_parses(lock@)
                    &&& lock_entry_names(out@) == lock_entry_names(lock@).filter(
                        |e: Option<Seq<char>>| lock_entry_kept(e, allset, keepset),
                    )
                    &&& ((forall|j: int|
                        0 <= j < lock_entry_names(lock@).len() ==> lock_entry_kept(
                            #[trigger] lock_entry_names(lock@)[j],
                            allset,
                            keepset,
                        )) ==> out@ == lock@)
                },
            }
        }),
{
    let ghost allset = all_members.deep_view().to_set();
    let ghost keepset = keep_members.deep_view().to_set();
    let ghost pred = |e: Option<Seq<char>>| lock_entry_kept(e, allset, keepset);
    let names: Vec<Option<String>> = match lock_package_names(lock.as_str()) {
        Some(v) => v,
        None => {
            return None;
        },
    };
    let ghost entry_seq = lock_entry_names(lock@);
    let mut cur: String = lock.clone();
    let mut i: usize = names.len();
    proof {
        reveal(Seq::filter);
        assert(entry_seq.take(entry_seq.len() as int) =~= entry_seq);
        assert(entry_seq.skip(entry_seq.len() as int) =~= Seq::<Option<Seq<char>>>::empty());
        assert(Seq::<Option<Seq<char>>>::empty().filter(pred) =~= Seq::<Option<Seq<char>>>::empty());
        assert(lock_entry_names(cur@) =~= entry_seq.take(i as int) + entry_seq.skip(i as int).filter(
            pred,
        ));
    }
    while i > 0
        invariant
            0 <= i <= entry_seq.len(),
            allset == all_members.deep_view().to_set(),
            keepset == keep_members.deep_view().to_set(),
            pred == (|e: Option<Seq<char>>| lock_entry_kept(e, allset, keepset)),
            entry_seq == lock_entry_names(lock@),
            names.deep_view() == entry_seq,
            toml_parses(cur@),
            lock_entry_names(cur@) == entry_seq.take(i as int) + entry_seq.skip(i as int).filter(
                pred,
            ),
            (forall|j: int| i <= j < entry_seq.len() ==> pred(#[trigger] entry_seq[j])) ==> cur@
                == lock@,
        decreases i,
    {
        i -= 1;
        let kept = match &names[i] {
            Some(n) => !contains_name(all_members, n) || contains_name(keep_members, n),
            None => true,
        };
        proof {
            reveal(Seq::filter);
            assert(names.deep_view()[i as int] == entry_seq[i as int]);
            assert(kept == pred(entry_seq[i as int]));
            assert(entry_seq.skip(i as int) =~= seq![entry_seq[i as int]] + entry_seq.skip(i + 1));
            Seq::<Option<Seq<char>>>::filter_distributes_over_add(
                seq![entry_seq[i as int]],
                entry_seq.skip(i + 1),
                pred,
            );
            assert(seq![entry_seq[i as int]].drop_last() =~= Seq::<Option<Seq<char>>>::empty());
            assert(Seq::<Option<Seq<char>>>::empty().filter(pred)
                =~= Seq::<Option<Seq<char>>>::empty());
            assert(seq![entry_seq[i as int]].filter(pred) == if pred(entry_seq[i as int]) {
                Seq::<Option<Seq<char>>>::empty().filter(pred).push(entry_seq[i as int])
            } else {
                Seq::<Option<Seq<char>>>::empty().filter(pred)
            });
        }
        if !kept {
            proof {
                assert(entry_seq.take(i + 1)[i as int] == entry_seq[i as int]);
                assert(lock_entry_names(cur@).len() == i + 1 + entry_seq.skip(i + 1).filter(
                    pred,
                ).len());
            }
            let removed = remove_lock_entry(cur.as_str(), i);
            proof {
                assert(lock_entry_names(removed@) == lock_entry_names(cur@).remove(i as int));
                assert(lock_entry_names(removed@) =~= entry_seq.take(i as int) + entry_seq.skip(
                    i as int,
                ).filter(pred));
            }
            cur = removed;
        } else {
            proof {
                assert(entry_seq.take(i + 1) =~= entry_seq.take(i as int).push(
                    entry_seq[i as int],
                ));
                assert(lock_entry_names(cur@) =~= entry_seq.take(i as int) + entry_seq.skip(
                    i as int,
                ).filter(pred));
            }
        }
    }
    proof {
        assert(entry_seq.take(0) =~= Seq::<Option<Seq<char>>>::empty());
        assert(entry_seq.skip(0) =~= entry_seq);
        assert(lock_entry_names(cur@) =~= entry_seq.filter(pred));
    }
    Some(cur)
}

/// Reduce a workspace recipe: resolve the root member set, compute the
/// transitive keep set over the workspace dependency graph, and prune the
/// manifest collection and the lock-file entries down to it. The input
/// recipe is left untouched; the reduced recipe is returned as a new value.
pub fn reduce_workspace_recipe(recipe: &Recipe) -> (r: Result<Recipe, ReduceError>)
    ensures
        ({
            let ms = recipe@.manifests;
            match r {
                Ok(out) => reduced_output_ok(recipe@, out@),
                Err(ReduceError::RootManifestNotFound) => (forall|i: int|
                    0 <= i < ms.len() ==> ms[i].path != root_path()),
                Err(ReduceError::RootManifestNotToml) => (root_manifest_of(ms) matches Some(root)
                    && !toml_parses(root.contents)),
                Err(ReduceError::MembersNotArray) => (root_manifest_of(ms) matches Some(root)
                    && toml_parses(root.contents) && member_list_of(root.contents) is None),
                Err(ReduceError::LockFileNotToml) => (root_manifest_of(ms) matches Some(root)
                    && toml_parses(root.contents) && member_list_of(root.contents) is Some
                    && (recipe@.lock_file matches Some(l) && !toml_parses(l))),
            }
        }),
{
    let root = match get_root_manifest(recipe) {
        Some(m) => m,
        None => {
            proof {
                lemma_root_manifest_none(recipe@.manifests);
            }
            return Err(ReduceError::RootManifestNotFound);
        },
    };

    let root_members = match get_root_workspace_members(root) {
        Ok(v) => v,
        Err(e) => {
            return Err(e);
        },
    };

    let all_members = get_all_workspace_members(recipe);

    let dependencies = build_workspace_deps(recipe, &all_members);

    let keep_members = compute_transitive_members(&root_members, &dependencies);

    let ghost keep = keep_set_of(recipe@.manifests, root_members.deep_view());
    proof {
        assert(graph_of(recipe@.manifests, all_members.deep_view().to_set()) == graph_of(
            recipe@.manifests,
            manifest_names(recipe@.manifests),
        ));
        assert(keep_members.deep_view().to_set() == keep);
    }

    let manifests = filter_manifests(&recipe.skeleton.manifests, &keep_members);

    let lock_file = match &recipe.skeleton.lock_file {
        None => None,
        Some(l) => match filter_lockfile_members(l, &all_members, &keep_members) {
            Some(out) => Some(out),
            None => {
                return Err(ReduceError::LockFileNotToml);
            },
        },
    };

    let out = Recipe { skeleton: Skeleton { manifests, lock_file } };
    proof {
        assert(out@.manifests == recipe@.manifests.filter(
            |m: ManifestView| manifest_kept(m, keep),
        ));
    }
    Ok(out)
}

/// An element is in a filtered sequence exactly when it is in the original
/// sequence and satisfies the predicate.
pub proof fn lemma_filter_contains_iff<A>(s: Seq<A>, p: spec_fn(A) -> bool, x: A)
    ensures
        s.filter(p).contains(x) <==> (s.contains(x) && p(x)),
    decreases s.len(),
{
    reveal(Seq::filter);
    if s.len() == 0 {
        assert(!s.contains(x));
    } else {
        let sub = s.drop_last().filter(p);
        lemma_filter_contains_iff(s.drop_last(), p, x);
        if s.filter(p).contains(x) {
            let k = choose|k: int| 0 <= k < s.filter(p).len() && s.filter(p)[k] == x;
            if p(s.last()) && k == sub.len() {
                assert(x == s.last());
                assert(s[s.len() - 1] == x);
            } else {
                assert(sub[k] == x);
                assert(sub.contains(x));
                let m = choose|m: int| 0 <= m < s.drop_last().len() && s.drop_last()[m] == x;
                assert(s[m] == x);
            }
            assert(s.contains(x) && p(x));
        }
        if s.contains(x) && p(x) {
            let k = choose|k: int| 0 <= k < s.len() && s[k] == x;
            if k < s.len() - 1 {
                assert(s.drop_last()[k] == x);
                assert(s.drop_last().contains(x));
                assert(sub.contains(x));
                let m = choose|m: int| 0 <= m < sub.len() && sub[m] == x;
                assert(s.filter(p)[m] == x);
            } else {
                assert(x == s.last());
                assert(s.filter(p)[s.filter(p).len() - 1] == x);
            }
            assert(s.filter(p).contains(x));
        }
    }
}

/// Filtering keeps a sequence whole when every element satisfies the
/// predicate.
pub proof fn lemma_filter_all_kept<A>(s: Seq<A>, p: spec_fn(A) -> bool)
    requires
        forall|i: int| 0 <= i < s.len() ==> p(#[trigger] s[i]),
    ensures
        s.filter(p) == s,
    decreases s.len(),
{
    reveal(Seq::filter);
    if s.len() > 0 {
        assert forall|i: int| 0 <= i < s.drop_last().len() implies p(#[trigger] s.drop_last()[i]) by {
            assert(s.drop_last()[i] == s[i]);
        }
        lemma_filter_all_kept(s.drop_last(), p);
        assert(s[s.len() - 1] == s.last());
        assert(p(s.last()));
        assert(s.drop_last().push(s.last()) =~= s);
    }
}

/// Idempotence under full reachability: when every workspace member is
/// transitively reachable from the root set, pruning keeps every manifest,
/// and every lock-file entry is kept — so a reduction returns the input
/// recipe unchanged (the lock-file text is then untouched as well).
pub proof fn lemma_idempotent_under_full_reachability(
    ms: Seq<ManifestView>,
    roots: Seq<Seq<char>>,
    lock_entries: Seq<Option<Seq<char>>>,
)
    requires
        forall|n: Seq<char>|
            #[trigger] manifest_names(ms).contains(n) ==> keep_set_of(ms, roots).contains(n),
    ensures
        ms.filter(|m: ManifestView| manifest_kept(m, keep_set_of(ms, roots))) == ms,
        forall|j: int|
            0 <= j < lock_entries.len() ==> lock_entry_kept(
                #[trigger] lock_entries[j],
                manifest_names(ms),
                keep_set_of(ms, roots),
            ),
{
    let keep = keep_set_of(ms, roots);
    let pred = |m: ManifestView| manifest_kept(m, keep_set_of(ms, roots));
    assert forall|i: int| 0 <= i < ms.len() implies pred(#[trigger] ms[i]) by {
        match crate_name_of(ms[i].contents) {
            Some(n) => {
                assert(manifest_names(ms).contains(n));
            },
            None => {},
        }
    }
    lemma_filter_all_kept(ms, pred);
    assert forall|j: int| 0 <= j < lock_entries.len() implies lock_entry_kept(
        #[trigger] lock_entries[j],
        manifest_names(ms),
        keep,
    ) by {
        match lock_entries[j] {
            Some(n) => {
                if manifest_names(ms).contains(n) {
                    assert(keep.contains(n));
                }
            },
            None => {},
        }
    }
}

/// Idempotence, stated over the reduction relation itself: a successful
/// reduction whose keep set covers every workspace member returns the input
/// recipe unchanged — the same manifest sequence and the same lock-file
/// text.
pub proof fn lemma_reduce_identity(
    inp: RecipeView,
    out: RecipeView,
    root: ManifestView,
    roots: Seq<Seq<char>>,
)
    requires
        reduced_output_ok(inp, out),
        root_manifest_of(inp.manifests) == Some(root),
        member_list_of(root.contents) == Some(roots),
        forall|n: Seq<char>|
            #[trigger] manifest_names(inp.manifests).contains(n) ==> keep_set_of(
                inp.manifests,
                roots,
            ).contains(n),
    ensures
        out.manifests == inp.manifests,
        out.lock_file == inp.lock_file,
{
    let entries = match inp.lock_file {
        Some(l) => lock_entry_names(l),
        None => Seq::<Option<Seq<char>>>::empty(),
    };
    lemma_idempotent_under_full_reachability(inp.manifests, roots, entries);
    match (inp.lock_file, out.lock_file) {
        (Some(l), Some(l2)) => {
            assert(l2 == l);
        },
        (None, None) => {},
        _ => {
            assert(false);
        },
    }
}

/// External dependencies are never pruned: a lock-file entry whose name is
/// not a workspace member name is among the kept entries exactly when it is
/// among the input entries, whatever the keep set holds.
pub proof fn lemma_external_entries_never_pruned(
    lock_entries: Seq<Option<Seq<char>>>,
    all: Set<Seq<char>>,
    keep: Set<Seq<char>>,
    n: Seq<char>,
)
    requires
        !all.contains(n),
    ensures
        lock_entries.filter(|e: Option<Seq<char>>| lock_entry_kept(e, all, keep)).contains(
            Some(n),
        ) <==> lock_entries.contains(Some(n)),
{
    lemma_filter_contains_iff(
        lock_entries,
        |e: Option<Seq<char>>| lock_entry_kept(e, all, keep),
        Some(n),
    );
}

/// Closure correctness: when every root names a workspace member, a crate
/// name is declared by some kept manifest exactly when it is reachable from
/// some root by zero or more workspace-dependency edges. (A root listed
/// without a manifest of its own is reachable yet has no manifest to keep,
/// so such roots are left out here.)
pub proof fn lemma_closure_correctness(ms: Seq<ManifestView>, roots: Seq<Seq<char>>, c: Seq<char>)
    requires
        forall|j: int| 0 <= j < roots.len() ==> manifest_names(ms).contains(#[trigger] roots[j]),
    ensures
        ({
            let kept = ms.filter(|m: ManifestView| manifest_kept(m, keep_set_of(ms, roots)));
            (exists|i: int|
                0 <= i < kept.len() && crate_name_of(#[trigger] kept[i].contents) == Some(c))
                <==> reachable(graph_of(ms, manifest_names(ms)), roots.to_set(), c)
        }),
{
    if reachable(graph_of(ms, manifest_names(ms)), roots.to_set(), c) {
        crate::graph::lemma_reachable_target(ms, manifest_names(ms), roots.to_set(), c);
        if roots.to_set().contains(c) {
            let j = choose|j: int| 0 <= j < roots.len() && roots[j] == c;
            assert(manifest_names(ms).contains(roots[j]));
        }
        assert(manifest_names(ms).contains(c));
    }
    let keep = keep_set_of(ms, roots);
    let pred = |m: ManifestView| manifest_kept(m, keep_set_of(ms, roots));
    let kept = ms.filter(pred);
    if exists|i: int| 0 <= i < kept.len() && crate_name_of(#[trigger] kept[i].contents) == Some(c) {
        let i = choose|i: int|
            0 <= i < kept.len() && crate_name_of(#[trigger] kept[i].contents) == Some(c);
        let m = kept[i];
        assert(kept.contains(m));
        lemma_filter_contains_iff(ms, pred, m);
        assert(ms.contains(m) && pred(m));
        assert(keep.contains(c));
        let j = choose|j: int| 0 <= j < ms.len() && ms[j] == m;
        assert(crate_name_of(ms[j].contents) == Some(c));
        assert(manifest_names(ms).contains(c));
    }
    if manifest_names(ms).contains(c) && reachable(graph_of(ms, manifest_names(ms)), roots.to_set(), c) {
        let j = choose|j: int|
            0 <= j < ms.len() && crate_name_of(#[trigger] ms[j].contents) == Some(c);
        let m = ms[j];
        assert(keep.contains(c));
        assert(pred(m));
        assert(ms.contains(m));
        lemma_filter_contains_iff(ms, pred, m);
        assert(kept.contains(m));
        let i = choose|i: int| 0 <= i < kept.len() && kept[i] == m;
        assert(crate_name_of(kept[i].contents) == Some(c));
    }
}

/// Virtual manifest preservation: a manifest with no extractable crate name
/// is always present in the pruned collection.
pub proof fn lemma_virtual_manifests_preserved(ms: Seq<ManifestView>, keep: Set<Seq<char>>, i: int)
    requires
        0 <= i < ms.len(),
        crate_name_of(ms[i].contents) is None,
    ensures
        ms.filter(|m: ManifestView| manifest_kept(m, keep)).contains(ms[i]),
{
    assert(ms.contains(ms[i]));
    assert(manifest_kept(ms[i], keep));
    lemma_filter_contains_iff(ms, |m: ManifestView| manifest_kept(m, keep), ms[i]);
}

} // verus!

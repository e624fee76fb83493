//! The data model of a workspace build recipe: an ordered collection of
//! manifests plus an optional lock-file text.

use vstd::prelude::*;

verus! {

/// One manifest of the workspace: a workspace-unique relative path and the
/// manifest's raw textual contents.
#[derive(Debug, PartialEq, Eq)]
pub struct Manifest {
    pub relative_path: String,
    pub contents: String,
}

/// The recipe's payload: the manifest collection plus the optional lock-file
/// text (present only if the workspace uses one).
#[derive(Debug, PartialEq, Eq)]
pub struct Skeleton {
    pub manifests: Vec<Manifest>,
    pub lock_file: Option<String>,
}

/// A snapshot of a workspace's manifests and lock file, the unit of work of
/// the reduction.
#[derive(Debug, PartialEq, Eq)]
pub struct Recipe {
    pub skeleton: Skeleton,
}

/// The mathematical value of a [`Manifest`]: its path and contents as
/// character sequences.
pub ghost struct ManifestView {
    pub path: Seq<char>,
    pub contents: Seq<char>,
}

/// The mathematical value of a [`Recipe`] (and of its [`Skeleton`]).
pub ghost struct RecipeView {
    pub manifests: Seq<ManifestView>,
    pub lock_file: Option<Seq<char>>,
}

impl View for Manifest {
    type V = ManifestView;

    open spec fn view(&self) -> ManifestView {
        ManifestView { path: self.relative_path@, contents: self.contents@ }
    }
}

/// The manifest views of a manifest collection.
pub open spec fn manifest_views(ms: Seq<Manifest>) -> Seq<ManifestView> {
    ms.map_values(|m: Manifest| m@)
}

impl View for Skeleton {
    type V = RecipeView;

    open spec fn view(&self) -> RecipeView {
        RecipeView {
            manifests: manifest_views(self.manifests@),
            lock_file: match self.lock_file {
                Some(l) => Some(l@),
                None => None,
            },
        }
    }
}

impl View for Recipe {
    type V = RecipeView;

    open spec fn view(&self) -> RecipeView {
        self.skeleton@
    }
}

impl Clone for Manifest {
    fn clone(&self) -> (r: Self)
        ensures
            r@ == self@,
    {
        Manifest { relative_path: self.relative_path.clone(), contents: self.contents.clone() }
    }
}

} // verus!

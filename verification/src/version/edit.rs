//! The deltas that lead from one version to the next.

use vstd::prelude::*;
use crate::scope::{Scope, ScopeView};
use crate::version::meta::TableMeta;

verus! {

/// One change of the table membership of a level.
#[derive(Debug)]
pub enum VersionEdit {
    /// Take the tables with these gens out of the level. The fields are
    /// `(gens, level)` and the counters of what leaves.
    DeleteFile((Vec<i64>, usize), TableMeta),
    /// Put the tables with these scopes into the level. The fields are
    /// `(scopes, level)`, the place in the level where they go (not used at
    /// level 0) and the counters of what arrives.
    NewFile((Vec<Scope>, usize), usize, TableMeta),
}

/// An edit as a mathematical value.
pub enum VersionEditView {
    DeleteFile { gens: Seq<i64>, level: usize, meta: TableMeta },
    NewFile { scopes: Seq<ScopeView>, level: usize, index: usize, meta: TableMeta },
}

impl VersionEditView {
    /// The level that the edit changes.
    pub open spec fn level(self) -> usize {
        match self {
            VersionEditView::DeleteFile { level, .. } => level,
            VersionEditView::NewFile { level, .. } => level,
        }
    }
}

impl View for VersionEdit {
    type V = VersionEditView;

    open spec fn view(&self) -> VersionEditView {
        match *self {
            VersionEdit::DeleteFile((gens, level), meta) => VersionEditView::DeleteFile {
                gens: gens@,
                level,
                meta,
            },
            VersionEdit::NewFile((scopes, level), index, meta) => VersionEditView::NewFile {
                scopes: scopes.deep_view(),
                level,
                index,
                meta,
            },
        }
    }
}

impl DeepView for VersionEdit {
    type V = VersionEditView;

    open spec fn deep_view(&self) -> VersionEditView {
        self@
    }
}

impl Clone for VersionEdit {
    fn clone(&self) -> (r: Self)
        ensures
            r@ == self@,
    {
        match self {
            VersionEdit::DeleteFile((gens, level), meta) => {
                let gens = gens.clone();
                VersionEdit::DeleteFile((gens, *level), *meta)
            },
            VersionEdit::NewFile((scopes, level), index, meta) => {
                let copies = scopes.clone();
                assert(copies.deep_view() =~= scopes.deep_view());
                VersionEdit::NewFile((copies, *level), *index, *meta)
            },
        }
    }
}

} // verus!

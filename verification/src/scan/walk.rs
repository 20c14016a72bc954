//! Fallback scanner: building a tree out of what a directory traversal finds.
//! Unreadable entries are skipped and counted.

use vstd::prelude::*;
use crate::model;
use crate::model::{Meta, Node, NodeModel};
use crate::scan::ScanProgress;
use crate::text;

verus! {

/// Progress is reported once in so many entries.
pub const PROGRESS_INTERVAL: u64 = 4096;

/// One entry of a traversal.
#[derive(Debug)]
pub enum WalkEntry {
    /// It, its metadata or its place below the root could not be read.
    Unreadable,
    /// What stands at a path below the root.
    Found { components: Vec<String>, is_dir: bool, meta: Meta },
}

/// What a [`WalkEntry`] stands for.
pub enum EntryModel {
    Unreadable,
    Found { path: Seq<Seq<char>>, is_dir: bool, meta: Meta },
}

impl WalkEntry {
    pub open spec fn model(self) -> EntryModel {
        match self {
            WalkEntry::Unreadable => EntryModel::Unreadable,
            WalkEntry::Found { components, is_dir, meta } => EntryModel::Found {
                path: text::texts(components@),
                is_dir,
                meta,
            },
        }
    }
}

/// A node without children, named by the last component of its path.
pub open spec fn leaf(path: Seq<Seq<char>>, is_dir: bool, meta: Meta) -> NodeModel {
    NodeModel {
        name: if path.len() == 0 {
            Seq::empty()
        } else {
            path.last()
        },
        is_dir,
        meta,
        children: Seq::empty(),
    }
}

/// The tree with one more entry.
pub open spec fn with_entry(tree: NodeModel, e: EntryModel) -> NodeModel {
    match e {
        EntryModel::Unreadable => tree,
        EntryModel::Found { path, is_dir, meta } => model::insert_path(
            tree,
            path,
            leaf(path, is_dir, meta),
        ),
    }
}

/// The tree with all the entries, one after the other.
pub open spec fn with_entries(tree: NodeModel, log: Seq<EntryModel>) -> NodeModel
    decreases log.len(),
{
    if log.len() == 0 {
        tree
    } else {
        with_entry(with_entries(tree, log.drop_last()), log.last())
    }
}

/// The number of entries that could not be read.
pub open spec fn unreadable(log: Seq<EntryModel>) -> nat
    decreases log.len(),
{
    if log.len() == 0 {
        0
    } else {
        unreadable(log.drop_last()) + (if log.last() is Unreadable {
            1nat
        } else {
            0nat
        })
    }
}

/// The root that a traversal starts with, named by its last component, or, if it
/// has none, as it is shown.
pub open spec fn walk_root(file_name: Option<Seq<char>>, shown: Seq<char>, meta: Meta) -> NodeModel {
    NodeModel {
        name: match file_name {
            Some(n) => n,
            None => shown,
        },
        is_dir: true,
        meta,
        children: Seq::empty(),
    }
}

/// A tree being built out of a traversal.
#[derive(Debug)]
pub struct WalkScan {
    pub tree: Node,
    pub skipped: u64,
    pub entries: u64,
}

/// The strings as slices.
pub(crate) fn slices_from<'a>(s: &'a Vec<String>, from: usize) -> (r: Vec<&'a str>)
    requires
        from <= s@.len(),
    ensures
        model::names(r@) == text::texts(s@).skip(from as int),
{
    let mut r: Vec<&'a str> = Vec::new();
    let mut i: usize = from;
    while i < s.len()
        invariant
            from <= i <= s@.len(),
            r@.len() == i - from,
            forall|j: int| 0 <= j < r@.len() ==> (#[trigger] r@[j])@ == s@[from + j]@,
        decreases s@.len() - i,
    {
        r.push(s[i].as_str());
        i += 1;
    }
    assert(model::names(r@) =~= text::texts(s@).skip(from as int));
    r
}

impl WalkScan {
    /// No more entries are skipped than there are, and the tree is
    /// well-formed.
    pub open spec fn wf(self) -> bool {
        self.tree.wf() && self.skipped <= self.entries
    }

    /// Starts with the root, which is named by its last component, or, if it
    /// has none, as it is shown.
    pub fn new(file_name: Option<&str>, shown: &str, meta: Meta) -> (r: Self)
        ensures
            r.tree.model() == (NodeModel {
                name: match file_name {
                    Some(n) => n@,
                    None => shown@,
                },
                is_dir: true,
                meta,
                children: Seq::empty(),
            }),
            r.tree.model() == walk_root(
                match file_name {
                    Some(n) => Some(n@),
                    None => None,
                },
                shown@,
                meta,
            ),
            r.skipped == 0,
            r.entries == 0,
            r.wf(),
    {
        let name = match file_name {
            Some(n) => n,
            None => shown,
        };
        WalkScan { tree: Node::new_dir(name, meta), skipped: 0, entries: 0 }
    }

    /// Takes in one entry. Once in 4096 entries there is progress to report.
    pub fn record(&mut self, entry: WalkEntry) -> (r: Option<ScanProgress>)
        requires
            old(self).wf(),
            old(self).entries < u64::MAX,
        ensures
            final(self).wf(),
            final(self).entries == old(self).entries + 1,
            final(self).skipped == old(self).skipped + (if entry is Unreadable {
                1int
            } else {
                0
            }),
            final(self).skipped == old(self).skipped + unreadable(seq![entry.model()]),
            final(self).tree.model() == with_entry(old(self).tree.model(), entry.model()),
            final(self).entries % PROGRESS_INTERVAL == 0 <==> r is Some,
            final(self).entries % 4096 == 0 <==> r is Some,
            r matches Some(p) ==> p == (ScanProgress::WalkEntries {
                entries: final(self).entries,
            }),
    {
        self.entries = self.entries + 1;
        proof {
            let none = Seq::<EntryModel>::empty();
            assert(seq![entry.model()].drop_last() =~= none);
            assert(unreadable(none) == 0);
        }
        match entry {
            WalkEntry::Unreadable => {
                self.skipped = self.skipped + 1;
            },
            WalkEntry::Found { components, is_dir, meta } => {
                let path = slices_from(&components, 0);
                assert(text::texts(components@).skip(0) =~= text::texts(components@));
                let name: &str = if components.len() == 0 {
                    ""
                } else {
                    components[components.len() - 1].as_str()
                };
                proof {
                    reveal_strlit("");
                    assert(components@.len() == 0 ==> name@ =~= Seq::<char>::empty());
                    assert(components@.len() > 0 ==> name@ == text::texts(components@).last());
                }
                let node = if is_dir {
                    Node::new_dir(name, meta)
                } else {
                    Node::new_file(name, meta)
                };
                assert(node.model() == leaf(text::texts(components@), is_dir, meta));
                self.tree.insert_at(path.as_slice(), node);
            },
        }
        if self.entries % PROGRESS_INTERVAL == 0 {
            Some(ScanProgress::WalkEntries { entries: self.entries })
        } else {
            None
        }
    }
}

} // verus!

//! Walks over directory trees: which path comes next when files are collected, copied or removed.
//!
//! A walk keeps what it still has to do on a stack, and asks for one thing at a time, so that the
//! file system can be asked in between.

use vstd::prelude::*;

use crate::path;
use crate::text;
use crate::vfs;
use crate::vfs::{DirEntry, EntryView, Errno, FileType, Metadata, VfsError};

verus! {

/// What a walk is for, which decides when a directory itself is dealt with.
#[derive(Debug, Clone, Copy, PartialEq, Eq, Structural)]
pub enum WalkKind {
    /// Directories are only gone through.
    Collect,
    /// A directory is made before what is in it is copied.
    Copy,
    /// A directory is removed after what is in it.
    Remove,
}

/// What a walk does next.
#[derive(Debug, PartialEq, Eq)]
pub enum WalkItem {
    /// It goes to a path, which is copied to `dest`. `directory` is what the listing said of it.
    Visit { path: String, dest: String, directory: bool },
    /// It is done with what is in a directory.
    Leave { path: String },
}

#[verifier::ext_equal]
pub enum ItemView {
    Visit { path: Seq<char>, dest: Seq<char>, directory: bool },
    Leave { path: Seq<char> },
}

impl WalkItem {
    pub open spec fn view(&self) -> ItemView {
        match self {
            WalkItem::Visit { path, dest, directory } => ItemView::Visit {
                path: path@,
                dest: dest@,
                directory: *directory,
            },
            WalkItem::Leave { path } => ItemView::Leave { path: path@ },
        }
    }
}

pub open spec fn items_view(items: Seq<WalkItem>) -> Seq<ItemView> {
    items.map_values(|i: WalkItem| i@)
}

/// The visit of an entry of a directory.
pub open spec fn child_item(path: Seq<char>, dest: Seq<char>, entry: EntryView) -> ItemView {
    ItemView::Visit {
        path: path::joined_path(path, entry.name),
        dest: path::joined_path(dest, entry.name),
        directory: entry.metadata.file_type == FileType::Directory,
    }
}

/// The visits of the entries from index `i` on, the first of them last.
pub open spec fn child_items(
    path: Seq<char>,
    dest: Seq<char>,
    entries: Seq<EntryView>,
    i: int,
) -> Seq<ItemView>
    decreases entries.len() - i,
{
    if i < 0 || i >= entries.len() {
        Seq::empty()
    } else {
        child_items(path, dest, entries, i + 1).push(child_item(path, dest, entries[i]))
    }
}

/// What is left to do once a directory was listed.
pub open spec fn entered(
    stack: Seq<ItemView>,
    kind: WalkKind,
    path: Seq<char>,
    dest: Seq<char>,
    entries: Seq<EntryView>,
) -> Seq<ItemView> {
    (if kind == WalkKind::Remove {
        stack.push(ItemView::Leave { path })
    } else {
        stack
    }) + child_items(path, dest, entries, 0)
}

/// A walk over a directory tree.
#[derive(Debug)]
pub struct TreeWalk {
    pub kind: WalkKind,
    pub stack: Vec<WalkItem>,
}

impl TreeWalk {
    /// What is left to do; the last item comes first.
    pub open spec fn view(&self) -> Seq<ItemView> {
        items_view(self.stack@)
    }

    /// A walk that starts at a path.
    pub fn new(kind: WalkKind, path: &str, dest: &str) -> (r: Self)
        ensures
            r.kind == kind,
            r@ == seq![ItemView::Visit { path: path@, dest: dest@, directory: true }],
    {
        let mut stack: Vec<WalkItem> = Vec::new();
        stack.push(
            WalkItem::Visit { path: text::copy(path), dest: text::copy(dest), directory: true },
        );
        let r = TreeWalk { kind, stack };
        proof {
            assert(r@ =~= seq![ItemView::Visit { path: path@, dest: dest@, directory: true }]);
        }
        r
    }

    /// Takes what comes next.
    pub fn next(&mut self) -> (r: Option<WalkItem>)
        ensures
            final(self).kind == old(self).kind,
            match r {
                None => old(self)@.len() == 0 && final(self)@ == old(self)@,
                Some(item) => {
                    &&& old(self)@.len() > 0
                    &&& item@ == old(self)@.last()
                    &&& final(self)@ == old(self)@.drop_last()
                },
            },
    {
        let ghost before = self.stack@;
        let r = self.stack.pop();
        proof {
            if before.len() > 0 {
                assert(items_view(before).last() == before.last()@);
                assert(items_view(self.stack@) =~= items_view(before).drop_last());
            } else {
                assert(items_view(self.stack@) =~= items_view(before));
            }
        }
        r
    }

    /// Goes into a directory that was listed.
    pub fn enter(&mut self, path: &str, dest: &str, entries: &Vec<DirEntry>)
        ensures
            final(self).kind == old(self).kind,
            final(self)@ == entered(
                old(self)@,
                old(self).kind,
                path@,
                dest@,
                vfs::entries_view(entries@),
            ),
    {
        let ghost all = vfs::entries_view(entries@);
        let ghost start = self.stack@;
        match self.kind {
            WalkKind::Remove => {
                let leave = WalkItem::Leave { path: text::copy(path) };
                self.stack.push(leave);
                proof {
                    assert(items_view(self.stack@) =~= items_view(start).push(leave@));
                }
            },
            _ => {},
        }
        let ghost base = self@;
        let mut i: usize = entries.len();
        proof {
            assert(base + child_items(path@, dest@, all, i as int) =~= base);
        }
        while i > 0
            invariant
                i <= entries@.len(),
                all == vfs::entries_view(entries@),
                self.kind == old(self).kind,
                self@ == base + child_items(path@, dest@, all, i as int),
            decreases i,
        {
            i = i - 1;
            let entry = &entries[i];
            proof {
                assert(all[i as int] == entry@);
            }
            let directory = match entry.metadata.file_type {
                FileType::Directory => true,
                FileType::File => false,
            };
            let child = WalkItem::Visit {
                path: path::join_path(path, entry.name.as_str()),
                dest: path::join_path(dest, entry.name.as_str()),
                directory,
            };
            let ghost before = self.stack@;
            self.stack.push(child);
            proof {
                assert(items_view(self.stack@) =~= items_view(before).push(child@));
                assert(base + child_items(path@, dest@, all, i as int) =~= (base + child_items(
                    path@,
                    dest@,
                    all,
                    i + 1,
                )).push(child@));
            }
        }
    }
}

/// What is done about a path that is copied or removed.
#[derive(Debug, Clone, Copy, PartialEq, Eq, Structural)]
pub enum Visit {
    /// The path is a file: it is copied, or removed.
    File,
    /// The path is a directory: it is gone into.
    Directory,
}

/// Decides about a path that was looked up. Without `-r` a directory is refused.
pub fn visit(found: Result<Metadata, VfsError>, recursive: bool) -> (r: Result<Visit, VfsError>)
    ensures
        match found {
            Err(err) => r == Err::<Visit, VfsError>(err),
            Ok(metadata) => r == (if metadata.file_type == FileType::File {
                Ok::<Visit, VfsError>(Visit::File)
            } else if recursive {
                Ok(Visit::Directory)
            } else {
                Err(VfsError { errno: Errno::EISDIR })
            }),
        },
{
    match found {
        Err(err) => Err(err),
        Ok(metadata) => match metadata.file_type {
            FileType::File => Ok(Visit::File),
            FileType::Directory => {
                if recursive {
                    Ok(Visit::Directory)
                } else {
                    Err(VfsError::new(Errno::EISDIR))
                }
            },
        },
    }
}

/// Decides about the directory that a copy makes: one that is there already will do.
pub fn made_directory(made: Result<(), VfsError>) -> (r: Result<(), VfsError>)
    ensures
        r == (match made {
            Err(err) => if err.errno == Errno::EEXIST {
                Ok::<(), VfsError>(())
            } else {
                Err(err)
            },
            Ok(()) => Ok(()),
        }),
{
    match made {
        Ok(()) => Ok(()),
        Err(err) => match err.errno() {
            Errno::EEXIST => Ok(()),
            _ => Err(err),
        },
    }
}

// ---- the order of a walk ----

/// A file, or a directory with its entries in the order in which they are listed.
pub enum Tree {
    File,
    Directory(Seq<(Seq<char>, Tree)>),
}

/// What a walk does to a path.
pub enum Step {
    File { path: Seq<char>, dest: Seq<char> },
    Enter { path: Seq<char>, dest: Seq<char> },
    Leave { path: Seq<char> },
}

/// Everything that a walk does to a tree, in order.
pub open spec fn steps(kind: WalkKind, path: Seq<char>, dest: Seq<char>, tree: Tree) -> Seq<Step>
    decreases tree, 0nat,
{
    match tree {
        Tree::File => seq![Step::File { path, dest }],
        Tree::Directory(entries) => {
            let inside = steps_from(kind, path, dest, entries, 0);
            match kind {
                WalkKind::Collect => inside,
                WalkKind::Copy => seq![Step::Enter { path, dest }] + inside,
                WalkKind::Remove => inside.push(Step::Leave { path }),
            }
        },
    }
}

/// Everything that a walk does to the entries from index `i` on.
pub open spec fn steps_from(
    kind: WalkKind,
    path: Seq<char>,
    dest: Seq<char>,
    entries: Seq<(Seq<char>, Tree)>,
    i: int,
) -> Seq<Step>
    decreases entries, (entries.len() - i) as nat,
{
    if i < 0 || i >= entries.len() {
        Seq::empty()
    } else {
        steps(
            kind,
            path::joined_path(path, entries[i].0),
            path::joined_path(dest, entries[i].0),
            entries[i].1,
        ) + steps_from(kind, path, dest, entries, i + 1)
    }
}

/// Something left to do, with the tree that is found there.
pub enum Task {
    Visit { path: Seq<char>, dest: Seq<char>, tree: Tree },
    Leave { path: Seq<char> },
}

/// Everything that a walk still does when these tasks are left, the last one first.
pub open spec fn remaining(kind: WalkKind, tasks: Seq<Task>) -> Seq<Step>
    decreases tasks.len(),
{
    if tasks.len() == 0 {
        Seq::empty()
    } else {
        (match tasks.last() {
            Task::Visit { path, dest, tree } => steps(kind, path, dest, tree),
            Task::Leave { path } => seq![Step::Leave { path }],
        }) + remaining(kind, tasks.drop_last())
    }
}

/// The tasks for the entries from index `i` on, the first of them last.
pub open spec fn child_tasks(
    path: Seq<char>,
    dest: Seq<char>,
    entries: Seq<(Seq<char>, Tree)>,
    i: int,
) -> Seq<Task>
    decreases entries.len() - i,
{
    if i < 0 || i >= entries.len() {
        Seq::empty()
    } else {
        child_tasks(path, dest, entries, i + 1).push(
            Task::Visit {
                path: path::joined_path(path, entries[i].0),
                dest: path::joined_path(dest, entries[i].0),
                tree: entries[i].1,
            },
        )
    }
}

/// The tasks that are left once a directory was gone into.
pub open spec fn entered_tasks(
    tasks: Seq<Task>,
    kind: WalkKind,
    path: Seq<char>,
    dest: Seq<char>,
    entries: Seq<(Seq<char>, Tree)>,
) -> Seq<Task> {
    (if kind == WalkKind::Remove {
        tasks.push(Task::Leave { path })
    } else {
        tasks
    }) + child_tasks(path, dest, entries, 0)
}

/// The item that stands for a task.
pub open spec fn item_of(task: Task) -> ItemView {
    match task {
        Task::Visit { path, dest, tree } => ItemView::Visit {
            path,
            dest,
            directory: tree is Directory,
        },
        Task::Leave { path } => ItemView::Leave { path },
    }
}

pub open spec fn items_of(tasks: Seq<Task>) -> Seq<ItemView> {
    tasks.map_values(|t: Task| item_of(t))
}

/// Whether a listing shows what is in a directory.
pub open spec fn lists(entries: Seq<EntryView>, inside: Seq<(Seq<char>, Tree)>) -> bool {
    &&& entries.len() == inside.len()
    &&& forall|i: int|
        0 <= i < entries.len() ==> (#[trigger] entries[i]).name == inside[i].0 && (
        entries[i].metadata.file_type == FileType::Directory) == (inside[i].1 is Directory)
}

proof fn lemma_child_items(
    path: Seq<char>,
    dest: Seq<char>,
    entries: Seq<EntryView>,
    inside: Seq<(Seq<char>, Tree)>,
    i: int,
)
    requires
        lists(entries, inside),
        0 <= i <= entries.len(),
    ensures
        items_of(child_tasks(path, dest, inside, i)) == child_items(path, dest, entries, i),
    decreases entries.len() - i,
{
    if i < entries.len() {
        lemma_child_items(path, dest, entries, inside, i + 1);
        assert(entries[i].name == inside[i].0);
        assert(items_of(child_tasks(path, dest, inside, i)) =~= child_items(
            path,
            dest,
            entries,
            i,
        ));
    } else {
        assert(items_of(child_tasks(path, dest, inside, i)) =~= child_items(
            path,
            dest,
            entries,
            i,
        ));
    }
}

/// A walk that was told what is in a directory has on its stack what is to be done there.
pub proof fn law_walk_follows_the_listing(
    tasks: Seq<Task>,
    kind: WalkKind,
    path: Seq<char>,
    dest: Seq<char>,
    entries: Seq<EntryView>,
    inside: Seq<(Seq<char>, Tree)>,
)
    requires
        lists(entries, inside),
    ensures
        items_of(entered_tasks(tasks, kind, path, dest, inside)) == entered(
            items_of(tasks),
            kind,
            path,
            dest,
            entries,
        ),
{
    lemma_child_items(path, dest, entries, inside, 0);
    assert(items_of(entered_tasks(tasks, kind, path, dest, inside)) =~= entered(
        items_of(tasks),
        kind,
        path,
        dest,
        entries,
    ));
}

proof fn lemma_remaining_children(
    kind: WalkKind,
    base: Seq<Task>,
    path: Seq<char>,
    dest: Seq<char>,
    entries: Seq<(Seq<char>, Tree)>,
    i: int,
)
    requires
        0 <= i <= entries.len(),
    ensures
        remaining(kind, base + child_tasks(path, dest, entries, i)) == steps_from(
            kind,
            path,
            dest,
            entries,
            i,
        ) + remaining(kind, base),
    decreases entries.len() - i,
{
    let tasks = base + child_tasks(path, dest, entries, i);
    if i < entries.len() {
        lemma_remaining_children(kind, base, path, dest, entries, i + 1);
        assert(tasks.drop_last() =~= base + child_tasks(path, dest, entries, i + 1));
        let first = steps(
            kind,
            path::joined_path(path, entries[i].0),
            path::joined_path(dest, entries[i].0),
            entries[i].1,
        );
        let rest = steps_from(kind, path, dest, entries, i + 1);
        assert(remaining(kind, tasks) == first + (rest + remaining(kind, base)));
        assert(first + (rest + remaining(kind, base)) =~= (first + rest) + remaining(kind, base));
    } else {
        assert(tasks =~= base);
        assert(steps_from(kind, path, dest, entries, i) + remaining(kind, base) =~= remaining(
            kind,
            base,
        ));
    }
}

/// Going into a directory leaves exactly the rest to be done: a copy has made the directory
/// before anything in it, a removal takes it away after everything in it, and the entries come in
/// the order of the listing.
pub proof fn law_walk_keeps_its_order(
    tasks: Seq<Task>,
    kind: WalkKind,
    path: Seq<char>,
    dest: Seq<char>,
    entries: Seq<(Seq<char>, Tree)>,
)
    ensures
        remaining(
            kind,
            tasks.push(Task::Visit { path, dest, tree: Tree::Directory(entries) }),
        ) == (if kind == WalkKind::Copy {
            seq![Step::Enter { path, dest }]
        } else {
            Seq::empty()
        }) + remaining(kind, entered_tasks(tasks, kind, path, dest, entries)),
{
    let all = tasks.push(Task::Visit { path, dest, tree: Tree::Directory(entries) });
    assert(all.drop_last() =~= tasks);
    let inside = steps_from(kind, path, dest, entries, 0);
    match kind {
        WalkKind::Remove => {
            let base = tasks.push(Task::Leave { path });
            lemma_remaining_children(kind, base, path, dest, entries, 0);
            assert(base.drop_last() =~= tasks);
            assert(inside.push(Step::Leave { path }) + remaining(kind, tasks) =~= inside + (seq![
                Step::Leave { path },
            ] + remaining(kind, tasks)));
            assert(Seq::<Step>::empty() + remaining(
                kind,
                entered_tasks(tasks, kind, path, dest, entries),
            ) =~= remaining(kind, entered_tasks(tasks, kind, path, dest, entries)));
        },
        WalkKind::Copy => {
            lemma_remaining_children(kind, tasks, path, dest, entries, 0);
            let enter = seq![Step::Enter { path, dest }];
            assert((enter + inside) + remaining(kind, tasks) =~= enter + (inside + remaining(
                kind,
                tasks,
            )));
        },
        WalkKind::Collect => {
            lemma_remaining_children(kind, tasks, path, dest, entries, 0);
            assert(Seq::<Step>::empty() + remaining(
                kind,
                entered_tasks(tasks, kind, path, dest, entries),
            ) =~= remaining(kind, entered_tasks(tasks, kind, path, dest, entries)));
        },
    }
}

/// Going into a directory keeps what was left to do before, and puts its entries on top, so that
/// they come in their order, each under the path of the directory and the destination. Where things
/// are removed the directory itself is left to the end of its entries, and otherwise it is not
/// visited again.
pub proof fn law_entries_come_before_what_is_left(
    stack: Seq<ItemView>,
    kind: WalkKind,
    path: Seq<char>,
    dest: Seq<char>,
    entries: Seq<EntryView>,
)
    ensures
        ({
            let after = entered(stack, kind, path, dest, entries);
            let own: int = if kind == WalkKind::Remove {
                1
            } else {
                0
            };
            &&& after.len() == stack.len() + own + entries.len()
            &&& after.take(stack.len() as int) == stack
            &&& kind == WalkKind::Remove ==> after[stack.len() as int] == (ItemView::Leave { path })
            &&& forall|k: int|
                0 <= k < entries.len() ==> after[after.len() - 1 - k] == (ItemView::Visit {
                    path: path::joined_path(path, (#[trigger] entries[k]).name),
                    dest: path::joined_path(dest, entries[k].name),
                    directory: entries[k].metadata.file_type == FileType::Directory,
                })
        }),
{
    lemma_children_reversed(path, dest, entries, 0);
    let after = entered(stack, kind, path, dest, entries);
    assert(after.take(stack.len() as int) =~= stack);
    let children = child_items(path, dest, entries, 0);
    assert forall|k: int| 0 <= k < entries.len() implies after[after.len() - 1 - k] == (
    ItemView::Visit {
        path: path::joined_path(path, (#[trigger] entries[k]).name),
        dest: path::joined_path(dest, entries[k].name),
        directory: entries[k].metadata.file_type == FileType::Directory,
    }) by {
        assert(children[entries.len() - 1 - k] == child_item(path, dest, entries[k]));
    }
}

proof fn lemma_children_reversed(
    path: Seq<char>,
    dest: Seq<char>,
    entries: Seq<EntryView>,
    i: int,
)
    requires
        0 <= i <= entries.len(),
    ensures
        child_items(path, dest, entries, i).len() == entries.len() - i,
        forall|k: int|
            i <= k < entries.len() ==> child_items(path, dest, entries, i)[entries.len() - 1 - k]
                == child_item(path, dest, #[trigger] entries[k]),
    decreases entries.len() - i,
{
    if i < entries.len() {
        lemma_children_reversed(path, dest, entries, i + 1);
    }
}

} // verus!

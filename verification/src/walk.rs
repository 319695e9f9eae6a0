//! The walk that finds every `.luaux` under a directory.
//!
//! Listing a directory is someone else's to do: a [`Walk`] says which one it
//! wants listed next and is handed what is in it, until it wants no more.

use vstd::prelude::*;
use vstd::string::*;

use crate::pieces::{self, strip_prefix, strip_suffix};
use crate::text::same;

verus! {

/// How many `.luaux` files to take on before giving up on being exhaustive.
///
/// A bound rather than a promise: the walk happens on the message loop, and a
/// pathological tree should cost a log line rather than a server that stops
/// answering. Reaching it is reported, because silently covering nine tenths of
/// a project would look exactly like covering none of it.
pub const LIMIT: usize = 4096;

/// One entry of a directory.
#[derive(Debug)]
pub struct Listed {
    pub name: String,
    pub path: String,
    pub directory: bool,
    pub link: bool,
}

/// An entry, as plain values.
pub struct ListedView {
    pub name: Seq<char>,
    pub path: Seq<char>,
    pub directory: bool,
    pub link: bool,
}

impl View for Listed {
    type V = ListedView;

    open spec fn view(&self) -> ListedView {
        ListedView {
            name: self.name@,
            path: self.path@,
            directory: self.directory,
            link: self.link,
        }
    }
}

/// What to do about an entry.
#[derive(Debug, Clone, Copy, PartialEq, Eq, Structural)]
pub enum Visit {
    /// Look inside.
    Descend,
    /// It is a file to compile.
    Take,
    Pass,
}

/// Directories never worth walking into. Package trees are the expensive ones —
/// `Packages/` in a Roblox project is routinely thousands of files, and none of
/// them are `.luaux` this project compiles.
pub open spec fn skipped(name: Seq<char>) -> bool {
    name == "node_modules"@ || name == "Packages"@ || name == "ServerPackages"@ || name
        == "DevPackages"@ || name == "target"@ || name == "dist"@
}

fn is_skipped(name: &str) -> (r: bool)
    ensures
        r == skipped(name@),
{
    same(name, "node_modules") || same(name, "Packages") || same(name, "ServerPackages") || same(
        name,
        "DevPackages",
    ) || same(name, "target") || same(name, "dist")
}

/// What to do about an entry. Symlinks are not followed: a link pointing at an
/// ancestor turns the walk into a loop. A name that is nothing but the extension
/// has none.
pub open spec fn visit_of(entry: ListedView) -> Visit {
    if entry.directory {
        if entry.link || pieces::begins(entry.name, "."@) || skipped(entry.name) {
            Visit::Pass
        } else {
            Visit::Descend
        }
    } else {
        match pieces::unended(entry.name, ".luaux"@) {
            Some(stem) => if stem.len() > 0 {
                Visit::Take
            } else {
                Visit::Pass
            },
            None => Visit::Pass,
        }
    }
}

/// What to do about an entry of a directory.
pub fn visit(entry: &Listed) -> (r: Visit)
    ensures
        r == visit_of(entry@),
{
    let name = entry.name.as_str();
    if entry.directory {
        // Symlinks are not followed: a link pointing at an ancestor turns this
        // walk into a loop, and there is no cheap way to notice.
        if entry.link || strip_prefix(name, ".").is_some() || is_skipped(name) {
            Visit::Pass
        } else {
            Visit::Descend
        }
    } else {
        match strip_suffix(name, ".luaux") {
            Some(stem) => if stem.is_empty() {
                Visit::Pass
            } else {
                Visit::Take
            },
            None => Visit::Pass,
        }
    }
}

/// How far a walk has come: what is left of each directory it is inside of, the
/// innermost last; the files it has found; and whether it stopped short.
#[verifier::ext_equal]
pub struct WalkView {
    pub stack: Seq<Seq<ListedView>>,
    pub found: Seq<Seq<char>>,
    pub truncated: bool,
}

impl WalkView {
    /// The same walk, stopped short.
    pub open spec fn stopped(self) -> WalkView {
        WalkView { stack: Seq::empty(), found: self.found, truncated: true }
    }

    /// Past the first entry of the innermost directory.
    pub open spec fn past(self) -> WalkView {
        let top = self.stack.last();
        WalkView { stack: self.stack.drop_last().push(top.drop_first()), ..self }
    }

    /// Out of the innermost directory.
    pub open spec fn out(self) -> WalkView {
        WalkView { stack: self.stack.drop_last(), ..self }
    }

    /// With one more file.
    pub open spec fn taking(self, path: Seq<char>) -> WalkView {
        WalkView { found: self.found.push(path), ..self }
    }
}

/// How many entries and directories are left.
pub open spec fn left(stack: Seq<Seq<ListedView>>) -> nat
    decreases stack.len(),
{
    if stack.len() == 0 {
        0
    } else {
        left(stack.drop_last()) + stack.last().len() + 1
    }
}

/// How a walk goes on, up to the next directory that it wants listed. It stops
/// short as soon as it has found enough and has a directory to go into or has
/// come out of one.
pub open spec fn ahead(walk: WalkView, out_root: Option<Seq<char>>) -> (WalkView, Option<Seq<char>>)
    decreases left(walk.stack),
    via ahead_decreases
{
    if walk.stack.len() == 0 {
        (walk, None)
    } else if walk.stack.last().len() == 0 {
        if walk.stack.len() > 1 && walk.found.len() >= LIMIT {
            (walk.stopped(), None)
        } else {
            ahead(walk.out(), out_root)
        }
    } else {
        let first = walk.stack.last()[0];
        match visit_of(first) {
            Visit::Pass => ahead(walk.past(), out_root),
            Visit::Take => ahead(walk.past().taking(first.path), out_root),
            Visit::Descend => if walk.found.len() >= LIMIT {
                (walk.stopped(), None)
            } else if out_root == Some(first.path) {
                ahead(walk.past(), out_root)
            } else {
                (walk.past(), Some(first.path))
            },
        }
    }
}

#[via_fn]
proof fn ahead_decreases(walk: WalkView, out_root: Option<Seq<char>>) {
    if walk.stack.len() > 0 && walk.stack.last().len() > 0 {
        lemma_past(walk);
    }
}

proof fn lemma_past(walk: WalkView)
    requires
        walk.stack.len() > 0,
        walk.stack.last().len() > 0,
    ensures
        left(walk.past().stack) < left(walk.stack),
{
    assert(walk.past().stack.drop_last() =~= walk.stack.drop_last());
}

/// A directory's entries, those still to come last to first.
spec fn frame_view(frame: Vec<Listed>) -> Seq<ListedView> {
    Seq::new(frame@.len(), |i: int| frame@[frame@.len() - 1 - i]@)
}

/// A walk through a directory tree.
#[derive(Debug)]
pub struct Walk {
    out_root: Option<String>,
    stack: Vec<Vec<Listed>>,
    found: Vec<String>,
    truncated: bool,
}

impl View for Walk {
    type V = WalkView;

    closed spec fn view(&self) -> WalkView {
        WalkView {
            stack: self.stack@.map_values(|frame: Vec<Listed>| frame_view(frame)),
            found: self.found@.map_values(|path: String| path@),
            truncated: self.truncated,
        }
    }
}

impl Walk {
    /// The directory that the build writes to, which is not walked into.
    pub closed spec fn out_root(self) -> Option<Seq<char>> {
        match self.out_root {
            Some(path) => Some(path@),
            None => None,
        }
    }

    /// A walk that has not begun.
    pub fn new(out_root: Option<String>) -> (r: Self)
        ensures
            r@.stack.len() == 0,
            r@.found.len() == 0,
            !r@.truncated,
            r.out_root() == crate::text::view_of(out_root),
    {
        Walk { out_root, stack: Vec::new(), found: Vec::new(), truncated: false }
    }

    /// Whether `directory` is where the build writes to.
    ///
    /// The build output holds generated `.luau`, and on a project without
    /// `[build] out` it is the source tree itself — so this is a check against
    /// descending into a directory, not a reason to skip the tree.
    pub fn is_out_root(&self, directory: &str) -> (r: bool)
        ensures
            r == (self.out_root() == Some(directory@)),
    {
        match &self.out_root {
            Some(out) => same(out.as_str(), directory),
            None => false,
        }
    }

    /// Goes into a directory with these entries. One that cannot be listed has
    /// none.
    pub fn enter(&mut self, entries: Vec<Listed>)
        ensures
            final(self)@ == (WalkView {
                stack: old(self)@.stack.push(entries@.map_values(|entry: Listed| entry@)),
                ..old(self)@
            }),
            final(self).out_root() == old(self).out_root(),
    {
        let ghost all = entries@;
        let ghost before = *self;
        let mut entries = entries;
        let mut frame: Vec<Listed> = Vec::new();
        while entries.len() > 0
            invariant
                frame@.len() + entries@.len() == all.len(),
                forall|i: int| 0 <= i < entries@.len() ==> #[trigger] entries@[i] == all[i],
                forall|i: int|
                    0 <= i < frame@.len() ==> #[trigger] frame@[i] == all[all.len() - 1 - i],
            decreases entries@.len(),
        {
            let ghost n = entries@.len();
            if let Some(entry) = entries.pop() {
                assert(entry == all[n - 1]);
                frame.push(entry);
            }
        }
        let ghost added = frame_view(frame);
        self.stack.push(frame);
        proof {
            assert(added =~= all.map_values(|entry: Listed| entry@));
            assert(self@.stack =~= before@.stack.push(added));
        }
    }

    /// Goes on up to the next directory to list, if there is one.
    pub fn next(&mut self) -> (r: Option<String>)
        ensures
            ({
                let (after, wanted) = ahead(old(self)@, old(self).out_root());
                &&& final(self)@ == after
                &&& crate::text::view_of(r) == wanted
            }),
            final(self).out_root() == old(self).out_root(),
    {
        let ghost begun = self@;
        let ghost root = self.out_root();
        loop
            invariant
                root == self.out_root(),
                ahead(begun, root) == ahead(self@, root),
                begun == old(self)@,
                root == old(self).out_root(),
            decreases left(self@.stack),
        {
            let ghost here = self@;
            let mut frame = match self.stack.pop() {
                Some(frame) => frame,
                None => {
                    assert(self@ =~= here);
                    return None;
                },
            };
            let ghost top = frame_view(frame);
            proof {
                assert(here.stack.last() == top);
                assert(self@ =~= here.out());
            }
            match frame.pop() {
                None => {
                    assert(top.len() == 0);
                    if self.stack.len() > 0 && self.found.len() >= LIMIT {
                        self.stop(Ghost(here));
                        return None;
                    }
                },
                Some(entry) => {
                    proof {
                        assert(top[0] == entry@);
                        assert(frame_view(frame) =~= top.drop_first());
                        lemma_past(here);
                    }
                    let visit = visit(&entry);
                    if visit == Visit::Descend && self.found.len() >= LIMIT {
                        self.stop(Ghost(here));
                        return None;
                    }
                    self.stack.push(frame);
                    assert(self@.stack =~= here.past().stack);
                    assert(self@ =~= here.past());
                    match visit {
                        Visit::Pass => {},
                        Visit::Take => {
                            self.found.push(entry.path);
                            assert(self@ =~= here.past().taking(top[0].path));
                        },
                        Visit::Descend => {
                            if !self.is_out_root(entry.path.as_str()) {
                                return Some(entry.path);
                            }
                        },
                    }
                },
            }
        }
    }

    fn stop(&mut self, Ghost(here): Ghost<WalkView>)
        requires
            old(self)@.found == here.found,
        ensures
            final(self)@ == here.stopped(),
            final(self).out_root() == old(self).out_root(),
    {
        self.stack = Vec::new();
        self.truncated = true;
        assert(self@ =~= here.stopped());
    }

    /// What was found, and whether that may not be all.
    pub fn finish(self) -> (r: (Vec<String>, bool))
        ensures
            r.0@.map_values(|path: String| path@) == self@.found,
            r.1 == self@.truncated,
    {
        (self.found, self.truncated)
    }
}

/// A directory tree, as it is on disk.
pub enum Entry {
    File { name: Seq<char>, path: Seq<char>, link: bool },
    Folder { name: Seq<char>, path: Seq<char>, link: bool, entries: Seq<Entry> },
}

/// An entry of a tree, as its directory lists it.
pub open spec fn listed(entry: Entry) -> ListedView {
    match entry {
        Entry::File { name, path, link } => ListedView { name, path, directory: false, link },
        Entry::Folder { name, path, link, .. } => ListedView { name, path, directory: true, link },
    }
}

/// Entries, as their directory lists them.
pub open spec fn listing(entries: Seq<Entry>) -> Seq<ListedView> {
    entries.map_values(|entry: Entry| listed(entry))
}

/// What was found, and whether that may not be all.
pub struct Found {
    pub found: Seq<Seq<char>>,
    pub truncated: bool,
}

/// Every file to compile among some entries and below them, depth first, after
/// those that were found before. Once there are enough, no other directory is
/// gone into.
pub open spec fn collected(
    entries: Seq<Entry>,
    out_root: Option<Seq<char>>,
    found: Seq<Seq<char>>,
) -> Found
    decreases entries,
{
    if entries.len() == 0 {
        Found { found, truncated: false }
    } else {
        let rest = entries.drop_first();
        match (visit_of(listed(entries[0])), entries[0]) {
            (Visit::Take, _) => collected(
                rest,
                out_root,
                found.push(listed(entries[0]).path),
            ),
            (Visit::Descend, Entry::Folder { path, entries: inside, .. }) => if found.len()
                >= LIMIT {
                Found { found, truncated: true }
            } else if out_root == Some(path) {
                collected(rest, out_root, found)
            } else {
                let inner = collected(inside, out_root, found);
                if inner.found.len() >= LIMIT {
                    Found { found: inner.found, truncated: true }
                } else {
                    collected(rest, out_root, inner.found)
                }
            },
            _ => collected(rest, out_root, found),
        }
    }
}

/// Every file that is found from inside some directories: what is left of the
/// innermost one first, then of the one around it.
pub open spec fn collected_from(
    stack: Seq<Seq<Entry>>,
    out_root: Option<Seq<char>>,
    found: Seq<Seq<char>>,
) -> Found
    decreases stack.len(),
{
    if stack.len() == 0 {
        Found { found, truncated: false }
    } else {
        let inner = collected(stack.last(), out_root, found);
        if inner.truncated || stack.len() == 1 {
            inner
        } else if inner.found.len() >= LIMIT {
            Found { found: inner.found, truncated: true }
        } else {
            collected_from(stack.drop_last(), out_root, inner.found)
        }
    }
}

/// Directories of a tree, as a walk knows them.
pub open spec fn listings(stack: Seq<Seq<Entry>>) -> Seq<Seq<ListedView>> {
    stack.map_values(|entries: Seq<Entry>| listing(entries))
}

/// Whether a walk that stands inside some directories of a tree still finds what
/// there is to find from there.
pub open spec fn on_course(
    walk: WalkView,
    stack: Seq<Seq<Entry>>,
    out_root: Option<Seq<char>>,
    result: Found,
) -> bool {
    &&& walk.stack == listings(stack)
    &&& !walk.truncated
    &&& collected_from(stack, out_root, walk.found) == result
}

/// Whether a walk that wants a directory listed, and goes into what is in a
/// folder of the tree that is there, is still on course.
pub open spec fn goes_into(
    walk: WalkView,
    path: Seq<char>,
    around: Seq<Seq<Entry>>,
    folder: Entry,
    out_root: Option<Seq<char>>,
    result: Found,
) -> bool {
    &&& folder is Folder
    &&& listed(folder).path == path
    &&& on_course(
        WalkView { stack: walk.stack.push(listing(inside(folder))), ..walk },
        around.push(inside(folder)),
        out_root,
        result,
    )
}

/// Whether a walk that went on has found what there is to find, or wants a
/// directory of the tree listed that keeps it on course.
pub open spec fn keeps_course(
    step: (WalkView, Option<Seq<char>>),
    out_root: Option<Seq<char>>,
    result: Found,
) -> bool {
    match step.1 {
        None => step.0.found == result.found && step.0.truncated == result.truncated,
        Some(path) => exists|around: Seq<Seq<Entry>>, folder: Entry| #[trigger]
            goes_into(step.0, path, around, folder, out_root, result),
    }
}

/// A walk finds what a search of the whole tree finds. Where it wants no more,
/// that is what it has found; where it wants a directory listed, that is one of
/// the tree's, and going into what is listed there leaves the result the same.
pub proof fn law_a_walk_finds_every_file(
    walk: WalkView,
    stack: Seq<Seq<Entry>>,
    out_root: Option<Seq<char>>,
    result: Found,
)
    requires
        on_course(walk, stack, out_root, result),
    ensures
        keeps_course(ahead(walk, out_root), out_root, result),
    decreases left(walk.stack),
{
    if stack.len() == 0 {
        assert(walk.stack.len() == 0);
    } else {
        let top = stack.last();
        assert(walk.stack.last() == listing(top));
        if top.len() == 0 {
            let outer = stack.drop_last();
            assert(walk.out().stack =~= listings(outer));
            if stack.len() == 1 {
                assert(outer.len() == 0);
                law_a_walk_finds_every_file(walk.out(), outer, out_root, result);
            } else if walk.found.len() < LIMIT {
                law_a_walk_finds_every_file(walk.out(), outer, out_root, result);
            }
        } else {
            let entry = top[0];
            let rest = top.drop_first();
            let around = stack.drop_last().push(rest);
            lemma_past(walk);
            assert(walk.stack.last()[0] == listed(entry));
            assert(listing(top).drop_first() =~= listing(rest));
            assert(walk.past().stack =~= listings(around));
            assert(around.drop_last() =~= stack.drop_last());
            match visit_of(listed(entry)) {
                Visit::Pass => {
                    law_a_walk_finds_every_file(walk.past(), around, out_root, result);
                },
                Visit::Take => {
                    law_a_walk_finds_every_file(
                        walk.past().taking(listed(entry).path),
                        around,
                        out_root,
                        result,
                    );
                },
                Visit::Descend => {
                    if walk.found.len() < LIMIT {
                        if out_root == Some(listed(entry).path) {
                            law_a_walk_finds_every_file(walk.past(), around, out_root, result);
                        } else {
                            lemma_entered(stack, entry, out_root, walk.found);
                            let after = walk.past();
                            assert(after.stack.push(listing(inside(entry))) =~= listings(
                                around.push(inside(entry)),
                            ));
                            let step = ahead(walk, out_root);
                            assert(step.0 == after);
                            assert(step.1 == Some(listed(entry).path));
                            assert(goes_into(
                                step.0,
                                step.1->Some_0,
                                around,
                                entry,
                                out_root,
                                result,
                            ));
                        }
                    }
                },
            }
        }
    }
}

/// What is in a folder.
pub open spec fn inside(entry: Entry) -> Seq<Entry> {
    match entry {
        Entry::Folder { entries, .. } => entries,
        Entry::File { .. } => Seq::empty(),
    }
}

/// Going into a folder is to search it before the rest.
proof fn lemma_entered(
    stack: Seq<Seq<Entry>>,
    entry: Entry,
    out_root: Option<Seq<char>>,
    found: Seq<Seq<char>>,
)
    requires
        stack.len() > 0,
        stack.last().len() > 0,
        stack.last()[0] == entry,
        visit_of(listed(entry)) == Visit::Descend,
        found.len() < LIMIT,
        out_root != Some(listed(entry).path),
    ensures
        collected_from(stack, out_root, found) == collected_from(
            stack.drop_last().push(stack.last().drop_first()).push(inside(entry)),
            out_root,
            found,
        ),
{
    let rest = stack.last().drop_first();
    let around = stack.drop_last().push(rest);
    let deeper = around.push(inside(entry));
    assert(deeper.drop_last() =~= around);
    assert(around.drop_last() =~= stack.drop_last());
    let inner = collected(inside(entry), out_root, found);
    lemma_truncated(inside(entry), out_root, found);
    assert(entry is Folder);
    assert(collected(stack.last(), out_root, found) == if inner.found.len() >= LIMIT {
        Found { found: inner.found, truncated: true }
    } else {
        collected(rest, out_root, inner.found)
    });
    assert(collected_from(deeper, out_root, found) == if inner.found.len() >= LIMIT {
        Found { found: inner.found, truncated: true }
    } else {
        collected_from(around, out_root, inner.found)
    });
    if inner.found.len() < LIMIT {
        assert(around.last() == rest);
        assert(collected_from(around, out_root, inner.found) == collected_from(
            stack,
            out_root,
            found,
        ));
    }
}

/// A search is cut short only once there are enough files.
proof fn lemma_truncated(entries: Seq<Entry>, out_root: Option<Seq<char>>, found: Seq<Seq<char>>)
    ensures
        collected(entries, out_root, found).truncated ==> collected(
            entries,
            out_root,
            found,
        ).found.len() >= LIMIT,
    decreases entries,
{
    if entries.len() > 0 {
        let rest = entries.drop_first();
        lemma_truncated(rest, out_root, found);
        lemma_truncated(rest, out_root, found.push(listed(entries[0]).path));
        if let Entry::Folder { entries: contents, .. } = entries[0] {
            let inner = collected(contents, out_root, found);
            lemma_truncated(rest, out_root, inner.found);
        }
    }
}

} // verus!

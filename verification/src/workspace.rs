//! Every `.luaux` in the project, not just the ones the editor opened.
//!
//! A `.luaux` requiring another `.luaux` was the one thing the proxy could not
//! answer, and the reason is worth writing down because it decides the whole
//! shape of this file. luau-lsp resolves a require in **two steps, from two
//! different sources**:
//!
//! - *existence* is checked on the filesystem, and
//! - *content* comes from the open document, when it holds one.
//!
//! A module handed over by `textDocument/didOpen` and **not present on disk** is
//! `Unknown require`; one present on disk as a *zero-byte file* resolves, and is
//! then typed entirely from the text that was handed over.
//!
//! So two things are needed, and neither is a fork:
//!
//! 1. Something has to exist at the build path. The compiled output is written
//!    there — **only when nothing is there already**, so a real `luaux build`
//!    always wins and this never fights `--watch`.
//! 2. Every `.luaux` has to be compiled and handed over, not only the ones the
//!    editor happens to have open. That is what [`Workspace::scan`] is for.
//!
//! Without (2), a require of an unopened file gets the types from the last
//! build rather than from the file as it is now, which is the same class of
//! wrong answer as a stale hover — but silent.

use vstd::prelude::*;
use vstd::string::*;

use luaux::config::Config;

use crate::analysis::{self, compile_text, Compilation, CompilationView};
use crate::project::Project;
use crate::resolving::{self, is_among};
use crate::text::same;

verus! {

/// One `.luaux` that is not open in the editor, compiled and handed to the
/// child so that a require of it resolves.
#[derive(Debug)]
pub struct Module {
    /// `src/Card.luaux`.
    pub source: String,
    /// `build/Card.luau` — the path the build already writes.
    pub build: String,
    /// The generated Luau last handed over.
    pub output: String,
    /// Modification time of the source when it was last compiled, so an
    /// unchanged file is not recompiled on every watcher event.
    pub mtime: Option<u128>,
}

/// A module, as plain values.
pub struct ModuleView {
    pub build: Seq<char>,
    pub output: Seq<char>,
    pub mtime: Option<u128>,
}

impl View for Module {
    type V = ModuleView;

    open spec fn view(&self) -> ModuleView {
        ModuleView { build: self.build@, output: self.output@, mtime: self.mtime }
    }
}

/// A `.luaux` that is on disk.
#[derive(Debug)]
pub struct Seen {
    pub source: String,
    /// Where the build writes it to.
    pub build: String,
    /// When it was last modified; `None` is "cannot tell".
    pub mtime: Option<u128>,
    /// What it says, unless it was not wanted or could not be read.
    pub text: Option<String>,
}

/// Modules by where their source is. Of two with the same source, the later one
/// stands.
pub open spec fn modules_of(list: Seq<Module>) -> Map<Seq<char>, ModuleView>
    decreases list.len(),
{
    if list.len() == 0 {
        Map::empty()
    } else {
        modules_of(list.drop_last()).insert(list.last().source@, list.last()@)
    }
}

/// Whether no two modules have the same source.
pub open spec fn distinct(list: Seq<Module>) -> bool {
    forall|i: int, j: int|
        0 <= i < j < list.len() ==> (#[trigger] list[i]).source@ != (#[trigger] list[j]).source@
}

proof fn lemma_modules(list: Seq<Module>)
    requires
        distinct(list),
    ensures
        forall|i: int|
            0 <= i < list.len() ==> modules_of(list).contains_key((#[trigger] list[i]).source@)
                && modules_of(list)[list[i].source@] == list[i]@,
        forall|key: Seq<char>| #[trigger]
            modules_of(list).contains_key(key) ==> exists|i: int|
                0 <= i < list.len() && (#[trigger] list[i]).source@ == key,
    decreases list.len(),
{
    if list.len() > 0 {
        let rest = list.drop_last();
        assert(distinct(rest)) by {
            assert forall|i: int, j: int| 0 <= i < j < rest.len() implies (
            #[trigger] rest[i]).source@ != (#[trigger] rest[j]).source@ by {
                assert(list[i].source@ != list[j].source@);
            }
        }
        lemma_modules(rest);
        assert forall|i: int| 0 <= i < list.len() implies modules_of(list).contains_key(
            (#[trigger] list[i]).source@,
        ) && modules_of(list)[list[i].source@] == list[i]@ by {
            if i < rest.len() {
                assert(rest[i] == list[i]);
                assert(list[i].source@ != list[list.len() - 1].source@);
            }
        }
        assert forall|key: Seq<char>| #[trigger] modules_of(list).contains_key(key) implies exists|
            i: int,
        |
            0 <= i < list.len() && (#[trigger] list[i]).source@ == key by {
            if key == list.last().source@ {
                assert(list[list.len() - 1].source@ == key);
            } else {
                assert(modules_of(rest).contains_key(key));
                let i = choose|i: int| 0 <= i < rest.len() && (#[trigger] rest[i]).source@ == key;
                assert(list[i].source@ == key);
            }
        }
    }
}

/// What one scan changed, for the caller to act on and log.
#[derive(Debug)]
pub struct Changes {
    /// Modules to hand to the child — new, or compiled to something different.
    pub updated: Vec<String>,
    /// Modules whose `.luaux` is gone; the child should forget them.
    pub removed: Vec<String>,
    /// Modules that were compiled, and for which something has to exist at the
    /// build path.
    pub compiled: Vec<String>,
    /// How many build outputs were created because nothing was there.
    pub materialised: usize,
    /// Files seen in total.
    pub seen: usize,
    /// Whether the walk was cut short.
    pub truncated: bool,
}

/// Strings as texts.
pub open spec fn sources(list: Seq<String>) -> Seq<Seq<char>> {
    list.map_values(|one: String| one@)
}

/// Whether a file is one whose text has to be read and compiled. The editor's
/// buffer is the truth for an open one, and a modification time that has not
/// moved means the text has not either.
pub open spec fn wanted(
    modules: Map<Seq<char>, ModuleView>,
    open: Set<Seq<char>>,
    source: Seq<char>,
    mtime: Option<u128>,
) -> bool {
    &&& !open.contains(source)
    &&& !(mtime is Some && modules.contains_key(source) && modules[source].mtime == mtime)
}

/// How far a scan has come.
pub struct Progress {
    pub modules: Map<Seq<char>, ModuleView>,
    pub updated: Seq<Seq<char>>,
    pub compiled: Seq<Seq<char>>,
}

/// What a compilation puts out.
pub open spec fn output_of(compilation: CompilationView) -> Option<Seq<char>> {
    match compilation {
        CompilationView::Done { output, .. } => Some(output),
        CompilationView::Failed(_) => None,
    }
}

/// What a compilation puts out, if there was one.
pub open spec fn put_out(compilation: Option<Compilation>) -> Option<Seq<char>> {
    match compilation {
        Some(compilation) => output_of(compilation@),
        None => None,
    }
}

impl Progress {
    /// The scan after one more file, given what it compiled to. A file that
    /// could not be read, or that compiled to nothing, leaves what there was:
    /// last-known types for a dependency someone is mid-edit beats none.
    pub open spec fn after(
        self,
        open: Set<Seq<char>>,
        file: Seen,
        output: Option<Seq<char>>,
    ) -> Progress {
        match output {
            Some(output) if wanted(self.modules, open, file.source@, file.mtime)
                && file.text is Some => {
                let unchanged = self.modules.contains_key(file.source@)
                    && self.modules[file.source@].output == output;
                Progress {
                    modules: self.modules.insert(
                        file.source@,
                        ModuleView { build: file.build@, output, mtime: file.mtime },
                    ),
                    // A touched file that compiles to what it already compiled to
                    // is not a change the child needs told about.
                    updated: if unchanged {
                        self.updated
                    } else {
                        self.updated.push(file.source@)
                    },
                    compiled: self.compiled.push(file.source@),
                }
            },
            _ => self,
        }
    }
}

/// A scan after each of some files, given what each compiled to.
pub open spec fn scanned(
    modules: Map<Seq<char>, ModuleView>,
    open: Set<Seq<char>>,
    files: Seq<Seen>,
    outputs: Seq<Option<Seq<char>>>,
) -> Progress
    decreases files.len(),
{
    if files.len() == 0 {
        Progress { modules, updated: Seq::empty(), compiled: Seq::empty() }
    } else {
        scanned(modules, open, files.drop_last(), outputs).after(
            open,
            files.last(),
            outputs[files.len() - 1],
        )
    }
}

/// Whether these are what the compiler may put out for each file that is
/// compiled.
pub open spec fn compiles_to(
    config: Config,
    modules: Map<Seq<char>, ModuleView>,
    open: Set<Seq<char>>,
    files: Seq<Seen>,
    outputs: Seq<Option<Seq<char>>>,
) -> bool {
    &&& outputs.len() == files.len()
    &&& forall|i: int|
        #![trigger files[i]]
        0 <= i < files.len() && wanted(
            scanned(modules, open, files.take(i), outputs).modules,
            open,
            files[i].source@,
            files[i].mtime,
        ) ==> (files[i].text matches Some(text) ==> exists|compilation: CompilationView|
            #![trigger output_of(compilation)]
            analysis::comes_to(config, text@, compilation) && outputs[i] == output_of(
                compilation,
            ))
}

/// The sources of files that are on disk.
pub open spec fn on_disk(files: Seq<Seen>) -> Set<Seq<char>> {
    Set::new(
        |source: Seq<char>|
            exists|i: int| 0 <= i < files.len() && (#[trigger] files[i]).source@ == source,
    )
}

/// The modules that stay: those that are on disk and not open.
pub open spec fn kept(
    modules: Map<Seq<char>, ModuleView>,
    open: Set<Seq<char>>,
    found: Set<Seq<char>>,
) -> Map<Seq<char>, ModuleView> {
    modules.restrict(
        Set::new(|source: Seq<char>| !open.contains(source) && found.contains(source)),
    )
}

/// The modules that are gone: neither on disk nor open. One that was opened is
/// no longer among the modules either, but the child keeps it, and the server
/// keeps it current from the live buffer.
pub open spec fn gone(
    modules: Map<Seq<char>, ModuleView>,
    open: Set<Seq<char>>,
    found: Set<Seq<char>>,
) -> Set<Seq<char>> {
    modules.dom().filter(
        |source: Seq<char>| !open.contains(source) && !found.contains(source),
    )
}

/// Whether a scan of some files comes to these modules and these changes, given
/// what each compiled to.
pub open spec fn comes_to(
    before: Map<Seq<char>, ModuleView>,
    open: Set<Seq<char>>,
    files: Seq<Seen>,
    outputs: Seq<Option<Seq<char>>>,
    after: Map<Seq<char>, ModuleView>,
    changes: Changes,
) -> bool {
    let progress = scanned(before, open, files, outputs);
    let found = on_disk(files);
    &&& after == kept(progress.modules, open, found)
    &&& sources(changes.updated@) == progress.updated
    &&& sources(changes.compiled@) == progress.compiled
    &&& sources(changes.removed@).no_duplicates()
    &&& resolving::as_set(changes.removed@) == gone(progress.modules, open, found)
}

/// The `.luaux` files behind the open ones.
#[derive(Debug)]
pub struct Workspace {
    modules: Vec<Module>,
    /// Whether the file count has already been complained about, so the warning
    /// is a property of the project rather than of every watcher event.
    warned: bool,
}

impl View for Workspace {
    type V = Map<Seq<char>, ModuleView>;

    closed spec fn view(&self) -> Map<Seq<char>, ModuleView> {
        modules_of(self.modules@)
    }
}

impl Workspace {
    /// What a workspace keeps: no two modules with the same source.
    pub closed spec fn wf(self) -> bool {
        distinct(self.modules@)
    }

    /// Whether the file count has been complained about.
    pub closed spec fn has_warned(self) -> bool {
        self.warned
    }

    pub fn new() -> (r: Self)
        ensures
            r.wf(),
            r@ == Map::<Seq<char>, ModuleView>::empty(),
            !r.has_warned(),
    {
        Workspace { modules: Vec::new(), warned: false }
    }

    fn find(&self, source: &str) -> (r: Option<usize>)
        requires
            self.wf(),
        ensures
            match r {
                Some(i) => {
                    &&& i < self.modules@.len()
                    &&& self.modules@[i as int].source@ == source@
                    &&& self@.contains_key(source@)
                    &&& self@[source@] == self.modules@[i as int]@
                },
                None => {
                    &&& !self@.contains_key(source@)
                    &&& forall|i: int|
                        0 <= i < self.modules@.len() ==> (#[trigger] self.modules@[i]).source@
                            != source@
                },
            },
    {
        proof {
            lemma_modules(self.modules@);
        }
        let mut i: usize = 0;
        while i < self.modules.len()
            invariant
                self.wf(),
                i <= self.modules@.len(),
                forall|j: int| 0 <= j < i ==> (#[trigger] self.modules@[j]).source@ != source@,
            decreases self.modules@.len() - i,
        {
            if same(self.modules[i].source.as_str(), source) {
                proof {
                    lemma_modules(self.modules@);
                }
                return Some(i);
            }
            i = i + 1;
        }
        proof {
            lemma_modules(self.modules@);
        }
        None
    }

    pub fn get(&self, source: &str) -> (r: Option<&Module>)
        requires
            self.wf(),
        ensures
            match r {
                Some(module) => self@.contains_key(source@) && self@[source@] == module@
                    && module.source@ == source@,
                None => !self@.contains_key(source@),
            },
    {
        match self.find(source) {
            Some(i) => Some(&self.modules[i]),
            None => None,
        }
    }

    /// Every module, in no particular order.
    pub fn modules(&self) -> (r: &[Module])
        requires
            self.wf(),
        ensures
            modules_of(r@) == self@,
            distinct(r@),
    {
        self.modules.as_slice()
    }

    /// Whether a file that is on disk has to be read.
    ///
    /// `open` is the set of source paths the editor has open. Those are already
    /// synced from their live buffers by the server's own document handling, and
    /// compiling them a second time from disk would hand the child the *saved*
    /// text — undoing the freshness this module exists to provide.
    pub fn wants(&self, source: &str, mtime: Option<u128>, open: &Vec<String>) -> (r: bool)
        requires
            self.wf(),
        ensures
            r == wanted(self@, resolving::as_set(open@), source@, mtime),
    {
        if is_among(open, source) {
            return false;
        }
        // An mtime that has not moved means the text has not either. `None` is
        // "cannot tell", which is a reason to recompile rather than to assume.
        match (mtime, self.find(source)) {
            (Some(now), Some(i)) => match self.modules[i].mtime {
                Some(then) => now != then,
                None => true,
            },
            _ => true,
        }
    }

    fn insert(&mut self, module: Module)
        requires
            old(self).wf(),
        ensures
            final(self).wf(),
            final(self)@ == old(self)@.insert(module.source@, module@),
            final(self).has_warned() == old(self).has_warned(),
    {
        let ghost before = self.modules@;
        let ghost source = module.source@;
        let ghost view = module@;
        match self.find(module.source.as_str()) {
            Some(i) => {
                self.modules.set(i, module);
                proof {
                    let after = self.modules@;
                    assert forall|a: int, b: int| 0 <= a < b < after.len() implies (
                    #[trigger] after[a]).source@ != (#[trigger] after[b]).source@ by {
                        assert(before[a].source@ != before[b].source@);
                    }
                    lemma_modules(before);
                    lemma_modules(after);
                    assert forall|key: Seq<char>| #[trigger]
                        modules_of(after).contains_key(key) == modules_of(before).insert(
                            source,
                            view,
                        ).contains_key(key) by {
                        if modules_of(after).contains_key(key) {
                            let a = choose|a: int|
                                0 <= a < after.len() && (#[trigger] after[a]).source@ == key;
                            assert(before[a].source@ == key);
                        }
                        if modules_of(before).contains_key(key) {
                            let a = choose|a: int|
                                0 <= a < before.len() && (#[trigger] before[a]).source@ == key;
                            assert(after[a].source@ == key);
                        }
                        assert(after[i as int].source@ == source);
                    }
                    assert forall|key: Seq<char>| #[trigger]
                        modules_of(after).contains_key(key) implies modules_of(after)[key]
                        == modules_of(before).insert(source, view)[key] by {
                        let a = choose|a: int|
                            0 <= a < after.len() && (#[trigger] after[a]).source@ == key;
                        if a != i {
                            assert(before[a] == after[a]);
                            if a < i {
                                assert(before[a].source@ != before[i as int].source@);
                            } else {
                                assert(before[i as int].source@ != before[a].source@);
                            }
                        }
                    }
                    assert(modules_of(after) =~= modules_of(before).insert(source, view));
                }
            },
            None => {
                self.modules.push(module);
                proof {
                    let after = self.modules@;
                    assert forall|a: int, b: int| 0 <= a < b < after.len() implies (
                    #[trigger] after[a]).source@ != (#[trigger] after[b]).source@ by {
                        assert(after[a] == before[a]);
                        if b < before.len() {
                            assert(before[a].source@ != before[b].source@);
                        }
                    }
                    assert(after.drop_last() =~= before);
                }
            },
        }
    }

    /// Compiles a file, and takes what it compiles to.
    ///
    /// Recovering, for the same reason [`crate::analysis`] does: a half-written
    /// dependency should cost the broken part of its own types, not every type
    /// in every file that requires it.
    ///
    /// A compilation that fails is a file that produced no Luau at all — an
    /// import deleted, so `create` is out of scope, or a lex error. There is
    /// nothing to hand over, so the previous good output is deliberately left in
    /// place and still open in the child. Its modification time is left stale
    /// with it, so the next scan tries again.
    pub fn take(&mut self, file: &Seen, open: &Vec<String>, compilation: Option<Compilation>, changes: &mut Changes)
        requires
            old(self).wf(),
        ensures
            final(self).wf(),
            final(self).has_warned() == old(self).has_warned(),
            ({
                let before = Progress {
                    modules: old(self)@,
                    updated: sources(old(changes).updated@),
                    compiled: sources(old(changes).compiled@),
                };
                let after = before.after(
                    resolving::as_set(open@),
                    *file,
                    put_out(compilation),
                );
                &&& final(self)@ == after.modules
                &&& sources(final(changes).updated@) == after.updated
                &&& sources(final(changes).compiled@) == after.compiled
            }),
            final(changes).removed == old(changes).removed,
            final(changes).seen == old(changes).seen,
            final(changes).materialised == old(changes).materialised,
            final(changes).truncated == old(changes).truncated,
    {
        if !self.wants(file.source.as_str(), file.mtime, open) || file.text.is_none() {
            return;
        }
        let output = match compilation {
            Some(Compilation::Done { output, .. }) => output,
            _ => {
                return;
            },
        };
        let unchanged = match self.find(file.source.as_str()) {
            Some(i) => same(self.modules[i].output.as_str(), output.as_str()),
            None => false,
        };
        let ghost updated = changes.updated@;
        let ghost compiled = changes.compiled@;
        if !unchanged {
            changes.updated.push(file.source.clone());
            assert(sources(changes.updated@) =~= sources(updated).push(file.source@));
        }
        changes.compiled.push(file.source.clone());
        assert(sources(changes.compiled@) =~= sources(compiled).push(file.source@));
        self.insert(
            Module {
                source: file.source.clone(),
                build: file.build.clone(),
                output,
                mtime: file.mtime,
            },
        );
    }

    /// Drops the modules that are open or gone, and says which are gone.
    fn retain(&mut self, files: &Vec<Seen>, open: &Vec<String>) -> (r: Vec<String>)
        requires
            old(self).wf(),
        ensures
            final(self).wf(),
            final(self).has_warned() == old(self).has_warned(),
            final(self)@ == kept(old(self)@, resolving::as_set(open@), on_disk(files@)),
            sources(r@).no_duplicates(),
            resolving::as_set(r@) == gone(
                old(self)@,
                resolving::as_set(open@),
                on_disk(files@),
            ),
    {
        let ghost opened = resolving::as_set(open@);
        let ghost found = on_disk(files@);
        let mut removed: Vec<String> = Vec::new();
        let mut stay: Vec<Module> = Vec::new();
        let mut modules: Vec<Module> = Vec::new();
        std::mem::swap(&mut modules, &mut self.modules);
        let ghost all = modules@;
        for module in it: modules
            invariant
                it.seq() == all,
                distinct(all),
                opened == resolving::as_set(open@),
                found == on_disk(files@),
                distinct(stay@),
                sources(removed@).no_duplicates(),
                forall|k: int|
                    0 <= k < stay@.len() ==> stays(all, it.index(), opened, found, #[trigger] stay@[k]),
                forall|j: int|
                    0 <= j < it.index() && !opened.contains(all[j].source@) && found.contains(
                        all[j].source@,
                    ) ==> stay@.contains(#[trigger] all[j]),
                forall|k: int|
                    0 <= k < removed@.len() ==> leaves(
                        all,
                        it.index(),
                        opened,
                        found,
                        (#[trigger] removed@[k])@,
                    ),
                forall|j: int|
                    0 <= j < it.index() && !opened.contains(all[j].source@) && !found.contains(
                        all[j].source@,
                    ) ==> sources(removed@).contains((#[trigger] all[j]).source@),
        {
            let ghost i = it.index();
            let ghost staying = stay@;
            let ghost leaving = removed@;
            proof {
                assert(all[i] == module);
                assert forall|k: int| 0 <= k < staying.len() implies staying[k].source@
                    != module.source@ by {
                    let j = choose|j: int| 0 <= j < i && #[trigger] all[j] == staying[k];
                    assert(stays(all, i, opened, found, staying[k]));
                    assert(all[j].source@ != all[i].source@);
                }
                assert forall|k: int| 0 <= k < leaving.len() implies (#[trigger] leaving[k])@
                    != module.source@ by {
                    assert(leaves(all, i, opened, found, leaving[k]@));
                    let j = choose|j: int| 0 <= j < i && (#[trigger] all[j]).source@ == leaving[k]@
                        && !opened.contains(all[j].source@) && !found.contains(all[j].source@);
                    assert(all[j].source@ != all[i].source@);
                }
                assert forall|k: int| 0 <= k < staying.len() implies stays(
                    all,
                    i + 1,
                    opened,
                    found,
                    #[trigger] staying[k],
                ) by {
                    assert(stays(all, i, opened, found, staying[k]));
                }
                assert forall|k: int| 0 <= k < leaving.len() implies leaves(
                    all,
                    i + 1,
                    opened,
                    found,
                    (#[trigger] leaving[k])@,
                ) by {
                    assert(leaves(all, i, opened, found, leaving[k]@));
                }
            }
            // Opened in the editor since the last scan. Dropped, but *not*
            // reported as removed: the child holds that build URI already, and
            // the server keeps it current from the live buffer. Telling it to
            // close the document would leave the file open in the editor and
            // absent from the type checker.
            if !is_among(open, module.source.as_str()) {
                if is_on_disk(files, module.source.as_str()) {
                    stay.push(module);
                    proof {
                        assert(stay@[staying.len() as int] == all[i]);
                        assert forall|j: int|
                            0 <= j < i + 1 && !opened.contains(all[j].source@) && found.contains(
                                all[j].source@,
                            ) implies stay@.contains(#[trigger] all[j]) by {
                            if j < i {
                                assert(staying.contains(all[j]));
                                let k = choose|k: int|
                                    0 <= k < staying.len() && staying[k] == all[j];
                                assert(stay@[k] == all[j]);
                            }
                        }
                    }
                } else {
                    // Genuinely gone.
                    removed.push(module.source);
                    proof {
                        assert(sources(removed@) =~= sources(leaving).push(all[i].source@));
                        assert(sources(removed@)[leaving.len() as int] == all[i].source@);
                        assert(leaves(all, i + 1, opened, found, all[i].source@));
                        assert forall|j: int|
                            0 <= j < i + 1 && !opened.contains(all[j].source@) && !found.contains(
                                all[j].source@,
                            ) implies sources(removed@).contains((#[trigger] all[j]).source@) by {
                            if j < i {
                                assert(sources(leaving).contains(all[j].source@));
                                let k = choose|k: int|
                                    0 <= k < leaving.len() && sources(leaving)[k]
                                        == all[j].source@;
                                assert(sources(removed@)[k] == all[j].source@);
                            }
                        }
                        assert forall|a: int, b: int|
                            0 <= a < removed@.len() && 0 <= b < removed@.len() && a
                                != b implies sources(removed@)[a] != sources(removed@)[b] by {
                            if a < leaving.len() && b < leaving.len() {
                                assert(sources(leaving)[a] != sources(leaving)[b]);
                            } else if a < leaving.len() {
                                assert(leaving[a]@ != all[i].source@);
                            } else {
                                assert(leaving[b]@ != all[i].source@);
                            }
                        }
                    }
                }
            }
        }
        self.modules = stay;
        proof {
            lemma_retained(all, self.modules@, removed@, opened, found);
        }
        removed
    }

    /// Takes what is on disk now, compiling what changed.
    ///
    /// `files` is every `.luaux` that a walk found, and `truncated` whether the
    /// walk was cut short. `open` is the set of source paths the editor has open.
    pub fn scan(
        &mut self,
        project: &Project,
        files: &Vec<Seen>,
        open: &Vec<String>,
        truncated: bool,
    ) -> (r: Changes)
        requires
            old(self).wf(),
        ensures
            final(self).wf(),
            final(self).has_warned() == old(self).has_warned(),
            exists|outputs: Seq<Option<Seq<char>>>|
                {
                    &&& compiles_to(
                        project.config,
                        old(self)@,
                        resolving::as_set(open@),
                        files@,
                        outputs,
                    )
                    &&& #[trigger] comes_to(
                        old(self)@,
                        resolving::as_set(open@),
                        files@,
                        outputs,
                        final(self)@,
                        r,
                    )
                },
            r.materialised == 0,
            r.seen == files@.len(),
            r.truncated == truncated,
    {
        let ghost modules = self@;
        let ghost opened = resolving::as_set(open@);
        let ghost mut outputs: Seq<Option<Seq<char>>> = Seq::empty();
        let mut changes = Changes {
            updated: Vec::new(),
            removed: Vec::new(),
            compiled: Vec::new(),
            materialised: 0,
            seen: files.len(),
            truncated,
        };
        let mut i: usize = 0;
        proof {
            assert(sources(changes.updated@) =~= Seq::<Seq<char>>::empty());
            assert(sources(changes.compiled@) =~= Seq::<Seq<char>>::empty());
            assert(files@.take(0) =~= Seq::<Seen>::empty());
        }
        while i < files.len()
            invariant
                self.wf(),
                self.has_warned() == old(self).has_warned(),
                i <= files@.len(),
                outputs.len() == i,
                modules == old(self)@,
                opened == resolving::as_set(open@),
                compiles_to(project.config, modules, opened, files@.take(i as int), outputs),
                self@ == scanned(modules, opened, files@.take(i as int), outputs).modules,
                sources(changes.updated@) == scanned(
                    modules,
                    opened,
                    files@.take(i as int),
                    outputs,
                ).updated,
                sources(changes.compiled@) == scanned(
                    modules,
                    opened,
                    files@.take(i as int),
                    outputs,
                ).compiled,
                changes.materialised == 0,
                changes.seen == files@.len(),
                changes.truncated == truncated,
            decreases files@.len() - i,
        {
            let file = &files[i];
            let ghost before = outputs;
            let ghost so_far = files@.take(i as int);
            let compilation = match &file.text {
                Some(text) => if self.wants(file.source.as_str(), file.mtime, open) {
                    Some(compile_text(text.as_str(), &project.config))
                } else {
                    None
                },
                None => None,
            };
            proof {
                outputs = before.push(put_out(compilation));
                let next = files@.take(i + 1);
                assert(next.drop_last() =~= so_far);
                assert(next.last() == *file);
                lemma_scanned(modules, opened, so_far, before, outputs);
                assert forall|j: int|
                    #![trigger next[j]]
                    0 <= j < next.len() && wanted(
                        scanned(modules, opened, next.take(j), outputs).modules,
                        opened,
                        next[j].source@,
                        next[j].mtime,
                    ) implies (next[j].text matches Some(text) ==> exists|
                    compilation: CompilationView,
                |
                    #![trigger output_of(compilation)]
                    analysis::comes_to(project.config, text@, compilation)
                        && outputs[j] == output_of(compilation)) by {
                    if j < i {
                        assert(next.take(j) =~= so_far.take(j));
                        lemma_scanned(modules, opened, so_far.take(j), before, outputs);
                        assert(so_far[j] == next[j]);
                    } else {
                        assert(next.take(j) =~= so_far);
                    }
                }
            }
            self.take(file, open, compilation, &mut changes);
            i = i + 1;
        }
        assert(files@.take(i as int) =~= files@);
        changes.removed = self.retain(files, open);
        assert(comes_to(modules, opened, files@, outputs, self@, changes));
        changes
    }

    pub fn clear(&mut self)
        ensures
            final(self).wf(),
            final(self)@ == Map::<Seq<char>, ModuleView>::empty(),
            !final(self).has_warned(),
    {
        self.modules = Vec::new();
        self.warned = false;
    }

    /// Whether the file-count warning still needs saying.
    pub fn warn_once(&mut self) -> (r: bool)
        requires
            old(self).wf(),
        ensures
            r == !old(self).has_warned(),
            final(self).has_warned(),
            final(self)@ == old(self)@,
            final(self).wf(),
    {
        let first = !self.warned;
        self.warned = true;
        first
    }
}

/// Whether a module is one of the first of some, and stays.
spec fn stays(
    all: Seq<Module>,
    n: int,
    opened: Set<Seq<char>>,
    found: Set<Seq<char>>,
    module: Module,
) -> bool {
    &&& exists|j: int| 0 <= j < n && #[trigger] all[j] == module
    &&& !opened.contains(module.source@)
    &&& found.contains(module.source@)
}

/// Whether a source is that of one of the first of some modules, and is gone.
spec fn leaves(
    all: Seq<Module>,
    n: int,
    opened: Set<Seq<char>>,
    found: Set<Seq<char>>,
    source: Seq<char>,
) -> bool {
    exists|j: int|
        0 <= j < n && (#[trigger] all[j]).source@ == source && !opened.contains(all[j].source@)
            && !found.contains(all[j].source@)
}

proof fn lemma_retained(
    all: Seq<Module>,
    stay: Seq<Module>,
    removed: Seq<String>,
    opened: Set<Seq<char>>,
    found: Set<Seq<char>>,
)
    requires
        distinct(all),
        distinct(stay),
        forall|k: int|
            0 <= k < stay.len() ==> stays(
                all,
                all.len() as int,
                opened,
                found,
                #[trigger] stay[k],
            ),
        forall|j: int|
            0 <= j < all.len() && !opened.contains(all[j].source@) && found.contains(all[j].source@)
                ==> stay.contains(#[trigger] all[j]),
        forall|k: int|
            0 <= k < removed.len() ==> leaves(
                all,
                all.len() as int,
                opened,
                found,
                (#[trigger] removed[k])@,
            ),
        forall|j: int|
            0 <= j < all.len() && !opened.contains(all[j].source@) && !found.contains(
                all[j].source@,
            ) ==> sources(removed).contains((#[trigger] all[j]).source@),
    ensures
        modules_of(stay) == kept(modules_of(all), opened, found),
        resolving::as_set(removed) == gone(modules_of(all), opened, found),
{
    lemma_modules(all);
    lemma_modules(stay);
    let target = kept(modules_of(all), opened, found);
    assert forall|key: Seq<char>| #[trigger] modules_of(stay).contains_key(key)
        == target.contains_key(key) by {
        if modules_of(stay).contains_key(key) {
            let k = choose|k: int| 0 <= k < stay.len() && (#[trigger] stay[k]).source@ == key;
            assert(stays(all, all.len() as int, opened, found, stay[k]));
        }
        if target.contains_key(key) {
            let j = choose|j: int| 0 <= j < all.len() && (#[trigger] all[j]).source@ == key;
            assert(stay.contains(all[j]));
            let k = choose|k: int| 0 <= k < stay.len() && stay[k] == all[j];
            assert(stay[k].source@ == key);
        }
    }
    assert forall|key: Seq<char>| #[trigger] modules_of(stay).contains_key(key) implies modules_of(
        stay,
    )[key] == target[key] by {
        let k = choose|k: int| 0 <= k < stay.len() && (#[trigger] stay[k]).source@ == key;
        assert(stays(all, all.len() as int, opened, found, stay[k]));
        let j = choose|j: int| 0 <= j < all.len() && #[trigger] all[j] == stay[k];
        assert(modules_of(all)[all[j].source@] == all[j]@);
    }
    assert(modules_of(stay) =~= target);
    let missing = gone(modules_of(all), opened, found);
    assert forall|key: Seq<char>| #[trigger] resolving::as_set(removed).contains(key)
        == missing.contains(key) by {
        if resolving::as_set(removed).contains(key) {
            let k = choose|k: int| 0 <= k < removed.len() && (#[trigger] removed[k])@ == key;
            assert(leaves(all, all.len() as int, opened, found, removed[k]@));
        }
        if missing.contains(key) {
            let j = choose|j: int| 0 <= j < all.len() && (#[trigger] all[j]).source@ == key;
            assert(sources(removed).contains(all[j].source@));
            let k = choose|k: int| 0 <= k < removed.len() && sources(removed)[k] == key;
            assert(removed[k]@ == key);
        }
    }
    assert(resolving::as_set(removed) =~= missing);
}

/// A scan goes by what each of its files compiled to, and by nothing else.
proof fn lemma_scanned(
    modules: Map<Seq<char>, ModuleView>,
    open: Set<Seq<char>>,
    files: Seq<Seen>,
    a: Seq<Option<Seq<char>>>,
    b: Seq<Option<Seq<char>>>,
)
    requires
        files.len() <= a.len(),
        files.len() <= b.len(),
        forall|i: int| 0 <= i < files.len() ==> a[i] == b[i],
    ensures
        scanned(modules, open, files, a) == scanned(modules, open, files, b),
    decreases files.len(),
{
    if files.len() > 0 {
        lemma_scanned(modules, open, files.drop_last(), a, b);
    }
}

/// Whether a source is that of a file on disk.
fn is_on_disk(files: &Vec<Seen>, source: &str) -> (r: bool)
    ensures
        r == on_disk(files@).contains(source@),
{
    let mut i: usize = 0;
    while i < files.len()
        invariant
            i <= files@.len(),
            forall|j: int| 0 <= j < i ==> (#[trigger] files@[j]).source@ != source@,
        decreases files@.len() - i,
    {
        if same(files[i].source.as_str(), source) {
            assert(files@[i as int].source@ == source@);
            return true;
        }
        i = i + 1;
    }
    false
}

/// A file that the editor has open is left to its buffer: a scan neither keeps
/// nor compiles it, and does not say that it is gone.
pub proof fn law_open_files_are_left_alone(
    before: Map<Seq<char>, ModuleView>,
    open: Set<Seq<char>>,
    files: Seq<Seen>,
    outputs: Seq<Option<Seq<char>>>,
    after: Map<Seq<char>, ModuleView>,
    changes: Changes,
    source: Seq<char>,
)
    requires
        comes_to(before, open, files, outputs, after, changes),
        open.contains(source),
    ensures
        !after.contains_key(source),
        !sources(changes.updated@).contains(source),
        !sources(changes.compiled@).contains(source),
        !resolving::as_set(changes.removed@).contains(source),
{
    lemma_not_open(before, open, files, outputs, source);
}

proof fn lemma_not_open(
    before: Map<Seq<char>, ModuleView>,
    open: Set<Seq<char>>,
    files: Seq<Seen>,
    outputs: Seq<Option<Seq<char>>>,
    source: Seq<char>,
)
    requires
        open.contains(source),
    ensures
        !scanned(before, open, files, outputs).updated.contains(source),
        !scanned(before, open, files, outputs).compiled.contains(source),
    decreases files.len(),
{
    if files.len() > 0 {
        lemma_not_open(before, open, files.drop_last(), outputs, source);
    }
}

/// A file that is still there but does not compile any more keeps what it last
/// compiled to.
pub proof fn law_a_broken_file_keeps_its_output(
    before: Map<Seq<char>, ModuleView>,
    open: Set<Seq<char>>,
    files: Seq<Seen>,
    outputs: Seq<Option<Seq<char>>>,
    after: Map<Seq<char>, ModuleView>,
    changes: Changes,
    source: Seq<char>,
)
    requires
        comes_to(before, open, files, outputs, after, changes),
        before.contains_key(source),
        !open.contains(source),
        on_disk(files).contains(source),
        forall|i: int|
            0 <= i < files.len() && (#[trigger] files[i]).source@ == source ==> outputs[i] is None,
    ensures
        after.contains_key(source),
        after[source] == before[source],
{
    lemma_untouched(before, open, files, outputs, source);
}

proof fn lemma_untouched(
    before: Map<Seq<char>, ModuleView>,
    open: Set<Seq<char>>,
    files: Seq<Seen>,
    outputs: Seq<Option<Seq<char>>>,
    source: Seq<char>,
)
    requires
        before.contains_key(source),
        forall|i: int|
            0 <= i < files.len() && (#[trigger] files[i]).source@ == source ==> outputs[i] is None,
    ensures
        scanned(before, open, files, outputs).modules.contains_key(source),
        scanned(before, open, files, outputs).modules[source] == before[source],
    decreases files.len(),
{
    if files.len() > 0 {
        let rest = files.drop_last();
        assert forall|i: int|
            0 <= i < rest.len() && (#[trigger] rest[i]).source@ == source implies outputs[i] is None by {
            assert(files[i].source@ == source);
        }
        lemma_untouched(before, open, rest, outputs, source);
        assert(files[files.len() - 1] == files.last());
    }
}

/// The child is told of everything that it has to know: each module whose output
/// is new or another than it was, and each that is gone.
pub proof fn law_every_change_is_told(
    before: Map<Seq<char>, ModuleView>,
    open: Set<Seq<char>>,
    files: Seq<Seen>,
    outputs: Seq<Option<Seq<char>>>,
    after: Map<Seq<char>, ModuleView>,
    changes: Changes,
    source: Seq<char>,
)
    requires
        comes_to(before, open, files, outputs, after, changes),
    ensures
        after.contains_key(source) && !(before.contains_key(source) && before[source].output
            == after[source].output) ==> sources(changes.updated@).contains(source),
        before.contains_key(source) && !after.contains_key(source) && !open.contains(source)
            ==> resolving::as_set(changes.removed@).contains(source),
{
    lemma_told(before, open, files, outputs, source);
}

proof fn lemma_told(
    before: Map<Seq<char>, ModuleView>,
    open: Set<Seq<char>>,
    files: Seq<Seen>,
    outputs: Seq<Option<Seq<char>>>,
    source: Seq<char>,
)
    ensures
        ({
            let progress = scanned(before, open, files, outputs);
            &&& before.contains_key(source) ==> progress.modules.contains_key(source)
            &&& progress.modules.contains_key(source) && !(before.contains_key(source)
                && before[source].output == progress.modules[source].output)
                ==> progress.updated.contains(source)
        }),
    decreases files.len(),
{
    if files.len() > 0 {
        lemma_told(before, open, files.drop_last(), outputs, source);
        let earlier = scanned(before, open, files.drop_last(), outputs);
        let progress = scanned(before, open, files, outputs);
        if earlier.updated.contains(source) {
            let i = choose|i: int| 0 <= i < earlier.updated.len() && earlier.updated[i] == source;
            assert(progress.updated[i] == source);
        }
        if progress.updated.len() > earlier.updated.len() {
            assert(progress.updated[earlier.updated.len() as int] == files.last().source@);
        }
    }
}

/// Whether a file is the only one of some with its source.
pub open spec fn only(files: Seq<Seen>, i: int) -> bool {
    &&& 0 <= i < files.len()
    &&& forall|j: int|
        0 <= j < files.len() && j != i ==> (#[trigger] files[j]).source@ != files[i].source@
}

/// A file on disk that is new or was touched since, and compiles, is kept as what
/// it compiled to, where it is built and when it was modified. The child is told of
/// it just where that is not what it was. One that was not touched is not compiled
/// again, and stays as it was.
pub proof fn law_a_touched_file_is_compiled_and_no_other(
    before: Map<Seq<char>, ModuleView>,
    open: Set<Seq<char>>,
    files: Seq<Seen>,
    outputs: Seq<Option<Seq<char>>>,
    after: Map<Seq<char>, ModuleView>,
    changes: Changes,
    i: int,
)
    requires
        comes_to(before, open, files, outputs, after, changes),
        only(files, i),
        !open.contains(files[i].source@),
    ensures
        ({
            let source = files[i].source@;
            let mtime = files[i].mtime;
            let same = mtime is Some && before.contains_key(source) && before[source].mtime
                == mtime;
            &&& !same && files[i].text is Some ==> (outputs[i] matches Some(output) ==> {
                &&& after.contains_key(source)
                &&& after[source] == (ModuleView { build: files[i].build@, output, mtime })
                &&& sources(changes.compiled@).contains(source)
                &&& sources(changes.updated@).contains(source) <==> !(before.contains_key(source)
                    && before[source].output == output)
            })
            &&& same ==> {
                &&& after.contains_key(source)
                &&& after[source] == before[source]
                &&& !sources(changes.compiled@).contains(source)
                &&& !sources(changes.updated@).contains(source)
            }
        }),
{
    lemma_scanned_one(before, open, files, outputs, i);
    assert(on_disk(files).contains(files[i].source@));
}

/// What a scan comes to about a file is decided by that file alone.
proof fn lemma_scanned_one(
    before: Map<Seq<char>, ModuleView>,
    open: Set<Seq<char>>,
    files: Seq<Seen>,
    outputs: Seq<Option<Seq<char>>>,
    i: int,
)
    requires
        only(files, i),
    ensures
        ({
            let source = files[i].source@;
            let progress = scanned(before, open, files, outputs);
            let taken = wanted(before, open, source, files[i].mtime) && files[i].text is Some
                && outputs[i] is Some;
            &&& taken ==> {
                let output = outputs[i]->Some_0;
                &&& progress.modules.contains_key(source)
                &&& progress.modules[source] == (ModuleView {
                    build: files[i].build@,
                    output,
                    mtime: files[i].mtime,
                })
                &&& progress.compiled.contains(source)
                &&& progress.updated.contains(source) <==> !(before.contains_key(source)
                    && before[source].output == output)
            }
            &&& !taken ==> {
                &&& progress.modules.contains_key(source) == before.contains_key(source)
                &&& before.contains_key(source) ==> progress.modules[source] == before[source]
                &&& !progress.compiled.contains(source)
                &&& !progress.updated.contains(source)
            }
        }),
    decreases files.len(),
{
    let rest = files.drop_last();
    let source = files[i].source@;
    let earlier = scanned(before, open, rest, outputs);
    let progress = scanned(before, open, files, outputs);
    assert(files.last() == files[files.len() - 1]);
    if i < files.len() - 1 {
        assert(only(rest, i)) by {
            assert forall|j: int| 0 <= j < rest.len() && j != i implies (#[trigger] rest[j]).source@
                != rest[i].source@ by {
                assert(files[j].source@ != files[i].source@);
            }
        }
        lemma_scanned_one(before, open, rest, outputs, i);
        assert(files[files.len() - 1].source@ != source);
        lemma_pushed(earlier.updated, progress.updated, files.last().source@, source);
        lemma_pushed(earlier.compiled, progress.compiled, files.last().source@, source);
    } else {
        assert forall|j: int| 0 <= j < rest.len() implies (#[trigger] rest[j]).source@ != source by {
            assert(files[j].source@ != files[i].source@);
        }
        lemma_elsewhere(before, open, rest, outputs, source);
        if progress.compiled.len() > earlier.compiled.len() {
            assert(progress.compiled[earlier.compiled.len() as int] == source);
        }
        if progress.updated.len() > earlier.updated.len() {
            assert(progress.updated[earlier.updated.len() as int] == source);
        }
    }
}

/// Adding one text to a list does not change whether another is in it.
proof fn lemma_pushed(
    before: Seq<Seq<char>>,
    after: Seq<Seq<char>>,
    added: Seq<char>,
    sought: Seq<char>,
)
    requires
        after == before || after == before.push(added),
        added != sought,
    ensures
        after.contains(sought) == before.contains(sought),
{
    if before.contains(sought) {
        let k = choose|k: int| 0 <= k < before.len() && before[k] == sought;
        assert(after[k] == sought);
    }
}

/// A scan that does not come by a file leaves it as it was.
proof fn lemma_elsewhere(
    before: Map<Seq<char>, ModuleView>,
    open: Set<Seq<char>>,
    files: Seq<Seen>,
    outputs: Seq<Option<Seq<char>>>,
    source: Seq<char>,
)
    requires
        forall|j: int| 0 <= j < files.len() ==> (#[trigger] files[j]).source@ != source,
    ensures
        ({
            let progress = scanned(before, open, files, outputs);
            &&& progress.modules.contains_key(source) == before.contains_key(source)
            &&& before.contains_key(source) ==> progress.modules[source] == before[source]
            &&& !progress.compiled.contains(source)
            &&& !progress.updated.contains(source)
        }),
    decreases files.len(),
{
    if files.len() > 0 {
        let rest = files.drop_last();
        assert forall|j: int| 0 <= j < rest.len() implies (#[trigger] rest[j]).source@ != source by {
            assert(files[j].source@ != source);
        }
        lemma_elsewhere(before, open, rest, outputs, source);
        assert(files[files.len() - 1].source@ != source);
    }
}

} // verus!

//! The project model: the configuration files of a directory, the catalog
//! of what they declare, and the resolution of a target to the resources
//! it denotes.

use vstd::prelude::*;
use vstd::seq_lib::{to_multiset_build, to_multiset_contains};
use crate::order::{
    insert_by, is_sorted, is_total, is_transitive, lemma_insert_position, lemma_sort_members,
    lemma_sort_permutes, lemma_sort_sorted, lemma_sorted_unique, stable_sort,
};
use crate::scanner::{
    declarations, depth_before, is_declared_form, lemma_declarations_well_formed,
    lemma_module_block_declared, lemma_resource_block_declared, lexeme_text, lexemes,
    module_header_at, resource_header_at, scan_declarations,
};
use crate::text::{
    chars_of, distinct, lemma_distinct_once, lemma_distinct_within,
    lemma_text_le_antisymmetric, lemma_text_le_total, lemma_text_le_transitive, occurs_once,
    push_unique, text_le, text_precedes, views,
};
use crate::types::{Resource, ResourceView, Target, TargetView, TfocusError};

verus! {

/// A file as it was read: its path and its text.
#[derive(Debug, PartialEq, Eq)]
pub struct SourceFile {
    pub path: String,
    pub content: String,
}

/// A `SourceFile` as a mathematical value.
pub struct SourceView {
    pub path: Seq<char>,
    pub content: Seq<char>,
}

impl View for SourceFile {
    type V = SourceView;

    open spec fn view(&self) -> SourceView {
        SourceView { path: self.path@, content: self.content@ }
    }
}

/// A configuration file and what it declares, in the order of declaration.
#[derive(Debug, PartialEq, Eq)]
pub struct ConfigFile {
    pub path: String,
    pub resources: Vec<Resource>,
}

/// A `ConfigFile` as a mathematical value.
pub struct FileView {
    pub path: Seq<char>,
    pub resources: Seq<ResourceView>,
}

impl View for ConfigFile {
    type V = FileView;

    open spec fn view(&self) -> FileView {
        FileView { path: self.path@, resources: views(self.resources@) }
    }
}

/// One entry of the catalog: a declaration and the file that owns it.
#[derive(Debug, PartialEq, Eq)]
pub struct ResourceEntry {
    pub file: String,
    pub resource: Resource,
}

/// A `ResourceEntry` as a mathematical value.
pub struct EntryView {
    pub file: Seq<char>,
    pub resource: ResourceView,
}

impl View for ResourceEntry {
    type V = EntryView;

    open spec fn view(&self) -> EntryView {
        EntryView { file: self.file@, resource: self.resource@ }
    }
}

impl Clone for ResourceEntry {
    fn clone(&self) -> (out: Self)
        ensures
            out@ == self@,
    {
        ResourceEntry { file: self.file.clone(), resource: self.resource.clone() }
    }
}

/// A project as a mathematical value: the paths of its configuration files
/// and its catalog, both in scan order.
pub struct ProjectView {
    pub files: Seq<Seq<char>>,
    pub entries: Seq<EntryView>,
}

/// The model of one directory, built once and only read afterwards.
#[derive(Debug)]
pub struct TerraformProject {
    files: Vec<String>,
    entries: Vec<ResourceEntry>,
}

impl View for TerraformProject {
    type V = ProjectView;

    closed spec fn view(&self) -> ProjectView {
        ProjectView { files: views(self.files@), entries: views(self.entries@) }
    }
}

/// Whether a path names a configuration file: its last component ends in
/// `.tf` and is longer than that ending.
pub open spec fn is_config_path(path: Seq<char>) -> bool {
    let n = path.len() as int;
    &&& n >= 4
    &&& path[n - 3] == '.'
    &&& path[n - 2] == 't'
    &&& path[n - 1] == 'f'
    &&& path[n - 4] != '/'
}

/// The configuration files among `sources`, each with its declarations, in
/// the order of `sources`.
pub open spec fn scanned(sources: Seq<SourceView>) -> Seq<FileView>
    decreases sources.len(),
{
    if sources.len() == 0 {
        Seq::empty()
    } else {
        let before = scanned(sources.drop_last());
        let last = sources.last();
        if is_config_path(last.path) {
            before.push(file_of(last))
        } else {
            before
        }
    }
}

/// The order of files: by path, lexicographically.
pub open spec fn by_path() -> spec_fn(FileView, FileView) -> bool {
    |a: FileView, b: FileView| text_le(a.path, b.path)
}

/// `files` in the lexicographic order of their paths; files of equal path
/// keep their order.
pub open spec fn ordered(files: Seq<FileView>) -> Seq<FileView> {
    stable_sort(files, by_path())
}

/// The catalog entries of one file.
pub open spec fn entries_of(file: FileView) -> Seq<EntryView> {
    Seq::new(
        file.resources.len(),
        |k: int| EntryView { file: file.path, resource: file.resources[k] },
    )
}

/// The catalog of `files`: file after file, and inside a file declaration
/// after declaration.
pub open spec fn catalog(files: Seq<FileView>) -> Seq<EntryView>
    decreases files.len(),
{
    if files.len() == 0 {
        Seq::empty()
    } else {
        catalog(files.drop_last()) + entries_of(files.last())
    }
}

/// The paths of `files`.
pub open spec fn paths_of(files: Seq<FileView>) -> Seq<Seq<char>> {
    Seq::new(files.len(), |k: int| files[k].path)
}

/// The project that `sources` make.
pub open spec fn project_of(sources: Seq<SourceView>) -> ProjectView {
    let files = ordered(scanned(sources));
    ProjectView { files: paths_of(files), entries: catalog(files) }
}

/// The owning files of `entries`.
pub open spec fn owners(entries: Seq<EntryView>) -> Seq<Seq<char>> {
    Seq::new(entries.len(), |k: int| entries[k].file)
}

/// The resources of `entries`.
pub open spec fn resources_of(entries: Seq<EntryView>) -> Seq<ResourceView> {
    Seq::new(entries.len(), |k: int| entries[k].resource)
}

/// The names of the module calls among `entries`, in order.
pub open spec fn module_names(entries: Seq<EntryView>) -> Seq<Seq<char>>
    decreases entries.len(),
{
    if entries.len() == 0 {
        Seq::empty()
    } else {
        let before = module_names(entries.drop_last());
        if entries.last().resource.is_module {
            before.push(entries.last().resource.name)
        } else {
            before
        }
    }
}

/// The files that declare something: each path once, in scan order.
pub open spec fn unique_files(project: ProjectView) -> Seq<Seq<char>> {
    distinct(owners(project.entries))
}

/// The names of the modules called anywhere in the project: each name once,
/// in the order of first call.
pub open spec fn modules(project: ProjectView) -> Seq<Seq<char>> {
    distinct(module_names(project.entries))
}

/// Every declaration of the project, file after file.
pub open spec fn all_resources(project: ProjectView) -> Seq<ResourceView> {
    resources_of(project.entries)
}

/// Whether `target` denotes the catalog entry `entry`: a file denotes what it
/// owns; a module, the calls of that name in any file; a resource, the leaf
/// resources of that type and name in any file.
pub open spec fn denotes(target: TargetView, entry: EntryView) -> bool {
    match target {
        TargetView::File(path) => entry.file == path,
        TargetView::Module(name) => entry.resource.is_module && entry.resource.name == name,
        TargetView::Resource(resource_type, name) => !entry.resource.is_module
            && entry.resource.resource_type == resource_type && entry.resource.name == name,
    }
}

/// The resources of the entries that `target` denotes, in catalog order.
pub open spec fn picked(entries: Seq<EntryView>, target: TargetView) -> Seq<ResourceView>
    decreases entries.len(),
{
    if entries.len() == 0 {
        Seq::empty()
    } else {
        let before = picked(entries.drop_last(), target);
        if denotes(target, entries.last()) {
            before.push(entries.last().resource)
        } else {
            before
        }
    }
}

/// The resources that `target` resolves to in `project`.
pub open spec fn resolve(project: ProjectView, target: TargetView) -> Seq<ResourceView> {
    picked(project.entries, target)
}

/// No source is a configuration file exactly when scanning finds no file.
pub proof fn lemma_scanned_empty(sources: Seq<SourceView>)
    ensures
        scanned(sources).len() == 0 <==> forall|i: int|
            0 <= i < sources.len() ==> !is_config_path(#[trigger] sources[i].path),
    decreases sources.len(),
{
    if sources.len() > 0 {
        let front = sources.drop_last();
        lemma_scanned_empty(front);
        if scanned(sources).len() == 0 {
            assert forall|i: int| 0 <= i < sources.len() implies !is_config_path(
                #[trigger] sources[i].path,
            ) by {
                if i < front.len() {
                    assert(front[i] == sources[i]);
                }
            }
        }
        if forall|i: int| 0 <= i < sources.len() ==> !is_config_path(#[trigger] sources[i].path) {
            assert forall|i: int| 0 <= i < front.len() implies !is_config_path(
                #[trigger] front[i].path,
            ) by {
                assert(front[i] == sources[i]);
            }
            assert(!is_config_path(sources[sources.len() - 1].path));
        }
    }
}

/// The order by path relates any two files, and is transitive.
pub proof fn lemma_by_path_orders()
    ensures
        is_total(by_path()),
        is_transitive(by_path()),
{
    assert forall|a: FileView, b: FileView| #[trigger]
        by_path()(a, b) || #[trigger] by_path()(b, a) by {
        lemma_text_le_total(a.path, b.path, 0);
    }
    assert forall|a: FileView, b: FileView, c: FileView| #[trigger]
        by_path()(a, b) && #[trigger] by_path()(b, c) implies by_path()(a, c) by {
        lemma_text_le_transitive(a.path, b.path, c.path, 0);
    }
}

/// The files of a project are the scanned files, rearranged so that their
/// paths never go down in lexicographic order.
pub proof fn lemma_files_ordered(files: Seq<FileView>)
    ensures
        is_sorted(ordered(files), by_path()),
        ordered(files).to_multiset() == files.to_multiset(),
{
    lemma_by_path_orders();
    lemma_sort_sorted(files, by_path());
    lemma_sort_permutes(files, by_path());
}

/// Every configuration file among the sources is scanned.
pub proof fn lemma_scanned_keeps(sources: Seq<SourceView>, i: int)
    requires
        0 <= i < sources.len(),
        is_config_path(sources[i].path),
    ensures
        scanned(sources).contains(file_of(sources[i])),
    decreases sources.len(),
{
    let file = file_of(sources[i]);
    let front = sources.drop_last();
    let before = scanned(front);
    if i == sources.len() - 1 {
        assert(scanned(sources)[before.len() as int] == file);
    } else {
        lemma_scanned_keeps(front, i);
        let k = before.index_of(file);
        assert(scanned(sources)[k] == file);
    }
}

/// Every declaration of every file is in the catalog, under its file.
pub proof fn lemma_catalog_keeps(files: Seq<FileView>, k: int, j: int)
    requires
        0 <= k < files.len(),
        0 <= j < files[k].resources.len(),
    ensures
        catalog(files).contains(
            EntryView { file: files[k].path, resource: files[k].resources[j] },
        ),
    decreases files.len(),
{
    let entry = EntryView { file: files[k].path, resource: files[k].resources[j] };
    let front = files.drop_last();
    let before = catalog(front);
    if k == files.len() - 1 {
        assert(catalog(files)[before.len() + j] == entry);
    } else {
        lemma_catalog_keeps(front, k, j);
        let at = before.index_of(entry);
        assert(catalog(files)[at] == entry);
    }
}

/// What a configuration file declares is in the project's catalog under
/// that file, and so among all resources. With the scanner's laws: a file
/// that holds a resource block of type `T` and name `N` makes
/// `all_resources` hold the leaf resource `T.N`.
pub proof fn lemma_declared_is_listed(sources: Seq<SourceView>, i: int, r: ResourceView)
    requires
        0 <= i < sources.len(),
        is_config_path(sources[i].path),
        declarations(sources[i].content).contains(r),
    ensures
        project_of(sources).entries.contains(EntryView { file: sources[i].path, resource: r }),
        all_resources(project_of(sources)).contains(r),
{
    let file = file_of(sources[i]);
    let files = ordered(scanned(sources));
    lemma_scanned_keeps(sources, i);
    lemma_sort_members(scanned(sources), by_path(), file);
    let k = files.index_of(file);
    let j = file.resources.index_of(r);
    lemma_catalog_keeps(files, k, j);
    let entries = project_of(sources).entries;
    let at = entries.index_of(EntryView { file: sources[i].path, resource: r });
    assert(resources_of(entries)[at] == r);
}

/// A configuration file that holds, outside all braces, a resource block of
/// type `T` and name `N` makes `all_resources` hold the leaf resource `T.N`.
pub proof fn lemma_resource_block_is_listed(sources: Seq<SourceView>, i: int, k: int)
    requires
        0 <= i < sources.len(),
        is_config_path(sources[i].path),
        depth_before(lexemes(sources[i].content), k) == 0,
        resource_header_at(sources[i].content, lexemes(sources[i].content), k),
    ensures
        all_resources(project_of(sources)).contains(
            ResourceView {
                resource_type: lexeme_text(
                    sources[i].content,
                    lexemes(sources[i].content)[k + 1],
                ),
                name: lexeme_text(sources[i].content, lexemes(sources[i].content)[k + 2]),
                is_module: false,
            },
        ),
{
    let text = sources[i].content;
    lemma_resource_block_declared(text, k);
    lemma_declared_is_listed(
        sources,
        i,
        ResourceView {
            resource_type: lexeme_text(text, lexemes(text)[k + 1]),
            name: lexeme_text(text, lexemes(text)[k + 2]),
            is_module: false,
        },
    );
}

/// A configuration file that holds, outside all braces, a module block of
/// name `N` makes `modules` list `N` exactly once, however many files call it.
pub proof fn lemma_module_block_is_listed_once(sources: Seq<SourceView>, i: int, k: int)
    requires
        0 <= i < sources.len(),
        is_config_path(sources[i].path),
        depth_before(lexemes(sources[i].content), k) == 0,
        module_header_at(sources[i].content, lexemes(sources[i].content), k),
    ensures
        occurs_once(
            modules(project_of(sources)),
            lexeme_text(sources[i].content, lexemes(sources[i].content)[k + 1]),
        ),
{
    let text = sources[i].content;
    lemma_module_block_declared(text, k);
    lemma_called_module_listed_once(
        sources,
        i,
        ResourceView {
            resource_type: Seq::empty(),
            name: lexeme_text(text, lexemes(text)[k + 1]),
            is_module: true,
        },
    );
}

/// Whether every entry is well formed, as the scanner leaves it.
pub open spec fn all_declared_form(entries: Seq<EntryView>) -> bool {
    forall|k: int| 0 <= k < entries.len() ==> is_declared_form(#[trigger] entries[k].resource)
}

/// What scanning finds in a file is well formed.
pub proof fn lemma_scanned_well_formed(sources: Seq<SourceView>, k: int, j: int)
    requires
        0 <= k < scanned(sources).len(),
        0 <= j < scanned(sources)[k].resources.len(),
    ensures
        is_declared_form(scanned(sources)[k].resources[j]),
    decreases sources.len(),
{
    let front = sources.drop_last();
    let last = sources.last();
    if k < scanned(front).len() {
        assert(scanned(sources)[k] == scanned(front)[k]);
        lemma_scanned_well_formed(front, k, j);
    } else {
        let found = declarations(last.content);
        assert(found.contains(found[j]));
        lemma_declarations_well_formed(last.content, found[j]);
    }
}

/// The catalog of files whose declarations are well formed is well formed.
pub proof fn lemma_catalog_well_formed(files: Seq<FileView>)
    requires
        forall|k: int, j: int|
            0 <= k < files.len() && 0 <= j < files[k].resources.len() ==> is_declared_form(
                #[trigger] files[k].resources[j],
            ),
    ensures
        all_declared_form(catalog(files)),
    decreases files.len(),
{
    if files.len() > 0 {
        let front = files.drop_last();
        let last = files.last();
        assert forall|k: int, j: int|
            0 <= k < front.len() && 0 <= j < front[k].resources.len() implies is_declared_form(
            #[trigger] front[k].resources[j],
        ) by {
            assert(front[k] == files[k]);
        }
        lemma_catalog_well_formed(front);
        let before = catalog(front);
        assert forall|at: int| 0 <= at < catalog(files).len() implies is_declared_form(
            #[trigger] catalog(files)[at].resource,
        ) by {
            if at < before.len() {
                assert(catalog(files)[at] == before[at]);
            } else {
                let j = at - before.len();
                assert(catalog(files)[at] == entries_of(last)[j]);
                assert(is_declared_form(files[files.len() - 1].resources[j]));
            }
        }
    }
}

/// Every entry of a project is well formed: its name is an identifier, and
/// its type is an identifier for a leaf resource and empty for a module call.
pub proof fn lemma_project_well_formed(sources: Seq<SourceView>)
    ensures
        all_declared_form(project_of(sources).entries),
{
    let found = scanned(sources);
    let files = ordered(found);
    assert forall|k: int, j: int|
        0 <= k < files.len() && 0 <= j < files[k].resources.len() implies is_declared_form(
        #[trigger] files[k].resources[j],
    ) by {
        assert(files.contains(files[k]));
        lemma_sort_members(found, by_path(), files[k]);
        let at = found.index_of(files[k]);
        lemma_scanned_well_formed(sources, at, j);
    }
    lemma_catalog_well_formed(files);
}

/// Every name among the module names belongs to a module call.
pub proof fn lemma_module_names_within(entries: Seq<EntryView>, j: int)
    requires
        0 <= j < module_names(entries).len(),
    ensures
        exists|i: int|
            0 <= i < entries.len() && (#[trigger] entries[i]).resource.is_module
                && entries[i].resource.name == module_names(entries)[j],
    decreases entries.len(),
{
    let front = entries.drop_last();
    let before = module_names(front);
    if j < before.len() {
        assert(module_names(entries)[j] == before[j]);
        lemma_module_names_within(front, j);
        let i = choose|i: int|
            0 <= i < front.len() && (#[trigger] front[i]).resource.is_module
                && front[i].resource.name == before[j];
        assert(entries[i] == front[i]);
    } else {
        assert(entries[entries.len() - 1].resource.is_module);
    }
}

/// Every module that `modules` lists is called somewhere in the project.
pub proof fn lemma_listed_module_is_called(project: ProjectView, j: int)
    requires
        0 <= j < modules(project).len(),
    ensures
        exists|i: int|
            0 <= i < project.entries.len() && (#[trigger] project.entries[i]).resource.is_module
                && project.entries[i].resource.name == modules(project)[j],
{
    let names = module_names(project.entries);
    lemma_distinct_within(names, j);
    let k = names.index_of(modules(project)[j]);
    lemma_module_names_within(project.entries, k);
}

/// Every file that `unique_files` lists owns a declaration.
pub proof fn lemma_listed_file_declares(project: ProjectView, j: int)
    requires
        0 <= j < unique_files(project).len(),
    ensures
        exists|i: int|
            0 <= i < project.entries.len() && (#[trigger] project.entries[i]).file
                == unique_files(project)[j],
{
    let all = owners(project.entries);
    lemma_distinct_within(all, j);
    let i = all.index_of(unique_files(project)[j]);
    assert(project.entries[i].file == all[i]);
}

/// The name of every module call is among the module names.
pub proof fn lemma_module_names_keep(entries: Seq<EntryView>, i: int)
    requires
        0 <= i < entries.len(),
        entries[i].resource.is_module,
    ensures
        module_names(entries).contains(entries[i].resource.name),
    decreases entries.len(),
{
    let name = entries[i].resource.name;
    let front = entries.drop_last();
    let before = module_names(front);
    if i == entries.len() - 1 {
        assert(module_names(entries)[before.len() as int] == name);
    } else {
        lemma_module_names_keep(front, i);
        let k = before.index_of(name);
        assert(module_names(entries)[k] == name);
    }
}

/// A module that is called anywhere in the project is listed by `modules`
/// exactly once, however many files call it.
pub proof fn lemma_module_listed_once(project: ProjectView, i: int)
    requires
        0 <= i < project.entries.len(),
        project.entries[i].resource.is_module,
    ensures
        occurs_once(modules(project), project.entries[i].resource.name),
{
    lemma_module_names_keep(project.entries, i);
    let names = module_names(project.entries);
    let k = names.index_of(project.entries[i].resource.name);
    lemma_distinct_once(names, k);
}

/// A module call named `N` in any configuration file makes `modules` list
/// `N` exactly once.
pub proof fn lemma_called_module_listed_once(sources: Seq<SourceView>, i: int, r: ResourceView)
    requires
        0 <= i < sources.len(),
        is_config_path(sources[i].path),
        declarations(sources[i].content).contains(r),
        r.is_module,
    ensures
        occurs_once(modules(project_of(sources)), r.name),
{
    lemma_declared_is_listed(sources, i, r);
    let project = project_of(sources);
    let at = project.entries.index_of(EntryView { file: sources[i].path, resource: r });
    lemma_module_listed_once(project, at);
}

/// A file that owns at least one catalog entry is listed by `unique_files`
/// exactly once.
pub proof fn lemma_declaring_file_listed_once(project: ProjectView, i: int)
    requires
        0 <= i < project.entries.len(),
    ensures
        occurs_once(unique_files(project), project.entries[i].file),
{
    lemma_distinct_once(owners(project.entries), i);
}

/// A target resolves to the resources of exactly the catalog entries that
/// it denotes, in catalog order.
pub proof fn lemma_picked_is_filter(entries: Seq<EntryView>, target: TargetView)
    ensures
        picked(entries, target) == resources_of(
            entries.filter(|e: EntryView| denotes(target, e)),
        ),
    decreases entries.len(),
{
    reveal(Seq::filter);
    let chosen = |e: EntryView| denotes(target, e);
    if entries.len() == 0 {
        assert(picked(entries, target) =~= resources_of(entries.filter(chosen)));
    } else {
        lemma_picked_is_filter(entries.drop_last(), target);
        assert(picked(entries, target) =~= resources_of(entries.filter(chosen)));
    }
}

/// The file that scanning makes of a source.
pub open spec fn file_of(source: SourceView) -> FileView {
    FileView { path: source.path, resources: declarations(source.content) }
}

/// What `target` denotes among the declarations of one file.
pub open spec fn share(file: FileView, target: TargetView) -> Seq<ResourceView> {
    picked(entries_of(file), target)
}

/// The shares of `files`, file after file.
pub open spec fn gathered(files: Seq<FileView>, target: TargetView) -> Seq<ResourceView>
    decreases files.len(),
{
    if files.len() == 0 {
        Seq::empty()
    } else {
        gathered(files.drop_last(), target) + share(files.last(), target)
    }
}

/// Resolving in a catalog of two parts resolves in each part.
pub proof fn lemma_picked_concat(a: Seq<EntryView>, b: Seq<EntryView>, target: TargetView)
    ensures
        picked(a + b, target) == picked(a, target) + picked(b, target),
    decreases b.len(),
{
    if b.len() == 0 {
        assert(a + b =~= a);
        assert(picked(a, target) + picked(b, target) =~= picked(a, target));
    } else {
        lemma_picked_concat(a, b.drop_last(), target);
        assert((a + b).drop_last() =~= a + b.drop_last());
        assert((a + b).last() == b.last());
        assert(picked(a + b, target) =~= picked(a, target) + picked(b, target));
    }
}

/// A target resolves, file after file, to its share of each file.
pub proof fn lemma_resolves_file_by_file(files: Seq<FileView>, target: TargetView)
    ensures
        picked(catalog(files), target) == gathered(files, target),
    decreases files.len(),
{
    if files.len() > 0 {
        lemma_resolves_file_by_file(files.drop_last(), target);
        lemma_picked_concat(catalog(files.drop_last()), entries_of(files.last()), target);
    }
}

/// Of the declarations of one file, a file target denotes all or none.
pub proof fn lemma_share_of_file_target(file: FileView, path: Seq<char>)
    ensures
        share(file, TargetView::File(path)) == if file.path == path {
            file.resources
        } else {
            Seq::empty()
        },
{
    lemma_picked_own_file(file, path, file.resources.len() as int);
    assert(entries_of(file).take(file.resources.len() as int) =~= entries_of(file));
    assert(file.resources.take(file.resources.len() as int) =~= file.resources);
}

proof fn lemma_picked_own_file(file: FileView, path: Seq<char>, n: int)
    requires
        0 <= n <= file.resources.len(),
    ensures
        picked(entries_of(file).take(n), TargetView::File(path)) == if file.path == path {
            file.resources.take(n)
        } else {
            Seq::empty()
        },
    decreases n,
{
    if n == 0 {
        assert(entries_of(file).take(0) =~= Seq::<EntryView>::empty());
        assert(file.resources.take(0) =~= Seq::<ResourceView>::empty());
    } else {
        lemma_picked_own_file(file, path, n - 1);
        assert(entries_of(file).take(n).drop_last() =~= entries_of(file).take(n - 1));
        assert(entries_of(file).take(n).last() == entries_of(file)[n - 1]);
        if file.path == path {
            assert(file.resources.take(n - 1).push(file.resources[n - 1]) =~= file.resources.take(
                n,
            ));
        }
    }
}

proof fn lemma_gathered_none(files: Seq<FileView>, target: TargetView)
    requires
        forall|k: int| 0 <= k < files.len() ==> share(#[trigger] files[k], target).len() == 0,
    ensures
        gathered(files, target) == Seq::<ResourceView>::empty(),
    decreases files.len(),
{
    if files.len() > 0 {
        let front = files.drop_last();
        assert forall|k: int| 0 <= k < front.len() implies share(#[trigger] front[k], target).len()
            == 0 by {
            assert(front[k] == files[k]);
        }
        lemma_gathered_none(front, target);
        assert(share(files[files.len() - 1], target).len() == 0);
        assert(gathered(files, target) =~= Seq::<ResourceView>::empty());
    }
}

proof fn lemma_gathered_single(files: Seq<FileView>, target: TargetView, m: int)
    requires
        0 <= m < files.len(),
        forall|k: int|
            0 <= k < files.len() && k != m ==> share(#[trigger] files[k], target).len() == 0,
    ensures
        gathered(files, target) == share(files[m], target),
    decreases files.len(),
{
    let front = files.drop_last();
    assert forall|k: int| 0 <= k < front.len() && k != m implies share(
        #[trigger] front[k],
        target,
    ).len() == 0 by {
        assert(front[k] == files[k]);
    }
    if m == files.len() - 1 {
        lemma_gathered_none(front, target);
        assert(gathered(files, target) =~= share(files[m], target));
    } else {
        assert(front[m] == files[m]);
        lemma_gathered_single(front, target, m);
        assert(share(files[files.len() - 1], target).len() == 0);
        assert(gathered(files, target) =~= share(files[m], target));
    }
}

/// Every file that scanning finds is made of a source that is a
/// configuration file.
pub proof fn lemma_scanned_within(sources: Seq<SourceView>, k: int)
    requires
        0 <= k < scanned(sources).len(),
    ensures
        exists|j: int|
            0 <= j < sources.len() && is_config_path((#[trigger] sources[j]).path) && scanned(
                sources,
            )[k] == file_of(sources[j]),
    decreases sources.len(),
{
    let front = sources.drop_last();
    if k < scanned(front).len() {
        assert(scanned(sources)[k] == scanned(front)[k]);
        lemma_scanned_within(front, k);
        let j = choose|j: int|
            0 <= j < front.len() && is_config_path((#[trigger] front[j]).path) && scanned(front)[k]
                == file_of(front[j]);
        assert(sources[j] == front[j]);
    } else {
        assert(scanned(sources)[k] == file_of(sources[sources.len() - 1]));
    }
}

proof fn lemma_scanned_once(sources: Seq<SourceView>, i: int)
    requires
        0 <= i < sources.len(),
        is_config_path(sources[i].path),
        forall|k: int|
            0 <= k < sources.len() && k != i && is_config_path((#[trigger] sources[k]).path)
                ==> file_of(sources[k]) != file_of(sources[i]),
    ensures
        scanned(sources).to_multiset().count(file_of(sources[i])) == 1,
    decreases sources.len(),
{
    let file = file_of(sources[i]);
    let front = sources.drop_last();
    let last = sources.last();
    let before = scanned(front);
    assert forall|k: int|
        0 <= k < front.len() && k != i && is_config_path((#[trigger] front[k]).path) implies file_of(
        front[k],
    ) != file by {
        assert(front[k] == sources[k]);
    }
    if i == sources.len() - 1 {
        assert(!before.contains(file)) by {
            if before.contains(file) {
                let k = before.index_of(file);
                lemma_scanned_within(front, k);
            }
        }
        to_multiset_contains(before, file);
        to_multiset_build(before, file);
    } else {
        assert(front[i] == sources[i]);
        lemma_scanned_once(front, i);
        if is_config_path(last.path) {
            assert(file_of(sources[sources.len() - 1]) != file);
            to_multiset_build(before, file_of(last));
        }
    }
}

proof fn lemma_counted_once<A>(s: Seq<A>, x: A, a: int, b: int)
    requires
        s.to_multiset().count(x) == 1,
        0 <= a < s.len(),
        0 <= b < s.len(),
        s[a] == x,
        s[b] == x,
    ensures
        a == b,
    decreases s.len(),
{
    let front = s.drop_last();
    assert(front.push(s.last()) =~= s);
    to_multiset_build(front, s.last());
    to_multiset_contains(front, x);
    if a < s.len() - 1 {
        assert(front[a] == x);
        assert(front.contains(x));
        if b < s.len() - 1 {
            assert(front[b] == x);
            lemma_counted_once(front, x, a, b);
        }
    } else if b < s.len() - 1 {
        assert(front[b] == x);
        assert(front.contains(x));
    }
}

/// Where one configuration file alone holds what a target denotes, the target
/// resolves to its share of that file.
pub proof fn lemma_sole_holder(sources: Seq<SourceView>, i: int, target: TargetView)
    requires
        0 <= i < sources.len(),
        is_config_path(sources[i].path),
        forall|k: int|
            0 <= k < sources.len() && k != i && is_config_path((#[trigger] sources[k]).path)
                ==> share(file_of(sources[k]), target).len() == 0,
    ensures
        resolve(project_of(sources), target) == share(file_of(sources[i]), target),
{
    let file = file_of(sources[i]);
    let found = scanned(sources);
    let files = ordered(found);
    lemma_resolves_file_by_file(files, target);
    lemma_scanned_keeps(sources, i);
    lemma_sort_permutes(found, by_path());
    lemma_sort_members(found, by_path(), file);
    let m = files.index_of(file);
    if share(file, target).len() == 0 {
        assert forall|k: int| 0 <= k < files.len() implies share(#[trigger] files[k], target).len()
            == 0 by {
            assert(files.contains(files[k]));
            lemma_sort_members(found, by_path(), files[k]);
            lemma_scanned_within(sources, found.index_of(files[k]));
        }
        lemma_gathered_none(files, target);
        assert(share(file, target) =~= Seq::<ResourceView>::empty());
    } else {
        lemma_scanned_once(sources, i);
        assert forall|k: int| 0 <= k < files.len() && k != m implies share(
            #[trigger] files[k],
            target,
        ).len() == 0 by {
            assert(files.contains(files[k]));
            lemma_sort_members(found, by_path(), files[k]);
            lemma_scanned_within(sources, found.index_of(files[k]));
            if files[k] == file {
                lemma_counted_once(files, file, k, m);
            }
        }
        lemma_gathered_single(files, target, m);
    }
}

/// A file target resolves to exactly what the file of that path declares, in
/// the order of declaration, where one source alone has the path.
pub proof fn lemma_file_target_gives_declarations(sources: Seq<SourceView>, i: int)
    requires
        0 <= i < sources.len(),
        is_config_path(sources[i].path),
        forall|k: int|
            0 <= k < sources.len() && k != i ==> (#[trigger] sources[k]).path != sources[i].path,
    ensures
        resolve(project_of(sources), TargetView::File(sources[i].path)) == declarations(
            sources[i].content,
        ),
{
    let target = TargetView::File(sources[i].path);
    assert forall|k: int|
        0 <= k < sources.len() && k != i && is_config_path((#[trigger] sources[k]).path) implies share(
        file_of(sources[k]),
        target,
    ).len() == 0 by {
        lemma_share_of_file_target(file_of(sources[k]), sources[i].path);
    }
    lemma_sole_holder(sources, i, target);
    lemma_share_of_file_target(file_of(sources[i]), sources[i].path);
}

/// Where a target denotes one declaration of one configuration file and
/// nothing else, it resolves to that one resource. So a resource that one
/// file declares once, and no other file declares, resolves to a sequence of
/// length 1.
pub proof fn lemma_declared_once_resolves_to_one(
    sources: Seq<SourceView>,
    i: int,
    j: int,
    target: TargetView,
)
    requires
        0 <= i < sources.len(),
        is_config_path(sources[i].path),
        0 <= j < declarations(sources[i].content).len(),
        forall|k: int, at: int|
            0 <= k < sources.len() && is_config_path(sources[k].path) && 0 <= at < declarations(
                sources[k].content,
            ).len() ==> (denotes(
                target,
                EntryView {
                    file: sources[k].path,
                    resource: #[trigger] declarations(sources[k].content)[at],
                },
            ) <==> k == i && at == j),
    ensures
        resolve(project_of(sources), target) == seq![declarations(sources[i].content)[j]],
        resolve(project_of(sources), target).len() == 1,
{
    assert forall|k: int|
        0 <= k < sources.len() && k != i && is_config_path((#[trigger] sources[k]).path) implies share(
        file_of(sources[k]),
        target,
    ).len() == 0 by {
        let entries = entries_of(file_of(sources[k]));
        assert forall|at: int| 0 <= at < entries.len() implies !denotes(
            target,
            #[trigger] entries[at],
        ) by {
            assert(entries[at].resource == declarations(sources[k].content)[at]);
        }
        lemma_nothing_denoted(entries, target);
    }
    lemma_sole_holder(sources, i, target);
    let own = entries_of(file_of(sources[i]));
    assert(own[j].resource == declarations(sources[i].content)[j]);
    assert forall|at: int| 0 <= at < own.len() && at != j implies !denotes(
        target,
        #[trigger] own[at],
    ) by {
        assert(own[at].resource == declarations(sources[i].content)[at]);
    }
    lemma_single_match(own, target, j);
}

/// Whether no two sources have the same path.
pub open spec fn distinct_paths(sources: Seq<SourceView>) -> bool {
    forall|i: int, j: int|
        0 <= i < j < sources.len() ==> (#[trigger] sources[i]).path != (#[trigger] sources[j]).path
}

proof fn lemma_scanned_count(sources: Seq<SourceView>, file: FileView)
    requires
        distinct_paths(sources),
    ensures
        scanned(sources).to_multiset().count(file) == if exists|i: int|
            0 <= i < sources.len() && is_config_path((#[trigger] sources[i]).path) && file_of(
                sources[i],
            ) == file {
            1nat
        } else {
            0nat
        },
{
    if exists|i: int|
        0 <= i < sources.len() && is_config_path((#[trigger] sources[i]).path) && file_of(sources[i])
            == file {
        let i = choose|i: int|
            0 <= i < sources.len() && is_config_path((#[trigger] sources[i]).path) && file_of(
                sources[i],
            ) == file;
        assert forall|k: int|
            0 <= k < sources.len() && k != i && is_config_path(
                (#[trigger] sources[k]).path,
            ) implies file_of(sources[k]) != file_of(sources[i]) by {
            if k < i {
                assert(sources[k].path != sources[i].path);
            } else {
                assert(sources[i].path != sources[k].path);
            }
        }
        lemma_scanned_once(sources, i);
    } else {
        to_multiset_contains(scanned(sources), file);
        if scanned(sources).contains(file) {
            lemma_scanned_within(sources, scanned(sources).index_of(file));
        }
    }
}

proof fn lemma_distinct_paths_permuted(a: Seq<SourceView>, b: Seq<SourceView>)
    requires
        a.to_multiset() == b.to_multiset(),
        distinct_paths(a),
    ensures
        distinct_paths(b),
{
    assert forall|i: int, j: int| 0 <= i < j < b.len() implies (#[trigger] b[i]).path != (
    #[trigger] b[j]).path by {
        if b[i].path == b[j].path {
            assert(b.contains(b[i]));
            assert(b.contains(b[j]));
            to_multiset_contains(b, b[i]);
            to_multiset_contains(b, b[j]);
            to_multiset_contains(a, b[i]);
            to_multiset_contains(a, b[j]);
            let m = a.index_of(b[i]);
            let n = a.index_of(b[j]);
            if m < n {
                assert(a[m].path != a[n].path);
            } else if n < m {
                assert(a[n].path != a[m].path);
            }
            assert(a.no_duplicates()) by {
                assert forall|p: int, q: int| 0 <= p < a.len() && 0 <= q < a.len() && p != q implies a[p]
                    != a[q] by {
                    if p < q {
                        assert(a[p].path != a[q].path);
                    } else {
                        assert(a[q].path != a[p].path);
                    }
                }
            }
            a.lemma_multiset_has_no_duplicates();
            assert(a.to_multiset().contains(b[i]));
            lemma_counted_once(b, b[i], i, j);
        }
    }
}

/// The project does not depend on the order in which the files of a
/// directory are listed: sources with pairwise different paths make the
/// same project in every order.
pub proof fn lemma_listing_order_is_irrelevant(a: Seq<SourceView>, b: Seq<SourceView>)
    requires
        a.to_multiset() == b.to_multiset(),
        distinct_paths(a),
    ensures
        project_of(a) == project_of(b),
{
    lemma_distinct_paths_permuted(a, b);
    let x = ordered(scanned(a));
    let y = ordered(scanned(b));
    assert(scanned(a).to_multiset() =~= scanned(b).to_multiset()) by {
        assert forall|file: FileView|
            scanned(a).to_multiset().count(file) == scanned(b).to_multiset().count(file) by {
            lemma_scanned_count(a, file);
            lemma_scanned_count(b, file);
            if exists|i: int|
                0 <= i < a.len() && is_config_path((#[trigger] a[i]).path) && file_of(a[i]) == file {
                let i = choose|i: int|
                    0 <= i < a.len() && is_config_path((#[trigger] a[i]).path) && file_of(a[i])
                        == file;
                assert(a.contains(a[i]));
                to_multiset_contains(a, a[i]);
                to_multiset_contains(b, a[i]);
                let j = b.index_of(a[i]);
                assert(is_config_path(b[j].path) && file_of(b[j]) == file);
            }
            if exists|i: int|
                0 <= i < b.len() && is_config_path((#[trigger] b[i]).path) && file_of(b[i]) == file {
                let i = choose|i: int|
                    0 <= i < b.len() && is_config_path((#[trigger] b[i]).path) && file_of(b[i])
                        == file;
                assert(b.contains(b[i]));
                to_multiset_contains(b, b[i]);
                to_multiset_contains(a, b[i]);
                let j = a.index_of(b[i]);
                assert(is_config_path(a[j].path) && file_of(a[j]) == file);
            }
        }
    }
    lemma_files_ordered(scanned(a));
    lemma_files_ordered(scanned(b));
    assert forall|i: int, j: int|
        0 <= i < x.len() && 0 <= j < x.len() && #[trigger] by_path()(x[i], x[j]) && by_path()(
            x[j],
            x[i],
        ) implies x[i] == x[j] by {
        lemma_text_le_antisymmetric(x[i].path, x[j].path, 0);
        assert(x[i].path =~= x[j].path);
        assert(x.contains(x[i]));
        assert(x.contains(x[j]));
        lemma_sort_members(scanned(a), by_path(), x[i]);
        lemma_sort_members(scanned(a), by_path(), x[j]);
        lemma_scanned_within(a, scanned(a).index_of(x[i]));
        lemma_scanned_within(a, scanned(a).index_of(x[j]));
        let m = choose|m: int|
            0 <= m < a.len() && is_config_path((#[trigger] a[m]).path) && x[i] == file_of(a[m]);
        let n = choose|n: int|
            0 <= n < a.len() && is_config_path((#[trigger] a[n]).path) && x[j] == file_of(a[n]);
        if m < n {
            assert(a[m].path != a[n].path);
        } else if n < m {
            assert(a[n].path != a[m].path);
        }
    }
    lemma_sorted_unique(x, y, by_path());
}

/// A target that denotes no entry resolves to nothing. So does a file that
/// declares nothing.
pub proof fn lemma_nothing_denoted(entries: Seq<EntryView>, target: TargetView)
    requires
        forall|k: int| 0 <= k < entries.len() ==> !denotes(target, #[trigger] entries[k]),
    ensures
        picked(entries, target) == Seq::<ResourceView>::empty(),
    decreases entries.len(),
{
    if entries.len() > 0 {
        let front = entries.drop_last();
        assert forall|k: int| 0 <= k < front.len() implies !denotes(target, #[trigger] front[k]) by {
            assert(front[k] == entries[k]);
        }
        lemma_nothing_denoted(front, target);
        assert(!denotes(target, entries[entries.len() - 1]));
    }
}

/// A target that denotes exactly one entry resolves to that entry's
/// resource alone. So a resource that one file declares once resolves to a
/// sequence of length 1.
pub proof fn lemma_single_match(entries: Seq<EntryView>, target: TargetView, i: int)
    requires
        0 <= i < entries.len(),
        denotes(target, entries[i]),
        forall|k: int| 0 <= k < entries.len() && k != i ==> !denotes(target, #[trigger] entries[k]),
    ensures
        picked(entries, target) == seq![entries[i].resource],
    decreases entries.len(),
{
    let front = entries.drop_last();
    if i == entries.len() - 1 {
        assert forall|k: int| 0 <= k < front.len() implies !denotes(target, #[trigger] front[k]) by {
            assert(front[k] == entries[k]);
        }
        lemma_nothing_denoted(front, target);
        assert(picked(entries, target) =~= seq![entries[i].resource]);
    } else {
        assert forall|k: int| 0 <= k < front.len() && k != i implies !denotes(
            target,
            #[trigger] front[k],
        ) by {
            assert(front[k] == entries[k]);
        }
        assert(front[i] == entries[i]);
        lemma_single_match(front, target, i);
        assert(!denotes(target, entries[entries.len() - 1]));
    }
}

/// Every resource that a target resolves to belongs to an entry that the
/// target denotes, and every such entry's resource is resolved to.
pub proof fn lemma_picked_members(entries: Seq<EntryView>, target: TargetView, r: ResourceView)
    ensures
        picked(entries, target).contains(r) <==> exists|k: int|
            0 <= k < entries.len() && denotes(target, #[trigger] entries[k]) && entries[k].resource
                == r,
    decreases entries.len(),
{
    if entries.len() > 0 {
        let front = entries.drop_last();
        let last = entries.last();
        let before = picked(front, target);
        let all = picked(entries, target);
        lemma_picked_members(front, target, r);
        if all.contains(r) {
            let j = all.index_of(r);
            if j < before.len() {
                assert(before[j] == r);
                assert(before.contains(r));
                let k = choose|k: int|
                    0 <= k < front.len() && denotes(target, #[trigger] front[k]) && front[k].resource
                        == r;
                assert(entries[k] == front[k]);
            } else {
                assert(denotes(target, entries[entries.len() - 1]));
            }
        }
        if exists|k: int|
            0 <= k < entries.len() && denotes(target, #[trigger] entries[k]) && entries[k].resource
                == r {
            let k = choose|k: int|
                0 <= k < entries.len() && denotes(target, #[trigger] entries[k])
                    && entries[k].resource == r;
            if k < front.len() {
                assert(front[k] == entries[k]);
                assert(before.contains(r));
                let j = before.index_of(r);
                assert(all[j] == r);
            } else {
                assert(all[before.len() as int] == r);
            }
        }
    }
}

/// Whether a path names a configuration file.
pub fn is_config_file(path: &str) -> (out: bool)
    ensures
        out == is_config_path(path@),
{
    let chars = chars_of(path);
    let n = chars.len();
    n >= 4 && chars[n - 3] == '.' && chars[n - 2] == 't' && chars[n - 1] == 'f' && chars[n - 4]
        != '/'
}

fn insert_file(files: &mut Vec<ConfigFile>, file: ConfigFile)
    ensures
        views(final(files)@) == insert_by(views(old(files)@), file@, by_path()),
{
    let mut p: usize = files.len();
    while p > 0 && !text_precedes(files[p - 1].path.as_str(), file.path.as_str())
        invariant
            p <= files.len(),
            files@ == old(files)@,
            forall|k: int|
                p <= k < files.len() ==> !text_le(#[trigger] views(files@)[k].path, file.path@),
        decreases p,
    {
        p = p - 1;
    }
    proof {
        if p > 0 {
            assert(views(files@)[p - 1].path == files@[p - 1].path@);
        }
        lemma_insert_position(views(files@), file@, by_path(), p as int);
    }
    let ghost added = file@;
    files.insert(p, file);
    assert(views(files@) =~= views(old(files)@).insert(p as int, added));
}

fn copy_resources(resources: &Vec<Resource>, path: &String, entries: &mut Vec<ResourceEntry>)
    ensures
        views(final(entries)@) == views(old(entries)@) + entries_of(
            FileView { path: path@, resources: views(resources@) },
        ),
{
    let ghost file = FileView { path: path@, resources: views(resources@) };
    let mut k: usize = 0;
    assert(views(entries@) =~= views(old(entries)@) + entries_of(file).take(0));
    while k < resources.len()
        invariant
            k <= resources.len(),
            file == (FileView { path: path@, resources: views(resources@) }),
            views(entries@) == views(old(entries)@) + entries_of(file).take(k as int),
        decreases resources.len() - k,
    {
        let ghost before = views(entries@);
        let entry = ResourceEntry { file: path.clone(), resource: resources[k].clone() };
        entries.push(entry);
        k = k + 1;
        assert(views(entries@) =~= before.push(entry@));
        assert(before.push(entry@) =~= views(old(entries)@) + entries_of(file).take(k as int));
    }
    assert(entries_of(file).take(k as int) =~= entries_of(file));
}

impl TerraformProject {
    #[verifier::type_invariant]
    spec fn well_formed(&self) -> bool {
        all_declared_form(views(self.entries@))
    }

    /// Builds the model from the files found under a root: keeps the
    /// configuration files, orders them by path and scans each one. Fails
    /// with `NoTerraformFiles` exactly when none of the files is a
    /// configuration file.
    pub fn from_sources(sources: &[SourceFile]) -> (out: Result<TerraformProject, TfocusError>)
        ensures
            out is Err <==> forall|i: int|
                0 <= i < sources@.len() ==> !is_config_path(#[trigger] sources@[i].path@),
            out matches Ok(project) ==> project@ == project_of(views(sources@)),
            out matches Ok(project) ==> all_declared_form(project@.entries),
            out matches Err(e) ==> e == TfocusError::NoTerraformFiles,
    {
        let ghost given = views(sources@);
        let mut files: Vec<ConfigFile> = Vec::new();
        let mut i: usize = 0;
        assert(given.take(0) =~= Seq::<SourceView>::empty());
        assert(views(files@) =~= ordered(scanned(given.take(0))));
        while i < sources.len()
            invariant
                i <= sources.len(),
                given == views(sources@),
                views(files@) == ordered(scanned(given.take(i as int))),
            decreases sources.len() - i,
        {
            let source = &sources[i];
            proof {
                assert(given.take(i + 1).drop_last() =~= given.take(i as int));
                assert(given.take(i + 1).last() == source@);
            }
            if is_config_file(source.path.as_str()) {
                let file = ConfigFile {
                    path: source.path.clone(),
                    resources: scan_declarations(source.content.as_str()),
                };
                assert(scanned(given.take(i + 1)).drop_last() =~= scanned(given.take(i as int)));
                insert_file(&mut files, file);
            }
            i = i + 1;
        }
        proof {
            assert(given.take(i as int) =~= given);
            lemma_scanned_empty(given);
            lemma_sort_permutes(scanned(given), by_path());
            if forall|i: int| 0 <= i < given.len() ==> !is_config_path(#[trigger] given[i].path) {
                assert forall|i: int| 0 <= i < sources@.len() implies !is_config_path(
                    #[trigger] sources@[i].path@,
                ) by {
                    assert(given[i].path == sources@[i].path@);
                }
            }
            if forall|i: int|
                0 <= i < sources@.len() ==> !is_config_path(#[trigger] sources@[i].path@) {
                assert forall|i: int| 0 <= i < given.len() implies !is_config_path(
                    #[trigger] given[i].path,
                ) by {
                    assert(given[i].path == sources@[i].path@);
                }
            }
        }
        if files.len() == 0 {
            return Err(TfocusError::NoTerraformFiles);
        }
        let mut paths: Vec<String> = Vec::new();
        let mut entries: Vec<ResourceEntry> = Vec::new();
        let mut k: usize = 0;
        assert(views(files@).take(0) =~= Seq::<FileView>::empty());
        assert(views(paths@) =~= paths_of(views(files@).take(0)));
        assert(views(entries@) =~= catalog(views(files@).take(0)));
        while k < files.len()
            invariant
                k <= files.len(),
                views(paths@) == paths_of(views(files@).take(k as int)),
                views(entries@) == catalog(views(files@).take(k as int)),
            decreases files.len() - k,
        {
            let ghost seen = views(files@).take(k as int);
            let ghost next = views(files@).take(k + 1);
            let file = &files[k];
            assert(next.drop_last() =~= seen);
            assert(next.last() == file@);
            let ghost listed = views(paths@);
            paths.push(file.path.clone());
            assert(views(paths@) =~= listed.push(file.path@));
            assert(listed.push(file.path@) =~= paths_of(next));
            copy_resources(&file.resources, &file.path, &mut entries);
            k = k + 1;
        }
        assert(views(files@).take(k as int) =~= views(files@));
        proof {
            lemma_project_well_formed(given);
        }
        Ok(TerraformProject { files: paths, entries })
    }

    /// The paths of the configuration files, in scan order.
    pub fn get_files(&self) -> (out: Vec<String>)
        ensures
            views(out@) == self@.files,
    {
        let mut out: Vec<String> = Vec::new();
        let mut i: usize = 0;
        while i < self.files.len()
            invariant
                i <= self.files.len(),
                views(out@) == views(self.files@).take(i as int),
            decreases self.files.len() - i,
        {
            let ghost before = views(out@);
            out.push(self.files[i].clone());
            assert(views(out@) =~= before.push(self.files@[i as int]@));
            i = i + 1;
            assert(before.push(self.files@[i - 1]@) =~= views(self.files@).take(i as int));
        }
        assert(views(self.files@).take(i as int) =~= views(self.files@));
        out
    }

    /// The catalog: every declaration with the file that owns it, file after
    /// file and in the order of declaration.
    pub fn get_entries(&self) -> (out: Vec<ResourceEntry>)
        ensures
            views(out@) == self@.entries,
            all_declared_form(self@.entries),
    {
        proof {
            use_type_invariant(self);
        }
        let mut out: Vec<ResourceEntry> = Vec::new();
        let mut i: usize = 0;
        while i < self.entries.len()
            invariant
                i <= self.entries.len(),
                views(out@) == views(self.entries@).take(i as int),
            decreases self.entries.len() - i,
        {
            let ghost before = views(out@);
            out.push(self.entries[i].clone());
            assert(views(out@) =~= before.push(self.entries@[i as int]@));
            i = i + 1;
            assert(before.push(self.entries@[i - 1]@) =~= views(self.entries@).take(i as int));
        }
        assert(views(self.entries@).take(i as int) =~= views(self.entries@));
        out
    }

    /// The files that declare something: each path once, in scan order.
    pub fn get_unique_files(&self) -> (out: Vec<String>)
        ensures
            views(out@) == unique_files(self@),
    {
        let ghost all = owners(self@.entries);
        let mut out: Vec<String> = Vec::new();
        let mut i: usize = 0;
        assert(views(out@) =~= distinct(all.take(0)));
        while i < self.entries.len()
            invariant
                i <= self.entries.len(),
                all == owners(self@.entries),
                views(out@) == distinct(all.take(i as int)),
            decreases self.entries.len() - i,
        {
            assert(all.take(i + 1).drop_last() =~= all.take(i as int));
            assert(all.take(i + 1).last() == self.entries@[i as int].file@);
            push_unique(&mut out, self.entries[i].file.clone());
            i = i + 1;
        }
        assert(all.take(i as int) =~= all);
        out
    }

    /// The names of the modules called anywhere in the project: each name
    /// once, in the order of first call.
    pub fn get_modules(&self) -> (out: Vec<String>)
        ensures
            views(out@) == modules(self@),
    {
        let ghost all = self@.entries;
        let mut out: Vec<String> = Vec::new();
        let mut i: usize = 0;
        assert(all.take(0) =~= Seq::<EntryView>::empty());
        assert(views(out@) =~= distinct(module_names(all.take(0))));
        while i < self.entries.len()
            invariant
                i <= self.entries.len(),
                all == self@.entries,
                views(out@) == distinct(module_names(all.take(i as int))),
            decreases self.entries.len() - i,
        {
            let entry = &self.entries[i];
            assert(all.take(i + 1).drop_last() =~= all.take(i as int));
            assert(all.take(i + 1).last() == entry@);
            if entry.resource.is_module {
                let ghost names = module_names(all.take(i + 1));
                assert(names.drop_last() =~= module_names(all.take(i as int)));
                push_unique(&mut out, entry.resource.name.clone());
            }
            i = i + 1;
        }
        assert(all.take(i as int) =~= all);
        out
    }

    /// Every declaration of the project, leaf resources and module calls
    /// alike, file after file and in the order of declaration.
    pub fn get_all_resources(&self) -> (out: Vec<Resource>)
        ensures
            views(out@) == all_resources(self@),
            all_declared_form(self@.entries),
    {
        proof {
            use_type_invariant(self);
        }
        let mut out: Vec<Resource> = Vec::new();
        let mut i: usize = 0;
        while i < self.entries.len()
            invariant
                i <= self.entries.len(),
                views(out@) == all_resources(self@).take(i as int),
            decreases self.entries.len() - i,
        {
            let ghost before = views(out@);
            out.push(self.entries[i].resource.clone());
            assert(views(out@) =~= before.push(self.entries@[i as int]@.resource));
            i = i + 1;
            assert(before.push(self.entries@[i - 1]@.resource) =~= all_resources(self@).take(
                i as int,
            ));
        }
        assert(all_resources(self@).take(i as int) =~= all_resources(self@));
        out
    }

    /// The resources that `target` denotes, in catalog order. A target that
    /// denotes nothing resolves to the empty sequence.
    pub fn get_resources_by_target(&self, target: &Target) -> (out: Vec<Resource>)
        ensures
            views(out@) == resolve(self@, target@),
            all_declared_form(self@.entries),
    {
        proof {
            use_type_invariant(self);
        }
        let ghost all = self@.entries;
        let mut out: Vec<Resource> = Vec::new();
        let mut i: usize = 0;
        assert(all.take(0) =~= Seq::<EntryView>::empty());
        assert(views(out@) =~= picked(all.take(0), target@));
        while i < self.entries.len()
            invariant
                i <= self.entries.len(),
                all == self@.entries,
                views(out@) == picked(all.take(i as int), target@),
            decreases self.entries.len() - i,
        {
            let entry = &self.entries[i];
            assert(all.take(i + 1).drop_last() =~= all.take(i as int));
            assert(all.take(i + 1).last() == entry@);
            let chosen = match target {
                Target::File(path) => entry.file == *path,
                Target::Module(name) => entry.resource.is_module && entry.resource.name == *name,
                Target::Resource(resource_type, name) => !entry.resource.is_module
                    && entry.resource.resource_type == *resource_type && entry.resource.name
                    == *name,
            };
            assert(chosen == denotes(target@, entry@));
            if chosen {
                let ghost before = views(out@);
                out.push(entry.resource.clone());
                assert(views(out@) =~= before.push(entry@.resource));
            }
            i = i + 1;
        }
        assert(all.take(i as int) =~= all);
        out
    }
}

} // verus!

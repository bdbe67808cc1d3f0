//! The reconciliation engine: files, their text, and the pending change log.
use vstd::prelude::*;
use crate::path::{RelPath, VfsPath};
use crate::roots::{claims, filters_wf, root_dirs, paths_view, resolves_to, FilterView, RootFilter, Roots, VfsRoot};

verus! {

/// A logical file, by its position in the file arena. A handle stays valid
/// for the lifetime of the `Vfs`, also after its file is removed.
#[derive(Debug, Clone, Copy, PartialEq, Eq, PartialOrd, Ord, Hash, Structural)]
pub struct VfsFile(pub u32);

/// What the `Vfs` knows of one file, as plain values.
pub struct FileState {
    pub root: u32,
    pub path: Seq<Seq<char>>,
    pub text: Seq<char>,
    pub overlayed: bool,
    pub live: bool,
}

/// One entry of the change log, as plain values.
pub enum ChangeView {
    AddRoot { root: u32, files: Seq<(u32, Seq<Seq<char>>, Seq<char>)> },
    AddFile { root: u32, file: u32, path: Seq<Seq<char>>, text: Seq<char> },
    RemoveFile { root: u32, file: u32, path: Seq<Seq<char>> },
    ChangeFile { file: u32, text: Seq<char> },
}

/// A change to the set of files or to their text.
#[derive(Debug)]
pub enum VfsChange {
    /// A root was scanned: every file found in it, with its current text.
    AddRoot { root: VfsRoot, files: Vec<(VfsFile, RelPath, String)> },
    AddFile { root: VfsRoot, file: VfsFile, path: RelPath, text: String },
    RemoveFile { root: VfsRoot, file: VfsFile, path: RelPath },
    ChangeFile { file: VfsFile, text: String },
}

pub open spec fn entries_view(v: Seq<(VfsFile, RelPath, String)>) -> Seq<(u32, Seq<Seq<char>>, Seq<char>)> {
    v.map_values(|e: (VfsFile, RelPath, String)| (e.0.0, e.1@, e.2@))
}

impl View for VfsChange {
    type V = ChangeView;

    open spec fn view(&self) -> ChangeView {
        match self {
            VfsChange::AddRoot { root, files } => ChangeView::AddRoot { root: root.0, files: entries_view(files@) },
            VfsChange::AddFile { root, file, path, text } => ChangeView::AddFile {
                root: root.0,
                file: file.0,
                path: path@,
                text: text@,
            },
            VfsChange::RemoveFile { root, file, path } => ChangeView::RemoveFile {
                root: root.0,
                file: file.0,
                path: path@,
            },
            VfsChange::ChangeFile { file, text } => ChangeView::ChangeFile { file: file.0, text: text@ },
        }
    }
}

pub open spec fn changes_view(v: Seq<VfsChange>) -> Seq<ChangeView> {
    v.map_values(|c: VfsChange| c@)
}

/// A scanner result, as plain values.
pub enum TaskView {
    BulkLoadRoot { root: u32, files: Seq<(Seq<Seq<char>>, Seq<char>)> },
    AddSingleFile { root: u32, path: Seq<Seq<char>>, text: Seq<char> },
    ChangeSingleFile { root: u32, path: Seq<Seq<char>>, text: Seq<char> },
    RemoveSingleFile { root: u32, path: Seq<Seq<char>> },
}

/// A result of the background scanner.
#[derive(Debug)]
pub enum VfsTask {
    /// The scan of a root is complete: every file found, with its text.
    BulkLoadRoot { root: VfsRoot, files: Vec<(RelPath, String)> },
    AddSingleFile { root: VfsRoot, path: RelPath, text: String },
    ChangeSingleFile { root: VfsRoot, path: RelPath, text: String },
    RemoveSingleFile { root: VfsRoot, path: RelPath },
}

pub open spec fn scanned_view(v: Seq<(RelPath, String)>) -> Seq<(Seq<Seq<char>>, Seq<char>)> {
    v.map_values(|e: (RelPath, String)| (e.0@, e.1@))
}

impl View for VfsTask {
    type V = TaskView;

    open spec fn view(&self) -> TaskView {
        match self {
            VfsTask::BulkLoadRoot { root, files } => TaskView::BulkLoadRoot { root: root.0, files: scanned_view(files@) },
            VfsTask::AddSingleFile { root, path, text } => TaskView::AddSingleFile { root: root.0, path: path@, text: text@ },
            VfsTask::ChangeSingleFile { root, path, text } => TaskView::ChangeSingleFile {
                root: root.0,
                path: path@,
                text: text@,
            },
            VfsTask::RemoveSingleFile { root, path } => TaskView::RemoveSingleFile { root: root.0, path: path@ },
        }
    }
}

/// No two records share a root and a path.
pub open spec fn records_unique(fs: Seq<FileState>) -> bool {
    forall|k: int, m: int|
        0 <= k < fs.len() && 0 <= m < fs.len() && k != m ==> !((#[trigger] fs[k]).root == (
        #[trigger] fs[m]).root && fs[k].path == fs[m].path)
}

/// Some record, live or removed, has this root and path.
pub open spec fn has_record(fs: Seq<FileState>, root: u32, path: Seq<Seq<char>>) -> bool {
    exists|k: int| 0 <= k < fs.len() && (#[trigger] fs[k]).root == root && fs[k].path == path
}

/// The record with this root and path.
pub open spec fn record_index(fs: Seq<FileState>, root: u32, path: Seq<Seq<char>>) -> int {
    choose|k: int| 0 <= k < fs.len() && (#[trigger] fs[k]).root == root && fs[k].path == path
}

/// The live file with this root and path, if there is one.
pub open spec fn live_file(fs: Seq<FileState>, root: u32, path: Seq<Seq<char>>) -> Option<u32> {
    if has_record(fs, root, path) && fs[record_index(fs, root, path)].live {
        Some(record_index(fs, root, path) as u32)
    } else {
        None
    }
}

/// The handle that a file with this root and path gets when it is added:
/// that of its earlier record, or a fresh one.
pub open spec fn slot_for(fs: Seq<FileState>, root: u32, path: Seq<Seq<char>>) -> int {
    if has_record(fs, root, path) {
        record_index(fs, root, path)
    } else {
        fs.len() as int
    }
}

/// The records after a file with this root and path is added: an earlier
/// record of it comes back to life, or a new record is appended.
pub open spec fn with_file(
    fs: Seq<FileState>,
    root: u32,
    path: Seq<Seq<char>>,
    text: Seq<char>,
    overlayed: bool,
) -> Seq<FileState> {
    let st = FileState { root, path, text, overlayed, live: true };
    if has_record(fs, root, path) {
        fs.update(record_index(fs, root, path), st)
    } else {
        fs.push(st)
    }
}

/// A record with new text.
pub open spec fn changed(st: FileState, text: Seq<char>, overlayed: bool) -> FileState {
    FileState { text, overlayed, ..st }
}

/// A removed record: it keeps its root and path, and loses its text.
pub open spec fn removed(st: FileState) -> FileState {
    FileState { text: Seq::empty(), overlayed: false, live: false, ..st }
}

/// The root that owns the file path `p`, with the path relative to it.
pub open spec fn resolve(fs: Seq<FilterView>, p: Seq<Seq<char>>) -> Option<(u32, Seq<Seq<char>>)> {
    if exists|i: int| resolves_to(fs, p, false, i) {
        let i = choose|i: int| resolves_to(fs, p, false, i);
        Some((i as u32, p.skip(fs[i].root.len() as int)))
    } else {
        None
    }
}

/// The state of a `Vfs` apart from its roots, as plain values.
pub struct VfsModel {
    pub files: Seq<FileState>,
    pub pending: Seq<ChangeView>,
}

/// A file with this root and path is added, and the addition is logged.
pub open spec fn add_event(m: VfsModel, root: u32, path: Seq<Seq<char>>, text: Seq<char>, overlayed: bool) -> VfsModel {
    VfsModel {
        files: with_file(m.files, root, path, text, overlayed),
        pending: m.pending.push(
            ChangeView::AddFile { root, file: slot_for(m.files, root, path) as u32, path, text },
        ),
    }
}

/// File `f` gets new text, and the change is logged.
pub open spec fn change_event(m: VfsModel, f: int, text: Seq<char>, overlayed: bool) -> VfsModel {
    VfsModel {
        files: m.files.update(f, changed(m.files[f], text, overlayed)),
        pending: m.pending.push(ChangeView::ChangeFile { file: f as u32, text }),
    }
}

/// File `f` is removed, and the removal is logged.
pub open spec fn remove_event(m: VfsModel, f: int) -> VfsModel {
    VfsModel {
        files: m.files.update(f, removed(m.files[f])),
        pending: m.pending.push(ChangeView::RemoveFile { root: m.files[f].root, file: f as u32, path: m.files[f].path }),
    }
}

/// The live file at absolute path `p`, if any.
pub open spec fn spec_file_for_path(fs: Seq<FilterView>, m: VfsModel, p: Seq<Seq<char>>) -> Option<u32> {
    match resolve(fs, p) {
        Some((root, rel)) => live_file(m.files, root, rel),
        None => None,
    }
}

/// The text that a failed disk read stands for: none.
pub open spec fn text_or_empty(t: Option<Seq<char>>) -> Seq<char> {
    match t {
        Some(t) => t,
        None => Seq::empty(),
    }
}

/// Loading `p`, with `disk` what reading it from disk gave.
pub open spec fn spec_load(fs: Seq<FilterView>, m: VfsModel, p: Seq<Seq<char>>, disk: Option<Seq<char>>) -> (Option<u32>, VfsModel) {
    match resolve(fs, p) {
        Some((root, rel)) => match live_file(m.files, root, rel) {
            Some(f) => (Some(f), m),
            None => (Some(slot_for(m.files, root, rel) as u32), add_event(m, root, rel, text_or_empty(disk), false)),
        },
        None => (None, m),
    }
}

/// An editor opens `p` with `text`.
pub open spec fn spec_overlay_add(fs: Seq<FilterView>, m: VfsModel, p: Seq<Seq<char>>, text: Seq<char>) -> (Option<u32>, VfsModel) {
    match resolve(fs, p) {
        Some((root, rel)) => match live_file(m.files, root, rel) {
            Some(f) => (Some(f), change_event(m, f as int, text, true)),
            None => (Some(slot_for(m.files, root, rel) as u32), add_event(m, root, rel, text, true)),
        },
        None => (None, m),
    }
}

/// An editor changes the text of `p`, which it has opened.
pub open spec fn spec_overlay_change(fs: Seq<FilterView>, m: VfsModel, p: Seq<Seq<char>>, text: Seq<char>) -> VfsModel {
    match spec_file_for_path(fs, m, p) {
        Some(f) => change_event(m, f as int, text, true),
        None => m,
    }
}

/// An editor closes `p`; `disk` is what reading it from disk gave.
pub open spec fn spec_overlay_remove(fs: Seq<FilterView>, m: VfsModel, p: Seq<Seq<char>>, disk: Option<Seq<char>>) -> (Option<u32>, VfsModel) {
    match spec_file_for_path(fs, m, p) {
        Some(f) => (Some(f), match disk {
            Some(t) => change_event(m, f as int, t, false),
            None => remove_event(m, f as int),
        }),
        None => (None, m),
    }
}

/// Entry `i` of a scan repeats the path of an earlier entry.
pub open spec fn listed_before(items: Seq<(Seq<Seq<char>>, Seq<char>)>, i: int) -> bool {
    exists|j: int| 0 <= j < i && (#[trigger] items[j]).0 == items[i].0
}

/// Reconciles the files of a completed root scan, one after another: a
/// path listed earlier in the scan is skipped, a file that is already live
/// keeps its record and text, any other is added. Gives the records and the
/// list of files for the log.
pub open spec fn bulk_load(fs: Seq<FileState>, root: u32, items: Seq<(Seq<Seq<char>>, Seq<char>)>) -> (Seq<FileState>, Seq<(u32, Seq<Seq<char>>, Seq<char>)>)
    decreases items.len(),
{
    if items.len() == 0 {
        (fs, Seq::empty())
    } else {
        let (fs1, es) = bulk_load(fs, root, items.drop_last());
        let (p, t) = items.last();
        if listed_before(items, items.len() - 1) {
            (fs1, es)
        } else {
            match live_file(fs1, root, p) {
                Some(f) => (fs1, es.push((f, p, fs1[f as int].text))),
                None => (with_file(fs1, root, p, t, false), es.push((slot_for(fs1, root, p) as u32, p, t))),
            }
        }
    }
}

/// Applies one scanner result. A disk event leaves a file with overlay
/// text alone.
pub open spec fn spec_handle_task(m: VfsModel, task: TaskView) -> VfsModel {
    match task {
        TaskView::BulkLoadRoot { root, files } => {
            let (fs1, es) = bulk_load(m.files, root, files);
            VfsModel { files: fs1, pending: m.pending.push(ChangeView::AddRoot { root, files: es }) }
        },
        TaskView::AddSingleFile { root, path, text } => match live_file(m.files, root, path) {
            Some(_) => m,
            None => add_event(m, root, path, text, false),
        },
        TaskView::ChangeSingleFile { root, path, text } => match live_file(m.files, root, path) {
            Some(f) => if m.files[f as int].overlayed {
                m
            } else {
                change_event(m, f as int, text, false)
            },
            None => add_event(m, root, path, text, false),
        },
        TaskView::RemoveSingleFile { root, path } => match live_file(m.files, root, path) {
            Some(f) => if m.files[f as int].overlayed {
                m
            } else {
                remove_event(m, f as int)
            },
            None => m,
        },
    }
}

/// The root that a scanner result is about.
pub open spec fn task_root(t: TaskView) -> u32 {
    match t {
        TaskView::BulkLoadRoot { root, .. } => root,
        TaskView::AddSingleFile { root, .. } => root,
        TaskView::ChangeSingleFile { root, .. } => root,
        TaskView::RemoveSingleFile { root, .. } => root,
    }
}

/// How many files a scanner result can add at most.
pub open spec fn task_size(t: TaskView) -> nat {
    match t {
        TaskView::BulkLoadRoot { files, .. } => files.len(),
        _ => 1,
    }
}

pub open spec fn handle_of(r: Option<VfsFile>) -> Option<u32> {
    match r {
        Some(f) => Some(f.0),
        None => None,
    }
}

pub open spec fn opt_text(t: Option<String>) -> Option<Seq<char>> {
    match t {
        Some(t) => Some(t@),
        None => None,
    }
}

/// The record at `k` is the one with its root and path.
pub proof fn lemma_record_index(fs: Seq<FileState>, k: int)
    requires
        records_unique(fs),
        0 <= k < fs.len(),
    ensures
        has_record(fs, fs[k].root, fs[k].path),
        record_index(fs, fs[k].root, fs[k].path) == k,
{
    assert(has_record(fs, fs[k].root, fs[k].path));
}

/// Adding a file keeps records unique, and the new record is at its slot.
pub proof fn lemma_with_file(fs: Seq<FileState>, root: u32, path: Seq<Seq<char>>, text: Seq<char>, overlayed: bool)
    requires
        records_unique(fs),
    ensures
        records_unique(with_file(fs, root, path, text, overlayed)),
        0 <= slot_for(fs, root, path) < with_file(fs, root, path, text, overlayed).len(),
        with_file(fs, root, path, text, overlayed)[slot_for(fs, root, path)] == (FileState { root, path, text, overlayed, live: true }),
        fs.len() < u32::MAX ==> live_file(with_file(fs, root, path, text, overlayed), root, path) == Some(
            slot_for(fs, root, path) as u32,
        ),
{
    let fs2 = with_file(fs, root, path, text, overlayed);
    let k = slot_for(fs, root, path);
    assert(fs2[k].root == root && fs2[k].path == path);
    lemma_record_index(fs2, k);
}

/// The first claiming filter is the one `resolve` names.
pub proof fn lemma_resolve(fs: Seq<FilterView>, p: Seq<Seq<char>>, i: int)
    requires
        resolves_to(fs, p, false, i),
    ensures
        resolve(fs, p) == Some((i as u32, p.skip(fs[i].root.len() as int))),
{
    let j = choose|j: int| resolves_to(fs, p, false, j);
    if j < i {
        assert(!claims(fs[j], p, false));
    } else if i < j {
        assert(!claims(fs[i], p, false));
    }
}

/// Committing hands out the whole log and leaves it empty.
pub open spec fn spec_commit(m: VfsModel) -> (Seq<ChangeView>, VfsModel) {
    (m.pending, VfsModel { files: m.files, pending: Seq::empty() })
}

/// Once an editor has opened a file, a disk change or a disk removal of it
/// changes nothing: the file stays live with the editor's text.
pub proof fn lemma_overlay_precedence(fs: Seq<FilterView>, m: VfsModel, p: Seq<Seq<char>>, x: Seq<char>, t: Seq<char>)
    requires
        records_unique(m.files),
        m.files.len() < u32::MAX,
        resolve(fs, p) is Some,
    ensures
        ({
            let (r, m1) = spec_overlay_add(fs, m, p, x);
            let (root, rel) = resolve(fs, p)->0;
            &&& r is Some
            &&& m1.files[r->0 as int].text == x
            &&& m1.files[r->0 as int].live
            &&& spec_handle_task(m1, TaskView::ChangeSingleFile { root, path: rel, text: t }) == m1
            &&& spec_handle_task(m1, TaskView::RemoveSingleFile { root, path: rel }) == m1
        }),
{
    let (r, m1) = spec_overlay_add(fs, m, p, x);
    let (root, rel) = resolve(fs, p)->0;
    match live_file(m.files, root, rel) {
        Some(f) => {
            let k = record_index(m.files, root, rel);
            assert(m1.files[k].root == root && m1.files[k].path == rel);
            assert(records_unique(m1.files));
            lemma_record_index(m1.files, k);
        },
        None => {
            lemma_with_file(m.files, root, rel, x, true);
        },
    }
}

/// When an editor closes a file whose text is still on disk, the file stays
/// live with the disk text and without overlay, and a change is logged.
pub proof fn lemma_overlay_remove_reverts(fs: Seq<FilterView>, m: VfsModel, p: Seq<Seq<char>>, y: Seq<char>)
    requires
        spec_file_for_path(fs, m, p) is Some,
        m.files[spec_file_for_path(fs, m, p)->0 as int].live,
    ensures
        ({
            let f = spec_file_for_path(fs, m, p)->0;
            let (r, m1) = spec_overlay_remove(fs, m, p, Some(y));
            &&& r == Some(f)
            &&& m1.files[f as int].text == y
            &&& !m1.files[f as int].overlayed
            &&& m1.files[f as int].live
            &&& m1.pending == m.pending.push(ChangeView::ChangeFile { file: f, text: y })
        }),
{
}

/// A completed root scan leaves every live record as it was.
pub proof fn lemma_bulk_load_keeps_live(fs: Seq<FileState>, root: u32, items: Seq<(Seq<Seq<char>>, Seq<char>)>, k: int)
    requires
        records_unique(fs),
        0 <= k < fs.len(),
        fs[k].live,
    ensures
        records_unique(bulk_load(fs, root, items).0),
        fs.len() <= bulk_load(fs, root, items).0.len(),
        bulk_load(fs, root, items).0[k] == fs[k],
    decreases items.len(),
{
    if items.len() > 0 {
        lemma_bulk_load_keeps_live(fs, root, items.drop_last(), k);
        let fs1 = bulk_load(fs, root, items.drop_last()).0;
        let (p, t) = items.last();
        if !listed_before(items, items.len() - 1) && live_file(fs1, root, p) is None {
            lemma_with_file(fs1, root, p, t, false);
            if has_record(fs1, root, p) {
                assert(record_index(fs1, root, p) != k);
            }
        }
    }
}

/// A file loaded before the scan of its root completes keeps its record,
/// and so the text it was loaded with, whatever the scan reports.
pub proof fn lemma_bulk_load_no_clobber(
    fs: Seq<FilterView>,
    m: VfsModel,
    p: Seq<Seq<char>>,
    z: Seq<char>,
    items: Seq<(Seq<Seq<char>>, Seq<char>)>,
)
    requires
        records_unique(m.files),
        m.files.len() < u32::MAX,
        resolve(fs, p) is Some,
    ensures
        ({
            let (r, m1) = spec_load(fs, m, p, Some(z));
            let (root, rel) = resolve(fs, p)->0;
            let m2 = spec_handle_task(m1, TaskView::BulkLoadRoot { root, files: items });
            &&& r is Some
            &&& m2.files[r->0 as int] == m1.files[r->0 as int]
            &&& m2.files[r->0 as int].live
            &&& (spec_file_for_path(fs, m, p) is None ==> m2.files[r->0 as int].text == z)
        }),
{
    let (r, m1) = spec_load(fs, m, p, Some(z));
    let (root, rel) = resolve(fs, p)->0;
    match live_file(m.files, root, rel) {
        Some(f) => {
            lemma_bulk_load_keeps_live(m1.files, root, items, record_index(m.files, root, rel));
        },
        None => {
            lemma_with_file(m.files, root, rel, z, false);
            lemma_bulk_load_keeps_live(m1.files, root, items, slot_for(m.files, root, rel));
        },
    }
}

/// A commit returns every pending change in order; a second one right
/// after returns nothing.
pub proof fn lemma_commit_drains_once(m: VfsModel)
    ensures
        spec_commit(m).0 == m.pending,
        spec_commit(spec_commit(m).1).0.len() == 0,
        spec_commit(spec_commit(m).1).1 == spec_commit(m).1,
{
    assert(spec_commit(spec_commit(m).1).1.pending =~= spec_commit(m).1.pending);
}

/// Applying the same single-file addition twice adds the file once: the
/// second application changes nothing.
pub proof fn lemma_single_add_idempotent(m: VfsModel, root: u32, path: Seq<Seq<char>>, t: Seq<char>)
    requires
        records_unique(m.files),
        m.files.len() < u32::MAX,
    ensures
        ({
            let task = TaskView::AddSingleFile { root, path, text: t };
            let m1 = spec_handle_task(m, task);
            &&& spec_handle_task(m1, task) == m1
            &&& m1.pending.len() <= m.pending.len() + 1
        }),
{
    if live_file(m.files, root, path) is None {
        lemma_with_file(m.files, root, path, t, false);
    }
}

/// A removed file keeps its handle, root and path, and the same handle
/// comes back when its path is added again.
pub proof fn lemma_handle_stable(m: VfsModel, f: int, t: Seq<char>)
    requires
        records_unique(m.files),
        m.files.len() < u32::MAX,
        0 <= f < m.files.len(),
        m.files[f].live,
        !m.files[f].overlayed,
    ensures
        ({
            let st = m.files[f];
            let m1 = spec_handle_task(m, TaskView::RemoveSingleFile { root: st.root, path: st.path });
            let m2 = spec_handle_task(m1, TaskView::AddSingleFile { root: st.root, path: st.path, text: t });
            &&& m1.files.len() == m.files.len()
            &&& m1.files[f].root == st.root
            &&& m1.files[f].path == st.path
            &&& !m1.files[f].live
            &&& m2.files.len() == m.files.len()
            &&& live_file(m2.files, st.root, st.path) == Some(f as u32)
            &&& m2.files[f].text == t
        }),
{
    let st = m.files[f];
    lemma_record_index(m.files, f);
    let m1 = spec_handle_task(m, TaskView::RemoveSingleFile { root: st.root, path: st.path });
    assert(records_unique(m1.files));
    lemma_record_index(m1.files, f);
    lemma_with_file(m1.files, st.root, st.path, t, false);
}

/// A disk event for a live file with overlay text changes nothing, and a
/// disk addition of any live file changes nothing.
pub proof fn lemma_disk_events_yield_to_live_overlay(m: VfsModel, root: u32, path: Seq<Seq<char>>, t: Seq<char>)
    requires
        live_file(m.files, root, path) is Some,
    ensures
        spec_handle_task(m, TaskView::AddSingleFile { root, path, text: t }) == m,
        m.files[live_file(m.files, root, path)->0 as int].overlayed ==> spec_handle_task(
            m,
            TaskView::ChangeSingleFile { root, path, text: t },
        ) == m,
        m.files[live_file(m.files, root, path)->0 as int].overlayed ==> spec_handle_task(
            m,
            TaskView::RemoveSingleFile { root, path },
        ) == m,
{
}

/// A record that is not live gives its handle back to the next addition of
/// its root and path, whichever operation adds it.
pub proof fn lemma_removed_handle_reused(fs: Seq<FileState>, f: int)
    requires
        records_unique(fs),
        0 <= f < fs.len(),
        !fs[f].live,
    ensures
        live_file(fs, fs[f].root, fs[f].path) is None,
        slot_for(fs, fs[f].root, fs[f].path) == f,
{
    lemma_record_index(fs, f);
}

/// The log entry of a root scan names each file once: every entry points
/// at a live record of the root with the entry's path, and no two entries
/// share a path or a handle.
pub proof fn lemma_bulk_load_entries(fs: Seq<FileState>, root: u32, items: Seq<(Seq<Seq<char>>, Seq<char>)>)
    requires
        records_unique(fs),
        fs.len() + items.len() <= u32::MAX,
    ensures
        ({
            let (fs2, es) = bulk_load(fs, root, items);
            &&& records_unique(fs2)
            &&& fs2.len() <= fs.len() + items.len()
            &&& forall|a: int|
                0 <= a < es.len() ==> {
                    &&& (#[trigger] es[a]).0 < fs2.len()
                    &&& fs2[es[a].0 as int].root == root
                    &&& fs2[es[a].0 as int].path == es[a].1
                    &&& fs2[es[a].0 as int].live
                    &&& exists|j: int| 0 <= j < items.len() && (#[trigger] items[j]).0 == es[a].1
                }
            &&& forall|a: int, b: int| 0 <= a < b < es.len() ==> (#[trigger] es[a]).1 != (#[trigger] es[b]).1
            &&& forall|a: int, b: int| 0 <= a < b < es.len() ==> (#[trigger] es[a]).0 != (#[trigger] es[b]).0
        }),
    decreases items.len(),
{
    if items.len() > 0 {
        let prefix = items.drop_last();
        lemma_bulk_load_entries(fs, root, prefix);
        let (fs1, es1) = bulk_load(fs, root, prefix);
        let (fs2, es) = bulk_load(fs, root, items);
        let n = items.len() - 1;
        let (p, t) = items.last();
        assert forall|a: int| 0 <= a < es1.len() implies exists|j: int|
            0 <= j < items.len() && (#[trigger] items[j]).0 == (#[trigger] es1[a]).1 by {
            let j = choose|j: int| 0 <= j < prefix.len() && (#[trigger] prefix[j]).0 == es1[a].1;
            assert(items[j] == prefix[j]);
        }
        if !listed_before(items, n) {
            assert forall|a: int| 0 <= a < es1.len() implies (#[trigger] es1[a]).1 != p by {
                let j = choose|j: int| 0 <= j < prefix.len() && (#[trigger] prefix[j]).0 == es1[a].1;
                assert(items[j] == prefix[j]);
            }
            assert(items[n] == (p, t));
            match live_file(fs1, root, p) {
                Some(f) => {
                    assert(es == es1.push((f, p, fs1[f as int].text)));
                    assert(es[es1.len() as int] == (f, p, fs1[f as int].text));
                },
                None => {
                    lemma_with_file(fs1, root, p, t, false);
                    let k = slot_for(fs1, root, p);
                    assert(es == es1.push((k as u32, p, t)));
                    assert forall|a: int| 0 <= a < es1.len() implies fs2[(#[trigger] es1[a]).0 as int] == fs1[es1[a].0 as int] by {
                        assert(es1[a].0 != k);
                    }
                },
            }
        }
    }
}

/// Adding one path leaves the record of any other path of the root as it was.
proof fn lemma_with_file_frame(
    fs: Seq<FileState>,
    root: u32,
    p: Seq<Seq<char>>,
    t: Seq<char>,
    o: bool,
    q: Seq<Seq<char>>,
)
    requires
        records_unique(fs),
        q != p,
    ensures
        has_record(with_file(fs, root, p, t, o), root, q) == has_record(fs, root, q),
        has_record(fs, root, q) ==> record_index(with_file(fs, root, p, t, o), root, q) == record_index(fs, root, q)
            && with_file(fs, root, p, t, o)[record_index(fs, root, q)] == fs[record_index(fs, root, q)],
        live_file(with_file(fs, root, p, t, o), root, q) == live_file(fs, root, q),
{
    let fs2 = with_file(fs, root, p, t, o);
    lemma_with_file(fs, root, p, t, o);
    if has_record(fs, root, q) {
        let k = record_index(fs, root, q);
        assert(fs2[k] == fs[k]);
        lemma_record_index(fs2, k);
    } else {
        if has_record(fs2, root, q) {
            let k = record_index(fs2, root, q);
            if k < fs.len() && k != slot_for(fs, root, p) {
                assert(fs2[k] == fs[k]);
            }
        }
    }
}

/// A root scan leaves the record of a path it does not list as it was.
proof fn lemma_bulk_load_frame(fs: Seq<FileState>, root: u32, items: Seq<(Seq<Seq<char>>, Seq<char>)>, q: Seq<Seq<char>>)
    requires
        records_unique(fs),
        forall|j: int| 0 <= j < items.len() ==> (#[trigger] items[j]).0 != q,
    ensures
        has_record(bulk_load(fs, root, items).0, root, q) == has_record(fs, root, q),
        has_record(fs, root, q) ==> record_index(bulk_load(fs, root, items).0, root, q) == record_index(fs, root, q)
            && bulk_load(fs, root, items).0[record_index(fs, root, q)] == fs[record_index(fs, root, q)],
        live_file(bulk_load(fs, root, items).0, root, q) == live_file(fs, root, q),
    decreases items.len(),
{
    if items.len() > 0 {
        let prefix = items.drop_last();
        assert forall|j: int| 0 <= j < prefix.len() implies (#[trigger] prefix[j]).0 != q by {
            assert(prefix[j] == items[j]);
        }
        lemma_bulk_load_frame(fs, root, prefix, q);
        lemma_bulk_load_entries_unique(fs, root, prefix);
        let fs1 = bulk_load(fs, root, prefix).0;
        let (p, t) = items.last();
        assert(items[items.len() - 1].0 != q);
        if !listed_before(items, items.len() - 1) && live_file(fs1, root, p) is None {
            lemma_with_file_frame(fs1, root, p, t, false, q);
        }
    }
}

/// A root scan keeps the records unique.
proof fn lemma_bulk_load_entries_unique(fs: Seq<FileState>, root: u32, items: Seq<(Seq<Seq<char>>, Seq<char>)>)
    requires
        records_unique(fs),
    ensures
        records_unique(bulk_load(fs, root, items).0),
    decreases items.len(),
{
    if items.len() > 0 {
        lemma_bulk_load_entries_unique(fs, root, items.drop_last());
        let fs1 = bulk_load(fs, root, items.drop_last()).0;
        let (p, t) = items.last();
        lemma_with_file(fs1, root, p, t, false);
    }
}

/// A root scan whose paths are distinct logs one entry per scanned file, in
/// the scan's order: a file that was live keeps its handle, record and text;
/// any other gets a live record with the scanned text.
pub proof fn lemma_bulk_load_distinct(fs: Seq<FileState>, root: u32, items: Seq<(Seq<Seq<char>>, Seq<char>)>)
    requires
        records_unique(fs),
        fs.len() + items.len() <= u32::MAX,
        forall|a: int, b: int| 0 <= a < b < items.len() ==> (#[trigger] items[a]).0 != (#[trigger] items[b]).0,
    ensures
        ({
            let (fs2, es) = bulk_load(fs, root, items);
            &&& es.len() == items.len()
            &&& forall|i: int|
                0 <= i < items.len() ==> {
                    &&& (#[trigger] es[i]).1 == items[i].0
                    &&& es[i].0 < fs2.len()
                    &&& match live_file(fs, root, items[i].0) {
                        Some(g) => es[i].0 == g && es[i].2 == fs[g as int].text && fs2[g as int] == fs[g as int],
                        None => es[i].2 == items[i].1 && fs2[es[i].0 as int] == (FileState {
                            root,
                            path: items[i].0,
                            text: items[i].1,
                            overlayed: false,
                            live: true,
                        }),
                    }
                }
        }),
    decreases items.len(),
{
    if items.len() > 0 {
        let n = items.len() - 1;
        let prefix = items.drop_last();
        assert forall|a: int, b: int| 0 <= a < b < prefix.len() implies (#[trigger] prefix[a]).0 != (#[trigger] prefix[b]).0 by {
            assert(prefix[a] == items[a] && prefix[b] == items[b]);
        }
        lemma_bulk_load_distinct(fs, root, prefix);
        lemma_bulk_load_entries(fs, root, prefix);
        let (fs1, es1) = bulk_load(fs, root, prefix);
        let (fs2, es) = bulk_load(fs, root, items);
        let (p, t) = items.last();
        assert(!listed_before(items, n)) by {
            if listed_before(items, n) {
                let j = choose|j: int| 0 <= j < n && (#[trigger] items[j]).0 == items[n].0;
                assert(items[j].0 != items[n].0);
            }
        }
        assert forall|j: int| 0 <= j < prefix.len() implies (#[trigger] prefix[j]).0 != p by {
            assert(prefix[j] == items[j]);
            assert(items[j].0 != items[n].0);
        }
        lemma_bulk_load_frame(fs, root, prefix, p);
        match live_file(fs1, root, p) {
            Some(f) => {
                assert(es == es1.push((f, p, fs1[f as int].text)));
                assert(fs1[f as int] == fs[f as int]);
                assert forall|i: int| 0 <= i < n implies (#[trigger] es[i]) == es1[i] && items[i] == prefix[i] by {}
            },
            None => {
                lemma_with_file(fs1, root, p, t, false);
                let k = slot_for(fs1, root, p);
                assert(es == es1.push((k as u32, p, t)));
                assert forall|i: int| 0 <= i < n implies (#[trigger] es[i]) == es1[i] && items[i] == prefix[i]
                    && fs2[es1[i].0 as int] == fs1[es1[i].0 as int] by {
                    assert(es1[i].1 == prefix[i].0);
                    assert(prefix[i].0 != p);
                    assert(fs1[es1[i].0 as int].path == es1[i].1);
                    assert(es1[i].0 != k);
                }
            },
        }
    }
}

struct VfsFileData {
    root: VfsRoot,
    path: RelPath,
    is_overlayed: bool,
    text: String,
    live: bool,
}

impl VfsFileData {
    spec fn state(&self) -> FileState {
        FileState { root: self.root.0, path: self.path@, text: self.text@, overlayed: self.is_overlayed, live: self.live }
    }
}

/// The virtual file system: roots, files with their text, and the changes
/// not yet taken by `commit_changes`.
pub struct Vfs {
    roots: Roots,
    files: Vec<VfsFileData>,
    pending_changes: Vec<VfsChange>,
}

/// Whether entry `i` of a scan repeats the path of an earlier entry.
pub fn listed_earlier(files: &Vec<(RelPath, String)>, i: usize) -> (r: bool)
    requires
        i < files@.len(),
    ensures
        r == listed_before(scanned_view(files@), i as int),
{
    let ghost items = scanned_view(files@);
    let mut j: usize = 0;
    while j < i
        invariant
            i < files@.len(),
            j <= i,
            items == scanned_view(files@),
            forall|k: int| 0 <= k < j ==> (#[trigger] items[k]).0 != items[i as int].0,
        decreases i - j,
    {
        assert(items[j as int] == (files@[j as int].0@, files@[j as int].1@));
        assert(items[i as int] == (files@[i as int].0@, files@[i as int].1@));
        if files[j].0.same(&files[i].0) {
            assert(items[j as int].0 == items[i as int].0);
            return true;
        }
        j = j + 1;
    }
    false
}

impl Vfs {
    /// The roots' filters.
    pub closed spec fn filters(&self) -> Seq<FilterView> {
        self.roots.filters()
    }

    /// Every file record, by handle.
    pub closed spec fn files(&self) -> Seq<FileState> {
        self.files@.map_values(|d: VfsFileData| d.state())
    }

    /// The pending change log, oldest first.
    pub closed spec fn pending(&self) -> Seq<ChangeView> {
        changes_view(self.pending_changes@)
    }

    pub open spec fn model(&self) -> VfsModel {
        VfsModel { files: self.files(), pending: self.pending() }
    }

    /// Each root excludes the roots nested in it; every record belongs to a
    /// root; no two records share a root and a path.
    pub open spec fn wf(&self) -> bool {
        &&& filters_wf(self.filters())
        &&& self.filters().len() <= u32::MAX
        &&& self.files().len() <= u32::MAX
        &&& forall|k: int| 0 <= k < self.files().len() ==> (#[trigger] self.files()[k]).root < self.filters().len()
        &&& records_unique(self.files())
    }

    pub open spec fn same_roots(&self, other: &Vfs) -> bool {
        self.filters() == other.filters()
    }

    fn find_record(&self, root: VfsRoot, path: &RelPath) -> (r: Option<usize>)
        requires
            self.wf(),
        ensures
            match r {
                Some(k) => has_record(self.files(), root.0, path@) && k == record_index(self.files(), root.0, path@),
                None => !has_record(self.files(), root.0, path@),
            },
    {
        let mut i: usize = 0;
        while i < self.files.len()
            invariant
                self.wf(),
                i <= self.files@.len(),
                forall|k: int| 0 <= k < i ==> !((#[trigger] self.files()[k]).root == root.0 && self.files()[k].path == path@),
            decreases self.files@.len() - i,
        {
            assert(self.files()[i as int] == self.files@[i as int].state());
            if self.files[i].root == root && self.files[i].path.same(path) {
                proof {
                    lemma_record_index(self.files(), i as int);
                }
                return Some(i);
            }
            i = i + 1;
        }
        None
    }

    fn find_file(&self, root: VfsRoot, path: &RelPath) -> (r: Option<VfsFile>)
        requires
            self.wf(),
        ensures
            handle_of(r) == live_file(self.files(), root.0, path@),
    {
        match self.find_record(root, path) {
            Some(k) => {
                assert(self.files()[k as int] == self.files@[k as int].state());
                if self.files[k].live {
                    Some(VfsFile(k as u32))
                } else {
                    None
                }
            },
            None => None,
        }
    }

    /// The root that owns a file path, the path relative to it, and the
    /// live file there, if any.
    pub fn find_root(&self, path: &VfsPath) -> (r: Option<(VfsRoot, RelPath, Option<VfsFile>)>)
        requires
            self.wf(),
        ensures
            match r {
                Some((root, rel, file)) => resolve(self.filters(), path@) == Some((root.0, rel@))
                    && root.0 < self.filters().len() && handle_of(file) == live_file(self.files(), root.0, rel@),
                None => resolve(self.filters(), path@) is None,
            },
    {
        match self.roots.find(path, false) {
            Some((root, rel)) => {
                proof {
                    lemma_resolve(self.filters(), path@, root.0 as int);
                }
                let file = self.find_file(root, &rel);
                Some((root, rel, file))
            },
            None => {
                assert(!exists|i: int| resolves_to(self.filters(), path@, false, i));
                None
            },
        }
    }

    /// Builds the root set from the given directories. Root handles follow
    /// the order of the directories; no file is known yet.
    pub fn new(roots: Vec<VfsPath>) -> (r: (Vfs, Vec<VfsRoot>))
        requires
            roots@.len() <= u32::MAX,
        ensures
            r.0.wf(),
            root_dirs(r.0.filters()) == paths_view(roots@),
            r.0.files().len() == 0,
            r.0.pending().len() == 0,
            r.1@.len() == roots@.len(),
            forall|i: int| 0 <= i < r.1@.len() ==> (#[trigger] r.1@[i]).0 == i,
    {
        let n = roots.len();
        let set = Roots::new(roots);
        let mut handles: Vec<VfsRoot> = Vec::new();
        let mut i: usize = 0;
        while i < n
            invariant
                i <= n <= u32::MAX,
                handles@.len() == i,
                forall|k: int| 0 <= k < i ==> (#[trigger] handles@[k]).0 == k,
            decreases n - i,
        {
            handles.push(VfsRoot(i as u32));
            i = i + 1;
        }
        assert(set.root_paths().len() == set.filters().len());
        assert(set.filters().len() == n);
        let vfs = Vfs { roots: set, files: Vec::new(), pending_changes: Vec::new() };
        assert(filters_wf(vfs.filters()));
        assert(vfs.files() =~= Seq::<FileState>::empty());
        assert(vfs.pending() =~= Seq::<ChangeView>::empty());
        (vfs, handles)
    }

    /// How many roots there are.
    pub fn roots_len(&self) -> (r: usize)
        requires
            self.wf(),
        ensures
            r == self.filters().len(),
    {
        self.roots.roots.len()
    }

    /// How many file handles have been given out.
    pub fn files_len(&self) -> (r: usize)
        requires
            self.wf(),
        ensures
            r == self.files().len(),
    {
        self.files.len()
    }

    /// The directory of a root.
    pub fn root2path(&self, root: VfsRoot) -> (r: VfsPath)
        requires
            self.wf(),
            root.0 < self.filters().len(),
        ensures
            r@ == self.filters()[root.0 as int].root,
    {
        self.roots.roots[root.0 as usize].root.duplicate()
    }

    /// The filter of a root, for a scanner of its directory.
    pub fn root_filter(&self, root: VfsRoot) -> (r: &RootFilter)
        requires
            self.wf(),
            root.0 < self.filters().len(),
        ensures
            r@ == self.filters()[root.0 as int],
    {
        &self.roots.roots[root.0 as usize]
    }

    /// The live file at an absolute path, if there is one. Nothing is loaded.
    pub fn path2file(&self, path: &VfsPath) -> (r: Option<VfsFile>)
        requires
            self.wf(),
        ensures
            handle_of(r) == spec_file_for_path(self.filters(), self.model(), path@),
    {
        match self.find_root(path) {
            Some((_root, _rel, file)) => file,
            None => None,
        }
    }

    /// The live file at an absolute path, if there is one. Nothing is loaded.
    pub fn file_for_path(&self, path: &VfsPath) -> (r: Option<VfsFile>)
        requires
            self.wf(),
        ensures
            handle_of(r) == spec_file_for_path(self.filters(), self.model(), path@),
    {
        self.path2file(path)
    }

    /// The absolute path of a file: its root's directory and its relative
    /// path. A removed file keeps its path.
    pub fn file2path(&self, file: VfsFile) -> (r: VfsPath)
        requires
            self.wf(),
            file.0 < self.files().len(),
        ensures
            r@ == self.filters()[self.files()[file.0 as int].root as int].root + self.files()[file.0 as int].path,
    {
        let data = &self.files[file.0 as usize];
        assert(self.files()[file.0 as int] == data.state());
        data.path.to_path(&self.roots.roots[data.root.0 as usize].root)
    }

    /// The current text of a file; a removed file has none.
    pub fn file_text(&self, file: VfsFile) -> (r: &String)
        requires
            self.wf(),
            file.0 < self.files().len(),
        ensures
            r@ == self.files()[file.0 as int].text,
    {
        assert(self.files()[file.0 as int] == self.files@[file.0 as int].state());
        &self.files[file.0 as usize].text
    }

    /// Whether the text of a file comes from an editor.
    pub fn is_overlayed(&self, file: VfsFile) -> (r: bool)
        requires
            self.wf(),
            file.0 < self.files().len(),
        ensures
            r == self.files()[file.0 as int].overlayed,
    {
        assert(self.files()[file.0 as int] == self.files@[file.0 as int].state());
        self.files[file.0 as usize].is_overlayed
    }

    /// Whether a file currently exists.
    pub fn is_live(&self, file: VfsFile) -> (r: bool)
        requires
            self.wf(),
            file.0 < self.files().len(),
        ensures
            r == self.files()[file.0 as int].live,
    {
        assert(self.files()[file.0 as int] == self.files@[file.0 as int].state());
        self.files[file.0 as usize].live
    }

    fn push_change(&mut self, c: VfsChange)
        ensures
            final(self).roots == old(self).roots,
            final(self).files == old(self).files,
            final(self).pending() == old(self).pending().push(c@),
    {
        let ghost prev = self.pending_changes@;
        self.pending_changes.push(c);
        assert(self.pending_changes@ == prev.push(c));
        assert(self.pending() =~= changes_view(prev).push(c@));
    }

    fn add_file(&mut self, root: VfsRoot, path: RelPath, text: String, is_overlayed: bool) -> (f: VfsFile)
        requires
            old(self).wf(),
            root.0 < old(self).filters().len(),
            old(self).files().len() < u32::MAX,
        ensures
            final(self).wf(),
            final(self).roots == old(self).roots,
            final(self).pending_changes == old(self).pending_changes,
            final(self).files() == with_file(old(self).files(), root.0, path@, text@, is_overlayed),
            f.0 == slot_for(old(self).files(), root.0, path@),
    {
        let ghost fs = self.files();
        let found = self.find_record(root, &path);
        let data = VfsFileData { root, path, is_overlayed, text, live: true };
        proof {
            lemma_with_file(fs, root.0, data.path@, data.text@, is_overlayed);
        }
        match found {
            Some(k) => {
                let ghost prev = self.files@;
                self.files.set(k, data);
                assert(self.files@ == prev.update(k as int, data));
                assert(self.files() =~= with_file(fs, root.0, data.path@, data.text@, is_overlayed));
                VfsFile(k as u32)
            },
            None => {
                let k = self.files.len();
                let ghost prev = self.files@;
                self.files.push(data);
                assert(self.files@ == prev.push(data));
                assert(self.files() =~= with_file(fs, root.0, data.path@, data.text@, is_overlayed));
                VfsFile(k as u32)
            },
        }
    }

    fn do_add_file(&mut self, root: VfsRoot, path: RelPath, text: String, is_overlay: bool) -> (f: VfsFile)
        requires
            old(self).wf(),
            root.0 < old(self).filters().len(),
            old(self).files().len() < u32::MAX,
        ensures
            final(self).wf(),
            final(self).roots == old(self).roots,
            final(self).model() == add_event(old(self).model(), root.0, path@, text@, is_overlay),
            f.0 == slot_for(old(self).files(), root.0, path@),
    {
        let change_path = path.duplicate();
        let change_text = text.clone();
        let file = self.add_file(root, path, text, is_overlay);
        self.push_change(VfsChange::AddFile { root, file, path: change_path, text: change_text });
        file
    }

    fn change_file(&mut self, file: VfsFile, new_text: String, is_overlayed: bool)
        requires
            old(self).wf(),
            file.0 < old(self).files().len(),
        ensures
            final(self).wf(),
            final(self).roots == old(self).roots,
            final(self).pending_changes == old(self).pending_changes,
            final(self).files() == old(self).files().update(
                file.0 as int,
                changed(old(self).files()[file.0 as int], new_text@, is_overlayed),
            ),
    {
        let k = file.0 as usize;
        let ghost prev = self.files@;
        let old_data = &self.files[k];
        let data = VfsFileData {
            root: old_data.root,
            path: old_data.path.duplicate(),
            is_overlayed,
            text: new_text,
            live: old_data.live,
        };
        self.files.set(k, data);
        assert(self.files@ == prev.update(k as int, data));
        assert(self.files() =~= prev.map_values(|d: VfsFileData| d.state()).update(
            k as int,
            changed(prev[k as int].state(), data.text@, is_overlayed),
        ));
        assert forall|a: int, b: int|
            0 <= a < self.files().len() && 0 <= b < self.files().len() && a != b implies !((
            #[trigger] self.files()[a]).root == (#[trigger] self.files()[b]).root && self.files()[a].path
                == self.files()[b].path) by {
            assert(old(self).files()[a].root == self.files()[a].root);
            assert(old(self).files()[b].root == self.files()[b].root);
        }
        assert forall|a: int| 0 <= a < self.files().len() implies (#[trigger] self.files()[a]).root < self.filters().len() by {
            assert(old(self).files()[a].root == self.files()[a].root);
        }
    }

    fn do_change_file(&mut self, file: VfsFile, text: String, is_overlay: bool)
        requires
            old(self).wf(),
            file.0 < old(self).files().len(),
        ensures
            final(self).wf(),
            final(self).roots == old(self).roots,
            final(self).model() == (if !is_overlay && old(self).files()[file.0 as int].overlayed {
                old(self).model()
            } else {
                change_event(old(self).model(), file.0 as int, text@, is_overlay)
            }),
    {
        assert(self.files()[file.0 as int] == self.files@[file.0 as int].state());
        if !is_overlay && self.files[file.0 as usize].is_overlayed {
            return;
        }
        let change_text = text.clone();
        self.change_file(file, text, is_overlay);
        self.push_change(VfsChange::ChangeFile { file, text: change_text });
    }

    fn remove_file(&mut self, file: VfsFile)
        requires
            old(self).wf(),
            file.0 < old(self).files().len(),
        ensures
            final(self).wf(),
            final(self).roots == old(self).roots,
            final(self).pending_changes == old(self).pending_changes,
            final(self).files() == old(self).files().update(file.0 as int, removed(old(self).files()[file.0 as int])),
    {
        let k = file.0 as usize;
        let ghost prev = self.files@;
        let old_data = &self.files[k];
        let data = VfsFileData {
            root: old_data.root,
            path: old_data.path.duplicate(),
            is_overlayed: false,
            text: String::new(),
            live: false,
        };
        self.files.set(k, data);
        assert(self.files@ == prev.update(k as int, data));
        assert(self.files() =~= prev.map_values(|d: VfsFileData| d.state()).update(k as int, removed(prev[k as int].state())));
        assert forall|a: int, b: int|
            0 <= a < self.files().len() && 0 <= b < self.files().len() && a != b implies !((
            #[trigger] self.files()[a]).root == (#[trigger] self.files()[b]).root && self.files()[a].path
                == self.files()[b].path) by {
            assert(old(self).files()[a].root == self.files()[a].root);
            assert(old(self).files()[b].root == self.files()[b].root);
        }
        assert forall|a: int| 0 <= a < self.files().len() implies (#[trigger] self.files()[a]).root < self.filters().len() by {
            assert(old(self).files()[a].root == self.files()[a].root);
        }
    }

    fn do_remove_file(&mut self, file: VfsFile, is_overlay: bool)
        requires
            old(self).wf(),
            file.0 < old(self).files().len(),
        ensures
            final(self).wf(),
            final(self).roots == old(self).roots,
            final(self).model() == (if !is_overlay && old(self).files()[file.0 as int].overlayed {
                old(self).model()
            } else {
                remove_event(old(self).model(), file.0 as int)
            }),
    {
        let k = file.0 as usize;
        assert(self.files()[k as int] == self.files@[k as int].state());
        if !is_overlay && self.files[k].is_overlayed {
            return;
        }
        let root = self.files[k].root;
        let path = self.files[k].path.duplicate();
        self.remove_file(file);
        self.push_change(VfsChange::RemoveFile { root, file, path });
    }

    /// Loads the file at an absolute path. A live file is returned as it is;
    /// otherwise the file is created with `disk_text`, what reading the path
    /// from disk gave (no text where the read failed), and its addition is
    /// logged. A path outside every root gives nothing.
    pub fn load(&mut self, path: &VfsPath, disk_text: Option<String>) -> (r: Option<VfsFile>)
        requires
            old(self).wf(),
            old(self).files().len() < u32::MAX,
        ensures
            final(self).wf(),
            final(self).same_roots(old(self)),
            (handle_of(r), final(self).model()) == spec_load(old(self).filters(), old(self).model(), path@, opt_text(disk_text)),
    {
        match self.find_root(path) {
            Some((root, rel, Some(file))) => Some(file),
            Some((root, rel, None)) => {
                let text = match disk_text {
                    Some(t) => t,
                    None => String::new(),
                };
                Some(self.do_add_file(root, rel, text, false))
            },
            None => None,
        }
    }

    /// An editor opens the file at `path` with `text`: the file is created,
    /// or its text is replaced, and marked as overlaid. A path outside every
    /// root gives nothing.
    pub fn add_file_overlay(&mut self, path: &VfsPath, text: String) -> (r: Option<VfsFile>)
        requires
            old(self).wf(),
            old(self).files().len() < u32::MAX,
        ensures
            final(self).wf(),
            final(self).same_roots(old(self)),
            (handle_of(r), final(self).model()) == spec_overlay_add(old(self).filters(), old(self).model(), path@, text@),
    {
        match self.find_root(path) {
            Some((root, rel, Some(file))) => {
                self.do_change_file(file, text, true);
                Some(file)
            },
            Some((root, rel, None)) => Some(self.do_add_file(root, rel, text, true)),
            None => None,
        }
    }

    /// An editor changes the text of the file at `path`, which must exist.
    pub fn change_file_overlay(&mut self, path: &VfsPath, new_text: String)
        requires
            old(self).wf(),
            resolve(old(self).filters(), path@) is Some ==> spec_file_for_path(old(self).filters(), old(self).model(), path@) is Some,
        ensures
            final(self).wf(),
            final(self).same_roots(old(self)),
            final(self).model() == spec_overlay_change(old(self).filters(), old(self).model(), path@, new_text@),
    {
        if let Some((_root, _rel, file)) = self.find_root(path) {
            if let Some(file) = file {
                self.do_change_file(file, new_text, true);
            }
        }
    }

    /// An editor closes the file at `path`, which must exist. `disk_text` is
    /// what reading it from disk gave: the file goes back to that text, or,
    /// where the read failed, it is removed.
    pub fn remove_file_overlay(&mut self, path: &VfsPath, disk_text: Option<String>) -> (r: Option<VfsFile>)
        requires
            old(self).wf(),
            resolve(old(self).filters(), path@) is Some ==> spec_file_for_path(old(self).filters(), old(self).model(), path@) is Some,
        ensures
            final(self).wf(),
            final(self).same_roots(old(self)),
            (handle_of(r), final(self).model()) == spec_overlay_remove(old(self).filters(), old(self).model(), path@, opt_text(disk_text)),
    {
        match self.find_root(path) {
            Some((_root, _rel, Some(file))) => {
                match disk_text {
                    Some(text) => {
                        let change_text = text.clone();
                        self.change_file(file, text, false);
                        self.push_change(VfsChange::ChangeFile { file, text: change_text });
                    },
                    None => self.do_remove_file(file, true),
                }
                Some(file)
            },
            _ => None,
        }
    }

    /// Takes the pending changes, oldest first, and leaves none behind.
    pub fn commit_changes(&mut self) -> (r: Vec<VfsChange>)
        requires
            old(self).wf(),
        ensures
            final(self).wf(),
            final(self).same_roots(old(self)),
            (changes_view(r@), final(self).model()) == spec_commit(old(self).model()),
    {
        let mut r: Vec<VfsChange> = Vec::new();
        core::mem::swap(&mut self.pending_changes, &mut r);
        assert(self.pending() =~= Seq::<ChangeView>::empty());
        assert(changes_view(r@) == old(self).pending());
        r
    }

    fn bulk_load_root(&mut self, root: VfsRoot, files: Vec<(RelPath, String)>)
        requires
            old(self).wf(),
            root.0 < old(self).filters().len(),
            old(self).files().len() + files@.len() < u32::MAX,
        ensures
            final(self).wf(),
            final(self).roots == old(self).roots,
            final(self).model() == spec_handle_task(
                old(self).model(),
                TaskView::BulkLoadRoot { root: root.0, files: scanned_view(files@) },
            ),
    {
        let ghost fs0 = self.files();
        let ghost items = scanned_view(files@);
        let mut cur_files: Vec<(VfsFile, RelPath, String)> = Vec::new();
        let mut i: usize = 0;
        assert(items.take(0) =~= Seq::<(Seq<Seq<char>>, Seq<char>)>::empty());
        assert(entries_view(cur_files@) =~= Seq::<(u32, Seq<Seq<char>>, Seq<char>)>::empty());
        while i < files.len()
            invariant
                self.wf(),
                self.roots == old(self).roots,
                self.pending_changes == old(self).pending_changes,
                root.0 < self.filters().len(),
                i <= files@.len(),
                items == scanned_view(files@),
                self.files().len() <= fs0.len() + i,
                fs0.len() + files@.len() < u32::MAX,
                (self.files(), entries_view(cur_files@)) == bulk_load(fs0, root.0, items.take(i as int)),
            decreases files@.len() - i,
        {
            let ghost fs1 = self.files();
            let ghost es = entries_view(cur_files@);
            assert(items.take(i + 1).drop_last() =~= items.take(i as int));
            assert(items.take(i + 1).last() == items[i as int]);
            let path = &files[i].0;
            let text = &files[i].1;
            assert(items[i as int] == (path@, text@));
            let ghost prev = cur_files@;
            assert(listed_before(items.take(i + 1), i as int) == listed_before(items, i as int)) by {
                if listed_before(items, i as int) {
                    let j = choose|j: int| 0 <= j < i && (#[trigger] items[j]).0 == items[i as int].0;
                    assert(items.take(i + 1)[j] == items[j]);
                }
                if listed_before(items.take(i + 1), i as int) {
                    let j = choose|j: int| 0 <= j < i && (#[trigger] items.take(i + 1)[j]).0 == items.take(i + 1)[i as int].0;
                    assert(items.take(i + 1)[j] == items[j]);
                }
            }
            if listed_earlier(&files, i) {
                i = i + 1;
                continue;
            }
            match self.find_file(root, path) {
                Some(file) => {
                    assert(self.files()[file.0 as int] == self.files@[file.0 as int].state());
                    let t = self.files[file.0 as usize].text.clone();
                    cur_files.push((file, path.duplicate(), t));
                },
                None => {
                    let file = self.add_file(root, path.duplicate(), text.clone(), false);
                    cur_files.push((file, path.duplicate(), text.clone()));
                },
            }
            assert(cur_files@ == prev.push(cur_files@.last()));
            assert(entries_view(cur_files@) =~= es.push(entries_view(cur_files@).last()));
            i = i + 1;
        }
        assert(items.take(i as int) =~= items);
        self.push_change(VfsChange::AddRoot { root, files: cur_files });
    }

    /// Applies one result of the background scanner. A file with overlay
    /// text is left alone by single-file changes and removals; a completed
    /// root scan keeps the text of files that are already live and logs
    /// every file of the root in one entry.
    pub fn handle_task(&mut self, task: VfsTask)
        requires
            old(self).wf(),
            task_root(task@) < old(self).filters().len(),
            old(self).files().len() + task_size(task@) < u32::MAX,
        ensures
            final(self).wf(),
            final(self).same_roots(old(self)),
            final(self).model() == spec_handle_task(old(self).model(), task@),
    {
        match task {
            VfsTask::BulkLoadRoot { root, files } => {
                self.bulk_load_root(root, files);
            },
            VfsTask::AddSingleFile { root, path, text } => {
                if self.find_file(root, &path).is_none() {
                    self.do_add_file(root, path, text, false);
                }
            },
            VfsTask::ChangeSingleFile { root, path, text } => {
                if let Some(file) = self.find_file(root, &path) {
                    self.do_change_file(file, text, false);
                } else {
                    self.do_add_file(root, path, text, false);
                }
            },
            VfsTask::RemoveSingleFile { root, path } => {
                if let Some(file) = self.find_file(root, &path) {
                    self.do_remove_file(file, false);
                }
            },
        }
    }
}

} // verus!

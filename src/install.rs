//! The reconciliation engine: the integrity check before an overlay, the
//! backup of what the overlay will touch, and the plans of the overlay and of
//! the restore. Reading and writing the live tree is left to the caller, who
//! hands in what it found and carries out the plans.
use crate::archive::{
    archive_finishes, chars_of, encoded_archive, step_accepted, string_of, written_ops, new_writer, writer_add_directory, writer_finish, writer_start_file,
    writer_write_all, WriteOp,
};
use crate::manifest::{entry_models, filtered, FilteredEntry, ItemModel, Manifest};
use crate::path_structure::hans_root;
use vstd::prelude::*;

verus! {

/// Whether `p` is one of the whitelisted paths, exactly.
pub open spec fn listed(whitelist: Seq<String>, p: Seq<char>) -> bool {
    exists|j: int| 0 <= j < whitelist.len() && (#[trigger] whitelist[j])@ == p
}

/// Whether `p` is one of the whitelisted paths, exactly.
pub fn is_whitelisted(whitelist: &Vec<String>, p: &String) -> (r: bool)
    ensures
        r == listed(whitelist@, p@),
{
    let mut i: usize = 0;
    while i < whitelist.len()
        invariant
            i <= whitelist@.len(),
            forall|j: int| 0 <= j < i ==> (#[trigger] whitelist@[j])@ != p@,
        decreases whitelist@.len() - i,
    {
        if whitelist[i] == *p {
            return true;
        }
        i = i + 1;
    }
    false
}

/// The relative paths among the first `n` entries of `view` that are absent
/// from the live tree and not whitelisted, in order.
pub open spec fn missing_upto(
    view: Seq<(int, Seq<char>)>,
    present: Seq<bool>,
    whitelist: Seq<String>,
    n: nat,
) -> Seq<Seq<char>>
    decreases n,
{
    if n == 0 {
        Seq::empty()
    } else {
        let prev = missing_upto(view, present, whitelist, (n - 1) as nat);
        let t = view[n - 1].1;
        if t.len() > 0 && !present[n - 1] && !listed(whitelist, t) {
            prev.push(t)
        } else {
            prev
        }
    }
}

/// The relative paths of `view` that are absent from the live tree and not
/// whitelisted, in order.
pub open spec fn missing_paths(
    view: Seq<(int, Seq<char>)>,
    present: Seq<bool>,
    whitelist: Seq<String>,
) -> Seq<Seq<char>> {
    missing_upto(view, present, whitelist, view.len())
}

pub open spec fn string_models(v: Seq<String>) -> Seq<Seq<char>> {
    v.map_values(|s: String| s@)
}

/// Why the live tree lacks the baseline that an overlay needs.
pub enum IntegrityError {
    /// Every relative path that is missing and not whitelisted.
    MissingFiles(Vec<String>),
}

/// The integrity check: `present[k]` tells whether the target of the `k`-th
/// entry of `filtered` exists. Fails, naming every missing path that is not
/// whitelisted, where there is any.
pub fn check_manifest_for_game_data(
    filtered: &Vec<FilteredEntry>,
    present: &Vec<bool>,
    whitelist: &Vec<String>,
) -> (r: Result<(), IntegrityError>)
    requires
        present@.len() == filtered@.len(),
    ensures
        r is Ok <==> missing_paths(entry_models(filtered@), present@, whitelist@).len() == 0,
        r matches Err(IntegrityError::MissingFiles(v)) ==> string_models(v@) == missing_paths(
            entry_models(filtered@),
            present@,
            whitelist@,
        ),
{
    let ghost view = entry_models(filtered@);
    let mut missing: Vec<String> = Vec::new();
    let mut i: usize = 0;
    while i < filtered.len()
        invariant
            i <= filtered@.len(),
            present@.len() == filtered@.len(),
            view == entry_models(filtered@),
            string_models(missing@) == missing_upto(view, present@, whitelist@, i as nat),
        decreases filtered@.len() - i,
    {
        let t = &filtered[i].stripped;
        if !t.as_str().is_empty() && !present[i] && !is_whitelisted(whitelist, t) {
            let ghost before = missing@;
            missing.push(t.clone());
            proof {
                assert(string_models(missing@) =~= string_models(before).push(t@));
            }
        }
        i = i + 1;
    }
    if missing.len() == 0 {
        Ok(())
    } else {
        Err(IntegrityError::MissingFiles(missing))
    }
}

/// When every expected path is present, nothing is reported missing; when
/// exactly one expected path that is not whitelisted is absent, the report
/// names exactly that path.
pub proof fn lemma_integrity_single_missing(
    view: Seq<(int, Seq<char>)>,
    present: Seq<bool>,
    whitelist: Seq<String>,
    j: int,
)
    requires
        present.len() == view.len(),
        forall|k: int| 0 <= k < view.len() ==> (#[trigger] view[k]).1.len() > 0,
    ensures
        (forall|k: int| 0 <= k < view.len() ==> #[trigger] present[k]) ==> missing_paths(
            view,
            present,
            whitelist,
        ).len() == 0,
        (0 <= j < view.len() && !present[j] && !listed(whitelist, view[j].1) && (forall|k: int|
            0 <= k < view.len() && k != j ==> #[trigger] present[k])) ==> missing_paths(
            view,
            present,
            whitelist,
        ) == seq![view[j].1],
{
    lemma_missing_upto(view, present, whitelist, j, view.len());
}

proof fn lemma_missing_upto(
    view: Seq<(int, Seq<char>)>,
    present: Seq<bool>,
    whitelist: Seq<String>,
    j: int,
    n: nat,
)
    requires
        n <= view.len(),
        present.len() == view.len(),
        forall|k: int| 0 <= k < view.len() ==> (#[trigger] view[k]).1.len() > 0,
    ensures
        (forall|k: int| 0 <= k < n ==> #[trigger] present[k]) ==> missing_upto(
            view,
            present,
            whitelist,
            n,
        ).len() == 0,
        (0 <= j < n && !present[j] && !listed(whitelist, view[j].1) && (forall|k: int|
            0 <= k < n && k != j ==> #[trigger] present[k])) ==> missing_upto(
            view,
            present,
            whitelist,
            n,
        ) == seq![view[j].1],
        (n <= j && (forall|k: int| 0 <= k < n && k != j ==> #[trigger] present[k])) ==> missing_upto(
            view,
            present,
            whitelist,
            n,
        ).len() == 0,
    decreases n,
{
    if n > 0 {
        lemma_missing_upto(view, present, whitelist, j, (n - 1) as nat);
        let k = n - 1;
        assert(view[k].1.len() > 0);
        if (0 <= j < n && !present[j] && !listed(whitelist, view[j].1) && (forall|k: int|
            0 <= k < n && k != j ==> #[trigger] present[k])) {
            if j == n - 1 {
                assert(missing_upto(view, present, whitelist, (n - 1) as nat).len() == 0);
                assert(missing_upto(view, present, whitelist, n) =~= seq![view[j].1]);
            } else {
                assert(present[n - 1]);
            }
        }
        if (n <= j && (forall|k: int| 0 <= k < n && k != j ==> #[trigger] present[k])) {
            assert(present[n - 1]);
        }
        if forall|k: int| 0 <= k < n ==> #[trigger] present[k] {
            assert(present[n - 1]);
        }
    }
}

/// What the live tree holds at the target of one entry.
pub enum EntryState {
    /// Nothing is there.
    Absent,
    /// A directory.
    Directory,
    /// A file with these contents.
    File(Vec<u8>),
}

/// The relative paths among the first `n` entries of `view` that are absent
/// from the live tree and not whitelisted, in order.
pub open spec fn absent_upto(
    view: Seq<(int, Seq<char>)>,
    states: Seq<EntryState>,
    whitelist: Seq<String>,
    n: nat,
) -> Seq<Seq<char>>
    decreases n,
{
    if n == 0 {
        Seq::empty()
    } else {
        let prev = absent_upto(view, states, whitelist, (n - 1) as nat);
        if states[n - 1] is Absent && !listed(whitelist, view[n - 1].1) {
            prev.push(view[n - 1].1)
        } else {
            prev
        }
    }
}

/// The relative paths of `view` that are absent from the live tree and not
/// whitelisted, in order.
pub open spec fn absent_paths(
    view: Seq<(int, Seq<char>)>,
    states: Seq<EntryState>,
    whitelist: Seq<String>,
) -> Seq<Seq<char>> {
    absent_upto(view, states, whitelist, view.len())
}

/// The steps that write the backup of the first `n` entries: a directory
/// record for a directory, a file record with its contents for a file, and
/// nothing for an absent entry.
pub open spec fn backup_ops_upto(
    view: Seq<(int, Seq<char>)>,
    states: Seq<EntryState>,
    n: nat,
) -> Seq<WriteOp>
    decreases n,
{
    if n == 0 {
        Seq::empty()
    } else {
        let prev = backup_ops_upto(view, states, (n - 1) as nat);
        match states[n - 1] {
            EntryState::Absent => prev,
            EntryState::Directory => prev.push(WriteOp::Directory(view[n - 1].1)),
            EntryState::File(b) => prev.push(WriteOp::StartFile(view[n - 1].1)).push(
                WriteOp::Data(b@),
            ),
        }
    }
}

pub open spec fn backup_ops(view: Seq<(int, Seq<char>)>, states: Seq<EntryState>) -> Seq<WriteOp> {
    backup_ops_upto(view, states, view.len())
}

/// Whether the writer accepts every step of `ops`, one after the other.
pub open spec fn steps_accepted(ops: Seq<WriteOp>) -> bool {
    forall|n: int| 0 < n <= ops.len() ==> #[trigger] step_accepted(ops.take(n))
}

/// The steps for the first `m` entries lead those for the first `n`.
proof fn lemma_backup_ops_prefix(
    view: Seq<(int, Seq<char>)>,
    states: Seq<EntryState>,
    m: nat,
    n: nat,
)
    requires
        m <= n <= states.len(),
    ensures
        backup_ops_upto(view, states, m).len() <= backup_ops_upto(view, states, n).len(),
        backup_ops_upto(view, states, n).take(backup_ops_upto(view, states, m).len() as int)
            == backup_ops_upto(view, states, m),
    decreases n,
{
    if m < n {
        lemma_backup_ops_prefix(view, states, m, (n - 1) as nat);
        let p = backup_ops_upto(view, states, m);
        let q = backup_ops_upto(view, states, (n - 1) as nat);
        let r = backup_ops_upto(view, states, n);
        assert(r.take(q.len() as int) =~= q);
        assert(r.take(p.len() as int) =~= q.take(p.len() as int));
    } else {
        let p = backup_ops_upto(view, states, m);
        assert(p.take(p.len() as int) =~= p);
    }
}

/// Accepting a step after accepted steps keeps every step accepted.
proof fn lemma_steps_accepted_push(ops: Seq<WriteOp>, op: WriteOp)
    requires
        steps_accepted(ops),
        step_accepted(ops.push(op)),
    ensures
        steps_accepted(ops.push(op)),
{
    let s = ops.push(op);
    assert forall|n: int| 0 < n <= s.len() implies #[trigger] step_accepted(s.take(n)) by {
        if n <= ops.len() {
            assert(s.take(n) =~= ops.take(n));
        } else {
            assert(s.take(n) =~= s);
        }
    }
}

/// Why a backup could not be made.
pub enum BackupError {
    /// Every relative path that is absent from the live tree and not whitelisted.
    Missing(Vec<String>),
    /// The archive codec failed.
    Archive(zip::result::ZipError),
}

/// The backup archive of the live files that the filtered view covers:
/// `states[k]` is what the live tree holds at the target of the `k`-th entry.
/// Fails, naming every entry that is absent and not whitelisted, where there
/// is any; otherwise the archive holds the entries present, in the view's
/// order, and the same inputs always give the same outcome.
pub fn backup_alien_isolation_data(
    filtered: &Vec<FilteredEntry>,
    states: &Vec<EntryState>,
    whitelist: &Vec<String>,
) -> (r: Result<Vec<u8>, BackupError>)
    requires
        states@.len() == filtered@.len(),
    ensures
        r matches Err(BackupError::Missing(_)) <==> absent_paths(
            entry_models(filtered@),
            states@,
            whitelist@,
        ).len() > 0,
        r matches Err(BackupError::Missing(v)) ==> string_models(v@) == absent_paths(
            entry_models(filtered@),
            states@,
            whitelist@,
        ),
        r is Ok <==> absent_paths(entry_models(filtered@), states@, whitelist@).len() == 0
            && steps_accepted(backup_ops(entry_models(filtered@), states@)) && archive_finishes(
            backup_ops(entry_models(filtered@), states@),
        ),
        r matches Ok(b) ==> b@ == encoded_archive(backup_ops(entry_models(filtered@), states@)),
{
    let ghost view = entry_models(filtered@);
    let n = filtered.len();
    let mut missing: Vec<String> = Vec::new();
    let mut i: usize = 0;
    while i < n
        invariant
            i <= n,
            n == filtered@.len(),
            states@.len() == n,
            view == entry_models(filtered@),
            string_models(missing@) == absent_upto(view, states@, whitelist@, i as nat),
        decreases n - i,
    {
        let t = &filtered[i].stripped;
        match &states[i] {
            EntryState::Absent => {
                if !is_whitelisted(whitelist, t) {
                    let ghost before = missing@;
                    missing.push(t.clone());
                    proof {
                        assert(string_models(missing@) =~= string_models(before).push(t@));
                    }
                }
            },
            _ => {},
        }
        i = i + 1;
    }
    if missing.len() > 0 {
        return Err(BackupError::Missing(missing));
    }
    let ghost full = backup_ops(view, states@);
    let mut w = new_writer();
    let mut i: usize = 0;
    while i < n
        invariant
            i <= n,
            n == filtered@.len(),
            states@.len() == n,
            view == entry_models(filtered@),
            full == backup_ops(view, states@),
            absent_paths(view, states@, whitelist@).len() == 0,
            written_ops(w) == backup_ops_upto(view, states@, i as nat),
            steps_accepted(written_ops(w)),
        decreases n - i,
    {
        proof {
            lemma_backup_ops_prefix(view, states@, (i + 1) as nat, n as nat);
        }
        let ghost next = backup_ops_upto(view, states@, (i + 1) as nat);
        let t = filtered[i].stripped.as_str();
        match &states[i] {
            EntryState::Absent => {},
            EntryState::Directory => {
                let ghost before = written_ops(w);
                let res = writer_add_directory(&mut w, t);
                proof {
                    assert(full.take(next.len() as int) == before.push(WriteOp::Directory(t@)));
                }
                if let Err(e) = res {
                    return Err(BackupError::Archive(e));
                }
                proof {
                    lemma_steps_accepted_push(before, WriteOp::Directory(t@));
                }
            },
            EntryState::File(b) => {
                let ghost before = written_ops(w);
                let res = writer_start_file(&mut w, t);
                proof {
                    let s1 = before.push(WriteOp::StartFile(t@));
                    assert(full.take(s1.len() as int) =~= next.take(s1.len() as int));
                    assert(next.take(s1.len() as int) =~= s1);
                }
                if let Err(e) = res {
                    return Err(BackupError::Archive(e));
                }
                proof {
                    lemma_steps_accepted_push(before, WriteOp::StartFile(t@));
                }
                let ghost middle = written_ops(w);
                let res = writer_write_all(&mut w, b.as_slice());
                proof {
                    assert(full.take(next.len() as int) == middle.push(WriteOp::Data(b@)));
                }
                if let Err(e) = res {
                    return Err(BackupError::Archive(e));
                }
                proof {
                    lemma_steps_accepted_push(middle, WriteOp::Data(b@));
                }
            },
        }
        i = i + 1;
    }
    match writer_finish(w) {
        Ok(b) => Ok(b),
        Err(e) => Err(BackupError::Archive(e)),
    }
}

/// `rel` under `root`.
pub open spec fn join_path(root: Seq<char>, rel: Seq<char>) -> Seq<char> {
    if root.len() > 0 && root.last() == '/' {
        root + rel
    } else {
        root + seq!['/'] + rel
    }
}

/// `rel` under `root`.
pub fn join(root: &str, rel: &str) -> (r: String)
    ensures
        r@ == join_path(root@, rel@),
{
    let mut c = chars_of(root);
    let ends_with_separator = c.len() > 0 && c[c.len() - 1] == '/';
    if !ends_with_separator {
        c.push('/');
    }
    let mut rest = chars_of(rel);
    c.append(&mut rest);
    proof {
        if ends_with_separator {
            assert(c@ =~= root@ + rel@);
        } else {
            assert(c@ =~= root@ + seq!['/'] + rel@);
        }
    }
    string_of(c.as_slice())
}

/// One write of an item of a manifest onto the live tree.
pub struct WriteAction {
    /// Where the item goes.
    pub target: String,
    /// The index of the item in its manifest.
    pub item: usize,
}

/// The writes of an overlay: each entry of the filtered view goes to its
/// relative path under `root`, in the view's order.
pub fn overlay_plan(filtered: &Vec<FilteredEntry>, root: &str) -> (r: Vec<WriteAction>)
    ensures
        r@.len() == filtered@.len(),
        forall|k: int|
            0 <= k < r@.len() ==> (#[trigger] r@[k]).item == filtered@[k].index && r@[k].target@
                == join_path(root@, filtered@[k].stripped@),
{
    let mut out: Vec<WriteAction> = Vec::new();
    let mut i: usize = 0;
    while i < filtered.len()
        invariant
            i <= filtered@.len(),
            out@.len() == i,
            forall|k: int|
                0 <= k < i ==> (#[trigger] out@[k]).item == filtered@[k].index && out@[k].target@
                    == join_path(root@, filtered@[k].stripped@),
        decreases filtered@.len() - i,
    {
        let target = join(root, filtered[i].stripped.as_str());
        out.push(WriteAction { target, item: filtered[i].index });
        i = i + 1;
    }
    out
}

/// The number of directory items.
pub open spec fn dir_count(items: Seq<ItemModel>) -> nat
    decreases items.len(),
{
    if items.len() == 0 {
        0
    } else {
        dir_count(items.drop_last()) + if items.last().is_dir {
            1nat
        } else {
            0nat
        }
    }
}

/// The number of entries of a filtered view whose item is a directory.
pub open spec fn view_dir_count(items: Seq<ItemModel>, view: Seq<(int, Seq<char>)>) -> nat
    decreases view.len(),
{
    if view.len() == 0 {
        0
    } else {
        view_dir_count(items, view.drop_last()) + if items[view.last().0].is_dir {
            1nat
        } else {
            0nat
        }
    }
}

/// The targets under `root` of the file entries of a filtered view, in order.
pub open spec fn removal_targets(
    items: Seq<ItemModel>,
    view: Seq<(int, Seq<char>)>,
    root: Seq<char>,
) -> Seq<Seq<char>>
    decreases view.len(),
{
    if view.len() == 0 {
        Seq::empty()
    } else {
        let prev = removal_targets(items, view.drop_last(), root);
        if items[view.last().0].is_file {
            prev.push(join_path(root, view.last().1))
        } else {
            prev
        }
    }
}

/// Every file that an overlay of the view writes under `root` is among the
/// files that a restore over the same manifest removes.
pub proof fn lemma_restore_removes_overlaid_files(
    items: Seq<ItemModel>,
    view: Seq<(int, Seq<char>)>,
    root: Seq<char>,
    k: int,
)
    requires
        0 <= k < view.len(),
        forall|j: int| 0 <= j < view.len() ==> 0 <= (#[trigger] view[j]).0 < items.len(),
        items[view[k].0].is_file,
    ensures
        removal_targets(items, view, root).contains(join_path(root, view[k].1)),
    decreases view.len(),
{
    let prev = view.drop_last();
    if k == view.len() - 1 {
        let r = removal_targets(items, view, root);
        assert(r[r.len() - 1] == join_path(root, view[k].1));
    } else {
        assert forall|j: int| 0 <= j < prev.len() implies 0 <= (#[trigger] prev[j]).0 < items.len() by {
            assert(prev[j] == view[j]);
        }
        lemma_restore_removes_overlaid_files(items, prev, root, k);
        let q = removal_targets(items, prev, root);
        let i = choose|i: int| 0 <= i < q.len() && q[i] == join_path(root, view[k].1);
        let r = removal_targets(items, view, root);
        assert(r[i] == q[i]);
    }
}

/// What a restore does: delete these files where they exist as files, then
/// carry out these writes.
pub struct RestorePlan {
    pub removals: Vec<String>,
    pub writes: Vec<WriteAction>,
}

/// Why a restore cannot go ahead.
pub enum RestoreError {
    /// The directory entries of the language subtree of the manifest to
    /// remove, and those of the manifest to write, differ in number.
    DirCountMismatch { needs_remove: usize, manifest: usize },
}

/// The plan of a restore onto the live tree at `root`: the file entries of the
/// language subtree of `needs_remove` are deleted, then every item of
/// `manifest` is written under its lower-cased path. Refused, before anything
/// is touched, where the two disagree on the number of directories.
pub fn restore_plan(manifest: &Manifest, needs_remove: &Manifest, root: &str) -> (r: Result<
    RestorePlan,
    RestoreError,
>)
    ensures
        r is Err <==> view_dir_count(
            needs_remove.model(),
            filtered(needs_remove.model(), hans_root()),
        ) != dir_count(manifest.model()),
        r matches Err(RestoreError::DirCountMismatch { needs_remove: a, manifest: b }) ==> a
            == view_dir_count(needs_remove.model(), filtered(needs_remove.model(), hans_root()))
            && b == dir_count(manifest.model()),
        r matches Ok(p) ==> string_models(p.removals@) == removal_targets(
            needs_remove.model(),
            filtered(needs_remove.model(), hans_root()),
            root@,
        ),
        r matches Ok(p) ==> p.writes@.len() == manifest.model().len() && forall|k: int|
            0 <= k < p.writes@.len() ==> (#[trigger] p.writes@[k]).item == k
                && p.writes@[k].target@ == join_path(root@, manifest.model()[k].lowercase_name),
{
    let view_entries = needs_remove.filter_hans_dir();
    let ghost items = needs_remove.model();
    let ghost view = entry_models(view_entries@);
    proof {
        crate::manifest::lemma_filtered_inside_subtree(items, hans_root());
    }
    let mut needs_remove_dirs: usize = 0;
    let mut i: usize = 0;
    while i < view_entries.len()
        invariant
            i <= view_entries@.len(),
            view == entry_models(view_entries@),
            view == filtered(items, hans_root()),
            items == needs_remove.model(),
            needs_remove_dirs == view_dir_count(items, view.take(i as int)),
            needs_remove_dirs <= i,
            forall|k: int| 0 <= k < view.len() ==> 0 <= (#[trigger] view[k]).0 < items.len(),
        decreases view_entries@.len() - i,
    {
        proof {
            assert(view.take(i + 1).drop_last() =~= view.take(i as int));
            assert(view[i as int].0 == view_entries@[i as int].index);
        }
        if needs_remove.0[view_entries[i].index].is_dir {
            needs_remove_dirs = needs_remove_dirs + 1;
        }
        i = i + 1;
    }
    proof {
        assert(view.take(view.len() as int) =~= view);
    }
    let ghost mitems = manifest.model();
    let mut manifest_dirs: usize = 0;
    let mut i: usize = 0;
    while i < manifest.0.len()
        invariant
            i <= manifest.0@.len(),
            mitems == manifest.model(),
            manifest_dirs == dir_count(mitems.take(i as int)),
            manifest_dirs <= i,
        decreases manifest.0@.len() - i,
    {
        proof {
            assert(mitems.take(i + 1).drop_last() =~= mitems.take(i as int));
        }
        if manifest.0[i].is_dir {
            manifest_dirs = manifest_dirs + 1;
        }
        i = i + 1;
    }
    proof {
        assert(mitems.take(mitems.len() as int) =~= mitems);
    }
    if needs_remove_dirs != manifest_dirs {
        return Err(
            RestoreError::DirCountMismatch { needs_remove: needs_remove_dirs, manifest: manifest_dirs },
        );
    }
    let mut removals: Vec<String> = Vec::new();
    let mut i: usize = 0;
    while i < view_entries.len()
        invariant
            i <= view_entries@.len(),
            view == entry_models(view_entries@),
            items == needs_remove.model(),
            string_models(removals@) == removal_targets(items, view.take(i as int), root@),
            forall|k: int| 0 <= k < view.len() ==> 0 <= (#[trigger] view[k]).0 < items.len(),
        decreases view_entries@.len() - i,
    {
        proof {
            assert(view.take(i + 1).drop_last() =~= view.take(i as int));
            assert(view[i as int].0 == view_entries@[i as int].index);
        }
        if needs_remove.0[view_entries[i].index].is_file {
            let target = join(root, view_entries[i].stripped.as_str());
            let ghost before = removals@;
            removals.push(target);
            proof {
                assert(string_models(removals@) =~= string_models(before).push(target@));
            }
        }
        i = i + 1;
    }
    proof {
        assert(view.take(view.len() as int) =~= view);
    }
    let mut writes: Vec<WriteAction> = Vec::new();
    let mut i: usize = 0;
    while i < manifest.0.len()
        invariant
            i <= manifest.0@.len(),
            mitems == manifest.model(),
            writes@.len() == i,
            forall|k: int|
                0 <= k < i ==> (#[trigger] writes@[k]).item == k && writes@[k].target@ == join_path(
                    root@,
                    mitems[k].lowercase_name,
                ),
        decreases manifest.0@.len() - i,
    {
        let target = join(root, manifest.0[i].lowercase_name.as_str());
        writes.push(WriteAction { target, item: i });
        i = i + 1;
    }
    Ok(RestorePlan { removals, writes })
}

} // verus!

//! The manifest: an ordered inventory of an archive's entries, and its
//! projection onto one subtree.
use crate::archive::{
    archive_entries, archive_entry, archive_len, chars_of, decoded_entries, lower_of, lowercase,
    open_archive, string_of, ArchiveEntry, EntryModel, MemArchive,
};
use crate::path_structure::{hans_dir, hans_root};
use vstd::prelude::*;

verus! {

/// One archive entry: its path as stored, the same path lower-cased (used for
/// every comparison), its contents, and its kind.
pub struct ManifestItem {
    pub path: String,
    pub lowercase_name: String,
    pub bytes: Vec<u8>,
    pub is_file: bool,
    pub is_dir: bool,
}

/// The mathematical value of a [`ManifestItem`].
pub struct ItemModel {
    pub path: Seq<char>,
    pub lowercase_name: Seq<char>,
    pub bytes: Seq<u8>,
    pub is_file: bool,
    pub is_dir: bool,
}

impl ManifestItem {
    pub open spec fn model(&self) -> ItemModel {
        ItemModel {
            path: self.path@,
            lowercase_name: self.lowercase_name@,
            bytes: self.bytes@,
            is_file: self.is_file,
            is_dir: self.is_dir,
        }
    }
}

/// The item that an archive entry gives: none where the entry is neither a
/// file nor a directory, has no safe relative name, or its contents could not
/// be read.
pub open spec fn item_of(e: EntryModel) -> Option<ItemModel> {
    match (e.0, e.3) {
        (Some(name), Some(bytes)) => if !e.1 && !e.2 {
            None
        } else {
            Some(
                ItemModel {
                    path: name,
                    lowercase_name: lower_of(name),
                    bytes,
                    is_file: e.1,
                    is_dir: e.2,
                },
            )
        },
        _ => None,
    }
}

pub open spec fn opt_item_model(r: Option<ManifestItem>) -> Option<ItemModel> {
    match r {
        Some(it) => Some(it.model()),
        None => None,
    }
}

/// Whether every entry of an archive could be opened.
pub open spec fn all_open(es: Seq<Option<EntryModel>>) -> bool {
    forall|i: int| 0 <= i < es.len() ==> (#[trigger] es[i]) is Some
}

/// Whether the bytes hold an archive whose container and entries all open.
pub open spec fn readable(data: Seq<u8>) -> bool {
    match decoded_entries(data) {
        Some(es) => all_open(es),
        None => false,
    }
}

/// The items of a sequence of entries, in order, those without an item left out.
pub open spec fn items_of(es: Seq<Option<EntryModel>>) -> Seq<ItemModel>
    decreases es.len(),
{
    if es.len() == 0 {
        Seq::empty()
    } else {
        let prev = items_of(es.drop_last());
        match es.last() {
            Some(e) => match item_of(e) {
                Some(it) => prev.push(it),
                None => prev,
            },
            None => prev,
        }
    }
}

pub open spec fn models(v: Seq<ManifestItem>) -> Seq<ItemModel> {
    v.map_values(|it: ManifestItem| it.model())
}

impl ManifestItem {
    /// The item of one archive entry.
    pub fn new(entry: ArchiveEntry) -> (r: Option<ManifestItem>)
        ensures
            opt_item_model(r) == item_of(entry.model()),
    {
        let ArchiveEntry { name, is_file, is_dir, bytes } = entry;
        let path = match name {
            Some(p) => p,
            None => return None,
        };
        let bytes = match bytes {
            Some(b) => b,
            None => return None,
        };
        if !is_file && !is_dir {
            return None;
        }
        let lowercase_name = lowercase(path.as_str());
        Some(ManifestItem { path, lowercase_name, bytes, is_file, is_dir })
    }
}

/// Why an archive could not be read.
pub enum ArchiveError {
    /// The archive container is malformed, or an entry's record is.
    Decode(zip::result::ZipError),
}

/// An ordered collection of items, in archive order.
pub struct Manifest(pub Vec<ManifestItem>);

impl Manifest {
    pub open spec fn model(&self) -> Seq<ItemModel> {
        models(self.0@)
    }

    /// Reads every entry of an open archive; entries that are neither files nor
    /// directories, without a safe name, or whose contents cannot be read are
    /// left out. Fails where an entry cannot be opened.
    pub fn new(archive: MemArchive) -> (r: Result<Manifest, ArchiveError>)
        ensures
            r is Ok <==> all_open(archive_entries(archive)),
            r matches Ok(m) ==> m.model() == items_of(archive_entries(archive)),
    {
        let ghost es = archive_entries(archive);
        let mut reader = archive;
        let len = archive_len(&reader);
        let mut items: Vec<ManifestItem> = Vec::new();
        let mut i: usize = 0;
        while i < len
            invariant
                len == es.len(),
                archive_entries(reader) == es,
                es == archive_entries(archive),
                i <= len,
                forall|j: int| 0 <= j < i ==> (#[trigger] es[j]) is Some,
                models(items@) == items_of(es.take(i as int)),
            decreases len - i,
        {
            let entry = match archive_entry(&mut reader, i) {
                Ok(e) => e,
                Err(e) => {
                    proof {
                        assert(es[i as int] is None);
                        assert(!all_open(es));
                    }
                    return Err(ArchiveError::Decode(e));
                },
            };
            let item = ManifestItem::new(entry);
            proof {
                assert(es.take(i + 1).drop_last() =~= es.take(i as int));
                assert(es.take(i + 1).last() == es[i as int]);
            }
            match item {
                Some(it) => {
                    let ghost before = items@;
                    items.push(it);
                    proof {
                        assert(models(items@) =~= models(before).push(it.model()));
                    }
                },
                None => {},
            }
            i = i + 1;
        }
        proof {
            assert(es.take(len as int) =~= es);
        }
        Ok(Manifest(items))
    }

    /// Reads the manifest of an archive held in `data`, the archive that the
    /// program carries with it.
    pub fn read_from_language_zip(data: Vec<u8>) -> (r: Result<Manifest, ArchiveError>)
        ensures
            r is Ok <==> readable(data@),
            r matches Ok(m) ==> decoded_entries(data@) matches Some(es) && m.model() == items_of(es),
    {
        match open_archive(data) {
            Ok(a) => Manifest::new(a),
            Err(e) => Err(ArchiveError::Decode(e)),
        }
    }

    /// Reads the manifest of a backup archive held in `data`.
    pub fn read_from_backup_zip(data: Vec<u8>) -> (r: Result<Manifest, ArchiveError>)
        ensures
            r is Ok <==> readable(data@),
            r matches Ok(m) ==> decoded_entries(data@) matches Some(es) && m.model() == items_of(es),
    {
        Manifest::read_from_language_zip(data)
    }
}

/// `s` without its leading separators.
pub open spec fn trim_start(s: Seq<char>) -> Seq<char>
    decreases s.len(),
{
    if s.len() > 0 && s[0] == '/' {
        trim_start(s.drop_first())
    } else {
        s
    }
}

/// `s` without its trailing separators.
pub open spec fn trim_end(s: Seq<char>) -> Seq<char>
    decreases s.len(),
{
    if s.len() > 0 && s.last() == '/' {
        trim_end(s.drop_last())
    } else {
        s
    }
}

/// Where `root` is a leading run of whole components of `name`: what
/// follows it, without separators at either end.
pub open spec fn strip_root(name: Seq<char>, root: Seq<char>) -> Option<Seq<char>> {
    if root.len() <= name.len() && name.take(root.len() as int) == root && (name.len()
        == root.len() || name[root.len() as int] == '/') {
        Some(trim_end(trim_start(name.skip(root.len() as int))))
    } else {
        None
    }
}

/// The path of `name` inside the subtree at `root`, where it lies strictly
/// inside it.
pub open spec fn subtree_path(name: Seq<char>, root: Seq<char>) -> Option<Seq<char>> {
    match strip_root(name, root) {
        Some(t) => if t.len() > 0 {
            Some(t)
        } else {
            None
        },
        None => None,
    }
}

/// One entry of a filtered view: the index of an item in its manifest, and
/// the item's path relative to the subtree root.
pub struct FilteredEntry {
    pub index: usize,
    pub stripped: String,
}

impl FilteredEntry {
    pub open spec fn model(&self) -> (int, Seq<char>) {
        (self.index as int, self.stripped@)
    }
}

pub open spec fn entry_models(v: Seq<FilteredEntry>) -> Seq<(int, Seq<char>)> {
    v.map_values(|e: FilteredEntry| e.model())
}

/// The filtered view of `items` on the subtree at `root`: in manifest order,
/// each item strictly inside the subtree, with its relative path.
pub open spec fn filtered(items: Seq<ItemModel>, root: Seq<char>) -> Seq<(int, Seq<char>)>
    decreases items.len(),
{
    if items.len() == 0 {
        Seq::empty()
    } else {
        let prev = filtered(items.drop_last(), root);
        match subtree_path(items.last().lowercase_name, root) {
            Some(t) => prev.push(((items.len() - 1) as int, t)),
            None => prev,
        }
    }
}

/// The characters of `name` that follow `root`, where `root` leads it as whole
/// components, with separators trimmed at both ends.
fn strip_root_chars(name: &Vec<char>, root: &Vec<char>) -> (r: Option<Vec<char>>)
    ensures
        match r {
            Some(v) => strip_root(name@, root@) == Some(v@),
            None => strip_root(name@, root@) is None,
        },
{
    let n = name.len();
    let rl = root.len();
    if rl > n {
        return None;
    }
    let mut i: usize = 0;
    while i < rl
        invariant
            rl <= n,
            n == name@.len(),
            rl == root@.len(),
            i <= rl,
            forall|j: int| 0 <= j < i ==> name@[j] == root@[j],
        decreases rl - i,
    {
        if name[i] != root[i] {
            proof {
                assert(name@.take(rl as int)[i as int] != root@[i as int]);
            }
            return None;
        }
        i = i + 1;
    }
    proof {
        assert(name@.take(rl as int) =~= root@);
    }
    if rl < n && name[rl] != '/' {
        return None;
    }
    let mut start: usize = rl;
    while start < n && name[start] == '/'
        invariant
            rl <= start <= n,
            n == name@.len(),
            trim_start(name@.skip(rl as int)) == trim_start(name@.skip(start as int)),
        decreases n - start,
    {
        proof {
            assert(name@.skip(start as int).drop_first() =~= name@.skip(start + 1));
        }
        start = start + 1;
    }
    assert(trim_start(name@.skip(rl as int)) == name@.skip(start as int));
    assert(name@.skip(start as int) =~= name@.subrange(start as int, n as int));
    let mut end: usize = n;
    while end > start && name[end - 1] == '/'
        invariant
            start <= end <= n,
            n == name@.len(),
            trim_end(name@.subrange(start as int, n as int)) == trim_end(
                name@.subrange(start as int, end as int),
            ),
        decreases end,
    {
        proof {
            assert(name@.subrange(start as int, end as int).drop_last() =~= name@.subrange(
                start as int,
                end - 1,
            ));
        }
        end = end - 1;
    }
    let mut out: Vec<char> = Vec::new();
    let mut k: usize = start;
    while k < end
        invariant
            start <= k <= end <= n,
            n == name@.len(),
            out@ == name@.subrange(start as int, k as int),
        decreases end - k,
    {
        out.push(name[k]);
        proof {
            assert(out@ =~= name@.subrange(start as int, k + 1));
        }
        k = k + 1;
    }
    Some(out)
}

impl Manifest {
    /// The filtered view on the subtree at `root`: every item whose
    /// lower-cased path lies strictly inside it, with the path relative to it.
    pub fn filter_subtree(&self, root: &str) -> (r: Vec<FilteredEntry>)
        ensures
            entry_models(r@) == filtered(self.model(), root@),
    {
        let root_chars = chars_of(root);
        let mut out: Vec<FilteredEntry> = Vec::new();
        let mut i: usize = 0;
        while i < self.0.len()
            invariant
                i <= self.0@.len(),
                root_chars@ == root@,
                entry_models(out@) == filtered(self.model().take(i as int), root@),
            decreases self.0@.len() - i,
        {
            let name = chars_of(self.0[i].lowercase_name.as_str());
            let stripped = strip_root_chars(&name, &root_chars);
            proof {
                assert(self.model().take(i + 1).drop_last() =~= self.model().take(i as int));
                assert(self.model().take(i + 1).last() == self.0@[i as int].model());
            }
            match stripped {
                Some(t) => {
                    if t.len() > 0 {
                        let ghost before = out@;
                        let e = FilteredEntry { index: i, stripped: string_of(t.as_slice()) };
                        out.push(e);
                        proof {
                            assert(entry_models(out@) =~= entry_models(before).push(e.model()));
                        }
                    }
                },
                None => {},
            }
            i = i + 1;
        }
        proof {
            assert(self.model().take(self.0@.len() as int) =~= self.model());
        }
        out
    }

    /// The filtered view on the language subtree.
    pub fn filter_hans_dir(&self) -> (r: Vec<FilteredEntry>)
        ensures
            entry_models(r@) == filtered(self.model(), hans_root()),
    {
        self.filter_subtree(hans_dir())
    }
}

/// Every entry of a filtered view names an item of the manifest whose
/// lower-cased path starts with `root` and strips to a non-empty relative path;
/// the item at the subtree root itself never appears.
pub proof fn lemma_filtered_inside_subtree(items: Seq<ItemModel>, root: Seq<char>)
    ensures
        forall|k: int|
            0 <= k < filtered(items, root).len() ==> {
                let (idx, t) = #[trigger] filtered(items, root)[k];
                &&& 0 <= idx < items.len()
                &&& root.is_prefix_of(items[idx].lowercase_name)
                &&& t.len() > 0
                &&& subtree_path(items[idx].lowercase_name, root) == Some(t)
                &&& items[idx].lowercase_name != root
            },
    decreases items.len(),
{
    if items.len() > 0 {
        let prev = items.drop_last();
        lemma_filtered_inside_subtree(prev, root);
        let name = items.last().lowercase_name;
        if name == root {
            assert(name.skip(root.len() as int) =~= Seq::<char>::empty());
        }
        assert forall|k: int| 0 <= k < filtered(items, root).len() implies {
            let (idx, t) = #[trigger] filtered(items, root)[k];
            &&& 0 <= idx < items.len()
            &&& root.is_prefix_of(items[idx].lowercase_name)
            &&& t.len() > 0
            &&& subtree_path(items[idx].lowercase_name, root) == Some(t)
            &&& items[idx].lowercase_name != root
        } by {
            if k < filtered(prev, root).len() {
                let (idx, t) = filtered(prev, root)[k];
                assert(prev[idx] == items[idx]);
            } else {
                assert(name.take(root.len() as int) =~= name.subrange(0, root.len() as int));
            }
        }
    }
}

} // verus!

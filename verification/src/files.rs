//! A registry of source files, keyed both by path and by a stable identifier.
//!
//! Identifiers are handed out in increasing order and never reused, so an
//! identifier stays meaningful even after the file it named was removed.
use vstd::prelude::*;

verus! {

/// An identifier for a PureScript source file registered in [`Files`].
#[derive(Clone, Copy, PartialEq, Eq, PartialOrd, Ord, Hash, Debug, Structural)]
pub struct FileId {
    index: u32,
}

impl View for FileId {
    type V = u32;

    closed spec fn view(&self) -> u32 {
        self.index
    }
}

/// Two file identifiers are equal exactly when their raw indices are.
pub proof fn lemma_file_id_view_injective(a: FileId, b: FileId)
    ensures
        (a@ == b@) == (a == b),
{
}

impl FileId {
    pub fn new(index: u32) -> (id: FileId)
        ensures
            id@ == index,
    {
        FileId { index }
    }

    pub fn into_raw(self) -> (index: u32)
        ensures
            index == self@,
    {
        self.index
    }
}

/// An identifier for a foreign (JavaScript) file registered in [`ForeignFiles`].
#[derive(Clone, Copy, PartialEq, Eq, PartialOrd, Ord, Hash, Debug, Structural)]
pub struct ForeignFileId {
    index: u32,
}

impl View for ForeignFileId {
    type V = u32;

    closed spec fn view(&self) -> u32 {
        self.index
    }
}

/// Two foreign file identifiers are equal exactly when their raw indices are.
pub proof fn lemma_foreign_file_id_view_injective(a: ForeignFileId, b: ForeignFileId)
    ensures
        (a@ == b@) == (a == b),
{
}

/// One registered file: its identifier, path and content.
pub struct FileRecord {
    pub id: u32,
    pub path: Seq<char>,
    pub content: Seq<char>,
}

/// The abstract state of a file registry: its files in increasing order of
/// identifier, and the identifier that the next new path receives.
pub struct FilesModel {
    pub entries: Seq<FileRecord>,
    pub next_id: u32,
}

impl FilesModel {
    /// The registry before any file was inserted.
    pub open spec fn empty() -> FilesModel {
        FilesModel { entries: Seq::empty(), next_id: 0 }
    }

    /// Identifiers increase along `entries`, stay below `next_id`, and no
    /// path is registered twice.
    pub open spec fn valid(self) -> bool {
        &&& forall|a: int, b: int|
            0 <= a < b < self.entries.len() ==> #[trigger] self.entries[a].id
                < #[trigger] self.entries[b].id
        &&& forall|a: int| 0 <= a < self.entries.len() ==> #[trigger] self.entries[a].id < self.next_id
        &&& forall|a: int, b: int|
            0 <= a < self.entries.len() && 0 <= b < self.entries.len() && a != b
                ==> #[trigger] self.entries[a].path != #[trigger] self.entries[b].path
    }

    pub open spec fn has_path(self, path: Seq<char>) -> bool {
        exists|k: int| 0 <= k < self.entries.len() && #[trigger] self.entries[k].path == path
    }

    /// The position of the file registered under `path`.
    pub open spec fn path_position(self, path: Seq<char>) -> int
        recommends
            self.has_path(path),
    {
        choose|k: int| 0 <= k < self.entries.len() && #[trigger] self.entries[k].path == path
    }

    pub open spec fn has_id(self, id: u32) -> bool {
        exists|k: int| 0 <= k < self.entries.len() && #[trigger] self.entries[k].id == id
    }

    /// The position of the file with identifier `id`.
    pub open spec fn id_position(self, id: u32) -> int
        recommends
            self.has_id(id),
    {
        choose|k: int| 0 <= k < self.entries.len() && #[trigger] self.entries[k].id == id
    }

    /// The identifier registered for `path`, if any.
    pub open spec fn lookup(self, path: Seq<char>) -> Option<u32> {
        if self.has_path(path) {
            Some(self.entries[self.path_position(path)].id)
        } else {
            None
        }
    }

    pub open spec fn path_of(self, id: u32) -> Seq<char> {
        self.entries[self.id_position(id)].path
    }

    pub open spec fn content_of(self, id: u32) -> Seq<char> {
        self.entries[self.id_position(id)].content
    }

    /// Whether `insert(path, ..)` can proceed: either the path is already
    /// registered, or a fresh identifier is still available.
    pub open spec fn can_insert(self, path: Seq<char>) -> bool {
        self.has_path(path) || self.next_id < u32::MAX
    }

    /// Registering `content` under `path`: a known path keeps its identifier
    /// and has its content replaced; a new path receives `next_id`.
    pub open spec fn inserted(self, path: Seq<char>, content: Seq<char>) -> (FilesModel, u32) {
        if self.has_path(path) {
            let k = self.path_position(path);
            let id = self.entries[k].id;
            (
                FilesModel {
                    entries: self.entries.update(k, FileRecord { id, path, content }),
                    next_id: self.next_id,
                },
                id,
            )
        } else {
            (
                FilesModel {
                    entries: self.entries.push(FileRecord { id: self.next_id, path, content }),
                    next_id: (self.next_id + 1) as u32,
                },
                self.next_id,
            )
        }
    }

    /// Forgetting the file registered under `path`; its identifier is not
    /// handed out again.
    pub open spec fn removed(self, path: Seq<char>) -> (FilesModel, Option<u32>) {
        if self.has_path(path) {
            let k = self.path_position(path);
            (
                FilesModel { entries: self.entries.remove(k), next_id: self.next_id },
                Some(self.entries[k].id),
            )
        } else {
            (self, None)
        }
    }

    /// The identifiers of all registered files, in increasing order.
    pub open spec fn ids(self) -> Seq<u32> {
        self.entries.map_values(|record: FileRecord| record.id)
    }
}

/// In a valid registry a path occurs at exactly one position.
pub proof fn lemma_path_position(model: FilesModel, path: Seq<char>, k: int)
    requires
        model.valid(),
        0 <= k < model.entries.len(),
        model.entries[k].path == path,
    ensures
        model.has_path(path),
        model.path_position(path) == k,
{
    assert(model.has_path(path));
}

/// In a valid registry an identifier occurs at exactly one position.
pub proof fn lemma_id_position(model: FilesModel, id: u32, k: int)
    requires
        model.valid(),
        0 <= k < model.entries.len(),
        model.entries[k].id == id,
    ensures
        model.has_id(id),
        model.id_position(id) == k,
{
    assert(model.has_id(id));
    let j = model.id_position(id);
    if j < k {
        assert(model.entries[j].id < model.entries[k].id);
    } else if k < j {
        assert(model.entries[k].id < model.entries[j].id);
    }
}

/// Inserting keeps a registry valid, and afterwards the path is registered
/// under the returned identifier with exactly the given content.
pub proof fn law_insert_then_lookup(model: FilesModel, path: Seq<char>, content: Seq<char>)
    requires
        model.valid(),
        model.can_insert(path),
    ensures
        ({
            let (after, id) = model.inserted(path, content);
            &&& after.valid()
            &&& after.lookup(path) == Some(id)
            &&& after.has_id(id)
            &&& after.path_of(id) == path
            &&& after.content_of(id) == content
        }),
{
    let (after, id) = model.inserted(path, content);
    if model.has_path(path) {
        let k = model.path_position(path);
        assert(after.valid()) by {
            assert forall|a: int, b: int|
                0 <= a < after.entries.len() && 0 <= b < after.entries.len() && a != b
                    implies #[trigger] after.entries[a].path != #[trigger] after.entries[b].path by {
                assert(model.entries[a].path != model.entries[b].path);
            }
        }
        lemma_path_position(after, path, k);
        lemma_id_position(after, id, k);
    } else {
        let k = model.entries.len() as int;
        assert(after.valid()) by {
            assert forall|a: int, b: int|
                0 <= a < after.entries.len() && 0 <= b < after.entries.len() && a != b
                    implies #[trigger] after.entries[a].path != #[trigger] after.entries[b].path by {
                if a != k && b != k {
                    assert(model.entries[a].path != model.entries[b].path);
                } else if a == k {
                    assert(model.entries[b].path != path);
                } else {
                    assert(model.entries[a].path != path);
                }
            }
        }
        lemma_path_position(after, path, k);
        lemma_id_position(after, id, k);
    }
}

/// Inserting under one path leaves the registration of every other path,
/// and the path and content of every other file, unchanged.
pub proof fn law_insert_preserves_others(
    model: FilesModel,
    path: Seq<char>,
    content: Seq<char>,
    other: Seq<char>,
)
    requires
        model.valid(),
        model.can_insert(path),
        other != path,
    ensures
        ({
            let (after, _) = model.inserted(path, content);
            &&& after.lookup(other) == model.lookup(other)
            &&& model.has_path(other) ==> {
                let id = model.lookup(other)->0;
                &&& after.path_of(id) == model.path_of(id)
                &&& after.content_of(id) == model.content_of(id)
            }
        }),
{
    let (after, id) = model.inserted(path, content);
    law_insert_then_lookup(model, path, content);
    if model.has_path(other) {
        let j = model.path_position(other);
        assert(after.entries[j] == model.entries[j]);
        lemma_path_position(after, other, j);
        lemma_id_position(model, model.entries[j].id, j);
        lemma_id_position(after, model.entries[j].id, j);
    } else {
        if after.has_path(other) {
            let j = after.path_position(other);
            assert(model.entries[j].path == other);
        }
    }
}

/// Removing a registered path keeps the registry valid, reports the
/// identifier it had, and afterwards the path is no longer registered.
pub proof fn law_remove_forgets(model: FilesModel, path: Seq<char>)
    requires
        model.valid(),
    ensures
        ({
            let (after, removed) = model.removed(path);
            &&& after.valid()
            &&& removed == model.lookup(path)
            &&& after.lookup(path) is None
            &&& after.next_id == model.next_id
        }),
{
    let (after, removed) = model.removed(path);
    if model.has_path(path) {
        let k = model.path_position(path);
        assert(after.valid()) by {
            assert forall|a: int, b: int| 0 <= a < b < after.entries.len() implies #[trigger]
                after.entries[a].id < #[trigger] after.entries[b].id by {
                let a0 = if a < k { a } else { a + 1 };
                let b0 = if b < k { b } else { b + 1 };
                assert(after.entries[a] == model.entries[a0]);
                assert(after.entries[b] == model.entries[b0]);
            }
            assert forall|a: int| 0 <= a < after.entries.len() implies #[trigger]
                after.entries[a].id < after.next_id by {
                let a0 = if a < k { a } else { a + 1 };
                assert(after.entries[a] == model.entries[a0]);
            }
            assert forall|a: int, b: int|
                0 <= a < after.entries.len() && 0 <= b < after.entries.len() && a != b
                    implies #[trigger] after.entries[a].path != #[trigger] after.entries[b].path by {
                let a0 = if a < k { a } else { a + 1 };
                let b0 = if b < k { b } else { b + 1 };
                assert(after.entries[a] == model.entries[a0]);
                assert(after.entries[b] == model.entries[b0]);
            }
        }
        if after.has_path(path) {
            let j = after.path_position(path);
            let j0 = if j < k { j } else { j + 1 };
            assert(after.entries[j] == model.entries[j0]);
        }
    }
}

/// A path that was not registered receives an identifier larger than every
/// identifier the registry has handed out before, so a removed identifier is
/// never reused.
pub proof fn law_fresh_identifiers(model: FilesModel, path: Seq<char>, content: Seq<char>)
    requires
        model.valid(),
        !model.has_path(path),
        model.next_id < u32::MAX,
    ensures
        ({
            let (after, id) = model.inserted(path, content);
            &&& id == model.next_id
            &&& forall|k: int| 0 <= k < model.entries.len() ==> #[trigger] model.entries[k].id < id
            &&& after.next_id > id
        }),
{
}

/// An operation on a file registry.
pub enum FileOperation {
    /// Registers content under a path.
    Insert(Seq<char>, Seq<char>),
    /// Forgets the file registered under a path.
    Remove(Seq<char>),
}

/// One operation: the registry afterwards and the identifier it returns.
pub open spec fn applied_operation(model: FilesModel, operation: FileOperation) -> (FilesModel, Option<u32>) {
    match operation {
        FileOperation::Insert(path, content) => {
            let (after, id) = model.inserted(path, content);
            (after, Some(id))
        },
        FileOperation::Remove(path) => model.removed(path),
    }
}

/// The operations one after another: the registry afterwards and what each
/// returned, in order.
pub open spec fn applied_operations(model: FilesModel, operations: Seq<FileOperation>) -> (FilesModel, Seq<Option<u32>>)
    decreases operations.len(),
{
    if operations.len() == 0 {
        (model, Seq::empty())
    } else {
        let (before, results) = applied_operations(model, operations.drop_last());
        let (after, result) = applied_operation(before, operations.last());
        (after, results.push(result))
    }
}

/// Each insertion of the sequence can be made when its turn comes.
pub open spec fn can_apply_operations(model: FilesModel, operations: Seq<FileOperation>) -> bool
    decreases operations.len(),
{
    if operations.len() == 0 {
        true
    } else {
        &&& can_apply_operations(model, operations.drop_last())
        &&& match operations.last() {
            FileOperation::Insert(path, _) => applied_operations(model, operations.drop_last()).0.can_insert(path),
            FileOperation::Remove(_) => true,
        }
    }
}

/// Operation `i` inserts a path that is not registered when its turn comes.
pub open spec fn inserts_new_path(model: FilesModel, operations: Seq<FileOperation>, i: int) -> bool {
    match operations[i] {
        FileOperation::Insert(path, _) => !applied_operations(model, operations.take(i)).0.has_path(path),
        FileOperation::Remove(_) => false,
    }
}

/// Over any sequence of insertions and removals, an insertion of a
/// registered path returns that path's identifier, and an insertion of a
/// new path returns an identifier larger than every identifier of the
/// registry at the start and than every identifier any earlier operation
/// returned, removed files' included: identifiers are never reused.
pub proof fn law_identifiers_never_reused(model: FilesModel, operations: Seq<FileOperation>)
    requires
        model.valid(),
        can_apply_operations(model, operations),
    ensures
        ({
            let (after, results) = applied_operations(model, operations);
            &&& after.valid()
            &&& results.len() == operations.len()
            &&& model.next_id <= after.next_id
            &&& forall|j: int| 0 <= j < results.len() && (#[trigger] results[j]) is Some ==> results[j]->0 < after.next_id
            &&& forall|i: int|
                0 <= i < operations.len() ==> match #[trigger] operations[i] {
                    FileOperation::Insert(path, _) => if applied_operations(model, operations.take(i)).0.has_path(path) {
                        results[i] == applied_operations(model, operations.take(i)).0.lookup(path)
                    } else {
                        results[i] == Some(applied_operations(model, operations.take(i)).0.next_id)
                    },
                    FileOperation::Remove(path) => results[i] == applied_operations(model, operations.take(i)).0.lookup(path),
                }
            &&& forall|i: int, k: int|
                0 <= i < operations.len() && 0 <= k < model.entries.len() && inserts_new_path(model, operations, i)
                    ==> #[trigger] model.entries[k].id < (#[trigger] results[i])->0
            &&& forall|i: int, j: int|
                0 <= j < i < operations.len() && inserts_new_path(model, operations, i) && (#[trigger] results[j]) is Some
                    ==> results[j]->0 < (#[trigger] results[i])->0
        }),
    decreases operations.len(),
{
    if operations.len() > 0 {
        let prefix = operations.drop_last();
        let n = prefix.len() as int;
        law_identifiers_never_reused(model, prefix);
        let (before, earlier) = applied_operations(model, prefix);
        let operation = operations.last();
        let (after, result) = applied_operation(before, operation);
        let results = earlier.push(result);
        assert(applied_operations(model, operations) == (after, results));
        assert(operations.take(n) =~= prefix);
        assert forall|i: int| 0 <= i < n implies operations.take(i) =~= prefix.take(i) && #[trigger] operations[i]
            == prefix[i] by {}
        match operation {
            FileOperation::Insert(path, content) => {
                law_insert_then_lookup(before, path, content);
                if before.has_path(path) {
                    let k = before.path_position(path);
                    assert(before.entries[k].id < before.next_id);
                }
            },
            FileOperation::Remove(path) => {
                law_remove_forgets(before, path);
                if before.has_path(path) {
                    let k = before.path_position(path);
                    assert(before.entries[k].id < before.next_id);
                }
            },
        }
        assert forall|j: int| 0 <= j < results.len() && (#[trigger] results[j]) is Some implies results[j]->0 < after.next_id by {
            if j < n {
                assert(results[j] == earlier[j]);
            }
        }
        assert forall|i: int|
            0 <= i < operations.len() implies match #[trigger] operations[i] {
                FileOperation::Insert(path, _) => if applied_operations(model, operations.take(i)).0.has_path(path) {
                    results[i] == applied_operations(model, operations.take(i)).0.lookup(path)
                } else {
                    results[i] == Some(applied_operations(model, operations.take(i)).0.next_id)
                },
                FileOperation::Remove(path) => results[i] == applied_operations(model, operations.take(i)).0.lookup(path),
            } by {
            if i < n {
                assert(results[i] == earlier[i]);
                assert(prefix[i] == operations[i]);
            }
        }
        assert forall|i: int, k: int|
            0 <= i < operations.len() && 0 <= k < model.entries.len() && inserts_new_path(model, operations, i)
                implies #[trigger] model.entries[k].id < (#[trigger] results[i])->0 by {
            if i < n {
                assert(results[i] == earlier[i]);
                assert(inserts_new_path(model, prefix, i));
            } else {
                assert(model.entries[k].id < model.next_id);
            }
        }
        assert forall|i: int, j: int|
            0 <= j < i < operations.len() && inserts_new_path(model, operations, i) && (#[trigger] results[j]) is Some
                implies results[j]->0 < (#[trigger] results[i])->0 by {
            assert(results[j] == earlier[j]);
            if i < n {
                assert(results[i] == earlier[i]);
                assert(inserts_new_path(model, prefix, i));
            }
        }
    }
}

/// Inserting a new path and then removing it again restores the set of
/// registered files, while the next identifier stays advanced.
pub proof fn law_insert_remove_restores(model: FilesModel, path: Seq<char>, content: Seq<char>)
    requires
        model.valid(),
        !model.has_path(path),
        model.next_id < u32::MAX,
    ensures
        ({
            let (inserted, id) = model.inserted(path, content);
            let (after, removed) = inserted.removed(path);
            &&& removed == Some(id)
            &&& after.entries == model.entries
            &&& after.next_id == model.next_id + 1
        }),
{
    let (inserted, id) = model.inserted(path, content);
    law_insert_then_lookup(model, path, content);
    lemma_path_position(inserted, path, model.entries.len() as int);
    assert(inserted.entries.remove(model.entries.len() as int) =~= model.entries);
}

struct FileData {
    id: u32,
    path: String,
    content: String,
}

impl FileData {
    spec fn record(self) -> FileRecord {
        FileRecord { id: self.id, path: self.path@, content: self.content@ }
    }
}

spec fn records(files: Seq<FileData>) -> Seq<FileRecord> {
    files.map_values(|data: FileData| data.record())
}

/// Finds the position of `path` among `files`, by a linear scan.
fn find_path(files: &Vec<FileData>, path: &String) -> (position: Option<usize>)
    ensures
        match position {
            Some(k) => k < files@.len() && files@[k as int].path@ == path@,
            None => forall|k: int| 0 <= k < files@.len() ==> #[trigger] files@[k].path@ != path@,
        },
{
    let mut k: usize = 0;
    while k < files.len()
        invariant
            k <= files@.len(),
            forall|j: int| 0 <= j < k ==> #[trigger] files@[j].path@ != path@,
        decreases files@.len() - k,
    {
        if files[k].path == *path {
            return Some(k);
        }
        k = k + 1;
    }
    None
}

/// Finds the position of the file with identifier `id`, by a linear scan.
fn find_id(files: &Vec<FileData>, id: u32) -> (position: Option<usize>)
    ensures
        match position {
            Some(k) => k < files@.len() && files@[k as int].id == id,
            None => forall|k: int| 0 <= k < files@.len() ==> #[trigger] files@[k].id != id,
        },
{
    let mut k: usize = 0;
    while k < files.len()
        invariant
            k <= files@.len(),
            forall|j: int| 0 <= j < k ==> #[trigger] files@[j].id != id,
        decreases files@.len() - k,
    {
        if files[k].id == id {
            return Some(k);
        }
        k = k + 1;
    }
    None
}

/// The storage shared by [`Files`] and [`ForeignFiles`]: records in
/// increasing order of identifier, and the next identifier to hand out.
///
/// The records are a list rather than a map keyed by path, so finding a
/// path is a linear search; the registry's validity keeps every path in the
/// list at most once and the identifiers strictly increasing.
struct Registry {
    files: Vec<FileData>,
    next_id: u32,
}

impl View for Registry {
    type V = FilesModel;

    closed spec fn view(&self) -> FilesModel {
        FilesModel { entries: records(self.files@), next_id: self.next_id }
    }
}

impl Registry {
    fn new() -> (registry: Registry)
        ensures
            registry@ == FilesModel::empty(),
    {
        let registry = Registry { files: Vec::new(), next_id: 0 };
        assert(registry@.entries =~= Seq::<FileRecord>::empty());
        registry
    }

    fn insert(&mut self, path: &str, content: &str) -> (id: u32)
        requires
            old(self)@.valid(),
            old(self)@.can_insert(path@),
        ensures
            (final(self)@, id) == old(self)@.inserted(path@, content@),
    {
        let path = path.to_owned();
        let content = content.to_owned();
        let ghost model = self@;
        match find_path(&self.files, &path) {
            Some(k) => {
                proof {
                    assert(records(self.files@)[k as int].path == path@);
                    lemma_path_position(model, path@, k as int);
                }
                let id = self.files[k].id;
                let existing = self.files[k].path.clone();
                self.files.set(k, FileData { id, path: existing, content });
                assert(self@.entries =~= model.entries.update(
                    k as int,
                    FileRecord { id, path: path@, content: content@ },
                ));
                id
            },
            None => {
                proof {
                    if model.has_path(path@) {
                        let j = model.path_position(path@);
                        assert(self.files@[j].path@ == path@);
                    }
                }
                let id = self.next_id;
                self.files.push(FileData { id, path, content });
                self.next_id = self.next_id + 1;
                assert(self@.entries =~= model.entries.push(
                    FileRecord { id, path: path@, content: content@ },
                ));
                id
            },
        }
    }

    fn id(&self, path: &str) -> (id: Option<u32>)
        requires
            self@.valid(),
        ensures
            id == self@.lookup(path@),
    {
        let path = path.to_owned();
        match find_path(&self.files, &path) {
            Some(k) => {
                proof {
                    assert(records(self.files@)[k as int].path == path@);
                    lemma_path_position(self@, path@, k as int);
                }
                Some(self.files[k].id)
            },
            None => {
                proof {
                    if self@.has_path(path@) {
                        let j = self@.path_position(path@);
                        assert(self.files@[j].path@ == path@);
                    }
                }
                None
            },
        }
    }

    fn contains(&self, id: u32) -> (found: bool)
        ensures
            found == self@.has_id(id),
    {
        match find_id(&self.files, id) {
            Some(k) => {
                assert(self@.entries[k as int].id == id);
                true
            },
            None => {
                proof {
                    if self@.has_id(id) {
                        let j = self@.id_position(id);
                        assert(self.files@[j].id == id);
                    }
                }
                false
            },
        }
    }

    fn position(&self, id: u32) -> (k: usize)
        requires
            self@.valid(),
            self@.has_id(id),
        ensures
            k < self.files@.len(),
            k == self@.id_position(id),
    {
        match find_id(&self.files, id) {
            Some(k) => {
                proof {
                    assert(records(self.files@)[k as int].id == id);
                    lemma_id_position(self@, id, k as int);
                }
                k
            },
            None => {
                proof {
                    let j = self@.id_position(id);
                    assert(self.files@[j].id == id);
                }
                0
            },
        }
    }

    fn path(&self, id: u32) -> (path: &str)
        requires
            self@.valid(),
            self@.has_id(id),
        ensures
            path@ == self@.path_of(id),
    {
        let k = self.position(id);
        self.files[k].path.as_str()
    }

    fn content(&self, id: u32) -> (content: &str)
        requires
            self@.valid(),
            self@.has_id(id),
        ensures
            content@ == self@.content_of(id),
    {
        let k = self.position(id);
        self.files[k].content.as_str()
    }

    fn remove(&mut self, path: &str) -> (id: Option<u32>)
        requires
            old(self)@.valid(),
        ensures
            (final(self)@, id) == old(self)@.removed(path@),
    {
        let path = path.to_owned();
        let ghost model = self@;
        match find_path(&self.files, &path) {
            Some(k) => {
                proof {
                    assert(records(self.files@)[k as int].path == path@);
                    lemma_path_position(model, path@, k as int);
                }
                let removed = self.files.remove(k);
                assert(self@.entries =~= model.entries.remove(k as int));
                Some(removed.id)
            },
            None => {
                proof {
                    if model.has_path(path@) {
                        let j = model.path_position(path@);
                        assert(self.files@[j].path@ == path@);
                    }
                }
                None
            },
        }
    }

    fn ids(&self) -> (ids: Vec<u32>)
        ensures
            ids@ == self@.ids(),
    {
        let mut ids: Vec<u32> = Vec::new();
        let mut k: usize = 0;
        while k < self.files.len()
            invariant
                k <= self.files@.len(),
                ids@ =~= self@.ids().take(k as int),
            decreases self.files@.len() - k,
        {
            ids.push(self.files[k].id);
            k = k + 1;
            assert(ids@ =~= self@.ids().take(k as int));
        }
        assert(self@.ids().take(k as int) =~= self@.ids());
        ids
    }

    fn len(&self) -> (count: usize)
        ensures
            count == self@.entries.len(),
    {
        self.files.len()
    }
}


/// The registry of PureScript source files: each path is registered under a
/// [`FileId`] together with its current content.
pub struct Files {
    registry: Registry,
}

impl View for Files {
    type V = FilesModel;

    closed spec fn view(&self) -> FilesModel {
        self.registry@
    }
}

impl Default for Files {
    fn default() -> (files: Files)
        ensures
            files@ == FilesModel::empty(),
    {
        Files { registry: Registry::new() }
    }
}

impl Files {
    /// Registers `content` under `path`. A path that is already registered
    /// keeps its identifier and has its content replaced; a new path receives
    /// a fresh identifier.
    pub fn insert(&mut self, path: &str, content: &str) -> (file_id: FileId)
        requires
            old(self)@.valid(),
            old(self)@.can_insert(path@),
        ensures
            (final(self)@, file_id@) == old(self)@.inserted(path@, content@),
    {
        let index = self.registry.insert(path, content);
        FileId { index }
    }

    pub fn id(&self, path: &str) -> (file_id: Option<FileId>)
        requires
            self@.valid(),
        ensures
            match file_id {
                Some(file_id) => self@.lookup(path@) == Some(file_id@),
                None => self@.lookup(path@) is None,
            },
    {
        match self.registry.id(path) {
            Some(index) => Some(FileId { index }),
            None => None,
        }
    }

    pub fn contains(&self, file_id: FileId) -> (found: bool)
        ensures
            found == self@.has_id(file_id@),
    {
        self.registry.contains(file_id.index)
    }

    pub fn path(&self, file_id: FileId) -> (path: &str)
        requires
            self@.valid(),
            self@.has_id(file_id@),
        ensures
            path@ == self@.path_of(file_id@),
    {
        self.registry.path(file_id.index)
    }

    pub fn content(&self, file_id: FileId) -> (content: &str)
        requires
            self@.valid(),
            self@.has_id(file_id@),
        ensures
            content@ == self@.content_of(file_id@),
    {
        self.registry.content(file_id.index)
    }

    /// Forgets the file registered under `path` and returns its identifier.
    pub fn remove(&mut self, path: &str) -> (file_id: Option<FileId>)
        requires
            old(self)@.valid(),
        ensures
            final(self)@ == old(self)@.removed(path@).0,
            match file_id {
                Some(file_id) => old(self)@.removed(path@).1 == Some(file_id@),
                None => old(self)@.removed(path@).1 is None,
            },
    {
        match self.registry.remove(path) {
            Some(index) => Some(FileId { index }),
            None => None,
        }
    }

    /// The identifiers of all registered files, in increasing order.
    pub fn iter_id(&self) -> (file_ids: Vec<FileId>)
        ensures
            file_ids@.len() == self@.ids().len(),
            forall|k: int| 0 <= k < file_ids@.len() ==> #[trigger] file_ids@[k]@ == self@.ids()[k],
    {
        let ids = self.registry.ids();
        let mut file_ids: Vec<FileId> = Vec::new();
        let mut k: usize = 0;
        while k < ids.len()
            invariant
                k <= ids@.len(),
                ids@ == self@.ids(),
                file_ids@.len() == k,
                forall|j: int| 0 <= j < k ==> #[trigger] file_ids@[j]@ == ids@[j],
            decreases ids@.len() - k,
        {
            file_ids.push(FileId { index: ids[k] });
            k = k + 1;
        }
        file_ids
    }

    /// The number of registered files.
    pub fn len(&self) -> (count: usize)
        ensures
            count == self@.entries.len(),
    {
        self.registry.len()
    }
}

/// The registry of foreign JavaScript files that accompany PureScript
/// modules; it behaves like [`Files`] with its own identifiers.
pub struct ForeignFiles {
    registry: Registry,
}

impl View for ForeignFiles {
    type V = FilesModel;

    closed spec fn view(&self) -> FilesModel {
        self.registry@
    }
}

impl Default for ForeignFiles {
    fn default() -> (files: ForeignFiles)
        ensures
            files@ == FilesModel::empty(),
    {
        ForeignFiles { registry: Registry::new() }
    }
}

impl ForeignFiles {
    /// Registers `content` under `path`, as [`Files::insert`] does.
    pub fn insert(&mut self, path: &str, content: &str) -> (foreign_file_id: ForeignFileId)
        requires
            old(self)@.valid(),
            old(self)@.can_insert(path@),
        ensures
            (final(self)@, foreign_file_id@) == old(self)@.inserted(path@, content@),
    {
        let index = self.registry.insert(path, content);
        ForeignFileId { index }
    }

    pub fn id(&self, path: &str) -> (foreign_file_id: Option<ForeignFileId>)
        requires
            self@.valid(),
        ensures
            match foreign_file_id {
                Some(foreign_file_id) => self@.lookup(path@) == Some(foreign_file_id@),
                None => self@.lookup(path@) is None,
            },
    {
        match self.registry.id(path) {
            Some(index) => Some(ForeignFileId { index }),
            None => None,
        }
    }

    pub fn contains(&self, foreign_file_id: ForeignFileId) -> (found: bool)
        ensures
            found == self@.has_id(foreign_file_id@),
    {
        self.registry.contains(foreign_file_id.index)
    }

    pub fn path(&self, foreign_file_id: ForeignFileId) -> (path: &str)
        requires
            self@.valid(),
            self@.has_id(foreign_file_id@),
        ensures
            path@ == self@.path_of(foreign_file_id@),
    {
        self.registry.path(foreign_file_id.index)
    }

    pub fn content(&self, foreign_file_id: ForeignFileId) -> (content: &str)
        requires
            self@.valid(),
            self@.has_id(foreign_file_id@),
        ensures
            content@ == self@.content_of(foreign_file_id@),
    {
        self.registry.content(foreign_file_id.index)
    }

    /// Forgets the foreign file registered under `path` and returns its identifier.
    pub fn remove(&mut self, path: &str) -> (foreign_file_id: Option<ForeignFileId>)
        requires
            old(self)@.valid(),
        ensures
            final(self)@ == old(self)@.removed(path@).0,
            match foreign_file_id {
                Some(foreign_file_id) => old(self)@.removed(path@).1 == Some(foreign_file_id@),
                None => old(self)@.removed(path@).1 is None,
            },
    {
        match self.registry.remove(path) {
            Some(index) => Some(ForeignFileId { index }),
            None => None,
        }
    }

    /// The number of registered foreign files.
    pub fn len(&self) -> (count: usize)
        ensures
            count == self@.entries.len(),
    {
        self.registry.len()
    }
}

} // verus!

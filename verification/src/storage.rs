//! Path resolution from type-level names, and a store with verified
//! `save`/`load` composition.
//!
//! The storage location of a type is `base/dir/file`, where `base` is the
//! current user's home directory and `dir` and `file` are type-level
//! constants. [`MemStore`] is the explicit seam standing for the
//! filesystem: a map from paths to file texts plus a set of existing
//! directories. [`save_value`] and [`load_value`] carry the whole
//! persistence contract; the `Storable` trait composes the same steps for
//! any type that opts in to the two capabilities.

use vstd::prelude::*;

verus! {

use vstd::string::*;
use crate::json::{Value, SpecVal, enc, spec_decode, encode, decode, push_char};

/// Failure to resolve the storage directory: there is no base directory to
/// put it under. Opaque, per the persistence contract.
#[derive(Clone, Copy, Debug, PartialEq, Eq)]
pub struct CreateDirError;

/// Failure of a save.
#[derive(Debug)]
pub enum SaveError {
    /// The storage location could not be resolved.
    PathResolution,
    /// The encoded text could not be written at the path.
    Write { path: String },
}

/// Failure of a load.
#[derive(Debug)]
pub enum LoadError {
    /// The storage location could not be resolved.
    PathResolution,
    /// No file exists at the path.
    Read { path: String },
    /// The file's text is not the compact JSON form of a value.
    Parse,
}

/// The path of the storage directory for a directory name under a base.
pub open spec fn spec_dir_path(base: Seq<char>, dir: Seq<char>) -> Seq<char> {
    base + seq!['/'] + dir
}

/// The path of the storage file: the storage directory with the file name
/// appended.
pub open spec fn spec_file_path(base: Seq<char>, dir: Seq<char>, file: Seq<char>) -> Seq<char> {
    spec_dir_path(base, dir) + seq!['/'] + file
}

/// Builds the storage directory path `base/dir`.
pub fn dir_path(base: &str, dir: &str) -> (p: String)
    ensures
        p@ == spec_dir_path(base@, dir@),
{
    let mut p = String::new();
    p.append(base);
    push_char(&mut p, '/');
    p.append(dir);
    proof {
        assert(p@ =~= spec_dir_path(base@, dir@));
    }
    p
}

/// Builds the storage file path `base/dir/file`.
pub fn file_path(base: &str, dir: &str, file: &str) -> (p: String)
    ensures
        p@ == spec_file_path(base@, dir@, file@),
{
    let mut p = dir_path(base, dir);
    push_char(&mut p, '/');
    p.append(file);
    proof {
        assert(p@ =~= spec_file_path(base@, dir@, file@));
    }
    p
}

/// Resolves the storage file path from an optional base directory: fails
/// exactly when there is no base directory to resolve under, and no
/// fallback is attempted.
pub fn resolve_storage_file(base: Option<String>, dir: &str, file: &str) -> (r: Result<
    String,
    CreateDirError,
>)
    ensures
        match r {
            Ok(p) => base matches Some(b) && p@ == spec_file_path(b@, dir@, file@),
            Err(_) => base is None,
        },
{
    match base {
        Some(b) => Ok(file_path(b.as_str(), dir, file)),
        None => Err(CreateDirError),
    }
}

/// Whether two string slices hold the same characters.
#[verifier::loop_isolation(false)]
fn str_eq(a: &str, b: &str) -> (r: bool)
    ensures
        r == (a@ == b@),
{
    let n = a.unicode_len();
    if n != b.unicode_len() {
        return false;
    }
    let mut i: usize = 0;
    while i < n
        invariant
            0 <= i <= n,
            forall|k: int| 0 <= k < i ==> a@[k] == b@[k],
        decreases n - i,
    {
        if a.get_char(i) != b.get_char(i) {
            return false;
        }
        i = i + 1;
    }
    proof {
        assert(a@ =~= b@);
    }
    true
}

/// The file contents described by a run of write entries: later entries
/// win.
spec fn files_map_of(entries: Seq<(String, String)>) -> Map<Seq<char>, Seq<char>>
    decreases entries.len(),
{
    if entries.len() == 0 {
        Map::empty()
    } else {
        files_map_of(entries.drop_last()).insert(entries.last().0@, entries.last().1@)
    }
}

/// The set of directory paths in a run of creation entries.
spec fn dirs_set_of(ds: Seq<String>) -> Set<Seq<char>>
    decreases ds.len(),
{
    if ds.len() == 0 {
        Set::empty()
    } else {
        dirs_set_of(ds.drop_last()).insert(ds.last()@)
    }
}

/// An in-memory store standing for the filesystem: file texts by path, and
/// the set of directories that exist. It is the seam through which the
/// persister is verified and tested; the thin shell around the library
/// performs the same operations on the real filesystem.
pub struct MemStore {
    files: Vec<(String, String)>,
    dirs: Vec<String>,
}

impl MemStore {
    /// The file contents by path.
    pub closed spec fn file_map(self) -> Map<Seq<char>, Seq<char>> {
        files_map_of(self.files@)
    }

    /// The directories that exist.
    pub closed spec fn dir_set(self) -> Set<Seq<char>> {
        dirs_set_of(self.dirs@)
    }

    /// An empty store: no files, no directories.
    pub fn new() -> (s: Self)
        ensures
            s.file_map() == Map::<Seq<char>, Seq<char>>::empty(),
            s.dir_set() == Set::<Seq<char>>::empty(),
    {
        MemStore { files: Vec::new(), dirs: Vec::new() }
    }

    /// Whether the directory at `p` exists.
    #[verifier::loop_isolation(false)]
    pub fn has_dir(&self, p: &str) -> (r: bool)
        ensures
            r == self.dir_set().contains(p@),
    {
        let n = self.dirs.len();
        proof {
            assert(self.dirs@.take(n as int) =~= self.dirs@);
        }
        let mut k = n;
        while k > 0
            invariant
                0 <= k <= n,
                self.dir_set().contains(p@) == dirs_set_of(self.dirs@.take(k as int)).contains(
                    p@,
                ),
            decreases k,
        {
            k = k - 1;
            proof {
                assert(self.dirs@.take(k + 1).drop_last() =~= self.dirs@.take(k as int));
                assert(self.dirs@.take(k + 1).last() == self.dirs@[k as int]);
            }
            if str_eq(self.dirs[k].as_str(), p) {
                return true;
            }
        }
        proof {
            assert(self.dirs@.take(0) =~= Seq::<String>::empty());
        }
        false
    }

    /// Creates the directory at `p` if it is absent. A call on an existing
    /// directory changes nothing: directory creation is idempotent.
    pub fn create_dir(&mut self, p: &str)
        ensures
            final(self).dir_set() == old(self).dir_set().insert(p@),
            final(self).file_map() == old(self).file_map(),
            old(self).dir_set().contains(p@) ==> *final(self) == *old(self),
    {
        if self.has_dir(p) {
            proof {
                assert(self.dir_set().insert(p@) =~= self.dir_set());
            }
            return;
        }
        let ghost before = self.dirs@;
        self.dirs.push(p.to_owned());
        proof {
            assert(self.dirs@.drop_last() =~= before);
            assert(self.dirs@.last()@ == p@);
        }
    }

    /// Writes `text` at path `p`, creating the file or overwriting what was
    /// there.
    pub fn write_file(&mut self, p: &str, text: String)
        ensures
            final(self).file_map() == old(self).file_map().insert(p@, text@),
            final(self).dir_set() == old(self).dir_set(),
    {
        let ghost before = self.files@;
        let ghost textv = text@;
        self.files.push((p.to_owned(), text));
        proof {
            assert(self.files@.drop_last() =~= before);
            assert(self.files@.last().0@ == p@);
            assert(self.files@.last().1@ == textv);
        }
    }

    /// The text of the file at path `p`, if one exists.
    #[verifier::loop_isolation(false)]
    pub fn read_file(&self, p: &str) -> (r: Option<String>)
        ensures
            match r {
                Some(t) => self.file_map().contains_key(p@) && self.file_map()[p@] == t@,
                None => !self.file_map().contains_key(p@),
            },
    {
        let n = self.files.len();
        proof {
            assert(self.files@.take(n as int) =~= self.files@);
        }
        let mut k = n;
        while k > 0
            invariant
                0 <= k <= n,
                self.file_map().contains_key(p@) == files_map_of(
                    self.files@.take(k as int),
                ).contains_key(p@),
                self.file_map().contains_key(p@) ==> self.file_map()[p@] == files_map_of(
                    self.files@.take(k as int),
                )[p@],
            decreases k,
        {
            k = k - 1;
            proof {
                assert(self.files@.take(k + 1).drop_last() =~= self.files@.take(k as int));
                assert(self.files@.take(k + 1).last() == self.files@[k as int]);
            }
            if str_eq(self.files[k].0.as_str(), p) {
                return Some(self.files[k].1.clone());
            }
        }
        proof {
            assert(self.files@.take(0) =~= Seq::<(String, String)>::empty());
        }
        None
    }
}

/// Saves `v` in `store` at the path derived from `base`, `dir` and `file`:
/// the storage directory is created if absent, and the file is overwritten
/// with the compact JSON text of `v`. Nothing else in the store changes,
/// and the save always succeeds.
pub fn save_value(store: &mut MemStore, base: &str, dir: &str, file: &str, v: &Value) -> (r:
    Result<(), SaveError>)
    ensures
        r is Ok,
        final(store).dir_set() == old(store).dir_set().insert(spec_dir_path(base@, dir@)),
        final(store).file_map() == old(store).file_map().insert(
            spec_file_path(base@, dir@, file@),
            enc(v.model()),
        ),
{
    let d = dir_path(base, dir);
    store.create_dir(d.as_str());
    let p = file_path(base, dir, file);
    let text = encode(v);
    store.write_file(p.as_str(), text);
    Ok(())
}

/// Loads the value stored at the path derived from `base`, `dir` and
/// `file`. As on a save, the storage directory is created if absent; the
/// files are unchanged. Fails with `Read` exactly when no file exists at
/// the path, and with `Parse` exactly when the file's text is not the
/// compact JSON form of a value.
pub fn load_value(store: &mut MemStore, base: &str, dir: &str, file: &str) -> (r: Result<
    Value,
    LoadError,
>)
    ensures
        final(store).file_map() == old(store).file_map(),
        final(store).dir_set() == old(store).dir_set().insert(spec_dir_path(base@, dir@)),
        match r {
            Ok(v) => old(store).file_map().contains_key(spec_file_path(base@, dir@, file@))
                && spec_decode(old(store).file_map()[spec_file_path(base@, dir@, file@)])
                == Some(v.model()),
            Err(LoadError::Read { path }) => !old(store).file_map().contains_key(
                spec_file_path(base@, dir@, file@),
            ) && path@ == spec_file_path(base@, dir@, file@),
            Err(LoadError::Parse) => old(store).file_map().contains_key(
                spec_file_path(base@, dir@, file@),
            ) && spec_decode(old(store).file_map()[spec_file_path(base@, dir@, file@)]) is None,
            Err(LoadError::PathResolution) => false,
        },
{
    let d = dir_path(base, dir);
    store.create_dir(d.as_str());
    let p = file_path(base, dir, file);
    match store.read_file(p.as_str()) {
        Some(text) => match decode(text.as_str()) {
            Ok(v) => Ok(v),
            Err(_) => Err(LoadError::Parse),
        },
        None => Err(LoadError::Read { path: p }),
    }
}

/// Saving then loading under the same naming yields the saved value: after
/// a save puts `enc(sv)` at `path`, the file is there and decodes to `sv`.
pub proof fn lemma_save_load(files: Map<Seq<char>, Seq<char>>, path: Seq<char>, sv: SpecVal)
    ensures
        files.insert(path, enc(sv)).contains_key(path),
        spec_decode(files.insert(path, enc(sv))[path]) == Some(sv),
{
    crate::json::lemma_decode_encode(sv);
}

/// Creating a directory is idempotent: a second creation under the same
/// path adds nothing, and the directory exists after the first.
pub proof fn lemma_create_dir_idempotent(dirs: Set<Seq<char>>, p: Seq<char>)
    ensures
        dirs.insert(p).insert(p) == dirs.insert(p),
        dirs.insert(p).contains(p),
{
    assert(dirs.insert(p).insert(p) =~= dirs.insert(p));
}

/// Relies on `dirs::home_dir`: the current user's home directory, if the
/// platform reports one. The result depends on the environment, so nothing
/// more is promised of it.
#[verifier::external_body]
fn home_dir_string() -> (r: Option<String>)
{
    dirs::home_dir().and_then(|p| p.into_os_string().into_string().ok())
}

/// Capability: type-level naming of the storage location.
///
/// A storable type supplies its directory and file names; the resolved
/// path is a pure function of those names and the base directory, so it is
/// the same on every call.
pub trait StoragePath {
    /// The name of the storage file.
    fn storage_file_name() -> &'static str;

    /// The name of the storage directory.
    fn storage_dir_name() -> &'static str;

    /// The base directory: the current user's home directory, if the
    /// platform reports one.
    fn base_dir_path() -> Option<String> {
        home_dir_string()
    }

    /// Gets or creates the storage directory in `store` under the resolved
    /// base directory; fails when there is no base directory.
    fn get_or_create_storage_path(store: &mut MemStore) -> Result<String, CreateDirError> {
        match Self::base_dir_path() {
            Some(b) => {
                let d = dir_path(b.as_str(), Self::storage_dir_name());
                store.create_dir(d.as_str());
                Ok(d)
            }
            None => Err(CreateDirError),
        }
    }

    /// Gets or creates the storage directory, then appends the file name.
    /// The file itself is not checked or created.
    fn get_or_create_storage_file_path(store: &mut MemStore) -> Result<String, CreateDirError> {
        match Self::get_or_create_storage_path(store) {
            Ok(d) => {
                let mut p = d;
                push_char(&mut p, '/');
                p.append(Self::storage_file_name());
                Ok(p)
            }
            Err(e) => Err(e),
        }
    }
}

/// Capability: load and save through a store, composed from the
/// [`crate::json::Jsonable`] and [`StoragePath`] capabilities alone.
pub trait Storable: crate::json::Jsonable + StoragePath {
    /// Loads the value from the storage file in `store`.
    fn load(store: &mut MemStore) -> Result<Self, LoadError> {
        match Self::get_or_create_storage_file_path(store) {
            Ok(p) => match store.read_file(p.as_str()) {
                Some(text) => match Self::from_json(text.as_str()) {
                    Ok(x) => Ok(x),
                    Err(_) => Err(LoadError::Parse),
                },
                None => Err(LoadError::Read { path: p }),
            },
            Err(_) => Err(LoadError::PathResolution),
        }
    }

    /// Saves the value to the storage file in `store`, overwriting
    /// whatever was there.
    fn save(&self, store: &mut MemStore) -> Result<(), SaveError> {
        match Self::get_or_create_storage_file_path(store) {
            Ok(p) => {
                store.write_file(p.as_str(), self.to_json());
                Ok(())
            }
            Err(_) => Err(SaveError::PathResolution),
        }
    }
}

} // verus!

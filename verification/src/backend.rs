//! The backend capability surface: a uniform contract over dissimilar
//! content sources.  A backend is selected from a path's shape (an existing
//! directory, or a file ending in `.zip`), and opened backends are cached by
//! source path so repeated operations reuse the open instance.

use vstd::prelude::*;
use vstd::string::StrSliceExecFns;

use crate::types::{file_models, spec_lookup, DropletError, VersionFile, VersionFileModel};
use crate::zip::{spec_list, ZipVersionBackend};

verus! {

/// The path names a zip archive: it ends in `.zip`.
pub open spec fn is_zip_name(path: Seq<char>) -> bool {
    path.len() >= 4 && path.subrange(path.len() - 4, path.len() as int) == ".zip"@
}

/// A path of the given shape has a backend: it exists, and is either a
/// directory or a zip archive by name.
pub open spec fn spec_has_backend(exists: bool, is_dir: bool, path: Seq<char>) -> bool {
    exists && (is_dir || is_zip_name(path))
}

fn ends_with_zip(path: &str) -> (r: bool)
    ensures
        r == is_zip_name(path@),
{
    let n = path.unicode_len();
    if n < 4 {
        return false;
    }
    proof {
        reveal_strlit(".zip");
    }
    let c0 = path.get_char(n - 4);
    let c1 = path.get_char(n - 3);
    let c2 = path.get_char(n - 2);
    let c3 = path.get_char(n - 1);
    let r = c0 == '.' && c1 == 'z' && c2 == 'i' && c3 == 'p';
    proof {
        let sub = path@.subrange(path@.len() - 4, path@.len() as int);
        assert(sub.len() == 4);
        assert(sub[0] == c0 && sub[1] == c1 && sub[2] == c2 && sub[3] == c3);
        if r {
            assert(sub =~= ".zip"@);
        } else {
            assert(sub != ".zip"@);
        }
    }
    r
}

/// Which backend a path of the given shape gets.
#[derive(Clone, Copy, Debug, PartialEq, Eq, Structural)]
pub enum BackendKind {
    Path,
    Zip,
}

/// Decides the backend for a path from its observed shape: `exists` and
/// `is_dir` report what the filesystem says of the path.  Directories get
/// the filesystem backend; existing `.zip` files get the zip backend; any
/// other path has none.
pub fn backend_kind_for_path(exists: bool, is_dir: bool, path: &str) -> (r: Option<BackendKind>)
    ensures
        match r {
            Some(BackendKind::Path) => exists && is_dir,
            Some(BackendKind::Zip) => exists && !is_dir && is_zip_name(path@),
            None => !spec_has_backend(exists, is_dir, path@),
        },
{
    if !exists {
        return None;
    }
    if is_dir {
        return Some(BackendKind::Path);
    }
    if ends_with_zip(path) {
        return Some(BackendKind::Zip);
    }
    None
}

/// Whether some backend recognizes a path of the given shape.
pub fn has_backend_for_path(exists: bool, is_dir: bool, path: &str) -> (r: bool)
    ensures
        r == spec_has_backend(exists, is_dir, path@),
{
    backend_kind_for_path(exists, is_dir, path).is_some()
}

/// Rebuilds a file record field by field, so that callers know the copy
/// carries the same view.
pub fn clone_file(f: &VersionFile) -> (r: VersionFile)
    ensures
        r@ == f@,
{
    VersionFile {
        relative_filename: f.relative_filename.clone(),
        permission: f.permission,
        size: f.size,
    }
}

/// The filesystem backend: the source root and the listing that the
/// enclosing application gathered by walking it.  Reads against this
/// backend go straight to the filesystem and stay with the application;
/// everything the packer needs is the listing held here.
pub struct PathVersionBackend {
    pub base_dir: String,
    pub files: Vec<VersionFile>,
}

impl View for PathVersionBackend {
    type V = Seq<VersionFileModel>;

    open spec fn view(&self) -> Seq<VersionFileModel> {
        file_models(self.files@)
    }
}

impl PathVersionBackend {
    /// Wraps a walked listing: the files of `base_dir`, each with its path
    /// relative to it, its permission bits, and its size.
    pub fn new(base_dir: String, files: Vec<VersionFile>) -> (r: Self)
        ensures
            r@ == file_models(files@),
            r.base_dir == base_dir,
    {
        PathVersionBackend { base_dir, files }
    }

    /// The listing, as the backend reports it.
    pub fn list_files(&self) -> (r: Vec<VersionFile>)
        ensures
            file_models(r@) == self@,
    {
        let n = self.files.len();
        let mut r: Vec<VersionFile> = Vec::new();
        let mut i: usize = 0;
        while i < n
            invariant
                n == self.files@.len(),
                i <= n,
                file_models(r@) == self@.take(i as int),
            decreases n - i,
        {
            let ghost pre = r@;
            r.push(clone_file(&self.files[i]));
            proof {
                assert(file_models(r@) =~= file_models(pre).push(self.files@[i as int]@));
                assert(file_models(r@) =~= self@.take(i + 1 as int));
            }
            i = i + 1;
        }
        proof {
            assert(self@.take(n as int) =~= self@);
        }
        r
    }

    /// Resolves one file of the listing by its exact relative path.  Fails
    /// with `NotFound` exactly when the listing holds no such file.
    pub fn peek_file(&self, sub_path: &String) -> (r: Result<VersionFile, DropletError>)
        ensures
            match r {
                Ok(f) => spec_lookup(self@, sub_path@) == Some(f@),
                Err(err) => spec_lookup(self@, sub_path@) is None && err == DropletError::NotFound,
            },
    {
        let n = self.files.len();
        let mut i: usize = 0;
        proof {
            assert(self@.skip(0) =~= self@);
        }
        while i < n
            invariant
                n == self.files@.len(),
                i <= n,
                self@.len() == n,
                spec_lookup(self@, sub_path@) == spec_lookup(self@.skip(i as int), sub_path@),
            decreases n - i,
        {
            let f = &self.files[i];
            proof {
                let tail = self@.skip(i as int);
                assert(tail.len() > 0);
                assert(tail.first() == self@[i as int]);
                assert(tail.drop_first() =~= self@.skip(i + 1 as int));
            }
            if f.relative_filename == *sub_path {
                return Ok(clone_file(f));
            }
            i = i + 1;
        }
        proof {
            assert(self@.skip(n as int) =~= Seq::<VersionFileModel>::empty());
        }
        Err(DropletError::NotFound)
    }

    /// The filesystem serves any byte range directly; files need not be
    /// kept whole.
    pub fn require_whole_files(&self) -> (r: bool)
        ensures
            r == false,
    {
        false
    }
}

/// A content source: one of the concrete backends, behind the shared
/// capability contract.
pub enum VersionBackend {
    Path(PathVersionBackend),
    Zip(ZipVersionBackend),
}

impl VersionBackend {
    /// The files this backend serves, in listing order.
    pub open spec fn spec_files(&self) -> Seq<VersionFileModel> {
        match self {
            VersionBackend::Path(p) => p@,
            VersionBackend::Zip(z) => spec_list(z@.entries),
        }
    }

    /// Every file reachable from the source root, in a stable order.
    pub fn list_files(&self) -> (r: Vec<VersionFile>)
        ensures
            file_models(r@) == self.spec_files(),
    {
        match self {
            VersionBackend::Path(p) => p.list_files(),
            VersionBackend::Zip(z) => z.list_files(),
        }
    }

    /// Resolves one file by its exact relative path without enumerating the
    /// whole source.  Fails with `NotFound` exactly when the source has no
    /// such file.
    pub fn peek_file(&self, sub_path: &String) -> (r: Result<VersionFile, DropletError>)
        ensures
            match r {
                Ok(f) => spec_lookup(self.spec_files(), sub_path@) == Some(f@),
                Err(err) => spec_lookup(self.spec_files(), sub_path@) is None && err
                    == DropletError::NotFound,
            },
    {
        match self {
            VersionBackend::Path(p) => p.peek_file(sub_path),
            VersionBackend::Zip(z) => z.peek_file(sub_path),
        }
    }

    /// Whether the packer must treat this source's files as atomic.
    pub fn require_whole_files(&self) -> (r: bool)
        ensures
            r == (self is Zip),
    {
        match self {
            VersionBackend::Path(p) => p.require_whole_files(),
            VersionBackend::Zip(z) => z.require_whole_files(),
        }
    }
}

/// The backend cache: one open backend per source path, kept for the life
/// of the session so repeated operations against the same source reuse the
/// open instance.
pub struct DropletHandler {
    backends: Vec<(String, VersionBackend)>,
}

/// The backend cached under `path`, if any.
pub open spec fn spec_cached(cache: Seq<(String, VersionBackend)>, path: Seq<char>) -> Option<
    VersionBackend,
>
    decreases cache.len(),
{
    if cache.len() == 0 {
        None
    } else if cache.first().0@ == path {
        Some(cache.first().1)
    } else {
        spec_cached(cache.drop_first(), path)
    }
}

impl DropletHandler {
    pub closed spec fn spec_cache(&self) -> Seq<(String, VersionBackend)> {
        self.backends@
    }

    /// An empty cache.
    pub fn new() -> (r: Self)
        ensures
            r.spec_cache() == Seq::<(String, VersionBackend)>::empty(),
    {
        DropletHandler { backends: Vec::new() }
    }

    /// Caches a freshly opened backend under its source path.
    pub fn insert_backend(&mut self, path: String, backend: VersionBackend)
        ensures
            final(self).spec_cache() == old(self).spec_cache().push((path, backend)),
    {
        self.backends.push((path, backend));
    }

    /// Whether a backend is already cached for the path.
    pub fn has_cached(&self, path: &String) -> (r: bool)
        ensures
            r == (spec_cached(self.spec_cache(), path@) is Some),
    {
        let n = self.backends.len();
        let mut i: usize = 0;
        proof {
            assert(self.spec_cache().skip(0) =~= self.spec_cache());
        }
        while i < n
            invariant
                n == self.backends@.len(),
                i <= n,
                spec_cached(self.spec_cache(), path@) == spec_cached(
                    self.spec_cache().skip(i as int),
                    path@,
                ),
            decreases n - i,
        {
            proof {
                let tail = self.spec_cache().skip(i as int);
                assert(tail.len() > 0);
                assert(tail.first() == self.spec_cache()[i as int]);
                assert(tail.drop_first() =~= self.spec_cache().skip(i + 1 as int));
            }
            if self.backends[i].0 == *path {
                return true;
            }
            i = i + 1;
        }
        proof {
            assert(self.spec_cache().skip(n as int) =~= Seq::<(String, VersionBackend)>::empty());
        }
        false
    }

    /// Lists the files of the source cached under `path`, by relative
    /// filename.  Fails with `BackendUnavailable` exactly when no backend
    /// is cached for the path.
    pub fn list_files(&self, path: &String) -> (r: Result<Vec<String>, DropletError>)
        ensures
            match r {
                Ok(names) => spec_cached(self.spec_cache(), path@) matches Some(b)
                    && names@.map_values(|s: String| s@) == b.spec_files().map_values(
                    |f: VersionFileModel| f.name,
                ),
                Err(err) => spec_cached(self.spec_cache(), path@) is None && err
                    == DropletError::BackendUnavailable,
            },
    {
        match self.find_backend(path) {
            None => Err(DropletError::BackendUnavailable),
            Some(b) => {
                let files = b.list_files();
                let mut names: Vec<String> = Vec::new();
                let n = files.len();
                let mut i: usize = 0;
                while i < n
                    invariant
                        n == files@.len(),
                        i <= n,
                        names@.map_values(|s: String| s@) == file_models(files@).map_values(
                            |f: VersionFileModel| f.name,
                        ).take(i as int),
                    decreases n - i,
                {
                    let ghost pre = names@;
                    names.push(files[i].relative_filename.clone());
                    proof {
                        assert(names@.map_values(|s: String| s@) =~= pre.map_values(
                            |s: String| s@,
                        ).push(files@[i as int].relative_filename@));
                        assert(names@.map_values(|s: String| s@) =~= file_models(
                            files@,
                        ).map_values(|f: VersionFileModel| f.name).take(i + 1 as int));
                    }
                    i = i + 1;
                }
                proof {
                    let all = file_models(files@).map_values(|f: VersionFileModel| f.name);
                    assert(all.take(n as int) =~= all);
                }
                Ok(names)
            },
        }
    }

    /// The size of one file of the source cached under `path`.  Fails with
    /// `BackendUnavailable` when no backend is cached for the path, and
    /// with `NotFound` when the source has no such file.
    pub fn peek_file(&self, path: &String, sub_path: &String) -> (r: Result<u64, DropletError>)
        ensures
            match r {
                Ok(size) => spec_cached(self.spec_cache(), path@) matches Some(b) && spec_lookup(
                    b.spec_files(),
                    sub_path@,
                ) matches Some(f) && size == f.size,
                Err(DropletError::BackendUnavailable) => spec_cached(
                    self.spec_cache(),
                    path@,
                ) is None,
                Err(DropletError::NotFound) => spec_cached(self.spec_cache(), path@) matches Some(
                    b,
                ) && spec_lookup(b.spec_files(), sub_path@) is None,
                Err(_) => false,
            },
    {
        match self.find_backend(path) {
            None => Err(DropletError::BackendUnavailable),
            Some(b) => match b.peek_file(sub_path) {
                Ok(f) => Ok(f.size),
                Err(err) => Err(err),
            },
        }
    }

    /// The backend cached under `path`, if any.
    pub fn find_backend(&self, path: &String) -> (r: Option<&VersionBackend>)
        ensures
            match r {
                Some(b) => spec_cached(self.spec_cache(), path@) == Some(*b),
                None => spec_cached(self.spec_cache(), path@) is None,
            },
    {
        let n = self.backends.len();
        let mut i: usize = 0;
        proof {
            assert(self.spec_cache().skip(0) =~= self.spec_cache());
        }
        while i < n
            invariant
                n == self.backends@.len(),
                i <= n,
                spec_cached(self.spec_cache(), path@) == spec_cached(
                    self.spec_cache().skip(i as int),
                    path@,
                ),
            decreases n - i,
        {
            proof {
                let tail = self.spec_cache().skip(i as int);
                assert(tail.len() > 0);
                assert(tail.first() == self.spec_cache()[i as int]);
                assert(tail.drop_first() =~= self.spec_cache().skip(i + 1 as int));
            }
            if self.backends[i].0 == *path {
                return Some(&self.backends[i].1);
            }
            i = i + 1;
        }
        proof {
            assert(self.spec_cache().skip(n as int) =~= Seq::<(String, VersionBackend)>::empty());
        }
        None
    }
}

} // verus!

//! A model filesystem: the state an install run reads and writes, held as
//! plain data. Paths are strings with `/` as separator; a file maps a path
//! to its bytes, and a directory is a recorded path.
//!
//! The install pipeline is verified against this model; the unverified
//! front end performs the same steps against the real filesystem.
use vstd::prelude::*;

use crate::error::InstallError;
use crate::paths::str_eq;

verus! {

/// The path separator of the model.
pub open spec fn is_sep(c: char) -> bool {
    c == '/'
}

/// Whether `q` lies strictly inside the tree rooted at `p`.
pub open spec fn under(q: Seq<char>, p: Seq<char>) -> bool {
    q.len() > p.len() && q.subrange(0, p.len() as int) == p && is_sep(q[p.len() as int])
}

/// Whether `q` is `p` itself or lies inside the tree rooted at `p`.
pub open spec fn under_or_eq(q: Seq<char>, p: Seq<char>) -> bool {
    q == p || under(q, p)
}

/// Whether `q` is a proper prefix of `p` ending just before a separator:
/// one of the ancestor directories that creating `p` brings into being.
pub open spec fn prefix_dir_of(q: Seq<char>, p: Seq<char>) -> bool {
    q.len() < p.len() && q == p.subrange(0, q.len() as int) && is_sep(p[q.len() as int])
}

/// The path of `q` relative to the tree root `p`.
pub open spec fn rel_of(q: Seq<char>, p: Seq<char>) -> Seq<char> {
    q.skip(p.len() as int + 1)
}

/// `root` with `rel` appended below it.
pub open spec fn joined(root: Seq<char>, rel: Seq<char>) -> Seq<char> {
    root + seq!['/'] + rel
}

/// How removing the tree rooted at `p` changes the filesystem: everything
/// at or below `p` is gone, everything else is untouched.
pub open spec fn remove_rel(p: Seq<char>, pre: FsModel, post: FsModel) -> bool {
    &&& forall|q: Seq<char>|
        post.file_at(q) == if under_or_eq(q, p) {
            None::<Seq<u8>>
        } else {
            pre.file_at(q)
        }
    &&& forall|q: Seq<char>| post.has_dir(q) == (!under_or_eq(q, p) && pre.has_dir(q))
}

/// One file of the model filesystem.
pub struct FsEntry {
    pub path: String,
    pub data: Vec<u8>,
}

/// The model filesystem: files and directories. Later entries are shadowed
/// by earlier ones with the same path.
pub struct FsModel {
    pub files: Vec<FsEntry>,
    pub dirs: Vec<String>,
}

/// The bytes of the file at `p`: the first entry with that path, if any.
pub open spec fn lookup_files(s: Seq<FsEntry>, p: Seq<char>) -> Option<Seq<u8>>
    decreases s.len(),
{
    if s.len() == 0 {
        None
    } else if s[0].path@ == p {
        Some(s[0].data@)
    } else {
        lookup_files(s.skip(1), p)
    }
}

/// Appending an entry changes only the lookup of paths without an earlier entry.
pub proof fn lemma_lookup_push(s: Seq<FsEntry>, e: FsEntry, p: Seq<char>)
    ensures
        lookup_files(s.push(e), p) == if lookup_files(s, p) is Some {
            lookup_files(s, p)
        } else if e.path@ == p {
            Some(e.data@)
        } else {
            None
        },
    decreases s.len(),
{
    if s.len() == 0 {
        assert(s.push(e)[0 as int] == e);
        assert(s.push(e).skip(1) =~= Seq::<FsEntry>::empty());
        assert(lookup_files(s.push(e).skip(1), p) is None);
        if e.path@ == p {
            assert(lookup_files(s.push(e), p) == Some(e.data@));
        } else {
            assert(lookup_files(s.push(e), p) is None);
        }
    } else {
        assert(s.push(e)[0 as int] == s[0 as int]);
        assert(s.push(e).skip(1) =~= s.skip(1).push(e));
        lemma_lookup_push(s.skip(1), e, p);
        if s[0 as int].path@ == p {
            assert(lookup_files(s, p) == Some(s[0 as int].data@));
            assert(lookup_files(s.push(e), p) == Some(s.push(e)[0 as int].data@));
        } else {
            assert(lookup_files(s, p) == lookup_files(s.skip(1), p));
            assert(lookup_files(s.push(e), p) == lookup_files(s.skip(1).push(e), p));
        }
    }
}

/// Whether a directory at `p` is recorded.
pub open spec fn dir_in(s: Seq<String>, p: Seq<char>) -> bool
    decreases s.len(),
{
    if s.len() == 0 {
        false
    } else if s[0]@ == p {
        true
    } else {
        dir_in(s.skip(1), p)
    }
}

/// Appending a directory adds exactly that directory.
pub proof fn lemma_dir_push(s: Seq<String>, d: String, p: Seq<char>)
    ensures
        dir_in(s.push(d), p) == (dir_in(s, p) || d@ == p),
    decreases s.len(),
{
    if s.len() == 0 {
        assert(s.push(d)[0 as int] == d);
        assert(s.push(d).skip(1) =~= Seq::<String>::empty());
        assert(!dir_in(s.push(d).skip(1), p));
    } else {
        assert(s.push(d)[0 as int] == s[0 as int]);
        assert(s.push(d).skip(1) =~= s.skip(1).push(d));
        lemma_dir_push(s.skip(1), d, p);
        if s[0 as int]@ == p {
        } else {
            assert(dir_in(s, p) == dir_in(s.skip(1), p));
            assert(dir_in(s.push(d), p) == dir_in(s.skip(1).push(d), p));
        }
    }
}

/// A lookup succeeds exactly when some entry carries the path.
pub proof fn lemma_lookup_some_iff(s: Seq<FsEntry>, q: Seq<char>)
    ensures
        lookup_files(s, q) is Some <==> exists|k: int|
            0 <= k < s.len() && (#[trigger] s[k]).path@ == q,
    decreases s.len(),
{
    if s.len() > 0 {
        lemma_lookup_some_iff(s.skip(1), q);
        if s[0].path@ == q {
        } else {
            if lookup_files(s, q) is Some {
                let k = choose|k: int| 0 <= k < s.skip(1).len() && (#[trigger] s.skip(1)[k]).path@
                    == q;
                assert(s[k + 1].path@ == q);
            }
            if exists|k: int| 0 <= k < s.len() && (#[trigger] s[k]).path@ == q {
                let k = choose|k: int| 0 <= k < s.len() && (#[trigger] s[k]).path@ == q;
                assert(s.skip(1)[k - 1].path@ == q);
            }
        }
    }
}

/// Joining a relative path below a root lands strictly under the root, and
/// the relative path can be read back.
pub proof fn lemma_joined_under(root: Seq<char>, rel: Seq<char>)
    ensures
        under(joined(root, rel), root),
        rel_of(joined(root, rel), root) == rel,
{
    let q = joined(root, rel);
    assert(q.subrange(0, root.len() as int) =~= root);
    assert(q[root.len() as int] == '/');
    assert(q.skip(root.len() as int + 1) =~= rel);
}

/// A path strictly under a root is the root joined with its relative path.
pub proof fn lemma_under_join(q: Seq<char>, p: Seq<char>)
    requires
        under(q, p),
    ensures
        joined(p, rel_of(q, p)) == q,
{
    assert(joined(p, rel_of(q, p)) =~= q);
}

/// A fresh copy of a byte vector.
pub fn clone_bytes(v: &Vec<u8>) -> (r: Vec<u8>)
    ensures
        r@ == v@,
{
    let mut out: Vec<u8> = Vec::new();
    let n = v.len();
    let mut i: usize = 0;
    while i < n
        invariant
            i <= n,
            n == v@.len(),
            out@ =~= v@.subrange(0, i as int),
        decreases n - i,
    {
        out.push(v[i]);
        i = i + 1;
    }
    proof {
        assert(out@ =~= v@);
    }
    out
}

/// Whether `q` is `p` or lies inside the tree rooted at `p`.
pub fn path_under_or_eq(q: &str, p: &str) -> (r: bool)
    ensures
        r == under_or_eq(q@, p@),
{
    let nq = q.unicode_len();
    let np = p.unicode_len();
    if nq == np {
        return str_eq(q, p);
    }
    if nq <= np {
        proof {
            if q@ == p@ {
                assert(q@.len() == p@.len());
            }
        }
        return false;
    }
    let pref = q.substring_char(0, np);
    if !str_eq(pref, p) {
        proof {
            if q@.subrange(0, np as int) == p@ {
                assert(pref@ == p@);
            }
        }
        return false;
    }
    let c = q.get_char(np);
    c == '/'
}

/// `root` with `rel` appended below it.
pub fn join(root: &str, rel: &str) -> (r: String)
    ensures
        r@ == joined(root@, rel@),
{
    let mut out = root.to_owned();
    out.append("/");
    out.append(rel);
    proof {
        reveal_strlit("/");
        assert("/"@ =~= seq!['/']);
        assert(out@ =~= joined(root@, rel@));
    }
    out
}

/// The position just past the last separator of `s`, minus one; negative
/// when `s` holds no separator.
pub open spec fn last_slash(s: Seq<char>) -> int
    decreases s.len(),
{
    if s.len() == 0 {
        -1
    } else if is_sep(s.last()) {
        s.len() - 1
    } else {
        last_slash(s.drop_last())
    }
}

/// The last separator sits strictly inside the path.
pub proof fn lemma_last_slash_lt(s: Seq<char>)
    ensures
        last_slash(s) < s.len(),
    decreases s.len(),
{
    if s.len() > 0 && !is_sep(s.last()) {
        lemma_last_slash_lt(s.drop_last());
    }
}

/// The parent of a path: everything before its last separator, or the
/// empty string for a bare name.
pub open spec fn parent_seq(s: Seq<char>) -> Seq<char> {
    if last_slash(s) < 0 {
        Seq::empty()
    } else {
        s.subrange(0, last_slash(s))
    }
}

/// The parent of a path string.
pub fn parent_of(p: &str) -> (r: String)
    ensures
        r@ == parent_seq(p@),
{
    let n = p.unicode_len();
    let mut found = false;
    let mut idx: usize = 0;
    let mut i: usize = 0;
    proof {
        assert(p@.subrange(0, 0) =~= Seq::<char>::empty());
    }
    while i < n
        invariant
            i <= n,
            n == p@.len(),
            found ==> idx < i && last_slash(p@.subrange(0, i as int)) == idx,
            !found ==> last_slash(p@.subrange(0, i as int)) == -1,
        decreases n - i,
    {
        proof {
            assert(p@.subrange(0, i as int + 1).drop_last() =~= p@.subrange(0, i as int));
            assert(p@.subrange(0, i as int + 1).last() == p@[i as int]);
        }
        if p.get_char(i) == '/' {
            found = true;
            idx = i;
        }
        i = i + 1;
    }
    proof {
        assert(p@.subrange(0, n as int) =~= p@);
    }
    if found {
        let par = p.substring_char(0, idx);
        String::from_str(par)
    } else {
        String::new()
    }
}

impl FsModel {
    /// The bytes of the file at `p`, if one exists.
    pub open spec fn file_at(self, p: Seq<char>) -> Option<Seq<u8>> {
        lookup_files(self.files@, p)
    }

    /// Whether a directory exists at `p`.
    pub open spec fn has_dir(self, p: Seq<char>) -> bool {
        dir_in(self.dirs@, p)
    }

    /// Whether anything (file or directory) exists at `p`.
    pub open spec fn exists_at(self, p: Seq<char>) -> bool {
        self.file_at(p) is Some || self.has_dir(p)
    }

    /// An empty filesystem.
    pub fn new() -> (r: FsModel)
        ensures
            forall|q: Seq<char>| r.file_at(q) is None,
            forall|q: Seq<char>| !r.has_dir(q),
    {
        FsModel { files: Vec::new(), dirs: Vec::new() }
    }

    /// The index of the entry the lookup of `p` resolves to.
    fn find_file(&self, p: &str) -> (r: Option<usize>)
        ensures
            match r {
                Some(i) => i < self.files@.len() && self.files@[i as int].path@ == p@
                    && self.file_at(p@) == Some(self.files@[i as int].data@) && (forall|k: int|
                    0 <= k < i ==> self.files@[k].path@ != p@),
                None => self.file_at(p@) is None,
            },
    {
        let n = self.files.len();
        let mut i: usize = 0;
        proof {
            assert(self.files@.skip(0) =~= self.files@);
        }
        while i < n
            invariant
                i <= n,
                n == self.files@.len(),
                self.file_at(p@) == lookup_files(self.files@.skip(i as int), p@),
                forall|k: int| 0 <= k < i ==> self.files@[k].path@ != p@,
            decreases n - i,
        {
            proof {
                assert(self.files@.skip(i as int)[0] == self.files@[i as int]);
                assert(self.files@.skip(i as int).skip(1) =~= self.files@.skip(i as int + 1));
            }
            if str_eq(self.files[i].path.as_str(), p) {
                return Some(i);
            }
            i = i + 1;
        }
        proof {
            assert(self.files@.skip(n as int) =~= Seq::<FsEntry>::empty());
        }
        None
    }

    /// The bytes of the file at `p`, as a fresh vector.
    pub fn file_bytes(&self, p: &str) -> (r: Option<Vec<u8>>)
        ensures
            match r {
                Some(d) => self.file_at(p@) == Some(d@),
                None => self.file_at(p@) is None,
            },
    {
        match self.find_file(p) {
            Some(i) => Some(clone_bytes(&self.files[i].data)),
            None => None,
        }
    }

    /// Whether a directory exists at `p`.
    pub fn is_dir(&self, p: &str) -> (r: bool)
        ensures
            r == self.has_dir(p@),
    {
        let n = self.dirs.len();
        let mut i: usize = 0;
        proof {
            assert(self.dirs@.skip(0) =~= self.dirs@);
        }
        while i < n
            invariant
                i <= n,
                n == self.dirs@.len(),
                self.has_dir(p@) == dir_in(self.dirs@.skip(i as int), p@),
            decreases n - i,
        {
            proof {
                assert(self.dirs@.skip(i as int)[0] == self.dirs@[i as int]);
                assert(self.dirs@.skip(i as int).skip(1) =~= self.dirs@.skip(i as int + 1));
            }
            if str_eq(self.dirs[i].as_str(), p) {
                return true;
            }
            i = i + 1;
        }
        proof {
            assert(self.dirs@.skip(n as int) =~= Seq::<String>::empty());
        }
        false
    }

    /// Whether anything exists at `p`.
    pub fn exists_path(&self, p: &str) -> (r: bool)
        ensures
            r == self.exists_at(p@),
    {
        if self.is_dir(p) {
            true
        } else {
            self.find_file(p).is_some()
        }
    }

    /// Writes `data` to the file at `p`, replacing any previous file there.
    pub fn set_file(&mut self, p: &str, data: Vec<u8>)
        ensures
            forall|q: Seq<char>|
                final(self).file_at(q) == if q == p@ {
                    Some(data@)
                } else {
                    old(self).file_at(q)
                },
            final(self).dirs@ == old(self).dirs@,
    {
        let ghost pre = self.files@;
        let e = FsEntry { path: p.to_owned(), data };
        self.files.insert(0, e);
        proof {
            assert(self.files@ =~= seq![e] + pre);
            assert forall|q: Seq<char>|
                final(self).file_at(q) == if q == p@ {
                    Some(data@)
                } else {
                    old(self).file_at(q)
                } by {
                assert(self.files@[0] == e);
                assert(self.files@.skip(1) =~= pre);
            }
        }
    }

    /// Creates a directory at `p` together with its recorded ancestors:
    /// every prefix of `p` that ends just before a separator.
    pub fn create_dir_all(&mut self, p: &str)
        ensures
            final(self).files@ == old(self).files@,
            final(self).has_dir(p@),
            forall|q: Seq<char>| prefix_dir_of(q, p@) ==> final(self).has_dir(q),
            forall|q: Seq<char>| old(self).has_dir(q) ==> final(self).has_dir(q),
            forall|q: Seq<char>|
                final(self).has_dir(q) ==> old(self).has_dir(q) || q == p@ || prefix_dir_of(q, p@),
    {
        let n = p.unicode_len();
        let mut i: usize = 0;
        while i < n
            invariant
                i <= n,
                n == p@.len(),
                self.files@ == old(self).files@,
                forall|q: Seq<char>| old(self).has_dir(q) ==> self.has_dir(q),
                forall|q: Seq<char>|
                    self.has_dir(q) ==> old(self).has_dir(q) || prefix_dir_of(q, p@),
                forall|q: Seq<char>| prefix_dir_of(q, p@) && q.len() < i ==> self.has_dir(q),
            decreases n - i,
        {
            if p.get_char(i) == '/' {
                let pref = p.substring_char(0, i);
                self.add_dir(pref);
            }
            proof {
                assert forall|q: Seq<char>|
                    prefix_dir_of(q, p@) && q.len() < i + 1 implies self.has_dir(q) by {
                    if q.len() == i {
                        assert(q =~= p@.subrange(0, i as int));
                    }
                }
            }
            i = i + 1;
        }
        self.add_dir(p);
    }

    /// Copies the bytes of the file at `src` to `dst`. Fails, changing
    /// nothing, exactly when there is no file at `src`.
    pub fn copy_file(&mut self, src: &str, dst: &str) -> (r: Result<(), InstallError>)
        ensures
            final(self).dirs@ == old(self).dirs@,
            r is Ok <==> old(self).file_at(src@) is Some,
            r is Ok ==> forall|q: Seq<char>|
                final(self).file_at(q) == if q == dst@ {
                    old(self).file_at(src@)
                } else {
                    old(self).file_at(q)
                },
            r is Err ==> final(self).files@ == old(self).files@,
            r matches Err(e) ==> e matches InstallError::CopyError(s) && s@ == src@,
    {
        match self.file_bytes(src) {
            Some(d) => {
                self.set_file(dst, d);
                Result::Ok(())
            },
            None => Result::Err(InstallError::CopyError(src.to_owned())),
        }
    }

    /// Removes the file or directory at `p` and everything below it.
    pub fn remove_tree(&mut self, p: &str)
        ensures
            remove_rel(p@, *old(self), *final(self)),
            forall|q: Seq<char>|
                final(self).file_at(q) == if under_or_eq(q, p@) {
                    None::<Seq<u8>>
                } else {
                    old(self).file_at(q)
                },
            forall|q: Seq<char>|
                final(self).has_dir(q) == (!under_or_eq(q, p@) && old(self).has_dir(q)),
    {
        let ghost s = self.files@;
        let mut kept: Vec<FsEntry> = Vec::new();
        let n = self.files.len();
        let mut i: usize = 0;
        proof {
            assert(s.subrange(0, 0) =~= Seq::<FsEntry>::empty());
        }
        while i < n
            invariant
                i <= n,
                n == s.len(),
                self.files@ == s,
                self.dirs@ == old(self).dirs@,
                forall|q: Seq<char>|
                    lookup_files(kept@, q) == if under_or_eq(q, p@) {
                        None::<Seq<u8>>
                    } else {
                        lookup_files(s.subrange(0, i as int), q)
                    },
            decreases n - i,
        {
            let ghost kpre = kept@;
            let e = &self.files[i];
            let keep = !path_under_or_eq(e.path.as_str(), p);
            if keep {
                kept.push(FsEntry { path: e.path.clone(), data: clone_bytes(&e.data) });
            }
            proof {
                assert(s.subrange(0, i as int + 1) =~= s.subrange(0, i as int).push(s[i as int]));
                assert forall|q: Seq<char>|
                    lookup_files(kept@, q) == if under_or_eq(q, p@) {
                        None::<Seq<u8>>
                    } else {
                        lookup_files(s.subrange(0, i as int + 1), q)
                    } by {
                    lemma_lookup_push(s.subrange(0, i as int), s[i as int], q);
                    if keep {
                        lemma_lookup_push(kpre, kept@.last(), q);
                        assert(kept@ == kpre.push(kept@.last()));
                    }
                }
            }
            i = i + 1;
        }
        proof {
            assert(s.subrange(0, n as int) =~= s);
        }
        self.files = kept;
        let ghost ds = self.dirs@;
        let mut kept_dirs: Vec<String> = Vec::new();
        let m = self.dirs.len();
        let mut j: usize = 0;
        proof {
            assert(ds.subrange(0, 0) =~= Seq::<String>::empty());
        }
        while j < m
            invariant
                j <= m,
                m == ds.len(),
                self.dirs@ == ds,
                self.files@ == kept@,
                forall|q: Seq<char>|
                    dir_in(kept_dirs@, q) == (!under_or_eq(q, p@) && dir_in(
                        ds.subrange(0, j as int),
                        q,
                    )),
            decreases m - j,
        {
            let ghost dpre = kept_dirs@;
            let d = &self.dirs[j];
            let keep = !path_under_or_eq(d.as_str(), p);
            if keep {
                kept_dirs.push(d.clone());
            }
            proof {
                assert(ds.subrange(0, j as int + 1) =~= ds.subrange(0, j as int).push(
                    ds[j as int],
                ));
                assert forall|q: Seq<char>|
                    dir_in(kept_dirs@, q) == (!under_or_eq(q, p@) && dir_in(
                        ds.subrange(0, j as int + 1),
                        q,
                    )) by {
                    lemma_dir_push(ds.subrange(0, j as int), ds[j as int], q);
                    if keep {
                        lemma_dir_push(dpre, kept_dirs@.last(), q);
                        assert(kept_dirs@ == dpre.push(kept_dirs@.last()));
                    }
                }
            }
            j = j + 1;
        }
        proof {
            assert(ds.subrange(0, m as int) =~= ds);
        }
        self.dirs = kept_dirs;
    }

    /// Recursively copies the tree rooted at `src` to `dst`, preserving
    /// relative structure: every file strictly under `src` reappears at the
    /// corresponding path under `dst` with identical bytes, directories
    /// below `src` are mirrored, and nothing outside the tree rooted at
    /// `dst` changes.
    pub fn copy_dir(&mut self, src: &str, dst: &str)
        ensures
            forall|q: Seq<char>|
                under(q, src@) && old(self).file_at(q) is Some ==> final(self).file_at(
                    joined(dst@, rel_of(q, src@)),
                ) == old(self).file_at(q),
            forall|q: Seq<char>|
                !under(q, dst@) ==> final(self).file_at(q) == old(self).file_at(q),
            forall|q: Seq<char>|
                under(q, dst@) && old(self).file_at(joined(src@, rel_of(q, dst@))) is None
                    ==> final(self).file_at(q) == old(self).file_at(q),
            final(self).has_dir(dst@),
            forall|q: Seq<char>| prefix_dir_of(q, dst@) ==> final(self).has_dir(q),
            forall|q: Seq<char>| old(self).has_dir(q) ==> final(self).has_dir(q),
            forall|q: Seq<char>|
                under(q, src@) && old(self).has_dir(q) ==> final(self).has_dir(
                    joined(dst@, rel_of(q, src@)),
                ),
            forall|q: Seq<char>|
                final(self).has_dir(q) ==> old(self).has_dir(q) || q == dst@ || prefix_dir_of(
                    q,
                    dst@,
                ) || under(q, dst@),
    {
        self.copy_files_below(src, dst);
        self.mirror_dirs_below(src, dst);
    }

    /// Copies every file strictly under `src` to the corresponding path
    /// under `dst`, leaving directories and all other files alone.
    fn copy_files_below(&mut self, src: &str, dst: &str)
        ensures
            forall|q: Seq<char>|
                under(q, src@) && old(self).file_at(q) is Some ==> final(self).file_at(
                    joined(dst@, rel_of(q, src@)),
                ) == old(self).file_at(q),
            forall|q: Seq<char>|
                !under(q, dst@) ==> final(self).file_at(q) == old(self).file_at(q),
            forall|q: Seq<char>|
                under(q, dst@) && old(self).file_at(joined(src@, rel_of(q, dst@))) is None
                    ==> final(self).file_at(q) == old(self).file_at(q),
            final(self).dirs@ == old(self).dirs@,
    {
        let ghost s = self.files@;
        let src_len = src.unicode_len();
        let mut targets: Vec<FsEntry> = Vec::new();
        let ghost mut srcs: Seq<Seq<char>> = Seq::empty();
        let n = self.files.len();
        let mut i: usize = 0;
        proof {
            assert(s.subrange(0, 0) =~= Seq::<FsEntry>::empty());
        }
        while i < n
            invariant
                i <= n,
                n == s.len(),
                self.files@ == s,
                self.dirs@ == old(self).dirs@,
                src_len == src@.len(),
                srcs.len() == targets@.len(),
                forall|j: int|
                    0 <= j < targets@.len() ==> under(#[trigger] srcs[j], src@) && lookup_files(
                        s,
                        srcs[j],
                    ) == Some(targets@[j].data@) && targets@[j].path@ == joined(
                        dst@,
                        rel_of(srcs[j], src@),
                    ),
                forall|j: int|
                    0 <= j < srcs.len() ==> #[trigger] lookup_files(
                        s.subrange(0, i as int),
                        srcs[j],
                    ) is Some,
                forall|j1: int, j2: int| 0 <= j1 < j2 < srcs.len() ==> srcs[j1] != srcs[j2],
                forall|q: Seq<char>|
                    under(q, src@) && #[trigger] lookup_files(
                        s.subrange(0, i as int),
                        q,
                    ) is Some ==> exists|j: int| 0 <= j < srcs.len() && srcs[j] == q,
            decreases n - i,
        {
            let ghost spre = srcs;
            let epath_len = self.files[i].path.as_str().unicode_len();
            let is_under = path_under_or_eq(self.files[i].path.as_str(), src) && !str_eq(
                self.files[i].path.as_str(),
                src,
            );
            let fopt = if is_under {
                self.find_file(self.files[i].path.as_str())
            } else {
                Option::None
            };
            let first = match fopt {
                Some(fi) => fi == i,
                None => false,
            };
            if first {
                let relp = self.files[i].path.as_str().substring_char(src_len + 1, epath_len);
                let tp = join(dst, relp);
                let d = clone_bytes(&self.files[i].data);
                targets.push(FsEntry { path: tp, data: d });
                proof {
                    assert(relp@ =~= rel_of(s[i as int].path@, src@));
                    lemma_lookup_some_iff(s.subrange(0, i as int), s[i as int].path@);
                    assert(lookup_files(s.subrange(0, i as int), s[i as int].path@) is None);
                    srcs = srcs.push(s[i as int].path@);
                }
            }
            proof {
                assert(s.subrange(0, i as int + 1) =~= s.subrange(0, i as int).push(s[i as int]));
                assert forall|j: int|
                    0 <= j < srcs.len() implies #[trigger] lookup_files(
                    s.subrange(0, i as int + 1),
                    srcs[j],
                ) is Some by {
                    if j < spre.len() {
                        assert(srcs[j] == spre[j]);
                    }
                    lemma_lookup_push(s.subrange(0, i as int), s[i as int], srcs[j]);
                }
                if is_under && !first {
                    // the entry is shadowed by an earlier one with the same path
                    if fopt is None {
                        lemma_lookup_some_iff(s, s[i as int].path@);
                        assert(false);
                    } else {
                        let fi = fopt->Some_0;
                        assert(s[fi as int].path@ == s[i as int].path@);
                        assert(fi < i);
                        lemma_lookup_some_iff(s.subrange(0, i as int), s[i as int].path@);
                        assert(s.subrange(0, i as int)[fi as int].path@ == s[i as int].path@);
                        assert(lookup_files(s.subrange(0, i as int), s[i as int].path@) is Some);
                    }
                }
                if first {
                    assert(lookup_files(s, srcs.last()) == Some(targets@.last().data@)) by {
                        lemma_lookup_some_iff(s.subrange(0, i as int), s[i as int].path@);
                    }
                }
                assert forall|q: Seq<char>|
                    under(q, src@) && #[trigger] lookup_files(
                        s.subrange(0, i as int + 1),
                        q,
                    ) is Some implies exists|j: int| 0 <= j < srcs.len() && srcs[j] == q by {
                    lemma_lookup_push(s.subrange(0, i as int), s[i as int], q);
                    if lookup_files(s.subrange(0, i as int), q) is Some {
                        let j0 = choose|j: int| 0 <= j < spre.len() && spre[j] == q;
                        assert(srcs[j0] == q);
                    } else if s[i as int].path@ == q {
                        assert(first);
                        assert(0 <= srcs.len() - 1 < srcs.len() && srcs[srcs.len() - 1] == q);
                    }
                }
            }
            i = i + 1;
        }
        proof {
            assert(s.subrange(0, n as int) =~= s);
        }
        // write the collected files below dst
        let tn = targets.len();
        let mut k: usize = 0;
        while k < tn
            invariant
                k <= tn,
                tn == targets@.len(),
                tn == srcs.len(),
                self.dirs@ == old(self).dirs@,
                forall|j: int|
                    0 <= j < tn ==> under(#[trigger] srcs[j], src@) && lookup_files(s, srcs[j])
                        == Some(targets@[j].data@) && targets@[j].path@ == joined(
                        dst@,
                        rel_of(srcs[j], src@),
                    ),
                forall|j1: int, j2: int| 0 <= j1 < j2 < srcs.len() ==> srcs[j1] != srcs[j2],
                forall|j: int|
                    0 <= j < k ==> self.file_at(joined(dst@, rel_of(#[trigger] srcs[j], src@)))
                        == Some(targets@[j].data@),
                forall|q: Seq<char>|
                    (forall|j: int|
                        0 <= j < tn ==> joined(dst@, rel_of(#[trigger] srcs[j], src@)) != q)
                        ==> self.file_at(q) == lookup_files(s, q),
            decreases tn - k,
        {
            let d = clone_bytes(&targets[k].data);
            self.set_file(targets[k].path.as_str(), d);
            proof {
                assert forall|j1: int, j2: int|
                    0 <= j1 < j2 < tn implies joined(dst@, rel_of(#[trigger] srcs[j1], src@))
                    != joined(dst@, rel_of(#[trigger] srcs[j2], src@)) by {
                    lemma_joined_under(dst@, rel_of(srcs[j1], src@));
                    lemma_joined_under(dst@, rel_of(srcs[j2], src@));
                    lemma_under_join(srcs[j1], src@);
                    lemma_under_join(srcs[j2], src@);
                }
                assert forall|j: int|
                    0 <= j < k + 1 implies self.file_at(
                    joined(dst@, rel_of(#[trigger] srcs[j], src@)),
                ) == Some(targets@[j].data@) by {
                    assert(targets@[k as int].path@ == joined(dst@, rel_of(srcs[k as int], src@)));
                    if j == k {
                        assert(self.file_at(targets@[k as int].path@) == Some(d@));
                    }
                }
                assert forall|q: Seq<char>|
                    (forall|j: int|
                        0 <= j < tn ==> joined(dst@, rel_of(#[trigger] srcs[j], src@)) != q)
                        implies self.file_at(q) == lookup_files(s, q) by {
                    assert(joined(dst@, rel_of(srcs[k as int], src@)) != q);
                    assert(targets@[k as int].path@ != q);
                }
            }
            k = k + 1;
        }
        proof {
            assert forall|q: Seq<char>|
                under(q, dst@) && lookup_files(s, joined(src@, rel_of(q, dst@))) is None
                implies self.file_at(q) == lookup_files(s, q) by {
                assert forall|j: int|
                    0 <= j < tn implies joined(dst@, rel_of(#[trigger] srcs[j], src@)) != q by {
                    lemma_joined_under(dst@, rel_of(srcs[j], src@));
                    lemma_under_join(srcs[j], src@);
                    if joined(dst@, rel_of(srcs[j], src@)) == q {
                        assert(rel_of(q, dst@) == rel_of(srcs[j], src@));
                        assert(joined(src@, rel_of(q, dst@)) == srcs[j]);
                        assert(lookup_files(s, srcs[j]) is Some);
                    }
                }
            }
            assert forall|q: Seq<char>|
                !under(q, dst@) implies self.file_at(q) == lookup_files(s, q) by {
                assert forall|j: int|
                    0 <= j < tn implies joined(dst@, rel_of(#[trigger] srcs[j], src@)) != q by {
                    lemma_joined_under(dst@, rel_of(srcs[j], src@));
                }
            }
            assert forall|q: Seq<char>|
                under(q, src@) && lookup_files(s, q) is Some implies self.file_at(
                joined(dst@, rel_of(q, src@)),
            ) == lookup_files(s, q) by {
                let j = choose|j: int| 0 <= j < srcs.len() && srcs[j] == q;
                assert(self.file_at(joined(dst@, rel_of(srcs[j], src@))) == Some(
                    targets@[j].data@,
                ));
            }
        }
    }

    /// Mirrors every directory strictly under `src` below `dst`, and
    /// creates `dst` itself together with its missing ancestors.
    fn mirror_dirs_below(&mut self, src: &str, dst: &str)
        ensures
            final(self).files@ == old(self).files@,
            final(self).has_dir(dst@),
            forall|q: Seq<char>| prefix_dir_of(q, dst@) ==> final(self).has_dir(q),
            forall|q: Seq<char>| old(self).has_dir(q) ==> final(self).has_dir(q),
            forall|q: Seq<char>|
                under(q, src@) && old(self).has_dir(q) ==> final(self).has_dir(
                    joined(dst@, rel_of(q, src@)),
                ),
            forall|q: Seq<char>|
                final(self).has_dir(q) ==> old(self).has_dir(q) || q == dst@ || prefix_dir_of(
                    q,
                    dst@,
                ) || under(q, dst@),
    {
        let src_len = src.unicode_len();
        // mirror the directories below src, then record dst itself
        let ghost ds = self.dirs@;
        let mut dtargets: Vec<String> = Vec::new();
        let ghost mut dsrcs: Seq<Seq<char>> = Seq::empty();
        let m = self.dirs.len();
        let mut u: usize = 0;
        proof {
            assert(ds.subrange(0, 0) =~= Seq::<String>::empty());
        }
        while u < m
            invariant
                u <= m,
                m == ds.len(),
                self.dirs@ == ds,
                src_len == src@.len(),
                dsrcs.len() == dtargets@.len(),
                forall|j: int|
                    0 <= j < dtargets@.len() ==> under(#[trigger] dsrcs[j], src@)
                        && dtargets@[j]@ == joined(dst@, rel_of(dsrcs[j], src@)),
                forall|q: Seq<char>|
                    under(q, src@) && #[trigger] dir_in(ds.subrange(0, u as int), q) ==> exists|
                        j: int,
                    | 0 <= j < dsrcs.len() && dsrcs[j] == q,
            decreases m - u,
        {
            let ghost dpre = dsrcs;
            let ghost dtpre = dtargets@;
            let dpath_len = self.dirs[u].as_str().unicode_len();
            let d_under = path_under_or_eq(self.dirs[u].as_str(), src) && !str_eq(
                self.dirs[u].as_str(),
                src,
            );
            if d_under {
                let relp = self.dirs[u].as_str().substring_char(src_len + 1, dpath_len);
                let tp = join(dst, relp);
                dtargets.push(tp);
                proof {
                    assert(relp@ =~= rel_of(ds[u as int]@, src@));
                    dsrcs = dsrcs.push(ds[u as int]@);
                }
            }
            proof {
                assert(ds.subrange(0, u as int + 1) =~= ds.subrange(0, u as int).push(
                    ds[u as int],
                ));
                assert forall|j: int|
                    0 <= j < dtargets@.len() implies under(#[trigger] dsrcs[j], src@)
                    && dtargets@[j]@ == joined(dst@, rel_of(dsrcs[j], src@)) by {
                    if j < dpre.len() {
                        assert(dsrcs[j] == dpre[j]);
                        assert(dtargets@[j] == dtpre[j]);
                    } else {
                        assert(dsrcs[j] == ds[u as int]@);
                        assert(dtargets@[j] == dtargets@.last());
                    }
                }
                assert forall|q: Seq<char>|
                    under(q, src@) && #[trigger] dir_in(
                        ds.subrange(0, u as int + 1),
                        q,
                    ) implies exists|j: int| 0 <= j < dsrcs.len() && dsrcs[j] == q by {
                    lemma_dir_push(ds.subrange(0, u as int), ds[u as int], q);
                    if dir_in(ds.subrange(0, u as int), q) {
                        let j0 = choose|j: int| 0 <= j < dpre.len() && dpre[j] == q;
                        assert(dsrcs[j0] == q);
                    } else if ds[u as int]@ == q {
                        assert(d_under);
                        assert(0 <= dsrcs.len() - 1 < dsrcs.len() && dsrcs[dsrcs.len() - 1] == q);
                    }
                }
            }
            u = u + 1;
        }
        proof {
            assert(ds.subrange(0, m as int) =~= ds);
        }
        self.create_dir_all(dst);
        let ghost fs2 = self.files@;
        let dn = dtargets.len();
        let mut w: usize = 0;
        while w < dn
            invariant
                w <= dn,
                dn == dtargets@.len(),
                dn == dsrcs.len(),
                self.files@ == fs2,
                forall|j: int|
                    0 <= j < dn ==> under(#[trigger] dsrcs[j], src@) && dtargets@[j]@ == joined(
                        dst@,
                        rel_of(dsrcs[j], src@),
                    ),
                forall|q: Seq<char>| dir_in(ds, q) ==> self.has_dir(q),
                self.has_dir(dst@),
                forall|q: Seq<char>| prefix_dir_of(q, dst@) ==> self.has_dir(q),
                forall|j: int|
                    0 <= j < w ==> self.has_dir(joined(dst@, rel_of(#[trigger] dsrcs[j], src@))),
                forall|q: Seq<char>|
                    self.has_dir(q) ==> dir_in(ds, q) || q == dst@ || prefix_dir_of(q, dst@) || (
                    exists|j: int|
                        0 <= j < dn && joined(dst@, rel_of(#[trigger] dsrcs[j], src@)) == q),
            decreases dn - w,
        {
            self.add_dir(dtargets[w].as_str());
            proof {
                assert forall|j: int|
                    0 <= j < w + 1 implies self.has_dir(
                    joined(dst@, rel_of(#[trigger] dsrcs[j], src@)),
                ) by {
                    if j == w {
                        assert(dtargets@[w as int]@ == joined(dst@, rel_of(dsrcs[w as int], src@)));
                    }
                }
                assert forall|q: Seq<char>|
                    self.has_dir(q) implies dir_in(ds, q) || q == dst@ || prefix_dir_of(q, dst@)
                    || (exists|j: int|
                    0 <= j < dn && joined(dst@, rel_of(#[trigger] dsrcs[j], src@)) == q) by {
                    if q == dtargets@[w as int]@ {
                        assert(joined(dst@, rel_of(dsrcs[w as int], src@)) == q);
                    }
                }
            }
            w = w + 1;
        }
        proof {
            assert forall|q: Seq<char>|
                self.has_dir(q) implies old(self).has_dir(q) || q == dst@ || prefix_dir_of(
                q,
                dst@,
            ) || under(q, dst@) by {
                if !dir_in(ds, q) && q != dst@ && !prefix_dir_of(q, dst@) {
                    let j = choose|j: int|
                        0 <= j < dn && joined(dst@, rel_of(#[trigger] dsrcs[j], src@)) == q;
                    lemma_joined_under(dst@, rel_of(dsrcs[j], src@));
                }
            }
            assert forall|q: Seq<char>|
                under(q, src@) && dir_in(ds, q) implies self.has_dir(
                joined(dst@, rel_of(q, src@)),
            ) by {
                let j = choose|j: int| 0 <= j < dsrcs.len() && dsrcs[j] == q;
            }
        }
    }

    /// Records a directory at `p`.
    pub fn add_dir(&mut self, p: &str)
        ensures
            forall|q: Seq<char>|
                final(self).has_dir(q) == (old(self).has_dir(q) || q == p@),
            final(self).files@ == old(self).files@,
    {
        let ghost pre = self.dirs@;
        let d = p.to_owned();
        self.dirs.push(d);
        proof {
            assert forall|q: Seq<char>|
                final(self).has_dir(q) == (old(self).has_dir(q) || q == p@) by {
                lemma_dir_push(pre, d, q);
            }
        }
    }
}

} // verus!

//! The coordinator's namespace: the directory index and the file→blocks
//! binding.
//!
//! The namespace is a prefix-closed set of directory paths together with a
//! map from file paths to ordered block lists; a path is a sequence of
//! segments.  Directories are created by `make_dir` (with `mkdir -p`
//! semantics) and never removed; files are bound once by `create_file`.

use vstd::prelude::*;
use vstd::string::StrSliceExecFns;
use crate::block::Block;
use crate::errors::{CudddlyError, CuddlyResult};
use crate::paths::{
    is_valid_filename, spec_split, spec_valid_name, split_path, starts_with_root_directory,
};
use crate::strutil::concat3;

verus! {

/// A committed file: its path segments and its ordered block list.
pub struct FileEntry {
    pub path: Vec<String>,
    pub blocks: Vec<Block>,
}

/// The namespace index: directory paths (the root `[]` is implicit) and
/// committed files.
pub struct NamenodeState {
    pub dirs: Vec<Vec<String>>,
    pub files: Vec<FileEntry>,
}

/// Whether `files` binds the path `p`.
pub open spec fn file_in(files: Seq<FileEntry>, p: Seq<Seq<char>>) -> bool {
    exists|i: int| 0 <= i < files.len() && files[i].path.deep_view() == p
}

/// The block list bound to path `p` in `files`.
pub open spec fn file_blocks_in(files: Seq<FileEntry>, p: Seq<Seq<char>>) -> Seq<Block> {
    files[choose|i: int| 0 <= i < files.len() && files[i].path.deep_view() == p].blocks@
}

impl NamenodeState {
    /// Whether `p` names a directory (the empty path is the root).
    pub open spec fn is_dir_path(self, p: Seq<Seq<char>>) -> bool {
        p.len() == 0 || exists|i: int|
            0 <= i < self.dirs@.len() && self.dirs@[i].deep_view() == p
    }

    /// Whether `p` names a committed file.
    pub open spec fn is_file_path(self, p: Seq<Seq<char>>) -> bool {
        file_in(self.files@, p)
    }

    /// The block list of the committed file at `p`.
    pub open spec fn file_blocks(self, p: Seq<Seq<char>>) -> Seq<Block> {
        file_blocks_in(self.files@, p)
    }

    /// Structural soundness: directory paths are distinct, non-empty, made of
    /// valid names and prefix-closed; file paths are distinct, non-empty,
    /// hang under a directory, and never collide with a directory.
    pub open spec fn wf(self) -> bool {
        &&& forall|i: int, j: int|
            0 <= i < j < self.dirs@.len() ==> self.dirs@[i].deep_view()
                != self.dirs@[j].deep_view()
        &&& forall|i: int| 0 <= i < self.dirs@.len() ==> #[trigger] self.dirs@[i]@.len() >= 1
        &&& forall|i: int, k: int|
            0 <= i < self.dirs@.len() && 0 <= k < self.dirs@[i]@.len() ==> spec_valid_name(
                #[trigger] self.dirs@[i]@[k]@,
            ) && self.dirs@[i]@[k]@.len() >= 1
        &&& forall|i: int|
            0 <= i < self.dirs@.len() ==> self.is_dir_path(
                #[trigger] self.dirs@[i].deep_view().drop_last(),
            )
        &&& forall|i: int, j: int|
            0 <= i < j < self.files@.len() ==> self.files@[i].path.deep_view()
                != self.files@[j].path.deep_view()
        &&& forall|i: int| 0 <= i < self.files@.len() ==> #[trigger] self.files@[i].path@.len() >= 1
        &&& forall|i: int|
            0 <= i < self.files@.len() ==> self.is_dir_path(
                #[trigger] self.files@[i].path.deep_view().drop_last(),
            )
        &&& forall|i: int|
            0 <= i < self.files@.len() ==> !self.is_dir_path(
                #[trigger] self.files@[i].path.deep_view(),
            )
    }

    /// An empty namespace: just the root directory.
    pub fn new() -> (s: NamenodeState)
        ensures
            s.wf(),
            forall|p: Seq<Seq<char>>| s.is_dir_path(p) <==> p.len() == 0,
            forall|p: Seq<Seq<char>>| !s.is_file_path(p),
    {
        NamenodeState { dirs: Vec::new(), files: Vec::new() }
    }
}

/// Compares `q` to the first `k` segments of `parts`.
fn eq_prefix(q: &Vec<String>, parts: &Vec<String>, k: usize) -> (r: bool)
    requires
        k <= parts@.len(),
    ensures
        r == (q.deep_view() == parts.deep_view().take(k as int)),
{
    if q.len() != k {
        proof {
            assert(q.deep_view().len() == q@.len());
            assert(parts.deep_view().take(k as int).len() == k);
        }
        return false;
    }
    let mut i: usize = 0;
    while i < k
        invariant
            k <= parts@.len(),
            q@.len() == k,
            i <= k,
            forall|j: int| 0 <= j < i ==> q@[j]@ == parts@[j]@,
        decreases k - i,
    {
        if !(q[i] == parts[i]) {
            proof {
                assert(q.deep_view()[i as int] == q@[i as int]@);
                assert(parts.deep_view().take(k as int)[i as int] == parts@[i as int]@);
            }
            return false;
        }
        i = i + 1;
    }
    proof {
        assert(q.deep_view() =~= parts.deep_view().take(k as int));
    }
    true
}

/// Whether `q` is exactly `k + 1` segments long and extends the first `k`
/// segments of `parts` by one more name.
fn extends_prefix(q: &Vec<String>, parts: &Vec<String>, k: usize) -> (r: bool)
    requires
        k <= parts@.len(),
    ensures
        r == (q.deep_view().len() == k + 1 && q.deep_view().take(k as int)
            == parts.deep_view().take(k as int)),
{
    if q.len() == 0 || q.len() - 1 != k {
        proof {
            assert(q.deep_view().len() == q@.len());
        }
        return false;
    }
    let mut i: usize = 0;
    while i < k
        invariant
            k <= parts@.len(),
            q@.len() == k + 1,
            i <= k,
            forall|j: int| 0 <= j < i ==> q@[j]@ == parts@[j]@,
        decreases k - i,
    {
        if !(q[i] == parts[i]) {
            proof {
                assert(q.deep_view().take(k as int)[i as int] == q@[i as int]@);
                assert(parts.deep_view().take(k as int)[i as int] == parts@[i as int]@);
            }
            return false;
        }
        i = i + 1;
    }
    proof {
        assert(q.deep_view().take(k as int) =~= parts.deep_view().take(k as int));
    }
    true
}

/// An owned copy of the first `k` segments of `parts`.
fn clone_prefix(parts: &Vec<String>, k: usize) -> (r: Vec<String>)
    requires
        k <= parts@.len(),
    ensures
        r.deep_view() == parts.deep_view().take(k as int),
        r@.len() == k,
        forall|j: int| 0 <= j < k ==> #[trigger] r@[j]@ == parts@[j]@,
{
    let mut v: Vec<String> = Vec::new();
    let mut i: usize = 0;
    while i < k
        invariant
            k <= parts@.len(),
            i <= k,
            v@.len() == i,
            forall|j: int| 0 <= j < i ==> v@[j]@ == parts@[j]@,
        decreases k - i,
    {
        v.push(parts[i].clone());
        i = i + 1;
    }
    proof {
        assert(v.deep_view() =~= parts.deep_view().take(k as int));
    }
    v
}

impl NamenodeState {
    /// Whether the first `k` segments of `parts` name a directory.
    pub(crate) fn is_dir_prefix(&self, parts: &Vec<String>, k: usize) -> (r: bool)
        requires
            k <= parts@.len(),
        ensures
            r == self.is_dir_path(parts.deep_view().take(k as int)),
    {
        if k == 0 {
            return true;
        }
        let mut i: usize = 0;
        while i < self.dirs.len()
            invariant
                k <= parts@.len(),
                i <= self.dirs@.len(),
                forall|j: int|
                    0 <= j < i ==> self.dirs@[j].deep_view() != parts.deep_view().take(k as int),
            decreases self.dirs@.len() - i,
        {
            if eq_prefix(&self.dirs[i], parts, k) {
                return true;
            }
            i = i + 1;
        }
        proof {
            assert(parts.deep_view().take(k as int).len() == k);
        }
        false
    }

    /// The index of the committed file whose path is the first `k` segments
    /// of `parts`, if any.
    pub(crate) fn find_file_prefix(&self, parts: &Vec<String>, k: usize) -> (r: Option<usize>)
        requires
            k <= parts@.len(),
        ensures
            match r {
                Some(i) => i < self.files@.len() && self.files@[i as int].path.deep_view()
                    == parts.deep_view().take(k as int) && self.is_file_path(
                    parts.deep_view().take(k as int),
                ),
                None => !self.is_file_path(parts.deep_view().take(k as int)),
            },
    {
        let mut i: usize = 0;
        while i < self.files.len()
            invariant
                k <= parts@.len(),
                i <= self.files@.len(),
                forall|j: int|
                    0 <= j < i ==> self.files@[j].path.deep_view() != parts.deep_view().take(
                        k as int,
                    ),
            decreases self.files@.len() - i,
        {
            if eq_prefix(&self.files[i].path, parts, k) {
                return Some(i);
            }
            i = i + 1;
        }
        None
    }
}

/// The step at which a `make_dir` walk stops: it runs to completion, or it
/// finds an empty segment, an invalid segment, or an existing file standing
/// where a directory is needed.
pub enum MkdirStep {
    MkDone,
    MkEmpty(int),
    MkInvalid(int),
    MkNotDir(int),
}

/// The outcome of walking `segs` from position `i` against the committed
/// files `files`: the first violated rule wins, in walk order.
pub open spec fn mkdir_outcome(files: Seq<FileEntry>, segs: Seq<Seq<char>>, i: int) -> MkdirStep
    decreases segs.len() - i,
{
    if i < 0 || i >= segs.len() {
        MkdirStep::MkDone
    } else if segs[i].len() == 0 {
        MkdirStep::MkEmpty(i)
    } else if !spec_valid_name(segs[i]) {
        MkdirStep::MkInvalid(i)
    } else if i >= 1 && file_in(files, segs.take(i)) {
        MkdirStep::MkNotDir(i)
    } else {
        mkdir_outcome(files, segs, i + 1)
    }
}

impl NamenodeState {
    /// Creates every directory along `path` that does not exist yet (the
    /// `mkdir -p` semantic).  Fails on a relative path, an empty or invalid
    /// segment, or an existing file standing where a directory is needed;
    /// directories created before the failing segment remain.
    pub fn make_dir(&mut self, path: &str) -> (r: CuddlyResult<()>)
        requires
            old(self).wf(),
        ensures
            final(self).wf(),
            final(self).files@ == old(self).files@,
            ({
                if path@.len() == 0 || path@[0] != '/' {
                    &&& r is Err
                    &&& r->Err_0 is FSError
                    &&& r->Err_0.spec_message() == "Has to start with root directory"@
                    &&& *final(self) == *old(self)
                } else {
                    let segs = spec_split(path@.drop_first());
                    match mkdir_outcome(old(self).files@, segs, 0) {
                        MkdirStep::MkDone => {
                            &&& r is Ok
                            &&& final(self).dirs_extended_by(*old(self), segs, segs.len() as int)
                        },
                        MkdirStep::MkEmpty(i) => {
                            &&& r is Err
                            &&& r->Err_0 is FSError
                            &&& r->Err_0.spec_message() == "Directory name cannot be empty"@
                            &&& final(self).dirs_extended_by(*old(self), segs, i)
                        },
                        MkdirStep::MkInvalid(i) => {
                            &&& r is Err
                            &&& r->Err_0 is FSError
                            &&& r->Err_0.spec_message() == "'"@ + segs[i]
                                + "' is not a valid directory name."@
                            &&& final(self).dirs_extended_by(*old(self), segs, i)
                        },
                        MkdirStep::MkNotDir(i) => {
                            &&& r is Err
                            &&& r->Err_0 is FSError
                            &&& r->Err_0.spec_message() == "'"@ + segs[i - 1]
                                + "' s not a directory"@
                            &&& final(self).dirs_extended_by(*old(self), segs, i)
                        },
                    }
                }
            }),
    {
        let stripped = match starts_with_root_directory(path) {
            Ok(s) => s,
            Err(e) => {
                return Err(e);
            },
        };
        let parts = split_path(stripped);
        let ghost segs = spec_split(path@.drop_first());
        proof {
            assert(parts.deep_view() == segs);
        }
        let n = parts.len();
        let mut idx: usize = 0;
        proof {
            assert(self.dirs_extended_by(*old(self), segs, 0)) by {
                assert(forall|p: Seq<Seq<char>>|
                    self.is_dir_path(p) <==> old(self).is_dir_path(p) || (exists|t: int|
                        1 <= t <= 0 && p == segs.take(t) && !file_in(old(self).files@, p)));
            }
        }
        while idx < n
            invariant
                old(self).wf(),
                self.wf(),
                self.files@ == old(self).files@,
                path@.len() > 0,
                path@[0] == '/',
                segs == spec_split(path@.drop_first()),
                parts.deep_view() == segs,
                n == parts@.len(),
                idx <= n,
                mkdir_outcome(old(self).files@, segs, 0) == mkdir_outcome(
                    old(self).files@,
                    segs,
                    idx as int,
                ),
                forall|j: int| 0 <= j < idx ==> (#[trigger] segs[j]).len() >= 1,
                forall|j: int| 0 <= j < idx ==> spec_valid_name(#[trigger] segs[j]),
                self.dirs_extended_by(*old(self), segs, idx as int),
                idx > 0 ==> self.is_dir_path(segs.take(idx as int)) || file_in(
                    old(self).files@,
                    segs.take(idx as int),
                ),
            decreases n - idx,
        {
            proof {
                assert(segs[idx as int] == parts@[idx as int]@);
                assert(segs.len() == parts@.len());
            }
            if parts[idx].as_str().is_empty() {
                proof {
                    assert(segs[idx as int].len() == 0);
                    assert(mkdir_outcome(old(self).files@, segs, idx as int)
                        == MkdirStep::MkEmpty(idx as int));
                }
                return Err(CudddlyError::FSError("Directory name cannot be empty".to_owned()));
            }
            if !is_valid_filename(parts[idx].as_str()) {
                let msg = concat3("'", parts[idx].as_str(), "' is not a valid directory name.");
                proof {
                    assert(mkdir_outcome(old(self).files@, segs, idx as int)
                        == MkdirStep::MkInvalid(idx as int));
                }
                return Err(CudddlyError::FSError(msg));
            }
            if idx >= 1 {
                if let Some(_fi) = self.find_file_prefix(&parts, idx) {
                    let msg = concat3("'", parts[idx - 1].as_str(), "' s not a directory");
                    proof {
                        assert(segs[idx - 1] == parts@[idx - 1]@);
                        assert(file_in(old(self).files@, segs.take(idx as int)));
                        assert(mkdir_outcome(old(self).files@, segs, idx as int)
                            == MkdirStep::MkNotDir(idx as int));
                    }
                    return Err(CudddlyError::FSError(msg));
                }
            }
            let already_dir = self.is_dir_prefix(&parts, idx + 1);
            let already_file = self.find_file_prefix(&parts, idx + 1).is_some();
            let ghost pre = *self;
            if !already_dir && !already_file {
                let np = clone_prefix(&parts, idx + 1);
                self.dirs.push(np);
                proof {
                    let p_new = segs.take(idx + 1);
                    assert(self.dirs@.len() == pre.dirs@.len() + 1);
                    assert(self.dirs@[pre.dirs@.len() as int].deep_view() == p_new);
                    assert(forall|j: int|
                        0 <= j < pre.dirs@.len() ==> self.dirs@[j] == pre.dirs@[j]);
                    assert forall|p: Seq<Seq<char>>| #[trigger]
                        self.is_dir_path(p) <==> (pre.is_dir_path(p) || p == p_new) by {
                        if self.is_dir_path(p) && p.len() > 0 {
                            let w = choose|i: int|
                                0 <= i < self.dirs@.len() && self.dirs@[i].deep_view() == p;
                            if w < pre.dirs@.len() {
                                assert(pre.is_dir_path(p));
                            }
                        }
                        if pre.is_dir_path(p) && p.len() > 0 {
                            let w = choose|i: int|
                                0 <= i < pre.dirs@.len() && pre.dirs@[i].deep_view() == p;
                            assert(self.dirs@[w].deep_view() == p);
                        }
                        if p == p_new {
                            assert(self.dirs@[pre.dirs@.len() as int].deep_view() == p);
                        }
                    }
                    // well-formedness of the grown directory list
                    let m = pre.dirs@.len() as int;
                    assert(p_new.len() == idx + 1);
                    assert(self.dirs@[m]@.len() == idx + 1);
                    assert forall|k: int| 0 <= k < idx + 1 implies spec_valid_name(
                        #[trigger] self.dirs@[m]@[k]@,
                    ) && self.dirs@[m]@[k]@.len() >= 1 by {
                        assert(self.dirs@[m]@[k]@ == parts@[k]@);
                        assert(parts@[k]@ == segs[k]);
                    }
                    assert forall|i: int| 0 <= i < m implies self.dirs@[i].deep_view()
                        != p_new by {
                        if self.dirs@[i].deep_view() == p_new {
                            assert(pre.dirs@[i].deep_view() == p_new);
                            assert(pre.is_dir_path(p_new));
                        }
                    }
                    assert(p_new.drop_last() =~= segs.take(idx as int));
                    assert(pre.is_dir_path(segs.take(idx as int))) by {
                        if idx > 0 {
                            assert(!file_in(pre.files@, segs.take(idx as int)));
                        }
                    }
                    assert(self.wf()) by {
                        assert forall|i: int|
                            0 <= i < self.dirs@.len() implies self.is_dir_path(
                            #[trigger] self.dirs@[i].deep_view().drop_last(),
                        ) by {
                            if i < pre.dirs@.len() {
                                assert(pre.is_dir_path(pre.dirs@[i].deep_view().drop_last()));
                            } else {
                                assert(self.dirs@[i].deep_view() == p_new);
                            }
                        }
                        assert forall|i: int|
                            0 <= i < self.files@.len() implies self.is_dir_path(
                            #[trigger] self.files@[i].path.deep_view().drop_last(),
                        ) by {
                            assert(pre.is_dir_path(self.files@[i].path.deep_view().drop_last()));
                        }
                        assert forall|i: int|
                            0 <= i < self.files@.len() implies !self.is_dir_path(
                            #[trigger] self.files@[i].path.deep_view(),
                        ) by {
                            assert(!pre.is_dir_path(self.files@[i].path.deep_view()));
                            assert(self.files@[i].path.deep_view() != p_new) by {
                                if self.files@[i].path.deep_view() == p_new {
                                    assert(file_in(old(self).files@, p_new));
                                }
                            }
                        }
                    }
                }
            }
            proof {
                let p_new = segs.take(idx + 1);
                assert(self.dirs_extended_by(*old(self), segs, idx + 1)) by {
                    assert forall|p: Seq<Seq<char>>| #[trigger]
                        self.is_dir_path(p) <==> (old(self).is_dir_path(p) || (exists|t: int|
                            1 <= t <= idx + 1 && p == segs.take(t) && !file_in(
                                old(self).files@,
                                p,
                            )))  by {
                        if self.is_dir_path(p) {
                            if p != p_new || (already_dir || already_file) {
                                assert(pre.is_dir_path(p));
                            }
                        }
                        if exists|t: int|
                            1 <= t <= idx + 1 && p == segs.take(t) && !file_in(
                                old(self).files@,
                                p,
                            ) {
                            let t = choose|t: int|
                                1 <= t <= idx + 1 && p == segs.take(t) && !file_in(
                                    old(self).files@,
                                    p,
                                );
                            if t <= idx {
                                assert(pre.is_dir_path(p));
                                assert(self.is_dir_path(p));
                            } else {
                                assert(p == p_new);
                                if already_dir || already_file {
                                    assert(self.is_dir_path(p));
                                } else {
                                    assert(self.is_dir_path(p_new));
                                }
                            }
                        }
                    }
                }
                assert(self.is_dir_path(p_new) || file_in(old(self).files@, p_new));
                assert(mkdir_outcome(old(self).files@, segs, idx as int) == mkdir_outcome(
                    old(self).files@,
                    segs,
                    idx + 1,
                ));
            }
            idx = idx + 1;
        }
        Ok(())
    }

    /// After a walk of `bound` steps: files untouched, and the directory set
    /// grew by exactly the walked prefixes that were not standing files.
    pub open spec fn dirs_extended_by(
        self,
        prev: NamenodeState,
        segs: Seq<Seq<char>>,
        bound: int,
    ) -> bool {
        forall|p: Seq<Seq<char>>| #[trigger]
            self.is_dir_path(p) <==> (prev.is_dir_path(p) || (exists|t: int|
                1 <= t <= bound && p == segs.take(t) && !file_in(prev.files@, p)))
    }
}

/// Creating a directory path is idempotent: once a `make_dir` walk has run to
/// completion, the same walk succeeds again and changes nothing — the walk's
/// outcome depends only on the committed files, which `make_dir` never
/// touches, and every prefix it would add is already a directory.
pub proof fn lemma_mkdir_idempotent(
    s0: NamenodeState,
    s1: NamenodeState,
    s2: NamenodeState,
    segs: Seq<Seq<char>>,
)
    requires
        mkdir_outcome(s0.files@, segs, 0) is MkDone,
        s1.files@ == s0.files@,
        s1.dirs_extended_by(s0, segs, segs.len() as int),
        s2.files@ == s1.files@,
        s2.dirs_extended_by(s1, segs, segs.len() as int),
    ensures
        mkdir_outcome(s1.files@, segs, 0) is MkDone,
        forall|p: Seq<Seq<char>>| s2.is_dir_path(p) <==> s1.is_dir_path(p),
        forall|p: Seq<Seq<char>>| s2.is_file_path(p) <==> s1.is_file_path(p),
{
    assert(mkdir_outcome(s1.files@, segs, 0) == mkdir_outcome(s0.files@, segs, 0));
    assert forall|p: Seq<Seq<char>>| s2.is_dir_path(p) <==> s1.is_dir_path(p) by {
        assert(s2.is_dir_path(p) <==> (s1.is_dir_path(p) || (exists|t: int|
            1 <= t <= segs.len() && p == segs.take(t) && !file_in(s1.files@, p))));
        if exists|t: int| 1 <= t <= segs.len() && p == segs.take(t) && !file_in(s1.files@, p) {
            let t = choose|t: int|
                1 <= t <= segs.len() && p == segs.take(t) && !file_in(s1.files@, p);
            assert(s1.is_dir_path(p) <==> (s0.is_dir_path(p) || (exists|u: int|
                1 <= u <= segs.len() && p == segs.take(u) && !file_in(s0.files@, p))));
            assert(1 <= t <= segs.len() && p == segs.take(t) && !file_in(s0.files@, p));
        }
    }
}

/// How a path resolves against the namespace: a directory, a file, a file
/// standing in the middle of the path, or nothing at all.
pub enum Resolved {
    RDir,
    RFile,
    RNotDir,
    RMissing,
}

impl NamenodeState {
    /// Walks `segs` from depth `d` (whose prefix is assumed to be a
    /// directory) and says what the full path resolves to.
    pub open spec fn resolve_from(self, segs: Seq<Seq<char>>, d: int) -> Resolved
        decreases segs.len() - d,
    {
        if d < 0 || d >= segs.len() {
            Resolved::RDir
        } else if file_in(self.files@, segs.take(d + 1)) {
            if d + 1 == segs.len() {
                Resolved::RFile
            } else {
                Resolved::RNotDir
            }
        } else if self.is_dir_path(segs.take(d + 1)) {
            self.resolve_from(segs, d + 1)
        } else {
            Resolved::RMissing
        }
    }

    /// `name` labels an entry directly under directory path `p`.
    pub open spec fn is_child_name(self, p: Seq<Seq<char>>, name: Seq<char>) -> bool {
        self.is_dir_path(p.push(name)) || self.is_file_path(p.push(name))
    }

    /// `names` is exactly the set of child names of `p`, without duplicates.
    pub open spec fn children_ok(self, p: Seq<Seq<char>>, names: Seq<Seq<char>>) -> bool {
        &&& forall|i: int| 0 <= i < names.len() ==> self.is_child_name(p, #[trigger] names[i])
        &&& forall|name: Seq<char>| #[trigger]
            self.is_child_name(p, name) ==> names.contains(name)
        &&& forall|i: int, j: int| 0 <= i < j < names.len() ==> names[i] != names[j]
    }

    /// Collects the names of the entries directly under the directory given
    /// by the first `k` segments of `parts`.
    fn list_children(&self, parts: &Vec<String>, k: usize) -> (r: Vec<String>)
        requires
            self.wf(),
            k <= parts@.len(),
        ensures
            self.children_ok(parts.deep_view().take(k as int), r.deep_view()),
    {
        let ghost p = parts.deep_view().take(k as int);
        let mut out: Vec<String> = Vec::new();
        let mut i: usize = 0;
        while i < self.dirs.len()
            invariant
                self.wf(),
                k <= parts@.len(),
                p == parts.deep_view().take(k as int),
                i <= self.dirs@.len(),
                forall|a: int|
                    0 <= a < out.deep_view().len() ==> self.is_child_name(
                        p,
                        #[trigger] out.deep_view()[a],
                    ),
                forall|a: int, b: int|
                    0 <= a < b < out.deep_view().len() ==> out.deep_view()[a]
                        != out.deep_view()[b],
                forall|ii: int|
                    0 <= ii < i && (#[trigger] self.dirs@[ii].deep_view()).len() == k + 1
                        && self.dirs@[ii].deep_view().take(k as int) == p ==> out.deep_view()
                        .contains(self.dirs@[ii].deep_view()[k as int]),
            decreases self.dirs@.len() - i,
        {
            if extends_prefix(&self.dirs[i], parts, k) {
                let name = self.dirs[i][k].clone();
                proof {
                    assert(self.dirs@[i as int].deep_view()[k as int] == name@);
                    assert(self.dirs@[i as int].deep_view() =~= p.push(name@));
                    assert(self.is_dir_path(p.push(name@)));
                }
                if !contains_string(&out, &name) {
                    let ghost prev = out.deep_view();
                    out.push(name);
                    proof {
                        assert(out.deep_view() =~= prev.push(name@));
                        assert forall|x: Seq<char>| prev.contains(x) implies out.deep_view()
                            .contains(x) by {
                            let w = choose|w: int| 0 <= w < prev.len() && prev[w] == x;
                            assert(out.deep_view()[w] == x);
                        }
                        assert(out.deep_view().contains(name@)) by {
                            assert(out.deep_view()[prev.len() as int] == name@);
                        }
                    }
                } else {
                    proof {
                        assert(out.deep_view().contains(name@));
                    }
                }
            }
            i = i + 1;
        }
        let mut j: usize = 0;
        while j < self.files.len()
            invariant
                self.wf(),
                k <= parts@.len(),
                p == parts.deep_view().take(k as int),
                j <= self.files@.len(),
                forall|a: int|
                    0 <= a < out.deep_view().len() ==> self.is_child_name(
                        p,
                        #[trigger] out.deep_view()[a],
                    ),
                forall|a: int, b: int|
                    0 <= a < b < out.deep_view().len() ==> out.deep_view()[a]
                        != out.deep_view()[b],
                forall|ii: int|
                    0 <= ii < self.dirs@.len() && (#[trigger] self.dirs@[ii].deep_view()).len() == k
                        + 1 && self.dirs@[ii].deep_view().take(k as int) == p ==> out.deep_view()
                        .contains(self.dirs@[ii].deep_view()[k as int]),
                forall|ii: int|
                    0 <= ii < j && (#[trigger] self.files@[ii].path.deep_view()).len() == k + 1
                        && self.files@[ii].path.deep_view().take(k as int) == p ==> out.deep_view()
                        .contains(self.files@[ii].path.deep_view()[k as int]),
            decreases self.files@.len() - j,
        {
            if extends_prefix(&self.files[j].path, parts, k) {
                let name = self.files[j].path[k].clone();
                proof {
                    assert(self.files@[j as int].path.deep_view()[k as int] == name@);
                    assert(self.files@[j as int].path.deep_view() =~= p.push(name@));
                    assert(self.is_file_path(p.push(name@)));
                }
                if !contains_string(&out, &name) {
                    let ghost prev = out.deep_view();
                    out.push(name);
                    proof {
                        assert(out.deep_view() =~= prev.push(name@));
                        assert forall|x: Seq<char>| prev.contains(x) implies out.deep_view()
                            .contains(x) by {
                            let w = choose|w: int| 0 <= w < prev.len() && prev[w] == x;
                            assert(out.deep_view()[w] == x);
                        }
                        assert(out.deep_view().contains(name@)) by {
                            assert(out.deep_view()[prev.len() as int] == name@);
                        }
                    }
                } else {
                    proof {
                        assert(out.deep_view().contains(name@));
                    }
                }
            }
            j = j + 1;
        }
        proof {
            assert forall|name: Seq<char>| #[trigger]
                self.is_child_name(p, name) implies out.deep_view().contains(name) by {
                if self.is_dir_path(p.push(name)) {
                    let w = choose|ii: int|
                        0 <= ii < self.dirs@.len() && self.dirs@[ii].deep_view() == p.push(name);
                    assert(self.dirs@[w].deep_view().len() == k + 1);
                    assert(self.dirs@[w].deep_view().take(k as int) =~= p);
                    assert(self.dirs@[w].deep_view()[k as int] == name);
                } else {
                    let w = choose|ii: int|
                        0 <= ii < self.files@.len() && self.files@[ii].path.deep_view() == p.push(
                            name,
                        );
                    assert(self.files@[w].path.deep_view().len() == k + 1);
                    assert(self.files@[w].path.deep_view().take(k as int) =~= p);
                    assert(self.files@[w].path.deep_view()[k as int] == name);
                }
            }
        }
        out
    }
}

/// The stop of a parent-directory walk: the walk reaches the parent, or a
/// file stands on the way (`PFileAt(d)`: the prefix of length `d` is a
/// file), or a prefix is missing entirely (`PNoDir(d)`: the prefix of length
/// `d + 1` does not exist).
pub enum ParentCheck {
    POk,
    PFileAt(int),
    PNoDir(int),
}

impl NamenodeState {
    /// Walks toward the parent directory of `segs` from depth `d`.
    pub open spec fn parent_walk(self, segs: Seq<Seq<char>>, d: int) -> ParentCheck
        decreases segs.len() - d,
    {
        if d >= 1 && file_in(self.files@, segs.take(d)) {
            ParentCheck::PFileAt(d)
        } else if d < 0 || d >= segs.len() - 1 {
            ParentCheck::POk
        } else if self.is_dir_path(segs.take(d + 1)) || file_in(self.files@, segs.take(d + 1)) {
            self.parent_walk(segs, d + 1)
        } else {
            ParentCheck::PNoDir(d)
        }
    }

    /// A completed parent walk means the parent prefix is a directory.
    pub proof fn lemma_parent_walk_ok(self, segs: Seq<Seq<char>>, d: int)
        requires
            0 <= d <= segs.len() - 1,
            self.parent_walk(segs, d) is POk,
            self.is_dir_path(segs.take(d)),
        ensures
            self.is_dir_path(segs.take(segs.len() - 1)),
        decreases segs.len() - d,
    {
        if d < segs.len() - 1 {
            assert(self.is_dir_path(segs.take(d + 1)) || file_in(self.files@, segs.take(d + 1)));
            assert(!(self.parent_walk(segs, d + 1) is PFileAt));
            assert(!file_in(self.files@, segs.take(d + 1)));
            self.lemma_parent_walk_ok(segs, d + 1);
        }
    }

    /// Runs the parent walk of `parts`.
    fn parent_walk_exec(&self, parts: &Vec<String>) -> (r: ParentCheckHit)
        requires
            self.wf(),
            parts@.len() >= 1,
        ensures
            match r {
                ParentCheckHit::HOk => self.parent_walk(parts.deep_view(), 0) is POk,
                ParentCheckHit::HFileAt(d) => self.parent_walk(parts.deep_view(), 0)
                    == ParentCheck::PFileAt(d as int) && 1 <= d < parts@.len(),
                ParentCheckHit::HNoDir(d) => self.parent_walk(parts.deep_view(), 0)
                    == ParentCheck::PNoDir(d as int) && 0 <= d < parts@.len() - 1,
            },
    {
        let ghost segs = parts.deep_view();
        let n = parts.len();
        let mut d: usize = 0;
        while d < n - 1
            invariant
                self.wf(),
                segs == parts.deep_view(),
                n == parts@.len(),
                n >= 1,
                0 <= d <= n - 1,
                self.parent_walk(segs, 0) == self.parent_walk(segs, d as int),
                d >= 1 ==> !file_in(self.files@, segs.take(d as int)),
            decreases n - d,
        {
            if d + 1 >= 1 {
                if let Some(_fi) = self.find_file_prefix(parts, d + 1) {
                    proof {
                        assert(self.parent_walk(segs, d as int) == self.parent_walk(segs, d + 1));
                        assert(self.parent_walk(segs, d + 1) == ParentCheck::PFileAt(d + 1));
                    }
                    return ParentCheckHit::HFileAt(d + 1);
                }
            }
            if !self.is_dir_prefix(parts, d + 1) {
                proof {
                    assert(self.parent_walk(segs, d as int) == ParentCheck::PNoDir(d as int));
                }
                return ParentCheckHit::HNoDir(d);
            }
            d = d + 1;
        }
        proof {
            assert(self.parent_walk(segs, d as int) is POk);
        }
        ParentCheckHit::HOk
    }
}

/// The executable mirror of [`ParentCheck`], carrying machine indices.
pub enum ParentCheckHit {
    HOk,
    HFileAt(usize),
    HNoDir(usize),
}

/// The executable mirror of [`Resolved`]; the file arm carries the index of
/// the resolved file entry.
pub enum ResolveHit {
    RHDir,
    RHFile(usize),
    RHNotDir,
    RHMissing,
}

impl NamenodeState {
    /// Resolves `parts` against the namespace.
    fn resolve_exec(&self, parts: &Vec<String>) -> (r: ResolveHit)
        requires
            self.wf(),
            parts@.len() >= 1,
        ensures
            match r {
                ResolveHit::RHDir => self.resolve_from(parts.deep_view(), 0) is RDir,
                ResolveHit::RHFile(fi) => self.resolve_from(parts.deep_view(), 0) is RFile && fi
                    < self.files@.len() && self.files@[fi as int].path.deep_view()
                    == parts.deep_view(),
                ResolveHit::RHNotDir => self.resolve_from(parts.deep_view(), 0) is RNotDir,
                ResolveHit::RHMissing => self.resolve_from(parts.deep_view(), 0) is RMissing,
            },
    {
        let ghost segs = parts.deep_view();
        let n = parts.len();
        let mut d: usize = 0;
        while d < n
            invariant
                self.wf(),
                segs == parts.deep_view(),
                n == parts@.len(),
                d <= n,
                self.resolve_from(segs, 0) == self.resolve_from(segs, d as int),
            decreases n - d,
        {
            if let Some(fi) = self.find_file_prefix(parts, d + 1) {
                if d + 1 == n {
                    proof {
                        assert(segs.take(d + 1) =~= segs);
                        assert(self.resolve_from(segs, d as int) is RFile);
                    }
                    return ResolveHit::RHFile(fi);
                } else {
                    return ResolveHit::RHNotDir;
                }
            }
            if !self.is_dir_prefix(parts, d + 1) {
                return ResolveHit::RHMissing;
            }
            d = d + 1;
        }
        ResolveHit::RHDir
    }

    /// Lists the entries under `path`: the child names of a directory, or the
    /// file's own name for a file.
    pub fn list(&self, path: &str) -> (r: CuddlyResult<Vec<String>>)
        requires
            self.wf(),
        ensures
            ({
                if path@.len() == 0 || path@[0] != '/' {
                    &&& r is Err
                    &&& r->Err_0 is FSError
                    &&& r->Err_0.spec_message() == "Has to start with root directory"@
                } else {
                    let rest = path@.drop_first();
                    if rest.len() == 0 {
                        &&& r is Ok
                        &&& self.children_ok(Seq::empty(), r->Ok_0.deep_view())
                    } else {
                        let segs = spec_split(rest);
                        match self.resolve_from(segs, 0) {
                            Resolved::RDir => {
                                &&& r is Ok
                                &&& self.children_ok(segs, r->Ok_0.deep_view())
                            },
                            Resolved::RFile => {
                                &&& r is Ok
                                &&& r->Ok_0.deep_view() == seq![segs.last()]
                            },
                            Resolved::RNotDir => {
                                &&& r is Err
                                &&& r->Err_0 is FSError
                                &&& r->Err_0.spec_message() == "'"@ + rest + "': Not a directory"@
                            },
                            Resolved::RMissing => {
                                &&& r is Err
                                &&& r->Err_0 is FSError
                                &&& r->Err_0.spec_message() == "'"@ + rest
                                    + "': No such file or directory"@
                            },
                        }
                    }
                }
            }),
    {
        let stripped = match starts_with_root_directory(path) {
            Ok(s) => s,
            Err(e) => {
                return Err(e);
            },
        };
        if stripped.is_empty() {
            let root_parts: Vec<String> = Vec::new();
            let names = self.list_children(&root_parts, 0);
            proof {
                assert(root_parts.deep_view().take(0) =~= Seq::<Seq<char>>::empty());
            }
            return Ok(names);
        }
        let parts = split_path(stripped);
        let ghost segs = spec_split(path@.drop_first());
        proof {
            assert(parts.deep_view() == segs);
        }
        match self.resolve_exec(&parts) {
            ResolveHit::RHDir => {
                let k = parts.len();
                let names = self.list_children(&parts, k);
                proof {
                    assert(parts.deep_view().take(k as int) =~= segs);
                }
                Ok(names)
            },
            ResolveHit::RHFile(_fi) => {
                let mut v: Vec<String> = Vec::new();
                v.push(parts[parts.len() - 1].clone());
                proof {
                    assert(v.deep_view() =~= seq![segs.last()]);
                }
                Ok(v)
            },
            ResolveHit::RHNotDir => Err(
                CudddlyError::FSError(concat3("'", stripped, "': Not a directory")),
            ),
            ResolveHit::RHMissing => Err(
                CudddlyError::FSError(concat3("'", stripped, "': No such file or directory")),
            ),
        }
    }

    /// Returns the ordered block list of the file at `path`.
    pub fn open_file(&self, path: &str) -> (r: CuddlyResult<Vec<Block>>)
        requires
            self.wf(),
        ensures
            ({
                if path@.len() == 0 || path@[0] != '/' {
                    &&& r is Err
                    &&& r->Err_0 is FSError
                    &&& r->Err_0.spec_message() == "Has to start with root directory"@
                } else {
                    let rest = path@.drop_first();
                    let segs = spec_split(rest);
                    match self.resolve_from(segs, 0) {
                        Resolved::RFile => {
                            &&& r is Ok
                            &&& r->Ok_0@ == self.file_blocks(segs)
                        },
                        Resolved::RDir => {
                            &&& r is Err
                            &&& r->Err_0 is FSError
                            &&& r->Err_0.spec_message() == "'"@ + rest
                                + "': Is not a file but a directory"@
                        },
                        Resolved::RNotDir => {
                            &&& r is Err
                            &&& r->Err_0 is FSError
                            &&& r->Err_0.spec_message() == "'"@ + rest + "': Not a directory"@
                        },
                        Resolved::RMissing => {
                            &&& r is Err
                            &&& r->Err_0 is FSError
                            &&& r->Err_0.spec_message() == "'"@ + rest
                                + "': No such file or directory"@
                        },
                    }
                }
            }),
    {
        let stripped = match starts_with_root_directory(path) {
            Ok(s) => s,
            Err(e) => {
                return Err(e);
            },
        };
        let parts = split_path(stripped);
        let ghost segs = spec_split(path@.drop_first());
        proof {
            assert(parts.deep_view() == segs);
        }
        match self.resolve_exec(&parts) {
            ResolveHit::RHFile(fi) => {
                let blocks = copy_blocks(&self.files[fi].blocks);
                proof {
                    let w = choose|i: int|
                        0 <= i < self.files@.len() && self.files@[i].path.deep_view() == segs;
                    assert(self.files@[w].path.deep_view() == segs);
                    assert(w == fi as int);
                }
                Ok(blocks)
            },
            ResolveHit::RHDir => Err(
                CudddlyError::FSError(concat3("'", stripped, "': Is not a file but a directory")),
            ),
            ResolveHit::RHNotDir => Err(
                CudddlyError::FSError(concat3("'", stripped, "': Not a directory")),
            ),
            ResolveHit::RHMissing => Err(
                CudddlyError::FSError(concat3("'", stripped, "': No such file or directory")),
            ),
        }
    }

    /// Binds `blocks` to `path` as a new file leaf.  Fails if the parent walk
    /// hits a file or a missing directory, or if the leaf name is taken.
    pub fn create_file(&mut self, path: &str, blocks: &[Block]) -> (r: CuddlyResult<()>)
        requires
            old(self).wf(),
        ensures
            final(self).wf(),
            final(self).dirs@ == old(self).dirs@,
            ({
                if path@.len() == 0 || path@[0] != '/' {
                    &&& r is Err
                    &&& r->Err_0 is FSError
                    &&& r->Err_0.spec_message() == "Has to start with root directory"@
                    &&& final(self).files@ == old(self).files@
                } else {
                    let segs = spec_split(path@.drop_first());
                    match old(self).parent_walk(segs, 0) {
                        ParentCheck::PFileAt(d) => {
                            &&& r is Err
                            &&& r->Err_0 is FSError
                            &&& r->Err_0.spec_message() == "'"@ + segs[d - 1]
                                + "': Directory expected, but got file"@
                            &&& final(self).files@ == old(self).files@
                        },
                        ParentCheck::PNoDir(d) => {
                            &&& r is Err
                            &&& r->Err_0 is FSError
                            &&& r->Err_0.spec_message() == "'"@ + segs[d] + "': No such directory"@
                            &&& final(self).files@ == old(self).files@
                        },
                        ParentCheck::POk => {
                            if old(self).is_dir_path(segs) || old(self).is_file_path(segs) {
                                &&& r is Err
                                &&& r->Err_0 is FSError
                                &&& r->Err_0.spec_message() == "'"@ + segs.last()
                                    + "': File or directory already exists"@
                                &&& final(self).files@ == old(self).files@
                            } else {
                                &&& r is Ok
                                &&& final(self).files@.len() == old(self).files@.len() + 1
                                &&& final(self).files@.take(old(self).files@.len() as int) == old(
                                    self,
                                ).files@
                                &&& final(self).files@.last().path.deep_view() == segs
                                &&& final(self).files@.last().blocks@ == blocks@
                            }
                        },
                    }
                }
            }),
    {
        let stripped = match starts_with_root_directory(path) {
            Ok(s) => s,
            Err(e) => {
                return Err(e);
            },
        };
        let parts = split_path(stripped);
        let ghost segs = spec_split(path@.drop_first());
        proof {
            assert(parts.deep_view() == segs);
        }
        match self.parent_walk_exec(&parts) {
            ParentCheckHit::HFileAt(d) => {
                proof {
                    assert(segs[d - 1] == parts@[d - 1]@);
                }
                Err(
                    CudddlyError::FSError(
                        concat3("'", parts[d - 1].as_str(), "': Directory expected, but got file"),
                    ),
                )
            },
            ParentCheckHit::HNoDir(d) => {
                proof {
                    assert(segs[d as int] == parts@[d as int]@);
                }
                Err(
                    CudddlyError::FSError(
                        concat3("'", parts[d].as_str(), "': No such directory"),
                    ),
                )
            },
            ParentCheckHit::HOk => {
                let n = parts.len();
                let leaf_dir = self.is_dir_prefix(&parts, n);
                let leaf_file = self.find_file_prefix(&parts, n).is_some();
                proof {
                    assert(parts.deep_view().take(n as int) =~= segs);
                }
                if leaf_dir || leaf_file {
                    proof {
                        assert(segs.last() == parts@[n - 1]@);
                    }
                    Err(
                        CudddlyError::FSError(
                            concat3(
                                "'",
                                parts[n - 1].as_str(),
                                "': File or directory already exists",
                            ),
                        ),
                    )
                } else {
                    let block_list = copy_blocks_slice(blocks);
                    let ghost pre = *self;
                    let entry = FileEntry { path: parts, blocks: block_list };
                    self.files.push(entry);
                    proof {
                        let m = pre.files@.len() as int;
                        assert(self.files@.take(m) =~= pre.files@);
                        assert(self.files@[m].path.deep_view() == segs);
                        assert(forall|i: int| 0 <= i < m ==> self.files@[i] == pre.files@[i]);
                        assert(self.dirs == pre.dirs);
                        assert forall|p: Seq<Seq<char>>| #[trigger]
                            self.is_dir_path(p) == pre.is_dir_path(p) by {
                            if self.is_dir_path(p) && p.len() > 0 {
                                let w = choose|i: int|
                                    0 <= i < self.dirs@.len() && self.dirs@[i].deep_view() == p;
                                assert(pre.dirs@[w].deep_view() == p);
                            }
                            if pre.is_dir_path(p) && p.len() > 0 {
                                let w = choose|i: int|
                                    0 <= i < pre.dirs@.len() && pre.dirs@[i].deep_view() == p;
                                assert(self.dirs@[w].deep_view() == p);
                            }
                        }
                        assert(segs.take(0) =~= Seq::<Seq<char>>::empty());
                        assert(segs.len() >= 1);
                        pre.lemma_parent_walk_ok(segs, 0);
                        assert(self.wf()) by {
                            assert forall|i: int, j: int|
                                0 <= i < j < self.files@.len() implies self.files@[i].path.deep_view()
                                != self.files@[j].path.deep_view() by {
                                if j == m {
                                    if self.files@[i].path.deep_view() == segs {
                                        assert(file_in(pre.files@, segs));
                                    }
                                }
                            }
                            assert forall|i: int|
                                0 <= i < self.files@.len() implies #[trigger] self.files@[i].path@.len()
                                >= 1 by {
                                if i == m {
                                    assert(self.files@[m].path@.len() == segs.len());
                                }
                            }
                            assert forall|i: int|
                                0 <= i < self.files@.len() implies self.is_dir_path(
                                #[trigger] self.files@[i].path.deep_view().drop_last(),
                            ) by {
                                if i == m {
                                    assert(segs.drop_last() =~= segs.take(segs.len() - 1));
                                    assert(pre.is_dir_path(segs.take(segs.len() - 1)));
                                } else {
                                    assert(pre.is_dir_path(
                                        pre.files@[i].path.deep_view().drop_last(),
                                    ));
                                }
                            }
                            assert forall|i: int|
                                0 <= i < self.files@.len() implies !self.is_dir_path(
                                #[trigger] self.files@[i].path.deep_view(),
                            ) by {
                                if i == m {
                                    assert(!pre.is_dir_path(segs));
                                } else {
                                    assert(!pre.is_dir_path(pre.files@[i].path.deep_view()));
                                }
                            }
                        }
                    }
                    Ok(())
                }
            },
        }
    }

    /// A file may be created at `path`: the path is absolute and non-empty
    /// with no trailing slash, the parent walk completes, and the leaf is
    /// free.
    pub open spec fn check_creation_ok(self, path: Seq<char>) -> bool {
        &&& path.len() > 0
        &&& path[0] == '/'
        &&& path.drop_first().len() > 0
        &&& path.drop_first().last() != '/'
        &&& self.parent_walk(spec_split(path.drop_first()), 0) is POk
        &&& !self.is_dir_path(spec_split(path.drop_first()))
        &&& !self.is_file_path(spec_split(path.drop_first()))
    }

    /// Checks that a file could be created at `path`: the path is absolute,
    /// names a free leaf, and its parent exists as a directory.
    pub fn check_file_creation(&self, path: &str) -> (r: CuddlyResult<()>)
        requires
            self.wf(),
        ensures
            ({
                if path@.len() == 0 || path@[0] != '/' {
                    &&& r is Err
                    &&& r->Err_0 is FSError
                    &&& r->Err_0.spec_message() == "Has to start with root directory"@
                } else {
                    let rest = path@.drop_first();
                    if rest.len() > 0 && rest.last() == '/' {
                        &&& r is Err
                        &&& r->Err_0 is FSError
                        &&& r->Err_0.spec_message() == "'/' is not a valid filename"@
                    } else if rest.len() == 0 {
                        &&& r is Err
                        &&& r->Err_0 is FSError
                        &&& r->Err_0.spec_message() == "Path and filename required"@
                    } else {
                        let segs = spec_split(rest);
                        match self.parent_walk(segs, 0) {
                            ParentCheck::PFileAt(d) => {
                                &&& r is Err
                                &&& r->Err_0 is FSError
                                &&& r->Err_0.spec_message() == "'"@ + segs[d - 1]
                                    + "': Directory expected, but got file"@
                            },
                            ParentCheck::PNoDir(d) => {
                                &&& r is Err
                                &&& r->Err_0 is FSError
                                &&& r->Err_0.spec_message() == "'"@ + segs[d]
                                    + "': No such directory"@
                            },
                            ParentCheck::POk => {
                                if self.is_dir_path(segs) || self.is_file_path(segs) {
                                    &&& r is Err
                                    &&& r->Err_0 is FSError
                                    &&& r->Err_0.spec_message() == "'"@ + segs.last()
                                        + "': File or directory already exists"@
                                } else {
                                    r is Ok
                                }
                            },
                        }
                    }
                }
            }),
    {
        let stripped = match starts_with_root_directory(path) {
            Ok(s) => s,
            Err(e) => {
                return Err(e);
            },
        };
        let m = stripped.unicode_len();
        if m > 0 && stripped.get_char(m - 1) == '/' {
            return Err(CudddlyError::FSError("'/' is not a valid filename".to_owned()));
        }
        if m == 0 {
            return Err(CudddlyError::FSError("Path and filename required".to_owned()));
        }
        let parts = split_path(stripped);
        let ghost segs = spec_split(path@.drop_first());
        proof {
            assert(parts.deep_view() == segs);
        }
        match self.parent_walk_exec(&parts) {
            ParentCheckHit::HFileAt(d) => {
                proof {
                    assert(segs[d - 1] == parts@[d - 1]@);
                }
                Err(
                    CudddlyError::FSError(
                        concat3("'", parts[d - 1].as_str(), "': Directory expected, but got file"),
                    ),
                )
            },
            ParentCheckHit::HNoDir(d) => {
                proof {
                    assert(segs[d as int] == parts@[d as int]@);
                }
                Err(
                    CudddlyError::FSError(
                        concat3("'", parts[d].as_str(), "': No such directory"),
                    ),
                )
            },
            ParentCheckHit::HOk => {
                let n = parts.len();
                let leaf_dir = self.is_dir_prefix(&parts, n);
                let leaf_file = self.find_file_prefix(&parts, n).is_some();
                proof {
                    assert(parts.deep_view().take(n as int) =~= segs);
                }
                if leaf_dir || leaf_file {
                    proof {
                        assert(segs.last() == parts@[n - 1]@);
                    }
                    Err(
                        CudddlyError::FSError(
                            concat3(
                                "'",
                                parts[n - 1].as_str(),
                                "': File or directory already exists",
                            ),
                        ),
                    )
                } else {
                    Ok(())
                }
            },
        }
    }
}

impl NamenodeState {
    /// In a well-formed namespace no path is both a directory and a file.
    pub proof fn lemma_dir_file_disjoint(self, p: Seq<Seq<char>>)
        requires
            self.wf(),
            self.is_file_path(p),
        ensures
            !self.is_dir_path(p),
    {
        let w = choose|i: int|
            0 <= i < self.files@.len() && self.files@[i].path.deep_view() == p;
        assert(!self.is_dir_path(self.files@[w].path.deep_view()));
    }

    /// Every prefix of a directory path is a directory (prefix closure).
    pub proof fn lemma_dir_prefix(self, p: Seq<Seq<char>>, k: int)
        requires
            self.wf(),
            self.is_dir_path(p),
            0 <= k <= p.len(),
        ensures
            self.is_dir_path(p.take(k)),
        decreases p.len(),
    {
        if k == p.len() {
            assert(p.take(k) =~= p);
        } else if p.len() > 0 {
            let w = choose|i: int|
                0 <= i < self.dirs@.len() && self.dirs@[i].deep_view() == p;
            assert(self.is_dir_path(self.dirs@[w].deep_view().drop_last()));
            assert(p.drop_last() =~= p.take(p.len() - 1));
            assert(p.take(k) =~= p.drop_last().take(k));
            self.lemma_dir_prefix(p.drop_last(), k);
        }
    }

    /// If the parent prefix is a directory, the parent walk completes.
    pub proof fn lemma_parent_walk_complete(self, segs: Seq<Seq<char>>, d: int)
        requires
            self.wf(),
            segs.len() >= 1,
            0 <= d <= segs.len() - 1,
            self.is_dir_path(segs.take(segs.len() - 1)),
        ensures
            self.parent_walk(segs, d) is POk,
        decreases segs.len() - d,
    {
        let parent = segs.take(segs.len() - 1);
        if d >= 1 {
            assert(segs.take(d) =~= parent.take(d));
            self.lemma_dir_prefix(parent, d);
            if file_in(self.files@, segs.take(d)) {
                self.lemma_dir_file_disjoint(segs.take(d));
            }
        }
        if d < segs.len() - 1 {
            assert(segs.take(d + 1) =~= parent.take(d + 1));
            self.lemma_dir_prefix(parent, d + 1);
            self.lemma_parent_walk_complete(segs, d + 1);
        }
    }

    /// The parent walk completes exactly when the parent prefix is a
    /// directory.
    pub proof fn lemma_parent_walk_iff(self, segs: Seq<Seq<char>>)
        requires
            self.wf(),
            segs.len() >= 1,
        ensures
            self.parent_walk(segs, 0) is POk <==> self.is_dir_path(segs.take(segs.len() - 1)),
    {
        if self.parent_walk(segs, 0) is POk {
            assert(segs.take(0) =~= Seq::<Seq<char>>::empty());
            self.lemma_parent_walk_ok(segs, 0);
        }
        if self.is_dir_path(segs.take(segs.len() - 1)) {
            self.lemma_parent_walk_complete(segs, 0);
        }
    }
}

impl NamenodeState {
    /// A committed file is reachable: the resolve walk of its path ends at
    /// the file.  With the walk's completion this is the read-after-commit
    /// ordering guarantee — once `create_file` has bound a path, a later
    /// `open_file` of that path returns the committed block list.
    pub proof fn lemma_committed_file_resolves(self, segs: Seq<Seq<char>>, d: int)
        requires
            self.wf(),
            segs.len() >= 1,
            0 <= d < segs.len(),
            self.is_file_path(segs),
        ensures
            self.resolve_from(segs, d) is RFile,
        decreases segs.len() - d,
    {
        let w = choose|i: int|
            0 <= i < self.files@.len() && self.files@[i].path.deep_view() == segs;
        assert(self.is_dir_path(self.files@[w].path.deep_view().drop_last()));
        assert(segs.drop_last() =~= segs.take(segs.len() - 1));
        if d + 1 == segs.len() {
            assert(segs.take(d + 1) =~= segs);
        } else {
            assert(segs.take(d + 1) =~= segs.take(segs.len() - 1).take(d + 1));
            self.lemma_dir_prefix(segs.take(segs.len() - 1), d + 1);
            if file_in(self.files@, segs.take(d + 1)) {
                self.lemma_dir_file_disjoint(segs.take(d + 1));
            }
            self.lemma_committed_file_resolves(segs, d + 1);
        }
    }
}

/// A `make_dir` walk runs to completion exactly when every segment is a
/// non-empty valid name and no proper prefix is a standing file.
pub proof fn lemma_mkdir_outcome_iff(files: Seq<FileEntry>, segs: Seq<Seq<char>>, i: int)
    requires
        0 <= i <= segs.len(),
    ensures
        mkdir_outcome(files, segs, i) is MkDone <==> ((forall|j: int|
            i <= j < segs.len() ==> (#[trigger] segs[j]).len() >= 1 && spec_valid_name(segs[j]))
            && (forall|t: int|
            i <= t < segs.len() && t >= 1 ==> !file_in(files, #[trigger] segs.take(t)))),
    decreases segs.len() - i,
{
    if i < segs.len() {
        lemma_mkdir_outcome_iff(files, segs, i + 1);
    }
}

/// An element-for-element copy of a slice of blocks.
fn copy_blocks_slice(v: &[Block]) -> (r: Vec<Block>)
    ensures
        r@ == v@,
{
    let mut r: Vec<Block> = Vec::new();
    let mut i: usize = 0;
    while i < v.len()
        invariant
            i <= v@.len(),
            r@ == v@.take(i as int),
        decreases v@.len() - i,
    {
        r.push(v[i]);
        proof {
            assert(v@.take(i + 1) =~= v@.take(i as int).push(v@[i as int]));
        }
        i = i + 1;
    }
    proof {
        assert(v@.take(v@.len() as int) =~= v@);
    }
    r
}

/// Whether `v` holds a string whose characters equal `s`'s.
fn contains_string(v: &Vec<String>, s: &String) -> (r: bool)
    ensures
        r == v.deep_view().contains(s@),
{
    let mut i: usize = 0;
    while i < v.len()
        invariant
            i <= v@.len(),
            forall|j: int| 0 <= j < i ==> v@[j]@ != s@,
        decreases v@.len() - i,
    {
        if v[i] == *s {
            proof {
                assert(v.deep_view()[i as int] == s@);
            }
            return true;
        }
        i = i + 1;
    }
    proof {
        if v.deep_view().contains(s@) {
            let w = choose|j: int| 0 <= j < v.deep_view().len() && v.deep_view()[j] == s@;
            assert(v@[w]@ == s@);
        }
    }
    false
}

/// An element-for-element copy of a block list.
fn copy_blocks(v: &Vec<Block>) -> (r: Vec<Block>)
    ensures
        r@ == v@,
{
    let mut r: Vec<Block> = Vec::new();
    let mut i: usize = 0;
    while i < v.len()
        invariant
            i <= v@.len(),
            r@ == v@.take(i as int),
        decreases v@.len() - i,
    {
        r.push(v[i]);
        proof {
            assert(v@.take(i + 1) =~= v@.take(i as int).push(v@[i as int]));
        }
        i = i + 1;
    }
    proof {
        assert(v@.take(v@.len() as int) =~= v@);
    }
    r
}

} // verus!

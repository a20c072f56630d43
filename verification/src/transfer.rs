//! The file-transfer rules, stated over a model of the directories the
//! manager touches.
//!
//! `FsState` holds the directories and files under the manager's care as
//! plain values: a file is addressed by the directory it lies in and its
//! bare name, and carries its bytes. `copy_files` and `remove_files` give
//! the exact semantics of a transfer: which preconditions are fatal, that
//! a destination directory is created on demand, that a failure partway
//! leaves the files already copied in place.

use vstd::map::*;
use vstd::prelude::*;
use vstd::pervasive::VecAdditionalExecFns;

verus! {

/// One file: the directory it lies in, its bare name, and its bytes.
pub struct FsFile {
    pub dir: String,
    pub name: String,
    pub data: Vec<u8>,
}

impl FsFile {
    /// The file's address: its directory and its name.
    pub open spec fn key(self) -> (Seq<char>, Seq<char>) {
        (self.dir@, self.name@)
    }
}

/// The files of a sequence, as a map from address to bytes; on a
/// duplicated address the later entry wins.
pub open spec fn map_of(files: Seq<FsFile>) -> Map<(Seq<char>, Seq<char>), Seq<u8>>
    decreases files.len(),
{
    if files.len() == 0 {
        Map::empty()
    } else {
        map_of(files.drop_last()).insert(files.last().key(), files.last().data@)
    }
}

/// An address is in the map exactly when some file carries it.
pub proof fn lemma_map_of_domain(files: Seq<FsFile>, k: (Seq<char>, Seq<char>))
    ensures
        map_of(files).contains_key(k) <==> exists|i: int| 0 <= i < files.len() && files[i].key()
            == k,
    decreases files.len(),
{
    if files.len() > 0 {
        lemma_map_of_domain(files.drop_last(), k);
        if map_of(files).contains_key(k) {
            if files.last().key() != k {
                let i = choose|i: int|
                    0 <= i < files.drop_last().len() && files.drop_last()[i].key() == k;
                assert(files[i].key() == k);
            }
        }
        if exists|i: int| 0 <= i < files.len() && files[i].key() == k {
            let i = choose|i: int| 0 <= i < files.len() && files[i].key() == k;
            if i < files.len() - 1 {
                assert(files.drop_last()[i].key() == k);
            }
        }
    }
}

/// When no later file shares the address of the file at `i`, the map
/// carries that file's bytes there.
pub proof fn lemma_map_of_value(files: Seq<FsFile>, i: int)
    requires
        0 <= i < files.len(),
        forall|j: int| i < j < files.len() ==> files[j].key() != files[i].key(),
    ensures
        map_of(files).contains_key(files[i].key()),
        map_of(files)[files[i].key()] == files[i].data@,
    decreases files.len(),
{
    lemma_map_of_domain(files, files[i].key());
    if i < files.len() - 1 {
        assert(forall|j: int|
            i < j < files.drop_last().len() ==> files.drop_last()[j].key() == files[j].key());
        lemma_map_of_value(files.drop_last(), i);
        assert(files.drop_last()[i] == files[i]);
        assert(files.last().key() == files[files.len() - 1].key());
    }
}

/// Every file address is held at most once.
pub open spec fn files_wf(files: Seq<FsFile>) -> bool {
    forall|i: int, j: int| 0 <= i < j < files.len() ==> files[i].key() != files[j].key()
}

/// Ghost view of the directories under the manager's care: which
/// directories exist, and the bytes of each file by its address.
#[verifier::ext_equal]
pub struct FsView {
    pub dirs: Set<Seq<char>>,
    pub files: Map<(Seq<char>, Seq<char>), Seq<u8>>,
}

/// The state of the directories under the manager's care.
pub struct FsState {
    pub dirs: Vec<String>,
    pub files: Vec<FsFile>,
}

impl View for FsState {
    type V = FsView;

    open spec fn view(&self) -> FsView {
        FsView { dirs: self.dir_set(), files: self.file_map() }
    }
}

impl FsState {
    /// The directories that exist.
    pub open spec fn dir_set(self) -> Set<Seq<char>> {
        Set::new(|d: Seq<char>| exists|i: int| 0 <= i < self.dirs@.len() && self.dirs@[i]@ == d)
    }

    /// The files that exist, from address to bytes.
    pub open spec fn file_map(self) -> Map<(Seq<char>, Seq<char>), Seq<u8>> {
        map_of(self.files@)
    }

    /// Every file address is held at most once.
    pub open spec fn wf(self) -> bool {
        files_wf(self.files@)
    }

    /// A state with no directories and no files.
    pub fn empty() -> (r: FsState)
        ensures
            r.wf(),
            r.dir_set() == Set::<Seq<char>>::empty(),
            r.file_map() == Map::<(Seq<char>, Seq<char>), Seq<u8>>::empty(),
    {
        let r = FsState { dirs: Vec::new(), files: Vec::new() };
        proof {
            assert(r.dir_set() =~= Set::<Seq<char>>::empty());
        }
        r
    }

    /// Whether the directory exists.
    pub fn dir_exists(&self, dir: &str) -> (r: bool)
        ensures
            r == self.dir_set().contains(dir@),
    {
        let needle = String::from_str(dir);
        let mut i: usize = 0;
        while i < self.dirs.len()
            invariant
                i <= self.dirs.len(),
                needle@ == dir@,
                forall|j: int| 0 <= j < i ==> self.dirs@[j]@ != dir@,
            decreases self.dirs.len() - i,
        {
            if self.dirs[i] == needle {
                return true;
            }
            i = i + 1;
        }
        proof {
            if self.dir_set().contains(dir@) {
                let k = choose|k: int| 0 <= k < self.dirs@.len() && self.dirs@[k]@ == dir@;
                assert(self.dirs@[k]@ != dir@);
            }
        }
        false
    }

    /// Records the directory as existing.
    pub fn add_dir(&mut self, dir: &str)
        ensures
            final(self).wf() == old(self).wf(),
            final(self).dir_set() == old(self).dir_set().insert(dir@),
            final(self).file_map() == old(self).file_map(),
            final(self).files == old(self).files,
    {
        self.dirs.push(String::from_str(dir));
        proof {
            let pre = old(self).dirs@;
            let post = self.dirs@;
            assert forall|d: Seq<char>| self.dir_set().contains(d) implies old(
                self,
            ).dir_set().insert(dir@).contains(d) by {
                let i = choose|i: int| 0 <= i < post.len() && post[i]@ == d;
                if i < pre.len() {
                    assert(pre[i]@ == d);
                }
            }
            assert forall|d: Seq<char>| old(self).dir_set().insert(dir@).contains(d) implies
                self.dir_set().contains(d) by {
                if old(self).dir_set().contains(d) {
                    let i = choose|i: int| 0 <= i < pre.len() && pre[i]@ == d;
                    assert(post[i]@ == d);
                } else {
                    assert(post[pre.len() as int]@ == d);
                }
            }
            assert(self.dir_set() =~= old(self).dir_set().insert(dir@));
        }
    }

    /// The position of the file at the given address, when one exists.
    fn find_file(&self, dir: &str, name: &str) -> (r: Option<usize>)
        ensures
            r matches Some(i) ==> i < self.files@.len() && self.files@[i as int].key() == (
                dir@,
                name@,
            ),
            r is None ==> !self.file_map().contains_key((dir@, name@)),
    {
        let dir_needle = String::from_str(dir);
        let name_needle = String::from_str(name);
        let mut i: usize = 0;
        while i < self.files.len()
            invariant
                i <= self.files.len(),
                dir_needle@ == dir@,
                name_needle@ == name@,
                forall|j: int| 0 <= j < i ==> self.files@[j].key() != (dir@, name@),
            decreases self.files.len() - i,
        {
            if self.files[i].dir == dir_needle && self.files[i].name == name_needle {
                return Some(i);
            }
            i = i + 1;
        }
        proof {
            lemma_map_of_domain(self.files@, (dir@, name@));
            if self.file_map().contains_key((dir@, name@)) {
                let k = choose|k: int|
                    0 <= k < self.files@.len() && self.files@[k].key() == (dir@, name@);
                assert(self.files@[k].key() != (dir@, name@));
            }
        }
        None
    }

    /// The bytes of the file at the given address, when one exists.
    pub fn get_file_data(&self, dir: &str, name: &str) -> (r: Option<Vec<u8>>)
        requires
            self.wf(),
        ensures
            r is Some <==> self.file_map().contains_key((dir@, name@)),
            r matches Some(d) ==> d@ == self.file_map()[(dir@, name@)],
    {
        match self.find_file(dir, name) {
            Some(i) => {
                let data = self.files[i].data.clone();
                proof {
                    lemma_map_of_value(self.files@, i as int);
                    assert(data@ =~= self.files@[i as int].data@);
                }
                Some(data)
            },
            None => None,
        }
    }

    /// Writes the bytes at the given address, replacing any file already
    /// there wholesale.
    pub fn set_file(&mut self, dir: &str, name: &str, data: Vec<u8>)
        requires
            old(self).wf(),
        ensures
            final(self).wf(),
            final(self).dir_set() == old(self).dir_set(),
            final(self).file_map() == old(self).file_map().insert((dir@, name@), data@),
    {
        let f = FsFile { dir: String::from_str(dir), name: String::from_str(name), data };
        match self.find_file(dir, name) {
            Some(i) => {
                proof {
                    lemma_set_file_update(self.files@, i as int, f);
                }
                self.files.set(i, f);
            },
            None => {
                proof {
                    lemma_map_of_domain(self.files@, f.key());
                }
                let ghost pre = self.files@;
                self.files.push(f);
                proof {
                    assert forall|p: int, q: int| 0 <= p < q < self.files@.len() implies
                        self.files@[p].key() != self.files@[q].key() by {
                        if q == self.files@.len() - 1 {
                            assert(pre[p].key() != f.key()) by {
                                if pre[p].key() == f.key() {
                                    assert(exists|n: int|
                                        0 <= n < pre.len() && pre[n].key() == f.key());
                                }
                            }
                        } else {
                            assert(pre[p].key() != pre[q].key());
                        }
                    }
                    assert(self.files@.drop_last() =~= pre);
                }
            },
        }
        proof {
            assert(self.dir_set() =~= old(self).dir_set());
        }
    }
}

/// Replacing the one file that holds an address rewrites exactly that
/// entry of the map.
proof fn lemma_set_file_update(files: Seq<FsFile>, i: int, f: FsFile)
    requires
        0 <= i < files.len(),
        forall|p: int, q: int| 0 <= p < q < files.len() ==> files[p].key() != files[q].key(),
        files[i].key() == f.key(),
    ensures
        forall|p: int, q: int|
            0 <= p < q < files.update(i, f).len() ==> files.update(i, f)[p].key() != files.update(
                i,
                f,
            )[q].key(),
        map_of(files.update(i, f)) == map_of(files).insert(f.key(), f.data@),
    decreases files.len(),
{
    let updated = files.update(i, f);
    if i == files.len() - 1 {
        assert(updated.drop_last() =~= files.drop_last());
        assert(updated.last() == f);
        assert(map_of(updated) =~= map_of(files).insert(f.key(), f.data@));
    } else {
        assert(updated.drop_last() =~= files.drop_last().update(i, f));
        assert(updated.last() == files.last());
        lemma_set_file_update(files.drop_last(), i, f);
        assert(files.last().key() != f.key());
        assert(map_of(updated) == map_of(files.drop_last()).insert(f.key(), f.data@).insert(
            files.last().key(),
            files.last().data@,
        ));
        assert(map_of(files.drop_last()).insert(f.key(), f.data@).insert(
            files.last().key(),
            files.last().data@,
        ) =~= map_of(files).insert(f.key(), f.data@));
    }
}

/// A transfer failure: the precondition that was not met.
#[derive(Debug)]
pub enum TransferError {
    /// The source directory does not exist.
    SourceDirMissing,
    /// A named file does not exist in the source directory.
    SourceFileMissing,
}

impl TransferError {
    /// The diagnostic shown to the user.
    pub fn message(&self) -> (r: String)
        ensures
            self matches TransferError::SourceDirMissing ==> r@
                == "The source directory does not exist"@,
            self matches TransferError::SourceFileMissing ==> r@
                == "A file to copy does not exist in the source directory"@,
    {
        match self {
            TransferError::SourceDirMissing => String::from_str(
                "The source directory does not exist",
            ),
            TransferError::SourceFileMissing => String::from_str(
                "A file to copy does not exist in the source directory",
            ),
        }
    }
}

/// The file map after copying the named files from `src` into `dst`: each
/// named file's bytes now also stand at the same name under `dst`.
pub open spec fn copied_map(
    m: Map<(Seq<char>, Seq<char>), Seq<u8>>,
    names: Seq<Seq<char>>,
    src: Seq<char>,
    dst: Seq<char>,
) -> Map<(Seq<char>, Seq<char>), Seq<u8>> {
    Map::new(
        |k: (Seq<char>, Seq<char>)| m.contains_key(k) || (k.0 == dst && names.contains(k.1)),
        |k: (Seq<char>, Seq<char>)|
            if k.0 == dst && names.contains(k.1) {
                m[(src, k.1)]
            } else {
                m[k]
            },
    )
}

/// Whether every named file exists under `src`.
pub open spec fn sources_present(
    m: Map<(Seq<char>, Seq<char>), Seq<u8>>,
    names: Seq<Seq<char>>,
    src: Seq<char>,
) -> bool {
    forall|j: int| 0 <= j < names.len() ==> m.contains_key((src, names[j]))
}

/// The position of the first named file missing under `src`, or `-1` when
/// every one is present.
pub open spec fn first_missing(
    m: Map<(Seq<char>, Seq<char>), Seq<u8>>,
    names: Seq<Seq<char>>,
    src: Seq<char>,
) -> int
    decreases names.len(),
{
    if names.len() == 0 {
        -1
    } else if !m.contains_key((src, names[0])) {
        0
    } else {
        let rest = first_missing(m, names.drop_first(), src);
        if rest < 0 {
            -1
        } else {
            1 + rest
        }
    }
}

/// `first_missing` points at the first absent name, and is `-1` exactly
/// when every name is present.
pub proof fn lemma_first_missing(
    m: Map<(Seq<char>, Seq<char>), Seq<u8>>,
    names: Seq<Seq<char>>,
    src: Seq<char>,
)
    ensures
        sources_present(m, names, src) <==> first_missing(m, names, src) == -1,
        !sources_present(m, names, src) ==> {
            let fi = first_missing(m, names, src);
            &&& 0 <= fi < names.len()
            &&& !m.contains_key((src, names[fi]))
            &&& forall|j: int| 0 <= j < fi ==> m.contains_key((src, names[j]))
        },
    decreases names.len(),
{
    if names.len() > 0 && m.contains_key((src, names[0])) {
        lemma_first_missing(m, names.drop_first(), src);
        assert(forall|j: int|
            0 <= j < names.drop_first().len() ==> names.drop_first()[j] == names[j + 1]);
        if sources_present(m, names, src) {
            assert forall|j: int| 0 <= j < names.drop_first().len() implies m.contains_key(
                (src, names.drop_first()[j]),
            ) by {
                assert(m.contains_key((src, names[j + 1])));
            }
        }
        if sources_present(m, names.drop_first(), src) {
            assert forall|j: int| 0 <= j < names.len() implies m.contains_key(
                (src, names[j]),
            ) by {
                if j > 0 {
                    assert(m.contains_key((src, names.drop_first()[j - 1])));
                }
            }
        }
        if !sources_present(m, names, src) {
            let fi = first_missing(m, names, src);
            assert(!m.contains_key((src, names[fi]))) by {
                assert(names[fi] == names.drop_first()[fi - 1]);
            }
            assert forall|j: int| 0 <= j < fi implies m.contains_key((src, names[j])) by {
                if j > 0 {
                    assert(m.contains_key((src, names.drop_first()[j - 1])));
                }
            }
        }
    }
}

/// What copying the named files from `src` into `dst` makes of a state:
/// the new state, and whether the transfer succeeded. A missing source
/// directory changes nothing; otherwise the destination directory exists
/// afterwards, and the named files are copied in order up to the first
/// missing one, which fails the transfer.
pub open spec fn spec_copy_files(
    v: FsView,
    names: Seq<Seq<char>>,
    src: Seq<char>,
    dst: Seq<char>,
) -> (FsView, Result<(), TransferError>) {
    if !v.dirs.contains(src) {
        (v, Err(TransferError::SourceDirMissing))
    } else {
        let dirs2 = v.dirs.insert(dst);
        let fi = first_missing(v.files, names, src);
        if fi < 0 {
            (FsView { dirs: dirs2, files: copied_map(v.files, names, src, dst) }, Ok(()))
        } else {
            (
                FsView { dirs: dirs2, files: copied_map(v.files, names.take(fi), src, dst) },
                Err(TransferError::SourceFileMissing),
            )
        }
    }
}

/// What deleting every file of a directory makes of a state: the files
/// elsewhere and every directory are kept.
pub open spec fn spec_remove_files(v: FsView, dir: Seq<char>) -> FsView {
    FsView {
        dirs: v.dirs,
        files: v.files.remove_keys(Set::new(|k: (Seq<char>, Seq<char>)| k.0 == dir)),
    }
}

/// Copies each named file from `source` into `dest`, in order. A missing
/// source directory is fatal and changes nothing; a missing destination
/// directory is created; a missing named source file is fatal and stops
/// the transfer, leaving the files already copied in place.
pub fn copy_files(fs: &mut FsState, file_names: &Vec<String>, source: &str, dest: &str) -> (r:
    Result<(), TransferError>)
    requires
        old(fs).wf(),
    ensures
        final(fs).wf(),
        final(fs)@ == spec_copy_files(old(fs)@, file_names.deep_view(), source@, dest@).0,
        r == spec_copy_files(old(fs)@, file_names.deep_view(), source@, dest@).1,
    {
    let ghost m0 = old(fs).file_map();
    let ghost all_names = file_names.deep_view();
    if !fs.dir_exists(source) {
        return Err(TransferError::SourceDirMissing);
    }
    if !fs.dir_exists(dest) {
        fs.add_dir(dest);
    } else {
        proof {
            assert(old(fs).dir_set().insert(dest@) =~= old(fs).dir_set());
        }
    }
    proof {
        assert(all_names.take(0) =~= Seq::<Seq<char>>::empty());
        assert(copied_map(m0, all_names.take(0), source@, dest@) =~= m0);
    }
    let mut i: usize = 0;
    while i < file_names.len()
        invariant
            fs.wf(),
            i <= file_names.len(),
            all_names == file_names.deep_view(),
            old(fs).dir_set().contains(source@),
            m0 == old(fs).file_map(),
            fs.dir_set() == old(fs).dir_set().insert(dest@),
            sources_present(m0, all_names.take(i as int), source@),
            fs.file_map() == copied_map(m0, all_names.take(i as int), source@, dest@),
        decreases file_names.len() - i,
    {
        let ghost taken = all_names.take(i as int);
        proof {
            assert(all_names.take(i + 1 as int) =~= taken.push(all_names[i as int]));
        }
        match fs.get_file_data(source, file_names[i].as_str()) {
            None => {
                proof {
                    assert(!m0.contains_key((source@, all_names[i as int]))) by {
                        if m0.contains_key((source@, all_names[i as int])) {
                            assert(copied_map(m0, taken, source@, dest@).contains_key(
                                (source@, all_names[i as int]),
                            ));
                        }
                    }
                    assert(!sources_present(m0, all_names, source@)) by {
                        assert(!m0.contains_key((source@, all_names[i as int])));
                    }
                    lemma_first_missing(m0, all_names, source@);
                    let fi = first_missing(m0, all_names, source@);
                    assert(fi == i) by {
                        if fi < i as int {
                            assert(m0.contains_key((source@, all_names.take(i as int)[fi])));
                        }
                        if fi > i as int {
                            assert(m0.contains_key((source@, all_names[i as int])));
                        }
                    }
                    assert(fs@ =~= spec_copy_files(old(fs)@, all_names, source@, dest@).0);
                }
                return Err(TransferError::SourceFileMissing);
            },
            Some(data) => {
                proof {
                    if source@ == dest@ && taken.contains(all_names[i as int]) {
                        let j = choose|j: int| 0 <= j < taken.len() && taken[j]
                            == all_names[i as int];
                        assert(m0.contains_key((source@, taken[j])));
                    }
                    assert(copied_map(m0, taken, source@, dest@)[(source@, all_names[i as int])]
                        == m0[(source@, all_names[i as int])]);
                    assert(m0.contains_key((source@, all_names[i as int]))) by {
                        lemma_copied_map_source_key(m0, taken, source@, dest@, all_names[i as int]);
                    }
                }
                fs.set_file(dest, file_names[i].as_str(), data);
                proof {
                    broadcast use vstd::seq_lib::lemma_seq_contains_after_push;

                    assert(fs.file_map() =~= copied_map(
                        m0,
                        all_names.take(i + 1 as int),
                        source@,
                        dest@,
                    ));
                }
            },
        }
        i = i + 1;
    }
    proof {
        assert(all_names.take(file_names.len() as int) =~= all_names);
        lemma_first_missing(m0, all_names, source@);
        assert(fs@ =~= spec_copy_files(old(fs)@, all_names, source@, dest@).0);
    }
    Ok(())
}

/// A source-directory address is in the copied map exactly when it was in
/// the original: copying writes only under `dst`, and what it writes
/// under `src == dst` already stood there.
proof fn lemma_copied_map_source_key(
    m: Map<(Seq<char>, Seq<char>), Seq<u8>>,
    names: Seq<Seq<char>>,
    src: Seq<char>,
    dst: Seq<char>,
    name: Seq<char>,
)
    requires
        sources_present(m, names, src),
        copied_map(m, names, src, dst).contains_key((src, name)),
    ensures
        m.contains_key((src, name)),
{
    if !m.contains_key((src, name)) {
        assert(src == dst && names.contains(name));
        let j = choose|j: int| 0 <= j < names.len() && names[j] == name;
        assert(m.contains_key((src, names[j])));
    }
}

/// Deletes every file lying in the given directory; the directory itself,
/// other directories, and files elsewhere are left in place.
pub fn remove_files(fs: &mut FsState, dir: &str)
    requires
        old(fs).wf(),
    ensures
        final(fs).wf(),
        final(fs)@ == spec_remove_files(old(fs)@, dir@),
{
    let needle = String::from_str(dir);
    let mut kept: Vec<FsFile> = Vec::new();
    let mut i: usize = 0;
    while i < fs.files.len()
        invariant
            old(fs).wf(),
            fs == old(fs),
            i <= fs.files.len(),
            needle@ == dir@,
            kept@.len() <= i,
            forall|p: int, q: int| 0 <= p < q < kept@.len() ==> kept@[p].key() != kept@[q].key(),
            map_of(kept@) == map_of(fs.files@.take(i as int)).remove_keys(
                Set::new(|k: (Seq<char>, Seq<char>)| k.0 == dir@),
            ),
            forall|p: int| #![trigger kept@[p].key()]
                0 <= p < kept@.len() ==> exists|q: int|
                    0 <= q < i && kept@[p].key() == #[trigger] fs.files@[q].key(),
        decreases fs.files.len() - i,
    {
        let ghost pre_take = fs.files@.take(i as int);
        proof {
            assert(fs.files@.take(i + 1 as int).drop_last() =~= pre_take);
            assert(fs.files@.take(i + 1 as int).last() == fs.files@[i as int]);
        }
        if fs.files[i].dir == needle {
            proof {
                assert(map_of(kept@) =~= map_of(fs.files@.take(i + 1 as int)).remove_keys(
                    Set::new(|k: (Seq<char>, Seq<char>)| k.0 == dir@),
                ));
            }
        } else {
            let ghost kept_pre = kept@;
            let copy = FsFile {
                dir: fs.files[i].dir.clone(),
                name: fs.files[i].name.clone(),
                data: fs.files[i].data.clone(),
            };
            proof {
                assert(copy.key() == fs.files@[i as int].key());
                assert(copy.data@ =~= fs.files@[i as int].data@);
            }
            kept.push(copy);
            proof {
                assert(kept@.drop_last() =~= kept_pre);
                assert forall|p: int, q: int| 0 <= p < q < kept@.len() implies kept@[p].key()
                    != kept@[q].key() by {
                    if q == kept@.len() - 1 {
                        let qq = choose|qq: int|
                            0 <= qq < i && kept_pre[p].key() == fs.files@[qq].key();
                        assert(fs.files@[qq].key() != fs.files@[i as int].key());
                    }
                }
                assert(map_of(kept@) =~= map_of(fs.files@.take(i + 1 as int)).remove_keys(
                    Set::new(|k: (Seq<char>, Seq<char>)| k.0 == dir@),
                ));
                assert forall|p: int| #![trigger kept@[p].key()] 0 <= p < kept@.len() implies exists|q: int|
                    0 <= q < i + 1 && kept@[p].key() == #[trigger] fs.files@[q].key() by {
                    if p < kept@.len() - 1 {
                        let q = choose|q: int|
                            0 <= q < i && kept_pre[p].key() == fs.files@[q].key();
                        assert(kept@[p].key() == fs.files@[q].key());
                    } else {
                        assert(kept@[p].key() == fs.files@[i as int].key());
                    }
                }
            }
        }
        i = i + 1;
    }
    proof {
        assert(fs.files@.take(fs.files@.len() as int) =~= fs.files@);
    }
    fs.files = kept;
    proof {
        assert(fs.dir_set() =~= old(fs).dir_set());
        assert(fs@ =~= spec_remove_files(old(fs)@, dir@));
    }
}

/// Law: copying one file that exists under `src` into a destination
/// succeeds, makes the destination directory exist, and gives the
/// destination file the source's exact bytes.
pub proof fn lemma_copy_single_file(v: FsView, f: Seq<char>, src: Seq<char>, dst: Seq<char>)
    requires
        v.dirs.contains(src),
        v.files.contains_key((src, f)),
    ensures
        spec_copy_files(v, seq![f], src, dst).1 == Ok::<(), TransferError>(()),
        spec_copy_files(v, seq![f], src, dst).0.dirs.contains(dst),
        spec_copy_files(v, seq![f], src, dst).0.files.contains_key((dst, f)),
        spec_copy_files(v, seq![f], src, dst).0.files[(dst, f)] == v.files[(src, f)],
{
    let names = seq![f];
    assert(names[0] == f);
    assert(names.contains(f));
    assert(names.drop_first() =~= Seq::<Seq<char>>::empty());
    assert(first_missing(v.files, Seq::<Seq<char>>::empty(), src) == -1);
    assert(first_missing(v.files, names, src) == -1);
}

/// Law: copying one file that does not exist under `src` fails and
/// creates no file: the files are left exactly as they were.
pub proof fn lemma_copy_missing_file(v: FsView, f: Seq<char>, src: Seq<char>, dst: Seq<char>)
    requires
        v.dirs.contains(src),
        !v.files.contains_key((src, f)),
    ensures
        spec_copy_files(v, seq![f], src, dst).1 == Err::<(), TransferError>(
            TransferError::SourceFileMissing,
        ),
        spec_copy_files(v, seq![f], src, dst).0.files == v.files,
{
    let names = seq![f];
    assert(names[0] == f);
    assert(first_missing(v.files, names, src) == 0);
    assert(names.take(0) =~= Seq::<Seq<char>>::empty());
    assert(copied_map(v.files, names.take(0), src, dst) =~= v.files);
}

/// The bytes of every file under `src`, standing also at the same names
/// under `dst`: what adopting one mirror directory makes of the files.
pub open spec fn mirrored_dir_map(
    m: Map<(Seq<char>, Seq<char>), Seq<u8>>,
    src: Seq<char>,
    dst: Seq<char>,
) -> Map<(Seq<char>, Seq<char>), Seq<u8>> {
    Map::new(
        |k: (Seq<char>, Seq<char>)| m.contains_key(k) || (k.0 == dst && m.contains_key(
            (src, k.1),
        )),
        |k: (Seq<char>, Seq<char>)|
            if k.0 == dst && m.contains_key((src, k.1)) {
                m[(src, k.1)]
            } else {
                m[k]
            },
    )
}

/// The names of the files lying in the given directory, in held order.
pub open spec fn names_in_dir(files: Seq<FsFile>, dir: Seq<char>) -> Seq<Seq<char>>
    decreases files.len(),
{
    if files.len() == 0 {
        Seq::empty()
    } else if files.last().dir@ == dir {
        names_in_dir(files.drop_last(), dir).push(files.last().name@)
    } else {
        names_in_dir(files.drop_last(), dir)
    }
}

/// A name lies in the listing of a directory exactly when the files hold
/// its address.
pub proof fn lemma_names_in_dir(files: Seq<FsFile>, dir: Seq<char>, n: Seq<char>)
    ensures
        names_in_dir(files, dir).contains(n) <==> exists|i: int|
            0 <= i < files.len() && files[i].key() == (dir, n),
    decreases files.len(),
{
    broadcast use vstd::seq_lib::lemma_seq_contains_after_push;

    if files.len() > 0 {
        lemma_names_in_dir(files.drop_last(), dir, n);
        if names_in_dir(files, dir).contains(n) {
            if !(files.last().dir@ == dir && files.last().name@ == n) {
                let i = choose|i: int|
                    0 <= i < files.drop_last().len() && files.drop_last()[i].key() == (dir, n);
                assert(files[i].key() == (dir, n));
            } else {
                assert(files[files.len() - 1].key() == (dir, n));
            }
        }
        if exists|i: int| 0 <= i < files.len() && files[i].key() == (dir, n) {
            let i = choose|i: int| 0 <= i < files.len() && files[i].key() == (dir, n);
            if i < files.len() - 1 {
                assert(files.drop_last()[i].key() == (dir, n));
            }
        }
    }
}

impl FsState {
    /// The names of the files lying in the given directory.
    pub fn list_files_in(&self, dir: &str) -> (r: Vec<String>)
        ensures
            r.deep_view() == names_in_dir(self.files@, dir@),
            forall|n: Seq<char>| #[trigger] r.deep_view().contains(n) <==> self.file_map().contains_key((dir@, n)),
    {
        let needle = String::from_str(dir);
        let mut names: Vec<String> = Vec::new();
        let mut i: usize = 0;
        while i < self.files.len()
            invariant
                i <= self.files.len(),
                needle@ == dir@,
                names.deep_view() == names_in_dir(self.files@.take(i as int), dir@),
            decreases self.files.len() - i,
        {
            proof {
                assert(self.files@.take(i + 1 as int).drop_last() =~= self.files@.take(i as int));
                assert(self.files@.take(i + 1 as int).last() == self.files@[i as int]);
            }
            if self.files[i].dir == needle {
                let ghost names_before = names.deep_view();
                names.push(self.files[i].name.clone());
                proof {
                    assert(names.deep_view() =~= names_before.push(self.files@[i as int].name@));
                }
            }
            i = i + 1;
        }
        proof {
            assert(self.files@.take(self.files@.len() as int) =~= self.files@);
            assert forall|n: Seq<char>| #[trigger] names.deep_view().contains(n)
                <==> self.file_map().contains_key((dir@, n)) by {
                lemma_names_in_dir(self.files@, dir@, n);
                lemma_map_of_domain(self.files@, (dir@, n));
            }
        }
        names
    }
}

/// Law: copying a directory's complete listing mirrors the directory: the
/// files under `dst` become exactly those under `src`, byte for byte.
pub proof fn lemma_copy_listing_mirrors(
    m: Map<(Seq<char>, Seq<char>), Seq<u8>>,
    names: Seq<Seq<char>>,
    src: Seq<char>,
    dst: Seq<char>,
)
    requires
        forall|n: Seq<char>| #[trigger] names.contains(n) <==> m.contains_key((src, n)),
    ensures
        sources_present(m, names, src),
        copied_map(m, names, src, dst) == mirrored_dir_map(m, src, dst),
{
    assert forall|j: int| 0 <= j < names.len() implies m.contains_key((src, names[j])) by {
        assert(names.contains(names[j]));
    }
    assert(copied_map(m, names, src, dst) =~= mirrored_dir_map(m, src, dst));
}

} // verus!

//! What the file system driver has already read from the disk: the
//! directories and the chunk addresses met on the way, by path. A lookup
//! starts at the longest cached beginning of the path and reads the rest.
use vstd::prelude::*;
use crate::data_storage::path::{join_path, split_path, strings_view, Path};
use crate::filesystem::drivers::ustar::{Address, UsTarError};
use crate::filesystem::drivers::ustar_driver::MemDir;
use crate::filesystem::vfs::key_index;

verus! {

/// The names of cached entries.
pub open spec fn cached_paths<V>(entries: Seq<(String, V)>) -> Seq<Seq<char>> {
    entries.map_values(|e: (String, V)| e.0@)
}

/// Index of the entry cached under `key`, if there is one.
fn find_key<V>(entries: &Vec<(String, V)>, key: &String) -> (r: Option<usize>)
    ensures
        match r {
            Some(i) => i < entries@.len() && i == key_index(cached_paths(entries@), key@) && entries@[i as int].0@ == key@,
            None => key_index(cached_paths(entries@), key@) < 0,
        },
{
    let ghost keys = cached_paths(entries@);
    let mut i: usize = 0;
    while i < entries.len()
        invariant
            i <= entries@.len(),
            keys == cached_paths(entries@),
            forall|j: int| 0 <= j < i ==> keys[j] != key@,
        decreases entries@.len() - i,
    {
        assert(keys[i as int] == entries@[i as int].0@);
        if entries[i].0 == *key {
            proof {
                lemma_first_key(keys, key@, i as int);
            }
            return Some(i);
        }
        i += 1;
    }
    proof {
        lemma_absent_key(keys, key@);
    }
    None
}

/// A name first found at `i` is where `key_index` finds it.
proof fn lemma_first_key(keys: Seq<Seq<char>>, k: Seq<char>, i: int)
    requires
        0 <= i < keys.len(),
        keys[i] == k,
        forall|j: int| 0 <= j < i ==> keys[j] != k,
    ensures
        key_index(keys, k) == i,
    decreases i,
{
    if i > 0 {
        lemma_first_key(keys.drop_first(), k, i - 1);
    }
}

/// A name found nowhere has no index.
proof fn lemma_absent_key(keys: Seq<Seq<char>>, k: Seq<char>)
    requires
        forall|j: int| 0 <= j < keys.len() ==> keys[j] != k,
    ensures
        key_index(keys, k) < 0,
    decreases keys.len(),
{
    if keys.len() > 0 {
        lemma_absent_key(keys.drop_first(), k);
    }
}

/// Where a lookup goes on from: the segments still to walk, the first path
/// not cached, and the directory holding it.
pub struct PathDecomp {
    pub rest: Vec<String>,
    pub current_path: Path,
    pub current_dir: MemDir,
}

impl PathDecomp {
    /// The address of the first path not cached, as its directory lists
    /// it; `FileNotFound` when the directory has no such entry.
    pub fn next_address(&self) -> (r: Result<Address, UsTarError>)
        requires
            self.current_dir.wf(),
        ensures
            ({
                let name = split_path(self.current_path@).last();
                &&& self.current_dir.spec_files().contains_key(name) ==> r == Ok::<Address, UsTarError>(
                    self.current_dir.spec_files()[name],
                )
                &&& !self.current_dir.spec_files().contains_key(name) ==> r == Err::<Address, UsTarError>(
                    UsTarError::FileNotFound,
                )
            }),
    {
        let name = self.current_path.get_name();
        match self.current_dir.get(&name) {
            Some(a) => Ok(a),
            None => Err(UsTarError::FileNotFound),
        }
    }
}

/// The least number `m`, from `m` on, of leading segments of `segs` that
/// make a path not cached (or one more than their number).
pub open spec fn uncached_from(cached: Seq<Seq<char>>, segs: Seq<Seq<char>>, m: int) -> int
    decreases segs.len() + 1 - m,
{
    if m >= segs.len() + 1 {
        m
    } else if key_index(cached, join_path(segs.take(m))) < 0 {
        m
    } else {
        uncached_from(cached, segs, m + 1)
    }
}

/// `uncached_from` gives the first number from `m` on whose path is not
/// cached, when there is one.
proof fn lemma_uncached_from(cached: Seq<Seq<char>>, segs: Seq<Seq<char>>, m: int, w: int)
    requires
        1 <= m <= w <= segs.len(),
        key_index(cached, join_path(segs.take(w))) < 0,
    ensures
        m <= uncached_from(cached, segs, m) <= w,
        key_index(cached, join_path(segs.take(uncached_from(cached, segs, m)))) < 0,
        forall|j: int| m <= j < uncached_from(cached, segs, m) ==> key_index(cached, #[trigger] join_path(segs.take(j))) >= 0,
    decreases segs.len() + 1 - m,
{
    if key_index(cached, join_path(segs.take(m))) >= 0 {
        lemma_uncached_from(cached, segs, m + 1, w);
    }
}

/// The directories and addresses read so far, by path.
pub struct UsTarCache {
    dirs: Vec<(String, MemDir)>,
    addresses: Vec<(String, Address)>,
}

impl UsTarCache {
    /// The paths of the cached directories, in the order they came.
    pub closed spec fn dir_paths(&self) -> Seq<Seq<char>> {
        cached_paths(self.dirs@)
    }

    /// The directory cached under `k`.
    pub closed spec fn dir_at(&self, k: Seq<char>) -> MemDir {
        self.dirs@[key_index(cached_paths(self.dirs@), k)].1
    }

    /// The paths with a cached address.
    pub closed spec fn address_paths(&self) -> Seq<Seq<char>> {
        cached_paths(self.addresses@)
    }

    /// The address cached under `k`.
    pub closed spec fn address_at(&self, k: Seq<char>) -> Address {
        self.addresses@[key_index(cached_paths(self.addresses@), k)].1
    }

    /// Every cached directory is well formed.
    pub closed spec fn wf(&self) -> bool {
        forall|i: int| 0 <= i < self.dirs@.len() ==> (#[trigger] self.dirs@[i]).1.wf()
    }

    /// Nothing cached.
    pub fn new() -> (c: Self)
        ensures
            c.wf(),
            c.dir_paths().len() == 0,
            c.address_paths().len() == 0,
    {
        let c = UsTarCache { dirs: Vec::new(), addresses: Vec::new() };
        assert(c.dir_paths() =~= Seq::<Seq<char>>::empty());
        assert(c.address_paths() =~= Seq::<Seq<char>>::empty());
        c
    }

    /// A copy of the directory cached under `path`, if there is one.
    pub fn get_dir(&self, path: &Path) -> (r: Option<MemDir>)
        requires
            self.wf(),
        ensures
            key_index(self.dir_paths(), path@) < 0 ==> r is None,
            key_index(self.dir_paths(), path@) >= 0 ==> (r matches Some(d) && d.wf() && d.spec_name()
                == self.dir_at(path@).spec_name() && d.spec_address() == self.dir_at(path@).spec_address()
                && d.spec_files() == self.dir_at(path@).spec_files()),
    {
        let key = path.to();
        match find_key(&self.dirs, &key) {
            Some(i) => Some(self.dirs[i].1.duplicate()),
            None => None,
        }
    }

    /// The address cached under `path`, if there is one.
    pub fn get_address(&self, path: &Path) -> (r: Option<Address>)
        ensures
            r == if key_index(self.address_paths(), path@) >= 0 {
                Some(self.address_at(path@))
            } else {
                None::<Address>
            },
    {
        let key = path.to();
        match find_key(&self.addresses, &key) {
            Some(i) => Some(self.addresses[i].1),
            None => None,
        }
    }

    /// Caches directory `dir` and address `address` under `path`, in
    /// place of what was cached there.
    pub fn insert(&mut self, path: &Path, dir: MemDir, address: Address)
        requires
            old(self).wf(),
            dir.wf(),
        ensures
            final(self).wf(),
            key_index(final(self).dir_paths(), path@) >= 0,
            final(self).dir_at(path@) == dir,
            key_index(final(self).address_paths(), path@) >= 0,
            final(self).address_at(path@) == address,
            forall|k: Seq<char>| k != path@ ==> key_index(#[trigger] final(self).dir_paths(), k) == key_index(old(self).dir_paths(), k)
                && (key_index(old(self).dir_paths(), k) >= 0 ==> final(self).dir_at(k) == old(self).dir_at(k)),
            forall|k: Seq<char>| k != path@ ==> key_index(#[trigger] final(self).address_paths(), k) == key_index(
                old(self).address_paths(),
                k,
            ) && (key_index(old(self).address_paths(), k) >= 0 ==> final(self).address_at(k) == old(self).address_at(k)),
    {
        let key = path.to();
        let ghost old_dirs = self.dirs@;
        let ghost old_addresses = self.addresses@;
        match find_key(&self.dirs, &key) {
            Some(i) => {
                self.dirs.set(i, (path.to(), dir));
                proof {
                    assert(cached_paths(self.dirs@) =~= cached_paths(old_dirs));
                    assert forall|k: Seq<char>| k != path@ implies key_index(#[trigger] cached_paths(self.dirs@), k)
                        == key_index(cached_paths(old_dirs), k) && (key_index(cached_paths(old_dirs), k) >= 0
                        ==> self.dirs@[key_index(cached_paths(self.dirs@), k)].1 == old_dirs[key_index(cached_paths(old_dirs), k)].1) by {
                        lemma_key_index_found(cached_paths(old_dirs), k);
                    }
                }
            },
            None => {
                self.dirs.push((path.to(), dir));
                proof {
                    lemma_key_index_push(cached_paths(old_dirs), key@);
                    assert(cached_paths(self.dirs@) =~= cached_paths(old_dirs).push(key@));
                    assert forall|k: Seq<char>| k != path@ implies key_index(#[trigger] cached_paths(self.dirs@), k)
                        == key_index(cached_paths(old_dirs), k) && (key_index(cached_paths(old_dirs), k) >= 0
                        ==> self.dirs@[key_index(cached_paths(self.dirs@), k)].1 == old_dirs[key_index(cached_paths(old_dirs), k)].1) by {
                        lemma_key_index_found(cached_paths(old_dirs), k);
                    }
                }
            },
        }
        let ghost mid_dirs = self.dirs@;
        match find_key(&self.addresses, &key) {
            Some(i) => {
                self.addresses.set(i, (path.to(), address));
                proof {
                    assert(cached_paths(self.addresses@) =~= cached_paths(old_addresses));
                    assert forall|k: Seq<char>| k != path@ implies key_index(#[trigger] cached_paths(self.addresses@), k)
                        == key_index(cached_paths(old_addresses), k) && (key_index(cached_paths(old_addresses), k) >= 0
                        ==> self.addresses@[key_index(cached_paths(self.addresses@), k)].1 == old_addresses[key_index(cached_paths(old_addresses), k)].1) by {
                        lemma_key_index_found(cached_paths(old_addresses), k);
                    }
                }
            },
            None => {
                self.addresses.push((path.to(), address));
                proof {
                    lemma_key_index_push(cached_paths(old_addresses), key@);
                    assert(cached_paths(self.addresses@) =~= cached_paths(old_addresses).push(key@));
                    assert forall|k: Seq<char>| k != path@ implies key_index(#[trigger] cached_paths(self.addresses@), k)
                        == key_index(cached_paths(old_addresses), k) && (key_index(cached_paths(old_addresses), k) >= 0
                        ==> self.addresses@[key_index(cached_paths(self.addresses@), k)].1 == old_addresses[key_index(cached_paths(old_addresses), k)].1) by {
                        lemma_key_index_found(cached_paths(old_addresses), k);
                    }
                }
            },
        }
        proof {
            lemma_key_index_found(cached_paths(self.dirs@), path@);
            lemma_key_index_found(cached_paths(self.addresses@), path@);
            assert(self.dirs@ == mid_dirs);
        }
    }

    /// Where a lookup of `path` goes on from: its first segment must name a
    /// cached directory (`FileNotFound` otherwise); the walk takes one more
    /// segment while the path so far is cached, and stops at the first
    /// path not cached, with the directory that holds it.
    pub fn find_first_uncached(&self, path: &Path) -> (r: Result<PathDecomp, UsTarError>)
        requires
            self.wf(),
            ({
                let segs = split_path(path@);
                key_index(self.dir_paths(), segs[0]) >= 0 ==> exists|w: int| 1 <= w <= segs.len()
                    && key_index(self.dir_paths(), #[trigger] join_path(segs.take(w))) < 0
            }),
        ensures
            ({
                let segs = split_path(path@);
                let m = uncached_from(self.dir_paths(), segs, 1);
                &&& key_index(self.dir_paths(), segs[0]) < 0 ==> r == Err::<PathDecomp, UsTarError>(UsTarError::FileNotFound)
                &&& key_index(self.dir_paths(), segs[0]) >= 0 ==> (r matches Ok(d) && {
                    &&& d.current_path@ == join_path(segs.take(m))
                    &&& strings_view(d.rest@) == segs.skip(m)
                    &&& d.current_dir.wf()
                    &&& d.current_dir.spec_name() == self.dir_at(join_path(segs.take(m - 1))).spec_name()
                    &&& d.current_dir.spec_address() == self.dir_at(join_path(segs.take(m - 1))).spec_address()
                    &&& d.current_dir.spec_files() == self.dir_at(join_path(segs.take(m - 1))).spec_files()
                })
            }),
    {
        let sliced = path.slice();
        let ghost segs = split_path(path@);
        proof {
            crate::data_storage::path::lemma_split_nonempty(path@);
            assert(sliced@.len() == segs.len());
        }
        let n = sliced.len();
        let mut current_path = Path::from(sliced[0].as_str());
        let mut current_key = current_path.to();
        assert(segs.take(1) =~= seq![segs[0]]);
        match find_key(&self.dirs, &current_key) {
            None => Err(UsTarError::FileNotFound),
            Some(first) => {
                let ghost w = choose|w: int| 1 <= w <= segs.len() && key_index(self.dir_paths(), #[trigger] join_path(segs.take(w))) < 0;
                proof {
                    lemma_uncached_from(self.dir_paths(), segs, 1, w);
                }
                let mut current_dir = self.dirs[first].1.duplicate();
                let mut j: usize = 1;
                let mut found = find_key(&self.dirs, &current_key);
                while found.is_some()
                    invariant
                        self.wf(),
                        1 <= j <= n,
                        n == segs.len(),
                        strings_view(sliced@) == segs,
                        current_path@ == join_path(segs.take(j as int)),
                        current_key@ == current_path@,
                        j <= uncached_from(self.dir_paths(), segs, 1),
                        uncached_from(self.dir_paths(), segs, 1) <= w <= segs.len(),
                        forall|k: int| 1 <= k < uncached_from(self.dir_paths(), segs, 1) ==> key_index(
                            self.dir_paths(),
                            #[trigger] join_path(segs.take(k)),
                        ) >= 0,
                        key_index(self.dir_paths(), join_path(segs.take(uncached_from(self.dir_paths(), segs, 1)))) < 0,
                        found is Some <==> key_index(self.dir_paths(), current_key@) >= 0,
                        found matches Some(i) ==> i < self.dirs@.len() && i == key_index(self.dir_paths(), current_key@),
                        found is None ==> j >= 2 && current_dir.wf()
                            && current_dir.spec_name() == self.dir_at(join_path(segs.take(j - 1))).spec_name()
                            && current_dir.spec_address() == self.dir_at(join_path(segs.take(j - 1))).spec_address()
                            && current_dir.spec_files() == self.dir_at(join_path(segs.take(j - 1))).spec_files(),
                    decreases n - j + (if found is Some { 1int } else { 0int }),
                {
                    let i = found.unwrap();
                    current_dir = self.dirs[i].1.duplicate();
                    if j < n {
                        current_path.push_str(sliced[j].as_str());
                        proof {
                            assert(segs.take(j + 1).drop_last() =~= segs.take(j as int));
                        }
                        j += 1;
                        current_key = current_path.to();
                        found = find_key(&self.dirs, &current_key);
                    } else {
                        proof {
                            assert(segs.take(n as int) =~= segs);
                        }
                        found = None;
                    }
                }
                let mut rest: Vec<String> = Vec::new();
                let mut t: usize = j;
                while t < n
                    invariant
                        j <= t <= n,
                        n == segs.len(),
                        strings_view(sliced@) == segs,
                        strings_view(rest@) == segs.subrange(j as int, t as int),
                    decreases n - t,
                {
                    let piece = sliced[t].clone();
                    let ghost before = rest@;
                    rest.push(piece);
                    assert(strings_view(rest@) =~= strings_view(before).push(piece@));
                    assert(strings_view(rest@) =~= segs.subrange(j as int, t + 1));
                    t += 1;
                }
                assert(segs.subrange(j as int, n as int) =~= segs.skip(j as int));
                Ok(PathDecomp { rest, current_path, current_dir })
            },
        }
    }
}

/// `key_index` gives -1 or the index of a name equal to the one sought.
proof fn lemma_key_index_found(keys: Seq<Seq<char>>, k: Seq<char>)
    ensures
        -1 <= key_index(keys, k) < keys.len(),
        key_index(keys, k) >= 0 ==> keys[key_index(keys, k)] == k,
    decreases keys.len(),
{
    if keys.len() > 0 && keys[0] != k {
        lemma_key_index_found(keys.drop_first(), k);
    }
}

/// Pushing a name that was absent gives it the last index and keeps the
/// others.
proof fn lemma_key_index_push(keys: Seq<Seq<char>>, k: Seq<char>)
    requires
        key_index(keys, k) < 0,
    ensures
        key_index(keys.push(k), k) == keys.len(),
        forall|k2: Seq<char>| k2 != k ==> #[trigger] key_index(keys.push(k), k2) == key_index(keys, k2),
    decreases keys.len(),
{
    if keys.len() > 0 {
        lemma_key_index_push(keys.drop_first(), k);
        assert(keys.push(k).drop_first() =~= keys.drop_first().push(k));
        assert forall|k2: Seq<char>| k2 != k implies #[trigger] key_index(keys.push(k), k2) == key_index(keys, k2) by {
            assert(keys.push(k)[0] == keys[0]);
            if keys[0] != k2 {
                assert(key_index(keys.drop_first().push(k), k2) == key_index(keys.drop_first(), k2));
            }
        }
    } else {
        assert(keys.push(k).drop_first() =~= Seq::<Seq<char>>::empty());
        assert forall|k2: Seq<char>| k2 != k implies #[trigger] key_index(keys.push(k), k2) == key_index(keys, k2) by {
            assert(key_index(Seq::<Seq<char>>::empty(), k2) == -1);
            assert(key_index(keys.push(k).drop_first(), k2) == -1);
        }
    }
}

} // verus!

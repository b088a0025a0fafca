//! The tree of partitions: each path leads, segment by segment, through
//! directories to the partition (driver) that serves it.
use vstd::prelude::*;
use vstd::utf8::encode_utf8;
use crate::data_storage::path::{join_path, split_path, strings_view, Path};
use crate::filesystem::descriptor::{moved_to, OpenFileTable};
use crate::filesystem::fsflags::OpenFlags;
use crate::filesystem::partition::{IoError, Partition};

verus! {

/// Byte order of byte strings, the order of Rust strings: the first
/// differing byte decides, and a proper prefix comes first.
pub open spec fn bytes_lt(x: Seq<u8>, y: Seq<u8>) -> bool
    decreases x.len(),
{
    if x.len() == 0 {
        y.len() > 0
    } else if y.len() == 0 {
        false
    } else if x[0] != y[0] {
        x[0] < y[0]
    } else {
        bytes_lt(x.drop_first(), y.drop_first())
    }
}

/// Order of names: that of their UTF-8 bytes.
pub open spec fn key_lt(a: Seq<char>, b: Seq<char>) -> bool {
    bytes_lt(encode_utf8(a), encode_utf8(b))
}

/// No byte string comes before itself.
proof fn lemma_bytes_lt_irreflexive(x: Seq<u8>)
    ensures
        !bytes_lt(x, x),
    decreases x.len(),
{
    if x.len() > 0 {
        lemma_bytes_lt_irreflexive(x.drop_first());
    }
}

/// The byte order is transitive.
proof fn lemma_bytes_lt_transitive(x: Seq<u8>, y: Seq<u8>, z: Seq<u8>)
    requires
        bytes_lt(x, y),
        bytes_lt(y, z),
    ensures
        bytes_lt(x, z),
    decreases x.len(),
{
    if x.len() > 0 && y.len() > 0 && z.len() > 0 && x[0] == y[0] && y[0] == z[0] {
        lemma_bytes_lt_transitive(x.drop_first(), y.drop_first(), z.drop_first());
    }
}

/// Two different byte strings are ordered one way or the other.
proof fn lemma_bytes_lt_total(x: Seq<u8>, y: Seq<u8>)
    requires
        x != y,
    ensures
        bytes_lt(x, y) || bytes_lt(y, x),
    decreases x.len(),
{
    if x.len() > 0 && y.len() > 0 && x[0] == y[0] {
        if x.drop_first() == y.drop_first() {
            assert(x =~= seq![x[0]] + x.drop_first());
            assert(y =~= seq![y[0]] + y.drop_first());
        }
        lemma_bytes_lt_total(x.drop_first(), y.drop_first());
    } else if x.len() == 0 && y.len() == 0 {
        assert(x =~= y);
    }
}

/// The order of names is a strict total order.
proof fn lemma_key_lt_order(a: Seq<char>, b: Seq<char>, c: Seq<char>)
    ensures
        !key_lt(a, a),
        key_lt(a, b) && key_lt(b, c) ==> key_lt(a, c),
        a != b ==> key_lt(a, b) || key_lt(b, a),
        key_lt(a, b) ==> a != b,
{
    lemma_bytes_lt_irreflexive(encode_utf8(a));
    if key_lt(a, b) && key_lt(b, c) {
        lemma_bytes_lt_transitive(encode_utf8(a), encode_utf8(b), encode_utf8(c));
    }
    if a != b {
        vstd::utf8::encode_utf8_decode_utf8(a);
        vstd::utf8::encode_utf8_decode_utf8(b);
        lemma_bytes_lt_total(encode_utf8(a), encode_utf8(b));
    }
}

/// Whether name `a` comes before name `b`.
fn key_less(a: &String, b: &String) -> (r: bool)
    ensures
        r == key_lt(a@, b@),
{
    let x = a.as_str().as_bytes();
    let y = b.as_str().as_bytes();
    let mut i: usize = 0;
    assert(x@.skip(0) =~= x@);
    assert(y@.skip(0) =~= y@);
    while i < x.len() && i < y.len() && x[i] == y[i]
        invariant
            i <= x@.len(),
            i <= y@.len(),
            x@ == encode_utf8(a@),
            y@ == encode_utf8(b@),
            bytes_lt(x@, y@) == bytes_lt(x@.skip(i as int), y@.skip(i as int)),
        decreases x@.len() - i,
    {
        assert(x@.skip(i as int).drop_first() =~= x@.skip(i + 1));
        assert(y@.skip(i as int).drop_first() =~= y@.skip(i + 1));
        i += 1;
    }
    assert(x@.skip(i as int).len() == x@.len() - i);
    assert(i < x@.len() ==> x@.skip(i as int)[0] == x@[i as int]);
    assert(i < y@.len() ==> y@.skip(i as int)[0] == y@[i as int]);
    if i == x.len() {
        i < y.len()
    } else if i == y.len() {
        false
    } else {
        x[i] < y[i]
    }
}

/// Error of a request on the partition tree.
#[derive(Debug)]
pub struct ErrVFS();

/// Where a request on a path goes, as plain values: a directory of the
/// tree with the names it holds, nowhere, or a partition with the segments
/// of the path below it.
pub enum TargetView {
    Directory(Seq<Seq<char>>),
    Missing,
    Leaf(Seq<char>),
}

/// Index of the first of `keys` equal to `k`, or -1.
pub open spec fn key_index(keys: Seq<Seq<char>>, k: Seq<char>) -> int
    decreases keys.len(),
{
    if keys.len() == 0 {
        -1
    } else if keys[0] == k {
        0
    } else {
        let r = key_index(keys.drop_first(), k);
        if r < 0 {
            -1
        } else {
            r + 1
        }
    }
}

/// `key_index` finds `k` exactly where it stands, and -1 when it is absent.
proof fn lemma_key_index(keys: Seq<Seq<char>>, k: Seq<char>)
    ensures
        -1 <= key_index(keys, k) < keys.len(),
        key_index(keys, k) >= 0 ==> keys[key_index(keys, k)] == k,
        key_index(keys, k) >= 0 ==> forall|i: int| 0 <= i < key_index(keys, k) ==> keys[i] != k,
        key_index(keys, k) < 0 ==> forall|i: int| 0 <= i < keys.len() ==> keys[i] != k,
    decreases keys.len(),
{
    if keys.len() > 0 && keys[0] != k {
        lemma_key_index(keys.drop_first(), k);
        assert forall|i: int| 1 <= i < keys.len() implies keys[i] == keys.drop_first()[i - 1] by {}
    }
}

/// In a sequence of names in increasing order, `key_index` finds a name at
/// its own place.
proof fn lemma_key_index_sorted(keys: Seq<Seq<char>>, i: int)
    requires
        sorted_keys(keys),
        0 <= i < keys.len(),
    ensures
        key_index(keys, keys[i]) == i,
{
    lemma_key_index(keys, keys[i]);
    let j = key_index(keys, keys[i]);
    if j < i {
        lemma_key_lt_order(keys[j], keys[i], keys[i]);
    }
}

/// Putting a new name `key` at `pos` moves the names after it one place on.
proof fn lemma_key_index_insert(keys: Seq<Seq<char>>, pos: int, key: Seq<char>, k: Seq<char>)
    requires
        key_index(keys, key) < 0,
        0 <= pos <= keys.len(),
    ensures
        key_index(keys.insert(pos, key), key) == pos,
        k != key ==> key_index(keys.insert(pos, key), k) == if key_index(keys, k) < 0 {
            -1
        } else if key_index(keys, k) < pos {
            key_index(keys, k)
        } else {
            key_index(keys, k) + 1
        },
{
    let nk = keys.insert(pos, key);
    lemma_key_index(keys, key);
    lemma_key_index(nk, key);
    lemma_key_index(keys, k);
    lemma_key_index(nk, k);
    assert(nk[pos] == key);
    let a = key_index(nk, key);
    if a < pos {
        assert(nk[a] == keys[a]);
    }
    if k != key {
        let i = key_index(keys, k);
        let j = key_index(nk, k);
        if i >= 0 {
            let i2 = if i < pos { i } else { i + 1 };
            assert(nk[i2] == k);
            if j < i2 {
                if j < pos {
                    assert(nk[j] == keys[j]);
                } else {
                    assert(nk[j] == keys[j - 1]);
                }
            }
        } else {
            if j >= 0 {
                if j < pos {
                    assert(nk[j] == keys[j]);
                } else if j > pos {
                    assert(nk[j] == keys[j - 1]);
                }
            }
        }
    }
}

/// Names in increasing order, hence all different.
pub open spec fn sorted_keys(keys: Seq<Seq<char>>) -> bool {
    forall|i: int, j: int| 0 <= i < j < keys.len() ==> key_lt(#[trigger] keys[i], #[trigger] keys[j])
}

/// The line listing name `k` in a directory: its bytes, padded with spaces
/// to 28 bytes, and a newline.
pub open spec fn entry_line(k: Seq<char>) -> Seq<u8> {
    let b = encode_utf8(k);
    b + Seq::new(if b.len() < 28 { (28 - b.len()) as nat } else { 0 }, |i: int| 32u8) + seq![10u8]
}

/// Lines of the names `keys` appended to `v`, one at a time while `v` plus
/// 28 bytes fits in `size`.
pub open spec fn listing_from(keys: Seq<Seq<char>>, v: Seq<u8>, size: int) -> Seq<u8>
    decreases keys.len(),
{
    if keys.len() == 0 || v.len() + 28 > size {
        v
    } else {
        listing_from(keys.drop_first(), v + entry_line(keys[0]), size)
    }
}

/// What reading a directory with names `keys` from byte `offset`, at most
/// `size` bytes, gives: the lines of the names from number `offset / 28`
/// on, as many as `listing_from` takes.
pub open spec fn dir_listing(keys: Seq<Seq<char>>, offset: int, size: int) -> Seq<u8> {
    let start = if offset / 28 < keys.len() { offset / 28 } else { keys.len() as int };
    listing_from(keys.subrange(start, keys.len() as int), Seq::empty(), size)
}

/// Reading a directory from a byte past the lines of all its names gives
/// nothing.
pub proof fn lemma_listing_past_end(keys: Seq<Seq<char>>, offset: int, size: int)
    requires
        offset >= 28 * keys.len(),
    ensures
        dir_listing(keys, offset, size) == Seq::<u8>::empty(),
{
    assert(offset / 28 >= keys.len()) by {
        vstd::arithmetic::div_mod::lemma_fundamental_div_mod(offset, 28);
        if offset / 28 < keys.len() {
            assert(28 * (offset / 28) <= 28 * (keys.len() - 1)) by (nonlinear_arith)
                requires
                    offset / 28 <= keys.len() - 1,
            ;
        }
    }
    assert(keys.subrange(keys.len() as int, keys.len() as int) =~= Seq::<Seq<char>>::empty());
}

/// Reading a directory from byte `28 * k + r` (with `r < 28`) reads as if
/// its first `k` names were not there: the listing starts at name `k`.
pub proof fn lemma_listing_skips_names(keys: Seq<Seq<char>>, k: int, r: int, size: int)
    requires
        0 <= k <= keys.len(),
        0 <= r < 28,
    ensures
        dir_listing(keys, 28 * k + r, size) == dir_listing(keys.skip(k), r, size),
{
    assert((28 * k + r) / 28 == k) by {
        vstd::arithmetic::div_mod::lemma_fundamental_div_mod(28 * k + r, 28);
        vstd::arithmetic::div_mod::lemma_div_multiples_vanish_fancy(k, r, 28);
    }
    assert(r / 28 == 0);
    assert(keys.subrange(k, keys.len() as int) =~= keys.skip(k).subrange(0, keys.skip(k).len() as int));
}

/// Whether a request on the segments `segs` stops at a directory at
/// depth `depth`: the path ends there, or goes on with one empty segment.
pub open spec fn at_directory(depth: int, segs: Seq<Seq<char>>) -> bool {
    depth >= segs.len() || (segs.len() == depth + 1 && segs[depth].len() == 0)
}

/// A node of the tree: the entries of a directory, by name in increasing
/// order, or a partition.
pub enum PartitionNode<P> {
    Node(Vec<(String, VFS<P>)>),
    Leaf(P),
}

/// The tree of partitions below a directory at depth `depth` (the root is
/// at depth 0).
pub struct VFS<P> {
    depth: usize,
    subfiles: PartitionNode<P>,
}

/// The names of the entries of a directory.
pub open spec fn entry_keys<P>(children: Seq<(String, VFS<P>)>) -> Seq<Seq<char>> {
    children.map_values(|c: (String, VFS<P>)| c.0@)
}

/// A directory of the tree with at least one entry.
pub open spec fn nonempty_directory(t: TargetView) -> bool {
    match t {
        TargetView::Directory(keys) => keys.len() > 0,
        _ => false,
    }
}

/// Path `s2` leaves path `segs` at some segment from `from` on, other than
/// a last, empty segment of `s2`.
pub open spec fn diverges(s2: Seq<Seq<char>>, segs: Seq<Seq<char>>, from: int) -> bool {
    exists|i: int|
        #![trigger s2[i], segs[i]]
        from <= i < s2.len() && i < segs.len() && s2[i] != segs[i] && !(i == s2.len() - 1 && s2[i].len() == 0)
}

impl<P> Default for VFS<P> {
    /// An empty root directory.
    fn default() -> (v: Self)
        ensures
            v.wf(),
            v.spec_depth() == 0,
    {
        Self::new()
    }
}

impl<P> VFS<P> {
    /// Depth of the tree's root.
    pub closed spec fn spec_depth(&self) -> nat {
        self.depth as nat
    }

    /// Every directory lists its entries in increasing order and sits one
    /// level above them.
    pub closed spec fn wf(self) -> bool
        decreases self,
    {
        match self.subfiles {
            PartitionNode::Leaf(_) => true,
            PartitionNode::Node(children) => {
                &&& sorted_keys(entry_keys(children@))
                &&& forall|i: int| 0 <= i < children@.len() ==> (#[trigger] children@[i]).1.depth == self.depth + 1
                &&& forall|i: int| 0 <= i < children@.len() ==> (#[trigger] children@[i]).1.wf()
            }
        }
    }

    /// Where a request on the path of segments `segs` goes: at a
    /// partition, there with the segments below it; at a directory, when
    /// the path ends there (or goes on with one empty segment), to the
    /// directory; otherwise on to the entry named by the next segment, or
    /// nowhere when there is none.
    pub closed spec fn spec_target(self, segs: Seq<Seq<char>>) -> TargetView
        decreases self,
    {
        match self.subfiles {
            PartitionNode::Leaf(_) => TargetView::Leaf(join_path(segs.skip(self.depth as int))),
            PartitionNode::Node(children) => {
                if self.depth >= segs.len() || (segs.len() == self.depth + 1 && segs[self.depth as int].len() == 0) {
                    TargetView::Directory(entry_keys(children@))
                } else {
                    let k = key_index(entry_keys(children@), segs[self.depth as int]);
                    if 0 <= k < children@.len() {
                        children@[k].1.spec_target(segs)
                    } else {
                        TargetView::Missing
                    }
                }
            }
        }
    }

    /// The partition a request on the path of segments `segs` reaches.
    pub closed spec fn spec_leaf(self, segs: Seq<Seq<char>>) -> Option<P>
        decreases self,
    {
        match self.subfiles {
            PartitionNode::Leaf(p) => Some(p),
            PartitionNode::Node(children) => {
                if self.depth >= segs.len() || (segs.len() == self.depth + 1 && segs[self.depth as int].len() == 0) {
                    None
                } else {
                    let k = key_index(entry_keys(children@), segs[self.depth as int]);
                    if 0 <= k < children@.len() {
                        children@[k].1.spec_leaf(segs)
                    } else {
                        None
                    }
                }
            }
        }
    }

    /// Whether a partition can be put at the path of segments `segs`: the
    /// way down meets no partition, and ends at a missing entry or at an
    /// empty directory.
    pub closed spec fn spec_addable(self, segs: Seq<Seq<char>>) -> bool
        decreases self,
    {
        match self.subfiles {
            PartitionNode::Leaf(_) => false,
            PartitionNode::Node(children) => {
                if self.depth >= segs.len() {
                    children@.len() == 0
                } else {
                    let k = key_index(entry_keys(children@), segs[self.depth as int]);
                    if 0 <= k < children@.len() {
                        children@[k].1.spec_addable(segs)
                    } else {
                        true
                    }
                }
            }
        }
    }

    /// Index of the entry named `key`, if there is one.
    fn find_child(children: &Vec<(String, VFS<P>)>, key: &String) -> (r: Option<usize>)
        ensures
            match r {
                Some(k) => k < children@.len() && k == key_index(entry_keys(children@), key@),
                None => key_index(entry_keys(children@), key@) < 0,
            },
    {
        proof {
            lemma_key_index(entry_keys(children@), key@);
        }
        let mut i: usize = 0;
        while i < children.len()
            invariant
                i <= children@.len(),
                forall|j: int| 0 <= j < i ==> (#[trigger] children@[j]).0@ != key@,
                -1 <= key_index(entry_keys(children@), key@) < children@.len(),
                key_index(entry_keys(children@), key@) >= 0 ==> entry_keys(children@)[key_index(entry_keys(children@), key@)] == key@,
                key_index(entry_keys(children@), key@) >= 0 ==> forall|j: int| 0 <= j < key_index(entry_keys(children@), key@) ==> entry_keys(children@)[j] != key@,
                key_index(entry_keys(children@), key@) < 0 ==> forall|j: int| 0 <= j < children@.len() ==> entry_keys(children@)[j] != key@,
            decreases children@.len() - i,
        {
            if children[i].0 == *key {
                assert(entry_keys(children@)[i as int] == key@);
                return Some(i);
            }
            assert(entry_keys(children@)[i as int] == children@[i as int].0@);
            i += 1;
        }
        proof {
            if key_index(entry_keys(children@), key@) >= 0 {
                let k = key_index(entry_keys(children@), key@);
                assert(entry_keys(children@)[k] == children@[k].0@);
            }
        }
        None
    }

    /// Where a new entry named `key`, absent from the directory, goes to
    /// keep the names in order.
    fn insert_position(children: &Vec<(String, VFS<P>)>, key: &String) -> (pos: usize)
        requires
            sorted_keys(entry_keys(children@)),
            key_index(entry_keys(children@), key@) < 0,
        ensures
            pos <= children@.len(),
            sorted_keys(entry_keys(children@).insert(pos as int, key@)),
    {
        proof {
            lemma_key_index(entry_keys(children@), key@);
        }
        let mut i: usize = 0;
        while i < children.len()
            invariant
                i <= children@.len(),
                forall|j: int| 0 <= j < children@.len() ==> #[trigger] entry_keys(children@)[j] != key@,
                forall|j: int| 0 <= j < i ==> key_lt(#[trigger] entry_keys(children@)[j], key@),
            ensures
                i <= children@.len(),
                forall|j: int| 0 <= j < i ==> key_lt(#[trigger] entry_keys(children@)[j], key@),
                i < children@.len() ==> key_lt(key@, entry_keys(children@)[i as int]),
            decreases children@.len() - i,
        {
            assert(entry_keys(children@)[i as int] == children@[i as int].0@);
            if key_less(key, &children[i].0) {
                break;
            }
            proof {
                assert(entry_keys(children@)[i as int] != key@);
                lemma_key_lt_order(key@, children@[i as int].0@, key@);
            }
            i += 1;
        }
        proof {
            let keys = entry_keys(children@);
            let nk = keys.insert(i as int, key@);
            assert forall|a: int, b: int| 0 <= a < b < nk.len() implies key_lt(#[trigger] nk[a], #[trigger] nk[b]) by {
                if b < i {
                } else if a < i && b == i {
                } else if a < i && b > i {
                    assert(nk[b] == keys[b - 1]);
                    if i < keys.len() {
                        lemma_key_lt_order(keys[a], key@, keys[i as int]);
                        lemma_key_lt_order(key@, keys[i as int], keys[b - 1]);
                        if b - 1 > i {
                            lemma_key_lt_order(keys[a], keys[i as int], keys[b - 1]);
                        }
                    }
                } else if a == i {
                    assert(nk[b] == keys[b - 1]);
                    if b - 1 > i {
                        lemma_key_lt_order(key@, keys[i as int], keys[b - 1]);
                    }
                } else {
                    assert(nk[a] == keys[a - 1] && nk[b] == keys[b - 1]);
                }
            }
        }
        i
    }

    /// Puts partition `data` at `path`, creating the directories on the
    /// way. It fails unless `spec_addable` holds, and then nothing changes.
    /// Otherwise requests on `path` (when its last segment is not empty)
    /// reach `data`, and every partition reached before is reached as
    /// before.
    pub fn add_file(&mut self, path: Path, data: P) -> (r: Result<(), ErrVFS>)
        requires
            old(self).wf(),
            old(self).spec_depth() <= split_path(path@).len(),
        ensures
            final(self).wf(),
            final(self).spec_depth() == old(self).spec_depth(),
            r is Ok <==> old(self).spec_addable(split_path(path@)),
            r is Err ==> forall|s2: Seq<Seq<char>>| #[trigger] final(self).spec_target(s2) == old(self).spec_target(s2)
                && final(self).spec_leaf(s2) == old(self).spec_leaf(s2),
            r is Ok && split_path(path@).last().len() > 0 ==> final(self).spec_target(split_path(path@))
                == TargetView::Leaf(Seq::<char>::empty()) && final(self).spec_leaf(split_path(path@)) == Some(data),
            r is Ok ==> forall|s2: Seq<Seq<char>>| #[trigger] old(self).spec_target(s2) is Leaf ==> final(self).spec_target(s2)
                == old(self).spec_target(s2) && final(self).spec_leaf(s2) == old(self).spec_leaf(s2),
            r is Ok ==> forall|s2: Seq<Seq<char>>|
                diverges(s2, split_path(path@), old(self).spec_depth() as int) ==> #[trigger] final(self).spec_target(s2)
                    == old(self).spec_target(s2) && final(self).spec_leaf(s2) == old(self).spec_leaf(s2),
            r is Ok ==> forall|n: int|
                old(self).spec_depth() <= n < split_path(path@).len() ==> nonempty_directory(
                    #[trigger] final(self).spec_target(split_path(path@).take(n)),
                ),
            r is Ok ==> forall|s2: Seq<Seq<char>>|
                s2.len() > split_path(path@).len() && s2.take(split_path(path@).len() as int) == split_path(path@)
                    ==> (#[trigger] final(self).spec_target(s2)) is Leaf && final(self).spec_leaf(s2) == Some(data),
        decreases split_path(path@).len() - old(self).spec_depth(),
    {
        let ghost segs = split_path(path@);
        let sliced = path.slice();
        let depth = self.depth;
        if depth == sliced.len() {
            match &self.subfiles {
                PartitionNode::Leaf(_) => Err(ErrVFS()),
                PartitionNode::Node(map) => {
                    if map.len() == 0 {
                        self.subfiles = PartitionNode::Leaf(data);
                        assert(segs.skip(depth as int) =~= Seq::<Seq<char>>::empty());
                        Ok(())
                    } else {
                        Err(ErrVFS())
                    }
                },
            }
        } else {
            let ghost old_self = *self;
            match &mut self.subfiles {
                PartitionNode::Leaf(_) => Err(ErrVFS()),
                PartitionNode::Node(map) => {
                    let ghost old_map = map@;
                    let ghost key = segs[depth as int];
                    assert(sliced@[depth as int]@ == key);
                    match Self::find_child(map, &sliced[depth]) {
                        None => {
                            let mut next = VFS { depth: depth + 1, subfiles: PartitionNode::Node(Vec::new()) };
                            assert(sorted_keys(entry_keys(Seq::<(String, VFS<P>)>::empty())));
                            let ghost next0 = next;
                            let res = next.add_file(path, data);
                            let pos = Self::insert_position(map, &sliced[depth]);
                            let k = sliced[depth].clone();
                            map.insert(pos, (k, next));
                            proof {
                                let keys = entry_keys(old_map);
                                assert(entry_keys(map@) =~= keys.insert(pos as int, key));
                                lemma_key_index_insert(keys, pos as int, key, key);
                                assert forall|i: int| 0 <= i < map@.len() implies (#[trigger] map@[i]).1.depth == depth + 1
                                    && map@[i].1.wf() by {
                                    if i < pos {
                                        assert(map@[i] == old_map[i]);
                                    } else if i > pos {
                                        assert(map@[i] == old_map[i - 1]);
                                    }
                                }
                                assert forall|s2: Seq<Seq<char>>| #[trigger] old_self.spec_target(s2) is Leaf implies self.spec_target(s2)
                                    == old_self.spec_target(s2) && self.spec_leaf(s2) == old_self.spec_leaf(s2) by {
                                    if !(depth >= s2.len() || (s2.len() == depth + 1 && s2[depth as int].len() == 0)) {
                                        let k2 = key_index(keys, s2[depth as int]);
                                        lemma_key_index(keys, s2[depth as int]);
                                        assert(s2[depth as int] != key);
                                        lemma_key_index_insert(keys, pos as int, key, s2[depth as int]);
                                        if k2 < pos {
                                            assert(map@[k2] == old_map[k2]);
                                        } else {
                                            assert(map@[k2 + 1] == old_map[k2]);
                                        }
                                    }
                                }
                                assert forall|s2: Seq<Seq<char>>|
                                    res is Ok && diverges(s2, segs, depth as int) implies #[trigger] self.spec_target(s2)
                                    == old_self.spec_target(s2) && self.spec_leaf(s2) == old_self.spec_leaf(s2) by {
                                    let i = choose|i: int|
                                        #![trigger s2[i], segs[i]]
                                        depth <= i < s2.len() && i < segs.len() && s2[i] != segs[i] && !(i == s2.len() - 1
                                            && s2[i].len() == 0);
                                    assert(!(depth >= s2.len() || (s2.len() == depth + 1 && s2[depth as int].len() == 0)));
                                    if s2[depth as int] != key {
                                        let k2 = key_index(keys, s2[depth as int]);
                                        lemma_key_index(keys, s2[depth as int]);
                                        lemma_key_index_insert(keys, pos as int, key, s2[depth as int]);
                                        if 0 <= k2 < pos {
                                            assert(map@[k2] == old_map[k2]);
                                        } else if k2 >= pos {
                                            assert(map@[k2 + 1] == old_map[k2]);
                                        }
                                    } else {
                                        lemma_key_index(keys, key);
                                        assert(key_index(entry_keys(map@), key) == pos);
                                        assert(i > depth);
                                        assert(diverges(s2, segs, depth + 1));
                                        assert(map@[pos as int].1 == next);
                                        assert(!(depth + 1 >= s2.len() || (s2.len() == depth + 2 && s2[depth + 1].len() == 0)));
                                        assert(entry_keys(Seq::<(String, VFS<P>)>::empty()) =~= Seq::<Seq<char>>::empty());
                                        lemma_key_index(Seq::<Seq<char>>::empty(), s2[depth + 1]);
                                        assert(next0.spec_target(s2) == TargetView::Missing);
                                        assert(next0.spec_leaf(s2) is None);
                                        assert(old_self.spec_target(s2) == TargetView::Missing);
                                    }
                                }
                                if res is Ok {
                                    lemma_key_index(keys, key);
                                    assert(key_index(entry_keys(map@), key) == pos);
                                    assert(map@[pos as int].1 == next);
                                    assert forall|n: int| depth <= n < segs.len() implies nonempty_directory(
                                        #[trigger] self.spec_target(segs.take(n)),
                                    ) by {
                                        let t = segs.take(n);
                                        assert(entry_keys(map@).len() == map@.len());
                                        if n > depth && !(n == depth + 1 && key.len() == 0) {
                                            assert(t[depth as int] == key);
                                            assert(nonempty_directory(next.spec_target(t)));
                                        }
                                    }
                                    assert forall|s2: Seq<Seq<char>>|
                                        s2.len() > segs.len() && s2.take(segs.len() as int) == segs implies (#[trigger] self.spec_target(
                                        s2)) is Leaf && self.spec_leaf(s2) == Some(data) by {
                                        assert(s2[depth as int] == s2.take(segs.len() as int)[depth as int]);
                                        assert(next.spec_target(s2) is Leaf);
                                        assert(next.spec_leaf(s2) == Some(data));
                                    }
                                }
                            }
                            res
                        },
                        Some(i) => {
                            proof {
                                lemma_key_index_sorted(entry_keys(old_map), i as int);
                            }
                            let res = map[i].1.add_file(path, data);
                            proof {
                                assert(entry_keys(map@) =~= entry_keys(old_map));
                                assert forall|j: int| 0 <= j < map@.len() implies (#[trigger] map@[j]).1.depth == depth + 1
                                    && map@[j].1.wf() by {
                                    if j != i {
                                        assert(map@[j] == old_map[j]);
                                    }
                                }
                                assert forall|s2: Seq<Seq<char>>| (res is Err || #[trigger] old_self.spec_target(s2) is Leaf) implies self.spec_target(s2)
                                    == old_self.spec_target(s2) && self.spec_leaf(s2) == old_self.spec_leaf(s2) by {
                                    if !(depth >= s2.len() || (s2.len() == depth + 1 && s2[depth as int].len() == 0)) {
                                        let k2 = key_index(entry_keys(old_map), s2[depth as int]);
                                        if 0 <= k2 < old_map.len() && k2 != i {
                                            assert(map@[k2] == old_map[k2]);
                                        } else if k2 == i {
                                            assert(old_self.spec_target(s2) == old_map[k2].1.spec_target(s2));
                                            assert(map@[k2].1.spec_target(s2) == old_map[k2].1.spec_target(s2));
                                            assert(map@[k2].1.spec_leaf(s2) == old_map[k2].1.spec_leaf(s2));
                                        }
                                    }
                                }
                                assert forall|s2: Seq<Seq<char>>|
                                    res is Ok && diverges(s2, segs, depth as int) implies #[trigger] self.spec_target(s2)
                                    == old_self.spec_target(s2) && self.spec_leaf(s2) == old_self.spec_leaf(s2) by {
                                    let j2 = choose|j2: int|
                                        #![trigger s2[j2], segs[j2]]
                                        depth <= j2 < s2.len() && j2 < segs.len() && s2[j2] != segs[j2] && !(j2 == s2.len() - 1
                                            && s2[j2].len() == 0);
                                    assert(!(depth >= s2.len() || (s2.len() == depth + 1 && s2[depth as int].len() == 0)));
                                    let k2 = key_index(entry_keys(old_map), s2[depth as int]);
                                    if 0 <= k2 < old_map.len() && k2 != i {
                                        assert(map@[k2] == old_map[k2]);
                                    } else if k2 == i {
                                        lemma_key_index(entry_keys(old_map), s2[depth as int]);
                                        lemma_key_index(entry_keys(old_map), segs[depth as int]);
                                        assert(s2[depth as int] == segs[depth as int]);
                                        assert(diverges(s2, segs, depth + 1));
                                        assert(old_self.spec_target(s2) == old_map[k2].1.spec_target(s2));
                                        assert(map@[k2].1.spec_target(s2) == old_map[k2].1.spec_target(s2));
                                        assert(map@[k2].1.spec_leaf(s2) == old_map[k2].1.spec_leaf(s2));
                                    }
                                }
                                if res is Ok {
                                    lemma_key_index(entry_keys(old_map), segs[depth as int]);
                                    assert forall|n: int| depth <= n < segs.len() implies nonempty_directory(
                                        #[trigger] self.spec_target(segs.take(n)),
                                    ) by {
                                        let t = segs.take(n);
                                        assert(entry_keys(map@).len() == map@.len());
                                        if n > depth && !(n == depth + 1 && segs[depth as int].len() == 0) {
                                            assert(t[depth as int] == segs[depth as int]);
                                            assert(nonempty_directory(map@[i as int].1.spec_target(t)));
                                        }
                                    }
                                    assert forall|s2: Seq<Seq<char>>|
                                        s2.len() > segs.len() && s2.take(segs.len() as int) == segs implies (#[trigger] self.spec_target(
                                        s2)) is Leaf && self.spec_leaf(s2) == Some(data) by {
                                        assert(s2[depth as int] == s2.take(segs.len() as int)[depth as int]);
                                        assert(map@[i as int].1.spec_target(s2) is Leaf);
                                        assert(map@[i as int].1.spec_leaf(s2) == Some(data));
                                    }
                                }
                            }
                            res
                        },
                    }
                },
            }
        }
    }

    /// The listing of a directory whose entries are `children`, read from
    /// byte `offset`, at most `size` bytes, as `dir_listing` says.
    fn list_directory(children: &Vec<(String, VFS<P>)>, offset: usize, size: usize) -> (v: Vec<u8>)
        ensures
            v@ == dir_listing(entry_keys(children@), offset as int, size as int),
    {
        let ghost keys = entry_keys(children@);
        let start = if offset / 28 < children.len() { offset / 28 } else { children.len() };
        let mut v: Vec<u8> = Vec::new();
        let mut i: usize = start;
        assert(keys.subrange(i as int, keys.len() as int).len() == keys.len() - i);
        while i < children.len()
            invariant
                start <= i <= children@.len(),
                keys == entry_keys(children@),
                dir_listing(keys, offset as int, size as int) == listing_from(keys.subrange(i as int, keys.len() as int), v@, size as int),
            decreases children@.len() - i,
        {
            let ghost rest = keys.subrange(i as int, keys.len() as int);
            if size < 28 || v.len() > size - 28 {
                return v;
            }
            let ghost before = v@;
            let bytes = children[i].0.as_str().as_bytes();
            let mut j: usize = 0;
            while j < bytes.len()
                invariant
                    j <= bytes@.len(),
                    v@ == before + bytes@.take(j as int),
                decreases bytes@.len() - j,
            {
                v.push(bytes[j]);
                assert(v@ =~= before + bytes@.take(j + 1));
                j += 1;
            }
            assert(bytes@.take(j as int) =~= bytes@);
            let ghost with_name = v@;
            let mut k: usize = bytes.len();
            while k < 28
                invariant
                    bytes@.len() <= k <= 28 || (k == bytes@.len() && k >= 28),
                    v@ == with_name + Seq::new((k - bytes@.len()) as nat, |t: int| 32u8),
                decreases 28 - k,
            {
                v.push(32u8);
                assert(v@ =~= with_name + Seq::new((k + 1 - bytes@.len()) as nat, |t: int| 32u8));
                k += 1;
            }
            v.push(10u8);
            proof {
                assert(keys[i as int] == children@[i as int].0@);
                assert(v@ =~= before + entry_line(keys[i as int]));
                assert(rest.drop_first() =~= keys.subrange(i + 1, keys.len() as int));
            }
            i += 1;
        }
        v
    }

    /// For a path whose last segment is not empty, a partition can be put
    /// there exactly when requests on the path reach nothing, or an empty
    /// directory of the tree.
    pub proof fn lemma_addable_target(&self, segs: Seq<Seq<char>>)
        requires
            self.wf(),
            self.spec_depth() <= segs.len(),
            segs.len() > 0,
            segs.last().len() > 0,
        ensures
            self.spec_addable(segs) <==> (self.spec_target(segs) is Missing || self.spec_target(segs)
                == TargetView::Directory(Seq::<Seq<char>>::empty())),
        decreases *self,
    {
        match self.subfiles {
            PartitionNode::Leaf(_) => {},
            PartitionNode::Node(children) => {
                if self.depth >= segs.len() {
                    assert(entry_keys(children@).len() == children@.len());
                    if children@.len() == 0 {
                        assert(entry_keys(children@) =~= Seq::<Seq<char>>::empty());
                    }
                } else {
                    assert(!(segs.len() == self.depth + 1 && segs[self.depth as int].len() == 0));
                    let k = key_index(entry_keys(children@), segs[self.depth as int]);
                    if 0 <= k < children@.len() {
                        children@[k].1.lemma_addable_target(segs);
                    }
                }
            },
        }
    }

    /// For a path ending with an empty segment (a path ending in `/`), a
    /// partition can be put there exactly when requests on the path reach
    /// nothing, or reach a directory of the tree in which the entry with the
    /// empty name is missing or an empty directory; the partition then goes
    /// under that entry (see `add_file`).
    pub proof fn lemma_addable_target_trailing(&self, segs: Seq<Seq<char>>)
        requires
            self.wf(),
            segs.len() > 0,
            self.spec_depth() < segs.len(),
            segs.last().len() == 0,
        ensures
            self.spec_addable(segs) <==> (self.spec_target(segs) is Missing || (self.spec_target(segs) is Directory && (
            self.spec_target(segs.push(Seq::<char>::empty())) is Missing || self.spec_target(
                segs.push(Seq::<char>::empty()),
            ) == TargetView::Directory(Seq::<Seq<char>>::empty())))),
        decreases *self,
    {
        let s2 = segs.push(Seq::<char>::empty());
        assert(s2[self.depth as int] == segs[self.depth as int]);
        match self.subfiles {
            PartitionNode::Leaf(_) => {},
            PartitionNode::Node(children) => {
                let k = key_index(entry_keys(children@), segs[self.depth as int]);
                if self.depth == segs.len() - 1 {
                    if 0 <= k < children@.len() {
                        let c = children@[k].1;
                        assert(c.depth == self.depth + 1);
                        assert(self.spec_addable(segs) == c.spec_addable(segs));
                        assert(self.spec_target(s2) == c.spec_target(s2));
                        match c.subfiles {
                            PartitionNode::Leaf(_) => {},
                            PartitionNode::Node(cc) => {
                                assert(c.spec_addable(segs) == (cc@.len() == 0));
                                assert(c.spec_target(s2) == TargetView::Directory(entry_keys(cc@)));
                                assert(entry_keys(cc@).len() == cc@.len());
                                if cc@.len() == 0 {
                                    assert(entry_keys(cc@) =~= Seq::<Seq<char>>::empty());
                                }
                            },
                        }
                    }
                } else {
                    if 0 <= k < children@.len() {
                        children@[k].1.lemma_addable_target_trailing(segs);
                    }
                }
            },
        }
    }

    /// A directory whose entry `k` changed into one reached the same way
    /// is reached the same way, and stays well formed.
    proof fn lemma_update_child(old_self: Self, new_self: Self, k: int)
        requires
            old_self.wf(),
            old_self.subfiles is Node,
            new_self.subfiles is Node,
            new_self.depth == old_self.depth,
            ({
                let om = old_self.subfiles->Node_0@;
                let nm = new_self.subfiles->Node_0@;
                &&& 0 <= k < om.len()
                &&& nm.len() == om.len()
                &&& forall|j: int| 0 <= j < om.len() && j != k ==> nm[j] == om[j]
                &&& nm[k].0@ == om[k].0@
                &&& nm[k].1.wf()
                &&& nm[k].1.depth == om[k].1.depth
                &&& forall|s2: Seq<Seq<char>>| #[trigger] nm[k].1.spec_target(s2) == om[k].1.spec_target(s2)
            }),
        ensures
            new_self.wf(),
            forall|s2: Seq<Seq<char>>| #[trigger] new_self.spec_target(s2) == old_self.spec_target(s2),
    {
        let om = old_self.subfiles->Node_0@;
        let nm = new_self.subfiles->Node_0@;
        assert(entry_keys(nm) =~= entry_keys(om)) by {
            assert forall|j: int| 0 <= j < om.len() implies entry_keys(nm)[j] == entry_keys(om)[j] by {
                if j != k {
                    assert(nm[j] == om[j]);
                }
            }
        }
        assert forall|j: int| 0 <= j < nm.len() implies (#[trigger] nm[j]).1.depth == new_self.depth + 1 && nm[j].1.wf() by {
            if j != k {
                assert(nm[j] == om[j]);
            }
        }
        assert forall|s2: Seq<Seq<char>>| #[trigger] new_self.spec_target(s2) == old_self.spec_target(s2) by {
            if !at_directory(old_self.depth as int, s2) {
                let k2 = key_index(entry_keys(om), s2[old_self.depth as int]);
                if 0 <= k2 < om.len() {
                    if k2 != k {
                        assert(nm[k2] == om[k2]);
                    } else {
                        assert(nm[k].1.spec_target(s2) == om[k].1.spec_target(s2));
                    }
                }
            }
        }
    }

    /// Replacing child `k` of a directory by one reaching the same
    /// partitions on every path keeps the partitions every path reaches.
    proof fn lemma_update_child_leaves(old_self: Self, new_self: Self, k: int)
        requires
            old_self.subfiles is Node,
            new_self.subfiles is Node,
            new_self.depth == old_self.depth,
            ({
                let om = old_self.subfiles->Node_0@;
                let nm = new_self.subfiles->Node_0@;
                &&& 0 <= k < om.len()
                &&& nm.len() == om.len()
                &&& forall|j: int| 0 <= j < om.len() && j != k ==> nm[j] == om[j]
                &&& nm[k].0@ == om[k].0@
                &&& forall|s2: Seq<Seq<char>>| #[trigger] nm[k].1.spec_leaf(s2) == om[k].1.spec_leaf(s2)
            }),
        ensures
            forall|s2: Seq<Seq<char>>| #[trigger] new_self.spec_leaf(s2) == old_self.spec_leaf(s2),
    {
        let om = old_self.subfiles->Node_0@;
        let nm = new_self.subfiles->Node_0@;
        assert(entry_keys(nm) =~= entry_keys(om)) by {
            assert forall|j: int| 0 <= j < om.len() implies entry_keys(nm)[j] == entry_keys(om)[j] by {
                if j != k {
                    assert(nm[j] == om[j]);
                }
            }
        }
        assert forall|s2: Seq<Seq<char>>| #[trigger] new_self.spec_leaf(s2) == old_self.spec_leaf(s2) by {
            if !(old_self.depth >= s2.len() || (s2.len() == old_self.depth + 1 && s2[old_self.depth as int].len()
                == 0)) {
                let k2 = key_index(entry_keys(om), s2[old_self.depth as int]);
                if 0 <= k2 < om.len() {
                    if k2 != k {
                        assert(nm[k2] == om[k2]);
                    } else {
                        assert(nm[k].1.spec_leaf(s2) == om[k].1.spec_leaf(s2));
                    }
                }
            }
        }
    }

    /// Through child `k`, chosen by the next segment of `segs`, a directory
    /// reaches what the child reaches, before and after the child is
    /// replaced.
    proof fn lemma_leaf_via_child(old_self: Self, new_self: Self, k: int, segs: Seq<Seq<char>>)
        requires
            old_self.subfiles is Node,
            new_self.subfiles is Node,
            new_self.depth == old_self.depth,
            old_self.depth < segs.len(),
            !(segs.len() == old_self.depth + 1 && segs[old_self.depth as int].len() == 0),
            ({
                let om = old_self.subfiles->Node_0@;
                let nm = new_self.subfiles->Node_0@;
                &&& 0 <= k < om.len()
                &&& nm.len() == om.len()
                &&& forall|j: int| 0 <= j < om.len() && j != k ==> nm[j] == om[j]
                &&& nm[k].0@ == om[k].0@
                &&& key_index(entry_keys(om), segs[old_self.depth as int]) == k
            }),
        ensures
            old_self.spec_leaf(segs) == old_self.subfiles->Node_0@[k].1.spec_leaf(segs),
            old_self.spec_target(segs) == old_self.subfiles->Node_0@[k].1.spec_target(segs),
            new_self.spec_leaf(segs) == new_self.subfiles->Node_0@[k].1.spec_leaf(segs),
    {
        let om = old_self.subfiles->Node_0@;
        let nm = new_self.subfiles->Node_0@;
        assert(entry_keys(nm) =~= entry_keys(om)) by {
            assert forall|j: int| 0 <= j < om.len() implies entry_keys(nm)[j] == entry_keys(om)[j] by {
                if j != k {
                    assert(nm[j] == om[j]);
                }
            }
        }
    }

    /// Opens `path`: at a directory of the tree, file 0; nowhere, `None`;
    /// at a partition, what the partition answers for the path below it.
    /// The tree keeps its shape.
    pub fn open(&mut self, path: &Path, flags: OpenFlags) -> (r: Option<usize>)
        where P: Partition
        requires
            old(self).wf(),
            old(self).spec_depth() <= split_path(path@).len(),
        ensures
            final(self).wf(),
            final(self).spec_depth() == old(self).spec_depth(),
            forall|s2: Seq<Seq<char>>| #[trigger] final(self).spec_target(s2) == old(self).spec_target(s2),
            old(self).spec_target(split_path(path@)) is Directory ==> r == Some(0usize),
            old(self).spec_target(split_path(path@)) is Missing ==> r is None,
            old(self).spec_target(split_path(path@)) matches TargetView::Leaf(sub) ==> P::open_outcome(
                old(self).spec_leaf(split_path(path@))->Some_0,
                sub,
                flags,
                r,
                final(self).spec_leaf(split_path(path@))->Some_0,
            ),
        decreases split_path(path@).len() - old(self).spec_depth(),
    {
        let sliced = path.slice();
        let depth = self.depth;
        let ghost old_self = *self;
        match &mut self.subfiles {
            PartitionNode::Leaf(part) => {
                let rest = vstd::slice::slice_subrange(sliced.as_slice(), depth, sliced.len());
                let path2 = Path::from_sliced(rest);
                proof {
                    assert(strings_view(rest@) =~= split_path(path@).skip(depth as int));
                }
                part.open(&path2, flags)
            },
            PartitionNode::Node(map) => {
                if depth == sliced.len() || (sliced.len() == depth + 1 && sliced[depth].as_str().is_empty()) {
                    Some(0)
                } else {
                    let ghost old_map = map@;
                    match Self::find_child(map, &sliced[depth]) {
                        None => None,
                        Some(k) => {
                            let r = map[k].1.open(path, flags);
                            proof {
                                Self::lemma_update_child(old_self, *self, k as int);
                                Self::lemma_leaf_via_child(old_self, *self, k as int, split_path(path@));
                            }
                            r
                        },
                    }
                }
            },
        }
    }

    /// Reads up to `size` bytes of the open file `oft`: at a directory of
    /// the tree, its listing from the file's offset (`dir_listing`);
    /// nowhere, `Kill`; at a partition, what the partition reads for the
    /// path below it. The tree keeps its shape.
    pub fn read(&mut self, oft: &OpenFileTable, size: usize) -> (r: Result<Vec<u8>, IoError>)
        where P: Partition
        requires
            old(self).wf(),
            old(self).spec_depth() <= split_path(oft.spec_path()).len(),
        ensures
            final(self).wf(),
            final(self).spec_depth() == old(self).spec_depth(),
            forall|s2: Seq<Seq<char>>| #[trigger] final(self).spec_target(s2) == old(self).spec_target(s2),
            old(self).spec_target(split_path(oft.spec_path())) matches TargetView::Directory(keys) ==> (r matches Ok(v)
                && v@ == dir_listing(keys, oft.spec_offset() as int, size as int)),
            old(self).spec_target(split_path(oft.spec_path())) is Missing ==> r == Err::<Vec<u8>, IoError>(IoError::Kill),
            old(self).spec_target(split_path(oft.spec_path())) matches TargetView::Leaf(sub) ==> exists|o2: OpenFileTable|
                moved_to(o2, *oft, sub) && #[trigger] P::read_outcome(
                    old(self).spec_leaf(split_path(oft.spec_path()))->Some_0,
                    o2,
                    size,
                    r,
                    final(self).spec_leaf(split_path(oft.spec_path()))->Some_0,
                ),
        decreases split_path(oft.spec_path()).len() - old(self).spec_depth(),
    {
        let path = oft.get_path();
        let sliced = path.slice();
        let depth = self.depth;
        let ghost old_self = *self;
        match &mut self.subfiles {
            PartitionNode::Leaf(part) => {
                let rest = vstd::slice::slice_subrange(sliced.as_slice(), depth, sliced.len());
                let path2 = Path::from_sliced(rest);
                proof {
                    assert(strings_view(rest@) =~= split_path(oft.spec_path()).skip(depth as int));
                }
                let o2 = oft.with_new_path(path2);
                let r = part.read(&o2, size);
                proof {
                    assert(moved_to(o2, *oft, join_path(split_path(oft.spec_path()).skip(depth as int))));
                }
                proof {
                    let segs = split_path(oft.spec_path());
                    assert(old_self.spec_target(segs) == TargetView::Leaf(join_path(segs.skip(depth as int))));
                    assert(P::read_outcome(old_self.spec_leaf(segs)->Some_0, o2, size, r, self.spec_leaf(segs)->Some_0));
                }
                r
            },
            PartitionNode::Node(map) => {
                if depth == sliced.len() || (sliced.len() == depth + 1 && sliced[depth].as_str().is_empty()) {
                    proof {
                        assert(old_self.spec_target(split_path(oft.spec_path())) is Directory);
                    }
                    Ok(Self::list_directory(map, oft.get_offset(), size))
                } else {
                    match Self::find_child(map, &sliced[depth]) {
                        None => {
                            proof {
                                assert(old_self.spec_target(split_path(oft.spec_path())) is Missing);
                            }
                            Err(IoError::Kill)
                        },
                        Some(k) => {
                            let r = map[k].1.read(oft, size);
                            proof {
                                Self::lemma_update_child(old_self, *self, k as int);
                                Self::lemma_leaf_via_child(old_self, *self, k as int, split_path(oft.spec_path()));
                            }
                            r
                        },
                    }
                }
            },
        }
    }

    /// Writes `buffer` to the open file `oft`: -1 at a directory of the tree
    /// or nowhere; at a partition, what the partition answers for the path
    /// below it. The tree keeps its shape.
    pub fn write(&mut self, oft: &OpenFileTable, buffer: &[u8]) -> (r: isize)
        where P: Partition
        requires
            old(self).wf(),
            old(self).spec_depth() <= split_path(oft.spec_path()).len(),
        ensures
            final(self).wf(),
            final(self).spec_depth() == old(self).spec_depth(),
            forall|s2: Seq<Seq<char>>| #[trigger] final(self).spec_target(s2) == old(self).spec_target(s2),
            !(old(self).spec_target(split_path(oft.spec_path())) is Leaf) ==> r == -1,
            old(self).spec_target(split_path(oft.spec_path())) matches TargetView::Leaf(sub) ==> exists|o2: OpenFileTable|
                moved_to(o2, *oft, sub) && #[trigger] P::write_outcome(
                    old(self).spec_leaf(split_path(oft.spec_path()))->Some_0,
                    o2,
                    buffer@,
                    r,
                    final(self).spec_leaf(split_path(oft.spec_path()))->Some_0,
                ),
        decreases split_path(oft.spec_path()).len() - old(self).spec_depth(),
    {
        let path = oft.get_path();
        let sliced = path.slice();
        let depth = self.depth;
        let ghost old_self = *self;
        match &mut self.subfiles {
            PartitionNode::Leaf(part) => {
                let rest = vstd::slice::slice_subrange(sliced.as_slice(), depth, sliced.len());
                let path2 = Path::from_sliced(rest);
                proof {
                    assert(strings_view(rest@) =~= split_path(oft.spec_path()).skip(depth as int));
                }
                let o2 = oft.with_new_path(path2);
                let r = part.write(&o2, buffer);
                proof {
                    assert(moved_to(o2, *oft, join_path(split_path(oft.spec_path()).skip(depth as int))));
                }
                proof {
                    let segs = split_path(oft.spec_path());
                    assert(old_self.spec_target(segs) == TargetView::Leaf(join_path(segs.skip(depth as int))));
                    assert(P::write_outcome(old_self.spec_leaf(segs)->Some_0, o2, buffer@, r, self.spec_leaf(segs)->Some_0));
                }
                r
            },
            PartitionNode::Node(map) => {
                if depth == sliced.len() || (sliced.len() == depth + 1 && sliced[depth].as_str().is_empty()) {
                    proof {
                        assert(old_self.spec_target(split_path(oft.spec_path())) is Directory);
                    }
                    -1
                } else {
                    match Self::find_child(map, &sliced[depth]) {
                        None => {
                            proof {
                                assert(old_self.spec_target(split_path(oft.spec_path())) is Missing);
                            }
                            -1
                        },
                        Some(k) => {
                            let r = map[k].1.write(oft, buffer);
                            proof {
                                Self::lemma_update_child(old_self, *self, k as int);
                                Self::lemma_leaf_via_child(old_self, *self, k as int, split_path(oft.spec_path()));
                            }
                            r
                        },
                    }
                }
            },
        }
    }

    /// Closes the open file `oft`, at the partition that serves it if there
    /// is one; the answer is always `false`. The tree keeps its shape, and
    /// when the path reaches no partition, no partition changes.
    pub fn close(&mut self, oft: &OpenFileTable) -> (r: bool)
        where P: Partition
        requires
            old(self).wf(),
            old(self).spec_depth() <= split_path(oft.spec_path()).len(),
        ensures
            final(self).wf(),
            final(self).spec_depth() == old(self).spec_depth(),
            forall|s2: Seq<Seq<char>>| #[trigger] final(self).spec_target(s2) == old(self).spec_target(s2),
            !(old(self).spec_target(split_path(oft.spec_path())) is Leaf) ==> forall|s2: Seq<Seq<char>>|
                #[trigger] final(self).spec_leaf(s2) == old(self).spec_leaf(s2),
            !r,
            old(self).spec_target(split_path(oft.spec_path())) matches TargetView::Leaf(sub) ==> exists|o2: OpenFileTable, b: bool|
                moved_to(o2, *oft, sub) && #[trigger] P::close_outcome(
                    old(self).spec_leaf(split_path(oft.spec_path()))->Some_0,
                    o2,
                    b,
                    final(self).spec_leaf(split_path(oft.spec_path()))->Some_0,
                ),
        decreases split_path(oft.spec_path()).len() - old(self).spec_depth(),
    {
        let path = oft.get_path();
        let sliced = path.slice();
        let depth = self.depth;
        let ghost old_self = *self;
        match &mut self.subfiles {
            PartitionNode::Leaf(part) => {
                let rest = vstd::slice::slice_subrange(sliced.as_slice(), depth, sliced.len());
                let path2 = Path::from_sliced(rest);
                proof {
                    assert(strings_view(rest@) =~= split_path(oft.spec_path()).skip(depth as int));
                }
                let o2 = oft.with_new_path(path2);
                let b = part.close(&o2);
                proof {
                    assert(moved_to(o2, *oft, join_path(split_path(oft.spec_path()).skip(depth as int))));
                }
                proof {
                    let segs = split_path(oft.spec_path());
                    assert(old_self.spec_target(segs) == TargetView::Leaf(join_path(segs.skip(depth as int))));
                    assert(P::close_outcome(old_self.spec_leaf(segs)->Some_0, o2, b, self.spec_leaf(segs)->Some_0));
                }
                false
            },
            PartitionNode::Node(map) => {
                if depth == sliced.len() || (sliced.len() == depth + 1 && sliced[depth].as_str().is_empty()) {
                    proof {
                        assert(old_self.spec_target(split_path(oft.spec_path())) is Directory);
                    }
                    false
                } else {
                    match Self::find_child(map, &sliced[depth]) {
                        None => {
                            proof {
                                assert(old_self.spec_target(split_path(oft.spec_path())) is Missing);
                            }
                            false
                        },
                        Some(k) => {
                            let r = map[k].1.close(oft);
                            proof {
                                Self::lemma_update_child(old_self, *self, k as int);
                                Self::lemma_leaf_via_child(old_self, *self, k as int, split_path(oft.spec_path()));
                                let segs = split_path(oft.spec_path());
                                let om = old_self.subfiles->Node_0@;
                                assert(old_self.spec_target(segs) == om[k as int].1.spec_target(segs));
                                if !(old_self.spec_target(segs) is Leaf) {
                                    Self::lemma_update_child_leaves(old_self, *self, k as int);
                                }
                            }
                            r
                        },
                    }
                }
            },
        }
    }

    /// Hands the open file `oft` a parameter: `usize::MAX` at a directory of
    /// the tree or nowhere; at a partition, what the partition answers for
    /// the path below it. The tree keeps its shape.
    pub fn give_param(&mut self, oft: &OpenFileTable, param: usize) -> (r: usize)
        where P: Partition
        requires
            old(self).wf(),
            old(self).spec_depth() <= split_path(oft.spec_path()).len(),
        ensures
            final(self).wf(),
            final(self).spec_depth() == old(self).spec_depth(),
            forall|s2: Seq<Seq<char>>| #[trigger] final(self).spec_target(s2) == old(self).spec_target(s2),
            !(old(self).spec_target(split_path(oft.spec_path())) is Leaf) ==> r == usize::MAX,
            old(self).spec_target(split_path(oft.spec_path())) matches TargetView::Leaf(sub) ==> exists|o2: OpenFileTable|
                moved_to(o2, *oft, sub) && #[trigger] P::give_param_outcome(
                    old(self).spec_leaf(split_path(oft.spec_path()))->Some_0,
                    o2,
                    param,
                    r,
                    final(self).spec_leaf(split_path(oft.spec_path()))->Some_0,
                ),
        decreases split_path(oft.spec_path()).len() - old(self).spec_depth(),
    {
        let path = oft.get_path();
        let sliced = path.slice();
        let depth = self.depth;
        let ghost old_self = *self;
        match &mut self.subfiles {
            PartitionNode::Leaf(part) => {
                let rest = vstd::slice::slice_subrange(sliced.as_slice(), depth, sliced.len());
                let path2 = Path::from_sliced(rest);
                proof {
                    assert(strings_view(rest@) =~= split_path(oft.spec_path()).skip(depth as int));
                }
                let o2 = oft.with_new_path(path2);
                let r = part.give_param(&o2, param);
                proof {
                    assert(moved_to(o2, *oft, join_path(split_path(oft.spec_path()).skip(depth as int))));
                }
                proof {
                    let segs = split_path(oft.spec_path());
                    assert(old_self.spec_target(segs) == TargetView::Leaf(join_path(segs.skip(depth as int))));
                    assert(P::give_param_outcome(old_self.spec_leaf(segs)->Some_0, o2, param, r, self.spec_leaf(segs)->Some_0));
                }
                r
            },
            PartitionNode::Node(map) => {
                if depth == sliced.len() || (sliced.len() == depth + 1 && sliced[depth].as_str().is_empty()) {
                    proof {
                        assert(old_self.spec_target(split_path(oft.spec_path())) is Directory);
                    }
                    usize::MAX
                } else {
                    match Self::find_child(map, &sliced[depth]) {
                        None => {
                            proof {
                                assert(old_self.spec_target(split_path(oft.spec_path())) is Missing);
                            }
                            usize::MAX
                        },
                        Some(k) => {
                            let r = map[k].1.give_param(oft, param);
                            proof {
                                Self::lemma_update_child(old_self, *self, k as int);
                                Self::lemma_leaf_via_child(old_self, *self, k as int, split_path(oft.spec_path()));
                            }
                            r
                        },
                    }
                }
            },
        }
    }

    /// An empty root directory.
    pub fn new() -> (v: Self)
        ensures
            v.wf(),
            v.spec_depth() == 0,
            forall|segs: Seq<Seq<char>>| segs.len() > 0 && !(segs.len() == 1 && segs[0].len() == 0) ==> #[trigger] v.spec_target(segs) == TargetView::Missing,
    {
        let v = VFS { depth: 0, subfiles: PartitionNode::Node(Vec::new()) };
        assert(sorted_keys(entry_keys(Seq::<(String, VFS<P>)>::empty())));
        v
    }
}

} // verus!

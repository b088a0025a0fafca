//! Tables of open files: the kernel-wide table and each process's table of
//! file descriptors.
use vstd::prelude::*;
use crate::data_storage::path::Path;

verus! {

/// Error of a request on a descriptor table.
#[derive(Debug)]
pub struct FileDesciptorError();

/// Maximum number of files open in the whole kernel.
pub const MAX_TOTAL_OPEN_FILES: usize = 256;

/// Maximum number of files a process can have open.
pub const MAX_TOTAL_OPEN_FILES_BY_PROCESS: usize = 16;

/// What the kernel knows of an open file.
#[derive(Debug, Clone)]
pub struct OpenFileTable {
    /// Path of the file.
    path: Path,
    /// Flags the file was opened with.
    flags: u64,
    /// Current position in the file.
    offset: usize,
    /// Number the partition serving the file gave it when it was opened.
    id: usize,
    /// Number of descriptors that refer to the file.
    amount: usize,
}

impl OpenFileTable {
    /// Path of the file.
    pub closed spec fn spec_path(&self) -> Seq<char> {
        self.path@
    }

    /// Flags the file was opened with.
    pub closed spec fn spec_flags(&self) -> u64 {
        self.flags
    }

    /// Current position in the file.
    pub closed spec fn spec_offset(&self) -> usize {
        self.offset
    }

    /// Number the partition serving the file gave it.
    pub closed spec fn spec_id(&self) -> usize {
        self.id
    }

    /// Number of descriptors that refer to the file.
    pub closed spec fn spec_amount(&self) -> usize {
        self.amount
    }

    /// A freshly opened file, read from its start.
    pub fn new(path: Path, flags: u64) -> (t: Self)
        ensures
            t.spec_path() == path@,
            t.spec_flags() == flags,
            t.spec_offset() == 0,
            t.spec_id() == 0,
            t.spec_amount() == 1,
    {
        Self { path, flags, offset: 0, id: 0, amount: 1 }
    }

    /// The same open file, numbered `id` by its partition.
    pub fn with_id(&self, id: usize) -> (t: Self)
        ensures
            t.spec_path() == self.spec_path(),
            t.spec_flags() == self.spec_flags(),
            t.spec_offset() == self.spec_offset(),
            t.spec_id() == id,
            t.spec_amount() == self.spec_amount(),
    {
        Self { path: self.path.duplicate(), flags: self.flags, offset: self.offset, id, amount: self.amount }
    }

    /// The same open file, referred to by `amount` descriptors.
    pub fn with_amount(&self, amount: usize) -> (t: Self)
        ensures
            t.spec_path() == self.spec_path(),
            t.spec_flags() == self.spec_flags(),
            t.spec_offset() == self.spec_offset(),
            t.spec_id() == self.spec_id(),
            t.spec_amount() == amount,
    {
        Self { path: self.path.duplicate(), flags: self.flags, offset: self.offset, id: self.id, amount }
    }

    /// The same open file seen from a partition: its path replaced by the
    /// path below the partition.
    pub fn with_new_path(&self, path: Path) -> (t: Self)
        ensures
            t.spec_path() == path@,
            t.spec_flags() == self.spec_flags(),
            t.spec_offset() == self.spec_offset(),
            t.spec_id() == self.spec_id(),
            t.spec_amount() == self.spec_amount(),
    {
        Self { path, flags: self.flags, offset: self.offset, id: self.id, amount: self.amount }
    }

    /// Flags the file was opened with.
    pub fn get_flags(&self) -> (f: u64)
        ensures
            f == self.spec_flags(),
    {
        self.flags
    }

    /// Number the partition serving the file gave it.
    pub fn get_id(&self) -> (i: usize)
        ensures
            i == self.spec_id(),
    {
        self.id
    }

    /// Number of descriptors that refer to the file.
    pub fn get_amount(&self) -> (a: usize)
        ensures
            a == self.spec_amount(),
    {
        self.amount
    }

    /// A copy of the path of the file.
    pub fn get_path(&self) -> (p: Path)
        ensures
            p@ == self.spec_path(),
    {
        self.path.duplicate()
    }

    /// Current position in the file.
    pub fn get_offset(&self) -> (o: usize)
        ensures
            o == self.spec_offset(),
    {
        self.offset
    }
}

/// Distance from `from` to `to` walking forward round the table.
pub open spec fn cyclic_distance(from: int, to: int, n: int) -> int {
    if to >= from {
        to - from
    } else {
        to + n - from
    }
}

/// `o2` is the open file `o` seen from path `p`: same flags, offset, number
/// and count of descriptors.
pub open spec fn moved_to(o2: OpenFileTable, o: OpenFileTable, p: Seq<char>) -> bool {
    &&& o2.spec_path() == p
    &&& o2.spec_flags() == o.spec_flags()
    &&& o2.spec_offset() == o.spec_offset()
    &&& o2.spec_id() == o.spec_id()
    &&& o2.spec_amount() == o.spec_amount()
}

/// All the open files of the kernel.
#[derive(Clone, Debug)]
pub struct GeneralFileTable {
    /// Maps an index to the data of an open file.
    tables: Vec<Option<OpenFileTable>>,
    /// Where the search for a free entry starts.
    index: usize,
}

impl GeneralFileTable {
    /// The entries of the table.
    pub closed spec fn view(&self) -> Seq<Option<OpenFileTable>> {
        self.tables@
    }

    /// Where the search for a free entry starts.
    pub closed spec fn spec_index(&self) -> usize {
        self.index
    }

    /// The table has its fixed size and a valid search position.
    pub closed spec fn wf(&self) -> bool {
        &&& self.tables@.len() == MAX_TOTAL_OPEN_FILES
        &&& self.index < MAX_TOTAL_OPEN_FILES
    }

    /// An empty table.
    pub fn new() -> (t: Self)
        ensures
            t.wf(),
            t.spec_index() == 0,
            forall|i: int| 0 <= i < MAX_TOTAL_OPEN_FILES ==> #[trigger] t@[i] is None,
    {
        let mut tables: Vec<Option<OpenFileTable>> = Vec::new();
        let mut i: usize = 0;
        while i < MAX_TOTAL_OPEN_FILES
            invariant
                i <= MAX_TOTAL_OPEN_FILES,
                tables@.len() == i,
                forall|j: int| 0 <= j < i ==> #[trigger] tables@[j] is None,
            decreases MAX_TOTAL_OPEN_FILES - i,
        {
            tables.push(None);
            i += 1;
        }
        Self { tables, index: 0 }
    }

    /// Stores `openfile` in the first free entry at or after the search
    /// position, going round the table, and returns that entry's index.
    pub fn insert(&mut self, openfile: OpenFileTable) -> (r: usize)
        requires
            old(self).wf(),
            exists|j: int| 0 <= j < MAX_TOTAL_OPEN_FILES && #[trigger] old(self)@[j] is None,
        ensures
            final(self).wf(),
            r < MAX_TOTAL_OPEN_FILES,
            old(self)@[r as int] is None,
            forall|j: int|
                0 <= j < MAX_TOTAL_OPEN_FILES && cyclic_distance(old(self).spec_index() as int, j, MAX_TOTAL_OPEN_FILES as int)
                    < cyclic_distance(old(self).spec_index() as int, r as int, MAX_TOTAL_OPEN_FILES as int)
                    ==> #[trigger] old(self)@[j] is Some,
            final(self)@ == old(self)@.update(r as int, Some(openfile)),
            final(self).spec_index() == r,
    {
        let ghost start = self.index as int;
        let mut count: usize = 0;
        while count < MAX_TOTAL_OPEN_FILES
            invariant
                self.wf(),
                self.tables@ == old(self).tables@,
                start == old(self).index,
                count <= MAX_TOTAL_OPEN_FILES,
                self.index == (start + count) % (MAX_TOTAL_OPEN_FILES as int),
                forall|j: int|
                    0 <= j < MAX_TOTAL_OPEN_FILES && cyclic_distance(start, j, MAX_TOTAL_OPEN_FILES as int) < count
                        ==> #[trigger] self.tables@[j] is Some,
            decreases MAX_TOTAL_OPEN_FILES - count,
        {
            if self.tables[self.index].is_none() {
                self.tables.set(self.index, Some(openfile));
                return self.index;
            }
            self.index += 1;
            if self.index == MAX_TOTAL_OPEN_FILES {
                self.index = 0;
            }
            count += 1;
        }
        proof {
            let j = choose|j: int| 0 <= j < MAX_TOTAL_OPEN_FILES && #[trigger] old(self)@[j] is None;
            assert(self.tables@[j] is Some);
        }
        self.index
    }

    /// Frees the entry at `index`.
    pub fn delete(&mut self, index: usize)
        requires
            old(self).wf(),
            index < MAX_TOTAL_OPEN_FILES,
        ensures
            final(self).wf(),
            final(self)@ == old(self)@.update(index as int, None),
            final(self).spec_index() == old(self).spec_index(),
    {
        self.tables.set(index, None);
    }

    /// The open file stored at `index`.
    pub fn get_file_table_ref(&self, index: usize) -> (t: &OpenFileTable)
        requires
            self.wf(),
            index < MAX_TOTAL_OPEN_FILES,
            self@[index as int] is Some,
        ensures
            Some(*t) == self@[index as int],
    {
        self.tables[index].as_ref().unwrap()
    }
}

/// A file descriptor: an index in a process's descriptor table.
#[derive(Debug, Clone, Copy)]
pub struct FileDescriptor(usize);

impl FileDescriptor {
    /// The descriptor's number.
    pub closed spec fn view(&self) -> usize {
        self.0
    }

    /// The descriptor with number `a`.
    pub fn new(a: usize) -> (fd: Self)
        ensures
            fd@ == a,
    {
        Self(a)
    }

    /// The descriptor's number.
    pub fn into_usize(self) -> (a: usize)
        ensures
            a == self@,
    {
        self.0
    }

    /// The descriptor's number, widened.
    pub fn into_u64(self) -> (a: u64)
        ensures
            a == self@,
    {
        self.0 as u64
    }
}

/// A process's table of file descriptors: each entry holds the index of the
/// open file in the kernel-wide table.
#[derive(Debug, Copy, Clone)]
pub struct ProcessDescriptorTable {
    pub files: [Option<usize>; 16],
    pub index: usize,
}

impl ProcessDescriptorTable {
    /// A table with no open file.
    pub fn init() -> (t: Self)
        ensures
            forall|i: int| 0 <= i < MAX_TOTAL_OPEN_FILES_BY_PROCESS ==> #[trigger] t.files@[i] is None,
            t.index == 0,
    {
        Self { files: [None; 16], index: 0 }
    }

    /// The open file that descriptor `fd` refers to, in the kernel-wide
    /// table `global`; an error when the descriptor is not in use.
    pub fn get_file_table<'a>(&self, global: &'a GeneralFileTable, fd: FileDescriptor) -> (r: Result<&'a OpenFileTable, FileDesciptorError>)
        requires
            global.wf(),
            fd@ < MAX_TOTAL_OPEN_FILES_BY_PROCESS,
            self.files@[fd@ as int] matches Some(id) ==> id < MAX_TOTAL_OPEN_FILES && global@[id as int] is Some,
        ensures
            self.files@[fd@ as int] is None ==> r is Err,
            self.files@[fd@ as int] matches Some(id) ==> (r matches Ok(t) && Some(*t) == global@[id as int]),
    {
        match self.files[fd.into_usize()] {
            Some(id) => Ok(global.get_file_table_ref(id)),
            None => Err(FileDesciptorError()),
        }
    }

    /// Records `open_file_table` in `global` and gives it the lowest free
    /// descriptor above 0.
    pub fn add_file_table(&mut self, global: &mut GeneralFileTable, open_file_table: OpenFileTable) -> (fd: FileDescriptor)
        requires
            old(global).wf(),
            exists|j: int| 0 <= j < MAX_TOTAL_OPEN_FILES && #[trigger] old(global)@[j] is None,
            exists|i: int| 1 <= i < MAX_TOTAL_OPEN_FILES_BY_PROCESS && #[trigger] old(self).files@[i] is None,
        ensures
            final(global).wf(),
            1 <= fd@ < MAX_TOTAL_OPEN_FILES_BY_PROCESS,
            old(self).files@[fd@ as int] is None,
            forall|i: int| 1 <= i < fd@ ==> #[trigger] old(self).files@[i] is Some,
            final(self).files@ == old(self).files@.update(fd@ as int, Some(final(global).spec_index())),
            final(self).index == old(self).index,
            final(global)@ == old(global)@.update(final(global).spec_index() as int, Some(open_file_table)),
            old(global)@[final(global).spec_index() as int] is None,
    {
        let mut i: usize = 1;
        while i < MAX_TOTAL_OPEN_FILES_BY_PROCESS
            invariant_except_break
                1 <= i <= MAX_TOTAL_OPEN_FILES_BY_PROCESS,
                forall|k: int| 1 <= k < i ==> #[trigger] self.files@[k] is Some,
            ensures
                1 <= i <= MAX_TOTAL_OPEN_FILES_BY_PROCESS,
                forall|k: int| 1 <= k < i ==> #[trigger] self.files@[k] is Some,
                i < MAX_TOTAL_OPEN_FILES_BY_PROCESS ==> self.files@[i as int] is None,
            decreases MAX_TOTAL_OPEN_FILES_BY_PROCESS - i,
        {
            if self.files[i].is_none() {
                break;
            }
            i += 1;
        }
        proof {
            if i == MAX_TOTAL_OPEN_FILES_BY_PROCESS {
                let k = choose|k: int| 1 <= k < MAX_TOTAL_OPEN_FILES_BY_PROCESS && #[trigger] old(self).files@[k] is None;
                assert(self.files@[k] is Some);
            }
        }
        let index = global.insert(open_file_table);
        self.files[i] = Some(index);
        FileDescriptor::new(i)
    }

    /// Opens the file at `path` with `flags`: records it in `global` and
    /// returns its descriptor.
    pub fn create_file_table(&mut self, global: &mut GeneralFileTable, path: Path, flags: u64) -> (fd: FileDescriptor)
        requires
            old(global).wf(),
            exists|j: int| 0 <= j < MAX_TOTAL_OPEN_FILES && #[trigger] old(global)@[j] is None,
            exists|i: int| 1 <= i < MAX_TOTAL_OPEN_FILES_BY_PROCESS && #[trigger] old(self).files@[i] is None,
        ensures
            final(global).wf(),
            1 <= fd@ < MAX_TOTAL_OPEN_FILES_BY_PROCESS,
            old(self).files@[fd@ as int] is None,
            forall|i: int| 1 <= i < fd@ ==> #[trigger] old(self).files@[i] is Some,
            final(self).files@ == old(self).files@.update(fd@ as int, Some(final(global).spec_index())),
            old(global)@[final(global).spec_index() as int] is None,
            final(global)@.len() == old(global)@.len(),
            forall|j: int| 0 <= j < MAX_TOTAL_OPEN_FILES && j != final(global).spec_index()
                ==> #[trigger] final(global)@[j] == old(global)@[j],
            final(global)@[final(global).spec_index() as int] matches Some(t)
                && t.spec_path() == path@ && t.spec_flags() == flags && t.spec_offset() == 0,
    {
        let open_file_table = OpenFileTable::new(path, flags);
        self.add_file_table(global, open_file_table)
    }

    /// Makes descriptor `operand` refer to the file that `target` refers to.
    pub fn dup(&mut self, target: FileDescriptor, operand: FileDescriptor) -> (r: Result<(), FileDesciptorError>)
        requires
            target@ < MAX_TOTAL_OPEN_FILES_BY_PROCESS,
            operand@ < MAX_TOTAL_OPEN_FILES_BY_PROCESS,
        ensures
            r is Ok,
            final(self).files@ == old(self).files@.update(operand@ as int, old(self).files@[target@ as int]),
            final(self).index == old(self).index,
    {
        self.files[operand.into_usize()] = self.files[target.into_usize()];
        Ok(())
    }

    /// Frees in `global` every open file this table refers to.
    pub fn close(&mut self, global: &mut GeneralFileTable)
        requires
            old(global).wf(),
            forall|i: int| 0 <= i < MAX_TOTAL_OPEN_FILES_BY_PROCESS ==>
                (#[trigger] old(self).files@[i] matches Some(id) ==> id < MAX_TOTAL_OPEN_FILES),
        ensures
            final(global).wf(),
            *final(self) == *old(self),
            final(global).spec_index() == old(global).spec_index(),
            forall|j: int| 0 <= j < MAX_TOTAL_OPEN_FILES ==> #[trigger] final(global)@[j] == if exists|i: int|
                0 <= i < MAX_TOTAL_OPEN_FILES_BY_PROCESS && #[trigger] old(self).files@[i] == Some(j as usize) {
                None
            } else {
                old(global)@[j]
            },
    {
        let mut i: usize = 0;
        while i < MAX_TOTAL_OPEN_FILES_BY_PROCESS
            invariant
                i <= MAX_TOTAL_OPEN_FILES_BY_PROCESS,
                *self == *old(self),
                global.wf(),
                global.spec_index() == old(global).spec_index(),
                forall|i: int| 0 <= i < MAX_TOTAL_OPEN_FILES_BY_PROCESS ==>
                    (#[trigger] self.files@[i] matches Some(id) ==> id < MAX_TOTAL_OPEN_FILES),
                forall|j: int| 0 <= j < MAX_TOTAL_OPEN_FILES ==> #[trigger] global@[j] == if exists|k: int|
                    0 <= k < i && #[trigger] self.files@[k] == Some(j as usize) {
                    None
                } else {
                    old(global)@[j]
                },
            decreases MAX_TOTAL_OPEN_FILES_BY_PROCESS - i,
        {
            match self.files[i] {
                Some(fd) => {
                    global.delete(fd);
                    assert forall|j: int| 0 <= j < MAX_TOTAL_OPEN_FILES implies #[trigger] global@[j] == if exists|k: int|
                        0 <= k < i + 1 && #[trigger] self.files@[k] == Some(j as usize) {
                        None
                    } else {
                        old(global)@[j]
                    } by {
                        if j == fd {
                            assert(self.files@[i as int] == Some(j as usize));
                        } else {
                            if exists|k: int| 0 <= k < i + 1 && #[trigger] self.files@[k] == Some(j as usize) {
                                let k = choose|k: int| 0 <= k < i + 1 && #[trigger] self.files@[k] == Some(j as usize);
                                assert(k != i);
                            }
                        }
                    }
                },
                None => {
                    assert forall|j: int| 0 <= j < MAX_TOTAL_OPEN_FILES implies #[trigger] global@[j] == if exists|k: int|
                        0 <= k < i + 1 && #[trigger] self.files@[k] == Some(j as usize) {
                        None
                    } else {
                        old(global)@[j]
                    } by {
                        if exists|k: int| 0 <= k < i + 1 && #[trigger] self.files@[k] == Some(j as usize) {
                            let k = choose|k: int| 0 <= k < i + 1 && #[trigger] self.files@[k] == Some(j as usize);
                            assert(k != i);
                        }
                    }
                },
            }
            i += 1;
        }
    }
}

} // verus!

//! The `proc` directory: the list of live processes, and for each process
//! a directory of information files.
use vstd::prelude::*;
use vstd::utf8::encode_utf8;
use crate::data_storage::path::{split_path, strings_view, Path};
use crate::filesystem::fsflags::OpenFlags;
use crate::filesystem::vfs::{key_lt, sorted_keys};

verus! {

/// Decimal digits of `n`, as ASCII bytes.
pub open spec fn decimal(n: nat) -> Seq<u8>
    decreases n,
{
    if n < 10 {
        seq![(48 + n) as u8]
    } else {
        decimal(n / 10).push((48 + n % 10) as u8)
    }
}

/// Appends the decimal digits of `n` to `v`.
fn push_decimal(v: &mut Vec<u8>, n: usize)
    ensures
        final(v)@ == old(v)@ + decimal(n as nat),
    decreases n,
{
    if n < 10 {
        v.push(48 + n as u8);
        assert(decimal(n as nat) =~= seq![(48 + n) as u8]);
    } else {
        push_decimal(v, n / 10);
        v.push(48 + (n % 10) as u8);
    }
}

/// Value of a string of decimal digits.
pub open spec fn digits_value(s: Seq<char>) -> int
    decreases s.len(),
{
    if s.len() == 0 {
        0
    } else {
        digits_value(s.drop_last()) * 10 + (s.last() as int - 48)
    }
}

/// Whether every character of `s` is a decimal digit.
pub open spec fn all_digits(s: Seq<char>) -> bool {
    forall|i: int| 0 <= i < s.len() ==> '0' <= #[trigger] s[i] <= '9'
}

/// What `str::parse::<usize>` gives: after an optional `+`, one or more
/// decimal digits whose value fits in `usize`.
pub open spec fn parse_usize(s: Seq<char>) -> Option<usize> {
    let d = if s.len() > 0 && s[0] == '+' { s.drop_first() } else { s };
    if d.len() > 0 && all_digits(d) && digits_value(d) <= usize::MAX {
        Some(digits_value(d) as usize)
    } else {
        None
    }
}

/// A number written in decimal, as `parse_usize` reads it.
pub fn parse_decimal(s: &String) -> (r: Option<usize>)
    ensures
        r == parse_usize(s@),
{
    let t = s.as_str();
    let n = t.unicode_len();
    let mut i: usize = 0;
    if n > 0 && t.get_char(0) == '+' {
        i = 1;
    }
    let ghost d = if s@.len() > 0 && s@[0] == '+' { s@.drop_first() } else { s@ };
    if i == n {
        return None;
    }
    let start = i;
    assert(d =~= s@.subrange(start as int, n as int));
    let mut value: usize = 0;
    while i < n
        invariant
            start <= i <= n,
            n == s@.len(),
            t@ == s@,
            d == s@.subrange(start as int, n as int),
            d == (if s@.len() > 0 && s@[0] == '+' { s@.drop_first() } else { s@ }),
            all_digits(s@.subrange(start as int, i as int)),
            value == digits_value(s@.subrange(start as int, i as int)),
        decreases n - i,
    {
        let c = t.get_char(i);
        if c < '0' || c > '9' {
            proof {
                assert(d[i - start] == c);
                assert(!all_digits(d));
            }
            return None;
        }
        let digit = (c as u32 - 48) as usize;
        let ghost sub = s@.subrange(start as int, i + 1);
        assert(sub.drop_last() =~= s@.subrange(start as int, i as int));
        assert(all_digits(sub));
        if value > (usize::MAX - digit) / 10 {
            proof {
                assert(digits_value(sub) == value * 10 + digit);
                assert(value * 10 + digit > usize::MAX) by (nonlinear_arith)
                    requires
                        value > (usize::MAX - digit) / 10,
                        digit <= 9,
                ;
                if all_digits(d) {
                    assert(d.subrange(0, i + 1 - start) =~= sub);
                    lemma_digits_value_grows(d, (i + 1 - start) as int);
                }
            }
            return None;
        }
        assert(value * 10 + digit <= usize::MAX) by (nonlinear_arith)
            requires
                value <= (usize::MAX - digit) / 10,
                digit <= 9,
        ;
        value = value * 10 + digit;
        i += 1;
    }
    assert(s@.subrange(start as int, n as int) =~= d);
    Some(value)
}

/// The value of digits only grows with more digits.
proof fn lemma_digits_value_grows(d: Seq<char>, k: int)
    requires
        0 <= k <= d.len(),
        all_digits(d),
    ensures
        digits_value(d) >= digits_value(d.subrange(0, k)),
    decreases d.len(),
{
    if k < d.len() {
        assert(d.drop_last().subrange(0, k) =~= d.subrange(0, k));
        lemma_digits_value_grows(d.drop_last(), k);
        assert(all_digits(d.drop_last()));
        assert('0' <= d.last() <= '9');
        lemma_digits_value_nonneg(d.drop_last());
        assert(digits_value(d) >= digits_value(d.drop_last())) by (nonlinear_arith)
            requires
                digits_value(d) == digits_value(d.drop_last()) * 10 + (d.last() as int - 48),
                digits_value(d.drop_last()) >= 0,
                d.last() as int >= 48,
        ;
    } else {
        assert(d.subrange(0, k) =~= d);
    }
}

/// Digits have a value of at least 0.
proof fn lemma_digits_value_nonneg(d: Seq<char>)
    requires
        all_digits(d),
    ensures
        digits_value(d) >= 0,
    decreases d.len(),
{
    if d.len() > 0 {
        assert(all_digits(d.drop_last()));
        assert('0' <= d.last());
        lemma_digits_value_nonneg(d.drop_last());
    }
}

/// The part of `v` a read at `offset` of at most `size` bytes gets: bytes
/// `offset` to `offset + size`, or to the end.
pub fn clip_window(v: Vec<u8>, offset: usize, size: usize) -> (r: Vec<u8>)
    requires
        offset + size <= usize::MAX,
        offset <= v@.len(),
    ensures
        r@ == v@.subrange(offset as int, if offset + size < v@.len() { offset + size } else { v@.len() as int }),
{
    let end = if offset + size < v.len() { offset + size } else { v.len() };
    vstd::slice::slice_to_vec(vstd::slice::slice_subrange(v.as_slice(), offset, end))
}

/// Error of a request on `proc`.
pub struct ErrProc();

/// A file of each process's directory; the information it shows is
/// computed for the process by the kernel.
pub struct ProcInfoDriver {
    keyword: String,
}

impl ProcInfoDriver {
    /// Name of the file.
    pub closed spec fn spec_keyword(&self) -> Seq<char> {
        self.keyword@
    }

    /// Name of the file.
    pub fn keyword(&self) -> (k: &String)
        ensures
            k@ == self.spec_keyword(),
    {
        &self.keyword
    }
}

/// What reading in `proc` comes to: bytes to hand back, or the
/// information file `keyword` of process `proc`, which the kernel computes
/// and `clip_window` cuts.
pub enum ProcRead {
    Data(Vec<u8>),
    Info(usize, String),
}

/// Listing of the names `keys`, each followed by a space.
pub open spec fn names_listing(keys: Seq<Seq<char>>) -> Seq<u8>
    decreases keys.len(),
{
    if keys.len() == 0 {
        Seq::empty()
    } else {
        names_listing(keys.drop_last()) + encode_utf8(keys.last()) + seq![32u8]
    }
}

/// Listing of the process numbers `ids`, each in decimal followed by a
/// space.
pub open spec fn ids_listing(ids: Seq<usize>) -> Seq<u8>
    decreases ids.len(),
{
    if ids.len() == 0 {
        Seq::empty()
    } else {
        ids_listing(ids.drop_last()) + decimal(ids.last() as nat) + seq![32u8]
    }
}

/// The driver of `proc`: the information files of a process's directory,
/// by name.
pub struct ProcDriver {
    infos: Vec<(String, ProcInfoDriver)>,
}

impl ProcDriver {
    /// Names of the information files, in increasing order.
    pub closed spec fn spec_keys(&self) -> Seq<Seq<char>> {
        self.infos@.map_values(|e: (String, ProcInfoDriver)| e.0@)
    }

    /// The information file listed at place `i`.
    pub closed spec fn spec_info_at(&self, i: int) -> ProcInfoDriver {
        self.infos@[i].1
    }

    /// The names are in increasing order.
    pub closed spec fn wf(&self) -> bool {
        sorted_keys(self.spec_keys())
    }

    /// A driver with no information file.
    pub fn new() -> (d: Self)
        ensures
            d.wf(),
            d.spec_keys() == Seq::<Seq<char>>::empty(),
    {
        let d = ProcDriver { infos: Vec::new() };
        assert(d.spec_keys() =~= Seq::<Seq<char>>::empty());
        d
    }

    /// The information file named `id`; `ErrProc` when there is none.
    pub fn get_info(&self, id: &String) -> (r: Result<&ProcInfoDriver, ErrProc>)
        ensures
            r is Ok <==> self.spec_keys().contains(id@),
            r matches Ok(info) ==> exists|i: int| 0 <= i < self.spec_keys().len() && self.spec_keys()[i] == id@
                && self.spec_info_at(i) == *info,
    {
        let mut i: usize = 0;
        while i < self.infos.len()
            invariant
                i <= self.infos@.len(),
                forall|j: int| 0 <= j < i ==> (#[trigger] self.infos@[j]).0@ != id@,
            decreases self.infos@.len() - i,
        {
            if self.infos[i].0 == *id {
                assert(self.spec_keys()[i as int] == id@);
                assert(self.spec_info_at(i as int) == self.infos@[i as int].1);
                return Ok(&self.infos[i].1);
            }
            i += 1;
        }
        proof {
            if self.spec_keys().contains(id@) {
                let j = choose|j: int| 0 <= j < self.spec_keys().len() && self.spec_keys()[j] == id@;
                assert(self.infos@[j].0@ == id@);
            }
        }
        Err(ErrProc())
    }

    /// Opening in `proc` gives file 0 for a path of no segment; a path
    /// always has one, so nothing opens.
    pub fn open(&mut self, path: &Path, flags: OpenFlags) -> (r: Option<usize>)
        ensures
            r == if split_path(path@).len() != 0 {
                None
            } else {
                Some(0usize)
            },
    {
        if path.len() != 0 {
            None
        } else {
            Some(0)
        }
    }

    /// Reads at `offset`, at most `size` bytes, of the file at `path`
    /// below `proc`; `alive` lists the live processes in increasing order.
    /// Two segments name a process and one of its information files: for an
    /// unknown file nothing, otherwise that file of that process. One
    /// segment names a process's directory: the names of the information
    /// files. No segment names `proc` itself: the live processes.
    pub fn read(&self, path: &Path, offset: usize, size: usize, alive: &[usize]) -> (r: ProcRead)
        requires
            self.wf(),
            split_path(path@).len() <= 2,
            split_path(path@).len() == 2 ==> parse_usize(split_path(path@)[0]) is Some,
            offset + size <= usize::MAX,
            split_path(path@).len() == 1 ==> offset <= names_listing(self.spec_keys()).len(),
            split_path(path@).len() == 0 ==> offset <= ids_listing(alive@).len(),
        ensures
            ({
                let segs = split_path(path@);
                let cut = |v: Seq<u8>| v.subrange(offset as int, if offset + size < v.len() { offset + size } else { v.len() as int });
                &&& segs.len() == 2 && !self.spec_keys().contains(segs[1]) ==> (r matches ProcRead::Data(v) && v@.len() == 0)
                &&& segs.len() == 2 && self.spec_keys().contains(segs[1]) ==> (r matches ProcRead::Info(p, k)
                    && Some(p) == parse_usize(segs[0]) && k@ == segs[1])
                &&& segs.len() == 1 ==> (r matches ProcRead::Data(v) && v@ == cut(names_listing(self.spec_keys())))
                &&& segs.len() == 0 ==> (r matches ProcRead::Data(v) && v@ == cut(ids_listing(alive@)))
            }),
    {
        let sliced = path.slice();
        let ghost segs = split_path(path@);
        assert(strings_view(sliced@) == segs);
        if sliced.len() == 2 {
            assert(sliced@[0]@ == segs[0] && sliced@[1]@ == segs[1]);
            match parse_decimal(&sliced[0]) {
                Some(proc) => match self.get_info(&sliced[1]) {
                    Ok(_pi) => ProcRead::Info(proc, sliced[1].clone()),
                    Err(_) => ProcRead::Data(Vec::new()),
                },
                None => ProcRead::Data(Vec::new()),
            }
        } else if sliced.len() == 1 {
            let mut res_array: Vec<u8> = Vec::new();
            let mut i: usize = 0;
            while i < self.infos.len()
                invariant
                    i <= self.infos@.len(),
                    res_array@ == names_listing(self.spec_keys().take(i as int)),
                decreases self.infos@.len() - i,
            {
                let bytes = self.infos[i].0.as_str().as_bytes();
                let ghost before = res_array@;
                let mut j: usize = 0;
                while j < bytes.len()
                    invariant
                        j <= bytes@.len(),
                        res_array@ == before + bytes@.take(j as int),
                    decreases bytes@.len() - j,
                {
                    res_array.push(bytes[j]);
                    assert(res_array@ =~= before + bytes@.take(j + 1));
                    j += 1;
                }
                res_array.push(32u8);
                proof {
                    let keys = self.spec_keys().take(i + 1);
                    assert(keys.drop_last() =~= self.spec_keys().take(i as int));
                    assert(keys.last() == self.infos@[i as int].0@);
                    assert(bytes@.take(j as int) =~= bytes@);
                    assert(res_array@ =~= names_listing(keys));
                }
                i += 1;
            }
            assert(self.spec_keys().take(i as int) =~= self.spec_keys());
            ProcRead::Data(clip_window(res_array, offset, size))
        } else {
            let mut res_array: Vec<u8> = Vec::new();
            let mut i: usize = 0;
            while i < alive.len()
                invariant
                    i <= alive@.len(),
                    res_array@ == ids_listing(alive@.take(i as int)),
                decreases alive@.len() - i,
            {
                push_decimal(&mut res_array, alive[i]);
                res_array.push(32u8);
                proof {
                    let ids = alive@.take(i + 1);
                    assert(ids.drop_last() =~= alive@.take(i as int));
                }
                i += 1;
            }
            assert(alive@.take(i as int) =~= alive@);
            ProcRead::Data(clip_window(res_array, offset, size))
        }
    }

    /// Nothing can be written in `proc`.
    pub fn write(&mut self, path: &Path, buffer: &[u8]) -> (r: isize)
        ensures
            r == -1,
    {
        -1
    }

    /// Closing in `proc` does nothing.
    pub fn close(&mut self, path: &Path) -> (r: bool)
        ensures
            !r,
    {
        false
    }

    /// `proc` takes no parameter.
    pub fn give_param(&mut self, path: &Path, param: usize) -> (r: usize)
        ensures
            r == usize::MAX,
    {
        usize::MAX
    }
}

} // verus!

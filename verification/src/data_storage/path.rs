//! Paths of the kernel: a `String` whose segments are separated by `/`.
use vstd::prelude::*;
use vstd::string::StrSliceExecFns;
use vstd::string::StringExecFns;

verus! {

/// `String::push` appends one character to the string.
pub assume_specification[ String::push ](s: &mut String, ch: char)
    ensures
        final(s)@ == old(s)@.push(ch),
;

/// The character sequences held by a sequence of strings.
pub open spec fn strings_view(v: Seq<String>) -> Seq<Seq<char>> {
    v.map_values(|x: String| x@)
}

/// The segments of `s`, cut at every `/`; there is always at least one,
/// possibly empty, segment.
pub open spec fn split_path(s: Seq<char>) -> Seq<Seq<char>>
    decreases s.len(),
{
    if s.len() == 0 {
        seq![Seq::<char>::empty()]
    } else {
        let prev = split_path(s.drop_last());
        if s.last() == '/' {
            prev.push(Seq::<char>::empty())
        } else {
            prev.update(prev.len() - 1, prev.last().push(s.last()))
        }
    }
}

/// The segments put back together with `/` between consecutive ones.
pub open spec fn join_path(segs: Seq<Seq<char>>) -> Seq<char>
    decreases segs.len(),
{
    if segs.len() == 0 {
        Seq::<char>::empty()
    } else if segs.len() == 1 {
        segs[0]
    } else {
        join_path(segs.drop_last()) + seq!['/'] + segs.last()
    }
}

/// A segment holds no separator.
pub open spec fn is_segment(s: Seq<char>) -> bool {
    forall|i: int| 0 <= i < s.len() ==> s[i] != '/'
}

/// Every path has at least one segment.
pub proof fn lemma_split_nonempty(s: Seq<char>)
    ensures
        split_path(s).len() >= 1,
    decreases s.len(),
{
    if s.len() > 0 {
        lemma_split_nonempty(s.drop_last());
    }
}

/// Joining the segments of a path gives the path back.
pub proof fn lemma_join_split(s: Seq<char>)
    ensures
        join_path(split_path(s)) == s,
    decreases s.len(),
{
    if s.len() > 0 {
        let t = s.drop_last();
        lemma_join_split(t);
        lemma_split_nonempty(t);
        let p = split_path(t);
        let q = split_path(s);
        if s.last() == '/' {
            assert(q.drop_last() =~= p);
            assert(s =~= t + seq!['/'] + Seq::<char>::empty());
        } else if p.len() == 1 {
            assert(q[0] =~= p[0].push(s.last()));
            assert(s =~= t.push(s.last()));
        } else {
            assert(q.drop_last() =~= p.drop_last());
            assert(q.last() =~= p.last().push(s.last()));
            assert(join_path(p) == join_path(p.drop_last()) + seq!['/'] + p.last());
            assert(t == join_path(p));
            assert(s =~= t.push(s.last()));
            assert(s =~= join_path(p.drop_last()) + seq!['/'] + p.last().push(s.last()));
            assert(join_path(q) == join_path(q.drop_last()) + seq!['/'] + q.last());
        }
    }
}

proof fn lemma_split_append_segment(t: Seq<char>, b: Seq<char>)
    requires
        is_segment(b),
    ensures
        split_path(t + b) == split_path(t).update(
            split_path(t).len() - 1,
            split_path(t).last() + b,
        ),
    decreases b.len(),
{
    lemma_split_nonempty(t);
    if b.len() == 0 {
        assert(t + b =~= t);
        assert(split_path(t).last() + b =~= split_path(t).last());
        assert(split_path(t).update(split_path(t).len() - 1, split_path(t).last()) =~= split_path(t));
    } else {
        let b0 = b.drop_last();
        assert(is_segment(b0));
        lemma_split_append_segment(t, b0);
        assert((t + b).drop_last() =~= t + b0);
        assert((t + b).last() == b.last());
        assert(b.last() != '/');
        lemma_split_nonempty(t + b0);
        let p = split_path(t + b0);
        assert(p.len() == split_path(t).len());
        assert(p.last() == split_path(t).last() + b0);
        assert(split_path(t + b) == p.update(p.len() - 1, p.last().push(b.last())));
        assert(split_path(t).last() + b0 + seq![b.last()] =~= split_path(t).last() + b);
        assert(p.last().push(b.last()) =~= split_path(t).last() + b);
        assert(split_path(t + b) =~= split_path(t).update(split_path(t).len() - 1, split_path(t).last() + b));
    }
}

/// Appending `/` and a segment to a path adds that segment to its segments.
pub proof fn lemma_split_push_segment(t: Seq<char>, b: Seq<char>)
    requires
        is_segment(b),
    ensures
        split_path(t + seq!['/'] + b) == split_path(t).push(b),
{
    let u = t + seq!['/'];
    assert(u.drop_last() =~= t);
    lemma_split_append_segment(u, b);
    assert(split_path(u) == split_path(t).push(Seq::<char>::empty()));
    assert(Seq::<char>::empty() + b =~= b);
    assert(split_path(t).push(Seq::<char>::empty()).update(split_path(t).len() as int, b) =~= split_path(t).push(b));
}

/// Cutting a path built from segments gives those segments back.
pub proof fn lemma_split_join(segs: Seq<Seq<char>>)
    requires
        segs.len() >= 1,
        forall|i: int| 0 <= i < segs.len() ==> is_segment(#[trigger] segs[i]),
    ensures
        split_path(join_path(segs)) == segs,
    decreases segs.len(),
{
    if segs.len() == 1 {
        lemma_split_append_segment(Seq::<char>::empty(), segs[0]);
        assert(Seq::<char>::empty() + segs[0] =~= segs[0]);
        assert(Seq::<char>::empty() + segs[0] =~= segs[0]);
        assert(seq![Seq::<char>::empty()].update(0, segs[0]) =~= segs);
    } else {
        let d = segs.drop_last();
        assert forall|i: int| 0 <= i < d.len() implies is_segment(#[trigger] d[i]) by {
            assert(d[i] == segs[i]);
        }
        lemma_split_join(d);
        lemma_split_push_segment(join_path(d), segs.last());
        assert(d.push(segs.last()) =~= segs);
    }
}

/// Appending a segment with `push_str` makes it the path's name, and the
/// path it was appended to becomes the parent.
pub proof fn lemma_push_name_parent(t: Seq<char>, b: Seq<char>)
    requires
        is_segment(b),
    ensures
        split_path(t + seq!['/'] + b).last() == b,
        join_path(split_path(t + seq!['/'] + b).drop_last()) == t,
{
    lemma_split_push_segment(t, b);
    assert(split_path(t).push(b).drop_last() =~= split_path(t));
    lemma_join_split(t);
}

/// A path of the kernel: a string whose segments are separated by `/`.
#[derive(Debug, PartialEq, Eq, PartialOrd, Ord)]
pub struct Path(String);

impl Path {
    /// The characters of the path.
    pub closed spec fn view(&self) -> Seq<char> {
        self.0@
    }

    /// Returns a new empty `Path`.
    pub fn new() -> (p: Self)
        ensures
            p@ == Seq::<char>::empty(),
    {
        Self(String::new())
    }

    /// Builds an owned `Path` from a string slice.
    pub fn from(s: &str) -> (p: Self)
        ensures
            p@ == s@,
    {
        Self(s.to_owned())
    }

    /// Returns a new owned `String` holding the path.
    pub fn to(&self) -> (s: String)
        ensures
            s@ == self@,
    {
        self.0.clone()
    }

    /// Returns the owned `String` of the path.
    pub fn owned_to(self) -> (s: String)
        ensures
            s@ == self@,
    {
        self.0
    }

    /// Creates an identical path.
    pub fn duplicate(&self) -> (p: Self)
        ensures
            p@ == self@,
    {
        Path::from(self.0.as_str())
    }

    /// Whether the path is the empty string.
    pub fn is_empty(&self) -> (b: bool)
        ensures
            b == (self@.len() == 0),
    {
        self.0.as_str().unicode_len() == 0
    }

    /// Number of segments of the path.
    pub fn len(&self) -> (n: usize)
        ensures
            n == split_path(self@).len(),
    {
        self.slice().len()
    }

    /// The segments of the path, cut at every `/`.
    pub fn slice(&self) -> (v: Vec<String>)
        ensures
            strings_view(v@) == split_path(self@),
    {
        let s = self.0.as_str();
        let n = s.unicode_len();
        let mut res: Vec<String> = Vec::new();
        let mut cur = String::new();
        let mut i: usize = 0;
        assert(self@.subrange(0, 0) =~= Seq::<char>::empty());
        assert(strings_view(res@).push(cur@) =~= seq![Seq::<char>::empty()]);
        while i < n
            invariant
                0 <= i <= n,
                n == self@.len(),
                s@ == self@,
                strings_view(res@).push(cur@) == split_path(self@.subrange(0, i as int)),
            decreases n - i,
        {
            let c = s.get_char(i);
            let ghost before = strings_view(res@).push(cur@);
            let ghost sub = self@.subrange(0, i + 1);
            assert(sub.drop_last() =~= self@.subrange(0, i as int));
            assert(sub.last() == c);
            if c == '/' {
                res.push(cur);
                cur = String::new();
                assert(strings_view(res@).push(cur@) =~= before.push(Seq::<char>::empty()));
            } else {
                let ghost old_cur = cur@;
                cur.push(c);
                assert(strings_view(res@).push(cur@) =~= before.update(before.len() - 1, old_cur.push(c)));
            }
            i += 1;
        }
        assert(self@.subrange(0, n as int) =~= self@);
        let ghost before = strings_view(res@).push(cur@);
        res.push(cur);
        assert(strings_view(res@) =~= before);
        res
    }

    /// Appends `/` and the segment `s` to the path.
    pub fn push_str(&mut self, s: &str)
        ensures
            final(self)@ == old(self)@ + seq!['/'] + s@,
    {
        self.0.push('/');
        self.0.append(s)
    }

    /// The path without its last segment.
    pub fn get_parent(&self) -> (p: Self)
        ensures
            p@ == join_path(split_path(self@).drop_last()),
    {
        let mut sliced = self.slice();
        proof {
            lemma_split_nonempty(self@);
        }
        if sliced.len() == 0 {
            Self::from(self.0.as_str())
        } else {
            let ghost all = strings_view(sliced@);
            sliced.pop();
            assert(strings_view(sliced@) =~= all.drop_last());
            Self::from_sliced(sliced.as_slice())
        }
    }

    /// The last segment of the path.
    pub fn get_name(&self) -> (s: String)
        ensures
            s@ == split_path(self@).last(),
    {
        let sliced = self.slice();
        proof {
            lemma_split_nonempty(self@);
        }
        let n = sliced.len();
        sliced[n - 1].clone()
    }

    /// Builds a `Path` from its segments, separated by `/`.
    pub fn from_sliced(sliced: &[String]) -> (p: Self)
        ensures
            p@ == join_path(strings_view(sliced@)),
    {
        let mut path = String::new();
        let mut first = true;
        let mut i: usize = 0;
        while i < sliced.len()
            invariant
                0 <= i <= sliced@.len(),
                first == (i == 0),
                path@ == join_path(strings_view(sliced@.subrange(0, i as int))),
            decreases sliced@.len() - i,
        {
            let ghost prev = strings_view(sliced@.subrange(0, i as int));
            let ghost next = strings_view(sliced@.subrange(0, i + 1));
            assert(next.drop_last() =~= prev);
            if first {
                first = false;
            } else {
                path.push('/');
            }
            path.append(sliced[i].as_str());
            assert(path@ =~= join_path(next));
            i += 1;
        }
        assert(sliced@.subrange(0, sliced@.len() as int) =~= sliced@);
        Self::from(path.as_str())
    }
}

impl Clone for Path {
    /// An identical path.
    fn clone(&self) -> (p: Self)
        ensures
            p@ == self@,
    {
        Self(self.0.clone())
    }
}

impl Default for Path {
    /// The empty path.
    fn default() -> (p: Self)
        ensures
            p@ == Seq::<char>::empty(),
    {
        Self::new()
    }
}

} // verus!

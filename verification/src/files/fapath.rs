//! Paths in both encodings, and the file name of the entry that a directory walk
//! has come to.
use vstd::prelude::*;
use crate::files::codes::FA_STRING_TOO_LONG;
use crate::files::convert::{converted, lemma_converted_fits, room_in, Converters};

verus! {

/// What separates the parts of a path: `/`.
pub const PATH_SEPARATOR: u8 = 0x2F;

/// Wraps the constant `libc::PATH_MAX`: the longest path of the platform, with its
/// terminator, such as 4096 on Linux and 1024 on macOS. Of every platform for which
/// the crate has the constant it is at least 256 and at most 4096. Which of these
/// values it has rests on the platform and is left unsaid.
#[verifier::external_body]
pub(crate) fn path_max() -> (r: usize)
    ensures
        256 <= r <= 4096,
{
    libc::PATH_MAX as usize
}

/// Longest path that the platform takes, with its terminator. What is done with
/// it is stated for every limit.
pub fn primitivePathMax() -> (r: usize)
    ensures
        256 <= r <= 4096,
{
    path_max()
}

/// What a path record holds.
#[verifier::ext_equal]
pub struct PathParts {
    /// The path as the image has it: a directory, and a file name after it.
    pub st: Seq<u8>,
    /// Length of the directory.
    pub st_dir: int,
    /// The path as the platform has it, laid out the same way.
    pub ux: Seq<u8>,
    pub ux_dir: int,
    /// Longest path, with its terminator.
    pub limit: int,
    /// The directory ends with a separator, and file names can be put after it.
    pub iterating: bool,
}

/// A path in both encodings.
#[derive(Debug, Clone)]
pub struct FaPath {
    st: Vec<u8>,
    st_dir_len: usize,
    ux: Vec<u8>,
    ux_dir_len: usize,
    limit: usize,
    iterating: bool,
}

/// The bytes before the first that is 0.
pub open spec fn until_nul(s: Seq<u8>) -> Seq<u8>
    decreases s.len(),
{
    if s.len() == 0 || s[0] == 0 {
        Seq::empty()
    } else {
        seq![s[0]] + until_nul(s.subrange(1, s.len() as int))
    }
}

/// What [`until_nul`] is: a part of the bytes without a 0, which is all of them
/// or is followed by a 0.
pub(crate) proof fn lemma_until_nul(s: Seq<u8>, n: int)
    requires
        0 <= n <= s.len(),
        forall|k: int| 0 <= k < n ==> s[k] != 0,
        n < s.len() ==> s[n] == 0,
    ensures
        until_nul(s) == s.subrange(0, n),
    decreases n,
{
    if n == 0 {
        assert(s.subrange(0, 0) =~= Seq::<u8>::empty());
    } else {
        let rest = s.subrange(1, s.len() as int);
        lemma_until_nul(rest, n - 1);
        assert(seq![s[0]] + rest.subrange(0, n - 1) =~= s.subrange(0, n));
    }
}

fn nulPosition(v: &[u8]) -> (r: usize)
    ensures
        r <= v@.len(),
        until_nul(v@) == v@.subrange(0, r as int),
{
    let size: usize = v.len();
    let mut i: usize = 0;
    while i < size && v[i] != 0
        invariant
            size == v@.len(),
            i <= size,
            forall|k: int| 0 <= k < i ==> v@[k] != 0,
        decreases size - i,
    {
        i = i + 1;
    }
    proof {
        lemma_until_nul(v@, i as int);
    }
    i
}

fn truncateAtNul(v: &mut Vec<u8>)
    ensures
        final(v)@ == until_nul(old(v)@),
{
    let n: usize = nulPosition(v.as_slice());
    v.truncate(n);
}

fn copyOf(v: &[u8]) -> (r: Vec<u8>)
    ensures
        r@ == v@,
{
    let size: usize = v.len();
    let mut out: Vec<u8> = Vec::new();
    let mut i: usize = 0;
    while i < size
        invariant
            size == v@.len(),
            i <= size,
            out@ == v@.subrange(0, i as int),
        decreases size - i,
    {
        out.push(v[i]);
        i = i + 1;
        assert(out@ =~= v@.subrange(0, i as int));
    }
    assert(out@ =~= v@);
    out
}

fn appendAll(to: &mut Vec<u8>, v: &[u8])
    ensures
        final(to)@ == old(to)@ + v@,
{
    let size: usize = v.len();
    let ghost before = to@;
    let mut i: usize = 0;
    assert(before + v@.subrange(0, 0) =~= before);
    while i < size
        invariant
            size == v@.len(),
            i <= size,
            to@ == before + v@.subrange(0, i as int),
        decreases size - i,
    {
        to.push(v[i]);
        i = i + 1;
        assert(to@ =~= before + v@.subrange(0, i as int));
    }
    assert(v@.subrange(0, size as int) =~= v@);
}

/// A directory with a separator at its end.
pub open spec fn with_separator(path: Seq<u8>) -> Seq<u8> {
    if path.len() > 0 && path[path.len() - 1] == PATH_SEPARATOR {
        path
    } else {
        path.push(PATH_SEPARATOR)
    }
}

/// The directory with a separator at its end.
pub fn directoryName(path: &[u8]) -> (r: Vec<u8>)
    ensures
        r@ == with_separator(path@),
{
    let mut st: Vec<u8> = copyOf(path);
    let size: usize = path.len();
    if size == 0 || path[size - 1] != PATH_SEPARATOR {
        st.push(PATH_SEPARATOR);
    }
    st
}

impl PathParts {
    /// A record without a path.
    pub open spec fn empty(limit: int) -> PathParts {
        PathParts {
            st: Seq::empty(),
            st_dir: 0,
            ux: Seq::empty(),
            ux_dir: 0,
            limit,
            iterating: false,
        }
    }

    /// The record set to a directory of the image, `ux` being what it converts
    /// to. A conversion to nothing is a failure.
    pub open spec fn with_st_dir(self, path: Seq<u8>, ux: Seq<u8>) -> (PathParts, Result<(), i64>) {
        let st = with_separator(path);
        let named = PathParts { st, st_dir: st.len() as int, ..self };
        if path.len() + 1 >= self.limit {
            (self, Err(FA_STRING_TOO_LONG))
        } else if ux.len() == 0 {
            (named, Err(FA_STRING_TOO_LONG))
        } else {
            (
                PathParts {
                    ux: until_nul(ux),
                    ux_dir: until_nul(ux).len() as int,
                    iterating: true,
                    ..named
                },
                Ok(()),
            )
        }
    }

    /// The record set to a whole path of the image.
    pub open spec fn with_st_path(self, path: Seq<u8>, ux: Seq<u8>) -> (PathParts, Result<(), i64>) {
        let named = PathParts {
            st: path,
            st_dir: path.len() as int,
            iterating: false,
            ..self
        };
        if path.len() >= self.limit {
            (self, Err(FA_STRING_TOO_LONG))
        } else if ux.len() == 0 {
            (named, Err(FA_STRING_TOO_LONG))
        } else {
            (
                PathParts { ux: until_nul(ux), ux_dir: until_nul(ux).len() as int, ..named },
                Ok(()),
            )
        }
    }

    /// The record set to a whole path of the platform, `st` being what it
    /// converts to.
    pub open spec fn with_plat_path(self, path: Seq<u8>, st: Seq<u8>) -> (
        PathParts,
        Result<(), i64>,
    ) {
        let named = PathParts {
            ux: path,
            ux_dir: path.len() as int,
            iterating: false,
            ..self
        };
        if path.len() >= self.limit {
            (self, Err(FA_STRING_TOO_LONG))
        } else if st.len() == 0 {
            (named, Err(FA_STRING_TOO_LONG))
        } else {
            (
                PathParts { st: until_nul(st), st_dir: until_nul(st).len() as int, ..named },
                Ok(()),
            )
        }
    }

    /// The record with another file name after the directory, `file` being what
    /// the name converts to.
    pub open spec fn with_plat_file(self, name: Seq<u8>, file: Seq<u8>) -> (
        PathParts,
        Result<(), i64>,
    ) {
        let named = PathParts { ux: self.ux.subrange(0, self.ux_dir) + name, ..self };
        if name.len() >= self.limit - self.ux_dir {
            (self, Err(FA_STRING_TOO_LONG))
        } else if file.len() == 0 {
            (named, Err(FA_STRING_TOO_LONG))
        } else {
            (
                PathParts { st: self.st.subrange(0, self.st_dir) + until_nul(file), ..named },
                Ok(()),
            )
        }
    }
}

impl FaPath {
    /// What the record holds.
    pub closed spec fn view(&self) -> PathParts {
        PathParts {
            st: self.st@,
            st_dir: self.st_dir_len as int,
            ux: self.ux@,
            ux_dir: self.ux_dir_len as int,
            limit: self.limit as int,
            iterating: self.iterating,
        }
    }

    /// Directories are parts of their paths, and both are within the limit.
    pub open spec fn inv(&self) -> bool {
        &&& 0 <= self@.st_dir <= self@.st.len()
        &&& self@.st_dir <= self@.limit
        &&& 0 <= self@.ux_dir <= self@.ux.len()
        &&& self@.ux_dir <= self@.limit
        &&& 0 < self@.limit
    }

    /// A record without a path, for paths of the platform's length.
    pub fn new() -> (r: Self)
        ensures
            r@ == PathParts::empty(r@.limit),
            256 <= r@.limit <= 4096,
            r.inv(),
    {
        FaPath::withLimit(path_max())
    }

    /// A record without a path, for paths of this length with their terminator.
    pub fn withLimit(limit: usize) -> (r: Self)
        requires
            0 < limit,
        ensures
            r@ == PathParts::empty(limit as int),
            r.inv(),
    {
        let r = FaPath {
            st: Vec::new(),
            st_dir_len: 0,
            ux: Vec::new(),
            ux_dir_len: 0,
            limit,
            iterating: false,
        };
        assert(r@ =~= PathParts::empty(limit as int));
        r
    }

    /// Longest path, with its terminator.
    pub fn pathLimit(&self) -> (r: usize)
        ensures
            r == self@.limit,
    {
        self.limit
    }

    /// Sets a directory of the image, given what it converts to.
    pub fn setStDirAs(&mut self, path: &[u8], ux: Vec<u8>) -> (r: Result<(), i64>)
        requires
            old(self).inv(),
            ux@.len() <= old(self)@.limit,
        ensures
            (final(self)@, r) == old(self)@.with_st_dir(path@, ux@),
            final(self).inv(),
    {
        if path.len() >= self.limit - 1 {
            return Err(FA_STRING_TOO_LONG);
        }
        self.st = directoryName(path);
        self.st_dir_len = self.st.len();
        if ux.len() == 0 {
            return Err(FA_STRING_TOO_LONG);
        }
        let mut plat: Vec<u8> = ux;
        truncateAtNul(&mut plat);
        proof {
            lemma_until_nul_shorter(ux@);
        }
        self.ux_dir_len = plat.len();
        self.ux = plat;
        self.iterating = true;
        Ok(())
    }

    /// Sets a directory of the image. A separator is put at its end.
    pub fn set_st_dir(&mut self, path: &[u8], conv: &Converters) -> (r: Result<(), i64>)
        requires
            old(self).inv(),
        ensures
            (final(self)@, r) == old(self)@.with_st_dir(
                path@,
                converted(with_separator(path@), old(self)@.limit - 1),
            ),
            final(self).inv(),
    {
        let ux: Vec<u8> = conv.to_platform(directoryName(path).as_slice(), self.limit);
        proof {
            lemma_converted_fits(with_separator(path@), self@.limit - 1);
        }
        self.setStDirAs(path, ux)
    }

    /// Sets a whole path of the image, given what it converts to.
    pub fn setStPathAs(&mut self, path: &[u8], ux: Vec<u8>) -> (r: Result<(), i64>)
        requires
            old(self).inv(),
            ux@.len() <= old(self)@.limit,
        ensures
            (final(self)@, r) == old(self)@.with_st_path(path@, ux@),
            final(self).inv(),
    {
        if path.len() >= self.limit {
            return Err(FA_STRING_TOO_LONG);
        }
        self.st = copyOf(path);
        self.st_dir_len = self.st.len();
        self.iterating = false;
        if ux.len() == 0 {
            return Err(FA_STRING_TOO_LONG);
        }
        let mut plat: Vec<u8> = ux;
        truncateAtNul(&mut plat);
        proof {
            lemma_until_nul_shorter(ux@);
        }
        self.ux_dir_len = plat.len();
        self.ux = plat;
        Ok(())
    }

    /// Sets a whole path of the image.
    pub fn set_st_path(&mut self, path: &[u8], conv: &Converters) -> (r: Result<(), i64>)
        requires
            old(self).inv(),
        ensures
            (final(self)@, r) == old(self)@.with_st_path(
                path@,
                converted(path@, old(self)@.limit - 1),
            ),
            final(self).inv(),
    {
        let ux: Vec<u8> = conv.to_platform(path, self.limit);
        proof {
            lemma_converted_fits(path@, self@.limit - 1);
        }
        self.setStPathAs(path, ux)
    }

    /// Sets a whole path of the platform, given what it converts to.
    pub fn setPlatPathAs(&mut self, path: &[u8], st: Vec<u8>) -> (r: Result<(), i64>)
        requires
            old(self).inv(),
            st@.len() <= old(self)@.limit,
        ensures
            (final(self)@, r) == old(self)@.with_plat_path(path@, st@),
            final(self).inv(),
    {
        if path.len() >= self.limit {
            return Err(FA_STRING_TOO_LONG);
        }
        self.ux = copyOf(path);
        self.ux_dir_len = self.ux.len();
        self.iterating = false;
        if st.len() == 0 {
            return Err(FA_STRING_TOO_LONG);
        }
        let mut image: Vec<u8> = st;
        truncateAtNul(&mut image);
        proof {
            lemma_until_nul_shorter(st@);
        }
        self.st_dir_len = image.len();
        self.st = image;
        Ok(())
    }

    /// Sets a whole path of the platform.
    pub fn set_plat_path(&mut self, path: &[u8], conv: &Converters) -> (r: Result<(), i64>)
        requires
            old(self).inv(),
        ensures
            (final(self)@, r) == old(self)@.with_plat_path(
                path@,
                converted(path@, old(self)@.limit - 1),
            ),
            final(self).inv(),
    {
        let st: Vec<u8> = conv.to_smalltalk(path, self.limit);
        proof {
            lemma_converted_fits(path@, self@.limit - 1);
        }
        self.setPlatPathAs(path, st)
    }

    /// Room for what a file name converts to.
    pub fn fileRoom(&self) -> (r: usize)
        requires
            self.inv(),
        ensures
            r == self@.limit - self@.st_dir,
    {
        self.limit - self.st_dir_len
    }

    /// Sets the file name after the directory, given what it converts to.
    pub fn setPlatFileAs(&mut self, name: &[u8], file: Vec<u8>) -> (r: Result<(), i64>)
        requires
            old(self).inv(),
        ensures
            (final(self)@, r) == old(self)@.with_plat_file(name@, file@),
            final(self).inv(),
    {
        if name.len() >= self.limit - self.ux_dir_len {
            return Err(FA_STRING_TOO_LONG);
        }
        self.ux.truncate(self.ux_dir_len);
        appendAll(&mut self.ux, name);
        if file.len() == 0 {
            return Err(FA_STRING_TOO_LONG);
        }
        let mut image: Vec<u8> = file;
        truncateAtNul(&mut image);
        self.st.truncate(self.st_dir_len);
        appendAll(&mut self.st, image.as_slice());
        Ok(())
    }

    /// Sets the file name after the directory: that of the entry a walk has come
    /// to.
    pub fn set_plat_file(&mut self, name: &[u8], conv: &Converters) -> (r: Result<(), i64>)
        requires
            old(self).inv(),
        ensures
            (final(self)@, r) == old(self)@.with_plat_file(
                name@,
                converted(name@, room_in(old(self)@.limit - old(self)@.st_dir)),
            ),
            final(self).inv(),
    {
        let file: Vec<u8> = conv.to_smalltalk(name, self.fileRoom());
        self.setPlatFileAs(name, file)
    }

    /// The whole path of the image.
    pub fn st_path(&self) -> (r: &[u8])
        ensures
            r@ == self@.st,
    {
        self.st.as_slice()
    }

    /// The file name of the image.
    pub fn st_file(&self) -> (r: &[u8])
        requires
            self.inv(),
        ensures
            r@ == self@.st.subrange(self@.st_dir, self@.st.len() as int),
    {
        vstd::slice::slice_subrange(self.st.as_slice(), self.st_dir_len, self.st.len())
    }

    /// The whole path of the platform.
    pub fn plat_path(&self) -> (r: &[u8])
        ensures
            r@ == self@.ux,
    {
        self.ux.as_slice()
    }

    /// The whole path of the platform as a call takes it: up to its first 0.
    pub fn plat_cstring(&self) -> (r: Vec<u8>)
        ensures
            r@ == until_nul(self@.ux),
    {
        let mut r: Vec<u8> = copyOf(self.ux.as_slice());
        truncateAtNul(&mut r);
        r
    }
}

impl Default for FaPath {
    fn default() -> (r: Self)
        ensures
            r@ == PathParts::empty(r@.limit),
            256 <= r@.limit <= 4096,
            r.inv(),
    {
        FaPath::new()
    }
}

/// Cutting at a 0 does not make longer.
pub(crate) proof fn lemma_until_nul_shorter(s: Seq<u8>)
    ensures
        until_nul(s).len() <= s.len(),
    decreases s.len(),
{
    if s.len() > 0 && s[0] != 0 {
        lemma_until_nul_shorter(s.subrange(1, s.len() as int));
    }
}

// ---- Laws -----------------------------------------------------------------

/// A file name replaces the one before it: only the last one counts.
pub proof fn lemma_file_name_replaces(
    p: PathParts,
    a: Seq<u8>,
    file_a: Seq<u8>,
    b: Seq<u8>,
    file_b: Seq<u8>,
)
    requires
        0 <= p.st_dir <= p.st.len(),
        0 <= p.ux_dir <= p.ux.len(),
        p.with_plat_file(a, file_a).1 is Ok,
        p.with_plat_file(b, file_b).1 is Ok,
    ensures
        p.with_plat_file(a, file_a).0.with_plat_file(b, file_b) == p.with_plat_file(b, file_b),
{
    let q = p.with_plat_file(a, file_a).0;
    assert(q.ux.subrange(0, q.ux_dir) =~= p.ux.subrange(0, p.ux_dir));
    assert(q.st.subrange(0, q.st_dir) =~= p.st.subrange(0, p.st_dir));
}

/// A directory and a file name after it make up the path, in both encodings, and
/// the file name can be told from the directory.
pub proof fn lemma_file_after_directory(
    p: PathParts,
    path: Seq<u8>,
    ux: Seq<u8>,
    name: Seq<u8>,
    file: Seq<u8>,
)
    requires
        p.with_st_dir(path, ux).1 is Ok,
        p.with_st_dir(path, ux).0.with_plat_file(name, file).1 is Ok,
    ensures
        ({
            let q = p.with_st_dir(path, ux).0.with_plat_file(name, file).0;
            &&& q.st == with_separator(path) + until_nul(file)
            &&& q.ux == until_nul(ux) + name
            &&& q.st.subrange(q.st_dir, q.st.len() as int) == until_nul(file)
            &&& q.ux.len() < p.limit
            &&& q.limit == p.limit
        }),
{
    let d = p.with_st_dir(path, ux).0;
    let q = d.with_plat_file(name, file).0;
    assert(d.st.subrange(0, d.st_dir) =~= d.st);
    assert(d.ux.subrange(0, d.ux_dir) =~= d.ux);
    assert(q.st.subrange(q.st_dir, q.st.len() as int) =~= until_nul(file));
}

} // verus!

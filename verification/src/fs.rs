use vstd::prelude::*;

use crate::strmap::{has_key, key_lt, lemma_insert_present, lemma_lookup_present, law_insert_keeps_sorted, law_lookup_after_insert, lookup, sorted_insert, strictly_sorted, StringMap};
use crate::text::{lemma_split_concat, lemma_split_without_sep, lemma_split_join, lemma_split_pieces, chars_eq, starts_with, is_prefix, extend_from, join, slice_chars, split_chars, split_on, string_from_chars, to_chars, views};

verus! {

// ─── Paths ──────────────────────────────────────────────────────────────────

/// One path segment applied to a stack of directory names.
pub open spec fn path_step(stack: Seq<Seq<char>>, seg: Seq<char>) -> Seq<Seq<char>> {
    if seg.len() == 0 || seg == seq!['.'] {
        stack
    } else if seg == seq!['.', '.'] {
        if stack.len() == 0 {
            stack
        } else {
            stack.drop_last()
        }
    } else {
        stack.push(seg)
    }
}

pub open spec fn resolve_segments(segs: Seq<Seq<char>>) -> Seq<Seq<char>>
    decreases segs.len(),
{
    if segs.len() == 0 {
        Seq::empty()
    } else {
        path_step(resolve_segments(segs.drop_last()), segs.last())
    }
}

/// The directory names that a path leads through, `.` and `..` resolved from `/`.
pub open spec fn path_stack(p: Seq<char>) -> Seq<Seq<char>> {
    resolve_segments(split_on(p, '/'))
}

/// The absolute path through the given names.
pub open spec fn abs_path(stack: Seq<Seq<char>>) -> Seq<char> {
    if stack.len() == 0 {
        seq!['/']
    } else {
        seq!['/'] + join(stack, seq!['/'])
    }
}

/// `path` as an absolute path without empty, `.` or `..` segments.
pub open spec fn normalize(p: Seq<char>) -> Seq<char> {
    abs_path(path_stack(p))
}

/// The directory that holds `path` (`/` for `/` itself).
pub open spec fn parent_of(p: Seq<char>) -> Seq<char> {
    let st = path_stack(p);
    abs_path(if st.len() == 0 { st } else { st.drop_last() })
}

fn path_stack_chars(p: &[char]) -> (r: Vec<Vec<char>>)
    ensures
        views(r@) == path_stack(p@),
{
    let segs = split_chars(p, '/');
    let ghost sv = split_on(p@, '/');
    let mut stack: Vec<Vec<char>> = Vec::new();
    let mut i: usize = 0;
    while i < segs.len()
        invariant
            i <= segs@.len(),
            views(segs@) == sv,
            views(stack@) == resolve_segments(sv.take(i as int)),
        decreases segs.len() - i,
    {
        assert(sv.take(i + 1).drop_last() == sv.take(i as int));
        assert(sv.take(i + 1).last() == segs@[i as int]@);
        let seg = &segs[i];
        let is_dot = seg.len() == 1 && seg[0] == '.';
        let is_dotdot = seg.len() == 2 && seg[0] == '.' && seg[1] == '.';
        proof {
            if seg@ == seq!['.'] {
                assert(seg@[0] == '.');
            }
            if is_dot {
                assert(seg@ =~= seq!['.']);
            }
            if seg@ == seq!['.', '.'] {
                assert(seg@[0] == '.' && seg@[1] == '.');
            }
            if is_dotdot {
                assert(seg@ =~= seq!['.', '.']);
            }
        }
        if seg.len() == 0 || is_dot {
        } else if is_dotdot {
            if stack.len() > 0 {
                stack.pop();
                assert(views(stack@) =~= resolve_segments(sv.take(i as int)).drop_last());
            }
        } else {
            let copy = slice_chars(seg, 0, seg.len());
            assert(seg@.subrange(0, seg@.len() as int) == seg@);
            stack.push(copy);
            assert(views(stack@) =~= resolve_segments(sv.take(i as int)).push(seg@));
        }
        i += 1;
    }
    assert(sv.take(segs@.len() as int) == sv);
    stack
}

fn abs_path_chars(stack: &Vec<Vec<char>>) -> (r: Vec<char>)
    ensures
        r@ == abs_path(views(stack@)),
{
    let ghost st = views(stack@);
    let mut out: Vec<char> = Vec::new();
    out.push('/');
    let mut i: usize = 0;
    while i < stack.len()
        invariant
            i <= stack@.len(),
            st == views(stack@),
            out@ == (if i == 0 { seq!['/'] } else { seq!['/'] + join(st.take(i as int), seq!['/']) }),
        decreases stack.len() - i,
    {
        assert(st.take(i + 1).drop_last() == st.take(i as int));
        assert(st.take(i + 1).last() == stack@[i as int]@);
        if i > 0 {
            out.push('/');
        }
        extend_from(&mut out, &stack[i]);
        proof {
            if i == 0 {
                assert(join(st.take(1), seq!['/']) == st.take(1)[0]);
                assert(out@ =~= seq!['/'] + join(st.take(1), seq!['/']));
            } else {
                assert(out@ =~= seq!['/'] + join(st.take(i + 1), seq!['/']));
            }
        }
        i += 1;
    }
    assert(st.take(stack@.len() as int) == st);
    out
}

pub fn normalize_chars(p: &[char]) -> (r: Vec<char>)
    ensures
        r@ == normalize(p@),
{
    let st = path_stack_chars(p);
    abs_path_chars(&st)
}

pub fn parent_chars(p: &[char]) -> (r: Vec<char>)
    ensures
        r@ == parent_of(p@),
{
    let mut st = path_stack_chars(p);
    if st.len() > 0 {
        st.pop();
        assert(views(st@) =~= path_stack(p@).drop_last());
    }
    abs_path_chars(&st)
}

/// `path` as an absolute path: empty and `.` segments dropped, each `..`
/// removing the segment before it.
pub fn normalize_absolute(path: &str) -> (r: String)
    ensures
        r@ == normalize(path@),
{
    let p = to_chars(path);
    let n = normalize_chars(&p);
    string_from_chars(&n)
}

/// The directory that holds `path`.
pub fn parent_dir(path: &str) -> (r: String)
    ensures
        r@ == parent_of(path@),
{
    let p = to_chars(path);
    let n = parent_chars(&p);
    string_from_chars(&n)
}

}

verus! {

// ─── Errors ─────────────────────────────────────────────────────────────────

#[derive(Debug, Clone, PartialEq, Eq)]
pub enum BashError {
    Parse(String),
    FileSystem(String),
}

impl BashError {
    pub open spec fn message(&self) -> Seq<char> {
        match self {
            BashError::Parse(m) => m@,
            BashError::FileSystem(m) => m@,
        }
    }

    /// The error's message.
    pub fn to_string(&self) -> (r: String)
        ensures
            r@ == self.message(),
    {
        match self {
            BashError::Parse(m) => m.clone(),
            BashError::FileSystem(m) => m.clone(),
        }
    }
}

/// `r` failed with a filesystem error carrying message `e`.
pub open spec fn fs_err<T>(r: Result<T, BashError>, e: Seq<char>) -> bool {
    r matches Err(BashError::FileSystem(m)) && m@ == e
}

/// A filesystem error whose message is `subject` followed by `suffix`.
fn fs_error(subject: &[char], suffix: &str) -> (e: BashError)
    ensures
        e matches BashError::FileSystem(m) && m@ == subject@ + suffix@,
{
    let mut m = string_from_chars(subject);
    m.append(suffix);
    BashError::FileSystem(m)
}

// ─── The model ──────────────────────────────────────────────────────────────

/// What a path holds.
pub enum FsNode {
    File(Seq<char>),
    Dir,
}

/// Paths in key order, each with what it holds.
pub type FsModel = Seq<(Seq<char>, FsNode)>;

#[derive(Debug, Clone, PartialEq, Eq)]
enum FsEntry {
    File(String),
    Directory,
}

spec fn node_of(e: FsEntry) -> FsNode {
    match e {
        FsEntry::File(s) => FsNode::File(s@),
        FsEntry::Directory => FsNode::Dir,
    }
}

spec fn model_of(s: Seq<(Seq<char>, FsEntry)>) -> FsModel {
    s.map_values(|e: (Seq<char>, FsEntry)| (e.0, node_of(e.1)))
}

proof fn lemma_model_lookup(s: Seq<(Seq<char>, FsEntry)>, k: Seq<char>)
    ensures
        lookup(model_of(s), k) == (match lookup(s, k) {
            Some(e) => Some(node_of(e)),
            None => None,
        }),
    decreases s.len(),
{
    if s.len() > 0 {
        assert(model_of(s).drop_first() =~= model_of(s.drop_first()));
        lemma_model_lookup(s.drop_first(), k);
    }
}

proof fn lemma_model_remove(s: Seq<(Seq<char>, FsEntry)>, i: int)
    requires
        0 <= i < s.len(),
    ensures
        model_of(s.remove(i)) == model_of(s).remove(i),
{
    assert(model_of(s.remove(i)) =~= model_of(s).remove(i));
}

proof fn lemma_model_insert(s: Seq<(Seq<char>, FsEntry)>, k: Seq<char>, v: FsEntry)
    ensures
        model_of(sorted_insert(s, k, v)) == sorted_insert(model_of(s), k, node_of(v)),
    decreases s.len(),
{
    if s.len() > 0 {
        assert(model_of(s).drop_first() =~= model_of(s.drop_first()));
        lemma_model_insert(s.drop_first(), k, v);
        if s[0].0 == k {
            assert(model_of(sorted_insert(s, k, v)) =~= sorted_insert(model_of(s), k, node_of(v)));
        } else if key_lt(k, s[0].0) {
            assert(model_of(sorted_insert(s, k, v)) =~= sorted_insert(model_of(s), k, node_of(v)));
        } else {
            assert(model_of(sorted_insert(s, k, v)) =~= sorted_insert(model_of(s), k, node_of(v)));
        }
    } else {
        assert(model_of(sorted_insert(s, k, v)) =~= sorted_insert(model_of(s), k, node_of(v)));
    }
}

pub open spec fn is_dir_in(m: FsModel, p: Seq<char>) -> bool {
    lookup(m, p) matches Some(FsNode::Dir)
}

pub open spec fn is_file_in(m: FsModel, p: Seq<char>) -> bool {
    lookup(m, p) matches Some(FsNode::File(_))
}

/// The filesystem a new `InMemoryFs` holds: `/`, `/tmp`, `/home`, `/home/user`.
pub open spec fn initial_fs() -> FsModel {
    sorted_insert(
        sorted_insert(
            sorted_insert(sorted_insert(Seq::empty(), "/"@, FsNode::Dir), "/tmp"@, FsNode::Dir),
            "/home"@,
            FsNode::Dir,
        ),
        "/home/user"@,
        FsNode::Dir,
    )
}

pub open spec fn read_spec(m: FsModel, p: Seq<char>) -> Result<Seq<char>, Seq<char>> {
    match lookup(m, p) {
        Some(FsNode::File(c)) => Ok(c),
        Some(FsNode::Dir) => Err(p + ": Is a directory"@),
        None => Err(p + ": No such file or directory"@),
    }
}

/// Stores file `n` (a normalized path whose parent is `par`).
pub open spec fn store_spec(m: FsModel, n: Seq<char>, par: Seq<char>, c: Seq<char>) -> Result<
    FsModel,
    Seq<char>,
> {
    match lookup(m, par) {
        None => Err(par + ": No such file or directory"@),
        Some(FsNode::File(_)) => Err(par + ": Not a directory"@),
        Some(FsNode::Dir) => if is_dir_in(m, n) {
            Err(n + ": Is a directory"@)
        } else {
            Ok(sorted_insert(m, n, FsNode::File(c)))
        },
    }
}

pub open spec fn write_spec(m: FsModel, p: Seq<char>, c: Seq<char>) -> Result<FsModel, Seq<char>> {
    store_spec(m, normalize(p), parent_of(p), c)
}

pub open spec fn append_spec(m: FsModel, p: Seq<char>, c: Seq<char>) -> Result<FsModel, Seq<char>> {
    let n = normalize(p);
    match lookup(m, n) {
        Some(FsNode::Dir) => Err(n + ": Is a directory"@),
        Some(FsNode::File(e)) => store_spec(m, n, parent_of(p), e + c),
        None => store_spec(m, n, parent_of(p), c),
    }
}

/// Creates the directories `abs_path(st.take(j + 1))`, `abs_path(st.take(j + 2))`, ...
/// in turn, stopping at the first that is a file.
pub open spec fn mkdirs_from(m: FsModel, st: Seq<Seq<char>>, j: int) -> (FsModel, Option<Seq<char>>)
    decreases st.len() - j,
{
    if j < 0 || j >= st.len() {
        (m, None)
    } else {
        let cur = abs_path(st.take(j + 1));
        if is_file_in(m, cur) {
            (m, Some(cur + ": Not a directory"@))
        } else {
            mkdirs_from(sorted_insert(m, cur, FsNode::Dir), st, j + 1)
        }
    }
}

pub open spec fn create_all_spec(m: FsModel, p: Seq<char>) -> (FsModel, Option<Seq<char>>) {
    mkdirs_from(m, path_stack(p), 0)
}

pub open spec fn create_dir_spec(m: FsModel, p: Seq<char>) -> Result<FsModel, Seq<char>> {
    let n = normalize(p);
    let par = parent_of(p);
    match lookup(m, par) {
        None => Err(par + ": No such file or directory"@),
        Some(FsNode::File(_)) => Err(par + ": Not a directory"@),
        Some(FsNode::Dir) => if lookup(m, n) is Some {
            Err(n + ": File exists"@)
        } else {
            Ok(sorted_insert(m, n, FsNode::Dir))
        },
    }
}

/// `k` is `n` or lies below it.
pub open spec fn under(k: Seq<char>, n: Seq<char>) -> bool {
    k == n || is_prefix(n.push('/'), k)
}

pub open spec fn drop_under(m: FsModel, n: Seq<char>) -> FsModel
    decreases m.len(),
{
    if m.len() == 0 {
        m
    } else if under(m[0].0, n) {
        drop_under(m.drop_first(), n)
    } else {
        seq![m[0]] + drop_under(m.drop_first(), n)
    }
}

pub open spec fn has_children_in(m: FsModel, n: Seq<char>) -> bool {
    exists|i: int| 0 <= i < m.len() && is_prefix(n.push('/'), #[trigger] m[i].0)
}

pub open spec fn remove_spec(m: FsModel, p: Seq<char>, recursive: bool) -> Result<FsModel, Seq<char>> {
    let n = normalize(p);
    if n == seq!['/'] {
        Err("cannot remove '/'"@)
    } else {
        match lookup(m, n) {
            None => Err(n + ": No such file or directory"@),
            Some(FsNode::Dir) => if !recursive && has_children_in(m, n) {
                Err(n + ": Directory not empty"@)
            } else {
                Ok(drop_under(m, n))
            },
            Some(FsNode::File(_)) => Ok(drop_under(m, n)),
        }
    }
}

/// The part of `s` before the first `c`.
pub open spec fn first_segment(s: Seq<char>, c: char) -> Seq<char>
    decreases s.len(),
{
    if s.len() == 0 || s[0] == c {
        Seq::empty()
    } else {
        seq![s[0]] + first_segment(s.drop_first(), c)
    }
}

pub open spec fn child_prefix(p: Seq<char>) -> Seq<char> {
    if p == seq!['/'] {
        p
    } else {
        p.push('/')
    }
}

/// The names directly below `p`, gathered in key order of `m` into a sorted set.
pub open spec fn names_in(m: FsModel, p: Seq<char>) -> Seq<(Seq<char>, ())>
    decreases m.len(),
{
    if m.len() == 0 {
        Seq::empty()
    } else {
        let r = names_in(m.drop_last(), p);
        let k = m.last().0;
        let pre = child_prefix(p);
        let name = first_segment(k.skip(pre.len() as int), '/');
        if k == p || !is_prefix(pre, k) || name.len() == 0 {
            r
        } else {
            sorted_insert(r, name, ())
        }
    }
}

pub open spec fn list_spec(m: FsModel, p: Seq<char>) -> Result<Seq<Seq<char>>, Seq<char>> {
    if !is_dir_in(m, p) {
        Err(p + ": Not a directory"@)
    } else {
        Ok(names_in(m, p).map_values(|e: (Seq<char>, ())| e.0))
    }
}

/// What seeding the filesystem with a file does first: the file's directory is
/// created when missing, and must be a directory.
pub open spec fn ensure_parent_spec(m: FsModel, p: Seq<char>) -> Result<FsModel, Seq<char>> {
    let par = parent_of(p);
    let (m1, err) = if lookup(m, par) is None {
        create_all_spec(m, par)
    } else {
        (m, None)
    };
    match err {
        Some(e) => Err(e),
        None => if !is_dir_in(m1, par) {
            Err(par + ": Not a directory"@)
        } else {
            Ok(m1)
        },
    }
}

/// Seeds the files `files[i..]` in order.
pub open spec fn seed_from(m: FsModel, files: Seq<(Seq<char>, Seq<char>)>, i: int) -> Result<
    FsModel,
    Seq<char>,
>
    decreases files.len() - i,
{
    if i < 0 || i >= files.len() {
        Ok(m)
    } else {
        match ensure_parent_spec(m, files[i].0) {
            Err(e) => Err(e),
            Ok(m1) => match write_spec(m1, files[i].0, files[i].1) {
                Err(e) => Err(e),
                Ok(m2) => seed_from(m2, files, i + 1),
            },
        }
    }
}

pub open spec fn string_pairs(s: Seq<(Seq<char>, String)>) -> Seq<(Seq<char>, Seq<char>)> {
    s.map_values(|e: (Seq<char>, String)| (e.0, e.1@))
}

fn first_segment_chars(k: &[char], from: usize, c: char) -> (r: Vec<char>)
    requires
        from <= k.len(),
    ensures
        r@ == first_segment(k@.skip(from as int), c),
{
    let mut r: Vec<char> = Vec::new();
    let mut i = from;
    while i < k.len() && k[i] != c
        invariant
            from <= i <= k.len(),
            first_segment(k@.skip(from as int), c) == r@ + first_segment(k@.skip(i as int), c),
        decreases k.len() - i,
    {
        assert(k@.skip(i as int).drop_first() == k@.skip(i + 1));
        assert(k@.skip(i as int)[0] == k@[i as int]);
        r.push(k[i]);
        i += 1;
    }
    if i < k.len() {
        assert(k@.skip(i as int)[0] == k@[i as int]);
    }
    assert(first_segment(k@.skip(i as int), c) == Seq::<char>::empty());
    r
}

// ─── The filesystem ─────────────────────────────────────────────────────────

/// An in-memory filesystem: a map from absolute paths to files and directories.
#[derive(Debug, Clone, PartialEq, Eq)]
pub struct InMemoryFs {
    entries: StringMap<FsEntry>,
}

impl View for InMemoryFs {
    type V = FsModel;

    closed spec fn view(&self) -> FsModel {
        model_of(self.entries@)
    }
}

impl Default for InMemoryFs {
    fn default() -> (fs: Self)
        ensures
            fs@ == initial_fs(),
    {
        Self::new()
    }
}

impl InMemoryFs {
    /// A filesystem holding the directories `/`, `/tmp`, `/home` and `/home/user`.
    pub fn new() -> (fs: Self)
        ensures
            fs@ == initial_fs(),
    {
        let mut entries: StringMap<FsEntry> = StringMap::new();
        let ghost e0 = entries@;
        entries.insert_chars(to_chars("/"), FsEntry::Directory);
        proof { lemma_model_insert(e0, "/"@, FsEntry::Directory); }
        let ghost e1 = entries@;
        entries.insert_chars(to_chars("/tmp"), FsEntry::Directory);
        proof { lemma_model_insert(e1, "/tmp"@, FsEntry::Directory); }
        let ghost e2 = entries@;
        entries.insert_chars(to_chars("/home"), FsEntry::Directory);
        proof { lemma_model_insert(e2, "/home"@, FsEntry::Directory); }
        let ghost e3 = entries@;
        entries.insert_chars(to_chars("/home/user"), FsEntry::Directory);
        proof {
            lemma_model_insert(e3, "/home/user"@, FsEntry::Directory);
            assert(model_of(e0) =~= Seq::<(Seq<char>, FsNode)>::empty());
        }
        InMemoryFs { entries }
    }

    fn entry(&self, p: &[char]) -> (r: Option<&FsEntry>)
        ensures
            match r {
                Some(e) => lookup(self@, p@) == Some(node_of(*e)),
                None => lookup(self@, p@) is None,
            },
    {
        proof {
            lemma_model_lookup(self.entries@, p@);
        }
        self.entries.get_chars(p)
    }

    fn put(&mut self, p: Vec<char>, e: FsEntry)
        ensures
            final(self)@ == sorted_insert(old(self)@, p@, node_of(e)),
    {
        proof {
            lemma_model_insert(self.entries@, p@, e);
        }
        self.entries.insert_chars(p, e);
    }

    pub fn is_dir_chars(&self, p: &[char]) -> (r: bool)
        ensures
            r == is_dir_in(self@, p@),
    {
        match self.entry(p) {
            Some(FsEntry::Directory) => true,
            _ => false,
        }
    }

    pub fn is_file_chars(&self, p: &[char]) -> (r: bool)
        ensures
            r == is_file_in(self@, p@),
    {
        match self.entry(p) {
            Some(FsEntry::File(_)) => true,
            _ => false,
        }
    }

    pub fn exists_chars(&self, p: &[char]) -> (r: bool)
        ensures
            r == (lookup(self@, p@) is Some),
    {
        self.entry(p).is_some()
    }

    pub fn path_exists(&self, path: &str) -> (r: bool)
        ensures
            r == (lookup(self@, path@) is Some),
    {
        let p = to_chars(path);
        self.exists_chars(&p)
    }

    pub fn is_dir(&self, path: &str) -> (r: bool)
        ensures
            r == is_dir_in(self@, path@),
    {
        let p = to_chars(path);
        self.is_dir_chars(&p)
    }

    pub fn is_file(&self, path: &str) -> (r: bool)
        ensures
            r == is_file_in(self@, path@),
    {
        let p = to_chars(path);
        self.is_file_chars(&p)
    }

    pub fn read_chars(&self, p: &[char]) -> (r: Result<&str, BashError>)
        ensures
            match read_spec(self@, p@) {
                Ok(c) => r matches Ok(s) && s@ == c,
                Err(e) => fs_err(r, e),
            },
    {
        match self.entry(p) {
            Some(FsEntry::File(c)) => Ok(c.as_str()),
            Some(FsEntry::Directory) => Err(fs_error(p, ": Is a directory")),
            None => Err(fs_error(p, ": No such file or directory")),
        }
    }

    /// The contents of the file at `path` (taken as written, not normalized).
    pub fn read_file(&self, path: &str) -> (r: Result<&str, BashError>)
        ensures
            match read_spec(self@, path@) {
                Ok(c) => r matches Ok(s) && s@ == c,
                Err(e) => fs_err(r, e),
            },
    {
        let p = to_chars(path);
        self.read_chars(&p)
    }

    fn store(&mut self, n: Vec<char>, par: &[char], contents: &str) -> (r: Result<(), BashError>)
        ensures
            match store_spec(old(self)@, n@, par@, contents@) {
                Ok(m) => r is Ok && final(self)@ == m,
                Err(e) => fs_err(r, e) && final(self)@ == old(self)@,
            },
    {
        match self.entry(par) {
            None => return Err(fs_error(par, ": No such file or directory")),
            Some(FsEntry::File(_)) => return Err(fs_error(par, ": Not a directory")),
            Some(FsEntry::Directory) => {},
        }
        if self.is_dir_chars(&n) {
            return Err(fs_error(&n, ": Is a directory"));
        }
        let c = String::from_str(contents);
        let ghost cv = c@;
        self.put(n, FsEntry::File(c));
        Ok(())
    }

    pub fn write_chars(&mut self, p: &[char], contents: &str) -> (r: Result<(), BashError>)
        ensures
            match write_spec(old(self)@, p@, contents@) {
                Ok(m) => r is Ok && final(self)@ == m,
                Err(e) => fs_err(r, e) && final(self)@ == old(self)@,
            },
    {
        let n = normalize_chars(p);
        let par = parent_chars(p);
        self.store(n, &par, contents)
    }

    /// Writes `contents` to the file at `path` (normalized). The parent directory
    /// must exist; an existing directory is not overwritten.
    pub fn write_file(&mut self, path: &str, contents: &str) -> (r: Result<(), BashError>)
        ensures
            match write_spec(old(self)@, path@, contents@) {
                Ok(m) => r is Ok && final(self)@ == m,
                Err(e) => fs_err(r, e) && final(self)@ == old(self)@,
            },
    {
        let p = to_chars(path);
        self.write_chars(&p, contents)
    }

    pub fn append_chars(&mut self, p: &[char], contents: &str) -> (r: Result<(), BashError>)
        ensures
            match append_spec(old(self)@, p@, contents@) {
                Ok(m) => r is Ok && final(self)@ == m,
                Err(e) => fs_err(r, e) && final(self)@ == old(self)@,
            },
    {
        let n = normalize_chars(p);
        let par = parent_chars(p);
        let mut next = String::new();
        match self.entry(&n) {
            Some(FsEntry::File(existing)) => {
                next.append(existing.as_str());
            },
            Some(FsEntry::Directory) => {
                return Err(fs_error(&n, ": Is a directory"));
            },
            None => {},
        }
        next.append(contents);
        self.store(n, &par, next.as_str())
    }

    /// Appends `contents` to the file at `path` (normalized), creating it when missing.
    pub fn append_file(&mut self, path: &str, contents: &str) -> (r: Result<(), BashError>)
        ensures
            match append_spec(old(self)@, path@, contents@) {
                Ok(m) => r is Ok && final(self)@ == m,
                Err(e) => fs_err(r, e) && final(self)@ == old(self)@,
            },
    {
        let p = to_chars(path);
        self.append_chars(&p, contents)
    }

    pub fn create_dir_all_chars(&mut self, p: &[char]) -> (r: Result<(), BashError>)
        ensures
            final(self)@ == create_all_spec(old(self)@, p@).0,
            match create_all_spec(old(self)@, p@).1 {
                None => r is Ok,
                Some(e) => fs_err(r, e),
            },
    {
        let st = path_stack_chars(p);
        let ghost sv = views(st@);
        let mut cur: Vec<char> = Vec::new();
        cur.push('/');
        let mut j: usize = 0;
        while j < st.len()
            invariant
                j <= st@.len(),
                sv == views(st@),
                sv == path_stack(p@),
                cur@ == (if j == 0 { seq!['/'] } else { abs_path(sv.take(j as int)) }),
                create_all_spec(old(self)@, p@) == mkdirs_from(self@, sv, j as int),
            decreases st.len() - j,
        {
            assert(sv.take(j + 1).drop_last() == sv.take(j as int));
            assert(sv.take(j + 1).last() == st@[j as int]@);
            if j > 0 {
                cur.push('/');
            }
            extend_from(&mut cur, &st[j]);
            proof {
                if j == 0 {
                    assert(join(sv.take(1), seq!['/']) == sv.take(1)[0]);
                }
                assert(cur@ =~= abs_path(sv.take(j + 1)));
            }
            if self.is_file_chars(&cur) {
                return Err(fs_error(&cur, ": Not a directory"));
            }
            let copy = slice_chars(&cur, 0, cur.len());
            assert(cur@.subrange(0, cur@.len() as int) == cur@);
            self.put(copy, FsEntry::Directory);
            j += 1;
        }
        Ok(())
    }

    /// Creates the directory at `path` (normalized) and every missing directory above it.
    pub fn create_dir_all(&mut self, path: &str) -> (r: Result<(), BashError>)
        ensures
            final(self)@ == create_all_spec(old(self)@, path@).0,
            match create_all_spec(old(self)@, path@).1 {
                None => r is Ok,
                Some(e) => fs_err(r, e),
            },
    {
        let p = to_chars(path);
        self.create_dir_all_chars(&p)
    }

    pub fn create_dir_chars(&mut self, p: &[char]) -> (r: Result<(), BashError>)
        ensures
            match create_dir_spec(old(self)@, p@) {
                Ok(m) => r is Ok && final(self)@ == m,
                Err(e) => fs_err(r, e) && final(self)@ == old(self)@,
            },
    {
        let n = normalize_chars(p);
        let par = parent_chars(p);
        match self.entry(&par) {
            None => return Err(fs_error(&par, ": No such file or directory")),
            Some(FsEntry::File(_)) => return Err(fs_error(&par, ": Not a directory")),
            Some(FsEntry::Directory) => {},
        }
        if self.exists_chars(&n) {
            return Err(fs_error(&n, ": File exists"));
        }
        self.put(n, FsEntry::Directory);
        Ok(())
    }

    /// Creates the directory at `path` (normalized); its parent must be a directory.
    pub fn create_dir(&mut self, path: &str) -> (r: Result<(), BashError>)
        ensures
            match create_dir_spec(old(self)@, path@) {
                Ok(m) => r is Ok && final(self)@ == m,
                Err(e) => fs_err(r, e) && final(self)@ == old(self)@,
            },
    {
        let p = to_chars(path);
        self.create_dir_chars(&p)
    }

    fn has_children_chars(&self, n: &[char]) -> (r: bool)
        ensures
            r == has_children_in(self@, n@),
    {
        let mut pre = slice_chars(n, 0, n.len());
        assert(n@.subrange(0, n@.len() as int) == n@);
        pre.push('/');
        let ghost m = self@;
        let mut i: usize = 0;
        while i < self.entries.len()
            invariant
                i <= m.len(),
                m == self@,
                m.len() == self.entries@.len(),
                pre@ == n@.push('/'),
                forall|j: int| 0 <= j < i ==> !is_prefix(pre@, #[trigger] m[j].0),
            decreases self@.len() - i,
        {
            assert(m[i as int].0 == self.entries@[i as int].0);
            if starts_with(self.entries.key_at(i), &pre) {
                return true;
            }
            i += 1;
        }
        false
    }

    pub fn remove_chars(&mut self, p: &[char], recursive: bool) -> (r: Result<(), BashError>)
        ensures
            match remove_spec(old(self)@, p@, recursive) {
                Ok(m) => r is Ok && final(self)@ == m,
                Err(e) => fs_err(r, e) && final(self)@ == old(self)@,
            },
    {
        let n = normalize_chars(p);
        if n.len() == 1 && n[0] == '/' {
            assert(n@ =~= seq!['/']);
            let mut m = String::new();
            m.append("cannot remove '/'");
            return Err(BashError::FileSystem(m));
        }
        assert(n@ != seq!['/']);
        match self.entry(&n) {
            None => return Err(fs_error(&n, ": No such file or directory")),
            Some(FsEntry::Directory) => {
                if !recursive && self.has_children_chars(&n) {
                    return Err(fs_error(&n, ": Directory not empty"));
                }
            },
            Some(FsEntry::File(_)) => {},
        }
        let mut pre = slice_chars(&n, 0, n.len());
        assert(n@.subrange(0, n@.len() as int) == n@);
        pre.push('/');
        let ghost target = drop_under(old(self)@, n@);
        assert(self@.skip(0) == self@);
        assert(self@.take(0) + drop_under(self@, n@) == drop_under(self@, n@));
        let mut i: usize = 0;
        while i < self.entries.len()
            invariant
                i <= self@.len(),
                self@.len() == self.entries@.len(),
                pre@ == n@.push('/'),
                target == drop_under(old(self)@, n@),
                target == self@.take(i as int) + drop_under(self@.skip(i as int), n@),
            decreases self@.len() - i,
        {
            let ghost s = self@;
            assert(s.skip(i as int).drop_first() == s.skip(i + 1));
            assert(s[i as int].0 == self.entries@[i as int].0);
            let k = self.entries.key_at(i);
            if chars_eq(k, &n) || starts_with(k, &pre) {
                proof {
                    lemma_model_remove(self.entries@, i as int);
                }
                self.entries.remove_at(i);
                assert(self@.take(i as int) == s.take(i as int));
                assert(self@.skip(i as int) == s.skip(i + 1));
            } else {
                assert(s.take(i + 1) == s.take(i as int).push(s[i as int]));
                assert(target =~= s.take(i + 1) + drop_under(s.skip(i + 1), n@));
                i += 1;
            }
        }
        assert(self@.skip(i as int) =~= FsModel::empty());
        assert(self@.take(i as int) == self@);
        Ok(())
    }

    /// Removes the file or directory at `path` (normalized) and everything below it.
    /// A directory with entries below it is only removed when `recursive` is set.
    pub fn remove(&mut self, path: &str, recursive: bool) -> (r: Result<(), BashError>)
        ensures
            match remove_spec(old(self)@, path@, recursive) {
                Ok(m) => r is Ok && final(self)@ == m,
                Err(e) => fs_err(r, e) && final(self)@ == old(self)@,
            },
    {
        let p = to_chars(path);
        self.remove_chars(&p, recursive)
    }

    pub fn list_dir_chars(&self, p: &[char]) -> (r: Result<Vec<String>, BashError>)
        ensures
            match list_spec(self@, p@) {
                Ok(names) => r matches Ok(v) && v@.map_values(|s: String| s@) == names,
                Err(e) => fs_err(r, e),
            },
    {
        if !self.is_dir_chars(p) {
            return Err(fs_error(p, ": Not a directory"));
        }
        let is_root = p.len() == 1 && p[0] == '/';
        proof {
            if p@ == seq!['/'] {
                assert(p@[0] == '/');
            }
            if is_root {
                assert(p@ =~= seq!['/']);
            }
        }
        let mut pre = slice_chars(p, 0, p.len());
        assert(p@.subrange(0, p@.len() as int) == p@);
        if !is_root {
            pre.push('/');
        }
        let ghost m = self@;
        let mut names: StringMap<()> = StringMap::new();
        let mut i: usize = 0;
        while i < self.entries.len()
            invariant
                i <= m.len(),
                m == self@,
                m.len() == self.entries@.len(),
                pre@ == child_prefix(p@),
                names@ == names_in(m.take(i as int), p@),
            decreases self@.len() - i,
        {
            assert(m.take(i + 1).drop_last() == m.take(i as int));
            assert(m.take(i + 1).last() == m[i as int]);
            assert(m[i as int].0 == self.entries@[i as int].0);
            let k = self.entries.key_at(i);
            if !chars_eq(k, p) && starts_with(k, &pre) {
                let name = first_segment_chars(k, pre.len(), '/');
                if name.len() > 0 {
                    names.insert_chars(name, ());
                }
            }
            i += 1;
        }
        assert(m.take(m.len() as int) == m);
        let mut out: Vec<String> = Vec::new();
        let mut j: usize = 0;
        while j < names.len()
            invariant
                j <= names@.len(),
                names@ == names_in(m, p@),
                out@.len() == j,
                forall|k: int| 0 <= k < j ==> #[trigger] out@[k]@ == names@[k].0,
            decreases names@.len() - j,
        {
            let s = string_from_chars(names.key_at(j));
            out.push(s);
            j += 1;
        }
        assert(out@.map_values(|s: String| s@) =~= names@.map_values(|e: (Seq<char>, ())| e.0));
        Ok(out)
    }

    /// The names directly inside the directory `path`, sorted and without repeats.
    pub fn list_dir(&self, path: &str) -> (r: Result<Vec<String>, BashError>)
        ensures
            match list_spec(self@, path@) {
                Ok(names) => r matches Ok(v) && v@.map_values(|s: String| s@) == names,
                Err(e) => fs_err(r, e),
            },
    {
        let p = to_chars(path);
        self.list_dir_chars(&p)
    }

    fn ensure_parent_dir(&mut self, p: &[char]) -> (r: Result<(), BashError>)
        ensures
            match ensure_parent_spec(old(self)@, p@) {
                Ok(m) => r is Ok && final(self)@ == m,
                Err(e) => fs_err(r, e),
            },
    {
        let par = parent_chars(p);
        if !self.exists_chars(&par) {
            self.create_dir_all_chars(&par)?;
        }
        if !self.is_dir_chars(&par) {
            return Err(fs_error(&par, ": Not a directory"));
        }
        Ok(())
    }

    /// A filesystem seeded with `files` (path to contents), in path order;
    /// the directories that hold them are created as needed.
    pub fn with_files(files: StringMap<String>) -> (r: Result<Self, BashError>)
        ensures
            match seed_from(initial_fs(), string_pairs(files@), 0) {
                Ok(m) => r matches Ok(fs) && fs@ == m,
                Err(e) => fs_err(r, e),
            },
    {
        let mut fs = Self::new();
        let ghost fv = string_pairs(files@);
        let mut i: usize = 0;
        while i < files.len()
            invariant
                i <= files@.len(),
                fv == string_pairs(files@),
                seed_from(initial_fs(), fv, 0) == seed_from(fs@, fv, i as int),
            decreases files@.len() - i,
        {
            let path = files.key_at(i);
            let contents = files.value_at(i);
            assert(fv[i as int] == (path@, contents@));
            fs.ensure_parent_dir(path)?;
            fs.write_chars(path, contents.as_str())?;
            i += 1;
        }
        Ok(fs)
    }

}

}

verus! {

// ─── Laws ───────────────────────────────────────────────────────────────────

/// A successful write stores exactly the contents written, under the
/// normalized path: reading it back gives them.
pub proof fn law_read_after_write(m: FsModel, p: Seq<char>, c: Seq<char>)
    requires
        write_spec(m, p, c) is Ok,
    ensures
        read_spec(write_spec(m, p, c)->Ok_0, normalize(p)) == Ok::<Seq<char>, Seq<char>>(c),
{
    law_lookup_after_insert(m, normalize(p), FsNode::File(c), normalize(p));
}

/// A write changes nothing but the file written.
pub proof fn law_write_keeps_others(m: FsModel, p: Seq<char>, c: Seq<char>, q: Seq<char>)
    requires
        write_spec(m, p, c) is Ok,
        q != normalize(p),
    ensures
        lookup(write_spec(m, p, c)->Ok_0, q) == lookup(m, q),
{
    law_lookup_after_insert(m, normalize(p), FsNode::File(c), q);
}

/// A successful append leaves the file holding what it held (nothing, when it
/// did not exist) followed by the contents appended.
pub proof fn law_append_extends(m: FsModel, p: Seq<char>, c: Seq<char>)
    requires
        append_spec(m, p, c) is Ok,
    ensures
        read_spec(append_spec(m, p, c)->Ok_0, normalize(p)) == Ok::<Seq<char>, Seq<char>>(
            match read_spec(m, normalize(p)) {
                Ok(old) => old + c,
                Err(_) => c,
            },
        ),
{
    let n = normalize(p);
    match lookup(m, n) {
        Some(FsNode::File(e)) => {
            law_lookup_after_insert(m, n, FsNode::File(e + c), n);
        },
        _ => {
            law_lookup_after_insert(m, n, FsNode::File(c), n);
        },
    }
}

pub proof fn lemma_lookup_drop_under(m: FsModel, n: Seq<char>, k: Seq<char>)
    ensures
        lookup(drop_under(m, n), k) == if under(k, n) {
            None
        } else {
            lookup(m, k)
        },
    decreases m.len(),
{
    if m.len() > 0 {
        lemma_lookup_drop_under(m.drop_first(), n, k);
        if !under(m[0].0, n) {
            let t = seq![m[0]] + drop_under(m.drop_first(), n);
            assert(t.drop_first() =~= drop_under(m.drop_first(), n));
        }
    }
}

/// After a successful `remove`, nothing is left at the path or below it.
pub proof fn law_remove_clears(m: FsModel, p: Seq<char>, recursive: bool, k: Seq<char>)
    requires
        remove_spec(m, p, recursive) is Ok,
        under(k, normalize(p)),
    ensures
        lookup(remove_spec(m, p, recursive)->Ok_0, k) is None,
{
    lemma_lookup_drop_under(m, normalize(p), k);
}

/// A successful `remove` keeps everything outside the removed path.
pub proof fn law_remove_keeps_others(m: FsModel, p: Seq<char>, recursive: bool, k: Seq<char>)
    requires
        remove_spec(m, p, recursive) is Ok,
        !under(k, normalize(p)),
    ensures
        lookup(remove_spec(m, p, recursive)->Ok_0, k) == lookup(m, k),
{
    lemma_lookup_drop_under(m, normalize(p), k);
}

proof fn lemma_mkdirs(m: FsModel, st: Seq<Seq<char>>, j: int)
    requires
        0 <= j,
        mkdirs_from(m, st, j).1 is None,
    ensures
        forall|k: Seq<char>| is_dir_in(m, k) ==> is_dir_in(#[trigger] mkdirs_from(m, st, j).0, k),
        forall|i: int| j <= i < st.len() ==> is_dir_in(mkdirs_from(m, st, j).0, #[trigger] abs_path(st.take(i + 1))),
    decreases st.len() - j,
{
    if j < st.len() {
        let cur = abs_path(st.take(j + 1));
        let m1 = sorted_insert(m, cur, FsNode::Dir);
        assert(!is_file_in(m, cur));
        assert(mkdirs_from(m, st, j) == mkdirs_from(m1, st, j + 1));
        lemma_mkdirs(m1, st, j + 1);
        let fin = mkdirs_from(m1, st, j + 1).0;
        assert forall|k: Seq<char>| is_dir_in(m, k) implies is_dir_in(#[trigger] mkdirs_from(m, st, j).0, k) by {
            law_lookup_after_insert(m, cur, FsNode::Dir, k);
            assert(is_dir_in(m1, k));
        }
        law_lookup_after_insert(m, cur, FsNode::Dir, cur);
        assert(is_dir_in(m1, cur));
        assert(is_dir_in(fin, cur));
        assert forall|i: int| j <= i < st.len() implies is_dir_in(mkdirs_from(m, st, j).0, #[trigger] abs_path(st.take(i + 1))) by {
            if i == j {
            } else {
                assert(is_dir_in(fin, abs_path(st.take(i + 1))));
            }
        }
    }
}

/// When `mkdir -p` succeeds, the path is a directory afterwards, and so is
/// every directory that was one before.
pub proof fn law_create_dir_all_makes_dir(m: FsModel, p: Seq<char>)
    requires
        is_dir_in(m, seq!['/']),
        create_all_spec(m, p).1 is None,
    ensures
        is_dir_in(create_all_spec(m, p).0, normalize(p)),
        forall|k: Seq<char>| is_dir_in(m, k) ==> is_dir_in(#[trigger] create_all_spec(m, p).0, k),
{
    let st = path_stack(p);
    lemma_mkdirs(m, st, 0);
    if st.len() > 0 {
        assert(st.take(st.len() as int) == st);
        assert(is_dir_in(create_all_spec(m, p).0, abs_path(st.take(st.len() - 1 + 1))));
    }
}

proof fn lemma_mkdirs_untouched(m: FsModel, st: Seq<Seq<char>>, j: int, q: Seq<char>)
    requires
        0 <= j,
        forall|i: int| j <= i < st.len() ==> q != #[trigger] abs_path(st.take(i + 1)),
    ensures
        lookup(mkdirs_from(m, st, j).0, q) == lookup(m, q),
    decreases st.len() - j,
{
    if j < st.len() {
        let cur = abs_path(st.take(j + 1));
        if !is_file_in(m, cur) {
            let m1 = sorted_insert(m, cur, FsNode::Dir);
            law_lookup_after_insert(m, cur, FsNode::Dir, q);
            lemma_mkdirs_untouched(m1, st, j + 1, q);
        }
    }
}

proof fn lemma_mkdirs_sorted(m: FsModel, st: Seq<Seq<char>>, j: int)
    requires
        strictly_sorted(m),
    ensures
        strictly_sorted(mkdirs_from(m, st, j).0),
    decreases st.len() - j,
{
    if 0 <= j < st.len() {
        let cur = abs_path(st.take(j + 1));
        if !is_file_in(m, cur) {
            law_insert_keeps_sorted(m, cur, FsNode::Dir);
            lemma_mkdirs_sorted(sorted_insert(m, cur, FsNode::Dir), st, j + 1);
        }
    }
}

proof fn lemma_mkdirs_stable(m: FsModel, st: Seq<Seq<char>>, j: int)
    requires
        0 <= j,
        strictly_sorted(m),
        forall|i: int| j <= i < st.len() ==> is_dir_in(m, #[trigger] abs_path(st.take(i + 1))),
    ensures
        mkdirs_from(m, st, j) == (m, Option::<Seq<char>>::None),
    decreases st.len() - j,
{
    if j < st.len() {
        let cur = abs_path(st.take(j + 1));
        assert(is_dir_in(m, cur));
        lemma_insert_present(m, cur, FsNode::Dir);
        lemma_mkdirs_stable(m, st, j + 1);
    }
}

/// `mkdir -p` touches nothing but the path and the directories above it: every
/// other path holds what it held before, whether or not the call succeeded.
pub proof fn law_create_dir_all_untouched(m: FsModel, p: Seq<char>, q: Seq<char>)
    requires
        forall|i: int| 0 <= i < path_stack(p).len() ==> q != #[trigger] abs_path(path_stack(p).take(i + 1)),
    ensures
        lookup(create_all_spec(m, p).0, q) == lookup(m, q),
{
    lemma_mkdirs_untouched(m, path_stack(p), 0, q);
}

/// After a successful `mkdir -p`, the path and every directory above it are
/// directories, and a second call succeeds and changes nothing.
pub proof fn law_create_dir_all_idempotent(m: FsModel, p: Seq<char>)
    requires
        strictly_sorted(m),
        create_all_spec(m, p).1 is None,
    ensures
        forall|i: int| 0 <= i < path_stack(p).len() ==> is_dir_in(
            create_all_spec(m, p).0,
            #[trigger] abs_path(path_stack(p).take(i + 1)),
        ),
        create_all_spec(create_all_spec(m, p).0, p) == (create_all_spec(m, p).0, Option::<Seq<char>>::None),
{
    let st = path_stack(p);
    lemma_mkdirs(m, st, 0);
    lemma_mkdirs_sorted(m, st, 0);
    lemma_mkdirs_stable(create_all_spec(m, p).0, st, 0);
}

proof fn lemma_seed(m: FsModel, files: Seq<(Seq<char>, Seq<char>)>, k: int)
    requires
        0 <= k <= files.len(),
        forall|i: int| k <= i < files.len() ==> is_dir_in(m, parent_of(#[trigger] files[i].0)),
        forall|i: int| k <= i < files.len() ==> !is_dir_in(m, normalize(#[trigger] files[i].0)),
        forall|i: int, j: int|
            k <= i < j < files.len() ==> normalize(#[trigger] files[i].0) != normalize(#[trigger] files[j].0),
    ensures
        seed_from(m, files, k) is Ok,
        forall|i: int|
            k <= i < files.len() ==> read_spec(seed_from(m, files, k)->Ok_0, normalize(#[trigger] files[i].0))
                == Ok::<Seq<char>, Seq<char>>(files[i].1),
        forall|q: Seq<char>|
            (forall|i: int| k <= i < files.len() ==> q != normalize(#[trigger] files[i].0)) ==> lookup(
                #[trigger] seed_from(m, files, k)->Ok_0,
                q,
            ) == lookup(m, q),
    decreases files.len() - k,
{
    if k < files.len() {
        let p = files[k].0;
        let n = normalize(p);
        let par = parent_of(p);
        assert(is_dir_in(m, par));
        assert(ensure_parent_spec(m, p) == Ok::<FsModel, Seq<char>>(m));
        let m1 = sorted_insert(m, n, FsNode::File(files[k].1));
        assert(write_spec(m, p, files[k].1) == Ok::<FsModel, Seq<char>>(m1));
        assert forall|i: int| k + 1 <= i < files.len() implies is_dir_in(m1, parent_of(#[trigger] files[i].0)) by {
            law_lookup_after_insert(m, n, FsNode::File(files[k].1), parent_of(files[i].0));
        }
        assert forall|i: int| k + 1 <= i < files.len() implies !is_dir_in(m1, normalize(#[trigger] files[i].0)) by {
            law_lookup_after_insert(m, n, FsNode::File(files[k].1), normalize(files[i].0));
        }
        lemma_seed(m1, files, k + 1);
        let r = seed_from(m1, files, k + 1)->Ok_0;
        assert(seed_from(m, files, k) == seed_from(m1, files, k + 1));
        law_lookup_after_insert(m, n, FsNode::File(files[k].1), n);
        assert forall|i: int| k + 1 <= i < files.len() implies n != normalize(#[trigger] files[i].0) by {}
        assert(lookup(r, n) == lookup(m1, n));
        assert forall|q: Seq<char>|
            (forall|i: int| k <= i < files.len() ==> q != normalize(#[trigger] files[i].0)) implies lookup(
                #[trigger] seed_from(m, files, k)->Ok_0,
                q,
            ) == lookup(m, q) by {
            assert(q != normalize(files[k].0));
            assert(forall|i: int| k + 1 <= i < files.len() ==> q != normalize(#[trigger] files[i].0));
            law_lookup_after_insert(m, n, FsNode::File(files[k].1), q);
        }
    }
}

/// Seeding files whose directories exist, none of them a directory and no two
/// naming the same path, succeeds; each file then reads back with the contents
/// it was given, and every other path holds what it held before.
pub proof fn law_seeded_files_read_back(m: FsModel, files: Seq<(Seq<char>, Seq<char>)>)
    requires
        forall|i: int| 0 <= i < files.len() ==> is_dir_in(m, parent_of(#[trigger] files[i].0)),
        forall|i: int| 0 <= i < files.len() ==> !is_dir_in(m, normalize(#[trigger] files[i].0)),
        forall|i: int, j: int|
            0 <= i < j < files.len() ==> normalize(#[trigger] files[i].0) != normalize(#[trigger] files[j].0),
    ensures
        seed_from(m, files, 0) is Ok,
        forall|i: int|
            0 <= i < files.len() ==> read_spec(seed_from(m, files, 0)->Ok_0, normalize(#[trigger] files[i].0))
                == Ok::<Seq<char>, Seq<char>>(files[i].1),
        forall|q: Seq<char>|
            (forall|i: int| 0 <= i < files.len() ==> q != normalize(#[trigger] files[i].0)) ==> lookup(
                #[trigger] seed_from(m, files, 0)->Ok_0,
                q,
            ) == lookup(m, q),
{
    lemma_seed(m, files, 0);
}

proof fn lemma_names_sorted(m: FsModel, p: Seq<char>)
    ensures
        strictly_sorted(names_in(m, p)),
    decreases m.len(),
{
    if m.len() > 0 {
        lemma_names_sorted(m.drop_last(), p);
        let r = names_in(m.drop_last(), p);
        let k = m.last().0;
        let name = first_segment(k.skip(child_prefix(p).len() as int), '/');
        law_insert_keeps_sorted(r, name, ());
    }
}

/// `list_dir` gives names in increasing order, none twice.
pub proof fn law_list_sorted(m: FsModel, p: Seq<char>)
    requires
        list_spec(m, p) is Ok,
    ensures
        forall|i: int, j: int|
            0 <= i < j < (list_spec(m, p)->Ok_0).len() ==> key_lt(
                #[trigger] (list_spec(m, p)->Ok_0)[i],
                #[trigger] (list_spec(m, p)->Ok_0)[j],
            ),
{
    lemma_names_sorted(m, p);
    let s = names_in(m, p);
    let names = list_spec(m, p)->Ok_0;
    assert forall|i: int, j: int| 0 <= i < j < names.len() implies key_lt(#[trigger] names[i], #[trigger] names[j]) by {
        assert(names[i] == s[i].0 && names[j] == s[j].0);
    }
}

/// The name under `p` that path `k` lies through.
pub open spec fn child_name(k: Seq<char>, p: Seq<char>) -> Seq<char> {
    first_segment(k.skip(child_prefix(p).len() as int), '/')
}

/// Path `k` lies below directory `p`.
pub open spec fn lies_below(k: Seq<char>, p: Seq<char>) -> bool {
    k != p && is_prefix(child_prefix(p), k) && child_name(k, p).len() > 0
}

proof fn lemma_names_in_keys(m: FsModel, p: Seq<char>, x: Seq<char>)
    ensures
        has_key(names_in(m, p), x) <==> exists|i: int|
            0 <= i < m.len() && lies_below(#[trigger] m[i].0, p) && child_name(m[i].0, p) == x,
    decreases m.len(),
{
    if m.len() == 0 {
    } else {
        let d = m.drop_last();
        lemma_names_in_keys(d, p, x);
        let r = names_in(d, p);
        let k = m.last().0;
        if exists|i: int| 0 <= i < d.len() && lies_below(#[trigger] d[i].0, p) && child_name(d[i].0, p) == x {
            let i = choose|i: int| 0 <= i < d.len() && lies_below(#[trigger] d[i].0, p) && child_name(d[i].0, p) == x;
            assert(m[i] == d[i]);
        }
        assert forall|i: int| 0 <= i < m.len() - 1 implies #[trigger] m[i] == d[i] by {}
        if lies_below(k, p) {
            let name = child_name(k, p);
            let t = sorted_insert(r, name, ());
            law_lookup_after_insert(r, name, (), x);
            if lookup(t, x) is Some {
                lemma_lookup_present(t, x);
            } else {
                lemma_missing_key(t, x);
            }
            if lookup(r, x) is Some {
                lemma_lookup_present(r, x);
            } else {
                lemma_missing_key(r, x);
            }
            assert(m[m.len() - 1].0 == k);
        } else {
            assert(m[m.len() - 1].0 == k);
        }
    }
}

proof fn lemma_missing_key(s: Seq<(Seq<char>, ())>, k: Seq<char>)
    requires
        lookup(s, k) is None,
    ensures
        !has_key(s, k),
    decreases s.len(),
{
    if s.len() > 0 {
        lemma_missing_key(s.drop_first(), k);
        assert forall|i: int| 0 <= i < s.len() implies #[trigger] s[i].0 != k by {
            if i > 0 {
                assert(s[i] == s.drop_first()[i - 1]);
            }
        }
    }
}

/// The names `list_dir` gives for a directory are exactly the names through
/// which the paths below it lie.
pub proof fn law_list_names(m: FsModel, p: Seq<char>, x: Seq<char>)
    requires
        is_dir_in(m, p),
    ensures
        list_spec(m, p) is Ok,
        (list_spec(m, p)->Ok_0).contains(x) <==> exists|i: int|
            0 <= i < m.len() && lies_below(#[trigger] m[i].0, p) && child_name(m[i].0, p) == x,
{
    let s = names_in(m, p);
    let names = list_spec(m, p)->Ok_0;
    lemma_names_in_keys(m, p, x);
    if names.contains(x) {
        let j = choose|j: int| 0 <= j < names.len() && names[j] == x;
        assert(s[j].0 == x);
    }
    if has_key(s, x) {
        let j = choose|j: int| 0 <= j < s.len() && #[trigger] s[j].0 == x;
        assert(names[j] == x);
    }
}

/// The root stays a directory: every operation that changes the filesystem
/// keeps `/` a directory.
pub proof fn law_root_stays_dir(m: FsModel, p: Seq<char>, c: Seq<char>, recursive: bool)
    requires
        is_dir_in(m, seq!['/']),
    ensures
        write_spec(m, p, c) is Ok ==> is_dir_in(write_spec(m, p, c)->Ok_0, seq!['/']),
        append_spec(m, p, c) is Ok ==> is_dir_in(append_spec(m, p, c)->Ok_0, seq!['/']),
        create_dir_spec(m, p) is Ok ==> is_dir_in(create_dir_spec(m, p)->Ok_0, seq!['/']),
        create_all_spec(m, p).1 is None ==> is_dir_in(create_all_spec(m, p).0, seq!['/']),
        remove_spec(m, p, recursive) is Ok ==> is_dir_in(remove_spec(m, p, recursive)->Ok_0, seq!['/']),
{
    let root = seq!['/'];
    let n = normalize(p);
    law_lookup_after_insert(m, n, FsNode::File(c), root);
    match lookup(m, n) {
        Some(FsNode::File(e)) => {
            law_lookup_after_insert(m, n, FsNode::File(e + c), root);
        },
        _ => {},
    }
    law_lookup_after_insert(m, n, FsNode::Dir, root);
    if create_all_spec(m, p).1 is None {
        law_create_dir_all_makes_dir(m, p);
    }
    if n != root {
        lemma_lookup_drop_under(m, n, root);
        assert(!is_prefix(n.push('/'), root)) by {
            if n.len() == 0 {
                assert(n.push('/') =~= root);
            }
        }
    }
}

}

verus! {

/// A segment that normalization keeps: not empty, `.` or `..`, and without `/`.
pub open spec fn clean_seg(s: Seq<char>) -> bool {
    s.len() > 0 && s != seq!['.'] && s != seq!['.', '.'] && !s.contains('/')
}

proof fn lemma_resolve_clean(segs: Seq<Seq<char>>)
    requires
        forall|i: int| 0 <= i < segs.len() ==> !(#[trigger] segs[i]).contains('/'),
    ensures
        forall|i: int| 0 <= i < resolve_segments(segs).len() ==> clean_seg(#[trigger] resolve_segments(segs)[i]),
    decreases segs.len(),
{
    if segs.len() > 0 {
        let init = segs.drop_last();
        assert forall|i: int| 0 <= i < init.len() implies !(#[trigger] init[i]).contains('/') by {
            assert(init[i] == segs[i]);
        }
        lemma_resolve_clean(init);
        assert(segs.last() == segs[segs.len() - 1]);
        let r = resolve_segments(init);
        let t = resolve_segments(segs);
        assert forall|i: int| 0 <= i < t.len() implies clean_seg(#[trigger] t[i]) by {
            if i < r.len() {
                assert(t[i] == r[i]);
            }
        }
    }
}

proof fn lemma_resolve_of_clean(st: Seq<Seq<char>>)
    requires
        forall|i: int| 0 <= i < st.len() ==> clean_seg(#[trigger] st[i]),
    ensures
        resolve_segments(seq![Seq::<char>::empty()] + st) == st,
    decreases st.len(),
{
    let s = seq![Seq::<char>::empty()] + st;
    if st.len() == 0 {
        assert(s.drop_last() =~= Seq::<Seq<char>>::empty());
        assert(s.last() == Seq::<char>::empty());
        assert(st =~= Seq::<Seq<char>>::empty());
        assert(resolve_segments(Seq::<Seq<char>>::empty()) == Seq::<Seq<char>>::empty());
        assert(resolve_segments(s) == path_step(resolve_segments(s.drop_last()), s.last()));
    } else {
        let init = st.drop_last();
        assert forall|i: int| 0 <= i < init.len() implies clean_seg(#[trigger] init[i]) by {
            assert(init[i] == st[i]);
        }
        lemma_resolve_of_clean(init);
        assert(s.drop_last() =~= seq![Seq::<char>::empty()] + init);
        assert(s.last() == st.last());
        assert(clean_seg(st[st.len() - 1]));
        assert(init.push(st.last()) =~= st);
    }
}

/// A normalized path is `/` followed by its segments joined with `/`, each
/// segment non-empty, not `.` or `..`, and without `/`; it leads through the
/// same directory names as the path it came from.
pub proof fn law_normalized_path_is_clean(p: Seq<char>)
    ensures
        normalize(p) == abs_path(path_stack(p)),
        normalize(p).len() > 0 && normalize(p)[0] == '/',
        forall|i: int| 0 <= i < path_stack(p).len() ==> clean_seg(#[trigger] path_stack(p)[i]),
        path_stack(normalize(p)) == path_stack(p),
{
    lemma_stack_clean(p);
    lemma_stack_of_abs(path_stack(p));
}

/// The stack of a path is made of clean segments.
proof fn lemma_stack_clean(p: Seq<char>)
    ensures
        forall|i: int| 0 <= i < path_stack(p).len() ==> clean_seg(#[trigger] path_stack(p)[i]),
{
    lemma_split_pieces(p, '/');
    lemma_resolve_clean(split_on(p, '/'));
}

/// The absolute path through clean segments leads back through them.
proof fn lemma_stack_of_abs(st: Seq<Seq<char>>)
    requires
        forall|i: int| 0 <= i < st.len() ==> clean_seg(#[trigger] st[i]),
    ensures
        path_stack(abs_path(st)) == st,
{
    let e = Seq::<char>::empty();
    if st.len() == 0 {
        assert(seq!['/'] =~= e + seq!['/'] + e);
        lemma_split_concat(e, e, '/');
        assert(split_on(e, '/') =~= seq![e]);
        let segs = split_on(seq!['/'], '/');
        assert(segs =~= seq![e, e]);
        assert(segs.drop_last() =~= seq![e]);
        assert(seq![e].drop_last() =~= Seq::<Seq<char>>::empty());
        assert(resolve_segments(Seq::<Seq<char>>::empty()) == Seq::<Seq<char>>::empty());
        assert(resolve_segments(seq![e]) == path_step(resolve_segments(seq![e].drop_last()), e));
        assert(resolve_segments(seq![e]) == Seq::<Seq<char>>::empty());
        assert(resolve_segments(segs) == path_step(resolve_segments(seq![e]), e));
        assert(path_stack(seq!['/']) =~= st);
    } else {
        let j = join(st, seq!['/']);
        assert(seq!['/'] + j =~= e + seq!['/'] + j);
        lemma_split_concat(e, j, '/');
        assert(split_on(e, '/') =~= seq![e]);
        assert forall|i: int| 0 <= i < st.len() implies !(#[trigger] st[i]).contains('/') by {
            assert(clean_seg(st[i]));
        }
        lemma_split_join(st, '/');
        lemma_resolve_of_clean(st);
    }
}

/// Normalizing is idempotent, and a normalized path is absolute.
pub proof fn law_normalize_idempotent(p: Seq<char>)
    ensures
        normalize(normalize(p)) == normalize(p),
        normalize(p).len() > 0,
        normalize(p)[0] == '/',
{
    lemma_stack_clean(p);
    lemma_stack_of_abs(path_stack(p));
}

/// The stack of `cwd/x`, for a segment `x` without `/`, is one step after `cwd`'s.
pub proof fn lemma_step_after(cwd: Seq<char>, x: Seq<char>)
    requires
        !x.contains('/'),
    ensures
        path_stack(cwd + seq!['/'] + x) == path_step(path_stack(cwd), x),
{
    lemma_split_concat(cwd, x, '/');
    lemma_split_without_sep(x, '/');
    let segs = split_on(cwd, '/') + seq![x];
    assert(segs.drop_last() =~= split_on(cwd, '/'));
    assert(segs.last() == x);
}

/// The parent of a path that is not `/`, followed by `/` and the path's last
/// segment, is the path again.
pub proof fn law_parent_and_last_segment(p: Seq<char>)
    requires
        path_stack(p).len() > 0,
    ensures
        path_stack(parent_of(p)) == path_stack(p).drop_last(),
        clean_seg(path_stack(p).last()),
        normalize(parent_of(p) + seq!['/'] + path_stack(p).last()) == normalize(p),
{
    let st = path_stack(p);
    let d = st.drop_last();
    lemma_stack_clean(p);
    assert forall|i: int| 0 <= i < d.len() implies clean_seg(#[trigger] d[i]) by {
        assert(d[i] == st[i]);
    }
    lemma_stack_of_abs(d);
    let x = st.last();
    assert(clean_seg(st[st.len() - 1]));
    lemma_step_after(parent_of(p), x);
    assert(d.push(x) =~= st);
}

/// A path and its normalized form have the same parent; the parent is normalized.
pub proof fn law_parent_of_normalized(p: Seq<char>)
    ensures
        parent_of(normalize(p)) == parent_of(p),
        normalize(parent_of(p)) == parent_of(p),
{
    let st = path_stack(p);
    lemma_stack_clean(p);
    lemma_stack_of_abs(st);
    if st.len() > 0 {
        let d = st.drop_last();
        assert forall|i: int| 0 <= i < d.len() implies clean_seg(#[trigger] d[i]) by {
            assert(d[i] == st[i]);
        }
        lemma_stack_of_abs(d);
    }
}

}

verus! {

// ─── The filesystem is a tree ───────────────────────────────────────────────

/// Every path held is normalized, `/` is a directory, and every other path
/// lies in a directory.
#[verifier::opaque]
pub open spec fn fs_tree(m: FsModel) -> bool {
    &&& is_dir_in(m, seq!['/'])
    &&& forall|k: Seq<char>|
        #[trigger] lookup(m, k) is Some ==> normalize(k) == k && (k != seq!['/'] ==> is_dir_in(m, parent_of(k)))
}

/// The absolute path through clean segments is normalized, is not `/` unless
/// there are none, and its parent leads through all but the last.
proof fn lemma_abs_clean(st: Seq<Seq<char>>)
    requires
        forall|i: int| 0 <= i < st.len() ==> clean_seg(#[trigger] st[i]),
    ensures
        normalize(abs_path(st)) == abs_path(st),
        st.len() > 0 ==> abs_path(st) != seq!['/'],
        st.len() > 0 ==> parent_of(abs_path(st)) == abs_path(st.drop_last()),
{
    lemma_stack_of_abs(st);
    if st.len() > 0 {
        lemma_stack_of_abs(Seq::<Seq<char>>::empty());
        assert(abs_path(Seq::<Seq<char>>::empty()) == seq!['/']);
    }
}

/// In a tree, every directory above an existing path on the way is a directory.
proof fn lemma_ancestors_dirs(m: FsModel, st: Seq<Seq<char>>, i: int)
    requires
        fs_tree(m),
        forall|j: int| 0 <= j < st.len() ==> clean_seg(#[trigger] st[j]),
        0 <= i < st.len(),
        lookup(m, abs_path(st.take(i + 1))) is Some,
    ensures
        forall|j: int| 0 <= j < i ==> is_dir_in(m, #[trigger] abs_path(st.take(j + 1))),
    decreases i,
{
    reveal(fs_tree);
    if i > 0 {
        let pre = st.take(i + 1);
        assert forall|j: int| 0 <= j < pre.len() implies clean_seg(#[trigger] pre[j]) by {
            assert(pre[j] == st[j]);
        }
        lemma_abs_clean(pre);
        assert(pre.drop_last() =~= st.take(i));
        assert(is_dir_in(m, abs_path(st.take(i))));
        assert(st.take(i) == st.take((i - 1) + 1));
        lemma_ancestors_dirs(m, st, i - 1);
    }
}

proof fn lemma_mkdirs_blocked(m: FsModel, st: Seq<Seq<char>>, j: int, k: int)
    requires
        strictly_sorted(m),
        0 <= j <= k < st.len(),
        forall|i: int| j <= i < k ==> is_dir_in(m, #[trigger] abs_path(st.take(i + 1))),
        is_file_in(m, abs_path(st.take(k + 1))),
    ensures
        mkdirs_from(m, st, j) == (m, Some(abs_path(st.take(k + 1)) + ": Not a directory"@)),
    decreases k - j,
{
    if j < k {
        let cur = abs_path(st.take(j + 1));
        assert(is_dir_in(m, cur));
        lemma_insert_present(m, cur, FsNode::Dir);
        lemma_mkdirs_blocked(m, st, j + 1, k);
    }
}

/// `mkdir -p` succeeds whenever no path on the way to the directory is a file.
pub proof fn law_create_dir_all_succeeds(m: FsModel, p: Seq<char>)
    requires
        forall|i: int| 0 <= i < path_stack(p).len() ==> !is_file_in(m, #[trigger] abs_path(path_stack(p).take(i + 1))),
    ensures
        create_all_spec(m, p).1 is None,
{
    lemma_mkdirs_ok(m, path_stack(p), 0);
}

/// In a filesystem that is a tree, `mkdir -p` on a path through a file fails
/// naming that file, which is the first file on the way, and changes nothing.
pub proof fn law_create_dir_all_blocked(m: FsModel, p: Seq<char>, k: int)
    requires
        fs_tree(m),
        strictly_sorted(m),
        0 <= k < path_stack(p).len(),
        is_file_in(m, abs_path(path_stack(p).take(k + 1))),
    ensures
        forall|i: int| 0 <= i < k ==> is_dir_in(m, #[trigger] abs_path(path_stack(p).take(i + 1))),
        create_all_spec(m, p) == (m, Some(abs_path(path_stack(p).take(k + 1)) + ": Not a directory"@)),
{
    let st = path_stack(p);
    lemma_stack_clean(p);
    lemma_ancestors_dirs(m, st, k);
    lemma_mkdirs_blocked(m, st, 0, k);
}

/// In a tree, nothing lies below a file.
proof fn lemma_nothing_below_file(m: FsModel, n: Seq<char>, k: Seq<char>)
    requires
        fs_tree(m),
        is_file_in(m, n),
        lookup(m, k) is Some,
    ensures
        !is_prefix(n.push('/'), k),
    decreases k.len(),
{
    reveal(fs_tree);
    let np = n.push('/');
    if is_prefix(np, k) {
        assert(normalize(n) == n);
        let stn = path_stack(n);
        assert(n.len() > 0 && n[0] == '/') by {
            if stn.len() == 0 {
            } else {
                assert(n == seq!['/'] + join(stn, seq!['/']));
            }
        }
        let root = seq!['/'];
        assert(k != root) by {
            if k == root {
                assert(np.len() >= 2);
            }
        }
        assert(normalize(k) == k);
        let par = parent_of(k);
        assert(is_dir_in(m, par));
        let st = path_stack(k);
        lemma_stack_clean(k);
        if st.len() == 0 {
            assert(k == root);
        } else if st.len() == 1 {
            assert(st.drop_last() =~= Seq::<Seq<char>>::empty());
            assert(k == seq!['/'] + st[0]);
            let i = n.len() as int;
            assert(k[i] == np[i]);
            assert(np[i] == '/');
            assert(1 <= i < k.len());
            assert(k[i] == st[0][i - 1]);
            assert(st[0].contains('/'));
        } else {
            let d = st.drop_last();
            assert(par == seq!['/'] + join(d, seq!['/']));
            assert(k == seq!['/'] + join(st, seq!['/']));
            assert(join(st, seq!['/']) == join(d, seq!['/']) + seq!['/'] + st.last());
            assert(k =~= par + (seq!['/'] + st.last()));
            let i = n.len() as int;
            assert(k[i] == '/') by {
                assert(k[i] == np[i]);
            }
            if i > par.len() {
                assert(k[i] == st.last()[i - par.len() - 1]);
                assert(st.last().contains('/'));
            } else if i == par.len() {
                assert(n =~= k.take(i));
                assert(par =~= k.take(i));
            } else {
                assert(is_prefix(np, par)) by {
                    assert(par.take(np.len() as int) =~= k.take(np.len() as int));
                }
                lemma_nothing_below_file(m, n, par);
            }
        }
    }
}

/// In a tree, a remove that is not recursive removes a file or an empty
/// directory: nothing lay below the removed path.
pub proof fn law_remove_not_recursive(m: FsModel, p: Seq<char>)
    requires
        fs_tree(m),
        remove_spec(m, p, false) is Ok,
    ensures
        !has_children_in(m, normalize(p)),
{
    let n = normalize(p);
    if is_file_in(m, n) {
        if has_children_in(m, n) {
            let i = choose|i: int| 0 <= i < m.len() && is_prefix(n.push('/'), #[trigger] m[i].0);
            let k = m[i].0;
            if lookup(m, k) is None {
                lemma_missing_key_fs(m, k);
            }
            lemma_nothing_below_file(m, n, k);
        }
    }
}

proof fn lemma_missing_key_fs(s: FsModel, k: Seq<char>)
    requires
        lookup(s, k) is None,
    ensures
        !has_key(s, k),
    decreases s.len(),
{
    if s.len() > 0 {
        lemma_missing_key_fs(s.drop_first(), k);
        assert forall|i: int| 0 <= i < s.len() implies #[trigger] s[i].0 != k by {
            if i > 0 {
                assert(s[i] == s.drop_first()[i - 1]);
            }
        }
    }
}

proof fn lemma_store_tree(m: FsModel, n: Seq<char>, par: Seq<char>, c: Seq<char>)
    requires
        fs_tree(m),
        normalize(n) == n,
        par == parent_of(n),
        store_spec(m, n, par, c) is Ok,
    ensures
        fs_tree(store_spec(m, n, par, c)->Ok_0),
{
    reveal(fs_tree);
    let m2 = sorted_insert(m, n, FsNode::File(c));
    let root = seq!['/'];
    assert(n != root);
    assert(par != n);
    law_lookup_after_insert(m, n, FsNode::File(c), root);
    law_lookup_after_insert(m, n, FsNode::File(c), par);
    assert forall|k: Seq<char>| #[trigger] lookup(m2, k) is Some implies normalize(k) == k && (k != root
        ==> is_dir_in(m2, parent_of(k))) by {
        law_lookup_after_insert(m, n, FsNode::File(c), k);
        if k != n {
            assert(lookup(m, k) is Some);
            if k != root {
                law_lookup_after_insert(m, n, FsNode::File(c), parent_of(k));
            }
        }
    }
}

proof fn lemma_mkdirs_tree(m: FsModel, st: Seq<Seq<char>>, j: int)
    requires
        fs_tree(m),
        0 <= j <= st.len(),
        forall|i: int| 0 <= i < st.len() ==> clean_seg(#[trigger] st[i]),
        j > 0 ==> is_dir_in(m, abs_path(st.take(j))),
    ensures
        fs_tree(mkdirs_from(m, st, j).0),
    decreases st.len() - j,
{
    reveal(fs_tree);
    if j < st.len() {
        let pre = st.take(j + 1);
        let cur = abs_path(pre);
        if !is_file_in(m, cur) {
            assert forall|i: int| 0 <= i < pre.len() implies clean_seg(#[trigger] pre[i]) by {
                assert(pre[i] == st[i]);
            }
            lemma_abs_clean(pre);
            assert(pre.drop_last() =~= st.take(j));
            let m1 = sorted_insert(m, cur, FsNode::Dir);
            let root = seq!['/'];
            let par = abs_path(st.take(j));
            if j == 0 {
                assert(st.take(0) =~= Seq::<Seq<char>>::empty());
            }
            assert(is_dir_in(m, par));
            law_lookup_after_insert(m, cur, FsNode::Dir, root);
            law_lookup_after_insert(m, cur, FsNode::Dir, par);
            law_lookup_after_insert(m, cur, FsNode::Dir, cur);
            assert forall|k: Seq<char>| #[trigger] lookup(m1, k) is Some implies normalize(k) == k && (k
                != root ==> is_dir_in(m1, parent_of(k))) by {
                law_lookup_after_insert(m, cur, FsNode::Dir, k);
                if k != cur {
                    assert(lookup(m, k) is Some);
                    if k != root {
                        law_lookup_after_insert(m, cur, FsNode::Dir, parent_of(k));
                    }
                }
            }
            lemma_mkdirs_tree(m1, st, j + 1);
        }
    }
}

/// Below `n` (not `/`): a path whose parent is at or below `n` is itself below `n`.
proof fn lemma_under_parent(k: Seq<char>, n: Seq<char>)
    requires
        normalize(k) == k,
        k != seq!['/'],
        n != seq!['/'],
        n.len() > 0,
        under(parent_of(k), n),
    ensures
        under(k, n),
{
    let st = path_stack(k);
    lemma_stack_clean(k);
    if st.len() == 0 {
        assert(normalize(k) == seq!['/']);
    } else if st.len() == 1 {
        assert(st.drop_last() =~= Seq::<Seq<char>>::empty());
        assert(parent_of(k) == seq!['/']);
        assert(n.push('/').len() >= 2);
    } else {
        let par = parent_of(k);
        let d = st.drop_last();
        assert(par == seq!['/'] + join(d, seq!['/']));
        assert(k == seq!['/'] + join(st, seq!['/']));
        assert(join(st, seq!['/']) == join(d, seq!['/']) + seq!['/'] + st.last());
        assert(k =~= par + (seq!['/'] + st.last()));
        let np = n.push('/');
        if par == n {
            assert(k.take(np.len() as int) =~= np);
        } else {
            assert(is_prefix(np, par));
            assert(k.take(np.len() as int) =~= par.take(np.len() as int));
        }
    }
}

/// Every operation that changes the filesystem keeps it a tree.
pub proof fn law_operations_keep_tree(m: FsModel, p: Seq<char>, c: Seq<char>, recursive: bool)
    requires
        fs_tree(m),
    ensures
        write_spec(m, p, c) is Ok ==> fs_tree(write_spec(m, p, c)->Ok_0),
        append_spec(m, p, c) is Ok ==> fs_tree(append_spec(m, p, c)->Ok_0),
        create_dir_spec(m, p) is Ok ==> fs_tree(create_dir_spec(m, p)->Ok_0),
        fs_tree(create_all_spec(m, p).0),
        remove_spec(m, p, recursive) is Ok ==> fs_tree(remove_spec(m, p, recursive)->Ok_0),
{
    reveal(fs_tree);
    let n = normalize(p);
    let par = parent_of(p);
    let root = seq!['/'];
    law_normalize_idempotent(p);
    law_parent_of_normalized(p);
    if write_spec(m, p, c) is Ok {
        lemma_store_tree(m, n, par, c);
    }
    if append_spec(m, p, c) is Ok {
        match lookup(m, n) {
            Some(FsNode::File(e)) => lemma_store_tree(m, n, par, e + c),
            _ => lemma_store_tree(m, n, par, c),
        }
    }
    if create_dir_spec(m, p) is Ok {
        let m2 = sorted_insert(m, n, FsNode::Dir);
        law_lookup_after_insert(m, n, FsNode::Dir, root);
        law_lookup_after_insert(m, n, FsNode::Dir, par);
        assert forall|k: Seq<char>| #[trigger] lookup(m2, k) is Some implies normalize(k) == k && (k != root
            ==> is_dir_in(m2, parent_of(k))) by {
            law_lookup_after_insert(m, n, FsNode::Dir, k);
            if k != n {
                assert(lookup(m, k) is Some);
                if k != root {
                    law_lookup_after_insert(m, n, FsNode::Dir, parent_of(k));
                }
            }
        }
    }
    lemma_stack_clean(p);
    lemma_mkdirs_tree(m, path_stack(p), 0);
    if remove_spec(m, p, recursive) is Ok {
        let m2 = drop_under(m, n);
        law_root_stays_dir(m, p, c, recursive);
        assert forall|k: Seq<char>| #[trigger] lookup(m2, k) is Some implies normalize(k) == k && (k != root
            ==> is_dir_in(m2, parent_of(k))) by {
            lemma_lookup_drop_under(m, n, k);
            assert(!under(k, n) && lookup(m, k) is Some);
            if k != root {
                let q = parent_of(k);
                lemma_lookup_drop_under(m, n, q);
                if under(q, n) {
                    lemma_under_parent(k, n);
                }
            }
        }
    }
}

}

verus! {

proof fn lemma_single_segment(x: Seq<char>)
    requires
        x.len() > 0,
        x != seq!['.'],
        x != seq!['.', '.'],
        forall|i: int| 0 <= i < x.len() ==> x[i] != '/',
    ensures
        clean_seg(x),
        abs_path(seq![x]) == seq!['/'] + x,
{
    assert(!x.contains('/'));
    assert(join(seq![x], seq!['/']) == x);
}

/// A new filesystem is a tree.
pub proof fn law_initial_fs_is_tree()
    ensures
        fs_tree(initial_fs()),
{
    reveal(fs_tree);
    reveal_strlit("/");
    reveal_strlit("/tmp");
    reveal_strlit("/home");
    reveal_strlit("/home/user");
    let root = seq!['/'];
    let tmp = seq!['t', 'm', 'p'];
    let home = seq!['h', 'o', 'm', 'e'];
    let user = seq!['u', 's', 'e', 'r'];
    lemma_single_segment(tmp);
    lemma_single_segment(home);
    lemma_single_segment(user);
    let st_tmp = seq![tmp];
    let st_home = seq![home];
    let st_user = seq![home, user];
    assert forall|i: int| 0 <= i < st_user.len() implies clean_seg(#[trigger] st_user[i]) by {}
    lemma_abs_clean(st_tmp);
    lemma_abs_clean(st_home);
    lemma_abs_clean(st_user);
    lemma_abs_clean(Seq::<Seq<char>>::empty());
    assert(abs_path(Seq::<Seq<char>>::empty()) == root);
    assert(st_tmp.drop_last() =~= Seq::<Seq<char>>::empty());
    assert(st_home.drop_last() =~= Seq::<Seq<char>>::empty());
    assert(st_user.drop_last() =~= st_home);
    assert(join(st_user, seq!['/']) == join(st_home, seq!['/']) + seq!['/'] + user);
    assert("/tmp"@ =~= abs_path(st_tmp));
    assert("/home"@ =~= abs_path(st_home));
    assert("/home/user"@ =~= abs_path(st_user));
    assert("/"@ =~= root);
    let m0 = Seq::<(Seq<char>, FsNode)>::empty();
    let m1 = sorted_insert(m0, "/"@, FsNode::Dir);
    let m2 = sorted_insert(m1, "/tmp"@, FsNode::Dir);
    let m3 = sorted_insert(m2, "/home"@, FsNode::Dir);
    let m4 = sorted_insert(m3, "/home/user"@, FsNode::Dir);
    assert forall|k: Seq<char>| #[trigger] lookup(m4, k) is Some implies k == root || k == "/tmp"@ || k == "/home"@
        || k == "/home/user"@ by {
        law_lookup_after_insert(m3, "/home/user"@, FsNode::Dir, k);
        law_lookup_after_insert(m2, "/home"@, FsNode::Dir, k);
        law_lookup_after_insert(m1, "/tmp"@, FsNode::Dir, k);
        law_lookup_after_insert(m0, "/"@, FsNode::Dir, k);
    }
    assert forall|k: Seq<char>| k == root || k == "/home"@ implies #[trigger] is_dir_in(m4, k) by {
        law_lookup_after_insert(m3, "/home/user"@, FsNode::Dir, k);
        law_lookup_after_insert(m2, "/home"@, FsNode::Dir, k);
        law_lookup_after_insert(m1, "/tmp"@, FsNode::Dir, k);
        law_lookup_after_insert(m0, "/"@, FsNode::Dir, k);
    }
    assert(is_dir_in(m4, root));
    assert(is_dir_in(m4, "/home"@));
}

/// The filesystem a new shell starts with: seeded with `files`, with the
/// working directory created; or the error that stops it.
pub open spec fn new_fs_spec(files: Seq<(Seq<char>, Seq<char>)>, cwd: Seq<char>) -> Result<FsModel, Seq<char>> {
    match seed_from(initial_fs(), files, 0) {
        Err(e) => Err(e),
        Ok(m) => {
            let (m2, err) = create_all_spec(m, cwd);
            match err {
                Some(e) => Err(e),
                None => Ok(m2),
            }
        },
    }
}

proof fn lemma_seed_tree(m: FsModel, files: Seq<(Seq<char>, Seq<char>)>, i: int)
    requires
        fs_tree(m),
        seed_from(m, files, i) is Ok,
    ensures
        fs_tree(seed_from(m, files, i)->Ok_0),
    decreases files.len() - i,
{
    if 0 <= i < files.len() {
        let path = files[i].0;
        let par = parent_of(path);
        law_operations_keep_tree(m, par, Seq::empty(), false);
        let m1 = ensure_parent_spec(m, path)->Ok_0;
        assert(fs_tree(m1));
        law_operations_keep_tree(m1, path, files[i].1, false);
        let m2 = write_spec(m1, path, files[i].1)->Ok_0;
        lemma_seed_tree(m2, files, i + 1);
    }
}

/// A shell's filesystem starts out a tree: seeding files and creating the
/// working directory keep it one.
pub proof fn law_new_fs_is_tree(files: Seq<(Seq<char>, Seq<char>)>, cwd: Seq<char>)
    requires
        new_fs_spec(files, cwd) is Ok,
    ensures
        fs_tree(new_fs_spec(files, cwd)->Ok_0),
{
    law_initial_fs_is_tree();
    lemma_seed_tree(initial_fs(), files, 0);
    let m = seed_from(initial_fs(), files, 0)->Ok_0;
    law_operations_keep_tree(m, cwd, Seq::empty(), false);
}

proof fn lemma_initial_lookup(q: Seq<char>)
    ensures
        lookup(initial_fs(), q) is None || lookup(initial_fs(), q) == Some(FsNode::Dir),
        lookup(initial_fs(), seq!['/']) == Some(FsNode::Dir),
{
    reveal_strlit("/");
    reveal_strlit("/tmp");
    reveal_strlit("/home");
    reveal_strlit("/home/user");
    let m0 = sorted_insert(Seq::<(Seq<char>, FsNode)>::empty(), "/"@, FsNode::Dir);
    let m1 = sorted_insert(m0, "/tmp"@, FsNode::Dir);
    let m2 = sorted_insert(m1, "/home"@, FsNode::Dir);
    law_lookup_after_insert(Seq::<(Seq<char>, FsNode)>::empty(), "/"@, FsNode::Dir, q);
    law_lookup_after_insert(m0, "/tmp"@, FsNode::Dir, q);
    law_lookup_after_insert(m1, "/home"@, FsNode::Dir, q);
    law_lookup_after_insert(m2, "/home/user"@, FsNode::Dir, q);
    let r = seq!['/'];
    assert(r =~= "/"@);
    law_lookup_after_insert(Seq::<(Seq<char>, FsNode)>::empty(), "/"@, FsNode::Dir, r);
    law_lookup_after_insert(m0, "/tmp"@, FsNode::Dir, r);
    law_lookup_after_insert(m1, "/home"@, FsNode::Dir, r);
    law_lookup_after_insert(m2, "/home/user"@, FsNode::Dir, r);
}

proof fn lemma_mkdirs_ok(m: FsModel, st: Seq<Seq<char>>, j: int)
    requires
        0 <= j,
        forall|i: int| j <= i < st.len() ==> !is_file_in(m, #[trigger] abs_path(st.take(i + 1))),
    ensures
        mkdirs_from(m, st, j).1 is None,
    decreases st.len() - j,
{
    if j < st.len() {
        let cur = abs_path(st.take(j + 1));
        let m1 = sorted_insert(m, cur, FsNode::Dir);
        assert forall|i: int| j + 1 <= i < st.len() implies !is_file_in(m1, #[trigger] abs_path(st.take(i + 1))) by {
            law_lookup_after_insert(m, cur, FsNode::Dir, abs_path(st.take(i + 1)));
        }
        lemma_mkdirs_ok(m1, st, j + 1);
    }
}

/// A new shell's filesystem: where each file goes into one of the starting
/// directories, none of them is one of those directories, no two name the same
/// path, and none lies on the way to the working directory, the filesystem is
/// built; the working directory is a directory in it, and each file reads back
/// with the contents it was given.
pub proof fn law_new_fs_seeds_and_enters(files: Seq<(Seq<char>, Seq<char>)>, cwd: Seq<char>)
    requires
        forall|i: int| 0 <= i < files.len() ==> is_dir_in(initial_fs(), parent_of(#[trigger] files[i].0)),
        forall|i: int| 0 <= i < files.len() ==> !is_dir_in(initial_fs(), normalize(#[trigger] files[i].0)),
        forall|i: int, j: int|
            0 <= i < j < files.len() ==> normalize(#[trigger] files[i].0) != normalize(#[trigger] files[j].0),
        forall|i: int, j: int|
            0 <= i < path_stack(cwd).len() && 0 <= j < files.len() ==> #[trigger] abs_path(
                path_stack(cwd).take(i + 1),
            ) != normalize(#[trigger] files[j].0),
    ensures
        new_fs_spec(files, cwd) is Ok,
        is_dir_in(new_fs_spec(files, cwd)->Ok_0, normalize(cwd)),
        forall|i: int|
            0 <= i < files.len() ==> read_spec(new_fs_spec(files, cwd)->Ok_0, normalize(#[trigger] files[i].0))
                == Ok::<Seq<char>, Seq<char>>(files[i].1),
{
    let st = path_stack(cwd);
    law_seeded_files_read_back(initial_fs(), files);
    let m = seed_from(initial_fs(), files, 0)->Ok_0;
    assert forall|i: int| 0 <= i < st.len() implies !is_file_in(m, #[trigger] abs_path(st.take(i + 1))) by {
        let a = abs_path(st.take(i + 1));
        assert forall|j: int| 0 <= j < files.len() implies a != normalize(#[trigger] files[j].0) by {
            assert(abs_path(path_stack(cwd).take(i + 1)) != normalize(files[j].0));
        }
        assert(lookup(m, a) == lookup(initial_fs(), a));
        lemma_initial_lookup(a);
    }
    lemma_mkdirs_ok(m, st, 0);
    let root = seq!['/'];
    lemma_initial_lookup(root);
    assert forall|j: int| 0 <= j < files.len() implies root != normalize(#[trigger] files[j].0) by {}
    assert(lookup(m, root) == lookup(initial_fs(), root));
    law_create_dir_all_makes_dir(m, cwd);
    assert forall|i: int| 0 <= i < files.len() implies read_spec(
        new_fs_spec(files, cwd)->Ok_0,
        normalize(#[trigger] files[i].0),
    ) == Ok::<Seq<char>, Seq<char>>(files[i].1) by {
        let n = normalize(files[i].0);
        assert forall|k: int| 0 <= k < st.len() implies n != #[trigger] abs_path(st.take(k + 1)) by {
            assert(abs_path(path_stack(cwd).take(k + 1)) != normalize(files[i].0));
        }
        law_create_dir_all_untouched(m, cwd, n);
        assert(read_spec(m, n) == Ok::<Seq<char>, Seq<char>>(files[i].1));
    }
}

}

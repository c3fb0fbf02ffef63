//! The in-memory filesystem model: an ordered, hard-link-preserving
//! directory tree that accumulates a logical root before serialization.
//!
//! Directory entries are kept strictly sorted by byte-lexicographic name.
//! Leaves are shared through indices into a leaf table owned by the
//! [`FileSystem`]; two entries naming the same index are a hardlink pair.

use vstd::prelude::*;

verus! {

/// Strict byte-lexicographic order on names, examined from position `i` on.
pub open spec fn lex_lt_from(a: Seq<u8>, b: Seq<u8>, i: int) -> bool
    decreases b.len() - i,
{
    if i >= b.len() {
        false
    } else if i >= a.len() {
        true
    } else if a[i] < b[i] {
        true
    } else if a[i] > b[i] {
        false
    } else {
        lex_lt_from(a, b, i + 1)
    }
}

/// Strict byte-lexicographic order on names.
pub open spec fn lex_lt(a: Seq<u8>, b: Seq<u8>) -> bool {
    lex_lt_from(a, b, 0)
}

proof fn lemma_lex_lt_from_irrefl(a: Seq<u8>, i: int)
    ensures
        !lex_lt_from(a, a, i),
    decreases a.len() - i,
{
    if i < a.len() {
        lemma_lex_lt_from_irrefl(a, i + 1);
    }
}

/// The order is irreflexive.
pub proof fn lemma_lex_lt_irrefl(a: Seq<u8>)
    ensures
        !lex_lt(a, a),
{
    lemma_lex_lt_from_irrefl(a, 0);
}

proof fn lemma_lex_lt_from_trans(a: Seq<u8>, b: Seq<u8>, c: Seq<u8>, i: int)
    requires
        lex_lt_from(a, b, i),
        lex_lt_from(b, c, i),
    ensures
        lex_lt_from(a, c, i),
    decreases c.len() - i,
{
    if i < a.len() && i < b.len() && i < c.len() && a[i] == b[i] && b[i] == c[i] {
        lemma_lex_lt_from_trans(a, b, c, i + 1);
    }
}

/// The order is transitive.
pub proof fn lemma_lex_lt_trans(a: Seq<u8>, b: Seq<u8>, c: Seq<u8>)
    requires
        lex_lt(a, b),
        lex_lt(b, c),
    ensures
        lex_lt(a, c),
{
    lemma_lex_lt_from_trans(a, b, c, 0);
}

proof fn lemma_lex_lt_from_connected(a: Seq<u8>, b: Seq<u8>, i: int)
    requires
        0 <= i <= a.len(),
        0 <= i <= b.len(),
        a.subrange(0, i) == b.subrange(0, i),
    ensures
        lex_lt_from(a, b, i) || lex_lt_from(b, a, i) || a == b,
    decreases a.len() - i,
{
    if i < a.len() && i < b.len() && a[i] == b[i] {
        assert(a.subrange(0, i + 1) =~= b.subrange(0, i + 1)) by {
            assert(forall|j: int|
                0 <= j < i ==> a[j] == a.subrange(0, i)[j] && b[j] == b.subrange(0, i)[j]);
        }
        lemma_lex_lt_from_connected(a, b, i + 1);
    } else if i >= a.len() && i >= b.len() {
        assert(a =~= b) by {
            assert(forall|j: int|
                0 <= j < i ==> a[j] == a.subrange(0, i)[j] && b[j] == b.subrange(0, i)[j]);
        }
    }
}

/// Any two distinct names are ordered one way or the other.
pub proof fn lemma_lex_lt_connected(a: Seq<u8>, b: Seq<u8>)
    ensures
        lex_lt(a, b) || lex_lt(b, a) || a == b,
{
    assert(a.subrange(0, 0) =~= b.subrange(0, 0));
    lemma_lex_lt_from_connected(a, b, 0);
}

/// Exactly one of `a < b`, `a == b`, `b < a` holds.
pub proof fn lemma_lex_lt_trichotomy(a: Seq<u8>, b: Seq<u8>)
    ensures
        lex_lt(a, b) || lex_lt(b, a) || a == b,
        !(lex_lt(a, b) && lex_lt(b, a)),
        lex_lt(a, b) ==> a != b,
{
    lemma_lex_lt_connected(a, b);
    if lex_lt(a, b) && lex_lt(b, a) {
        lemma_lex_lt_trans(a, b, a);
        lemma_lex_lt_irrefl(a);
    }
    if lex_lt(a, b) && a == b {
        lemma_lex_lt_irrefl(a);
    }
}

/// How two names compare, byte-lexicographically.
#[derive(Clone, Copy, Debug, PartialEq, Eq, Structural)]
pub enum NameOrder {
    Less,
    Equal,
    Greater,
}

/// Compare two names in byte-lexicographic order.
pub fn name_cmp(a: &[u8], b: &[u8]) -> (r: NameOrder)
    ensures
        r == NameOrder::Less <==> lex_lt(a@, b@),
        r == NameOrder::Equal <==> a@ == b@,
        r == NameOrder::Greater <==> lex_lt(b@, a@),
{
    proof {
        lemma_lex_lt_trichotomy(a@, b@);
    }
    let mut i: usize = 0;
    loop
        invariant
            0 <= i <= a@.len(),
            0 <= i <= b@.len(),
            forall|j: int| 0 <= j < i ==> a@[j] == b@[j],
            lex_lt(a@, b@) == lex_lt_from(a@, b@, i as int),
            lex_lt(b@, a@) == lex_lt_from(b@, a@, i as int),
        decreases a@.len() - i,
    {
        if i >= a.len() {
            if i >= b.len() {
                proof {
                    assert(a@ =~= b@);
                }
                return NameOrder::Equal;
            }
            return NameOrder::Less;
        }
        if i >= b.len() {
            return NameOrder::Greater;
        }
        let x = a[i];
        let y = b[i];
        if x < y {
            return NameOrder::Less;
        }
        if x > y {
            return NameOrder::Greater;
        }
        i = i + 1;
    }
}

/// A 32-byte fsverity digest naming an external file's content.
pub type Sha256HashValue = [u8; 32];

/// Errors produced by the path-addressed operations of the model.
#[derive(Clone, Copy, Debug, PartialEq, Eq, Structural)]
pub enum FsError {
    /// A walked path segment resolved to a leaf, or a directory was asked to
    /// replace a leaf.
    ParentNotDirectory,
    /// A walked path segment resolved to nothing.
    ParentMissing,
    /// A hardlink source path resolved to nothing.
    LinkTargetMissing,
    /// A hardlink source path resolved to a directory.
    LinkTargetIsDirectory,
}

/// POSIX-style metadata carried by every node, with its ordered extended
/// attributes.
#[derive(Debug)]
pub struct Stat {
    pub st_mode: u32,
    pub st_uid: u32,
    pub st_gid: u32,
    pub st_mtim_sec: i64,
    pub xattrs: Vec<(Vec<u8>, Vec<u8>)>,
}

/// The mathematical value of a `Stat`.
pub struct StatView {
    pub st_mode: u32,
    pub st_uid: u32,
    pub st_gid: u32,
    pub st_mtim_sec: i64,
    pub xattrs: Seq<(Seq<u8>, Seq<u8>)>,
}

impl View for Stat {
    type V = StatView;

    open spec fn view(&self) -> StatView {
        StatView {
            st_mode: self.st_mode,
            st_uid: self.st_uid,
            st_gid: self.st_gid,
            st_mtim_sec: self.st_mtim_sec,
            xattrs: self.xattrs@.map_values(|p: (Vec<u8>, Vec<u8>)| (p.0@, p.1@)),
        }
    }
}

/// What a leaf holds: inline bytes, a reference into the object store, a
/// device, a fifo, a socket, or a symlink target.
#[derive(Debug)]
pub enum LeafContent {
    InlineFile(Vec<u8>),
    ExternalFile(Sha256HashValue, u64),
    BlockDevice(u64),
    CharacterDevice(u64),
    Fifo,
    Socket,
    Symlink(Vec<u8>),
}

/// The mathematical value of a `LeafContent`.
pub enum LeafContentView {
    InlineFile(Seq<u8>),
    ExternalFile(Seq<u8>, u64),
    BlockDevice(u64),
    CharacterDevice(u64),
    Fifo,
    Socket,
    Symlink(Seq<u8>),
}

impl View for LeafContent {
    type V = LeafContentView;

    open spec fn view(&self) -> LeafContentView {
        match self {
            LeafContent::InlineFile(b) => LeafContentView::InlineFile(b@),
            LeafContent::ExternalFile(d, n) => LeafContentView::ExternalFile(d@, *n),
            LeafContent::BlockDevice(r) => LeafContentView::BlockDevice(*r),
            LeafContent::CharacterDevice(r) => LeafContentView::CharacterDevice(*r),
            LeafContent::Fifo => LeafContentView::Fifo,
            LeafContent::Socket => LeafContentView::Socket,
            LeafContent::Symlink(p) => LeafContentView::Symlink(p@),
        }
    }
}

/// A non-directory node: metadata plus content. Leaves live in the
/// [`FileSystem`]'s leaf table and are referenced by index, so that several
/// directory entries can share one leaf: that sharing is a hardlink.
#[derive(Debug)]
pub struct Leaf {
    pub stat: Stat,
    pub content: LeafContent,
}

/// The mathematical value of a `Leaf`.
pub struct LeafView {
    pub stat: StatView,
    pub content: LeafContentView,
}

impl View for Leaf {
    type V = LeafView;

    open spec fn view(&self) -> LeafView {
        LeafView { stat: self.stat@, content: self.content@ }
    }
}

/// What a directory entry points at: an owned subdirectory, or an index
/// into the filesystem's leaf table.
#[derive(Debug)]
pub enum Inode {
    Directory(Box<Directory>),
    Leaf(usize),
}

/// A named slot of a directory.
#[derive(Debug)]
pub struct DirEnt {
    pub name: Vec<u8>,
    pub inode: Inode,
}

/// A directory: metadata plus entries kept strictly sorted by name.
#[derive(Debug)]
pub struct Directory {
    pub stat: Stat,
    pub entries: Vec<DirEnt>,
}

/// The mathematical value of an `Inode`.
pub enum InodeView {
    Directory(DirView),
    Leaf(int),
}

/// The mathematical value of a `DirEnt`.
pub struct DirEntView {
    pub name: Seq<u8>,
    pub inode: InodeView,
}

/// The mathematical value of a `Directory`.
pub struct DirView {
    pub stat: StatView,
    pub entries: Seq<DirEntView>,
}

/// The mathematical value of an `Inode`.
pub open spec fn inode_view(i: Inode) -> InodeView
    decreases i,
{
    match i {
        Inode::Directory(d) => InodeView::Directory(dir_view(*d)),
        Inode::Leaf(id) => InodeView::Leaf(id as int),
    }
}

/// The mathematical values of a directory's entries, in order.
pub open spec fn ents_view(s: Seq<DirEnt>) -> Seq<DirEntView>
    decreases s,
{
    if s.len() == 0 {
        Seq::empty()
    } else {
        seq![DirEntView { name: s[0].name@, inode: inode_view(s[0].inode) }] + ents_view(
            s.drop_first(),
        )
    }
}

/// The mathematical value of a `Directory`.
pub open spec fn dir_view(d: Directory) -> DirView
    decreases d,
{
    DirView { stat: d.stat@, entries: ents_view(d.entries@) }
}

/// `ents_view` maps the sequence elementwise.
pub broadcast proof fn lemma_ents_view_len(s: Seq<DirEnt>)
    ensures
        #[trigger] ents_view(s).len() == s.len(),
    decreases s.len(),
{
    if s.len() > 0 {
        lemma_ents_view_len(s.drop_first());
    }
}

/// `ents_view` maps the sequence elementwise.
pub broadcast proof fn lemma_ents_view_index(s: Seq<DirEnt>, i: int)
    requires
        0 <= i < s.len(),
    ensures
        #[trigger] ents_view(s)[i] == (DirEntView {
            name: s[i].name@,
            inode: inode_view(s[i].inode),
        }),
    decreases s.len(),
{
    lemma_ents_view_len(s);
    if i > 0 {
        lemma_ents_view_index(s.drop_first(), i - 1);
    }
}

impl View for Inode {
    type V = InodeView;

    open spec fn view(&self) -> InodeView {
        inode_view(*self)
    }
}

impl View for DirEnt {
    type V = DirEntView;

    open spec fn view(&self) -> DirEntView {
        DirEntView { name: self.name@, inode: inode_view(self.inode) }
    }
}

impl View for Directory {
    type V = DirView;

    open spec fn view(&self) -> DirView {
        dir_view(*self)
    }
}

/// Entries are strictly sorted by byte-lexicographic name; in particular no
/// name repeats.
pub open spec fn ents_sorted(s: Seq<DirEntView>) -> bool {
    forall|i: int, j: int| 0 <= i < j < s.len() ==> lex_lt(s[i].name, s[j].name)
}

/// Every directory of the tree is sorted, and every leaf index is below `n`.
pub open spec fn inode_wf(i: InodeView, n: int) -> bool
    decreases i,
{
    match i {
        InodeView::Directory(d) => dview_wf(d, n),
        InodeView::Leaf(id) => 0 <= id < n,
    }
}

/// Every directory of the tree is sorted, and every leaf index is below `n`.
pub open spec fn dview_wf(d: DirView, n: int) -> bool
    decreases d,
{
    ents_sorted(d.entries) && (forall|i: int|
        0 <= i < d.entries.len() ==> inode_wf(#[trigger] d.entries[i].inode, n))
}

/// The insertion position of `name` in sorted entries: the count of leading
/// entries whose name is strictly below it.
pub open spec fn epos(s: Seq<DirEntView>, name: Seq<u8>) -> int
    decreases s.len(),
{
    if s.len() == 0 {
        0
    } else if lex_lt(s[0].name, name) {
        1 + epos(s.drop_first(), name)
    } else {
        0
    }
}

/// In sorted entries, `epos` is the unique sorted position of `name`: all
/// entries before it are below `name`, none from it on is, and any entry
/// carrying `name` itself sits exactly there.
pub proof fn lemma_epos(s: Seq<DirEntView>, name: Seq<u8>)
    requires
        ents_sorted(s),
    ensures
        0 <= epos(s, name) <= s.len(),
        forall|j: int| 0 <= j < epos(s, name) ==> lex_lt(#[trigger] s[j].name, name),
        forall|j: int| epos(s, name) <= j < s.len() ==> !lex_lt(#[trigger] s[j].name, name),
        forall|j: int| 0 <= j < s.len() && #[trigger] s[j].name == name ==> j == epos(s, name),
    decreases s.len(),
{
    if s.len() == 0 {
    } else if lex_lt(s[0].name, name) {
        let t = s.drop_first();
        assert(ents_sorted(t)) by {
            assert(forall|i: int, j: int|
                0 <= i < j < t.len() ==> t[i] == s[i + 1] && t[j] == s[j + 1]);
        }
        lemma_epos(t, name);
        assert(forall|j: int| 1 <= j < s.len() ==> s[j] == t[j - 1]);
        lemma_lex_lt_trichotomy(s[0].name, name);
    } else {
        assert forall|j: int| 0 <= j < s.len() implies !lex_lt(#[trigger] s[j].name, name) by {
            if j > 0 && lex_lt(s[j].name, name) {
                lemma_lex_lt_trans(s[0].name, s[j].name, name);
            }
        }
        assert forall|j: int| 0 <= j < s.len() && #[trigger] s[j].name == name implies j == 0 by {
            if j > 0 {
                assert(lex_lt(s[0].name, s[j].name));
            }
        }
    }
}

/// All the elementwise facts about `ents_view` at once.
pub proof fn lemma_ents_view_all(s: Seq<DirEnt>)
    ensures
        ents_view(s).len() == s.len(),
        forall|i: int|
            0 <= i < s.len() ==> #[trigger] ents_view(s)[i] == (DirEntView {
                name: s[i].name@,
                inode: inode_view(s[i].inode),
            }),
{
    lemma_ents_view_len(s);
    assert forall|i: int| 0 <= i < s.len() implies #[trigger] ents_view(s)[i] == (DirEntView {
        name: s[i].name@,
        inode: inode_view(s[i].inode),
    }) by {
        lemma_ents_view_index(s, i);
    }
}

/// `name` is present among the entries.
pub open spec fn ents_found(s: Seq<DirEntView>, name: Seq<u8>) -> bool {
    epos(s, name) < s.len() && s[epos(s, name)].name == name
}

/// The inode bound to `name`, if any.
pub open spec fn dview_lookup(d: DirView, name: Seq<u8>) -> Option<InodeView> {
    if ents_found(d.entries, name) {
        Some(d.entries[epos(d.entries, name)].inode)
    } else {
        None
    }
}

/// Every subdirectory of the tree, this one included, has strictly sorted
/// entries.
pub open spec fn inode_sorted(i: InodeView) -> bool
    decreases i,
{
    match i {
        InodeView::Directory(d) => dview_sorted(d),
        InodeView::Leaf(_) => true,
    }
}

/// Every subdirectory of the tree, this one included, has strictly sorted
/// entries.
pub open spec fn dview_sorted(d: DirView) -> bool
    decreases d,
{
    ents_sorted(d.entries) && (forall|i: int|
        0 <= i < d.entries.len() ==> inode_sorted(#[trigger] d.entries[i].inode))
}

/// Every leaf index in the tree is below `n`.
pub open spec fn inode_ids_lt(i: InodeView, n: int) -> bool
    decreases i,
{
    match i {
        InodeView::Directory(d) => dview_ids_lt(d, n),
        InodeView::Leaf(id) => 0 <= id < n,
    }
}

/// Every leaf index in the tree is below `n`.
pub open spec fn dview_ids_lt(d: DirView, n: int) -> bool
    decreases d,
{
    forall|i: int| 0 <= i < d.entries.len() ==> inode_ids_lt(#[trigger] d.entries[i].inode, n)
}

/// A bound on leaf indices stays a bound when the leaf table grows.
pub proof fn lemma_dview_ids_lt_mono(d: DirView, n: int, m: int)
    requires
        dview_ids_lt(d, n),
        n <= m,
    ensures
        dview_ids_lt(d, m),
    decreases d,
{
    assert forall|i: int| 0 <= i < d.entries.len() implies inode_ids_lt(
        #[trigger] d.entries[i].inode,
        m,
    ) by {
        match d.entries[i].inode {
            InodeView::Directory(sub) => {
                lemma_dview_ids_lt_mono(sub, n, m);
            },
            InodeView::Leaf(_) => {},
        }
    }
}

/// Inserting a fresh name at its sorted position keeps the entries sorted.
pub proof fn lemma_sorted_insert_ent(s: Seq<DirEntView>, name: Seq<u8>, ino: InodeView)
    requires
        ents_sorted(s),
        !ents_found(s, name),
    ensures
        ents_sorted(s.insert(epos(s, name), DirEntView { name, inode: ino })),
{
    lemma_epos(s, name);
    let p = epos(s, name);
    let e = DirEntView { name, inode: ino };
    let t = s.insert(p, e);
    s.insert_ensures(p, e);
    assert forall|j: int| 0 <= j < s.len() implies (#[trigger] s[j].name) != name by {
        if s[j].name == name {
            assert(j == p);
        }
    }
    assert forall|j: int| p <= j < s.len() implies lex_lt(name, #[trigger] s[j].name) by {
        lemma_lex_lt_connected(name, s[j].name);
    }
    assert forall|i: int, j: int| 0 <= i < j < t.len() implies lex_lt(t[i].name, t[j].name) by {
        if i < p && j < p {
        } else if i < p && j == p {
        } else if i < p && j > p {
            assert(t[j] == s[j - 1]);
            if i == j - 1 {
                assert(lex_lt(s[i].name, name));
                assert(false);
            }
        } else if i == p && j > p {
            assert(t[j] == s[j - 1]);
        } else {
            assert(t[i] == s[i - 1] && t[j] == s[j - 1]);
        }
    }
}

/// Replacing the inode of an existing entry, keeping its name, keeps the
/// entries sorted.
pub proof fn lemma_sorted_update_ent(s: Seq<DirEntView>, p: int, ino: InodeView)
    requires
        ents_sorted(s),
        0 <= p < s.len(),
    ensures
        ents_sorted(s.update(p, DirEntView { name: s[p].name, inode: ino })),
{
    let t = s.update(p, DirEntView { name: s[p].name, inode: ino });
    assert(forall|j: int| 0 <= j < t.len() ==> (#[trigger] t[j].name) == s[j].name);
}

/// Removing an entry keeps the others sorted.
pub proof fn lemma_sorted_remove_ent(s: Seq<DirEntView>, p: int)
    requires
        ents_sorted(s),
        0 <= p < s.len(),
    ensures
        ents_sorted(s.remove(p)),
{
    let t = s.remove(p);
    assert forall|i: int, j: int| 0 <= i < j < t.len() implies lex_lt(t[i].name, t[j].name) by {
        let i0: int = if i < p { i } else { i + 1 };
        let j0: int = if j < p { j } else { j + 1 };
        assert(t[i] == s[i0] && t[j] == s[j0]);
    }
}

/// `mkdir` within one directory: create an empty subdirectory under a fresh
/// name, or renew the metadata of an existing one, keeping its children.
/// A name bound to a leaf is refused.
pub open spec fn dview_mkdir_here(d: DirView, name: Seq<u8>, stat: StatView) -> Result<
    DirView,
    FsError,
> {
    let s = d.entries;
    let p = epos(s, name);
    if ents_found(s, name) {
        match s[p].inode {
            InodeView::Directory(sub) => Ok(
                DirView {
                    stat: d.stat,
                    entries: s.update(
                        p,
                        DirEntView {
                            name,
                            inode: InodeView::Directory(DirView { stat, entries: sub.entries }),
                        },
                    ),
                },
            ),
            InodeView::Leaf(_) => Err(FsError::ParentNotDirectory),
        }
    } else {
        Ok(
            DirView {
                stat: d.stat,
                entries: s.insert(
                    p,
                    DirEntView {
                        name,
                        inode: InodeView::Directory(DirView { stat, entries: Seq::empty() }),
                    },
                ),
            },
        )
    }
}

/// `insert` within one directory: bind `name` to leaf `id`, replacing any
/// previous binding.
pub open spec fn dview_insert_here(d: DirView, name: Seq<u8>, id: int) -> DirView {
    let s = d.entries;
    let p = epos(s, name);
    if ents_found(s, name) {
        DirView { stat: d.stat, entries: s.update(p, DirEntView { name, inode: InodeView::Leaf(id) }) }
    } else {
        DirView { stat: d.stat, entries: s.insert(p, DirEntView { name, inode: InodeView::Leaf(id) }) }
    }
}

/// `remove` within one directory: drop the binding of `name`; removing an
/// absent name changes nothing.
pub open spec fn dview_remove_here(d: DirView, name: Seq<u8>) -> DirView {
    let s = d.entries;
    if ents_found(s, name) {
        DirView { stat: d.stat, entries: s.remove(epos(s, name)) }
    } else {
        d
    }
}

impl Directory {
    /// Binary-search the sorted entries for `name`: its index, or the index
    /// at which it would have to be inserted.
    pub fn find_entry(&self, name: &[u8]) -> (r: Result<usize, usize>)
        requires
            ents_sorted(self@.entries),
        ensures
            match r {
                Ok(i) => i as int == epos(self@.entries, name@) && i < self@.entries.len()
                    && self@.entries[i as int].name == name@,
                Err(i) => i as int == epos(self@.entries, name@) && !ents_found(
                    self@.entries,
                    name@,
                ),
            },
    {
        proof {
            lemma_ents_view_all(self.entries@);
            lemma_epos(self@.entries, name@);
        }
        let ghost s = self@.entries;
        let ghost p = epos(s, name@);
        let mut lo: usize = 0;
        let mut hi: usize = self.entries.len();
        while lo < hi
            invariant
                0 <= lo <= hi <= s.len(),
                s == self@.entries,
                s.len() == self.entries@.len(),
                ents_sorted(s),
                p == epos(s, name@),
                forall|j: int| 0 <= j < lo ==> lex_lt(#[trigger] s[j].name, name@),
                forall|j: int| hi <= j < s.len() ==> lex_lt(name@, #[trigger] s[j].name),
            decreases hi - lo,
        {
            let mid = lo + (hi - lo) / 2;
            proof {
                lemma_ents_view_all(self.entries@);
            }
            match name_cmp(self.entries[mid].name.as_slice(), name) {
                NameOrder::Less => {
                    assert forall|j: int| 0 <= j < mid + 1 implies lex_lt(
                        #[trigger] s[j].name,
                        name@,
                    ) by {
                        if j < mid {
                            lemma_lex_lt_trans(s[j].name, s[mid as int].name, name@);
                        }
                    }
                    lo = mid + 1;
                },
                NameOrder::Greater => {
                    assert forall|j: int| mid <= j < s.len() implies lex_lt(
                        name@,
                        #[trigger] s[j].name,
                    ) by {
                        if j > mid {
                            lemma_lex_lt_trans(name@, s[mid as int].name, s[j].name);
                        }
                    }
                    hi = mid;
                },
                NameOrder::Equal => {
                    proof {
                        lemma_epos(s, name@);
                        assert(s[mid as int].name == name@);
                        assert(mid as int == p);
                    }
                    return Ok(mid);
                },
            }
        }
        proof {
            lemma_epos(s, name@);
            if p < lo {
                assert(lex_lt(s[p].name, name@));
                assert(!lex_lt(s[p].name, name@));
            }
            if p > lo {
                assert(lex_lt(name@, s[lo as int].name));
                assert(lex_lt(s[lo as int].name, name@));
                lemma_lex_lt_trichotomy(s[lo as int].name, name@);
            }
            if ents_found(s, name@) {
                assert(s[p].name == name@);
                assert(lex_lt(name@, s[p].name));
                lemma_lex_lt_irrefl(name@);
            }
        }
        Err(lo)
    }

    /// Follow `name` to a subdirectory, failing if it is missing or bound to
    /// a leaf.
    pub fn recurse(&self, name: &[u8]) -> (r: Result<&Directory, FsError>)
        requires
            ents_sorted(self@.entries),
        ensures
            match dview_lookup(self@, name@) {
                Some(InodeView::Directory(v)) => r is Ok && r->Ok_0@ == v,
                Some(InodeView::Leaf(_)) => r == Err::<&Directory, FsError>(
                    FsError::ParentNotDirectory,
                ),
                None => r == Err::<&Directory, FsError>(FsError::ParentMissing),
            },
    {
        proof {
            lemma_ents_view_all(self.entries@);
        }
        match self.find_entry(name) {
            Ok(i) => match &self.entries[i].inode {
                Inode::Directory(sub) => Ok(sub),
                Inode::Leaf(_) => Err(FsError::ParentNotDirectory),
            },
            Err(_) => Err(FsError::ParentMissing),
        }
    }

    /// Create an empty subdirectory named `name`, or renew the metadata of
    /// an existing one, keeping its children; refuse a name bound to a leaf.
    pub fn mkdir(&mut self, name: &[u8], stat: Stat) -> (r: Result<(), FsError>)
        requires
            dview_sorted(old(self)@),
        ensures
            match dview_mkdir_here(old(self)@, name@, stat@) {
                Ok(v) => r is Ok && final(self)@ == v,
                Err(e) => r == Err::<(), FsError>(e) && final(self)@ == old(self)@,
            },
            dview_sorted(final(self)@),
            forall|n: int| dview_ids_lt(old(self)@, n) ==> dview_ids_lt(final(self)@, n),
    {
        proof {
            lemma_ents_view_all(self.entries@);
            lemma_epos(self@.entries, name@);
        }
        let ghost s0 = self@.entries;
        let ghost p = epos(s0, name@);
        match self.find_entry(name) {
            Ok(i) => {
                let is_dir = match &self.entries[i].inode {
                    Inode::Directory(_) => true,
                    Inode::Leaf(_) => false,
                };
                if !is_dir {
                    return Err(FsError::ParentNotDirectory);
                }
                let mut ent = self.entries.remove(i);
                match ent.inode {
                    Inode::Directory(sub) => {
                        let mut dd = *sub;
                        let ghost subv = dir_view(dd);
                        dd.stat = stat;
                        self.entries.insert(
                            i,
                            DirEnt { name: ent.name, inode: Inode::Directory(Box::new(dd)) },
                        );
                        proof {
                            let se0 = old(self).entries@;
                            let ent2 = self.entries@[p];
                            se0.remove_ensures(p);
                            se0.remove(p).insert_ensures(p, ent2);
                            assert(self.entries@ =~= se0.update(p, ent2));
                            lemma_ents_view_all(self.entries@);
                            let v = dview_mkdir_here(old(self)@, name@, stat@)->Ok_0;
                            let entv2 = DirEntView {
                                name: name@,
                                inode: InodeView::Directory(
                                    DirView { stat: stat@, entries: subv.entries },
                                ),
                            };
                            assert(v.entries == s0.update(p, entv2));
                            assert(inode_view(ent2.inode) == entv2.inode);
                            assert(self@.entries =~= v.entries);
                            assert(self@ =~= v);
                            lemma_sorted_update_ent(s0, p, entv2.inode);
                            assert(ents_sorted(v.entries));
                            assert forall|j: int|
                                0 <= j < v.entries.len() implies inode_sorted(
                                #[trigger] v.entries[j].inode,
                            ) by {
                                if j == p {
                                    assert(inode_sorted(s0[p].inode));
                                } else {
                                    assert(v.entries[j] == s0[j]);
                                }
                            }
                            assert forall|n: int| dview_ids_lt(old(self)@, n) implies dview_ids_lt(
                                self@,
                                n,
                            ) by {
                                assert forall|j: int|
                                    0 <= j < v.entries.len() implies inode_ids_lt(
                                    #[trigger] v.entries[j].inode,
                                    n,
                                ) by {
                                    if j == p {
                                        assert(inode_ids_lt(s0[p].inode, n));
                                    } else {
                                        assert(v.entries[j] == s0[j]);
                                        assert(inode_ids_lt(s0[j].inode, n));
                                    }
                                }
                            }
                        }
                        Ok(())
                    },
                    Inode::Leaf(_) => {
                        proof {
                            assert(false);
                        }
                        Err(FsError::ParentNotDirectory)
                    },
                }
            },
            Err(i) => {
                let newent = DirEnt {
                    name: vstd::slice::slice_to_vec(name),
                    inode: Inode::Directory(Box::new(Directory { stat, entries: Vec::new() })),
                };
                let ghost entg = newent;
                self.entries.insert(i, newent);
                proof {
                    let se0 = old(self).entries@;
                    se0.insert_ensures(p, entg);
                    lemma_ents_view_all(self.entries@);
                    let entv = DirEntView {
                        name: name@,
                        inode: InodeView::Directory(DirView { stat: stat@, entries: Seq::empty() }),
                    };
                    s0.insert_ensures(p, entv);
                    let v = dview_mkdir_here(old(self)@, name@, stat@)->Ok_0;
                    assert(ents_view(Seq::<DirEnt>::empty()) =~= Seq::<DirEntView>::empty());
                    assert(inode_view(entg.inode) == entv.inode);
                    assert(self@.entries =~= v.entries);
                    assert(self@ =~= v);
                    lemma_sorted_insert_ent(s0, name@, entv.inode);
                    assert(dview_sorted(DirView { stat: stat@, entries: Seq::empty() }));
                    assert forall|j: int|
                        0 <= j < v.entries.len() implies inode_sorted(
                        #[trigger] v.entries[j].inode,
                    ) by {
                        if j < p {
                            assert(v.entries[j] == s0[j]);
                        } else if j > p {
                            assert(v.entries[j] == s0[j - 1]);
                        }
                    }
                    assert forall|n: int| dview_ids_lt(old(self)@, n) implies dview_ids_lt(
                        self@,
                        n,
                    ) by {
                        assert(dview_ids_lt(DirView { stat: stat@, entries: Seq::empty() }, n));
                        assert forall|j: int|
                            0 <= j < v.entries.len() implies inode_ids_lt(
                            #[trigger] v.entries[j].inode,
                            n,
                        ) by {
                            if j < p {
                                assert(v.entries[j] == s0[j]);
                                assert(inode_ids_lt(s0[j].inode, n));
                            } else if j > p {
                                assert(v.entries[j] == s0[j - 1]);
                                assert(inode_ids_lt(s0[j - 1].inode, n));
                            }
                        }
                    }
                }
                Ok(())
            },
        }
    }

    /// Bind `name` to the leaf with index `id`, replacing any previous
    /// binding.
    pub fn insert(&mut self, name: &[u8], id: usize) -> (r: ())
        requires
            dview_sorted(old(self)@),
        ensures
            final(self)@ == dview_insert_here(old(self)@, name@, id as int),
            dview_sorted(final(self)@),
            forall|n: int|
                dview_ids_lt(old(self)@, n) && id < n ==> dview_ids_lt(final(self)@, n),
    {
        proof {
            lemma_ents_view_all(self.entries@);
            lemma_epos(self@.entries, name@);
        }
        let ghost s0 = self@.entries;
        let ghost p = epos(s0, name@);
        match self.find_entry(name) {
            Ok(i) => {
                let e = &mut self.entries[i];
                e.inode = Inode::Leaf(id);
                proof {
                    lemma_ents_view_all(self.entries@);
                    let v = dview_insert_here(old(self)@, name@, id as int);
                    assert(self@.entries =~= v.entries);
                    assert(self@ =~= v);
                    lemma_sorted_update_ent(s0, p, InodeView::Leaf(id as int));
                }
            },
            Err(i) => {
                self.entries.insert(
                    i,
                    DirEnt { name: vstd::slice::slice_to_vec(name), inode: Inode::Leaf(id) },
                );
                proof {
                    lemma_ents_view_all(self.entries@);
                    s0.insert_ensures(p, DirEntView { name: name@, inode: InodeView::Leaf(id as int) });
                    let v = dview_insert_here(old(self)@, name@, id as int);
                    assert(self@.entries =~= v.entries);
                    assert(self@ =~= v);
                    lemma_sorted_insert_ent(s0, name@, InodeView::Leaf(id as int));
                }
            },
        }
    }

    /// The leaf index bound to `name`, for hardlinking; a directory or a
    /// missing name is refused.
    pub fn get_for_link(&self, name: &[u8]) -> (r: Result<usize, FsError>)
        requires
            ents_sorted(self@.entries),
        ensures
            match dview_lookup(self@, name@) {
                Some(InodeView::Leaf(id)) => r is Ok && r->Ok_0 as int == id,
                Some(InodeView::Directory(_)) => r == Err::<usize, FsError>(
                    FsError::LinkTargetIsDirectory,
                ),
                None => r == Err::<usize, FsError>(FsError::LinkTargetMissing),
            },
    {
        proof {
            lemma_ents_view_all(self.entries@);
        }
        match self.find_entry(name) {
            Ok(i) => match &self.entries[i].inode {
                Inode::Leaf(id) => Ok(*id),
                Inode::Directory(_) => Err(FsError::LinkTargetIsDirectory),
            },
            Err(_) => Err(FsError::LinkTargetMissing),
        }
    }

    /// Drop the binding of `name`; removing an absent name changes nothing.
    pub fn remove(&mut self, name: &[u8]) -> (r: ())
        requires
            dview_sorted(old(self)@),
        ensures
            final(self)@ == dview_remove_here(old(self)@, name@),
            dview_sorted(final(self)@),
            forall|n: int| dview_ids_lt(old(self)@, n) ==> dview_ids_lt(final(self)@, n),
    {
        proof {
            lemma_ents_view_all(self.entries@);
            lemma_epos(self@.entries, name@);
        }
        let ghost s0 = self@.entries;
        let ghost p = epos(s0, name@);
        match self.find_entry(name) {
            Ok(i) => {
                self.entries.remove(i);
                proof {
                    lemma_ents_view_all(self.entries@);
                    let v = dview_remove_here(old(self)@, name@);
                    assert(self@.entries =~= v.entries);
                    assert(self@ =~= v);
                    lemma_sorted_remove_ent(s0, p);
                }
            },
            Err(_) => {},
        }
    }
}


/// The nonempty path segments of a byte path, split on `/`.
pub open spec fn split_segments(p: Seq<u8>) -> Seq<Seq<u8>>
    decreases p.len(),
{
    if p.len() == 0 {
        Seq::empty()
    } else {
        let rest = split_segments(p.drop_last());
        let c = p.last();
        if c == 47 {
            rest
        } else if p.len() >= 2 && p[p.len() - 2] != 47 {
            rest.update(rest.len() - 1, rest.last().push(c))
        } else {
            rest.push(seq![c])
        }
    }
}

/// A path that does not end in `/` splits into at least one segment.
pub proof fn lemma_split_nonempty(p: Seq<u8>)
    requires
        p.len() > 0,
        p.last() != 47,
    ensures
        split_segments(p).len() > 0,
    decreases p.len(),
{
    if p.len() >= 2 && p[p.len() - 2] != 47 {
        assert(p.drop_last().last() == p[p.len() - 2]);
        lemma_split_nonempty(p.drop_last());
    }
}

/// The segment views of a vector of names.
pub open spec fn segs_view(v: Seq<Vec<u8>>) -> Seq<Seq<u8>> {
    Seq::new(v.len(), |i: int| v[i]@)
}

/// Split a byte path into its nonempty segments.
pub fn split_path(path: &[u8]) -> (r: Vec<Vec<u8>>)
    ensures
        segs_view(r@) == split_segments(path@),
{
    let mut segs: Vec<Vec<u8>> = Vec::new();
    let mut cur: Vec<u8> = Vec::new();
    let mut i: usize = 0;
    while i < path.len()
        invariant
            0 <= i <= path@.len(),
            cur@.len() > 0 <==> (i > 0 && path@[i as int - 1] != 47),
            split_segments(path@.take(i as int)) == (if cur@.len() == 0 {
                segs_view(segs@)
            } else {
                segs_view(segs@).push(cur@)
            }),
        decreases path@.len() - i,
    {
        let ghost pre = split_segments(path@.take(i as int));
        let c = path[i];
        proof {
            assert(path@.take(i as int + 1).drop_last() =~= path@.take(i as int));
            assert(path@.take(i as int + 1).last() == path@[i as int]);
        }
        if c == 47 {
            if cur.len() > 0 {
                let ghost curg = cur@;
                segs.push(cur);
                cur = Vec::new();
                proof {
                    assert(segs_view(segs@) =~= pre);
                }
            }
        } else {
            if cur.len() > 0 {
                cur.push(c);
                proof {
                    let post = split_segments(path@.take(i as int + 1));
                    assert(post == pre.update(pre.len() - 1, pre.last().push(c)));
                    assert(post =~= segs_view(segs@).push(cur@));
                }
            } else {
                cur.push(c);
                proof {
                    let post = split_segments(path@.take(i as int + 1));
                    assert(post == pre.push(seq![c]));
                    assert(cur@ =~= seq![c]);
                    assert(post =~= segs_view(segs@).push(cur@));
                }
            }
        }
        i = i + 1;
    }
    proof {
        assert(path@.take(path@.len() as int) =~= path@);
    }
    if cur.len() > 0 {
        segs.push(cur);
        proof {
            assert(segs_view(segs@) =~= split_segments(path@));
        }
    }
    proof {
        assert(segs_view(segs@) =~= split_segments(path@));
    }
    segs
}

/// `mkdir` along a path: walk the interior segments, then `mkdir` the last
/// one in the directory reached.
pub open spec fn dview_mkdir_at(d: DirView, segs: Seq<Seq<u8>>, i: int, stat: StatView) -> Result<
    DirView,
    FsError,
>
    decreases segs.len() - i,
{
    if i + 1 >= segs.len() {
        dview_mkdir_here(d, segs[i], stat)
    } else {
        match dview_lookup(d, segs[i]) {
            None => Err(FsError::ParentMissing),
            Some(InodeView::Leaf(_)) => Err(FsError::ParentNotDirectory),
            Some(InodeView::Directory(sub)) => match dview_mkdir_at(sub, segs, i + 1, stat) {
                Err(e) => Err(e),
                Ok(sub2) => Ok(
                    DirView {
                        stat: d.stat,
                        entries: d.entries.update(
                            epos(d.entries, segs[i]),
                            DirEntView { name: segs[i], inode: InodeView::Directory(sub2) },
                        ),
                    },
                ),
            },
        }
    }
}

/// `insert` along a path: walk the interior segments, then bind the last one
/// to leaf `id` in the directory reached.
pub open spec fn dview_insert_at(d: DirView, segs: Seq<Seq<u8>>, i: int, id: int) -> Result<
    DirView,
    FsError,
>
    decreases segs.len() - i,
{
    if i + 1 >= segs.len() {
        Ok(dview_insert_here(d, segs[i], id))
    } else {
        match dview_lookup(d, segs[i]) {
            None => Err(FsError::ParentMissing),
            Some(InodeView::Leaf(_)) => Err(FsError::ParentNotDirectory),
            Some(InodeView::Directory(sub)) => match dview_insert_at(sub, segs, i + 1, id) {
                Err(e) => Err(e),
                Ok(sub2) => Ok(
                    DirView {
                        stat: d.stat,
                        entries: d.entries.update(
                            epos(d.entries, segs[i]),
                            DirEntView { name: segs[i], inode: InodeView::Directory(sub2) },
                        ),
                    },
                ),
            },
        }
    }
}

/// `remove` along a path: walk the interior segments, then drop the binding
/// of the last one in the directory reached.
pub open spec fn dview_remove_at(d: DirView, segs: Seq<Seq<u8>>, i: int) -> Result<
    DirView,
    FsError,
>
    decreases segs.len() - i,
{
    if i + 1 >= segs.len() {
        Ok(dview_remove_here(d, segs[i]))
    } else {
        match dview_lookup(d, segs[i]) {
            None => Err(FsError::ParentMissing),
            Some(InodeView::Leaf(_)) => Err(FsError::ParentNotDirectory),
            Some(InodeView::Directory(sub)) => match dview_remove_at(sub, segs, i + 1) {
                Err(e) => Err(e),
                Ok(sub2) => Ok(
                    DirView {
                        stat: d.stat,
                        entries: d.entries.update(
                            epos(d.entries, segs[i]),
                            DirEntView { name: segs[i], inode: InodeView::Directory(sub2) },
                        ),
                    },
                ),
            },
        }
    }
}

/// Resolve a path to the leaf index it is bound to, for hardlinking.
pub open spec fn dview_get_at(d: DirView, segs: Seq<Seq<u8>>, i: int) -> Result<int, FsError>
    decreases segs.len() - i,
{
    if i + 1 >= segs.len() {
        match dview_lookup(d, segs[i]) {
            Some(InodeView::Leaf(id)) => Ok(id),
            Some(InodeView::Directory(_)) => Err(FsError::LinkTargetIsDirectory),
            None => Err(FsError::LinkTargetMissing),
        }
    } else {
        match dview_lookup(d, segs[i]) {
            None => Err(FsError::ParentMissing),
            Some(InodeView::Leaf(_)) => Err(FsError::ParentNotDirectory),
            Some(InodeView::Directory(sub)) => dview_get_at(sub, segs, i + 1),
        }
    }
}

/// Replacing the subtree of an entry by another sorted subtree keeps the
/// directory well formed.
pub proof fn lemma_update_subdir_props(d: DirView, idx: int, sub2: DirView)
    requires
        dview_sorted(d),
        0 <= idx < d.entries.len(),
        dview_sorted(sub2),
    ensures
        ({
            let v = DirView {
                stat: d.stat,
                entries: d.entries.update(
                    idx,
                    DirEntView { name: d.entries[idx].name, inode: InodeView::Directory(sub2) },
                ),
            };
            dview_sorted(v) && (forall|n: int|
                dview_ids_lt(d, n) && dview_ids_lt(sub2, n) ==> dview_ids_lt(v, n))
        }),
{
    let ino2 = InodeView::Directory(sub2);
    let v = DirView {
        stat: d.stat,
        entries: d.entries.update(idx, DirEntView { name: d.entries[idx].name, inode: ino2 }),
    };
    lemma_sorted_update_ent(d.entries, idx, ino2);
    assert forall|j: int| 0 <= j < v.entries.len() implies inode_sorted(
        #[trigger] v.entries[j].inode,
    ) by {
        if j != idx {
            assert(v.entries[j] == d.entries[j]);
            assert(inode_sorted(d.entries[j].inode));
        }
    }
    assert forall|n: int| dview_ids_lt(d, n) && dview_ids_lt(sub2, n) implies dview_ids_lt(
        v,
        n,
    ) by {
        assert forall|j: int| 0 <= j < v.entries.len() implies inode_ids_lt(
            #[trigger] v.entries[j].inode,
            n,
        ) by {
            if j != idx {
                assert(v.entries[j] == d.entries[j]);
                assert(inode_ids_lt(d.entries[j].inode, n));
            }
        }
    }
}


/// Apply `mkdir` at the path `segs[i..]` below `d`.
fn mkdir_at(d: &mut Directory, segs: &Vec<Vec<u8>>, i: usize, stat: Stat) -> (r: Result<
    (),
    FsError,
>)
    requires
        dview_sorted(old(d)@),
        i < segs@.len(),
    ensures
        match dview_mkdir_at(old(d)@, segs_view(segs@), i as int, stat@) {
            Ok(v) => r is Ok && final(d)@ == v,
            Err(e) => r == Err::<(), FsError>(e) && final(d)@ == old(d)@,
        },
        dview_sorted(final(d)@),
        forall|n: int| dview_ids_lt(old(d)@, n) ==> dview_ids_lt(final(d)@, n),
    decreases segs@.len() - i,
{
    proof {
        assert(segs_view(segs@)[i as int] =~= segs@[i as int]@);
    }
    if i == segs.len() - 1 {
        let r = d.mkdir(segs[i].as_slice(), stat);
        r
    } else {
        let ghost s0 = d@.entries;
        proof {
            lemma_ents_view_all(d.entries@);
            lemma_epos(s0, segs@[i as int]@);
        }
        match d.find_entry(segs[i].as_slice()) {
            Err(_) => Err(FsError::ParentMissing),
            Ok(idx) => {
                let is_dir = match &d.entries[idx].inode {
                    Inode::Directory(_) => true,
                    Inode::Leaf(_) => false,
                };
                if !is_dir {
                    return Err(FsError::ParentNotDirectory);
                }
                let mut ent = d.entries.remove(idx);
                match ent.inode {
                    Inode::Directory(sub) => {
                        let mut dd = *sub;
                        let ghost subv = dir_view(dd);
                        proof {
                            assert(inode_sorted(s0[idx as int].inode));
                        }
                        let r = mkdir_at(&mut dd, segs, i + 1, stat);
                        d.entries.insert(
                            idx,
                            DirEnt { name: ent.name, inode: Inode::Directory(Box::new(dd)) },
                        );
                        proof {
                            let p = idx as int;
                            let se0 = old(d).entries@;
                            let ent2 = d.entries@[p];
                            se0.remove_ensures(p);
                            se0.remove(p).insert_ensures(p, ent2);
                            assert(d.entries@ =~= se0.update(p, ent2));
                            lemma_ents_view_all(d.entries@);
                            let entv2 = DirEntView {
                                name: s0[p].name,
                                inode: InodeView::Directory(dir_view(dd)),
                            };
                            assert(inode_view(ent2.inode) == entv2.inode);
                            assert(d@.entries =~= s0.update(p, entv2));
                            lemma_update_subdir_props(old(d)@, p, dir_view(dd));
                            if r is Err {
                                assert(dir_view(dd) == subv);
                                assert(s0[p] == entv2);
                                assert(d@.entries =~= s0);
                                assert(d@ =~= old(d)@);
                            } else {
                                let v = dview_mkdir_at(
                                    old(d)@,
                                    segs_view(segs@),
                                    i as int,
                                    stat@,
                                )->Ok_0;
                                assert(d@ =~= v);
                            }
                            assert forall|n: int| dview_ids_lt(old(d)@, n) implies dview_ids_lt(
                                d@,
                                n,
                            ) by {
                                assert(inode_ids_lt(s0[p].inode, n));
                                assert(dview_ids_lt(subv, n));
                            }
                        }
                        r
                    },
                    Inode::Leaf(_) => {
                        proof {
                            assert(false);
                        }
                        Err(FsError::ParentNotDirectory)
                    },
                }
            },
        }
    }
}

/// Bind the path `segs[i..]` below `d` to leaf `id`.
fn insert_at(d: &mut Directory, segs: &Vec<Vec<u8>>, i: usize, id: usize) -> (r: Result<
    (),
    FsError,
>)
    requires
        dview_sorted(old(d)@),
        i < segs@.len(),
    ensures
        match dview_insert_at(old(d)@, segs_view(segs@), i as int, id as int) {
            Ok(v) => r is Ok && final(d)@ == v,
            Err(e) => r == Err::<(), FsError>(e) && final(d)@ == old(d)@,
        },
        dview_sorted(final(d)@),
        forall|n: int| dview_ids_lt(old(d)@, n) && id < n ==> dview_ids_lt(final(d)@, n),
    decreases segs@.len() - i,
{
    proof {
        assert(segs_view(segs@)[i as int] =~= segs@[i as int]@);
    }
    if i == segs.len() - 1 {
        d.insert(segs[i].as_slice(), id);
        Ok(())
    } else {
        let ghost s0 = d@.entries;
        proof {
            lemma_ents_view_all(d.entries@);
            lemma_epos(s0, segs@[i as int]@);
        }
        match d.find_entry(segs[i].as_slice()) {
            Err(_) => Err(FsError::ParentMissing),
            Ok(idx) => {
                let is_dir = match &d.entries[idx].inode {
                    Inode::Directory(_) => true,
                    Inode::Leaf(_) => false,
                };
                if !is_dir {
                    return Err(FsError::ParentNotDirectory);
                }
                let mut ent = d.entries.remove(idx);
                match ent.inode {
                    Inode::Directory(sub) => {
                        let mut dd = *sub;
                        let ghost subv = dir_view(dd);
                        proof {
                            assert(inode_sorted(s0[idx as int].inode));
                        }
                        let r = insert_at(&mut dd, segs, i + 1, id);
                        d.entries.insert(
                            idx,
                            DirEnt { name: ent.name, inode: Inode::Directory(Box::new(dd)) },
                        );
                        proof {
                            let p = idx as int;
                            let se0 = old(d).entries@;
                            let ent2 = d.entries@[p];
                            se0.remove_ensures(p);
                            se0.remove(p).insert_ensures(p, ent2);
                            assert(d.entries@ =~= se0.update(p, ent2));
                            lemma_ents_view_all(d.entries@);
                            let entv2 = DirEntView {
                                name: s0[p].name,
                                inode: InodeView::Directory(dir_view(dd)),
                            };
                            assert(inode_view(ent2.inode) == entv2.inode);
                            assert(d@.entries =~= s0.update(p, entv2));
                            lemma_update_subdir_props(old(d)@, p, dir_view(dd));
                            if r is Err {
                                assert(dir_view(dd) == subv);
                                assert(s0[p] == entv2);
                                assert(d@.entries =~= s0);
                                assert(d@ =~= old(d)@);
                            } else {
                                let v = dview_insert_at(
                                    old(d)@,
                                    segs_view(segs@),
                                    i as int,
                                    id as int,
                                )->Ok_0;
                                assert(d@ =~= v);
                            }
                            assert forall|n: int|
                                dview_ids_lt(old(d)@, n) && id < n implies dview_ids_lt(
                                d@,
                                n,
                            ) by {
                                assert(inode_ids_lt(s0[p].inode, n));
                                assert(dview_ids_lt(subv, n));
                            }
                        }
                        r
                    },
                    Inode::Leaf(_) => {
                        proof {
                            assert(false);
                        }
                        Err(FsError::ParentNotDirectory)
                    },
                }
            },
        }
    }
}

/// Drop the binding of the path `segs[i..]` below `d`.
fn remove_at(d: &mut Directory, segs: &Vec<Vec<u8>>, i: usize) -> (r: Result<(), FsError>)
    requires
        dview_sorted(old(d)@),
        i < segs@.len(),
    ensures
        match dview_remove_at(old(d)@, segs_view(segs@), i as int) {
            Ok(v) => r is Ok && final(d)@ == v,
            Err(e) => r == Err::<(), FsError>(e) && final(d)@ == old(d)@,
        },
        dview_sorted(final(d)@),
        forall|n: int| dview_ids_lt(old(d)@, n) ==> dview_ids_lt(final(d)@, n),
    decreases segs@.len() - i,
{
    proof {
        assert(segs_view(segs@)[i as int] =~= segs@[i as int]@);
    }
    if i == segs.len() - 1 {
        d.remove(segs[i].as_slice());
        Ok(())
    } else {
        let ghost s0 = d@.entries;
        proof {
            lemma_ents_view_all(d.entries@);
            lemma_epos(s0, segs@[i as int]@);
        }
        match d.find_entry(segs[i].as_slice()) {
            Err(_) => Err(FsError::ParentMissing),
            Ok(idx) => {
                let is_dir = match &d.entries[idx].inode {
                    Inode::Directory(_) => true,
                    Inode::Leaf(_) => false,
                };
                if !is_dir {
                    return Err(FsError::ParentNotDirectory);
                }
                let mut ent = d.entries.remove(idx);
                match ent.inode {
                    Inode::Directory(sub) => {
                        let mut dd = *sub;
                        let ghost subv = dir_view(dd);
                        proof {
                            assert(inode_sorted(s0[idx as int].inode));
                        }
                        let r = remove_at(&mut dd, segs, i + 1);
                        d.entries.insert(
                            idx,
                            DirEnt { name: ent.name, inode: Inode::Directory(Box::new(dd)) },
                        );
                        proof {
                            let p = idx as int;
                            let se0 = old(d).entries@;
                            let ent2 = d.entries@[p];
                            se0.remove_ensures(p);
                            se0.remove(p).insert_ensures(p, ent2);
                            assert(d.entries@ =~= se0.update(p, ent2));
                            lemma_ents_view_all(d.entries@);
                            let entv2 = DirEntView {
                                name: s0[p].name,
                                inode: InodeView::Directory(dir_view(dd)),
                            };
                            assert(inode_view(ent2.inode) == entv2.inode);
                            assert(d@.entries =~= s0.update(p, entv2));
                            lemma_update_subdir_props(old(d)@, p, dir_view(dd));
                            if r is Err {
                                assert(dir_view(dd) == subv);
                                assert(s0[p] == entv2);
                                assert(d@.entries =~= s0);
                                assert(d@ =~= old(d)@);
                            } else {
                                let v = dview_remove_at(old(d)@, segs_view(segs@), i as int)->Ok_0;
                                assert(d@ =~= v);
                            }
                            assert forall|n: int| dview_ids_lt(old(d)@, n) implies dview_ids_lt(
                                d@,
                                n,
                            ) by {
                                assert(inode_ids_lt(s0[p].inode, n));
                                assert(dview_ids_lt(subv, n));
                            }
                        }
                        r
                    },
                    Inode::Leaf(_) => {
                        proof {
                            assert(false);
                        }
                        Err(FsError::ParentNotDirectory)
                    },
                }
            },
        }
    }
}

/// Resolve the path `segs[i..]` below `d` to the leaf index it is bound to.
fn get_at(d: &Directory, segs: &Vec<Vec<u8>>, i: usize) -> (r: Result<usize, FsError>)
    requires
        dview_sorted(d@),
        i < segs@.len(),
    ensures
        match dview_get_at(d@, segs_view(segs@), i as int) {
            Ok(id) => r is Ok && r->Ok_0 as int == id,
            Err(e) => r == Err::<usize, FsError>(e),
        },
    decreases segs@.len() - i,
{
    proof {
        assert(segs_view(segs@)[i as int] =~= segs@[i as int]@);
        lemma_ents_view_all(d.entries@);
    }
    if i == segs.len() - 1 {
        d.get_for_link(segs[i].as_slice())
    } else {
        match d.find_entry(segs[i].as_slice()) {
            Err(_) => Err(FsError::ParentMissing),
            Ok(idx) => match &d.entries[idx].inode {
                Inode::Directory(sub) => {
                    proof {
                        assert(inode_sorted(d@.entries[idx as int].inode));
                    }
                    get_at(&**sub, segs, i + 1)
                },
                Inode::Leaf(_) => Err(FsError::ParentNotDirectory),
            },
        }
    }
}


/// The whole model: the root directory plus the table of shared leaves.
pub struct FileSystem {
    pub root: Directory,
    pub leaves: Vec<Leaf>,
}

/// The mathematical value of a `FileSystem`.
pub struct FileSystemView {
    pub root: DirView,
    pub leaves: Seq<LeafView>,
}

impl View for FileSystem {
    type V = FileSystemView;

    open spec fn view(&self) -> FileSystemView {
        FileSystemView { root: self.root@, leaves: self.leaves@.map_values(|l: Leaf| l@) } 
    }
}

/// Every directory of the tree is sorted and every leaf index points into
/// the leaf table.
pub open spec fn fs_wf(v: FileSystemView) -> bool {
    dview_sorted(v.root) && dview_ids_lt(v.root, v.leaves.len() as int)
}

/// `mkdir` on the whole model; a path without segments changes nothing.
pub open spec fn fsview_mkdir(v: FileSystemView, path: Seq<u8>, stat: StatView) -> Result<
    FileSystemView,
    FsError,
> {
    let segs = split_segments(path);
    if segs.len() == 0 {
        Ok(v)
    } else {
        match dview_mkdir_at(v.root, segs, 0, stat) {
            Ok(r) => Ok(FileSystemView { root: r, leaves: v.leaves }),
            Err(e) => Err(e),
        }
    }
}

/// Bind `path` to the existing leaf `id`.
pub open spec fn fsview_insert_rc(v: FileSystemView, path: Seq<u8>, id: int) -> Result<
    FileSystemView,
    FsError,
> {
    let segs = split_segments(path);
    if segs.len() == 0 {
        Ok(v)
    } else {
        match dview_insert_at(v.root, segs, 0, id) {
            Ok(r) => Ok(FileSystemView { root: r, leaves: v.leaves }),
            Err(e) => Err(e),
        }
    }
}

/// Append `leaf` to the leaf table and bind `path` to it.
pub open spec fn fsview_insert(v: FileSystemView, path: Seq<u8>, leaf: LeafView) -> Result<
    FileSystemView,
    FsError,
> {
    fsview_insert_rc(
        FileSystemView { root: v.root, leaves: v.leaves.push(leaf) },
        path,
        v.leaves.len() as int,
    )
}

/// Resolve `path` to the leaf index it is bound to.
pub open spec fn fsview_get(v: FileSystemView, path: Seq<u8>) -> Result<int, FsError> {
    let segs = split_segments(path);
    if segs.len() == 0 {
        Err(FsError::LinkTargetMissing)
    } else {
        dview_get_at(v.root, segs, 0)
    }
}

/// Bind `path` to the same leaf that `target` is bound to.
pub open spec fn fsview_hardlink(v: FileSystemView, path: Seq<u8>, target: Seq<u8>) -> Result<
    FileSystemView,
    FsError,
> {
    match fsview_get(v, target) {
        Ok(id) => fsview_insert_rc(v, path, id),
        Err(e) => Err(e),
    }
}

/// Drop the binding of `path`; a missing final name is a no-op.
pub open spec fn fsview_remove(v: FileSystemView, path: Seq<u8>) -> Result<
    FileSystemView,
    FsError,
> {
    let segs = split_segments(path);
    if segs.len() == 0 {
        Ok(v)
    } else {
        match dview_remove_at(v.root, segs, 0) {
            Ok(r) => Ok(FileSystemView { root: r, leaves: v.leaves }),
            Err(e) => Err(e),
        }
    }
}

impl FileSystem {
    /// The empty filesystem: a root directory with mode `0o755` and no
    /// entries, and an empty leaf table.
    pub fn new() -> (r: FileSystem)
        ensures
            r@.root == (DirView {
                stat: StatView {
                    st_mode: 0o755,
                    st_uid: 0,
                    st_gid: 0,
                    st_mtim_sec: 0,
                    xattrs: Seq::empty(),
                },
                entries: Seq::empty(),
            }),
            r@.leaves == Seq::<LeafView>::empty(),
            fs_wf(r@),
    {
        let r = FileSystem {
            root: Directory {
                stat: Stat {
                    st_mode: 0o755,
                    st_uid: 0,
                    st_gid: 0,
                    st_mtim_sec: 0,
                    xattrs: Vec::new(),
                },
                entries: Vec::new(),
            },
            leaves: Vec::new(),
        };
        proof {
            assert(r@.root.stat.xattrs =~= Seq::<(Seq<u8>, Seq<u8>)>::empty());
            assert(r@.root.entries =~= Seq::<DirEntView>::empty());
            assert(r@.root =~= DirView {
                stat: StatView {
                    st_mode: 0o755,
                    st_uid: 0,
                    st_gid: 0,
                    st_mtim_sec: 0,
                    xattrs: Seq::empty(),
                },
                entries: Seq::empty(),
            });
            assert(r@.leaves =~= Seq::<LeafView>::empty());
        }
        r
    }

    /// Create the directory at `path` (or renew its metadata, keeping its
    /// children); every interior segment must already be a directory.
    pub fn mkdir(&mut self, path: &[u8], stat: Stat) -> (r: Result<(), FsError>)
        requires
            fs_wf(old(self)@),
        ensures
            match fsview_mkdir(old(self)@, path@, stat@) {
                Ok(v) => r is Ok && final(self)@ == v,
                Err(e) => r == Err::<(), FsError>(e) && final(self)@ == old(self)@,
            },
            fs_wf(final(self)@),
    {
        let segs = split_path(path);
        if segs.len() == 0 {
            return Ok(());
        }
        let r = mkdir_at(&mut self.root, &segs, 0, stat);
        proof {
            if r is Ok {
                assert(final(self)@ =~= fsview_mkdir(old(self)@, path@, stat@)->Ok_0);
            } else {
                assert(final(self)@ =~= old(self)@);
            }
        }
        r
    }

    /// Bind `path` to the existing leaf `id`, replacing any previous
    /// binding; every interior segment must already be a directory.
    pub fn insert_rc(&mut self, path: &[u8], id: usize) -> (r: Result<(), FsError>)
        requires
            fs_wf(old(self)@),
            id < old(self)@.leaves.len(),
            split_segments(path@).len() > 0,
        ensures
            match fsview_insert_rc(old(self)@, path@, id as int) {
                Ok(v) => r is Ok && final(self)@ == v,
                Err(e) => r == Err::<(), FsError>(e) && final(self)@ == old(self)@,
            },
            fs_wf(final(self)@),
    {
        let segs = split_path(path);
        let r = insert_at(&mut self.root, &segs, 0, id);
        proof {
            if r is Ok {
                assert(final(self)@ =~= fsview_insert_rc(old(self)@, path@, id as int)->Ok_0);
            } else {
                assert(final(self)@ =~= old(self)@);
            }
        }
        r
    }

    /// Add `leaf` to the leaf table and bind `path` to it, replacing any
    /// previous binding.
    pub fn insert(&mut self, path: &[u8], leaf: Leaf) -> (r: Result<(), FsError>)
        requires
            fs_wf(old(self)@),
            split_segments(path@).len() > 0,
        ensures
            match fsview_insert(old(self)@, path@, leaf@) {
                Ok(v) => r is Ok && final(self)@ == v,
                Err(e) => r == Err::<(), FsError>(e) && final(self)@ == old(self)@,
            },
            fs_wf(final(self)@),
    {
        let ghost v0 = self@;
        let id = self.leaves.len();
        self.leaves.push(leaf);
        proof {
            assert(self@.leaves =~= v0.leaves.push(leaf@));
            lemma_dview_ids_lt_mono(self@.root, v0.leaves.len() as int, self@.leaves.len() as int);
        }
        let segs = split_path(path);
        proof {
            assert(self.root@ == v0.root);
        }
        let r = insert_at(&mut self.root, &segs, 0, id);
        proof {
            let segsv = split_segments(path@);
            assert(self@.leaves =~= v0.leaves.push(leaf@));
            if r is Ok {
                let rt = dview_insert_at(v0.root, segsv, 0, id as int)->Ok_0;
                assert(self.root@ == rt);
                assert(fsview_insert(v0, path@, leaf@) == Ok::<FileSystemView, FsError>(
                    FileSystemView { root: rt, leaves: v0.leaves.push(leaf@) },
                ));
                assert(self@ =~= FileSystemView { root: rt, leaves: v0.leaves.push(leaf@) });
            } else {
                let e = dview_insert_at(v0.root, segsv, 0, id as int)->Err_0;
                assert(fsview_insert(v0, path@, leaf@) == Err::<FileSystemView, FsError>(e));
            }
        }
        match r {
            Ok(()) => Ok(()),
            Err(e) => {
                // the binding failed: take the orphaned leaf out again
                self.leaves.pop();
                proof {
                    assert(self@.leaves =~= v0.leaves);
                    assert(self@ =~= v0);
                }
                Err(e)
            },
        }
    }

    /// Resolve `target` to its leaf, for hardlinking.
    fn get_for_link(&self, target: &[u8]) -> (r: Result<usize, FsError>)
        requires
            fs_wf(self@),
            split_segments(target@).len() > 0,
        ensures
            match fsview_get(self@, target@) {
                Ok(id) => r is Ok && r->Ok_0 as int == id,
                Err(e) => r == Err::<usize, FsError>(e),
            },
    {
        let segs = split_path(target);
        get_at(&self.root, &segs, 0)
    }

    /// Bind `path` to the same leaf that `target` is bound to: the two
    /// paths then alias one node.
    pub fn hardlink(&mut self, path: &[u8], target: &[u8]) -> (r: Result<(), FsError>)
        requires
            fs_wf(old(self)@),
            split_segments(path@).len() > 0,
            split_segments(target@).len() > 0,
        ensures
            match fsview_hardlink(old(self)@, path@, target@) {
                Ok(v) => r is Ok && final(self)@ == v,
                Err(e) => r == Err::<(), FsError>(e) && final(self)@ == old(self)@,
            },
            fs_wf(final(self)@),
    {
        let id = match self.get_for_link(target) {
            Ok(id) => id,
            Err(e) => {
                return Err(e);
            },
        };
        proof {
            lemma_dview_get_at_in_range(
                self@.root,
                split_segments(target@),
                0,
                self@.leaves.len() as int,
            );
        }
        self.insert_rc(path, id)
    }

    /// Drop the binding of `path`; a missing final name is a no-op, but
    /// every interior segment must be a directory.
    pub fn remove(&mut self, path: &[u8]) -> (r: Result<(), FsError>)
        requires
            fs_wf(old(self)@),
            split_segments(path@).len() > 0,
        ensures
            match fsview_remove(old(self)@, path@) {
                Ok(v) => r is Ok && final(self)@ == v,
                Err(e) => r == Err::<(), FsError>(e) && final(self)@ == old(self)@,
            },
            fs_wf(final(self)@),
    {
        let segs = split_path(path);
        let r = remove_at(&mut self.root, &segs, 0);
        proof {
            if r is Ok {
                assert(final(self)@ =~= fsview_remove(old(self)@, path@)->Ok_0);
            } else {
                assert(final(self)@ =~= old(self)@);
            }
        }
        r
    }
}

/// A successful hardlink resolution yields an index into the leaf table.
pub proof fn lemma_dview_get_at_in_range(d: DirView, segs: Seq<Seq<u8>>, i: int, n: int)
    requires
        dview_sorted(d),
        dview_ids_lt(d, n),
        0 <= i < segs.len(),
    ensures
        match dview_get_at(d, segs, i) {
            Ok(id) => 0 <= id < n,
            Err(_) => true,
        },
    decreases segs.len() - i,
{
    lemma_epos(d.entries, segs[i]);
    if ents_found(d.entries, segs[i]) {
        let p = epos(d.entries, segs[i]);
        assert(inode_ids_lt(d.entries[p].inode, n));
        assert(inode_sorted(d.entries[p].inode));
        if i + 1 < segs.len() {
            match d.entries[p].inode {
                InodeView::Directory(sub) => {
                    lemma_dview_get_at_in_range(sub, segs, i + 1, n);
                },
                InodeView::Leaf(_) => {},
            }
        }
    }
}


/// A reference count capped at two: all the dump cares about is whether a
/// leaf is referenced more than once.
pub open spec fn cap2(x: int) -> int {
    if x >= 2 {
        2
    } else {
        x
    }
}

/// How many entries of the tree reference leaf `id`.
pub open spec fn inode_mult(i: InodeView, id: int) -> int
    decreases i,
{
    match i {
        InodeView::Directory(d) => ents_mult(d.entries, id),
        InodeView::Leaf(j) => if j == id {
            1
        } else {
            0
        },
    }
}

/// How many entries of the tree reference leaf `id`.
pub open spec fn ents_mult(s: Seq<DirEntView>, id: int) -> int
    decreases s,
{
    if s.len() == 0 {
        0
    } else {
        inode_mult(s[0].inode, id) + ents_mult(s.drop_first(), id)
    }
}

/// Multiplicities are never negative.
pub proof fn lemma_inode_mult_nonneg(i: InodeView, id: int)
    ensures
        inode_mult(i, id) >= 0,
    decreases i,
{
    match i {
        InodeView::Directory(d) => {
            lemma_ents_mult_nonneg(d.entries, id);
        },
        InodeView::Leaf(_) => {},
    }
}

/// Multiplicities are never negative.
pub proof fn lemma_ents_mult_nonneg(s: Seq<DirEntView>, id: int)
    ensures
        ents_mult(s, id) >= 0,
    decreases s,
{
    if s.len() > 0 {
        lemma_inode_mult_nonneg(s[0].inode, id);
        lemma_ents_mult_nonneg(s.drop_first(), id);
    }
}

/// Multiplicity distributes over concatenation of entry sequences.
pub proof fn lemma_ents_mult_concat(a: Seq<DirEntView>, b: Seq<DirEntView>, id: int)
    ensures
        ents_mult(a + b, id) == ents_mult(a, id) + ents_mult(b, id),
    decreases a.len(),
{
    if a.len() == 0 {
        assert(a + b =~= b);
    } else {
        assert((a + b).drop_first() =~= a.drop_first() + b);
        assert((a + b)[0] == a[0]);
        lemma_ents_mult_concat(a.drop_first(), b, id);
    }
}

/// Walk the tree and add each leaf reference to its capped counter.
fn count_ids(d: &Directory, counts: &mut Vec<u8>)
    requires
        dview_ids_lt(d@, old(counts)@.len() as int),
        forall|k: int| 0 <= k < old(counts)@.len() ==> old(counts)@[k] <= 2,
    ensures
        final(counts)@.len() == old(counts)@.len(),
        forall|k: int|
            0 <= k < old(counts)@.len() ==> final(counts)@[k] as int == cap2(
                old(counts)@[k] + ents_mult(d@.entries, k),
            ),
    decreases *d,
{
    proof {
        lemma_ents_view_all(d.entries@);
    }
    let ghost c0 = counts@;
    let ghost s = d@.entries;
    proof {
        assert forall|k: int| 0 <= k < c0.len() implies counts@[k] as int == cap2(
            c0[k] + ents_mult(s.take(0), k),
        ) by {
            assert(s.take(0) =~= Seq::<DirEntView>::empty());
            assert(ents_mult(Seq::<DirEntView>::empty(), k) == 0);
        }
    }
    let mut i: usize = 0;
    while i < d.entries.len()
        invariant
            0 <= i <= d.entries@.len(),
            s == d@.entries,
            s.len() == d.entries@.len(),
            dview_ids_lt(d@, c0.len() as int),
            counts@.len() == c0.len(),
            forall|k: int|
                0 <= k < c0.len() ==> counts@[k] as int == cap2(
                    c0[k] + ents_mult(s.take(i as int), k),
                ),
        decreases d.entries@.len() - i,
    {
        proof {
            lemma_ents_view_all(d.entries@);
            assert(s.take(i as int + 1) =~= s.take(i as int) + seq![s[i as int]]);
            assert(inode_ids_lt(s[i as int].inode, c0.len() as int));
        }
        let ghost cpre = counts@;
        match &d.entries[i].inode {
            Inode::Leaf(id) => {
                let idv = *id;
                let c = counts[idv];
                if c < 2 {
                    counts[idv] = c + 1;
                }
                proof {
                    assert forall|k: int| 0 <= k < c0.len() implies counts@[k] as int == cap2(
                        c0[k] + ents_mult(s.take(i as int + 1), k),
                    ) by {
                        lemma_ents_mult_concat(s.take(i as int), seq![s[i as int]], k);
                        lemma_ents_mult_nonneg(s.take(i as int), k);
                        assert(seq![s[i as int]].drop_first() =~= Seq::<DirEntView>::empty());
                        assert(ents_mult(Seq::<DirEntView>::empty(), k) == 0);
                        assert(ents_mult(seq![s[i as int]], k) == inode_mult(s[i as int].inode, k));
                    }
                }
            },
            Inode::Directory(sub) => {
                proof {
                    assert forall|k: int| 0 <= k < counts@.len() implies counts@[k] <= 2 by {
                        lemma_ents_mult_nonneg(s.take(i as int), k);
                    }
                }
                count_ids(&**sub, counts);
                proof {
                    assert forall|k: int| 0 <= k < c0.len() implies counts@[k] as int == cap2(
                        c0[k] + ents_mult(s.take(i as int + 1), k),
                    ) by {
                        lemma_ents_mult_concat(s.take(i as int), seq![s[i as int]], k);
                        lemma_ents_mult_nonneg(s.take(i as int), k);
                        lemma_ents_mult_nonneg(dir_view(**sub).entries, k);
                        assert(seq![s[i as int]].drop_first() =~= Seq::<DirEntView>::empty());
                        assert(ents_mult(Seq::<DirEntView>::empty(), k) == 0);
                        assert(ents_mult(seq![s[i as int]], k) == inode_mult(s[i as int].inode, k));
                        assert(counts@[k] as int == cap2(cpre[k] + ents_mult(dir_view(**sub).entries, k)));
                    }
                }
            },
        }
        i = i + 1;
    }
    proof {
        assert(s.take(s.len() as int) =~= s);
    }
}

/// The path of a child: its name below the directory's own path.
pub open spec fn path_join(dir: Seq<u8>, name: Seq<u8>) -> Seq<u8> {
    if dir.len() > 0 && dir.last() == 47 {
        dir + name
    } else {
        dir + seq![47u8] + name
    }
}

/// A path in its quoted dump form.
pub open spec fn quoted(p: Seq<u8>) -> Seq<u8> {
    seq![34u8] + p + seq![34u8]
}

/// The ` -> dir` line tail.
pub open spec fn arrow_dir() -> Seq<u8> {
    seq![32u8, 45u8, 62u8, 32u8, 100u8, 105u8, 114u8, 10u8]
}

/// The ` -> file` line tail.
pub open spec fn arrow_file() -> Seq<u8> {
    seq![32u8, 45u8, 62u8, 32u8, 102u8, 105u8, 108u8, 101u8, 10u8]
}

/// The ` -> hard.` line tail that anchors the first sight of a shared leaf.
pub open spec fn arrow_hard_anchor() -> Seq<u8> {
    seq![32u8, 45u8, 62u8, 32u8, 104u8, 97u8, 114u8, 100u8, 46u8, 10u8]
}

/// The ` -> hard ` infix of a line referring back to an anchor.
pub open spec fn arrow_hard_to() -> Seq<u8> {
    seq![32u8, 45u8, 62u8, 32u8, 104u8, 97u8, 114u8, 100u8, 32u8]
}

/// The leaf indices the dump must treat as hardlinked: those referenced
/// more than once.
pub open spec fn shared_of(counts: Seq<u8>) -> Set<int> {
    Set::new(|id: int| 0 <= id < counts.len() && counts[id] >= 2)
}

/// The anchor paths already emitted, by leaf index.
pub open spec fn first_map(v: Seq<Option<Vec<u8>>>) -> Map<int, Seq<u8>> {
    Map::new(|id: int| 0 <= id < v.len() && v[id] is Some, |id: int| v[id]->0@)
}

/// Render one entry: a directory recursively, a private leaf as a `file`
/// line, and a shared leaf as an anchor or a back reference.
pub open spec fn render_ent(
    e: DirEntView,
    dirpath: Seq<u8>,
    shared: Set<int>,
    first: Map<int, Seq<u8>>,
) -> (Seq<u8>, Map<int, Seq<u8>>)
    decreases e,
{
    let path = path_join(dirpath, e.name);
    match e.inode {
        InodeView::Directory(sub) => {
            let r = render_ents(sub.entries, path, shared, first);
            (quoted(path) + arrow_dir() + r.0, r.1)
        },
        InodeView::Leaf(id) => {
            if !shared.contains(id) {
                (quoted(path) + arrow_file(), first)
            } else if first.contains_key(id) {
                (quoted(e.name) + arrow_hard_to() + quoted(first[id]) + seq![10u8], first)
            } else {
                (quoted(path) + arrow_hard_anchor(), first.insert(id, path))
            }
        },
    }
}

/// Render a directory's entries in order, threading the anchor map.
pub open spec fn render_ents(
    s: Seq<DirEntView>,
    dirpath: Seq<u8>,
    shared: Set<int>,
    first: Map<int, Seq<u8>>,
) -> (Seq<u8>, Map<int, Seq<u8>>)
    decreases s,
{
    if s.len() == 0 {
        (Seq::empty(), first)
    } else {
        let r1 = render_ent(s[0], dirpath, shared, first);
        let r2 = render_ents(s.drop_first(), dirpath, shared, r1.1);
        (r1.0 + r2.0, r2.1)
    }
}

/// Rendering a single entry.
pub proof fn lemma_render_ents_singleton(
    e: DirEntView,
    dirpath: Seq<u8>,
    shared: Set<int>,
    first: Map<int, Seq<u8>>,
)
    ensures
        render_ents(seq![e], dirpath, shared, first) == render_ent(e, dirpath, shared, first),
{
    let s1 = seq![e];
    let r1 = render_ent(e, dirpath, shared, first);
    assert(s1.drop_first() =~= Seq::<DirEntView>::empty());
    assert(render_ents(Seq::<DirEntView>::empty(), dirpath, shared, r1.1) == (
        Seq::<u8>::empty(),
        r1.1,
    ));
    assert(r1.0 + Seq::<u8>::empty() =~= r1.0);
}

/// Rendering distributes over concatenation of entry sequences.
pub proof fn lemma_render_ents_concat(
    a: Seq<DirEntView>,
    b: Seq<DirEntView>,
    dirpath: Seq<u8>,
    shared: Set<int>,
    first: Map<int, Seq<u8>>,
)
    ensures
        ({
            let ra = render_ents(a, dirpath, shared, first);
            let rb = render_ents(b, dirpath, shared, ra.1);
            render_ents(a + b, dirpath, shared, first) == (((ra.0 + rb.0), rb.1))
        }),
    decreases a.len(),
{
    let ra = render_ents(a, dirpath, shared, first);
    let rb = render_ents(b, dirpath, shared, ra.1);
    if a.len() == 0 {
        assert(a + b =~= b);
        assert(ra.0 + rb.0 =~= rb.0);
    } else {
        assert((a + b).drop_first() =~= a.drop_first() + b);
        assert((a + b)[0] == a[0]);
        let r1 = render_ent(a[0], dirpath, shared, first);
        lemma_render_ents_concat(a.drop_first(), b, dirpath, shared, r1.1);
        let ra2 = render_ents(a.drop_first(), dirpath, shared, r1.1);
        let rb2 = render_ents(b, dirpath, shared, ra2.1);
        assert(r1.0 + (ra2.0 + rb2.0) =~= (r1.0 + ra2.0) + rb2.0);
    }
}

/// The full dump text of a filesystem: the root line, then every node in
/// depth-first, name-sorted order.
pub open spec fn render_fs(v: FileSystemView) -> Seq<u8> {
    let shared = Set::new(|id: int| ents_mult(v.root.entries, id) >= 2);
    quoted(seq![47u8]) + arrow_dir() + render_ents(
        v.root.entries,
        seq![47u8],
        shared,
        Map::empty(),
    ).0
}

/// Append the bytes of `src` to `out`.
pub fn push_bytes(out: &mut Vec<u8>, src: &[u8])
    ensures
        final(out)@ == old(out)@ + src@,
{
    let mut i: usize = 0;
    while i < src.len()
        invariant
            0 <= i <= src@.len(),
            out@ == old(out)@ + src@.take(i as int),
        decreases src@.len() - i,
    {
        out.push(src[i]);
        proof {
            assert(old(out)@ + src@.take(i as int + 1) =~= (old(out)@ + src@.take(i as int)).push(
                src@[i as int],
            ));
        }
        i = i + 1;
    }
    proof {
        assert(src@.take(src@.len() as int) =~= src@);
    }
}

/// Append `p` in quoted form.
pub fn push_quoted(out: &mut Vec<u8>, p: &[u8])
    ensures
        final(out)@ == old(out)@ + quoted(p@),
{
    out.push(34);
    push_bytes(out, p);
    out.push(34);
    proof {
        assert(final(out)@ =~= old(out)@ + quoted(p@));
    }
}

/// Join a child name to its directory's path.
pub fn path_join_exec(dir: &[u8], name: &[u8]) -> (r: Vec<u8>)
    ensures
        r@ == path_join(dir@, name@),
{
    let mut r = vstd::slice::slice_to_vec(dir);
    if dir.len() == 0 || dir[dir.len() - 1] != 47 {
        r.push(47);
    }
    push_bytes(&mut r, name);
    proof {
        assert(r@ =~= path_join(dir@, name@));
    }
    r
}


impl Directory {
    /// Emit this directory's dump records: its own `dir` line, then each
    /// entry in sorted order, directories recursively. `counts` carries the
    /// capped reference count of every leaf; `first` carries the anchor
    /// path already chosen for each shared leaf.
    pub fn write(
        &self,
        out: &mut Vec<u8>,
        dirname: &[u8],
        counts: &Vec<u8>,
        first: &mut Vec<Option<Vec<u8>>>,
    )
        requires
            dview_ids_lt(self@, counts@.len() as int),
            old(first)@.len() == counts@.len(),
        ensures
            final(first)@.len() == counts@.len(),
            ({
                let r = render_ents(
                    self@.entries,
                    dirname@,
                    shared_of(counts@),
                    first_map(old(first)@),
                );
                final(out)@ == old(out)@ + quoted(dirname@) + arrow_dir() + r.0 && first_map(
                    final(first)@,
                ) == r.1
            }),
        decreases *self,
    {
        proof {
            lemma_ents_view_all(self.entries@);
        }
        let ghost s = self@.entries;
        let ghost shared = shared_of(counts@);
        push_quoted(out, dirname);
        push_bytes(out, &[32, 45, 62, 32, 100, 105, 114, 10]);
        proof {
            assert([32u8, 45u8, 62u8, 32u8, 100u8, 105u8, 114u8, 10u8]@ =~= arrow_dir());
        }
        let ghost out0 = out@;
        let ghost f0 = first_map(first@);
        let mut i: usize = 0;
        while i < self.entries.len()
            invariant
                0 <= i <= self.entries@.len(),
                s == self@.entries,
                s.len() == self.entries@.len(),
                dview_ids_lt(self@, counts@.len() as int),
                first@.len() == counts@.len(),
                shared == shared_of(counts@),
                out@ == out0 + render_ents(s.take(i as int), dirname@, shared, f0).0,
                first_map(first@) == render_ents(s.take(i as int), dirname@, shared, f0).1,
            decreases self.entries@.len() - i,
        {
            proof {
                lemma_ents_view_all(self.entries@);
                assert(s.take(i as int + 1) =~= s.take(i as int) + seq![s[i as int]]);
                lemma_render_ents_concat(s.take(i as int), seq![s[i as int]], dirname@, shared, f0);
                assert(inode_ids_lt(s[i as int].inode, counts@.len() as int));
            }
            let ghost rpre = render_ents(s.take(i as int), dirname@, shared, f0);
            let ghost rent = render_ent(s[i as int], dirname@, shared, rpre.1);
            proof {
                lemma_render_ents_singleton(s[i as int], dirname@, shared, rpre.1);
                assert(render_ents(s.take(i as int + 1), dirname@, shared, f0) == ((
                    rpre.0 + rent.0,
                    rent.1,
                )));
            }
            let path = path_join_exec(dirname, self.entries[i].name.as_slice());
            match &self.entries[i].inode {
                Inode::Directory(sub) => {
                    (&**sub).write(out, path.as_slice(), counts, first);
                    proof {
                        assert(out@ =~= out0 + render_ents(
                            s.take(i as int + 1),
                            dirname@,
                            shared,
                            f0,
                        ).0);
                    }
                },
                Inode::Leaf(id) => {
                    let idv = *id;
                    if counts[idv] >= 2 {
                        let anchored = match &first[idv] {
                            Some(_) => true,
                            None => false,
                        };
                        if anchored {
                            let target = match &first[idv] {
                                Some(t) => vstd::slice::slice_to_vec(t.as_slice()),
                                None => Vec::new(),
                            };
                            push_quoted(out, self.entries[i].name.as_slice());
                            push_bytes(out, &[32, 45, 62, 32, 104, 97, 114, 100, 32]);
                            push_quoted(out, target.as_slice());
                            out.push(10);
                            proof {
                                assert([32u8, 45u8, 62u8, 32u8, 104u8, 97u8, 114u8, 100u8, 32u8]@
                                    =~= arrow_hard_to());
                                assert(rpre.1.contains_key(idv as int));
                                assert(rpre.1[idv as int] == target@);
                                assert(rent.0 =~= quoted(s[i as int].name) + arrow_hard_to()
                                    + quoted(target@) + seq![10u8]);
                                assert(out@ =~= out0 + render_ents(
                                    s.take(i as int + 1),
                                    dirname@,
                                    shared,
                                    f0,
                                ).0);
                            }
                        } else {
                            push_quoted(out, path.as_slice());
                            push_bytes(out, &[32, 45, 62, 32, 104, 97, 114, 100, 46, 10]);
                            let ghost fpre = first@;
                            first[idv] = Some(path);
                            proof {
                                assert([32u8, 45u8, 62u8, 32u8, 104u8, 97u8, 114u8, 100u8, 46u8,
                                    10u8]@ =~= arrow_hard_anchor());
                                assert(!rpre.1.contains_key(idv as int));
                                assert(first_map(first@) =~= rpre.1.insert(
                                    idv as int,
                                    path_join(dirname@, s[i as int].name),
                                ));
                                assert(out@ =~= out0 + render_ents(
                                    s.take(i as int + 1),
                                    dirname@,
                                    shared,
                                    f0,
                                ).0);
                            }
                        }
                    } else {
                        push_quoted(out, path.as_slice());
                        push_bytes(out, &[32, 45, 62, 32, 102, 105, 108, 101, 10]);
                        proof {
                            assert([32u8, 45u8, 62u8, 32u8, 102u8, 105u8, 108u8, 101u8, 10u8]@
                                =~= arrow_file());
                            assert(counts@[idv as int] < 2);
                            assert(!shared_of(counts@).contains(idv as int));
                            assert(!shared.contains(idv as int));
                            assert(out@ =~= out0 + render_ents(
                                s.take(i as int + 1),
                                dirname@,
                                shared,
                                f0,
                            ).0);
                        }
                    }
                },
            }
            i = i + 1;
        }
        proof {
            assert(s.take(s.len() as int) =~= s);
        }
    }
}

impl FileSystem {
    /// Append the dump of the whole tree to `out`: one line per node, in
    /// depth-first sorted order, with hardlinked leaves anchored once and
    /// referred back to afterwards. The text is a function of the tree's
    /// mathematical value alone.
    pub fn dump(&self, out: &mut Vec<u8>)
        requires
            fs_wf(self@),
        ensures
            final(out)@ == old(out)@ + render_fs(self@),
    {
        let n = self.leaves.len();
        let mut counts: Vec<u8> = Vec::new();
        let mut k: usize = 0;
        while k < n
            invariant
                counts@.len() == k,
                0 <= k <= n,
                forall|j: int| 0 <= j < k ==> counts@[j] == 0,
            decreases n - k,
        {
            counts.push(0);
            k = k + 1;
        }
        proof {
            assert(self@.leaves.len() == n as int);
        }
        let mut first: Vec<Option<Vec<u8>>> = Vec::new();
        let mut k2: usize = 0;
        while k2 < n
            invariant
                first@.len() == k2,
                0 <= k2 <= n,
                forall|j: int| 0 <= j < k2 ==> first@[j] is None,
            decreases n - k2,
        {
            first.push(None);
            k2 = k2 + 1;
        }
        let ghost c0 = counts@;
        count_ids(&self.root, &mut counts);
        proof {
            assert forall|id: int| true implies shared_of(counts@).contains(id) == Set::new(
                |id2: int| ents_mult(self@.root.entries, id2) >= 2,
            ).contains(id) by {
                if 0 <= id < counts@.len() {
                    lemma_ents_mult_nonneg(self@.root.entries, id);
                } else {
                    if ents_mult(self@.root.entries, id) >= 2 {
                        lemma_ents_mult_out_of_range(self@.root, id, counts@.len() as int);
                    }
                }
            }
            assert(shared_of(counts@) =~= Set::new(
                |id: int| ents_mult(self@.root.entries, id) >= 2,
            ));
            assert(first_map(first@) =~= Map::<int, Seq<u8>>::empty());
        }
        self.root.write(out, &[47], &mut counts, &mut first);
        proof {
            assert([47u8]@ =~= seq![47u8]);
            assert(final(out)@ =~= old(out)@ + render_fs(self@));
        }
    }
}

/// A leaf index out of range is referenced by nothing.
pub proof fn lemma_ents_mult_out_of_range(d: DirView, id: int, n: int)
    requires
        dview_ids_lt(d, n),
        !(0 <= id < n),
    ensures
        ents_mult(d.entries, id) == 0,
    decreases d,
{
    lemma_ents_mult_zero_rec(d.entries, d, id, n);
}

proof fn lemma_ents_mult_zero_rec(s: Seq<DirEntView>, d: DirView, id: int, n: int)
    requires
        forall|i: int| 0 <= i < s.len() ==> inode_ids_lt(#[trigger] s[i].inode, n),
        !(0 <= id < n),
    ensures
        ents_mult(s, id) == 0,
    decreases s,
{
    if s.len() > 0 {
        assert(inode_ids_lt(s[0].inode, n));
        match s[0].inode {
            InodeView::Directory(sub) => {
                lemma_ents_mult_zero_rec(sub.entries, sub, id, n);
                assert(inode_mult(s[0].inode, id) == 0);
            },
            InodeView::Leaf(j) => {
                assert(j != id);
                assert(inode_mult(s[0].inode, id) == 0);
            },
        }
        assert forall|i: int| 0 <= i < s.drop_first().len() implies inode_ids_lt(
            #[trigger] s.drop_first()[i].inode,
            n,
        ) by {
            assert(s.drop_first()[i] == s[i + 1]);
        }
        lemma_ents_mult_zero_rec(s.drop_first(), d, id, n);
    }
}



/// Names at equal positions give equal sorted positions.
pub proof fn lemma_epos_names(s: Seq<DirEntView>, t: Seq<DirEntView>, name: Seq<u8>)
    requires
        s.len() == t.len(),
        forall|j: int| 0 <= j < s.len() ==> (#[trigger] s[j]).name == t[j].name,
    ensures
        epos(s, name) == epos(t, name),
    decreases s.len(),
{
    if s.len() > 0 {
        assert(forall|j: int|
            0 <= j < s.drop_first().len() ==> (#[trigger] s.drop_first()[j]).name == s[j
                + 1].name && t.drop_first()[j].name == t[j + 1].name);
        lemma_epos_names(s.drop_first(), t.drop_first(), name);
    }
}

/// `remove` within one directory keeps the tree sorted and leaves the name
/// unbound.
pub proof fn lemma_remove_here_props(d: DirView, name: Seq<u8>)
    requires
        dview_sorted(d),
    ensures
        dview_sorted(dview_remove_here(d, name)),
        !ents_found(dview_remove_here(d, name).entries, name),
        forall|n: int| dview_ids_lt(d, n) ==> dview_ids_lt(dview_remove_here(d, name), n),
{
    lemma_epos(d.entries, name);
    let s = d.entries;
    let p = epos(s, name);
    if ents_found(s, name) {
        let t = s.remove(p);
        s.remove_ensures(p);
        lemma_sorted_remove_ent(s, p);
        assert forall|j: int| 0 <= j < t.len() implies inode_sorted(#[trigger] t[j].inode) by {
            if j < p {
                assert(t[j] == s[j]);
            } else {
                assert(t[j] == s[j + 1]);
            }
        }
        lemma_epos(t, name);
        if ents_found(t, name) {
            let q = epos(t, name);
            if q < p {
                assert(t[q] == s[q]);
            } else {
                assert(t[q] == s[q + 1]);
            }
            assert(false);
        }
        assert forall|n: int| dview_ids_lt(d, n) implies dview_ids_lt(
            dview_remove_here(d, name),
            n,
        ) by {
            assert forall|j: int| 0 <= j < t.len() implies inode_ids_lt(
                #[trigger] t[j].inode,
                n,
            ) by {
                if j < p {
                    assert(t[j] == s[j]);
                    assert(inode_ids_lt(s[j].inode, n));
                } else {
                    assert(t[j] == s[j + 1]);
                    assert(inode_ids_lt(s[j + 1].inode, n));
                }
            }
        }
    } else {
        assert(dview_remove_here(d, name) == d);
    }
}

/// `remove` along a path keeps the tree sorted, and removing the same path
/// again changes nothing.
pub proof fn lemma_remove_at_idem(d: DirView, segs: Seq<Seq<u8>>, i: int)
    requires
        dview_sorted(d),
        0 <= i < segs.len(),
    ensures
        match dview_remove_at(d, segs, i) {
            Ok(d1) => dview_sorted(d1) && dview_remove_at(d1, segs, i) == Ok::<
                DirView,
                FsError,
            >(d1) && d1.stat == d.stat && (forall|n: int|
                dview_ids_lt(d, n) ==> dview_ids_lt(d1, n)),
            Err(_) => true,
        },
    decreases segs.len() - i,
{
    lemma_epos(d.entries, segs[i]);
    if i + 1 >= segs.len() {
        lemma_remove_here_props(d, segs[i]);
        let d1 = dview_remove_here(d, segs[i]);
        assert(dview_remove_here(d1, segs[i]) == d1);
    } else {
        if ents_found(d.entries, segs[i]) {
            let p = epos(d.entries, segs[i]);
            assert(inode_sorted(d.entries[p].inode));
            match d.entries[p].inode {
                InodeView::Leaf(_) => {},
                InodeView::Directory(sub) => {
                    lemma_remove_at_idem(sub, segs, i + 1);
                    match dview_remove_at(sub, segs, i + 1) {
                        Err(_) => {},
                        Ok(sub1) => {
                            let ent1 = DirEntView {
                                name: segs[i],
                                inode: InodeView::Directory(sub1),
                            };
                            let d1 = DirView { stat: d.stat, entries: d.entries.update(p, ent1) };
                            lemma_update_subdir_props(d, p, sub1);
                            assert(d.entries[p].name == segs[i]);
                            assert(dview_sorted(d1));
                            // the second walk finds the same entry again
                            assert(forall|j: int|
                                0 <= j < d.entries.len() ==> (#[trigger] d.entries[j]).name
                                    == d1.entries[j].name);
                            lemma_epos_names(d.entries, d1.entries, segs[i]);
                            assert(ents_found(d1.entries, segs[i]));
                            assert(d1.entries[p].inode == InodeView::Directory(sub1));
                            assert(dview_remove_at(sub1, segs, i + 1) == Ok::<DirView, FsError>(
                                sub1,
                            ));
                            let ent2 = DirEntView {
                                name: segs[i],
                                inode: InodeView::Directory(sub1),
                            };
                            assert(d1.entries.update(p, ent2) =~= d1.entries);
                            assert(dview_remove_at(d1, segs, i) == Ok::<DirView, FsError>(
                                DirView { stat: d1.stat, entries: d1.entries.update(p, ent2) },
                            ));
                            assert(DirView { stat: d1.stat, entries: d1.entries.update(p, ent2) }
                                =~= d1);
                            assert forall|n: int| dview_ids_lt(d, n) implies dview_ids_lt(
                                d1,
                                n,
                            ) by {
                                assert(inode_ids_lt(d.entries[p].inode, n));
                                assert(dview_ids_lt(sub, n));
                            }
                        },
                    }
                },
            }
        }
    }
}

/// Removing a path is idempotent: removing it a second time, from the
/// state the first removal left, changes nothing. A removal that failed
/// left the state unchanged, and fails identically again.
pub proof fn lemma_remove_idempotent(v: FileSystemView, path: Seq<u8>)
    requires
        fs_wf(v),
    ensures
        ({
            let v1 = match fsview_remove(v, path) {
                Ok(r) => r,
                Err(_) => v,
            };
            (match fsview_remove(v1, path) {
                Ok(r) => r,
                Err(_) => v1,
            }) == v1
        }),
{
    let segs = split_segments(path);
    if segs.len() > 0 {
        lemma_remove_at_idem(v.root, segs, 0);
        match dview_remove_at(v.root, segs, 0) {
            Ok(d1) => {
                let v1 = FileSystemView { root: d1, leaves: v.leaves };
                assert(fsview_remove(v1, path) == Ok::<FileSystemView, FsError>(
                    FileSystemView { root: d1, leaves: v1.leaves },
                ));
            },
            Err(_) => {},
        }
    }
}


/// The subdirectory reached by the path `segs[i..]`, if every segment
/// resolves to a directory.
pub open spec fn dview_dir_at(d: DirView, segs: Seq<Seq<u8>>, i: int) -> Option<DirView>
    decreases segs.len() - i,
{
    if i >= segs.len() {
        Some(d)
    } else {
        match dview_lookup(d, segs[i]) {
            Some(InodeView::Directory(sub)) => dview_dir_at(sub, segs, i + 1),
            _ => None,
        }
    }
}

/// `insert` within one directory keeps the tree sorted and binds the name
/// to the leaf.
pub proof fn lemma_insert_here_props(d: DirView, name: Seq<u8>, id: int)
    requires
        dview_sorted(d),
    ensures
        ({
            let v = dview_insert_here(d, name, id);
            dview_sorted(v) && v.stat == d.stat && ents_found(v.entries, name) && v.entries[epos(
                v.entries,
                name,
            )].inode == InodeView::Leaf(id) && dview_lookup(v, name) == Some(InodeView::Leaf(id))
        }),
{
    lemma_epos(d.entries, name);
    let s = d.entries;
    let p = epos(s, name);
    let ent = DirEntView { name, inode: InodeView::Leaf(id) };
    let v = dview_insert_here(d, name, id);
    if ents_found(s, name) {
        lemma_sorted_update_ent(s, p, ent.inode);
        assert(forall|j: int|
            0 <= j < v.entries.len() ==> (#[trigger] v.entries[j]).name == s[j].name);
        lemma_epos_names(s, v.entries, name);
        assert forall|j: int| 0 <= j < v.entries.len() implies inode_sorted(
            #[trigger] v.entries[j].inode,
        ) by {
            if j != p {
                assert(v.entries[j] == s[j]);
                assert(inode_sorted(s[j].inode));
            }
        }
    } else {
        lemma_sorted_insert_ent(s, name, ent.inode);
        s.insert_ensures(p, ent);
        assert forall|j: int| 0 <= j < v.entries.len() implies inode_sorted(
            #[trigger] v.entries[j].inode,
        ) by {
            if j < p {
                assert(v.entries[j] == s[j]);
                assert(inode_sorted(s[j].inode));
            } else if j > p {
                assert(v.entries[j] == s[j - 1]);
                assert(inode_sorted(s[j - 1].inode));
            }
        }
        lemma_epos(v.entries, name);
        assert(v.entries[p].name == name);
    }
}

/// `mkdir` within one directory keeps the tree sorted; the name is bound
/// to a directory carrying the given metadata, with its old children for an
/// existing directory and none for a fresh name.
pub proof fn lemma_mkdir_here_props(d: DirView, name: Seq<u8>, stat: StatView)
    requires
        dview_sorted(d),
    ensures
        match dview_mkdir_here(d, name, stat) {
            Ok(v) => dview_sorted(v) && v.stat == d.stat && ents_found(v.entries, name) && (
            v.entries[epos(v.entries, name)].inode is Directory) && v.entries[epos(
                v.entries,
                name,
            )].inode->Directory_0.stat == stat && v.entries[epos(
                v.entries,
                name,
            )].inode->Directory_0.entries == (match dview_lookup(d, name) {
                Some(InodeView::Directory(old_sub)) => old_sub.entries,
                _ => Seq::empty(),
            }),
            Err(_) => true,
        },
{
    lemma_epos(d.entries, name);
    let s = d.entries;
    let p = epos(s, name);
    match dview_mkdir_here(d, name, stat) {
        Err(_) => {},
        Ok(v) => {
            if ents_found(s, name) {
                match s[p].inode {
                    InodeView::Leaf(_) => {},
                    InodeView::Directory(sub) => {
                        let ino2 = InodeView::Directory(DirView { stat, entries: sub.entries });
                        lemma_sorted_update_ent(s, p, ino2);
                        assert(forall|j: int|
                            0 <= j < v.entries.len() ==> (#[trigger] v.entries[j]).name
                                == s[j].name);
                        lemma_epos_names(s, v.entries, name);
                        assert forall|j: int| 0 <= j < v.entries.len() implies inode_sorted(
                            #[trigger] v.entries[j].inode,
                        ) by {
                            if j != p {
                                assert(v.entries[j] == s[j]);
                                assert(inode_sorted(s[j].inode));
                            } else {
                                assert(inode_sorted(s[p].inode));
                            }
                        }
                    },
                }
            } else {
                let ino2 = InodeView::Directory(DirView { stat, entries: Seq::empty() });
                lemma_sorted_insert_ent(s, name, ino2);
                s.insert_ensures(p, DirEntView { name, inode: ino2 });
                assert forall|j: int| 0 <= j < v.entries.len() implies inode_sorted(
                    #[trigger] v.entries[j].inode,
                ) by {
                    if j < p {
                        assert(v.entries[j] == s[j]);
                        assert(inode_sorted(s[j].inode));
                    } else if j > p {
                        assert(v.entries[j] == s[j - 1]);
                        assert(inode_sorted(s[j - 1].inode));
                    } else {
                        assert(dview_sorted(DirView { stat, entries: Seq::empty() }));
                    }
                }
                lemma_epos(v.entries, name);
                assert(v.entries[p].name == name);
            }
        },
    }
}

/// Making a directory, inserting a child into it, then making the same
/// directory again with new metadata keeps the child bound and renews only
/// the metadata.
pub proof fn lemma_mkdir_preserves_children_at(
    d: DirView,
    segs: Seq<Seq<u8>>,
    x: Seq<u8>,
    s1: StatView,
    s2: StatView,
    id: int,
    i: int,
)
    requires
        dview_sorted(d),
        0 <= i < segs.len(),
    ensures
        ({
            let pushed = segs.push(x);
            match dview_mkdir_at(d, segs, i, s1) {
                Err(_) => true,
                Ok(d1) => dview_sorted(d1) && match dview_insert_at(d1, pushed, i, id) {
                    Err(_) => true,
                    Ok(d2) => dview_sorted(d2) && match dview_mkdir_at(d2, segs, i, s2) {
                        Err(_) => false,
                        Ok(d3) => dview_sorted(d3) && dview_get_at(d3, pushed, i) == Ok::<
                            int,
                            FsError,
                        >(id) && (match dview_dir_at(d3, segs, i) {
                            Some(dd) => dd.stat == s2,
                            None => false,
                        }),
                    },
                },
            }
        }),
    decreases segs.len() - i,
{
    let pushed = segs.push(x);
    let n = segs[i];
    assert(pushed[i] == segs[i]);
    lemma_epos(d.entries, n);
    if i + 1 >= segs.len() {
        // `n` is the directory being made; the child is inserted below it
        lemma_mkdir_here_props(d, n, s1);
        match dview_mkdir_here(d, n, s1) {
            Err(_) => {},
            Ok(d1) => {
                let p1 = epos(d1.entries, n);
                assert(ents_found(d1.entries, n));
                lemma_epos(d1.entries, n);
                let sub_a = d1.entries[p1].inode->Directory_0;
                assert(d1.entries[p1].inode == InodeView::Directory(sub_a));
                assert(sub_a.stat == s1);
                assert(dview_sorted(d1));
                assert forall|j: int| 0 <= j < d1.entries.len() implies inode_sorted(
                    #[trigger] d1.entries[j].inode,
                ) by {
                    assert(dview_sorted(d1));
                }
                assert(inode_sorted(d1.entries[p1].inode));
                // the insert walks through `n` and binds `x` below it
                assert(i + 1 == pushed.len() - 1);
                let sub_b = dview_insert_here(sub_a, pushed[i + 1], id);
                lemma_insert_here_props(sub_a, pushed[i + 1], id);
                let ent_b = DirEntView { name: n, inode: InodeView::Directory(sub_b) };
                let d2 = DirView { stat: d1.stat, entries: d1.entries.update(p1, ent_b) };
                assert(dview_lookup(d1, pushed[i as int]) == Some(InodeView::Directory(sub_a)));
                assert(dview_insert_at(sub_a, pushed, i + 1, id) == Ok::<DirView, FsError>(sub_b));
                assert(DirEntView { name: pushed[i as int], inode: InodeView::Directory(sub_b) }
                    == ent_b);
                assert(dview_insert_at(d1, pushed, i, id) == Ok::<DirView, FsError>(d2));
                lemma_update_subdir_props(d1, p1, sub_b);
                assert(dview_sorted(d2));
                // the second mkdir finds the directory again
                assert(forall|j: int|
                    0 <= j < d2.entries.len() ==> (#[trigger] d2.entries[j]).name
                        == d1.entries[j].name);
                lemma_epos_names(d1.entries, d2.entries, n);
                lemma_epos(d2.entries, n);
                assert(ents_found(d2.entries, n));
                assert(d2.entries[p1].inode == InodeView::Directory(sub_b));
                let sub_c = DirView { stat: s2, entries: sub_b.entries };
                let ent_c = DirEntView { name: n, inode: InodeView::Directory(sub_c) };
                let d3 = DirView { stat: d2.stat, entries: d2.entries.update(p1, ent_c) };
                assert(dview_mkdir_here(d2, n, s2) == Ok::<DirView, FsError>(d3));
                lemma_update_subdir_props(d2, p1, sub_c);
                assert(dview_sorted(d3));
                // the child is still bound to the leaf, under the new stat
                assert(forall|j: int|
                    0 <= j < d3.entries.len() ==> (#[trigger] d3.entries[j]).name
                        == d2.entries[j].name);
                lemma_epos_names(d2.entries, d3.entries, n);
                lemma_epos(d3.entries, n);
                assert(ents_found(d3.entries, n));
                assert(d3.entries[p1].inode == InodeView::Directory(sub_c));
                assert(dview_lookup(sub_c, pushed[i + 1]) == Some(InodeView::Leaf(id)));
                assert(dview_get_at(sub_c, pushed, i + 1) == Ok::<int, FsError>(id));
                assert(epos(d3.entries, n) == p1);
                assert(dview_lookup(d3, n) == Some(InodeView::Directory(sub_c)));
                assert(dview_dir_at(sub_c, segs, i + 1) == Some(sub_c));
                assert(dview_dir_at(d3, segs, i) == Some(sub_c));
            },
        }
    } else {
        match dview_lookup(d, n) {
            None => {},
            Some(InodeView::Leaf(_)) => {},
            Some(InodeView::Directory(sub)) => {
                let p = epos(d.entries, n);
                assert(inode_sorted(d.entries[p].inode));
                lemma_mkdir_preserves_children_at(sub, segs, x, s1, s2, id, i + 1);
                match dview_mkdir_at(sub, segs, i + 1, s1) {
                    Err(_) => {},
                    Ok(sub1) => {
                        let ent1 = DirEntView { name: n, inode: InodeView::Directory(sub1) };
                        let d1 = DirView { stat: d.stat, entries: d.entries.update(p, ent1) };
                        lemma_update_subdir_props(d, p, sub1);
                        assert(forall|j: int|
                            0 <= j < d1.entries.len() ==> (#[trigger] d1.entries[j]).name
                                == d.entries[j].name);
                        lemma_epos_names(d.entries, d1.entries, n);
                        lemma_epos(d1.entries, n);
                        assert(ents_found(d1.entries, n));
                        assert(d1.entries[p].inode == InodeView::Directory(sub1));
                        match dview_insert_at(sub1, pushed, i + 1, id) {
                            Err(_) => {},
                            Ok(sub2) => {
                                let ent2 = DirEntView {
                                    name: n,
                                    inode: InodeView::Directory(sub2),
                                };
                                let d2 = DirView {
                                    stat: d1.stat,
                                    entries: d1.entries.update(p, ent2),
                                };
                                assert(dview_insert_at(d1, pushed, i, id) == Ok::<
                                    DirView,
                                    FsError,
                                >(d2));
                                lemma_update_subdir_props(d1, p, sub2);
                                assert(forall|j: int|
                                    0 <= j < d2.entries.len() ==> (#[trigger] d2.entries[j]).name
                                        == d1.entries[j].name);
                                lemma_epos_names(d1.entries, d2.entries, n);
                                lemma_epos(d2.entries, n);
                                assert(ents_found(d2.entries, n));
                                assert(d2.entries[p].inode == InodeView::Directory(sub2));
                                match dview_mkdir_at(sub2, segs, i + 1, s2) {
                                    Err(_) => {},
                                    Ok(sub3) => {
                                        let ent3 = DirEntView {
                                            name: n,
                                            inode: InodeView::Directory(sub3),
                                        };
                                        let d3 = DirView {
                                            stat: d2.stat,
                                            entries: d2.entries.update(p, ent3),
                                        };
                                        assert(dview_mkdir_at(d2, segs, i, s2) == Ok::<
                                            DirView,
                                            FsError,
                                        >(d3));
                                        lemma_update_subdir_props(d2, p, sub3);
                                        assert(forall|j: int|
                                            0 <= j < d3.entries.len() ==> (
                                            #[trigger] d3.entries[j]).name == d2.entries[j].name);
                                        lemma_epos_names(d2.entries, d3.entries, n);
                                        lemma_epos(d3.entries, n);
                                        assert(ents_found(d3.entries, n));
                                        assert(d3.entries[p].inode == InodeView::Directory(sub3));
                                        assert(dview_get_at(d3, pushed, i) == dview_get_at(
                                            sub3,
                                            pushed,
                                            i + 1,
                                        ));
                                        assert(dview_dir_at(d3, segs, i) == dview_dir_at(
                                            sub3,
                                            segs,
                                            i + 1,
                                        ));
                                    },
                                }
                            },
                        }
                    },
                }
            },
        }
    }
}

/// `mkdir(d, s1); insert(d/x, leaf); mkdir(d, s2)` leaves `d/x` bound to
/// the leaf and `d`'s metadata renewed to `s2`.
pub proof fn lemma_mkdir_preserves_children(
    v: FileSystemView,
    segs: Seq<Seq<u8>>,
    x: Seq<u8>,
    s1: StatView,
    s2: StatView,
    id: int,
)
    requires
        fs_wf(v),
        segs.len() > 0,
    ensures
        match dview_mkdir_at(v.root, segs, 0, s1) {
            Err(_) => true,
            Ok(d1) => match dview_insert_at(d1, segs.push(x), 0, id) {
                Err(_) => true,
                Ok(d2) => match dview_mkdir_at(d2, segs, 0, s2) {
                    Err(_) => false,
                    Ok(d3) => dview_get_at(d3, segs.push(x), 0) == Ok::<int, FsError>(id) && (
                    match dview_dir_at(d3, segs, 0) {
                        Some(dd) => dd.stat == s2,
                        None => false,
                    }),
                },
            },
        },
{
    lemma_mkdir_preserves_children_at(v.root, segs, x, s1, s2, id, 0);
}


/// Each shared leaf is anchored exactly once. The anchor map after
/// rendering one entry holds precisely the ids anchored before plus the
/// shared leaves this entry's subtree references: an anchor line is
/// emitted only on the first sight of a shared leaf, and every later
/// record for it is a back reference.
pub proof fn lemma_anchor_once_ent(
    e: DirEntView,
    dirpath: Seq<u8>,
    shared: Set<int>,
    first: Map<int, Seq<u8>>,
)
    ensures
        forall|id: int|
            #[trigger] render_ent(e, dirpath, shared, first).1.contains_key(id) <==> (
            first.contains_key(id) || (shared.contains(id) && inode_mult(e.inode, id) > 0)),
    decreases e,
{
    match e.inode {
        InodeView::Directory(sub) => {
            lemma_anchor_once(sub.entries, path_join(dirpath, e.name), shared, first);
            assert forall|id: int|
                #[trigger] render_ent(e, dirpath, shared, first).1.contains_key(id) <==> (
            first.contains_key(id) || (shared.contains(id) && inode_mult(e.inode, id) > 0)) by {
                assert(render_ent(e, dirpath, shared, first).1 == render_ents(
                    sub.entries,
                    path_join(dirpath, e.name),
                    shared,
                    first,
                ).1);
                assert(inode_mult(e.inode, id) == ents_mult(sub.entries, id));
            }
        },
        InodeView::Leaf(id0) => {
            assert forall|id: int|
                #[trigger] render_ent(e, dirpath, shared, first).1.contains_key(id) <==> (
            first.contains_key(id) || (shared.contains(id) && inode_mult(e.inode, id) > 0)) by {
                if shared.contains(id0) && !first.contains_key(id0) {
                    assert(render_ent(e, dirpath, shared, first).1 == first.insert(
                        id0,
                        path_join(dirpath, e.name),
                    ));
                }
            }
        },
    }
}

/// Each shared leaf is anchored exactly once. The anchor map after
/// rendering a directory's entries holds precisely the ids anchored
/// before plus the shared leaves the entries reference.
pub proof fn lemma_anchor_once(
    s: Seq<DirEntView>,
    dirpath: Seq<u8>,
    shared: Set<int>,
    first: Map<int, Seq<u8>>,
)
    ensures
        forall|id: int|
            #[trigger] render_ents(s, dirpath, shared, first).1.contains_key(id) <==> (
            first.contains_key(id) || (shared.contains(id) && ents_mult(s, id) > 0)),
    decreases s,
{
    if s.len() == 0 {
    } else {
        let r1 = render_ent(s[0], dirpath, shared, first);
        lemma_anchor_once_ent(s[0], dirpath, shared, first);
        lemma_anchor_once(s.drop_first(), dirpath, shared, r1.1);
        assert forall|id: int|
            #[trigger] render_ents(s, dirpath, shared, first).1.contains_key(id) <==> (
        first.contains_key(id) || (shared.contains(id) && ents_mult(s, id) > 0)) by {
            assert(render_ents(s, dirpath, shared, first).1 == render_ents(
                s.drop_first(),
                dirpath,
                shared,
                r1.1,
            ).1);
            assert(ents_mult(s, id) == inode_mult(s[0].inode, id) + ents_mult(
                s.drop_first(),
                id,
            ));
            lemma_inode_mult_nonneg(s[0].inode, id);
            lemma_ents_mult_nonneg(s.drop_first(), id);
        }
    }
}


/// The tree with every leaf index renamed by `sigma`.
pub open spec fn rename_inode(i: InodeView, sigma: spec_fn(int) -> int) -> InodeView
    decreases i,
{
    match i {
        InodeView::Directory(d) => InodeView::Directory(
            DirView { stat: d.stat, entries: rename_ents(d.entries, sigma) },
        ),
        InodeView::Leaf(id) => InodeView::Leaf(sigma(id)),
    }
}

/// The entries with every leaf index renamed by `sigma`.
pub open spec fn rename_ents(s: Seq<DirEntView>, sigma: spec_fn(int) -> int) -> Seq<DirEntView>
    decreases s,
{
    if s.len() == 0 {
        Seq::empty()
    } else {
        seq![DirEntView { name: s[0].name, inode: rename_inode(s[0].inode, sigma) }]
            + rename_ents(s.drop_first(), sigma)
    }
}

/// An injective renaming of leaf indices.
pub open spec fn injective_renaming(sigma: spec_fn(int) -> int) -> bool {
    forall|i: int, j: int| #[trigger] sigma(i) == #[trigger] sigma(j) ==> i == j
}

/// Renaming leaf indices renames their multiplicities with them.
pub proof fn lemma_rename_mult_inode(i: InodeView, sigma: spec_fn(int) -> int, id: int)
    requires
        injective_renaming(sigma),
    ensures
        inode_mult(rename_inode(i, sigma), sigma(id)) == inode_mult(i, id),
    decreases i,
{
    match i {
        InodeView::Directory(d) => {
            lemma_rename_mult_ents(d.entries, sigma, id);
        },
        InodeView::Leaf(_) => {},
    }
}

/// Renaming leaf indices renames their multiplicities with them.
pub proof fn lemma_rename_mult_ents(s: Seq<DirEntView>, sigma: spec_fn(int) -> int, id: int)
    requires
        injective_renaming(sigma),
    ensures
        ents_mult(rename_ents(s, sigma), sigma(id)) == ents_mult(s, id),
    decreases s,
{
    if s.len() > 0 {
        let r = rename_ents(s, sigma);
        assert(r[0] == (DirEntView { name: s[0].name, inode: rename_inode(s[0].inode, sigma) }));
        assert(r.drop_first() =~= rename_ents(s.drop_first(), sigma));
        lemma_rename_mult_inode(s[0].inode, sigma, id);
        lemma_rename_mult_ents(s.drop_first(), sigma, id);
    }
}

/// `first2` is `first` with its keys renamed by `sigma`, values kept.
pub open spec fn maps_renamed(
    first: Map<int, Seq<u8>>,
    first2: Map<int, Seq<u8>>,
    sigma: spec_fn(int) -> int,
) -> bool {
    &&& (forall|i: int| first.contains_key(i) <==> first2.contains_key(#[trigger] sigma(i)))
    &&& (forall|i: int| first.contains_key(i) ==> first2[#[trigger] sigma(i)] == first[i])
    &&& (forall|j: int|
        #[trigger] first2.contains_key(j) ==> exists|i: int|
            #[trigger] sigma(i) == j && first.contains_key(i))
}

/// Renaming leaf indices leaves the rendered text of one entry unchanged
/// and renames the anchor map's keys with it.
pub proof fn lemma_rename_render_ent(
    e: DirEntView,
    dirpath: Seq<u8>,
    shared: Set<int>,
    shared2: Set<int>,
    first: Map<int, Seq<u8>>,
    first2: Map<int, Seq<u8>>,
    sigma: spec_fn(int) -> int,
)
    requires
        injective_renaming(sigma),
        maps_renamed(first, first2, sigma),
        forall|id: int| shared.contains(id) <==> shared2.contains(#[trigger] sigma(id)),
    ensures
        ({
            let r = render_ent(e, dirpath, shared, first);
            let r2 = render_ent(
                DirEntView { name: e.name, inode: rename_inode(e.inode, sigma) },
                dirpath,
                shared2,
                first2,
            );
            r2.0 == r.0 && maps_renamed(r.1, r2.1, sigma)
        }),
    decreases e,
{
    let path = path_join(dirpath, e.name);
    match e.inode {
        InodeView::Directory(sub) => {
            lemma_rename_render_ents(sub.entries, path, shared, shared2, first, first2, sigma);
        },
        InodeView::Leaf(id0) => {
            let r = render_ent(e, dirpath, shared, first);
            let r2 = render_ent(
                DirEntView { name: e.name, inode: rename_inode(e.inode, sigma) },
                dirpath,
                shared2,
                first2,
            );
            if !shared.contains(id0) {
            } else if first.contains_key(id0) {
                assert(first2[sigma(id0)] == first[id0]);
            } else {
                assert(r.1 == first.insert(id0, path));
                assert(r2.1 == first2.insert(sigma(id0), path));
                assert forall|i: int| r.1.contains_key(i) <==> r2.1.contains_key(
                    #[trigger] sigma(i),
                ) by {
                    if i != id0 && sigma(i) == sigma(id0) {
                        assert(i == id0);
                    }
                }
                assert forall|i: int| r.1.contains_key(i) implies r2.1[#[trigger] sigma(i)]
                    == r.1[i] by {
                    if i != id0 && sigma(i) == sigma(id0) {
                        assert(i == id0);
                    }
                }
                assert forall|j: int| #[trigger] r2.1.contains_key(j) implies exists|i: int|
                    #[trigger] sigma(i) == j && r.1.contains_key(i) by {
                    if j == sigma(id0) {
                        assert(sigma(id0) == j && r.1.contains_key(id0));
                    } else {
                        let i = choose|i: int|
                            #[trigger] sigma(i) == j && first.contains_key(i);
                        assert(sigma(i) == j && r.1.contains_key(i));
                    }
                }
            }
        },
    }
}

/// Renaming leaf indices leaves the rendered text of a directory's entries
/// unchanged and renames the anchor map's keys with it.
pub proof fn lemma_rename_render_ents(
    s: Seq<DirEntView>,
    dirpath: Seq<u8>,
    shared: Set<int>,
    shared2: Set<int>,
    first: Map<int, Seq<u8>>,
    first2: Map<int, Seq<u8>>,
    sigma: spec_fn(int) -> int,
)
    requires
        injective_renaming(sigma),
        maps_renamed(first, first2, sigma),
        forall|id: int| shared.contains(id) <==> shared2.contains(#[trigger] sigma(id)),
    ensures
        ({
            let r = render_ents(s, dirpath, shared, first);
            let r2 = render_ents(rename_ents(s, sigma), dirpath, shared2, first2);
            r2.0 == r.0 && maps_renamed(r.1, r2.1, sigma)
        }),
    decreases s,
{
    if s.len() == 0 {
    } else {
        let rs = rename_ents(s, sigma);
        assert(rs[0] == (DirEntView { name: s[0].name, inode: rename_inode(s[0].inode, sigma) }));
        assert(rs.drop_first() =~= rename_ents(s.drop_first(), sigma));
        let r1 = render_ent(s[0], dirpath, shared, first);
        let r12 = render_ent(rs[0], dirpath, shared2, first2);
        lemma_rename_render_ent(s[0], dirpath, shared, shared2, first, first2, sigma);
        lemma_rename_render_ents(
            s.drop_first(),
            dirpath,
            shared,
            shared2,
            r1.1,
            r12.1,
            sigma,
        );
    }
}

/// The dump does not depend on which indices the leaf table assigned:
/// renaming every leaf index injectively, and replacing the leaf table by
/// any other, leaves the dump text unchanged. Two models of one tree built
/// by different operation orders differ exactly by such a renaming, so
/// their dumps are byte-identical.
pub proof fn lemma_dump_invariant_under_renaming(
    v: FileSystemView,
    leaves2: Seq<LeafView>,
    sigma: spec_fn(int) -> int,
)
    requires
        injective_renaming(sigma),
    ensures
        render_fs(
            FileSystemView {
                root: DirView { stat: v.root.stat, entries: rename_ents(v.root.entries, sigma) },
                leaves: leaves2,
            },
        ) == render_fs(v),
{
    let shared = Set::new(|id: int| ents_mult(v.root.entries, id) >= 2);
    let shared2 = Set::new(
        |id: int| ents_mult(rename_ents(v.root.entries, sigma), id) >= 2,
    );
    assert forall|id: int| shared.contains(id) <==> shared2.contains(#[trigger] sigma(id)) by {
        lemma_rename_mult_ents(v.root.entries, sigma, id);
    }
    assert(maps_renamed(Map::empty(), Map::empty(), sigma));
    lemma_rename_render_ents(
        v.root.entries,
        seq![47u8],
        shared,
        shared2,
        Map::empty(),
        Map::empty(),
        sigma,
    );
}

} // verus!

//! The bookmark data model and its CRUD operations.
//!
//! A [`Bookmark`] is a named marker at a page; a [`BookmarkSet`] gathers all
//! bookmarks of one document path together with the document's content
//! fingerprint; a [`BookmarkStore`] is the ordered collection of sets, plus a
//! transient input buffer for an in-progress bookmark name.

use vstd::prelude::*;

use crate::fingerprint::fingerprint;
use crate::fingerprint::xxhash64_of;

verus! {

/// A single named marker at a page of a document.
#[derive(Debug)]
pub struct Bookmark {
    pub page: i32,
    pub name: String,
}

/// All bookmarks belonging to one document path, plus the fingerprint the
/// document's content had when its first bookmark was created. The
/// fingerprint is computed once and never revalidated here.
#[derive(Debug)]
pub struct BookmarkSet {
    pub marks: Vec<Bookmark>,
    pub file_hash: u64,
    pub path: String,
}

/// The ordered collection of bookmark sets, keyed logically by document path
/// (at most one set per path), plus the transient, never-persisted name of a
/// bookmark the user is currently composing.
#[derive(Debug)]
pub struct BookmarkStore {
    pub sets: Vec<BookmarkSet>,
    pub pending_name: String,
}

/// The commands the host may dispatch. The store owns `CreateBookmark`,
/// `DeleteBookmark`, `PendingName` and the true no-op `Noop`; `GoTo` and
/// `RequestNewBookmark` must be intercepted by the host, and dispatching
/// them to the store is a contract violation.
#[derive(Debug, Clone, Default)]
pub enum BookmarkMessage {
    CreateBookmark { path: String, name: String, page: i32 },
    DeleteBookmark { path: String, name: String },
    GoTo { path: String, page: i32 },
    PendingName(String),
    RequestNewBookmark { name: String },
    #[default]
    Noop,
}

/// The failures this component distinguishes. `Io` and
/// `MissingHomeDirectory` arise only at the host's persistence edge;
/// `Serialization` is returned for malformed persisted data; and
/// `ContractViolation` signals dispatch of a command the store does not own,
/// which the host is expected to treat as fatal.
#[derive(Debug, Clone, Copy, PartialEq, Eq)]
pub enum StoreError {
    Io,
    Serialization,
    MissingHomeDirectory,
    ContractViolation,
}

/// Mathematical model of a [`Bookmark`].
#[verifier::ext_equal]
pub ghost struct BookmarkV {
    pub page: int,
    pub name: Seq<char>,
}

/// Mathematical model of a [`BookmarkSet`].
#[verifier::ext_equal]
pub ghost struct BookmarkSetV {
    pub marks: Seq<BookmarkV>,
    pub file_hash: u64,
    pub path: Seq<char>,
}

/// Mathematical model of a [`BookmarkStore`].
#[verifier::ext_equal]
pub ghost struct BookmarkStoreV {
    pub sets: Seq<BookmarkSetV>,
    pub pending_name: Seq<char>,
}

impl View for Bookmark {
    type V = BookmarkV;

    open spec fn view(&self) -> BookmarkV {
        BookmarkV { page: self.page as int, name: self.name@ }
    }
}

impl View for BookmarkSet {
    type V = BookmarkSetV;

    open spec fn view(&self) -> BookmarkSetV {
        BookmarkSetV {
            marks: self.marks@.map_values(|m: Bookmark| m@),
            file_hash: self.file_hash,
            path: self.path@,
        }
    }
}

impl View for BookmarkStore {
    type V = BookmarkStoreV;

    open spec fn view(&self) -> BookmarkStoreV {
        BookmarkStoreV {
            sets: self.sets@.map_values(|s: BookmarkSet| s@),
            pending_name: self.pending_name@,
        }
    }
}

/// Well-formedness of the collection of sets: no set is ever empty (a set
/// dies the instant its last bookmark is deleted), and at most one set
/// exists per document path.
pub open spec fn sets_wf(sets: Seq<BookmarkSetV>) -> bool {
    &&& forall|i: int| 0 <= i < sets.len() ==> (#[trigger] sets[i]).marks.len() > 0
    &&& forall|i: int, j: int|
        #![trigger sets[i], sets[j]]
        0 <= i < j < sets.len() ==> sets[i].path != sets[j].path
}

/// Whether some set in `sets` is keyed by `path`.
pub open spec fn has_path(sets: Seq<BookmarkSetV>, path: Seq<char>) -> bool {
    exists|i: int| 0 <= i < sets.len() && (#[trigger] sets[i]).path == path
}

/// The index of the set keyed by `path`; meaningful when `has_path` holds
/// (unique under `sets_wf`).
pub open spec fn index_of_path(sets: Seq<BookmarkSetV>, path: Seq<char>) -> int {
    choose|i: int| 0 <= i < sets.len() && (#[trigger] sets[i]).path == path
}

/// The fingerprint recorded for a newly created set: the digest of the
/// document's bytes when they could be read, and the zero sentinel when
/// they could not.
pub open spec fn creation_hash(file_bytes: Option<Vec<u8>>) -> u64 {
    match file_bytes {
        Option::Some(b) => xxhash64_of(b@),
        Option::None => 0,
    }
}

/// The state after creating a bookmark: appended to the existing set for
/// `path` if one exists, else a fresh singleton set (tagged `hash`) is
/// appended to the store.
pub open spec fn create_spec(
    s: BookmarkStoreV,
    path: Seq<char>,
    name: Seq<char>,
    page: int,
    hash: u64,
) -> BookmarkStoreV {
    if has_path(s.sets, path) {
        let i = index_of_path(s.sets, path);
        let old_set = s.sets[i];
        BookmarkStoreV {
            sets: s.sets.update(
                i,
                BookmarkSetV {
                    marks: old_set.marks.push(BookmarkV { page, name }),
                    file_hash: old_set.file_hash,
                    path: old_set.path,
                },
            ),
            pending_name: s.pending_name,
        }
    } else {
        BookmarkStoreV {
            sets: s.sets.push(
                BookmarkSetV {
                    marks: seq![BookmarkV { page, name }],
                    file_hash: hash,
                    path: path,
                },
            ),
            pending_name: s.pending_name,
        }
    }
}

/// The state after deleting every bookmark named `name` from the set for
/// `path`: the set keeps its remaining marks, or disappears entirely when
/// none remain; a store without a set for `path` is unchanged.
pub open spec fn delete_spec(s: BookmarkStoreV, path: Seq<char>, name: Seq<char>) -> BookmarkStoreV {
    if has_path(s.sets, path) {
        let i = index_of_path(s.sets, path);
        let old_set = s.sets[i];
        let kept = old_set.marks.filter(|m: BookmarkV| m.name != name);
        if kept.len() == 0 {
            BookmarkStoreV { sets: s.sets.remove(i), pending_name: s.pending_name }
        } else {
            BookmarkStoreV {
                sets: s.sets.update(
                    i,
                    BookmarkSetV { marks: kept, file_hash: old_set.file_hash, path: old_set.path },
                ),
                pending_name: s.pending_name,
            }
        }
    } else {
        s
    }
}

impl Clone for Bookmark {
    /// Duplicates the marker, page and name alike.
    fn clone(&self) -> (r: Self)
        ensures
            r@ == self@,
    {
        Bookmark { page: self.page, name: self.name.clone() }
    }
}

impl BookmarkStore {
    /// A fresh store: no sets, empty pending name.
    pub fn new() -> (r: Self)
        ensures
            r@.sets.len() == 0,
            r@.pending_name.len() == 0,
            sets_wf(r@.sets),
    {
        BookmarkStore { sets: Vec::new(), pending_name: String::new() }
    }

    /// Replaces the transient pending bookmark name; pure in-memory state.
    pub fn set_pending_name(&mut self, text: String)
        ensures
            final(self)@ == (BookmarkStoreV { sets: old(self)@.sets, pending_name: text@ }),
    {
        self.pending_name = text;
    }

    /// Whether the store already holds a set for `path`.
    pub fn contains_path(&self, path: &String) -> (r: bool)
        ensures
            r == has_path(self@.sets, path@),
    {
        self.find_set(path).is_some()
    }

    /// Index of the set for `path`, scanning in order; `None` when no set
    /// has that path.
    fn find_set(&self, path: &String) -> (r: Option<usize>)
        ensures
            match r {
                Option::Some(i) => {
                    &&& 0 <= i < self@.sets.len()
                    &&& self@.sets[i as int].path == path@
                    &&& forall|j: int| 0 <= j < i ==> (#[trigger] self@.sets[j]).path != path@
                },
                Option::None => !has_path(self@.sets, path@),
            },
    {
        let mut i: usize = 0;
        while i < self.sets.len()
            invariant
                i <= self.sets.len(),
                forall|j: int| 0 <= j < i ==> (#[trigger] self@.sets[j]).path != path@,
            decreases self.sets.len() - i,
        {
            if self.sets[i].path == *path {
                return Some(i);
            }
            i += 1;
        }
        None
    }

    /// Creates a bookmark named `name` at `page` for the document at `path`
    /// (already canonicalized by the caller). Appends to the existing set
    /// for `path`, or creates a fresh set whose fingerprint is computed from
    /// `file_bytes` — the document's content as read by the caller — with
    /// the zero sentinel substituted when the file could not be read
    /// (`file_bytes` is `None`). No duplicate-name or page check is made.
    pub fn create_bookmark(&mut self, path: String, name: String, page: i32, file_bytes: Option<Vec<u8>>)
        requires
            sets_wf(old(self)@.sets),
        ensures
            final(self)@ == create_spec(
                old(self)@,
                path@,
                name@,
                page as int,
                creation_hash(file_bytes),
            ),
            sets_wf(final(self)@.sets),
    {
        let ghost s0 = self@;
        match self.find_set(&path) {
            Option::Some(i) => {
                let mut set = self.sets.remove(i);
                set.marks.push(Bookmark { page, name });
                self.sets.insert(i, set);
                proof {
                    assert(has_path(s0.sets, path@));
                    let k = index_of_path(s0.sets, path@);
                    assert(0 <= k < s0.sets.len() && s0.sets[k].path == path@);
                    assert(k == i) by {
                        if k < i {
                            assert(s0.sets[k].path != path@);
                        } else if k > i {
                            assert(s0.sets[i as int].path == path@);
                        }
                    }
                    assert(self@.sets =~~= create_spec(
                        s0,
                        path@,
                        name@,
                        page as int,
                        creation_hash(file_bytes),
                    ).sets);
                    assert(self@ =~~= create_spec(
                        s0,
                        path@,
                        name@,
                        page as int,
                        creation_hash(file_bytes),
                    ));
                    assert(sets_wf(self@.sets));
                }
            }
            Option::None => {
                let file_hash: u64 = match &file_bytes {
                    Option::Some(b) => fingerprint(b),
                    Option::None => 0,
                };
                let mut marks: Vec<Bookmark> = Vec::new();
                marks.push(Bookmark { page, name });
                self.sets.push(BookmarkSet { marks, file_hash, path });
                proof {
                    assert(!has_path(s0.sets, path@));
                    assert(self@.sets =~~= create_spec(
                        s0,
                        path@,
                        name@,
                        page as int,
                        creation_hash(file_bytes),
                    ).sets);
                    assert(self@ =~~= create_spec(
                        s0,
                        path@,
                        name@,
                        page as int,
                        creation_hash(file_bytes),
                    ));
                    assert(sets_wf(self@.sets));
                }
            }
        }
    }

    /// Deletes every bookmark named `name` from the set for `path` (already
    /// canonicalized by the caller); removes the set entirely when its last
    /// bookmark goes. Silently does nothing when no set or no such bookmark
    /// exists.
    pub fn delete_bookmark(&mut self, path: String, name: String)
        requires
            sets_wf(old(self)@.sets),
        ensures
            final(self)@ == delete_spec(old(self)@, path@, name@),
            sets_wf(final(self)@.sets),
    {
        let ghost s0 = self@;
        match self.find_set(&path) {
            Option::Some(i) => {
                let set = self.sets.remove(i);
                let ghost pred = |m: BookmarkV| m.name != name@;
                let mut kept: Vec<Bookmark> = Vec::new();
                let mut j: usize = 0;
                while j < set.marks.len()
                    invariant
                        j <= set.marks.len(),
                        kept@.map_values(|m: Bookmark| m@) =~= set@.marks.subrange(0, j as int).filter(pred),
                        pred == (|m: BookmarkV| m.name != name@),
                    decreases set.marks.len() - j,
                {
                    proof {
                        reveal(Seq::filter);
                        let pre = set@.marks.subrange(0, j as int);
                        let cur = set@.marks.subrange(0, (j + 1) as int);
                        assert(cur.drop_last() =~= pre);
                        assert(cur.last() == set@.marks[j as int]);
                        assert(cur.filter(pred) == if pred(set@.marks[j as int]) {
                            pre.filter(pred).push(set@.marks[j as int])
                        } else {
                            pre.filter(pred)
                        });
                    }
                    if set.marks[j].name != name {
                        kept.push(set.marks[j].clone());
                    }
                    j += 1;
                }
                proof {
                    assert(set@.marks.subrange(0, set.marks@.len() as int) =~= set@.marks);
                }
                if kept.len() == 0 {
                    // The set lost its last bookmark: it is already out of
                    // `sets`, and stays out.
                } else {
                    self.sets.insert(i, BookmarkSet { marks: kept, file_hash: set.file_hash, path: set.path });
                }
                proof {
                    assert(has_path(s0.sets, path@));
                    let k = index_of_path(s0.sets, path@);
                    assert(0 <= k < s0.sets.len() && s0.sets[k].path == path@);
                    assert(k == i) by {
                        if k < i {
                            assert(s0.sets[k].path != path@);
                        } else if k > i {
                            assert(s0.sets[i as int].path == path@);
                        }
                    }
                    assert(self@.sets =~~= delete_spec(s0, path@, name@).sets);
                    assert(self@ =~~= delete_spec(s0, path@, name@));
                    assert(sets_wf(self@.sets)) by {
                        let d = delete_spec(s0, path@, name@).sets;
                        let kept_marks = s0.sets[i as int].marks.filter(pred);
                        if kept_marks.len() == 0 {
                            assert(forall|a: int| 0 <= a < d.len() ==> (#[trigger] d[a]) == if a < i {
                                s0.sets[a]
                            } else {
                                s0.sets[a + 1]
                            });
                        }
                    }
                }
            }
            Option::None => {
                proof {
                    assert(self@ =~~= delete_spec(s0, path@, name@));
                }
            }
        }
    }

    /// Dispatches one command to the store. The store performs
    /// `CreateBookmark` (with `file_bytes` as the document content for
    /// fingerprinting a fresh set, as in [`Self::create_bookmark`]),
    /// `DeleteBookmark`, `PendingName` and the no-op `None`, and reports
    /// `GoTo` and `RequestNewBookmark` — commands only the host may handle —
    /// as a [`StoreError::ContractViolation`], leaving the store untouched;
    /// the host treats that answer as fatal.
    pub fn update(&mut self, message: BookmarkMessage, file_bytes: Option<Vec<u8>>) -> (r: Result<
        (),
        StoreError,
    >)
        requires
            sets_wf(old(self)@.sets),
        ensures
            sets_wf(final(self)@.sets),
            match message {
                BookmarkMessage::CreateBookmark { path, name, page } => {
                    &&& final(self)@ == create_spec(
                        old(self)@,
                        path@,
                        name@,
                        page as int,
                        creation_hash(file_bytes),
                    )
                    &&& r == Ok::<(), StoreError>(())
                },
                BookmarkMessage::DeleteBookmark { path, name } => {
                    &&& final(self)@ == delete_spec(old(self)@, path@, name@)
                    &&& r == Ok::<(), StoreError>(())
                },
                BookmarkMessage::PendingName(s) => {
                    &&& final(self)@ == (BookmarkStoreV {
                        sets: old(self)@.sets,
                        pending_name: s@,
                    })
                    &&& r == Ok::<(), StoreError>(())
                },
                BookmarkMessage::GoTo { .. } => {
                    &&& *final(self) == *old(self)
                    &&& r == Err::<(), StoreError>(StoreError::ContractViolation)
                },
                BookmarkMessage::RequestNewBookmark { .. } => {
                    &&& *final(self) == *old(self)
                    &&& r == Err::<(), StoreError>(StoreError::ContractViolation)
                },
                BookmarkMessage::Noop => {
                    &&& *final(self) == *old(self)
                    &&& r == Ok::<(), StoreError>(())
                },
            },
    {
        match message {
            BookmarkMessage::CreateBookmark { path, name, page } => {
                self.create_bookmark(path, name, page, file_bytes);
                Ok(())
            }
            BookmarkMessage::DeleteBookmark { path, name } => {
                self.delete_bookmark(path, name);
                Ok(())
            }
            BookmarkMessage::PendingName(s) => {
                self.set_pending_name(s);
                Ok(())
            }
            BookmarkMessage::GoTo { .. } | BookmarkMessage::RequestNewBookmark { .. } => {
                Err(StoreError::ContractViolation)
            }
            BookmarkMessage::Noop => Ok(()),
        }
    }
}


/// A filter that keeps every element leaves the sequence unchanged.
proof fn lemma_filter_keeps_all(m: Seq<BookmarkV>, pred: spec_fn(BookmarkV) -> bool)
    requires
        forall|k: int| 0 <= k < m.len() ==> pred(#[trigger] m[k]),
    ensures
        m.filter(pred) == m,
    decreases m.len(),
{
    reveal(Seq::filter);
    if m.len() == 0 {
        assert(m.filter(pred) =~= m);
    } else {
        assert(forall|k: int| 0 <= k < m.drop_last().len() ==> #[trigger] m.drop_last()[k] == m[k]);
        lemma_filter_keeps_all(m.drop_last(), pred);
        assert(pred(m.last()));
        assert(m.drop_last().push(m.last()) =~= m);
    }
}

/// A filter that drops every element leaves nothing.
proof fn lemma_filter_drops_all(m: Seq<BookmarkV>, pred: spec_fn(BookmarkV) -> bool)
    requires
        forall|k: int| 0 <= k < m.len() ==> !pred(#[trigger] m[k]),
    ensures
        m.filter(pred).len() == 0,
    decreases m.len(),
{
    reveal(Seq::filter);
    if m.len() > 0 {
        assert(forall|k: int| 0 <= k < m.drop_last().len() ==> #[trigger] m.drop_last()[k] == m[k]);
        lemma_filter_drops_all(m.drop_last(), pred);
        assert(!pred(m.last()));
    }
}

/// Creating a bookmark and then deleting it by name restores the store to
/// its prior state — provided the path's existing set, if there is one,
/// holds no other mark with that name, since deletion removes every mark
/// so named.
pub proof fn lemma_create_then_delete_round_trip(
    s: BookmarkStoreV,
    path: Seq<char>,
    name: Seq<char>,
    page: int,
    hash: u64,
)
    requires
        sets_wf(s.sets),
        has_path(s.sets, path) ==> forall|k: int|
            0 <= k < s.sets[index_of_path(s.sets, path)].marks.len() ==> (#[trigger] s.sets[
                index_of_path(s.sets, path)
            ].marks[k]).name != name,
    ensures
        delete_spec(create_spec(s, path, name, page, hash), path, name) == s,
{
    let pred = |m: BookmarkV| m.name != name;
    let s1 = create_spec(s, path, name, page, hash);
    if has_path(s.sets, path) {
        let i = index_of_path(s.sets, path);
        assert(0 <= i < s.sets.len() && s.sets[i].path == path);
        assert(s1.sets == s.sets.update(i, BookmarkSetV {
            marks: s.sets[i].marks.push(BookmarkV { page, name }),
            file_hash: s.sets[i].file_hash,
            path: s.sets[i].path,
        }));
        assert(has_path(s1.sets, path)) by {
            assert(s1.sets[i].path == path);
        }
        let k = index_of_path(s1.sets, path);
        assert(0 <= k < s1.sets.len() && s1.sets[k].path == path);
        assert(k == i) by {
            if k != i {
                assert(s1.sets[k] == s.sets[k]);
                assert(s.sets[k].path == path);
                assert(s.sets[i].path == path);
            }
        }
        let appended = s.sets[i].marks.push(BookmarkV { page, name });
        assert(appended.filter(pred) == s.sets[i].marks) by {
            reveal(Seq::filter);
            assert(appended.drop_last() =~= s.sets[i].marks);
            assert(appended.last() == (BookmarkV { page, name }));
            assert(!pred(BookmarkV { page, name }));
            lemma_filter_keeps_all(s.sets[i].marks, pred);
        }
        assert(s.sets[i].marks.len() > 0);
        assert(delete_spec(s1, path, name).sets =~~= s.sets) by {
            assert(s1.sets.update(i, BookmarkSetV {
                marks: s.sets[i].marks,
                file_hash: s.sets[i].file_hash,
                path: s.sets[i].path,
            }) =~~= s.sets);
        }
        assert(delete_spec(s1, path, name) =~~= s);
    } else {
        let fresh = BookmarkSetV {
            marks: seq![BookmarkV { page, name }],
            file_hash: hash,
            path: path,
        };
        assert(s1.sets == s.sets.push(fresh));
        let n = s.sets.len() as int;
        assert(has_path(s1.sets, path)) by {
            assert(s1.sets[n].path == path);
        }
        let k = index_of_path(s1.sets, path);
        assert(0 <= k < s1.sets.len() && s1.sets[k].path == path);
        assert(k == n) by {
            if k < n {
                assert(s1.sets[k] == s.sets[k]);
                assert(has_path(s.sets, path)) by {
                    assert(s.sets[k].path == path);
                }
            }
        }
        assert(fresh.marks.filter(pred).len() == 0) by {
            assert(forall|t: int|
                0 <= t < fresh.marks.len() ==> !pred(#[trigger] fresh.marks[t]));
            lemma_filter_drops_all(fresh.marks, pred);
        }
        assert(delete_spec(s1, path, name).sets =~~= s.sets) by {
            assert(s1.sets.remove(n) =~~= s.sets);
        }
        assert(delete_spec(s1, path, name) =~~= s);
    }
}

/// Creating two bookmarks for one previously unseen path yields exactly one
/// set for that path — holding both marks in creation order, tagged with
/// the fingerprint of the first creation — and leaves every other set
/// untouched.
pub proof fn lemma_two_creates_same_path_one_set(
    s: BookmarkStoreV,
    path: Seq<char>,
    name1: Seq<char>,
    page1: int,
    hash1: u64,
    name2: Seq<char>,
    page2: int,
    hash2: u64,
)
    requires
        sets_wf(s.sets),
        !has_path(s.sets, path),
    ensures
        ({
            let s2 = create_spec(create_spec(s, path, name1, page1, hash1), path, name2, page2, hash2);
            &&& s2.sets.len() == s.sets.len() + 1
            &&& s2.sets[s.sets.len() as int].path == path
            &&& s2.sets[s.sets.len() as int].marks == seq![
                BookmarkV { page: page1, name: name1 },
                BookmarkV { page: page2, name: name2 },
            ]
            &&& s2.sets[s.sets.len() as int].file_hash == hash1
            &&& forall|a: int| 0 <= a < s.sets.len() ==> #[trigger] s2.sets[a] == s.sets[a]
        }),
{
    let s1 = create_spec(s, path, name1, page1, hash1);
    let fresh = BookmarkSetV {
        marks: seq![BookmarkV { page: page1, name: name1 }],
        file_hash: hash1,
        path: path,
    };
    assert(s1.sets == s.sets.push(fresh));
    let n = s.sets.len() as int;
    assert(has_path(s1.sets, path)) by {
        assert(s1.sets[n].path == path);
    }
    let k = index_of_path(s1.sets, path);
    assert(0 <= k < s1.sets.len() && s1.sets[k].path == path);
    assert(k == n) by {
        if k < n {
            assert(s1.sets[k] == s.sets[k]);
            assert(has_path(s.sets, path)) by {
                assert(s.sets[k].path == path);
            }
        }
    }
    let s2 = create_spec(s1, path, name2, page2, hash2);
    assert(s2.sets[n].marks =~= seq![
        BookmarkV { page: page1, name: name1 },
        BookmarkV { page: page2, name: name2 },
    ]);
}

/// Deleting the last remaining bookmarks of a set — when every mark of the
/// set carries the deleted name — removes the set from the store entirely.
pub proof fn lemma_delete_last_bookmark_removes_set(
    s: BookmarkStoreV,
    path: Seq<char>,
    name: Seq<char>,
)
    requires
        sets_wf(s.sets),
        has_path(s.sets, path),
        forall|k: int|
            0 <= k < s.sets[index_of_path(s.sets, path)].marks.len() ==> (#[trigger] s.sets[
                index_of_path(s.sets, path)
            ].marks[k]).name == name,
    ensures
        delete_spec(s, path, name).sets == s.sets.remove(index_of_path(s.sets, path)),
        delete_spec(s, path, name).sets.len() == s.sets.len() - 1,
        !has_path(delete_spec(s, path, name).sets, path),
{
    let pred = |m: BookmarkV| m.name != name;
    let i = index_of_path(s.sets, path);
    assert(0 <= i < s.sets.len() && s.sets[i].path == path);
    assert(s.sets[i].marks.filter(pred).len() == 0) by {
        assert(forall|k: int|
            0 <= k < s.sets[i].marks.len() ==> !pred(#[trigger] s.sets[i].marks[k]));
        lemma_filter_drops_all(s.sets[i].marks, pred);
    }
    let d = delete_spec(s, path, name).sets;
    assert(d == s.sets.remove(i));
    assert(!has_path(d, path)) by {
        if has_path(d, path) {
            let w = choose|w: int| 0 <= w < d.len() && (#[trigger] d[w]).path == path;
            assert(forall|a: int|
                0 <= a < d.len() ==> (#[trigger] d[a]) == if a < i {
                    s.sets[a]
                } else {
                    s.sets[a + 1]
                });
            if w < i {
                assert(s.sets[w].path == path);
                assert(s.sets[i].path == path);
            } else {
                assert(s.sets[w + 1].path == path);
                assert(s.sets[i].path == path);
            }
        }
    }
}

} // verus!

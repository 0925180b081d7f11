//! The values that the server hands to its client: positions, ranges,
//! diagnostics, links, errors, and diagnostics grouped by file.

use crate::consts::LINE_END;
use crate::text::{bytes_eq, to_vec};
use vstd::prelude::*;

verus! {

/// A place in a text: line and column, both counted from zero.
#[derive(Clone, Copy, Debug, PartialEq, Eq, Hash, Structural)]
pub struct Position {
    pub line: u32,
    pub character: u32,
}

/// A stretch of a text, from `start` up to `end`.
#[derive(Clone, Copy, Debug, PartialEq, Eq, Hash, Structural)]
pub struct Range {
    pub start: Position,
    pub end: Position,
}

/// How grave a diagnostic is.
#[derive(Clone, Copy, Debug, PartialEq, Eq, Hash, Structural)]
pub enum DiagnosticSeverity {
    Error,
    Warning,
    Information,
}

/// The range that covers the line `line` from its first column to the
/// column `LINE_END`.
pub open spec fn whole_line(line: u32) -> Range {
    Range {
        start: Position { line, character: 0 },
        end: Position { line, character: LINE_END },
    }
}

/// The range that covers the line `line`, see [`whole_line`].
pub fn line_range(line: u32) -> (range: Range)
    ensures
        range == whole_line(line),
{
    Range { start: Position { line, character: 0 }, end: Position { line, character: LINE_END } }
}

/// A finding on a file: where, how grave, the tag of the one who found it,
/// and the message.
#[derive(Clone, Debug, PartialEq, Eq)]
pub struct Diagnostic {
    pub range: Range,
    pub severity: DiagnosticSeverity,
    pub source: &'static str,
    pub message: Vec<u8>,
}

/// What a `Diagnostic` holds.
pub struct DiagnosticView {
    pub range: Range,
    pub severity: DiagnosticSeverity,
    pub source: Seq<char>,
    pub message: Seq<u8>,
}

impl View for Diagnostic {
    type V = DiagnosticView;

    open spec fn view(&self) -> DiagnosticView {
        DiagnosticView {
            range: self.range,
            severity: self.severity,
            source: self.source@,
            message: self.message@,
        }
    }
}

/// A link from an include directive to the included file.
#[derive(Clone, Debug, PartialEq, Eq)]
pub struct DocumentLink {
    pub range: Range,
    pub target: Vec<u8>,
}

/// What a `DocumentLink` holds.
pub struct DocumentLinkView {
    pub range: Range,
    pub target: Seq<u8>,
}

impl View for DocumentLink {
    type V = DocumentLinkView;

    open spec fn view(&self) -> DocumentLinkView {
        DocumentLinkView { range: self.range, target: self.target@ }
    }
}

/// What the links `v` hold.
pub open spec fn link_views(v: Seq<DocumentLink>) -> Seq<DocumentLinkView> {
    Seq::new(v.len(), |i: int| v[i]@)
}

/// The diagnostics of one file, as they are sent to the client.
#[derive(Clone, Debug, PartialEq, Eq)]
pub struct PublishDiagnosticsParams {
    pub path: Vec<u8>,
    pub diagnostics: Vec<Diagnostic>,
    pub version: Option<i32>,
}

/// The answer to a request that the server does not serve.
#[derive(Clone, Debug, PartialEq, Eq)]
pub struct MethodError<DATA> {
    pub code: i32,
    pub message: String,
    pub data: DATA,
}

/// What the diagnostics `v` hold.
pub open spec fn views(v: Seq<Diagnostic>) -> Seq<DiagnosticView> {
    Seq::new(v.len(), |i: int| v[i]@)
}

/// Diagnostics grouped by the file that they are for. A file may be listed
/// with no diagnostic: that clears what was reported for it before. The
/// files stand in the order in which they were first named.
pub struct FileDiagnostics {
    entries: Vec<(Vec<u8>, Vec<Diagnostic>)>,
}

impl FileDiagnostics {
    /// The paths of the files, in the order in which they were first named.
    pub closed spec fn keys(&self) -> Seq<Seq<u8>> {
        Seq::new(self.entries.len() as nat, |i: int| self.entries[i].0@)
    }

    /// The diagnostics of each file, in the order of `keys`.
    pub closed spec fn values(&self) -> Seq<Seq<DiagnosticView>> {
        Seq::new(self.entries.len() as nat, |i: int| views(self.entries[i].1@))
    }

    /// The invariant: no file is listed twice.
    pub open spec fn wf(&self) -> bool {
        &&& self.keys().no_duplicates()
        &&& self.values().len() == self.keys().len()
    }

    /// The diagnostics of each file that is listed.
    pub open spec fn view(&self) -> Map<Seq<u8>, Seq<DiagnosticView>> {
        Map::new(
            |path: Seq<u8>| self.keys().contains(path),
            |path: Seq<u8>| self.values()[self.keys().index_of(path)],
        )
    }

    /// No file.
    pub fn new() -> (empty: Self)
        ensures
            empty.wf(),
            empty.keys() == Seq::<Seq<u8>>::empty(),
            empty@ == Map::<Seq<u8>, Seq<DiagnosticView>>::empty(),
    {
        let empty = FileDiagnostics { entries: Vec::new() };
        assert(empty.keys() =~= Seq::<Seq<u8>>::empty());
        assert(empty@ =~= Map::<Seq<u8>, Seq<DiagnosticView>>::empty());
        empty
    }

    /// The number of files.
    pub fn len(&self) -> (n: usize)
        ensures
            n == self.keys().len(),
    {
        self.entries.len()
    }

    fn position(&self, path: &[u8]) -> (at: Option<usize>)
        requires
            self.wf(),
        ensures
            match at {
                Some(i) => i < self.keys().len() && self.keys()[i as int] == path@
                    && self.keys().index_of(path@) == i,
                None => !self.keys().contains(path@),
            },
    {
        let mut i: usize = 0;
        while i < self.entries.len()
            invariant
                self.wf(),
                i <= self.entries.len(),
                forall|j: int| 0 <= j < i ==> self.keys()[j] != path@,
            decreases self.entries.len() - i,
        {
            if bytes_eq(self.entries[i].0.as_slice(), path) {
                assert(self.keys()[i as int] == path@);
                assert(self.keys().contains(path@));
                return Some(i);
            }
            i += 1;
        }
        None
    }

    /// Whether the file at `path` is listed.
    pub fn contains(&self, path: &[u8]) -> (listed: bool)
        requires
            self.wf(),
        ensures
            listed == self@.contains_key(path@),
    {
        self.position(path).is_some()
    }

    /// The diagnostics of the file at `path`, if it is listed.
    pub fn get(&self, path: &[u8]) -> (found: Option<&Vec<Diagnostic>>)
        requires
            self.wf(),
        ensures
            match found {
                Some(list) => self@.contains_key(path@) && views(list@) == self@[path@],
                None => !self@.contains_key(path@),
            },
    {
        match self.position(path) {
            Some(i) => Some(&self.entries[i].1),
            None => None,
        }
    }

    /// Lists the file at `path`, if it is not listed yet, with no diagnostic.
    pub fn touch(&mut self, path: &[u8])
        requires
            old(self).wf(),
        ensures
            final(self).wf(),
            final(self)@ == if old(self)@.contains_key(path@) {
                old(self)@
            } else {
                old(self)@.insert(path@, Seq::empty())
            },
            final(self).keys() == if old(self)@.contains_key(path@) {
                old(self).keys()
            } else {
                old(self).keys().push(path@)
            },
    {
        if self.position(path).is_none() {
            let list: Vec<Diagnostic> = Vec::new();
            assert(views(list@) =~= Seq::<DiagnosticView>::empty());
            self.entries.push((to_vec(path), list));
            proof {
                assert(self.keys() =~= old(self).keys().push(path@));
                assert(self.values() =~= old(self).values().push(Seq::empty()));
                lemma_push_key(old(self).keys(), old(self).values(), path@, Seq::empty());
                assert(self@ =~= old(self)@.insert(path@, Seq::empty()));
            }
        }
    }

    /// Gives the file at `path` the diagnostics `list` in place of those
    /// that it had.
    pub fn insert(&mut self, path: &[u8], list: Vec<Diagnostic>)
        requires
            old(self).wf(),
        ensures
            final(self).wf(),
            final(self)@ == old(self)@.insert(path@, views(list@)),
            final(self).keys() == if old(self)@.contains_key(path@) {
                old(self).keys()
            } else {
                old(self).keys().push(path@)
            },
    {
        match self.position(path) {
            Some(i) => {
                let entry = self.entries.remove(i);
                self.entries.insert(i, (entry.0, list));
                proof {
                    assert(self.keys() =~= old(self).keys());
                    assert(self.values() =~= old(self).values().update(i as int, views(list@)));
                    lemma_key_place(old(self).keys(), i as int);
                    assert(self@ =~= old(self)@.insert(path@, views(list@)));
                }
            },
            None => {
                self.entries.push((to_vec(path), list));
                proof {
                    assert(self.keys() =~= old(self).keys().push(path@));
                    assert(self.values() =~= old(self).values().push(views(list@)));
                    lemma_push_key(old(self).keys(), old(self).values(), path@, views(list@));
                    assert(self@ =~= old(self)@.insert(path@, views(list@)));
                }
            },
        }
    }

    /// Adds `diagnostic` behind the diagnostics that the file at `path` has,
    /// and lists the file if it is not listed yet.
    pub fn push(&mut self, path: &[u8], diagnostic: Diagnostic)
        requires
            old(self).wf(),
        ensures
            final(self).wf(),
            final(self)@ == old(self)@.insert(
                path@,
                (if old(self)@.contains_key(path@) {
                    old(self)@[path@]
                } else {
                    Seq::empty()
                }).push(diagnostic@),
            ),
            final(self).keys() == if old(self)@.contains_key(path@) {
                old(self).keys()
            } else {
                old(self).keys().push(path@)
            },
    {
        match self.position(path) {
            Some(i) => {
                let mut entry = self.entries.remove(i);
                let ghost had = views(entry.1@);
                entry.1.push(diagnostic);
                assert(views(entry.1@) =~= had.push(diagnostic@));
                self.entries.insert(i, entry);
                proof {
                    assert(self.keys() =~= old(self).keys());
                    assert(self.values() =~= old(self).values().update(
                        i as int,
                        had.push(diagnostic@),
                    ));
                    lemma_key_place(old(self).keys(), i as int);
                    assert(self@ =~= old(self)@.insert(path@, had.push(diagnostic@)));
                }
            },
            None => {
                let mut list: Vec<Diagnostic> = Vec::new();
                list.push(diagnostic);
                assert(views(list@) =~= Seq::<DiagnosticView>::empty().push(diagnostic@));
                self.insert(path, list);
            },
        }
    }

    /// Takes over the files of `other`: each with the diagnostics that it
    /// has there, in place of those that it had here.
    pub fn absorb(&mut self, other: FileDiagnostics)
        requires
            old(self).wf(),
            other.wf(),
        ensures
            final(self).wf(),
            final(self)@ == old(self)@.union_prefer_right(other@),
    {
        let mut rest = other.entries;
        let ghost keys = other.keys();
        let ghost values = other.values();
        let ghost mut done: int = 0;
        assert(self@ =~= old(self)@.union_prefer_right(taken(keys, values, 0)));
        while rest.len() > 0
            invariant
                self.wf(),
                keys.no_duplicates(),
                values.len() == keys.len(),
                0 <= done <= keys.len(),
                rest.len() == keys.len() - done,
                forall|j: int|
                    0 <= j < rest.len() ==> (#[trigger] rest[j]).0@ == keys[done + j] && views(
                        rest[j].1@,
                    ) == values[done + j],
                self@ == old(self)@.union_prefer_right(taken(keys, values, done)),
            decreases rest.len(),
        {
            let entry = rest.remove(0);
            self.insert(entry.0.as_slice(), entry.1);
            proof {
                assert(taken(keys, values, done + 1) =~= taken(keys, values, done).insert(
                    keys[done],
                    values[done],
                )) by {
                    assert forall|k: Seq<u8>| #[trigger]
                        taken(keys, values, done + 1).contains_key(k) && k != keys[done] implies taken(
                        keys,
                        values,
                        done,
                    ).contains_key(k) && taken(keys, values, done)[k] == taken(
                        keys,
                        values,
                        done + 1,
                    )[k] by {}
                }
                assert(self@ =~= old(self)@.union_prefer_right(taken(keys, values, done + 1)));
                done = done + 1;
            }
        }
        proof {
            assert(taken(keys, values, done) =~= other@) by {
                assert forall|k: Seq<u8>| other@.contains_key(k) implies taken(
                    keys,
                    values,
                    done,
                ).contains_key(k) && taken(keys, values, done)[k] == other@[k] by {
                    let i = keys.index_of(k);
                    assert(keys[i] == k);
                }
            }
        }
    }

    /// The files with their diagnostics, in the order of `keys`.
    pub fn into_entries(self) -> (entries: Vec<(Vec<u8>, Vec<Diagnostic>)>)
        ensures
            entries.len() == self.keys().len(),
            forall|i: int|
                0 <= i < entries.len() ==> (#[trigger] entries[i]).0@ == self.keys()[i] && views(
                    entries[i].1@,
                ) == self.values()[i],
    {
        self.entries
    }
}

/// The files among the first `n` of `keys`, each with its value.
pub open spec fn taken(keys: Seq<Seq<u8>>, values: Seq<Seq<DiagnosticView>>, n: int) -> Map<
    Seq<u8>,
    Seq<DiagnosticView>,
> {
    Map::new(
        |path: Seq<u8>| exists|i: int| 0 <= i < n && i < keys.len() && keys[i] == path,
        |path: Seq<u8>| values[keys.index_of(path)],
    )
}

/// A new key behind the others changes no place of an old key.
proof fn lemma_push_key(
    keys: Seq<Seq<u8>>,
    values: Seq<Seq<DiagnosticView>>,
    key: Seq<u8>,
    value: Seq<DiagnosticView>,
)
    requires
        keys.no_duplicates(),
        values.len() == keys.len(),
        !keys.contains(key),
    ensures
        keys.push(key).no_duplicates(),
        keys.push(key).index_of(key) == keys.len(),
        forall|k: Seq<u8>| keys.contains(k) ==> keys.push(key).index_of(k) == keys.index_of(k),
        forall|k: Seq<u8>| keys.push(key).contains(k) <==> keys.contains(k) || k == key,
{
    let more = keys.push(key);
    assert(more[keys.len() as int] == key);
    assert forall|k: Seq<u8>| keys.contains(k) implies more.index_of(k) == keys.index_of(k) by {
        let i = keys.index_of(k);
        assert(more[i] == k);
    }
    assert forall|k: Seq<u8>| more.contains(k) implies keys.contains(k) || k == key by {
        let i = choose|i: int| 0 <= i < more.len() && more[i] == k;
        if i < keys.len() {
            assert(keys[i] == k);
        }
    }
    assert forall|k: Seq<u8>| keys.contains(k) implies more.contains(k) by {
        let i = keys.index_of(k);
        assert(more[i] == k);
    }
}

/// Where no key stands twice, the place of a key is the place where it
/// stands.
proof fn lemma_key_place(keys: Seq<Seq<u8>>, i: int)
    requires
        keys.no_duplicates(),
        0 <= i < keys.len(),
    ensures
        forall|k: Seq<u8>| keys.contains(k) ==> keys[keys.index_of(k)] == k,
        keys.index_of(keys[i]) == i,
{
}

} // verus!

//! The note record, its mathematical model, and who may read it.

use vstd::prelude::*;

verus! {

/// A short text record with an owner and a list of further readers.
#[derive(Clone, Debug, PartialEq, Eq)]
pub struct Note {
    /// The key under which the note is stored.
    pub id: u32,
    /// The payload, chosen by the owner.
    pub content: String,
    /// The principal that created the note.
    pub owner: String,
    /// The principals that were granted read access, in the order of granting.
    pub shared_with: Vec<String>,
}

/// What a note is, as plain mathematical values.
pub struct NoteView {
    pub id: u32,
    pub content: Seq<char>,
    pub owner: Seq<char>,
    pub shared_with: Seq<Seq<char>>,
}

/// The principals in a list of strings.
pub open spec fn names_view(names: Seq<String>) -> Seq<Seq<char>> {
    Seq::new(names.len(), |i: int| names[i]@)
}

impl View for Note {
    type V = NoteView;

    open spec fn view(&self) -> NoteView {
        NoteView {
            id: self.id,
            content: self.content@,
            owner: self.owner@,
            shared_with: names_view(self.shared_with@),
        }
    }
}

impl NoteView {
    /// A note is readable by its owner and by those it was shared with.
    pub open spec fn readable_by(self, principal: Seq<char>) -> bool {
        self.owner == principal || self.shared_with.contains(principal)
    }

    /// No principal is listed twice among the readers, and the owner, who
    /// can read the note anyway, is not listed at all.
    pub open spec fn well_formed(self) -> bool {
        &&& self.shared_with.no_duplicates()
        &&& !self.shared_with.contains(self.owner)
    }
}

/// Whether `name` occurs among the first `upto` entries of `names`.
pub fn contains_name_before(names: &Vec<String>, upto: usize, name: &String) -> (found: bool)
    requires
        upto <= names@.len(),
    ensures
        found == names_view(names@).take(upto as int).contains(name@),
{
    let mut i: usize = 0;
    while i < upto
        invariant
            i <= upto <= names@.len(),
            !names_view(names@).take(i as int).contains(name@),
        decreases upto - i,
    {
        if names[i] == *name {
            assert(names_view(names@).take(upto as int)[i as int] == name@);
            return true;
        }
        let ghost next = names_view(names@).take(i + 1);
        assert forall|j: int| 0 <= j < next.len() implies next[j] != name@ by {
            if j < i {
                assert(names_view(names@).take(i as int)[j] == next[j]);
            }
        }
        i += 1;
    }
    false
}

/// Whether `name` occurs in `names`.
pub fn contains_name(names: &Vec<String>, name: &String) -> (found: bool)
    ensures
        found == names_view(names@).contains(name@),
{
    assert(names_view(names@).take(names@.len() as int) =~= names_view(names@));
    contains_name_before(names, names.len(), name)
}

/// Whether no entry of `names` occurs twice.
pub fn all_distinct(names: &Vec<String>) -> (distinct: bool)
    ensures
        distinct == names_view(names@).no_duplicates(),
{
    let mut i: usize = 0;
    while i < names.len()
        invariant
            i <= names@.len(),
            names_view(names@).take(i as int).no_duplicates(),
        decreases names@.len() - i,
    {
        let ghost all = names_view(names@);
        if contains_name_before(names, i, &names[i]) {
            proof {
                let j = choose|j: int| 0 <= j < i && all.take(i as int)[j] == all[i as int];
                assert(all[j] == all[i as int] && j != i);
            }
            return false;
        }
        let ghost next = all.take(i + 1);
        assert forall|a: int, b: int|
            0 <= a < next.len() && 0 <= b < next.len() && a != b implies next[a] != next[b] by {
            if a < i && b < i {
                assert(all.take(i as int)[a] != all.take(i as int)[b]);
            } else if a < i {
                assert(all.take(i as int)[a] == all[a]);
            } else {
                assert(all.take(i as int)[b] == all[b]);
            }
        }
        i += 1;
    }
    assert(names_view(names@).take(names@.len() as int) =~= names_view(names@));
    true
}

impl Note {
    /// Whether no reader is listed twice and the owner is no reader.
    pub fn is_well_formed(&self) -> (well_formed: bool)
        ensures
            well_formed == self@.well_formed(),
    {
        all_distinct(&self.shared_with) && !contains_name(&self.shared_with, &self.owner)
    }

    /// Whether `principal` may read this note.
    pub fn is_readable_by(&self, principal: &String) -> (readable: bool)
        ensures
            readable == self@.readable_by(principal@),
    {
        self.owner == *principal || contains_name(&self.shared_with, principal)
    }
}

} // verus!

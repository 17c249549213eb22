//! The note store: a record map with ownership, sharing and id allocation
//! laid over it.

use crate::codec::{lemma_note_round_trip, parse_note};
use crate::note::{Note, NoteView};
use crate::stable_map::{
    map_contents, map_entries, map_get, map_init, map_insert, map_len, map_new, map_remove,
    RecordMap,
};
use vstd::prelude::*;

verus! {

/// Why a change to a note was refused.
pub enum Refusal {
    /// No note has the id.
    NotFound,
    /// The caller does not own the note.
    PermissionDenied,
    /// The principal can already read the note.
    AlreadyShared,
}

/// A store as a mathematical value: the live notes by id.
pub type Notes = Map<u32, NoteView>;

/// The bytes under `id` are the record of a well-formed note with that id.
pub open spec fn valid_record(id: u32, bytes: Seq<u8>) -> bool {
    parse_note(bytes) matches Some(note) && note.id == id && note.well_formed()
}

/// Every entry of `records` is a valid record.
pub open spec fn valid_records(records: Map<u32, Seq<u8>>) -> bool {
    forall|id: u32| #[trigger] records.dom().contains(id) ==> valid_record(id, records[id])
}

/// The live notes are finitely many, each lives under its own id, and none
/// lists a reader twice.
pub open spec fn consistent(notes: Notes) -> bool {
    &&& notes.dom().finite()
    &&& forall|id: u32| #[trigger]
        notes.dom().contains(id) ==> notes[id].id == id && notes[id].well_formed()
}

/// The id that the next new note gets: the number of live notes, as far as it
/// fits 32 bits.
pub open spec fn next_id(notes: Notes) -> u32 {
    (notes.dom().len() % 0x1_0000_0000) as u32
}

/// A note as it is created: without readers.
pub open spec fn fresh_note(id: u32, owner: Seq<char>, content: Seq<char>) -> NoteView {
    NoteView { id, content, owner, shared_with: Seq::empty() }
}

/// The store after `owner` added a note with `content`.
pub open spec fn after_add(notes: Notes, owner: Seq<char>, content: Seq<char>) -> Notes {
    notes.insert(next_id(notes), fresh_note(next_id(notes), owner, content))
}

/// Why `caller` may not change or delete note `id`, if so.
pub open spec fn owner_refusal(notes: Notes, caller: Seq<char>, id: u32) -> Option<Refusal> {
    if !notes.dom().contains(id) {
        Some(Refusal::NotFound)
    } else if notes[id].owner != caller {
        Some(Refusal::PermissionDenied)
    } else {
        None
    }
}

/// Why `caller` may not share note `id` with `user`, if so. A principal that
/// can read the note already, as one of its readers or as its owner, is
/// refused as already shared: the owner is never listed among the readers.
pub open spec fn share_refusal(notes: Notes, caller: Seq<char>, id: u32, user: Seq<char>) -> Option<
    Refusal,
> {
    if owner_refusal(notes, caller, id) is Some {
        owner_refusal(notes, caller, id)
    } else if notes[id].readable_by(user) {
        Some(Refusal::AlreadyShared)
    } else {
        None
    }
}

/// The store after `caller` asked to replace the content of note `id`.
pub open spec fn after_update(notes: Notes, caller: Seq<char>, id: u32, content: Seq<char>) -> Notes {
    if owner_refusal(notes, caller, id) is None {
        notes.insert(id, NoteView { content, ..notes[id] })
    } else {
        notes
    }
}

/// The store after `caller` asked to delete note `id`.
pub open spec fn after_delete(notes: Notes, caller: Seq<char>, id: u32) -> Notes {
    if owner_refusal(notes, caller, id) is None {
        notes.remove(id)
    } else {
        notes
    }
}

/// The store after `caller` asked to share note `id` with `user`.
pub open spec fn after_share(notes: Notes, caller: Seq<char>, id: u32, user: Seq<char>) -> Notes {
    if share_refusal(notes, caller, id, user) is None {
        notes.insert(id, NoteView { shared_with: notes[id].shared_with.push(user), ..notes[id] })
    } else {
        notes
    }
}

/// The reply to a request to update a note.
pub open spec fn update_reply(refusal: Option<Refusal>) -> Seq<char> {
    match refusal {
        None => "Note updated successfully"@,
        Some(Refusal::NotFound) => "Note not found"@,
        Some(_) => "Permission denied: Only the owner can update the note"@,
    }
}

/// The reply to a request to delete a note.
pub open spec fn delete_reply(refusal: Option<Refusal>) -> Seq<char> {
    match refusal {
        None => "Note has been deleted."@,
        Some(Refusal::NotFound) => "No note found."@,
        Some(_) => "Permission denied: Only the owner can delete the note"@,
    }
}

/// The reply to a request to share a note.
pub open spec fn share_reply(refusal: Option<Refusal>) -> Seq<char> {
    match refusal {
        None => "Note shared successfully."@,
        Some(Refusal::NotFound) => "Note not found."@,
        Some(Refusal::PermissionDenied) => "Permission denied: Only the owner can share the note."@,
        Some(Refusal::AlreadyShared) => "User already has access to this note."@,
    }
}

/// Whether a listing for `principal` takes `note`: a listing by owner takes
/// the notes that `principal` owns, the other the notes that it may read.
pub open spec fn selected(note: NoteView, principal: Seq<char>, by_owner: bool) -> bool {
    if by_owner {
        note.owner == principal
    } else {
        note.readable_by(principal)
    }
}

/// The notes in a list.
pub open spec fn notes_view(list: Seq<Note>) -> Seq<NoteView> {
    Seq::new(list.len(), |i: int| list[i]@)
}

/// `list` holds the selected notes of the store, each once, by ascending id.
pub open spec fn lists_selected(
    list: Seq<NoteView>,
    notes: Notes,
    principal: Seq<char>,
    by_owner: bool,
) -> bool {
    &&& forall|i: int, j: int| 0 <= i < j < list.len() ==> list[i].id < list[j].id
    &&& forall|i: int|
        0 <= i < list.len() ==> notes.dom().contains((#[trigger] list[i]).id) && notes[list[i].id]
            == list[i] && selected(list[i], principal, by_owner)
    &&& forall|id: u32|
        #[trigger] notes.dom().contains(id) && selected(notes[id], principal, by_owner)
            ==> exists|i: int| 0 <= i < list.len() && (#[trigger] list[i]).id == id
}

/// The notes of many principals, kept as records in a durable ordered map.
pub struct NoteStore {
    map: RecordMap,
}

impl View for NoteStore {
    type V = Notes;

    open spec fn view(&self) -> Notes {
        Map::new(
            |id: u32| self.records().dom().contains(id),
            |id: u32| parse_note(self.records()[id]).unwrap(),
        )
    }
}

/// Decodes a record that is known to be one.
fn decode_record(bytes: &Vec<u8>) -> (note: Note)
    requires
        parse_note(bytes@) is Some,
    ensures
        parse_note(bytes@) == Some(note@),
{
    match Note::from_bytes(bytes.as_slice()) {
        Some(note) => note,
        None => vstd::pervasive::unreached(),
    }
}

/// Whether each of `entries` is a key with the valid record of a note under
/// that key.
pub fn all_valid(entries: &Vec<(u32, Vec<u8>)>) -> (valid: bool)
    ensures
        valid == forall|j: int|
            0 <= j < entries@.len() ==> valid_record((#[trigger] entries@[j]).0, entries@[j].1@),
{
    let mut i: usize = 0;
    while i < entries.len()
        invariant
            i <= entries@.len(),
            forall|j: int| 0 <= j < i ==> valid_record((#[trigger] entries@[j]).0, entries@[j].1@),
        decreases entries@.len() - i,
    {
        let valid = match Note::from_bytes(entries[i].1.as_slice()) {
            Some(note) => note.id == entries[i].0 && note.is_well_formed(),
            None => false,
        };
        if !valid {
            assert(!valid_record(entries@[i as int].0, entries@[i as int].1@));
            return false;
        }
        i += 1;
    }
    true
}

impl NoteStore {
    /// The stored bytes, by id.
    pub closed spec fn records(&self) -> Map<u32, Seq<u8>> {
        map_contents(self.map)
    }

    /// The store holds finitely many entries, each the valid record of a
    /// well-formed note under its own id.
    pub open spec fn wf(&self) -> bool {
        &&& self.records().dom().finite()
        &&& valid_records(self.records())
    }

    /// The live ids are those of the stored records.
    pub proof fn lemma_ids(&self)
        ensures
            self@.dom() == self.records().dom(),
    {
        assert(self@.dom() =~= self.records().dom());
    }

    /// A well-formed store holds a consistent set of notes.
    pub proof fn lemma_consistent(&self)
        requires
            self.wf(),
        ensures
            consistent(self@),
    {
        self.lemma_ids();
    }

    /// An empty store in region 0 of the default memory; a map that the
    /// region held before is given up. The region must belong to this store
    /// alone: where the default memory is the one stable memory of the
    /// process, at most one store may live in the process at a time, and what
    /// is stated of a store holds only as long as no other was made.
    pub fn new() -> (store: NoteStore)
        ensures
            store.wf(),
            store@ == Notes::empty(),
    {
        let store = NoteStore { map: map_new() };
        assert(store@ =~= Notes::empty());
        store
    }

    /// Takes `map` as a store if every entry of it is a valid record.
    pub fn from_map(map: RecordMap) -> (store: Option<NoteStore>)
        ensures
            store is Some <==> valid_records(map_contents(map)),
            store matches Some(s) ==> s.wf() && s.records() == map_contents(map),
    {
        let entries = map_entries(&map);
        let ghost records = map_contents(map);
        if !all_valid(&entries) {
            proof {
                let j = choose|j: int|
                    0 <= j < entries@.len() && !valid_record(
                        (#[trigger] entries@[j]).0,
                        entries@[j].1@,
                    );
                assert(records.dom().contains(entries@[j].0));
            }
            return None;
        }
        proof {
            let keys = Seq::new(entries@.len(), |j: int| entries@[j].0);
            assert forall|id: u32| #[trigger] records.dom().contains(id) implies keys.contains(id)
                && valid_record(id, records[id]) by {
                let j = choose|j: int| 0 <= j < entries@.len() && (#[trigger] entries@[j]).0 == id;
                assert(keys[j] == id);
            }
            assert forall|id: u32| #[trigger] keys.contains(id) implies records.dom().contains(
                id,
            ) by {
                let j = choose|j: int| 0 <= j < keys.len() && keys[j] == id;
                assert(records.dom().contains(entries@[j].0));
            }
            assert(records.dom() =~= keys.to_set());
            vstd::seq_lib::seq_to_set_is_finite(keys);
        }
        Some(NoteStore { map })
    }

    /// Loads the store that region 0 of the default memory holds, or starts an
    /// empty one there; `None` where an entry of it is no valid record. The
    /// region must belong to this store alone: where the default memory is
    /// the one stable memory of the process, at most one store may live in
    /// the process at a time.
    pub fn open() -> (store: Option<NoteStore>)
        ensures
            store matches Some(s) ==> s.wf(),
    {
        NoteStore::from_map(map_init())
    }

    /// The number of live notes.
    pub fn len(&self) -> (count: u64)
        requires
            self.wf(),
        ensures
            count == self@.dom().len(),
    {
        proof {
            self.lemma_ids();
        }
        map_len(&self.map)
    }

    /// The selected notes by ascending id.
    fn list(&self, principal: &String, by_owner: bool) -> (list: Vec<Note>)
        requires
            self.wf(),
        ensures
            lists_selected(notes_view(list@), self@, principal@, by_owner),
    {
        let entries = map_entries(&self.map);
        let mut list: Vec<Note> = Vec::new();
        let mut i: usize = 0;
        while i < entries.len()
            invariant
                self.wf(),
                i <= entries@.len(),
                forall|a: int, b: int| 0 <= a < b < entries@.len() ==> entries@[a].0 < entries@[b].0,
                forall|a: int|
                    0 <= a < entries@.len() ==> self.records().dom().contains(
                        (#[trigger] entries@[a]).0,
                    ) && self.records()[entries@[a].0] == entries@[a].1@,
                forall|j: int, t: int|
                    0 <= j < list@.len() && i <= t < entries@.len() ==> (#[trigger] list@[j]).id < (
                    #[trigger] entries@[t]).0,
                forall|a: int, b: int| 0 <= a < b < list@.len() ==> list@[a].id < list@[b].id,
                forall|j: int|
                    0 <= j < list@.len() ==> self@.dom().contains((#[trigger] list@[j]).id)
                        && self@[list@[j].id] == list@[j]@ && selected(
                        list@[j]@,
                        principal@,
                        by_owner,
                    ),
                forall|t: int|
                    0 <= t < i && selected(self@[(#[trigger] entries@[t]).0], principal@, by_owner)
                        ==> exists|j: int|
                        0 <= j < list@.len() && (#[trigger] list@[j]).id == entries@[t].0,
            decreases entries@.len() - i,
        {
            let ghost key = entries@[i as int].0;
            assert(self.records().dom().contains(key));
            let note = decode_record(&entries[i].1);
            assert(note@ == self@[key]);
            let take = if by_owner {
                note.owner == *principal
            } else {
                note.is_readable_by(principal)
            };
            if take {
                let ghost before = list@;
                list.push(note);
                assert(list@[before.len() as int].id == key);
                assert forall|t: int|
                    0 <= t < i + 1 && selected(
                        self@[(#[trigger] entries@[t]).0],
                        principal@,
                        by_owner,
                    ) implies exists|j: int|
                    0 <= j < list@.len() && (#[trigger] list@[j]).id == entries@[t].0 by {
                    if t < i {
                        let j = choose|j: int|
                            0 <= j < before.len() && (#[trigger] before[j]).id == entries@[t].0;
                        assert(list@[j].id == entries@[t].0);
                    } else {
                        assert(list@[before.len() as int].id == entries@[t].0);
                    }
                }
            }
            i += 1;
        }
        proof {
            let view = notes_view(list@);
            assert forall|id: u32|
                #[trigger] self@.dom().contains(id) && selected(
                    self@[id],
                    principal@,
                    by_owner,
                ) implies exists|k: int| 0 <= k < view.len() && (#[trigger] view[k]).id == id by {
                let t = choose|t: int| 0 <= t < entries@.len() && (#[trigger] entries@[t]).0 == id;
                let j = choose|j: int| 0 <= j < list@.len() && (#[trigger] list@[j]).id == id;
                assert(view[j].id == id);
            }
            assert forall|k: int| 0 <= k < view.len() implies self@.dom().contains(
                (#[trigger] view[k]).id,
            ) && self@[view[k].id] == view[k] && selected(view[k], principal@, by_owner) by {
                assert(view[k] == list@[k]@);
            }
        }
        list
    }

    /// Every note that `caller` owns or that was shared with `caller`, by
    /// ascending id.
    pub fn get_notes(&self, caller: &String) -> (list: Vec<Note>)
        requires
            self.wf(),
        ensures
            lists_selected(notes_view(list@), self@, caller@, false),
    {
        self.list(caller, false)
    }

    /// Every note that `owner` owns, by ascending id, whoever asks.
    pub fn get_notes_by_owner(&self, owner: &String) -> (list: Vec<Note>)
        requires
            self.wf(),
        ensures
            lists_selected(notes_view(list@), self@, owner@, true),
    {
        self.list(owner, true)
    }

    /// The note `id` if `caller` may read it; `None` where there is no such
    /// note and where `caller` may not read it.
    pub fn get_note_by_id(&self, caller: &String, id: u32) -> (found: Option<Note>)
        requires
            self.wf(),
        ensures
            found is Some <==> self@.dom().contains(id) && self@[id].readable_by(caller@),
            found matches Some(note) ==> note@ == self@[id],
    {
        match map_get(&self.map, id) {
            Some(bytes) => {
                let note = decode_record(&bytes);
                if note.is_readable_by(caller) {
                    Some(note)
                } else {
                    None
                }
            },
            None => None,
        }
    }

    /// Stores a new note with `content`, owned by `caller` and shared with
    /// nobody, under the number of live notes as its id. A note that lives
    /// under that id is replaced.
    pub fn add_note(&mut self, caller: String, content: String)
        requires
            old(self).wf(),
        ensures
            final(self).wf(),
            final(self)@ == after_add(old(self)@, caller@, content@),
    {
        proof {
            self.lemma_ids();
        }
        let count = map_len(&self.map);
        let id = (count % 0x1_0000_0000) as u32;
        let note = Note { id, content, owner: caller, shared_with: Vec::new() };
        assert(note@.shared_with =~= Seq::empty());
        let record = note.to_bytes();
        proof {
            lemma_note_round_trip(note@);
        }
        map_insert(&mut self.map, id, record);
        assert(final(self)@ =~= after_add(old(self)@, caller@, content@));
    }

    /// Replaces the content of note `id` if `caller` owns it.
    pub fn update_note(&mut self, caller: &String, id: u32, content: String) -> (reply: Result<
        String,
        String,
    >)
        requires
            old(self).wf(),
        ensures
            final(self).wf(),
            final(self)@ == after_update(old(self)@, caller@, id, content@),
            reply is Ok <==> owner_refusal(old(self)@, caller@, id) is None,
            match reply {
                Ok(text) => text@ == update_reply(None),
                Err(text) => text@ == update_reply(owner_refusal(old(self)@, caller@, id)),
            },
    {
        match map_get(&self.map, id) {
            Some(bytes) => {
                let mut note = decode_record(&bytes);
                if note.owner == *caller {
                    note.content = content;
                    let record = note.to_bytes();
                    proof {
                        lemma_note_round_trip(note@);
                    }
                    map_insert(&mut self.map, id, record);
                    assert(final(self)@ =~= after_update(old(self)@, caller@, id, content@));
                    Ok("Note updated successfully".to_owned())
                } else {
                    Err("Permission denied: Only the owner can update the note".to_owned())
                }
            },
            None => Err("Note not found".to_owned()),
        }
    }

    /// Removes note `id` if `caller` owns it.
    pub fn delete_note(&mut self, caller: &String, id: u32) -> (reply: Result<String, String>)
        requires
            old(self).wf(),
        ensures
            final(self).wf(),
            final(self)@ == after_delete(old(self)@, caller@, id),
            reply is Ok <==> owner_refusal(old(self)@, caller@, id) is None,
            match reply {
                Ok(text) => text@ == delete_reply(None),
                Err(text) => text@ == delete_reply(owner_refusal(old(self)@, caller@, id)),
            },
    {
        match map_get(&self.map, id) {
            Some(bytes) => {
                let note = decode_record(&bytes);
                if note.owner == *caller {
                    map_remove(&mut self.map, id);
                    assert(final(self)@ =~= after_delete(old(self)@, caller@, id));
                    Ok("Note has been deleted.".to_owned())
                } else {
                    Err("Permission denied: Only the owner can delete the note".to_owned())
                }
            },
            None => Err("No note found.".to_owned()),
        }
    }

    /// Grants `user` read access to note `id` if `caller` owns it and `user`
    /// cannot read it yet. The owner asking for itself is answered like a
    /// reader that is listed already, and the note stays as it was.
    pub fn share_note(&mut self, caller: &String, id: u32, user: String) -> (reply: Result<
        String,
        String,
    >)
        requires
            old(self).wf(),
        ensures
            final(self).wf(),
            final(self)@ == after_share(old(self)@, caller@, id, user@),
            reply is Ok <==> share_refusal(old(self)@, caller@, id, user@) is None,
            match reply {
                Ok(text) => text@ == share_reply(None),
                Err(text) => text@ == share_reply(share_refusal(old(self)@, caller@, id, user@)),
            },
    {
        match map_get(&self.map, id) {
            Some(bytes) => {
                let mut note = decode_record(&bytes);
                if note.owner == *caller {
                    if !note.is_readable_by(&user) {
                        let ghost before = note@.shared_with;
                        let ghost name = user@;
                        note.shared_with.push(user);
                        assert(note@.shared_with =~= before.push(name));
                        let record = note.to_bytes();
                        proof {
                            lemma_note_round_trip(note@);
                        }
                        map_insert(&mut self.map, id, record);
                        assert(final(self)@ =~= after_share(old(self)@, caller@, id, name));
                        Ok("Note shared successfully.".to_owned())
                    } else {
                        Err("User already has access to this note.".to_owned())
                    }
                } else {
                    Err("Permission denied: Only the owner can share the note.".to_owned())
                }
            },
            None => Err("Note not found.".to_owned()),
        }
    }
}

} // verus!

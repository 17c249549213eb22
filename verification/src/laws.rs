//! What holds of the store whatever the calls, stated over its model.

use crate::note::NoteView;
use crate::store::{
    consistent, after_add, after_delete, after_share, after_update, fresh_note, lists_selected, next_id,
    owner_refusal, selected, share_refusal, Notes, Refusal,
};
use vstd::prelude::*;

verus! {

/// Adding a note keeps the store consistent and makes the new note live under
/// the id that was next, owned by its creator and shared with nobody.
pub proof fn lemma_add_note(notes: Notes, owner: Seq<char>, content: Seq<char>)
    requires
        consistent(notes),
    ensures
        consistent(after_add(notes, owner, content)),
        after_add(notes, owner, content).dom().contains(next_id(notes)),
        after_add(notes, owner, content)[next_id(notes)] == fresh_note(
            next_id(notes),
            owner,
            content,
        ),
        forall|id: u32|
            id != next_id(notes) && #[trigger] notes.dom().contains(id) ==> after_add(
                notes,
                owner,
                content,
            ).dom().contains(id) && after_add(notes, owner, content)[id] == notes[id],
{
}

/// An update changes the content of one note and nothing else: the id, the
/// owner and the readers of every note stay, and so does the set of live ids.
pub proof fn lemma_update_keeps_the_rest(
    notes: Notes,
    caller: Seq<char>,
    id: u32,
    content: Seq<char>,
)
    requires
        consistent(notes),
    ensures
        consistent(after_update(notes, caller, id, content)),
        after_update(notes, caller, id, content).dom() == notes.dom(),
        forall|k: u32| #[trigger]
            notes.dom().contains(k) ==> {
                let then = after_update(notes, caller, id, content)[k];
                &&& then.id == notes[k].id
                &&& then.owner == notes[k].owner
                &&& then.shared_with == notes[k].shared_with
                &&& then.content == if k == id && owner_refusal(notes, caller, id) is None {
                    content
                } else {
                    notes[k].content
                }
            },
{
    assert(after_update(notes, caller, id, content).dom() =~= notes.dom());
}

/// A deletion removes at most the one note and renumbers nothing.
pub proof fn lemma_delete_keeps_the_rest(notes: Notes, caller: Seq<char>, id: u32)
    requires
        consistent(notes),
    ensures
        consistent(after_delete(notes, caller, id)),
        forall|k: u32|
            k != id && #[trigger] notes.dom().contains(k) ==> after_delete(
                notes,
                caller,
                id,
            ).dom().contains(k) && after_delete(notes, caller, id)[k] == notes[k],
        forall|k: u32| #[trigger]
            after_delete(notes, caller, id).dom().contains(k) ==> notes.dom().contains(k),
{
}

/// Sharing only ever adds a reader: the id, the owner and the content of
/// every note stay, whoever could read a note still can, no reader comes to
/// be listed twice, and no owner comes to be listed among its note's readers.
pub proof fn lemma_share_only_adds(notes: Notes, caller: Seq<char>, id: u32, user: Seq<char>)
    requires
        consistent(notes),
    ensures
        consistent(after_share(notes, caller, id, user)),
        after_share(notes, caller, id, user).dom() == notes.dom(),
        forall|k: u32| #[trigger]
            notes.dom().contains(k) ==> {
                let then = after_share(notes, caller, id, user)[k];
                &&& then.id == notes[k].id
                &&& then.owner == notes[k].owner
                &&& then.content == notes[k].content
                &&& forall|p: Seq<char>| notes[k].readable_by(p) ==> then.readable_by(p)
            },
        share_refusal(notes, caller, id, user) is None ==> after_share(
            notes,
            caller,
            id,
            user,
        )[id].readable_by(user),
{
    let then = after_share(notes, caller, id, user);
    assert(then.dom() =~= notes.dom());
    if share_refusal(notes, caller, id, user) is None {
        let before = notes[id].shared_with;
        let readers = before.push(user);
        assert(readers[before.len() as int] == user);
        assert forall|p: Seq<char>| notes[id].readable_by(p) implies then[id].readable_by(p) by {
            if before.contains(p) {
                let i = choose|i: int| 0 <= i < before.len() && before[i] == p;
                assert(readers[i] == p);
            }
        }
        assert forall|i: int, j: int|
            0 <= i < readers.len() && 0 <= j < readers.len() && i != j implies readers[i]
            != readers[j] by {
            if i < before.len() && j < before.len() {
            } else if i < before.len() {
                assert(before[i] == readers[i]);
            } else {
                assert(before[j] == readers[j]);
            }
        }
        assert forall|i: int| 0 <= i < readers.len() implies readers[i] != notes[id].owner by {
            if i < before.len() {
                assert(before[i] == readers[i]);
            }
        }
    }
}

/// The owner of a note never becomes one of its readers: its request to share
/// the note with itself is refused as already shared and changes nothing.
pub proof fn lemma_owner_is_no_reader(notes: Notes, id: u32)
    requires
        notes.dom().contains(id),
    ensures
        share_refusal(notes, notes[id].owner, id, notes[id].owner) == Some(
            Refusal::AlreadyShared,
        ),
        after_share(notes, notes[id].owner, id, notes[id].owner) == notes,
{
}

/// Deleting a note twice: where the first request is granted, the second,
/// whoever makes it, finds no note.
pub proof fn lemma_delete_twice(notes: Notes, caller: Seq<char>, again: Seq<char>, id: u32)
    requires
        owner_refusal(notes, caller, id) is None,
    ensures
        owner_refusal(after_delete(notes, caller, id), again, id) == Some(Refusal::NotFound),
        after_delete(after_delete(notes, caller, id), again, id) == after_delete(notes, caller, id),
{
}

/// Sharing a note twice with one principal: where the first request is
/// granted, the second is refused as already shared and changes nothing.
pub proof fn lemma_share_twice(notes: Notes, caller: Seq<char>, id: u32, user: Seq<char>)
    requires
        share_refusal(notes, caller, id, user) is None,
    ensures
        share_refusal(after_share(notes, caller, id, user), caller, id, user) == Some(
            Refusal::AlreadyShared,
        ),
        after_share(after_share(notes, caller, id, user), caller, id, user) == after_share(
            notes,
            caller,
            id,
            user,
        ),
{
    let readers = notes[id].shared_with.push(user);
    assert(readers[readers.len() - 1] == user);
}

/// Whoever does not own a live note can neither update, delete nor share it:
/// each request is refused for want of permission and leaves the store as it
/// was.
pub proof fn lemma_only_the_owner_changes(
    notes: Notes,
    caller: Seq<char>,
    id: u32,
    content: Seq<char>,
    user: Seq<char>,
)
    requires
        notes.dom().contains(id),
        notes[id].owner != caller,
    ensures
        owner_refusal(notes, caller, id) == Some(Refusal::PermissionDenied),
        share_refusal(notes, caller, id, user) == Some(Refusal::PermissionDenied),
        after_update(notes, caller, id, content) == notes,
        after_delete(notes, caller, id) == notes,
        after_share(notes, caller, id, user) == notes,
{
}

/// Two strictly ascending sequences with the same members are equal.
proof fn lemma_ascending_equal(x: Seq<u32>, y: Seq<u32>)
    requires
        forall|i: int, j: int| 0 <= i < j < x.len() ==> x[i] < x[j],
        forall|i: int, j: int| 0 <= i < j < y.len() ==> y[i] < y[j],
        forall|v: u32| x.contains(v) <==> y.contains(v),
    ensures
        x == y,
    decreases x.len(),
{
    if x.len() == 0 {
        if y.len() > 0 {
            assert(y.contains(y[0]));
        }
        assert(x =~= y);
    } else if y.len() == 0 {
        assert(x.contains(x[0]));
    } else {
        let xl = x.last();
        let yl = y.last();
        assert(x.contains(xl));
        assert(y.contains(yl));
        let i = choose|i: int| 0 <= i < y.len() && y[i] == xl;
        let j = choose|j: int| 0 <= j < x.len() && x[j] == yl;
        assert(xl == yl);
        let xs = x.drop_last();
        let ys = y.drop_last();
        assert forall|v: u32| xs.contains(v) <==> ys.contains(v) by {
            if xs.contains(v) {
                let a = choose|a: int| 0 <= a < xs.len() && xs[a] == v;
                assert(x[a] == v && v < xl);
                assert(x.contains(v));
                let b = choose|b: int| 0 <= b < y.len() && y[b] == v;
                assert(b < y.len() - 1);
                assert(ys[b] == v);
            }
            if ys.contains(v) {
                let a = choose|a: int| 0 <= a < ys.len() && ys[a] == v;
                assert(y[a] == v && v < yl);
                assert(y.contains(v));
                let b = choose|b: int| 0 <= b < x.len() && x[b] == v;
                assert(b < x.len() - 1);
                assert(xs[b] == v);
            }
        }
        assert forall|a: int, b: int| 0 <= a < b < xs.len() implies xs[a] < xs[b] by {
            assert(x[a] < x[b]);
        }
        assert forall|a: int, b: int| 0 <= a < b < ys.len() implies ys[a] < ys[b] by {
            assert(y[a] < y[b]);
        }
        lemma_ascending_equal(xs, ys);
        assert(x =~= xs.push(xl));
        assert(y =~= ys.push(yl));
    }
}

/// A listing is determined by the store and the principal: two lists that
/// each hold the selected notes by ascending id are the same list, whenever
/// and in whatever order they were made.
pub proof fn lemma_listing_is_unique(
    first: Seq<NoteView>,
    second: Seq<NoteView>,
    notes: Notes,
    principal: Seq<char>,
    by_owner: bool,
)
    requires
        lists_selected(first, notes, principal, by_owner),
        lists_selected(second, notes, principal, by_owner),
    ensures
        first == second,
{
    let x = Seq::new(first.len(), |i: int| first[i].id);
    let y = Seq::new(second.len(), |i: int| second[i].id);
    assert forall|v: u32| x.contains(v) <==> y.contains(v) by {
        if x.contains(v) {
            let i = choose|i: int| 0 <= i < x.len() && x[i] == v;
            assert(notes.dom().contains(first[i].id));
            let j = choose|j: int| 0 <= j < second.len() && (#[trigger] second[j]).id == v;
            assert(y[j] == v);
        }
        if y.contains(v) {
            let i = choose|i: int| 0 <= i < y.len() && y[i] == v;
            assert(notes.dom().contains(second[i].id));
            let j = choose|j: int| 0 <= j < first.len() && (#[trigger] first[j]).id == v;
            assert(x[j] == v);
        }
    }
    assert forall|i: int, j: int| 0 <= i < j < x.len() implies x[i] < x[j] by {
        assert(first[i].id < first[j].id);
    }
    assert forall|i: int, j: int| 0 <= i < j < y.len() implies y[i] < y[j] by {
        assert(second[i].id < second[j].id);
    }
    lemma_ascending_equal(x, y);
    assert(x.len() == first.len() && y.len() == second.len());
    assert forall|i: int| 0 <= i < first.len() implies first[i] == second[i] by {
        assert(x[i] == y[i]);
        assert(notes[first[i].id] == first[i]);
        assert(notes[second[i].id] == second[i]);
    }
    assert(first =~= second);
}

/// A listing holds a note exactly if the note is live and selected.
pub proof fn lemma_listing_members(
    list: Seq<NoteView>,
    notes: Notes,
    principal: Seq<char>,
    by_owner: bool,
    note: NoteView,
)
    requires
        consistent(notes),
        lists_selected(list, notes, principal, by_owner),
    ensures
        list.contains(note) <==> notes.dom().contains(note.id) && notes[note.id] == note && (
        if by_owner {
            note.owner == principal
        } else {
            note.readable_by(principal)
        }),
{
    if list.contains(note) {
        let i = choose|i: int| 0 <= i < list.len() && list[i] == note;
        assert(notes.dom().contains(list[i].id));
    }
    if notes.dom().contains(note.id) && notes[note.id] == note && selected(
        note,
        principal,
        by_owner,
    ) {
        let i = choose|i: int| 0 <= i < list.len() && (#[trigger] list[i]).id == note.id;
        assert(notes[list[i].id] == list[i]);
    }
}

} // verus!

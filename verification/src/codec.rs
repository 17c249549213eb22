//! The byte format of a stored note.
//!
//! A record is the id as four little-endian bytes, then the content and the
//! owner as texts, then the number of readers as eight little-endian bytes,
//! then each reader as a text. A text is its length in bytes, as eight
//! little-endian bytes, followed by its UTF-8 encoding.

use crate::note::{names_view, Note, NoteView};
use vstd::bytes::{
    lemma_auto_spec_u32_to_from_le_bytes, lemma_auto_spec_u64_to_from_le_bytes,
    spec_u32_from_le_bytes, spec_u32_to_le_bytes, spec_u64_from_le_bytes, spec_u64_to_le_bytes,
    u32_from_le_bytes, u32_to_le_bytes, u64_from_le_bytes, u64_to_le_bytes,
};
use vstd::prelude::*;
use vstd::slice::{slice_subrange, slice_to_vec};
use vstd::utf8::{
    decode_utf8, decode_utf8_encode_utf8, encode_utf8, encode_utf8_decode_utf8,
    encode_utf8_valid_utf8, valid_utf8,
};

verus! {

/// The bytes of `bytes` from position `from` on.
pub open spec fn suffix(bytes: Seq<u8>, from: int) -> Seq<u8> {
    bytes.subrange(from, bytes.len() as int)
}

/// A text fits the format when its length in bytes fits eight bytes.
pub open spec fn text_fits(text: Seq<char>) -> bool {
    encode_utf8(text).len() <= u64::MAX
}

/// The encoding of one text.
pub open spec fn encode_text(text: Seq<char>) -> Seq<u8> {
    spec_u64_to_le_bytes(encode_utf8(text).len() as u64) + encode_utf8(text)
}

/// The encodings of several texts, one after the other.
pub open spec fn encode_texts(texts: Seq<Seq<char>>) -> Seq<u8>
    decreases texts.len(),
{
    if texts.len() == 0 {
        Seq::empty()
    } else {
        encode_texts(texts.drop_last()) + encode_text(texts.last())
    }
}

/// The encoding of a note.
pub open spec fn encode_note(note: NoteView) -> Seq<u8> {
    spec_u32_to_le_bytes(note.id) + encode_text(note.content) + encode_text(note.owner)
        + spec_u64_to_le_bytes(note.shared_with.len() as u64) + encode_texts(note.shared_with)
}

/// The text at the start of `bytes`, and the bytes that follow it.
pub open spec fn parse_text(bytes: Seq<u8>) -> Option<(Seq<char>, Seq<u8>)> {
    if bytes.len() < 8 {
        None
    } else {
        let len = spec_u64_from_le_bytes(bytes.subrange(0, 8)) as int;
        if len > bytes.len() - 8 {
            None
        } else if !valid_utf8(bytes.subrange(8, 8 + len)) {
            None
        } else {
            Some((decode_utf8(bytes.subrange(8, 8 + len)), suffix(bytes, 8 + len)))
        }
    }
}

/// The first `count` texts at the start of `bytes`, and the bytes that follow
/// them.
pub open spec fn parse_texts(bytes: Seq<u8>, count: nat) -> Option<(Seq<Seq<char>>, Seq<u8>)>
    decreases count,
{
    if count == 0 {
        Some((Seq::empty(), bytes))
    } else {
        match parse_texts(bytes, (count - 1) as nat) {
            Some((texts, rest)) => match parse_text(rest) {
                Some((text, after)) => Some((texts.push(text), after)),
                None => None,
            },
            None => None,
        }
    }
}

/// The note that `bytes` encodes, if they are a whole record and nothing else.
pub open spec fn parse_note(bytes: Seq<u8>) -> Option<NoteView> {
    if bytes.len() < 4 {
        None
    } else {
        match parse_text(suffix(bytes, 4)) {
            Some((content, after_content)) => match parse_text(after_content) {
                Some((owner, after_owner)) => if after_owner.len() < 8 {
                    None
                } else {
                    let count = spec_u64_from_le_bytes(after_owner.subrange(0, 8));
                    match parse_texts(suffix(after_owner, 8), count as nat) {
                        Some((readers, rest)) => if rest.len() == 0 {
                            Some(
                                NoteView {
                                    id: spec_u32_from_le_bytes(bytes.subrange(0, 4)),
                                    content,
                                    owner,
                                    shared_with: readers,
                                },
                            )
                        } else {
                            None
                        },
                        None => None,
                    }
                },
                None => None,
            },
            None => None,
        }
    }
}

impl NoteView {
    /// Every text of the note, and the number of its readers, fits the format.
    pub open spec fn encodable(self) -> bool {
        &&& text_fits(self.content)
        &&& text_fits(self.owner)
        &&& self.shared_with.len() <= u64::MAX
        &&& forall|i: int| 0 <= i < self.shared_with.len() ==> text_fits(#[trigger] self.shared_with[i])
    }
}

/// A text that was encoded is read back, and what followed it is left over.
pub proof fn lemma_text_round_trip(text: Seq<char>, tail: Seq<u8>)
    requires
        text_fits(text),
    ensures
        parse_text(encode_text(text) + tail) == Some((text, tail)),
{
    lemma_auto_spec_u64_to_from_le_bytes();
    encode_utf8_valid_utf8(text);
    encode_utf8_decode_utf8(text);
    let body = encode_utf8(text);
    let all = encode_text(text) + tail;
    assert(all.subrange(0, 8) =~= spec_u64_to_le_bytes(body.len() as u64));
    assert(all.subrange(8, 8 + body.len() as int) =~= body);
    assert(suffix(all, 8 + body.len() as int) =~= tail);
}

/// Texts that were encoded one after the other are read back in their order.
pub proof fn lemma_texts_round_trip(texts: Seq<Seq<char>>, tail: Seq<u8>)
    requires
        forall|i: int| 0 <= i < texts.len() ==> text_fits(#[trigger] texts[i]),
    ensures
        parse_texts(encode_texts(texts) + tail, texts.len()) == Some((texts, tail)),
    decreases texts.len(),
{
    if texts.len() == 0 {
        assert(encode_texts(texts) + tail =~= tail);
        assert(texts =~= Seq::empty());
    } else {
        let front = texts.drop_last();
        let last_tail = encode_text(texts.last()) + tail;
        assert(encode_texts(texts) + tail =~= encode_texts(front) + last_tail);
        lemma_texts_round_trip(front, last_tail);
        lemma_text_round_trip(texts.last(), tail);
        assert(front.push(texts.last()) =~= texts);
    }
}

/// Once the texts cannot be read, asking for more of them does not help.
pub proof fn lemma_parse_texts_fails_on(bytes: Seq<u8>, few: nat, many: nat)
    requires
        few <= many,
        parse_texts(bytes, few) is None,
    ensures
        parse_texts(bytes, many) is None,
    decreases many,
{
    if few < many {
        lemma_parse_texts_fails_on(bytes, few, (many - 1) as nat);
    }
}

/// Decoding undoes encoding: the record of a note is read back as that note.
pub proof fn lemma_note_round_trip(note: NoteView)
    requires
        note.encodable(),
    ensures
        parse_note(encode_note(note)) == Some(note),
{
    lemma_auto_spec_u32_to_from_le_bytes();
    lemma_auto_spec_u64_to_from_le_bytes();
    let bytes = encode_note(note);
    let count = spec_u64_to_le_bytes(note.shared_with.len() as u64);
    let readers = encode_texts(note.shared_with);
    let after_owner = count + readers;
    let after_content = encode_text(note.owner) + after_owner;
    assert(bytes.subrange(0, 4) =~= spec_u32_to_le_bytes(note.id));
    assert(suffix(bytes, 4) =~= encode_text(note.content) + after_content);
    lemma_text_round_trip(note.content, after_content);
    lemma_text_round_trip(note.owner, after_owner);
    assert(after_owner.subrange(0, 8) =~= count);
    assert(suffix(after_owner, 8) =~= readers + Seq::<u8>::empty());
    lemma_texts_round_trip(note.shared_with, Seq::<u8>::empty());
}

/// Bytes that start with a text are the encoding of that text, followed by
/// what is left over.
pub proof fn lemma_text_parsed(bytes: Seq<u8>)
    requires
        parse_text(bytes) is Some,
    ensures
        text_fits(parse_text(bytes).unwrap().0),
        bytes == encode_text(parse_text(bytes).unwrap().0) + parse_text(bytes).unwrap().1,
{
    lemma_auto_spec_u64_to_from_le_bytes();
    let len = spec_u64_from_le_bytes(bytes.subrange(0, 8));
    let body = bytes.subrange(8, 8 + len);
    decode_utf8_encode_utf8(body);
    assert(spec_u64_to_le_bytes(len) == bytes.subrange(0, 8));
    assert(bytes =~= bytes.subrange(0, 8) + body + suffix(bytes, 8 + len));
}

/// Bytes that start with some texts are the encodings of those texts,
/// followed by what is left over.
pub proof fn lemma_texts_parsed(bytes: Seq<u8>, count: nat)
    requires
        parse_texts(bytes, count) is Some,
    ensures
        parse_texts(bytes, count).unwrap().0.len() == count,
        forall|i: int|
            0 <= i < count ==> text_fits(#[trigger] parse_texts(bytes, count).unwrap().0[i]),
        bytes == encode_texts(parse_texts(bytes, count).unwrap().0) + parse_texts(
            bytes,
            count,
        ).unwrap().1,
    decreases count,
{
    let (texts, rest) = parse_texts(bytes, count).unwrap();
    if count == 0 {
        assert(bytes =~= encode_texts(texts) + rest);
    } else {
        let (front, middle) = parse_texts(bytes, (count - 1) as nat).unwrap();
        lemma_texts_parsed(bytes, (count - 1) as nat);
        lemma_text_parsed(middle);
        let text = parse_text(middle).unwrap().0;
        assert(texts.drop_last() =~= front);
        assert(texts.last() == text);
        assert(bytes =~= encode_texts(texts) + rest);
    }
}

/// Encoding undoes decoding: bytes that are read as a note are the record
/// of that note, so no two records stand for one note.
pub proof fn lemma_note_parsed(bytes: Seq<u8>)
    requires
        parse_note(bytes) is Some,
    ensures
        parse_note(bytes).unwrap().encodable(),
        encode_note(parse_note(bytes).unwrap()) == bytes,
{
    lemma_auto_spec_u32_to_from_le_bytes();
    lemma_auto_spec_u64_to_from_le_bytes();
    let note = parse_note(bytes).unwrap();
    let (content, after_content) = parse_text(suffix(bytes, 4)).unwrap();
    let (owner, after_owner) = parse_text(after_content).unwrap();
    let count = spec_u64_from_le_bytes(after_owner.subrange(0, 8));
    lemma_text_parsed(suffix(bytes, 4));
    lemma_text_parsed(after_content);
    lemma_texts_parsed(suffix(after_owner, 8), count as nat);
    assert(spec_u64_to_le_bytes(count) == after_owner.subrange(0, 8));
    assert(after_owner =~= after_owner.subrange(0, 8) + suffix(after_owner, 8));
    assert(bytes =~= bytes.subrange(0, 4) + suffix(bytes, 4));
    assert(encode_note(note) =~= bytes);
}

/// `String::from_utf8`: succeeds exactly on valid UTF-8, and the string then
/// holds the characters that the bytes encode. Believed, not proved.
#[verifier::external_body]
fn text_from_utf8(bytes: Vec<u8>) -> (text: Option<String>)
    ensures
        text is Some <==> valid_utf8(bytes@),
        text matches Some(s) ==> s@ == decode_utf8(bytes@),
{
    String::from_utf8(bytes).ok()
}

/// Appends the encoding of `text` to `out`.
fn write_text(out: &mut Vec<u8>, text: &String)
    ensures
        text_fits(text@),
        final(out)@ == old(out)@ + encode_text(text@),
{
    let raw = text.as_str().as_bytes();
    let mut len_bytes = u64_to_le_bytes(raw.len() as u64);
    let mut body = slice_to_vec(raw);
    out.append(&mut len_bytes);
    out.append(&mut body);
    assert(final(out)@ =~= old(out)@ + encode_text(text@));
}

/// Reads the text that starts at `pos`; gives it with the position behind it.
fn read_text(bytes: &[u8], pos: usize) -> (read: Option<(String, usize)>)
    requires
        pos <= bytes@.len(),
    ensures
        match read {
            Some((text, next)) => pos <= next <= bytes@.len() && parse_text(
                suffix(bytes@, pos as int),
            ) == Some((text@, suffix(bytes@, next as int))),
            None => parse_text(suffix(bytes@, pos as int)) is None,
        },
{
    let total = bytes.len();
    let ghost rest = suffix(bytes@, pos as int);
    if total - pos < 8 {
        return None;
    }
    let len64 = u64_from_le_bytes(slice_subrange(bytes, pos, pos + 8));
    assert(rest.subrange(0, 8) =~= bytes@.subrange(pos as int, pos + 8));
    let available = total - pos - 8;
    if len64 > available as u64 {
        return None;
    }
    let len = len64 as usize;
    let body = slice_to_vec(slice_subrange(bytes, pos + 8, pos + 8 + len));
    assert(rest.subrange(8, 8 + len) =~= body@);
    assert(suffix(rest, 8 + len) =~= suffix(bytes@, pos + 8 + len));
    match text_from_utf8(body) {
        Some(text) => Some((text, pos + 8 + len)),
        None => None,
    }
}

/// Reads `count` texts from `start` on; gives them with the position behind
/// the last.
fn read_texts(bytes: &[u8], start: usize, count: u64) -> (read: Option<(Vec<String>, usize)>)
    requires
        start <= bytes@.len(),
    ensures
        match read {
            Some((texts, next)) => start <= next <= bytes@.len() && parse_texts(
                suffix(bytes@, start as int),
                count as nat,
            ) == Some((names_view(texts@), suffix(bytes@, next as int))),
            None => parse_texts(suffix(bytes@, start as int), count as nat) is None,
        },
{
    let mut texts: Vec<String> = Vec::new();
    let mut pos: usize = start;
    let mut done: u64 = 0;
    assert(names_view(texts@) =~= Seq::empty());
    while done < count
        invariant
            done <= count,
            start <= pos <= bytes@.len(),
            parse_texts(suffix(bytes@, start as int), done as nat) == Some(
                (names_view(texts@), suffix(bytes@, pos as int)),
            ),
        decreases count - done,
    {
        let ghost before = names_view(texts@);
        match read_text(bytes, pos) {
            Some((text, next)) => {
                texts.push(text);
                pos = next;
                assert(names_view(texts@) =~= before.push(text@));
            },
            None => {
                proof {
                    lemma_parse_texts_fails_on(
                        suffix(bytes@, start as int),
                        (done + 1) as nat,
                        count as nat,
                    );
                }
                return None;
            },
        }
        done += 1;
    }
    Some((texts, pos))
}

impl Note {
    /// The record of this note.
    pub fn to_bytes(&self) -> (bytes: Vec<u8>)
        ensures
            self@.encodable(),
            bytes@ == encode_note(self@),
    {
        let mut out = u32_to_le_bytes(self.id);
        write_text(&mut out, &self.content);
        write_text(&mut out, &self.owner);
        let mut count_bytes = u64_to_le_bytes(self.shared_with.len() as u64);
        out.append(&mut count_bytes);
        let ghost head = out@;
        let ghost readers = names_view(self.shared_with@);
        let mut i: usize = 0;
        while i < self.shared_with.len()
            invariant
                i <= self.shared_with@.len(),
                readers == names_view(self.shared_with@),
                out@ == head + encode_texts(readers.take(i as int)),
                forall|j: int| 0 <= j < i ==> text_fits(#[trigger] readers[j]),
            decreases self.shared_with@.len() - i,
        {
            write_text(&mut out, &self.shared_with[i]);
            proof {
                let next = readers.take(i + 1);
                assert(next.drop_last() =~= readers.take(i as int));
                assert(next.last() == readers[i as int]);
                assert(out@ =~= head + encode_texts(next));
            }
            i += 1;
        }
        assert(readers.take(i as int) =~= readers);
        out
    }

    /// The note that `bytes` are the record of, or `None` where they are not
    /// a whole record and nothing else.
    pub fn from_bytes(bytes: &[u8]) -> (note: Option<Note>)
        ensures
            match note {
                Some(n) => parse_note(bytes@) == Some(n@),
                None => parse_note(bytes@) is None,
            },
    {
        if bytes.len() < 4 {
            return None;
        }
        let id = u32_from_le_bytes(slice_subrange(bytes, 0, 4));
        let (content, after_content) = match read_text(bytes, 4) {
            Some(read) => read,
            None => { return None; },
        };
        let (owner, after_owner) = match read_text(bytes, after_content) {
            Some(read) => read,
            None => { return None; },
        };
        if bytes.len() - after_owner < 8 {
            return None;
        }
        let count = u64_from_le_bytes(slice_subrange(bytes, after_owner, after_owner + 8));
        let ghost rest = suffix(bytes@, after_owner as int);
        assert(rest.subrange(0, 8) =~= bytes@.subrange(after_owner as int, after_owner + 8));
        assert(suffix(rest, 8) =~= suffix(bytes@, after_owner + 8));
        match read_texts(bytes, after_owner + 8, count) {
            Some((shared_with, end)) => {
                if end == bytes.len() {
                    Some(Note { id, content, owner, shared_with })
                } else {
                    None
                }
            },
            None => None,
        }
    }
}

} // verus!

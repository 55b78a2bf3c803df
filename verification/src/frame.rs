//! The frame that carries files: a count, then for each file a header with its
//! relative path and its size, followed by exactly that many bytes of payload.
//!
//! Where one file ends and the next begins is decided by the sizes in the
//! headers alone, never by how the bytes happen to be cut into chunks.

use crate::error::ProtocolError;
use crate::wire::{
    blob_bytes, blob_shortfall, blob_span, bounded, get_blob, get_text, get_u64, le_bytes,
    le_value, lemma_blob_shortfall, lemma_blob_shortfall_within, lemma_le_bytes_len,
    lemma_le_bytes_of_value, lemma_le_value_bound, lemma_le_value_of_bytes,
    lemma_parse_blob_of_bytes, lemma_parse_blob_sound, lemma_parse_text_of_bytes,
    lemma_parse_text_sound, parse_blob, parse_text, pow256, put_blob, put_text, put_u64,
    text_bytes,
};
use vstd::prelude::*;
use vstd::utf8::*;

verus! {

/// One file of a transfer: where it belongs, relative to the directory that is
/// sent or received, and what it holds.
#[derive(Debug, PartialEq, Eq)]
pub struct FileEntry {
    pub path: String,
    pub data: Vec<u8>,
}

/// A file of a transfer as a mathematical value.
pub struct FileEntryView {
    pub path: Seq<char>,
    pub data: Seq<u8>,
}

impl View for FileEntry {
    type V = FileEntryView;

    open spec fn view(&self) -> FileEntryView {
        FileEntryView { path: self.path@, data: self.data@ }
    }
}

impl Clone for FileEntry {
    fn clone(&self) -> (copy: FileEntry)
        ensures
            copy@ == self@,
    {
        let mut data: Vec<u8> = Vec::new();
        crate::wire::put_bytes(&mut data, self.data.as_slice());
        assert(data@ =~= self.data@);
        FileEntry { path: self.path.clone(), data }
    }
}

/// What precedes the payload of a file: its relative path and the number of
/// bytes that follow.
#[derive(Debug, PartialEq, Eq)]
pub struct FileHeader {
    pub path: String,
    pub size: u64,
}

/// A file header as a mathematical value.
pub struct FileHeaderView {
    pub path: Seq<char>,
    pub size: nat,
}

impl View for FileHeader {
    type V = FileHeaderView;

    open spec fn view(&self) -> FileHeaderView {
        FileHeaderView { path: self.path@, size: self.size as nat }
    }
}

impl FileEntryView {
    /// Whether the lengths of the path and of the payload can be written in
    /// the eight bytes the frame has for each. Every entry in memory is so.
    pub open spec fn fits(self) -> bool {
        encode_utf8(self.path).len() < pow256(8) && self.data.len() < pow256(8)
    }
}

/// The files of a transfer as mathematical values, in the order they are held.
pub open spec fn entries_view(entries: Seq<FileEntry>) -> Seq<FileEntryView> {
    entries.map_values(|entry: FileEntry| entry@)
}

/// Whether a whole transfer can be framed: each entry fits, and so does their
/// number.
pub open spec fn all_fit(entries: Seq<FileEntryView>) -> bool {
    entries.len() < pow256(8) && forall|i: int|
        0 <= i < entries.len() ==> (#[trigger] entries[i]).fits()
}

/// A header on the wire: the path as a text, then the size in eight bytes.
pub open spec fn header_bytes(path: Seq<char>, size: nat) -> Seq<u8> {
    text_bytes(path) + le_bytes(size, 8)
}

/// A file on the wire: its header, then its payload.
pub open spec fn entry_bytes(entry: FileEntryView) -> Seq<u8> {
    text_bytes(entry.path) + blob_bytes(entry.data)
}

/// Files on the wire, one after the other.
pub open spec fn entries_bytes(entries: Seq<FileEntryView>) -> Seq<u8>
    decreases entries.len(),
{
    if entries.len() == 0 {
        Seq::empty()
    } else {
        entry_bytes(entries[0]) + entries_bytes(entries.drop_first())
    }
}

/// A whole transfer on the wire: the number of files, then the files.
pub open spec fn frame_bytes(entries: Seq<FileEntryView>) -> Seq<u8> {
    le_bytes(entries.len(), 8) + entries_bytes(entries)
}

/// What a reader makes of a header at the start of `bytes`.
pub open spec fn parse_header(bytes: Seq<u8>) -> Result<(FileHeaderView, nat), ProtocolError> {
    match parse_text(bytes) {
        Ok((path, used)) => if bytes.len() < used + 8 {
            Err(ProtocolError::Truncated)
        } else {
            let size = le_value(bytes.subrange(used as int, used as int + 8));
            Ok((FileHeaderView { path, size }, used + 8))
        },
        Err(fault) => Err(fault),
    }
}

/// What a reader makes of a file at the start of `bytes`.
pub open spec fn parse_entry(bytes: Seq<u8>) -> Result<(FileEntryView, nat), ProtocolError> {
    match parse_text(bytes) {
        Ok((path, used)) => match parse_blob(bytes.skip(used as int)) {
            Ok((data, more)) => Ok((FileEntryView { path, data }, used + more)),
            Err(fault) => Err(fault),
        },
        Err(fault) => Err(fault),
    }
}

/// What a reader makes of `count` files at the start of `bytes`.
pub open spec fn parse_entries(bytes: Seq<u8>, count: nat) -> Result<
    (Seq<FileEntryView>, nat),
    ProtocolError,
>
    decreases count,
{
    if count == 0 {
        Ok((Seq::empty(), 0))
    } else {
        match parse_entry(bytes) {
            Ok((entry, used)) => match parse_entries(bytes.skip(used as int), (count - 1) as nat) {
                Ok((entries, more)) => Ok((seq![entry] + entries, used + more)),
                Err(fault) => Err(fault),
            },
            Err(fault) => Err(fault),
        }
    }
}

/// What a reader makes of a whole transfer at the start of `bytes`: the files
/// and the length of the frame, or the reason why there is none.
pub open spec fn parse_frame(bytes: Seq<u8>) -> Result<(Seq<FileEntryView>, nat), ProtocolError> {
    if bytes.len() < 8 {
        Err(ProtocolError::Truncated)
    } else {
        match parse_entries(bytes.skip(8), le_value(bytes.take(8))) {
            Ok((entries, used)) => Ok((entries, 8 + used)),
            Err(fault) => Err(fault),
        }
    }
}

/// The size that a header declares is the length of the payload that follows
/// it: a file on the wire is its header and then its bytes.
pub proof fn lemma_entry_is_header_then_payload(entry: FileEntryView)
    ensures
        entry_bytes(entry) == header_bytes(entry.path, entry.data.len()) + entry.data,
{
    assert(entry_bytes(entry) =~= header_bytes(entry.path, entry.data.len()) + entry.data);
}

/// Files written one more at the end.
pub proof fn lemma_entries_bytes_push(entries: Seq<FileEntryView>, last: FileEntryView)
    ensures
        entries_bytes(entries.push(last)) == entries_bytes(entries) + entry_bytes(last),
    decreases entries.len(),
{
    let longer = entries.push(last);
    if entries.len() == 0 {
        assert(longer.drop_first() =~= entries);
        assert(entries_bytes(entries) =~= Seq::<u8>::empty());
        assert(entries_bytes(longer) =~= entry_bytes(last) + Seq::<u8>::empty());
        assert(entries_bytes(longer) =~= entries_bytes(entries) + entry_bytes(last));
    } else {
        assert(longer.drop_first() =~= entries.drop_first().push(last));
        lemma_entries_bytes_push(entries.drop_first(), last);
        assert(entries_bytes(longer) =~= entries_bytes(entries) + entry_bytes(last));
    }
}

/// A written file is read back unchanged, whatever follows it.
pub proof fn lemma_parse_entry_of_bytes(entry: FileEntryView, rest: Seq<u8>)
    requires
        entry.fits(),
    ensures
        parse_entry(entry_bytes(entry) + rest) == Ok::<(FileEntryView, nat), ProtocolError>(
            (entry, entry_bytes(entry).len()),
        ),
{
    let all = entry_bytes(entry) + rest;
    let behind = blob_bytes(entry.data) + rest;
    assert(all =~= text_bytes(entry.path) + behind);
    lemma_parse_text_of_bytes(entry.path, behind);
    assert(all.skip(text_bytes(entry.path).len() as int) =~= behind);
    lemma_parse_blob_of_bytes(entry.data, rest);
}

/// Whatever is read as a file is the encoding of that file.
pub proof fn lemma_parse_entry_sound(bytes: Seq<u8>)
    ensures
        parse_entry(bytes) matches Ok((entry, used)) ==> used <= bytes.len() && bytes.take(
            used as int,
        ) == entry_bytes(entry),
{
    if let Ok((entry, used)) = parse_entry(bytes) {
        lemma_parse_text_sound(bytes);
        let first = parse_text(bytes)->Ok_0.1;
        lemma_parse_blob_sound(bytes.skip(first as int));
        assert(bytes.take(used as int) =~= bytes.take(first as int) + bytes.skip(
            first as int,
        ).take(used - first));
    }
}

/// Written files are read back unchanged, whatever follows them.
pub proof fn lemma_parse_entries_of_bytes(entries: Seq<FileEntryView>, rest: Seq<u8>)
    requires
        forall|i: int| 0 <= i < entries.len() ==> (#[trigger] entries[i]).fits(),
    ensures
        parse_entries(entries_bytes(entries) + rest, entries.len()) == Ok::<
            (Seq<FileEntryView>, nat),
            ProtocolError,
        >((entries, entries_bytes(entries).len())),
    decreases entries.len(),
{
    if entries.len() == 0 {
        assert(entries =~= Seq::<FileEntryView>::empty());
    } else {
        let first = entries[0];
        let tail = entries.drop_first();
        let behind = entries_bytes(tail) + rest;
        let all = entries_bytes(entries) + rest;
        assert(all =~= entry_bytes(first) + behind);
        lemma_parse_entry_of_bytes(first, behind);
        assert(all.skip(entry_bytes(first).len() as int) =~= behind);
        assert forall|i: int| 0 <= i < tail.len() implies (#[trigger] tail[i]).fits() by {
            assert(tail[i] == entries[i + 1]);
        }
        lemma_parse_entries_of_bytes(tail, rest);
        assert(seq![first] + tail =~= entries);
    }
}

/// Whatever is read as a run of files is the encoding of those files, and they
/// are as many as were asked for.
pub proof fn lemma_parse_entries_sound(bytes: Seq<u8>, count: nat)
    ensures
        parse_entries(bytes, count) matches Ok((entries, used)) ==> entries.len() == count && used
            <= bytes.len() && bytes.take(used as int) == entries_bytes(entries),
    decreases count,
{
    if let Ok((entries, used)) = parse_entries(bytes, count) {
        if count == 0 {
            assert(bytes.take(0) =~= Seq::<u8>::empty());
        } else {
            let (first, one) = parse_entry(bytes)->Ok_0;
            let behind = bytes.skip(one as int);
            let (tail, more) = parse_entries(behind, (count - 1) as nat)->Ok_0;
            lemma_parse_entry_sound(bytes);
            lemma_parse_entries_sound(behind, (count - 1) as nat);
            assert(entries.drop_first() =~= tail);
            assert(bytes.take(used as int) =~= bytes.take(one as int) + behind.take(more as int));
        }
    }
}

/// Framing a transfer and reading the frame gives the same files back: the
/// same relative paths in the same order, the same contents, the same
/// lengths. Bytes behind the frame do not matter.
pub proof fn lemma_frame_round_trip(entries: Seq<FileEntryView>, rest: Seq<u8>)
    requires
        all_fit(entries),
    ensures
        parse_frame(frame_bytes(entries) + rest) == Ok::<(Seq<FileEntryView>, nat), ProtocolError>(
            (entries, frame_bytes(entries).len()),
        ),
{
    let all = frame_bytes(entries) + rest;
    lemma_le_bytes_len(entries.len(), 8);
    lemma_le_value_of_bytes(entries.len(), 8);
    assert(all.take(8) =~= le_bytes(entries.len(), 8));
    assert(all.skip(8) =~= entries_bytes(entries) + rest);
    lemma_parse_entries_of_bytes(entries, rest);
}

/// A reader accepts nothing but frames: whatever it reads as a transfer is the
/// encoding of that transfer.
pub proof fn lemma_parse_frame_sound(bytes: Seq<u8>)
    ensures
        parse_frame(bytes) matches Ok((entries, used)) ==> used <= bytes.len() && bytes.take(
            used as int,
        ) == frame_bytes(entries),
{
    if let Ok((entries, used)) = parse_frame(bytes) {
        let count = le_value(bytes.take(8));
        lemma_parse_entries_sound(bytes.skip(8), count);
        lemma_le_bytes_of_value(bytes.take(8));
        assert(bytes.take(used as int) =~= bytes.take(8) + bytes.skip(8).take(used - 8));
    }
}

/// The header of a file of `size` bytes that belongs at `path`.
pub fn encode_file_header(path: &str, size: u64) -> (bytes: Vec<u8>)
    ensures
        bytes@ == header_bytes(path@, size as nat),
{
    let mut out: Vec<u8> = Vec::new();
    put_text(&mut out, path);
    put_u64(&mut out, size);
    assert(out@ =~= header_bytes(path@, size as nat));
    out
}

/// Reads the header that starts at `at`: the header and the offset of the
/// first byte of payload. An offset beyond the end reads as a truncated frame.
pub fn decode_file_header(bytes: &[u8], at: usize) -> (decoded: Result<
    (FileHeader, usize),
    ProtocolError,
>)
    ensures
        at <= bytes@.len() ==> match parse_header(bytes@.skip(at as int)) {
            Ok((header, used)) => decoded matches Ok((got, next)) && got@ == header && next == at
                + used,
            Err(fault) => decoded matches Err(got) && got == fault,
        },
        at > bytes@.len() ==> (decoded matches Err(got) && got == ProtocolError::Truncated),
{
    let total: usize = bytes.len();
    let (path, next) = match get_text(bytes, at) {
        Ok(read) => read,
        Err(fault) => {
            return Err(fault);
        },
    };
    proof {
        lemma_parse_text_sound(bytes@.skip(at as int));
    }
    match get_u64(bytes, next) {
        Some(size) => {
            proof {
                let tail = bytes@.skip(at as int);
                let field = bytes@.subrange(next as int, next + 8);
                assert(tail.subrange(next - at, next - at + 8) =~= field);
                lemma_le_value_bound(field);
                reveal_with_fuel(pow256, 9);
            }
            Ok((FileHeader { path, size }, next + 8))
        },
        None => Err(ProtocolError::Truncated),
    }
}

/// The frame of a transfer of `entries`, in their order. Reading it gives the
/// same entries back.
pub fn encode_frame(entries: &Vec<FileEntry>) -> (bytes: Vec<u8>)
    ensures
        bytes@ == frame_bytes(entries_view(entries@)),
        parse_frame(bytes@) == Ok::<(Seq<FileEntryView>, nat), ProtocolError>(
            (entries_view(entries@), bytes@.len()),
        ),
{
    let ghost all = entries_view(entries@);
    let count: usize = entries.len();
    let mut out: Vec<u8> = Vec::new();
    put_u64(&mut out, count as u64);
    let mut done: usize = 0;
    proof {
        assert(all.take(0) =~= Seq::<FileEntryView>::empty());
        assert(out@ =~= le_bytes(count as nat, 8) + entries_bytes(all.take(0)));
    }
    while done < count
        invariant
            done <= count == entries@.len(),
            all == entries_view(entries@),
            out@ == le_bytes(count as nat, 8) + entries_bytes(all.take(done as int)),
            forall|i: int| 0 <= i < done ==> (#[trigger] all[i]).fits(),
        decreases count - done,
    {
        let ghost before = out@;
        let entry: &FileEntry = &entries[done];
        put_text(&mut out, entry.path.as_str());
        put_blob(&mut out, entry.data.as_slice());
        proof {
            let sent = all.take(done as int);
            assert(all[done as int] == entry@);
            lemma_entries_bytes_push(sent, entry@);
            assert(all.take(done + 1) =~= sent.push(entry@));
            assert(out@ =~= before + entry_bytes(entry@));
            assert(out@ =~= le_bytes(count as nat, 8) + (entries_bytes(sent) + entry_bytes(
                entry@,
            )));
        }
        done = done + 1;
    }
    proof {
        assert(all.take(count as int) =~= all);
        reveal_with_fuel(pow256, 9);
        lemma_frame_round_trip(all, Seq::empty());
        assert(frame_bytes(all) + Seq::<u8>::empty() =~= frame_bytes(all));
    }
    out
}

/// The files read so far, put in front of what reading on from there gives.
spec fn read_on(
    done: Seq<FileEntryView>,
    offset: nat,
    rest: Result<(Seq<FileEntryView>, nat), ProtocolError>,
) -> Result<(Seq<FileEntryView>, nat), ProtocolError> {
    match rest {
        Ok((entries, used)) => Ok((done + entries, offset + used)),
        Err(fault) => Err(fault),
    }
}

/// Reads the transfer at the start of `bytes` and tells how long its frame is.
/// Anything short of a whole frame is refused, and then no file is handed out.
pub fn decode_frame(bytes: &[u8]) -> (decoded: Result<(Vec<FileEntry>, usize), ProtocolError>)
    ensures
        match parse_frame(bytes@) {
            Ok((entries, used)) => decoded matches Ok((got, n)) && entries_view(got@) == entries
                && n == used,
            Err(fault) => decoded matches Err(got) && got == fault,
        },
{
    let count: u64 = match get_u64(bytes, 0) {
        Some(count) => count,
        None => {
            return Err(ProtocolError::Truncated);
        },
    };
    let ghost body = bytes@.skip(8);
    let mut files: Vec<FileEntry> = Vec::new();
    let mut at: usize = 8;
    let mut done: u64 = 0;
    proof {
        assert(bytes@.take(8) =~= bytes@.subrange(0, 8));
        lemma_le_value_bound(bytes@.take(8));
        reveal_with_fuel(pow256, 9);
        assert(bytes@.skip(8).skip(0) =~= body);
        assert(entries_view(files@) =~= Seq::<FileEntryView>::empty());
        let whole = parse_entries(body, count as nat);
        match whole {
            Ok((entries, used)) => {
                assert(Seq::<FileEntryView>::empty() + entries =~= entries);
            },
            Err(fault) => {},
        }
    }
    while done < count
        invariant
            done <= count == le_value(bytes@.take(8)),
            8 <= at <= bytes@.len(),
            body == bytes@.skip(8),
            parse_entries(body, count as nat) == read_on(
                entries_view(files@),
                (at - 8) as nat,
                parse_entries(bytes@.skip(at as int), (count - done) as nat),
            ),
        decreases count - done,
    {
        let ghost tail = bytes@.skip(at as int);
        let ghost seen = entries_view(files@);
        let (path, next) = match get_text(bytes, at) {
            Ok(read) => read,
            Err(fault) => {
                return Err(fault);
            },
        };
        proof {
            lemma_parse_text_sound(tail);
            assert(tail.skip(next - at) =~= bytes@.skip(next as int));
        }
        let (data, end) = match get_blob(bytes, next) {
            Ok(read) => read,
            Err(fault) => {
                return Err(fault);
            },
        };
        let entry = FileEntry { path, data };
        proof {
            lemma_parse_entry_sound(tail);
            assert(tail.skip(end - at) =~= bytes@.skip(end as int));
            let rest = parse_entries(bytes@.skip(end as int), (count - done - 1) as nat);
            match rest {
                Ok((entries, used)) => {
                    assert(seen + (seq![entry@] + entries) =~= seen.push(entry@) + entries);
                },
                Err(fault) => {},
            }
        }
        files.push(entry);
        proof {
            assert(entries_view(files@) =~= seen.push(entry@));
        }
        at = end;
        done = done + 1;
    }
    proof {
        assert(entries_view(files@) + Seq::<FileEntryView>::empty() =~= entries_view(files@));
    }
    Ok((files, at))
}

/// How many more bytes are to be asked for before `count` files that begin at
/// the start of `bytes` are there to their end: what is missing of the first
/// field that is cut short. None when all are there.
pub open spec fn entries_shortfall(bytes: Seq<u8>, count: nat) -> nat
    decreases count,
{
    if count == 0 {
        0
    } else {
        match parse_blob(bytes) {
            Err(_) => blob_shortfall(bytes),
            Ok((_, path)) => match parse_blob(bytes.skip(path as int)) {
                Err(_) => blob_shortfall(bytes.skip(path as int)),
                Ok((_, payload)) => entries_shortfall(
                    bytes.skip((path + payload) as int),
                    (count - 1) as nat,
                ),
            },
        }
    }
}

/// How many more bytes are to be asked for before the transfer that begins at
/// the start of `bytes` is there to its end: what is missing of the count
/// while that is not whole, then of the first field of a file that is cut
/// short. None when the frame is all there.
pub open spec fn frame_shortfall(bytes: Seq<u8>) -> nat {
    if bytes.len() < 8 {
        (8 - bytes.len()) as nat
    } else {
        entries_shortfall(bytes.skip(8), le_value(bytes.take(8)))
    }
}

/// While more is asked for, the files are not all there; once nothing is,
/// they are read or known to be malformed.
pub proof fn lemma_entries_shortfall(bytes: Seq<u8>, count: nat)
    ensures
        entries_shortfall(bytes, count) > 0 ==> parse_entries(bytes, count) is Err,
        entries_shortfall(bytes, count) == 0 ==> parse_entries(bytes, count) != Err::<
            (Seq<FileEntryView>, nat),
            ProtocolError,
        >(ProtocolError::Truncated),
    decreases count,
{
    if count > 0 {
        lemma_blob_shortfall(bytes);
        if let Ok((_, path)) = parse_blob(bytes) {
            lemma_blob_shortfall(bytes.skip(path as int));
            if let Ok((_, payload)) = parse_blob(bytes.skip(path as int)) {
                lemma_entries_shortfall(bytes.skip((path + payload) as int), (count - 1) as nat);
            }
        }
    }
}

/// While more is asked for, the bytes are no frame yet; once nothing is asked
/// for, what a reader says of them is final: a transfer, or a malformed frame.
/// A reader that asks for no more than this never takes a byte from behind the
/// frame.
pub proof fn lemma_frame_shortfall(bytes: Seq<u8>)
    ensures
        frame_shortfall(bytes) > 0 ==> parse_frame(bytes) is Err,
        frame_shortfall(bytes) == 0 ==> parse_frame(bytes) != Err::<
            (Seq<FileEntryView>, nat),
            ProtocolError,
        >(ProtocolError::Truncated),
{
    if bytes.len() >= 8 {
        lemma_entries_shortfall(bytes.skip(8), le_value(bytes.take(8)));
    }
}

/// Of files that are cut short, no more is asked for than the rest of them.
pub proof fn lemma_entries_shortfall_within(entries: Seq<FileEntryView>, cut: int)
    requires
        forall|i: int| 0 <= i < entries.len() ==> (#[trigger] entries[i]).fits(),
        0 <= cut < entries_bytes(entries).len(),
    ensures
        0 < entries_shortfall(entries_bytes(entries).take(cut), entries.len())
            <= entries_bytes(entries).len() - cut,
    decreases entries.len(),
{
    if entries.len() > 0 {
        let first = entries[0];
        let rest = entries.drop_first();
        let path = text_bytes(first.path);
        let payload = blob_bytes(first.data);
        let behind = entries_bytes(rest);
        let whole = entries_bytes(entries);
        let held = whole.take(cut);
        assert(whole =~= path + payload + behind);
        lemma_parse_blob_of_bytes(encode_utf8(first.path), Seq::empty());
        lemma_parse_blob_of_bytes(first.data, Seq::empty());
        if cut < path.len() {
            assert(held =~= path.take(cut));
            lemma_blob_shortfall_within(encode_utf8(first.path), cut);
            lemma_blob_shortfall(held);
        } else {
            assert(held =~= path + (payload + behind).take(cut - path.len()));
            lemma_parse_blob_of_bytes(
                encode_utf8(first.path),
                (payload + behind).take(cut - path.len()),
            );
            let after = held.skip(path.len() as int);
            assert(after =~= (payload + behind).take(cut - path.len()));
            if cut < path.len() + payload.len() {
                assert(after =~= payload.take(cut - path.len()));
                lemma_blob_shortfall_within(first.data, cut - path.len());
                lemma_blob_shortfall(after);
            } else {
                let deep = cut - path.len() - payload.len();
                assert(after =~= payload + behind.take(deep));
                lemma_parse_blob_of_bytes(first.data, behind.take(deep));
                assert(held.skip((path.len() + payload.len()) as int) =~= behind.take(deep));
                assert forall|i: int| 0 <= i < rest.len() implies (#[trigger] rest[i]).fits() by {
                    assert(rest[i] == entries[i + 1]);
                }
                lemma_entries_shortfall_within(rest, deep);
            }
        }
    }
}

/// A reader that asks for what is missing reads a transfer to its end and no
/// further: of a frame that is cut short, something is missing, and no more
/// than the rest of the frame.
pub proof fn lemma_frame_shortfall_within(entries: Seq<FileEntryView>, cut: int)
    requires
        all_fit(entries),
        0 <= cut < frame_bytes(entries).len(),
    ensures
        0 < frame_shortfall(frame_bytes(entries).take(cut)) <= frame_bytes(entries).len() - cut,
{
    let whole = frame_bytes(entries);
    let held = whole.take(cut);
    lemma_le_bytes_len(entries.len(), 8);
    if cut >= 8 {
        lemma_le_value_of_bytes(entries.len(), 8);
        assert(held.take(8) =~= le_bytes(entries.len(), 8));
        assert(held.skip(8) =~= entries_bytes(entries).take(cut - 8));
        lemma_entries_shortfall_within(entries, cut - 8);
    }
}

/// Tells a reader how many bytes to ask the connection for next: none when
/// the transfer is there to its end, and then `decode_frame` reads it or says
/// why it is malformed. Nothing comes back when a field would be longer than
/// memory can hold.
pub fn frame_missing(bytes: &[u8]) -> (missing: Option<usize>)
    ensures
        missing == bounded(frame_shortfall(bytes@)),
{
    let held: usize = bytes.len();
    let count: u64 = match get_u64(bytes, 0) {
        Some(count) => count,
        None => {
            return Some(8 - held);
        },
    };
    let mut at: usize = 8;
    let mut done: u64 = 0;
    proof {
        assert(bytes@.take(8) =~= bytes@.subrange(0, 8));
        lemma_le_value_bound(bytes@.take(8));
        reveal_with_fuel(pow256, 9);
    }
    while done < count
        invariant
            done <= count,
            8 <= at <= held == bytes@.len(),
            frame_shortfall(bytes@) == entries_shortfall(
                bytes@.skip(at as int),
                (count - done) as nat,
            ),
        decreases count - done,
    {
        let ghost tail = bytes@.skip(at as int);
        let path: usize = match blob_span(bytes, at) {
            Ok(end) => end,
            Err(missing) => {
                return missing;
            },
        };
        proof {
            assert(tail.skip(path - at) =~= bytes@.skip(path as int));
        }
        let payload: usize = match blob_span(bytes, path) {
            Ok(end) => end,
            Err(missing) => {
                return missing;
            },
        };
        proof {
            assert(tail.skip(payload - at) =~= bytes@.skip(payload as int));
        }
        at = payload;
        done = done + 1;
    }
    Some(0)
}

} // verus!

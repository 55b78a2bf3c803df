//! Where the files of a received transfer are written.
//!
//! Either side that receives files writes them below a directory of its own:
//! the server below the served directory, the client below its local working
//! directory. The paths in a transfer come from the peer, so each is resolved
//! like a requested path. A file whose path escapes is refused, and so is one
//! whose path names the receiving directory itself, where no file can be. One
//! such file refuses the transfer as a whole.

use crate::error::SessionError;
use crate::frame::{entries_view, FileEntry, FileEntryView};
use crate::path::{contained, resolve_path, texts_bytes};
use vstd::prelude::*;
use vstd::utf8::*;

verus! {

/// Where a file with this path belongs: the names that lead to it below the
/// receiving directory. A path that escapes is refused as an escape; a path
/// that leads to the receiving directory itself is refused as a place that
/// cannot be written.
pub open spec fn place_of(path: Seq<char>) -> Result<Seq<Seq<u8>>, SessionError> {
    match contained(encode_utf8(path)) {
        None => Err(SessionError::PathEscape),
        Some(names) => if names.len() == 0 {
            Err(SessionError::Io)
        } else {
            Ok(names)
        },
    }
}

/// Where the files of a transfer belong, one list of names for each file in
/// the order of the transfer, or the refusal of the first file that has no
/// place.
pub open spec fn targets_of(entries: Seq<FileEntryView>) -> Result<
    Seq<Seq<Seq<u8>>>,
    SessionError,
>
    decreases entries.len(),
{
    if entries.len() == 0 {
        Ok(Seq::empty())
    } else {
        match targets_of(entries.drop_last()) {
            Err(fault) => Err(fault),
            Ok(targets) => match place_of(entries.last().path) {
                Ok(names) => Ok(targets.push(names)),
                Err(fault) => Err(fault),
            },
        }
    }
}

/// Targets in memory as mathematical values.
pub open spec fn targets_view(targets: Seq<Vec<String>>) -> Seq<Seq<Seq<u8>>> {
    targets.map_values(|names: Vec<String>| texts_bytes(names@))
}

/// The writes of a transfer are planned as a whole or not at all: there are
/// targets exactly when every file has a place, and then each file has its
/// own, which lies below the receiving directory. One file without a place
/// refuses the whole transfer, before anything is written, with the refusal of
/// the first such file.
pub proof fn lemma_writes_all_or_nothing(entries: Seq<FileEntryView>)
    ensures
        targets_of(entries) is Ok <==> forall|i: int|
            0 <= i < entries.len() ==> place_of((#[trigger] entries[i]).path) is Ok,
        targets_of(entries) matches Ok(targets) ==> targets.len() == entries.len() && forall|
            i: int,
        |
            0 <= i < entries.len() ==> place_of((#[trigger] entries[i]).path) == Ok::<
                Seq<Seq<u8>>,
                SessionError,
            >(targets[i]) && targets[i].len() > 0,
        targets_of(entries) matches Err(fault) ==> exists|i: int|
            0 <= i < entries.len() && place_of((#[trigger] entries[i]).path) == Err::<
                Seq<Seq<u8>>,
                SessionError,
            >(fault) && targets_of(entries.take(i)) is Ok,
    decreases entries.len(),
{
    if entries.len() > 0 {
        let before = entries.drop_last();
        let last = entries.len() - 1;
        lemma_writes_all_or_nothing(before);
        assert forall|i: int| 0 <= i < before.len() implies #[trigger] before[i] == entries[i] by {}
        assert(entries.take(last) =~= before);
        match targets_of(entries) {
            Ok(targets) => {
                let earlier = targets_of(before)->Ok_0;
                assert forall|i: int| 0 <= i < entries.len() implies place_of(
                    (#[trigger] entries[i]).path,
                ) == Ok::<Seq<Seq<u8>>, SessionError>(targets[i]) && targets[i].len() > 0 by {
                    if i < before.len() {
                        assert(before[i] == entries[i]);
                        assert(targets[i] == earlier[i]);
                    }
                }
            },
            Err(fault) => {
                if targets_of(before) is Ok {
                    assert(place_of(entries[last].path) == Err::<Seq<Seq<u8>>, SessionError>(
                        fault,
                    ));
                } else {
                    let i = choose|i: int|
                        0 <= i < before.len() && place_of((#[trigger] before[i]).path) == Err::<
                            Seq<Seq<u8>>,
                            SessionError,
                        >(fault) && targets_of(before.take(i)) is Ok;
                    assert(before[i] == entries[i]);
                    assert(before.take(i) =~= entries.take(i));
                }
            },
        }
    } else {
        assert(entries.take(0) =~= entries);
    }
}

/// Decides where one received file is to be written.
pub fn place_file(path: &str) -> (place: Result<Vec<String>, SessionError>)
    ensures
        match place_of(path@) {
            Ok(names) => place matches Ok(found) && texts_bytes(found@) == names,
            Err(fault) => place matches Err(got) && got == fault,
        },
{
    match resolve_path(path) {
        Err(_) => Err(SessionError::PathEscape),
        Ok(names) => {
            if names.len() == 0 {
                Err(SessionError::Io)
            } else {
                Ok(names)
            }
        },
    }
}

/// Decides where the files of a received transfer are to be written: for each
/// file the names that lead to it below the directory that receives. If any
/// file has no place, the whole transfer is refused with the refusal of the
/// first such file, and nothing is to be written.
pub fn plan_writes(entries: &Vec<FileEntry>) -> (plan: Result<Vec<Vec<String>>, SessionError>)
    ensures
        match targets_of(entries_view(entries@)) {
            Ok(targets) => plan matches Ok(found) && targets_view(found@) == targets,
            Err(fault) => plan matches Err(got) && got == fault,
        },
{
    let ghost all = entries_view(entries@);
    let count: usize = entries.len();
    let mut found: Vec<Vec<String>> = Vec::new();
    let mut done: usize = 0;
    proof {
        assert(all.take(0) =~= Seq::<FileEntryView>::empty());
        assert(targets_view(found@) =~= Seq::<Seq<Seq<u8>>>::empty());
    }
    while done < count
        invariant
            done <= count == entries@.len(),
            all == entries_view(entries@),
            targets_of(all.take(done as int)) == Ok::<Seq<Seq<Seq<u8>>>, SessionError>(
                targets_view(found@),
            ),
        decreases count - done,
    {
        let ghost before = targets_view(found@);
        proof {
            assert(all.take(done + 1).drop_last() =~= all.take(done as int));
            assert(all.take(done + 1).last() == entries@[done as int]@);
        }
        match place_file(entries[done].path.as_str()) {
            Ok(names) => {
                found.push(names);
                proof {
                    assert(targets_view(found@) =~= before.push(texts_bytes(names@)));
                }
            },
            Err(fault) => {
                proof {
                    lemma_fault_stays(all, done as int + 1);
                }
                return Err(fault);
            },
        }
        done = done + 1;
    }
    proof {
        assert(all.take(count as int) =~= all);
    }
    Ok(found)
}

/// Once the files up to some point have met a refusal, the whole transfer has
/// that refusal.
pub proof fn lemma_fault_stays(entries: Seq<FileEntryView>, upto: int)
    requires
        0 <= upto <= entries.len(),
        targets_of(entries.take(upto)) is Err,
    ensures
        targets_of(entries) == targets_of(entries.take(upto)),
    decreases entries.len() - upto,
{
    if upto < entries.len() {
        assert(entries.take(upto + 1).drop_last() =~= entries.take(upto));
        lemma_fault_stays(entries, upto + 1);
    } else {
        assert(entries.take(upto) =~= entries);
    }
}

} // verus!

//! Containment of requested paths under the served directory.
//!
//! A path is read as segments separated by `/`. Empty segments and `.` stay
//! where they are, `..` goes up one level, anything else goes down into the
//! segment's name. A path is refused
//!
//! - if at any point it would go above the served directory, even if it comes
//!   back down afterwards;
//! - if it begins with `/` and names anything: an absolute path is a place in
//!   the file system at large, not below the served directory. Only `/` by
//!   itself, and what says no more than that, stands for the served directory;
//! - if a segment holds a backslash or begins with a drive letter and a colon:
//!   on some systems such a segment is a path of its own and would lead out
//!   when it is joined below the served directory.

use crate::error::PathEscapeError;
use crate::wire::{put_bytes, text_from_utf8};
use vstd::prelude::*;
use vstd::slice::slice_to_vec;
use vstd::utf8::*;

verus! {

/// The byte that separates the segments of a path, `/`.
pub const SEPARATOR: u8 = 47;

/// The byte `.`.
pub const DOT: u8 = 46;

/// The byte `\`.
pub const BACKSLASH: u8 = 92;

/// The byte `:`.
pub const COLON: u8 = 58;

/// The segments of a path: the runs of bytes between its separators. Reading
/// the path byte by byte, a separator begins a new segment and any other byte
/// extends the last one.
pub open spec fn segments_of(path: Seq<u8>) -> Seq<Seq<u8>>
    decreases path.len(),
{
    if path.len() == 0 {
        seq![Seq::empty()]
    } else {
        let before = segments_of(path.drop_last());
        if path.last() == SEPARATOR {
            before.push(Seq::empty())
        } else {
            before.drop_last().push(before.last().push(path.last()))
        }
    }
}

/// Whether a segment means "one level up".
pub open spec fn is_parent(segment: Seq<u8>) -> bool {
    segment.len() == 2 && segment[0] == DOT && segment[1] == DOT
}

/// Whether a segment means "stay here": the empty segment and `.`.
pub open spec fn is_here(segment: Seq<u8>) -> bool {
    segment.len() == 0 || (segment.len() == 1 && segment[0] == DOT)
}

/// Whether a byte is an ASCII letter.
pub open spec fn is_letter(byte: u8) -> bool {
    (65 <= byte <= 90) || (97 <= byte <= 122)
}

/// Whether a segment is, on some systems, more than a name: it holds a
/// backslash, which separates segments there, or it begins with a drive letter
/// and a colon.
pub open spec fn is_foreign(segment: Seq<u8>) -> bool {
    (exists|i: int| 0 <= i < segment.len() && segment[i] == BACKSLASH) || (segment.len() >= 2
        && segment[1] == COLON && is_letter(segment[0]))
}

/// How many levels a segment goes down: one for a name, none for "stay here",
/// minus one for "one level up".
pub open spec fn climb(segment: Seq<u8>) -> int {
    if is_parent(segment) {
        -1
    } else if is_here(segment) {
        0
    } else {
        1
    }
}

/// The depth below the served directory at which a walk along `segments` ends,
/// counted without regard to where it passes.
pub open spec fn net_depth(segments: Seq<Seq<u8>>) -> int
    decreases segments.len(),
{
    if segments.len() == 0 {
        0
    } else {
        net_depth(segments.drop_last()) + climb(segments.last())
    }
}

/// One step of a walk: from the names that lead to the present place, along one
/// more segment. `None` is a walk that has left the served directory, or that
/// has met a segment that is more than a name.
pub open spec fn step(place: Option<Seq<Seq<u8>>>, segment: Seq<u8>) -> Option<Seq<Seq<u8>>> {
    match place {
        None => None,
        Some(names) => if is_foreign(segment) {
            None
        } else if is_parent(segment) {
            if names.len() == 0 {
                None
            } else {
                Some(names.drop_last())
            }
        } else if is_here(segment) {
            Some(names)
        } else {
            Some(names.push(segment))
        },
    }
}

/// A walk from the served directory along `segments`: the names that lead to
/// where it ends, or `None` if it has left the served directory on the way.
pub open spec fn walk(segments: Seq<Seq<u8>>) -> Option<Seq<Seq<u8>>>
    decreases segments.len(),
{
    if segments.len() == 0 {
        Some(Seq::empty())
    } else {
        step(walk(segments.drop_last()), segments.last())
    }
}

/// Whether a path is absolute: it begins with the separator.
pub open spec fn is_absolute(path: Seq<u8>) -> bool {
    path.len() > 0 && path[0] == SEPARATOR
}

/// Whether any of the segments says more than "stay here".
pub open spec fn names_anything(segments: Seq<Seq<u8>>) -> bool
    decreases segments.len(),
{
    if segments.len() == 0 {
        false
    } else {
        names_anything(segments.drop_last()) || !is_here(segments.last())
    }
}

/// Where a path leads, as the names from the served directory down to it, or
/// `None` if the path escapes. An absolute path escapes as soon as it names
/// anything.
pub open spec fn contained(path: Seq<u8>) -> Option<Seq<Seq<u8>>> {
    if is_absolute(path) && names_anything(segments_of(path)) {
        None
    } else {
        walk(segments_of(path))
    }
}

/// Whether a segment is the name of something on every system: not empty, not
/// `.`, not `..`, without a separator or a backslash in it, and without a
/// drive letter in front.
pub open spec fn is_name(segment: Seq<u8>) -> bool {
    !is_parent(segment) && !is_here(segment) && !is_foreign(segment) && forall|i: int|
        0 <= i < segment.len() ==> segment[i] != SEPARATOR
}

/// Names in memory as mathematical values.
pub open spec fn names_view(names: Seq<Vec<u8>>) -> Seq<Seq<u8>> {
    names.map_values(|name: Vec<u8>| name@)
}

/// Names held as text, as the UTF-8 bytes that they are on the wire.
pub open spec fn texts_bytes(names: Seq<String>) -> Seq<Seq<u8>> {
    names.map_values(|name: String| encode_utf8(name@))
}

/// Where the last segment of a path begins: behind its last separator, or at
/// its start if it has none.
pub open spec fn last_start(path: Seq<u8>) -> nat
    decreases path.len(),
{
    if path.len() == 0 {
        0
    } else if path.last() == SEPARATOR {
        path.len()
    } else {
        last_start(path.drop_last())
    }
}

/// A path has at least one segment, and no segment holds a separator.
pub proof fn lemma_segments_plain(path: Seq<u8>)
    ensures
        segments_of(path).len() > 0,
        forall|k: int, i: int|
            0 <= k < segments_of(path).len() && 0 <= i < segments_of(path)[k].len()
                ==> #[trigger] segments_of(path)[k][i] != SEPARATOR,
    decreases path.len(),
{
    if path.len() > 0 {
        lemma_segments_plain(path.drop_last());
    }
}

/// A walk that stays inside ends at a place named by names only, provided no
/// segment holds a separator.
pub proof fn lemma_walk_names(segments: Seq<Seq<u8>>)
    requires
        forall|k: int, i: int|
            0 <= k < segments.len() && 0 <= i < segments[k].len() ==> #[trigger] segments[k][i]
                != SEPARATOR,
    ensures
        walk(segments) matches Some(names) ==> forall|k: int|
            0 <= k < names.len() ==> is_name(#[trigger] names[k]),
    decreases segments.len(),
{
    if segments.len() > 0 {
        lemma_walk_names(segments.drop_last());
    }
}

/// What a contained path resolves to holds names only: no `..`, no `.`, no
/// empty segment, no separator of this or another system and no drive letter.
/// Joined below the served directory, such names cannot lead out of it.
pub proof fn lemma_contained_names(path: Seq<u8>)
    ensures
        contained(path) matches Some(names) ==> forall|k: int|
            0 <= k < names.len() ==> is_name(#[trigger] names[k]),
{
    lemma_segments_plain(path);
    lemma_walk_names(segments_of(path));
}

/// A walk fails exactly when it meets a segment that is more than a name or,
/// after some number of its segments, has gone up more often than down. While
/// it stays inside, the number of names that lead to its end is its depth.
pub proof fn lemma_walk_escapes(segments: Seq<Seq<u8>>)
    ensures
        walk(segments) is None <==> (exists|k: int|
            0 <= k <= segments.len() && #[trigger] net_depth(segments.take(k)) < 0) || (exists|
            i: int,
        | 0 <= i < segments.len() && is_foreign(#[trigger] segments[i])),
        walk(segments) matches Some(names) ==> names.len() == net_depth(segments),
    decreases segments.len(),
{
    if segments.len() == 0 {
        assert forall|k: int| 0 <= k <= segments.len() implies #[trigger] net_depth(
            segments.take(k),
        ) >= 0 by {
            assert(segments.take(k) =~= segments);
        }
    } else {
        let before = segments.drop_last();
        let last = segments.len() - 1;
        lemma_walk_escapes(before);
        assert(segments.take(segments.len() as int) =~= segments);
        assert forall|k: int| 0 <= k <= before.len() implies segments.take(k) == before.take(
            k,
        ) by {
            assert(segments.take(k) =~= before.take(k));
        }
        assert forall|i: int| 0 <= i < before.len() implies #[trigger] before[i]
            == segments[i] by {}
        if walk(segments) is None {
            if walk(before) is None {
                if exists|k: int|
                    0 <= k <= before.len() && #[trigger] net_depth(before.take(k)) < 0 {
                    let k = choose|k: int|
                        0 <= k <= before.len() && #[trigger] net_depth(before.take(k)) < 0;
                    assert(net_depth(segments.take(k)) < 0);
                } else {
                    let i = choose|i: int|
                        0 <= i < before.len() && is_foreign(#[trigger] before[i]);
                    assert(is_foreign(segments[i]));
                }
            } else if is_foreign(segments[last]) {
            } else {
                assert(net_depth(segments.take(segments.len() as int)) < 0);
            }
        } else {
            assert forall|k: int| 0 <= k <= segments.len() implies #[trigger] net_depth(
                segments.take(k),
            ) >= 0 by {
                if k <= before.len() {
                    assert(segments.take(k) == before.take(k));
                }
            }
            assert forall|i: int| 0 <= i < segments.len() implies !is_foreign(
                #[trigger] segments[i],
            ) by {
                if i < before.len() {
                    assert(before[i] == segments[i]);
                }
            }
        }
    }
}

/// Segments that say no more than "stay here" lead nowhere: a walk along them
/// ends where it began.
pub proof fn lemma_walk_nowhere(segments: Seq<Seq<u8>>)
    requires
        !names_anything(segments),
    ensures
        walk(segments) == Some(Seq::<Seq<u8>>::empty()),
    decreases segments.len(),
{
    if segments.len() > 0 {
        lemma_walk_nowhere(segments.drop_last());
        let last = segments.last();
        assert(!is_foreign(last)) by {
            if last.len() == 1 {
                assert(last[0] == DOT);
            }
        }
    }
}

/// An absolute path is refused as soon as it names anything, whether or not
/// what it names exists below the served directory. One that names nothing,
/// such as `/` by itself, stands for the served directory.
pub proof fn lemma_absolute_is_refused(path: Seq<u8>)
    requires
        is_absolute(path),
    ensures
        names_anything(segments_of(path)) ==> contained(path) is None,
        !names_anything(segments_of(path)) ==> contained(path) == Some(Seq::<Seq<u8>>::empty()),
{
    if !names_anything(segments_of(path)) {
        lemma_walk_nowhere(segments_of(path));
    }
}

/// A path is refused exactly when it is absolute and names anything, or holds
/// a segment that is more than a name, or, read segment by segment, at some
/// point has gone up more often than down.
pub proof fn lemma_escape_detected(path: Seq<u8>)
    ensures
        contained(path) is None <==> (is_absolute(path) && names_anything(segments_of(path)))
            || (exists|i: int|
            0 <= i < segments_of(path).len() && is_foreign(#[trigger] segments_of(path)[i]))
            || (exists|k: int|
            0 <= k <= segments_of(path).len() && #[trigger] net_depth(segments_of(path).take(k))
                < 0),
{
    lemma_walk_escapes(segments_of(path));
}

/// Whether a segment is more than a name on some systems.
fn foreign(segment: &Vec<u8>) -> (found: bool)
    ensures
        found == is_foreign(segment@),
{
    let count: usize = segment.len();
    if count >= 2 && segment[1] == COLON {
        let first: u8 = segment[0];
        if (65 <= first && first <= 90) || (97 <= first && first <= 122) {
            return true;
        }
    }
    let mut at: usize = 0;
    while at < count
        invariant
            at <= count == segment@.len(),
            forall|i: int| 0 <= i < at ==> segment@[i] != BACKSLASH,
        decreases count - at,
    {
        if segment[at] == BACKSLASH {
            return true;
        }
        at = at + 1;
    }
    false
}

/// Whether a segment says no more than "stay here".
fn stays(segment: &Vec<u8>) -> (here: bool)
    ensures
        here == is_here(segment@),
{
    let count: usize = segment.len();
    count == 0 || (count == 1 && segment[0] == DOT)
}

/// Takes one step of a walk with a segment that has been read to its end.
fn close_segment(names: &mut Vec<Vec<u8>>, segment: Vec<u8>, escaped: &mut bool)
    ensures
        (if *final(escaped) {
            None
        } else {
            Some(names_view(final(names)@))
        }) == step(
            if *old(escaped) {
                None
            } else {
                Some(names_view(old(names)@))
            },
            segment@,
        ),
{
    let ghost before = names_view(names@);
    if *escaped {
        return ;
    }
    let count: usize = segment.len();
    if foreign(&segment) {
        *escaped = true;
    } else if count == 2 && segment[0] == DOT && segment[1] == DOT {
        if names.len() == 0 {
            *escaped = true;
        } else {
            names.pop();
            assert(names_view(names@) =~= before.drop_last());
        }
    } else if count == 0 || (count == 1 && segment[0] == DOT) {
    } else {
        names.push(segment);
        assert(names_view(names@) =~= before.push(segment@));
    }
}

/// Resolves `path` below the served directory: the names that lead from the
/// directory to what the path denotes, none for the directory itself. A path
/// that escapes is refused, and so is an absolute path that names anything
/// and a path with a segment that is more than a name on some systems.
pub fn resolve_bytes(path: &[u8]) -> (resolved: Result<Vec<Vec<u8>>, PathEscapeError>)
    ensures
        match contained(path@) {
            Some(names) => resolved matches Ok(found) && names_view(found@) == names,
            None => resolved is Err,
        },
{
    let total: usize = path.len();
    let mut names: Vec<Vec<u8>> = Vec::new();
    let mut current: Vec<u8> = Vec::new();
    let mut escaped: bool = false;
    let mut named: bool = false;
    let absolute: bool = total > 0 && path[0] == SEPARATOR;
    let mut at: usize = 0;
    let ghost mut closed: Seq<Seq<u8>> = Seq::empty();
    proof {
        assert(path@.take(0) =~= Seq::<u8>::empty());
        assert(segments_of(path@.take(0)) =~= closed.push(current@));
        assert(names_view(names@) =~= Seq::<Seq<u8>>::empty());
    }
    while at < total
        invariant
            at <= total == path@.len(),
            segments_of(path@.take(at as int)) == closed.push(current@),
            walk(closed) == (if escaped {
                None
            } else {
                Some(names_view(names@))
            }),
            named == names_anything(closed),
        decreases total - at,
    {
        let byte: u8 = path[at];
        proof {
            assert(path@.take(at + 1).drop_last() =~= path@.take(at as int));
            assert(closed.push(current@).drop_last() =~= closed);
        }
        if byte == SEPARATOR {
            proof {
                closed = closed.push(current@);
                assert(closed.drop_last().push(current@) =~= closed);
            }
            named = named || !stays(&current);
            close_segment(&mut names, current, &mut escaped);
            current = Vec::new();
        } else {
            current.push(byte);
        }
        at = at + 1;
    }
    proof {
        assert(path@.take(total as int) =~= path@);
        assert(closed.push(current@).drop_last() =~= closed);
    }
    named = named || !stays(&current);
    close_segment(&mut names, current, &mut escaped);
    if escaped || (absolute && named) {
        Err(PathEscapeError)
    } else {
        Ok(names)
    }
}

/// The last segment of a path is what follows its last separator, and the
/// segments before it are those of what precedes that separator. A path
/// without a separator is its own single segment.
pub proof fn lemma_last_segment(path: Seq<u8>)
    ensures
        last_start(path) <= path.len(),
        last_start(path) > 0 ==> path[last_start(path) - 1] == SEPARATOR,
        segments_of(path).len() > 0,
        segments_of(path).last() == path.skip(last_start(path) as int),
        last_start(path) == 0 ==> segments_of(path) == seq![path],
        last_start(path) > 0 ==> segments_of(path).drop_last() == segments_of(
            path.take(last_start(path) - 1),
        ),
    decreases path.len(),
{
    if path.len() == 0 {
        assert(path =~= Seq::<u8>::empty());
        assert(path.skip(0) =~= path);
    } else {
        let shorter = path.drop_last();
        let before = segments_of(shorter);
        lemma_last_segment(shorter);
        if path.last() == SEPARATOR {
            assert(path.skip(path.len() as int) =~= Seq::<u8>::empty());
            assert(before.push(Seq::empty()).drop_last() =~= before);
            assert(path.take(path.len() - 1) =~= shorter);
        } else {
            let start = last_start(shorter);
            assert(shorter.skip(start as int).push(path.last()) =~= path.skip(start as int));
            if start == 0 {
                assert(shorter.push(path.last()) =~= path);
                assert(segments_of(path) =~= seq![path]);
            } else {
                assert(segments_of(path).drop_last() =~= before.drop_last());
                assert(shorter.take(start - 1) =~= path.take(start - 1));
            }
        }
    }
}

/// In well-formed UTF-8 a character begins at every ASCII byte and right behind
/// it.
pub proof fn lemma_boundary_at_ascii(bytes: Seq<u8>, at: int)
    requires
        valid_utf8(bytes),
        0 <= at < bytes.len(),
        bytes[at] <= 0x7f,
    ensures
        is_char_boundary(bytes, at),
        is_char_boundary(bytes, at + 1),
    decreases bytes.len(),
{
    is_char_boundary_iff_not_is_continuation_byte(bytes, at);
    reveal_with_fuel(is_char_boundary, 2);
    if at > 0 {
        let first = length_of_first_scalar(bytes);
        let tail = pop_first_scalar(bytes);
        assert(is_char_boundary(tail, at - first));
        assert(at - first >= 0);
        assert(tail[at - first] == bytes[at]);
        lemma_boundary_at_ascii(tail, at - first);
    }
}

/// The segments of well-formed UTF-8 are well-formed UTF-8: cutting a text at
/// its separators cuts no character.
pub proof fn lemma_segments_valid(path: Seq<u8>)
    requires
        valid_utf8(path),
    ensures
        forall|k: int|
            0 <= k < segments_of(path).len() ==> valid_utf8(#[trigger] segments_of(path)[k]),
    decreases path.len(),
{
    let start = last_start(path) as int;
    let segments = segments_of(path);
    lemma_last_segment(path);
    if start > 0 {
        let cut = start - 1;
        lemma_boundary_at_ascii(path, cut);
        valid_utf8_split(path, cut);
        valid_utf8_split(path, start);
        assert(path.take(cut) =~= path.subrange(0, cut));
        assert(path.skip(start) =~= path.subrange(start, path.len() as int));
        lemma_segments_valid(path.take(cut));
        assert forall|k: int| 0 <= k < segments.len() implies valid_utf8(
            #[trigger] segments[k],
        ) by {
            if k < segments.len() - 1 {
                assert(segments[k] == segments.drop_last()[k]);
            } else {
                assert(segments[k] == segments.last());
            }
        }
    }
}

/// A walk along well-formed segments ends at a place named by well-formed
/// names.
pub proof fn lemma_walk_valid(segments: Seq<Seq<u8>>)
    requires
        forall|k: int| 0 <= k < segments.len() ==> valid_utf8(#[trigger] segments[k]),
    ensures
        walk(segments) matches Some(names) ==> forall|k: int|
            0 <= k < names.len() ==> valid_utf8(#[trigger] names[k]),
    decreases segments.len(),
{
    if segments.len() > 0 {
        lemma_walk_valid(segments.drop_last());
    }
}

/// Resolves a path given as text, read as its UTF-8 bytes: the names that
/// lead from the served directory to what the path denotes, as text again. A
/// path that escapes is refused.
pub fn resolve_path(path: &str) -> (resolved: Result<Vec<String>, PathEscapeError>)
    ensures
        match contained(encode_utf8(path@)) {
            Some(names) => resolved matches Ok(found) && texts_bytes(found@) == names,
            None => resolved is Err,
        },
{
    let raw: Vec<Vec<u8>> = match resolve_bytes(path.as_bytes()) {
        Ok(raw) => raw,
        Err(escape) => {
            return Err(escape);
        },
    };
    let ghost names = names_view(raw@);
    let count: usize = raw.len();
    let mut found: Vec<String> = Vec::new();
    let mut done: usize = 0;
    proof {
        encode_utf8_valid_utf8(path@);
        lemma_segments_valid(encode_utf8(path@));
        lemma_walk_valid(segments_of(encode_utf8(path@)));
        assert(texts_bytes(found@) =~= names.take(0));
    }
    while done < count
        invariant
            done <= count == raw@.len(),
            names == names_view(raw@),
            forall|k: int| 0 <= k < names.len() ==> valid_utf8(#[trigger] names[k]),
            texts_bytes(found@) == names.take(done as int),
        decreases count - done,
    {
        let ghost before = texts_bytes(found@);
        let name: Vec<u8> = slice_to_vec(raw[done].as_slice());
        proof {
            assert(name@ == names[done as int]);
            decode_utf8_encode_utf8(name@);
        }
        match text_from_utf8(name) {
            Some(text) => {
                found.push(text);
                proof {
                    assert(texts_bytes(found@) =~= before.push(names[done as int]));
                    assert(names.take(done + 1) =~= names.take(done as int).push(
                        names[done as int],
                    ));
                }
            },
            None => {
                return Err(PathEscapeError);
            },
        }
        done = done + 1;
    }
    proof {
        assert(names.take(count as int) =~= names);
    }
    Ok(found)
}

/// Names put together into one path, with a separator between each two.
pub open spec fn joined_names(names: Seq<Seq<u8>>) -> Seq<u8>
    decreases names.len(),
{
    if names.len() == 0 {
        Seq::empty()
    } else if names.len() == 1 {
        names[0]
    } else {
        joined_names(names.drop_last()) + seq![SEPARATOR] + names.last()
    }
}

/// Bytes without a separator are one segment.
pub proof fn lemma_single_segment(name: Seq<u8>)
    requires
        forall|i: int| 0 <= i < name.len() ==> name[i] != SEPARATOR,
    ensures
        segments_of(name) == seq![name],
    decreases name.len(),
{
    if name.len() == 0 {
        assert(name =~= Seq::<u8>::empty());
    } else {
        lemma_single_segment(name.drop_last());
        assert(name.drop_last().push(name.last()) =~= name);
        assert(segments_of(name) =~= seq![name]);
    }
}

/// Bytes without a separator, put behind a path and a separator, are one more
/// segment behind the segments of that path.
pub proof fn lemma_segment_behind(front: Seq<u8>, name: Seq<u8>)
    requires
        forall|i: int| 0 <= i < name.len() ==> name[i] != SEPARATOR,
    ensures
        segments_of(front + seq![SEPARATOR] + name) == segments_of(front).push(name),
    decreases name.len(),
{
    let all = front + seq![SEPARATOR] + name;
    if name.len() == 0 {
        assert(all.drop_last() =~= front);
        assert(name =~= Seq::<u8>::empty());
    } else {
        let shorter = name.drop_last();
        lemma_segment_behind(front, shorter);
        assert(all.drop_last() =~= front + seq![SEPARATOR] + shorter);
        assert(shorter.push(name.last()) =~= name);
        assert(segments_of(front).push(shorter).drop_last() =~= segments_of(front));
    }
}

/// A path put together from names begins as its first name begins.
pub proof fn lemma_joined_first(names: Seq<Seq<u8>>)
    requires
        names.len() > 0,
        names[0].len() > 0,
    ensures
        joined_names(names).len() > 0,
        joined_names(names)[0] == names[0][0],
    decreases names.len(),
{
    if names.len() > 1 {
        lemma_joined_first(names.drop_last());
    }
}

/// Names that are put together into a path are what that path resolves to: a
/// receiver reads the relative path of a file as the very names that the
/// sender made it of.
pub proof fn lemma_resolve_joined(names: Seq<Seq<u8>>)
    requires
        forall|k: int| 0 <= k < names.len() ==> is_name(#[trigger] names[k]),
    ensures
        contained(joined_names(names)) == Some(names),
    decreases names.len(),
{
    if names.len() == 0 {
        let segments = segments_of(joined_names(names));
        assert(segments =~= seq![Seq::<u8>::empty()]);
        assert(segments.drop_last() =~= Seq::<Seq<u8>>::empty());
        assert(walk(segments.drop_last()) == Some(Seq::<Seq<u8>>::empty()));
        assert(segments.last().len() == 0);
        assert(names =~= Seq::<Seq<u8>>::empty());
    } else if names.len() == 1 {
        lemma_single_segment(names[0]);
        let segments = segments_of(names[0]);
        assert(segments.drop_last() =~= Seq::<Seq<u8>>::empty());
        assert(walk(segments.drop_last()) == Some(Seq::<Seq<u8>>::empty()));
        assert(Seq::<Seq<u8>>::empty().push(names[0]) =~= names);
    } else {
        let before = names.drop_last();
        lemma_resolve_joined(before);
        lemma_joined_first(names);
        lemma_joined_first(before);
        lemma_segment_behind(joined_names(before), names.last());
        let segments = segments_of(joined_names(names));
        assert(segments.drop_last() =~= segments_of(joined_names(before)));
        assert(before.push(names.last()) =~= names);
    }
}

/// Well-formed names put together are a well-formed path.
pub proof fn lemma_joined_valid(names: Seq<Seq<u8>>)
    requires
        forall|k: int| 0 <= k < names.len() ==> valid_utf8(#[trigger] names[k]),
    ensures
        valid_utf8(joined_names(names)),
    decreases names.len(),
{
    if names.len() > 1 {
        lemma_joined_valid(names.drop_last());
        let slash = seq!['/'];
        is_ascii_chars_encode_utf8(slash);
        encode_utf8_valid_utf8(slash);
        assert(encode_utf8(slash) =~= seq![SEPARATOR]);
        valid_utf8_concat(joined_names(names.drop_last()), seq![SEPARATOR]);
        valid_utf8_concat(joined_names(names.drop_last()) + seq![SEPARATOR], names.last());
    }
}

/// Puts names together into the relative path that is sent for a file.
pub fn join_names(names: &Vec<String>) -> (path: String)
    ensures
        encode_utf8(path@) == joined_names(texts_bytes(names@)),
{
    let ghost all = texts_bytes(names@);
    let count: usize = names.len();
    let mut out: Vec<u8> = Vec::new();
    let mut done: usize = 0;
    proof {
        assert(all.take(0) =~= Seq::<Seq<u8>>::empty());
    }
    while done < count
        invariant
            done <= count == names@.len(),
            all == texts_bytes(names@),
            out@ == joined_names(all.take(done as int)),
        decreases count - done,
    {
        let ghost before = out@;
        if done > 0 {
            out.push(SEPARATOR);
        }
        put_bytes(&mut out, names[done].as_str().as_bytes());
        proof {
            let longer = all.take(done + 1);
            assert(longer.drop_last() =~= all.take(done as int));
            assert(longer.last() == all[done as int]);
            if done > 0 {
                assert(before.push(SEPARATOR) + all[done as int] =~= before + seq![SEPARATOR]
                    + all[done as int]);
            } else {
                assert(before + all[done as int] =~= all[done as int]);
            }
        }
        done = done + 1;
    }
    proof {
        assert(all.take(count as int) =~= all);
        assert forall|k: int| 0 <= k < all.len() implies valid_utf8(#[trigger] all[k]) by {
            encode_utf8_valid_utf8(names@[k]@);
        }
        lemma_joined_valid(all);
        decode_utf8_encode_utf8(out@);
    }
    match text_from_utf8(out) {
        Some(path) => path,
        None => String::new(),
    }
}

} // verus!

//! The order in which the files of a directory are sent: by relative path,
//! compared byte by byte.
//!
//! A shell lists a directory in whatever order the file system hands it out.
//! Putting the listing in this order before anything is sent makes a transfer
//! of the same directory the same sequence of files every time.

use crate::path::texts_bytes;
use vstd::prelude::*;
use vstd::relations::{sorted_by, total_ordering};
use vstd::seq_lib::{lemma_multiset_commutative, lemma_sorted_unique, to_multiset_build};
use vstd::utf8::*;

verus! {

/// Whether `a` comes no later than `b`: at the first byte in which they
/// differ `a` has the smaller one, or `a` ends where `b` goes on, or they are
/// the same.
pub open spec fn no_later(a: Seq<u8>, b: Seq<u8>) -> bool
    decreases a.len(),
{
    if a.len() == 0 {
        true
    } else if b.len() == 0 {
        false
    } else if a[0] != b[0] {
        a[0] < b[0]
    } else {
        no_later(a.drop_first(), b.drop_first())
    }
}

/// The order of paths as a relation.
pub open spec fn path_order() -> spec_fn(Seq<u8>, Seq<u8>) -> bool {
    |a: Seq<u8>, b: Seq<u8>| no_later(a, b)
}

/// Whether paths stand in order: none comes later than one behind it.
pub open spec fn in_order(paths: Seq<Seq<u8>>) -> bool {
    sorted_by(paths, path_order())
}

/// A path comes no later than itself.
pub proof fn lemma_no_later_reflexive(a: Seq<u8>)
    ensures
        no_later(a, a),
    decreases a.len(),
{
    if a.len() > 0 {
        lemma_no_later_reflexive(a.drop_first());
    }
}

/// Of two paths one comes no later than the other.
pub proof fn lemma_no_later_total(a: Seq<u8>, b: Seq<u8>)
    ensures
        no_later(a, b) || no_later(b, a),
    decreases a.len(),
{
    if a.len() > 0 && b.len() > 0 && a[0] == b[0] {
        lemma_no_later_total(a.drop_first(), b.drop_first());
    }
}

/// Paths that come no later than each other are the same path.
pub proof fn lemma_no_later_antisymmetric(a: Seq<u8>, b: Seq<u8>)
    requires
        no_later(a, b),
        no_later(b, a),
    ensures
        a == b,
    decreases a.len(),
{
    if a.len() > 0 {
        lemma_no_later_antisymmetric(a.drop_first(), b.drop_first());
        assert(a =~= seq![a[0]] + a.drop_first());
        assert(b =~= seq![b[0]] + b.drop_first());
    } else {
        assert(a =~= b);
    }
}

/// What comes no later than a path comes no later than what that path comes
/// no later than.
pub proof fn lemma_no_later_transitive(a: Seq<u8>, b: Seq<u8>, c: Seq<u8>)
    requires
        no_later(a, b),
        no_later(b, c),
    ensures
        no_later(a, c),
    decreases a.len(),
{
    if a.len() > 0 && a[0] == b[0] && b[0] == c[0] {
        lemma_no_later_transitive(a.drop_first(), b.drop_first(), c.drop_first());
    }
}

/// The order of paths is a total order.
pub proof fn lemma_path_order_total()
    ensures
        total_ordering(path_order()),
{
    let order = path_order();
    assert forall|a: Seq<u8>| #[trigger] order(a, a) by {
        lemma_no_later_reflexive(a);
    }
    assert forall|a: Seq<u8>, b: Seq<u8>| #[trigger] order(a, b) && #[trigger] order(b, a) implies a
        == b by {
        lemma_no_later_antisymmetric(a, b);
    }
    assert forall|a: Seq<u8>, b: Seq<u8>, c: Seq<u8>| #[trigger] order(a, b) && #[trigger] order(
        b,
        c,
    ) implies order(a, c) by {
        lemma_no_later_transitive(a, b, c);
    }
    assert forall|a: Seq<u8>, b: Seq<u8>| #[trigger] order(a, b) || #[trigger] order(b, a) by {
        lemma_no_later_total(a, b);
    }
}

/// The order in which files are sent does not depend on the order in which
/// they were listed: two listings of the same paths, each put in order, are the
/// same sequence.
pub proof fn lemma_order_is_determined(one: Seq<Seq<u8>>, other: Seq<Seq<u8>>)
    requires
        in_order(one),
        in_order(other),
        one.to_multiset() == other.to_multiset(),
    ensures
        one == other,
{
    lemma_path_order_total();
    lemma_sorted_unique(one, other, path_order());
}

/// A path put into an ordered listing behind all that come no later than it,
/// and in front of the first that does not, leaves the listing in order.
pub proof fn lemma_insert_keeps_order(paths: Seq<Seq<u8>>, at: int, path: Seq<u8>)
    requires
        in_order(paths),
        0 <= at <= paths.len(),
        forall|k: int| 0 <= k < at ==> no_later(#[trigger] paths[k], path),
        at < paths.len() ==> !no_later(paths[at], path),
    ensures
        in_order(paths.insert(at, path)),
{
    let longer = paths.insert(at, path);
    let order = path_order();
    paths.insert_ensures(at, path);
    assert forall|i: int, j: int| 0 <= i < j < longer.len() implies #[trigger] order(
        longer[i],
        longer[j],
    ) by {
        if j < at {
            assert(order(paths[i], paths[j]));
        } else if j == at {
            assert(no_later(paths[i], path));
        } else {
            assert(longer[j] == paths[j - 1]);
            if i < at {
                assert(order(paths[i], paths[j - 1]));
            } else if i == at {
                lemma_no_later_total(paths[at], path);
                if j - 1 > at {
                    assert(order(paths[at], paths[j - 1]));
                    lemma_no_later_transitive(path, paths[at], paths[j - 1]);
                }
            } else {
                assert(longer[i] == paths[i - 1]);
                assert(order(paths[i - 1], paths[j - 1]));
            }
        }
    }
}

/// A listing with one more path in it holds what it held, and that path.
pub proof fn lemma_insert_adds_one(paths: Seq<Seq<u8>>, at: int, path: Seq<u8>)
    requires
        0 <= at <= paths.len(),
    ensures
        paths.insert(at, path).to_multiset() == paths.to_multiset().insert(path),
{
    let front = paths.subrange(0, at);
    let back = paths.subrange(at, paths.len() as int);
    lemma_multiset_commutative(front.push(path), back);
    lemma_multiset_commutative(front, back);
    to_multiset_build(front, path);
    assert(front + back =~= paths);
    assert(paths.insert(at, path).to_multiset() =~= paths.to_multiset().insert(path));
}

/// Whether the path `a` comes no later than the path `b`.
pub fn comes_no_later(a: &str, b: &str) -> (first: bool)
    ensures
        first == no_later(encode_utf8(a@), encode_utf8(b@)),
{
    let left: &[u8] = a.as_bytes();
    let right: &[u8] = b.as_bytes();
    let short: usize = if left.len() <= right.len() {
        left.len()
    } else {
        right.len()
    };
    let mut at: usize = 0;
    proof {
        assert(left@.skip(0) =~= left@);
        assert(right@.skip(0) =~= right@);
    }
    while at < short
        invariant
            at <= short,
            short <= left@.len(),
            short <= right@.len(),
            short == left@.len() || short == right@.len(),
            left@ == encode_utf8(a@),
            right@ == encode_utf8(b@),
            no_later(left@, right@) == no_later(left@.skip(at as int), right@.skip(at as int)),
        decreases short - at,
    {
        proof {
            assert(left@.skip(at as int).drop_first() =~= left@.skip(at + 1));
            assert(right@.skip(at as int).drop_first() =~= right@.skip(at + 1));
            assert(left@.skip(at as int)[0] == left@[at as int]);
            assert(right@.skip(at as int)[0] == right@[at as int]);
        }
        if left[at] != right[at] {
            return left[at] < right[at];
        }
        at = at + 1;
    }
    at == left.len()
}

/// Puts a listing of relative paths in the order in which the files are sent.
/// No path is lost and none is added.
pub fn order_paths(paths: &Vec<String>) -> (ordered: Vec<String>)
    ensures
        in_order(texts_bytes(ordered@)),
        texts_bytes(ordered@).to_multiset() == texts_bytes(paths@).to_multiset(),
{
    let ghost all = texts_bytes(paths@);
    let count: usize = paths.len();
    let mut ordered: Vec<String> = Vec::new();
    let mut done: usize = 0;
    proof {
        assert(all.take(0) =~= texts_bytes(ordered@));
    }
    while done < count
        invariant
            done <= count == paths@.len(),
            all == texts_bytes(paths@),
            in_order(texts_bytes(ordered@)),
            texts_bytes(ordered@).to_multiset() == all.take(done as int).to_multiset(),
        decreases count - done,
    {
        let path: String = paths[done].clone();
        let ghost bytes = all[done as int];
        let ghost before = texts_bytes(ordered@);
        let held: usize = ordered.len();
        let mut at: usize = 0;
        let mut searching: bool = true;
        while searching && at < held
            invariant
                at <= held == ordered@.len(),
                before == texts_bytes(ordered@),
                bytes == encode_utf8(path@),
                forall|k: int| 0 <= k < at ==> no_later(#[trigger] before[k], bytes),
                !searching ==> at < held && !no_later(before[at as int], bytes),
            decreases held - at + (if searching { 1int } else { 0int }),
        {
            if comes_no_later(ordered[at].as_str(), path.as_str()) {
                at = at + 1;
            } else {
                searching = false;
            }
        }
        proof {
            lemma_insert_keeps_order(before, at as int, bytes);
            lemma_insert_adds_one(before, at as int, bytes);
            to_multiset_build(all.take(done as int), bytes);
            assert(all.take(done + 1) =~= all.take(done as int).push(bytes));
        }
        ordered.insert(at, path);
        proof {
            assert(texts_bytes(ordered@) =~= before.insert(at as int, bytes));
        }
        done = done + 1;
    }
    proof {
        assert(all.take(count as int) =~= all);
    }
    ordered
}

} // verus!

use vstd::prelude::*;
use vstd::relations::{sorted_by, total_ordering};
use vstd::seq_lib::{lemma_sorted_unique, to_multiset_build, to_multiset_contains, to_multiset_insert};
use crate::order::{bytes_le, lex_le, lex_lt};
use crate::order::{lemma_lex_antisymmetric, lemma_lex_reflexive, lemma_lex_total, lemma_lex_transitive};
use crate::tree::{views, TreeFile, TreeFileView};

verus! {

/// Entries in ascending byte-wise order of their names.
pub open spec fn name_sorted(files: Seq<TreeFileView>) -> bool {
    forall|i: int, j: int| 0 <= i < j < files.len() ==> lex_le(files[i].name, files[j].name)
}

/// `at` is where an entry named `name` goes into `files`: behind every
/// leading entry whose name is not after `name`, before the first whose
/// name is.
pub open spec fn is_slot(files: Seq<TreeFileView>, name: Seq<u8>, at: int) -> bool {
    &&& 0 <= at <= files.len()
    &&& forall|k: int| 0 <= k < at ==> lex_le(#[trigger] files[k].name, name)
    &&& at < files.len() ==> !lex_le(files[at].name, name)
}

/// The index of the first entry whose name is after `name`, or the length
/// where there is none.
pub open spec fn slot(files: Seq<TreeFileView>, name: Seq<u8>) -> int
    decreases files.len(),
{
    if files.len() == 0 || !lex_le(files[0].name, name) {
        0
    } else {
        1 + slot(files.drop_first(), name)
    }
}

/// `files` with `f` put at its slot.
pub open spec fn inserted(files: Seq<TreeFileView>, f: TreeFileView) -> Seq<TreeFileView> {
    files.insert(slot(files, f.name), f)
}

/// The entries sorted by name: each is put, in the order given, at its slot
/// among those before it, so entries of one name keep their order.
pub open spec fn sorted_by_name(files: Seq<TreeFileView>) -> Seq<TreeFileView>
    decreases files.len(),
{
    if files.len() == 0 {
        files
    } else {
        inserted(sorted_by_name(files.drop_last()), files.last())
    }
}

/// The slot is the one index that `is_slot` describes.
pub proof fn lemma_slot(files: Seq<TreeFileView>, name: Seq<u8>)
    ensures
        is_slot(files, name, slot(files, name)),
        forall|at: int| is_slot(files, name, at) ==> at == slot(files, name),
    decreases files.len(),
{
    if files.len() == 0 || !lex_le(files[0].name, name) {
        assert forall|at: int| is_slot(files, name, at) implies at == 0 by {
            if at > 0 {
                assert(lex_le(files[0].name, name));
            }
        }
    } else {
        let rest = files.drop_first();
        lemma_slot(rest, name);
        let at = 1 + slot(rest, name);
        assert forall|k: int| 0 <= k < at implies lex_le(#[trigger] files[k].name, name) by {
            if k > 0 {
                assert(files[k] == rest[k - 1]);
            }
        }
        if at < files.len() {
            assert(files[at] == rest[at - 1]);
        }
        assert forall|other: int| is_slot(files, name, other) implies other == at by {
            if other == 0 {
                assert(!lex_le(files[0].name, name));
            } else {
                assert forall|k: int| 0 <= k < other - 1 implies lex_le(
                    #[trigger] rest[k].name,
                    name,
                ) by {
                    assert(rest[k] == files[k + 1]);
                }
                if other - 1 < rest.len() {
                    assert(rest[other - 1] == files[other]);
                }
                assert(is_slot(rest, name, other - 1));
            }
        }
    }
}

/// Putting an entry at its slot keeps sorted entries sorted and adds the
/// entry, nothing else.
pub proof fn lemma_inserted(files: Seq<TreeFileView>, f: TreeFileView)
    requires
        name_sorted(files),
    ensures
        name_sorted(inserted(files, f)),
        inserted(files, f).to_multiset() == files.to_multiset().insert(f),
        inserted(files, f).len() == files.len() + 1,
{
    lemma_slot(files, f.name);
    let at = slot(files, f.name);
    let out = inserted(files, f);
    to_multiset_insert(files, at, f);
    assert forall|i: int, j: int| 0 <= i < j < out.len() implies lex_le(
        out[i].name,
        out[j].name,
    ) by {
        if j < at {
            assert(out[i] == files[i] && out[j] == files[j]);
        } else if j == at {
            assert(out[i] == files[i]);
        } else if i == at {
            assert(out[j] == files[j - 1]);
            lemma_lex_total(files[at].name, f.name);
            if j - 1 > at {
                lemma_lex_transitive(f.name, files[at].name, files[j - 1].name);
            }
        } else if i < at {
            assert(out[i] == files[i] && out[j] == files[j - 1]);
        } else {
            assert(out[i] == files[i - 1] && out[j] == files[j - 1]);
        }
    }
}

/// Sorting gives the same entries, in ascending order of their names.
pub proof fn lemma_sorted_by_name(files: Seq<TreeFileView>)
    ensures
        name_sorted(sorted_by_name(files)),
        sorted_by_name(files).to_multiset() == files.to_multiset(),
        sorted_by_name(files).len() == files.len(),
    decreases files.len(),
{
    if files.len() > 0 {
        lemma_sorted_by_name(files.drop_last());
        lemma_inserted(sorted_by_name(files.drop_last()), files.last());
        to_multiset_build(files.drop_last(), files.last());
        assert(files.drop_last().push(files.last()) =~= files);
    }
}

/// A total order on entries that goes by name first, then by mode, then by
/// digest. It serves to compare sorted sequences; nothing is sorted by it.
pub open spec fn entry_le(a: TreeFileView, b: TreeFileView) -> bool {
    ||| lex_lt(a.name, b.name)
    ||| (a.name == b.name && lex_lt(a.mode, b.mode))
    ||| (a.name == b.name && a.mode == b.mode && lex_le(a.sha, b.sha))
}

pub proof fn lemma_entry_le_total()
    ensures
        total_ordering(|a: TreeFileView, b: TreeFileView| entry_le(a, b)),
{
    let leq = |a: TreeFileView, b: TreeFileView| entry_le(a, b);
    assert forall|x: TreeFileView| #[trigger] leq(x, x) by {
        lemma_lex_reflexive(x.sha);
    }
    assert forall|x: TreeFileView, y: TreeFileView| #[trigger] leq(x, y) && #[trigger] leq(
        y,
        x,
    ) implies x == y by {
        if lex_le(x.name, y.name) && lex_le(y.name, x.name) {
            lemma_lex_antisymmetric(x.name, y.name);
        }
        if lex_le(x.mode, y.mode) && lex_le(y.mode, x.mode) {
            lemma_lex_antisymmetric(x.mode, y.mode);
        }
        if lex_le(x.sha, y.sha) && lex_le(y.sha, x.sha) {
            lemma_lex_antisymmetric(x.sha, y.sha);
        }
    }
    assert forall|x: TreeFileView, y: TreeFileView, z: TreeFileView| #[trigger]
        leq(x, y) && #[trigger] leq(y, z) implies leq(x, z) by {
        if lex_le(x.name, y.name) && lex_le(y.name, z.name) {
            lemma_lex_transitive(x.name, y.name, z.name);
            if x.name == z.name {
                lemma_lex_antisymmetric(x.name, y.name);
            }
        }
        if x.name == y.name && y.name == z.name {
            if lex_le(x.mode, y.mode) && lex_le(y.mode, z.mode) {
                lemma_lex_transitive(x.mode, y.mode, z.mode);
                if x.mode == z.mode {
                    lemma_lex_antisymmetric(x.mode, y.mode);
                }
            }
            if x.mode == y.mode && y.mode == z.mode {
                lemma_lex_transitive(x.sha, y.sha, z.sha);
            }
        }
    }
    assert forall|x: TreeFileView, y: TreeFileView| #[trigger] leq(x, y) || #[trigger] leq(
        y,
        x,
    ) by {
        lemma_lex_total(x.name, y.name);
        lemma_lex_total(x.mode, y.mode);
        lemma_lex_total(x.sha, y.sha);
    }
}

/// No two different entries bear one name.
pub open spec fn names_decide(files: Seq<TreeFileView>) -> bool {
    forall|i: int, j: int|
        0 <= i < files.len() && 0 <= j < files.len() && files[i].name == files[j].name
            ==> files[i] == files[j]
}

/// Entries sorted by name, all drawn from a sequence in which names decide,
/// are sorted by the total order too.
proof fn lemma_name_sorted_is_total_sorted(sorted: Seq<TreeFileView>, from: Seq<TreeFileView>)
    requires
        name_sorted(sorted),
        names_decide(from),
        sorted.to_multiset() == from.to_multiset(),
    ensures
        sorted_by(sorted, |a: TreeFileView, b: TreeFileView| entry_le(a, b)),
{
    let leq = |a: TreeFileView, b: TreeFileView| entry_le(a, b);
    assert forall|i: int, j: int| 0 <= i < j < sorted.len() implies #[trigger] leq(
        sorted[i],
        sorted[j],
    ) by {
        assert(lex_le(sorted[i].name, sorted[j].name));
        if sorted[i].name == sorted[j].name {
            assert(sorted.contains(sorted[i]));
            assert(sorted.contains(sorted[j]));
            to_multiset_contains(sorted, sorted[i]);
            to_multiset_contains(sorted, sorted[j]);
            to_multiset_contains(from, sorted[i]);
            to_multiset_contains(from, sorted[j]);
            let p = choose|p: int| 0 <= p < from.len() && from[p] == sorted[i];
            let q = choose|q: int| 0 <= q < from.len() && from[q] == sorted[j];
            assert(from[p] == from[q]);
            lemma_lex_reflexive(sorted[i].sha);
        }
    }
}

/// The order in which entries are given does not show once they are
/// sorted: two sequences holding the same entries, no two different ones
/// under one name, sort to the same sequence.
pub proof fn lemma_sort_ignores_order(a: Seq<TreeFileView>, b: Seq<TreeFileView>)
    requires
        a.to_multiset() == b.to_multiset(),
        names_decide(a),
    ensures
        sorted_by_name(a) == sorted_by_name(b),
{
    lemma_sorted_by_name(a);
    lemma_sorted_by_name(b);
    lemma_name_sorted_is_total_sorted(sorted_by_name(a), a);
    lemma_name_sorted_is_total_sorted(sorted_by_name(b), a);
    lemma_entry_le_total();
    lemma_sorted_unique(
        sorted_by_name(a),
        sorted_by_name(b),
        |a: TreeFileView, b: TreeFileView| entry_le(a, b),
    );
}

/// Puts the entries in ascending byte-wise order of their names.
pub fn sort_by_name(files: &mut Vec<TreeFile>)
    ensures
        views(final(files)@) == sorted_by_name(views(old(files)@)),
{
    let ghost given = views(files@);
    let mut i: usize = 0;
    assert(views(files@).subrange(0, 0) =~= sorted_by_name(given.subrange(0, 0)));
    while i < files.len()
        invariant
            i <= files.len(),
            files@.len() == given.len(),
            views(files@).subrange(0, i as int) == sorted_by_name(given.subrange(0, i as int)),
            views(files@).subrange(i as int, given.len() as int) == given.subrange(
                i as int,
                given.len() as int,
            ),
        decreases files.len() - i,
    {
        let ghost before = views(files@);
        let ghost head = before.subrange(0, i as int);
        let ghost f = before[i as int];
        assert(f == given[i as int]) by {
            assert(before.subrange(i as int, given.len() as int)[0] == f);
        }
        let mut at: usize = 0;
        while at < i && bytes_le(files[at].name.as_slice(), files[i].name.as_slice())
            invariant
                at <= i < files.len(),
                views(files@) == before,
                head == before.subrange(0, i as int),
                f == before[i as int],
                forall|k: int| 0 <= k < at ==> lex_le(#[trigger] head[k].name, f.name),
            decreases i - at,
        {
            assert(head[at as int] == before[at as int]);
            assert(before[at as int] == files@[at as int]@);
            assert(before[i as int] == files@[i as int]@);
            at += 1;
        }
        proof {
            if at < i {
                assert(head[at as int] == before[at as int]);
                assert(before[at as int] == files@[at as int]@);
                assert(before[i as int] == files@[i as int]@);
            }
            assert(is_slot(head, f.name, at as int));
            lemma_slot(head, f.name);
        }
        let file = files.remove(i);
        files.insert(at, file);
        proof {
            let now = views(files@);
            assert(now =~= before.remove(i as int).insert(at as int, f));
            assert(now.subrange(0, i + 1) =~= head.insert(at as int, f));
            assert(given.subrange(0, i + 1).drop_last() =~= given.subrange(0, i as int));
            assert(given.subrange(0, i + 1).last() == f);
            assert(now.subrange(i + 1, given.len() as int) =~= given.subrange(
                i + 1,
                given.len() as int,
            )) by {
                assert forall|k: int| i < k < given.len() implies #[trigger] now[k] == given[k] by {
                    assert(before.subrange(i as int, given.len() as int)[k - i] == given.subrange(
                        i as int,
                        given.len() as int,
                    )[k - i]);
                }
            }
        }
        i += 1;
    }
    assert(views(files@).subrange(0, given.len() as int) =~= views(files@));
    assert(given.subrange(0, given.len() as int) =~= given);
}

} // verus!

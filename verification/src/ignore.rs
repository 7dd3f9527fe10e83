use vstd::prelude::*;
use vstd::slice::*;
use vstd::utf8::valid_utf8;
use crate::bytes::{bytes_eq, copy_range, find_byte, is_continuation, is_utf8, position};
use crate::bytes::lemma_position_facts;
use crate::error::GitError;
use crate::locate::{encloses, metadata_dir, metadata_name, RepoPath};

verus! {

/// ASCII line feed, which ends a line of the ignore file.
pub const NEWLINE: u8 = 10;

/// ASCII `#`, which starts a comment.
pub const HASH: u8 = 35;

/// ASCII `*`, which marks a glob pattern.
pub const STAR: u8 = 42;

/// Where the character that ends just before `end` starts.
pub open spec fn last_char_start(s: Seq<u8>, end: int) -> int
    decreases end,
{
    if end <= 0 {
        0
    } else if !is_continuation(s[end - 1]) {
        end - 1
    } else {
        last_char_start(s, end - 1)
    }
}

/// The lines of a text: what stands between its line feeds.
pub open spec fn lines(text: Seq<u8>) -> Seq<Seq<u8>>
    decreases text.len(),
    via lines_decreases
{
    match position(text, NEWLINE) {
        None => seq![text],
        Some(n) => seq![text.subrange(0, n)] + lines(text.subrange(n + 1, text.len() as int)),
    }
}

#[via_fn]
proof fn lines_decreases(text: Seq<u8>) {
    lemma_position_facts(text, NEWLINE);
}

/// The pattern that one line of the ignore file gives. An empty line and a
/// line that starts with `#` give none. A line with a `#` further on is cut
/// before the character that precedes the `#`. A line that then still holds
/// a `*` gives none.
pub open spec fn pattern_of(line: Seq<u8>) -> Option<Seq<u8>> {
    if line.len() == 0 || line[0] == HASH {
        None
    } else {
        let kept = match position(line, HASH) {
            Some(h) => line.subrange(0, last_char_start(line, h)),
            None => line,
        };
        if kept.contains(STAR) {
            None
        } else {
            Some(kept)
        }
    }
}

/// The patterns that lines give, in the order of the lines.
pub open spec fn collected(ls: Seq<Seq<u8>>) -> Seq<Seq<u8>>
    decreases ls.len(),
{
    if ls.len() == 0 {
        Seq::<Seq<u8>>::empty()
    } else {
        match pattern_of(ls[0]) {
            Some(p) => seq![p] + collected(ls.drop_first()),
            None => collected(ls.drop_first()),
        }
    }
}

/// The patterns of an ignore file.
pub open spec fn patterns_of(text: Seq<u8>) -> Seq<Seq<u8>> {
    collected(lines(text))
}

/// A line to be taken as it stands: not empty, without `#` and without `*`.
pub open spec fn verbatim(line: Seq<u8>) -> bool {
    &&& line.len() > 0
    &&& !line.contains(HASH)
    &&& !line.contains(STAR)
}

/// A verbatim line among the lines is among the patterns, unchanged.
pub proof fn lemma_verbatim_line_kept(ls: Seq<Seq<u8>>, line: Seq<u8>)
    requires
        ls.contains(line),
        verbatim(line),
    ensures
        collected(ls).contains(line),
    decreases ls.len(),
{
    let i = choose|i: int| 0 <= i < ls.len() && ls[i] == line;
    let rest = collected(ls.drop_first());
    if i == 0 {
        lemma_position_facts(line, HASH);
        assert(line[0] != HASH);
        assert(pattern_of(line) == Some(line));
        assert((seq![line] + rest)[0] == line);
    } else {
        assert(ls.drop_first()[i - 1] == line);
        lemma_verbatim_line_kept(ls.drop_first(), line);
        let k = choose|k: int| 0 <= k < rest.len() && rest[k] == line;
        match pattern_of(ls[0]) {
            Some(p) => {
                assert((seq![p] + rest)[k + 1] == line);
            },
            None => {},
        }
    }
}

/// The pattern that one line gives.
pub fn line_pattern(line: &[u8]) -> (r: Option<Vec<u8>>)
    ensures
        match r {
            Some(p) => pattern_of(line@) == Some(p@),
            None => pattern_of(line@) is None,
        },
{
    if line.len() == 0 || line[0] == HASH {
        return None;
    }
    let end: usize = match find_byte(line, HASH) {
        Some(h) => {
            proof {
                lemma_position_facts(line@, HASH);
            }
            let mut k: usize = h;
            while k > 0 && line[k - 1] >= 128 && line[k - 1] < 192
                invariant
                    k <= h < line.len(),
                    last_char_start(line@, h as int) == last_char_start(line@, k as int),
                decreases k,
            {
                k -= 1;
            }
            if k > 0 {
                k - 1
            } else {
                0
            }
        },
        None => line.len(),
    };
    let kept = copy_range(line, 0, end);
    proof {
        if position(line@, HASH) is None {
            assert(kept@ =~= line@);
        }
    }
    match find_byte(kept.as_slice(), STAR) {
        Some(i) => {
            proof {
                lemma_position_facts(kept@, STAR);
            }
            None
        },
        None => {
            proof {
                lemma_position_facts(kept@, STAR);
            }
            Some(kept)
        },
    }
}

/// The byte strings of a vector as mathematical values.
pub open spec fn texts(v: Seq<Vec<u8>>) -> Seq<Seq<u8>> {
    v.map_values(|t: Vec<u8>| t@)
}

/// Reads the patterns of an ignore file. The file must be UTF-8 text.
pub fn ignore_patterns(text: &[u8]) -> (r: Result<Vec<Vec<u8>>, GitError>)
    ensures
        match r {
            Ok(found) => valid_utf8(text@) && texts(found@) == patterns_of(text@),
            Err(e) => e == GitError::UnsupportedContent && !valid_utf8(text@),
        },
{
    if !is_utf8(text) {
        return Err(GitError::UnsupportedContent);
    }
    let mut found: Vec<Vec<u8>> = Vec::new();
    let mut off: usize = 0;
    let end = text.len();
    assert(text@.subrange(0, end as int) =~= text@);
    assert(texts(found@) + patterns_of(text@) =~= patterns_of(text@));
    loop
        invariant
            off <= end,
            end == text@.len(),
            valid_utf8(text@),
            patterns_of(text@) == texts(found@) + patterns_of(text@.subrange(off as int, end as int)),
        decreases end - off,
    {
        let rest = slice_subrange(text, off, end);
        let ghost before = texts(found@);
        match find_byte(rest, NEWLINE) {
            Some(n) => {
                proof {
                    lemma_position_facts(rest@, NEWLINE);
                }
                let ghost first = rest@.subrange(0, n as int);
                let ghost tail = rest@.subrange(n + 1, rest@.len() as int);
                assert(tail =~= text@.subrange(off + n + 1, end as int));
                assert((seq![first] + lines(tail)).drop_first() =~= lines(tail));
                match line_pattern(slice_subrange(rest, 0, n)) {
                    Some(p) => {
                        found.push(p);
                        assert(texts(found@) =~= before.push(p@));
                        assert(before + (seq![p@] + patterns_of(tail)) =~= before.push(p@)
                            + patterns_of(tail));
                    },
                    None => {},
                }
                off = off + n + 1;
            },
            None => {
                assert(lines(rest@).drop_first() =~= Seq::<Seq<u8>>::empty());
                assert(collected(lines(rest@).drop_first()) =~= Seq::<Seq<u8>>::empty());
                match line_pattern(rest) {
                    Some(p) => {
                        found.push(p);
                        assert(texts(found@) =~= before.push(p@));
                        assert(before + (seq![p@] + Seq::<Seq<u8>>::empty()) =~= before.push(p@));
                    },
                    None => {
                        assert(before + Seq::<Seq<u8>>::empty() =~= before);
                    },
                }
                return Ok(found);
            },
        }
    }
}

/// The paths of a vector as mathematical values.
pub open spec fn paths(v: Seq<RepoPath>) -> Seq<Seq<Seq<u8>>> {
    v.map_values(|p: RepoPath| p@)
}

/// Whether an entry is left out of a tree: it is the metadata directory by
/// its name, or it lies at or under one of the patterns.
pub open spec fn ignored(name: Seq<u8>, candidate: Seq<Seq<u8>>, patterns: Seq<Seq<Seq<u8>>>) -> bool {
    name == metadata_name() || exists|i: int|
        0 <= i < patterns.len() && encloses(#[trigger] patterns[i], candidate)
}

/// Whether `root` is `dir` or an ancestor of it.
pub fn starts_with(dir: &RepoPath, root: &RepoPath) -> (r: bool)
    ensures
        r == encloses(root@, dir@),
{
    if root.parts.len() > dir.parts.len() {
        return false;
    }
    let mut i: usize = 0;
    while i < root.parts.len()
        invariant
            i <= root.parts.len() <= dir.parts.len(),
            forall|j: int| 0 <= j < i ==> dir@[j] == root@[j],
        decreases root.parts.len() - i,
    {
        if !bytes_eq(dir.parts[i].as_slice(), root.parts[i].as_slice()) {
            assert(dir@.subrange(0, root@.len() as int)[i as int] != root@[i as int]);
            return false;
        }
        i += 1;
    }
    assert(dir@.subrange(0, root@.len() as int) =~= root@);
    true
}

/// Whether the entry named `name`, whose canonical path is `candidate`, is
/// left out of a tree under the given patterns.
pub fn should_ignore(name: &[u8], candidate: &RepoPath, patterns: &Vec<RepoPath>) -> (r: bool)
    ensures
        r == ignored(name@, candidate@, paths(patterns@)),
{
    let marker = metadata_dir();
    if bytes_eq(name, marker.as_slice()) {
        return true;
    }
    let mut i: usize = 0;
    while i < patterns.len()
        invariant
            i <= patterns.len(),
            forall|j: int| 0 <= j < i ==> !encloses(#[trigger] paths(patterns@)[j], candidate@),
        decreases patterns.len() - i,
    {
        if starts_with(candidate, &patterns[i]) {
            assert(encloses(paths(patterns@)[i as int], candidate@));
            return true;
        }
        i += 1;
    }
    false
}

/// One child of a directory offered to a tree: its name and its canonical
/// path.
#[derive(Clone, Debug)]
pub struct Listed {
    pub name: Vec<u8>,
    pub path: RepoPath,
}

/// A listed child as a mathematical value.
pub struct ListedView {
    pub name: Seq<u8>,
    pub path: Seq<Seq<u8>>,
}

impl View for Listed {
    type V = ListedView;

    open spec fn view(&self) -> ListedView {
        ListedView { name: self.name@, path: self.path@ }
    }
}

/// The children of a vector as mathematical values.
pub open spec fn listed(v: Seq<Listed>) -> Seq<ListedView> {
    v.map_values(|c: Listed| c@)
}

/// The children that go into a tree: those that are not ignored, in the
/// order of the listing.
pub open spec fn unignored(
    children: Seq<ListedView>,
    patterns: Seq<Seq<Seq<u8>>>,
) -> Seq<ListedView>
    decreases children.len(),
{
    if children.len() == 0 {
        children
    } else {
        let before = unignored(children.drop_last(), patterns);
        if ignored(children.last().name, children.last().path, patterns) {
            before
        } else {
            before.push(children.last())
        }
    }
}

/// What lies at or under a path that a pattern encloses is ignored, however
/// deep it lies and whatever its name.
pub proof fn lemma_ignored_at_any_depth(
    name: Seq<u8>,
    at: Seq<Seq<u8>>,
    below: Seq<Seq<u8>>,
    patterns: Seq<Seq<Seq<u8>>>,
    i: int,
)
    requires
        0 <= i < patterns.len(),
        encloses(patterns[i], at),
        encloses(at, below),
    ensures
        ignored(name, below, patterns),
{
    assert(below.subrange(0, patterns[i].len() as int) =~= at.subrange(
        0,
        patterns[i].len() as int,
    ));
    assert(encloses(patterns[i], below));
}

/// The children that go into a tree are the listed ones that are not
/// ignored: none of them is ignored, and none that is not ignored is left
/// out.
pub proof fn lemma_unignored(children: Seq<ListedView>, patterns: Seq<Seq<Seq<u8>>>)
    ensures
        forall|c: ListedView|
            #![trigger unignored(children, patterns).contains(c)]
            #![trigger children.contains(c)]
            unignored(children, patterns).contains(c) <==> children.contains(c) && !ignored(
                c.name,
                c.path,
                patterns,
            ),
    decreases children.len(),
{
    let out = unignored(children, patterns);
    if children.len() > 0 {
        let head = children.drop_last();
        let last = children.last();
        let before = unignored(head, patterns);
        lemma_unignored(head, patterns);
        assert forall|c: ListedView|
            #![trigger out.contains(c)]
            #![trigger children.contains(c)]
            out.contains(c) <==> children.contains(c) && !ignored(
            c.name,
            c.path,
            patterns,
        ) by {
            if out.contains(c) {
                let j = choose|j: int| 0 <= j < out.len() && out[j] == c;
                if j < before.len() {
                    assert(before[j] == c);
                    assert(before.contains(c));
                    assert(head.contains(c));
                    let k = choose|k: int| 0 <= k < head.len() && head[k] == c;
                    assert(children[k] == c);
                } else {
                    assert(c == last);
                    assert(children[children.len() - 1] == c);
                }
            }
            if children.contains(c) && !ignored(c.name, c.path, patterns) {
                let k = choose|k: int| 0 <= k < children.len() && children[k] == c;
                if k < head.len() {
                    assert(head[k] == c);
                    assert(head.contains(c));
                    assert(before.contains(c));
                    let j = choose|j: int| 0 <= j < before.len() && before[j] == c;
                    assert(out[j] == c);
                } else {
                    assert(out[out.len() - 1] == c);
                }
            }
        }
    }
}

/// Drops the ignored children from the listing of a directory and keeps
/// the others in their order.
pub fn retain_unignored(children: &mut Vec<Listed>, patterns: &Vec<RepoPath>)
    ensures
        listed(final(children)@) == unignored(listed(old(children)@), paths(patterns@)),
{
    let ghost given = listed(children@);
    let ghost pats = paths(patterns@);
    let ghost mut k: int = 0;
    let mut i: usize = 0;
    assert(listed(children@).subrange(0, 0) =~= unignored(given.subrange(0, 0), pats));
    assert(given.subrange(0, given.len() as int) =~= given);
    while i < children.len()
        invariant
            i <= children.len(),
            0 <= k <= given.len(),
            children@.len() - i == given.len() - k,
            pats == paths(patterns@),
            listed(children@).subrange(0, i as int) == unignored(given.subrange(0, k), pats),
            listed(children@).subrange(i as int, children@.len() as int) == given.subrange(
                k,
                given.len() as int,
            ),
        decreases children.len() - i,
    {
        let ghost now = listed(children@);
        let ghost c = now[i as int];
        assert(c == given[k]) by {
            assert(now.subrange(i as int, now.len() as int)[0] == c);
        }
        assert(given.subrange(0, k + 1).drop_last() =~= given.subrange(0, k));
        assert(given.subrange(0, k + 1).last() == c);
        assert(children@[i as int]@ == c);
        if should_ignore(children[i].name.as_slice(), &children[i].path, patterns) {
            children.remove(i);
            proof {
                let then = listed(children@);
                assert(then =~= now.remove(i as int));
                assert(then.subrange(0, i as int) =~= now.subrange(0, i as int));
                assert(then.subrange(i as int, then.len() as int) =~= given.subrange(
                    k + 1,
                    given.len() as int,
                )) by {
                    assert forall|j: int| i <= j < then.len() implies #[trigger] then[j] == given[k
                        + 1 + j - i] by {
                        assert(now.subrange(i as int, now.len() as int)[j + 1 - i] == given.subrange(
                            k,
                            given.len() as int,
                        )[j + 1 - i]);
                    }
                }
            }
        } else {
            proof {
                assert(now.subrange(0, i + 1) =~= now.subrange(0, i as int).push(c));
                assert(now.subrange(i + 1, now.len() as int) =~= given.subrange(
                    k + 1,
                    given.len() as int,
                )) by {
                    assert forall|j: int| i + 1 <= j < now.len() implies #[trigger] now[j] == given[k
                        + j - i] by {
                        assert(now.subrange(i as int, now.len() as int)[j - i] == given.subrange(
                            k,
                            given.len() as int,
                        )[j - i]);
                    }
                }
            }
            i += 1;
        }
        proof {
            k = k + 1;
        }
    }
    assert(listed(children@).subrange(0, children@.len() as int) =~= listed(children@));
    assert(given.subrange(0, k) =~= given);
}

} // verus!

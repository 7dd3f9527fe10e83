use vstd::prelude::*;

verus! {

/// The terminator of an object header and of a tree record header.
pub const NUL: u8 = 0;

/// The separator inside a header.
pub const SPACE: u8 = 32;

/// A byte inside a UTF-8 character, after its first byte.
pub open spec fn is_continuation(b: u8) -> bool {
    128 <= b < 192
}

/// `i` is the least index at which `s` holds `b`.
pub open spec fn is_first(s: Seq<u8>, b: u8, i: int) -> bool {
    &&& 0 <= i < s.len()
    &&& s[i] == b
    &&& forall|j: int| 0 <= j < i ==> s[j] != b
}

/// The least index at which `s` holds `b`, if it holds `b` at all.
pub open spec fn position(s: Seq<u8>, b: u8) -> Option<int> {
    if exists|i: int| is_first(s, b, i) {
        Some(choose|i: int| is_first(s, b, i))
    } else {
        None
    }
}

/// A first occurrence is the only one that `position` can name.
pub proof fn lemma_position_is(s: Seq<u8>, b: u8, i: int)
    requires
        is_first(s, b, i),
    ensures
        position(s, b) == Some(i),
{
    let c = choose|c: int| is_first(s, b, c);
    assert(is_first(s, b, c));
    if c < i {
        assert(s[c] != b);
    } else if i < c {
        assert(s[i] != b);
    }
}

/// Without an occurrence `position` names none.
pub proof fn lemma_position_none(s: Seq<u8>, b: u8)
    requires
        forall|j: int| 0 <= j < s.len() ==> s[j] != b,
    ensures
        position(s, b) is None,
{
    if exists|i: int| is_first(s, b, i) {
        let c = choose|c: int| is_first(s, b, c);
        assert(s[c] != b);
    }
}

/// What `position` answers, spelled out.
pub proof fn lemma_position_facts(s: Seq<u8>, b: u8)
    ensures
        match position(s, b) {
            Some(i) => is_first(s, b, i),
            None => forall|j: int| 0 <= j < s.len() ==> s[j] != b,
        },
{
    if exists|i: int| is_first(s, b, i) {
    } else {
        assert forall|j: int| 0 <= j < s.len() implies s[j] != b by {
            if s[j] == b {
                lemma_least_occurrence(s, b, j);
            }
        }
    }
}

/// An occurrence at `j` gives a first occurrence at or before `j`.
pub proof fn lemma_least_occurrence(s: Seq<u8>, b: u8, j: int)
    requires
        0 <= j < s.len(),
        s[j] == b,
    ensures
        exists|i: int| is_first(s, b, i) && i <= j,
    decreases j,
{
    if exists|k: int| 0 <= k < j && s[k] == b {
        let k = choose|k: int| 0 <= k < j && s[k] == b;
        lemma_least_occurrence(s, b, k);
        let i = choose|i: int| is_first(s, b, i) && i <= k;
        assert(is_first(s, b, i) && i <= j);
    } else {
        assert(is_first(s, b, j));
    }
}

/// `core::str::from_utf8`: succeeds exactly on well-formed UTF-8, so the
/// answer is whether `s` is UTF-8 text.
#[verifier::external_body]
pub(crate) fn is_utf8(s: &[u8]) -> (r: bool)
    ensures
        r == vstd::utf8::valid_utf8(s@),
{
    match core::str::from_utf8(s) {
        Ok(_) => true,
        Err(_) => false,
    }
}

/// The index of the first `b` in `s`.
pub fn find_byte(s: &[u8], b: u8) -> (r: Option<usize>)
    ensures
        match r {
            Some(i) => position(s@, b) == Some(i as int),
            None => position(s@, b) is None,
        },
{
    let mut i: usize = 0;
    while i < s.len()
        invariant
            i <= s.len(),
            forall|j: int| 0 <= j < i ==> s@[j] != b,
        decreases s.len() - i,
    {
        if s[i] == b {
            proof {
                lemma_position_is(s@, b, i as int);
            }
            return Some(i);
        }
        i += 1;
    }
    proof {
        lemma_position_none(s@, b);
    }
    None
}

/// A copy of `s[from..to]`.
pub fn copy_range(s: &[u8], from: usize, to: usize) -> (r: Vec<u8>)
    requires
        from <= to <= s.len(),
    ensures
        r@ == s@.subrange(from as int, to as int),
{
    let mut r: Vec<u8> = Vec::new();
    let mut i: usize = from;
    while i < to
        invariant
            from <= i <= to <= s.len(),
            r@ == s@.subrange(from as int, i as int),
        decreases to - i,
    {
        r.push(s[i]);
        i += 1;
        assert(r@ =~= s@.subrange(from as int, i as int));
    }
    r
}

/// Appends `tail` to `out`.
pub fn append_bytes(out: &mut Vec<u8>, tail: &[u8])
    ensures
        final(out)@ == old(out)@ + tail@,
{
    let mut i: usize = 0;
    while i < tail.len()
        invariant
            i <= tail.len(),
            out@ == old(out)@ + tail@.subrange(0, i as int),
        decreases tail.len() - i,
    {
        out.push(tail[i]);
        i += 1;
        assert(out@ =~= old(out)@ + tail@.subrange(0, i as int));
    }
    assert(tail@.subrange(0, tail@.len() as int) =~= tail@);
}

/// Whether two byte strings are the same.
pub fn bytes_eq(a: &[u8], b: &[u8]) -> (r: bool)
    ensures
        r == (a@ == b@),
{
    if a.len() != b.len() {
        return false;
    }
    let mut i: usize = 0;
    while i < a.len()
        invariant
            i <= a.len(),
            a.len() == b.len(),
            forall|j: int| 0 <= j < i ==> a@[j] == b@[j],
        decreases a.len() - i,
    {
        if a[i] != b[i] {
            return false;
        }
        i += 1;
    }
    assert(a@ =~= b@);
    true
}

} // verus!

//! Paths as raw bytes, with `/` between components.
//!
//! Only the two operations the index needs are here: taking the final
//! component of a path and putting a name behind a directory.

use vstd::prelude::*;

verus! {

/// The byte that separates components.
pub const SEPARATOR: u8 = 47;

/// The byte of a dot.
pub const DOT: u8 = 46;

/// `path` without what may follow its final component: separators, and
/// components that are a single dot.
pub open spec fn trimmed(path: Seq<u8>) -> Seq<u8>
    decreases path.len(),
{
    if path.len() > 0 && path.last() == SEPARATOR {
        trimmed(path.drop_last())
    } else if path.len() >= 2 && path.last() == DOT && path[path.len() - 2] == SEPARATOR {
        trimmed(path.drop_last())
    } else {
        path
    }
}

/// What stands behind the last separator of `path`, or all of it where it
/// holds none.
pub open spec fn last_segment(path: Seq<u8>) -> Seq<u8>
    decreases path.len(),
{
    if path.len() == 0 || path.last() == SEPARATOR {
        Seq::empty()
    } else {
        last_segment(path.drop_last()).push(path.last())
    }
}

/// Whether a segment names an entry: it is not empty, not `.` and not `..`.
pub open spec fn names_entry(segment: Seq<u8>) -> bool {
    &&& segment.len() > 0
    &&& segment != seq![DOT]
    &&& segment != seq![DOT, DOT]
}

/// The final component of `path`: the last segment of what is left after
/// trimming, provided it names an entry.
///
/// `/usr/bin/` and `/usr/bin/.` end in `bin`; `/`, `..`, `a/..` and the
/// empty path have no final component.
pub open spec fn file_name_of(path: Seq<u8>) -> Option<Seq<u8>> {
    let segment = last_segment(trimmed(path));
    if names_entry(segment) {
        Some(segment)
    } else {
        None
    }
}

/// Whether `name` can stand for one directory entry: it names an entry and
/// holds no separator.
pub open spec fn is_entry_name(name: Seq<u8>) -> bool {
    &&& names_entry(name)
    &&& forall|i: int| 0 <= i < name.len() ==> name[i] != SEPARATOR
}

/// `name` put behind `base`. An absolute `name` replaces `base`; otherwise
/// one separator is put between the two unless `base` is empty or already
/// ends in one.
pub open spec fn joined(base: Seq<u8>, name: Seq<u8>) -> Seq<u8> {
    if name.len() > 0 && name[0] == SEPARATOR {
        name
    } else if base.len() == 0 || base.last() == SEPARATOR {
        base + name
    } else {
        base.push(SEPARATOR) + name
    }
}

/// Copies `bytes[from..to]` into a vector of its own.
fn copy_range(bytes: &[u8], from: usize, to: usize) -> (out: Vec<u8>)
    requires
        from <= to <= bytes@.len(),
    ensures
        out@ == bytes@.subrange(from as int, to as int),
{
    let mut out: Vec<u8> = Vec::new();
    let mut i: usize = from;
    while i < to
        invariant
            from <= i <= to <= bytes@.len(),
            out@ == bytes@.subrange(from as int, i as int),
        decreases to - i,
    {
        out.push(bytes[i]);
        i += 1;
        assert(out@ =~= bytes@.subrange(from as int, i as int));
    }
    out
}

/// Trimming looks only at the end of a path, and what it leaves is a prefix.
proof fn lemma_trimmed_step(path: Seq<u8>, end: int)
    requires
        0 < end <= path.len(),
        path[end - 1] == SEPARATOR || (end >= 2 && path[end - 1] == DOT && path[end - 2]
            == SEPARATOR),
    ensures
        trimmed(path.take(end)) == trimmed(path.take(end - 1)),
{
    assert(path.take(end).drop_last() =~= path.take(end - 1));
}

/// The segment behind the last separator grows by one byte at a time.
proof fn lemma_last_segment_split(path: Seq<u8>, start: int)
    requires
        0 <= start <= path.len(),
        forall|i: int| start <= i < path.len() ==> path[i] != SEPARATOR,
    ensures
        last_segment(path) == last_segment(path.take(start)) + path.skip(start),
    decreases path.len() - start,
{
    if start == path.len() {
        assert(path.take(start) =~= path);
        assert(last_segment(path.take(start)) + path.skip(start) =~= last_segment(path));
    } else {
        let shorter = path.drop_last();
        lemma_last_segment_split(shorter, start);
        assert(shorter.take(start) =~= path.take(start));
        assert(shorter.skip(start).push(path.last()) =~= path.skip(start));
        assert(last_segment(path) =~= last_segment(path.take(start)) + path.skip(start));
    }
}

/// The final component of `path`, or `None` where it has none.
pub fn file_name(path: &[u8]) -> (name: Option<Vec<u8>>)
    ensures
        name is Some == file_name_of(path@) is Some,
        name matches Some(n) ==> Some(n@) == file_name_of(path@),
{
    let mut end: usize = path.len();
    assert(path@.take(end as int) =~= path@);
    while end > 0 && (path[end - 1] == SEPARATOR || (end >= 2 && path[end - 1] == DOT && path[end
        - 2] == SEPARATOR))
        invariant
            end <= path@.len(),
            trimmed(path@) == trimmed(path@.take(end as int)),
        decreases end,
    {
        proof {
            lemma_trimmed_step(path@, end as int);
        }
        end -= 1;
    }
    let ghost kept = path@.take(end as int);
    assert(trimmed(kept) == kept);
    let mut start: usize = end;
    while start > 0 && path[start - 1] != SEPARATOR
        invariant
            start <= end <= path@.len(),
            kept == path@.take(end as int),
            forall|i: int| start <= i < end ==> path@[i] != SEPARATOR,
        decreases start,
    {
        start -= 1;
    }
    proof {
        lemma_last_segment_split(kept, start as int);
        assert(last_segment(kept.take(start as int)) =~= Seq::<u8>::empty());
        assert(kept.skip(start as int) =~= path@.subrange(start as int, end as int));
        assert(last_segment(kept) =~= path@.subrange(start as int, end as int));
    }
    let len: usize = end - start;
    if len == 0 {
        return None;
    }
    if len == 1 && path[start] == DOT {
        assert(path@.subrange(start as int, end as int) =~= seq![DOT]);
        return None;
    }
    if len == 2 && path[start] == DOT && path[start + 1] == DOT {
        assert(path@.subrange(start as int, end as int) =~= seq![DOT, DOT]);
        return None;
    }
    let name = copy_range(path, start, end);
    proof {
        let segment = path@.subrange(start as int, end as int);
        if segment == seq![DOT] {
            assert(segment.len() == 1 && segment[0] == DOT);
        }
        if segment == seq![DOT, DOT] {
            assert(segment.len() == 2 && segment[0] == DOT && segment[1] == DOT);
        }
    }
    Some(name)
}

/// Whether two runs of bytes are the same.
pub fn equal(first: &[u8], second: &[u8]) -> (same: bool)
    ensures
        same == (first@ == second@),
{
    if first.len() != second.len() {
        return false;
    }
    let mut i: usize = 0;
    while i < first.len()
        invariant
            i <= first@.len(),
            first@.len() == second@.len(),
            forall|k: int| 0 <= k < i ==> first@[k] == second@[k],
        decreases first@.len() - i,
    {
        if first[i] != second[i] {
            return false;
        }
        i += 1;
    }
    assert(first@ =~= second@);
    true
}

/// Puts `name` behind `base`.
pub fn join(base: &[u8], name: &[u8]) -> (path: Vec<u8>)
    ensures
        path@ == joined(base@, name@),
{
    if name.len() > 0 && name[0] == SEPARATOR {
        let path = copy_range(name, 0, name.len());
        assert(path@ =~= name@);
        return path;
    }
    let mut path = copy_range(base, 0, base.len());
    assert(path@ =~= base@);
    if base.len() > 0 && base[base.len() - 1] != SEPARATOR {
        path.push(SEPARATOR);
    }
    let ghost head = path@;
    let mut i: usize = 0;
    while i < name.len()
        invariant
            i <= name@.len(),
            path@ == head + name@.take(i as int),
        decreases name@.len() - i,
    {
        path.push(name[i]);
        i += 1;
        assert(path@ =~= head + name@.take(i as int));
    }
    assert(name@.take(name@.len() as int) =~= name@);
    path
}

/// The segment behind the last separator holds no separator.
pub proof fn lemma_last_segment_is_plain(path: Seq<u8>)
    ensures
        forall|i: int| 0 <= i < last_segment(path).len() ==> last_segment(path)[i] != SEPARATOR,
    decreases path.len(),
{
    if path.len() > 0 && path.last() != SEPARATOR {
        let earlier = last_segment(path.drop_last());
        lemma_last_segment_is_plain(path.drop_last());
        assert forall|i: int| 0 <= i < last_segment(path).len() implies last_segment(path)[i]
            != SEPARATOR by {
            if i < earlier.len() {
                assert(last_segment(path)[i] == earlier[i]);
            }
        }
    }
}

/// A final component can stand for a directory entry.
pub proof fn lemma_file_name_is_entry_name(path: Seq<u8>)
    ensures
        file_name_of(path) matches Some(name) ==> is_entry_name(name),
{
    lemma_last_segment_is_plain(trimmed(path));
}

/// A name put behind any directory is the final component of the result:
/// the parent directories do not matter.
pub proof fn lemma_file_name_of_joined(base: Seq<u8>, name: Seq<u8>)
    requires
        is_entry_name(name),
    ensures
        file_name_of(joined(base, name)) == Some(name),
{
    let path = joined(base, name);
    let start = path.len() - name.len();
    assert(path.skip(start) =~= name);
    assert(path.last() == name.last());
    assert(path.last() != SEPARATOR);
    if path.len() >= 2 && path.last() == DOT && path[path.len() - 2] == SEPARATOR {
        if name.len() >= 2 {
            assert(path[path.len() - 2] == name[name.len() - 2]);
        } else {
            assert(name =~= seq![DOT]);
        }
    }
    assert(trimmed(path) == path);
    assert forall|i: int| start <= i < path.len() implies path[i] != SEPARATOR by {
        assert(path[i] == name[i - start]);
    }
    lemma_last_segment_split(path, start);
    if start > 0 {
        assert(path.take(start).last() == SEPARATOR);
    }
    assert(last_segment(path.take(start)) =~= Seq::<u8>::empty());
    assert(last_segment(path) =~= name);
}

} // verus!

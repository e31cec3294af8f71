//! Paths and file names as byte strings.
//!
//! A file name is the bytes the operating system reported, untouched. A path is
//! a byte string whose components are separated by `/`.

use vstd::prelude::*;

verus! {

/// The byte that separates the components of a path.
pub const SEPARATOR: u8 = 0x2f;

/// The byte a hidden file name starts with.
pub const DOT: u8 = 0x2e;

/// A name is hidden when it starts with a dot.
pub open spec fn hidden(name: Seq<u8>) -> bool {
    name.len() > 0 && name[0] == DOT
}

/// `base` followed by `name` as one more component. A separator is put between
/// them unless `base` is empty or already ends in one; a `name` that starts at
/// the root stands for itself.
pub open spec fn joined(base: Seq<u8>, name: Seq<u8>) -> Seq<u8> {
    if name.len() > 0 && name[0] == SEPARATOR {
        name
    } else if base.len() > 0 && base.last() != SEPARATOR {
        base.push(SEPARATOR) + name
    } else {
        base + name
    }
}

/// Length of `path` without the separators it ends in.
pub open spec fn trimmed_len(path: Seq<u8>) -> nat
    decreases path.len(),
{
    if path.len() > 0 && path.last() == SEPARATOR {
        trimmed_len(path.drop_last())
    } else {
        path.len()
    }
}

/// Where the last component of `path` starts: just behind its last separator,
/// or at 0 when it has none.
pub open spec fn last_component_start(path: Seq<u8>) -> nat
    decreases path.len(),
{
    if path.len() == 0 || path.last() == SEPARATOR {
        path.len()
    } else {
        last_component_start(path.drop_last())
    }
}

/// The last component of `path`: what stands between its last inner separator
/// and the separators it ends in. A path made of separators alone, or an empty
/// one, names itself.
pub open spec fn final_component(path: Seq<u8>) -> Seq<u8> {
    let end = trimmed_len(path) as int;
    if end == 0 {
        path
    } else {
        path.subrange(last_component_start(path.take(end)) as int, end)
    }
}

/// Whether a file name marks a hidden entry.
pub fn is_hidden(file_name: &Vec<u8>) -> (r: bool)
    ensures
        r == hidden(file_name@),
{
    file_name.len() > 0 && file_name[0] == DOT
}

/// Appends the bytes of `tail` to `out`.
fn append_bytes(out: &mut Vec<u8>, tail: &Vec<u8>)
    ensures
        final(out)@ == old(out)@ + tail@,
{
    let mut i: usize = 0;
    while i < tail.len()
        invariant
            i <= tail.len(),
            out@ == old(out)@ + tail@.take(i as int),
        decreases tail.len() - i,
    {
        out.push(tail[i]);
        i += 1;
        assert(tail@.take(i as int) == tail@.take(i - 1).push(tail@[i - 1]));
    }
    assert(tail@.take(i as int) == tail@);
}

/// The path of `name` inside the directory `base`.
pub fn join(base: &Vec<u8>, name: &Vec<u8>) -> (r: Vec<u8>)
    ensures
        r@ == joined(base@, name@),
{
    let mut out: Vec<u8> = Vec::new();
    if name.len() > 0 && name[0] == SEPARATOR {
        append_bytes(&mut out, name);
    } else {
        append_bytes(&mut out, base);
        if base.len() > 0 && base[base.len() - 1] != SEPARATOR {
            out.push(SEPARATOR);
        }
        append_bytes(&mut out, name);
    }
    out
}

/// The file name that the entry at `path` goes by.
pub fn file_name_of(path: &Vec<u8>) -> (r: Vec<u8>)
    ensures
        r@ == final_component(path@),
{
    let mut end: usize = path.len();
    assert(path@.take(end as int) == path@);
    while end > 0 && path[end - 1] == SEPARATOR
        invariant
            end <= path.len(),
            trimmed_len(path@) == trimmed_len(path@.take(end as int)),
        decreases end,
    {
        assert(path@.take(end as int).drop_last() == path@.take(end - 1));
        end -= 1;
    }
    let mut start: usize = end;
    while start > 0 && path[start - 1] != SEPARATOR
        invariant
            start <= end <= path.len(),
            last_component_start(path@.take(end as int)) == last_component_start(
                path@.take(start as int),
            ),
        decreases start,
    {
        assert(path@.take(start as int).drop_last() == path@.take(start - 1));
        start -= 1;
    }
    let mut out: Vec<u8> = Vec::new();
    if end == 0 {
        append_bytes(&mut out, path);
        return out;
    }
    let mut i: usize = start;
    while i < end
        invariant
            start <= i <= end <= path.len(),
            out@ == path@.subrange(start as int, i as int),
        decreases end - i,
    {
        out.push(path[i]);
        i += 1;
        assert(path@.subrange(start as int, i as int) == path@.subrange(start as int, i - 1).push(
            path@[i - 1],
        ));
    }
    out
}

} // verus!

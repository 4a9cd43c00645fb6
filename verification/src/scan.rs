//! Searching and copying byte strings.

use bstr::ByteSlice;
use vstd::prelude::*;

verus! {

/// The space character, which separates the fields of a line.
pub const SPACE: u8 = 0x20;

/// Carriage return.
pub const CR: u8 = 0x0D;

/// Line feed.
pub const LF: u8 = 0x0A;

/// `count` spaces.
pub open spec fn spaces(count: nat) -> Seq<u8> {
    Seq::new(count, |i: int| SPACE)
}

/// `needle` stands in `haystack` at index `at`.
pub open spec fn occurs_at(haystack: Seq<u8>, needle: Seq<u8>, at: int) -> bool {
    &&& 0 <= at
    &&& at + needle.len() <= haystack.len()
    &&& haystack.subrange(at, at + needle.len()) == needle
}

/// Calls `bstr::ByteSlice::find_byte`, which hands the search to
/// `memchr::memchr`. Trusted: the result is the index of the first `byte` in
/// `haystack`, and `None` exactly when `haystack` holds no such byte.
#[verifier::external_body]
pub(crate) fn find_byte(haystack: &[u8], byte: u8) -> (found: Option<usize>)
    ensures
        match found {
            Some(at) => {
                &&& at < haystack@.len()
                &&& haystack@[at as int] == byte
                &&& forall|i: int| 0 <= i < at ==> haystack@[i] != byte
            },
            None => forall|i: int| 0 <= i < haystack@.len() ==> haystack@[i] != byte,
        },
{
    haystack.find_byte(byte)
}

/// Calls `bstr::ByteSlice::rfind_byte`, which hands the search to
/// `memchr::memrchr`. Trusted: the result is the index of the last `byte` in
/// `haystack`, and `None` exactly when `haystack` holds no such byte.
#[verifier::external_body]
pub(crate) fn rfind_byte(haystack: &[u8], byte: u8) -> (found: Option<usize>)
    ensures
        match found {
            Some(at) => {
                &&& at < haystack@.len()
                &&& haystack@[at as int] == byte
                &&& forall|i: int| at < i < haystack@.len() ==> haystack@[i] != byte
            },
            None => forall|i: int| 0 <= i < haystack@.len() ==> haystack@[i] != byte,
        },
{
    haystack.rfind_byte(byte)
}

/// Calls `bstr::ByteSlice::split_once_str`. Trusted: where `splitter` occurs
/// in `haystack`, the result is what stands before its first occurrence and
/// what stands after it; where it does not occur, the result is `None`.
#[verifier::external_body]
pub(crate) fn split_once_str<'a>(haystack: &'a [u8], splitter: &[u8]) -> (parts: Option<
    (&'a [u8], &'a [u8]),
>)
    requires
        splitter@.len() > 0,
    ensures
        match parts {
            Some((before, after)) => {
                &&& haystack@ == before@ + splitter@ + after@
                &&& forall|at: int|
                    0 <= at < before@.len() ==> !occurs_at(haystack@, splitter@, at)
            },
            None => forall|at: int| !occurs_at(haystack@, splitter@, at),
        },
{
    haystack.split_once_str(splitter)
}

/// Calls `Vec::into_boxed_slice`. Trusted: the box holds the vector's
/// elements, in the same order.
#[verifier::external_body]
pub(crate) fn into_boxed_slice(bytes: Vec<u8>) -> (boxed: Box<[u8]>)
    ensures
        boxed@ == bytes@,
{
    bytes.into_boxed_slice()
}

/// The index found by a search from the left is the one `index_of_first` names.
pub proof fn lemma_first_index(bytes: Seq<u8>, byte: u8, at: int)
    requires
        0 <= at < bytes.len(),
        bytes[at] == byte,
        forall|i: int| 0 <= i < at ==> bytes[i] != byte,
    ensures
        bytes.index_of_first(byte) == Some(at),
{
    bytes.index_of_first_ensures(byte);
    assert(bytes.contains(byte));
}

/// The index found by a search from the right is the one `index_of_last` names.
pub proof fn lemma_last_index(bytes: Seq<u8>, byte: u8, at: int)
    requires
        0 <= at < bytes.len(),
        bytes[at] == byte,
        forall|i: int| at < i < bytes.len() ==> bytes[i] != byte,
    ensures
        bytes.index_of_last(byte) == Some(at),
{
    bytes.index_of_last_ensures(byte);
    assert(bytes.contains(byte));
}

/// A byte that occurs nowhere has neither a first nor a last index.
pub proof fn lemma_no_index(bytes: Seq<u8>, byte: u8)
    requires
        forall|i: int| 0 <= i < bytes.len() ==> bytes[i] != byte,
    ensures
        !bytes.contains(byte),
        bytes.index_of_first(byte) is None,
        bytes.index_of_last(byte) is None,
{
    bytes.index_of_first_ensures(byte);
    bytes.index_of_last_ensures(byte);
}

/// The index of the first `byte` in `haystack`.
pub fn first_index(haystack: &[u8], byte: u8) -> (found: Option<usize>)
    ensures
        match found {
            Some(at) => haystack@.index_of_first(byte) == Some(at as int),
            None => haystack@.index_of_first(byte) is None,
        },
{
    let found = find_byte(haystack, byte);
    proof {
        match found {
            Some(at) => lemma_first_index(haystack@, byte, at as int),
            None => lemma_no_index(haystack@, byte),
        }
    }
    found
}

/// The index of the last `byte` in `haystack`.
pub fn last_index(haystack: &[u8], byte: u8) -> (found: Option<usize>)
    ensures
        match found {
            Some(at) => haystack@.index_of_last(byte) == Some(at as int),
            None => haystack@.index_of_last(byte) is None,
        },
{
    let found = rfind_byte(haystack, byte);
    proof {
        match found {
            Some(at) => lemma_last_index(haystack@, byte, at as int),
            None => lemma_no_index(haystack@, byte),
        }
    }
    found
}

/// An owned copy of `bytes`.
pub fn to_boxed(bytes: &[u8]) -> (boxed: Box<[u8]>)
    ensures
        boxed@ == bytes@,
{
    into_boxed_slice(vstd::slice::slice_to_vec(bytes))
}

/// Whether `left` and `right` hold the same bytes.
pub fn bytes_eq(left: &[u8], right: &[u8]) -> (same: bool)
    ensures
        same == (left@ == right@),
{
    if left.len() != right.len() {
        return false;
    }
    let mut at: usize = 0;
    while at < left.len()
        invariant
            left@.len() == right@.len(),
            at <= left@.len(),
            forall|i: int| 0 <= i < at ==> left@[i] == right@[i],
        decreases left@.len() - at,
    {
        if left[at] != right[at] {
            return false;
        }
        at += 1;
    }
    assert(left@ =~= right@);
    true
}

/// Whether `bytes` ends with `suffix`.
pub fn ends_with(bytes: &[u8], suffix: &[u8]) -> (found: bool)
    ensures
        found == suffix@.is_suffix_of(bytes@),
{
    if suffix.len() > bytes.len() {
        return false;
    }
    let from = bytes.len() - suffix.len();
    let found = bytes_eq(vstd::slice::slice_subrange(bytes, from, bytes.len()), suffix);
    found
}

/// Whether every byte of `bytes` from `from` up to `to` is a space.
pub fn is_blank(bytes: &[u8], from: usize, to: usize) -> (blank: bool)
    requires
        from <= to <= bytes@.len(),
    ensures
        blank == (bytes@.subrange(from as int, to as int) == spaces((to - from) as nat)),
{
    let mut at: usize = from;
    while at < to
        invariant
            from <= at <= to <= bytes@.len(),
            forall|i: int| from <= i < at ==> bytes@[i] == SPACE,
        decreases to - at,
    {
        if bytes[at] != SPACE {
            assert(bytes@.subrange(from as int, to as int)[at - from] != SPACE);
            return false;
        }
        at += 1;
    }
    assert(bytes@.subrange(from as int, to as int) =~= spaces((to - from) as nat));
    true
}

/// Appends `bytes` to `writer` and returns how many bytes that were.
pub fn append(writer: &mut Vec<u8>, bytes: &[u8]) -> (written: usize)
    ensures
        final(writer)@ == old(writer)@ + bytes@,
        written == bytes@.len(),
{
    writer.extend_from_slice(bytes);
    assert(writer@ =~= old(writer)@ + bytes@);
    bytes.len()
}

/// Appends `count` spaces to `writer`.
pub fn append_spaces(writer: &mut Vec<u8>, count: usize) -> (written: usize)
    ensures
        final(writer)@ == old(writer)@ + spaces(count as nat),
        written == count,
{
    let mut done: usize = 0;
    while done < count
        invariant
            done <= count,
            writer@ == old(writer)@ + spaces(done as nat),
        decreases count - done,
    {
        writer.push(SPACE);
        done += 1;
        assert(writer@ =~= old(writer)@ + spaces(done as nat));
    }
    count
}

} // verus!

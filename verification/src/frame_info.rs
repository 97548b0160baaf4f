//! Which stored image a descriptor group belongs to.

use vstd::prelude::*;

verus! {

use vstd::string::StrSliceExecFns;
use vstd::string::StringExecFns;

/// The index just after the last slash of a character string: the start of
/// its final path component.
pub open spec fn after_last_slash_chars(s: Seq<char>) -> int
    decreases s.len(),
{
    if s.len() == 0 {
        0
    } else if s.last() == '/' {
        s.len() as int
    } else {
        after_last_slash_chars(s.drop_last())
    }
}

/// The first index at or after `i` holding character `c`, or the length if
/// none.
pub open spec fn find_char_from(s: Seq<char>, i: int, c: char) -> int
    recommends
        0 <= i <= s.len(),
    decreases s.len() - i,
{
    if i < 0 || i >= s.len() {
        s.len() as int
    } else if s[i] == c {
        i
    } else {
        find_char_from(s, i + 1, c)
    }
}

pub proof fn lemma_after_last_slash_chars_bounds(s: Seq<char>)
    ensures
        0 <= after_last_slash_chars(s) <= s.len(),
    decreases s.len(),
{
    if s.len() > 0 && s.last() != '/' {
        lemma_after_last_slash_chars_bounds(s.drop_last());
    }
}

pub proof fn lemma_find_char_from_bounds(s: Seq<char>, i: int, c: char)
    requires
        0 <= i <= s.len(),
    ensures
        i <= find_char_from(s, i, c) <= s.len(),
        find_char_from(s, i, c) < s.len() ==> s[find_char_from(s, i, c)] == c,
    decreases s.len() - i,
{
    if i < s.len() && s[i] != c {
        lemma_find_char_from_bounds(s, i + 1, c);
    }
}

/// Scanning for `c` may start anywhere inside a prefix known to be free of
/// `c` without changing the result.
pub proof fn lemma_find_char_from_skip(s: Seq<char>, i: int, j: int, c: char)
    requires
        0 <= i <= j <= s.len(),
        forall|idx: int| i <= idx < j ==> s[idx] != c,
    ensures
        find_char_from(s, i, c) == find_char_from(s, j, c),
    decreases j - i,
{
    if i < j {
        lemma_find_char_from_skip(s, i + 1, j, c);
    }
}

/// A file path names a frame when its final component contains a dot
/// separating content hash from extension.
pub open spec fn spec_path_names_frame(s: Seq<char>) -> bool {
    find_char_from(s, after_last_slash_chars(s), '.') < s.len()
}

/// Which stored image, by content hash and extension, a descriptor group
/// came from; the frame index is zero for a static image.
#[derive(Debug)]
pub struct FrameInfo {
    pub md5: String,
    pub ext: String,
    pub index: u64,
}

impl FrameInfo {
    pub fn new(md5: String, ext: String, index: u64) -> (r: FrameInfo)
        ensures
            r.md5@ == md5@,
            r.ext@ == ext@,
            r.index == index,
    {
        FrameInfo { md5, ext, index }
    }

    pub fn copy_md5(&self) -> (r: String)
        ensures
            r@ == self.md5@,
    {
        self.md5.clone()
    }

    pub fn copy_ext(&self) -> (r: String)
        ensures
            r@ == self.ext@,
    {
        self.ext.clone()
    }

    pub fn get_id(&self) -> (r: u64)
        ensures
            r == self.index,
    {
        self.index
    }

    /// Reads a static image's frame from its file path: the name part before
    /// the first dot is the content hash, the part up to the next dot the
    /// extension, and the frame index is zero.
    pub fn new_from_static_image_path(file_path: &str) -> (r: FrameInfo)
        requires
            spec_path_names_frame(file_path@),
        ensures
            ({
                let s = file_path@;
                let start = after_last_slash_chars(s);
                let d1 = find_char_from(s, start, '.');
                let d2 = find_char_from(s, d1 + 1, '.');
                &&& r.md5@ == s.subrange(start, d1)
                &&& r.ext@ == s.subrange(d1 + 1, d2)
                &&& r.index == 0
            }),
    {
        let ghost s = file_path@;
        let len = file_path.unicode_len();

        let mut start: usize = 0;
        let mut i: usize = 0;
        while i < len
            invariant
                0 <= i <= s.len(),
                len == s.len(),
                file_path@ == s,
                start == after_last_slash_chars(s.subrange(0, i as int)),
                start <= i,
            decreases s.len() - i,
        {
            proof {
                assert(s.subrange(0, i + 1).drop_last() =~= s.subrange(0, i as int));
                assert(s.subrange(0, i + 1).last() == s[i as int]);
            }
            if file_path.get_char(i) == '/' {
                start = i + 1;
            }
            i = i + 1;
        }
        proof {
            assert(s.subrange(0, s.len() as int) =~= s);
            lemma_after_last_slash_chars_bounds(s);
        }

        let mut d1: usize = start;
        while d1 < len && file_path.get_char(d1) != '.'
            invariant
                start <= d1 <= s.len(),
                len == s.len(),
                file_path@ == s,
                forall|idx: int| start <= idx < d1 ==> s[idx] != '.',
            decreases s.len() - d1,
        {
            d1 = d1 + 1;
        }
        proof {
            lemma_find_char_from_skip(s, start as int, d1 as int, '.');
            lemma_find_char_from_bounds(s, d1 as int, '.');
        }
        assert(d1 < len);

        let mut d2: usize = d1 + 1;
        while d2 < len && file_path.get_char(d2) != '.'
            invariant
                d1 + 1 <= d2 <= s.len(),
                len == s.len(),
                file_path@ == s,
                forall|idx: int| d1 + 1 <= idx < d2 ==> s[idx] != '.',
            decreases s.len() - d2,
        {
            d2 = d2 + 1;
        }
        proof {
            lemma_find_char_from_skip(s, d1 + 1, d2 as int, '.');
            lemma_find_char_from_bounds(s, d2 as int, '.');
        }

        let md5 = file_path.substring_char(start, d1).to_owned();
        let ext = file_path.substring_char(d1 + 1, d2).to_owned();
        FrameInfo { md5, ext, index: 0 }
    }
}

} // verus!

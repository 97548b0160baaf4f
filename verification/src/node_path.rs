//! Tree positions as direction sequences, their wire form, and the shard
//! file names they map to.

use vstd::prelude::*;

verus! {

use crate::constants::FAR_KEY;
use crate::constants::FILE_KEY;
use crate::constants::NEAR_KEY;
use crate::error::TreeError;
use vstd::bytes::spec_u64_from_le_bytes;
use vstd::bytes::spec_u64_to_le_bytes;
use vstd::bytes::u64_from_le_bytes;
use vstd::bytes::u64_to_le_bytes;
use vstd::bytes::lemma_auto_spec_u64_to_from_le_bytes;
use vstd::slice::slice_subrange;
use vstd::string::StringExecFns;
use vstd::string::StringSliceAdditionalSpecFns;

/// One step of a tree position: towards the near child, the far child, or
/// across a shard-file boundary. Unused stands for any unrecognized direction
/// byte met while decoding, kept so that decoding never fails on it.
#[derive(Clone, Copy, Debug, PartialEq, Eq, Structural)]
pub enum Direction {
    Near,
    Far,
    File,
    Unused,
}

/// The direction a key byte stands for; unrecognized bytes map to Unused.
pub open spec fn spec_direction_of_key(key: u8) -> Direction {
    if key == NEAR_KEY {
        Direction::Near
    } else if key == FAR_KEY {
        Direction::Far
    } else if key == FILE_KEY {
        Direction::File
    } else {
        Direction::Unused
    }
}

/// The key byte a direction is written as.
pub open spec fn spec_direction_key(d: Direction) -> u8 {
    match d {
        Direction::Near => NEAR_KEY,
        Direction::Far => FAR_KEY,
        Direction::File => FILE_KEY,
        Direction::Unused => crate::constants::UNUSED_KEY,
    }
}

/// The character a direction is rendered as in a shard file name.
pub open spec fn spec_direction_char(d: Direction) -> char {
    match d {
        Direction::Near => 'n',
        Direction::Far => 'a',
        Direction::File => 'l',
        Direction::Unused => 'u',
    }
}

pub fn direction_of_key(key: u8) -> (d: Direction)
    ensures
        d == spec_direction_of_key(key),
{
    if key == NEAR_KEY {
        Direction::Near
    } else if key == FAR_KEY {
        Direction::Far
    } else if key == FILE_KEY {
        Direction::File
    } else {
        Direction::Unused
    }
}

pub fn direction_key(d: Direction) -> (k: u8)
    ensures
        k == spec_direction_key(d),
{
    match d {
        Direction::Near => NEAR_KEY,
        Direction::Far => FAR_KEY,
        Direction::File => FILE_KEY,
        Direction::Unused => crate::constants::UNUSED_KEY,
    }
}

/// The logical depth of a position: the number of steps that are not shard
/// boundaries.
pub open spec fn spec_non_file_depth(s: Seq<Direction>) -> int
    decreases s.len(),
{
    if s.len() == 0 {
        0
    } else {
        spec_non_file_depth(s.drop_last()) + if s.last() == Direction::File {
            0int
        } else {
            1int
        }
    }
}

/// Whether a leaf reached at position `s` must fork into its own shard file:
/// the logical depth is a positive multiple of the configured interval and
/// the position does not already sit right behind a boundary.
pub open spec fn spec_should_split(s: Seq<Direction>, max_file_node_depth: int) -> bool {
    let depth = spec_non_file_depth(s);
    &&& depth % max_file_node_depth == 0
    &&& depth != 0
    &&& !(s.len() > 0 && s.last() == Direction::File)
}

/// The key bytes of a position in wire order.
pub open spec fn spec_dir_bytes(s: Seq<Direction>) -> Seq<u8> {
    s.map_values(|d: Direction| spec_direction_key(d))
}

/// The rendered characters of a position, as they appear in a file name.
pub open spec fn spec_dir_chars(s: Seq<Direction>) -> Seq<char> {
    s.map_values(|d: Direction| spec_direction_char(d))
}

/// Wire form of a position: 8-byte little-endian count, then one key byte per
/// step.
pub open spec fn spec_path_to_binary(s: Seq<Direction>) -> Seq<u8> {
    spec_u64_to_le_bytes(s.len() as u64) + spec_dir_bytes(s)
}

/// Reads a position back from its wire form; the block length must match the
/// recorded count exactly.
pub open spec fn spec_path_from_binary(b: Seq<u8>) -> Option<Seq<Direction>> {
    if b.len() < 8 {
        None
    } else {
        let n = spec_u64_from_le_bytes(b.subrange(0, 8));
        if b.len() != 8 + n {
            None
        } else {
            Some(b.subrange(8, b.len() as int).map_values(|k: u8| spec_direction_of_key(k)))
        }
    }
}

/// Encoding a position and reading it back yields the position again.
pub proof fn lemma_path_round_trip(s: Seq<Direction>)
    requires
        s.len() <= u64::MAX,
    ensures
        spec_path_from_binary(spec_path_to_binary(s)) == Some(s),
{
    lemma_auto_spec_u64_to_from_le_bytes();
    let b = spec_path_to_binary(s);
    assert(b.subrange(0, 8) =~= spec_u64_to_le_bytes(s.len() as u64));
    assert(b.subrange(8, b.len() as int) =~= spec_dir_bytes(s));
    assert forall|i: int| 0 <= i < s.len() implies spec_direction_of_key(
        spec_dir_bytes(s)[i],
    ) == s[i] by {
        assert(spec_dir_bytes(s)[i] == spec_direction_key(s[i]));
    }
    assert(spec_dir_bytes(s).map_values(|k: u8| spec_direction_of_key(k)) =~= s);
}

/// An ordered sequence of direction symbols addressing a tree position,
/// empty at the root and append-only.
#[derive(Debug)]
pub struct NodePath {
    pub path: Vec<Direction>,
}

impl View for NodePath {
    type V = Seq<Direction>;

    open spec fn view(&self) -> Seq<Direction> {
        self.path@
    }
}

impl NodePath {
    pub fn new_empty() -> (r: NodePath)
        ensures
            r@ == Seq::<Direction>::empty(),
    {
        NodePath { path: Vec::new() }
    }

    /// Appends one direction, given as its key byte; an unrecognized byte is
    /// kept as the defensive Unused symbol.
    pub fn add_direction(&mut self, direction: u8)
        ensures
            final(self)@ == old(self)@.push(spec_direction_of_key(direction)),
    {
        self.path.push(direction_of_key(direction));
    }

    /// Appends one direction symbol.
    pub fn push_direction(&mut self, direction: Direction)
        ensures
            final(self)@ == old(self)@.push(direction),
    {
        self.path.push(direction);
    }

    /// A copy of this position.
    pub fn duplicate(&self) -> (r: NodePath)
        ensures
            r@ == self@,
    {
        let mut path: Vec<Direction> = Vec::new();
        let mut i: usize = 0;
        while i < self.path.len()
            invariant
                0 <= i <= self@.len(),
                path@ == self@.subrange(0, i as int),
            decreases self@.len() - i,
        {
            path.push(self.path[i]);
            proof {
                assert(path@ =~= self@.subrange(0, i + 1));
            }
            i = i + 1;
        }
        proof {
            assert(path@ =~= self@);
        }
        NodePath { path }
    }

    pub fn size(&self) -> (r: usize)
        ensures
            r == self@.len(),
    {
        self.path.len()
    }

    /// Whether a leaf reached at this position must fork into its own shard
    /// file, for the given depth interval between shard boundaries.
    pub fn should_split_to_new_file(&self, max_file_node_depth: usize) -> (r: bool)
        requires
            max_file_node_depth >= 1,
        ensures
            r == spec_should_split(self@, max_file_node_depth as int),
    {
        let mut depth: usize = 0;
        let mut i: usize = 0;
        while i < self.path.len()
            invariant
                0 <= i <= self@.len(),
                depth == spec_non_file_depth(self@.subrange(0, i as int)),
                depth <= i,
            decreases self@.len() - i,
        {
            proof {
                assert(self@.subrange(0, i + 1).drop_last() =~= self@.subrange(0, i as int));
                assert(self@.subrange(0, i + 1).last() == self@[i as int]);
            }
            if self.path[i] != Direction::File {
                depth = depth + 1;
            }
            i = i + 1;
        }
        proof {
            assert(self@.subrange(0, self@.len() as int) =~= self@);
        }
        let at_splitting_depth = depth % max_file_node_depth == 0;
        let last_node_is_file = self.path.len() > 0 && self.path[self.path.len() - 1]
            == Direction::File;
        at_splitting_depth && !last_node_is_file && depth != 0
    }

    /// The position in wire order: 8-byte little-endian count, then one key
    /// byte per step.
    pub fn to_binary(&self) -> (r: Vec<u8>)
        ensures
            r@ == spec_path_to_binary(self@),
    {
        let mut result = u64_to_le_bytes(self.path.len() as u64);
        let ghost prefix = result@;
        let mut i: usize = 0;
        while i < self.path.len()
            invariant
                0 <= i <= self@.len(),
                result@ == prefix + spec_dir_bytes(self@.subrange(0, i as int)),
            decreases self@.len() - i,
        {
            result.push(direction_key(self.path[i]));
            proof {
                assert(spec_dir_bytes(self@.subrange(0, i + 1)) =~= spec_dir_bytes(
                    self@.subrange(0, i as int),
                ).push(spec_direction_key(self@[i as int])));
            }
            i = i + 1;
        }
        proof {
            assert(self@.subrange(0, self@.len() as int) =~= self@);
            lemma_auto_spec_u64_to_from_le_bytes();
        }
        result
    }

    /// Reads a position back from its wire form. A block shorter than its
    /// count field is truncated; one whose length disagrees with the count is
    /// a length mismatch.
    pub fn from_binary(binary: &[u8]) -> (r: Result<NodePath, TreeError>)
        ensures
            match r {
                Ok(p) => spec_path_from_binary(binary@) == Some(p@),
                Err(e) => {
                    &&& spec_path_from_binary(binary@) is None
                    &&& (e == TreeError::Truncated <==> binary@.len() < 8)
                    &&& (e == TreeError::LengthMismatch <==> binary@.len() >= 8)
                },
            },
    {
        if binary.len() < 8 {
            return Err(TreeError::Truncated);
        }
        let n = u64_from_le_bytes(slice_subrange(binary, 0, 8));
        if (binary.len() - 8) as u64 != n {
            return Err(TreeError::LengthMismatch);
        }
        let mut path: Vec<Direction> = Vec::new();
        let mut i: usize = 8;
        while i < binary.len()
            invariant
                8 <= i <= binary@.len(),
                path@ == binary@.subrange(8, i as int).map_values(
                    |k: u8| spec_direction_of_key(k),
                ),
            decreases binary@.len() - i,
        {
            path.push(direction_of_key(binary[i]));
            proof {
                assert(binary@.subrange(8, i + 1).map_values(|k: u8| spec_direction_of_key(k))
                    =~= binary@.subrange(8, i as int).map_values(
                    |k: u8| spec_direction_of_key(k),
                ).push(spec_direction_of_key(binary@[i as int])));
            }
            i = i + 1;
        }
        Ok(NodePath { path })
    }
}


/// The index just after the last slash of a byte string: the start of its
/// final path component.
pub open spec fn after_last_slash(b: Seq<u8>) -> int
    decreases b.len(),
{
    if b.len() == 0 {
        0
    } else if b.last() == 47 {
        b.len() as int
    } else {
        after_last_slash(b.drop_last())
    }
}

/// The first index at or after `i` holding byte `ch`, or the length if none.
pub open spec fn find_from(b: Seq<u8>, i: int, ch: u8) -> int
    recommends
        0 <= i <= b.len(),
    decreases b.len() - i,
{
    if i < 0 || i >= b.len() {
        b.len() as int
    } else if b[i] == ch {
        i
    } else {
        find_from(b, i + 1, ch)
    }
}

pub proof fn lemma_after_last_slash_bounds(b: Seq<u8>)
    ensures
        0 <= after_last_slash(b) <= b.len(),
    decreases b.len(),
{
    if b.len() > 0 && b.last() != 47 {
        lemma_after_last_slash_bounds(b.drop_last());
    }
}

pub proof fn lemma_find_from_bounds(b: Seq<u8>, i: int, ch: u8)
    requires
        0 <= i <= b.len(),
    ensures
        i <= find_from(b, i, ch) <= b.len(),
        find_from(b, i, ch) < b.len() ==> b[find_from(b, i, ch)] == ch,
    decreases b.len() - i,
{
    if i < b.len() && b[i] != ch {
        lemma_find_from_bounds(b, i + 1, ch);
    }
}

/// Scanning for `ch` may start anywhere inside a prefix known to be free of
/// `ch` without changing the result.
pub proof fn lemma_find_from_skip(b: Seq<u8>, i: int, j: int, ch: u8)
    requires
        0 <= i <= j <= b.len(),
        forall|idx: int| i <= idx < j ==> b[idx] != ch,
    ensures
        find_from(b, i, ch) == find_from(b, j, ch),
    decreases j - i,
{
    if i < j {
        lemma_find_from_skip(b, i + 1, j, ch);
    }
}

/// The directions encoded in a shard file name: the characters of the final
/// path component between its first and second dot, read as key bytes.
pub open spec fn spec_name_directions(b: Seq<u8>) -> Seq<Direction> {
    let start = after_last_slash(b);
    let d1 = find_from(b, start, 46);
    let d2 = find_from(b, d1 + 1, 46);
    b.subrange(d1 + 1, d2).map_values(|k: u8| spec_direction_of_key(k))
}

/// A file path holds a decodable shard name when its final component contains
/// a dot.
pub open spec fn spec_name_has_directions(b: Seq<u8>) -> bool {
    find_from(b, after_last_slash(b), 46) < b.len()
}

impl NodePath {
    /// The shard file name this position maps to: the fixed directory and
    /// prefix, one character per direction symbol, and the fixed suffix.
    pub fn to_file_path_string(&self) -> (r: String)
        ensures
            r@ == "./database/vp_tree."@ + spec_dir_chars(self@) + ".database"@,
    {
        let mut result = String::new();
        result.append("./database/vp_tree.");
        let ghost prefix = result@;
        let mut i: usize = 0;
        while i < self.path.len()
            invariant
                0 <= i <= self@.len(),
                result@ == prefix + spec_dir_chars(self@.subrange(0, i as int)),
            decreases self@.len() - i,
        {
            match self.path[i] {
                Direction::Near => result.append("n"),
                Direction::Far => result.append("a"),
                Direction::File => result.append("l"),
                Direction::Unused => result.append("u"),
            }
            proof {
                reveal_strlit("n");
                reveal_strlit("a");
                reveal_strlit("l");
                reveal_strlit("u");
                assert(spec_dir_chars(self@.subrange(0, i + 1)) =~= spec_dir_chars(
                    self@.subrange(0, i as int),
                ).push(spec_direction_char(self@[i as int])));
                assert(result@ =~= prefix + spec_dir_chars(self@.subrange(0, i + 1)));
            }
            i = i + 1;
        }
        result.append(".database");
        proof {
            assert(self@.subrange(0, self@.len() as int) =~= self@);
        }
        result
    }

    /// Recovers a position from a shard file name: the characters of the
    /// final path component between its first and second dot, each read as a
    /// direction key, unrecognized characters kept as Unused.
    pub fn from_file_path_string(file_path: String) -> (r: NodePath)
        requires
            spec_name_has_directions(vstd::utf8::encode_utf8(file_path@)),
        ensures
            r@ == spec_name_directions(vstd::utf8::encode_utf8(file_path@)),
    {
        let bytes: &[u8] = file_path.as_str().as_bytes();
        let ghost b = vstd::utf8::encode_utf8(file_path@);
        proof {
            assert(bytes@ == b);
        }
        let len = bytes.len();

        // Start of the final path component.
        let mut start: usize = 0;
        let mut i: usize = 0;
        while i < len
            invariant
                0 <= i <= b.len(),
                len == b.len(),
                bytes@ == b,
                start == after_last_slash(b.subrange(0, i as int)),
                start <= i,
            decreases b.len() - i,
        {
            proof {
                assert(b.subrange(0, i + 1).drop_last() =~= b.subrange(0, i as int));
                assert(b.subrange(0, i + 1).last() == b[i as int]);
            }
            if bytes[i] == 47 {
                start = i + 1;
            }
            i = i + 1;
        }
        proof {
            assert(b.subrange(0, b.len() as int) =~= b);
        }

        // First dot of the component.
        let mut d1: usize = start;
        proof {
            lemma_after_last_slash_bounds(b);
        }
        while d1 < len && bytes[d1] != 46
            invariant
                start <= d1 <= b.len(),
                len == b.len(),
                bytes@ == b,
                forall|idx: int| start <= idx < d1 ==> b[idx] != 46,
            decreases b.len() - d1,
        {
            d1 = d1 + 1;
        }
        proof {
            lemma_find_from_skip(b, start as int, d1 as int, 46);
            lemma_find_from_bounds(b, d1 as int, 46);
        }

        // The requirement says the component holds a dot, so d1 is in range.
        assert(d1 < len);

        // Second dot, or the end.
        let mut d2: usize = d1 + 1;
        while d2 < len && bytes[d2] != 46
            invariant
                d1 + 1 <= d2 <= b.len(),
                len == b.len(),
                bytes@ == b,
                forall|idx: int| d1 + 1 <= idx < d2 ==> b[idx] != 46,
            decreases b.len() - d2,
        {
            d2 = d2 + 1;
        }
        proof {
            lemma_find_from_skip(b, d1 + 1, d2 as int, 46);
            lemma_find_from_bounds(b, d2 as int, 46);
            if d2 < len {
                assert(find_from(b, d2 as int, 46) == d2);
            }
        }

        let mut path: Vec<Direction> = Vec::new();
        let mut j: usize = d1 + 1;
        while j < d2
            invariant
                d1 + 1 <= j <= d2 <= b.len(),
                len == b.len(),
                bytes@ == b,
                path@ == b.subrange(d1 + 1, j as int).map_values(
                    |k: u8| spec_direction_of_key(k),
                ),
            decreases d2 - j,
        {
            path.push(direction_of_key(bytes[j]));
            proof {
                assert(b.subrange(d1 + 1, j + 1).map_values(|k: u8| spec_direction_of_key(k))
                    =~= b.subrange(d1 + 1, j as int).map_values(
                    |k: u8| spec_direction_of_key(k),
                ).push(spec_direction_of_key(b[j as int])));
            }
            j = j + 1;
        }
        NodePath { path }
    }
}

} // verus!

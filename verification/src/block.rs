//! The block data model and the reachability relation of the DAG.
//!
//! A block is stored at a fixed index of an arena.  Parent links (`prev`)
//! always point to strictly smaller indices and child links (`next`) to
//! strictly larger ones, so every walk along links terminates and the graph
//! is acyclic by construction.

use vstd::prelude::*;

verus! {

/// Status results for DAG operations.
#[derive(Clone, Copy, Debug, PartialEq, Eq, Structural)]
pub enum DagError {
    /// A referenced block name is absent from the DAG.
    NotFound,
    /// An insertion reused an existing block name.
    DuplicateName,
    /// An operation found the DAG in a state it cannot work on, for
    /// example a second parentless block.
    InvalidState,
}

/// A DAG vertex.
///
/// `size_of_anticone_blue` is the running count of blue blocks observed in
/// this block's anticone while the block is blue; the sentinel `-1` means
/// "not currently tracked / not blue".
pub struct Block {
    pub name: String,
    pub prev: Vec<usize>,
    pub next: Vec<usize>,
    pub height: u64,
    pub is_blue: bool,
    pub size_of_past_blue: u64,
    pub size_of_anticone_blue: i64,
}

pub open spec fn distinct_seq(v: Seq<usize>) -> bool {
    forall|a: int, b: int| 0 <= a < b < v.len() ==> v[a] != v[b]
}

pub open spec fn strictly_increasing(v: Seq<usize>) -> bool {
    forall|a: int, b: int| 0 <= a < b < v.len() ==> v[a] < v[b]
}

/// Block `p` is a direct parent of block `i`.
pub open spec fn has_parent(s: Seq<Block>, i: int, p: int) -> bool {
    s[i].prev@.contains(p as usize)
}

/// Block `c` is a direct child of block `i`.
pub open spec fn has_child(s: Seq<Block>, i: int, c: int) -> bool {
    s[i].next@.contains(c as usize)
}

/// Local well-formedness of the block stored at index `i`.
pub open spec fn wf_block_at(s: Seq<Block>, i: int) -> bool {
    &&& forall|m: int| 0 <= m < s[i].prev@.len() ==> (#[trigger] s[i].prev@[m]) < i
    &&& forall|m: int|
        0 <= m < s[i].next@.len() ==> i < (#[trigger] s[i].next@[m]) && s[i].next@[m] < s.len()
    &&& distinct_seq(s[i].prev@)
    &&& distinct_seq(s[i].next@)
    &&& (i == 0 ==> s[i].prev@.len() == 0)
    &&& (i > 0 ==> s[i].prev@.len() > 0)
    &&& (s[i].prev@.len() == 0 ==> s[i].height == 0)
    &&& forall|m: int|
        0 <= m < s[i].prev@.len() ==> s[(#[trigger] s[i].prev@[m]) as int].height < s[i].height
    &&& (s[i].prev@.len() > 0 ==> exists|m: int|
        0 <= m < s[i].prev@.len() && s[i].height == s[(#[trigger] s[i].prev@[m]) as int].height
            + 1)
    &&& s[i].height <= i
    &&& s[i].size_of_anticone_blue >= -1
    &&& (!s[i].is_blue ==> s[i].size_of_anticone_blue == -1)
}

/// Well-formedness of the whole arena: every block is locally well formed,
/// parent and child links agree, and block names are unique.
pub open spec fn wf_blocks(s: Seq<Block>) -> bool {
    &&& s.len() <= 0x7fff_ffff_ffff_ffff
    &&& s.len() <= usize::MAX
    &&& forall|i: int| 0 <= i < s.len() ==> #[trigger] wf_block_at(s, i)
    &&& forall|i: int, j: int|
        #![trigger has_parent(s, i, j)]
        #![trigger has_child(s, j, i)]
        0 <= i < s.len() && 0 <= j < s.len() ==> (has_parent(s, i, j) <==> has_child(s, j, i))
    &&& forall|i: int, j: int|
        #![trigger s[i].name, s[j].name]
        0 <= i < j < s.len() ==> s[i].name@ != s[j].name@
}

/// `x` is an ancestor of `j` (inclusively: `reaches(s, x, x)` holds).
pub open spec fn reaches(s: Seq<Block>, x: int, j: int) -> bool
    decreases j,
{
    if x == j {
        true
    } else if j <= 0 {
        false
    } else {
        exists|m: int|
            0 <= m < s[j].prev@.len() && s[j].prev@[m] < j && reaches(
                s,
                x,
                s[j].prev@[m] as int,
            )
    }
}

/// `j` is an ancestor of some member of `refs` (inclusive), that is, `j`
/// lies in the past of the reference set.
pub open spec fn reaches_set(s: Seq<Block>, refs: Seq<usize>, j: int) -> bool {
    exists|m: int| 0 <= m < refs.len() && reaches(s, j, refs[m] as int)
}

/// `j` belongs to the anticone of `t` relative to the reference set `refs`:
/// it is in the past of `refs` but causally unrelated to `t` (and not `t`
/// itself, since `reaches(s, j, t)` holds for `j == t`).
pub open spec fn in_anticone(s: Seq<Block>, t: int, refs: Seq<usize>, j: int) -> bool {
    &&& reaches_set(s, refs, j)
    &&& !reaches(s, j, t)
    &&& !reaches(s, t, j)
}

/// Number of blue blocks among indices `< n` in the anticone of `t`.
pub open spec fn anticone_blue_count(s: Seq<Block>, t: int, refs: Seq<usize>, n: int) -> int
    decreases n,
{
    if n <= 0 {
        0
    } else {
        anticone_blue_count(s, t, refs, n - 1) + if in_anticone(s, t, refs, n - 1) && s[n
            - 1].is_blue {
            1int
        } else {
            0int
        }
    }
}

/// Number of blue blocks among indices `< n` in the past of `refs`.
pub open spec fn past_blue_count(s: Seq<Block>, refs: Seq<usize>, n: int) -> int
    decreases n,
{
    if n <= 0 {
        0
    } else {
        past_blue_count(s, refs, n - 1) + if reaches_set(s, refs, n - 1) && s[n - 1].is_blue {
            1int
        } else {
            0int
        }
    }
}

pub open spec fn block_fields_equal(a: Block, b: Block) -> bool {
    &&& a.name@ == b.name@
    &&& a.prev@ == b.prev@
    &&& a.next@ == b.next@
    &&& a.height == b.height
    &&& a.is_blue == b.is_blue
    &&& a.size_of_past_blue == b.size_of_past_blue
    &&& a.size_of_anticone_blue == b.size_of_anticone_blue
}

pub open spec fn blocks_equal(a: Seq<Block>, b: Seq<Block>) -> bool {
    &&& a.len() == b.len()
    &&& forall|i: int| 0 <= i < a.len() ==> #[trigger] block_fields_equal(a[i], b[i])
}

/// The structural (immutable) fields of block `i` agree between `a` and `b`.
pub open spec fn structure_equal_at(a: Seq<Block>, b: Seq<Block>, i: int) -> bool {
    &&& a[i].name@ == b[i].name@
    &&& a[i].prev@ == b[i].prev@
    &&& a[i].next@ == b[i].next@
    &&& a[i].height == b[i].height
}

/// `a` and `b` describe the same DAG shape; only classification counters
/// may differ.
pub open spec fn same_structure(a: Seq<Block>, b: Seq<Block>) -> bool {
    &&& a.len() == b.len()
    &&& forall|i: int| 0 <= i < a.len() ==> #[trigger] structure_equal_at(a, b, i)
}

/// An ancestor's index is never larger than its descendant's.
pub proof fn lemma_reaches_le(s: Seq<Block>, x: int, j: int)
    requires
        reaches(s, x, j),
        x >= 0,
    ensures
        x <= j,
    decreases j,
{
    if x != j && j > 0 {
        let m = choose|m: int|
            0 <= m < s[j].prev@.len() && s[j].prev@[m] < j && reaches(s, x, s[j].prev@[m] as int);
        lemma_reaches_le(s, x, s[j].prev@[m] as int);
    }
}

/// Reachability only depends on the parent links, so it transfers between
/// arenas with equal link structure.
pub proof fn lemma_reaches_congruence(a: Seq<Block>, b: Seq<Block>, x: int, j: int)
    requires
        a.len() == b.len(),
        forall|i: int| 0 <= i < a.len() ==> (#[trigger] a[i]).prev@ == b[i].prev@,
        j < a.len(),
    ensures
        reaches(a, x, j) == reaches(b, x, j),
    decreases j,
{
    if x != j && j > 0 {
        assert forall|m: int| 0 <= m < a[j].prev@.len() && a[j].prev@[m] < j implies reaches(
            a,
            x,
            a[j].prev@[m] as int,
        ) == reaches(b, x, b[j].prev@[m] as int) by {
            lemma_reaches_congruence(a, b, x, a[j].prev@[m] as int);
        }
        assert(a[j].prev@ == b[j].prev@);
    }
}

/// If `c` is a direct child of `i` and `c` reaches `j`, then `i` reaches `j`.
pub proof fn lemma_reaches_via_next(s: Seq<Block>, i: int, c: int, j: int)
    requires
        wf_blocks(s),
        0 <= i < s.len(),
        0 <= j < s.len(),
        has_child(s, i, c),
        0 <= c < s.len(),
        reaches(s, c, j),
    ensures
        reaches(s, i, j),
    decreases j,
{
    assert(wf_block_at(s, i));
    if c == j {
        assert(has_parent(s, j, i));
        let m = choose|m: int| 0 <= m < s[j].prev@.len() && s[j].prev@[m] == i as usize;
        assert(wf_block_at(s, j));
        assert(s[j].prev@[m] < j);
        assert(reaches(s, i, s[j].prev@[m] as int));
        assert(reaches(s, i, j));
    } else {
        let m = choose|m: int|
            0 <= m < s[j].prev@.len() && s[j].prev@[m] < j && reaches(s, c, s[j].prev@[m] as int);
        let p = s[j].prev@[m] as int;
        lemma_reaches_via_next(s, i, c, p);
        assert(reaches(s, i, j));
    }
}

/// If `i` strictly reaches `j`, some direct child of `i` reaches `j`.
pub proof fn lemma_reaches_first_step(s: Seq<Block>, i: int, j: int)
    requires
        wf_blocks(s),
        0 <= i < s.len(),
        0 <= j < s.len(),
        reaches(s, i, j),
        i != j,
    ensures
        exists|m: int|
            0 <= m < s[i].next@.len() && reaches(s, (#[trigger] s[i].next@[m]) as int, j),
    decreases j,
{
    let m = choose|m: int|
        0 <= m < s[j].prev@.len() && s[j].prev@[m] < j && reaches(s, i, s[j].prev@[m] as int);
    let p = s[j].prev@[m] as int;
    assert(wf_block_at(s, j));
    if p == i {
        assert(has_parent(s, j, i));
        assert(has_child(s, i, j));
        let mm = choose|mm: int| 0 <= mm < s[i].next@.len() && s[i].next@[mm] == j as usize;
        assert((j as usize) as int == j);
        assert(reaches(s, s[i].next@[mm] as int, j));
    } else {
        lemma_reaches_first_step(s, i, p);
        let mm = choose|mm: int|
            0 <= mm < s[i].next@.len() && reaches(s, (s[i].next@[mm]) as int, p);
        assert(reaches(s, s[i].next@[mm] as int, j));
    }
}

/// The root (index 0) is an ancestor of every block.
pub proof fn lemma_root_reaches(s: Seq<Block>, j: int)
    requires
        wf_blocks(s),
        0 <= j < s.len(),
    ensures
        reaches(s, 0, j),
    decreases j,
{
    if j > 0 {
        assert(wf_block_at(s, j));
        let p = s[j].prev@[0];
        lemma_root_reaches(s, p as int);
        assert(reaches(s, 0, j));
    }
}

/// The root is never a member of any anticone.
pub proof fn lemma_root_not_in_anticone(s: Seq<Block>, t: int, refs: Seq<usize>)
    requires
        wf_blocks(s),
        0 <= t < s.len(),
    ensures
        !in_anticone(s, t, refs, 0),
{
    if s.len() > 0 {
        lemma_root_reaches(s, t);
    }
}

} // verus!

//! The anticone engine: computing, for a block and a reference set, the set
//! of blocks causally unrelated to it, together with its blue population.
//!
//! All traversals are single passes over the arena.  Since parent links
//! point down and child links point up in index order, a forward closure is
//! computed by one ascending sweep and a backward closure by one descending
//! sweep.

use vstd::prelude::*;
use crate::block::{
    Block, anticone_blue_count, distinct_seq, in_anticone, lemma_reaches_first_step,
    lemma_reaches_via_next, lemma_root_not_in_anticone, past_blue_count, reaches, reaches_set,
    strictly_increasing, wf_block_at, wf_blocks,
};
use crate::dag::{Node, find_in_blocks, vec_contains};
use vstd::string::StrSliceExecFns;

verus! {

/// Strict lexicographic order on character sequences, by code point.
pub open spec fn lex_lt(a: Seq<char>, b: Seq<char>) -> bool
    decreases a.len(),
{
    if b.len() == 0 {
        false
    } else if a.len() == 0 {
        true
    } else if a[0] != b[0] {
        (a[0] as u32) < (b[0] as u32)
    } else {
        lex_lt(a.skip(1), b.skip(1))
    }
}

proof fn lemma_lex_lt_connex(a: Seq<char>, b: Seq<char>)
    ensures
        a == b || lex_lt(a, b) || lex_lt(b, a),
    decreases a.len(),
{
    if b.len() == 0 {
        if a.len() == 0 {
            assert(a =~= b);
        }
    } else if a.len() == 0 {
    } else if a[0] != b[0] {
        assert((a[0] as u32) != (b[0] as u32)) by {
            vstd::utf8::char_u32_cast(a[0], a[0] as u32);
            vstd::utf8::char_u32_cast(b[0], b[0] as u32);
        }
    } else {
        lemma_lex_lt_connex(a.skip(1), b.skip(1));
        if a.skip(1) == b.skip(1) {
            assert(a =~= b) by {
                assert(a.skip(1).len() == a.len() - 1);
                assert(b.skip(1).len() == b.len() - 1);
                assert(a.len() == b.len());
                assert forall|i: int| 0 <= i < a.len() implies a[i] == b[i] by {
                    if i > 0 {
                        assert(a.skip(1)[i - 1] == a[i]);
                        assert(b.skip(1)[i - 1] == b[i]);
                    }
                }
            }
        }
    }
}

proof fn lemma_lex_lt_trans(a: Seq<char>, b: Seq<char>, c: Seq<char>)
    requires
        lex_lt(a, b),
        lex_lt(b, c),
    ensures
        lex_lt(a, c),
    decreases a.len(),
{
    if a.len() == 0 {
    } else {
        if a[0] != b[0] {
            if b[0] != c[0] {
                assert((a[0] as u32) < (c[0] as u32));
            }
        } else {
            if b[0] == c[0] {
                lemma_lex_lt_trans(a.skip(1), b.skip(1), c.skip(1));
            }
        }
    }
}

/// Sort key for the diagnostic listing: height first, then name.
pub open spec fn pair_lt(a: (Seq<char>, u64), b: (Seq<char>, u64)) -> bool {
    a.1 < b.1 || (a.1 == b.1 && lex_lt(a.0, b.0))
}

pub open spec fn pair_before(a: (Seq<char>, u64), b: (Seq<char>, u64), reverse: bool) -> bool {
    if reverse {
        pair_lt(b, a)
    } else {
        pair_lt(a, b)
    }
}

pub open spec fn pair_of(s: Seq<Block>, j: int) -> (Seq<char>, u64) {
    (s[j].name@, s[j].height)
}

pub open spec fn entry_view(e: (String, u64)) -> (Seq<char>, u64) {
    (e.0@, e.1)
}

proof fn lemma_pair_before_trans(
    a: (Seq<char>, u64),
    b: (Seq<char>, u64),
    c: (Seq<char>, u64),
    reverse: bool,
)
    requires
        pair_before(a, b, reverse),
        pair_before(b, c, reverse),
    ensures
        pair_before(a, c, reverse),
{
    if reverse {
        if c.1 == b.1 && b.1 == a.1 {
            lemma_lex_lt_trans(c.0, b.0, a.0);
        }
    } else {
        if a.1 == b.1 && b.1 == c.1 {
            lemma_lex_lt_trans(a.0, b.0, c.0);
        }
    }
}

proof fn lemma_pair_before_connex(a: (Seq<char>, u64), b: (Seq<char>, u64), reverse: bool)
    ensures
        a == b || pair_before(a, b, reverse) || pair_before(b, a, reverse),
{
    if a.1 == b.1 {
        lemma_lex_lt_connex(a.0, b.0);
    }
}

fn str_lt_at(a: &str, b: &str, i: usize) -> (r: bool)
    requires
        i <= a@.len(),
        i <= b@.len(),
    ensures
        r == lex_lt(a@.skip(i as int), b@.skip(i as int)),
    decreases a@.len() - i,
{
    if b.unicode_len() == i {
        false
    } else if a.unicode_len() == i {
        true
    } else {
        let ca = a.get_char(i);
        let cb = b.get_char(i);
        proof {
            assert(a@.skip(i as int)[0] == a@[i as int]);
            assert(b@.skip(i as int)[0] == b@[i as int]);
        }
        if ca != cb {
            (ca as u32) < (cb as u32)
        } else {
            let r = str_lt_at(a, b, i + 1);
            proof {
                assert(a@.skip(i as int).skip(1) =~= a@.skip(i + 1));
                assert(b@.skip(i as int).skip(1) =~= b@.skip(i + 1));
            }
            r
        }
    }
}

/// Lexicographic comparison of two string slices, by code point.
pub(crate) fn str_lt(a: &str, b: &str) -> (r: bool)
    ensures
        r == lex_lt(a@, b@),
{
    let r = str_lt_at(a, b, 0);
    proof {
        assert(a@.skip(0) =~= a@);
        assert(b@.skip(0) =~= b@);
    }
    r
}

fn entry_before(a: &(String, u64), b: &(String, u64), reverse: bool) -> (r: bool)
    ensures
        r == pair_before(entry_view(*a), entry_view(*b), reverse),
{
    let (x, y) = if reverse {
        (b, a)
    } else {
        (a, b)
    };
    if x.1 < y.1 {
        true
    } else if x.1 == y.1 {
        str_lt(x.0.as_str(), y.0.as_str())
    } else {
        false
    }
}

/// A block is in the past of a reference set exactly when it is a member
/// or some direct child of it is in that past.
proof fn lemma_reaches_set_step(s: Seq<Block>, refs: Seq<usize>, i: int)
    requires
        wf_blocks(s),
        0 <= i < s.len(),
        forall|m: int| 0 <= m < refs.len() ==> (#[trigger] refs[m]) < s.len(),
    ensures
        reaches_set(s, refs, i) == (refs.contains(i as usize) || exists|mm: int|
            0 <= mm < s[i].next@.len() && reaches_set(s, refs, (#[trigger] s[i].next@[mm]) as int)),
{
    assert(wf_block_at(s, i));
    if reaches_set(s, refs, i) {
        let m = choose|m: int| 0 <= m < refs.len() && reaches(s, i, refs[m] as int);
        if refs[m] == i as usize {
            assert(refs.contains(i as usize));
        } else {
            lemma_reaches_first_step(s, i, refs[m] as int);
            let mm = choose|mm: int|
                0 <= mm < s[i].next@.len() && reaches(s, (s[i].next@[mm]) as int, refs[m] as int);
            assert(reaches_set(s, refs, (s[i].next@[mm]) as int));
        }
    }
    if refs.contains(i as usize) {
        let m = choose|m: int| 0 <= m < refs.len() && refs[m] == i as usize;
        assert(reaches(s, i, refs[m] as int));
        assert(reaches_set(s, refs, i));
    }
    if exists|mm: int|
        0 <= mm < s[i].next@.len() && reaches_set(s, refs, (#[trigger] s[i].next@[mm]) as int) {
        let mm = choose|mm: int|
            0 <= mm < s[i].next@.len() && reaches_set(s, refs, (#[trigger] s[i].next@[mm]) as int);
        let c = s[i].next@[mm] as int;
        let m = choose|m: int| 0 <= m < refs.len() && reaches(s, c, refs[m] as int);
        assert(s[i].next@.contains(s[i].next@[mm]));
        lemma_reaches_via_next(s, i, c, refs[m] as int);
        assert(reaches_set(s, refs, i));
    }
}

/// Forward closure: `marks[j]` holds exactly when `x` reaches `j` through
/// child links (inclusively at `x` itself).
pub(crate) fn future_marks(blocks: &Vec<Block>, x: usize) -> (marks: Vec<bool>)
    requires
        wf_blocks(blocks@),
        x < blocks@.len(),
    ensures
        marks@.len() == blocks@.len(),
        forall|j: int| 0 <= j < blocks@.len() ==> marks@[j] == reaches(blocks@, x as int, j),
{
    let n = blocks.len();
    let mut marks: Vec<bool> = Vec::new();
    let mut j: usize = 0;
    while j < n
        invariant
            wf_blocks(blocks@),
            x < n,
            n == blocks@.len(),
            j <= n,
            marks@.len() == j,
            forall|jj: int| 0 <= jj < j ==> marks@[jj] == reaches(blocks@, x as int, jj),
        decreases n - j,
    {
        let plen = blocks[j].prev.len();
        let mut any: bool = j == x;
        let mut mm: usize = 0;
        while mm < plen
            invariant
                wf_blocks(blocks@),
                x < n,
                n == blocks@.len(),
                j < n,
                marks@.len() == j,
                forall|jj: int| 0 <= jj < j ==> marks@[jj] == reaches(blocks@, x as int, jj),
                plen == blocks@[j as int].prev@.len(),
                mm <= plen,
                any == (j == x || exists|q: int|
                    0 <= q < mm && reaches(
                        blocks@,
                        x as int,
                        (#[trigger] blocks@[j as int].prev@[q]) as int,
                    )),
            decreases plen - mm,
        {
            proof {
                assert(wf_block_at(blocks@, j as int));
            }
            let p = blocks[j].prev[mm];
            if marks[p] {
                any = true;
                proof {
                    assert(reaches(blocks@, x as int, (blocks@[j as int].prev@[mm as int]) as int));
                }
            }
            mm = mm + 1;
        }
        proof {
            assert(wf_block_at(blocks@, j as int));
            assert(any == reaches(blocks@, x as int, j as int)) by {
                if j as int != x as int {
                    if reaches(blocks@, x as int, j as int) {
                        let m = choose|m: int|
                            0 <= m < blocks@[j as int].prev@.len() && blocks@[j as int].prev@[m]
                                < j && reaches(
                                blocks@,
                                x as int,
                                (blocks@[j as int].prev@[m]) as int,
                            );
                        assert(reaches(blocks@, x as int, (blocks@[j as int].prev@[m]) as int));
                    }
                    if any {
                        let q = choose|q: int|
                            0 <= q < plen && reaches(
                                blocks@,
                                x as int,
                                (blocks@[j as int].prev@[q]) as int,
                            );
                        assert(blocks@[j as int].prev@[q] < j);
                        assert(reaches(blocks@, x as int, j as int));
                    }
                }
            }
        }
        marks.push(any);
        j = j + 1;
    }
    marks
}

/// Backward closure: `marks[j]` holds exactly when `j` lies in the past of
/// the reference set (members included).
pub(crate) fn past_marks(blocks: &Vec<Block>, refs: &Vec<usize>) -> (marks: Vec<bool>)
    requires
        wf_blocks(blocks@),
        forall|m: int| 0 <= m < refs@.len() ==> (#[trigger] refs@[m]) < blocks@.len(),
    ensures
        marks@.len() == blocks@.len(),
        forall|j: int| 0 <= j < blocks@.len() ==> marks@[j] == reaches_set(blocks@, refs@, j),
{
    let n = blocks.len();
    let mut marks: Vec<bool> = Vec::new();
    let mut j0: usize = 0;
    while j0 < n
        invariant
            n == blocks@.len(),
            j0 <= n,
            marks@.len() == j0,
        decreases n - j0,
    {
        marks.push(false);
        j0 = j0 + 1;
    }
    let mut j: usize = n;
    while j > 0
        invariant
            wf_blocks(blocks@),
            forall|m: int| 0 <= m < refs@.len() ==> (#[trigger] refs@[m]) < blocks@.len(),
            n == blocks@.len(),
            j <= n,
            marks@.len() == n,
            forall|jj: int| j <= jj < n ==> marks@[jj] == reaches_set(blocks@, refs@, jj),
        decreases j,
    {
        j = j - 1;
        let nlen = blocks[j].next.len();
        let mut any: bool = vec_contains(refs, j);
        let mut mm: usize = 0;
        while mm < nlen
            invariant
                wf_blocks(blocks@),
                forall|m: int| 0 <= m < refs@.len() ==> (#[trigger] refs@[m]) < blocks@.len(),
                n == blocks@.len(),
                j < n,
                marks@.len() == n,
                forall|jj: int| j + 1 <= jj < n ==> marks@[jj] == reaches_set(blocks@, refs@, jj),
                nlen == blocks@[j as int].next@.len(),
                mm <= nlen,
                any == (refs@.contains(j) || exists|q: int|
                    0 <= q < mm && reaches_set(
                        blocks@,
                        refs@,
                        (#[trigger] blocks@[j as int].next@[q]) as int,
                    )),
            decreases nlen - mm,
        {
            proof {
                assert(wf_block_at(blocks@, j as int));
            }
            let c = blocks[j].next[mm];
            if marks[c] {
                any = true;
                proof {
                    assert(reaches_set(
                        blocks@,
                        refs@,
                        (blocks@[j as int].next@[mm as int]) as int,
                    ));
                }
            }
            mm = mm + 1;
        }
        proof {
            lemma_reaches_set_step(blocks@, refs@, j as int);
        }
        marks.set(j, any);
    }
    marks
}

/// Number of blue blocks among the marked indices `< n`.
pub open spec fn marked_blue_count(s: Seq<Block>, m: Seq<bool>, n: int) -> int
    decreases n,
{
    if n <= 0 {
        0
    } else {
        marked_blue_count(s, m, n - 1) + if m[n - 1] && s[n - 1].is_blue {
            1int
        } else {
            0int
        }
    }
}

proof fn lemma_count_agree_anticone(s: Seq<Block>, m: Seq<bool>, t: int, refs: Seq<usize>, n: int)
    requires
        forall|j: int| 0 <= j < n ==> m[j] == in_anticone(s, t, refs, j),
    ensures
        marked_blue_count(s, m, n) == anticone_blue_count(s, t, refs, n),
    decreases n,
{
    if n > 0 {
        lemma_count_agree_anticone(s, m, t, refs, n - 1);
    }
}

fn count_blue_marked(blocks: &Vec<Block>, marks: &Vec<bool>) -> (c: u64)
    requires
        marks@.len() == blocks@.len(),
    ensures
        c == marked_blue_count(blocks@, marks@, blocks@.len() as int),
        c <= blocks@.len(),
{
    let n = blocks.len();
    let mut c: u64 = 0;
    let mut j: usize = 0;
    while j < n
        invariant
            n == blocks@.len(),
            marks@.len() == n,
            j <= n,
            c == marked_blue_count(blocks@, marks@, j as int),
            c <= j,
        decreases n - j,
    {
        if marks[j] && blocks[j].is_blue {
            c = c + 1;
        }
        j = j + 1;
    }
    c
}

proof fn lemma_count_agree_past(s: Seq<Block>, m: Seq<bool>, refs: Seq<usize>, n: int)
    requires
        forall|j: int| 0 <= j < n ==> m[j] == reaches_set(s, refs, j),
    ensures
        marked_blue_count(s, m, n) == past_blue_count(s, refs, n),
    decreases n,
{
    if n > 0 {
        lemma_count_agree_past(s, m, refs, n - 1);
    }
}

/// Number of blue blocks in the past of the reference set (members
/// included).
pub(crate) fn past_blue_of(blocks: &Vec<Block>, refs: &Vec<usize>) -> (c: u64)
    requires
        wf_blocks(blocks@),
        forall|m: int| 0 <= m < refs@.len() ==> (#[trigger] refs@[m]) < blocks@.len(),
    ensures
        c == past_blue_count(blocks@, refs@, blocks@.len() as int),
        c <= blocks@.len(),
{
    let marks = past_marks(blocks, refs);
    let c = count_blue_marked(blocks, &marks);
    proof {
        lemma_count_agree_past(blocks@, marks@, refs@, blocks@.len() as int);
    }
    c
}

/// Collect the marked indices in ascending order.
pub(crate) fn marks_to_vec(marks: &Vec<bool>) -> (r: Vec<usize>)
    ensures
        strictly_increasing(r@),
        forall|j: usize| #[trigger]
            r@.contains(j) <==> (j < marks@.len() && marks@[j as int]),
        forall|a: int| 0 <= a < r@.len() ==> (#[trigger] r@[a]) < marks@.len(),
{
    let n = marks.len();
    let mut r: Vec<usize> = Vec::new();
    let mut j: usize = 0;
    while j < n
        invariant
            n == marks@.len(),
            j <= n,
            strictly_increasing(r@),
            forall|a: int| 0 <= a < r@.len() ==> (#[trigger] r@[a]) < j,
            forall|jj: usize| #[trigger] r@.contains(jj) <==> (jj < j && marks@[jj as int]),
        decreases n - j,
    {
        let ghost r0 = r@;
        if marks[j] {
            r.push(j);
        }
        proof {
            assert forall|jj: usize|
                #[trigger] r@.contains(jj) <==> (jj < j + 1 && marks@[jj as int]) by {
                if marks@[j as int] {
                    assert(r@ == r0.push(j));
                    if r@.contains(jj) {
                        let a = choose|a: int| 0 <= a < r@.len() && r@[a] == jj;
                        if a < r@.len() - 1 {
                            assert(r0[a] == jj);
                            assert(r0.contains(jj));
                        } else {
                            assert(jj == j);
                        }
                    }
                    if jj < j + 1 && marks@[jj as int] {
                        if jj < j {
                            assert(r0.contains(jj));
                            let a = choose|a: int| 0 <= a < r0.len() && r0[a] == jj;
                            assert(r@[a] == jj);
                            assert(r@.contains(jj));
                        } else {
                            assert(r@[r@.len() - 1] == jj);
                            assert(r@.contains(jj));
                        }
                    }
                } else {
                    assert(r@ == r0);
                    if r@.contains(jj) {
                        assert(jj < j && marks@[jj as int]);
                    }
                    if jj < j + 1 && marks@[jj as int] {
                        assert(jj != j);
                        assert(r@.contains(jj));
                    }
                }
            }
        }
        j = j + 1;
    }
    r
}

/// Marks of the anticone of `t` relative to `refs`: in the past of `refs`,
/// but neither an ancestor nor a descendant of `t`.
pub(crate) fn anticone_marks(blocks: &Vec<Block>, t: usize, refs: &Vec<usize>) -> (marks: Vec<
    bool,
>)
    requires
        wf_blocks(blocks@),
        t < blocks@.len(),
        forall|m: int| 0 <= m < refs@.len() ==> (#[trigger] refs@[m]) < blocks@.len(),
    ensures
        marks@.len() == blocks@.len(),
        forall|j: int|
            0 <= j < blocks@.len() ==> marks@[j] == in_anticone(blocks@, t as int, refs@, j),
{
    let n = blocks.len();
    let pastr = past_marks(blocks, refs);
    let mut single: Vec<usize> = Vec::new();
    single.push(t);
    let anc = past_marks(blocks, &single);
    let desc = future_marks(blocks, t);
    proof {
        assert forall|j: int| 0 <= j < n implies anc@[j] == reaches(blocks@, j, t as int) by {
            if reaches_set(blocks@, single@, j) {
                let m = choose|m: int|
                    0 <= m < single@.len() && reaches(blocks@, j, single@[m] as int);
                assert(single@[m] == t);
            }
            if reaches(blocks@, j, t as int) {
                assert(single@[0] == t);
                assert(reaches_set(blocks@, single@, j));
            }
        }
    }
    let mut marks: Vec<bool> = Vec::new();
    let mut j: usize = 0;
    while j < n
        invariant
            n == blocks@.len(),
            j <= n,
            pastr@.len() == n,
            anc@.len() == n,
            desc@.len() == n,
            forall|jj: int| 0 <= jj < n ==> pastr@[jj] == reaches_set(blocks@, refs@, jj),
            forall|jj: int| 0 <= jj < n ==> anc@[jj] == reaches(blocks@, jj, t as int),
            forall|jj: int| 0 <= jj < n ==> desc@[jj] == reaches(blocks@, t as int, jj),
            marks@.len() == j,
            forall|jj: int|
                0 <= jj < j ==> marks@[jj] == in_anticone(blocks@, t as int, refs@, jj),
        decreases n - j,
    {
        let v = pastr[j] && !anc[j] && !desc[j];
        marks.push(v);
        j = j + 1;
    }
    marks
}

/// The anticone of `t` relative to `refs`, as an ascending index vector
/// paired with the number of blue blocks inside it.
pub(crate) fn anticone_blue_of(blocks: &Vec<Block>, t: usize, refs: &Vec<usize>) -> (r: (
    i64,
    Vec<usize>,
))
    requires
        wf_blocks(blocks@),
        t < blocks@.len(),
        forall|m: int| 0 <= m < refs@.len() ==> (#[trigger] refs@[m]) < blocks@.len(),
    ensures
        r.0 == anticone_blue_count(blocks@, t as int, refs@, blocks@.len() as int),
        0 <= r.0 <= blocks@.len(),
        strictly_increasing(r.1@),
        forall|j: usize| #[trigger]
            r.1@.contains(j) <==> (j < blocks@.len() && in_anticone(
                blocks@,
                t as int,
                refs@,
                j as int,
            )),
        forall|a: int| 0 <= a < r.1@.len() ==> (#[trigger] r.1@[a]) < blocks@.len(),
        !r.1@.contains(0usize),
{
    let marks = anticone_marks(blocks, t, refs);
    let c = count_blue_marked(blocks, &marks);
    let v = marks_to_vec(&marks);
    proof {
        lemma_count_agree_anticone(blocks@, marks@, t as int, refs@, blocks@.len() as int);
        lemma_root_not_in_anticone(blocks@, t as int, refs@);
    }
    (c as i64, v)
}

/// The anticone of the named block relative to the current tips, as an
/// ascending sequence of arena indices.  An unknown name yields the empty
/// vector.
pub fn tips_anticone(block_name: &str, node: &Node) -> (r: Vec<usize>)
    requires
        node.wf(),
    ensures
        strictly_increasing(r@),
        forall|a: int| 0 <= a < r@.len() ==> (#[trigger] r@[a]) < node.blocks@.len(),
        forall|i: int|
            0 <= i < node.blocks@.len() && node.blocks@[i].name@ == block_name@ ==> (forall|
                j: usize,
            |
                #[trigger] r@.contains(j) <==> (j < node.blocks@.len() && in_anticone(
                    node.blocks@,
                    i,
                    node.tips@,
                    j as int,
                ))),
        (forall|i: int|
            0 <= i < node.blocks@.len() ==> (#[trigger] node.blocks@[i]).name@ != block_name@)
            ==> r@.len() == 0,
{
    match find_in_blocks(&node.blocks, block_name) {
        None => Vec::new(),
        Some(t) => {
            let (_c, v) = anticone_blue_of(&node.blocks, t, &node.tips);
            proof {
                assert forall|i: int|
                    0 <= i < node.blocks@.len() && node.blocks@[i].name@ == block_name@ implies i
                    == t as int by {
                    if i != t as int {
                        assert(node.blocks@[i].name@ != node.blocks@[t as int].name@);
                    }
                }
            }
            v
        },
    }
}

/// The anticone of the named block relative to the current tips together
/// with the count of blue blocks inside it.  For a known block the count
/// is always established exactly; for an unknown name the undetermined
/// signal `-1` is returned and callers must not classify.  The parameter
/// `k` is the consensus bound the caller will compare the count against;
/// the computation itself never needs it.
#[allow(unused_variables)]
pub fn tips_anticone_blue(block_name: &str, node: &Node, k: i32) -> (r: (i64, Vec<usize>))
    requires
        node.wf(),
    ensures
        strictly_increasing(r.1@),
        forall|a: int| 0 <= a < r.1@.len() ==> (#[trigger] r.1@[a]) < node.blocks@.len(),
        forall|i: int|
            0 <= i < node.blocks@.len() && node.blocks@[i].name@ == block_name@ ==> r.0
                == anticone_blue_count(node.blocks@, i, node.tips@, node.blocks@.len() as int)
                && 0 <= r.0 && (forall|j: usize|
                #[trigger] r.1@.contains(j) <==> (j < node.blocks@.len() && in_anticone(
                    node.blocks@,
                    i,
                    node.tips@,
                    j as int,
                ))),
        (forall|i: int|
            0 <= i < node.blocks@.len() ==> (#[trigger] node.blocks@[i]).name@ != block_name@)
            ==> (r.0 == -1 && r.1@.len() == 0),
{
    match find_in_blocks(&node.blocks, block_name) {
        None => (-1, Vec::new()),
        Some(t) => {
            let r = anticone_blue_of(&node.blocks, t, &node.tips);
            proof {
                assert forall|i: int|
                    0 <= i < node.blocks@.len() && node.blocks@[i].name@ == block_name@ implies i
                    == t as int by {
                    if i != t as int {
                        assert(node.blocks@[i].name@ != node.blocks@[t as int].name@);
                    }
                }
            }
            r
        },
    }
}

#[verifier::rlimit(100)]
proof fn lemma_sorted_insert(
    s: Seq<Block>,
    sel: Seq<usize>,
    q: int,
    reverse: bool,
    r0: Seq<(String, u64)>,
    r1: Seq<(String, u64)>,
    entry: (String, u64),
    pos: int,
)
    requires
        0 <= q < sel.len(),
        r0.len() == q,
        0 <= pos <= r0.len(),
        r1 == r0.insert(pos, entry),
        entry_view(entry) == pair_of(s, sel[q] as int),
        forall|a: int, b: int|
            #![trigger r0[a], r0[b]]
            0 <= a < b < r0.len() ==> pair_before(entry_view(r0[a]), entry_view(r0[b]), reverse),
        forall|a: int|
            0 <= a < pos ==> pair_before(entry_view(#[trigger] r0[a]), entry_view(entry), reverse),
        forall|b: int|
            pos <= b < r0.len() ==> pair_before(
                entry_view(entry),
                entry_view(#[trigger] r0[b]),
                reverse,
            ),
        forall|a: int|
            0 <= a < r0.len() ==> exists|p: int|
                0 <= p < q && entry_view(#[trigger] r0[a]) == pair_of(s, #[trigger] sel[p] as int),
    ensures
        r1.len() == q + 1,
        forall|a: int, b: int|
            #![trigger r1[a], r1[b]]
            0 <= a < b < r1.len() ==> pair_before(entry_view(r1[a]), entry_view(r1[b]), reverse),
        forall|a: int|
            0 <= a < r1.len() ==> exists|p: int|
                0 <= p < q + 1 && entry_view(#[trigger] r1[a]) == pair_of(s, #[trigger] sel[p] as int),
{
    assert forall|a: int| 0 <= a < r1.len() implies (#[trigger] r1[a]) == (if a < pos {
        r0[a]
    } else if a == pos {
        entry
    } else {
        r0[a - 1]
    }) by {}
    assert forall|a: int, b: int|
        #![trigger r1[a], r1[b]]
        0 <= a < b < r1.len() implies pair_before(entry_view(r1[a]), entry_view(r1[b]), reverse)
        by {
        if b < pos {
            assert(r1[a] == r0[a] && r1[b] == r0[b]);
        } else if a < pos && b == pos {
            assert(r1[a] == r0[a]);
        } else if a < pos && b > pos {
            assert(r1[a] == r0[a] && r1[b] == r0[b - 1]);
        } else if a == pos {
            assert(r1[b] == r0[b - 1]);
        } else {
            assert(r1[a] == r0[a - 1] && r1[b] == r0[b - 1]);
        }
    }
    assert forall|a: int|
        0 <= a < r1.len() implies exists|p: int|
        0 <= p < q + 1 && entry_view(#[trigger] r1[a]) == pair_of(s, #[trigger] sel[p] as int) by {
        if a < pos {
            let p = choose|p: int|
                0 <= p < q && entry_view(r0[a]) == pair_of(s, sel[p] as int);
            assert(entry_view(r1[a]) == pair_of(s, sel[p] as int));
        } else if a == pos {
            assert(entry_view(r1[a]) == pair_of(s, sel[q] as int));
        } else {
            let p = choose|p: int|
                0 <= p < q && entry_view(r0[a - 1]) == pair_of(s, sel[p] as int);
            assert(entry_view(r1[a]) == pair_of(s, sel[p] as int));
        }
    }
}

/// List the selected blocks as `(name, height)` pairs, sorted ascending by
/// height with ties broken by name (descending when `reverse` is set).
/// Every selected block appears exactly once, so the listing is a
/// deterministic description of the selection.
#[verifier::rlimit(100)]
pub fn sorted_keys_by_height(node: &Node, selection: &Vec<usize>, reverse: bool) -> (r: Vec<(
    String,
    u64,
)>)
    requires
        node.wf(),
        forall|q: int|
            0 <= q < selection@.len() ==> (#[trigger] selection@[q]) < node.blocks@.len(),
        distinct_seq(selection@),
    ensures
        r@.len() == selection@.len(),
        forall|a: int, b: int|
            #![trigger r@[a], r@[b]]
            0 <= a < b < r@.len() ==> pair_before(entry_view(r@[a]), entry_view(r@[b]), reverse),
{
    let ghost s = node.blocks@;
    let slen = selection.len();
    let mut r: Vec<(String, u64)> = Vec::new();
    let mut q: usize = 0;
    while q < slen
        invariant
            wf_blocks(node.blocks@),
            s == node.blocks@,
            slen == selection@.len(),
            q <= slen,
            forall|p: int| 0 <= p < slen ==> (#[trigger] selection@[p]) < s.len(),
            distinct_seq(selection@),
            r@.len() == q,
            forall|a: int, b: int|
                #![trigger r@[a], r@[b]]
                0 <= a < b < r@.len() ==> pair_before(
                    entry_view(r@[a]),
                    entry_view(r@[b]),
                    reverse,
                ),
            forall|a: int|
                0 <= a < r@.len() ==> exists|p: int|
                    0 <= p < q && entry_view(#[trigger] r@[a]) == pair_of(s, #[trigger] selection@[p] as int),
        decreases slen - q,
    {
        let idx = selection[q];
        let entry = (node.blocks[idx].name.clone(), node.blocks[idx].height);
        proof {
            assert(entry_view(entry) == pair_of(s, idx as int));
            // the new pair differs from every pair already listed: all the
            // names are distinct
            assert forall|a: int| 0 <= a < r@.len() implies entry_view(r@[a]) != entry_view(
                entry,
            ) by {
                let p = choose|p: int|
                    0 <= p < q && entry_view(r@[a]) == pair_of(s, selection@[p] as int);
                assert(selection@[p] != selection@[q as int]);
                assert(s[selection@[p] as int].name@ != s[selection@[q as int] as int].name@);
            }
        }
        let rl = r.len();
        let mut pos: usize = 0;
        while pos < rl && entry_before(&r[pos], &entry, reverse)
            invariant
                rl == r@.len(),
                pos <= rl,
                forall|a: int|
                    0 <= a < pos ==> pair_before(
                        entry_view(#[trigger] r@[a]),
                        entry_view(entry),
                        reverse,
                    ),
            decreases rl - pos,
        {
            pos = pos + 1;
        }
        let ghost r0 = r@;
        proof {
            if pos < rl {
                lemma_pair_before_connex(entry_view(r0[pos as int]), entry_view(entry), reverse);
                assert(pair_before(entry_view(entry), entry_view(r0[pos as int]), reverse));
            }
            assert forall|b: int| pos <= b < rl implies pair_before(
                entry_view(entry),
                entry_view(#[trigger] r0[b]),
                reverse,
            ) by {
                if b > pos {
                    lemma_pair_before_trans(
                        entry_view(entry),
                        entry_view(r0[pos as int]),
                        entry_view(r0[b]),
                        reverse,
                    );
                }
            }
        }
        r.insert(pos, entry);
        proof {
            lemma_sorted_insert(
                s,
                selection@,
                q as int,
                reverse,
                r0,
                r@,
                entry,
                pos as int,
            );
        }
        q = q + 1;
    }
    r
}

/// Remove from `set`, in place, every index that is an ancestor or a
/// descendant of `b` (or `b` itself); the relative order of the remaining
/// members is preserved.
pub fn remove_past_future(node: &Node, b: usize, set: &mut Vec<usize>)
    requires
        node.wf(),
        b < node.blocks@.len(),
        forall|a: int| 0 <= a < old(set)@.len() ==> (#[trigger] old(set)@[a]) < node.blocks@.len(),
        distinct_seq(old(set)@),
    ensures
        distinct_seq(final(set)@),
        forall|a: int| 0 <= a < final(set)@.len() ==> (#[trigger] final(set)@[a])
            < node.blocks@.len(),
        forall|j: usize| #[trigger]
            final(set)@.contains(j) <==> (old(set)@.contains(j) && j < node.blocks@.len()
                && !reaches(node.blocks@, j as int, b as int) && !reaches(
                node.blocks@,
                b as int,
                j as int,
            )),
{
    let n = node.blocks.len();
    let mut single: Vec<usize> = Vec::new();
    single.push(b);
    let anc = past_marks(&node.blocks, &single);
    let desc = future_marks(&node.blocks, b);
    proof {
        assert forall|j: int| 0 <= j < n implies anc@[j] == reaches(node.blocks@, j, b as int) by {
            if reaches_set(node.blocks@, single@, j) {
                let m = choose|m: int|
                    0 <= m < single@.len() && reaches(node.blocks@, j, single@[m] as int);
                assert(single@[m] == b);
            }
            if reaches(node.blocks@, j, b as int) {
                assert(single@[0] == b);
                assert(reaches_set(node.blocks@, single@, j));
            }
        }
    }
    let len = set.len();
    let mut r: Vec<usize> = Vec::new();
    let mut a: usize = 0;
    while a < len
        invariant
            n == node.blocks@.len(),
            anc@.len() == n,
            desc@.len() == n,
            forall|jj: int| 0 <= jj < n ==> anc@[jj] == reaches(node.blocks@, jj, b as int),
            forall|jj: int| 0 <= jj < n ==> desc@[jj] == reaches(node.blocks@, b as int, jj),
            len == set@.len(),
            a <= len,
            distinct_seq(set@),
            forall|q: int| 0 <= q < set@.len() ==> (#[trigger] set@[q]) < n,
            distinct_seq(r@),
            forall|q: int| 0 <= q < r@.len() ==> (#[trigger] r@[q]) < n,
            forall|q: int|
                0 <= q < r@.len() ==> exists|p: int| 0 <= p < a && set@[p] == #[trigger] r@[q],
            forall|j: usize| #[trigger]
                r@.contains(j) <==> (set@.subrange(0, a as int).contains(j) && j < n && !reaches(
                    node.blocks@,
                    j as int,
                    b as int,
                ) && !reaches(node.blocks@, b as int, j as int)),
        decreases len - a,
    {
        let x = set[a];
        let ghost r0 = r@;
        let keep = !anc[x] && !desc[x];
        if keep {
            proof {
                assert(!r0.contains(x)) by {
                    if r0.contains(x) {
                        let q = choose|q: int| 0 <= q < r0.len() && r0[q] == x;
                        let p = choose|p: int| 0 <= p < a && set@[p] == r0[q];
                        assert(set@[p] == set@[a as int]);
                    }
                }
            }
            r.push(x);
        }
        proof {
            let pre = set@.subrange(0, a as int);
            let cur = set@.subrange(0, a + 1);
            assert(cur =~= pre.push(x));
            assert forall|j: usize| #[trigger]
                r@.contains(j) <==> (cur.contains(j) && j < n && !reaches(
                    node.blocks@,
                    j as int,
                    b as int,
                ) && !reaches(node.blocks@, b as int, j as int)) by {
                if keep {
                    assert(r@ == r0.push(x));
                    if r@.contains(j) {
                        let q = choose|q: int| 0 <= q < r@.len() && r@[q] == j;
                        if q < r@.len() - 1 {
                            assert(r0[q] == j);
                            assert(r0.contains(j));
                            assert(pre.contains(j));
                            let p = choose|p: int| 0 <= p < pre.len() && pre[p] == j;
                            assert(cur[p] == j);
                            assert(cur.contains(j));
                        } else {
                            assert(j == x);
                            assert(cur[a as int] == j);
                            assert(cur.contains(j));
                        }
                    }
                    if cur.contains(j) && j < n && !reaches(node.blocks@, j as int, b as int)
                        && !reaches(node.blocks@, b as int, j as int) {
                        let p = choose|p: int| 0 <= p < cur.len() && cur[p] == j;
                        if p < a {
                            assert(pre[p] == j);
                            assert(pre.contains(j));
                            assert(r0.contains(j));
                            let q = choose|q: int| 0 <= q < r0.len() && r0[q] == j;
                            assert(r@[q] == j);
                            assert(r@.contains(j));
                        } else {
                            assert(j == x);
                            assert(r@[r@.len() - 1] == j);
                            assert(r@.contains(j));
                        }
                    }
                } else {
                    assert(r@ == r0);
                    if r@.contains(j) {
                        assert(pre.contains(j));
                        let p = choose|p: int| 0 <= p < pre.len() && pre[p] == j;
                        assert(cur[p] == j);
                        assert(cur.contains(j));
                    }
                    if cur.contains(j) && j < n && !reaches(node.blocks@, j as int, b as int)
                        && !reaches(node.blocks@, b as int, j as int) {
                        let p = choose|p: int| 0 <= p < cur.len() && cur[p] == j;
                        if p < a {
                            assert(pre[p] == j);
                            assert(pre.contains(j));
                            assert(r@.contains(j));
                        } else {
                            assert(j == x);
                        }
                    }
                }
            }
        }
        a = a + 1;
    }
    proof {
        assert(set@.subrange(0, len as int) =~= set@);
    }
    *set = r;
}

} // verus!

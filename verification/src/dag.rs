//! The DAG container: the arena of blocks, the tip set, and insertion.

use vstd::prelude::*;
use vstd::string::StrSliceExecFns;
use crate::block::{
    Block, DagError, blocks_equal, block_fields_equal, distinct_seq, has_child, has_parent,
    past_blue_count, structure_equal_at, wf_block_at, wf_blocks,
};

verus! {

/// The DAG container.
///
/// `blocks` is an arena: a block's index never changes, all of its parents
/// have smaller indices and all of its children larger ones.  `tips` holds
/// the indices of the current frontier; it is maintained by `update_tips`
/// and may lag behind the arena between an insertion and the matching
/// `update_tips` call.  `height` is the maximum block height and
/// `size_of_dag` the number of blocks.
pub struct Node {
    pub name: String,
    pub blocks: Vec<Block>,
    pub tips: Vec<usize>,
    pub height: u64,
    pub size_of_dag: u64,
}

impl Node {
    pub open spec fn wf(self) -> bool {
        &&& wf_blocks(self.blocks@)
        &&& self.size_of_dag == self.blocks@.len()
        &&& forall|m: int| 0 <= m < self.tips@.len() ==> (#[trigger] self.tips@[m]) < self.blocks@.len()
        &&& distinct_seq(self.tips@)
        &&& forall|i: int|
            0 <= i < self.blocks@.len() ==> (#[trigger] self.blocks@[i]).height <= self.height
        &&& (self.blocks@.len() == 0 ==> self.height == 0)
        &&& (self.blocks@.len() > 0 ==> exists|i: int|
            0 <= i < self.blocks@.len() && (#[trigger] self.blocks@[i]).height == self.height)
    }

    /// Create an empty DAG instance with the given label.
    pub fn init(name: &str) -> (r: Node)
        ensures
            r.wf(),
            r.blocks@.len() == 0,
            r.tips@.len() == 0,
            r.height == 0,
            r.size_of_dag == 0,
            r.name@ == name@,
    {
        Node {
            name: name.to_owned(),
            blocks: Vec::new(),
            tips: Vec::new(),
            height: 0,
            size_of_dag: 0,
        }
    }
}

/// Two string slices hold the same characters.
pub(crate) fn str_eq(a: &str, b: &str) -> (r: bool)
    ensures
        r == (a@ == b@),
{
    let la = a.unicode_len();
    let lb = b.unicode_len();
    if la != lb {
        proof {
            assert(a@ != b@);
        }
        false
    } else {
        str_eq_at(a, b, 0)
    }
}

fn str_eq_at(a: &str, b: &str, i: usize) -> (r: bool)
    requires
        a@.len() == b@.len(),
        i <= a@.len(),
        forall|m: int| 0 <= m < i ==> a@[m] == b@[m],
    ensures
        r == (a@ == b@),
    decreases a@.len() - i,
{
    if i == a.unicode_len() {
        proof {
            assert(a@ =~= b@);
        }
        true
    } else {
        let ca = a.get_char(i);
        let cb = b.get_char(i);
        if ca == cb {
            str_eq_at(a, b, i + 1)
        } else {
            proof {
                assert(a@[i as int] != b@[i as int]);
            }
            false
        }
    }
}

/// Linear membership test on an index vector.
pub(crate) fn vec_contains(v: &Vec<usize>, x: usize) -> (r: bool)
    ensures
        r == v@.contains(x),
{
    let n = v.len();
    let mut i: usize = 0;
    while i < n
        invariant
            n == v@.len(),
            i <= n,
            forall|m: int| 0 <= m < i ==> v@[m] != x,
        decreases n - i,
    {
        if v[i] == x {
            return true;
        }
        i = i + 1;
    }
    proof {
        assert(!v@.contains(x));
    }
    false
}

/// Element-wise copy of an index vector.
pub(crate) fn copy_idx_vec(v: &Vec<usize>) -> (r: Vec<usize>)
    ensures
        r@ == v@,
{
    let n = v.len();
    let mut r: Vec<usize> = Vec::new();
    let mut i: usize = 0;
    while i < n
        invariant
            n == v@.len(),
            i <= n,
            r@ == v@.subrange(0, i as int),
        decreases n - i,
    {
        r.push(v[i]);
        i = i + 1;
    }
    proof {
        assert(v@.subrange(0, n as int) =~= v@);
    }
    r
}

/// Index of the block with the given name inside an arena, if any.
pub(crate) fn find_in_blocks(blocks: &Vec<Block>, name: &str) -> (r: Option<usize>)
    ensures
        match r {
            Some(i) => i < blocks@.len() && blocks@[i as int].name@ == name@,
            None => forall|i: int|
                0 <= i < blocks@.len() ==> (#[trigger] blocks@[i]).name@ != name@,
        },
{
    let n = blocks.len();
    let mut i: usize = 0;
    while i < n
        invariant
            n == blocks@.len(),
            i <= n,
            forall|m: int| 0 <= m < i ==> (#[trigger] blocks@[m]).name@ != name@,
        decreases n - i,
    {
        if str_eq(blocks[i].name.as_str(), name) {
            return Some(i);
        }
        i = i + 1;
    }
    None
}

/// Index of the block with the given name, if any.
pub fn find_block(node: &Node, name: &str) -> (r: Option<usize>)
    ensures
        match r {
            Some(i) => i < node.blocks@.len() && node.blocks@[i as int].name@ == name@,
            None => forall|i: int|
                0 <= i < node.blocks@.len() ==> (#[trigger] node.blocks@[i]).name@ != name@,
        },
{
    find_in_blocks(&node.blocks, name)
}

/// Replacing a block with one of equal structure and a consistent
/// classification keeps the arena well formed.
pub(crate) proof fn lemma_wf_update_classification(a: Seq<Block>, b: Seq<Block>, i: int)
    requires
        wf_blocks(a),
        0 <= i < a.len(),
        b.len() == a.len(),
        forall|j: int| 0 <= j < a.len() && j != i ==> b[j] == a[j],
        structure_equal_at(a, b, i),
        b[i].size_of_anticone_blue >= -1,
        !b[i].is_blue ==> b[i].size_of_anticone_blue == -1,
    ensures
        wf_blocks(b),
{
    assert forall|y: int| 0 <= y < a.len() implies (#[trigger] b[y]).height == a[y].height
        && b[y].prev@ == a[y].prev@ && b[y].next@ == a[y].next@ && b[y].name@ == a[y].name@
        && b[y].is_blue == (if y == i { b[i].is_blue } else { a[y].is_blue })
        && b[y].size_of_anticone_blue == (if y == i {
        b[i].size_of_anticone_blue
    } else {
        a[y].size_of_anticone_blue
    }) by {
        if y != i {
            assert(b[y] == a[y]);
        }
    }
    assert forall|x: int| 0 <= x < b.len() implies #[trigger] wf_block_at(b, x) by {
        assert(wf_block_at(a, x));
        if a[x].prev@.len() > 0 {
            let m = choose|m: int|
                0 <= m < a[x].prev@.len() && a[x].height == a[a[x].prev@[m] as int].height + 1;
            assert(b[x].height == b[b[x].prev@[m] as int].height + 1);
        }
    }
    assert forall|x: int, y: int|
        0 <= x < b.len() && 0 <= y < b.len() implies (has_parent(b, x, y) <==> has_child(
        b,
        y,
        x,
    )) by {
        assert(has_parent(a, x, y) <==> has_child(a, y, x));
        assert(b[x].prev@ == a[x].prev@);
        assert(b[y].next@ == a[y].next@);
    }
}

/// Overwrite the classification state (`is_blue`, `size_of_anticone_blue`)
/// of the block at `i`, leaving everything else unchanged.
pub(crate) fn set_classification(blocks: &mut Vec<Block>, i: usize, blue: bool, sab: i64)
    requires
        wf_blocks(old(blocks)@),
        i < old(blocks)@.len(),
        !blue ==> sab == -1,
        sab >= -1,
    ensures
        wf_blocks(final(blocks)@),
        final(blocks)@.len() == old(blocks)@.len(),
        forall|j: int|
            0 <= j < final(blocks)@.len() && j != i ==> final(blocks)@[j] == old(blocks)@[j],
        structure_equal_at(old(blocks)@, final(blocks)@, i as int),
        final(blocks)@[i as int].is_blue == blue,
        final(blocks)@[i as int].size_of_anticone_blue == sab,
        final(blocks)@[i as int].size_of_past_blue == old(blocks)@[i as int].size_of_past_blue,
{
    let nb = Block {
        name: blocks[i].name.clone(),
        prev: copy_idx_vec(&blocks[i].prev),
        next: copy_idx_vec(&blocks[i].next),
        height: blocks[i].height,
        is_blue: blue,
        size_of_past_blue: blocks[i].size_of_past_blue,
        size_of_anticone_blue: sab,
    };
    blocks.set(i, nb);
    proof {
        lemma_wf_update_classification(old(blocks)@, blocks@, i as int);
    }
}

/// Decrement `size_of_past_blue` of the block at `i` by one, saturating at
/// zero.
pub(crate) fn dec_past_blue(blocks: &mut Vec<Block>, i: usize)
    requires
        wf_blocks(old(blocks)@),
        i < old(blocks)@.len(),
    ensures
        wf_blocks(final(blocks)@),
        final(blocks)@.len() == old(blocks)@.len(),
        forall|j: int|
            0 <= j < final(blocks)@.len() && j != i ==> final(blocks)@[j] == old(blocks)@[j],
        structure_equal_at(old(blocks)@, final(blocks)@, i as int),
        final(blocks)@[i as int].is_blue == old(blocks)@[i as int].is_blue,
        final(blocks)@[i as int].size_of_anticone_blue == old(blocks)@[i as int].size_of_anticone_blue,
        final(blocks)@[i as int].size_of_past_blue == (if old(blocks)@[i as int].size_of_past_blue > 0 {
            (old(blocks)@[i as int].size_of_past_blue - 1) as u64
        } else {
            0u64
        }),
{
    let pb = blocks[i].size_of_past_blue;
    let nb = Block {
        name: blocks[i].name.clone(),
        prev: copy_idx_vec(&blocks[i].prev),
        next: copy_idx_vec(&blocks[i].next),
        height: blocks[i].height,
        is_blue: blocks[i].is_blue,
        size_of_past_blue: if pb > 0 {
            pb - 1
        } else {
            0
        },
        size_of_anticone_blue: blocks[i].size_of_anticone_blue,
    };
    blocks.set(i, nb);
    proof {
        assert(wf_block_at(old(blocks)@, i as int));
        lemma_wf_update_classification(old(blocks)@, blocks@, i as int);
    }
}

/// Append `c` to the child list of the block at `p`.  Well-formedness of
/// the arena is deliberately not part of the contract: the caller adds the
/// child block itself and re-establishes it.
pub(crate) fn push_child(blocks: &mut Vec<Block>, p: usize, c: usize)
    requires
        p < old(blocks)@.len(),
    ensures
        final(blocks)@.len() == old(blocks)@.len(),
        forall|j: int|
            0 <= j < final(blocks)@.len() && j != p ==> final(blocks)@[j] == old(blocks)@[j],
        final(blocks)@[p as int].name@ == old(blocks)@[p as int].name@,
        final(blocks)@[p as int].prev@ == old(blocks)@[p as int].prev@,
        final(blocks)@[p as int].next@ == old(blocks)@[p as int].next@.push(c),
        final(blocks)@[p as int].height == old(blocks)@[p as int].height,
        final(blocks)@[p as int].is_blue == old(blocks)@[p as int].is_blue,
        final(blocks)@[p as int].size_of_past_blue == old(blocks)@[p as int].size_of_past_blue,
        final(blocks)@[p as int].size_of_anticone_blue == old(blocks)@[p as int].size_of_anticone_blue,
{
    let mut nx = copy_idx_vec(&blocks[p].next);
    nx.push(c);
    let nb = Block {
        name: blocks[p].name.clone(),
        prev: copy_idx_vec(&blocks[p].prev),
        next: nx,
        height: blocks[p].height,
        is_blue: blocks[p].is_blue,
        size_of_past_blue: blocks[p].size_of_past_blue,
        size_of_anticone_blue: blocks[p].size_of_anticone_blue,
    };
    blocks.set(p, nb);
}

/// Bring the tip set up to date after inserting the named block: every
/// parent of the block leaves the tip set (it now has a child) and the
/// block itself joins it.  Remaining tips keep their relative order and the
/// new block is appended last, so iteration order is deterministic.
pub fn update_tips(name: &str, node: &mut Node)
    requires
        old(node).wf(),
    ensures
        final(node).wf(),
        final(node).blocks@ == old(node).blocks@,
        final(node).name@ == old(node).name@,
        final(node).height == old(node).height,
        final(node).size_of_dag == old(node).size_of_dag,
        (forall|i: int|
            0 <= i < old(node).blocks@.len() ==> (#[trigger] old(node).blocks@[i]).name@ != name@)
            ==> final(node).tips@ == old(node).tips@,
        forall|i: int|
            0 <= i < old(node).blocks@.len() && old(node).blocks@[i].name@ == name@ ==> (forall|
                j: usize,
            |
                #[trigger] final(node).tips@.contains(j) <==> ((old(node).tips@.contains(j)
                    && !old(node).blocks@[i].prev@.contains(j) && j != i) || j as int == i)),
{
    let i = match find_in_blocks(&node.blocks, name) {
        None => {
            return ;
        },
        Some(i) => i,
    };
    let ghost s = node.blocks@;
    let ghost oldtips = node.tips@;
    let n = node.tips.len();
    let mut newtips: Vec<usize> = Vec::new();
    let mut m: usize = 0;
    while m < n
        invariant
            node.wf(),
            node.blocks@ == s,
            node.tips@ == oldtips,
            i < s.len(),
            n == oldtips.len(),
            m <= n,
            distinct_seq(newtips@),
            forall|a: int|
                0 <= a < newtips@.len() ==> exists|b: int|
                    0 <= b < m && oldtips[b] == #[trigger] newtips@[a],
            forall|a: int|
                0 <= a < newtips@.len() ==> !s[i as int].prev@.contains(#[trigger] newtips@[a])
                    && newtips@[a] != i,
            forall|b: int|
                0 <= b < m && !s[i as int].prev@.contains(#[trigger] oldtips[b]) && oldtips[b] != i
                    ==> newtips@.contains(oldtips[b]),
        decreases n - m,
    {
        let tt = node.tips[m];
        let ghost nt0 = newtips@;
        let keep = tt != i && !vec_contains(&node.blocks[i].prev, tt);
        if keep {
            proof {
                assert(!nt0.contains(tt)) by {
                    if nt0.contains(tt) {
                        let a = choose|a: int| 0 <= a < nt0.len() && nt0[a] == tt;
                        let b = choose|b: int| 0 <= b < m && oldtips[b] == nt0[a];
                        assert(oldtips[b] == oldtips[m as int]);
                    }
                }
            }
            newtips.push(tt);
        }
        proof {
            if keep {
                assert(newtips@ == nt0.push(tt));
                assert forall|b: int|
                    0 <= b < m + 1 && !s[i as int].prev@.contains(#[trigger] oldtips[b])
                        && oldtips[b] != i implies newtips@.contains(oldtips[b]) by {
                    if b < m {
                        let a = choose|a: int| 0 <= a < nt0.len() && nt0[a] == oldtips[b];
                        assert(newtips@[a] == oldtips[b]);
                    } else {
                        assert(newtips@[newtips@.len() - 1] == tt);
                    }
                }
            } else {
                assert(newtips@ == nt0);
            }
        }
        m = m + 1;
    }
    let ghost ntf = newtips@;
    proof {
        assert(!ntf.contains(i)) by {
            if ntf.contains(i) {
                let a = choose|a: int| 0 <= a < ntf.len() && ntf[a] == i;
            }
        }
    }
    newtips.push(i);
    node.tips = newtips;
    proof {
        assert(node.tips@ == ntf.push(i));
        assert forall|a: int| 0 <= a < node.tips@.len() implies (#[trigger] node.tips@[a])
            < s.len() by {
            if a < node.tips@.len() - 1 {
                assert(node.tips@[a] == ntf[a]);
            }
        }
        assert forall|i2: int|
            0 <= i2 < s.len() && s[i2].name@ == name@ implies i2 == i as int by {
            if i2 != i as int {
                assert(s[i2].name@ != s[i as int].name@);
            }
        }
        assert forall|j: usize|
            #[trigger] node.tips@.contains(j) <==> ((oldtips.contains(j) && !s[
            i as int].prev@.contains(j) && j != i) || j as int == i as int) by {
            if node.tips@.contains(j) {
                let a = choose|a: int| 0 <= a < node.tips@.len() && node.tips@[a] == j;
                if a < node.tips@.len() - 1 {
                    assert(ntf[a] == j);
                    assert(ntf.contains(j));
                    let b = choose|b: int| 0 <= b < n && oldtips[b] == ntf[a];
                    assert(oldtips.contains(j));
                }
            }
            if j as int == i as int {
                assert(node.tips@[node.tips@.len() - 1] == j);
                assert(node.tips@.contains(j));
            }
            if oldtips.contains(j) && !s[i as int].prev@.contains(j) && j != i {
                let b = choose|b: int| 0 <= b < oldtips.len() && oldtips[b] == j;
                assert(ntf.contains(oldtips[b]));
                let a = choose|a: int| 0 <= a < ntf.len() && ntf[a] == j;
                assert(node.tips@[a] == j);
                assert(node.tips@.contains(j));
            }
        }
    }
}

/// Some block already carries this name.
pub open spec fn name_exists(s: Seq<Block>, name: Seq<char>) -> bool {
    exists|i: int| 0 <= i < s.len() && (#[trigger] s[i]).name@ == name
}

/// Every referenced parent name is present.
pub open spec fn all_refs_resolve(s: Seq<Block>, refs: Seq<&str>) -> bool {
    forall|m: int| 0 <= m < refs.len() ==> name_exists(s, (#[trigger] refs[m])@)
}

/// Index `j` is named by some member of the reference list.
pub open spec fn is_parent_ref(s: Seq<Block>, refs: Seq<&str>, j: usize) -> bool {
    (j as int) < s.len() && exists|m: int|
        0 <= m < refs.len() && s[j as int].name@ == (#[trigger] refs[m])@
}

pub open spec fn node_equal(a: Node, b: Node) -> bool {
    &&& a.name@ == b.name@
    &&& blocks_equal(a.blocks@, b.blocks@)
    &&& a.tips@ == b.tips@
    &&& a.height == b.height
    &&& a.size_of_dag == b.size_of_dag
}

proof fn lemma_blocks_equal_refl(s: Seq<Block>)
    ensures
        blocks_equal(s, s),
{
    assert forall|i: int| 0 <= i < s.len() implies #[trigger] block_fields_equal(s[i], s[i]) by {}
}

/// Insert a new block.
///
/// The insertion fails with `DuplicateName` when the name is taken, with
/// `InvalidState` when a parentless block is inserted into a non-empty DAG
/// (the root must stay the unique parentless block), and with `NotFound`
/// when a referenced parent name is absent; a failed insertion leaves the
/// DAG untouched.  On success the new block is appended with the
/// referenced blocks as parents (duplicate references collapse), its
/// height is one above the maximum parent height (zero for the root), and
/// its count of blue ancestors is recorded.  With `do_classify` set, the
/// tip set is brought up to date and the new block is classified, as
/// `update_tips` and `calc_blue` promise.
pub fn node_add_block(
    name: &str,
    references: &Vec<&str>,
    node: &mut Node,
    k: i32,
    do_classify: bool,
) -> (r: Result<(), DagError>)
    requires
        old(node).wf(),
        old(node).blocks@.len() < 0x7fff_ffff_ffff_ffff,
    ensures
        final(node).wf(),
        final(node).name@ == old(node).name@,
        r is Err ==> node_equal(*final(node), *old(node)),
        (r == Err::<(), DagError>(DagError::DuplicateName)) <==> name_exists(
            old(node).blocks@,
            name@,
        ),
        (r == Err::<(), DagError>(DagError::InvalidState)) <==> (!name_exists(
            old(node).blocks@,
            name@,
        ) && references@.len() == 0 && old(node).blocks@.len() > 0),
        (r == Err::<(), DagError>(DagError::NotFound)) <==> (!name_exists(
            old(node).blocks@,
            name@,
        ) && !(references@.len() == 0 && old(node).blocks@.len() > 0) && !all_refs_resolve(
            old(node).blocks@,
            references@,
        )),
        r is Ok ==> {
            let s = old(node).blocks@;
            let n = s.len() as int;
            let nb = final(node).blocks@[n];
            &&& final(node).blocks@.len() == n + 1
            &&& nb.name@ == name@
            &&& nb.next@.len() == 0
            &&& (forall|j: usize|
                nb.prev@.contains(j) <==> is_parent_ref(s, references@, j))
            &&& (!do_classify ==> nb.size_of_past_blue == past_blue_count(s, nb.prev@, n)
                && !nb.is_blue && nb.size_of_anticone_blue == -1)
            &&& (forall|i: int|
                0 <= i < n ==> (#[trigger] final(node).blocks@[i]).name@ == s[i].name@
                    && final(node).blocks@[i].prev@ == s[i].prev@ && final(node).blocks@[i].height
                    == s[i].height)
            &&& (forall|i: int|
                0 <= i < n ==> (#[trigger] final(node).blocks@[i]).next@ == (if nb.prev@.contains(
                    i as usize,
                ) {
                    s[i].next@.push(s.len() as usize)
                } else {
                    s[i].next@
                }))
            &&& final(node).size_of_dag == old(node).size_of_dag + 1
            &&& final(node).height == (if nb.height > old(node).height {
                nb.height
            } else {
                old(node).height
            })
            &&& (!do_classify ==> final(node).tips@ == old(node).tips@ && (forall|i: int|
                0 <= i < n ==> (#[trigger] final(node).blocks@[i]).is_blue == s[i].is_blue
                    && final(node).blocks@[i].size_of_anticone_blue == s[
                    i].size_of_anticone_blue && final(node).blocks@[i].size_of_past_blue == s[
                    i].size_of_past_blue))
            &&& (do_classify ==> (forall|j: usize|
                #[trigger] final(node).tips@.contains(j) <==> ((old(node).tips@.contains(j)
                    && !nb.prev@.contains(j) && j as int != n) || j as int == n)))
            &&& (do_classify && n > 0 && s[0].is_blue ==> final(node).blocks@[0].is_blue)
        },
{
    match find_in_blocks(&node.blocks, name) {
        Some(_) => {
            proof {
                lemma_blocks_equal_refl(node.blocks@);
            }
            return Err(DagError::DuplicateName);
        },
        None => {},
    }
    let n = node.blocks.len();
    if references.len() == 0 && n > 0 {
        proof {
            lemma_blocks_equal_refl(node.blocks@);
        }
        return Err(DagError::InvalidState);
    }
    let ghost s = node.blocks@;
    let rlen = references.len();
    let mut parents: Vec<usize> = Vec::new();
    let mut m: usize = 0;
    while m < rlen
        invariant
            *node == *old(node),
            node.wf(),
            s == node.blocks@,
            n == s.len(),
            rlen == references@.len(),
            m <= rlen,
            !name_exists(s, name@),
            !(rlen == 0 && n > 0),
            distinct_seq(parents@),
            forall|q: int| 0 <= q < parents@.len() ==> (#[trigger] parents@[q]) < n,
            forall|j: usize| #[trigger]
                parents@.contains(j) <==> ((j as int) < s.len() && exists|mm: int|
                    0 <= mm < m && s[j as int].name@ == (#[trigger] references@[mm])@),
            forall|mm: int| 0 <= mm < m ==> name_exists(s, (#[trigger] references@[mm])@),
            m > 0 ==> parents@.len() > 0,
        decreases rlen - m,
    {
        let rname = references[m];
        match find_in_blocks(&node.blocks, rname) {
            None => {
                proof {
                    assert(!name_exists(s, references@[m as int]@));
                    assert(!all_refs_resolve(s, references@));
                    lemma_blocks_equal_refl(node.blocks@);
                }
                return Err(DagError::NotFound);
            },
            Some(p) => {
                let ghost ps0 = parents@;
                let already = vec_contains(&parents, p);
                if !already {
                    parents.push(p);
                }
                proof {
                    assert(name_exists(s, references@[m as int]@));
                    assert forall|j: usize| #[trigger]
                        parents@.contains(j) <==> ((j as int) < s.len() && exists|mm: int|
                            0 <= mm < m + 1 && s[j as int].name@ == (#[trigger] references@[
                            mm])@) by {
                        if !already {
                            assert(parents@ == ps0.push(p));
                            if parents@.contains(j) {
                                let q = choose|q: int|
                                    0 <= q < parents@.len() && parents@[q] == j;
                                if q < parents@.len() - 1 {
                                    assert(ps0[q] == j);
                                    assert(ps0.contains(j));
                                } else {
                                    assert(j == p);
                                    assert(s[p as int].name@ == references@[m as int]@);
                                }
                            }
                            if (j as int) < s.len() && exists|mm: int|
                                0 <= mm < m + 1 && s[j as int].name@ == (#[trigger] references@[
                                mm])@ {
                                let mm = choose|mm: int|
                                    0 <= mm < m + 1 && s[j as int].name@ == references@[mm]@;
                                if mm < m {
                                    assert(ps0.contains(j));
                                    let q = choose|q: int| 0 <= q < ps0.len() && ps0[q] == j;
                                    assert(parents@[q] == j);
                                    assert(parents@.contains(j));
                                } else {
                                    assert(s[j as int].name@ == s[p as int].name@);
                                    if j as int != p as int {
                                        assert(s[j as int].name@ != s[p as int].name@);
                                    }
                                    assert(j == p);
                                    assert(parents@[parents@.len() - 1] == j);
                                    assert(parents@.contains(j));
                                }
                            }
                        } else {
                            if (j as int) < s.len() && exists|mm: int|
                                0 <= mm < m + 1 && s[j as int].name@ == (#[trigger] references@[
                                mm])@ {
                                let mm = choose|mm: int|
                                    0 <= mm < m + 1 && s[j as int].name@ == references@[mm]@;
                                if mm == m {
                                    assert(s[j as int].name@ == s[p as int].name@);
                                    if j as int != p as int {
                                        assert(s[j as int].name@ != s[p as int].name@);
                                    }
                                    assert(parents@.contains(p));
                                }
                            }
                        }
                    }
                    assert(!ps0.contains(p) ==> parents@.len() > 0);
                    assert(parents@.contains(p));
                    assert(parents@.len() > 0);
                }
            },
        }
        m = m + 1;
    }
    proof {
        assert(all_refs_resolve(s, references@));
    }
    // height: one above the maximum parent height, zero for the root
    let mut h: u64 = 0;
    let plen = parents.len();
    if plen > 0 {
        let mut hmax: u64 = 0;
        let mut hi: usize = 0;
        while hi < plen
            invariant
                *node == *old(node),
                node.wf(),
                s == node.blocks@,
                n == s.len(),
                plen == parents@.len(),
                hi <= plen,
                forall|q: int| 0 <= q < parents@.len() ==> (#[trigger] parents@[q]) < n,
                forall|q: int| 0 <= q < hi ==> s[(#[trigger] parents@[q]) as int].height <= hmax,
                hi > 0 ==> exists|q: int|
                    0 <= q < hi && s[(#[trigger] parents@[q]) as int].height == hmax,
                hi == 0 ==> hmax == 0,
            decreases plen - hi,
        {
            let pidx = parents[hi];
            let ph = node.blocks[pidx].height;
            if hi == 0 || ph > hmax {
                hmax = ph;
            }
            proof {
                assert(s[parents@[hi as int] as int].height == ph);
            }
            hi = hi + 1;
        }
        proof {
            let w = choose|q: int|
                0 <= q < plen && s[(#[trigger] parents@[q]) as int].height == hmax;
            assert(wf_block_at(s, parents@[w] as int));
            assert(hmax <= parents@[w]);
            assert(hmax < n);
        }
        h = hmax + 1;
    }
    // blue blocks among the ancestors of the parents
    let pb = crate::anticone::past_blue_of(&node.blocks, &parents);
    let ghost pvs = parents@;
    // link the new index into each parent's child list
    let mut li: usize = 0;
    while li < plen
        invariant
            node.blocks@.len() == n,
            n == s.len(),
            wf_blocks(s),
            s == old(node).blocks@,
            node.tips@ == old(node).tips@,
            node.height == old(node).height,
            node.size_of_dag == old(node).size_of_dag,
            node.name@ == old(node).name@,
            plen == pvs.len(),
            li <= plen,
            distinct_seq(pvs),
            forall|q: int| 0 <= q < pvs.len() ==> (#[trigger] pvs[q]) < n,
            parents@ == pvs,
            forall|i: int|
                0 <= i < n ==> (#[trigger] node.blocks@[i]).name@ == s[i].name@ && node.blocks@[
                    i].prev@ == s[i].prev@ && node.blocks@[i].height == s[i].height
                    && node.blocks@[i].is_blue == s[i].is_blue && node.blocks@[
                    i].size_of_anticone_blue == s[i].size_of_anticone_blue && node.blocks@[
                    i].size_of_past_blue == s[i].size_of_past_blue,
            forall|i: int|
                0 <= i < n ==> (#[trigger] node.blocks@[i]).next@ == (if pvs.subrange(
                    0,
                    li as int,
                ).contains(i as usize) {
                    s[i].next@.push(n)
                } else {
                    s[i].next@
                }),
        decreases plen - li,
    {
        let p = parents[li];
        let ghost pre = node.blocks@;
        proof {
            assert(!pvs.subrange(0, li as int).contains(p)) by {
                if pvs.subrange(0, li as int).contains(p) {
                    let q = choose|q: int|
                        0 <= q < li && pvs.subrange(0, li as int)[q] == p;
                    assert(pvs[q] == pvs[li as int]);
                }
            }
        }
        push_child(&mut node.blocks, p, n);
        proof {
            let prefix0 = pvs.subrange(0, li as int);
            let prefix1 = pvs.subrange(0, li + 1);
            assert(prefix1 =~= prefix0.push(p));
            assert forall|i: int|
                0 <= i < n implies (#[trigger] node.blocks@[i]).next@ == (if prefix1.contains(
                i as usize,
            ) {
                s[i].next@.push(n)
            } else {
                s[i].next@
            }) by {
                assert((i as usize) as int == i);
                if prefix1.contains(i as usize) {
                    let q = choose|q: int| 0 <= q < prefix1.len() && prefix1[q] == i as usize;
                    if q < li {
                        assert(prefix0[q] == i as usize);
                        assert(prefix0.contains(i as usize));
                    } else {
                        assert(i == p as int);
                    }
                }
                if prefix0.contains(i as usize) {
                    let q = choose|q: int| 0 <= q < prefix0.len() && prefix0[q] == i as usize;
                    assert(prefix1[q] == i as usize);
                    assert(prefix1.contains(i as usize));
                }
                if i == p as int {
                    assert(prefix1[li as int] == i as usize);
                    assert(prefix1.contains(i as usize));
                }
                if i != p as int {
                    assert(node.blocks@[i] == pre[i]);
                }
            }
        }
        li = li + 1;
    }
    proof {
        assert(pvs.subrange(0, plen as int) =~= pvs);
    }
    let nb = Block {
        name: name.to_owned(),
        prev: parents,
        next: Vec::new(),
        height: h,
        is_blue: false,
        size_of_past_blue: pb,
        size_of_anticone_blue: -1,
    };
    node.blocks.push(nb);
    let newlen = node.blocks.len();
    proof {
        assert(newlen == n + 1);
        let ns = node.blocks@;
        assert(ns[n as int].prev@ == pvs);
        // the arena stays well formed
        assert forall|i: int| 0 <= i < ns.len() implies #[trigger] wf_block_at(ns, i) by {
            assert((i as usize) as int == i);
            if i < n {
                assert(wf_block_at(s, i));
                if pvs.subrange(0, plen as int).contains(i as usize) {
                    assert(ns[i].next@ == s[i].next@.push(n));
                    assert forall|q: int| 0 <= q < ns[i].next@.len() implies i < (
                    #[trigger] ns[i].next@[q]) && ns[i].next@[q] < ns.len() by {
                        if q < ns[i].next@.len() - 1 {
                            assert(ns[i].next@[q] == s[i].next@[q]);
                        }
                    }
                    assert(distinct_seq(ns[i].next@)) by {
                        assert forall|a: int, b: int|
                            0 <= a < b < ns[i].next@.len() implies ns[i].next@[a] != ns[
                        i].next@[b] by {
                            if b < ns[i].next@.len() - 1 {
                                assert(ns[i].next@[a] == s[i].next@[a]);
                                assert(ns[i].next@[b] == s[i].next@[b]);
                            } else {
                                assert(ns[i].next@[a] == s[i].next@[a]);
                                assert(s[i].next@[a] < n);
                            }
                        }
                    }
                } else {
                    assert(ns[i].next@ == s[i].next@);
                }
                if s[i].prev@.len() > 0 {
                    let q = choose|q: int|
                        0 <= q < s[i].prev@.len() && s[i].height == s[(#[trigger] s[i].prev@[
                        q]) as int].height + 1;
                    assert(ns[i].height == ns[ns[i].prev@[q] as int].height + 1);
                }
            } else {
                // the new block
                assert(ns[i].prev@ == pvs);
                assert(ns[i].next@.len() == 0);
                if n > 0 {
                    assert(rlen > 0);
                    assert(name_exists(s, references@[0]@));
                    assert(pvs.len() > 0);
                }
                if pvs.len() > 0 {
                    let w = choose|q: int|
                        0 <= q < pvs.len() && s[(#[trigger] pvs[q]) as int].height == (h - 1);
                    assert(ns[ns[i].prev@[w] as int].height == s[pvs[w] as int].height);
                    assert(ns[i].height == ns[ns[i].prev@[w] as int].height + 1);
                    assert(wf_block_at(s, pvs[w] as int));
                    assert(s[pvs[w] as int].height <= pvs[w]);
                    assert forall|q: int|
                        0 <= q < ns[i].prev@.len() implies ns[(#[trigger] ns[i].prev@[
                    q]) as int].height < ns[i].height by {
                        assert(s[pvs[q] as int].height <= h - 1);
                    }
                }
            }
        }
        assert forall|i: int, j: int|
            #![trigger has_parent(ns, i, j)]
            #![trigger has_child(ns, j, i)]
            0 <= i < ns.len() && 0 <= j < ns.len() implies (has_parent(ns, i, j) <==> has_child(
            ns,
            j,
            i,
        )) by {
            assert((j as usize) as int == j);
            assert((i as usize) as int == i);
            if i < n && j < n {
                assert(has_parent(s, i, j) <==> has_child(s, j, i));
                assert(ns[i].prev@ == s[i].prev@);
                assert(has_parent(ns, i, j) == has_parent(s, i, j));
                assert(has_child(ns, j, i) == has_child(s, j, i)) by {
                    if pvs.contains(j as usize) {
                        assert(ns[j].next@ == s[j].next@.push(n));
                        if has_child(s, j, i) {
                            let q = choose|q: int|
                                0 <= q < s[j].next@.len() && s[j].next@[q] == i as usize;
                            assert(ns[j].next@[q] == i as usize);
                        }
                        if has_child(ns, j, i) {
                            let q = choose|q: int|
                                0 <= q < ns[j].next@.len() && ns[j].next@[q] == i as usize;
                            if q < ns[j].next@.len() - 1 {
                                assert(s[j].next@[q] == i as usize);
                            } else {
                                assert(wf_block_at(s, j));
                                assert(false);
                            }
                        }
                    } else {
                        assert(ns[j].next@ == s[j].next@);
                    }
                }
            } else if i == n as int && j < n {
                assert(has_parent(ns, i, j) == pvs.contains(j as usize));
                assert(has_child(ns, j, i) == ns[j].next@.contains(n as usize)) by {}
                if pvs.contains(j as usize) {
                    assert(ns[j].next@ == s[j].next@.push(n));
                    assert(ns[j].next@[ns[j].next@.len() - 1] == n);
                    assert(ns[j].next@.contains(n as usize));
                } else {
                    assert(ns[j].next@ == s[j].next@);
                    if ns[j].next@.contains(n as usize) {
                        let q = choose|q: int|
                            0 <= q < s[j].next@.len() && s[j].next@[q] == n as usize;
                        assert(wf_block_at(s, j));
                        assert(false);
                    }
                }
            } else if j == n as int && i < n {
                assert(wf_block_at(s, i));
                if has_parent(ns, i, j) {
                    let q = choose|q: int|
                        0 <= q < s[i].prev@.len() && s[i].prev@[q] == n as usize;
                    assert(false);
                }
                assert(ns[n as int].next@.len() == 0);
            } else {
                if has_parent(ns, i, j) {
                    let q = choose|q: int| 0 <= q < pvs.len() && pvs[q] == n as usize;
                    assert(false);
                }
                assert(ns[n as int].next@.len() == 0);
            }
        }
        assert forall|i: int, j: int|
            #![trigger ns[i].name, ns[j].name]
            0 <= i < j < ns.len() implies ns[i].name@ != ns[j].name@ by {
            if j < n {
                assert(s[i].name@ != s[j].name@);
            } else {
                assert(s[i].name@ != name@);
            }
        }
        assert(wf_blocks(ns));
    }
    node.size_of_dag = node.size_of_dag + 1;
    if h > node.height {
        node.height = h;
    }
    proof {
        assert forall|i: int| 0 <= i < node.blocks@.len() implies (#[trigger] node.blocks@[
        i]).height <= node.height by {
            if i < n {
                assert(wf_block_at(s, i));
            }
        }
        assert(node.blocks@[n as int].height == node.height || exists|i: int|
            0 <= i < node.blocks@.len() && (#[trigger] node.blocks@[i]).height == node.height)
            by {
            if !(h > old(node).height) {
                if n > 0 {
                    let w = choose|i: int|
                        0 <= i < s.len() && (#[trigger] s[i]).height == old(node).height;
                    assert(node.blocks@[w].height == node.height);
                }
            }
        }
        assert(node.wf());
    }
    if do_classify {
        let ghost mid = *node;
        update_tips(name, node);
        proof {
            assert forall|i: int|
                0 <= i < mid.blocks@.len() && mid.blocks@[i].name@ == name@ implies i == n as int
                by {
                if i != n as int {
                    assert(mid.blocks@[i].name@ != mid.blocks@[n as int].name@);
                }
            }
        }
        let ghost mid2 = *node;
        crate::calcblue::calc_blue(name, node, k);
        proof {
            assert forall|i: int| 0 <= i < n implies (#[trigger] node.blocks@[i]).name@ == s[
            i].name@ && node.blocks@[i].prev@ == s[i].prev@ && node.blocks@[i].height == s[
            i].height by {
                assert(structure_equal_at(mid2.blocks@, node.blocks@, i));
            }
            assert(structure_equal_at(mid2.blocks@, node.blocks@, n as int));
            assert forall|i: int| 0 <= i < n implies (#[trigger] node.blocks@[i]).next@ == (
            if pvs.contains(i as usize) {
                s[i].next@.push(n)
            } else {
                s[i].next@
            }) by {
                assert(structure_equal_at(mid2.blocks@, node.blocks@, i));
            }
        }
    }
    Ok(())
}

/// Root invariant: in a well-formed non-empty DAG the block at index 0 is
/// the unique parentless block and sits at height 0.  It is also never
/// demoted: `calc_blue` and `check_blue` preserve its blue flag, which is
/// stated in their contracts.
pub proof fn lemma_root_invariant(node: Node)
    requires
        node.wf(),
        node.blocks@.len() > 0,
    ensures
        node.blocks@[0].prev@.len() == 0,
        node.blocks@[0].height == 0,
        forall|i: int| 1 <= i < node.blocks@.len() ==> (#[trigger] node.blocks@[i]).prev@.len() > 0,
{
    assert(wf_block_at(node.blocks@, 0));
    assert forall|i: int| 1 <= i < node.blocks@.len() implies (#[trigger] node.blocks@[
    i]).prev@.len() > 0 by {
        assert(wf_block_at(node.blocks@, i));
    }
}

/// Height law: a parentless block has height 0 and every other block sits
/// one above the maximum height of its parents.  Heights are fixed at
/// creation; no operation of this crate rewrites them.
pub proof fn lemma_height_law(node: Node, i: int)
    requires
        node.wf(),
        0 <= i < node.blocks@.len(),
    ensures
        node.blocks@[i].prev@.len() == 0 ==> node.blocks@[i].height == 0,
        forall|m: int|
            0 <= m < node.blocks@[i].prev@.len() ==> node.blocks@[(#[trigger] node.blocks@[
                i].prev@[m]) as int].height < node.blocks@[i].height,
        node.blocks@[i].prev@.len() > 0 ==> exists|m: int|
            0 <= m < node.blocks@[i].prev@.len() && node.blocks@[i].height == node.blocks@[(
            #[trigger] node.blocks@[i].prev@[m]) as int].height + 1,
{
    assert(wf_block_at(node.blocks@, i));
}

} // verus!

//! The blue-set maintainer: classification of new blocks, promotion of
//! pending parents, and the demotion cascade that re-enforces the
//! k-cluster rule as the DAG grows.

use vstd::prelude::*;
use crate::block::{
    Block, anticone_blue_count, block_fields_equal, blocks_equal, in_anticone,
    lemma_reaches_congruence, lemma_reaches_le, reaches, same_structure,
    strictly_increasing, structure_equal_at, wf_block_at, wf_blocks,
};
use crate::dag::{Node, copy_idx_vec, find_in_blocks, set_classification};
use crate::anticone::anticone_blue_of;

verus! {

/// The block at `x` must be demoted once one more blue block enters its
/// anticone: it is blue and its running count would reach the bound `k`.
pub open spec fn demote_now(s: Seq<Block>, x: int, k: int) -> bool {
    s[x].is_blue && s[x].size_of_anticone_blue + 1 >= k
}

/// Subtraction on the `u64` counters, saturating at zero.
pub open spec fn monus(x: u64, d: int) -> u64 {
    if d >= x {
        0u64
    } else if d <= 0 {
        x
    } else {
        (x - d) as u64
    }
}

/// How many members of `members` are about to be demoted and are strict
/// ancestors of `j`: the number of times the cascade decrements
/// `size_of_past_blue` of block `j`.
pub open spec fn demoted_reach_count(s: Seq<Block>, members: Seq<usize>, k: int, j: int) -> int
    decreases members.len(),
{
    if members.len() == 0 {
        0
    } else {
        demoted_reach_count(s, members.drop_last(), k, j) + if demote_now(
            s,
            members.last() as int,
            k,
        ) && reaches(s, members.last() as int, j) && members.last() as int != j {
            1int
        } else {
            0int
        }
    }
}

proof fn lemma_demoted_count_nonneg(s: Seq<Block>, members: Seq<usize>, k: int, j: int)
    ensures
        0 <= demoted_reach_count(s, members, k, j) <= members.len(),
    decreases members.len(),
{
    if members.len() > 0 {
        lemma_demoted_count_nonneg(s, members.drop_last(), k, j);
    }
}

/// The outcome `check_blue` owes for anticone member `x`: demotion if one
/// more blue neighbour would reach the bound, an incremented running count
/// if the member is blue, and no action otherwise.
pub open spec fn member_outcome(a: Seq<Block>, b: Seq<Block>, x: int, k: int) -> bool {
    if demote_now(a, x, k) {
        !b[x].is_blue && b[x].size_of_anticone_blue == -1
    } else if a[x].is_blue {
        b[x].is_blue && b[x].size_of_anticone_blue == a[x].size_of_anticone_blue + 1
    } else {
        b[x].is_blue == a[x].is_blue && b[x].size_of_anticone_blue == a[x].size_of_anticone_blue
    }
}

/// Walk every descendant of `x` and decrement `size_of_past_blue` of each
/// blue one by one (saturating at zero): their past just lost the blue
/// block `x`.
///
/// Every reachable descendant is decremented exactly once, also when it is
/// reachable along several parallel paths.
pub fn dec_successors_anticone_blue(blocks: &mut Vec<Block>, x: usize)
    requires
        wf_blocks(old(blocks)@),
        x < old(blocks)@.len(),
    ensures
        wf_blocks(final(blocks)@),
        final(blocks)@.len() == old(blocks)@.len(),
        forall|j: int|
            0 <= j < final(blocks)@.len() ==> #[trigger] structure_equal_at(
                old(blocks)@,
                final(blocks)@,
                j,
            ) && final(blocks)@[j].is_blue == old(blocks)@[j].is_blue && final(blocks)@[
                j].size_of_anticone_blue == old(blocks)@[j].size_of_anticone_blue,
        forall|j: int|
            0 <= j < final(blocks)@.len() ==> final(blocks)@[j].size_of_past_blue == (if old(
                blocks,
            )@[j].is_blue && reaches(old(blocks)@, x as int, j) && j != x as int {
                monus(old(blocks)@[j].size_of_past_blue, 1)
            } else {
                old(blocks)@[j].size_of_past_blue
            }),
{
    let marks = crate::anticone::future_marks(blocks, x);
    let n = blocks.len();
    let mut j: usize = 0;
    while j < n
        invariant
            wf_blocks(blocks@),
            n == blocks@.len(),
            blocks@.len() == old(blocks)@.len(),
            x < n,
            marks@.len() == n,
            forall|jj: int| 0 <= jj < n ==> marks@[jj] == reaches(old(blocks)@, x as int, jj),
            j <= n,
            forall|jj: int|
                0 <= jj < n ==> #[trigger] structure_equal_at(old(blocks)@, blocks@, jj)
                    && blocks@[jj].is_blue == old(blocks)@[jj].is_blue && blocks@[
                    jj].size_of_anticone_blue == old(blocks)@[jj].size_of_anticone_blue,
            forall|jj: int|
                j <= jj < n ==> (#[trigger] blocks@[jj]).size_of_past_blue == old(blocks)@[
                    jj].size_of_past_blue,
            forall|jj: int|
                0 <= jj < j && old(blocks)@[jj].is_blue && marks@[jj] && jj != x as int ==> (
                #[trigger] blocks@[jj]).size_of_past_blue == monus(
                    old(blocks)@[jj].size_of_past_blue,
                    1,
                ),
            forall|jj: int|
                0 <= jj < j && !(old(blocks)@[jj].is_blue && marks@[jj] && jj != x as int) ==> (
                #[trigger] blocks@[jj]).size_of_past_blue == old(blocks)@[jj].size_of_past_blue,
        decreases n - j,
    {
        let ghost pre = blocks@;
        let did = j != x && marks[j] && blocks[j].is_blue;
        if did {
            crate::dag::dec_past_blue(blocks, j);
        }
        proof {
            assert(structure_equal_at(old(blocks)@, pre, j as int));
            assert forall|jj: int| 0 <= jj < n implies #[trigger] structure_equal_at(
                old(blocks)@,
                blocks@,
                jj,
            ) && blocks@[jj].is_blue == old(blocks)@[jj].is_blue && blocks@[
                jj].size_of_anticone_blue == old(blocks)@[jj].size_of_anticone_blue by {
                assert(structure_equal_at(old(blocks)@, pre, jj));
                if did && jj == j as int {
                    assert(structure_equal_at(pre, blocks@, jj));
                } else {
                    assert(blocks@[jj] == pre[jj]);
                }
            }
            assert forall|jj: int| 0 <= jj < n && jj != j as int implies (#[trigger] blocks@[
            jj]).size_of_past_blue == pre[jj].size_of_past_blue by {
                assert(blocks@[jj] == pre[jj]);
            }
            if did {
                assert(blocks@[j as int].size_of_past_blue == monus(
                    old(blocks)@[j as int].size_of_past_blue,
                    1,
                ));
            } else {
                assert(blocks@[j as int].size_of_past_blue == old(blocks)@[
                    j as int].size_of_past_blue);
            }
        }
        j = j + 1;
    }
    proof {
        assert forall|j2: int| 0 <= j2 < n implies (#[trigger] blocks@[j2]).size_of_past_blue == (
        if old(blocks)@[j2].is_blue && reaches(old(blocks)@, x as int, j2) && j2 != x as int {
            monus(old(blocks)@[j2].size_of_past_blue, 1)
        } else {
            old(blocks)@[j2].size_of_past_blue
        }) by {
            assert(marks@[j2] == reaches(old(blocks)@, x as int, j2));
        }
    }
}

/// One pass of the blue-set maintainer over a freshly computed anticone:
/// each blue member whose running count would reach `k` is demoted (with
/// the cascade of `dec_successors_anticone_blue`), every other blue member
/// has its running count incremented by one.
///
/// `blue_anticone` must be ascending and must not contain the root, which
/// holds of every anticone.
pub(crate) fn check_blue(blocks: &mut Vec<Block>, blue_anticone: &Vec<usize>, k: i32)
    requires
        wf_blocks(old(blocks)@),
        strictly_increasing(blue_anticone@),
        forall|m: int|
            0 <= m < blue_anticone@.len() ==> (#[trigger] blue_anticone@[m]) < old(
                blocks,
            )@.len(),
        !blue_anticone@.contains(0usize),
    ensures
        wf_blocks(final(blocks)@),
        final(blocks)@.len() == old(blocks)@.len(),
        forall|j: int|
            0 <= j < final(blocks)@.len() ==> #[trigger] structure_equal_at(
                old(blocks)@,
                final(blocks)@,
                j,
            ),
        forall|j: usize|
            j < final(blocks)@.len() && !blue_anticone@.contains(j) ==> final(blocks)@[
                j as int].is_blue == old(blocks)@[j as int].is_blue && final(blocks)@[
                j as int].size_of_anticone_blue == old(blocks)@[j as int].size_of_anticone_blue,
        forall|m: int|
            0 <= m < blue_anticone@.len() ==> member_outcome(
                old(blocks)@,
                final(blocks)@,
                (#[trigger] blue_anticone@[m]) as int,
                k as int,
            ),
        forall|j: int|
            0 <= j < final(blocks)@.len() ==> final(blocks)@[j].size_of_past_blue == (if old(
                blocks,
            )@[j].is_blue {
                monus(
                    old(blocks)@[j].size_of_past_blue,
                    demoted_reach_count(old(blocks)@, blue_anticone@, k as int, j),
                )
            } else {
                old(blocks)@[j].size_of_past_blue
            }),
{
    let ghost s0 = old(blocks)@;
    let ghost aseq = blue_anticone@;
    let len = blue_anticone.len();
    proof {
        assert(aseq.take(0) =~= Seq::<usize>::empty());
        assert forall|j: int| 0 <= j < s0.len() implies demoted_reach_count(
            s0,
            aseq.take(0),
            k as int,
            j,
        ) == 0 by {}
    }
    let mut m: usize = 0;
    while m < len
        invariant
            wf_blocks(blocks@),
            wf_blocks(s0),
            blocks@.len() == s0.len(),
            s0 == old(blocks)@,
            aseq == blue_anticone@,
            len == aseq.len(),
            m <= len,
            strictly_increasing(aseq),
            forall|p: int| 0 <= p < len ==> (#[trigger] aseq[p]) < s0.len(),
            !aseq.contains(0usize),
            forall|j: int| 0 <= j < s0.len() ==> #[trigger] structure_equal_at(s0, blocks@, j),
            forall|j: usize|
                j < s0.len() && !aseq.contains(j) ==> blocks@[j as int].is_blue == s0[
                    j as int].is_blue && blocks@[j as int].size_of_anticone_blue == s0[
                    j as int].size_of_anticone_blue,
            forall|p: int|
                m <= p < len ==> blocks@[(#[trigger] aseq[p]) as int].is_blue == s0[
                    aseq[p] as int].is_blue && blocks@[aseq[p] as int].size_of_anticone_blue
                    == s0[aseq[p] as int].size_of_anticone_blue,
            forall|p: int|
                0 <= p < m ==> member_outcome(s0, blocks@, (#[trigger] aseq[p]) as int, k as int),
            forall|j: int| 0 <= j < s0.len() && (#[trigger] blocks@[j]).is_blue ==> s0[j].is_blue,
            forall|j: int|
                0 <= j < s0.len() ==> (#[trigger] blocks@[j]).size_of_past_blue == (if s0[
                    j].is_blue {
                    monus(
                        s0[j].size_of_past_blue,
                        demoted_reach_count(s0, aseq.take(m as int), k as int, j),
                    )
                } else {
                    s0[j].size_of_past_blue
                }),
        decreases len - m,
    {
        let ghost cur0 = blocks@;
        let x = blue_anticone[m];
        proof {
            assert(aseq[m as int] == x);
            assert(blocks@[x as int].is_blue == s0[x as int].is_blue);
            assert(blocks@[x as int].size_of_anticone_blue == s0[x as int].size_of_anticone_blue);
            assert(wf_block_at(s0, x as int));
            assert(aseq.take(m + 1).drop_last() =~= aseq.take(m as int));
            assert(aseq.take(m + 1).last() == aseq[m as int]);
        }
        let xb = blocks[x].is_blue;
        let xs = blocks[x].size_of_anticone_blue;
        let demote_b = xb && xs >= (k as i64) - 1;
        if demote_b {
            proof {
                assert(demote_now(s0, x as int, k as int));
            }
            set_classification(blocks, x, false, -1);
            let ghost cur1 = blocks@;
            dec_successors_anticone_blue(blocks, x);
            proof {
                // reachability over the current arena agrees with `s0`
                assert forall|i2: int| 0 <= i2 < cur1.len() implies (#[trigger] cur1[i2]).prev@
                    == s0[i2].prev@ by {
                    assert(structure_equal_at(s0, cur0, i2));
                    if i2 == x as int {
                        assert(structure_equal_at(cur0, cur1, i2));
                    } else {
                        assert(cur1[i2] == cur0[i2]);
                    }
                }
                assert forall|j: int| 0 <= j < s0.len() implies #[trigger] reaches(
                    cur1,
                    x as int,
                    j,
                ) == reaches(s0, x as int, j) by {
                    lemma_reaches_congruence(cur1, s0, x as int, j);
                }
                // the structural fields never move
                assert forall|j: int| 0 <= j < s0.len() implies #[trigger] structure_equal_at(
                    s0,
                    blocks@,
                    j,
                ) by {
                    assert(structure_equal_at(s0, cur0, j));
                    if j == x as int {
                        assert(structure_equal_at(cur0, cur1, j));
                    } else {
                        assert(cur1[j] == cur0[j]);
                    }
                    assert(structure_equal_at(cur1, blocks@, j));
                }
                // classification of everything except x is as at loop entry
                assert forall|j: int| 0 <= j < s0.len() && j != x as int implies blocks@[
                j].is_blue == cur0[j].is_blue && blocks@[j].size_of_anticone_blue == cur0[
                j].size_of_anticone_blue by {
                    assert(cur1[j] == cur0[j]);
                    assert(structure_equal_at(cur1, blocks@, j));
                }
                assert(structure_equal_at(cur1, blocks@, x as int));
                assert(!blocks@[x as int].is_blue && blocks@[x as int].size_of_anticone_blue
                    == -1);
                assert(member_outcome(s0, blocks@, x as int, k as int));
                // blocks reached by x still carry their entry blue flag
                assert forall|j: int|
                    0 <= j < s0.len() && reaches(s0, x as int, j) && j != x as int implies cur1[
                    j].is_blue == s0[j].is_blue by {
                    lemma_reaches_le(s0, x as int, j);
                    assert(cur1[j] == cur0[j]);
                    assert((j as usize) as int == j);
                    if aseq.contains(j as usize) {
                        let p = choose|p: int| 0 <= p < aseq.len() && aseq[p] == j as usize;
                        if p < m {
                            assert(aseq[p] < aseq[m as int]);
                            assert(false);
                        } else if p == m {
                            assert(false);
                        } else {
                            assert(cur0[aseq[p] as int].is_blue == s0[aseq[p] as int].is_blue);
                        }
                    }
                }
                // the past-blue counters follow the demotion count
                assert forall|j: int| 0 <= j < s0.len() implies (#[trigger] blocks@[
                j]).size_of_past_blue == (if s0[j].is_blue {
                    monus(
                        s0[j].size_of_past_blue,
                        demoted_reach_count(s0, aseq.take(m + 1), k as int, j),
                    )
                } else {
                    s0[j].size_of_past_blue
                }) by {
                    lemma_demoted_count_nonneg(s0, aseq.take(m as int), k as int, j);
                    assert(reaches(cur1, x as int, j) == reaches(s0, x as int, j));
                    let d0 = demoted_reach_count(s0, aseq.take(m as int), k as int, j);
                    let d1 = demoted_reach_count(s0, aseq.take(m + 1), k as int, j);
                    if j == x as int {
                        assert(cur1[j].size_of_past_blue == cur0[j].size_of_past_blue);
                    } else {
                        assert(cur1[j] == cur0[j]);
                    }
                    assert(cur0[j].size_of_past_blue == (if s0[j].is_blue {
                        monus(s0[j].size_of_past_blue, d0)
                    } else {
                        s0[j].size_of_past_blue
                    }));
                    if reaches(s0, x as int, j) && x as int != j {
                        assert(d1 == d0 + 1);
                        if s0[j].is_blue {
                            assert(cur1[j].is_blue);
                            assert(blocks@[j].size_of_past_blue == monus(
                                cur1[j].size_of_past_blue,
                                1,
                            ));
                            assert(monus(monus(s0[j].size_of_past_blue, d0), 1) == monus(
                                s0[j].size_of_past_blue,
                                d0 + 1,
                            ));
                        } else {
                            assert(!cur0[j].is_blue);
                            assert(!cur1[j].is_blue);
                            assert(blocks@[j].size_of_past_blue == cur1[j].size_of_past_blue);
                        }
                    } else {
                        assert(d1 == d0);
                        assert(blocks@[j].size_of_past_blue == cur1[j].size_of_past_blue);
                    }
                }
                // blue flags only ever fall in this pass
                assert forall|j: int|
                    0 <= j < s0.len() && (#[trigger] blocks@[j]).is_blue implies s0[
                j].is_blue by {
                    if j != x as int {
                        assert(blocks@[j].is_blue == cur0[j].is_blue);
                    }
                }
            }
        } else if xb {
            set_classification(blocks, x, true, xs + 1);
            proof {
                assert(!demote_now(s0, x as int, k as int));
                assert forall|j: int| 0 <= j < s0.len() implies #[trigger] structure_equal_at(
                    s0,
                    blocks@,
                    j,
                ) by {
                    assert(structure_equal_at(s0, cur0, j));
                    if j == x as int {
                        assert(structure_equal_at(cur0, blocks@, j));
                    } else {
                        assert(blocks@[j] == cur0[j]);
                    }
                }
                assert(member_outcome(s0, blocks@, x as int, k as int));
                assert forall|j: int| 0 <= j < s0.len() implies demoted_reach_count(
                    s0,
                    aseq.take(m + 1),
                    k as int,
                    j,
                ) == demoted_reach_count(s0, aseq.take(m as int), k as int, j) by {}
                assert forall|j: int|
                    0 <= j < s0.len() && (#[trigger] blocks@[j]).is_blue implies s0[
                j].is_blue by {
                    if j != x as int {
                        assert(blocks@[j] == cur0[j]);
                    }
                }
            }
        } else {
            proof {
                assert(!demote_now(s0, x as int, k as int));
                assert(member_outcome(s0, blocks@, x as int, k as int));
                assert forall|j: int| 0 <= j < s0.len() implies demoted_reach_count(
                    s0,
                    aseq.take(m + 1),
                    k as int,
                    j,
                ) == demoted_reach_count(s0, aseq.take(m as int), k as int, j) by {}
            }
        }
        m = m + 1;
    }
    proof {
        assert(aseq.take(len as int) =~= aseq);
    }
}

/// Replacing classification fields only (shown through `same_structure`)
/// keeps the container-level invariants of a `Node`.
proof fn lemma_node_wf_after_blocks(old_node: Node, new_node: Node)
    requires
        old_node.wf(),
        wf_blocks(new_node.blocks@),
        same_structure(old_node.blocks@, new_node.blocks@),
        new_node.tips@ == old_node.tips@,
        new_node.height == old_node.height,
        new_node.size_of_dag == old_node.size_of_dag,
        new_node.name@ == old_node.name@,
    ensures
        new_node.wf(),
{
    assert forall|i: int| 0 <= i < new_node.blocks@.len() implies (#[trigger] new_node.blocks@[
    i]).height <= new_node.height by {
        assert(structure_equal_at(old_node.blocks@, new_node.blocks@, i));
    }
    if new_node.blocks@.len() > 0 {
        let w = choose|i: int|
            0 <= i < old_node.blocks@.len() && (#[trigger] old_node.blocks@[i]).height
                == old_node.height;
        assert(structure_equal_at(old_node.blocks@, new_node.blocks@, w));
        assert(new_node.blocks@[w].height == new_node.height);
    }
}

/// The decision `calc_blue` owes for the block it was asked to classify:
/// the root is simply marked blue; with an empty frontier nothing happens;
/// otherwise the block becomes blue with its anticone-blue count stored
/// exactly when that count lies in `[0, k]`, and keeps its classification
/// otherwise.
pub open spec fn classify_decision(
    a: Seq<Block>,
    tips: Seq<usize>,
    b: Seq<Block>,
    i: int,
    k: int,
) -> bool {
    if i == 0 {
        &&& b[0].is_blue
        &&& b[0].size_of_anticone_blue == a[0].size_of_anticone_blue
        &&& b[0].size_of_past_blue == a[0].size_of_past_blue
        &&& forall|j: int| 0 <= j < a.len() && j != 0 ==> #[trigger] block_fields_equal(b[j], a[j])
    } else if tips.len() == 0 {
        blocks_equal(b, a)
    } else {
        &&& (0 <= anticone_blue_count(a, i, tips, a.len() as int) <= k ==> b[i].is_blue && b[
            i].size_of_anticone_blue == anticone_blue_count(a, i, tips, a.len() as int))
        &&& (!(0 <= anticone_blue_count(a, i, tips, a.len() as int) <= k) ==> b[i].is_blue == a[
            i].is_blue && b[i].size_of_anticone_blue == a[i].size_of_anticone_blue)
    }
}

/// Classify the named block under the consensus parameter `k`.
///
/// The root is marked blue and nothing else changes.  For any other known
/// block, the tip with the largest count of blue ancestors is selected
/// (scanning the tip list in its stored order, strict comparison, the
/// queried block itself as the initial incumbent, so the choice is
/// deterministic).  If the queried block is the winner it is classified
/// against the tips and each of its not-yet-blue parents is re-validated
/// against the parent set; otherwise the block is classified against the
/// tips alone.  Every classification to blue runs `check_blue` over the
/// freshly computed anticone, which may demote existing blue blocks and
/// cascade through their descendants.
///
/// An unknown name or an empty tip set leaves the DAG untouched.
pub fn calc_blue(block_name: &str, node: &mut Node, k: i32)
    requires
        old(node).wf(),
    ensures
        final(node).wf(),
        same_structure(old(node).blocks@, final(node).blocks@),
        final(node).tips@ == old(node).tips@,
        final(node).height == old(node).height,
        final(node).size_of_dag == old(node).size_of_dag,
        final(node).name@ == old(node).name@,
        old(node).blocks@.len() > 0 && old(node).blocks@[0].is_blue ==> final(node).blocks@[
            0].is_blue,
        (forall|i: int|
            0 <= i < old(node).blocks@.len() ==> (#[trigger] old(node).blocks@[i]).name@
                != block_name@) ==> blocks_equal(final(node).blocks@, old(node).blocks@),
        forall|i: int|
            0 <= i < old(node).blocks@.len() && old(node).blocks@[i].name@ == block_name@
                ==> classify_decision(
                old(node).blocks@,
                old(node).tips@,
                final(node).blocks@,
                i,
                k as int,
            ),
{
    let ghost s0 = node.blocks@;
    let ghost tips0 = node.tips@;
    let t = match find_in_blocks(&node.blocks, block_name) {
        None => {
            proof {
                assert forall|j: int| 0 <= j < s0.len() implies #[trigger] block_fields_equal(
                    s0[j],
                    s0[j],
                ) by {}
            }
            return ;
        },
        Some(t) => t,
    };
    if t == 0 {
        proof {
            assert(wf_block_at(s0, 0));
        }
        let sab = node.blocks[0].size_of_anticone_blue;
        set_classification(&mut node.blocks, 0, true, sab);
        proof {
            assert forall|j: int| 0 <= j < s0.len() implies #[trigger] structure_equal_at(
                s0,
                node.blocks@,
                j,
            ) by {
                if j != 0 {
                    assert(node.blocks@[j] == s0[j]);
                }
            }
            assert forall|j: int| 0 <= j < s0.len() && j != 0 implies #[trigger] block_fields_equal(
                node.blocks@[j],
                s0[j],
            ) by {
                assert(node.blocks@[j] == s0[j]);
            }
            lemma_node_wf_after_blocks(*old(node), *node);
            assert forall|i: int|
                0 <= i < s0.len() && s0[i].name@ == block_name@ implies classify_decision(
                s0,
                tips0,
                node.blocks@,
                i,
                k as int,
            ) by {
                if i != 0 {
                    assert(s0[i].name@ != s0[0].name@);
                }
            }
        }
        return ;
    }
    if node.tips.len() == 0 {
        proof {
            assert forall|j: int| 0 <= j < s0.len() implies #[trigger] block_fields_equal(
                s0[j],
                s0[j],
            ) by {}
            assert forall|i: int|
                0 <= i < s0.len() && s0[i].name@ == block_name@ implies classify_decision(
                s0,
                tips0,
                node.blocks@,
                i,
                k as int,
            ) by {
                if i != t as int {
                    assert(s0[i].name@ != s0[t as int].name@);
                }
            }
        }
        return ;
    }
    // step 2: pick the tip with the largest blue past, the queried block
    // itself being the initial incumbent; strict comparison keeps the
    // first winner in tip order.
    let mut best: usize = t;
    let mut best_pb: u64 = node.blocks[t].size_of_past_blue;
    let tn = node.tips.len();
    let mut m: usize = 0;
    while m < tn
        invariant
            *node == *old(node),
            node.wf(),
            t < node.blocks@.len(),
            best < node.blocks@.len(),
            tn == node.tips@.len(),
            m <= tn,
        decreases tn - m,
    {
        let tip = node.tips[m];
        if node.blocks[tip].size_of_past_blue > best_pb {
            best_pb = node.blocks[tip].size_of_past_blue;
            best = tip;
        }
        m = m + 1;
    }
    let ghost c = anticone_blue_count(s0, t as int, tips0, s0.len() as int);
    if best == t {
        // steps 3/4: the new block dominates the frontier
        let (blues, ac) = anticone_blue_of(&node.blocks, t, &node.tips);
        if 0 <= blues && blues <= k as i64 {
            proof {
                assert(!ac@.contains(t)) by {
                    assert(reaches(s0, t as int, t as int));
                }
            }
            set_classification(&mut node.blocks, t, true, blues);
            let ghost cur1 = node.blocks@;
            proof {
                assert forall|j: int| 0 <= j < s0.len() implies #[trigger] structure_equal_at(
                    s0,
                    node.blocks@,
                    j,
                ) by {
                    if j != t as int {
                        assert(node.blocks@[j] == s0[j]);
                    }
                }
            }
            check_blue(&mut node.blocks, &ac, k);
            proof {
                assert forall|j: int| 0 <= j < s0.len() implies #[trigger] structure_equal_at(
                    s0,
                    node.blocks@,
                    j,
                ) by {
                    assert(structure_equal_at(s0, cur1, j));
                    assert(structure_equal_at(cur1, node.blocks@, j));
                }
                assert(node.blocks@[t as int].is_blue && node.blocks@[
                t as int].size_of_anticone_blue == blues as int);
            }
        } else {
            proof {
                assert forall|j: int| 0 <= j < s0.len() implies #[trigger] structure_equal_at(
                    s0,
                    node.blocks@,
                    j,
                ) by {
                    assert(node.blocks@[j] == s0[j]);
                }
            }
        }
        // steps 5..8: re-validate parents that are still pending
        let ghost tblue = node.blocks@[t as int].is_blue;
        let ghost tsab = node.blocks@[t as int].size_of_anticone_blue;
        proof {
            assert(0 <= c <= k as int ==> tblue && tsab == c);
            assert(!(0 <= c <= k as int) ==> tblue == s0[t as int].is_blue && tsab == s0[
                t as int].size_of_anticone_blue);
            assert(structure_equal_at(s0, node.blocks@, t as int));
        }
        let parent_count = node.blocks[t].prev.len();
        let mut pi: usize = 0;
        while pi < parent_count
            invariant
                wf_blocks(node.blocks@),
                wf_blocks(s0),
                s0.len() == node.blocks@.len(),
                s0.len() <= usize::MAX,
                0 < t < s0.len(),
                node.tips@ == tips0,
                node.height == old(node).height,
                node.size_of_dag == old(node).size_of_dag,
                node.name@ == old(node).name@,
                s0 == old(node).blocks@,
                forall|j: int| 0 <= j < s0.len() ==> #[trigger] structure_equal_at(s0, node.blocks@, j),
                parent_count == s0[t as int].prev@.len(),
                pi <= parent_count,
                node.blocks@[t as int].is_blue == tblue,
                node.blocks@[t as int].size_of_anticone_blue == tsab,
                s0[0].is_blue ==> node.blocks@[0].is_blue,
            decreases parent_count - pi,
        {
            proof {
                assert(wf_block_at(s0, t as int));
                assert(structure_equal_at(s0, node.blocks@, t as int));
            }
            let p = node.blocks[t].prev[pi];
            proof {
                assert(p == s0[t as int].prev@[pi as int]);
                assert(p < t);
            }
            if !node.blocks[p].is_blue {
                let prevs = copy_idx_vec(&node.blocks[t].prev);
                proof {
                    assert(prevs@ == s0[t as int].prev@);
                    assert forall|q: int| 0 <= q < prevs@.len() implies (#[trigger] prevs@[q])
                        < node.blocks@.len() by {
                        assert(s0[t as int].prev@[q] < t);
                    }
                }
                let ghost cur0 = node.blocks@;
                let (blues2, ac2) = anticone_blue_of(&node.blocks, p, &prevs);
                if 0 <= blues2 && blues2 <= k as i64 {
                    proof {
                        assert(!ac2@.contains(t)) by {
                            if in_anticone(cur0, p as int, prevs@, t as int) {
                                let q = choose|q: int|
                                    0 <= q < prevs@.len() && reaches(
                                        cur0,
                                        t as int,
                                        prevs@[q] as int,
                                    );
                                lemma_reaches_le(cur0, t as int, prevs@[q] as int);
                                assert(s0[t as int].prev@[q] < t);
                                assert(false);
                            }
                        }
                    }
                    set_classification(&mut node.blocks, p, true, blues2);
                    let ghost cur1 = node.blocks@;
                    proof {
                        assert forall|j: int| 0 <= j < s0.len() implies #[trigger] structure_equal_at(
                            s0,
                            node.blocks@,
                            j,
                        ) by {
                            assert(structure_equal_at(s0, cur0, j));
                            if j != p as int {
                                assert(node.blocks@[j] == cur0[j]);
                            }
                        }
                    }
                    check_blue(&mut node.blocks, &ac2, k);
                    proof {
                        assert forall|j: int| 0 <= j < s0.len() implies #[trigger] structure_equal_at(
                            s0,
                            node.blocks@,
                            j,
                        ) by {
                            assert(structure_equal_at(s0, cur1, j));
                            assert(structure_equal_at(cur1, node.blocks@, j));
                        }
                        assert(node.blocks@[t as int].is_blue == cur1[t as int].is_blue
                            && node.blocks@[t as int].size_of_anticone_blue == cur1[
                            t as int].size_of_anticone_blue);
                        assert(cur1[t as int].is_blue == tblue && cur1[
                            t as int].size_of_anticone_blue == tsab);
                        assert(node.blocks@[0].is_blue == cur1[0].is_blue);
                    }
                }
            }
            pi = pi + 1;
        }
        proof {
            assert(same_structure(s0, node.blocks@));
            lemma_node_wf_after_blocks(*old(node), *node);
            assert forall|i: int|
                0 <= i < s0.len() && s0[i].name@ == block_name@ implies classify_decision(
                s0,
                tips0,
                node.blocks@,
                i,
                k as int,
            ) by {
                if i != t as int {
                    assert(s0[i].name@ != s0[t as int].name@);
                }
            }
        }
    } else {
        // step 11: the new block is not the selected tip; classify it
        // against the tips on its own
        let (blues, ac) = anticone_blue_of(&node.blocks, t, &node.tips);
        if 0 <= blues && blues <= k as i64 {
            proof {
                assert(!ac@.contains(t)) by {
                    assert(reaches(s0, t as int, t as int));
                }
            }
            set_classification(&mut node.blocks, t, true, blues);
            let ghost cur1 = node.blocks@;
            proof {
                assert forall|j: int| 0 <= j < s0.len() implies #[trigger] structure_equal_at(
                    s0,
                    node.blocks@,
                    j,
                ) by {
                    if j != t as int {
                        assert(node.blocks@[j] == s0[j]);
                    }
                }
            }
            check_blue(&mut node.blocks, &ac, k);
            proof {
                assert forall|j: int| 0 <= j < s0.len() implies #[trigger] structure_equal_at(
                    s0,
                    node.blocks@,
                    j,
                ) by {
                    assert(structure_equal_at(s0, cur1, j));
                    assert(structure_equal_at(cur1, node.blocks@, j));
                }
                assert(node.blocks@[t as int].is_blue && node.blocks@[
                t as int].size_of_anticone_blue == blues as int);
            }
        } else {
            proof {
                assert forall|j: int| 0 <= j < s0.len() implies #[trigger] structure_equal_at(
                    s0,
                    node.blocks@,
                    j,
                ) by {
                    assert(node.blocks@[j] == s0[j]);
                }
            }
        }
        proof {
            assert(same_structure(s0, node.blocks@));
            lemma_node_wf_after_blocks(*old(node), *node);
            assert forall|i: int|
                0 <= i < s0.len() && s0[i].name@ == block_name@ implies classify_decision(
                s0,
                tips0,
                node.blocks@,
                i,
                k as int,
            ) by {
                if i != t as int {
                    assert(s0[i].name@ != s0[t as int].name@);
                }
            }
        }
    }
}

/// A DAG satisfies the k-cluster property when no blue block has more than
/// `k` blue blocks in its anticone relative to the current tips.
pub open spec fn k_cluster(node: Node, k: int) -> bool {
    forall|i: int|
        0 <= i < node.blocks@.len() && (#[trigger] node.blocks@[i]).is_blue
            ==> anticone_blue_count(node.blocks@, i, node.tips@, node.blocks@.len() as int) <= k
}

/// Recompute every blue block's anticone-blue population and report
/// whether the k-cluster property holds of the current state.
pub fn check_k_cluster(node: &Node, k: i32) -> (r: bool)
    requires
        node.wf(),
    ensures
        r == k_cluster(*node, k as int),
{
    let n = node.blocks.len();
    let mut i: usize = 0;
    while i < n
        invariant
            node.wf(),
            n == node.blocks@.len(),
            i <= n,
            forall|ii: int|
                0 <= ii < i && (#[trigger] node.blocks@[ii]).is_blue ==> anticone_blue_count(
                    node.blocks@,
                    ii,
                    node.tips@,
                    node.blocks@.len() as int,
                ) <= k,
        decreases n - i,
    {
        if node.blocks[i].is_blue {
            let (c, _v) = anticone_blue_of(&node.blocks, i, &node.tips);
            if c > k as i64 {
                proof {
                    assert(!k_cluster(*node, k as int));
                }
                return false;
            }
        }
        i = i + 1;
    }
    true
}

} // verus!

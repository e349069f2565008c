//! A linked file allocator: a file's data blocks form a chain, each block
//! naming the next.

use vstd::prelude::*;

verus! {

/// Bytes one data block can hold.
pub const BLOCK_SIZE: usize = 2;

/// One data block of the arena; `file_next` names the next block of the
/// same file, if any.
#[derive(Clone, Debug)]
pub struct Block {
    pub file_next: Option<usize>,
    pub data: Vec<u8>,
}

/// The bytes of the chain starting at `start`, reading at most `fuel`
/// blocks; a dangling position ends the chain.
pub open spec fn chain_data(blocks: Seq<Block>, start: Option<usize>, fuel: nat) -> Seq<u8>
    decreases fuel,
{
    match start {
        None => Seq::<u8>::empty(),
        Some(i) => {
            if fuel == 0 || i >= blocks.len() {
                Seq::<u8>::empty()
            } else {
                blocks[i as int].data@ + chain_data(
                    blocks,
                    blocks[i as int].file_next,
                    (fuel - 1) as nat,
                )
            }
        },
    }
}

/// The positions the chain visits, in order, reading at most `fuel`
/// blocks.
pub open spec fn chain_nodes(blocks: Seq<Block>, start: Option<usize>, fuel: nat) -> Seq<usize>
    decreases fuel,
{
    match start {
        None => Seq::<usize>::empty(),
        Some(i) => {
            if fuel == 0 || i >= blocks.len() {
                Seq::<usize>::empty()
            } else {
                seq![i] + chain_nodes(blocks, blocks[i as int].file_next, (fuel - 1) as nat)
            }
        },
    }
}

/// Updating a block the chain does not visit changes neither its bytes
/// nor its course.
proof fn lemma_chain_frame(blocks: Seq<Block>, start: Option<usize>, fuel: nat, j: usize, b: Block)
    requires
        !chain_nodes(blocks, start, fuel).contains(j),
        j < blocks.len(),
    ensures
        chain_data(blocks.update(j as int, b), start, fuel) == chain_data(blocks, start, fuel),
        chain_nodes(blocks.update(j as int, b), start, fuel) == chain_nodes(blocks, start, fuel),
    decreases fuel,
{
    match start {
        None => {},
        Some(i) => {
            if fuel > 0 && i < blocks.len() {
                let rest = chain_nodes(blocks, blocks[i as int].file_next, (fuel - 1) as nat);
                assert((seq![i] + rest)[0] == i);
                assert(i != j);
                assert(!rest.contains(j)) by {
                    if rest.contains(j) {
                        let w = choose|w: int| 0 <= w < rest.len() && rest[w] == j;
                        assert((seq![i] + rest)[w + 1] == j);
                    }
                }
                assert(blocks.update(j as int, b)[i as int] == blocks[i as int]);
                lemma_chain_frame(blocks, blocks[i as int].file_next, (fuel - 1) as nat, j, b);
                assert(chain_nodes(blocks.update(j as int, b), start, fuel) =~= chain_nodes(
                    blocks,
                    start,
                    fuel,
                ));
            }
        },
    }
}

/// A chain that ends within its fuel reads the same with any more fuel.
pub proof fn lemma_chain_mono(blocks: Seq<Block>, start: Option<usize>, f1: nat, f2: nat)
    requires
        chain_nodes(blocks, start, f1).len() < f1,
        f1 <= f2,
    ensures
        chain_data(blocks, start, f2) == chain_data(blocks, start, f1),
        chain_nodes(blocks, start, f2) == chain_nodes(blocks, start, f1),
    decreases f1,
{
    match start {
        None => {},
        Some(i) => {
            if i < blocks.len() {
                let rest = chain_nodes(blocks, blocks[i as int].file_next, (f1 - 1) as nat);
                assert(chain_nodes(blocks, start, f1).len() == 1 + rest.len());
                lemma_chain_mono(
                    blocks,
                    blocks[i as int].file_next,
                    (f1 - 1) as nat,
                    (f2 - 1) as nat,
                );
                assert(chain_nodes(blocks, start, f2) =~= chain_nodes(blocks, start, f1));
            }
        },
    }
}

/// A sequence of distinct positions below `n` has at most `n` entries.
proof fn lemma_distinct_bounded(s: Seq<usize>, n: nat)
    requires
        forall|k1: int, k2: int| 0 <= k1 < k2 < s.len() ==> s[k1] != s[k2],
        forall|k: int| 0 <= k < s.len() ==> #[trigger] s[k] < n,
    ensures
        s.len() <= n,
    decreases n,
{
    if s.len() > 0 {
        assert(s[0] < n);
        let last = (n - 1) as usize;
        if s.contains(last) {
            let p = choose|p: int| 0 <= p < s.len() && s[p] == last;
            let s2 = s.remove(p);
            assert(forall|k: int|
                0 <= k < s2.len() ==> #[trigger] s2[k] == if k < p {
                    s[k]
                } else {
                    s[k + 1]
                });
            assert(forall|k1: int, k2: int| 0 <= k1 < k2 < s2.len() ==> s2[k1] != s2[k2]);
            assert(forall|k: int| 0 <= k < s2.len() ==> #[trigger] s2[k] < (n - 1) as nat) by {
                assert forall|k: int| 0 <= k < s2.len() implies #[trigger] s2[k] < (n - 1) as nat
                by {
                    if k < p {
                        assert(s[k] != s[p]);
                    } else {
                        assert(s[k + 1] != s[p]);
                    }
                }
            }
            lemma_distinct_bounded(s2, (n - 1) as nat);
        } else {
            assert(forall|k: int| 0 <= k < s.len() ==> #[trigger] s[k] < (n - 1) as nat) by {
                assert forall|k: int| 0 <= k < s.len() implies #[trigger] s[k] < (n - 1) as nat by {
                    assert(s.contains(s[k]));
                }
            }
            lemma_distinct_bounded(s, (n - 1) as nat);
        }
    }
}

/// An element stays in a sequence that another is pushed onto.
proof fn lemma_push_keeps(s: Seq<usize>, x: usize, y: usize)
    requires
        s.contains(y),
    ensures
        s.push(x).contains(y),
{
    let w = choose|w: int| 0 <= w < s.len() && s[w] == y;
    assert(s.push(x)[w] == y);
}

/// Where the chunk beginning at `start` ends.
pub open spec fn spec_cover_from(start: int, len: int) -> int {
    if start + BLOCK_SIZE as int <= len {
        start + BLOCK_SIZE as int
    } else {
        len
    }
}

/// How many blocks a file of `len` bytes occupies.
pub open spec fn spec_blocks_needed(len: int) -> int {
    (len + BLOCK_SIZE - 1) / (BLOCK_SIZE as int)
}

/// A chain reads the same bytes out of two arenas that agree on its
/// blocks, and visits the same positions.
proof fn lemma_chain_agree(b1: Seq<Block>, b2: Seq<Block>, start: Option<usize>, fuel: nat)
    requires
        b1.len() == b2.len(),
        forall|k: int|
            0 <= k < chain_nodes(b1, start, fuel).len() ==> b2[(#[trigger] chain_nodes(
                b1,
                start,
                fuel,
            )[k]) as int] == b1[chain_nodes(b1, start, fuel)[k] as int],
    ensures
        chain_data(b2, start, fuel) == chain_data(b1, start, fuel),
        chain_nodes(b2, start, fuel) == chain_nodes(b1, start, fuel),
    decreases fuel,
{
    match start {
        None => {},
        Some(i) => {
            if fuel > 0 && i < b1.len() {
                let nodes = chain_nodes(b1, start, fuel);
                let rest = chain_nodes(b1, b1[i as int].file_next, (fuel - 1) as nat);
                assert(nodes[0] == i);
                assert(b2[i as int] == b1[i as int]);
                assert forall|k: int|
                    0 <= k < rest.len() implies b2[(#[trigger] rest[k]) as int] == b1[rest[k]
                    as int] by {
                    assert(nodes[k + 1] == rest[k]);
                }
                lemma_chain_agree(b1, b2, b1[i as int].file_next, (fuel - 1) as nat);
                assert(chain_nodes(b2, start, fuel) =~= chain_nodes(b1, start, fuel));
            }
        },
    }
}

/// The arena of data blocks, with a list of the free positions.
pub struct LinkedAllocator {
    /// Every data block, used or free.
    pub blocks: Vec<Block>,
    /// Positions of the blocks that are free, each listed once.
    pub free_list: Vec<usize>,
}

impl LinkedAllocator {
    /// Free positions are in range and listed at most once.
    pub open spec fn wf(&self) -> bool {
        &&& forall|k: int|
            0 <= k < self.free_list@.len() ==> #[trigger] self.free_list@[k] < self.blocks@.len()
        &&& forall|k1: int, k2: int|
            0 <= k1 < k2 < self.free_list@.len() ==> self.free_list@[k1] != self.free_list@[k2]
    }

    /// The fuel with which every complete chain of this arena reads fully.
    pub open spec fn fuel(&self) -> nat {
        self.blocks@.len() + 1
    }

    /// An arena of `blocks` empty, unchained data blocks, all free.
    pub fn new(blocks: usize) -> (a: Self)
        ensures
            a.wf(),
            a.blocks@.len() == blocks,
            a.free_list@.len() == blocks,
    {
        let mut arena: Vec<Block> = Vec::new();
        let mut free_list: Vec<usize> = Vec::new();
        let mut i: usize = 0;
        while i < blocks
            invariant
                0 <= i <= blocks,
                arena@.len() == i,
                free_list@.len() == i,
                forall|k: int| 0 <= k < i ==> #[trigger] free_list@[k] == k,
            decreases blocks - i,
        {
            arena.push(Block { file_next: None, data: Vec::new() });
            free_list.push(i);
            i = i + 1;
        }
        LinkedAllocator { blocks: arena, free_list }
    }

    /// Stores a file: takes one free block for every `BLOCK_SIZE` bytes
    /// begun and chains them in order.  The chain from the returned head
    /// reads back exactly as `data`; every block it does not visit is
    /// untouched, and its blocks are no longer free.
    pub fn store_file(&mut self, data: &[u8]) -> (r: Option<usize>)
        requires
            old(self).wf(),
            old(self).free_list@.len() >= 1,
            data@.len() <= old(self).free_list@.len() * BLOCK_SIZE,
        ensures
            final(self).wf(),
            final(self).blocks@.len() == old(self).blocks@.len(),
            chain_data(final(self).blocks@, r, final(self).fuel()) == data@,
            forall|j: usize|
                j < final(self).blocks@.len() && !chain_nodes(
                    final(self).blocks@,
                    r,
                    final(self).fuel(),
                ).contains(j) ==> final(self).blocks@[j as int] == old(self).blocks@[j as int],
            forall|k: int|
                0 <= k < final(self).free_list@.len() ==> old(self).free_list@.contains(
                    #[trigger] final(self).free_list@[k],
                ),
            forall|k: int|
                0 <= k < final(self).free_list@.len() ==> !chain_nodes(
                    final(self).blocks@,
                    r,
                    final(self).fuel(),
                ).contains(#[trigger] final(self).free_list@[k]),
            forall|k: int|
                0 <= k < chain_nodes(final(self).blocks@, r, final(self).fuel()).len() ==> old(
                    self,
                ).free_list@.contains(
                    #[trigger] chain_nodes(final(self).blocks@, r, final(self).fuel())[k],
                ),
            final(self).free_list@.len() + spec_blocks_needed(data@.len() as int) == old(
                self,
            ).free_list@.len(),
    {
        let ghost blocks0 = self.blocks@;
        let ghost free0 = self.free_list@;
        let len = data.len();
        if len == 0 {
            proof {
                vstd::arithmetic::div_mod::lemma_basic_div(
                    BLOCK_SIZE as int - 1,
                    BLOCK_SIZE as int,
                );
            }
            return None;
        }
        let mut head: Option<usize> = None;
        let ghost mut cnt: nat = 0nat;
        let q0 = (len - 1) / BLOCK_SIZE;
        proof {
            vstd::arithmetic::div_mod::lemma_fundamental_div_mod(len as int - 1, BLOCK_SIZE as int);
            vstd::arithmetic::div_mod::lemma_mod_bound(len as int - 1, BLOCK_SIZE as int);
            vstd::arithmetic::div_mod::lemma_multiply_divide_lt(
                len as int - 1,
                free0.len() as int,
                BLOCK_SIZE as int,
            );
        }
        let mut start = q0 * BLOCK_SIZE;
        let mut rem = q0 + 1;
        proof {
            assert(Seq::<u8>::empty() =~= data@.skip(len as int));
        }
        loop
            invariant_except_break
                1 <= rem,
                start == BLOCK_SIZE * (rem - 1),
                start < len,
                cnt + rem <= free0.len(),
                chain_data(self.blocks@, head, cnt + 1) == data@.skip(
                    spec_cover_from(start as int, len as int),
                ),
                cnt + rem == q0 + 1,
            invariant
                len == data@.len(),
                0 < len,
                self.wf(),
                self.blocks@.len() == blocks0.len(),
                self.free_list@.len() + cnt == free0.len(),
                chain_nodes(self.blocks@, head, cnt + 1).len() == cnt,
                forall|k: int|
                    0 <= k < chain_nodes(self.blocks@, head, cnt + 1).len()
                        ==> #[trigger] chain_nodes(self.blocks@, head, cnt + 1)[k]
                        < self.blocks@.len(),
                forall|j: usize|
                    j < self.blocks@.len() && !chain_nodes(self.blocks@, head, cnt + 1).contains(
                        j,
                    ) ==> self.blocks@[j as int] == blocks0[j as int],
                forall|k: int|
                    0 <= k < self.free_list@.len() ==> free0.contains(
                        #[trigger] self.free_list@[k],
                    ),
                forall|k: int|
                    0 <= k < self.free_list@.len() ==> !chain_nodes(
                        self.blocks@,
                        head,
                        cnt + 1,
                    ).contains(#[trigger] self.free_list@[k]),
                forall|k: int|
                    0 <= k < chain_nodes(self.blocks@, head, cnt + 1).len() ==> free0.contains(
                        #[trigger] chain_nodes(self.blocks@, head, cnt + 1)[k],
                    ),
            ensures
                chain_data(self.blocks@, head, cnt + 1) == data@.skip(0),
                cnt == q0 + 1,
                forall|k: int|
                    0 <= k < chain_nodes(self.blocks@, head, cnt + 1).len() ==> free0.contains(
                        #[trigger] chain_nodes(self.blocks@, head, cnt + 1)[k],
                    ),
                chain_nodes(self.blocks@, head, cnt + 1).len() == cnt,
            decreases rem,
        {
            let ghost pre_free = self.free_list@;
            let ghost pre_blocks = self.blocks@;
            let ghost pre_head = head;
            let ghost pre_cnt = cnt;
            proof {
                assert(self.free_list@.len() >= 1);
            }
            let idx = match self.free_list.pop() {
                Some(i) => i,
                None => unreached(),
            };
            let end = if len - start > BLOCK_SIZE {
                start + BLOCK_SIZE
            } else {
                len
            };
            let mut chunk: Vec<u8> = Vec::new();
            let mut c = start;
            while c < end
                invariant
                    start <= c <= end <= len,
                    len == data@.len(),
                    chunk@ =~= data@.subrange(start as int, c as int),
                decreases end - c,
            {
                let b = data[c];
                chunk.push(b);
                proof {
                    assert(chunk@ =~= data@.subrange(start as int, c + 1));
                }
                c = c + 1;
            }
            self.blocks.set(idx, Block { file_next: head, data: chunk });
            proof {
                assert(pre_free[pre_free.len() - 1] == idx);
                assert(!chain_nodes(pre_blocks, pre_head, pre_cnt + 1).contains(idx));
                lemma_chain_frame(pre_blocks, pre_head, pre_cnt + 1, idx, self.blocks@[idx as int]);
            }
            head = Some(idx);
            proof {
                cnt = cnt + 1;
                let nodes_new = chain_nodes(self.blocks@, head, cnt + 1);
                assert(chain_nodes(self.blocks@, pre_head, pre_cnt + 1) == chain_nodes(
                    pre_blocks,
                    pre_head,
                    pre_cnt + 1,
                ));
                lemma_chain_mono(self.blocks@, pre_head, pre_cnt + 1, cnt + 1);
                assert(nodes_new =~= seq![idx] + chain_nodes(self.blocks@, pre_head, cnt));
                assert(chain_data(self.blocks@, head, cnt + 1) == data@.subrange(
                    start as int,
                    end as int,
                ) + data@.skip(end as int));
                assert(data@.subrange(start as int, end as int) + data@.skip(end as int)
                    =~= data@.skip(start as int));
                assert forall|j: usize|
                    j < self.blocks@.len() && !nodes_new.contains(j) implies self.blocks@[j
                    as int] == blocks0[j as int] by {
                    assert(nodes_new[0] == idx);
                    assert(j != idx);
                    if chain_nodes(self.blocks@, pre_head, cnt).contains(j) {
                        let w = choose|w: int|
                            0 <= w < chain_nodes(self.blocks@, pre_head, cnt).len() && chain_nodes(
                                self.blocks@,
                                pre_head,
                                cnt,
                            )[w] == j;
                        assert(nodes_new[w + 1] == j);
                    }
                    assert(self.blocks@[j as int] == pre_blocks[j as int]);
                }
                assert forall|k: int| 0 <= k < nodes_new.len() implies free0.contains(
                    #[trigger] nodes_new[k],
                ) by {
                    if k == 0 {
                        assert(nodes_new[0] == idx);
                        assert(free0.contains(pre_free[pre_free.len() - 1]));
                    } else {
                        assert(nodes_new[k] == chain_nodes(self.blocks@, pre_head, cnt)[k - 1]);
                    }
                }
                assert forall|k: int|
                    0 <= k < self.free_list@.len() implies !nodes_new.contains(
                    #[trigger] self.free_list@[k],
                ) by {
                    let f = self.free_list@[k];
                    assert(pre_free[k] == f);
                    assert(f != idx);
                    if nodes_new.contains(f) {
                        let w = choose|w: int| 0 <= w < nodes_new.len() && nodes_new[w] == f;
                        if w > 0 {
                            assert(chain_nodes(self.blocks@, pre_head, cnt)[w - 1] == f);
                        }
                    }
                }
            }
            if start == 0 {
                break ;
            }
            start = start - BLOCK_SIZE;
            rem = rem - 1;
        }
        proof {
            assert(data@.skip(0) =~= data@);
            assert(self.free_list@.len() <= free0.len());
            assert(free0.len() <= blocks0.len()) by {
                lemma_distinct_bounded(free0, blocks0.len());
            }
            lemma_chain_mono(self.blocks@, head, cnt + 1, self.fuel());
            assert(spec_blocks_needed(len as int) == q0 + 1) by {
                vstd::arithmetic::div_mod::lemma_hoist_over_denominator(
                    len as int - 1,
                    1,
                    BLOCK_SIZE as nat,
                );
            }
        }
        head
    }

    /// Reads a file back by walking its chain from `start`.
    pub fn read_file(&self, start: Option<usize>) -> (r: Vec<u8>)
        ensures
            r@ == chain_data(self.blocks@, start, self.fuel()),
    {
        let mut out: Vec<u8> = Vec::new();
        let mut cur = start;
        let cap = self.blocks.len();
        let mut fuel_left: u128 = cap as u128 + 1;
        proof {
            assert(out@ + chain_data(self.blocks@, start, self.fuel()) =~= chain_data(
                self.blocks@,
                start,
                self.fuel(),
            ));
        }
        loop
            invariant
                fuel_left <= cap as u128 + 1,
                cap == self.blocks@.len(),
                out@ + chain_data(self.blocks@, cur, fuel_left as nat) == chain_data(
                    self.blocks@,
                    start,
                    self.fuel(),
                ),
            ensures
                out@ == chain_data(self.blocks@, start, self.fuel()),
            decreases fuel_left,
        {
            match cur {
                None => {
                    proof {
                        assert(out@ + Seq::<u8>::empty() =~= out@);
                    }
                    break ;
                },
                Some(i) => {
                    if fuel_left == 0 || i >= cap {
                        proof {
                            assert(out@ + Seq::<u8>::empty() =~= out@);
                        }
                        break ;
                    }
                    let ghost pre = out@;
                    let m = self.blocks[i].data.len();
                    let mut c: usize = 0;
                    while c < m
                        invariant
                            0 <= c <= m,
                            i < self.blocks@.len(),
                            m == self.blocks@[i as int].data@.len(),
                            out@ =~= pre + self.blocks@[i as int].data@.take(c as int),
                        decreases m - c,
                    {
                        let b = self.blocks[i].data[c];
                        out.push(b);
                        proof {
                            assert(out@ =~= pre + self.blocks@[i as int].data@.take(c + 1));
                        }
                        c = c + 1;
                    }
                    proof {
                        assert(self.blocks@[i as int].data@.take(m as int) =~= self.blocks@[i
                            as int].data@);
                        assert(pre + self.blocks@[i as int].data@ + chain_data(
                            self.blocks@,
                            self.blocks@[i as int].file_next,
                            (fuel_left - 1) as nat,
                        ) =~= pre + (self.blocks@[i as int].data@ + chain_data(
                            self.blocks@,
                            self.blocks@[i as int].file_next,
                            (fuel_left - 1) as nat,
                        )));
                    }
                    cur = self.blocks[i].file_next;
                    fuel_left = fuel_left - 1;
                },
            }
        }
        out
    }

    /// Frees a file's chain: every visited block is emptied, unchained and
    /// listed free again (a position already free is not listed twice).
    pub fn delete_file(&mut self, start: Option<usize>)
        requires
            old(self).wf(),
        ensures
            final(self).wf(),
            final(self).blocks@.len() == old(self).blocks@.len(),
            forall|k: int|
                0 <= k < old(self).free_list@.len() ==> final(self).free_list@.contains(
                    #[trigger] old(self).free_list@[k],
                ),
            forall|k: int|
                0 <= k < chain_nodes(old(self).blocks@, start, old(self).fuel()).len() ==> final(self).free_list@.contains(
                    #[trigger] chain_nodes(old(self).blocks@, start, old(self).fuel())[k],
                ),
            forall|j: usize|
                j < old(self).blocks@.len() && !chain_nodes(
                    old(self).blocks@,
                    start,
                    old(self).fuel(),
                ).contains(j) ==> final(self).blocks@[j as int] == old(self).blocks@[j as int],
            forall|k: int|
                0 <= k < final(self).free_list@.len() ==> old(self).free_list@.contains(
                    #[trigger] final(self).free_list@[k],
                ) || chain_nodes(old(self).blocks@, start, old(self).fuel()).contains(
                    final(self).free_list@[k],
                ),
    {
        let collected = self.collect_chain(start);
        let ghost nodes = chain_nodes(self.blocks@, start, self.fuel());
        let n = collected.len();
        let mut k: usize = 0;
        while k < n
            invariant
                0 <= k <= n,
                n == collected@.len(),
                collected@ == nodes,
                self.wf(),
                self.blocks@.len() == old(self).blocks@.len(),
                forall|i: int| 0 <= i < nodes.len() ==> #[trigger] nodes[i] < self.blocks@.len(),
                forall|i: int| 0 <= i < k ==> self.free_list@.contains(#[trigger] nodes[i]),
                forall|i: int|
                    0 <= i < old(self).free_list@.len() ==> self.free_list@.contains(
                        #[trigger] old(self).free_list@[i],
                    ),
                forall|i: int|
                    0 <= i < self.free_list@.len() ==> old(self).free_list@.contains(
                        #[trigger] self.free_list@[i],
                    ) || nodes.contains(self.free_list@[i]),
                forall|j: usize|
                    j < old(self).blocks@.len() && !nodes.contains(j) ==> self.blocks@[j as int]
                        == old(self).blocks@[j as int],
            decreases n - k,
        {
            let idx = collected[k];
            let ghost pre_free = self.free_list@;
            proof {
                assert(nodes.contains(collected@[k as int]));
            }
            self.blocks.set(idx, Block { file_next: None, data: Vec::new() });
            if !self.contains_free(idx) {
                self.free_list.push(idx);
                proof {
                    assert forall|i: int|
                        0 <= i < old(self).free_list@.len() implies self.free_list@.contains(
                        #[trigger] old(self).free_list@[i],
                    ) by {
                        lemma_push_keeps(pre_free, idx, old(self).free_list@[i]);
                    }
                    assert forall|i: int| 0 <= i <= k implies self.free_list@.contains(
                        #[trigger] nodes[i],
                    ) by {
                        if i < k {
                            lemma_push_keeps(pre_free, idx, nodes[i]);
                        } else {
                            assert(self.free_list@[pre_free.len() as int] == idx);
                        }
                    }
                }
            }
            k = k + 1;
        }
    }

    /// The positions a chain visits, as a list.
    fn collect_chain(&self, start: Option<usize>) -> (r: Vec<usize>)
        ensures
            r@ == chain_nodes(self.blocks@, start, self.fuel()),
            forall|i: int| 0 <= i < r@.len() ==> #[trigger] r@[i] < self.blocks@.len(),
    {
        let mut out: Vec<usize> = Vec::new();
        let mut cur = start;
        let cap = self.blocks.len();
        let mut fuel_left: u128 = cap as u128 + 1;
        proof {
            assert(out@ + chain_nodes(self.blocks@, start, self.fuel()) =~= chain_nodes(
                self.blocks@,
                start,
                self.fuel(),
            ));
        }
        loop
            invariant
                fuel_left <= cap as u128 + 1,
                cap == self.blocks@.len(),
                out@ + chain_nodes(self.blocks@, cur, fuel_left as nat) == chain_nodes(
                    self.blocks@,
                    start,
                    self.fuel(),
                ),
                forall|i: int| 0 <= i < out@.len() ==> #[trigger] out@[i] < self.blocks@.len(),
            ensures
                out@ == chain_nodes(self.blocks@, start, self.fuel()),
                forall|i: int| 0 <= i < out@.len() ==> #[trigger] out@[i] < self.blocks@.len(),
            decreases fuel_left,
        {
            match cur {
                None => {
                    proof {
                        assert(out@ + Seq::<usize>::empty() =~= out@);
                    }
                    break ;
                },
                Some(i) => {
                    if fuel_left == 0 || i >= cap {
                        proof {
                            assert(out@ + Seq::<usize>::empty() =~= out@);
                        }
                        break ;
                    }
                    let ghost pre = out@;
                    out.push(i);
                    proof {
                        assert(pre + (seq![i] + chain_nodes(
                            self.blocks@,
                            self.blocks@[i as int].file_next,
                            (fuel_left - 1) as nat,
                        )) =~= out@ + chain_nodes(
                            self.blocks@,
                            self.blocks@[i as int].file_next,
                            (fuel_left - 1) as nat,
                        ));
                    }
                    cur = self.blocks[i].file_next;
                    fuel_left = fuel_left - 1;
                },
            }
        }
        out
    }

    /// Whether a position is already listed free.
    fn contains_free(&self, idx: usize) -> (r: bool)
        ensures
            r == self.free_list@.contains(idx),
    {
        let n = self.free_list.len();
        let mut k: usize = 0;
        while k < n
            invariant
                0 <= k <= n,
                n == self.free_list@.len(),
                forall|i: int| 0 <= i < k ==> #[trigger] self.free_list@[i] != idx,
            decreases n - k,
        {
            if self.free_list[k] == idx {
                return true;
            }
            k = k + 1;
        }
        false
    }
}

/// A name-to-file directory over a linked allocator.
pub struct Directory {
    /// Each stored name with its file's chain head; the first entry under
    /// a name is the one that counts.
    pub files: Vec<(String, Option<usize>)>,
}

/// The chain head filed under `name`, if any.
pub open spec fn dir_lookup(files: Seq<(String, Option<usize>)>, name: Seq<char>) -> Option<
    Option<usize>,
>
    decreases files.len(),
{
    if files.len() == 0 {
        None
    } else if files[0].0@ == name {
        Some(files[0].1)
    } else {
        dir_lookup(files.drop_first(), name)
    }
}

/// The position of the first entry filed under `name`.
pub open spec fn first_match(files: Seq<(String, Option<usize>)>, name: Seq<char>) -> int
    decreases files.len(),
{
    if files.len() == 0 {
        0
    } else if files[0].0@ == name {
        0
    } else {
        1 + first_match(files.drop_first(), name)
    }
}

/// A matching entry with none before it decides the lookup.
proof fn lemma_lookup_here(files: Seq<(String, Option<usize>)>, name: Seq<char>, k: int)
    requires
        0 <= k < files.len(),
        files[k].0@ == name,
        forall|i: int| 0 <= i < k ==> #[trigger] files[i].0@ != name,
    ensures
        dir_lookup(files, name) == Some(files[k].1),
        first_match(files, name) == k,
    decreases k,
{
    if k > 0 {
        assert(forall|i: int|
            0 <= i < files.drop_first().len() ==> #[trigger] files.drop_first()[i] == files[i
                + 1]);
        lemma_lookup_here(files.drop_first(), name, k - 1);
    }
}

/// With no matching entry at all there is no lookup result.
proof fn lemma_lookup_none(files: Seq<(String, Option<usize>)>, name: Seq<char>)
    requires
        forall|i: int| 0 <= i < files.len() ==> #[trigger] files[i].0@ != name,
    ensures
        dir_lookup(files, name) is None,
    decreases files.len(),
{
    if files.len() > 0 {
        assert(forall|i: int|
            0 <= i < files.drop_first().len() ==> #[trigger] files.drop_first()[i] == files[i
                + 1]);
        lemma_lookup_none(files.drop_first(), name);
    }
}

/// Every position a chain visits lies inside the arena.
proof fn lemma_chain_nodes_in_range(blocks: Seq<Block>, start: Option<usize>, fuel: nat)
    ensures
        forall|k: int|
            0 <= k < chain_nodes(blocks, start, fuel).len() ==> (#[trigger] chain_nodes(
                blocks,
                start,
                fuel,
            )[k]) < blocks.len(),
    decreases fuel,
{
    match start {
        None => {},
        Some(i) => {
            if fuel > 0 && i < blocks.len() {
                lemma_chain_nodes_in_range(blocks, blocks[i as int].file_next, (fuel - 1) as nat);
                let nodes = chain_nodes(blocks, start, fuel);
                let rest = chain_nodes(blocks, blocks[i as int].file_next, (fuel - 1) as nat);
                assert forall|k: int| 0 <= k < nodes.len() implies (#[trigger] nodes[k])
                    < blocks.len() by {
                    if k > 0 {
                        assert(nodes[k] == rest[k - 1]);
                    }
                }
            }
        },
    }
}

/// The positions a stored file's chain visits in its allocator.
pub open spec fn entry_nodes(a: &LinkedAllocator, head: Option<usize>) -> Seq<usize> {
    chain_nodes(a.blocks@, head, a.fuel())
}

/// A directory that fits its allocator: names are unique, every stored
/// file's chain stays on allocated blocks (none of them free), and no
/// two stored files' chains share a block.
pub open spec fn dir_wf(files: Seq<(String, Option<usize>)>, a: &LinkedAllocator) -> bool {
    &&& forall|i1: int, i2: int|
        0 <= i1 < i2 < files.len() ==> (#[trigger] files[i1].0)@ != (#[trigger] files[i2].0)@
    &&& forall|i: int, k: int|
        0 <= i < files.len() && 0 <= k < entry_nodes(a, files[i].1).len()
            ==> !a.free_list@.contains(#[trigger] entry_nodes(a, files[i].1)[k])
    &&& forall|i1: int, i2: int, k: int|
        0 <= i1 < files.len() && 0 <= i2 < files.len() && i1 != i2 && 0 <= k < entry_nodes(
            a,
            files[i1].1,
        ).len() ==> !entry_nodes(a, (#[trigger] files[i2].1)).contains(
            #[trigger] entry_nodes(a, files[i1].1)[k],
        )
}

/// A successful lookup names one of the entries.
proof fn lemma_lookup_is_entry(files: Seq<(String, Option<usize>)>, n: Seq<char>)
    requires
        dir_lookup(files, n) is Some,
    ensures
        exists|i: int|
            0 <= i < files.len() && (#[trigger] files[i].0)@ == n && files[i].1 == dir_lookup(
                files,
                n,
            )->Some_0,
    decreases files.len(),
{
    if files[0].0@ == n {
        assert(files[0].0@ == n && files[0].1 == dir_lookup(files, n)->Some_0);
    } else {
        lemma_lookup_is_entry(files.drop_first(), n);
        let w = choose|w: int|
            0 <= w < files.drop_first().len() && (#[trigger] files.drop_first()[w].0)@ == n
                && files.drop_first()[w].1 == dir_lookup(files.drop_first(), n)->Some_0;
        assert(files[w + 1].0@ == n && files[w + 1].1 == dir_lookup(files, n)->Some_0);
    }
}

/// Replacing the entry at `k` by one under the same name leaves every
/// other name's lookup unchanged.
proof fn lemma_lookup_update_other(
    files: Seq<(String, Option<usize>)>,
    k: int,
    e: (String, Option<usize>),
    n: Seq<char>,
)
    requires
        0 <= k < files.len(),
        e.0@ == files[k].0@,
        n != e.0@,
    ensures
        dir_lookup(files.update(k, e), n) == dir_lookup(files, n),
    decreases k,
{
    let fu = files.update(k, e);
    if k == 0 {
        assert(fu[0] == e);
        assert(fu.drop_first() =~= files.drop_first());
    } else {
        assert(fu[0] == files[0]);
        assert(fu.drop_first() =~= files.drop_first().update(k - 1, e));
        if files[0].0@ != n {
            lemma_lookup_update_other(files.drop_first(), k - 1, e, n);
        }
    }
}

/// Appending an entry leaves every other name's lookup unchanged.
proof fn lemma_lookup_push_other(
    files: Seq<(String, Option<usize>)>,
    e: (String, Option<usize>),
    n: Seq<char>,
)
    requires
        n != e.0@,
    ensures
        dir_lookup(files.push(e), n) == dir_lookup(files, n),
    decreases files.len(),
{
    reveal_with_fuel(dir_lookup, 2);
    if files.len() == 0 {
        assert(files.push(e)[0] == e);
        assert(files.push(e).drop_first() =~= Seq::<(String, Option<usize>)>::empty());
    } else {
        assert(files.push(e)[0] == files[0]);
        assert(files.push(e).drop_first() =~= files.drop_first().push(e));
        if files[0].0@ != n {
            lemma_lookup_push_other(files.drop_first(), e, n);
        }
    }
}

/// Removing an entry leaves every other name's lookup unchanged.
proof fn lemma_lookup_remove_other(files: Seq<(String, Option<usize>)>, k: int, n: Seq<char>)
    requires
        0 <= k < files.len(),
        files[k].0@ != n,
    ensures
        dir_lookup(files.remove(k), n) == dir_lookup(files, n),
    decreases k,
{
    let fr = files.remove(k);
    if k == 0 {
        assert(fr =~= files.drop_first());
    } else {
        assert(fr[0] == files[0]);
        assert(fr.drop_first() =~= files.drop_first().remove(k - 1));
        if files[0].0@ != n {
            lemma_lookup_remove_other(files.drop_first(), k - 1, n);
        }
    }
}

/// After a store, every already-filed chain keeps its course and bytes,
/// stays allocated, and is disjoint from the freshly stored chain.
proof fn lemma_entry_fits(
    files: Seq<(String, Option<usize>)>,
    a_pre: &LinkedAllocator,
    a_post: &LinkedAllocator,
    hd: Option<usize>,
)
    requires
        dir_wf(files, a_pre),
        a_post.blocks@.len() == a_pre.blocks@.len(),
        forall|k: int|
            0 <= k < entry_nodes(a_post, hd).len() ==> a_pre.free_list@.contains(
                #[trigger] entry_nodes(a_post, hd)[k],
            ),
        forall|k: int|
            0 <= k < a_post.free_list@.len() ==> a_pre.free_list@.contains(
                #[trigger] a_post.free_list@[k],
            ),
        forall|k: int|
            0 <= k < a_post.free_list@.len() ==> !entry_nodes(a_post, hd).contains(
                #[trigger] a_post.free_list@[k],
            ),
        forall|j: usize|
            j < a_post.blocks@.len() && !entry_nodes(a_post, hd).contains(j)
                ==> a_post.blocks@[j as int] == a_pre.blocks@[j as int],
    ensures
        forall|i: int|
            0 <= i < files.len() ==> chain_data(
                a_post.blocks@,
                (#[trigger] files[i].1),
                a_post.fuel(),
            ) == chain_data(a_pre.blocks@, files[i].1, a_pre.fuel()),
        forall|i: int|
            0 <= i < files.len() ==> entry_nodes(a_post, (#[trigger] files[i].1)) == entry_nodes(
                a_pre,
                files[i].1,
            ),
        forall|i: int, k: int|
            0 <= i < files.len() && 0 <= k < entry_nodes(a_pre, files[i].1).len()
                ==> !a_post.free_list@.contains(#[trigger] entry_nodes(a_pre, files[i].1)[k])
                && !entry_nodes(a_post, hd).contains(entry_nodes(a_pre, files[i].1)[k]),
        forall|k: int|
            0 <= k < entry_nodes(a_post, hd).len() ==> !a_post.free_list@.contains(
                #[trigger] entry_nodes(a_post, hd)[k],
            ),
{
    assert forall|i: int, k: int|
        0 <= i < files.len() && 0 <= k < entry_nodes(a_pre, files[i].1).len()
            implies !a_post.free_list@.contains(#[trigger] entry_nodes(a_pre, files[i].1)[k])
        && !entry_nodes(a_post, hd).contains(entry_nodes(a_pre, files[i].1)[k]) by {
        let e = entry_nodes(a_pre, files[i].1)[k];
        if a_post.free_list@.contains(e) {
            let w = choose|w: int| 0 <= w < a_post.free_list@.len() && a_post.free_list@[w] == e;
            assert(a_pre.free_list@.contains(a_post.free_list@[w]));
        }
        if entry_nodes(a_post, hd).contains(e) {
            let w = choose|w: int|
                0 <= w < entry_nodes(a_post, hd).len() && entry_nodes(a_post, hd)[w] == e;
            assert(a_pre.free_list@.contains(entry_nodes(a_post, hd)[w]));
        }
    }
    assert forall|k: int|
        0 <= k < entry_nodes(a_post, hd).len() implies !a_post.free_list@.contains(
        #[trigger] entry_nodes(a_post, hd)[k],
    ) by {
        let e = entry_nodes(a_post, hd)[k];
        if a_post.free_list@.contains(e) {
            let w = choose|w: int| 0 <= w < a_post.free_list@.len() && a_post.free_list@[w] == e;
            assert(!entry_nodes(a_post, hd).contains(a_post.free_list@[w]));
        }
    }
    assert forall|i: int|
        0 <= i < files.len() implies chain_data(
        a_post.blocks@,
        (#[trigger] files[i].1),
        a_post.fuel(),
    ) == chain_data(a_pre.blocks@, files[i].1, a_pre.fuel()) && entry_nodes(a_post, files[i].1)
        == entry_nodes(a_pre, files[i].1) by {
        lemma_chain_nodes_in_range(a_pre.blocks@, files[i].1, a_pre.fuel());
        assert forall|k: int|
            0 <= k < entry_nodes(a_pre, files[i].1).len() implies a_post.blocks@[(
        #[trigger] entry_nodes(a_pre, files[i].1)[k]) as int] == a_pre.blocks@[entry_nodes(
            a_pre,
            files[i].1,
        )[k] as int] by {
            assert(!entry_nodes(a_post, hd).contains(entry_nodes(a_pre, files[i].1)[k]));
            assert(entry_nodes(a_pre, files[i].1)[k] < a_post.blocks@.len());
        }
        lemma_chain_agree(a_pre.blocks@, a_post.blocks@, files[i].1, a_pre.fuel());
    }
}

/// A directory stays well formed when one entry is filed with a freshly
/// stored chain and every other entry is carried over unchanged.
proof fn lemma_dir_wf_with_entry(
    files_old: Seq<(String, Option<usize>)>,
    files_new: Seq<(String, Option<usize>)>,
    pos: int,
    a_pre: &LinkedAllocator,
    a_post: &LinkedAllocator,
)
    requires
        dir_wf(files_old, a_pre),
        a_post.blocks@.len() == a_pre.blocks@.len(),
        0 <= pos < files_new.len(),
        forall|i: int|
            0 <= i < files_new.len() && i != pos ==> i < files_old.len() && #[trigger] files_new[i]
                == files_old[i],
        forall|i: int|
            0 <= i < files_new.len() && i != pos ==> (#[trigger] files_new[i]).0@
                != files_new[pos].0@,
        forall|k: int|
            0 <= k < entry_nodes(a_post, files_new[pos].1).len() ==> !a_post.free_list@.contains(
                #[trigger] entry_nodes(a_post, files_new[pos].1)[k],
            ),
        forall|i: int|
            0 <= i < files_old.len() ==> entry_nodes(a_post, (#[trigger] files_old[i].1))
                == entry_nodes(a_pre, files_old[i].1),
        forall|i: int, k: int|
            0 <= i < files_old.len() && 0 <= k < entry_nodes(a_pre, files_old[i].1).len()
                ==> !a_post.free_list@.contains(#[trigger] entry_nodes(a_pre, files_old[i].1)[k])
                && !entry_nodes(a_post, files_new[pos].1).contains(
                entry_nodes(a_pre, files_old[i].1)[k],
            ),
    ensures
        dir_wf(files_new, a_post),
{
    assert forall|i1: int, i2: int|
        0 <= i1 < i2 < files_new.len() implies (#[trigger] files_new[i1].0)@ != (
    #[trigger] files_new[i2].0)@ by {
        if i1 != pos && i2 != pos {
            assert(files_new[i1] == files_old[i1] && files_new[i2] == files_old[i2]);
        }
    }
    assert forall|i: int, k: int|
        0 <= i < files_new.len() && 0 <= k < entry_nodes(a_post, files_new[i].1).len()
            implies !a_post.free_list@.contains(
        #[trigger] entry_nodes(a_post, files_new[i].1)[k],
    ) by {
        if i != pos {
            assert(files_new[i] == files_old[i]);
            assert(entry_nodes(a_post, files_old[i].1) == entry_nodes(a_pre, files_old[i].1));
        }
    }
    assert forall|i1: int, i2: int, k: int|
        0 <= i1 < files_new.len() && 0 <= i2 < files_new.len() && i1 != i2 && 0 <= k
            < entry_nodes(a_post, files_new[i1].1).len() implies !entry_nodes(
        a_post,
        (#[trigger] files_new[i2].1),
    ).contains(#[trigger] entry_nodes(a_post, files_new[i1].1)[k]) by {
        if i1 == pos {
            assert(files_new[i2] == files_old[i2]);
            assert(entry_nodes(a_post, files_old[i2].1) == entry_nodes(a_pre, files_old[i2].1));
            let e = entry_nodes(a_post, files_new[pos].1)[k];
            if entry_nodes(a_pre, files_old[i2].1).contains(e) {
                let w = choose|w: int|
                    0 <= w < entry_nodes(a_pre, files_old[i2].1).len() && entry_nodes(
                        a_pre,
                        files_old[i2].1,
                    )[w] == e;
                assert(!entry_nodes(a_post, files_new[pos].1).contains(
                    entry_nodes(a_pre, files_old[i2].1)[w],
                ));
            }
        } else if i2 == pos {
            assert(files_new[i1] == files_old[i1]);
            assert(entry_nodes(a_post, files_old[i1].1) == entry_nodes(a_pre, files_old[i1].1));
        } else {
            assert(files_new[i1] == files_old[i1] && files_new[i2] == files_old[i2]);
            assert(entry_nodes(a_post, files_old[i1].1) == entry_nodes(a_pre, files_old[i1].1));
            assert(entry_nodes(a_post, files_old[i2].1) == entry_nodes(a_pre, files_old[i2].1));
        }
    }
}

impl Directory {
    /// An empty directory.
    pub fn new() -> (d: Self)
        ensures
            d.files@.len() == 0,
    {
        Directory { files: Vec::new() }
    }

    /// The position of the first entry under `name`, if any.
    fn position_of(&self, name: &String) -> (r: Option<usize>)
        ensures
            r matches Some(k) ==> k < self.files@.len() && self.files@[k as int].0@ == name@
                && forall|i: int| 0 <= i < k ==> #[trigger] self.files@[i].0@ != name@,
            r is None ==> forall|i: int|
                0 <= i < self.files@.len() ==> #[trigger] self.files@[i].0@ != name@,
    {
        let n = self.files.len();
        let mut k: usize = 0;
        while k < n
            invariant
                0 <= k <= n,
                n == self.files@.len(),
                forall|i: int| 0 <= i < k ==> #[trigger] self.files@[i].0@ != name@,
            decreases n - k,
        {
            if self.files[k].0 == *name {
                return Some(k);
            }
            k = k + 1;
        }
        None
    }

    /// Stores `data` under `name`: the allocator chains the blocks and
    /// the directory remembers the chain head, replacing any file already
    /// filed under that name.
    pub fn open_file(&mut self, name: String, alloc: &mut LinkedAllocator, data: &[u8])
        requires
            old(alloc).wf(),
            dir_wf(old(self).files@, old(alloc)),
            old(alloc).free_list@.len() >= 1,
            data@.len() <= old(alloc).free_list@.len() * BLOCK_SIZE,
        ensures
            final(alloc).wf(),
            dir_wf(final(self).files@, final(alloc)),
            final(alloc).blocks@.len() == old(alloc).blocks@.len(),
            final(alloc).free_list@.len() + spec_blocks_needed(data@.len() as int) == old(
                alloc,
            ).free_list@.len(),
            dir_lookup(final(self).files@, name@) is Some,
            chain_data(
                final(alloc).blocks@,
                dir_lookup(final(self).files@, name@)->Some_0,
                final(alloc).fuel(),
            ) == data@,
            forall|n: Seq<char>|
                n != name@ ==> dir_lookup(final(self).files@, n) == #[trigger] dir_lookup(
                    old(self).files@,
                    n,
                ),
            forall|n: Seq<char>|
                n != name@ && #[trigger] dir_lookup(old(self).files@, n) is Some ==> chain_data(
                    final(alloc).blocks@,
                    dir_lookup(old(self).files@, n)->Some_0,
                    final(alloc).fuel(),
                ) == chain_data(
                    old(alloc).blocks@,
                    dir_lookup(old(self).files@, n)->Some_0,
                    old(alloc).fuel(),
                ),
    {
        let ghost nm = name@;
        let ghost files0 = self.files@;
        let ghost a0 = *alloc;
        let pos = self.position_of(&name);
        let head = alloc.store_file(data);
        proof {
            lemma_entry_fits(files0, &a0, alloc, head);
        }
        match pos {
            Some(k) => {
                self.files.set(k, (name, head));
                proof {
                    lemma_lookup_here(self.files@, nm, k as int);
                    assert forall|n: Seq<char>| n != nm implies dir_lookup(self.files@, n)
                        == #[trigger] dir_lookup(files0, n) by {
                        lemma_lookup_update_other(files0, k as int, self.files@[k as int], n);
                    }
                    lemma_dir_wf_with_entry(files0, self.files@, k as int, &a0, alloc);
                }
            },
            None => {
                let ghost n0 = self.files@.len();
                self.files.push((name, head));
                proof {
                    lemma_lookup_here(self.files@, nm, n0 as int);
                    assert forall|n: Seq<char>| n != nm implies dir_lookup(self.files@, n)
                        == #[trigger] dir_lookup(files0, n) by {
                        lemma_lookup_push_other(files0, self.files@[n0 as int], n);
                    }
                    lemma_dir_wf_with_entry(files0, self.files@, n0 as int, &a0, alloc);
                }
            },
        }
        proof {
            assert forall|n: Seq<char>|
                n != nm && #[trigger] dir_lookup(files0, n) is Some implies chain_data(
                alloc.blocks@,
                dir_lookup(files0, n)->Some_0,
                alloc.fuel(),
            ) == chain_data(a0.blocks@, dir_lookup(files0, n)->Some_0, a0.fuel()) by {
                lemma_lookup_is_entry(files0, n);
                let w = choose|w: int|
                    0 <= w < files0.len() && (#[trigger] files0[w].0)@ == n && files0[w].1
                        == dir_lookup(files0, n)->Some_0;
                assert(chain_data(alloc.blocks@, files0[w].1, alloc.fuel()) == chain_data(
                    a0.blocks@,
                    files0[w].1,
                    a0.fuel(),
                ));
            }
        }
    }

    /// Reads the file stored under `name`; the name must be present.
    pub fn read_file(&self, name: &str, alloc: &LinkedAllocator) -> (r: Vec<u8>)
        requires
            dir_lookup(self.files@, name@) is Some,
        ensures
            r@ == chain_data(
                alloc.blocks@,
                dir_lookup(self.files@, name@)->Some_0,
                alloc.fuel(),
            ),
    {
        let owned = name.to_owned();
        match self.position_of(&owned) {
            Some(k) => {
                proof {
                    lemma_lookup_here(self.files@, owned@, k as int);
                }
                alloc.read_file(self.files[k].1)
            },
            None => {
                proof {
                    lemma_lookup_none(self.files@, owned@);
                }
                unreached()
            },
        }
    }

    /// Removes `name` and frees its chain; the name must be present.
    /// Every other name keeps its entry and its bytes, and every block
    /// outside the deleted chain is untouched.
    pub fn delete_file(&mut self, name: &str, alloc: &mut LinkedAllocator)
        requires
            old(alloc).wf(),
            dir_wf(old(self).files@, old(alloc)),
            dir_lookup(old(self).files@, name@) is Some,
        ensures
            final(alloc).wf(),
            dir_wf(final(self).files@, final(alloc)),
            final(alloc).blocks@.len() == old(alloc).blocks@.len(),
            final(self).files@ == old(self).files@.remove(first_match(old(self).files@, name@)),
            dir_lookup(final(self).files@, name@) is None,
            forall|k: int|
                0 <= k < entry_nodes(
                    old(alloc),
                    dir_lookup(old(self).files@, name@)->Some_0,
                ).len() ==> final(alloc).free_list@.contains(
                    #[trigger] entry_nodes(
                        old(alloc),
                        dir_lookup(old(self).files@, name@)->Some_0,
                    )[k],
                ),
            forall|j: usize|
                j < old(alloc).blocks@.len() && !entry_nodes(
                    old(alloc),
                    dir_lookup(old(self).files@, name@)->Some_0,
                ).contains(j) ==> final(alloc).blocks@[j as int] == old(alloc).blocks@[j as int],
            forall|n: Seq<char>|
                n != name@ ==> dir_lookup(final(self).files@, n) == #[trigger] dir_lookup(
                    old(self).files@,
                    n,
                ),
            forall|n: Seq<char>|
                n != name@ && #[trigger] dir_lookup(old(self).files@, n) is Some ==> chain_data(
                    final(alloc).blocks@,
                    dir_lookup(old(self).files@, n)->Some_0,
                    final(alloc).fuel(),
                ) == chain_data(
                    old(alloc).blocks@,
                    dir_lookup(old(self).files@, n)->Some_0,
                    old(alloc).fuel(),
                ),
    {
        let ghost files0 = self.files@;
        let ghost a0 = *alloc;
        let owned = name.to_owned();
        match self.position_of(&owned) {
            Some(k) => {
                proof {
                    lemma_lookup_here(self.files@, owned@, k as int);
                }
                let entry = self.files.remove(k);
                alloc.delete_file(entry.1);
                proof {
                    let nm = owned@;
                    let ghost gone = entry.1;
                    assert forall|n: Seq<char>| n != nm implies dir_lookup(self.files@, n)
                        == #[trigger] dir_lookup(files0, n) by {
                        lemma_lookup_remove_other(files0, k as int, n);
                    }
                    assert forall|i: int|
                        0 <= i < self.files@.len() implies #[trigger] self.files@[i] == if i < k {
                        files0[i]
                    } else {
                        files0[i + 1]
                    } by {}
                    assert(dir_lookup(self.files@, nm) is None) by {
                        assert forall|i: int|
                            0 <= i < self.files@.len() implies (#[trigger] self.files@[i].0)@
                            != nm by {
                            if i < k {
                                assert(files0[i].0@ != files0[k as int].0@);
                            } else {
                                assert(files0[i + 1].0@ != files0[k as int].0@);
                            }
                        }
                        lemma_lookup_none(self.files@, nm);
                    }
                    assert forall|i: int|
                        0 <= i < self.files@.len() implies chain_data(
                        alloc.blocks@,
                        (#[trigger] self.files@[i].1),
                        alloc.fuel(),
                    ) == chain_data(a0.blocks@, self.files@[i].1, a0.fuel()) && entry_nodes(
                        alloc,
                        self.files@[i].1,
                    ) == entry_nodes(&a0, self.files@[i].1) by {
                        let iold: int = if i < k {
                            i
                        } else {
                            i + 1
                        };
                        assert(self.files@[i] == files0[iold]);
                        lemma_chain_nodes_in_range(a0.blocks@, files0[iold].1, a0.fuel());
                        assert forall|j: int|
                            0 <= j < entry_nodes(&a0, files0[iold].1).len() implies alloc.blocks@[(
                        #[trigger] entry_nodes(&a0, files0[iold].1)[j]) as int] == a0.blocks@[
                        entry_nodes(&a0, files0[iold].1)[j] as int] by {
                            assert(!entry_nodes(&a0, files0[k as int].1).contains(
                                entry_nodes(&a0, files0[iold].1)[j],
                            ));
                        }
                        lemma_chain_agree(a0.blocks@, alloc.blocks@, files0[iold].1, a0.fuel());
                    }
                    assert forall|i: int, j: int|
                        0 <= i < self.files@.len() && 0 <= j < entry_nodes(
                            alloc,
                            self.files@[i].1,
                        ).len() implies !alloc.free_list@.contains(
                        #[trigger] entry_nodes(alloc, self.files@[i].1)[j],
                    ) by {
                        let iold: int = if i < k {
                            i
                        } else {
                            i + 1
                        };
                        assert(self.files@[i] == files0[iold]);
                        let e = entry_nodes(&a0, files0[iold].1)[j];
                        if alloc.free_list@.contains(e) {
                            let w = choose|w: int|
                                0 <= w < alloc.free_list@.len() && alloc.free_list@[w] == e;
                            assert(a0.free_list@.contains(alloc.free_list@[w]) || entry_nodes(
                                &a0,
                                gone,
                            ).contains(alloc.free_list@[w]));
                            assert(!entry_nodes(&a0, files0[k as int].1).contains(e));
                        }
                    }
                    assert forall|i1: int, i2: int, j: int|
                        0 <= i1 < self.files@.len() && 0 <= i2 < self.files@.len() && i1 != i2 && 0
                            <= j < entry_nodes(alloc, self.files@[i1].1).len() implies !entry_nodes(
                        alloc,
                        (#[trigger] self.files@[i2].1),
                    ).contains(#[trigger] entry_nodes(alloc, self.files@[i1].1)[j]) by {
                        let o1: int = if i1 < k {
                            i1
                        } else {
                            i1 + 1
                        };
                        let o2: int = if i2 < k {
                            i2
                        } else {
                            i2 + 1
                        };
                        assert(self.files@[i1] == files0[o1] && self.files@[i2] == files0[o2]);
                        assert(!entry_nodes(&a0, files0[o2].1).contains(
                            entry_nodes(&a0, files0[o1].1)[j],
                        ));
                    }
                    assert forall|i1: int, i2: int|
                        0 <= i1 < i2 < self.files@.len() implies (#[trigger] self.files@[i1].0)@
                        != (#[trigger] self.files@[i2].0)@ by {
                        let o1: int = if i1 < k {
                            i1
                        } else {
                            i1 + 1
                        };
                        let o2: int = if i2 < k {
                            i2
                        } else {
                            i2 + 1
                        };
                        assert(self.files@[i1] == files0[o1] && self.files@[i2] == files0[o2]);
                    }
                    assert forall|n: Seq<char>|
                        n != nm && #[trigger] dir_lookup(files0, n) is Some implies chain_data(
                        alloc.blocks@,
                        dir_lookup(files0, n)->Some_0,
                        alloc.fuel(),
                    ) == chain_data(a0.blocks@, dir_lookup(files0, n)->Some_0, a0.fuel()) by {
                        lemma_lookup_is_entry(files0, n);
                        let w = choose|w: int|
                            0 <= w < files0.len() && (#[trigger] files0[w].0)@ == n && files0[w].1
                                == dir_lookup(files0, n)->Some_0;
                        assert(w != k) by {
                            assert(files0[k as int].0@ == nm);
                        }
                        lemma_chain_nodes_in_range(a0.blocks@, files0[w].1, a0.fuel());
                        assert forall|j: int|
                            0 <= j < entry_nodes(&a0, files0[w].1).len() implies alloc.blocks@[(
                        #[trigger] entry_nodes(&a0, files0[w].1)[j]) as int] == a0.blocks@[
                        entry_nodes(&a0, files0[w].1)[j] as int] by {
                            assert(!entry_nodes(&a0, files0[k as int].1).contains(
                                entry_nodes(&a0, files0[w].1)[j],
                            ));
                        }
                        lemma_chain_agree(a0.blocks@, alloc.blocks@, files0[w].1, a0.fuel());
                    }
                }
            },
            None => {
                proof {
                    lemma_lookup_none(self.files@, owned@);
                }
                unreached()
            },
        }
    }
}

} // verus!

//! An indexed file allocator: each file owns an index block listing the
//! data blocks that hold its bytes, in order.

use vstd::prelude::*;

verus! {

/// Bytes one data block can hold.
pub const BLOCK_SIZE: usize = 2;

/// One data block of the arena.
#[derive(Clone, Debug)]
pub struct Block {
    /// The bytes actually written.
    pub data: Vec<u8>,
}

impl Block {
    /// An empty block.
    pub fn init() -> (b: Self)
        ensures
            b.data@ == Seq::<u8>::empty(),
    {
        let b = Block { data: Vec::new() };
        proof {
            assert(b.data@ =~= Seq::<u8>::empty());
        }
        b
    }
}

/// The index block of one file: the arena positions of its data blocks.
#[derive(Clone, Debug)]
pub struct IndexBlock {
    pub indexes: Vec<usize>,
}

/// The bytes a file with these block indexes holds.
pub open spec fn indexed_data(blocks: Seq<Block>, idxs: Seq<usize>) -> Seq<u8>
    decreases idxs.len(),
{
    if idxs.len() == 0 {
        Seq::<u8>::empty()
    } else {
        blocks[idxs[0] as int].data@ + indexed_data(blocks, idxs.drop_first())
    }
}

/// Appending one more block index appends that block's bytes.
proof fn lemma_indexed_push(blocks: Seq<Block>, idxs: Seq<usize>, j: usize)
    ensures
        indexed_data(blocks, idxs.push(j)) == indexed_data(blocks, idxs) + blocks[j as int].data@,
    decreases idxs.len(),
{
    reveal_with_fuel(indexed_data, 3);
    if idxs.len() == 0 {
        assert(idxs.push(j).drop_first() =~= idxs);
        assert(indexed_data(blocks, idxs.push(j)) =~= indexed_data(blocks, idxs) + blocks[j
            as int].data@);
    } else {
        assert(idxs.push(j).drop_first() =~= idxs.drop_first().push(j));
        lemma_indexed_push(blocks, idxs.drop_first(), j);
        assert(indexed_data(blocks, idxs.push(j)) =~= indexed_data(blocks, idxs) + blocks[j
            as int].data@);
    }
}

/// Updating a block none of the indexes name leaves the file unchanged.
proof fn lemma_indexed_frame(blocks: Seq<Block>, idxs: Seq<usize>, j: usize, b: Block)
    requires
        !idxs.contains(j),
        forall|k: int| 0 <= k < idxs.len() ==> #[trigger] idxs[k] < blocks.len(),
        j < blocks.len(),
    ensures
        indexed_data(blocks.update(j as int, b), idxs) == indexed_data(blocks, idxs),
    decreases idxs.len(),
{
    reveal_with_fuel(indexed_data, 2);
    if idxs.len() > 0 {
        assert(idxs[0] != j) by {
            assert(idxs.contains(idxs[0]));
        }
        assert(!idxs.drop_first().contains(j)) by {
            if idxs.drop_first().contains(j) {
                let w = choose|w: int|
                    0 <= w < idxs.drop_first().len() && idxs.drop_first()[w] == j;
                assert(idxs[w + 1] == j);
            }
        }
        assert(forall|k: int|
            0 <= k < idxs.drop_first().len() ==> #[trigger] idxs.drop_first()[k] == idxs[k + 1]);
        lemma_indexed_frame(blocks, idxs.drop_first(), j, b);
        assert(blocks.update(j as int, b)[idxs[0] as int] == blocks[idxs[0] as int]);
    }
}

/// An element stays in a sequence that another is pushed onto.
proof fn lemma_push_keeps(s: Seq<usize>, x: usize, y: usize)
    requires
        s.contains(y),
    ensures
        s.push(x).contains(y),
{
    let w = choose|w: int| 0 <= w < s.len() && s[w] == y;
    assert(s.push(x)[w] == y);
}

/// How many blocks a file of `len` bytes occupies.
pub open spec fn spec_blocks_needed(len: int) -> int {
    (len + BLOCK_SIZE - 1) / (BLOCK_SIZE as int)
}

/// A block count whose last block is begun and not overshot is exactly
/// the needed count.
proof fn lemma_blocks_needed_exact(len: int, c: int)
    requires
        c >= 1,
        BLOCK_SIZE * (c - 1) < len <= BLOCK_SIZE * c,
    ensures
        spec_blocks_needed(len) == c,
{
    let b = BLOCK_SIZE as int;
    vstd::arithmetic::div_mod::lemma_multiply_divide_lt(len + b - 1, c + 1, b);
    vstd::arithmetic::div_mod::lemma_div_is_ordered(b * c, len + b - 1, b);
    vstd::arithmetic::div_mod::lemma_div_by_multiple(c, b);
}

/// A file reads the same out of two arenas that agree on its blocks.
proof fn lemma_indexed_same_blocks(b1: Seq<Block>, b2: Seq<Block>, idxs: Seq<usize>)
    requires
        forall|k: int|
            0 <= k < idxs.len() ==> b2[(#[trigger] idxs[k]) as int] == b1[idxs[k] as int],
    ensures
        indexed_data(b2, idxs) == indexed_data(b1, idxs),
    decreases idxs.len(),
{
    if idxs.len() > 0 {
        assert(idxs.contains(idxs[0]));
        assert(forall|k: int|
            0 <= k < idxs.drop_first().len() ==> #[trigger] idxs.drop_first()[k] == idxs[k + 1]);
        lemma_indexed_same_blocks(b1, b2, idxs.drop_first());
    }
}

/// The arena of data blocks, with a list of the free positions.
pub struct IndexedAllocator {
    /// Every data block, used or free.
    pub blocks: Vec<Block>,
    /// Positions of the blocks that are free, each listed once.
    pub free_list: Vec<usize>,
}

impl IndexedAllocator {
    /// Free positions are in range and listed at most once.
    pub open spec fn wf(&self) -> bool {
        &&& forall|k: int|
            0 <= k < self.free_list@.len() ==> #[trigger] self.free_list@[k] < self.blocks@.len()
        &&& forall|k1: int, k2: int|
            0 <= k1 < k2 < self.free_list@.len() ==> self.free_list@[k1] != self.free_list@[k2]
    }

    /// An arena of `blocks` empty data blocks, all free.
    pub fn new(blocks: usize) -> (a: Self)
        ensures
            a.wf(),
            a.blocks@.len() == blocks,
            a.free_list@.len() == blocks,
    {
        let mut arena: Vec<Block> = Vec::new();
        let mut free_list: Vec<usize> = Vec::new();
        let mut i: usize = 0;
        while i < blocks
            invariant
                0 <= i <= blocks,
                arena@.len() == i,
                free_list@.len() == i,
                forall|k: int| 0 <= k < i ==> #[trigger] free_list@[k] == k,
            decreases blocks - i,
        {
            arena.push(Block::init());
            free_list.push(i);
            i = i + 1;
        }
        IndexedAllocator { blocks: arena, free_list }
    }

    /// Stores a file: takes one free block for every `BLOCK_SIZE` bytes
    /// begun and fills them in order.  The returned index block reads back
    /// exactly as `data`; every block it does not name is untouched, and
    /// its blocks are no longer free.
    pub fn store_file(&mut self, data: &[u8]) -> (r: IndexBlock)
        requires
            old(self).wf(),
            old(self).free_list@.len() >= 1,
            data@.len() <= old(self).free_list@.len() * BLOCK_SIZE,
        ensures
            final(self).wf(),
            final(self).blocks@.len() == old(self).blocks@.len(),
            indexed_data(final(self).blocks@, r.indexes@) == data@,
            forall|k: int|
                0 <= k < r.indexes@.len() ==> #[trigger] r.indexes@[k] < final(self).blocks@.len(),
            forall|j: usize|
                j < final(self).blocks@.len() && !r.indexes@.contains(j) ==> final(self).blocks@[j as int] == old(self).blocks@[j as int],
            forall|k: int|
                0 <= k < r.indexes@.len() ==> old(self).free_list@.contains(
                    #[trigger] r.indexes@[k],
                ),
            forall|k: int|
                0 <= k < final(self).free_list@.len() ==> old(self).free_list@.contains(
                    #[trigger] final(self).free_list@[k],
                ),
            forall|k: int|
                0 <= k < final(self).free_list@.len() ==> !r.indexes@.contains(
                    #[trigger] final(self).free_list@[k],
                ),
            final(self).free_list@.len() + spec_blocks_needed(data@.len() as int) == old(
                self,
            ).free_list@.len(),
    {
        let ghost blocks0 = self.blocks@;
        let ghost free0 = self.free_list@;
        let len = data.len();
        let mut offset: usize = 0;
        let mut indexes: Vec<usize> = Vec::new();
        while offset < len
            invariant
                0 <= offset <= len,
                len == data@.len(),
                self.wf(),
                self.blocks@.len() == blocks0.len(),
                self.free_list@.len() + indexes@.len() == free0.len(),
                indexes@.len() > 0 ==> BLOCK_SIZE * (indexes@.len() - 1) < offset,
                offset == BLOCK_SIZE * indexes@.len() || (offset == len && len <= BLOCK_SIZE
                    * indexes@.len()),
                len - offset <= self.free_list@.len() * BLOCK_SIZE,
                offset < len ==> self.free_list@.len() >= 1,
                indexed_data(self.blocks@, indexes@) == data@.take(offset as int),
                forall|k: int|
                    0 <= k < indexes@.len() ==> #[trigger] indexes@[k] < self.blocks@.len(),
                forall|j: usize|
                    j < self.blocks@.len() && !indexes@.contains(j) ==> self.blocks@[j as int]
                        == blocks0[j as int],
                forall|k: int| 0 <= k < indexes@.len() ==> free0.contains(#[trigger] indexes@[k]),
                forall|k: int|
                    0 <= k < self.free_list@.len() ==> free0.contains(
                        #[trigger] self.free_list@[k],
                    ),
                forall|k: int|
                    0 <= k < self.free_list@.len() ==> !indexes@.contains(
                        #[trigger] self.free_list@[k],
                    ),
            decreases len - offset,
        {
            let ghost pre_free = self.free_list@;
            let ghost pre_blocks = self.blocks@;
            let ghost pre_indexes = indexes@;
            let idx = match self.free_list.pop() {
                Some(i) => i,
                None => unreached(),
            };
            proof {
                assert(pre_free[pre_free.len() - 1] == idx);
                assert(!pre_indexes.contains(idx));
            }
            let end = if len - offset > BLOCK_SIZE {
                offset + BLOCK_SIZE
            } else {
                len
            };
            let mut chunk: Vec<u8> = Vec::new();
            let mut c = offset;
            while c < end
                invariant
                    offset <= c <= end <= len,
                    len == data@.len(),
                    chunk@ =~= data@.subrange(offset as int, c as int),
                decreases end - c,
            {
                let b = data[c];
                chunk.push(b);
                proof {
                    assert(chunk@ =~= data@.subrange(offset as int, c + 1));
                }
                c = c + 1;
            }
            self.blocks.set(idx, Block { data: chunk });
            indexes.push(idx);
            proof {
                lemma_indexed_frame(pre_blocks, pre_indexes, idx, Block { data: chunk });
                lemma_indexed_push(self.blocks@, pre_indexes, idx);
                assert(data@.take(offset as int) + data@.subrange(offset as int, end as int)
                    =~= data@.take(end as int));
                assert(indexes@[pre_indexes.len() as int] == idx);
                assert forall|j: usize|
                    j < self.blocks@.len() && !indexes@.contains(j) implies self.blocks@[j
                    as int] == blocks0[j as int] by {
                    if pre_indexes.contains(j) {
                        lemma_push_keeps(pre_indexes, idx, j);
                    }
                    assert(j != idx);
                    assert(self.blocks@[j as int] == pre_blocks[j as int]);
                }
                assert forall|k: int| 0 <= k < indexes@.len() implies free0.contains(
                    #[trigger] indexes@[k],
                ) by {
                    if k < pre_indexes.len() {
                        assert(indexes@[k] == pre_indexes[k]);
                    } else {
                        assert(indexes@[k] == idx);
                        assert(free0.contains(pre_free[pre_free.len() - 1]));
                    }
                }
            }
            offset = end;
        }
        proof {
            assert(data@.take(len as int) =~= data@);
            if len == 0 {
                assert(spec_blocks_needed(0) == 0) by {
                    vstd::arithmetic::div_mod::lemma_basic_div(
                        BLOCK_SIZE as int - 1,
                        BLOCK_SIZE as int,
                    );
                }
            } else {
                lemma_blocks_needed_exact(len as int, indexes@.len() as int);
            }
        }
        IndexBlock { indexes }
    }

    /// Frees a file's blocks: each one is emptied and listed free again
    /// (a position already free is not listed twice).
    pub fn delete_file(&mut self, start: &IndexBlock)
        requires
            old(self).wf(),
            forall|k: int|
                0 <= k < start.indexes@.len() ==> #[trigger] start.indexes@[k] < old(self).blocks@.len(),
        ensures
            final(self).wf(),
            final(self).blocks@.len() == old(self).blocks@.len(),
            forall|k: int|
                0 <= k < start.indexes@.len() ==> final(self).free_list@.contains(
                    #[trigger] start.indexes@[k],
                ),
            forall|k: int|
                0 <= k < old(self).free_list@.len() ==> final(self).free_list@.contains(
                    #[trigger] old(self).free_list@[k],
                ),
            forall|j: usize|
                j < old(self).blocks@.len() && !start.indexes@.contains(j) ==> final(self).blocks@[j as int] == old(self).blocks@[j as int],
            forall|k: int|
                0 <= k < final(self).free_list@.len() ==> old(self).free_list@.contains(
                    #[trigger] final(self).free_list@[k],
                ) || start.indexes@.contains(final(self).free_list@[k]),
    {
        let n = start.indexes.len();
        let mut k: usize = 0;
        while k < n
            invariant
                0 <= k <= n,
                n == start.indexes@.len(),
                self.wf(),
                self.blocks@.len() == old(self).blocks@.len(),
                forall|i: int|
                    0 <= i < start.indexes@.len() ==> #[trigger] start.indexes@[i]
                        < self.blocks@.len(),
                forall|i: int|
                    0 <= i < k ==> self.free_list@.contains(#[trigger] start.indexes@[i]),
                forall|i: int|
                    0 <= i < old(self).free_list@.len() ==> self.free_list@.contains(
                        #[trigger] old(self).free_list@[i],
                    ),
                forall|i: int|
                    0 <= i < self.free_list@.len() ==> old(self).free_list@.contains(
                        #[trigger] self.free_list@[i],
                    ) || start.indexes@.contains(self.free_list@[i]),
                forall|j: usize|
                    j < old(self).blocks@.len() && !start.indexes@.contains(j) ==> self.blocks@[j
                        as int] == old(self).blocks@[j as int],
            decreases n - k,
        {
            let idx = start.indexes[k];
            let ghost pre_free = self.free_list@;
            self.blocks.set(idx, Block { data: Vec::new() });
            if !self.contains_free(idx) {
                self.free_list.push(idx);
                proof {
                    assert forall|i: int|
                        0 <= i < old(self).free_list@.len() implies self.free_list@.contains(
                        #[trigger] old(self).free_list@[i],
                    ) by {
                        lemma_push_keeps(pre_free, idx, old(self).free_list@[i]);
                    }
                    assert forall|i: int| 0 <= i <= k implies self.free_list@.contains(
                        #[trigger] start.indexes@[i],
                    ) by {
                        if i < k {
                            lemma_push_keeps(pre_free, idx, start.indexes@[i]);
                        } else {
                            assert(self.free_list@[pre_free.len() as int] == idx);
                        }
                    }
                }
            }
            k = k + 1;
        }
    }

    /// Whether a position is already listed free.
    fn contains_free(&self, idx: usize) -> (r: bool)
        ensures
            r == self.free_list@.contains(idx),
    {
        let n = self.free_list.len();
        let mut k: usize = 0;
        while k < n
            invariant
                0 <= k <= n,
                n == self.free_list@.len(),
                forall|i: int| 0 <= i < k ==> #[trigger] self.free_list@[i] != idx,
            decreases n - k,
        {
            if self.free_list[k] == idx {
                return true;
            }
            k = k + 1;
        }
        false
    }

    /// Reads a file back by concatenating its blocks in index order.
    pub fn read_file(&self, start: &IndexBlock) -> (r: Vec<u8>)
        requires
            forall|k: int|
                0 <= k < start.indexes@.len() ==> #[trigger] start.indexes@[k]
                    < self.blocks@.len(),
        ensures
            r@ == indexed_data(self.blocks@, start.indexes@),
    {
        let mut out: Vec<u8> = Vec::new();
        let n = start.indexes.len();
        let mut k: usize = 0;
        while k < n
            invariant
                0 <= k <= n,
                n == start.indexes@.len(),
                forall|i: int|
                    0 <= i < start.indexes@.len() ==> #[trigger] start.indexes@[i]
                        < self.blocks@.len(),
                out@ == indexed_data(self.blocks@, start.indexes@.take(k as int)),
            decreases n - k,
        {
            let idx = start.indexes[k];
            let ghost pre = out@;
            let m = self.blocks[idx].data.len();
            let mut c: usize = 0;
            while c < m
                invariant
                    0 <= c <= m,
                    idx < self.blocks@.len(),
                    m == self.blocks@[idx as int].data@.len(),
                    out@ =~= pre + self.blocks@[idx as int].data@.take(c as int),
                decreases m - c,
            {
                let b = self.blocks[idx].data[c];
                out.push(b);
                proof {
                    assert(out@ =~= pre + self.blocks@[idx as int].data@.take(c + 1));
                }
                c = c + 1;
            }
            proof {
                assert(self.blocks@[idx as int].data@.take(m as int) =~= self.blocks@[idx
                    as int].data@);
                assert(start.indexes@.take(k as int).push(idx) =~= start.indexes@.take(k + 1));
                lemma_indexed_push(self.blocks@, start.indexes@.take(k as int), idx);
            }
            k = k + 1;
        }
        proof {
            assert(start.indexes@.take(n as int) =~= start.indexes@);
        }
        out
    }
}

/// A name-to-file directory over an indexed allocator.
pub struct Directory {
    /// Each stored name with its file's index block; the first entry under
    /// a name is the one that counts.
    pub files: Vec<(String, IndexBlock)>,
}

/// The index block filed under `name`, if any.
pub open spec fn dir_lookup(files: Seq<(String, IndexBlock)>, name: Seq<char>) -> Option<IndexBlock>
    decreases files.len(),
{
    if files.len() == 0 {
        None
    } else if files[0].0@ == name {
        Some(files[0].1)
    } else {
        dir_lookup(files.drop_first(), name)
    }
}

/// The position of the first entry filed under `name`.
pub open spec fn first_match(files: Seq<(String, IndexBlock)>, name: Seq<char>) -> int
    decreases files.len(),
{
    if files.len() == 0 {
        0
    } else if files[0].0@ == name {
        0
    } else {
        1 + first_match(files.drop_first(), name)
    }
}

/// A matching entry with none before it is the first match, and what the
/// lookup yields.
proof fn lemma_first_match_here(files: Seq<(String, IndexBlock)>, name: Seq<char>, k: int)
    requires
        0 <= k < files.len(),
        files[k].0@ == name,
        forall|i: int| 0 <= i < k ==> #[trigger] files[i].0@ != name,
    ensures
        first_match(files, name) == k,
        dir_lookup(files, name) == Some(files[k].1),
    decreases k,
{
    if k > 0 {
        assert(forall|i: int|
            0 <= i < files.drop_first().len() ==> #[trigger] files.drop_first()[i] == files[i
                + 1]);
        lemma_first_match_here(files.drop_first(), name, k - 1);
    }
}

/// With no matching entry at all there is no lookup result.
proof fn lemma_first_match_none(files: Seq<(String, IndexBlock)>, name: Seq<char>)
    requires
        forall|i: int| 0 <= i < files.len() ==> #[trigger] files[i].0@ != name,
    ensures
        dir_lookup(files, name) is None,
    decreases files.len(),
{
    if files.len() > 0 {
        assert(forall|i: int|
            0 <= i < files.drop_first().len() ==> #[trigger] files.drop_first()[i] == files[i
                + 1]);
        lemma_first_match_none(files.drop_first(), name);
    }
}

/// A directory that fits its allocator: names are unique, every stored
/// file's blocks are in range and allocated (not on the free list), and
/// no two stored files share a block.
pub open spec fn dir_wf(files: Seq<(String, IndexBlock)>, a: &IndexedAllocator) -> bool {
    &&& forall|i1: int, i2: int|
        0 <= i1 < i2 < files.len() ==> (#[trigger] files[i1].0)@ != (#[trigger] files[i2].0)@
    &&& forall|i: int, k: int|
        0 <= i < files.len() && 0 <= k < files[i].1.indexes@.len() ==> (
        #[trigger] files[i].1.indexes@[k]) < a.blocks@.len()
    &&& forall|i: int, k: int|
        0 <= i < files.len() && 0 <= k < files[i].1.indexes@.len() ==> !a.free_list@.contains(
            #[trigger] files[i].1.indexes@[k],
        )
    &&& forall|i1: int, i2: int, k: int|
        0 <= i1 < files.len() && 0 <= i2 < files.len() && i1 != i2 && 0 <= k < files[i1].1.indexes@.len()
            ==> !(#[trigger] files[i2].1).indexes@.contains(#[trigger] files[i1].1.indexes@[k])
}

/// A successful lookup names one of the entries.
proof fn lemma_lookup_is_entry(files: Seq<(String, IndexBlock)>, n: Seq<char>)
    requires
        dir_lookup(files, n) is Some,
    ensures
        exists|i: int|
            0 <= i < files.len() && (#[trigger] files[i].0)@ == n && files[i].1 == dir_lookup(
                files,
                n,
            )->Some_0,
    decreases files.len(),
{
    if files[0].0@ == n {
        assert(files[0].0@ == n && files[0].1 == dir_lookup(files, n)->Some_0);
    } else {
        lemma_lookup_is_entry(files.drop_first(), n);
        let w = choose|w: int|
            0 <= w < files.drop_first().len() && (#[trigger] files.drop_first()[w].0)@ == n
                && files.drop_first()[w].1 == dir_lookup(files.drop_first(), n)->Some_0;
        assert(files[w + 1].0@ == n && files[w + 1].1 == dir_lookup(files, n)->Some_0);
    }
}

/// Replacing the entry at `k` by one under the same name leaves every
/// other name's lookup unchanged.
proof fn lemma_lookup_update_other(
    files: Seq<(String, IndexBlock)>,
    k: int,
    e: (String, IndexBlock),
    n: Seq<char>,
)
    requires
        0 <= k < files.len(),
        e.0@ == files[k].0@,
        n != e.0@,
    ensures
        dir_lookup(files.update(k, e), n) == dir_lookup(files, n),
    decreases k,
{
    let fu = files.update(k, e);
    if k == 0 {
        assert(fu[0] == e);
        assert(fu.drop_first() =~= files.drop_first());
    } else {
        assert(fu[0] == files[0]);
        assert(fu.drop_first() =~= files.drop_first().update(k - 1, e));
        if files[0].0@ != n {
            lemma_lookup_update_other(files.drop_first(), k - 1, e, n);
        }
    }
}

/// Appending an entry leaves every other name's lookup unchanged.
proof fn lemma_lookup_push_other(
    files: Seq<(String, IndexBlock)>,
    e: (String, IndexBlock),
    n: Seq<char>,
)
    requires
        n != e.0@,
    ensures
        dir_lookup(files.push(e), n) == dir_lookup(files, n),
    decreases files.len(),
{
    reveal_with_fuel(dir_lookup, 2);
    if files.len() == 0 {
        assert(files.push(e)[0] == e);
        assert(files.push(e).drop_first() =~= Seq::<(String, IndexBlock)>::empty());
    } else {
        assert(files.push(e)[0] == files[0]);
        assert(files.push(e).drop_first() =~= files.drop_first().push(e));
        if files[0].0@ != n {
            lemma_lookup_push_other(files.drop_first(), e, n);
        }
    }
}

/// Removing an entry leaves every other name's lookup unchanged.
proof fn lemma_lookup_remove_other(files: Seq<(String, IndexBlock)>, k: int, n: Seq<char>)
    requires
        0 <= k < files.len(),
        files[k].0@ != n,
    ensures
        dir_lookup(files.remove(k), n) == dir_lookup(files, n),
    decreases k,
{
    let fr = files.remove(k);
    if k == 0 {
        assert(fr =~= files.drop_first());
    } else {
        assert(fr[0] == files[0]);
        assert(fr.drop_first() =~= files.drop_first().remove(k - 1));
        if files[0].0@ != n {
            lemma_lookup_remove_other(files.drop_first(), k - 1, n);
        }
    }
}

/// After a store, every already-filed file keeps its blocks and bytes,
/// stays allocated, and is disjoint from the freshly stored one.
proof fn lemma_entry_fits(
    files: Seq<(String, IndexBlock)>,
    a_pre: &IndexedAllocator,
    a_post: &IndexedAllocator,
    ib: IndexBlock,
)
    requires
        dir_wf(files, a_pre),
        a_post.blocks@.len() == a_pre.blocks@.len(),
        forall|k: int|
            0 <= k < ib.indexes@.len() ==> (#[trigger] ib.indexes@[k]) < a_post.blocks@.len(),
        forall|k: int|
            0 <= k < ib.indexes@.len() ==> a_pre.free_list@.contains(#[trigger] ib.indexes@[k]),
        forall|k: int|
            0 <= k < a_post.free_list@.len() ==> a_pre.free_list@.contains(
                #[trigger] a_post.free_list@[k],
            ),
        forall|k: int|
            0 <= k < a_post.free_list@.len() ==> !ib.indexes@.contains(
                #[trigger] a_post.free_list@[k],
            ),
        forall|j: usize|
            j < a_post.blocks@.len() && !ib.indexes@.contains(j) ==> a_post.blocks@[j as int]
                == a_pre.blocks@[j as int],
    ensures
        forall|i: int|
            0 <= i < files.len() ==> indexed_data(a_post.blocks@, (#[trigger] files[i].1).indexes@)
                == indexed_data(a_pre.blocks@, files[i].1.indexes@),
        forall|i: int, k: int|
            0 <= i < files.len() && 0 <= k < files[i].1.indexes@.len() ==> !a_post.free_list@.contains(
                #[trigger] files[i].1.indexes@[k],
            ),
        forall|i: int, k: int|
            0 <= i < files.len() && 0 <= k < files[i].1.indexes@.len() ==> !ib.indexes@.contains(
                #[trigger] files[i].1.indexes@[k],
            ),
        forall|i: int, k: int|
            0 <= i < files.len() && 0 <= k < ib.indexes@.len() ==> !(
            #[trigger] files[i].1).indexes@.contains(#[trigger] ib.indexes@[k]),
        forall|k: int|
            0 <= k < ib.indexes@.len() ==> !a_post.free_list@.contains(#[trigger] ib.indexes@[k]),
{
    assert forall|i: int, k: int|
        0 <= i < files.len() && 0 <= k < files[i].1.indexes@.len() implies !ib.indexes@.contains(
        #[trigger] files[i].1.indexes@[k],
    ) by {
        let e = files[i].1.indexes@[k];
        if ib.indexes@.contains(e) {
            let w = choose|w: int| 0 <= w < ib.indexes@.len() && ib.indexes@[w] == e;
            assert(a_pre.free_list@.contains(ib.indexes@[w]));
        }
    }
    assert forall|i: int, k: int|
        0 <= i < files.len() && 0 <= k < files[i].1.indexes@.len() implies !a_post.free_list@.contains(
        #[trigger] files[i].1.indexes@[k],
    ) by {
        let e = files[i].1.indexes@[k];
        if a_post.free_list@.contains(e) {
            let w = choose|w: int| 0 <= w < a_post.free_list@.len() && a_post.free_list@[w] == e;
            assert(a_pre.free_list@.contains(a_post.free_list@[w]));
        }
    }
    assert forall|i: int, k: int|
        0 <= i < files.len() && 0 <= k < ib.indexes@.len() implies !(
    #[trigger] files[i].1).indexes@.contains(#[trigger] ib.indexes@[k]) by {
        let e = ib.indexes@[k];
        if files[i].1.indexes@.contains(e) {
            let w = choose|w: int|
                0 <= w < files[i].1.indexes@.len() && files[i].1.indexes@[w] == e;
            assert(a_pre.free_list@.contains(ib.indexes@[k]));
            assert(!a_pre.free_list@.contains(files[i].1.indexes@[w]));
        }
    }
    assert forall|k: int|
        0 <= k < ib.indexes@.len() implies !a_post.free_list@.contains(
        #[trigger] ib.indexes@[k],
    ) by {
        let e = ib.indexes@[k];
        if a_post.free_list@.contains(e) {
            let w = choose|w: int| 0 <= w < a_post.free_list@.len() && a_post.free_list@[w] == e;
            assert(!ib.indexes@.contains(a_post.free_list@[w]));
        }
    }
    assert forall|i: int|
        0 <= i < files.len() implies indexed_data(
        a_post.blocks@,
        (#[trigger] files[i].1).indexes@,
    ) == indexed_data(a_pre.blocks@, files[i].1.indexes@) by {
        assert forall|k: int|
            0 <= k < files[i].1.indexes@.len() implies a_post.blocks@[(
        #[trigger] files[i].1.indexes@[k]) as int] == a_pre.blocks@[files[i].1.indexes@[k]
            as int] by {
            assert(!ib.indexes@.contains(files[i].1.indexes@[k]));
            assert(files[i].1.indexes@[k] < a_post.blocks@.len());
        }
        lemma_indexed_same_blocks(a_pre.blocks@, a_post.blocks@, files[i].1.indexes@);
    }
}

/// A directory stays well formed when one entry is filed with freshly
/// stored blocks and every other entry is carried over unchanged.
proof fn lemma_dir_wf_with_entry(
    files_old: Seq<(String, IndexBlock)>,
    files_new: Seq<(String, IndexBlock)>,
    pos: int,
    a_pre: &IndexedAllocator,
    a_post: &IndexedAllocator,
)
    requires
        dir_wf(files_old, a_pre),
        a_post.blocks@.len() == a_pre.blocks@.len(),
        0 <= pos < files_new.len(),
        forall|i: int|
            0 <= i < files_new.len() && i != pos ==> i < files_old.len() && #[trigger] files_new[i]
                == files_old[i],
        forall|i: int|
            0 <= i < files_new.len() && i != pos ==> (#[trigger] files_new[i]).0@
                != files_new[pos].0@,
        forall|k: int|
            0 <= k < files_new[pos].1.indexes@.len() ==> (
            #[trigger] files_new[pos].1.indexes@[k]) < a_post.blocks@.len(),
        forall|k: int|
            0 <= k < files_new[pos].1.indexes@.len() ==> !a_post.free_list@.contains(
                #[trigger] files_new[pos].1.indexes@[k],
            ),
        forall|i: int, k: int|
            0 <= i < files_old.len() && 0 <= k < files_old[i].1.indexes@.len()
                ==> !a_post.free_list@.contains(#[trigger] files_old[i].1.indexes@[k]),
        forall|i: int, k: int|
            0 <= i < files_old.len() && 0 <= k < files_old[i].1.indexes@.len()
                ==> !files_new[pos].1.indexes@.contains(#[trigger] files_old[i].1.indexes@[k]),
        forall|i: int, k: int|
            0 <= i < files_old.len() && 0 <= k < files_new[pos].1.indexes@.len() ==> !(
            #[trigger] files_old[i].1).indexes@.contains(#[trigger] files_new[pos].1.indexes@[k]),
    ensures
        dir_wf(files_new, a_post),
{
    assert forall|i1: int, i2: int|
        0 <= i1 < i2 < files_new.len() implies (#[trigger] files_new[i1].0)@ != (
    #[trigger] files_new[i2].0)@ by {
        if i1 != pos && i2 != pos {
            assert(files_new[i1] == files_old[i1] && files_new[i2] == files_old[i2]);
        }
    }
    assert forall|i: int, k: int|
        0 <= i < files_new.len() && 0 <= k < files_new[i].1.indexes@.len() implies (
    #[trigger] files_new[i].1.indexes@[k]) < a_post.blocks@.len() && !a_post.free_list@.contains(
        files_new[i].1.indexes@[k],
    ) by {
        if i != pos {
            assert(files_new[i] == files_old[i]);
            assert(files_old[i].1.indexes@[k] < a_pre.blocks@.len());
            assert(!a_post.free_list@.contains(files_old[i].1.indexes@[k]));
        }
    }
    assert forall|i1: int, i2: int, k: int|
        0 <= i1 < files_new.len() && 0 <= i2 < files_new.len() && i1 != i2 && 0 <= k
            < files_new[i1].1.indexes@.len() implies !(#[trigger] files_new[i2].1).indexes@.contains(
        #[trigger] files_new[i1].1.indexes@[k],
    ) by {
        if i1 == pos {
            assert(files_new[i2] == files_old[i2]);
        } else if i2 == pos {
            assert(files_new[i1] == files_old[i1]);
        } else {
            assert(files_new[i1] == files_old[i1] && files_new[i2] == files_old[i2]);
        }
    }
}

impl Directory {
    /// An empty directory.
    pub fn new() -> (d: Self)
        ensures
            d.files@.len() == 0,
    {
        Directory { files: Vec::new() }
    }

    /// The position of the first entry under `name`, if any.
    fn position_of(&self, name: &String) -> (r: Option<usize>)
        ensures
            r matches Some(k) ==> k < self.files@.len() && self.files@[k as int].0@ == name@
                && forall|i: int| 0 <= i < k ==> #[trigger] self.files@[i].0@ != name@,
            r is None ==> forall|i: int|
                0 <= i < self.files@.len() ==> #[trigger] self.files@[i].0@ != name@,
    {
        let n = self.files.len();
        let mut k: usize = 0;
        while k < n
            invariant
                0 <= k <= n,
                n == self.files@.len(),
                forall|i: int| 0 <= i < k ==> #[trigger] self.files@[i].0@ != name@,
            decreases n - k,
        {
            if self.files[k].0 == *name {
                return Some(k);
            }
            k = k + 1;
        }
        None
    }

    /// Stores `data` under `name`: the allocator takes free blocks for it
    /// and the directory remembers the file's index block, replacing any
    /// file already filed under that name.  Every other name keeps its
    /// entry and its bytes, and the free list shrinks by exactly the
    /// blocks the new file needs.
    pub fn open_file(&mut self, name: String, alloc: &mut IndexedAllocator, data: &[u8])
        requires
            old(alloc).wf(),
            dir_wf(old(self).files@, old(alloc)),
            old(alloc).free_list@.len() >= 1,
            data@.len() <= old(alloc).free_list@.len() * BLOCK_SIZE,
        ensures
            final(alloc).wf(),
            dir_wf(final(self).files@, final(alloc)),
            final(alloc).blocks@.len() == old(alloc).blocks@.len(),
            final(alloc).free_list@.len() + spec_blocks_needed(data@.len() as int) == old(
                alloc,
            ).free_list@.len(),
            dir_lookup(final(self).files@, name@) is Some,
            indexed_data(
                final(alloc).blocks@,
                dir_lookup(final(self).files@, name@)->Some_0.indexes@,
            ) == data@,
            forall|k: int|
                0 <= k < dir_lookup(final(self).files@, name@)->Some_0.indexes@.len()
                    ==> #[trigger] dir_lookup(final(self).files@, name@)->Some_0.indexes@[k]
                    < final(alloc).blocks@.len(),
            forall|n: Seq<char>|
                n != name@ ==> dir_lookup(final(self).files@, n) == #[trigger] dir_lookup(
                    old(self).files@,
                    n,
                ),
            forall|n: Seq<char>|
                n != name@ && #[trigger] dir_lookup(old(self).files@, n) is Some ==> indexed_data(
                    final(alloc).blocks@,
                    dir_lookup(old(self).files@, n)->Some_0.indexes@,
                ) == indexed_data(
                    old(alloc).blocks@,
                    dir_lookup(old(self).files@, n)->Some_0.indexes@,
                ),
    {
        let ghost nm = name@;
        let ghost files0 = self.files@;
        let ghost a0 = *alloc;
        let pos = self.position_of(&name);
        let ib = alloc.store_file(data);
        proof {
            lemma_entry_fits(files0, &a0, alloc, ib);
        }
        match pos {
            Some(k) => {
                self.files.set(k, (name, ib));
                proof {
                    lemma_first_match_here(self.files@, nm, k as int);
                    assert forall|n: Seq<char>| n != nm implies dir_lookup(self.files@, n)
                        == #[trigger] dir_lookup(files0, n) by {
                        lemma_lookup_update_other(files0, k as int, self.files@[k as int], n);
                    }
                    lemma_dir_wf_with_entry(files0, self.files@, k as int, &a0, alloc);
                }
            },
            None => {
                let ghost n0 = self.files@.len();
                self.files.push((name, ib));
                proof {
                    lemma_first_match_here(self.files@, nm, n0 as int);
                    assert forall|n: Seq<char>| n != nm implies dir_lookup(self.files@, n)
                        == #[trigger] dir_lookup(files0, n) by {
                        lemma_lookup_push_other(files0, self.files@[n0 as int], n);
                    }
                    lemma_dir_wf_with_entry(files0, self.files@, n0 as int, &a0, alloc);
                }
            },
        }
        proof {
            assert forall|n: Seq<char>|
                n != nm && #[trigger] dir_lookup(files0, n) is Some implies indexed_data(
                alloc.blocks@,
                dir_lookup(files0, n)->Some_0.indexes@,
            ) == indexed_data(a0.blocks@, dir_lookup(files0, n)->Some_0.indexes@) by {
                lemma_lookup_is_entry(files0, n);
                let w = choose|w: int|
                    0 <= w < files0.len() && (#[trigger] files0[w].0)@ == n && files0[w].1
                        == dir_lookup(files0, n)->Some_0;
                assert(indexed_data(alloc.blocks@, files0[w].1.indexes@) == indexed_data(
                    a0.blocks@,
                    files0[w].1.indexes@,
                ));
            }
        }
    }

    /// Reads the file stored under `name`; the name must be present.
    pub fn read_file(&self, name: &str, alloc: &IndexedAllocator) -> (r: Vec<u8>)
        requires
            dir_wf(self.files@, alloc),
            dir_lookup(self.files@, name@) is Some,
        ensures
            r@ == indexed_data(alloc.blocks@, dir_lookup(self.files@, name@)->Some_0.indexes@),
    {
        let owned = name.to_owned();
        match self.position_of(&owned) {
            Some(k) => {
                proof {
                    lemma_first_match_here(self.files@, owned@, k as int);
                    assert forall|j: int|
                        0 <= j < self.files@[k as int].1.indexes@.len() implies (
                    #[trigger] self.files@[k as int].1.indexes@[j]) < alloc.blocks@.len() by {}
                }
                alloc.read_file(&self.files[k].1)
            },
            None => {
                proof {
                    lemma_first_match_none(self.files@, owned@);
                }
                unreached()
            },
        }
    }

    /// Removes `name` and frees its blocks; the name must be present.
    /// Every other name keeps its entry and its bytes, and every block
    /// outside the deleted file is untouched.
    pub fn delete_file(&mut self, name: &str, alloc: &mut IndexedAllocator)
        requires
            old(alloc).wf(),
            dir_wf(old(self).files@, old(alloc)),
            dir_lookup(old(self).files@, name@) is Some,
        ensures
            final(alloc).wf(),
            dir_wf(final(self).files@, final(alloc)),
            final(alloc).blocks@.len() == old(alloc).blocks@.len(),
            final(self).files@ == old(self).files@.remove(first_match(old(self).files@, name@)),
            dir_lookup(final(self).files@, name@) is None,
            forall|k: int|
                0 <= k < dir_lookup(old(self).files@, name@)->Some_0.indexes@.len() ==> final(alloc).free_list@.contains(
                    #[trigger] dir_lookup(old(self).files@, name@)->Some_0.indexes@[k],
                ),
            forall|j: usize|
                j < old(alloc).blocks@.len() && !dir_lookup(
                    old(self).files@,
                    name@,
                )->Some_0.indexes@.contains(j) ==> final(alloc).blocks@[j as int] == old(
                    alloc,
                ).blocks@[j as int],
            forall|n: Seq<char>|
                n != name@ ==> dir_lookup(final(self).files@, n) == #[trigger] dir_lookup(
                    old(self).files@,
                    n,
                ),
            forall|n: Seq<char>|
                n != name@ && #[trigger] dir_lookup(old(self).files@, n) is Some ==> indexed_data(
                    final(alloc).blocks@,
                    dir_lookup(old(self).files@, n)->Some_0.indexes@,
                ) == indexed_data(
                    old(alloc).blocks@,
                    dir_lookup(old(self).files@, n)->Some_0.indexes@,
                ),
    {
        let ghost files0 = self.files@;
        let ghost a0 = *alloc;
        let owned = name.to_owned();
        match self.position_of(&owned) {
            Some(k) => {
                proof {
                    lemma_first_match_here(self.files@, owned@, k as int);
                }
                let entry = self.files.remove(k);
                alloc.delete_file(&entry.1);
                proof {
                    let nm = owned@;
                    let gone = entry.1;
                    assert forall|n: Seq<char>| n != nm implies dir_lookup(self.files@, n)
                        == #[trigger] dir_lookup(files0, n) by {
                        lemma_lookup_remove_other(files0, k as int, n);
                    }
                    assert forall|i: int|
                        0 <= i < self.files@.len() implies #[trigger] self.files@[i] == if i < k {
                        files0[i]
                    } else {
                        files0[i + 1]
                    } by {}
                    assert(dir_lookup(self.files@, nm) is None) by {
                        assert forall|i: int|
                            0 <= i < self.files@.len() implies (#[trigger] self.files@[i].0)@
                            != nm by {
                            if i < k {
                                assert(files0[i].0@ != files0[k as int].0@);
                            } else {
                                assert(files0[i + 1].0@ != files0[k as int].0@);
                            }
                        }
                        lemma_first_match_none(self.files@, nm);
                    }
                    assert forall|i: int, j: int|
                        0 <= i < self.files@.len() && 0 <= j < self.files@[i].1.indexes@.len()
                            implies !gone.indexes@.contains(
                        #[trigger] self.files@[i].1.indexes@[j],
                    ) && !final(alloc).free_list@.contains(self.files@[i].1.indexes@[j]) && (
                    self.files@[i].1.indexes@[j]) < alloc.blocks@.len() by {
                        let iold: int = if i < k {
                            i
                        } else {
                            i + 1
                        };
                        assert(self.files@[i] == files0[iold]);
                        assert(!files0[k as int].1.indexes@.contains(files0[iold].1.indexes@[j]));
                        if alloc.free_list@.contains(files0[iold].1.indexes@[j]) {
                            let w = choose|w: int|
                                0 <= w < alloc.free_list@.len() && alloc.free_list@[w]
                                    == files0[iold].1.indexes@[j];
                            assert(a0.free_list@.contains(alloc.free_list@[w])
                                || gone.indexes@.contains(alloc.free_list@[w]));
                        }
                    }
                    assert forall|i1: int, i2: int, j: int|
                        0 <= i1 < self.files@.len() && 0 <= i2 < self.files@.len() && i1 != i2 && 0
                            <= j < self.files@[i1].1.indexes@.len() implies !(
                    #[trigger] self.files@[i2].1).indexes@.contains(
                        #[trigger] self.files@[i1].1.indexes@[j],
                    ) by {
                        let o1: int = if i1 < k {
                            i1
                        } else {
                            i1 + 1
                        };
                        let o2: int = if i2 < k {
                            i2
                        } else {
                            i2 + 1
                        };
                        assert(self.files@[i1] == files0[o1] && self.files@[i2] == files0[o2]);
                        assert(!files0[o2].1.indexes@.contains(files0[o1].1.indexes@[j]));
                    }
                    assert forall|i1: int, i2: int|
                        0 <= i1 < i2 < self.files@.len() implies (#[trigger] self.files@[i1].0)@
                        != (#[trigger] self.files@[i2].0)@ by {
                        let o1: int = if i1 < k {
                            i1
                        } else {
                            i1 + 1
                        };
                        let o2: int = if i2 < k {
                            i2
                        } else {
                            i2 + 1
                        };
                        assert(self.files@[i1] == files0[o1] && self.files@[i2] == files0[o2]);
                    }
                    assert forall|n: Seq<char>|
                        n != nm && #[trigger] dir_lookup(files0, n) is Some implies indexed_data(
                        alloc.blocks@,
                        dir_lookup(files0, n)->Some_0.indexes@,
                    ) == indexed_data(a0.blocks@, dir_lookup(files0, n)->Some_0.indexes@) by {
                        lemma_lookup_is_entry(files0, n);
                        let w = choose|w: int|
                            0 <= w < files0.len() && (#[trigger] files0[w].0)@ == n && files0[w].1
                                == dir_lookup(files0, n)->Some_0;
                        assert(w != k) by {
                            assert(files0[k as int].0@ == nm);
                        }
                        assert forall|j: int|
                            0 <= j < files0[w].1.indexes@.len() implies alloc.blocks@[(
                        #[trigger] files0[w].1.indexes@[j]) as int] == a0.blocks@[files0[w].1.indexes@[j]
                            as int] by {
                            assert(!files0[k as int].1.indexes@.contains(files0[w].1.indexes@[j]));
                            assert(files0[w].1.indexes@[j] < a0.blocks@.len());
                        }
                        lemma_indexed_same_blocks(
                            a0.blocks@,
                            alloc.blocks@,
                            files0[w].1.indexes@,
                        );
                    }
                }
            },
            None => {
                proof {
                    lemma_first_match_none(self.files@, owned@);
                }
                unreached()
            },
        }
    }
}

} // verus!

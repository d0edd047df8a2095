//! The arena: blocks of memory in which space is handed out by moving a
//! cursor forward. The memory itself is not touched here: this is the
//! bookkeeping of where each allocation goes.
use vstd::prelude::*;

verus! {

/// The number of bytes of the header that ends each block.
pub const HEADER_SIZE: usize = 40;

/// The number of bytes in a block (+ the header).
pub const DEFAULT_BLOCK_SIZE: usize = 32 * 1024 + HEADER_SIZE;

pub const DEFAULT_BLOCK_ALIGN: usize = 8;

/// The number has one bit set.
pub open spec fn is_power_of_two(n: usize) -> bool {
    n > 0 && n & ((n - 1) as usize) == 0
}

/// The address is a multiple of `align`, a power of two.
pub open spec fn is_aligned(address: usize, align: usize) -> bool {
    address & ((align - 1) as usize) == 0
}

proof fn lemma_mask_off(x: usize, m: usize)
    by (bit_vector)
    ensures
        (x & !m) & m == 0,
        x & !m <= x,
        x - (x & !m) <= m,
{
}

/// The least multiple of `divisor`, a power of two, that is not below `n`.
pub open spec fn rounded_up(n: usize, divisor: usize) -> usize {
    ((n + (divisor - 1)) as usize) & !((divisor - 1) as usize)
}

/// The least multiple of `divisor`, a power of two, that is not below `n`.
#[inline]
pub fn round_up_to(n: usize, divisor: usize) -> (r: usize)
    requires
        is_power_of_two(divisor),
        n + divisor - 1 <= usize::MAX,
    ensures
        r == rounded_up(n, divisor),
        is_aligned(r, divisor),
        n <= r < n + divisor,
{
    proof {
        lemma_mask_off((n + divisor - 1) as usize, (divisor - 1) as usize);
    }
    (n + (divisor - 1)) & !(divisor - 1)
}

/// A block of memory, as the addresses that bound it. The header of the
/// block lies in its last bytes; the space before the header is handed out
/// from the start.
#[derive(Debug, Copy, Clone, PartialEq, Eq, Structural)]
pub struct Block {
    /// The address of the start of the block.
    pub data: usize,
    /// The size of the block, header included.
    pub size: usize,
    /// The alignment of the block.
    pub align: usize,
    /// Cursor to the current free spot when bump allocating.
    pub ptr: usize,
}

impl Block {
    /// The address where the space of the block ends and its header starts.
    pub open spec fn end(&self) -> int {
        self.data + self.size - HEADER_SIZE
    }

    /// The cursor lies in the space of the block.
    pub open spec fn wf(&self) -> bool {
        &&& self.size >= HEADER_SIZE
        &&& self.data + self.size <= usize::MAX
        &&& self.data <= self.ptr <= self.end()
    }

    /// The size and the alignment of a block of default size.
    pub fn default_block_layout() -> (r: (usize, usize))
        ensures
            r == (DEFAULT_BLOCK_SIZE, DEFAULT_BLOCK_ALIGN),
    {
        (DEFAULT_BLOCK_SIZE, DEFAULT_BLOCK_ALIGN)
    }

    /// The size and the alignment of the block that is to be allocated for a
    /// request that does not fit in the current block: a block of default
    /// size for a small request, a block of its own for one that a default
    /// block cannot hold. `None` for a request so large that its block
    /// cannot be addressed.
    pub fn layout_for(size: usize, align: usize) -> (r: Option<(usize, usize)>)
        ensures
            r == block_layout(size, align),
            r matches Some(layout) ==> layout.0 >= size + HEADER_SIZE && layout.0
                >= DEFAULT_BLOCK_SIZE,
    {
        let align: usize = if align > DEFAULT_BLOCK_ALIGN {
            align
        } else {
            DEFAULT_BLOCK_ALIGN
        };
        if size > usize::MAX - (DEFAULT_BLOCK_ALIGN - 1) - HEADER_SIZE {
            return None;
        }
        assert(8usize & ((8usize - 1) as usize) == 0) by (bit_vector);
        // Round the size up to a multiple of our header's alignment so
        // that we can be sure that our header is properly aligned.
        let rounded: usize = round_up_to(size, DEFAULT_BLOCK_ALIGN);
        let needed: usize = rounded + HEADER_SIZE;
        if needed < DEFAULT_BLOCK_SIZE {
            // If it is a small allocation, just use our default block size,
            // but make sure it is aligned for the requested allocation.
            Some((DEFAULT_BLOCK_SIZE, align))
        } else {
            // If the requested allocation is bigger than we can fit in one
            // of our default blocks, make a special block just for this
            // allocation.
            Some((needed, align))
        }
    }

    /// A block of which nothing is handed out yet, for memory of `size`
    /// bytes at the address `data`.
    pub fn new(data: usize, size: usize, align: usize) -> (b: Block)
        requires
            size >= HEADER_SIZE,
            data + size <= usize::MAX,
        ensures
            b == (Block { data, size, align, ptr: data }),
            b.wf(),
    {
        Block { data, size, align, ptr: data }
    }
}

/// The size and the alignment of the block that is allocated for a request
/// that does not fit in the current block: the size of the request,
/// rounded up to the alignment of the header, and the header, and at least
/// the default size. `None` for a request so large that its block cannot be
/// addressed.
pub open spec fn block_layout(size: usize, align: usize) -> Option<(usize, usize)> {
    let align = if align > DEFAULT_BLOCK_ALIGN {
        align
    } else {
        DEFAULT_BLOCK_ALIGN
    };
    if size + (DEFAULT_BLOCK_ALIGN - 1) + HEADER_SIZE > usize::MAX {
        None
    } else if rounded_up(size, DEFAULT_BLOCK_ALIGN) + HEADER_SIZE < DEFAULT_BLOCK_SIZE {
        Some((DEFAULT_BLOCK_SIZE, align))
    } else {
        Some(((rounded_up(size, DEFAULT_BLOCK_ALIGN) + HEADER_SIZE) as usize, align))
    }
}

/// What an allocation needs.
#[derive(Debug, Copy, Clone, PartialEq, Eq, Structural)]
pub enum Allocation {
    /// The space at this address is the caller's.
    At(usize),
    /// The current block has no room: a block of this size and alignment
    /// is to be allocated and handed to `alloc_layout_slow`.
    NewBlock { size: usize, align: usize },
    /// The allocation is too large.
    Overflow,
}

/// The arena of a process: the blocks it was given, the current one last.
#[derive(Debug)]
pub struct Heap {
    pub blocks: Vec<Block>,
}

impl Heap {
    /// Every block is sound, and there is a current one.
    pub open spec fn wf(&self) -> bool {
        &&& self.blocks.len() > 0
        &&& forall|i: int| 0 <= i < self.blocks.len() ==> (#[trigger] self.blocks[i]).wf()
    }

    /// The block in which space is handed out.
    pub open spec fn current(&self) -> Block {
        self.blocks[self.blocks.len() - 1]
    }

    /// An arena with one block.
    pub fn new(first: Block) -> (h: Heap)
        requires
            first.wf(),
        ensures
            h.wf(),
            h.blocks@ == seq![first],
    {
        let mut blocks: Vec<Block> = Vec::new();
        blocks.push(first);
        Heap { blocks }
    }

    /// Hands out `size` bytes at an address that is a multiple of `align`:
    /// the first such space after the cursor of the current block, and the
    /// cursor moves behind it. Where the current block has no room, nothing
    /// changes, and the answer is the block that is to be allocated.
    pub fn alloc_layout(&mut self, size: usize, align: usize) -> (r: Allocation)
        requires
            old(self).wf(),
            is_power_of_two(align),
        ensures
            final(self).wf(),
            final(self).blocks.len() == old(self).blocks.len(),
            forall|i: int|
                0 <= i < old(self).blocks.len() - 1 ==> #[trigger] final(self).blocks[i] == old(self).blocks[i],
            r matches Allocation::At(p) ==> {
                &&& is_aligned(p, align)
                &&& old(self).current().ptr <= p < old(self).current().ptr + align
                &&& p + size <= old(self).current().end()
                &&& final(self).current() == (Block { ptr: (p + size) as usize, ..old(self).current() })
            },
            !(r is At) ==> final(self).current() == old(self).current(),
            r matches Allocation::NewBlock { size: s, align: a } ==> block_layout(size, align)
                == Some((s, a)),
            r is Overflow ==> old(self).current().ptr + (align - 1) + size > usize::MAX
                || block_layout(size, align) is None,
            r is At <==> rounded_up(old(self).current().ptr, align) + size <= old(self).current().end() && old(self).current().ptr + (align - 1) + size <= usize::MAX,
    {
        let last: usize = self.blocks.len() - 1;
        let footer: Block = self.blocks[last];
        if footer.ptr > usize::MAX - (align - 1) {
            return Allocation::Overflow;
        }
        let ptr: usize = round_up_to(footer.ptr, align);
        let end: usize = footer.data + footer.size - HEADER_SIZE;
        let new_ptr: usize = match ptr.checked_add(size) {
            Some(p) => p,
            None => {
                return Allocation::Overflow;
            },
        };
        if footer.ptr + (align - 1) > usize::MAX - size {
            return Allocation::Overflow;
        }
        if new_ptr <= end {
            self.blocks.set(
                last,
                Block { data: footer.data, size: footer.size, align: footer.align, ptr: new_ptr },
            );
            return Allocation::At(ptr);
        }
        match Block::layout_for(size, align) {
            Some((s, a)) => Allocation::NewBlock { size: s, align: a },
            None => Allocation::Overflow,
        }
    }

    /// Takes a new block, which becomes the current one, and hands out the
    /// `size` bytes at its start.
    pub fn alloc_layout_slow(&mut self, block: Block, size: usize) -> (p: usize)
        requires
            old(self).wf(),
            block.wf(),
            block.ptr == block.data,
            block.data + size <= block.end(),
        ensures
            final(self).wf(),
            p == block.data,
            final(self).blocks@ == old(self).blocks@.push(
                Block { ptr: (block.data + size) as usize, ..block },
            ),
    {
        // Move the bump ptr finger ahead to allocate room for `val`.
        self.blocks.push(
            Block { data: block.data, size: block.size, align: block.align, ptr: block.data + size },
        );
        // Return a pointer to the start of this block.
        block.data
    }
}

} // verus!

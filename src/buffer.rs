//! Run buffers: in-memory accumulators with a policy that says when a run is
//! full.
use vstd::prelude::*;

verus! {

/// Makes the fresh, empty buffer that each new run starts from.
pub trait ChunkBufferBuilder<T>: Default {
    type Buffer: ChunkBuffer<T>;

    /// Whether a buffer made here is full once it holds `items`.
    spec fn full_with(&self, items: Seq<T>) -> bool;

    fn build(&self) -> (r: Self::Buffer)
        ensures
            r.wf(),
            r.items() == Seq::<T>::empty(),
            forall|s: Seq<T>| #[trigger] r.full_with(s) == self.full_with(s),
    ;
}

/// A bounded accumulator of the items of one run.
///
/// A buffer takes an item only while it is not full, except that an empty
/// buffer always takes one; so a run never holds more than the policy allows
/// plus the one item that made it full.
pub trait ChunkBuffer<T>: Sized {
    /// The items pushed so far, in order.
    spec fn items(&self) -> Seq<T>;

    /// The policy: whether this buffer is full once it holds `items`.
    spec fn full_with(&self, items: Seq<T>) -> bool;

    /// The buffer's internal invariant.
    spec fn wf(&self) -> bool;

    fn push(&mut self, item: T)
        requires
            old(self).wf(),
            old(self).items().len() == 0 || !old(self).full_with(old(self).items()),
        ensures
            final(self).wf(),
            final(self).items() == old(self).items().push(item),
            forall|s: Seq<T>| #[trigger] final(self).full_with(s) == old(self).full_with(s),
    ;

    fn len(&self) -> (r: usize)
        requires
            self.wf(),
        ensures
            r == self.items().len(),
    ;

    fn is_full(&self) -> (r: bool)
        requires
            self.wf(),
        ensures
            r == self.full_with(self.items()),
    ;

    /// Hands over all items, in the order they were pushed.
    fn into_vec(self) -> (r: Vec<T>)
        requires
            self.wf(),
        ensures
            r@ == self.items(),
    ;
}

/// Builds buffers that are full at a number of items.
pub struct LimitedBufferBuilder {
    pub buffer_limit: usize,
    pub preallocate: bool,
}

impl LimitedBufferBuilder {
    pub fn new(buffer_limit: usize, preallocate: bool) -> (r: Self)
        ensures
            r.buffer_limit == buffer_limit,
            r.preallocate == preallocate,
    {
        LimitedBufferBuilder { buffer_limit, preallocate }
    }
}

impl Default for LimitedBufferBuilder {
    fn default() -> (r: Self)
        ensures
            r.buffer_limit == usize::MAX,
            !r.preallocate,
    {
        LimitedBufferBuilder { buffer_limit: usize::MAX, preallocate: false }
    }
}

impl<T> ChunkBufferBuilder<T> for LimitedBufferBuilder {
    type Buffer = LimitedBuffer<T>;

    open spec fn full_with(&self, items: Seq<T>) -> bool {
        items.len() >= self.buffer_limit
    }

    /// Room for the limit is reserved where the builder asks for it.
    fn build(&self) -> (r: LimitedBuffer<T>) {
        if self.preallocate {
            LimitedBuffer::with_capacity(self.buffer_limit)
        } else {
            LimitedBuffer::new(self.buffer_limit)
        }
    }
}

/// A buffer that is full once it holds `limit` items.
pub struct LimitedBuffer<T> {
    pub limit: usize,
    pub inner: Vec<T>,
}

impl<T> LimitedBuffer<T> {
    /// An empty buffer that grows on demand.
    pub fn new(limit: usize) -> (r: Self)
        ensures
            r.limit == limit,
            r.wf(),
            r.items() == Seq::<T>::empty(),
    {
        LimitedBuffer { limit, inner: Vec::new() }
    }

    /// An empty buffer with room for `limit` items reserved.
    pub fn with_capacity(limit: usize) -> (r: Self)
        ensures
            r.limit == limit,
            r.wf(),
            r.items() == Seq::<T>::empty(),
    {
        LimitedBuffer { limit, inner: Vec::with_capacity(limit) }
    }
}

impl<T> ChunkBuffer<T> for LimitedBuffer<T> {
    open spec fn items(&self) -> Seq<T> {
        self.inner@
    }

    open spec fn full_with(&self, items: Seq<T>) -> bool {
        items.len() >= self.limit
    }

    /// The count bound: never more than one item past the limit.
    open spec fn wf(&self) -> bool {
        self.inner@.len() <= self.limit + 1
    }

    fn push(&mut self, item: T)
        ensures
            final(self).limit == old(self).limit,
    {
        self.inner.push(item);
    }

    fn len(&self) -> (r: usize) {
        self.inner.len()
    }

    fn is_full(&self) -> (r: bool) {
        self.inner.len() >= self.limit
    }

    fn into_vec(self) -> (r: Vec<T>) {
        self.inner
    }
}

/// The memory an item takes: its own bytes and the heap bytes it owns.
pub trait MemSize {
    /// The size `mem_size` reports.  An implementation written outside
    /// verified code cannot define it and keeps this default, so Verus takes
    /// its items to weigh nothing: what is proved of sizes holds only of
    /// implementations that define `size`.
    open spec fn size(&self) -> u64 {
        0
    }

    fn mem_size(&self) -> (r: u64)
        ensures
            r == self.size(),
    ;
}

impl MemSize for u64 {
    open spec fn size(&self) -> u64 {
        8
    }

    fn mem_size(&self) -> (r: u64) {
        8
    }
}

impl MemSize for i64 {
    open spec fn size(&self) -> u64 {
        8
    }

    fn mem_size(&self) -> (r: u64) {
        8
    }
}

impl MemSize for i32 {
    open spec fn size(&self) -> u64 {
        4
    }

    fn mem_size(&self) -> (r: u64) {
        4
    }
}

/// A byte string weighs its bytes.
impl MemSize for Vec<u8> {
    open spec fn size(&self) -> u64 {
        self@.len() as u64
    }

    fn mem_size(&self) -> (r: u64) {
        self.len() as u64
    }
}

/// The summed sizes of a sequence of items.
pub open spec fn total_size<T: MemSize>(s: Seq<T>) -> nat
    decreases s.len(),
{
    if s.len() == 0 {
        0
    } else {
        total_size(s.drop_last()) + s.last().size() as nat
    }
}

/// `n`, or `u64::MAX` where `n` does not fit.
pub open spec fn saturate(n: nat) -> u64 {
    if n <= u64::MAX {
        n as u64
    } else {
        u64::MAX
    }
}

/// Builds buffers that are full at a number of bytes.
pub struct MemoryLimitedBufferBuilder {
    pub buffer_limit: u64,
}

impl MemoryLimitedBufferBuilder {
    pub fn new(buffer_limit: u64) -> (r: Self)
        ensures
            r.buffer_limit == buffer_limit,
    {
        MemoryLimitedBufferBuilder { buffer_limit }
    }
}

impl Default for MemoryLimitedBufferBuilder {
    fn default() -> (r: Self)
        ensures
            r.buffer_limit == u64::MAX,
    {
        MemoryLimitedBufferBuilder { buffer_limit: u64::MAX }
    }
}

impl<T: MemSize> ChunkBufferBuilder<T> for MemoryLimitedBufferBuilder {
    type Buffer = MemoryLimitedBuffer<T>;

    open spec fn full_with(&self, items: Seq<T>) -> bool {
        saturate(total_size(items)) >= self.buffer_limit
    }

    fn build(&self) -> (r: MemoryLimitedBuffer<T>) {
        MemoryLimitedBuffer::new(self.buffer_limit)
    }
}

/// A buffer that is full once its items take `limit` bytes; the size
/// counter saturates at `u64::MAX`.
pub struct MemoryLimitedBuffer<T> {
    pub limit: u64,
    pub current_size: u64,
    pub inner: Vec<T>,
}

impl<T: MemSize> MemoryLimitedBuffer<T> {
    pub fn new(limit: u64) -> (r: Self)
        ensures
            r.limit == limit,
            r.wf(),
            r.items() == Seq::<T>::empty(),
    {
        MemoryLimitedBuffer { limit, current_size: 0, inner: Vec::new() }
    }

    /// The bytes taken by the items pushed so far.
    pub fn mem_size(&self) -> (r: u64)
        requires
            self.wf(),
        ensures
            r == saturate(total_size(self.items())),
    {
        self.current_size
    }
}

impl<T: MemSize> ChunkBuffer<T> for MemoryLimitedBuffer<T> {
    open spec fn items(&self) -> Seq<T> {
        self.inner@
    }

    open spec fn full_with(&self, items: Seq<T>) -> bool {
        saturate(total_size(items)) >= self.limit
    }

    open spec fn wf(&self) -> bool {
        self.current_size == saturate(total_size(self.inner@))
    }

    fn push(&mut self, item: T)
        ensures
            final(self).limit == old(self).limit,
    {
        let size = item.mem_size();
        self.current_size = self.current_size.saturating_add(size);
        self.inner.push(item);
        assert(self.inner@.drop_last() =~= old(self).inner@);
    }

    fn len(&self) -> (r: usize) {
        self.inner.len()
    }

    fn is_full(&self) -> (r: bool) {
        self.current_size >= self.limit
    }

    fn into_vec(self) -> (r: Vec<T>) {
        self.inner
    }
}

} // verus!

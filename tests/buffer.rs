use ext_sort::buffer::{
    ChunkBuffer, ChunkBufferBuilder, LimitedBufferBuilder, MemSize, MemoryLimitedBufferBuilder,
};

#[derive(Debug, Clone, PartialEq, Eq)]
struct MyType {
    number: i64,
    string: String,
}

impl deepsize::DeepSizeOf for MyType {
    fn deep_size_of_children(&self, context: &mut deepsize::Context) -> usize {
        self.number.deep_size_of_children(context) + self.string.deep_size_of_children(context)
    }
}

impl MemSize for MyType {
    fn mem_size(&self) -> u64 {
        deepsize::DeepSizeOf::deep_size_of(self) as u64
    }
}

#[test]
fn test_limited_buffer() {
    let builder = LimitedBufferBuilder::new(2, true);
    let mut buffer = ChunkBufferBuilder::<i32>::build(&builder);

    buffer.push(0);
    assert_eq!(buffer.is_full(), false);
    buffer.push(1);
    assert_eq!(buffer.is_full(), true);

    let data = buffer.into_vec();
    assert_eq!(data, vec![0, 1]);
}

#[test]
fn test_memory_limited_buffer() {
    let builder = MemoryLimitedBufferBuilder::new(76);
    let mut buffer = ChunkBufferBuilder::<MyType>::build(&builder);

    let item1 = MyType {
        number: 0,               // 8 bytes
        string: "hello!".into(), // 8 + 8 + 8 + 6 = 30 bytes
    };
    buffer.push(item1.clone());
    assert_eq!(buffer.mem_size(), 38);
    assert_eq!(buffer.is_full(), false);

    let item2 = MyType {
        number: 1,               // 8 bytes
        string: "world!".into(), // 8 + 8 + 8 + 6 = 30 bytes
    };
    buffer.push(item2.clone());
    assert_eq!(buffer.mem_size(), 76);
    assert_eq!(buffer.is_full(), true);

    let actual_data = buffer.into_vec();
    let expected_data = vec![item1, item2];
    assert_eq!(actual_data, expected_data);
}

#[test]
fn limited_buffer_len_counts_pushes() {
    let mut buffer = ChunkBufferBuilder::<u64>::build(&LimitedBufferBuilder::new(3, false));
    assert_eq!(buffer.len(), 0);
    assert!(!buffer.is_full());
    buffer.push(7);
    buffer.push(8);
    assert_eq!(buffer.len(), 2);
    assert!(!buffer.is_full());
    buffer.push(9);
    assert_eq!(buffer.len(), 3);
    assert!(buffer.is_full());
}

#[test]
fn limited_buffer_zero_limit_is_full_at_once() {
    let mut buffer = ChunkBufferBuilder::<u64>::build(&LimitedBufferBuilder::new(0, false));
    assert!(buffer.is_full());
    buffer.push(1);
    assert_eq!(buffer.into_vec(), vec![1]);
}

#[test]
fn default_builders_never_fill() {
    let mut buffer = ChunkBufferBuilder::<u64>::build(&LimitedBufferBuilder::default());
    buffer.push(5);
    assert!(!buffer.is_full());
    let mut mem = ChunkBufferBuilder::<u64>::build(&MemoryLimitedBufferBuilder::default());
    mem.push(5);
    assert_eq!(mem.mem_size(), 8);
    assert!(!mem.is_full());
}

#[test]
fn memory_buffer_sums_integer_sizes() {
    let mut buffer = ChunkBufferBuilder::<i32>::build(&MemoryLimitedBufferBuilder::new(10));
    buffer.push(1);
    buffer.push(2);
    assert_eq!(buffer.mem_size(), 8);
    assert!(!buffer.is_full());
    buffer.push(3);
    assert_eq!(buffer.mem_size(), 12);
    assert!(buffer.is_full());
    assert_eq!(buffer.len(), 3);
}

#[test]
fn memory_buffer_adds_each_items_size() {
    let mut buffer = ChunkBufferBuilder::<u64>::build(&MemoryLimitedBufferBuilder::new(20));
    buffer.push(1);
    assert_eq!(buffer.mem_size(), 8);
    assert!(!buffer.is_full());
    buffer.push(2);
    assert_eq!(buffer.mem_size(), 16);
    assert!(!buffer.is_full());
    buffer.push(3);
    assert_eq!(buffer.mem_size(), 24);
    assert!(buffer.is_full());
}

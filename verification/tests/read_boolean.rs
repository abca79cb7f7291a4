use arrow2::datatypes::{DataType, IntegerType};
use arrow2::error::{ArrowError, OutOfSpec};
use arrow2::io::ipc::read::array::binary::read_binary;
use arrow2::io::ipc::read::array::boolean::{read_boolean, skip_boolean};
use arrow2::io::ipc::read::array::primitive::read_primitive;
use arrow2::io::ipc::read::read_basic::{extent, read_bitmap, read_values};
use arrow2::io::ipc::{BufferDescriptor, Compression, Node};
use std::collections::VecDeque;

fn queue<T: Copy>(items: &[T]) -> VecDeque<T> {
    items.iter().copied().collect()
}

#[test]
fn read_boolean_reads_validity_and_values() {
    // validity 0b101 in the first eight bytes, values 0b011 in the next eight
    let body: Vec<u8> = vec![0b101, 0, 0, 0, 0, 0, 0, 0, 0b011, 0, 0, 0, 0, 0, 0, 0];
    let mut nodes = queue(&[Node { length: 3, null_count: 1 }, Node { length: 9, null_count: 0 }]);
    let mut buffers = queue(&[
        BufferDescriptor { offset: 0, length: 1 },
        BufferDescriptor { offset: 8, length: 1 },
        BufferDescriptor { offset: 16, length: 0 },
    ]);
    let array = read_boolean(&mut nodes, DataType::Boolean, &mut buffers, &body, true, None).unwrap();
    assert_eq!(array.len(), 3);
    assert_eq!(array.null_count(), 1);
    assert_eq!((array.is_valid(0), array.is_valid(1), array.is_valid(2)), (true, false, true));
    assert_eq!((array.value(0), array.value(1), array.value(2)), (true, true, false));
    assert_eq!(nodes.len(), 1);
    assert_eq!(buffers.len(), 1);
}

#[test]
fn read_boolean_without_nulls_does_not_look_at_the_validity_buffer() {
    let body: Vec<u8> = vec![0b10];
    let mut nodes = queue(&[Node { length: 2, null_count: 0 }]);
    // the validity buffer points far outside the body
    let mut buffers = queue(&[
        BufferDescriptor { offset: 1000, length: 50 },
        BufferDescriptor { offset: 0, length: 1 },
    ]);
    let array = read_boolean(&mut nodes, DataType::Boolean, &mut buffers, &body, true, None).unwrap();
    assert!(array.validity.is_none());
    assert_eq!(array.null_count(), 0);
    assert_eq!((array.value(0), array.value(1)), (false, true));
}

#[test]
fn read_boolean_of_no_rows() {
    let body: Vec<u8> = vec![];
    let mut nodes = queue(&[Node { length: 0, null_count: 0 }]);
    let mut buffers = queue(&[BufferDescriptor { offset: 0, length: 0 }, BufferDescriptor { offset: 0, length: 0 }]);
    let array = read_boolean(&mut nodes, DataType::Boolean, &mut buffers, &body, false, None).unwrap();
    assert_eq!(array.len(), 0);
}

#[test]
fn read_boolean_errors() {
    let body: Vec<u8> = vec![0xff; 8];
    let two = [BufferDescriptor { offset: 0, length: 1 }, BufferDescriptor { offset: 0, length: 1 }];
    let read = |nodes: &[Node], buffers: &[BufferDescriptor], compression: Option<Compression>| {
        read_boolean(&mut queue(nodes), DataType::Boolean, &mut queue(buffers), &body, true, compression)
            .unwrap_err()
    };
    assert_eq!(read(&[], &two, None), ArrowError::OutOfSpec(OutOfSpec::MissingFieldNode));
    assert_eq!(read(&[Node { length: -1, null_count: 0 }], &two, None), ArrowError::OutOfSpec(OutOfSpec::NegativeLength));
    assert_eq!(
        read(&[Node { length: 1, null_count: 0 }], &[], None),
        ArrowError::OutOfSpec(OutOfSpec::MissingValidityBuffer)
    );
    assert_eq!(
        read(&[Node { length: 1, null_count: 1 }], &[], None),
        ArrowError::OutOfSpec(OutOfSpec::MissingValidityBuffer)
    );
    assert_eq!(
        read(&[Node { length: 1, null_count: 0 }], &two[..1], None),
        ArrowError::OutOfSpec(OutOfSpec::MissingValuesBuffer)
    );
    assert_eq!(read(&[Node { length: 9, null_count: 0 }], &two, None), ArrowError::OutOfSpec(OutOfSpec::BufferTooShort));
    assert_eq!(read(&[Node { length: 9, null_count: 1 }], &two, None), ArrowError::OutOfSpec(OutOfSpec::BufferTooShort));
    let negative = [BufferDescriptor { offset: -1, length: 1 }, two[1]];
    assert_eq!(read(&[Node { length: 1, null_count: 1 }], &negative, None), ArrowError::OutOfSpec(OutOfSpec::NegativeBuffer));
    let beyond = [two[0], BufferDescriptor { offset: 8, length: 1 }];
    assert_eq!(read(&[Node { length: 1, null_count: 0 }], &beyond, None), ArrowError::OutOfSpec(OutOfSpec::BufferOutOfBounds));
    assert_eq!(
        read(&[Node { length: 1, null_count: 0 }], &two, Some(Compression::LZ4)),
        ArrowError::OutOfSpec(OutOfSpec::MissingLengthPrefix)
    );
}

#[test]
fn skip_boolean_takes_one_node_and_two_buffers() {
    let mut nodes = queue(&[Node { length: 3, null_count: 1 }, Node { length: 7, null_count: 0 }]);
    let mut buffers = queue(&[
        BufferDescriptor { offset: 0, length: 1 },
        BufferDescriptor { offset: 8, length: 1 },
        BufferDescriptor { offset: 16, length: 4 },
    ]);
    assert_eq!(skip_boolean(&mut nodes, &mut buffers), Ok(()));
    assert_eq!(nodes, queue(&[Node { length: 7, null_count: 0 }]));
    assert_eq!(buffers, queue(&[BufferDescriptor { offset: 16, length: 4 }]));
}

#[test]
fn skip_boolean_errors() {
    let node = Node { length: 3, null_count: 1 };
    let buffer = BufferDescriptor { offset: 0, length: 1 };
    assert_eq!(
        skip_boolean(&mut queue(&[]), &mut queue(&[buffer, buffer])),
        Err(ArrowError::OutOfSpec(OutOfSpec::MissingFieldNode))
    );
    assert_eq!(
        skip_boolean(&mut queue(&[node]), &mut queue(&[])),
        Err(ArrowError::OutOfSpec(OutOfSpec::MissingValidityBuffer))
    );
    assert_eq!(
        skip_boolean(&mut queue(&[node]), &mut queue(&[buffer])),
        Err(ArrowError::OutOfSpec(OutOfSpec::MissingValuesBuffer))
    );
}

#[test]
fn a_failed_skip_takes_what_stands_before_the_missing_item() {
    let node = Node { length: 3, null_count: 1 };
    let buffer = BufferDescriptor { offset: 0, length: 1 };
    // no field node: the buffers are not touched
    let (mut nodes, mut buffers) = (queue(&[]), queue(&[buffer, buffer, buffer]));
    assert!(skip_boolean(&mut nodes, &mut buffers).is_err());
    assert_eq!((nodes.len(), buffers.len()), (0, 3));
    // one buffer: the node and that buffer are taken
    let (mut nodes, mut buffers) = (queue(&[node, node]), queue(&[buffer]));
    assert!(skip_boolean(&mut nodes, &mut buffers).is_err());
    assert_eq!((nodes.len(), buffers.len()), (1, 0));
    // two skips on queues of the same lengths take the same
    let (mut nodes, mut buffers) = (queue(&[node, node]), queue(&[buffer, buffer, buffer]));
    let other = Node { length: -5, null_count: 0 };
    let (mut others, mut descriptors) =
        (queue(&[other, other]), queue(&[BufferDescriptor { offset: -1, length: -1 }; 3]));
    assert_eq!(skip_boolean(&mut nodes, &mut buffers), skip_boolean(&mut others, &mut descriptors));
    assert_eq!((nodes.len(), buffers.len()), (others.len(), descriptors.len()));
    assert_eq!(skip_boolean(&mut nodes, &mut buffers), skip_boolean(&mut others, &mut descriptors));
    assert_eq!((nodes.len(), buffers.len()), (others.len(), descriptors.len()));
}

#[test]
fn a_failed_read_takes_what_it_reached_for() {
    let body: Vec<u8> = vec![0xff; 8];
    let good = BufferDescriptor { offset: 0, length: 1 };
    let bad = BufferDescriptor { offset: -1, length: 1 };
    let left = |nodes: &[Node], buffers: &[BufferDescriptor], is_little_endian: bool| {
        let (mut nodes, mut buffers) = (queue(nodes), queue(buffers));
        let out = read_boolean(&mut nodes, DataType::Boolean, &mut buffers, &body, is_little_endian, None);
        assert!(out.is_err());
        (nodes.len(), buffers.len())
    };
    let node = Node { length: 1, null_count: 1 };
    for is_little_endian in [true, false] {
        // no field node: the buffers are not touched
        assert_eq!(left(&[], &[good, good, good], is_little_endian), (0, 3));
        // a length that is refused: the node is taken, no buffer is
        assert_eq!(left(&[Node { length: -1, null_count: 0 }, node], &[good, good, good], is_little_endian), (1, 3));
        // the validity cannot be read: its descriptor is taken
        assert_eq!(left(&[node, node], &[bad, good, good], is_little_endian), (1, 2));
        assert_eq!(left(&[node, node], &[], is_little_endian), (1, 0));
        // the values cannot be read: both descriptors are taken
        assert_eq!(left(&[node, node], &[good, bad, good], is_little_endian), (1, 1));
        assert_eq!(left(&[node, node], &[good], is_little_endian), (1, 0));
    }
}

#[test]
fn an_array_without_nulls_has_no_validity() {
    let body: Vec<u8> = vec![0b0000_0101; 8];
    let buffers = [BufferDescriptor { offset: 0, length: 1 }, BufferDescriptor { offset: 0, length: 1 }];
    let read = |node: Node| {
        read_boolean(&mut queue(&[node]), DataType::Boolean, &mut queue(&buffers), &body, true, None).unwrap()
    };
    let array = read(Node { length: 3, null_count: 0 });
    assert!(array.validity.is_none());
    assert_eq!(array.data_type, DataType::Boolean);
    assert_eq!((array.value(0), array.value(1), array.value(2)), (true, false, true));
    assert!(read(Node { length: 0, null_count: 0 }).validity.is_none());
    assert!(read(Node { length: 3, null_count: -1 }).validity.is_none());
    let array = read(Node { length: 3, null_count: 1 });
    assert_eq!(array.validity.map(|validity| validity.length), Some(3));
}

#[test]
fn a_reader_of_one_buffer_does_not_say_which_is_missing() {
    let body: Vec<u8> = vec![0xff; 8];
    let mut none: VecDeque<BufferDescriptor> = VecDeque::new();
    assert_eq!(read_bitmap(&mut none, 1, &body, true, None).err(), Some(ArrowError::OutOfSpec(OutOfSpec::MissingBuffer)));
    assert_eq!(
        read_values(&mut none, 1, 4, &body, true, None).err(),
        Some(ArrowError::OutOfSpec(OutOfSpec::MissingBuffer))
    );
    // the descriptor is taken, whether or not its buffer can be read
    let mut buffers = queue(&[BufferDescriptor { offset: 0, length: 9 }, BufferDescriptor { offset: 0, length: 8 }]);
    assert_eq!(
        read_values(&mut buffers, 1, 4, &body, true, None).err(),
        Some(ArrowError::OutOfSpec(OutOfSpec::BufferOutOfBounds))
    );
    assert_eq!(buffers.len(), 1);
    assert_eq!(read_values(&mut buffers, 1, 4, &body, false, None), Ok(vec![0xff; 4]));
    assert_eq!(buffers.len(), 0);
}

#[test]
fn readers_say_which_buffer_is_missing() {
    let body: Vec<u8> = vec![0; 16];
    let node = Node { length: 1, null_count: 0 };
    let buffer = BufferDescriptor { offset: 0, length: 8 };
    let primitive = |buffers: &[BufferDescriptor]| {
        read_primitive(&mut queue(&[node]), IntegerType::Int32, &mut queue(buffers), &body, true, None).err()
    };
    assert_eq!(primitive(&[]), Some(ArrowError::OutOfSpec(OutOfSpec::MissingValidityBuffer)));
    assert_eq!(primitive(&[buffer]), Some(ArrowError::OutOfSpec(OutOfSpec::MissingValuesBuffer)));
    assert_eq!(primitive(&[buffer, buffer]), None);
    let binary = |buffers: &[BufferDescriptor]| {
        read_binary(&mut queue(&[node]), true, &mut queue(buffers), &body, true, None).err()
    };
    assert_eq!(binary(&[]), Some(ArrowError::OutOfSpec(OutOfSpec::MissingValidityBuffer)));
    assert_eq!(binary(&[buffer]), Some(ArrowError::OutOfSpec(OutOfSpec::MissingOffsetsBuffer)));
    assert_eq!(binary(&[buffer, buffer]), Some(ArrowError::OutOfSpec(OutOfSpec::MissingValuesBuffer)));
    assert_eq!(binary(&[buffer, buffer, buffer]), None);
}

#[test]
fn the_extent_of_descriptors_is_how_far_they_reach() {
    let buffers = queue(&[
        BufferDescriptor { offset: 8, length: 3 },
        BufferDescriptor { offset: 0, length: 1 },
        BufferDescriptor { offset: -1, length: 100 },
        BufferDescriptor { offset: 100, length: -1 },
        BufferDescriptor { offset: 16, length: 0 },
        BufferDescriptor { offset: i64::MAX, length: i64::MAX },
    ]);
    assert_eq!(extent(&buffers, 0), 0);
    assert_eq!(extent(&buffers, 1), 11);
    assert_eq!(extent(&buffers, 2), 11);
    assert_eq!(extent(&buffers, 4), 11);
    assert_eq!(extent(&buffers, 5), 16);
    assert_eq!(extent(&buffers, 6), 2 * (i64::MAX as u64));
    assert_eq!(extent(&buffers, 60), 2 * (i64::MAX as u64));
    assert_eq!(extent(&queue(&[]), 2), 0);
}

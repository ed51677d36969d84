use lib::w4alloc::{initial_heap, Chunk};

#[test]
fn chunk_status_and_size() {
    let mut chunk = Chunk {
        next_with_status: 0x4104,
        prev: 0x5ffc,
    };
    assert!(!chunk.is_used());
    assert_eq!(chunk.size(0x4000), 0x100);
    chunk.set_used(true);
    assert_eq!(chunk.next_with_status, 0x4105);
    assert!(chunk.is_used());
    assert_eq!(chunk.size(0x4000), 0x100);
    chunk.set_used(false);
    assert_eq!(chunk.next_with_status, 0x4104);
    assert_eq!(chunk.prev, 0x5ffc);
    assert_eq!(Chunk::body(0x4000), 0x4004);
}

#[test]
fn chunk_alignment() {
    let chunk = Chunk {
        next_with_status: 0x5ffc,
        prev: 0x4000,
    };
    assert_eq!(chunk.calc_alignment_offset(0x4104, 4), 4);
    assert_eq!(chunk.calc_alignment_offset(0x4104, 16), 0xc);
    assert!(chunk.can_hold_layout(0x4104, 0x200, 16));
    assert!(!chunk.can_hold_layout(0x4104, 0x2000, 4));
    let used = Chunk {
        next_with_status: 0x5ffd,
        prev: 0x4000,
    };
    assert!(!used.can_hold_layout(0x4104, 4, 4));
}

#[test]
fn a_fresh_heap_is_one_free_chunk_and_a_terminator() {
    let (start, first, end, terminator) = initial_heap(0x19a1, 0xffff);
    assert_eq!(start, 0x19a4);
    assert_eq!(end, 0xfff8);
    assert_eq!(first, Chunk { next_with_status: 0xfff8, prev: 0xfff8 });
    assert_eq!(terminator, Chunk { next_with_status: 0x19a5, prev: 0x19a4 });
    assert!(!first.is_used());
    assert!(terminator.is_used());
}

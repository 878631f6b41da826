use massively::bindings::{Bindings, READ_SLOTS, TRANSFER_PARAMETERS_OFFSET, TRANSFER_READ_OFFSET, WRITE_SLOTS};

#[test]
fn padding_fills_unused_slots_with_the_dummy_buffer() {
    let mut reads = Bindings::new();
    reads.push(7, 100, 3);
    reads.push(8, 50, 0);
    reads.pad_to(99, READ_SLOTS);
    assert_eq!(reads.slots.len(), READ_SLOTS);
    assert_eq!(reads.slots[0], (7, 100));
    assert_eq!(reads.slots[1], (8, 50));
    assert!(reads.slots[2..].iter().all(|slot| *slot == (99, 1)));
    assert_eq!(reads.offsets[..2], [3, 0]);
    assert!(reads.offsets[2..].iter().all(|offset| *offset == 0));
}

#[test]
fn transfer_metadata_places_writes_then_reads_then_parameters() {
    let mut reads = Bindings::new();
    reads.push(1, 10, 4);
    reads.pad_to(0, READ_SLOTS);
    let mut writes = Bindings::new();
    writes.push(2, 10, 6);
    writes.pad_to(0, WRITE_SLOTS);
    let metadata = Bindings::transfer_metadata(&reads, &writes, &vec![42, 43]);
    assert_eq!(metadata.len(), TRANSFER_PARAMETERS_OFFSET + 2);
    assert_eq!(metadata[0], 6);
    assert_eq!(metadata[TRANSFER_READ_OFFSET], 4);
    assert_eq!(metadata[TRANSFER_PARAMETERS_OFFSET..], [42, 43]);
}

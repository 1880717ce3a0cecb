use kernel::gicv2::{read_u32_be, InterruptId, InterruptSpecifier, PpiNumber, SpiNumber};

#[test]
fn interrupt_id_bounds() {
    assert_eq!(InterruptId::try_from(0).unwrap().value(), 0);
    assert_eq!(InterruptId::try_from(1023).unwrap().value(), 1023);
    assert!(InterruptId::try_from(1024).is_err());

    assert_eq!(InterruptId::spurious().value(), 1023);
}

#[test]
fn ppi_and_spi_numbering() {
    // PPIs occupy IDs 16..=31
    let ppi = PpiNumber::try_from(3).unwrap();
    assert_eq!(InterruptId::from(ppi).value(), 0x13);
    assert!(PpiNumber::try_from(16).is_err());

    // SPIs occupy IDs from 32
    let spi = SpiNumber::try_from(5).unwrap();
    assert_eq!(InterruptId::from(spi).value(), 0x25);
    assert!(SpiNumber::try_from(988).is_err());
}

#[test]
fn big_endian_cells() {
    let bytes = [0x12, 0x34, 0x56, 0x78, 0x00, 0x00, 0x00, 0x01];
    assert_eq!(read_u32_be(&bytes, 0), 0x1234_5678);
    assert_eq!(read_u32_be(&bytes, 4), 1);
}

#[test]
fn specifier_walk() {
    // two specifiers: SPI 33 level-triggered, PPI 14 edge-triggered
    let interrupts = [
        0, 0, 0, 0, 0, 0, 0, 33, 0, 0, 0, 4, // SPI 33
        0, 0, 0, 1, 0, 0, 0, 14, 0, 0, 0, 1, // PPI 14
    ];

    let mut iter = InterruptSpecifier::interrupts_iter(&interrupts);

    let first = iter.next().unwrap();
    assert_eq!(first.interrupt_id().unwrap().value(), 33 + 0x20);

    let second = iter.next().unwrap();
    assert_eq!(second.interrupt_id().unwrap().value(), 14 + 0x10);

    assert!(iter.next().is_none());
}

#[test]
fn specifier_rejects_out_of_range_numbers() {
    // an SPI number past 987 has no interrupt ID
    let interrupts = [0, 0, 0, 0, 0, 0, 0x3, 0xdc, 0, 0, 0, 4];
    let mut iter = InterruptSpecifier::interrupts_iter(&interrupts);
    assert!(iter.next().unwrap().interrupt_id().is_err());

    // trailing bytes shorter than a specifier are ignored
    let truncated = [0, 0, 0, 0, 0, 0, 0, 1];
    let mut iter = InterruptSpecifier::interrupts_iter(&truncated);
    assert!(iter.next().is_none());
}

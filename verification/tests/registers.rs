use kernel::a53::daif::DAIF;
use kernel::a53::gicv2::{GICC_CTLR, GICC_EOIR, GICC_IAR, GICC_PMR, GICD_CTLR, GICD_ISENABLER};
use kernel::a53::nzcv::NZCV;
use kernel::a53::pl011::UARTDR;
use kernel::a53::spsr::SPSR_EL1;
use kernel::num::AsUsize;
use kernel::reg::{RegisterReader, RegisterWriter};

#[test]
fn daif_reader_bits() {
    let reader = RegisterReader::<DAIF>::new(0x2c0);
    assert!(reader.d());
    assert!(!reader.a());
    assert!(reader.i());
    assert!(reader.f());

    let reader = RegisterReader::<DAIF>::new(0x100);
    assert!(!reader.d());
    assert!(reader.a());
    assert!(!reader.i());
    assert!(!reader.f());
}

#[test]
fn daif_writer_bits() {
    let mut writer = RegisterWriter::<DAIF>::zero();
    writer.d(true);
    writer.f(true);
    assert_eq!(writer.value(), 0x240);

    writer.d(false);
    assert_eq!(writer.value(), 0x040);

    // the architectural reset value masks D, A, I and F
    let writer = RegisterWriter::<DAIF>::initial();
    assert_eq!(writer.value(), 0x3c0);
}

#[test]
fn nzcv_flags() {
    let reader = RegisterReader::<NZCV>::new(0xa000_0000);
    assert!(reader.n());
    assert!(!reader.z());
    assert!(reader.c());
    assert!(!reader.v());

    let mut writer = RegisterWriter::<NZCV>::zero();
    writer.z(true);
    writer.v(true);
    assert_eq!(writer.value(), 0x5000_0000);
}

#[test]
fn spsr_flags() {
    let reader = RegisterReader::<SPSR_EL1>::new(0x6000_0000);
    assert!(!reader.n());
    assert!(reader.z());
    assert!(reader.c());
    assert!(!reader.v());

    let mut writer = RegisterWriter::<SPSR_EL1>::zero();
    writer.n(true);
    assert_eq!(writer.value(), 0x8000_0000);
}

#[test]
fn gic_control_registers() {
    let reader = RegisterReader::<GICD_CTLR>::new(1);
    assert!(reader.enable());
    let reader = RegisterReader::<GICD_CTLR>::new(0xfffe);
    assert!(!reader.enable());

    let mut writer = RegisterWriter::<GICD_CTLR>::initial();
    writer.enable(true);
    assert_eq!(writer.value(), 1);

    let reader = RegisterReader::<GICC_CTLR>::new(1);
    assert!(reader.enable());
    let mut writer = RegisterWriter::<GICC_CTLR>::zero();
    writer.enable(true);
    assert_eq!(writer.value(), 1);
}

#[test]
fn gic_set_enable() {
    let mut writer = RegisterWriter::<GICD_ISENABLER>::initial();
    writer.set_enable(27);
    assert_eq!(writer.value(), 1 << 27);
}

#[test]
fn gic_priority_mask() {
    let reader = RegisterReader::<GICC_PMR>::new(0xffff_12aa);
    assert_eq!(reader.priority(), 0xaa);

    let mut writer = RegisterWriter::<GICC_PMR>::zero();
    writer.priority(0xff);
    assert_eq!(writer.value(), 0xff);
}

#[test]
fn gic_acknowledge() {
    // cpuid 0b010, interrupt id 30
    let iar: u32 = (0b010 << 10) | 30;
    let reader = RegisterReader::<GICC_IAR>::new(iar);
    assert_eq!(reader.entire(), iar);
    assert_eq!(reader.cpuid(), 2);
    assert_eq!(reader.interrupt_id().value(), 30);

    let mut writer = RegisterWriter::<GICC_EOIR>::zero();
    writer.entire_iar(iar);
    assert_eq!(writer.value(), iar);

    // the reset value of GICC_EOIR is the spurious interrupt ID
    let writer = RegisterWriter::<GICC_EOIR>::initial();
    assert_eq!(writer.value(), 0x3ff);
}

#[test]
fn uart_data() {
    let reader = RegisterReader::<UARTDR>::new(0xf00_0041);
    assert_eq!(reader.data(), 0x41);

    let mut writer = RegisterWriter::<UARTDR>::initial();
    writer.data(b'K');
    assert_eq!(writer.value(), b'K' as u32);
}

#[test]
fn raw_field_access() {
    let reader = RegisterReader::<GICC_IAR>::new(0xdead_beef);
    assert_eq!(reader.bits(), 0xdead_beef);
    assert_eq!(reader.field(0..=15), 0xbeef);
    assert_eq!(reader.field(16..=31), 0xdead);
    assert!(reader.bit(0));
    assert!(!reader.bit(4));

    let mut writer = RegisterWriter::<GICC_EOIR>::zero();
    writer.field(8..=15, 0x7e);
    writer.bit(0, true);
    assert_eq!(writer.value(), 0x7e01);
}

#[test]
fn as_usize_conversions() {
    assert_eq!(0xffu8.as_usize(), 0xff);
    assert_eq!(0xffffu16.as_usize(), 0xffff);
    assert_eq!(0xdead_beefu32.as_usize(), 0xdead_beef);
}

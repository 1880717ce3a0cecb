//! Pure register-field definitions for the Cortex-A53 kernel: system
//! registers and the bit layouts of the GIC and UART peripherals.

pub mod daif;
pub mod gicv2;
pub mod nzcv;
pub mod pl011;
pub mod spsr;

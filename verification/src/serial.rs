//! The first serial port (UART 16550), used for logs.
use vstd::prelude::*;
use crate::io::PortWrite;

verus! {

pub const COM1: u16 = 0x3F8;

/// Port of the line status register.
pub const LINE_STATUS: u16 = 0x3FD;

pub struct SerialPort;

/// 38400 baud, 8 data bits, no parity, one stop bit, queues on.
pub open spec fn init_sequence() -> Seq<PortWrite> {
    seq![
        PortWrite { port: 0x3F9, value: 0x00 },
        PortWrite { port: 0x3FB, value: 0x80 },
        PortWrite { port: 0x3F8, value: 0x03 },
        PortWrite { port: 0x3F9, value: 0x00 },
        PortWrite { port: 0x3FB, value: 0x03 },
        PortWrite { port: 0x3FA, value: 0xC7 },
        PortWrite { port: 0x3FC, value: 0x0B },
    ]
}

impl SerialPort {
    /// The port, and the writes that set it up.
    pub fn init() -> (r: (Self, Vec<PortWrite>))
        ensures
            r.1@ == init_sequence(),
    {
        let mut out: Vec<PortWrite> = Vec::new();
        out.push(PortWrite { port: COM1 + 1, value: 0x00 });
        out.push(PortWrite { port: COM1 + 3, value: 0x80 });
        out.push(PortWrite { port: COM1, value: 0x03 });
        out.push(PortWrite { port: COM1 + 1, value: 0x00 });
        out.push(PortWrite { port: COM1 + 3, value: 0x03 });
        out.push(PortWrite { port: COM1 + 2, value: 0xC7 });
        out.push(PortWrite { port: COM1 + 4, value: 0x0B });
        assert(out@ =~= init_sequence());
        (SerialPort, out)
    }

    /// Whether the line status says that a byte can be sent.
    fn is_transmit_empty(status: u8) -> (r: bool)
        ensures
            r == (status & 0x20 != 0),
    {
        status & 0x20 != 0
    }

    /// The write that sends `byte`, once the line status allows it. `None`: read
    /// the status again.
    pub fn write_byte(&self, status: u8, byte: u8) -> (r: Option<PortWrite>)
        ensures
            r == if status & 0x20 != 0 {
                Some(PortWrite { port: COM1, value: byte })
            } else {
                None
            },
    {
        if Self::is_transmit_empty(status) {
            Some(PortWrite { port: COM1, value: byte })
        } else {
            None
        }
    }

    /// Whether the line status says that a received byte waits.
    pub fn has_byte(status: u8) -> (r: bool)
        ensures
            r == (status & 0x01 != 0),
    {
        status & 0x01 != 0
    }
}

} // verus!

//! PS/2 keyboard: scancode set 1, US layout.
//!
//! Shift makes letters upper case; it has no effect on other keys.
use vstd::prelude::*;
use crate::io::PortWrite;
use crate::pic;

verus! {

pub const DATA_PORT: u16 = 0x60;

pub const IRQ: u8 = 1;

pub const BUF_SIZE: usize = 64;

pub const LEFT_SHIFT: u8 = 0x2A;

pub const RIGHT_SHIFT: u8 = 0x36;

/// The character of each scancode; 0 for keys without one.
pub const SCANCODE_TO_ASCII: [u8; 58] = [
    0, 0, 0x31, 0x32, 0x33, 0x34, 0x35, 0x36, 0x37, 0x38,
    0x39, 0x30, 0x2D, 0x3D, 0x08, 0x09,
    0x71, 0x77, 0x65, 0x72, 0x74, 0x79, 0x75, 0x69, 0x6F, 0x70,
    0x5B, 0x5D, 0x0D, 0, 0x61, 0x73,
    0x64, 0x66, 0x67, 0x68, 0x6A, 0x6B, 0x6C, 0x3B, 0x27, 0x60,
    0, 0x5C, 0x7A, 0x78, 0x63, 0x76, 0x62, 0x6E, 0x6D, 0x2C,
    0x2E, 0x2F, 0, 0x2A, 0, 0x20,
];

/// The shift state and the bytes that were typed and not yet read, in a ring of
/// [`BUF_SIZE`] slots of which one stays empty.
pub struct Keyboard {
    data: Vec<u8>,
    head: usize,
    tail: usize,
    shift_held: bool,
}

/// What was typed and not yet read, oldest first.
impl View for Keyboard {
    type V = Seq<u8>;

    closed spec fn view(&self) -> Seq<u8> {
        Seq::new(
            self.waiting(),
            |i: int| self.data@[self.slot(i)],
        )
    }
}

pub open spec fn upper(c: u8) -> u8 {
    if 0x61 <= c <= 0x7A {
        (c - 32) as u8
    } else {
        c
    }
}

fn to_upper(c: u8) -> (r: u8)
    ensures
        r == upper(c),
{
    if 0x61 <= c && c <= 0x7A {
        c - 32
    } else {
        c
    }
}

/// The byte that a scancode types: none for a release (bit 7), for shift and
/// for keys without a character.
pub open spec fn typed(scancode: u8, shift: bool) -> Option<u8> {
    if scancode >= 0x80 || scancode == LEFT_SHIFT || scancode == RIGHT_SHIFT || scancode >= 0x3A {
        None
    } else {
        let c = SCANCODE_TO_ASCII[scancode as int];
        if c == 0 {
            None
        } else if shift {
            Some(upper(c))
        } else {
            Some(c)
        }
    }
}

/// Whether shift is held after a scancode.
pub open spec fn shift_after(scancode: u8, shift: bool) -> bool {
    let code = scancode % 0x80;
    if code == LEFT_SHIFT || code == RIGHT_SHIFT {
        scancode < 0x80
    } else {
        shift
    }
}

impl Keyboard {
    spec fn waiting(&self) -> nat {
        if self.head >= self.tail {
            (self.head - self.tail) as nat
        } else {
            (self.head + BUF_SIZE - self.tail) as nat
        }
    }

    /// The slot of the byte that is `i`th in turn.
    spec fn slot(&self, i: int) -> int {
        if self.tail + i < BUF_SIZE {
            self.tail + i
        } else {
            self.tail + i - BUF_SIZE
        }
    }

    pub closed spec fn wf(&self) -> bool {
        self.data@.len() == BUF_SIZE && self.head < BUF_SIZE && self.tail < BUF_SIZE
    }

    pub closed spec fn shift(&self) -> bool {
        self.shift_held
    }

    /// At most 63 bytes wait.
    pub proof fn law_few_bytes_wait(&self)
        requires
            self.wf(),
        ensures
            self@.len() < BUF_SIZE,
    {
    }

    pub fn new() -> (r: Self)
        ensures
            r.wf(),
            r@ == Seq::<u8>::empty(),
            !r.shift(),
    {
        let r = Keyboard { data: vec![0u8; BUF_SIZE], head: 0, tail: 0, shift_held: false };
        assert(r@ =~= Seq::<u8>::empty());
        r
    }

    /// Adds a byte. If the ring is full the byte is dropped.
    fn push(&mut self, byte: u8)
        requires
            old(self).wf(),
        ensures
            final(self).wf(),
            final(self).shift() == old(self).shift(),
            final(self)@ == if old(self)@.len() + 1 < BUF_SIZE {
                old(self)@.push(byte)
            } else {
                old(self)@
            },
    {
        let next = (self.head + 1) % BUF_SIZE;
        if next == self.tail {
            return ;
        }
        self.data.set(self.head, byte);
        self.head = next;
        assert(self@ =~= old(self)@.push(byte));
    }

    /// The oldest byte that waits. `None` if none does.
    pub fn try_read_byte(&mut self) -> (r: Option<u8>)
        requires
            old(self).wf(),
        ensures
            final(self).wf(),
            final(self).shift() == old(self).shift(),
            if old(self)@.len() == 0 {
                r is None && final(self)@ == old(self)@
            } else {
                r == Some(old(self)@[0]) && final(self)@ == old(self)@.drop_first()
            },
    {
        if self.tail == self.head {
            return None;
        }
        let byte = self.data[self.tail];
        self.tail = (self.tail + 1) % BUF_SIZE;
        assert(self@ =~= old(self)@.drop_first());
        Some(byte)
    }

    /// Takes a scancode from the data port, and gives the writes that
    /// acknowledge the interrupt.
    pub fn keyboard_interrupt_handler(&mut self, scancode: u8) -> (r: Vec<PortWrite>)
        requires
            old(self).wf(),
        ensures
            final(self).wf(),
            final(self).shift() == shift_after(scancode, old(self).shift()),
            final(self)@ == match typed(scancode, old(self).shift()) {
                Some(b) => if old(self)@.len() + 1 < BUF_SIZE {
                    old(self)@.push(b)
                } else {
                    old(self)@
                },
                None => old(self)@,
            },
            r@ == seq![PortWrite { port: pic::PIC1_CMD, value: pic::END_OF_INTERRUPT }],
    {
        let is_release = scancode >= 0x80;
        let code = scancode % 0x80;
        if code == LEFT_SHIFT || code == RIGHT_SHIFT {
            self.shift_held = !is_release;
            assert(self@ =~= old(self)@);
        } else if !is_release && code < 0x3A {
            let mut ascii = SCANCODE_TO_ASCII[code as usize];
            if ascii != 0 {
                if self.shift_held {
                    ascii = to_upper(ascii);
                }
                self.push(ascii);
            }
        }
        pic::end_of_interrupt(IRQ)
    }
}

/// The write that lets the interrupt of the keyboard through, given the current
/// mask of the first controller.
pub fn init(current_mask: u8) -> (r: PortWrite)
    ensures
        r.port == pic::PIC1_DATA,
        forall|j: u8|
            j < 8 ==> #[trigger] pic::masked(r.value, j) == (j != IRQ && pic::masked(
                current_mask,
                j,
            )),
{
    pic::unmask(IRQ, current_mask)
}

/// The keys type what is printed on them: the rows of digits and letters, the
/// blank, the line end and the key that takes a byte back. A key that is let go
/// and a shift key type nothing. With shift the letters are capitals and all other
/// keys type what they type without.
pub proof fn law_keys_type_their_letters(scancode: u8, i: int)
    ensures
        0 <= i < 10 ==> typed((0x02 + i) as u8, false) == Some(
            seq![0x31u8, 0x32, 0x33, 0x34, 0x35, 0x36, 0x37, 0x38, 0x39, 0x30][i],
        ),
        0 <= i < 10 ==> typed((0x10 + i) as u8, false) == Some(
            seq![0x71u8, 0x77, 0x65, 0x72, 0x74, 0x79, 0x75, 0x69, 0x6F, 0x70][i],
        ),
        0 <= i < 9 ==> typed((0x1E + i) as u8, false) == Some(
            seq![0x61u8, 0x73, 0x64, 0x66, 0x67, 0x68, 0x6A, 0x6B, 0x6C][i],
        ),
        0 <= i < 7 ==> typed((0x2C + i) as u8, false) == Some(
            seq![0x7Au8, 0x78, 0x63, 0x76, 0x62, 0x6E, 0x6D][i],
        ),
        typed(0x39, false) == Some(0x20u8),
        typed(0x1C, false) == Some(0x0Du8),
        typed(0x0E, false) == Some(0x08u8),
        scancode >= 0x80 ==> typed(scancode, false) is None,
        scancode == 0x2A || scancode == 0x36 ==> typed(scancode, false) is None,
        match (typed(scancode, false), typed(scancode, true)) {
            (None, None) => true,
            (Some(c), Some(d)) => if 0x61 <= c <= 0x7A {
                d == c - 0x20
            } else {
                d == c
            },
            _ => false,
        },
{
    let table = SCANCODE_TO_ASCII;
    assert(table[0x39] == 0x20 && table[0x1C] == 0x0D && table[0x0E] == 0x08);
}

/// Shift is held from the moment that either shift key goes down to the moment
/// that one is let go; no other key changes it.
pub proof fn law_shift_keys_shift(scancode: u8, shift: bool)
    ensures
        scancode == 0x2A || scancode == 0x36 ==> shift_after(scancode, shift),
        scancode == 0xAA || scancode == 0xB6 ==> !shift_after(scancode, shift),
        scancode != 0x2A && scancode != 0x36 && scancode != 0xAA && scancode != 0xB6 ==> shift_after(
            scancode,
            shift,
        ) == shift,
{
}

} // verus!

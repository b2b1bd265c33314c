//! The line editor of the console.
use vstd::prelude::*;
use crate::text;

verus! {

pub const BACKSPACE: u8 = 0x08;

pub const DEL: u8 = 0x7F;

pub const CR: u8 = 0x0D;

pub const LF: u8 = 0x0A;

/// A line that is being typed.
pub struct LineEditor {
    pub buf: Vec<u8>,
}

/// Whether a byte ends a line.
pub open spec fn ends_line(byte: u8) -> bool {
    byte == CR || byte == LF
}

/// Whether a byte takes the last one back.
pub open spec fn takes_back(byte: u8) -> bool {
    byte == BACKSPACE || byte == DEL
}

/// The line after a key.
pub open spec fn after_key(line: Seq<u8>, byte: u8) -> Seq<u8> {
    if ends_line(byte) {
        line
    } else if takes_back(byte) {
        if line.len() == 0 {
            line
        } else {
            line.drop_last()
        }
    } else {
        line.push(byte)
    }
}

/// What is echoed for a key: the end of the line, the byte itself, or what wipes
/// the last one out.
pub open spec fn echo_of(line: Seq<u8>, byte: u8) -> Seq<u8> {
    if ends_line(byte) {
        seq![CR, LF]
    } else if takes_back(byte) {
        if line.len() == 0 {
            Seq::empty()
        } else {
            seq![BACKSPACE, 0x20, BACKSPACE]
        }
    } else {
        seq![byte]
    }
}

impl LineEditor {
    pub fn new() -> (r: Self)
        ensures
            r.buf@ == Seq::<u8>::empty(),
    {
        LineEditor { buf: Vec::new() }
    }

    /// Takes a key. Gives what to echo, and whether the line is complete.
    pub fn key(&mut self, byte: u8) -> (r: (Vec<u8>, bool))
        ensures
            final(self).buf@ == after_key(old(self).buf@, byte),
            r.0@ == echo_of(old(self).buf@, byte),
            r.1 == ends_line(byte),
    {
        let mut echo: Vec<u8> = Vec::new();
        if byte == CR || byte == LF {
            echo.push(CR);
            echo.push(LF);
            assert(echo@ =~= seq![CR, LF]);
            return (echo, true);
        }
        if byte == BACKSPACE || byte == DEL {
            if self.buf.pop().is_some() {
                echo.push(BACKSPACE);
                echo.push(0x20);
                echo.push(BACKSPACE);
                assert(echo@ =~= seq![BACKSPACE, 0x20, BACKSPACE]);
            }
            return (echo, false);
        }
        self.buf.push(byte);
        echo.push(byte);
        assert(echo@ =~= seq![byte]);
        (echo, false)
    }

    /// Hands the line over and starts a new one.
    pub fn take_line(&mut self) -> (r: String)
        ensures
            r@ == text::lossy_text(old(self).buf@),
            vstd::utf8::valid_utf8(old(self).buf@) ==> r@ == vstd::utf8::decode_utf8(
                old(self).buf@,
            ),
            final(self).buf@ == Seq::<u8>::empty(),
    {
        let line = text::from_utf8_lossy(self.buf.as_slice());
        self.buf.clear();
        line
    }
}

// --- laws --------------------------------------------------------------------------

/// The line after some keys.
pub open spec fn after_keys(line: Seq<u8>, keys: Seq<u8>) -> Seq<u8>
    decreases keys.len(),
{
    if keys.len() == 0 {
        line
    } else {
        after_key(after_keys(line, keys.drop_last()), keys.last())
    }
}

/// A key that was typed and taken back leaves the line as it was.
pub proof fn law_backspace_undoes(line: Seq<u8>, byte: u8, back: u8)
    requires
        !ends_line(byte),
        !takes_back(byte),
        takes_back(back),
    ensures
        after_key(after_key(line, byte), back) == line,
{
    assert(line.push(byte).drop_last() =~= line);
}

/// Keys that only type make up the line.
pub proof fn law_typed_keys_are_the_line(line: Seq<u8>, keys: Seq<u8>)
    requires
        forall|i: int|
            0 <= i < keys.len() ==> !ends_line(#[trigger] keys[i]) && !takes_back(keys[i]),
    ensures
        after_keys(line, keys) == line + keys,
    decreases keys.len(),
{
    if keys.len() > 0 {
        law_typed_keys_are_the_line(line, keys.drop_last());
        assert(keys =~= keys.drop_last().push(keys.last()));
        assert(line + keys =~= (line + keys.drop_last()).push(keys.last()));
    } else {
        assert(line + keys =~= line);
    }
}

/// What is shown is what is in the line: a byte that joins it is shown, one that
/// is taken back is blanked out, and the end of the line moves to the next one.
pub proof fn law_echo_shows_the_line(line: Seq<u8>, byte: u8)
    ensures
        ends_line(byte) <==> byte == 13 || byte == 10,
        takes_back(byte) <==> byte == 8 || byte == 127,
        byte == 13 || byte == 10 ==> echo_of(line, byte) == seq![13u8, 10u8] && after_key(line, byte)
            == line,
        (byte == 8 || byte == 127) && line.len() > 0 ==> echo_of(line, byte) == seq![
            8u8,
            0x20u8,
            8u8,
        ] && after_key(line, byte) == line.take(line.len() - 1),
        (byte == 8 || byte == 127) && line.len() == 0 ==> echo_of(line, byte) == Seq::<u8>::empty()
            && after_key(line, byte) == line,
        byte != 13 && byte != 10 && byte != 8 && byte != 127 ==> echo_of(line, byte) == seq![byte]
            && after_key(line, byte) == line + seq![byte],
{
    assert(line.push(byte) =~= line + seq![byte]);
    if line.len() > 0 {
        assert(line.drop_last() =~= line.take(line.len() - 1));
    }
}

} // verus!

//! From scancodes to keys.

use pc_keyboard::layouts::Us104Key;
use pc_keyboard::{DecodedKey, HandleControl, Keyboard, ScancodeSet1};
use vstd::prelude::*;

verus! {

/// Number of the up-arrow key.
pub const ARROW_UP: u8 = 88;

/// Number of the down-arrow key.
pub const ARROW_DOWN: u8 = 102;

/// Number of the Page Up key.
pub const PAGE_UP: u8 = 33;

/// Number of the Page Down key.
pub const PAGE_DOWN: u8 = 55;

/// A key that was pressed.
#[derive(Debug, Clone, Copy, PartialEq, Eq, Structural)]
pub enum Key {
    /// A key that stands for a character.
    Unicode(char),
    /// Any other key, by its number: its place among the key codes of
    /// `pc_keyboard`.
    Raw(u8),
}

/// A `pc_keyboard::Keyboard` for scancode set 1 and the US layout with 104
/// keys, which does nothing special about the Ctrl key.
#[verifier::external_body]
pub struct Decoder {
    keyboard: Keyboard<Us104Key, ScancodeSet1>,
}

/// The bytes that a decoder has been fed since it was made.
pub uninterp spec fn fed(decoder: Decoder) -> Seq<u8>;

/// The key that the last of the bytes completes, when a new decoder is fed all
/// of them in order.
pub uninterp spec fn decoded_key(bytes: Seq<u8>) -> Option<Key>;

impl Decoder {
    /// `pc_keyboard::Keyboard::new`: a decoder that has been fed nothing.
    #[verifier::external_body]
    pub(crate) fn new() -> (decoder: Decoder)
        ensures
            fed(decoder) == Seq::<u8>::empty(),
    {
        Decoder { keyboard: Keyboard::new(ScancodeSet1::new(), Us104Key, HandleControl::Ignore) }
    }

    /// `pc_keyboard::Keyboard::add_byte`, and `process_keyevent` on the event
    /// that comes of it: the key that the byte completes, if it completes one.
    /// What comes out depends on the bytes fed so far and on nothing else; a
    /// byte that is no scancode gives no key. Which key a sequence of bytes
    /// stands for is left to the keyboard's tables.
    #[verifier::external_body]
    pub(crate) fn feed(&mut self, byte: u8) -> (key: Option<Key>)
        ensures
            fed(*final(self)) == fed(*old(self)).push(byte),
            key == decoded_key(fed(*old(self)).push(byte)),
    {
        match self.keyboard.add_byte(byte) {
            Ok(Some(event)) => match self.keyboard.process_keyevent(event) {
                Some(DecodedKey::Unicode(c)) => Some(Key::Unicode(c)),
                Some(DecodedKey::RawKey(code)) => Some(Key::Raw(code as u8)),
                None => None,
            },
            _ => None,
        }
    }
}

} // verus!

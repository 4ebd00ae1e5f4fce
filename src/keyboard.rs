//! The layout of the 88-key keyboard: which keys are black, and where each
//! key sits horizontally.

use vstd::prelude::*;
use crate::tile::{KEY_COUNT, KEY_OFFSET, key_index, key_index_of};

verus! {

/// The two kinds of key.
#[allow(non_camel_case_types)]
#[derive(Clone, Copy, Debug, PartialEq, Eq, Structural)]
pub enum KeyType {
    WHITE,
    BLACK,
}

/// A key's kind and the x coordinate of its left edge, in the units of the
/// key images' widths.
#[derive(Clone, Copy, Debug, PartialEq, Eq, Structural)]
pub struct Key {
    pub key_type: KeyType,
    pub offset: i64,
}

/// Key `index` is black: its pitch is C#, D#, F#, G# or A#.
pub open spec fn is_black(index: int) -> bool {
    let pc = (index + KEY_OFFSET) % 12;
    pc == 1 || pc == 3 || pc == 6 || pc == 8 || pc == 10
}

/// Number of white keys below key `index`.
pub open spec fn whites_before(index: int) -> int
    decreases index,
{
    if index <= 0 {
        0
    } else if is_black(index - 1) {
        whites_before(index - 1)
    } else {
        whites_before(index - 1) + 1
    }
}

/// Where key `index` sits: white keys side by side, each black key centred
/// on the boundary between the white keys around it.
pub open spec fn key_at(index: int, white_width: u32, black_width: u32) -> Key {
    if is_black(index) {
        Key {
            key_type: KeyType::BLACK,
            offset: (whites_before(index) * white_width - black_width / 2) as i64,
        }
    } else {
        Key { key_type: KeyType::WHITE, offset: (whites_before(index) * white_width) as i64 }
    }
}

/// The kind of key `index`, or `None` off the keyboard.
pub fn key_type(index: usize) -> (r: Option<KeyType>)
    ensures
        index < KEY_COUNT ==> r == Some(if is_black(index as int) {
            KeyType::BLACK
        } else {
            KeyType::WHITE
        }),
        index >= KEY_COUNT ==> r is None,
{
    if index >= KEY_COUNT {
        return None;
    }
    let pc = (index + KEY_OFFSET as usize) % 12;
    if pc == 1 || pc == 3 || pc == 6 || pc == 8 || pc == 10 {
        Some(KeyType::BLACK)
    } else {
        Some(KeyType::WHITE)
    }
}

proof fn lemma_whites_bound(index: int)
    requires
        0 <= index,
    ensures
        0 <= whites_before(index) <= index,
    decreases index,
{
    if index > 0 {
        lemma_whites_bound(index - 1);
    }
}

/// Lays out the keyboard from the widths of the white and black key images.
pub fn gen_piano(white_width: u32, black_width: u32) -> (r: Vec<Key>)
    ensures
        r@.len() == KEY_COUNT,
        forall|i: int| 0 <= i < KEY_COUNT ==> #[trigger] r@[i] == key_at(i, white_width, black_width),
{
    let mut keymap: Vec<Key> = Vec::new();
    let mut pos: i64 = 0;
    let white_dist: i64 = white_width as i64;
    let black_dist: i64 = (black_width / 2) as i64;
    let mut i: usize = 0;
    while i < KEY_COUNT
        invariant
            i <= KEY_COUNT,
            keymap@.len() == i,
            pos == whites_before(i as int) * white_width,
            white_dist == white_width,
            black_dist == black_width / 2,
            forall|j: int| 0 <= j < i ==> #[trigger] keymap@[j] == key_at(j, white_width, black_width),
        decreases KEY_COUNT - i,
    {
        proof {
            lemma_whites_bound(i as int);
            assert(whites_before(i as int) * white_width <= 88 * 0xffff_ffff) by (nonlinear_arith)
                requires
                    0 <= whites_before(i as int) <= 88,
                    white_width <= 0xffff_ffff,
            ;
        }
        match key_type(i) {
            Some(KeyType::WHITE) => {
                keymap.push(Key { key_type: KeyType::WHITE, offset: pos });
                pos = pos + white_dist;
            },
            _ => {
                keymap.push(Key { key_type: KeyType::BLACK, offset: pos - black_dist });
            },
        }
        proof {
            assert(whites_before(i + 1) == if is_black(i as int) {
                whites_before(i as int)
            } else {
                whites_before(i as int) + 1
            });
            assert((whites_before(i as int) + 1) * white_width == whites_before(i as int) * white_width
                + white_width) by (nonlinear_arith);
        }
        i += 1;
    }
    keymap
}

/// Status byte of a note-on message on the first channel.
pub const NOTE_ON_STATUS: u8 = 0x90;

/// What a raw MIDI input message does to the table of held keys: the key it
/// names, and whether that key is now held (a note-on on the first channel)
/// or released (any other status). `None` for a message too short to name a
/// key, or one naming a key off the keyboard.
pub open spec fn key_change(message: Seq<u8>) -> Option<(int, bool)> {
    if message.len() >= 2 {
        match key_index_of(message[1]) {
            Some(i) => Some((i, message[0] == NOTE_ON_STATUS)),
            None => None,
        }
    } else {
        None
    }
}

/// Applies a raw MIDI input message to the table of held keys.
pub fn apply_key_message(keys: &mut [bool; 88], message: &[u8])
    ensures
        key_change(message@) matches Some((i, held)) ==> final(keys)@ == old(keys)@.update(i, held),
        key_change(message@) is None ==> final(keys)@ == old(keys)@,
{
    if message.len() >= 2 {
        if let Some(i) = key_index(message[1]) {
            keys[i] = message[0] == NOTE_ON_STATUS;
        }
    }
}

} // verus!

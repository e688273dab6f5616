//! Scancode decoding through the pc-keyboard crate.
//!
//! The interrupt handler delivers raw scancode-set-1 bytes; the consumer
//! task feeds them to a stateful decoder and keeps the characters it yields.
//! What a byte decodes to depends on the decoder's accumulated state (shift
//! and modifier keys, multi-byte sequences), so nothing is promised about
//! the decoded output; the consumer's own contract states what holds
//! whatever comes back.

use vstd::prelude::*;

verus! {

/// A completed key event, carried opaquely between the two decoding steps.
#[verifier::external_type_specification]
#[verifier::external_body]
pub struct ExKeyEvent(pc_keyboard::KeyEvent);

/// The pc-keyboard decoder for the US 104-key layout over scancode set 1,
/// held opaquely: its trait-bounded generics cannot be declared to the
/// verifier, so the whole decoder is a single opaque value.
#[verifier::external_body]
pub struct KeyboardDecoder {
    inner: pc_keyboard::PS2Keyboard<pc_keyboard::layouts::Us104Key, pc_keyboard::ScancodeSet1>,
}

/// Relies on pc_keyboard::PS2Keyboard::new, with ScancodeSet1::new and the
/// Us104Key layout: a fresh decoder that leaves control keys alone.
#[verifier::external_body]
pub fn kb_new() -> KeyboardDecoder {
    KeyboardDecoder {
        inner: pc_keyboard::PS2Keyboard::new(
            pc_keyboard::ScancodeSet1::new(),
            pc_keyboard::layouts::Us104Key,
            pc_keyboard::HandleControl::Ignore,
        ),
    }
}

/// Relies on pc_keyboard::PS2Keyboard::add_byte: advances the decoder by one
/// raw scancode byte. A completed key event comes back `Some`; a mid-sequence
/// byte or a protocol error yields `None`.
#[verifier::external_body]
pub fn kb_add_byte(kb: &mut KeyboardDecoder, code: u8) -> Option<pc_keyboard::KeyEvent> {
    match kb.inner.add_byte(code) {
        Ok(ev) => ev,
        Err(_) => None,
    }
}

/// Relies on pc_keyboard::PS2Keyboard::process_keyevent: folds the event into
/// the decoder's modifier state. A Unicode decoding comes back as its
/// character; a raw key code or nothing at all yields `None`.
#[verifier::external_body]
pub fn kb_process_event(kb: &mut KeyboardDecoder, ev: pc_keyboard::KeyEvent) -> Option<char> {
    match kb.inner.process_keyevent(ev) {
        Some(pc_keyboard::DecodedKey::Unicode(c)) => Some(c),
        Some(pc_keyboard::DecodedKey::RawKey(_)) => None,
        None => None,
    }
}

} // verus!

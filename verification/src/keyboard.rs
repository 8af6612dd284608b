use vstd::prelude::*;

verus! {

/// Number of scancodes of scancode set 1 that the tables cover.
pub const SCANCODE_COUNT: u8 = 89;

/// Marks a scancode that produces no character.
pub const NO_KEY: u8 = 255;

/// The character for each key-press scancode of scancode set 1 (US layout),
/// `NO_KEY` where the key gives none.
pub const SCANCODES_KEYS: [u8; 89] = [
    255, 27, 49, 50, 51, 52, 53, 54, 55, 56, 57, 48,
    45, 61, 8, 9, 113, 119, 101, 114, 116, 121, 117, 105,
    111, 112, 91, 93, 13, 255, 97, 115, 100, 102, 103, 104,
    106, 107, 108, 59, 39, 96, 255, 92, 122, 120, 99, 118,
    98, 110, 109, 44, 46, 47, 255, 42, 255, 32, 255, 255,
    255, 255, 255, 255, 255, 255, 255, 255, 255, 255, 255, 55,
    56, 57, 45, 52, 53, 54, 43, 49, 50, 51, 48, 46,
    255, 255, 255, 255, 255,
];

/// The same with shift held.
pub const SCANCODES_SHIFT_KEYS: [u8; 89] = [
    255, 27, 33, 64, 35, 36, 37, 94, 38, 42, 40, 41,
    95, 43, 8, 9, 81, 87, 69, 82, 84, 89, 85, 73,
    79, 80, 123, 125, 13, 255, 65, 83, 68, 70, 71, 72,
    74, 75, 76, 58, 34, 126, 255, 124, 90, 88, 67, 86,
    66, 78, 77, 60, 62, 63, 255, 42, 255, 32, 255, 255,
    255, 255, 255, 255, 255, 255, 255, 255, 255, 255, 255, 55,
    56, 57, 45, 52, 53, 54, 43, 49, 50, 51, 48, 46,
    255, 255, 255, 255, 255,
];

/// The key a scancode stands for: its character and that it was pressed.
/// Scancodes past the table, key releases among them, and keys without a
/// character stand for none.
pub open spec fn scancode_key(scancode: u8) -> Option<(u8, bool)> {
    if scancode < SCANCODE_COUNT && SCANCODES_KEYS[scancode as int] != NO_KEY {
        Some((SCANCODES_KEYS[scancode as int], true))
    } else {
        None::<(u8, bool)>
    }
}

/// A key press reads the unshifted table: a scancode of the table with a
/// character gives that character of `SCANCODES_KEYS`, pressed; any other
/// gives none. No letter comes out in upper case.
pub proof fn lemma_scancode_unshifted(scancode: u8)
    ensures
        scancode < 89 && SCANCODES_KEYS[scancode as int] != 255 ==> scancode_key(scancode) == Some(
            (SCANCODES_KEYS[scancode as int], true),
        ),
        !(scancode < 89 && SCANCODES_KEYS[scancode as int] != 255) ==> scancode_key(scancode) == None::<(u8, bool)>,
        scancode_key(scancode) matches Some(k) ==> !(65 <= k.0 <= 90),
{
    if scancode < 89 {
        assert(forall|i: int| 0 <= i < 89 ==> !(65 <= #[trigger] SCANCODES_KEYS[i] <= 90)) by {
            assert(SCANCODES_KEYS@ =~= seq![
                255u8, 27, 49, 50, 51, 52, 53, 54, 55, 56, 57, 48,
                45, 61, 8, 9, 113, 119, 101, 114, 116, 121, 117, 105,
                111, 112, 91, 93, 13, 255, 97, 115, 100, 102, 103, 104,
                106, 107, 108, 59, 39, 96, 255, 92, 122, 120, 99, 118,
                98, 110, 109, 44, 46, 47, 255, 42, 255, 32, 255, 255,
                255, 255, 255, 255, 255, 255, 255, 255, 255, 255, 255, 55,
                56, 57, 45, 52, 53, 54, 43, 49, 50, 51, 48, 46,
                255, 255, 255, 255, 255,
            ]);
        }
    }
}

/// Handles a scancode read from the keyboard: the key it stands for.
pub fn keyboard_handler(scancode: u8) -> (r: Option<(u8, bool)>)
    ensures
        r == scancode_key(scancode),
        scancode < 89 && SCANCODES_KEYS[scancode as int] != 255 ==> r == Some((SCANCODES_KEYS[scancode as int], true)),
        !(scancode < 89 && SCANCODES_KEYS[scancode as int] != 255) ==> r == None::<(u8, bool)>,
{
    if scancode < SCANCODE_COUNT {
        let key = SCANCODES_KEYS[scancode as usize];
        if key == NO_KEY {
            None
        } else {
            Some((key, true))
        }
    } else {
        None
    }
}

} // verus!

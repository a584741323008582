use vstd::prelude::*;
use crate::geometry::Rect;

verus! {

/// Letters in a hint code's alphabet.
pub const ALPHABET: u32 = 26;

/// First letter selecting big boxes (`B`).
pub const BIG_BOX_KEY: u32 = 1;

/// First letter selecting images (`I`).
pub const IMAGE_KEY: u32 = 8;

/// First letter selecting text lines (`L`).
pub const LINE_KEY: u32 = 11;

/// Kernel button code of the left mouse button.
pub const BUTTON_LEFT: u32 = 272;

pub const BUTTON_RIGHT: u32 = 273;

pub const BUTTON_MIDDLE: u32 = 274;

/// Which click the overlay dispatches.
#[derive(Clone, Copy, Debug, PartialEq, Eq, Structural)]
pub enum ClickType {
    Left,
    Right,
    Middle,
    Double,
}

/// Button pressed for a click: a double click presses the left button.
pub fn button_code(click: ClickType) -> (r: u32)
    ensures
        r == match click {
            ClickType::Left => BUTTON_LEFT,
            ClickType::Right => BUTTON_RIGHT,
            ClickType::Middle => BUTTON_MIDDLE,
            ClickType::Double => BUTTON_LEFT,
        },
{
    match click {
        ClickType::Left => BUTTON_LEFT,
        ClickType::Right => BUTTON_RIGHT,
        ClickType::Middle => BUTTON_MIDDLE,
        ClickType::Double => BUTTON_LEFT,
    }
}

/// How many press-and-release pairs a click takes.
pub fn press_count(click: ClickType) -> (r: u32)
    ensures
        r == (if click == ClickType::Double { 2u32 } else { 1u32 }),
{
    match click {
        ClickType::Double => 2,
        _ => 1,
    }
}

/// The two letters (0 = `A`) of the hint code of box `index`.
pub fn get_letters_for_index(index: i32) -> (r: (u8, u8))
    requires
        0 <= index < ALPHABET * ALPHABET,
    ensures
        r.0 == index as int / ALPHABET as int,
        r.1 == index as int % ALPHABET as int,
{
    let letter1 = (index / 26) as u8;
    let letter2 = (index % 26) as u8;
    (letter1, letter2)
}

/// The box index a two-letter hint code stands for.
pub fn get_index_for_letters(letter1: u8, letter2: u8) -> (r: i32)
    ensures
        r == letter1 as int * ALPHABET as int + letter2 as int,
{
    let letter1 = letter1 as i32;
    let letter2 = letter2 as i32;
    letter1 * 26 + letter2
}

/// Reading back the letters of a box's hint code gives the box's index.
pub proof fn lemma_letters_round_trip(index: int)
    requires
        0 <= index < ALPHABET * ALPHABET,
    ensures
        (index / ALPHABET as int) * ALPHABET as int + index % ALPHABET as int == index,
{
}

/// The collection that a typed first letter selects.
pub open spec fn category<'a>(key: u32, images: &'a Vec<Rect>, lines: &'a Vec<Rect>, big: &'a Vec<Rect>) -> Option<Seq<Rect>> {
    if key == IMAGE_KEY {
        Some(images@)
    } else if key == LINE_KEY {
        Some(lines@)
    } else if key == BIG_BOX_KEY {
        Some(big@)
    } else {
        None
    }
}

/// The box a complete typed code selects: the first letter picks images, lines
/// or big boxes, the next two the index within them. `None` until three letters
/// are typed, and for an unknown category or an index past the end.
pub fn select_box(typed: &Vec<u32>, images: &Vec<Rect>, lines: &Vec<Rect>, big: &Vec<Rect>) -> (r: Option<Rect>)
    ensures
        r == (if typed@.len() == 3 {
            match category(typed@[0], images, lines, big) {
                Some(s) => {
                    let idx = typed@[1] * ALPHABET as int + typed@[2];
                    if idx < s.len() { Some(s[idx]) } else { None }
                },
                None => None,
            }
        } else {
            None
        }),
{
    if typed.len() != 3 {
        return None;
    }
    let list = if typed[0] == IMAGE_KEY {
        images
    } else if typed[0] == LINE_KEY {
        lines
    } else if typed[0] == BIG_BOX_KEY {
        big
    } else {
        return None;
    };
    let idx: u64 = typed[1] as u64 * 26 + typed[2] as u64;
    if idx < list.len() as u64 {
        Some(list[idx as usize])
    } else {
        None
    }
}

/// The point a selected box is clicked at: its centre, rounded down.
pub fn box_center(b: Rect) -> (r: (u32, u32))
    ensures
        r.0 == (b.0 + b.2) / 2,
        r.1 == (b.1 + b.3) / 2,
{
    (((b.0 as u64 + b.2 as u64) / 2) as u32, ((b.1 as u64 + b.3 as u64) / 2) as u32)
}

/// Relative motion that brings a pointer parked at the bottom-right corner of a
/// `screen_width` x `screen_height` screen to `(x, y)`.
pub fn pointer_offset(x: i32, y: i32, screen_width: i32, screen_height: i32) -> (r: (i64, i64))
    ensures
        r.0 == x - screen_width,
        r.1 == y - screen_height,
{
    (x as i64 - screen_width as i64, y as i64 - screen_height as i64)
}

/// Screen capture backends, tried in this order.
#[derive(Clone, Copy, Debug, PartialEq, Eq, Structural)]
pub enum CaptureBackend {
    /// The continuous low-latency capture stream.
    Stream,
    /// A screenshot-portal request.
    Portal,
    /// A full-monitor snapshot.
    Snapshot,
}

/// The backend to try after `failed` failed; `None` when all have failed.
pub fn next_capture_backend(failed: CaptureBackend) -> (r: Option<CaptureBackend>)
    ensures
        r == match failed {
            CaptureBackend::Stream => Some(CaptureBackend::Portal),
            CaptureBackend::Portal => Some(CaptureBackend::Snapshot),
            CaptureBackend::Snapshot => None::<CaptureBackend>,
        },
{
    match failed {
        CaptureBackend::Stream => Some(CaptureBackend::Portal),
        CaptureBackend::Portal => Some(CaptureBackend::Snapshot),
        CaptureBackend::Snapshot => None,
    }
}

} // verus!

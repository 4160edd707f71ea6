//! Decisions of the wizard's pages that do not depend on how they are drawn:
//! keyboard focus order, the step indicator and the signal icons.

use vstd::prelude::*;

use crate::theme::{glyph_wifi_high, glyph_wifi_low, glyph_wifi_medium, glyph_wifi_none};
use crate::wizard::Step;

verus! {

/// The focus index, clamped to the list, as a number.
pub open spec fn clamped_focus(idx: int, len: int) -> int {
    if idx > len - 1 {
        len - 1
    } else {
        idx
    }
}

/// Moves the keyboard focus by `delta` places through `len` focusable items,
/// wrapping around; a focus past the end counts as the last item. With no
/// items there is nothing to move (`None`).
pub fn cycle_index(idx: usize, len: usize, delta: i32) -> (r: Option<usize>)
    requires
        len <= i32::MAX,
        idx <= i32::MAX,
        len > 0 ==> i32::MIN <= clamped_focus(idx as int, len as int) + delta <= i32::MAX,
    ensures
        len == 0 ==> r is None,
        len > 0 ==> (r matches Some(i) && i as int == (clamped_focus(idx as int, len as int)
            + delta) % (len as int) && i < len),
{
    if len == 0 {
        return None;
    }
    let n = len as i64;
    let cur: i64 = if idx as i64 > n - 1 {
        n - 1
    } else {
        idx as i64
    };
    let sum = cur + delta as i64;
    match sum.checked_rem_euclid(n) {
        Some(m) => Some(m as usize),
        None => None,
    }
}

/// The focus once the item at position `ord` is laid out: it moves to that
/// item when the item gained keyboard focus, or when the pointer moved over it.
pub fn focus_on_register(
    idx: usize,
    ord: usize,
    gained_focus: bool,
    hovered: bool,
    pointer_moved: bool,
) -> (r: usize)
    ensures
        r == if gained_focus || (hovered && pointer_moved) {
            ord
        } else {
            idx
        },
{
    let mut r = idx;
    if gained_focus {
        r = ord;
    }
    if hovered && pointer_moved {
        r = ord;
    }
    r
}

/// The position of a page in the step indicator (done and failed installs
/// show as the install step).
pub open spec fn indicator_position_of(s: Step) -> int {
    match s {
        Step::Welcome => 0,
        Step::SelectDisk => 1,
        Step::Display => 2,
        Step::Keyboard => 3,
        Step::Network => 4,
        Step::Confirm => 5,
        _ => 6,
    }
}

/// The page shown at each position of the step indicator.
pub open spec fn indicator_step(i: int) -> Step {
    if i == 0 {
        Step::Welcome
    } else if i == 1 {
        Step::SelectDisk
    } else if i == 2 {
        Step::Display
    } else if i == 3 {
        Step::Keyboard
    } else if i == 4 {
        Step::Network
    } else if i == 5 {
        Step::Confirm
    } else {
        Step::Installing
    }
}

/// The label at each position of the step indicator.
pub open spec fn indicator_label(i: int) -> Seq<char> {
    if i == 0 {
        "Welcome"@
    } else if i == 1 {
        "Disk"@
    } else if i == 2 {
        "Display"@
    } else if i == 3 {
        "Keyboard"@
    } else if i == 4 {
        "Wi-Fi"@
    } else if i == 5 {
        "Confirm"@
    } else {
        "Install"@
    }
}

/// The positions of the step indicator.
pub const INDICATOR_LEN: usize = 7;

/// The step indicator's labels and pages, in order.
pub fn indicator() -> (r: Vec<(&'static str, Step)>)
    ensures
        r@.len() == INDICATOR_LEN,
        forall|i: int| 0 <= i < INDICATOR_LEN ==> (#[trigger] r@[i]).0@ == indicator_label(i) && r@[i].1 == indicator_step(i),
{
    let mut r: Vec<(&'static str, Step)> = Vec::new();
    r.push(("Welcome", Step::Welcome));
    r.push(("Disk", Step::SelectDisk));
    r.push(("Display", Step::Display));
    r.push(("Keyboard", Step::Keyboard));
    r.push(("Wi-Fi", Step::Network));
    r.push(("Confirm", Step::Confirm));
    r.push(("Install", Step::Installing));
    r
}

/// Where the current page stands in the step indicator.
pub fn indicator_position(current: Step) -> (i: usize)
    ensures
        i == indicator_position_of(current),
        i < INDICATOR_LEN,
{
    match current {
        Step::Welcome => 0,
        Step::SelectDisk => 1,
        Step::Display => 2,
        Step::Keyboard => 3,
        Step::Network => 4,
        Step::Confirm => 5,
        _ => 6,
    }
}

/// How a position of the step indicator is marked.
#[derive(Clone, Copy, Debug, PartialEq, Eq, Structural)]
pub enum StepMark {
    /// The current page.
    Active,
    /// A page already passed.
    Passed,
    /// A page still ahead.
    Ahead,
}

/// The mark of position `i` of the step indicator while `current` is shown.
pub fn indicator_mark(current: Step, i: usize) -> (m: StepMark)
    ensures
        m == if i == indicator_position_of(current) {
            StepMark::Active
        } else if i < indicator_position_of(current) {
            StepMark::Passed
        } else {
            StepMark::Ahead
        },
{
    let a = indicator_position(current);
    if i == a {
        StepMark::Active
    } else if i < a {
        StepMark::Passed
    } else {
        StepMark::Ahead
    }
}

/// The glyph shown for a signal strength: high from 67 to 100, medium from
/// 34 to 66, low from 1 to 33, none otherwise.
pub open spec fn signal_glyph(signal: u8) -> Seq<char> {
    if 67 <= signal <= 100 {
        seq!['\u{E4EA}']
    } else if 34 <= signal <= 66 {
        seq!['\u{E4EE}']
    } else if 1 <= signal <= 33 {
        seq!['\u{E4EC}']
    } else {
        seq!['\u{E4F0}']
    }
}

/// The icon shown for a signal strength.
pub fn signal_icon(signal: u8) -> (g: &'static str)
    ensures
        g@ == signal_glyph(signal),
{
    if 67 <= signal && signal <= 100 {
        glyph_wifi_high()
    } else if 34 <= signal && signal <= 66 {
        glyph_wifi_medium()
    } else if 1 <= signal && signal <= 33 {
        glyph_wifi_low()
    } else {
        glyph_wifi_none()
    }
}


/// Moving the focus forward and then back returns it where it was, and the
/// focus always stays on an item.
pub proof fn lemma_cycle_back_and_forth(idx: int, len: int)
    requires
        0 <= idx < len,
    ensures
        0 <= (clamped_focus(idx, len) + 1) % len < len,
        (clamped_focus((clamped_focus(idx, len) + 1) % len, len) - 1) % len == idx,
{
    let f = (idx + 1) % len;
    if idx + 1 < len {
        vstd::arithmetic::div_mod::lemma_small_mod((idx + 1) as nat, len as nat);
        vstd::arithmetic::div_mod::lemma_small_mod(idx as nat, len as nat);
    } else {
        vstd::arithmetic::div_mod::lemma_mod_self_0(len);
        assert(f == 0);
        vstd::arithmetic::div_mod::lemma_mod_add_multiples_vanish(-1, len);
        vstd::arithmetic::div_mod::lemma_small_mod((len - 1) as nat, len as nat);
    }
}

} // verus!

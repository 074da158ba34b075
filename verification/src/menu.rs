//! The terminal menu: screens (main, encode, decode, lossy settings), the
//! selected item, and what a key press does.
use vstd::prelude::*;
use crate::dither::Radius;

verus! {

/// The menu's state. Screens: 0 main, 1 encode, 2 decode, 3 lossy settings.
#[derive(Clone, Copy, Debug, PartialEq, Eq, Structural)]
pub struct MenuState {
    pub mode: u8,
    pub sel: u8,
    pub selected_lossy: bool,
    pub base_radius: bool,
    pub diagonal_pixels: bool,
    pub extra_radius: bool,
    pub extra_extra_radius: bool,
}

/// What the program does after a key press, besides redrawing the menu.
#[derive(Clone, Copy, Debug, PartialEq, Eq, Structural)]
pub enum MenuAction {
    /// Nothing but redraw.
    Redraw,
    /// Leave the program.
    Quit,
    /// Ask for the input file.
    PickFile,
    /// Ask for the output file, encode the chosen image, show it, leave.
    Convert,
    /// Ask for the output file, decode the chosen file, show it, leave.
    Decode,
}

/// The state of a fresh menu.
pub open spec fn initial_spec() -> MenuState {
    MenuState {
        mode: 0,
        sel: 0,
        selected_lossy: false,
        base_radius: false,
        diagonal_pixels: false,
        extra_radius: false,
        extra_extra_radius: false,
    }
}

pub open spec fn with_sel(s: MenuState, sel: u8) -> MenuState {
    MenuState { sel, ..s }
}

pub open spec fn with_mode_sel(s: MenuState, mode: u8, sel: u8) -> MenuState {
    MenuState { mode, sel, ..s }
}

pub open spec fn left_of(sel: u8) -> u8 {
    if sel > 0 { (sel - 1) as u8 } else { 0 }
}

pub open spec fn right_of(sel: u8, last: u8) -> u8 {
    if sel < last { (sel + 1) as u8 } else { last }
}

/// The effect of a key press (left, right or enter); the cases are tested
/// in this order, the first that holds decides.
pub open spec fn menu_step_spec(s: MenuState, left: bool, right: bool, enter: bool) -> (MenuState, MenuAction) {
    let (m, sel) = (s.mode, s.sel);
    if m == 0 && left {
        (with_sel(s, left_of(sel)), MenuAction::Redraw)
    } else if m == 0 && right {
        (with_sel(s, right_of(sel, 2)), MenuAction::Redraw)
    } else if m == 2 && left {
        (with_sel(s, left_of(sel)), MenuAction::Redraw)
    } else if m == 2 && right {
        (with_sel(s, right_of(sel, 2)), MenuAction::Redraw)
    } else if m == 1 && left {
        if !s.selected_lossy && sel == 3 {
            (with_sel(s, 1), MenuAction::Redraw)
        } else {
            (with_sel(s, left_of(sel)), MenuAction::Redraw)
        }
    } else if m == 1 && right {
        if !s.selected_lossy && sel == 1 {
            (with_sel(s, 3), MenuAction::Redraw)
        } else {
            (with_sel(s, right_of(sel, 4)), MenuAction::Redraw)
        }
    } else if m == 3 && left {
        (with_sel(s, left_of(sel)), MenuAction::Redraw)
    } else if m == 3 && right {
        (with_sel(s, right_of(sel, 4)), MenuAction::Redraw)
    } else if m == 3 && enter {
        if sel == 0 {
            (MenuState { mode: 1, ..s }, MenuAction::Redraw)
        } else if sel == 1 {
            (MenuState { base_radius: !s.base_radius, ..s }, MenuAction::Redraw)
        } else if sel == 2 {
            (MenuState { diagonal_pixels: !s.diagonal_pixels, ..s }, MenuAction::Redraw)
        } else if sel == 3 {
            (MenuState { extra_radius: !s.extra_radius, ..s }, MenuAction::Redraw)
        } else if sel == 4 {
            (MenuState { extra_extra_radius: !s.extra_extra_radius, ..s }, MenuAction::Redraw)
        } else {
            (s, MenuAction::Redraw)
        }
    } else if m == 1 && enter && sel == 4 {
        (with_mode_sel(s, 0, 0), MenuAction::Redraw)
    } else if m == 1 && enter && sel == 2 {
        (with_mode_sel(s, 3, 1), MenuAction::Redraw)
    } else if m == 0 && enter {
        if sel == 1 {
            (with_mode_sel(s, 2, 0), MenuAction::Redraw)
        } else if sel == 0 {
            (with_mode_sel(s, 1, 0), MenuAction::Redraw)
        } else if sel == 2 {
            (s, MenuAction::Quit)
        } else {
            (s, MenuAction::Redraw)
        }
    } else if m == 1 && enter && sel == 1 {
        (MenuState { selected_lossy: !s.selected_lossy, ..s }, MenuAction::Redraw)
    } else if (m == 1 || m == 2) && enter && sel == 0 {
        (s, MenuAction::PickFile)
    } else if m == 1 && enter && sel == 3 {
        (s, MenuAction::Convert)
    } else if m == 2 && enter && sel == 1 {
        (s, MenuAction::Decode)
    } else if m == 2 && enter && sel == 2 {
        (with_mode_sel(s, 0, 0), MenuAction::Redraw)
    } else {
        (s, MenuAction::Redraw)
    }
}

/// A fresh menu: the main screen, first item, lossless, no radius.
pub fn initial_menu() -> (res: MenuState)
    ensures
        res == initial_spec(),
{
    MenuState {
        mode: 0,
        sel: 0,
        selected_lossy: false,
        base_radius: false,
        diagonal_pixels: false,
        extra_radius: false,
        extra_extra_radius: false,
    }
}

fn left_of_exec(sel: u8) -> (res: u8)
    ensures
        res == left_of(sel),
{
    if sel > 0 { sel - 1 } else { 0 }
}

fn right_of_exec(sel: u8, last: u8) -> (res: u8)
    ensures
        res == right_of(sel, last),
{
    if sel < last { sel + 1 } else { last }
}

/// The effect of a key press on the menu (see `menu_step_spec`).
pub fn menu_step(s: MenuState, left: bool, right: bool, enter: bool) -> (res: (MenuState, MenuAction))
    ensures
        res == menu_step_spec(s, left, right, enter),
{
    let m = s.mode;
    let sel = s.sel;
    if m == 0 && left {
        (MenuState { sel: left_of_exec(sel), ..s }, MenuAction::Redraw)
    } else if m == 0 && right {
        (MenuState { sel: right_of_exec(sel, 2), ..s }, MenuAction::Redraw)
    } else if m == 2 && left {
        (MenuState { sel: left_of_exec(sel), ..s }, MenuAction::Redraw)
    } else if m == 2 && right {
        (MenuState { sel: right_of_exec(sel, 2), ..s }, MenuAction::Redraw)
    } else if m == 1 && left {
        if !s.selected_lossy && sel == 3 {
            (MenuState { sel: 1, ..s }, MenuAction::Redraw)
        } else {
            (MenuState { sel: left_of_exec(sel), ..s }, MenuAction::Redraw)
        }
    } else if m == 1 && right {
        if !s.selected_lossy && sel == 1 {
            (MenuState { sel: 3, ..s }, MenuAction::Redraw)
        } else {
            (MenuState { sel: right_of_exec(sel, 4), ..s }, MenuAction::Redraw)
        }
    } else if m == 3 && left {
        (MenuState { sel: left_of_exec(sel), ..s }, MenuAction::Redraw)
    } else if m == 3 && right {
        (MenuState { sel: right_of_exec(sel, 4), ..s }, MenuAction::Redraw)
    } else if m == 3 && enter {
        if sel == 0 {
            (MenuState { mode: 1, ..s }, MenuAction::Redraw)
        } else if sel == 1 {
            (MenuState { base_radius: !s.base_radius, ..s }, MenuAction::Redraw)
        } else if sel == 2 {
            (MenuState { diagonal_pixels: !s.diagonal_pixels, ..s }, MenuAction::Redraw)
        } else if sel == 3 {
            (MenuState { extra_radius: !s.extra_radius, ..s }, MenuAction::Redraw)
        } else if sel == 4 {
            (MenuState { extra_extra_radius: !s.extra_extra_radius, ..s }, MenuAction::Redraw)
        } else {
            (s, MenuAction::Redraw)
        }
    } else if m == 1 && enter && sel == 4 {
        (MenuState { mode: 0, sel: 0, ..s }, MenuAction::Redraw)
    } else if m == 1 && enter && sel == 2 {
        (MenuState { mode: 3, sel: 1, ..s }, MenuAction::Redraw)
    } else if m == 0 && enter {
        if sel == 1 {
            (MenuState { mode: 2, sel: 0, ..s }, MenuAction::Redraw)
        } else if sel == 0 {
            (MenuState { mode: 1, sel: 0, ..s }, MenuAction::Redraw)
        } else if sel == 2 {
            (s, MenuAction::Quit)
        } else {
            (s, MenuAction::Redraw)
        }
    } else if m == 1 && enter && sel == 1 {
        (MenuState { selected_lossy: !s.selected_lossy, ..s }, MenuAction::Redraw)
    } else if (m == 1 || m == 2) && enter && sel == 0 {
        (s, MenuAction::PickFile)
    } else if m == 1 && enter && sel == 3 {
        (s, MenuAction::Convert)
    } else if m == 2 && enter && sel == 1 {
        (s, MenuAction::Decode)
    } else if m == 2 && enter && sel == 2 {
        (MenuState { mode: 0, sel: 0, ..s }, MenuAction::Redraw)
    } else {
        (s, MenuAction::Redraw)
    }
}

/// The states the menu can be in: a known screen, an item of it, and the
/// settings item of the encode screen only where lossy is chosen.
pub open spec fn menu_valid(s: MenuState) -> bool {
    &&& s.mode <= 3
    &&& (s.mode == 0 || s.mode == 2) ==> s.sel <= 2
    &&& (s.mode == 1 || s.mode == 3) ==> s.sel <= 4
    &&& (s.mode == 1 && !s.selected_lossy) ==> s.sel != 2
}

/// A fresh menu is in a valid state, and every key press keeps it valid:
/// the selection never leaves the items of its screen, and the lossy
/// settings cannot be selected while lossless is chosen.
pub proof fn law_menu_valid(s: MenuState, left: bool, right: bool, enter: bool)
    requires
        menu_valid(s),
    ensures
        menu_valid(initial_spec()),
        menu_valid(menu_step_spec(s, left, right, enter).0),
{
}

/// On the lossy settings screen, whose items are drawn in the order back,
/// base radius, diagonal pixels, extra radius, extra-extra radius, Enter on
/// item 1 to 4 flips exactly the option drawn there and keeps the screen,
/// the selection and the other options; Enter on item 0 goes back to the
/// encode screen with every option kept.
pub proof fn law_settings_enter(s: MenuState)
    requires
        s.mode == 3,
    ensures
        ({
            let (t, a) = menu_step_spec(s, false, false, true);
            &&& a == MenuAction::Redraw
            &&& t.sel == s.sel
            &&& t.selected_lossy == s.selected_lossy
            &&& t.mode == (if s.sel == 0 { 1u8 } else { 3u8 })
            &&& t.base_radius == (s.base_radius != (s.sel == 1))
            &&& t.diagonal_pixels == (s.diagonal_pixels != (s.sel == 2))
            &&& t.extra_radius == (s.extra_radius != (s.sel == 3))
            &&& t.extra_extra_radius == (s.extra_extra_radius != (s.sel == 4))
        }),
{
}

/// The last item of a screen: the main and decode screens have three items,
/// the encode and settings screens five.
pub open spec fn last_item(mode: u8) -> int {
    if mode == 0 || mode == 2 { 2 } else { 4 }
}

/// Left and right move the selection one item, stopping at the first and
/// the last item; on the encode screen with lossless chosen they skip the
/// settings item (2). Nothing else changes.
pub proof fn law_menu_arrows(s: MenuState, left: bool, right: bool)
    requires
        s.mode <= 3,
        left || right,
    ensures
        ({
            let (t, a) = menu_step_spec(s, left, right, false);
            let skip = s.mode == 1 && !s.selected_lossy;
            &&& a == MenuAction::Redraw
            &&& t == MenuState { sel: t.sel, ..s }
            &&& left ==> t.sel == (if skip && s.sel == 3 {
                1
            } else if s.sel == 0 {
                0
            } else {
                s.sel - 1
            })
            &&& !left ==> t.sel == (if skip && s.sel == 1 {
                3
            } else if s.sel >= last_item(s.mode) {
                last_item(s.mode)
            } else {
                s.sel + 1
            })
        }),
{
}

/// Enter on the main screen: item 0 opens the encode screen, item 1 the
/// decode screen (each at its first item), item 2 quits; the options are
/// kept.
pub proof fn law_main_enter(s: MenuState)
    requires
        s.mode == 0,
        s.sel <= 2,
    ensures
        ({
            let (t, a) = menu_step_spec(s, false, false, true);
            &&& s.sel == 0 ==> t == MenuState { mode: 1, sel: 0, ..s } && a == MenuAction::Redraw
            &&& s.sel == 1 ==> t == MenuState { mode: 2, sel: 0, ..s } && a == MenuAction::Redraw
            &&& s.sel == 2 ==> t == s && a == MenuAction::Quit
        }),
{
}

/// Enter on the encode screen: item 0 asks for the image, item 1 switches
/// between lossless and lossy, item 2 opens the lossy settings at their
/// first option, item 3 encodes, item 4 goes back to the main screen.
pub proof fn law_encode_enter(s: MenuState)
    requires
        s.mode == 1,
        s.sel <= 4,
    ensures
        ({
            let (t, a) = menu_step_spec(s, false, false, true);
            &&& s.sel == 0 ==> t == s && a == MenuAction::PickFile
            &&& s.sel == 1 ==> t == MenuState { selected_lossy: !s.selected_lossy, ..s } && a
                == MenuAction::Redraw
            &&& s.sel == 2 ==> t == MenuState { mode: 3, sel: 1, ..s } && a == MenuAction::Redraw
            &&& s.sel == 3 ==> t == s && a == MenuAction::Convert
            &&& s.sel == 4 ==> t == MenuState { mode: 0, sel: 0, ..s } && a == MenuAction::Redraw
        }),
{
}

/// Enter on the decode screen: item 0 asks for the file, item 1 decodes,
/// item 2 goes back to the main screen.
pub proof fn law_decode_enter(s: MenuState)
    requires
        s.mode == 2,
        s.sel <= 2,
    ensures
        ({
            let (t, a) = menu_step_spec(s, false, false, true);
            &&& s.sel == 0 ==> t == s && a == MenuAction::PickFile
            &&& s.sel == 1 ==> t == s && a == MenuAction::Decode
            &&& s.sel == 2 ==> t == MenuState { mode: 0, sel: 0, ..s } && a == MenuAction::Redraw
        }),
{
}

/// The neighbour option `which` of the window: 0 base, 1 diagonal, 2 extra,
/// 3 extra-extra.
pub open spec fn flag_of(r: Radius, which: u8) -> bool {
    if which == 0 {
        r.base_radius
    } else if which == 1 {
        r.diagonal_pixels
    } else if which == 2 {
        r.extra_radius
    } else {
        r.extra_extra_radius
    }
}

/// The options with option `which` set to `v`.
pub open spec fn with_flag(r: Radius, which: u8, v: bool) -> Radius {
    if which == 0 {
        Radius { base_radius: v, ..r }
    } else if which == 1 {
        Radius { diagonal_pixels: v, ..r }
    } else if which == 2 {
        Radius { extra_radius: v, ..r }
    } else {
        Radius { extra_extra_radius: v, ..r }
    }
}

/// Some option is set.
pub open spec fn any_flag(r: Radius) -> bool {
    r.base_radius || r.diagonal_pixels || r.extra_radius || r.extra_extra_radius
}

/// Some option other than `which` is set.
pub open spec fn others_set(r: Radius, which: u8) -> bool {
    any_flag(with_flag(r, which, false))
}

/// The window's checkbox of option `which` can be clicked only while
/// another option is set.
pub fn checkbox_enabled(r: Radius, which: u8) -> (res: bool)
    requires
        which < 4,
    ensures
        res == others_set(r, which),
{
    if which == 0 {
        r.diagonal_pixels || r.extra_radius || r.extra_extra_radius
    } else if which == 1 {
        r.base_radius || r.extra_radius || r.extra_extra_radius
    } else if which == 2 {
        r.base_radius || r.diagonal_pixels || r.extra_extra_radius
    } else {
        r.base_radius || r.diagonal_pixels || r.extra_radius
    }
}

/// The options after a click on the checkbox of option `which`: flipped
/// where the checkbox is enabled, unchanged where it is not.
pub open spec fn click(r: Radius, which: u8) -> Radius {
    if others_set(r, which) {
        with_flag(r, which, !flag_of(r, which))
    } else {
        r
    }
}

/// The window's neighbour options start with one set, and no click clears
/// the last one set.
pub proof fn law_window_keeps_a_flag(r: Radius, which: u8)
    requires
        which < 4,
    ensures
        any_flag(Radius { base_radius: true, diagonal_pixels: false, extra_radius: false, extra_extra_radius: false }),
        any_flag(r) ==> any_flag(click(r, which)),
{
}

/// The window's start button is enabled once a file is chosen.
pub fn start_enabled(path: &str) -> (res: bool)
    ensures
        res == (path@.len() > 0),
{
    path.unicode_len() > 0
}

} // verus!

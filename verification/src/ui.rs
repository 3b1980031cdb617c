//! Geometry and input handling of the picker and settings windows: colours,
//! text truncation, layout, hit tests, and what a key or click does.
use vstd::prelude::*;

use crate::text::{chars_of, push_char, string_of_range};

verus! {

/// A COLORREF (0x00BBGGRR) from its three channels.
pub fn rgb(r: u8, g: u8, b: u8) -> (c: u32)
    ensures
        c == r + g * 256 + b * 65536,
{
    let c = (r as u32) | ((g as u32) << 8) | ((b as u32) << 16);
    assert(c == r + g * 256 + b * 65536) by (bit_vector)
        requires
            c == (r as u32) | ((g as u32) << 8) | ((b as u32) << 16),
    ;
    c
}

/// `s` cut to at most `max` characters: unchanged when it fits, else its
/// first `max - 1` characters (none when `max` is 0) followed by `…`.
pub open spec fn truncated(s: Seq<char>, max: nat) -> Seq<char> {
    if s.len() <= max {
        s
    } else {
        s.take(if max >= 1 { max - 1 } else { 0 }).push('…')
    }
}

/// Cuts `s` to at most `max` characters, marking a cut with `…`.
pub fn truncate(s: &str, max: usize) -> (r: String)
    ensures
        r@ == truncated(s@, max as nat),
{
    let v = chars_of(s);
    if v.len() <= max {
        string_of_range(&v, 0, v.len())
    } else {
        let keep = if max >= 1 { max - 1 } else { 0 };
        let mut r = string_of_range(&v, 0, keep);
        push_char(&mut r, '…');
        proof {
            assert(v@.subrange(0, v@.len() as int) =~= v@);
            assert(v@.subrange(0, keep as int) =~= v@.take(keep as int));
        }
        r
    }
}

/// A rectangle in client coordinates (left, top, right, bottom).
#[derive(Clone, Copy, Debug, PartialEq, Eq, Structural)]
pub struct Rect {
    pub left: i32,
    pub top: i32,
    pub right: i32,
    pub bottom: i32,
}

/// A rectangle from its four edges.
pub fn rect(left: i32, top: i32, right: i32, bottom: i32) -> (r: Rect)
    ensures
        r == (Rect { left, top, right, bottom }),
{
    Rect { left, top, right, bottom }
}

/// Whether the point lies in the rectangle, edges included.
pub open spec fn contains_point(r: Rect, x: i32, y: i32) -> bool {
    r.left <= x <= r.right && r.top <= y <= r.bottom
}

/// Whether the point lies in the rectangle, edges included.
pub fn in_rect(r: &Rect, x: i32, y: i32) -> (b: bool)
    ensures
        b == contains_point(*r, x, y),
{
    x >= r.left && x <= r.right && y >= r.top && y <= r.bottom
}

/// The index of the first rectangle that holds the point, if any.
pub open spec fn first_hit(rects: Seq<Rect>, x: i32, y: i32) -> Option<int>
    decreases rects.len(),
{
    if rects.len() == 0 {
        None
    } else if contains_point(rects[0], x, y) {
        Some(0)
    } else {
        match first_hit(rects.drop_first(), x, y) {
            Some(i) => Some(i + 1),
            None => None,
        }
    }
}

proof fn lemma_first_hit(rects: Seq<Rect>, x: i32, y: i32, k: int)
    requires
        0 <= k <= rects.len(),
        forall|m: int| 0 <= m < k ==> !contains_point(#[trigger] rects[m], x, y),
    ensures
        k < rects.len() && contains_point(rects[k], x, y) ==> first_hit(rects, x, y) == Some(k),
        k == rects.len() ==> first_hit(rects, x, y) is None,
    decreases k,
{
    if k > 0 {
        lemma_first_hit(rects.drop_first(), x, y, k - 1);
    } else if rects.len() > 0 {
    }
}

/// The first of `rects` that holds the point.
pub fn hit_test(rects: &Vec<Rect>, x: i32, y: i32) -> (r: Option<usize>)
    ensures
        match r {
            Some(i) => first_hit(rects@, x, y) == Some(i as int),
            None => first_hit(rects@, x, y) is None,
        },
{
    let mut k: usize = 0;
    while k < rects.len()
        invariant
            k <= rects@.len(),
            forall|m: int| 0 <= m < k ==> !contains_point(#[trigger] rects@[m], x, y),
        decreases rects@.len() - k,
    {
        if in_rect(&rects[k], x, y) {
            proof {
                lemma_first_hit(rects@, x, y, k as int);
            }
            return Some(k);
        }
        k = k + 1;
    }
    proof {
        lemma_first_hit(rects@, x, y, k as int);
    }
    None
}

/// The offset that centres a window of `size` on a screen of `screen`
/// pixels, never negative.
pub fn center_offset(screen: i32, size: i32) -> (r: i32)
    requires
        i32::MIN <= screen - size <= i32::MAX,
    ensures
        r == if screen - size > 0 {
            (screen - size) / 2
        } else {
            0
        },
{
    let d = screen - size;
    if d > 0 {
        d / 2
    } else {
        0
    }
}


/// Padding around the contents of both windows.
pub const PAD: i32 = 16;

/// Client width of the picker window.
pub const MENU_WIDTH: i32 = 380;

/// Height of one picker row.
pub const MENU_ROW_H: i32 = 46;

/// Gap between picker rows.
pub const MENU_GAP: i32 = 8;

/// Where the rows of the picker start: below the title (30 px), subtitle
/// (24 px) and info lines (19 px each plus 8), each only when present.
pub open spec fn menu_items_top(has_title: bool, has_subtitle: bool, info_lines: nat) -> int {
    PAD + (if has_title { 30int } else { 0 }) + (if has_subtitle { 24int } else { 0 }) + (if info_lines > 0 {
        info_lines * 19 + 8
    } else {
        0
    }) + 6
}

/// The client height of the picker window.
pub open spec fn menu_client_height(
    has_title: bool,
    has_subtitle: bool,
    info_lines: nat,
    items: nat,
    has_footer: bool,
) -> int {
    menu_items_top(has_title, has_subtitle, info_lines) + (if items > 0 {
        items * MENU_ROW_H + (items - 1) * MENU_GAP
    } else {
        0
    }) + 10 + (if has_footer { 24int } else { 0 }) + PAD
}

/// The rectangle of picker row `i`, whose rows start at `top`.
pub open spec fn menu_row(top: int, i: int) -> Rect {
    Rect {
        left: PAD,
        top: (top + i * (MENU_ROW_H + MENU_GAP)) as i32,
        right: (MENU_WIDTH - PAD) as i32,
        bottom: (top + i * (MENU_ROW_H + MENU_GAP) + MENU_ROW_H) as i32,
    }
}

/// The layout of the picker window.
pub struct MenuLayout {
    pub client_height: i32,
    pub items: Vec<Rect>,
}

/// Lays out the picker: its client height and the rectangle of each row.
pub fn menu_layout(
    has_title: bool,
    has_subtitle: bool,
    info_lines: usize,
    items: usize,
    has_footer: bool,
) -> (l: MenuLayout)
    requires
        menu_client_height(has_title, has_subtitle, info_lines as nat, items as nat, has_footer) <= i32::MAX,
    ensures
        l.client_height == menu_client_height(has_title, has_subtitle, info_lines as nat, items as nat, has_footer),
        l.items@.len() == items,
        forall|i: int| 0 <= i < items ==> #[trigger] l.items@[i] == menu_row(
            menu_items_top(has_title, has_subtitle, info_lines as nat),
            i,
        ),
{
    assert(info_lines * 19 + 8 <= 0x7fff_ffff && items * 46 <= 0x7fff_ffff) by (nonlinear_arith)
        requires
            info_lines > 0 ==> 16 + info_lines * 19 + 8 + 6 + 10 + 16 <= 0x7fff_ffff,
            items > 0 ==> 16 + 6 + items * 46 + (items - 1) * 8 + 10 + 16 <= 0x7fff_ffff,
    ;
    let title_h: i32 = if has_title { 30 } else { 0 };
    let sub_h: i32 = if has_subtitle { 24 } else { 0 };
    let info_h: i32 = if info_lines > 0 { info_lines as i32 * 19 + 8 } else { 0 };
    let items_top = PAD + title_h + sub_h + info_h + 6;
    let n = items as i32;
    let items_h: i32 = if n > 0 { n * MENU_ROW_H + (n - 1) * MENU_GAP } else { 0 };
    let footer_h: i32 = if has_footer { 24 } else { 0 };
    let client_height = items_top + items_h + 10 + footer_h + PAD;
    let mut rects: Vec<Rect> = Vec::new();
    let mut i: i32 = 0;
    while i < n
        invariant
            0 <= i <= n,
            n == items,
            items_top == menu_items_top(has_title, has_subtitle, info_lines as nat),
            0 <= items_top,
            n > 0 ==> items_top + n * 46 + (n - 1) * 8 <= 0x7fff_ffff,
            rects@.len() == i,
            forall|k: int| 0 <= k < i ==> #[trigger] rects@[k] == menu_row(items_top as int, k),
        decreases n - i,
    {
        assert(items_top + i * 54 + 46 <= 0x7fff_ffff) by (nonlinear_arith)
            requires
                0 <= i < n,
                items_top + n * 46 + (n - 1) * 8 <= 0x7fff_ffff,
        ;
        let top = items_top + i * (MENU_ROW_H + MENU_GAP);
        rects.push(Rect { left: PAD, top, right: MENU_WIDTH - PAD, bottom: top + MENU_ROW_H });
        i = i + 1;
    }
    MenuLayout { client_height, items: rects }
}

/// The Escape key.
pub const VK_ESCAPE: i32 = 0x1B;

/// The Enter key.
pub const VK_RETURN: i32 = 0x0D;

/// The Backspace key.
pub const VK_BACK: i32 = 0x08;

/// The Delete key.
pub const VK_DELETE: i32 = 0x2E;

/// What a key press in the picker does.
#[derive(Clone, Copy, Debug, PartialEq, Eq, Structural)]
pub enum MenuKey {
    /// Close the window without a choice.
    Close,
    /// Choose the row with this index.
    Choose(usize),
    /// Nothing.
    Ignore,
}

/// The row that a digit key `1`..`9` (top row or keypad) picks.
pub open spec fn digit_row(vk: i32) -> Option<int> {
    if 0x31 <= vk <= 0x39 {
        Some(vk - 0x31)
    } else if 0x61 <= vk <= 0x69 {
        Some(vk - 0x61)
    } else {
        None
    }
}

/// Digit key `d` (1..9), on the top row or the keypad, picks row `d - 1`;
/// no other key picks a row.
pub proof fn lemma_digit_row(vk: i32)
    ensures
        forall|d: int| 1 <= d <= 9 ==> #[trigger] digit_row((0x30 + d) as i32) == Some(d - 1) && digit_row(
            (0x60 + d) as i32,
        ) == Some(d - 1),
        !(0x31 <= vk <= 0x39) && !(0x61 <= vk <= 0x69) ==> digit_row(vk) is None,
{
}

/// What a key press in the picker does: Escape closes it; Enter picks the
/// default row, when there is one; `1`..`9` pick that row, when it exists.
pub fn menu_key(vk: i32, default: Option<usize>, n_items: usize) -> (k: MenuKey)
    ensures
        k == if vk == VK_ESCAPE {
            MenuKey::Close
        } else if vk == VK_RETURN {
            match default {
                Some(i) => MenuKey::Choose(i),
                None => MenuKey::Ignore,
            }
        } else {
            match digit_row(vk) {
                Some(i) => if i < n_items {
                    MenuKey::Choose(i as usize)
                } else {
                    MenuKey::Ignore
                },
                None => MenuKey::Ignore,
            }
        },
{
    if vk == VK_ESCAPE {
        MenuKey::Close
    } else if vk == VK_RETURN {
        match default {
            Some(i) => MenuKey::Choose(i),
            None => MenuKey::Ignore,
        }
    } else {
        let idx: Option<usize> = if 0x31 <= vk && vk <= 0x39 {
            Some((vk - 0x31) as usize)
        } else if 0x61 <= vk && vk <= 0x69 {
            Some((vk - 0x61) as usize)
        } else {
            None
        };
        match idx {
            Some(i) => if i < n_items {
                MenuKey::Choose(i)
            } else {
                MenuKey::Ignore
            },
            None => MenuKey::Ignore,
        }
    }
}

} // verus!

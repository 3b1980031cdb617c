//! The settings window: its layout, what a click or key does to the user's
//! order, favourite and letters, and the glyphs it shows.
use vstd::prelude::*;

use crate::browsers::{browser_id, Browser};
use crate::text::opt_view;
use crate::letters::{
    lemma_assign_keeps_distinct, lemma_remove_keeps_distinct, letters_distinct, without_letter, LetterMap,
};
use crate::ui::{contains_point, in_rect, Rect, PAD, VK_BACK, VK_DELETE, VK_ESCAPE};

verus! {

/// Client width of the settings window.
pub const SETTINGS_WIDTH: i32 = 500;

/// Height of one browser row.
pub const ROW_H: i32 = 40;

/// Gap between rows and between a row's buttons.
pub const GAP: i32 = 6;

/// Size of a row's square buttons.
pub const BSZ: i32 = 30;

/// Height of an action button.
pub const ACTION_H: i32 = 40;

/// Gap between action buttons.
pub const ACTION_GAP: i32 = 6;

/// Where the browser rows start: below the title (30 px) and the hint line
/// (22 px), plus 10.
pub const ROWS_TOP: i32 = 78;

/// The buttons of one browser row, right to left: move down, move up,
/// favourite, letter.
#[derive(Clone, Copy, Debug, PartialEq, Eq, Structural)]
pub struct RowRects {
    pub letter: Rect,
    pub star: Rect,
    pub up: Rect,
    pub down: Rect,
}

/// The buttons of the row whose top edge is `top`.
pub open spec fn row_rects(top: int) -> RowRects {
    let by = top + (ROW_H - BSZ) / 2;
    let right = SETTINGS_WIDTH - PAD;
    let down_left = right - BSZ;
    let up_left = down_left - GAP - BSZ;
    let star_left = up_left - GAP - BSZ;
    let letter_left = star_left - GAP - BSZ;
    RowRects {
        letter: Rect { left: letter_left as i32, top: by as i32, right: (star_left - GAP) as i32, bottom: (by + BSZ) as i32 },
        star: Rect { left: star_left as i32, top: by as i32, right: (up_left - GAP) as i32, bottom: (by + BSZ) as i32 },
        up: Rect { left: up_left as i32, top: by as i32, right: (down_left - GAP) as i32, bottom: (by + BSZ) as i32 },
        down: Rect { left: down_left as i32, top: by as i32, right: right as i32, bottom: (by + BSZ) as i32 },
    }
}

/// The top edge of browser row `i`.
pub open spec fn row_top(i: int) -> int {
    ROWS_TOP + i * (ROW_H + GAP)
}

/// The top edge of the first action button.
pub open spec fn spec_actions_top(n: nat) -> int {
    ROWS_TOP + (if n > 0 {
        n * ROW_H + (n - 1) * GAP + 16
    } else {
        0
    })
}

/// The client height of the settings window for `n` browsers: the rows,
/// the three action buttons, the status line (10 px above, 22 px high) and
/// the padding.
pub open spec fn settings_client_height(n: nat) -> int {
    spec_actions_top(n) + 3 * ACTION_H + 2 * ACTION_GAP + 10 + 22 + PAD
}

/// The layout of the settings window.
pub struct SettingsLayout {
    pub client_height: i32,
    pub rows: Vec<RowRects>,
    pub actions: Vec<Rect>,
}

/// Lays out the settings window for `n` browsers: a row of buttons per
/// browser, three action buttons below them, and the status line.
pub fn settings_layout(n: usize) -> (l: SettingsLayout)
    requires
        settings_client_height(n as nat) <= i32::MAX,
    ensures
        l.rows@.len() == n,
        forall|i: int| 0 <= i < n ==> #[trigger] l.rows@[i] == row_rects(row_top(i)),
        l.actions@.len() == 3,
        forall|k: int| 0 <= k < 3 ==> #[trigger] l.actions@[k] == (Rect {
            left: PAD,
            top: (spec_actions_top(n as nat) + k * (ACTION_H + ACTION_GAP)) as i32,
            right: (SETTINGS_WIDTH - PAD) as i32,
            bottom: (spec_actions_top(n as nat) + k * (ACTION_H + ACTION_GAP) + ACTION_H) as i32,
        }),
        l.client_height == settings_client_height(n as nat),
{
    assert(n <= 0x7fff_ffff) by (nonlinear_arith)
        requires
            n > 0 ==> 78 + n * 40 + (n - 1) * 6 + 16 + 3 * 40 + 2 * 6 + 10 + 22 + 16 <= 0x7fff_ffff,
    ;
    let m = n as i32;
    let rows_block: i32 = if m > 0 { m * ROW_H + (m - 1) * GAP } else { 0 };
    let actions_top: i32 = ROWS_TOP + rows_block + if m > 0 { 16 } else { 0 };
    let action_block = 3 * ACTION_H + 2 * ACTION_GAP;
    let status_top = actions_top + action_block + 10;
    let client_height = status_top + 22 + PAD;
    let mut rows: Vec<RowRects> = Vec::new();
    let mut i: i32 = 0;
    while i < m
        invariant
            0 <= i <= m,
            m == n,
            m > 0 ==> 78 + m * 40 + (m - 1) * 6 <= 0x7fff_ffff,
            rows@.len() == i,
            forall|k: int| 0 <= k < i ==> #[trigger] rows@[k] == row_rects(row_top(k)),
        decreases m - i,
    {
        assert(78 + i * 46 + 40 <= 0x7fff_ffff) by (nonlinear_arith)
            requires
                0 <= i < m,
                78 + m * 40 + (m - 1) * 6 <= 0x7fff_ffff,
        ;
        let top = ROWS_TOP + i * (ROW_H + GAP);
        let by = top + (ROW_H - BSZ) / 2;
        let right = SETTINGS_WIDTH - PAD;
        let down = Rect { left: right - BSZ, top: by, right, bottom: by + BSZ };
        let up = Rect { left: down.left - GAP - BSZ, top: by, right: down.left - GAP, bottom: by + BSZ };
        let star = Rect { left: up.left - GAP - BSZ, top: by, right: up.left - GAP, bottom: by + BSZ };
        let letter = Rect { left: star.left - GAP - BSZ, top: by, right: star.left - GAP, bottom: by + BSZ };
        rows.push(RowRects { letter, star, up, down });
        i = i + 1;
    }
    let mut actions: Vec<Rect> = Vec::new();
    let mut k: i32 = 0;
    while k < 3
        invariant
            0 <= k <= 3,
            actions_top == spec_actions_top(n as nat),
            0 <= actions_top,
            actions_top + 3 * 40 + 2 * 6 <= 0x7fff_ffff,
            actions@.len() == k,
            forall|j: int| 0 <= j < k ==> #[trigger] actions@[j] == (Rect {
                left: PAD,
                top: (spec_actions_top(n as nat) + j * (ACTION_H + ACTION_GAP)) as i32,
                right: (SETTINGS_WIDTH - PAD) as i32,
                bottom: (spec_actions_top(n as nat) + j * (ACTION_H + ACTION_GAP) + ACTION_H) as i32,
            }),
        decreases 3 - k,
    {
        let top = actions_top + k * (ACTION_H + ACTION_GAP);
        actions.push(Rect { left: PAD, top, right: SETTINGS_WIDTH - PAD, bottom: top + ACTION_H });
        k = k + 1;
    }
    SettingsLayout { client_height, rows, actions }
}

/// A clickable part of the settings window.
#[derive(Clone, Copy, Debug, PartialEq, Eq, Structural)]
pub enum Region {
    Letter(usize),
    Star(usize),
    Up(usize),
    Down(usize),
    Action(usize),
}

/// The part of one row that holds the point: letter, favourite, up, down,
/// in that order.
pub open spec fn row_part(r: RowRects, i: usize, x: i32, y: i32) -> Option<Region> {
    if contains_point(r.letter, x, y) {
        Some(Region::Letter(i))
    } else if contains_point(r.star, x, y) {
        Some(Region::Star(i))
    } else if contains_point(r.up, x, y) {
        Some(Region::Up(i))
    } else if contains_point(r.down, x, y) {
        Some(Region::Down(i))
    } else {
        None
    }
}

/// The first row part that holds the point, rows from `from` on.
pub open spec fn rows_hit(rows: Seq<RowRects>, from: int, x: i32, y: i32) -> Option<Region>
    decreases rows.len() - from,
{
    if from < 0 || from >= rows.len() {
        None
    } else {
        match row_part(rows[from], from as usize, x, y) {
            Some(r) => Some(r),
            None => rows_hit(rows, from + 1, x, y),
        }
    }
}

/// The first action button that holds the point, buttons from `from` on.
pub open spec fn actions_hit(actions: Seq<Rect>, from: int, x: i32, y: i32) -> Option<Region>
    decreases actions.len() - from,
{
    if from < 0 || from >= actions.len() {
        None
    } else if contains_point(actions[from], x, y) {
        Some(Region::Action(from as usize))
    } else {
        actions_hit(actions, from + 1, x, y)
    }
}

/// What the point is on: a row button, else an action button.
pub open spec fn region_at(rows: Seq<RowRects>, actions: Seq<Rect>, x: i32, y: i32) -> Option<Region> {
    match rows_hit(rows, 0, x, y) {
        Some(r) => Some(r),
        None => actions_hit(actions, 0, x, y),
    }
}

/// What the point is on: the first row button that holds it, else the first
/// action button.
pub fn settings_hit_test(rows: &Vec<RowRects>, actions: &Vec<Rect>, x: i32, y: i32) -> (r: Option<Region>)
    ensures
        r == region_at(rows@, actions@, x, y),
{
    let mut i: usize = 0;
    while i < rows.len()
        invariant
            i <= rows@.len(),
            rows_hit(rows@, 0, x, y) == rows_hit(rows@, i as int, x, y),
        decreases rows@.len() - i,
    {
        let rr = &rows[i];
        if in_rect(&rr.letter, x, y) {
            return Some(Region::Letter(i));
        }
        if in_rect(&rr.star, x, y) {
            return Some(Region::Star(i));
        }
        if in_rect(&rr.up, x, y) {
            return Some(Region::Up(i));
        }
        if in_rect(&rr.down, x, y) {
            return Some(Region::Down(i));
        }
        i = i + 1;
    }
    let mut k: usize = 0;
    while k < actions.len()
        invariant
            k <= actions@.len(),
            rows_hit(rows@, 0, x, y) is None,
            actions_hit(actions@, 0, x, y) == actions_hit(actions@, k as int, x, y),
        decreases actions@.len() - k,
    {
        if in_rect(&actions[k], x, y) {
            return Some(Region::Action(k));
        }
        k = k + 1;
    }
    None
}


/// `v` with the items at `a` and `b` exchanged.
pub open spec fn swapped<T>(v: Seq<T>, a: int, b: int) -> Seq<T> {
    v.update(a, v[b]).update(b, v[a])
}

/// Moves item `i` one place up (towards the front), when there is a place
/// above it; says whether it moved.
pub fn move_up<T>(v: &mut Vec<T>, i: usize) -> (moved: bool)
    ensures
        moved == (0 < i < old(v)@.len()),
        final(v)@ == if moved {
            swapped(old(v)@, i - 1, i as int)
        } else {
            old(v)@
        },
{
    if 0 < i && i < v.len() {
        let x = v.remove(i);
        v.insert(i - 1, x);
        proof {
            assert(v@ =~= swapped(old(v)@, i - 1, i as int));
        }
        true
    } else {
        false
    }
}

/// Moves item `i` one place down (towards the back), when there is a place
/// below it; says whether it moved.
pub fn move_down<T>(v: &mut Vec<T>, i: usize) -> (moved: bool)
    ensures
        moved == (i + 1 < old(v)@.len()),
        final(v)@ == if moved {
            swapped(old(v)@, i as int, i + 1)
        } else {
            old(v)@
        },
{
    if i < v.len() && i + 1 < v.len() {
        let x = v.remove(i + 1);
        v.insert(i, x);
        proof {
            assert(v@ =~= swapped(old(v)@, i as int, i + 1));
        }
        true
    } else {
        false
    }
}

/// Moving an item up and then the item now above back down restores the
/// order: `move_down(i - 1)` undoes `move_up(i)`.
pub proof fn lemma_move_up_then_down<T>(v: Seq<T>, i: int)
    requires
        0 < i < v.len(),
    ensures
        swapped(swapped(v, i - 1, i), i - 1, i) == v,
{
    assert(swapped(swapped(v, i - 1, i), i - 1, i) =~= v);
}

/// The favourite after its star is clicked for browser id `id`: cleared
/// when `id` was the favourite, else `id`.
pub open spec fn toggled(favorite: Option<Seq<char>>, id: Seq<char>) -> Option<Seq<char>> {
    if favorite == Some(id) {
        None
    } else {
        Some(id)
    }
}

/// Toggles the favourite for browser id `id`.
pub fn toggle_favorite(favorite: Option<String>, id: String) -> (r: Option<String>)
    ensures
        opt_view(r) == toggled(opt_view(favorite), id@),
{
    match favorite {
        Some(f) => if f == id {
            None
        } else {
            Some(id)
        },
        None => Some(id),
    }
}

/// Whether browser `b` is the favourite.
pub fn is_favorite(favorite: &Option<String>, b: &Browser) -> (r: bool)
    ensures
        r == (opt_view(*favorite) == Some(browser_id(*b))),
{
    match favorite {
        Some(f) => {
            let id = b.id();
            *f == id
        },
        None => false,
    }
}

/// The glyph of a row's letter box: `?` while a letter is being captured,
/// else the row's letter, else `·`.
pub fn letter_glyph(capturing: bool, letter: Option<char>) -> (g: char)
    ensures
        g == if capturing {
            '?'
        } else {
            match letter {
                Some(c) => c,
                None => '·',
            }
        },
{
    if capturing {
        '?'
    } else {
        match letter {
            Some(c) => c,
            None => '·',
        }
    }
}

/// What the settings window does after an event.
#[derive(Clone, Copy, Debug, PartialEq, Eq, Structural)]
pub enum Effect {
    /// Nothing changed.
    Nothing,
    /// Only what is shown changed.
    Redraw,
    /// The settings changed: store them and redraw.
    Save,
    /// Rows `a` and `b` were exchanged: exchange whatever is kept per row,
    /// store the settings and redraw.
    Swapped(usize, usize),
    /// Run action button `k` (set as default, register, unregister).
    RunAction(usize),
    /// Close the window.
    Close,
}

/// The state of the settings window that events change.
pub struct SettingsState {
    /// Browsers in the user's order.
    pub browsers: Vec<Browser>,
    /// Favourite browser id.
    pub favorite: Option<String>,
    /// Configured shortcut letters by browser id.
    pub configured: LetterMap,
    /// The row whose letter is being captured, if any.
    pub capturing: Option<usize>,
}

/// The registered flag (`None`: unchanged) and the status line after
/// action button `k` ran, given how registering went: button 0 registers
/// and opens Default Apps, button 1 registers, any other unregisters (its
/// outcome is not looked at).
pub open spec fn action_outcome(k: nat, result: Result<(), Seq<char>>) -> (Option<bool>, Seq<char>) {
    if k == 0 {
        match result {
            Ok(_) => (Some(true), "Opened Default Apps \u{2014} set Browser Picker for HTTP and HTTPS."@),
            Err(e) => (None, "Register failed: "@ + e),
        }
    } else if k == 1 {
        match result {
            Ok(_) => (Some(true), "Registered."@),
            Err(e) => (None, "Failed: "@ + e),
        }
    } else {
        (Some(false), "Unregistered."@)
    }
}

/// Whether action button `k` registers (rather than unregisters).
pub open spec fn action_registers(k: nat) -> bool {
    k == 0 || k == 1
}

/// Whether action button `k` registers; otherwise it unregisters.
pub fn registers(k: usize) -> (b: bool)
    ensures
        b == action_registers(k as nat),
{
    k == 0 || k == 1
}

/// The registered flag (`None`: unchanged) and status line after action
/// button `k` ran with `result` (what registering or unregistering gave),
/// and whether Default Apps is to be opened: after button 0 registered.
pub fn run_action_outcome(k: usize, result: &Result<(), String>) -> (r: (Option<bool>, String, bool))
    ensures
        (r.0, r.1@) == action_outcome(
            k as nat,
            match result {
                Ok(_) => Ok(()),
                Err(e) => Err(e@),
            },
        ),
        r.2 == (k == 0 && result is Ok),
{
    if k == 0 {
        match result {
            Ok(_) => (Some(true), String::from_str("Opened Default Apps \u{2014} set Browser Picker for HTTP and HTTPS."), true),
            Err(e) => {
                let mut s = String::from_str("Register failed: ");
                s.append(e.as_str());
                (None, s, false)
            },
        }
    } else if k == 1 {
        match result {
            Ok(_) => (Some(true), String::from_str("Registered."), false),
            Err(e) => {
                let mut s = String::from_str("Failed: ");
                s.append(e.as_str());
                (None, s, false)
            },
        }
    } else {
        (Some(false), String::from_str("Unregistered."), false)
    }
}

/// Whether the browser index a region names (if any) is a row.
pub open spec fn region_in_rows(r: Region, n: nat) -> bool {
    match r {
        Region::Letter(i) => i < n,
        Region::Star(i) => i < n,
        Region::Up(i) => i < n,
        Region::Down(i) => i < n,
        Region::Action(_) => true,
    }
}

/// Whether the browser index a region names (if any) is below `n`.
pub fn region_in_range(r: &Region, n: usize) -> (b: bool)
    ensures
        b == region_in_rows(*r, n as nat),
{
    match *r {
        Region::Letter(i) => i < n,
        Region::Star(i) => i < n,
        Region::Up(i) => i < n,
        Region::Down(i) => i < n,
        Region::Action(_) => true,
    }
}

/// The letter of a key code `A`..`Z`.
pub open spec fn key_letter(vk: i32) -> char {
    (vk as int) as char
}

impl SettingsState {
    /// Whether the row that captures a letter, if any, is one of the rows,
    /// and no letter is configured for two browsers. Every event keeps it.
    pub open spec fn consistent(&self) -> bool {
        &&& (self.capturing matches Some(i) ==> i < self.browsers@.len())
        &&& letters_distinct(self.configured@)
    }

    /// A click on `hit` (what the point is on, if anything). A letter box
    /// starts capturing a letter for its row, or stops when it was already
    /// capturing; any other click stops capturing. A star toggles the
    /// favourite; up and down move the row; action buttons run.
    pub fn on_click(&mut self, hit: Option<Region>) -> (e: Effect)
        requires
            hit matches Some(r) ==> region_in_rows(r, old(self).browsers@.len()),
        ensures
            final(self).configured@ == old(self).configured@,
            final(self).capturing matches Some(i) ==> i < final(self).browsers@.len(),
            old(self).consistent() ==> final(self).consistent(),
            match hit {
                Some(Region::Letter(i)) => {
                    &&& final(self).capturing == if old(self).capturing == Some(i) {
                        None
                    } else {
                        Some(i)
                    }
                    &&& final(self).browsers@ == old(self).browsers@
                    &&& opt_view(final(self).favorite) == opt_view(old(self).favorite)
                    &&& e == Effect::Redraw
                },
                Some(Region::Star(i)) => {
                    &&& final(self).capturing is None
                    &&& final(self).browsers@ == old(self).browsers@
                    &&& opt_view(final(self).favorite) == toggled(
                        opt_view(old(self).favorite),
                        browser_id(old(self).browsers@[i as int]),
                    )
                    &&& e == Effect::Save
                },
                Some(Region::Up(i)) => {
                    &&& final(self).capturing is None
                    &&& opt_view(final(self).favorite) == opt_view(old(self).favorite)
                    &&& if i > 0 {
                        &&& final(self).browsers@ == swapped(old(self).browsers@, i - 1, i as int)
                        &&& e == Effect::Swapped((i - 1) as usize, i)
                    } else {
                        &&& final(self).browsers@ == old(self).browsers@
                        &&& e == Effect::Redraw
                    }
                },
                Some(Region::Down(i)) => {
                    &&& final(self).capturing is None
                    &&& opt_view(final(self).favorite) == opt_view(old(self).favorite)
                    &&& if i + 1 < old(self).browsers@.len() {
                        &&& final(self).browsers@ == swapped(old(self).browsers@, i as int, i + 1)
                        &&& e == Effect::Swapped(i, (i + 1) as usize)
                    } else {
                        &&& final(self).browsers@ == old(self).browsers@
                        &&& e == Effect::Redraw
                    }
                },
                Some(Region::Action(k)) => {
                    &&& final(self).capturing is None
                    &&& final(self).browsers@ == old(self).browsers@
                    &&& opt_view(final(self).favorite) == opt_view(old(self).favorite)
                    &&& e == Effect::RunAction(k)
                },
                None => {
                    &&& final(self).capturing is None
                    &&& final(self).browsers@ == old(self).browsers@
                    &&& opt_view(final(self).favorite) == opt_view(old(self).favorite)
                    &&& e == Effect::Redraw
                },
            },
    {
        match hit {
            Some(Region::Letter(i)) => {
                self.capturing = if self.capturing == Some(i) {
                    None
                } else {
                    Some(i)
                };
                Effect::Redraw
            },
            Some(Region::Star(i)) => {
                self.capturing = None;
                let id = self.browsers[i].id();
                let mut fav: Option<String> = None;
                std::mem::swap(&mut fav, &mut self.favorite);
                self.favorite = toggle_favorite(fav, id);
                Effect::Save
            },
            Some(Region::Up(i)) => {
                self.capturing = None;
                if move_up(&mut self.browsers, i) {
                    Effect::Swapped(i - 1, i)
                } else {
                    Effect::Redraw
                }
            },
            Some(Region::Down(i)) => {
                self.capturing = None;
                let n = self.browsers.len();
                if move_down(&mut self.browsers, i) {
                    assert(i + 1 < n);
                    Effect::Swapped(i, i + 1)
                } else {
                    Effect::Redraw
                }
            },
            Some(Region::Action(k)) => {
                self.capturing = None;
                Effect::RunAction(k)
            },
            None => {
                self.capturing = None;
                Effect::Redraw
            },
        }
    }

    /// A key press. While a row captures a letter: `A`..`Z` gives the row's
    /// browser that letter (taking it from any other browser), Backspace or
    /// Delete clears its letter, Escape stops capturing. Otherwise Escape
    /// closes the window.
    pub fn on_key(&mut self, vk: i32) -> (e: Effect)
        requires
            old(self).capturing matches Some(i) ==> i < old(self).browsers@.len(),
        ensures
            final(self).browsers@ == old(self).browsers@,
            final(self).capturing matches Some(i) ==> i < final(self).browsers@.len(),
            old(self).consistent() ==> final(self).consistent(),
            opt_view(final(self).favorite) == opt_view(old(self).favorite),
            match old(self).capturing {
                Some(i) => {
                    let id = browser_id(old(self).browsers@[i as int]);
                    if 0x41 <= vk <= 0x5A {
                        &&& final(self).configured@ == without_letter(old(self).configured@, key_letter(vk)).insert(
                            id,
                            key_letter(vk),
                        )
                        &&& final(self).capturing is None
                        &&& e == Effect::Save
                    } else if vk == VK_BACK || vk == VK_DELETE {
                        &&& final(self).configured@ == old(self).configured@.remove(id)
                        &&& final(self).capturing is None
                        &&& e == Effect::Save
                    } else if vk == VK_ESCAPE {
                        &&& final(self).configured@ == old(self).configured@
                        &&& final(self).capturing is None
                        &&& e == Effect::Redraw
                    } else {
                        &&& final(self).configured@ == old(self).configured@
                        &&& final(self).capturing == old(self).capturing
                        &&& e == Effect::Nothing
                    }
                },
                None => {
                    &&& final(self).configured@ == old(self).configured@
                    &&& final(self).capturing is None
                    &&& e == if vk == VK_ESCAPE {
                        Effect::Close
                    } else {
                        Effect::Nothing
                    }
                },
            },
    {
        match self.capturing {
            Some(i) => {
                if 0x41 <= vk && vk <= 0x5A {
                    let c = (vk as u8) as char;
                    let id = self.browsers[i].id();
                    let ghost before = self.configured@;
                    self.configured.assign_letter(id, c);
                    proof {
                        if letters_distinct(before) {
                            lemma_assign_keeps_distinct(before, id@, c);
                        }
                    }
                    self.capturing = None;
                    Effect::Save
                } else if vk == VK_BACK || vk == VK_DELETE {
                    let id = self.browsers[i].id();
                    let ghost before = self.configured@;
                    self.configured.remove(&id);
                    proof {
                        if letters_distinct(before) {
                            lemma_remove_keeps_distinct(before, id@);
                        }
                    }
                    self.capturing = None;
                    Effect::Save
                } else if vk == VK_ESCAPE {
                    self.capturing = None;
                    Effect::Redraw
                } else {
                    Effect::Nothing
                }
            },
            None => {
                if vk == VK_ESCAPE {
                    Effect::Close
                } else {
                    Effect::Nothing
                }
            },
        }
    }
}

} // verus!

use std::collections::VecDeque;
use vstd::prelude::*;
use vstd::string::*;
use vstd::utf8::*;
use crate::ui::{
    apply_writes, clear_rect, draw_string, in_box, law_fill_rect, lemma_apply_changed,
    lemma_apply_concat, lemma_apply_len, lemma_apply_outside_box, lemma_box_concat, lemma_box_widen,
    lemma_rect_box, lemma_row_span, lemma_string_ok, lemma_string_writes_box, pixel_index, rect_ok,
    rect_writes, sat_sub, string_writes, writes_in_box, OMNIBOX_HEIGHT, TABBAR_HEIGHT,
};
use crate::text::{
    boundary_char_index, char_index, char_width, chars_of, fits_usize, is_boundary, push_char,
    contains_char, has_prefix, hex_char, hex_digit, is_ws, starts_with, string_of_range, strings_view, trim, trim_bounds, trim_end, trim_start, utf8_len,
    utf8_width,
};

verus! {

/// Most addresses the omnibox remembers.
pub const HISTORY_LIMIT: usize = 16;

/// Editing state of the address bar.
pub struct OmniboxState {
    pub is_focused: bool,
    pub input: String,
    /// Byte offset of the cursor in `input`.
    pub cursor_position: usize,
    pub select_all_on_type: bool,
    /// Visited addresses, most recent first.
    pub history: VecDeque<String>,
    pub history_index: Option<usize>,
}

/// The omnibox state as mathematical values.
pub struct OmniView {
    pub is_focused: bool,
    pub input: Seq<char>,
    pub cursor: int,
    pub select_all_on_type: bool,
    pub history: Seq<Seq<char>>,
    pub history_index: Option<int>,
}

impl View for OmniboxState {
    type V = OmniView;

    open spec fn view(&self) -> OmniView {
        OmniView {
            is_focused: self.is_focused,
            input: self.input@,
            cursor: self.cursor_position as int,
            select_all_on_type: self.select_all_on_type,
            history: strings_view(self.history@),
            history_index: match self.history_index {
                Some(i) => Some(i as int),
                None => None,
            },
        }
    }
}

/// Every remembered address has a UTF-8 length that fits in `usize`.
pub open spec fn history_fits(h: Seq<Seq<char>>) -> bool {
    forall|i: int| 0 <= i < h.len() ==> fits_usize(#[trigger] h[i])
}

/// The state that every operation keeps: the cursor sits between characters,
/// the selected history entry exists, and all lengths fit in `usize`.
pub open spec fn omni_wf(s: OmniView) -> bool {
    &&& is_boundary(s.input, s.cursor)
    &&& fits_usize(s.input)
    &&& history_fits(s.history)
    &&& (s.history_index matches Some(i) ==> 0 <= i < s.history.len())
}

/// The same state with no select-all pending.
pub open spec fn deselect(s: OmniView) -> OmniView {
    OmniView { select_all_on_type: false, ..s }
}

pub open spec fn spec_focus(s: OmniView, url: Seq<char>) -> OmniView {
    OmniView {
        is_focused: true,
        input: url,
        cursor: utf8_len(url) as int,
        select_all_on_type: true,
        history_index: None,
        ..s
    }
}

pub open spec fn spec_defocus(s: OmniView) -> OmniView {
    OmniView { is_focused: false, select_all_on_type: false, history_index: None, ..s }
}

/// Input and cursor that an edit starts from: a pending select-all empties the field first.
pub open spec fn edit_base(s: OmniView) -> OmniView {
    if s.select_all_on_type {
        OmniView { input: Seq::empty(), cursor: 0, select_all_on_type: false, ..s }
    } else {
        s
    }
}

pub open spec fn spec_insert_char(s: OmniView, c: char) -> OmniView {
    let b = edit_base(s);
    if b.cursor <= utf8_len(b.input) {
        let k = char_index(b.input, b.cursor);
        OmniView {
            input: b.input.take(k).push(c) + b.input.skip(k),
            cursor: b.cursor + char_width(c),
            ..b
        }
    } else {
        b
    }
}

/// Inputs on which `insert_char` does not panic (and its byte lengths fit in `usize`).
pub open spec fn insert_char_ok(s: OmniView) -> bool {
    &&& fits_usize(s.input)
    &&& (s.select_all_on_type || s.cursor > utf8_len(s.input) || (is_boundary(s.input, s.cursor)
        && utf8_len(s.input) + 4 <= usize::MAX))
}

pub open spec fn spec_backspace(s: OmniView) -> OmniView {
    if s.select_all_on_type {
        edit_base(s)
    } else if s.cursor > 0 {
        let k = char_index(s.input, s.cursor);
        OmniView {
            input: s.input.take(k - 1) + s.input.skip(k),
            cursor: utf8_len(s.input.take(k - 1)) as int,
            ..s
        }
    } else {
        s
    }
}

pub open spec fn backspace_ok(s: OmniView) -> bool {
    &&& fits_usize(s.input)
    &&& (s.select_all_on_type || s.cursor == 0 || is_boundary(s.input, s.cursor))
}

pub open spec fn spec_arrow_left(s: OmniView) -> OmniView {
    let t = OmniView { select_all_on_type: false, ..s };
    if s.cursor > 0 {
        OmniView {
            cursor: utf8_len(s.input.take(char_index(s.input, s.cursor) - 1)) as int,
            ..t
        }
    } else {
        t
    }
}

pub open spec fn arrow_left_ok(s: OmniView) -> bool {
    &&& fits_usize(s.input)
    &&& (s.cursor == 0 || is_boundary(s.input, s.cursor))
}

pub open spec fn spec_arrow_right(s: OmniView) -> OmniView {
    let t = OmniView { select_all_on_type: false, ..s };
    if s.cursor < utf8_len(s.input) {
        OmniView {
            cursor: utf8_len(s.input.take(char_index(s.input, s.cursor) + 1)) as int,
            ..t
        }
    } else {
        t
    }
}

pub open spec fn arrow_right_ok(s: OmniView) -> bool {
    &&& fits_usize(s.input)
    &&& (s.cursor >= utf8_len(s.input) || is_boundary(s.input, s.cursor))
}

/// Shows history entry `i` in the field, with the cursor at its end.
pub open spec fn show_history(s: OmniView, i: int) -> OmniView {
    OmniView {
        history_index: Some(i),
        input: s.history[i],
        cursor: utf8_len(s.history[i]) as int,
        ..s
    }
}

pub open spec fn spec_arrow_up(s: OmniView) -> OmniView {
    let t = OmniView { select_all_on_type: false, ..s };
    if s.history.len() == 0 {
        t
    } else {
        let i = match s.history_index {
            Some(i) => if i + 1 < s.history.len() {
                i + 1
            } else {
                i
            },
            None => 0,
        };
        show_history(t, i)
    }
}

pub open spec fn arrow_up_ok(s: OmniView) -> bool {
    &&& history_fits(s.history)
    &&& (s.history.len() == 0 || (s.history_index matches Some(i) ==> i < s.history.len()))
}

pub open spec fn spec_arrow_down(s: OmniView) -> OmniView {
    let t = OmniView { select_all_on_type: false, ..s };
    match s.history_index {
        Some(i) => if i > 0 {
            show_history(t, i - 1)
        } else {
            OmniView { history_index: None, input: Seq::empty(), cursor: 0, ..t }
        },
        None => t,
    }
}

pub open spec fn arrow_down_ok(s: OmniView) -> bool {
    &&& history_fits(s.history)
    &&& (s.history_index matches Some(i) ==> i == 0 || i - 1 < s.history.len())
}

pub open spec fn spec_push_history(s: OmniView, url: Seq<char>) -> OmniView {
    if s.history.len() > 0 && s.history[0] == url {
        s
    } else {
        let h = seq![url] + s.history;
        OmniView {
            history: if h.len() > HISTORY_LIMIT {
                h.drop_last()
            } else {
                h
            },
            ..s
        }
    }
}


impl OmniboxState {
    pub fn new() -> (r: Self)
        ensures
            !r.is_focused,
            r.input@ == Seq::<char>::empty(),
            r.cursor_position == 0,
            !r.select_all_on_type,
            r.history@.len() == 0,
            r.history_index is None,
            omni_wf(r@),
    {
        let r = OmniboxState {
            is_focused: false,
            input: String::new(),
            cursor_position: 0,
            select_all_on_type: false,
            history: VecDeque::with_capacity(HISTORY_LIMIT),
            history_index: None,
        };
        proof {
            lemma_start_is_boundary(r.input@);
        }
        r
    }

    /// Puts the cursor in the field, showing `current_url` fully selected.
    pub fn focus(&mut self, current_url: &str)
        requires
            fits_usize(current_url@),
        ensures
            final(self)@ == spec_focus(old(self)@, current_url@),
            omni_wf(old(self)@) ==> omni_wf(final(self)@),
    {
        self.is_focused = true;
        self.input = String::from_str(current_url);
        self.cursor_position = self.input.as_str().len();
        self.select_all_on_type = true;
        self.history_index = None;
        proof {
            lemma_end_is_boundary(self.input@);
        }
    }

    pub fn defocus(&mut self)
        ensures
            final(self)@ == spec_defocus(old(self)@),
            omni_wf(old(self)@) ==> omni_wf(final(self)@),
    {
        self.is_focused = false;
        self.select_all_on_type = false;
        self.history_index = None;
    }

    /// Replaces the input by `v[..k] + extra + v[k + skip..]`.
    fn splice(&mut self, v: &Vec<char>, k: usize, skip: usize, extra: Option<char>)
        requires
            k + skip <= v.len(),
        ensures
            final(self).input@ == (match extra {
                Some(c) => v@.take(k as int).push(c),
                None => v@.take(k as int),
            }) + v@.skip(k + skip),
            final(self).cursor_position == old(self).cursor_position,
            final(self).is_focused == old(self).is_focused,
            final(self).select_all_on_type == old(self).select_all_on_type,
            final(self).history == old(self).history,
            final(self).history_index == old(self).history_index,
    {
        let mut s = string_of_range(v, 0, k);
        match extra {
            Some(c) => push_char(&mut s, c),
            None => {},
        }
        let rest = string_of_range(v, k + skip, v.len());
        s.append(rest.as_str());
        assert(v@.subrange(0, k as int) =~= v@.take(k as int));
        assert(v@.subrange((k + skip) as int, v@.len() as int) =~= v@.skip(k + skip));
        self.input = s;
    }

    pub fn insert_char(&mut self, c: char)
        requires
            insert_char_ok(old(self)@),
        ensures
            final(self)@ == spec_insert_char(old(self)@, c),
            omni_wf(old(self)@) ==> omni_wf(final(self)@),
    {
        if self.select_all_on_type {
            self.input = String::new();
            self.cursor_position = 0;
            self.select_all_on_type = false;
            proof {
                lemma_start_is_boundary(self.input@);
            }
        }
        let len = self.input.as_str().len();
        if self.cursor_position <= len {
            let v = chars_of(self.input.as_str());
            let k = boundary_char_index(&v, self.cursor_position);
            let w = utf8_width(c);
            let cur = self.cursor_position;
            proof {
                lemma_insert_lengths(v@, k as int, c);
                if old(self).select_all_on_type {
                    crate::text::lemma_utf8_len_empty();
                    assert(v@ =~= Seq::<char>::empty());
                }
                assert(cur + w <= usize::MAX);
            }
            self.splice(&v, k, 0, Some(c));
            self.cursor_position = cur + w;
            proof {
                assert(v@.skip(k + 0) =~= v@.skip(k as int));
                let n = self.input@;
                assert(n.take(k + 1) =~= v@.take(k as int).push(c));
                crate::text::lemma_utf8_len_push(v@.take(k as int), c);
                lemma_boundary_at(n, k + 1);
            }
        }
    }

    pub fn backspace(&mut self)
        requires
            backspace_ok(old(self)@),
        ensures
            final(self)@ == spec_backspace(old(self)@),
            omni_wf(old(self)@) ==> omni_wf(final(self)@),
    {
        if self.select_all_on_type {
            self.input = String::new();
            self.cursor_position = 0;
            self.select_all_on_type = false;
            proof {
                lemma_start_is_boundary(self.input@);
            }
            return;
        }
        if self.cursor_position > 0 {
            let v = chars_of(self.input.as_str());
            let k = boundary_char_index(&v, self.cursor_position);
            proof {
                lemma_nonzero_boundary(v@, k as int);
            }
            let w = utf8_width(v[k - 1]);
            proof {
                crate::text::lemma_prefix_step(v@, k - 1);
            }
            self.splice(&v, k - 1, 1, None);
            self.cursor_position = self.cursor_position - w;
            proof {
                assert(v@.skip(k - 1 + 1) =~= v@.skip(k as int));
                let n = self.input@;
                assert(n.take(k - 1) =~= v@.take(k - 1));
                lemma_boundary_at(n, k - 1);
                lemma_remove_fits(v@, k as int);
            }
        }
    }

    pub fn arrow_left(&mut self)
        requires
            arrow_left_ok(old(self)@),
        ensures
            final(self)@ == spec_arrow_left(old(self)@),
            omni_wf(old(self)@) ==> omni_wf(final(self)@),
    {
        self.select_all_on_type = false;
        if self.cursor_position > 0 {
            let v = chars_of(self.input.as_str());
            let k = boundary_char_index(&v, self.cursor_position);
            proof {
                lemma_nonzero_boundary(v@, k as int);
                crate::text::lemma_prefix_step(v@, k - 1);
                lemma_boundary_at(v@, k - 1);
            }
            let w = utf8_width(v[k - 1]);
            self.cursor_position = self.cursor_position - w;
        }
    }

    pub fn arrow_right(&mut self)
        requires
            arrow_right_ok(old(self)@),
        ensures
            final(self)@ == spec_arrow_right(old(self)@),
            omni_wf(old(self)@) ==> omni_wf(final(self)@),
    {
        self.select_all_on_type = false;
        let len = self.input.as_str().len();
        if self.cursor_position < len {
            let v = chars_of(self.input.as_str());
            let k = boundary_char_index(&v, self.cursor_position);
            proof {
                crate::text::lemma_prefix_whole(v@);
                assert(k < v.len());
                crate::text::lemma_prefix_step(v@, k as int);
                lemma_boundary_at(v@, k + 1);
                crate::text::lemma_prefix_le(v@, k + 1, v@.len() as int);
            }
            let w = utf8_width(v[k]);
            self.cursor_position = self.cursor_position + w;
        }
    }

    /// Shows the entry `i` of the history, with the cursor at its end.
    fn load_history(&mut self, i: usize)
        requires
            i < old(self).history@.len(),
            fits_usize(old(self).history@[i as int]@),
        ensures
            final(self)@ == show_history(old(self)@, i as int),
    {
        self.history_index = Some(i);
        self.input = self.history[i].clone();
        self.cursor_position = self.input.as_str().len();
    }

    pub fn arrow_up(&mut self)
        requires
            arrow_up_ok(old(self)@),
        ensures
            final(self)@ == spec_arrow_up(old(self)@),
            omni_wf(old(self)@) ==> omni_wf(final(self)@),
    {
        self.select_all_on_type = false;
        if self.history.len() == 0 {
            return;
        }
        let new_idx = match self.history_index {
            Some(idx) => if idx + 1 < self.history.len() {
                idx + 1
            } else {
                idx
            },
            None => 0,
        };
        proof {
            assert(strings_view(self.history@)[new_idx as int] == self.history@[new_idx as int]@);
        }
        self.load_history(new_idx);
        proof {
            lemma_end_is_boundary(self.input@);
        }
    }

    pub fn arrow_down(&mut self)
        requires
            arrow_down_ok(old(self)@),
        ensures
            final(self)@ == spec_arrow_down(old(self)@),
            omni_wf(old(self)@) ==> omni_wf(final(self)@),
    {
        self.select_all_on_type = false;
        match self.history_index {
            Some(idx) => {
                if idx > 0 {
                    let new_idx = idx - 1;
                    proof {
                        assert(strings_view(self.history@)[new_idx as int]
                            == self.history@[new_idx as int]@);
                    }
                    self.load_history(new_idx);
                    proof {
                        lemma_end_is_boundary(self.input@);
                    }
                } else {
                    self.history_index = None;
                    self.input = String::new();
                    self.cursor_position = 0;
                    proof {
                        lemma_start_is_boundary(self.input@);
                    }
                }
            },
            None => {},
        }
    }

    /// Remembers `url` as the most recent address, unless it already is.
    pub fn push_history(&mut self, url: String)
        requires
            fits_usize(url@),
        ensures
            final(self)@ == spec_push_history(old(self)@, url@),
            omni_wf(old(self)@) ==> omni_wf(final(self)@),
    {
        let same = self.history.len() > 0 && self.history[0] == url;
        if !same {
            let ghost old_h = self.history@;
            self.history.push_front(url);
            if self.history.len() > HISTORY_LIMIT {
                self.history.pop_back();
            }
            proof {
                assert(strings_view(self.history@) =~= (if (seq![url@] + strings_view(old_h)).len()
                    > HISTORY_LIMIT {
                    (seq![url@] + strings_view(old_h)).drop_last()
                } else {
                    seq![url@] + strings_view(old_h)
                }));
            }
        }
    }
}

pub proof fn lemma_end_is_boundary(s: Seq<char>)
    ensures
        is_boundary(s, utf8_len(s) as int),
{
    crate::text::lemma_prefix_whole(s);
    assert(utf8_len(s.take(s.len() as int)) == utf8_len(s));
}

pub proof fn lemma_start_is_boundary(s: Seq<char>)
    ensures
        is_boundary(s, 0),
{
    assert(s.take(0) =~= Seq::<char>::empty());
    crate::text::lemma_utf8_len_empty();
    lemma_boundary_at(s, 0);
}

pub proof fn lemma_boundary_at(s: Seq<char>, k: int)
    requires
        0 <= k <= s.len(),
    ensures
        is_boundary(s, utf8_len(s.take(k)) as int),
        char_index(s, utf8_len(s.take(k)) as int) == k,
{
    crate::text::lemma_char_index_unique(s, k);
}

proof fn lemma_nonzero_boundary(s: Seq<char>, k: int)
    requires
        0 <= k <= s.len(),
        utf8_len(s.take(k)) > 0,
    ensures
        k > 0,
{
    if k == 0 {
        assert(s.take(0) =~= Seq::<char>::empty());
    }
}

/// Inserting `c` after the first `k` characters grows the byte length by its width.
proof fn lemma_insert_lengths(s: Seq<char>, k: int, c: char)
    requires
        0 <= k <= s.len(),
    ensures
        utf8_len(s.take(k).push(c) + s.skip(k)) == utf8_len(s) + char_width(c),
        utf8_len(s.take(k)) <= utf8_len(s),
{
    crate::text::lemma_utf8_len_push(s.take(k), c);
    crate::text::lemma_utf8_len_concat(s.take(k).push(c), s.skip(k));
    crate::text::lemma_utf8_len_concat(s.take(k), s.skip(k));
    assert(s.take(k) + s.skip(k) =~= s);
}

/// Removing the character before the `k`-th boundary keeps the byte length in range.
proof fn lemma_remove_fits(s: Seq<char>, k: int)
    requires
        0 < k <= s.len(),
    ensures
        utf8_len(s.take(k - 1) + s.skip(k)) <= utf8_len(s),
{
    crate::text::lemma_utf8_len_concat(s.take(k - 1), s.skip(k));
    crate::text::lemma_utf8_len_concat(s.take(k), s.skip(k));
    assert(s.take(k) + s.skip(k) =~= s);
    crate::text::lemma_prefix_le(s, k - 1, k);
}


/// Typing a character and then pressing backspace gives back the field as it was
/// (when no select-all is pending): `backspace` after `insert_char` restores the state.
pub proof fn law_backspace_undoes_insert(s: OmniView, c: char)
    requires
        omni_wf(s),
        !s.select_all_on_type,
        utf8_len(s.input) + 4 <= usize::MAX,
    ensures
        spec_backspace(spec_insert_char(s, c)) == s,
{
    let k = char_index(s.input, s.cursor);
    let t = s.input.take(k).push(c) + s.input.skip(k);
    crate::text::lemma_prefix_le(s.input, k, s.input.len() as int);
    crate::text::lemma_prefix_whole(s.input);
    assert(t.take(k + 1) =~= s.input.take(k).push(c));
    assert(t.take(k) =~= s.input.take(k));
    assert(t.skip(k + 1) =~= s.input.skip(k));
    crate::text::lemma_utf8_len_push(s.input.take(k), c);
    lemma_boundary_at(t, k + 1);
    let i = spec_insert_char(s, c);
    assert(i.input == t);
    assert(i.cursor == s.cursor + char_width(c));
    assert(char_index(i.input, i.cursor) == k + 1);
    assert(t.take(k) + t.skip(k + 1) =~= s.input);
}

/// Focusing the field selects its whole content, so the next typed character replaces it.
pub proof fn law_focus_then_type_replaces(s: OmniView, url: Seq<char>, c: char)
    ensures
        spec_insert_char(spec_focus(s, url), c).input == seq![c],
        spec_insert_char(spec_focus(s, url), c).cursor == char_width(c),
        !spec_insert_char(spec_focus(s, url), c).select_all_on_type,
{
    let e = Seq::<char>::empty();
    lemma_start_is_boundary(e);
    crate::text::lemma_utf8_len_empty();
    assert(e.take(0) =~= e);
    lemma_boundary_at(e, 0);
    assert(e.take(0).push(c) + e.skip(0) =~= seq![c]);
}

/// Moving right and then left brings the cursor back.
pub proof fn law_left_undoes_right(s: OmniView)
    requires
        omni_wf(s),
        s.cursor < utf8_len(s.input),
    ensures
        spec_arrow_left(spec_arrow_right(s)) == deselect(s),
{
    let k = char_index(s.input, s.cursor);
    crate::text::lemma_prefix_whole(s.input);
    assert(k < s.input.len());
    crate::text::lemma_prefix_step(s.input, k);
    lemma_boundary_at(s.input, k + 1);
    lemma_boundary_at(s.input, k);
}

/// Moving left and then right brings the cursor back.
pub proof fn law_right_undoes_left(s: OmniView)
    requires
        omni_wf(s),
        s.cursor > 0,
    ensures
        spec_arrow_right(spec_arrow_left(s)) == deselect(s),
{
    let k = char_index(s.input, s.cursor);
    lemma_nonzero_boundary(s.input, k);
    lemma_boundary_at(s.input, k - 1);
    lemma_boundary_at(s.input, k);
    crate::text::lemma_prefix_strict(s.input, k - 1, k);
    crate::text::lemma_prefix_le(s.input, k, s.input.len() as int);
    crate::text::lemma_prefix_whole(s.input);
}

/// The history never grows past its limit, and the address just pushed is the most recent.
pub proof fn law_history_bounded(s: OmniView, url: Seq<char>)
    requires
        s.history.len() <= HISTORY_LIMIT,
    ensures
        spec_push_history(s, url).history.len() <= HISTORY_LIMIT,
        spec_push_history(s, url).history.len() > 0,
        spec_push_history(s, url).history[0] == url,
{
}

/// Pushing the most recent address again changes nothing.
pub proof fn law_push_history_idempotent(s: OmniView, url: Seq<char>)
    ensures
        spec_push_history(spec_push_history(s, url), url) == spec_push_history(s, url),
{
}

/// Going up in the history and then down returns to the entry shown before, with the
/// cursor at its end and the history unchanged.
pub proof fn law_down_undoes_up(s: OmniView, i: int)
    requires
        s.history_index == Some(i),
        0 <= i,
        i + 1 < s.history.len(),
    ensures
        spec_arrow_down(spec_arrow_up(s)).history == s.history,
        spec_arrow_down(spec_arrow_up(s)).history_index == Some(i),
        spec_arrow_down(spec_arrow_up(s)).input == s.history[i],
        spec_arrow_down(spec_arrow_up(s)).cursor == utf8_len(s.history[i]),
{
}


/// Bytes that stay as they are in an encoded query: letters, digits and `-_.~`.
pub open spec fn is_unreserved(b: u8) -> bool {
    ||| 0x61 <= b <= 0x7a
    ||| 0x41 <= b <= 0x5a
    ||| 0x30 <= b <= 0x39
    ||| b == 0x2d
    ||| b == 0x5f
    ||| b == 0x2e
    ||| b == 0x7e
}

/// How one byte is written in an encoded query.
pub open spec fn encode_byte(b: u8) -> Seq<char> {
    if is_unreserved(b) {
        seq![b as char]
    } else if b == 0x20 {
        seq!['%', '2', '0']
    } else {
        seq!['%', hex_digit(b / 16), hex_digit(b % 16)]
    }
}

/// The percent-encoding of a byte sequence.
pub open spec fn percent_encode(bs: Seq<u8>) -> Seq<char>
    decreases bs.len(),
{
    if bs.len() == 0 {
        Seq::empty()
    } else {
        percent_encode(bs.drop_last()) + encode_byte(bs.last())
    }
}

/// Percent-encodes the UTF-8 bytes of `input`, keeping letters, digits and `-_.~`.
pub fn minimal_encode(input: &str) -> (out: String)
    ensures
        out@ == percent_encode(encode_utf8(input@)),
{
    let bytes = input.as_bytes();
    let mut out = String::new();
    let mut i: usize = 0;
    assert(bytes@.take(0) =~= Seq::<u8>::empty());
    while i < bytes.len()
        invariant
            bytes@ == encode_utf8(input@),
            i <= bytes@.len(),
            out@ == percent_encode(bytes@.take(i as int)),
        decreases bytes@.len() - i,
    {
        let b = bytes[i];
        let ghost before = out@;
        if (0x61 <= b && b <= 0x7a) || (0x41 <= b && b <= 0x5a) || (0x30 <= b && b <= 0x39) || b
            == 0x2d || b == 0x5f || b == 0x2e || b == 0x7e {
            push_char(&mut out, b as char);
        } else if b == 0x20 {
            push_char(&mut out, '%');
            push_char(&mut out, '2');
            push_char(&mut out, '0');
        } else {
            push_char(&mut out, '%');
            push_char(&mut out, hex_char(b / 16));
            push_char(&mut out, hex_char(b % 16));
        }
        assert(out@ =~= before + encode_byte(b));
        assert(bytes@.take(i + 1).drop_last() =~= bytes@.take(i as int));
        i = i + 1;
    }
    assert(bytes@.take(bytes@.len() as int) =~= bytes@);
    out
}

/// A character that stands for itself in an encoded query: an ASCII letter or digit, or
/// one of `-`, `_`, `.` and `~`.
pub open spec fn is_plain_query_char(c: char) -> bool {
    let v = c as u32;
    ||| 0x61 <= v <= 0x7a
    ||| 0x41 <= v <= 0x5a
    ||| 0x30 <= v <= 0x39
    ||| c == '-'
    ||| c == '_'
    ||| c == '.'
    ||| c == '~'
}

/// The value of an upper-case hexadecimal digit, or -1 for any other character.
pub open spec fn hex_value(c: char) -> int {
    let v = c as u32;
    if 0x30 <= v <= 0x39 {
        v - 0x30
    } else if 0x41 <= v <= 0x46 {
        v - 0x41 + 10
    } else {
        -1
    }
}

/// Encoding a concatenation encodes each part in turn.
pub proof fn law_percent_encode_concat(a: Seq<u8>, b: Seq<u8>)
    ensures
        percent_encode(a + b) == percent_encode(a) + percent_encode(b),
    decreases b.len(),
{
    if b.len() == 0 {
        assert(a + b =~= a);
        assert(percent_encode(a) + percent_encode(b) =~= percent_encode(a));
    } else {
        assert((a + b).drop_last() =~= a + b.drop_last());
        assert((a + b).last() == b.last());
        law_percent_encode_concat(a, b.drop_last());
        assert(percent_encode(a + b) =~= percent_encode(a) + percent_encode(b));
    }
}

proof fn lemma_hex_digit(d: u8)
    requires
        d < 16,
    ensures
        hex_value(hex_digit(d)) == d,
        is_plain_query_char(hex_digit(d)),
{
}

/// Each byte of a query is written as itself when it is an ASCII letter or digit or one
/// of `-_.~`, and otherwise as `%` followed by two upper-case hexadecimal digits of its
/// value.
pub proof fn law_percent_encode_byte(b: u8)
    ensures
        is_plain_query_char(b as char) ==> percent_encode(seq![b]) == seq![b as char],
        !is_plain_query_char(b as char) ==> ({
            let e = percent_encode(seq![b]);
            &&& e.len() == 3
            &&& e[0] == '%'
            &&& 0 <= hex_value(e[1])
            &&& 0 <= hex_value(e[2])
            &&& hex_value(e[1]) * 16 + hex_value(e[2]) == b
        }),
{
    let s = seq![b];
    assert(s.drop_last() =~= Seq::<u8>::empty());
    assert(s.last() == b);
    assert(percent_encode(Seq::<u8>::empty()) == Seq::<char>::empty());
    assert(percent_encode(s) == percent_encode(s.drop_last()) + encode_byte(b));
    assert(percent_encode(s) =~= encode_byte(b));
    assert((b as char) as u32 == b as u32);
    if b != 0x20 {
        lemma_hex_digit(b / 16);
        lemma_hex_digit(b % 16);
    }
}

/// An encoded query holds nothing but ASCII letters, digits, `-_.~` and the `%` of
/// escapes: no character with a meaning in a URL (such as `#`, `&`, `+`, `?`, `/` or a
/// space) is copied as it is.
pub proof fn law_percent_encode_plain(bs: Seq<u8>)
    ensures
        forall|j: int|
            0 <= j < percent_encode(bs).len() ==> is_plain_query_char(#[trigger] percent_encode(bs)[j])
                || percent_encode(bs)[j] == '%',
    decreases bs.len(),
{
    if bs.len() > 0 {
        let b = bs.last();
        law_percent_encode_plain(bs.drop_last());
        let p = percent_encode(bs.drop_last());
        let e = encode_byte(b);
        assert((b as char) as u32 == b as u32);
        if b != 0x20 {
            lemma_hex_digit(b / 16);
            lemma_hex_digit(b % 16);
        }
        assert forall|j: int| 0 <= j < e.len() implies is_plain_query_char(#[trigger] e[j]) || e[j] == '%' by {
        }
        assert forall|j: int| 0 <= j < percent_encode(bs).len() implies is_plain_query_char(
            #[trigger] percent_encode(bs)[j],
        ) || percent_encode(bs)[j] == '%' by {
            if j < p.len() {
                assert(percent_encode(bs)[j] == p[j]);
            } else {
                assert(percent_encode(bs)[j] == e[j - p.len()]);
            }
        }
    }
}

/// `s` with every `{}` replaced by `r`, scanning left to right, as `str::replace("{}", r)` does.
pub open spec fn replace_placeholder(s: Seq<char>, r: Seq<char>) -> Seq<char>
    decreases s.len(),
{
    if s.len() < 2 {
        s
    } else if s[0] == '{' && s[1] == '}' {
        r + replace_placeholder(s.skip(2), r)
    } else {
        seq![s[0]] + replace_placeholder(s.drop_first(), r)
    }
}

/// Replaces every `{}` in `s` by `r`.
pub fn replace_placeholder_exec(s: &str, r: &str) -> (out: String)
    ensures
        out@ == replace_placeholder(s@, r@),
{
    let v = chars_of(s);
    let n = v.len();
    let mut out = String::new();
    let mut i: usize = 0;
    assert(v@.skip(0) =~= v@);
    while i < n
        invariant
            n == v@.len(),
            i <= n,
            out@ + replace_placeholder(v@.skip(i as int), r@) == replace_placeholder(v@, r@),
        decreases n - i,
    {
        let ghost rest = v@.skip(i as int);
        if i + 1 < n && v[i] == '{' && v[i + 1] == '}' {
            assert(rest.skip(2) =~= v@.skip(i + 2));
            assert(rest[0] == v@[i as int] && rest[1] == v@[i + 1]);
            out.append(r);
            i = i + 2;
            assert(out@ + replace_placeholder(v@.skip(i as int), r@) =~= replace_placeholder(
                v@,
                r@,
            ));
        } else {
            let ghost before = out@;
            assert(rest.drop_first() =~= v@.skip(i + 1));
            assert(rest[0] == v@[i as int]);
            if i + 1 == n {
                assert(v@.skip(i + 1) =~= Seq::<char>::empty());
                assert(rest =~= seq![v@[i as int]]);
            } else {
                assert(rest[1] == v@[i + 1]);
            }
            push_char(&mut out, v[i]);
            i = i + 1;
            assert(out@ + replace_placeholder(v@.skip(i as int), r@) =~= replace_placeholder(
                v@,
                r@,
            ));
        }
    }
    assert(v@.skip(n as int) =~= Seq::<char>::empty());
    assert(out@ + Seq::<char>::empty() =~= out@);
    out
}

/// Where the omnibox navigates for the text `input`: an address kept as typed,
/// a local address or bare domain completed with a scheme, or else a search.
pub open spec fn navigation_target(input: Seq<char>, search_engine: Seq<char>) -> Seq<char> {
    let t = trim(input);
    if t.len() == 0 {
        Seq::empty()
    } else if has_prefix(t, "http://"@) || has_prefix(t, "https://"@) || has_prefix(t, "file://"@)
        || has_prefix(t, "magma://"@) {
        t
    } else if has_prefix(t, "localhost:"@) || has_prefix(t, "127.0.0.1"@) {
        "http://"@ + t
    } else if t.contains('.') && !t.contains(' ') {
        "https://"@ + t
    } else {
        replace_placeholder(search_engine, percent_encode(encode_utf8(t)))
    }
}

/// Turns what was typed in the omnibox into the address to load.
pub fn resolve_navigation_target(input: &str, search_engine: &str) -> (r: String)
    ensures
        r@ == navigation_target(input@, search_engine@),
{
    let v = chars_of(input);
    let (a, e) = trim_bounds(&v);
    let tv = crate::text::sub_chars(&v, a, e);
    let t = string_of_range(&v, a, e);
    if tv.len() == 0 {
        return String::new();
    }
    if starts_with(&tv, "http://") || starts_with(&tv, "https://") || starts_with(&tv, "file://")
        || starts_with(&tv, "magma://") {
        return t;
    }
    if starts_with(&tv, "localhost:") || starts_with(&tv, "127.0.0.1") {
        let mut r = String::from_str("http://");
        r.append(t.as_str());
        return r;
    }
    if contains_char(&tv, '.') && !contains_char(&tv, ' ') {
        let mut r = String::from_str("https://");
        r.append(t.as_str());
        return r;
    }
    let encoded = minimal_encode(t.as_str());
    replace_placeholder_exec(search_engine, encoded.as_str())
}


/// Colours of the address bar.
pub const OMNI_BG: u32 = 0xFF181818;

pub const OMNI_FIELD_FOCUSED: u32 = 0xFF000000;

pub const OMNI_FIELD: u32 = 0xFF202020;

pub const OMNI_TEXT: u32 = 0xFFE0E0E0;

pub const OMNI_SELECTION: u32 = 0xFF0055AA;

pub const OMNI_CURSOR: u32 = 0xFFFFFFFF;

pub open spec fn min_int(a: int, b: int) -> int {
    if a <= b {
        a
    } else {
        b
    }
}

/// Writes that draw the address bar: background, then the field with its selection, text
/// and cursor (`omnibox_field_writes`).
pub open spec fn omnibox_writes(font: Seq<[u8; 16]>, width: int, st: OmniView, url: Seq<char>) -> Seq<(int, u32)> {
    rect_writes(width, 0, 32, width as nat, 32, OMNI_BG) + omnibox_field_writes(font, width, st, url)
}

/// Writes that draw the field of the address bar, its selection, text and cursor. The field
/// shows the typed input while focused and `url` otherwise.
pub open spec fn omnibox_field_writes(font: Seq<[u8; 16]>, width: int, st: OmniView, url: Seq<char>) -> Seq<(int, u32)> {
    let field_w = sat_sub(width, 20);
    let display = if st.is_focused {
        st.input
    } else {
        url
    };
    let field_bg = if st.is_focused {
        OMNI_FIELD_FOCUSED
    } else {
        OMNI_FIELD
    };
    rect_writes(width, 10, 38, field_w as nat, 20, field_bg)
        + (if st.is_focused && st.select_all_on_type && display.len() > 0 {
        rect_writes(width, 15, 39, min_int(display.len() as int * 8, field_w - 10) as nat, 18, OMNI_SELECTION)
    } else {
        Seq::empty()
    }) + string_writes(font, width, 15, 40, display, OMNI_TEXT, field_w - 10) + (if st.is_focused
        && !st.select_all_on_type && 15 + char_index(st.input, st.cursor) * 8 < width - 10 {
        rect_writes(width, 15 + char_index(st.input, st.cursor) * 8, 40, 2, 16, OMNI_CURSOR)
    } else {
        Seq::empty()
    })
}

/// Inputs on which drawing the address bar does not panic.
pub open spec fn render_omnibox_ok(width: int, st: OmniView) -> bool {
    &&& width >= 30
    &&& 64 * width <= usize::MAX + 1
    &&& (st.is_focused && st.select_all_on_type && st.input.len() > 0 ==> st.input.len() * 8 <= usize::MAX)
    &&& (st.is_focused && !st.select_all_on_type ==> is_boundary(st.input, st.cursor)
        && char_index(st.input, st.cursor) * 8 + 15 <= usize::MAX)
}

/// Draws the address bar below the tab bar.
#[verifier::spinoff_prover]
pub fn render_omnibox(buffer: &mut [u32], width: usize, state: &OmniboxState, current_url: &str, font: &[[u8; 16]])
    requires
        font@.len() >= 128,
        render_omnibox_ok(width as int, state@),
    ensures
        final(buffer)@ == apply_writes(old(buffer)@, omnibox_writes(font@, width as int, state@, current_url@)),
{
    let ghost st = state@;
    proof {
        let wi = width as int;
        assert((32 + 32 - 1) * wi == 63 * wi) by (nonlinear_arith);
        assert((38 + 20 - 1) * wi == 57 * wi) by (nonlinear_arith);
        assert((39 + 18 - 1) * wi == 56 * wi) by (nonlinear_arith);
        assert((40 + 16 - 1) * wi == 55 * wi) by (nonlinear_arith);
        assert((40 + 15) * wi == 55 * wi) by (nonlinear_arith);
    }
    let ghost field_w_s = sat_sub(width as int, 20);
    let field_bg = if state.is_focused { OMNI_FIELD_FOCUSED } else { OMNI_FIELD };
    let ghost p1 = rect_writes(width as int, 0, 32, width as nat, 32, OMNI_BG);
    clear_rect(buffer, width, 0, TABBAR_HEIGHT as usize, width, OMNIBOX_HEIGHT as usize, OMNI_BG);
    let padding_x: usize = 10;
    let padding_y: usize = TABBAR_HEIGHT as usize + 8;
    let field_w = if width >= 20 { width - 20 } else { 0 };
    let ghost b1 = buffer@;
    let ghost p2 = rect_writes(width as int, 10, 38, field_w as nat, 20, field_bg);
    clear_rect(buffer, width, padding_x, padding_y - 2, field_w, 20, field_bg);
    let display_text: &str = if state.is_focused { state.input.as_str() } else { current_url };
    let ghost b2 = buffer@;
    let ghost p3 = if st.is_focused && st.select_all_on_type && display_text@.len() > 0 {
        rect_writes(width as int, 15, 39, min_int(display_text@.len() as int * 8, field_w - 10) as nat, 18, OMNI_SELECTION)
    } else {
        Seq::<(int, u32)>::empty()
    };
    if state.is_focused && state.select_all_on_type && !display_text.is_empty() {
        let count = display_text.unicode_len();
        let full = count * 8;
        let sel_w = if full <= field_w - 10 { full } else { field_w - 10 };
        clear_rect(buffer, width, padding_x + 5, padding_y - 1, sel_w, 18, OMNI_SELECTION);
    }
    let ghost b3 = buffer@;
    proof {
        lemma_string_ok(font@, width as int, 15, 40, display_text@, field_w - 10, 0);
    }
    let ghost p4 = string_writes(font@, width as int, 15, 40, display_text@, OMNI_TEXT, field_w - 10);
    draw_string(buffer, width, padding_x + 5, padding_y, display_text, OMNI_TEXT, field_w - 10, font);
    let ghost b4 = buffer@;
    let ghost p5 = if st.is_focused && !st.select_all_on_type && 15 + char_index(st.input, st.cursor) * 8 < width - 10 {
        rect_writes(width as int, 15 + char_index(st.input, st.cursor) * 8, 40, 2, 16, OMNI_CURSOR)
    } else {
        Seq::<(int, u32)>::empty()
    };
    if state.is_focused && !state.select_all_on_type {
        let v = chars_of(state.input.as_str());
        let chars_before_cursor = boundary_char_index(&v, state.cursor_position);
        let cursor_x = padding_x + 5 + chars_before_cursor * 8;
        if cursor_x < width - 10 {
            clear_rect(buffer, width, cursor_x, padding_y, 2, 16, OMNI_CURSOR);
        }
    }
    proof {
        assert(omnibox_writes(font@, width as int, st, current_url@) =~= p1 + p2 + p3 + p4 + p5);
        lemma_apply_concat(old(buffer)@, p1, p2);
        lemma_apply_concat(old(buffer)@, p1 + p2, p3);
        lemma_apply_concat(old(buffer)@, p1 + p2 + p3, p4);
        lemma_apply_concat(old(buffer)@, p1 + p2 + p3 + p4, p5);
        assert(apply_writes(b2, p3) == b3);
        assert(apply_writes(b4, p5) == buffer@);
    }
}


/// The writes that draw the field, selection, text and cursor of the address bar lie in
/// rows `38 .. 58` and columns `10 .. width - 8`.
proof fn lemma_omnibox_field_box(font: Seq<[u8; 16]>, width: int, st: OmniView, url: Seq<char>)
    requires
        render_omnibox_ok(width, st),
    ensures
        omnibox_writes(font, width, st, url) == rect_writes(width, 0, 32, width as nat, 32, OMNI_BG)
            + omnibox_field_writes(font, width, st, url),
        writes_in_box(omnibox_field_writes(font, width, st, url), width, 38, 58, 10, width - 8),
{
    let field_w = sat_sub(width, 20);
    let display = if st.is_focused {
        st.input
    } else {
        url
    };
    let field_bg = if st.is_focused {
        OMNI_FIELD_FOCUSED
    } else {
        OMNI_FIELD
    };
    let (y0, y1, x0, x1) = (38int, 58int, 10int, width - 8);
    let p2 = rect_writes(width, 10, 38, field_w as nat, 20, field_bg);
    let sel_w = min_int(display.len() as int * 8, field_w - 10);
    let p3 = if st.is_focused && st.select_all_on_type && display.len() > 0 {
        rect_writes(width, 15, 39, sel_w as nat, 18, OMNI_SELECTION)
    } else {
        Seq::empty()
    };
    let p4 = string_writes(font, width, 15, 40, display, OMNI_TEXT, field_w - 10);
    let k = char_index(st.input, st.cursor);
    let p5 = if st.is_focused && !st.select_all_on_type && 15 + k * 8 < width - 10 {
        rect_writes(width, 15 + k * 8, 40, 2, 16, OMNI_CURSOR)
    } else {
        Seq::empty()
    };
    assert(omnibox_field_writes(font, width, st, url) == p2 + p3 + p4 + p5);
    lemma_rect_box(width, 10, 38, field_w as nat, 20, field_bg);
    lemma_box_widen(p2, width, 38, 58, 10, 10 + field_w, y0, y1, x0, x1);
    if st.is_focused && st.select_all_on_type && display.len() > 0 {
        lemma_rect_box(width, 15, 39, sel_w as nat, 18, OMNI_SELECTION);
        lemma_box_widen(p3, width, 39, 57, 15, 15 + sel_w, y0, y1, x0, x1);
    }
    lemma_string_writes_box(font, width, 15, 40, display, OMNI_TEXT, field_w - 10);
    lemma_box_widen(p4, width, 40, 56, 15, 15 + field_w - 10, y0, y1, x0, x1);
    if st.is_focused && !st.select_all_on_type && 15 + k * 8 < width - 10 {
        lemma_rect_box(width, 15 + k * 8, 40, 2, 16, OMNI_CURSOR);
        lemma_box_widen(p5, width, 40, 56, 15 + k * 8, 15 + k * 8 + 2, y0, y1, x0, x1);
    }
    lemma_box_concat(p2, p3, width, y0, y1, x0, x1);
    lemma_box_concat(p2 + p3, p4, width, y0, y1, x0, x1);
    lemma_box_concat(p2 + p3 + p4, p5, width, y0, y1, x0, x1);
}

/// Drawing the address bar changes only pixels of its own 32 rows, inside the buffer's width.
pub proof fn law_omnibox_confined(buf: Seq<u32>, font: Seq<[u8; 16]>, width: int, st: OmniView, url: Seq<char>, p: int)
    requires
        render_omnibox_ok(width, st),
        0 <= p < buf.len(),
        apply_writes(buf, omnibox_writes(font, width, st, url))[p] != buf[p],
    ensures
        in_box(p, width, 32, 64, 0, width),
{
    let bg = rect_writes(width, 0, 32, width as nat, 32, OMNI_BG);
    let f = omnibox_field_writes(font, width, st, url);
    lemma_omnibox_field_box(font, width, st, url);
    lemma_rect_box(width, 0, 32, width as nat, 32, OMNI_BG);
    lemma_box_widen(f, width, 38, 58, 10, width - 8, 32, 64, 0, width);
    lemma_box_concat(bg, f, width, 32, 64, 0, width);
    let ws = omnibox_writes(font, width, st, url);
    lemma_apply_changed(buf, ws, p);
    let k = choose|k: int| 0 <= k < ws.len() && (#[trigger] ws[k]).0 == p;
    assert(in_box(ws[k].0, width, 32, 64, 0, width));
}

/// Every pixel of the address bar outside its field (rows `38 .. 58`, columns
/// `10 .. width - 8`) shows the bar's background.
pub proof fn law_omnibox_background(
    buf: Seq<u32>,
    font: Seq<[u8; 16]>,
    width: int,
    st: OmniView,
    url: Seq<char>,
    r: int,
    c: int,
)
    requires
        render_omnibox_ok(width, st),
        32 <= r < 64,
        0 <= c < width,
        !(38 <= r < 58 && 10 <= c < width - 8),
        0 <= pixel_index(width, r, c) < buf.len(),
    ensures
        apply_writes(buf, omnibox_writes(font, width, st, url))[pixel_index(width, r, c)] == OMNI_BG,
{
    let idx = pixel_index(width, r, c);
    let bg = rect_writes(width, 0, 32, width as nat, 32, OMNI_BG);
    let f = omnibox_field_writes(font, width, st, url);
    lemma_omnibox_field_box(font, width, st, url);
    lemma_apply_concat(buf, bg, f);
    lemma_apply_len(buf, bg);
    lemma_row_span(idx, width, r, c, 1);
    law_fill_rect(buf, width, 0, 32, width as nat, 32, OMNI_BG, idx);
    lemma_apply_outside_box(apply_writes(buf, bg), f, width, r, c, 38, 58, 10, width - 8);
}

/// The result of trimming neither starts nor ends with white space.
proof fn lemma_trim_ends(s: Seq<char>)
    ensures
        trim(s).len() > 0 ==> !is_ws(trim(s)[0]) && !is_ws(trim(s).last()),
{
    lemma_trim_start_first(s);
    lemma_trim_end_keeps_first(trim_start(s));
}

proof fn lemma_trim_start_first(s: Seq<char>)
    ensures
        trim_start(s).len() > 0 ==> !is_ws(trim_start(s)[0]),
    decreases s.len(),
{
    if s.len() > 0 && is_ws(s[0]) {
        lemma_trim_start_first(s.drop_first());
    }
}

proof fn lemma_trim_end_keeps_first(s: Seq<char>)
    ensures
        trim_end(s).len() > 0 ==> trim_end(s)[0] == s[0] && !is_ws(trim_end(s).last()),
    decreases s.len(),
{
    if s.len() > 0 && is_ws(s.last()) {
        lemma_trim_end_keeps_first(s.drop_last());
    }
}


/// Whether the address for `input` is completed or kept rather than searched for.
pub open spec fn is_address(input: Seq<char>) -> bool {
    let t = trim(input);
    ||| t.len() == 0
    ||| has_prefix(t, "http://"@) || has_prefix(t, "https://"@) || has_prefix(t, "file://"@)
        || has_prefix(t, "magma://"@)
    ||| has_prefix(t, "localhost:"@) || has_prefix(t, "127.0.0.1"@)
    ||| t.contains('.') && !t.contains(' ')
}

/// Typing again an address that the omnibox produced (rather than a search) leads to the same address.
pub proof fn law_resolve_address_stable(input: Seq<char>, search_engine: Seq<char>)
    requires
        is_address(input),
    ensures
        navigation_target(navigation_target(input, search_engine), search_engine) == navigation_target(
            input,
            search_engine,
        ),
{
    reveal_strlit("http://");
    reveal_strlit("https://");
    let t = trim(input);
    let r = navigation_target(input, search_engine);
    lemma_trim_ends(input);
    if t.len() == 0 {
        assert(r.len() == 0);
        assert(trim_start(r) == r);
        assert(trim_end(r) == r);
    } else if has_prefix(t, "http://"@) || has_prefix(t, "https://"@) || has_prefix(t, "file://"@)
        || has_prefix(t, "magma://"@) {
        crate::text::lemma_trim_noop(t);
    } else {
        let scheme = if has_prefix(t, "localhost:"@) || has_prefix(t, "127.0.0.1"@) {
            "http://"@
        } else {
            "https://"@
        };
        assert(r == scheme + t);
        assert(r[0] == 'h');
        assert(r.last() == t.last());
        crate::text::lemma_trim_noop(r);
        assert(r.take(scheme.len() as int) =~= scheme);
        if scheme == "http://"@ {
            assert(has_prefix(r, "http://"@));
        } else {
            assert(has_prefix(r, "https://"@));
        }
    }
}

} // verus!

use unicode_width::UnicodeWidthStr;

use vstd::prelude::*;
use vstd::std_specs::iter::IteratorSpec;

use crate::group::GroupItem;
use crate::store::DataManager;
use crate::task::{TaskItem, forest_done, forest_size};

verus! {

/// Which pane has the keyboard.
#[derive(Copy, Clone, PartialEq, Eq, Structural, Debug)]
pub enum FocusedLayout {
    Unfocused,
    GroupsLayout,
    TasksLayout,
    ControlsLayout,
}

/// What keystrokes in a pane do: move around, or type a new or edited name.
#[derive(Copy, Clone, PartialEq, Eq, Structural, Debug)]
pub enum InputMode {
    Navigate,
    Add,
    Edit,
}

/// Columns that the text `s` takes up on a terminal.
pub uninterp spec fn display_width(s: Seq<char>) -> usize;

/// Relies on `unicode_width::UnicodeWidthStr::width` for `str`: the displayed width of a string
/// depends on its characters alone, and an empty string takes no columns.
#[verifier::external_body]
fn text_width(s: &str) -> (r: usize)
    ensures
        r == display_width(s@),
        s@.len() == 0 ==> r == 0,
{
    s.width()
}

/// Where rendering of an input of display width `width` starts in `max_string_width` columns.
pub open spec fn input_start_for_width_spec(width: usize, max_string_width: usize) -> usize {
    if width > max_string_width {
        (width - max_string_width) as usize
    } else {
        0
    }
}

/// Where rendering of an input of the given width starts so that its end stays visible in
/// `max_string_width` columns.
pub fn input_start_for_width(width: usize, max_string_width: usize) -> (r: usize)
    ensures
        r == if width > max_string_width { width - max_string_width } else { 0 },
{
    if width > max_string_width {
        width - max_string_width
    } else {
        0
    }
}

/// The character of the decimal digit `d` (below ten).
pub open spec fn digit_char(d: nat) -> char {
    if d == 0 {
        '0'
    } else if d == 1 {
        '1'
    } else if d == 2 {
        '2'
    } else if d == 3 {
        '3'
    } else if d == 4 {
        '4'
    } else if d == 5 {
        '5'
    } else if d == 6 {
        '6'
    } else if d == 7 {
        '7'
    } else if d == 8 {
        '8'
    } else {
        '9'
    }
}

/// The base-10 digits of `n`, most significant first, without leading zeros.
pub open spec fn decimal(n: nat) -> Seq<char>
    decreases n,
{
    if n < 10 {
        seq![digit_char(n)]
    } else {
        decimal(n / 10).push(digit_char(n % 10))
    }
}

/// The progress label ` (done/total)` of a list of subtasks.
pub open spec fn progress_label(done: nat, total: nat) -> Seq<char> {
    seq![' ', '('] + decimal(done) + seq!['/'] + decimal(total) + seq![')']
}

/// Appends the digit `d` (below ten).
fn push_digit(out: &mut String, d: usize)
    requires
        d < 10,
    ensures
        final(out)@ == old(out)@.push(digit_char(d as nat)),
{
    let c = if d == 0 {
        '0'
    } else if d == 1 {
        '1'
    } else if d == 2 {
        '2'
    } else if d == 3 {
        '3'
    } else if d == 4 {
        '4'
    } else if d == 5 {
        '5'
    } else if d == 6 {
        '6'
    } else if d == 7 {
        '7'
    } else if d == 8 {
        '8'
    } else {
        '9'
    };
    push_char(out, c);
}

/// Appends the base-10 digits of `n`.
fn push_decimal(out: &mut String, n: usize)
    ensures
        final(out)@ == old(out)@ + decimal(n as nat),
    decreases n,
{
    if n >= 10 {
        push_decimal(out, n / 10);
        push_digit(out, n % 10);
        proof {
            assert(final(out)@ =~= old(out)@ + decimal(n as nat)) by {
                assert(decimal(n as nat) == decimal((n / 10) as nat).push(digit_char((n % 10) as nat)));
            }
        }
    } else {
        push_digit(out, n);
        proof {
            assert(final(out)@ =~= old(out)@ + decimal(n as nat));
        }
    }
}

/// Relies on `String::push`: the character is appended at the end.
#[verifier::external_body]
fn push_char(s: &mut String, c: char)
    ensures
        final(s)@ == old(s)@.push(c),
{
    s.push(c)
}

/// `s` with `c` put in at character position `at`, or at the end when `at` is past it.
pub open spec fn with_char_at(s: Seq<char>, at: int, c: char) -> Seq<char> {
    let p = if at < s.len() { at } else { s.len() as int };
    s.take(p).push(c) + s.skip(p)
}

/// `s` without the character at position `at`; unchanged when there is none.
pub open spec fn without_char_at(s: Seq<char>, at: int) -> Seq<char> {
    if 0 <= at < s.len() {
        s.remove(at)
    } else {
        s
    }
}

/// Copies `input` character by character, putting `insert` in at position `at` (at the end
/// when `at` is past it) and leaving out the character at position `skip`.
fn rebuilt(input: &str, at: usize, insert: Option<char>, skip: usize) -> (r: String)
    requires
        input@.len() < usize::MAX,
    ensures
        insert is Some ==> r@ == with_char_at(input@, at as int, insert->0),
        insert is None ==> r@ == without_char_at(input@, skip as int),
{
    let ghost s = input@;
    let mut out = String::new();
    let mut placed = false;
    if let Some(c) = insert {
        if at == 0 {
            push_char(&mut out, c);
            placed = true;
        }
    }
    let mut it = input.chars();
    let mut i: usize = 0;
    proof {
        assert(s.skip(0) =~= s);
        assert(s.take(0) =~= Seq::<char>::empty());
        assert(s.subrange(0, 0) =~= Seq::<char>::empty());
    }
    loop
        invariant
            it.remaining() == s.skip(i as int),
            i <= s.len(),
            s.len() < usize::MAX,
            placed == (insert is Some && at <= i),
            insert is Some ==> out@ == if at <= i {
                s.take(at as int).push(insert->0) + s.subrange(at as int, i as int)
            } else {
                s.take(i as int)
            },
            insert is None ==> out@ == if skip < i {
                s.take(i as int).remove(skip as int)
            } else {
                s.take(i as int)
            },
        ensures
            i == s.len(),
        decreases s.len() - i,
    {
        match it.next() {
            Some(ch) => {
                proof {
                    assert(s.skip(i as int)[0] == s[i as int]);
                    assert(s.skip(i as int).drop_first() =~= s.skip(i + 1));
                    assert(s.take(i + 1) =~= s.take(i as int).push(ch));
                }
                if insert.is_some() || i != skip {
                    push_char(&mut out, ch);
                }
                proof {
                    if insert is Some && at <= i {
                        assert(s.subrange(at as int, i + 1) =~= s.subrange(at as int, i as int).push(ch));
                    }
                    if insert is None && skip <= i {
                        assert(s.take(i + 1).remove(skip as int) =~= if skip == i {
                            s.take(i as int)
                        } else {
                            s.take(i as int).remove(skip as int).push(ch)
                        });
                    }
                }
                i += 1;
                if let Some(c) = insert {
                    if i == at {
                        push_char(&mut out, c);
                        placed = true;
                        proof {
                            assert(s.subrange(at as int, i as int) =~= Seq::<char>::empty());
                        }
                    }
                }
            },
            None => {
                proof {
                    assert(s.skip(i as int).len() == 0);
                }
                break;
            },
        }
    }
    proof {
        assert(i == s.len());
        assert(s.take(s.len() as int) =~= s);
        assert(s.skip(s.len() as int) =~= Seq::<char>::empty());
        if insert is Some && at <= s.len() {
            assert(s.subrange(at as int, s.len() as int) =~= s.skip(at as int));
        }
    }
    if let Some(c) = insert {
        if !placed {
            push_char(&mut out, c);
        }
    }
    out
}

/// The state of a pane's text input.
pub struct LayoutCommon {
    pub input_mode: InputMode,
    pub input: String,
    pub cursor_pos: usize,
    pub starting_rendering_input_point: usize,
    pub max_string_width: usize,
}

impl LayoutCommon {
    /// Navigating, with an empty input and everything at zero.
    pub fn new() -> (r: LayoutCommon)
        ensures
            r.input_mode == InputMode::Navigate,
            r.input@.len() == 0,
            r.cursor_pos == 0,
            r.starting_rendering_input_point == 0,
            r.max_string_width == 0,
    {
        LayoutCommon {
            input_mode: InputMode::Navigate,
            input: String::new(),
            cursor_pos: 0,
            starting_rendering_input_point: 0,
            max_string_width: 0,
        }
    }

    /// Moves the start of the rendered input so that its end fits in `max_string_width`
    /// columns.
    pub fn recalculate_input_string_starting_point(layout_common: &mut LayoutCommon)
        ensures
            final(layout_common).starting_rendering_input_point == if display_width(
                old(layout_common).input@,
            ) > old(layout_common).max_string_width {
                display_width(old(layout_common).input@) - old(layout_common).max_string_width
            } else {
                0
            },
            final(layout_common).input == old(layout_common).input,
            final(layout_common).input_mode == old(layout_common).input_mode,
            final(layout_common).cursor_pos == old(layout_common).cursor_pos,
            final(layout_common).max_string_width == old(layout_common).max_string_width,
    {
        let width = text_width(layout_common.input.as_str());
        layout_common.starting_rendering_input_point = input_start_for_width(
            width,
            layout_common.max_string_width,
        );
    }

    /// Whether the pane is taking a new or edited name.
    pub fn is_in_edit_mode(&self) -> (r: bool)
        ensures
            r == (self.input_mode == InputMode::Add || self.input_mode == InputMode::Edit),
    {
        self.input_mode == InputMode::Add || self.input_mode == InputMode::Edit
    }

    /// Moves the input cursor one column left, or scrolls the rendered input left when the
    /// cursor is at its visible start.
    pub fn left_key_input_mode(&mut self)
        requires
            old(self).starting_rendering_input_point <= old(self).cursor_pos,
        ensures
            old(self).cursor_pos > old(self).starting_rendering_input_point ==> final(self).cursor_pos
                == old(self).cursor_pos - 1 && final(self).starting_rendering_input_point == old(
                self,
            ).starting_rendering_input_point,
            old(self).cursor_pos == old(self).starting_rendering_input_point ==> final(self).cursor_pos
                == old(self).cursor_pos && final(self).starting_rendering_input_point == if old(
                self,
            ).starting_rendering_input_point > 0 {
                old(self).starting_rendering_input_point - 1
            } else {
                0
            },
            final(self).input == old(self).input,
            final(self).input_mode == old(self).input_mode,
            final(self).max_string_width == old(self).max_string_width,
    {
        if self.cursor_pos - self.starting_rendering_input_point > 0 {
            self.cursor_pos -= 1;
        } else {
            if self.starting_rendering_input_point > 0 {
                self.starting_rendering_input_point -= 1;
            }
        }
    }

    /// Moves the input cursor one column right, given the input's display width; when the
    /// cursor is at the visible end it scrolls the rendered input instead, and at the end of
    /// the input nothing moves.
    pub fn right_key_with_width(&mut self, width: usize)
        requires
            old(self).starting_rendering_input_point <= old(self).cursor_pos,
        ensures
            ({
                let c = old(self).cursor_pos;
                let st = old(self).starting_rendering_input_point;
                let m = old(self).max_string_width;
                if c < width && c - st < m {
                    final(self).cursor_pos == c + 1 && final(self).starting_rendering_input_point == st
                } else if c < width && width > m && st < width - m {
                    final(self).cursor_pos == c && final(self).starting_rendering_input_point == st + 1
                } else {
                    final(self).cursor_pos == c && final(self).starting_rendering_input_point == st
                }
            }),
            final(self).input == old(self).input,
            final(self).input_mode == old(self).input_mode,
            final(self).max_string_width == old(self).max_string_width,
    {
        if self.cursor_pos < width {
            if self.cursor_pos - self.starting_rendering_input_point < self.max_string_width {
                self.cursor_pos += 1;
            } else if width > self.max_string_width && self.starting_rendering_input_point < width
                - self.max_string_width {
                self.starting_rendering_input_point += 1;
            }
        }
    }

    /// Moves the input cursor one column right, as `right_key_with_width` does with the
    /// display width of the input.
    pub fn right_key_input_mode(&mut self)
        requires
            old(self).starting_rendering_input_point <= old(self).cursor_pos,
        ensures
            ({
                let width = display_width(old(self).input@);
                let c = old(self).cursor_pos;
                let st = old(self).starting_rendering_input_point;
                let m = old(self).max_string_width;
                if c < width && c - st < m {
                    final(self).cursor_pos == c + 1 && final(self).starting_rendering_input_point == st
                } else if c < width && width > m && st < width - m {
                    final(self).cursor_pos == c && final(self).starting_rendering_input_point == st + 1
                } else {
                    final(self).cursor_pos == c && final(self).starting_rendering_input_point == st
                }
            }),
            final(self).input == old(self).input,
            final(self).input_mode == old(self).input_mode,
            final(self).max_string_width == old(self).max_string_width,
    {
        let width = text_width(self.input.as_str());
        self.right_key_with_width(width);
    }

    /// Types `c` at the cursor, moves the cursor past it and scrolls as needed.
    pub fn char_input_mode(&mut self, c: char)
        requires
            old(self).cursor_pos < usize::MAX,
            old(self).input@.len() < usize::MAX,
        ensures
            final(self).input@ == with_char_at(old(self).input@, old(self).cursor_pos as int, c),
            final(self).cursor_pos == old(self).cursor_pos + 1,
            final(self).starting_rendering_input_point == input_start_for_width_spec(
                display_width(final(self).input@),
                old(self).max_string_width,
            ),
            final(self).input_mode == old(self).input_mode,
            final(self).max_string_width == old(self).max_string_width,
    {
        self.input = rebuilt(self.input.as_str(), self.cursor_pos, Some(c), 0);
        self.cursor_pos += 1;
        LayoutCommon::recalculate_input_string_starting_point(self);
    }

    /// Erases the character before the cursor, if any, moving the cursor back, and scrolls as
    /// needed.
    pub fn backspace_key_input_mode(&mut self)
        requires
            old(self).input@.len() < usize::MAX,
        ensures
            old(self).cursor_pos > 0 ==> final(self).input@ == without_char_at(
                old(self).input@,
                old(self).cursor_pos - 1,
            ) && final(self).cursor_pos == old(self).cursor_pos - 1,
            old(self).cursor_pos == 0 ==> final(self).input == old(self).input
                && final(self).cursor_pos == 0,
            final(self).starting_rendering_input_point == input_start_for_width_spec(
                display_width(final(self).input@),
                old(self).max_string_width,
            ),
            final(self).input_mode == old(self).input_mode,
            final(self).max_string_width == old(self).max_string_width,
    {
        if self.cursor_pos > 0 {
            self.input = rebuilt(self.input.as_str(), 0, None, self.cursor_pos - 1);
            self.cursor_pos -= 1;
        }
        LayoutCommon::recalculate_input_string_starting_point(self);
    }

    /// Erases the character under the cursor, if any.
    pub fn delete_key_input_mode(&mut self)
        requires
            old(self).input@.len() < usize::MAX,
        ensures
            final(self).input@ == without_char_at(old(self).input@, old(self).cursor_pos as int),
            final(self).cursor_pos == old(self).cursor_pos,
            final(self).starting_rendering_input_point == old(self).starting_rendering_input_point,
            final(self).input_mode == old(self).input_mode,
            final(self).max_string_width == old(self).max_string_width,
    {
        self.input = rebuilt(self.input.as_str(), 0, None, self.cursor_pos);
    }

    /// Leaves text input without applying it.
    pub fn esc_key_input_mode(&mut self)
        ensures
            final(self).input_mode == InputMode::Navigate,
            final(self).input == old(self).input,
            final(self).cursor_pos == old(self).cursor_pos,
            final(self).starting_rendering_input_point == old(self).starting_rendering_input_point,
            final(self).max_string_width == old(self).max_string_width,
    {
        self.input_mode = InputMode::Navigate;
    }
}

/// The pane listing the groups.
pub struct GroupLayout {
    pub layout_common: LayoutCommon,
}

impl GroupLayout {
    pub fn new() -> (r: GroupLayout)
        ensures
            r.layout_common.input_mode == InputMode::Navigate,
            r.layout_common.input@.len() == 0,
            r.layout_common.cursor_pos == 0,
    {
        GroupLayout { layout_common: LayoutCommon::new() }
    }
}

/// The pane listing the tasks of the selected group.
pub struct TaskLayout {
    pub layout_common: LayoutCommon,
    pub is_adding_subtask: bool,
}

impl TaskLayout {
    pub fn new() -> (r: TaskLayout)
        ensures
            r.layout_common.input_mode == InputMode::Navigate,
            r.layout_common.input@.len() == 0,
            r.layout_common.cursor_pos == 0,
            !r.is_adding_subtask,
    {
        TaskLayout { layout_common: LayoutCommon::new(), is_adding_subtask: false }
    }
}

impl TaskLayout {
    /// The progress label shown after a task: ` (done/total)` over all its subtasks at every
    /// depth, or nothing when it has none. The counts come from `tasks` alone.
    pub fn sub_tasks_string(_data_manager: &DataManager, tasks: &Vec<TaskItem>) -> (r: String)
        requires
            forest_size(tasks@) <= usize::MAX,
        ensures
            forest_size(tasks@) == 0 ==> r@.len() == 0,
            forest_size(tasks@) > 0 ==> r@ == progress_label(forest_done(tasks@), forest_size(tasks@)),
    {
        let (total, done) = GroupItem::get_tasks_and_subtasks_count_recursive(tasks);
        if total == 0 {
            return String::new();
        }
        let mut label = String::new();
        push_char(&mut label, ' ');
        push_char(&mut label, '(');
        push_decimal(&mut label, done);
        push_char(&mut label, '/');
        push_decimal(&mut label, total);
        push_char(&mut label, ')');
        proof {
            assert(label@ =~= progress_label(done as nat, total as nat));
        }
        label
    }
}

/// The pane showing the controls.
pub struct ControlsLayout;

impl ControlsLayout {
    pub fn new() -> (r: ControlsLayout) {
        ControlsLayout {  }
    }
}

/// The whole application state: which pane has focus, the panes, and the store.
pub struct App {
    pub focused_layout: FocusedLayout,
    pub last_layout: FocusedLayout,
    pub group_layout: GroupLayout,
    pub task_layout: TaskLayout,
    pub controls_layout: ControlsLayout,
    pub run: bool,
    pub data_manager: DataManager,
}

impl App {
    /// Focus on the groups, no earlier focus, empty store, running.
    pub fn new() -> (r: App)
        ensures
            r.focused_layout == FocusedLayout::GroupsLayout,
            r.last_layout == FocusedLayout::Unfocused,
            r.run,
            r.data_manager.groups@.len() == 0,
            !r.group_layout.layout_common.is_in_edit_mode_spec(),
            !r.task_layout.layout_common.is_in_edit_mode_spec(),
    {
        App {
            focused_layout: FocusedLayout::GroupsLayout,
            last_layout: FocusedLayout::Unfocused,
            group_layout: GroupLayout::new(),
            task_layout: TaskLayout::new(),
            controls_layout: ControlsLayout::new(),
            run: true,
            data_manager: DataManager::new(),
        }
    }

    /// Moves focus to `new_focused_layout`, remembering the pane that had it.
    pub fn update_state(&mut self, new_focused_layout: FocusedLayout)
        ensures
            final(self).last_layout == old(self).focused_layout,
            final(self).focused_layout == new_focused_layout,
            final(self).run == old(self).run,
            final(self).group_layout == old(self).group_layout,
            final(self).task_layout == old(self).task_layout,
            final(self).controls_layout == old(self).controls_layout,
            final(self).data_manager == old(self).data_manager,
    {
        self.last_layout = self.focused_layout;
        self.focused_layout = new_focused_layout;
    }

    /// Whether either pane is taking a name.
    pub fn is_in_edit_mode(&self) -> (r: bool)
        ensures
            r == (self.group_layout.layout_common.is_in_edit_mode_spec()
                || self.task_layout.layout_common.is_in_edit_mode_spec()),
    {
        self.group_layout.layout_common.is_in_edit_mode() || self.task_layout.layout_common.is_in_edit_mode()
    }
}

impl LayoutCommon {
    pub open spec fn is_in_edit_mode_spec(&self) -> bool {
        self.input_mode == InputMode::Add || self.input_mode == InputMode::Edit
    }
}

} // verus!

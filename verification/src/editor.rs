//! Editor-wide state machines: the editor mode, what a shortcut does in a
//! given mode, panel and theme identifiers, and the grid's line classes
//! and ASCII rendering.

use crate::selection::EntityId;
use crate::shortcuts::EditorAction;
use vstd::prelude::*;

verus! {

/// The current operational mode of the editor.
#[derive(Debug, Clone, Copy, PartialEq, Eq, Structural)]
pub enum EditorMode {
    /// Scene is running at full speed.
    Play,
    /// Scene is frozen; user edits geometry / properties.
    Edit,
    /// Scene is running at reduced speed or frame-by-frame.
    Pause,
}

impl Default for EditorMode {
    fn default() -> (r: Self)
        ensures
            r == EditorMode::Edit,
    {
        EditorMode::Edit
    }
}

/// Display label of a mode.
pub open spec fn editor_mode_label(m: EditorMode) -> Seq<char> {
    match m {
        EditorMode::Play => "PLAY"@,
        EditorMode::Edit => "EDIT"@,
        EditorMode::Pause => "PAUSE"@,
    }
}

/// Mode after the play toggle: playing stops to edit, otherwise play.
pub open spec fn play_toggled(m: EditorMode) -> EditorMode {
    match m {
        EditorMode::Play => EditorMode::Edit,
        EditorMode::Edit => EditorMode::Play,
        EditorMode::Pause => EditorMode::Play,
    }
}

/// Mode after the pause toggle: play and pause swap, edit stays.
pub open spec fn pause_toggled(m: EditorMode) -> EditorMode {
    match m {
        EditorMode::Play => EditorMode::Pause,
        EditorMode::Pause => EditorMode::Play,
        EditorMode::Edit => EditorMode::Edit,
    }
}

impl EditorMode {
    pub fn label(&self) -> (r: &'static str)
        ensures
            r@ == editor_mode_label(*self),
    {
        match self {
            EditorMode::Play => "PLAY",
            EditorMode::Edit => "EDIT",
            EditorMode::Pause => "PAUSE",
        }
    }

    pub fn toggled_play(self) -> (r: EditorMode)
        ensures
            r == play_toggled(self),
    {
        match self {
            EditorMode::Play => EditorMode::Edit,
            EditorMode::Edit => EditorMode::Play,
            EditorMode::Pause => EditorMode::Play,
        }
    }

    pub fn toggled_pause(self) -> (r: EditorMode)
        ensures
            r == pause_toggled(self),
    {
        match self {
            EditorMode::Play => EditorMode::Pause,
            EditorMode::Pause => EditorMode::Play,
            EditorMode::Edit => EditorMode::Edit,
        }
    }
}

/// Pausing twice returns to the mode one started from.
pub proof fn lemma_pause_toggle_involutive(m: EditorMode)
    ensures
        pause_toggled(pause_toggled(m)) == m,
{
}

/// Toggling play twice from a running or editing scene returns to it.
pub proof fn lemma_play_toggle_involutive(m: EditorMode)
    requires
        m != EditorMode::Pause,
    ensures
        play_toggled(play_toggled(m)) == m,
{
}

/// Visual colour scheme for the editor UI.
#[derive(Debug, Clone, Copy, PartialEq, Eq, Structural)]
pub enum EditorTheme {
    Dark,
    Light,
    HighContrast,
    Solarized,
}

/// A dockable editor panel.
#[derive(Debug, Clone, Copy, PartialEq, Eq, Structural)]
pub enum PanelId {
    Hierarchy,
    Inspector,
    Console,
    Viewport,
    Toolbar,
    AssetBrowser,
}

/// Sets a named string property on an entity; undoing writes `old_value` back.
#[derive(Debug)]
pub struct SetPropertyCommand {
    pub entity_id: EntityId,
    pub property: String,
    pub old_value: String,
    pub new_value: String,
}

/// Groups entities under a shared label; undoing removes the group again.
#[derive(Debug)]
pub struct GroupSelectionCommand {
    pub group_id: EntityId,
    pub members: Vec<EntityId>,
    pub group_name: String,
    pub executed: bool,
}

/// What handling a resolved shortcut does to the editor.
#[derive(Debug, Clone, Copy, PartialEq, Eq, Structural)]
pub enum ShortcutEffect {
    Undo,
    Redo,
    SetMode(EditorMode),
    ToggleHierarchy,
    ToggleInspector,
    ToggleConsole,
    FocusSelected,
    ToggleSnap,
    Nothing,
}

/// The effect of an action in the given mode.
pub open spec fn effect_of(action: EditorAction, mode: EditorMode) -> ShortcutEffect {
    match action {
        EditorAction::Undo => ShortcutEffect::Undo,
        EditorAction::Redo => ShortcutEffect::Redo,
        EditorAction::TogglePlay => ShortcutEffect::SetMode(play_toggled(mode)),
        EditorAction::TogglePause => ShortcutEffect::SetMode(pause_toggled(mode)),
        EditorAction::ToggleHierarchy => ShortcutEffect::ToggleHierarchy,
        EditorAction::ToggleInspector => ShortcutEffect::ToggleInspector,
        EditorAction::ToggleConsole => ShortcutEffect::ToggleConsole,
        EditorAction::FocusSelected => ShortcutEffect::FocusSelected,
        EditorAction::SnapToggle => ShortcutEffect::ToggleSnap,
        _ => ShortcutEffect::Nothing,
    }
}

/// What each action does, over every mode: only the undo action undoes and
/// only the redo action redoes; only the play and pause toggles change the
/// mode, and every other effect is the same in every mode; toggling play
/// starts playing from editing or pause and returns to editing from play;
/// toggling pause swaps playing and paused and is ignored while editing.
pub proof fn lemma_effect_of_actions(action: EditorAction, mode: EditorMode, other: EditorMode)
    ensures
        (effect_of(action, mode) == ShortcutEffect::Undo) <==> (action is Undo),
        (effect_of(action, mode) == ShortcutEffect::Redo) <==> (action is Redo),
        (effect_of(action, mode) is SetMode) <==> (action is TogglePlay || action is TogglePause),
        !(action is TogglePlay || action is TogglePause) ==> effect_of(action, mode) == effect_of(action, other),
        action is TogglePlay ==> effect_of(action, mode) != ShortcutEffect::SetMode(mode),
        action is TogglePlay && mode == EditorMode::Edit ==> effect_of(action, mode) == ShortcutEffect::SetMode(EditorMode::Play),
        action is TogglePlay && mode == EditorMode::Play ==> effect_of(action, mode) == ShortcutEffect::SetMode(EditorMode::Edit),
        action is TogglePlay && mode == EditorMode::Pause ==> effect_of(action, mode) == ShortcutEffect::SetMode(EditorMode::Play),
        action is TogglePause && mode == EditorMode::Edit ==> effect_of(action, mode) == ShortcutEffect::SetMode(EditorMode::Edit),
        action is TogglePause && mode == EditorMode::Play ==> effect_of(action, mode) == ShortcutEffect::SetMode(EditorMode::Pause),
        action is TogglePause && mode == EditorMode::Pause ==> effect_of(action, mode) == ShortcutEffect::SetMode(EditorMode::Play),
        (effect_of(action, mode) == ShortcutEffect::ToggleHierarchy) <==> (action is ToggleHierarchy),
        (effect_of(action, mode) == ShortcutEffect::ToggleInspector) <==> (action is ToggleInspector),
        (effect_of(action, mode) == ShortcutEffect::ToggleConsole) <==> (action is ToggleConsole),
        (effect_of(action, mode) == ShortcutEffect::FocusSelected) <==> (action is FocusSelected),
        (effect_of(action, mode) == ShortcutEffect::ToggleSnap) <==> (action is SnapToggle),
{
}

/// The default Ctrl+Z undoes and the default Ctrl+Y redoes, whatever the mode.
pub proof fn lemma_default_undo_redo_shortcuts(mode: EditorMode)
    ensures
        crate::shortcuts::default_binding(crate::shortcuts::ctrl_key('z')) matches Some(a)
            && effect_of(a, mode) == ShortcutEffect::Undo,
        crate::shortcuts::default_binding(crate::shortcuts::ctrl_key('y')) matches Some(a)
            && effect_of(a, mode) == ShortcutEffect::Redo,
{
    crate::shortcuts::lemma_default_shortcut_of_each_action(crate::shortcuts::ctrl_key('z'));
    crate::shortcuts::lemma_default_shortcut_of_each_action(crate::shortcuts::ctrl_key('y'));
    lemma_effect_of_actions(EditorAction::Undo, mode, mode);
    lemma_effect_of_actions(EditorAction::Redo, mode, mode);
}

/// Decides what a shortcut's action does when the editor is in `mode`.
pub fn shortcut_effect(action: &EditorAction, mode: EditorMode) -> (r: ShortcutEffect)
    ensures
        r == effect_of(*action, mode),
{
    match action {
        EditorAction::Undo => ShortcutEffect::Undo,
        EditorAction::Redo => ShortcutEffect::Redo,
        EditorAction::TogglePlay => ShortcutEffect::SetMode(mode.toggled_play()),
        EditorAction::TogglePause => ShortcutEffect::SetMode(mode.toggled_pause()),
        EditorAction::ToggleHierarchy => ShortcutEffect::ToggleHierarchy,
        EditorAction::ToggleInspector => ShortcutEffect::ToggleInspector,
        EditorAction::ToggleConsole => ShortcutEffect::ToggleConsole,
        EditorAction::FocusSelected => ShortcutEffect::FocusSelected,
        EditorAction::SnapToggle => ShortcutEffect::ToggleSnap,
        _ => ShortcutEffect::Nothing,
    }
}

/// How a grid line is drawn.
#[derive(Debug, Clone, Copy, PartialEq, Eq, Structural)]
pub enum GridLineClass {
    Origin,
    Major,
    Minor,
}

/// Class of the grid line with the given cell index: the line through the
/// origin, every `major_every`-th line, or an ordinary line.
pub open spec fn grid_line_class(index: i32, major_every: u32) -> GridLineClass {
    if index == 0 {
        GridLineClass::Origin
    } else if (if index < 0 { -index } else { index as int }) % (major_every as int) == 0 {
        GridLineClass::Major
    } else {
        GridLineClass::Minor
    }
}

pub fn classify_grid_line(index: i32, major_every: u32) -> (r: GridLineClass)
    requires
        major_every > 0,
    ensures
        r == grid_line_class(index, major_every),
{
    if index == 0 {
        return GridLineClass::Origin;
    }
    let magnitude: u32 = if index < 0 {
        if index == i32::MIN {
            2147483648u32
        } else {
            (-index) as u32
        }
    } else {
        index as u32
    };
    if magnitude % major_every == 0 {
        GridLineClass::Major
    } else {
        GridLineClass::Minor
    }
}

/// Character at (`row`, `col`) of the ASCII grid: crossings of major rows
/// and columns are `+`, the rest of a major row `-`, of a major column `|`.
pub open spec fn grid_ascii_char(row: int, col: int, major_every: int) -> char {
    let h = row % major_every == 0;
    let v = col % major_every == 0;
    if h && v {
        '+'
    } else if h {
        '-'
    } else if v {
        '|'
    } else {
        ' '
    }
}

/// The ASCII grid: `height` lines of `width` characters, each ended by a newline.
pub open spec fn grid_ascii(width: nat, height: nat, major_every: int) -> Seq<char> {
    Seq::new(
        height * (width + 1),
        |i: int|
            if i % ((width + 1) as int) == width {
                '\n'
            } else {
                grid_ascii_char(i / ((width + 1) as int), i % ((width + 1) as int), major_every)
            },
    )
}

/// `String::push`: the string afterwards holds its old characters followed by `c`.
#[verifier::external_body]
pub(crate) fn push_char(s: &mut String, c: char)
    ensures
        final(s)@ == old(s)@.push(c),
{
    s.push(c);
}

/// Renders the grid as ASCII art for debug output.
pub fn render_grid_ascii(major_every: u32, width: usize, height: usize) -> (r: String)
    requires
        width > 0 && height > 0 ==> major_every > 0,
        height * (width + 1) <= usize::MAX,
    ensures
        r@ == grid_ascii(width as nat, height as nat, major_every as int),
{
    let m = major_every as usize;
    let mut out = String::new();
    let ghost w1 = width + 1;
    let mut row: usize = 0;
    while row < height
        invariant
            m == major_every as usize,
            width > 0 && height > 0 ==> m > 0,
            w1 == width + 1,
            height * (width + 1) <= usize::MAX,
            0 <= row <= height,
            out@.len() == row * w1,
            forall|i: int| 0 <= i < out@.len() ==> #[trigger] out@[i] == grid_ascii(width as nat, height as nat, major_every as int)[i],
        decreases height - row,
    {
        let mut col: usize = 0;
        proof {
            assert(row * w1 + w1 == (row + 1) * w1) by (nonlinear_arith);
            assert((row + 1) * w1 <= height * w1) by (nonlinear_arith)
                requires row + 1 <= height, w1 >= 0;
        }
        while col < width
            invariant
                m == major_every as usize,
                width > 0 && height > 0 ==> m > 0,
                w1 == width + 1,
                (row + 1) * w1 <= height * w1,
                row < height,
                0 <= col <= width,
                out@.len() == row * w1 + col,
                forall|i: int| 0 <= i < out@.len() ==> #[trigger] out@[i] == grid_ascii(width as nat, height as nat, major_every as int)[i],
            decreases width - col,
        {
            let on_major_h = row % m == 0;
            let on_major_v = col % m == 0;
            let ch = if on_major_h && on_major_v {
                '+'
            } else if on_major_h {
                '-'
            } else if on_major_v {
                '|'
            } else {
                ' '
            };
            proof {
                let i = row * w1 + col;
                assert(i / w1 == row && i % w1 == col) by (nonlinear_arith)
                    requires i == row * w1 + col, 0 <= col < w1, row >= 0;
                assert(i < height * w1) by (nonlinear_arith)
                    requires i == row * w1 + col, col < w1, (row + 1) * w1 <= height * w1;
                assert(ch == grid_ascii(width as nat, height as nat, major_every as int)[i]);
            }
            push_char(&mut out, ch);
            col += 1;
        }
        proof {
            let i = row * w1 + width;
            assert(i % w1 == width) by (nonlinear_arith)
                requires i == row * w1 + width, w1 == width + 1, row >= 0;
            assert(i < height * w1) by (nonlinear_arith)
                requires i == row * w1 + width, w1 == width + 1, (row + 1) * w1 <= height * w1;
        }
        push_char(&mut out, '\n');
        row += 1;
    }
    proof {
        assert(out@ =~= grid_ascii(width as nat, height as nat, major_every as int));
    }
    out
}

} // verus!

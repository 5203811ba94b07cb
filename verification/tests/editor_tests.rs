use proof_engine::editor::{
    classify_grid_line, render_grid_ascii, shortcut_effect, EditorMode, GridLineClass,
    GroupSelectionCommand, SetPropertyCommand, ShortcutEffect,
};
use proof_engine::selection::{EntityId, GlyphId, SelectionSet};
use proof_engine::shortcuts::{EditorAction, Shortcut, ShortcutRegistry};

#[test]
fn test_selection_set() {
    let mut sel = SelectionSet::new();
    let a = EntityId(1);
    let b = EntityId(2);
    sel.select_entity(a);
    assert_eq!(sel.count(), 1);
    sel.toggle_entity(b);
    assert_eq!(sel.count(), 2);
    sel.toggle_entity(a);
    assert_eq!(sel.count(), 1);
    assert_eq!(sel.primary_entity(), Some(b));
}

#[test]
fn test_shortcut_registry() {
    let reg = ShortcutRegistry::new();
    let sc = Shortcut::ctrl('z');
    assert_eq!(reg.resolve(&sc), Some(&EditorAction::Undo));
}

#[test]
fn selection_select_replaces_and_clears_glyphs() {
    let mut sel = SelectionSet::new();
    assert!(sel.is_empty());
    sel.select_glyph(GlyphId(7));
    sel.select_entity(EntityId(3));
    assert_eq!(sel.count(), 1);
    assert_eq!(sel.primary_glyph(), None);
    assert_eq!(sel.primary_entity(), Some(EntityId(3)));
    sel.clear();
    assert!(sel.is_empty());
    assert_eq!(sel.primary_entity(), None);
}

#[test]
fn selection_toggle_twice_restores() {
    let mut sel = SelectionSet::new();
    sel.add_entity_range(&[EntityId(1), EntityId(2), EntityId(3)]);
    let before = sel.entities.clone();
    sel.toggle_entity(EntityId(9));
    assert_eq!(sel.count(), 4);
    sel.toggle_entity(EntityId(9));
    assert_eq!(sel.entities, before);
    sel.toggle_glyph(GlyphId(4));
    sel.toggle_glyph(GlyphId(4));
    assert!(sel.glyphs.is_empty());
}

#[test]
fn selection_add_range_skips_duplicates() {
    let mut sel = SelectionSet::new();
    sel.select_entity(EntityId(2));
    sel.add_entity_range(&[EntityId(1), EntityId(2), EntityId(1), EntityId(5)]);
    assert_eq!(sel.entities, vec![EntityId(2), EntityId(1), EntityId(5)]);
}

#[test]
fn shortcut_defaults_and_rebinding() {
    let mut reg = ShortcutRegistry::new();
    assert_eq!(reg.resolve(&Shortcut::key(' ')), Some(&EditorAction::TogglePlay));
    assert_eq!(reg.resolve(&Shortcut::ctrl_shift('s')), Some(&EditorAction::SaveAs));
    assert_eq!(reg.resolve(&Shortcut::key('s')), Some(&EditorAction::GizmoScale));
    assert_eq!(reg.resolve(&Shortcut::key('q')), None);
    assert_eq!(reg.all_bindings().len(), 17);
    reg.bind(Shortcut::key('q'), EditorAction::Custom("quit".to_string()));
    assert_eq!(
        reg.resolve(&Shortcut::key('q')),
        Some(&EditorAction::Custom("quit".to_string()))
    );
    assert_eq!(reg.all_bindings().len(), 18);
    reg.bind(Shortcut::ctrl('z'), EditorAction::Redo);
    assert_eq!(reg.resolve(&Shortcut::ctrl('z')), Some(&EditorAction::Redo));
    assert_eq!(reg.all_bindings().len(), 18);
    reg.unbind(&Shortcut::ctrl('z'));
    assert_eq!(reg.resolve(&Shortcut::ctrl('z')), None);
    assert_eq!(reg.all_bindings().len(), 17);
    reg.unbind(&Shortcut::ctrl('z'));
    assert_eq!(reg.all_bindings().len(), 17);
    assert_eq!(reg.shortcut_for(&EditorAction::AxisX), Some(&Shortcut::key('x')));
    assert_eq!(reg.shortcut_for(&EditorAction::Screenshot), None);
}

#[test]
fn shortcut_empty_registry_resolves_nothing() {
    let reg = ShortcutRegistry::empty();
    assert_eq!(reg.resolve(&Shortcut::ctrl('z')), None);
    assert!(reg.all_bindings().is_empty());
}

#[test]
fn editor_mode_toggles() {
    assert_eq!(EditorMode::default(), EditorMode::Edit);
    assert_eq!(EditorMode::Edit.toggled_play(), EditorMode::Play);
    assert_eq!(EditorMode::Play.toggled_play(), EditorMode::Edit);
    assert_eq!(EditorMode::Pause.toggled_play(), EditorMode::Play);
    assert_eq!(EditorMode::Play.toggled_pause(), EditorMode::Pause);
    assert_eq!(EditorMode::Pause.toggled_pause(), EditorMode::Play);
    assert_eq!(EditorMode::Edit.toggled_pause(), EditorMode::Edit);
    assert_eq!(EditorMode::Play.toggled_pause().toggled_pause(), EditorMode::Play);
    assert_eq!(EditorMode::Play.label(), "PLAY");
    assert_eq!(EditorMode::Edit.label(), "EDIT");
    assert_eq!(EditorMode::Pause.label(), "PAUSE");
}

#[test]
fn shortcut_effects_follow_mode() {
    assert_eq!(shortcut_effect(&EditorAction::Undo, EditorMode::Edit), ShortcutEffect::Undo);
    assert_eq!(
        shortcut_effect(&EditorAction::TogglePlay, EditorMode::Edit),
        ShortcutEffect::SetMode(EditorMode::Play)
    );
    assert_eq!(
        shortcut_effect(&EditorAction::TogglePause, EditorMode::Edit),
        ShortcutEffect::SetMode(EditorMode::Edit)
    );
    assert_eq!(shortcut_effect(&EditorAction::SnapToggle, EditorMode::Play), ShortcutEffect::ToggleSnap);
    assert_eq!(shortcut_effect(&EditorAction::Save, EditorMode::Play), ShortcutEffect::Nothing);
}

#[test]
fn grid_line_classes() {
    assert_eq!(classify_grid_line(0, 10), GridLineClass::Origin);
    assert_eq!(classify_grid_line(10, 10), GridLineClass::Major);
    assert_eq!(classify_grid_line(-20, 10), GridLineClass::Major);
    assert_eq!(classify_grid_line(7, 10), GridLineClass::Minor);
    assert_eq!(classify_grid_line(i32::MIN, 2), GridLineClass::Major);
}

#[test]
fn grid_ascii_layout() {
    let s = render_grid_ascii(2, 3, 2);
    assert_eq!(s, "+-+\n| |\n");
    assert_eq!(render_grid_ascii(5, 0, 4), "\n\n\n\n");
    // with no cells the spacing is never read
    assert_eq!(render_grid_ascii(0, 0, 3), "\n\n\n");
    assert_eq!(render_grid_ascii(0, 4, 0), "");
}

#[test]
fn command_records_hold_their_fields() {
    let set = SetPropertyCommand {
        entity_id: EntityId(4),
        property: "color".to_string(),
        old_value: "red".to_string(),
        new_value: "blue".to_string(),
    };
    assert_eq!(set.new_value, "blue");
    let group = GroupSelectionCommand {
        group_id: EntityId(9),
        members: vec![EntityId(1), EntityId(2)],
        group_name: "props".to_string(),
        executed: false,
    };
    assert_eq!(group.members.len(), 2);
}

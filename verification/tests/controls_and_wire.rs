use egui_wasm_shape_lab::controls::{may_add_pie, preset_action, Anchor, PresetAction, FIRST_LAYOUT_MAX_PIES, MAX_PIES};
use egui_wasm_shape_lab::wire::{append_mesh_indices, button_from_code, Button, VERTEX_STRIDE};

#[test]
fn presets_map_to_actions() {
    assert_eq!(preset_action(0), PresetAction::Dock(Anchor::Left));
    assert_eq!(preset_action(1), PresetAction::Dock(Anchor::Center));
    assert_eq!(preset_action(2), PresetAction::Dock(Anchor::Right));
    assert_eq!(preset_action(3), PresetAction::RemovePie);
    assert_eq!(preset_action(4), PresetAction::Reset);
    assert_eq!(preset_action(99), PresetAction::Reset);
}

#[test]
fn pies_stop_at_the_limit() {
    assert_eq!(MAX_PIES, 5);
    assert!(may_add_pie(0, MAX_PIES));
    assert!(may_add_pie(4, MAX_PIES));
    assert!(!may_add_pie(5, MAX_PIES));
    assert!(!may_add_pie(9, MAX_PIES));
    assert_eq!(FIRST_LAYOUT_MAX_PIES, 4);
    assert!(may_add_pie(3, FIRST_LAYOUT_MAX_PIES));
    assert!(!may_add_pie(4, FIRST_LAYOUT_MAX_PIES));
}

#[test]
fn mesh_indices_shift_past_earlier_vertices() {
    let mut indices = vec![0, 1, 2];
    append_mesh_indices(&mut indices, 3 * VERTEX_STRIDE, &vec![0, 1, 2, 2, 1, 3]);
    assert_eq!(indices, vec![0, 1, 2, 3, 4, 5, 5, 4, 6]);
}

#[test]
fn mesh_indices_first_mesh_starts_at_zero() {
    let mut indices = Vec::new();
    append_mesh_indices(&mut indices, 0, &vec![2, 0, 1]);
    assert_eq!(indices, vec![2, 0, 1]);
    append_mesh_indices(&mut indices, 5, &vec![0]);
    assert_eq!(indices, vec![2, 0, 1, 0]);
}

#[test]
fn button_codes() {
    assert_eq!(button_from_code(0), Button::Primary);
    assert_eq!(button_from_code(1), Button::Secondary);
    assert_eq!(button_from_code(2), Button::Middle);
    assert_eq!(button_from_code(7), Button::Primary);
}

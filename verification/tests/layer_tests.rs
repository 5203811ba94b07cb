use proof_engine::groups::GroupManager;
use proof_engine::layers::{ModelLayer, ModelLayers, OPAQUE};
use proof_engine::modeling::{removal_remap, LayerBlendMode};
use std::collections::HashSet;

fn ids(ls: &ModelLayers) -> Vec<u8> {
    ls.layers.iter().map(|l| l.id).collect()
}

fn lists(ls: &ModelLayers) -> Vec<Vec<usize>> {
    ls.layers.iter().map(|l| l.particle_indices.clone()).collect()
}

#[test]
fn new_layers_hold_one_opaque_visible_layer() {
    let ls = ModelLayers::new();
    assert_eq!(ids(&ls), vec![0]);
    let l = &ls.layers[0];
    assert_eq!(l.name, "Layer 0");
    assert!(l.visible && !l.locked);
    assert_eq!(f32::from_bits(l.opacity), 1.0);
    assert_eq!(l.opacity, OPAQUE);
    assert_eq!(l.blend_mode, LayerBlendMode::Replace);
    assert!(l.particle_indices.is_empty());
}

#[test]
fn layer_toggles_flip_one_flag() {
    let mut l = ModelLayer::new(7, "fx");
    l.toggle_visibility();
    assert!(!l.visible && !l.locked);
    l.toggle_lock();
    assert!(l.locked);
    l.toggle_visibility();
    assert!(l.visible);
    assert_eq!(l.id, 7);
    assert_eq!(l.name, "fx");
}

#[test]
fn added_layers_are_numbered_by_count() {
    let mut ls = ModelLayers::new();
    assert_eq!(ls.add_layer("a"), 1);
    assert_eq!(ls.add_layer("b"), 2);
    assert_eq!(ls.layers[2].name, "b");
    // after a merge the count repeats an id still in use
    let mut tags: Vec<u8> = Vec::new();
    ls.merge_layer_into(&mut tags, 1, 0);
    assert_eq!(ids(&ls), vec![0, 2]);
    assert_eq!(ls.add_layer("c"), 2);
    assert_eq!(ids(&ls), vec![0, 2, 2]);
}

#[test]
fn layer_ids_wrap_at_a_byte() {
    let mut ls = ModelLayers::new();
    for _ in 0..255 {
        ls.add_layer("x");
    }
    assert_eq!(ls.layers.len(), 256);
    assert_eq!(ls.layers[255].id, 255);
    assert_eq!(ls.add_layer("wrap"), 0);
}

#[test]
fn particles_go_to_the_last_layer() {
    let mut ls = ModelLayers::new();
    ls.record_particle(0);
    ls.add_layer("top");
    ls.record_particle(1);
    ls.record_particle(2);
    assert_eq!(lists(&ls), vec![vec![0], vec![1, 2]]);
    let mut empty = ModelLayers { layers: Vec::new() };
    empty.record_particle(3);
    assert!(empty.layers.is_empty());
}

#[test]
fn merging_moves_lists_and_retags() {
    let mut ls = ModelLayers::new();
    ls.record_particle(0);
    ls.add_layer("b");
    ls.record_particle(1);
    ls.record_particle(2);
    ls.add_layer("c");
    ls.record_particle(3);
    let mut tags = vec![0u8, 1, 1, 2];
    ls.merge_layer_into(&mut tags, 1, 2);
    assert_eq!(ids(&ls), vec![0, 2]);
    assert_eq!(lists(&ls), vec![vec![0], vec![3, 1, 2]]);
    assert_eq!(tags, vec![0, 2, 2, 2]);
    assert_eq!(ls.layers[1].name, "c");
}

#[test]
fn merging_an_unknown_layer_changes_nothing() {
    let mut ls = ModelLayers::new();
    ls.record_particle(0);
    let mut tags = vec![0u8];
    ls.merge_layer_into(&mut tags, 5, 0);
    ls.merge_layer_into(&mut tags, 0, 5);
    assert_eq!(ids(&ls), vec![0]);
    assert_eq!(lists(&ls), vec![vec![0]]);
    assert_eq!(tags, vec![0]);
}

#[test]
fn merging_a_layer_into_itself_removes_it() {
    let mut ls = ModelLayers::new();
    ls.add_layer("b");
    ls.record_particle(0);
    let mut tags = vec![9u8, 4];
    ls.merge_layer_into(&mut tags, 1, 1);
    assert_eq!(ids(&ls), vec![0]);
    assert_eq!(tags, vec![1, 4]);
}

#[test]
fn merged_indices_past_the_particles_are_kept_but_not_tagged() {
    let mut ls = ModelLayers::new();
    ls.add_layer("b");
    ls.record_particle(0);
    ls.record_particle(8);
    let mut tags = vec![1u8];
    ls.merge_layer_into(&mut tags, 1, 0);
    assert_eq!(lists(&ls), vec![vec![0, 8]]);
    assert_eq!(tags, vec![0]);
}

#[test]
fn visibility_toggles_the_first_layer_with_the_id() {
    let mut ls = ModelLayers::new();
    ls.add_layer("a");
    ls.add_layer("b");
    let mut tags: Vec<u8> = Vec::new();
    ls.merge_layer_into(&mut tags, 1, 0);
    ls.add_layer("dup");
    assert_eq!(ids(&ls), vec![0, 2, 2]);
    ls.toggle_layer_visibility(2);
    let vis: Vec<bool> = ls.layers.iter().map(|l| l.visible).collect();
    assert_eq!(vis, vec![true, false, true]);
    ls.toggle_layer_visibility(2);
    let vis: Vec<bool> = ls.layers.iter().map(|l| l.visible).collect();
    assert_eq!(vis, vec![true, true, true]);
    ls.toggle_layer_visibility(40);
    assert!(ls.layers.iter().all(|l| l.visible));
    assert_eq!(ls.position_of(2), Some(1));
    assert_eq!(ls.position_of(40), None);
}

#[test]
fn drawn_particles_skip_hidden_layers() {
    let mut ls = ModelLayers::new();
    ls.add_layer("hidden");
    ls.toggle_layer_visibility(1);
    let tags = [0u8, 1, 7, 0];
    assert_eq!(
        ls.drawn_particles(&tags, &[]),
        vec![(0, Some(0)), (2, None), (3, Some(0))]
    );
    // a level of detail lists particles by index, whatever their layer
    assert_eq!(ls.drawn_particles(&tags, &[1, 9, 3]), vec![(1, None), (3, None)]);
    assert!(ls.drawn_particles(&[], &[]).is_empty());
}

#[test]
fn removal_carries_layer_lists() {
    let mut ls = ModelLayers::new();
    for i in 0..3 {
        ls.record_particle(i);
    }
    ls.add_layer("b");
    ls.record_particle(3);
    ls.record_particle(4);
    let removed: HashSet<usize> = [1usize, 3].into_iter().collect();
    let remap = removal_remap(5, &removed);
    ls.remap_particles(&remap);
    assert_eq!(lists(&ls), vec![vec![0, 1], vec![2]]);
    assert_eq!(ids(&ls), vec![0, 1]);
}

fn red() -> (u32, u32, u32, u32) {
    (1.0f32.to_bits(), 0.0f32.to_bits(), 0.0f32.to_bits(), 1.0f32.to_bits())
}

#[test]
fn groups_are_numbered_in_order() {
    let mut gm = GroupManager::new();
    assert_eq!(gm.create_group("arm", red()), 0);
    assert_eq!(gm.create_group("leg", red()), 1);
    assert_eq!(gm.create_group("head", red()), 2);
    assert_eq!(gm.next_id, 3);
    let g = gm.get_group(1).unwrap();
    assert_eq!(g.name, "leg");
    assert!(g.visible && !g.locked);
    assert_eq!(f32::from_bits(g.color.0), 1.0);
    assert!(gm.get_group(3).is_none());
}

#[test]
fn visible_groups_come_in_id_order() {
    let mut gm = GroupManager::new();
    for name in ["a", "b", "c", "d"] {
        gm.create_group(name, red());
    }
    gm.set_visibility(1, false);
    gm.set_visibility(3, false);
    gm.set_visibility(3, true);
    gm.set_visibility(9, false);
    assert_eq!(gm.visible_groups(), vec![0, 2, 3]);
    assert!(GroupManager::new().visible_groups().is_empty());
}

#[test]
fn particles_of_hidden_or_locked_groups_are_inactive() {
    let mut gm = GroupManager::new();
    gm.create_group("a", red());
    gm.create_group("b", red());
    gm.create_group("c", red());
    gm.set_visibility(1, false);
    gm.set_lock(2, true);
    gm.set_lock(7, true);
    assert!(gm.is_particle_active(0));
    assert!(!gm.is_particle_active(1));
    assert!(!gm.is_particle_active(2));
    // a particle of no group is free to edit
    assert!(gm.is_particle_active(7));
    gm.set_lock(2, false);
    assert!(gm.is_particle_active(2));
}

fn fire_color() -> (u32, u32, u32, u32) {
    (1.0f32.to_bits(), 0.5f32.to_bits(), 0.0f32.to_bits(), 1.0f32.to_bits())
}

#[test]
fn modeling_editor_test_group_manager() {
    let mut gm = GroupManager::new();
    let id = gm.create_group("fire", fire_color());
    assert_eq!(gm.get_group(id).unwrap().name, "fire");
    gm.set_visibility(id, false);
    assert!(gm.visible_groups().is_empty());
}

#[test]
fn modeling_editor_ext2_test_group_manager() {
    let mut gm = GroupManager::new();
    let id = gm.create_group("fire", fire_color());
    assert_eq!(gm.get_group(id).unwrap().name, "fire");
    gm.set_visibility(id, false);
    assert!(gm.visible_groups().is_empty());
}

use blocks_for_arduino::arena::{block_actions, BlocksForArduino};
use blocks_for_arduino::colour::{parse_hex_colour, Rgb};
use blocks_for_arduino::geometry::{Offset, Pos2};
use blocks_for_arduino::model::{BlockContainer, BlockFile, BlockSection, InputDefinition};

fn section(id: &str, inputs: &[&str]) -> BlockSection {
    BlockSection {
        id: id.to_string(),
        block_colour: None,
        shown_element: None,
        child_offset: None,
        inputs: inputs.iter().map(|n| InputDefinition { name: n.to_string() }).collect(),
        pos: Pos2 { x: 0, y: 0 },
        attached_to: None,
        children: Vec::new(),
        input_values: Vec::new(),
    }
}

fn file_of(b: BlockSection) -> BlockFile {
    BlockFile { block: BlockContainer { sections: vec![b] } }
}

/// An arena with one loaded block per id, in the palette column.
fn arena(ids: &[&str]) -> BlocksForArduino {
    let mut a = BlocksForArduino::new();
    for id in ids {
        assert!(a.load_block_json(file_of(section(id, &[]))).is_some());
    }
    a
}

#[test]
fn release_within_tolerance_attaches_below_parent() {
    let mut a = arena(&["A", "B"]);
    assert_eq!(a.sections[0].pos, Pos2 { x: 20, y: 60 });
    a.sections[1].pos = Pos2 { x: 20, y: 150 };
    a.on_drag_released(1);
    assert_eq!(a.sections[1].attached_to, Some(0));
    assert_eq!(a.sections[0].children, vec![1]);
    assert_eq!(a.sections[1].pos, Pos2 { x: 20, y: 150 });
}

#[test]
fn release_snaps_residual_slack_away() {
    let mut a = arena(&["A", "B"]);
    a.sections[1].pos = Pos2 { x: 31, y: 139 };
    a.try_snap(1);
    assert_eq!(a.sections[1].attached_to, Some(0));
    assert_eq!(a.sections[1].pos, Pos2 { x: 20, y: 150 });
}

#[test]
fn release_at_tolerance_edge_does_not_attach() {
    let mut a = arena(&["A", "B"]);
    a.sections[1].pos = Pos2 { x: 32, y: 150 };
    a.try_snap(1);
    assert_eq!(a.sections[1].attached_to, None);
    assert!(a.sections[0].children.is_empty());
    assert_eq!(a.sections[1].pos, Pos2 { x: 32, y: 150 });
}

#[test]
fn snapping_twice_changes_nothing_the_second_time() {
    let mut a = arena(&["A", "B"]);
    a.sections[1].pos = Pos2 { x: 25, y: 145 };
    a.try_snap(1);
    let pos = a.sections[1].pos;
    let kids = a.sections[0].children.clone();
    a.try_snap(1);
    assert_eq!(a.sections[1].pos, pos);
    assert_eq!(a.sections[1].attached_to, Some(0));
    assert_eq!(a.sections[0].children, kids);
    assert_eq!(a.sections[0].children, vec![1]);
}

#[test]
fn snap_uses_child_offset() {
    let mut a = BlocksForArduino::new();
    let mut p = section("P", &[]);
    p.child_offset = Some(Offset { x: 20, y: 5 });
    a.load_block_json(file_of(p));
    a.load_block_json(file_of(section("C", &[])));
    a.sections[1].pos = Pos2 { x: 40, y: 155 };
    a.try_snap(1);
    assert_eq!(a.sections[1].attached_to, Some(0));
    assert_eq!(a.sections[1].pos, Pos2 { x: 40, y: 155 });
}

#[test]
fn snap_never_attaches_under_own_descendant() {
    let mut a = arena(&["A", "B"]);
    a.sections[1].pos = Pos2 { x: 20, y: 150 };
    a.try_snap(1);
    // put A right below its own child
    a.sections[0].pos = Pos2 { x: 20, y: 240 };
    a.try_snap(0);
    assert_eq!(a.sections[0].attached_to, None);
    assert_eq!(a.sections[1].children, Vec::<usize>::new());
}

#[test]
fn snap_switches_parent_and_leaves_old_one() {
    let mut a = arena(&["A", "B", "C"]);
    a.sections[2].pos = Pos2 { x: 20, y: 150 };
    a.try_snap(2);
    assert_eq!(a.sections[2].attached_to, Some(0));
    // B sits at (20, 140); its first slot is (20, 230)
    a.sections[2].pos = Pos2 { x: 21, y: 229 };
    a.try_snap(2);
    assert_eq!(a.sections[2].attached_to, Some(1));
    assert!(a.sections[0].children.is_empty());
    assert_eq!(a.sections[1].children, vec![2]);
}

#[test]
fn first_matching_index_wins() {
    let mut a = arena(&["A", "B", "C"]);
    a.sections[1].pos = Pos2 { x: 20, y: 60 };
    a.sections[2].pos = Pos2 { x: 20, y: 150 };
    a.try_snap(2);
    assert_eq!(a.sections[2].attached_to, Some(0));
    assert_eq!(a.sections[0].children, vec![2]);
    assert!(a.sections[1].children.is_empty());
}

#[test]
fn dragging_parent_moves_stacked_children() {
    let mut a = arena(&["A", "B", "C"]);
    a.sections[0].pos = Pos2 { x: 320, y: 60 };
    a.sections[0].children = vec![1, 2];
    a.sections[1].attached_to = Some(0);
    a.sections[2].attached_to = Some(0);
    a.sections[1].pos = Pos2 { x: 320, y: 150 };
    a.sections[2].pos = Pos2 { x: 320, y: 240 };
    a.on_drag_delta(0, 30, 0);
    assert_eq!(a.sections[0].pos, Pos2 { x: 350, y: 60 });
    assert_eq!(a.sections[1].pos, Pos2 { x: 350, y: 150 });
    assert_eq!(a.sections[2].pos, Pos2 { x: 350, y: 240 });
}

#[test]
fn reposition_cascades_depth_first() {
    let mut a = arena(&["A", "B", "C", "D"]);
    // A has children [B, D]; B has child C
    a.sections[0].children = vec![1, 3];
    a.sections[1].attached_to = Some(0);
    a.sections[3].attached_to = Some(0);
    a.sections[1].children = vec![2];
    a.sections[2].attached_to = Some(1);
    a.sections[0].pos = Pos2 { x: 400, y: 100 };
    a.move_children(0);
    assert_eq!(a.sections[1].pos, Pos2 { x: 400, y: 190 });
    assert_eq!(a.sections[3].pos, Pos2 { x: 400, y: 280 });
    assert_eq!(a.sections[2].pos, Pos2 { x: 400, y: 280 });
    assert_eq!(a.sections[0].pos, Pos2 { x: 400, y: 100 });
}

#[test]
fn drag_is_clamped_to_canvas_range() {
    let mut a = arena(&["A"]);
    let limit = blocks_for_arduino::geometry::COORD_LIMIT;
    a.on_drag_delta(0, limit, -limit);
    assert_eq!(a.sections[0].pos, Pos2 { x: limit, y: 60 - limit });
    a.on_drag_delta(0, limit, -limit);
    assert_eq!(a.sections[0].pos, Pos2 { x: limit, y: -limit });
}

#[test]
fn deleting_root_removes_whole_chain() {
    let mut a = arena(&["A", "B", "C"]);
    a.sections[0].children = vec![1];
    a.sections[1].attached_to = Some(0);
    a.sections[1].children = vec![2];
    a.sections[2].attached_to = Some(1);
    a.delete_block(0);
    assert!(a.sections.is_empty());
}

#[test]
fn deleting_unrelated_block_renumbers_references() {
    let mut a = arena(&["A", "B", "C"]);
    a.sections[0].children = vec![2];
    a.sections[2].attached_to = Some(0);
    a.on_secondary_clicked(1);
    assert_eq!(a.sections.len(), 2);
    assert_eq!(a.sections[0].id, "A");
    assert_eq!(a.sections[1].id, "C");
    assert_eq!(a.sections[0].children, vec![1]);
    assert_eq!(a.sections[1].attached_to, Some(0));
}

#[test]
fn deleting_child_detaches_it_from_parent() {
    let mut a = arena(&["A", "B", "C", "D"]);
    a.sections[0].children = vec![1];
    a.sections[1].attached_to = Some(0);
    a.sections[2].children = vec![3];
    a.sections[3].attached_to = Some(2);
    a.delete_block(1);
    assert_eq!(a.sections.len(), 3);
    assert!(a.sections[0].children.is_empty());
    assert_eq!(a.sections[1].id, "C");
    assert_eq!(a.sections[1].children, vec![2]);
    assert_eq!(a.sections[2].attached_to, Some(1));
}

#[test]
fn deleting_middle_subtree_keeps_others_in_order() {
    let mut a = arena(&["A", "B", "C", "D", "E"]);
    // B has children [D, C]; E is attached to A
    a.sections[1].children = vec![3, 2];
    a.sections[3].attached_to = Some(1);
    a.sections[2].attached_to = Some(1);
    a.sections[0].children = vec![4];
    a.sections[4].attached_to = Some(0);
    a.delete_block(1);
    let ids: Vec<&str> = a.sections.iter().map(|b| b.id.as_str()).collect();
    assert_eq!(ids, vec!["A", "E"]);
    assert_eq!(a.sections[0].children, vec![1]);
    assert_eq!(a.sections[1].attached_to, Some(0));
}

#[test]
fn collect_descendants_marks_subtree_only() {
    let mut a = arena(&["A", "B", "C", "D"]);
    a.sections[0].children = vec![2];
    a.sections[2].attached_to = Some(0);
    a.sections[2].children = vec![3];
    a.sections[3].attached_to = Some(2);
    assert_eq!(a.collect_descendants(0), vec![true, false, true, true]);
    assert_eq!(a.collect_descendants(2), vec![false, false, true, true]);
    assert!(a.descends_from(3, 0));
    assert!(!a.descends_from(0, 3));
    assert!(!a.descends_from(1, 0));
}

#[test]
fn spawn_gives_fresh_root_with_empty_inputs() {
    let mut a = BlocksForArduino::new();
    let mut b = section("led", &["pin", "level", "pin"]);
    b.shown_element = Some("LED".to_string());
    b.block_colour = Some("#ff0000".to_string());
    a.load_block_json(file_of(b));
    a.sections[0].children = vec![];
    let i = a.on_palette_clicked(0);
    assert_eq!(i, 1);
    let s = &a.sections[1];
    assert_eq!(s.id, "led");
    assert_eq!(s.shown_element, Some("LED".to_string()));
    assert_eq!(s.block_colour, Some("#ff0000".to_string()));
    assert_eq!(s.attached_to, None);
    assert!(s.children.is_empty());
    assert_eq!(s.pos, Pos2 { x: 320, y: 140 });
    let names: Vec<&str> = s.input_values.iter().map(|v| v.name.as_str()).collect();
    assert_eq!(names, vec!["pin", "level"]);
    assert!(s.input_values.iter().all(|v| v.value.is_empty()));
    assert_eq!(s.inputs.len(), 3);
}

#[test]
fn spawned_blocks_do_not_overlap() {
    let mut a = arena(&["A"]);
    let i = a.spawn_code_block(0);
    let j = a.spawn_code_block(0);
    assert_ne!(a.sections[i].pos, a.sections[j].pos);
    assert!(!a.is_palette(i));
    assert!(a.is_palette(0));
}

#[test]
fn load_ignores_empty_document() {
    let mut a = arena(&["A"]);
    let r = a.load_block_json(BlockFile { block: BlockContainer { sections: vec![] } });
    assert_eq!(r, None);
    assert_eq!(a.sections.len(), 1);
}

#[test]
fn load_places_blocks_down_the_palette() {
    let a = arena(&["A", "B", "C"]);
    assert_eq!(a.sections[2].pos, Pos2 { x: 20, y: 220 });
    assert_eq!(a.sections[2].label_of(), "C");
}

#[test]
fn load_refuses_offset_out_of_range() {
    let mut a = BlocksForArduino::new();
    let mut b = section("X", &[]);
    b.child_offset = Some(Offset { x: i64::MAX, y: 0 });
    assert_eq!(a.load_block_json(file_of(b)), None);
    assert!(a.sections.is_empty());
}

#[test]
fn input_text_is_stored_by_name() {
    let mut a = BlocksForArduino::new();
    a.load_block_json(file_of(section("s", &["pin", "delay"])));
    assert!(a.on_input_text_changed(0, "delay", "500".to_string()));
    assert!(!a.on_input_text_changed(0, "missing", "1".to_string()));
    assert_eq!(a.input_value(0, "delay"), Some("500".to_string()));
    assert_eq!(a.input_value(0, "pin"), Some(String::new()));
    assert_eq!(a.input_value(0, "missing"), None);
}

#[test]
fn pointer_release_is_edge_triggered() {
    let mut a = BlocksForArduino::new();
    assert!(!a.update_pointer(true));
    assert!(!a.update_pointer(true));
    assert!(a.update_pointer(false));
    assert!(!a.update_pointer(false));
}

#[test]
fn hex_colours_parse() {
    assert_eq!(parse_hex_colour("#1a2B3c"), Rgb { r: 0x1a, g: 0x2b, b: 0x3c });
    assert_eq!(parse_hex_colour("##FFffFF"), Rgb { r: 255, g: 255, b: 255 });
    assert_eq!(parse_hex_colour("000000"), Rgb { r: 0, g: 0, b: 0 });
    let grey = Rgb { r: 220, g: 220, b: 220 };
    assert_eq!(parse_hex_colour("#12345"), grey);
    assert_eq!(parse_hex_colour("#12345g"), grey);
    assert_eq!(parse_hex_colour("#1234567"), grey);
    assert_eq!(parse_hex_colour(""), grey);
}

#[test]
fn custom_configuration_is_used() {
    let mut a = BlocksForArduino::with_config(100, 50, 3);
    a.load_block_json(file_of(section("A", &[])));
    a.load_block_json(file_of(section("B", &[])));
    a.sections[1].pos = Pos2 { x: 22, y: 112 };
    a.try_snap(1);
    assert_eq!(a.sections[1].attached_to, Some(0));
    assert_eq!(a.sections[1].pos, Pos2 { x: 20, y: 110 });
}

/// Checks that parent links and children lists describe the same forest.
fn assert_consistent(a: &BlocksForArduino) {
    let n = a.sections.len();
    for (i, b) in a.sections.iter().enumerate() {
        for &c in &b.children {
            assert!(c < n);
            assert_eq!(a.sections[c].attached_to, Some(i));
        }
        if let Some(p) = b.attached_to {
            assert!(p < n);
            assert!(a.sections[p].children.contains(&i));
        }
        // walking up ends at a root within n steps
        let mut cur = i;
        let mut steps = 0;
        while let Some(p) = a.sections[cur].attached_to {
            cur = p;
            steps += 1;
            assert!(steps <= n);
        }
    }
}

#[test]
fn links_stay_consistent_over_event_sequence() {
    let mut a = arena(&["A", "B"]);
    let c = a.on_palette_clicked(0);
    let d = a.on_palette_clicked(1);
    let e = a.on_palette_clicked(1);
    assert_consistent(&a);
    // d under c, e under d
    let slot = a.sections[c].pos;
    a.sections[d].pos = Pos2 { x: slot.x + 3, y: slot.y + 90 };
    a.on_drag_released(d);
    assert_eq!(a.sections[d].attached_to, Some(c));
    let slot = a.sections[d].pos;
    a.sections[e].pos = Pos2 { x: slot.x, y: slot.y + 88 };
    a.on_drag_released(e);
    assert_eq!(a.sections[e].attached_to, Some(d));
    assert_consistent(&a);
    a.on_drag_delta(c, 40, 15);
    assert_eq!(a.sections[e].pos.x, a.sections[c].pos.x);
    assert_consistent(&a);
    // try to put c below e, its own descendant: refused
    let slot = a.sections[e].pos;
    a.sections[c].pos = Pos2 { x: slot.x, y: slot.y + 90 };
    a.on_drag_released(c);
    assert_eq!(a.sections[c].attached_to, None);
    assert_consistent(&a);
    a.on_secondary_clicked(d);
    assert_eq!(a.sections.len(), 3);
    assert!(a.sections[c].children.is_empty());
    assert_consistent(&a);
}

#[test]
fn plus_sign_before_five_digits_is_read() {
    assert_eq!(parse_hex_colour("+abcde"), Rgb { r: 0x0a, g: 0xbc, b: 0xde });
    assert_eq!(parse_hex_colour("#+00010"), Rgb { r: 0, g: 0, b: 0x10 });
    let grey = Rgb { r: 220, g: 220, b: 220 };
    assert_eq!(parse_hex_colour("++abcd"), grey);
    assert_eq!(parse_hex_colour("-abcde"), grey);
    assert_eq!(parse_hex_colour("+abcdef"), grey);
}

#[test]
fn block_actions_follow_column() {
    let p = block_actions(true, true, true, true, true);
    assert!(p.spawn && !p.drag && !p.snap && !p.delete);
    let c = block_actions(false, true, true, true, true);
    assert!(!c.spawn && c.drag && c.snap && c.delete);
    let n = block_actions(false, false, false, false, false);
    assert!(!n.spawn && !n.drag && !n.snap && !n.delete);
}

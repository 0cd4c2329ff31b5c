use orbtk_core::geometry::{Alignment, Constraint, Point, Rectangle, Size, Thickness, Track};
use orbtk_core::layout::{allocate_tracks, arrange, measure, LayoutKind, LayoutSlot};
use orbtk_core::store::{PropKey, PropValue, Store, Visibility};
use orbtk_core::text::{Text16, TextSelection, UniformMeasurer};

fn fit(store: &mut Store, e: usize, width: i64, height: i64) {
    store.insert(e, PropKey::Visibility, PropValue::Visibility(Visibility::Visible));
    store.insert(
        e,
        PropKey::Constraint,
        PropValue::Constraint(Constraint::new(width, height, 0, 0, 1000000, 1000000)),
    );
    store.insert(e, PropKey::Margin, PropValue::Thickness(Thickness::new(0, 0, 0, 0)));
    store.insert(e, PropKey::VAlign, PropValue::Alignment(Alignment::Start));
}

#[test]
fn grid_track_allocation_splits_remaining_space() {
    // one proportional track and one fixed track of 32 in 132 units of space
    let tracks = vec![Track::Stretch, Track::Fixed(32)];
    let autos: Vec<i64> = Vec::new();
    let allocated = allocate_tracks(&tracks, &autos, 132);
    assert_eq!(allocated.len(), 2);
    assert_eq!(allocated[0], 100);
    assert_eq!(allocated[1], 32);
}

#[test]
fn collapsed_entity_measures_zero_and_arrange_keeps_children() {
    let mut store = Store::new();
    fit(&mut store, 0, 0, 0);
    store.set_layout(0, LayoutSlot::new(LayoutKind::Absolute));
    let child = store.create_node(0);
    fit(&mut store, child, 40, 20);
    store.set_layout(child, LayoutSlot::new(LayoutKind::Absolute));
    store.insert(child, PropKey::Bounds, PropValue::Rect(Rectangle::new(7, 7, 7, 7)));
    store.insert(0, PropKey::Visibility, PropValue::Visibility(Visibility::Collapsed));
    let d = measure(&mut store, 0);
    assert_eq!(d.width(), 0);
    assert_eq!(d.height(), 0);
    let measurer = UniformMeasurer::new(8);
    let mut marks: Vec<(usize, PropKey)> = Vec::new();
    let size = arrange(&mut store, &measurer, &mut marks, Size::new(100, 100), 0);
    assert_eq!(size, Size::new(0, 0));
    // the child's bounds were not touched and nothing was marked dirty
    assert_eq!(store.get_rect(child, PropKey::Bounds), Some(Rectangle::new(7, 7, 7, 7)));
    assert_eq!(marks.len(), 0);
}

#[test]
fn dirty_flags_propagate_up_and_clear_after_arrange() {
    let mut store = Store::new();
    fit(&mut store, 0, 0, 0);
    store.set_layout(0, LayoutSlot::new(LayoutKind::Absolute));
    let mid = store.create_node(0);
    fit(&mut store, mid, 0, 0);
    store.set_layout(mid, LayoutSlot::new(LayoutKind::Absolute));
    let leaf = store.create_node(mid);
    fit(&mut store, leaf, 30, 10);
    store.set_layout(leaf, LayoutSlot::new(LayoutKind::Absolute));

    let measurer = UniformMeasurer::new(8);
    let mut marks: Vec<(usize, PropKey)> = Vec::new();
    measure(&mut store, 0);
    arrange(&mut store, &measurer, &mut marks, Size::new(200, 200), 0);
    assert!(!store.layout(0).unwrap().desired.dirty());
    assert!(!store.layout(mid).unwrap().desired.dirty());
    assert!(!store.layout(leaf).unwrap().desired.dirty());

    // mark the leaf dirty: the whole ancestor chain reads dirty in the pass
    let mut slot = store.layout(leaf).unwrap();
    slot.desired.set_dirty(true);
    store.set_layout(leaf, slot);
    let d = measure(&mut store, 0);
    assert!(d.dirty());
    assert!(store.layout(mid).unwrap().desired.dirty());
    assert!(store.layout(leaf).unwrap().desired.dirty());

    // a completed arrange clears the flags again
    arrange(&mut store, &measurer, &mut marks, Size::new(200, 200), 0);
    assert!(!store.layout(0).unwrap().desired.dirty());
    assert!(!store.layout(mid).unwrap().desired.dirty());
    assert!(!store.layout(leaf).unwrap().desired.dirty());

    // a second pass without mutation keeps sizes and stays clean
    let before = store.layout(leaf).unwrap().desired;
    let d2 = measure(&mut store, 0);
    assert!(!d2.dirty());
    arrange(&mut store, &measurer, &mut marks, Size::new(200, 200), 0);
    let after = store.layout(leaf).unwrap().desired;
    assert_eq!(before.width(), after.width());
    assert_eq!(before.height(), after.height());
    assert!(!after.dirty());
}

#[test]
fn fixed_constraint_overrides_content() {
    let mut store = Store::new();
    fit(&mut store, 0, 50, 60);
    store.set_layout(0, LayoutSlot::new(LayoutKind::Absolute));
    let d = measure(&mut store, 0);
    assert_eq!(d.width(), 50);
    assert_eq!(d.height(), 60);
}

#[test]
fn stack_accumulates_children_with_spacing() {
    let mut store = Store::new();
    fit(&mut store, 0, 0, 0);
    store.set_layout(0, LayoutSlot::new(LayoutKind::Stack { vertical: true, spacing: 4 }));
    let a = store.create_node(0);
    fit(&mut store, a, 30, 10);
    store.set_layout(a, LayoutSlot::new(LayoutKind::Absolute));
    let b = store.create_node(0);
    fit(&mut store, b, 20, 14);
    store.set_layout(b, LayoutSlot::new(LayoutKind::Absolute));
    let d = measure(&mut store, 0);
    assert_eq!(d.height(), 10 + 4 + 14);
    assert_eq!(d.width(), 30);
}

#[test]
fn caret_offset_is_width_of_text_before_selection() {
    // a text field holding five UTF-16 units with the caret after two of them
    let mut store = Store::new();
    fit(&mut store, 0, 0, 0);
    store.set_layout(0, LayoutSlot::new(LayoutKind::Absolute));
    store.insert(0, PropKey::Bounds, PropValue::Rect(Rectangle::new(0, 0, 500, 40)));
    let text_block = store.create_node(0);
    fit(&mut store, text_block, 0, 0);
    let hello: Vec<u16> = vec![104, 101, 108, 108, 111];
    store.insert(text_block, PropKey::Text, PropValue::Text(Text16::from_units(hello)));
    store.insert(text_block, PropKey::Font, PropValue::Str("plain".to_owned()));
    store.insert(text_block, PropKey::FontSize, PropValue::Int(12));
    store.insert(text_block, PropKey::Margin, PropValue::Thickness(Thickness::new(0, 0, 0, 0)));
    let cursor = store.create_node(0);
    fit(&mut store, cursor, 1, 0);
    store.set_layout(cursor, LayoutSlot::new(LayoutKind::TextSelection));
    store.insert(cursor, PropKey::TextBlock, PropValue::Entity(text_block));
    store.insert(cursor, PropKey::Expanded, PropValue::Bool(false));
    store.insert(
        cursor,
        PropKey::TextSelection,
        PropValue::Selection(TextSelection::new(2, 0)),
    );

    // every unit is eight units wide under this measurer
    let measurer = UniformMeasurer::new(8);
    let mut marks: Vec<(usize, PropKey)> = Vec::new();
    measure(&mut store, 0);
    arrange(&mut store, &measurer, &mut marks, Size::new(500, 40), 0);
    let caret_margin = store.get_thickness(cursor, PropKey::Margin).unwrap();
    assert_eq!(caret_margin.left, 16);
}

#[test]
fn selection_change_re_enters_dirty() {
    let mut store = Store::new();
    fit(&mut store, 0, 0, 0);
    store.set_layout(0, LayoutSlot::new(LayoutKind::Absolute));
    store.insert(0, PropKey::Bounds, PropValue::Rect(Rectangle::new(0, 0, 500, 40)));
    let text_block = store.create_node(0);
    fit(&mut store, text_block, 0, 0);
    let cursor = store.create_node(0);
    fit(&mut store, cursor, 1, 0);
    store.set_layout(cursor, LayoutSlot::new(LayoutKind::TextSelection));
    store.insert(cursor, PropKey::TextBlock, PropValue::Entity(text_block));
    store.insert(cursor, PropKey::Expanded, PropValue::Bool(false));
    store.insert(
        cursor,
        PropKey::TextSelection,
        PropValue::Selection(TextSelection::new(0, 0)),
    );
    let measurer = UniformMeasurer::new(8);
    let mut marks: Vec<(usize, PropKey)> = Vec::new();
    measure(&mut store, 0);
    arrange(&mut store, &measurer, &mut marks, Size::new(500, 40), 0);
    assert!(!store.layout(cursor).unwrap().desired.dirty());
    // moving the caret alone makes the cursor dirty again in the next pass
    store.set(
        cursor,
        PropKey::TextSelection,
        PropValue::Selection(TextSelection::new(1, 0)),
    );
    measure(&mut store, 0);
    assert!(store.layout(cursor).unwrap().desired.dirty());
}

#[test]
fn removing_a_subtree_removes_descendants_with_it() {
    let mut store = Store::new();
    let a = store.create_node(0);
    let b = store.create_node(a);
    let c = store.create_node(b);
    let other = store.create_node(0);
    assert!(store.is_alive(a) && store.is_alive(b) && store.is_alive(c));
    store.remove_subtree(a);
    assert!(!store.is_alive(a));
    assert!(!store.is_alive(b));
    assert!(!store.is_alive(c));
    assert!(store.is_alive(other));
    assert!(store.is_alive(0));
    assert_eq!(store.child_count(0), 1);
    assert_eq!(store.child_at(0, 0), other);
}

#[test]
fn text_editing_over_utf16_units() {
    let mut text = Text16::from_units(vec![104, 101, 108, 108, 111]);
    assert_eq!(text.len(), 5);
    // typing one unit at the caret index
    let typed = Text16::from_units(vec![88]);
    text.insert_str(2, &typed);
    assert_eq!(text.units, vec![104, 101, 88, 108, 108, 111]);
    text.remove(2);
    assert_eq!(text.units, vec![104, 101, 108, 108, 111]);
    let part = text.get_string(1, 3).unwrap();
    assert_eq!(part.units, vec![101, 108]);
    assert!(text.get_string(3, 9).is_none());
}

#[test]
fn point_and_console_basics() {
    let p = Point::new(3, 4);
    assert_eq!(p.x(), 3);
    assert_eq!(p.y(), 4);
    let mut console = orbtk_core::console::Console::new();
    console.count_start("updates".to_owned());
    console.count("updates".to_owned());
    console.count("updates".to_owned());
    console.count("never_started".to_owned());
    assert_eq!(console.count_end("updates".to_owned()), Some(2));
    assert_eq!(console.count_end("never_started".to_owned()), None);
}

//! The layout engine: the closed set of layout strategies, the per-node
//! layout slot with its cached dirty size, and the measure and arrange
//! passes.

use vstd::prelude::*;

use crate::geometry::{coord_ok, Constraint, DirtySize, Rectangle, Size, Thickness, Track, GEOM_BOUND};
use crate::store::{Node, PropKey, PropValue, Store, Visibility};
use crate::text::TextMeasurer;
use crate::text::TextSelection;

verus! {

/// The layout strategy of one node. The set is fixed: each strategy
/// implements the same measure/arrange contract in its own way.
#[derive(Clone, Copy, Debug, PartialEq, Eq, Structural)]
pub enum LayoutKind {
    /// Children accumulate one after the other along one axis, with spacing.
    /// `vertical` false lays them out left to right.
    Stack { vertical: bool, spacing: i64 },
    /// Tracks (columns and rows) are allocated from properties of the entity;
    /// fixed and auto tracks are subtracted, the rest goes to stretch tracks.
    Grid,
    /// Children sit at their own margin offsets; no space distribution.
    Absolute,
    /// The node takes a fixed size.
    FixedSize { width: i64, height: i64 },
    /// One child inset by the node's padding.
    Padding,
    /// Like padding, for a floating node.
    Popup,
    /// The text-selection cursor: measures caret and highlight geometry from
    /// the text before and inside the selection.
    TextSelection,
}

/// The layout registration of one entity: its strategy, its cached desired
/// size with the dirty flag, and the selection value the previous pass saw
/// (the text-selection strategy re-measures when the selection changes).
#[derive(Clone, Copy, Debug, PartialEq, Eq, Structural)]
pub struct LayoutSlot {
    pub kind: LayoutKind,
    pub desired: DirtySize,
    pub old_text_selection: TextSelection,
}

impl LayoutSlot {
    /// A fresh slot: dirty, with size zero and no remembered selection.
    pub fn new(kind: LayoutKind) -> (r: LayoutSlot)
        ensures
            r.kind == kind,
            r.desired == (DirtySize { width: 0, height: 0, dirty: true }),
            r.old_text_selection == (TextSelection { start_index: 0, length: 0 }),
    {
        LayoutSlot {
            kind,
            desired: DirtySize::new(),
            old_text_selection: TextSelection::new(0, 0),
        }
    }
}

/// Clamps a mathematical extent into the size range.
pub open spec fn clamp_size(x: int) -> int {
    if x < 0 {
        0
    } else if x > GEOM_BOUND as int {
        GEOM_BOUND as int
    } else {
        x
    }
}

/// The layout slot of an entity that has one.
pub open spec fn slot_of(s: &Store, e: int) -> LayoutSlot {
    s.layout_of(e)->Some_0
}

/// Bounds a strategy must keep so sizes stay in range.
pub open spec fn kind_wf(k: LayoutKind) -> bool {
    match k {
        LayoutKind::Stack { vertical, spacing } => 0 <= spacing <= GEOM_BOUND,
        LayoutKind::FixedSize { width, height } => 0 <= width <= GEOM_BOUND && 0 <= height
            <= GEOM_BOUND,
        _ => true,
    }
}

/// What the measure pass needs of every live entity that has a layout slot:
/// a visibility, a well-formed constraint, a well-formed strategy and a
/// cached size in range.
pub open spec fn measure_ready(s: &Store) -> bool {
    forall|e: int|
        0 <= e < s.n() && s.alive(e) && (#[trigger] s.layout_of(e)) is Some ==> (s.vis_prop(
            e,
        ) is Some && (s.constraint_prop(e) matches Some(c) && c.wf()) && kind_wf(slot_of(s, e).kind)
            && slot_of(s, e).desired.wf() && padding_of(s, e).wf())
}

/// The padding of an entity, zero when it declares none.
pub open spec fn padding_of(s: &Store, e: int) -> Thickness {
    match s.thickness_prop(e, PropKey::Padding) {
        Some(t) => t,
        None => Thickness { left: 0, top: 0, right: 0, bottom: 0 },
    }
}

/// Content accumulation over the first `upto` children that have a layout
/// slot: the extent along the stacking axis (sizes plus spacing between
/// occupied runs, clamped), and the largest width and height.
pub open spec fn content_fold(s: &Store, e: int, upto: int, vertical: bool, spacing: int) -> (
    int,
    int,
    int,
)
    decreases upto,
{
    if upto <= 0 {
        (0, 0, 0)
    } else {
        let rec = content_fold(s, e, upto - 1, vertical, spacing);
        let c = s.children_of(e)[upto - 1];
        if s.layout_of(c as int) is Some {
            let d = slot_of(s, c as int).desired;
            let main: int = if vertical {
                d.height as int
            } else {
                d.width as int
            };
            let grown: int = if rec.0 > 0 {
                clamp_size(rec.0 + spacing + main)
            } else {
                clamp_size(main)
            };
            (
                grown,
                if d.width as int > rec.1 {
                    d.width as int
                } else {
                    rec.1
                },
                if d.height as int > rec.2 {
                    d.height as int
                } else {
                    rec.2
                },
            )
        } else {
            rec
        }
    }
}

/// The fold reads only the child list and the children's layout slots.
proof fn lemma_content_fold_congruent(
    s1: &Store,
    s2: &Store,
    e: int,
    upto: int,
    vertical: bool,
    spacing: int,
)
    requires
        s1.children_of(e) == s2.children_of(e),
        forall|j: int|
            0 <= j < upto ==> s1.layout_of((#[trigger] s1.children_of(e)[j]) as int)
                == s2.layout_of(s1.children_of(e)[j] as int),
        upto <= s1.children_of(e).len(),
    ensures
        content_fold(s1, e, upto, vertical, spacing) == content_fold(
            s2,
            e,
            upto,
            vertical,
            spacing,
        ),
    decreases upto,
{
    if upto > 0 {
        lemma_content_fold_congruent(s1, s2, e, upto - 1, vertical, spacing);
    }
}

/// The content size of an entity, per strategy, over the measured children.
pub open spec fn content_size(s: &Store, e: int) -> (int, int) {
    let k = slot_of(s, e).kind;
    let n = s.children_of(e).len() as int;
    match k {
        LayoutKind::Stack { vertical, spacing } => {
            let f = content_fold(s, e, n, vertical, spacing as int);
            if vertical {
                (f.1, f.0)
            } else {
                (f.0, f.2)
            }
        },
        LayoutKind::Grid => {
            let f = content_fold(s, e, n, false, 0);
            (f.1, f.2)
        },
        LayoutKind::Absolute => {
            let f = content_fold(s, e, n, false, 0);
            (f.1, f.2)
        },
        LayoutKind::FixedSize { width, height } => (width as int, height as int),
        LayoutKind::Padding | LayoutKind::Popup => {
            let f = content_fold(s, e, n, false, 0);
            let p = padding_of(s, e);
            (clamp_size(f.1 + p.left + p.right), clamp_size(f.2 + p.top + p.bottom))
        },
        LayoutKind::TextSelection => (0, 0),
    }
}

/// The size the measure pass settles on for a visible entity: the fixed
/// constraint extent where one is declared, else the content size — for the
/// text-selection strategy, the previously cached size.
pub open spec fn measured_size(s: &Store, e: int, old_desired: DirtySize) -> (int, int) {
    let c = s.constraint_prop(e)->Some_0;
    let base: (int, int) = if slot_of(s, e).kind is TextSelection {
        (old_desired.width as int, old_desired.height as int)
    } else {
        content_size(s, e)
    };
    (
        if c.width > 0 {
            c.width as int
        } else {
            base.0
        },
        if c.height > 0 {
            c.height as int
        } else {
            base.1
        },
    )
}

/// A node never stands in the subtree of one of its children, and siblings
/// never stand in one another's subtree.
proof fn lemma_subtree_disjoint(s: &Store, e: int, c: int, x: int)
    requires
        s.wf(),
        0 <= e < s.n(),
        s.parent_of(c) == Some(e as usize),
        e < c < s.n(),
        x == e || (s.parent_of(x) == Some(e as usize) && x != c && 0 <= x),
    ensures
        !s.weak_desc(c, x),
{
    if s.is_ancestor(c, x) {
        if x == e {
            s.lemma_ancestor_lt(c, x);
        } else {
            assert(s.parent_of(x) == Some(e as usize));
            assert(e == c || s.is_ancestor(c, e));
            if s.is_ancestor(c, e) {
                s.lemma_ancestor_lt(c, e);
            }
        }
    }
}

/// Measures an entity's subtree: children first (skipping entities without a
/// layout slot), dirtiness aggregated upward, a collapsed entity forced to
/// zero without recursion into children, and a fixed constraint extent
/// overriding content-driven size. Only layout slots inside the subtree
/// change; the tree, the components and the handlers stay as they were.
#[verifier::rlimit(100)]
pub fn measure(store: &mut Store, entity: usize) -> (r: DirtySize)
    requires
        old(store).wf(),
        measure_ready(old(store)),
        old(store).alive(entity as int),
        old(store).layout_of(entity as int) is Some,
    ensures
        final(store).wf(),
        measure_ready(final(store)),
        final(store).n() == old(store).n(),
        forall|x: int|
            0 <= x < old(store).n() ==> Store::node_same_but_layout(
                final(store).nodes@[x],
                old(store).nodes@[x],
            ),
        forall|x: int|
            0 <= x < old(store).n() && x != entity as int && !old(store).weak_desc(
                entity as int,
                x,
            ) ==> final(store).layout_of(x) == old(store).layout_of(x),
        forall|x: int|
            0 <= x < old(store).n() ==> ((#[trigger] final(store).layout_of(x)) is Some <==> old(
                store,
            ).layout_of(x) is Some),
        forall|x: int|
            0 <= x < old(store).n() && old(store).layout_of(x) is Some ==> slot_of(
                final(store),
                x,
            ).kind == slot_of(old(store), x).kind,
        final(store).layout_of(entity as int) is Some,
        r == slot_of(final(store), entity as int).desired,
        r.wf(),
        old(store).layout_of(entity as int)->Some_0.desired.dirty ==> r.dirty,
        old(store).vis_prop(entity as int) == Some(Visibility::Collapsed) ==> (r.width == 0
            && r.height == 0 && (forall|x: int|
            0 <= x < old(store).n() && x != entity as int ==> final(store).layout_of(x) == old(
                store,
            ).layout_of(x))),
        old(store).vis_prop(entity as int) != Some(Visibility::Collapsed) ==> r.width as int
            == measured_size(
            final(store),
            entity as int,
            old(store).layout_of(entity as int)->Some_0.desired,
        ).0,
        old(store).vis_prop(entity as int) != Some(Visibility::Collapsed) ==> r.height as int
            == measured_size(
            final(store),
            entity as int,
            old(store).layout_of(entity as int)->Some_0.desired,
        ).1,
        old(store).vis_prop(entity as int) != Some(Visibility::Collapsed) ==> (forall|j: int|
            0 <= j < old(store).children_of(entity as int).len() && final(store).layout_of(
                (#[trigger] old(store).children_of(entity as int)[j]) as int,
            ) is Some && slot_of(
                final(store),
                old(store).children_of(entity as int)[j] as int,
            ).desired.dirty ==> r.dirty),
        old(store).vis_prop(entity as int) != Some(Visibility::Collapsed) ==> (forall|j: int|
            0 <= j < old(store).children_of(entity as int).len() && old(store).layout_of(
                (#[trigger] old(store).children_of(entity as int)[j]) as int,
            ) is Some && slot_of(
                old(store),
                old(store).children_of(entity as int)[j] as int,
            ).desired.dirty ==> r.dirty),
        old(store).vis_prop(entity as int) != Some(Visibility::Collapsed) && slot_of(
            old(store),
            entity as int,
        ).kind is TextSelection && (old(store).selection_prop(entity as int) matches Some(s) && s
            != slot_of(old(store), entity as int).old_text_selection) ==> r.dirty,
        old(store).vis_prop(entity as int) != Some(Visibility::Collapsed) ==> slot_of(
            final(store),
            entity as int,
        ).old_text_selection == (
        if slot_of(old(store), entity as int).kind is TextSelection && old(store).selection_prop(
            entity as int,
        ) is Some {
            old(store).selection_prop(entity as int)->Some_0
        } else {
            slot_of(old(store), entity as int).old_text_selection
        }),
    decreases old(store).n() - entity,
{
    let slot = match store.layout(entity) {
        Some(s) => s,
        None => unreached(),
    };
    let mut desired = slot.desired;
    let mut old_sel = slot.old_text_selection;
    let vis = match store.get_visibility(entity, PropKey::Visibility) {
        Some(v) => v,
        None => unreached(),
    };
    if vis == Visibility::Collapsed {
        desired.set_size(0, 0);
        store.set_layout(
            entity,
            LayoutSlot { kind: slot.kind, desired, old_text_selection: old_sel },
        );
        proof {
            assert forall|e2: int|
                0 <= e2 < store.n() && store.alive(e2) && (#[trigger] store.layout_of(
                    e2,
                )) is Some implies (store.vis_prop(e2) is Some && (store.constraint_prop(
                e2,
            ) matches Some(c) && c.wf()) && kind_wf(slot_of(store, e2).kind) && slot_of(
                store,
                e2,
            ).desired.wf() && padding_of(store, e2).wf()) by {
                assert(store.nodes@[e2].props@ == old(store).nodes@[e2].props@);
                if e2 != entity as int {
                    assert(store.layout_of(e2) == old(store).layout_of(e2));
                }
            }
        }
        return desired;
    }
    let constraint = match store.get_constraint(entity) {
        Some(c) => c,
        None => unreached(),
    };
    if slot.kind == (LayoutKind::TextSelection) {
        if let Some(sel) = store.get_selection(entity) {
            if sel != old_sel {
                desired.set_dirty(true);
            }
            old_sel = sel;
        }
    }
    let cnt = store.child_count(entity);
    let mut i: usize = 0;
    let mut acc_main: i64 = 0;
    let mut acc_w: i64 = 0;
    let mut acc_h: i64 = 0;
    let mut child_dirty: bool = false;
    let ghost s_in = *store;
    let (g_vertical, spacing): (bool, i64) = match slot.kind {
        LayoutKind::Stack { vertical, spacing } => (vertical, spacing),
        _ => (false, 0),
    };
    while i < cnt
        invariant
            s_in == *old(store),
            store.wf(),
            measure_ready(store),
            store.n() == s_in.n(),
            s_in.wf(),
            measure_ready(&s_in),
            0 <= i <= cnt,
            entity < s_in.n(),
            cnt as int == s_in.children_of(entity as int).len(),
            s_in.alive(entity as int),
            s_in.layout_of(entity as int) is Some,
            kind_wf(slot.kind),
            0 <= spacing <= GEOM_BOUND,
            forall|x: int|
                0 <= x < s_in.n() ==> Store::node_same_but_layout(store.nodes@[x], s_in.nodes@[x]),
            forall|x: int|
                0 <= x < s_in.n() && x != entity as int && !s_in.weak_desc(entity as int, x)
                    ==> store.layout_of(x) == s_in.layout_of(x),
            forall|x: int|
                0 <= x < s_in.n() ==> ((#[trigger] store.layout_of(x)) is Some <==> s_in.layout_of(
                    x,
                ) is Some),
            forall|x: int|
                0 <= x < s_in.n() && s_in.layout_of(x) is Some ==> slot_of(store, x).kind
                    == slot_of(&s_in, x).kind,
            store.layout_of(entity as int) == s_in.layout_of(entity as int),
            store.prop(entity as int, PropKey::Bounds) == s_in.prop(
                entity as int,
                PropKey::Bounds,
            ),
            forall|j: int|
                i <= j < cnt ==> store.layout_of(
                    (#[trigger] s_in.children_of(entity as int)[j]) as int,
                ) == s_in.layout_of(s_in.children_of(entity as int)[j] as int),
            (acc_main as int, acc_w as int, acc_h as int) == content_fold(
                store,
                entity as int,
                i as int,
                g_vertical,
                spacing as int,
            ),
            0 <= acc_main <= GEOM_BOUND,
            0 <= acc_w <= GEOM_BOUND,
            0 <= acc_h <= GEOM_BOUND,
            child_dirty == (exists|j: int|
                0 <= j < i && store.layout_of(
                    (#[trigger] s_in.children_of(entity as int)[j]) as int,
                ) is Some && slot_of(
                    store,
                    s_in.children_of(entity as int)[j] as int,
                ).desired.dirty),
            forall|j: int|
                0 <= j < i && s_in.layout_of(
                    (#[trigger] s_in.children_of(entity as int)[j]) as int,
                ) is Some && slot_of(
                    &s_in,
                    s_in.children_of(entity as int)[j] as int,
                ).desired.dirty ==> child_dirty,
        decreases cnt - i,
    {
        let c = store.child_at(entity, i);
        proof {
            assert(s_in.children_of(entity as int)[i as int] == c);
            assert(entity < c < s_in.n());
            assert(store.alive(c as int));
        }
        let ghost s_pre = *store;
        if store.layout(c).is_some() {
            let d = measure(store, c);
            if d.dirty() {
                child_dirty = true;
            }
            let main: i64 = if g_vertical {
                d.height()
            } else {
                d.width()
            };
            let grown: i64 = if acc_main > 0 {
                let sum = acc_main + spacing + main;
                if sum > GEOM_BOUND {
                    GEOM_BOUND
                } else {
                    sum
                }
            } else {
                main
            };
            acc_main = grown;
            if d.width() > acc_w {
                acc_w = d.width();
            }
            if d.height() > acc_h {
                acc_h = d.height();
            }
        }
        proof {
            let ei = entity as int;
            let ci = s_in.children_of(ei)[i as int] as int;
            assert(s_in.parent_of(ci) == Some(entity));
            // siblings and the entity itself lie outside the measured child's
            // subtree, so their slots are what they were
            assert forall|x: int|
                0 <= x < s_in.n() && x != ei && !s_in.weak_desc(ei, x) implies store.layout_of(x)
                    == s_in.layout_of(x) by {
                if store.layout_of(x) != s_pre.layout_of(x) {
                    assert(s_pre.weak_desc(ci, x));
                    if s_pre.is_ancestor(ci, x) {
                        assert(s_pre.parent_of(x) is Some);
                        assert(s_pre.alive(x));
                        Store::lemma_ancestor_congruent(s_in, s_pre, ci, x);
                    }
                    assert(s_in.weak_desc(ci, x));
                    assert(s_in.is_ancestor(ei, x)) by {
                        s_in.lemma_child_is_descendant(ei, i as int);
                        if s_in.is_ancestor(ci, x) {
                            s_in.lemma_ancestor_trans(ei, ci, x);
                        }
                    }
                }
            }
            assert forall|j: int|
                i as int + 1 <= j < cnt implies store.layout_of(
                    (#[trigger] s_in.children_of(ei)[j]) as int,
                ) == s_in.layout_of(s_in.children_of(ei)[j] as int) by {
                let cj = s_in.children_of(ei)[j] as int;
                assert(s_in.parent_of(cj) == Some(entity));
                assert(cj != ci);
                if store.layout_of(cj) != s_pre.layout_of(cj) {
                    assert(s_pre.weak_desc(ci, cj));
                    if s_pre.is_ancestor(ci, cj) {
                        assert(s_pre.parent_of(cj) is Some);
                        assert(s_pre.alive(cj));
                        Store::lemma_ancestor_congruent(s_in, s_pre, ci, cj);
                    }
                    lemma_subtree_disjoint(&s_in, ei, ci, cj);
                }
            }
            assert(store.layout_of(ei) == s_in.layout_of(ei)) by {
                if store.layout_of(ei) != s_pre.layout_of(ei) {
                    assert(s_pre.weak_desc(ci, ei));
                    if s_pre.is_ancestor(ci, ei) {
                        assert(s_pre.alive(ei));
                        Store::lemma_ancestor_congruent(s_in, s_pre, ci, ei);
                    }
                    lemma_subtree_disjoint(&s_in, ei, ci, ei);
                }
            }
            // earlier children kept their slots, so the fold prefix stands
            assert forall|j: int|
                0 <= j < i as int implies store.layout_of(
                    (#[trigger] s_pre.children_of(ei)[j]) as int,
                ) == s_pre.layout_of(s_pre.children_of(ei)[j] as int) by {
                let cj = s_pre.children_of(ei)[j] as int;
                if store.layout_of(cj) != s_pre.layout_of(cj) {
                    assert(s_pre.weak_desc(ci, cj));
                    if s_pre.is_ancestor(ci, cj) {
                        assert(s_pre.parent_of(cj) is Some);
                        assert(s_pre.alive(cj));
                        Store::lemma_ancestor_congruent(s_in, s_pre, ci, cj);
                    }
                    lemma_subtree_disjoint(&s_in, ei, ci, cj);
                }
            }
            lemma_content_fold_congruent(&s_pre, store, ei, i as int, g_vertical, spacing as int);
            assert((acc_main as int, acc_w as int, acc_h as int) == content_fold(
                store,
                ei,
                i as int + 1,
                g_vertical,
                spacing as int,
            ));
        }
        i += 1;
    }
    let base_w: i64;
    let base_h: i64;
    match slot.kind {
        LayoutKind::Stack { vertical, spacing: _ } => {
            if vertical {
                base_w = acc_w;
                base_h = acc_main;
            } else {
                base_w = acc_main;
                base_h = acc_h;
            }
        },
        LayoutKind::Grid | LayoutKind::Absolute => {
            base_w = acc_w;
            base_h = acc_h;
        },
        LayoutKind::FixedSize { width, height } => {
            base_w = width;
            base_h = height;
        },
        LayoutKind::Padding | LayoutKind::Popup => {
            let p = match store.get_thickness(entity, PropKey::Padding) {
                Some(t) => t,
                None => Thickness::new(0, 0, 0, 0),
            };
            let w = acc_w + p.left + p.right;
            let h = acc_h + p.top + p.bottom;
            base_w = if w < 0 {
                0
            } else if w > GEOM_BOUND {
                GEOM_BOUND
            } else {
                w
            };
            base_h = if h < 0 {
                0
            } else if h > GEOM_BOUND {
                GEOM_BOUND
            } else {
                h
            };
        },
        LayoutKind::TextSelection => {
            base_w = desired.width();
            base_h = desired.height();
        },
    }
    if child_dirty {
        desired.set_dirty(true);
    }
    if constraint.width() > 0 {
        desired.set_width(constraint.width());
    } else {
        desired.set_width(base_w);
    }
    if constraint.height() > 0 {
        desired.set_height(constraint.height());
    } else {
        desired.set_height(base_h);
    }
    let ghost s_last = *store;
    store.set_layout(entity, LayoutSlot { kind: slot.kind, desired, old_text_selection: old_sel });
    proof {
        assert forall|e2: int|
            0 <= e2 < store.n() && store.alive(e2) && (#[trigger] store.layout_of(
                e2,
            )) is Some implies (store.vis_prop(e2) is Some && (store.constraint_prop(
            e2,
        ) matches Some(c) && c.wf()) && kind_wf(slot_of(store, e2).kind) && slot_of(
            store,
            e2,
        ).desired.wf() && padding_of(store, e2).wf()) by {
            assert(store.nodes@[e2].props@ == old(store).nodes@[e2].props@);
            if e2 != entity as int {
                assert(store.layout_of(e2) == s_last.layout_of(e2));
            }
        }
        lemma_content_fold_congruent(
            &s_last,
            store,
            entity as int,
            cnt as int,
            g_vertical,
            spacing as int,
        );
    }
    desired
}

/// What the arrange pass needs beyond `measure_ready`: margins and vertical
/// alignment everywhere a slot is, and — for a text-selection cursor — its
/// text block, its expanded flag, a parent with well-formed bounds, and font
/// data wherever the text block carries text.
pub open spec fn arrange_ready(s: &Store) -> bool {
    &&& measure_ready(s)
    &&& forall|e: int|
        0 <= e < s.n() && s.alive(e) && (#[trigger] s.layout_of(e)) is Some ==> ((s.thickness_prop(
            e,
            PropKey::Margin,
        ) matches Some(mg) && mg.wf()) && s.alignment_prop(e, PropKey::VAlign) is Some)
    &&& forall|e: int|
        0 <= e < s.n() && s.alive(e) && (#[trigger] s.layout_of(e)) is Some && slot_of(
            s,
            e,
        ).kind is TextSelection ==> ts_ready(s, e)
}

/// The components a text-selection cursor requires; their absence is a fatal
/// contract violation, not a soft miss.
pub open spec fn ts_ready(s: &Store, e: int) -> bool {
    &&& e != 0
    &&& s.entity_prop(e, PropKey::TextBlock) matches Some(tb) && (tb as int) < s.n() && (
    s.text_prop(tb as int, PropKey::Text) is Some ==> (s.str_prop(tb as int, PropKey::Font) is Some
        && s.int_prop(tb as int, PropKey::FontSize) is Some))
    &&& s.bool_prop(e, PropKey::Expanded) is Some
    &&& s.rect_prop(s.parent_index(e), PropKey::Bounds) matches Some(b) && b.wf()
}

/// The sum of the extents of the non-stretch tracks among the first `upto`,
/// each clamped to the size range, and the number of stretch tracks seen.
pub open spec fn tracks_fold(tracks: Seq<Track>, autos: Seq<i64>, upto: int) -> (int, int)
    decreases upto,
{
    if upto <= 0 {
        (0, 0)
    } else {
        let rec = tracks_fold(tracks, autos, upto - 1);
        match tracks[upto - 1] {
            Track::Fixed(w) => (clamp_size(rec.0 + clamp_size(w as int)), rec.1),
            Track::Auto => (
                clamp_size(
                    rec.0 + clamp_size(
                        if upto - 1 < autos.len() {
                            autos[upto - 1] as int
                        } else {
                            0
                        },
                    ),
                ),
                rec.1,
            ),
            Track::Stretch => (rec.0, rec.1 + 1),
        }
    }
}

/// The index of the last stretch track, or `-1` when there is none.
pub open spec fn last_stretch(tracks: Seq<Track>) -> int
    decreases tracks.len(),
{
    if tracks.len() == 0 {
        -1
    } else if tracks.last() is Stretch {
        tracks.len() - 1
    } else {
        last_stretch(tracks.drop_last())
    }
}

/// The extent allocated to track `i`: a fixed track keeps its extent, an auto
/// track takes its content extent, and the space left after both is divided
/// evenly among the stretch tracks, the last of them taking the remainder.
pub open spec fn spec_allocated(tracks: Seq<Track>, autos: Seq<i64>, available: int, i: int) -> int {
    let f = tracks_fold(tracks, autos, tracks.len() as int);
    let remaining = if available - f.0 < 0 {
        0
    } else {
        clamp_size(available - f.0)
    };
    let share = if f.1 > 0 {
        remaining / f.1
    } else {
        0
    };
    match tracks[i] {
        Track::Fixed(w) => clamp_size(w as int),
        Track::Auto => clamp_size(
            if i < autos.len() {
                autos[i] as int
            } else {
                0
            },
        ),
        Track::Stretch => if i == last_stretch(tracks) {
            remaining - share * (f.1 - 1)
        } else {
            share
        },
    }
}

/// Allocates extents to grid tracks from the available space: fixed and auto
/// tracks are subtracted first, and what remains is shared evenly by the
/// stretch tracks, the last taking the division remainder.
pub fn allocate_tracks(tracks: &Vec<Track>, autos: &Vec<i64>, available: i64) -> (r: Vec<i64>)
    requires
        0 <= available <= GEOM_BOUND,
        tracks@.len() <= GEOM_BOUND,
    ensures
        r@.len() == tracks@.len(),
        forall|i: int|
            0 <= i < tracks@.len() ==> (#[trigger] r@[i]) as int == spec_allocated(
                tracks@,
                autos@,
                available as int,
                i,
            ),
        forall|i: int| 0 <= i < tracks@.len() ==> 0 <= #[trigger] r@[i] <= GEOM_BOUND,
{
    let n = tracks.len();
    let mut used: i64 = 0;
    let mut stretch_count: i128 = 0;
    let mut last_idx: i128 = -1;
    let mut i: usize = 0;
    while i < n
        invariant
            0 <= i <= n,
            n == tracks@.len(),
            n <= GEOM_BOUND,
            (used as int, stretch_count as int) == tracks_fold(tracks@, autos@, i as int),
            0 <= used <= GEOM_BOUND,
            0 <= stretch_count <= i,
            last_idx as int == last_stretch(tracks@.take(i as int)),
            -1 <= last_idx < i as int,
            (stretch_count > 0) == (last_idx >= 0),
            last_idx >= 0 ==> tracks@[last_idx as int] is Stretch,
            forall|j: int| last_idx < j < i ==> !((#[trigger] tracks@[j]) is Stretch),
        decreases n - i,
    {
        proof {
            assert(tracks@.take(i as int + 1).drop_last() =~= tracks@.take(i as int));
            assert(tracks@.take(i as int + 1).last() == tracks@[i as int]);
        }
        match tracks[i] {
            Track::Fixed(w) => {
                let cw = if w < 0 {
                    0
                } else if w > GEOM_BOUND {
                    GEOM_BOUND
                } else {
                    w
                };
                let sum = used + cw;
                used = if sum > GEOM_BOUND {
                    GEOM_BOUND
                } else {
                    sum
                };
            },
            Track::Auto => {
                let a: i64 = if i < autos.len() {
                    autos[i]
                } else {
                    0
                };
                let ca = if a < 0 {
                    0
                } else if a > GEOM_BOUND {
                    GEOM_BOUND
                } else {
                    a
                };
                let sum = used + ca;
                used = if sum > GEOM_BOUND {
                    GEOM_BOUND
                } else {
                    sum
                };
            },
            Track::Stretch => {
                stretch_count = stretch_count + 1;
                last_idx = i as i128;
            },
        }
        i += 1;
    }
    proof {
        assert(tracks@.take(n as int) =~= tracks@);
    }
    let remaining: i64 = if available < used {
        0
    } else {
        available - used
    };
    let share: i64 = if stretch_count > 0 {
        proof {
            assert(0 <= (remaining as i128) / stretch_count <= remaining as i128) by (
            nonlinear_arith)
                requires
                    stretch_count > 0,
                    0 <= remaining as i128,
            ;
        }
        ((remaining as i128) / stretch_count) as i64
    } else {
        0
    };
    proof {
        if stretch_count > 0 {
            let sh = share as int;
            let sc = stretch_count as int;
            let rem = remaining as int;
            assert(0 <= sh && sh * sc <= rem && sh * (sc - 1) <= rem && sh * (sc - 1) >= 0) by (
            nonlinear_arith)
                requires
                    sc > 0,
                    0 <= rem,
                    sh == rem / sc,
            ;
        }
    }
    let mut r: Vec<i64> = Vec::new();
    let mut k: usize = 0;
    while k < n
        invariant
            0 <= k <= n,
            n == tracks@.len(),
            n <= GEOM_BOUND,
            r@.len() == k,
            0 <= stretch_count <= n,
            (used as int, stretch_count as int) == tracks_fold(tracks@, autos@, n as int),
            0 <= used <= GEOM_BOUND,
            remaining as int == (if (available as int) < (used as int) {
                0int
            } else {
                available as int - used as int
            }),
            0 <= remaining <= GEOM_BOUND,
            share as int == (if (stretch_count as int) > 0 {
                remaining as int / stretch_count as int
            } else {
                0int
            }),
            stretch_count > 0 ==> 0 <= (share as int) * (stretch_count as int - 1)
                <= remaining as int,
            0 <= share <= GEOM_BOUND,
            last_idx as int == last_stretch(tracks@),
            (stretch_count > 0) == (last_idx >= 0),
            forall|j: int| last_idx < j < n ==> !((#[trigger] tracks@[j]) is Stretch),
            0 <= available <= GEOM_BOUND,
            forall|i2: int|
                0 <= i2 < k ==> (#[trigger] r@[i2]) as int == spec_allocated(
                    tracks@,
                    autos@,
                    available as int,
                    i2,
                ),
            forall|i2: int| 0 <= i2 < k ==> 0 <= #[trigger] r@[i2] <= GEOM_BOUND,
        decreases n - k,
    {
        let v: i64 = match tracks[k] {
            Track::Fixed(w) => {
                if w < 0 {
                    0
                } else if w > GEOM_BOUND {
                    GEOM_BOUND
                } else {
                    w
                }
            },
            Track::Auto => {
                let a: i64 = if k < autos.len() {
                    autos[k]
                } else {
                    0
                };
                if a < 0 {
                    0
                } else if a > GEOM_BOUND {
                    GEOM_BOUND
                } else {
                    a
                }
            },
            Track::Stretch => {
                proof {
                    assert(!(last_idx < k as int));
                    assert(stretch_count > 0);
                }
                if k as i128 == last_idx {
                    remaining - share * ((stretch_count - 1) as i64)
                } else {
                    share
                }
            },
        };
        r.push(v);
        k += 1;
    }
    r
}

/// The two records agree on everything but the layout slot and properties.
pub open spec fn node_same_structure(a: Node, b: Node) -> bool {
    a.alive == b.alive && a.parent == b.parent && a.children@ == b.children@ && a.handlers@
        == b.handlers@
}

/// The extent of the allocated tracks before `upto`, clamped.
pub open spec fn alloc_prefix(tracks: Seq<Track>, autos: Seq<i64>, available: int, upto: int) -> int
    decreases upto,
{
    if upto <= 0 {
        0
    } else {
        clamp_size(
            alloc_prefix(tracks, autos, available, upto - 1) + clamp_size(
                spec_allocated(tracks, autos, available, upto - 1),
            ),
        )
    }
}

/// The column and row tracks of a grid entity; empty when undeclared.
pub open spec fn grid_columns(s: &Store, e: int) -> Seq<Track> {
    match s.tracks_prop(e, PropKey::Columns) {
        Some(t) => t,
        None => Seq::empty(),
    }
}

pub open spec fn grid_rows(s: &Store, e: int) -> Seq<Track> {
    match s.tracks_prop(e, PropKey::Rows) {
        Some(t) => t,
        None => Seq::empty(),
    }
}

/// The column (or row) a grid child is attached to; the first without a
/// declaration.
pub open spec fn grid_index_of(s: &Store, c: int, key: PropKey) -> int {
    match s.int_prop(c, key) {
        Some(i) => if i < 0 {
            0
        } else {
            i as int
        },
        None => 0,
    }
}

/// The extent a grid track gives a child in it; zero outside the declared
/// tracks.
pub open spec fn grid_extent(tracks: Seq<Track>, autos: Seq<i64>, available: int, i: int) -> int {
    if 0 <= i < tracks.len() {
        spec_allocated(tracks, autos, available, i)
    } else {
        0
    }
}

/// The size the arrange pass proposes for a child before the child's own
/// constraint clamps it.
pub open spec fn proposed_child_size(s: &Store, e: int, c: int, avail: Size) -> (int, int) {
    let d = slot_of(s, c).desired;
    match slot_of(s, e).kind {
        LayoutKind::Grid => (
            grid_extent(
                grid_columns(s, e),
                Seq::empty(),
                avail.width as int,
                grid_index_of(s, c, PropKey::GridColumn),
            ),
            grid_extent(
                grid_rows(s, e),
                Seq::empty(),
                avail.height as int,
                grid_index_of(s, c, PropKey::GridRow),
            ),
        ),
        _ => (d.width as int, d.height as int),
    }
}

/// What the child's bounds extent becomes: the proposal clamped by the
/// child's own constraint — a fixed extent always wins; otherwise the minimum
/// and maximum bounds hold.
pub open spec fn arranged_extent(c: Constraint, fixed: int, lo: int, hi: int, given: int) -> int {
    Constraint::spec_perform_axis(fixed, lo, hi, given)
}

/// Clamps a coordinate into the coordinate range.
pub open spec fn clamp_coord(x: int) -> int {
    if x < -(GEOM_BOUND as int) {
        -(GEOM_BOUND as int)
    } else if x > GEOM_BOUND as int {
        GEOM_BOUND as int
    } else {
        x
    }
}

/// The offset a strategy gives the child at index `j`: a stack places it
/// after the run of the earlier children (with spacing between occupied
/// runs), a grid at the extent of the tracks before its own, the absolute
/// strategy at the child's own margin, and the padding strategies inside the
/// entity's padding.
pub open spec fn child_offset(s: &Store, e: int, j: int, avail: Size) -> (int, int) {
    let c = s.children_of(e)[j] as int;
    match slot_of(s, e).kind {
        LayoutKind::Stack { vertical, spacing } => {
            let f = content_fold(s, e, j, vertical, spacing as int);
            let m: int = if f.0 > 0 {
                clamp_size(f.0 + spacing)
            } else {
                0
            };
            if vertical {
                (0int, m)
            } else {
                (m, 0int)
            }
        },
        LayoutKind::Grid => {
            let cols = grid_columns(s, e);
            let rows = grid_rows(s, e);
            let ci = grid_index_of(s, c, PropKey::GridColumn);
            let ri = grid_index_of(s, c, PropKey::GridRow);
            (
                alloc_prefix(
                    cols,
                    Seq::empty(),
                    avail.width as int,
                    if ci < cols.len() {
                        ci
                    } else {
                        cols.len() as int
                    },
                ),
                alloc_prefix(
                    rows,
                    Seq::empty(),
                    avail.height as int,
                    if ri < rows.len() {
                        ri
                    } else {
                        rows.len() as int
                    },
                ),
            )
        },
        LayoutKind::Absolute => {
            let m = match s.thickness_prop(c, PropKey::Margin) {
                Some(t) => t,
                None => Thickness { left: 0, top: 0, right: 0, bottom: 0 },
            };
            (m.left as int, m.top as int)
        },
        _ => (padding_of(s, e).left as int, padding_of(s, e).top as int),
    }
}

/// The bounds rectangle a strategy writes for the child at index `j`: the
/// strategy's offset and the proposed extent clamped by the child's own
/// constraint, everything held inside the coordinate range.
pub open spec fn spec_child_bounds(s: &Store, e: int, j: int, avail: Size) -> Rectangle {
    let c = s.children_of(e)[j] as int;
    let cc = s.constraint_prop(c)->Some_0;
    let prop = proposed_child_size(s, e, c, avail);
    let off = child_offset(s, e, j, avail);
    Rectangle {
        x: clamp_coord(off.0) as i64,
        y: clamp_coord(off.1) as i64,
        width: clamp_size(
            arranged_extent(cc, cc.width as int, cc.min_width as int, cc.max_width as int, prop.0),
        ) as i64,
        height: clamp_size(
            arranged_extent(
                cc,
                cc.height as int,
                cc.min_height as int,
                cc.max_height as int,
                prop.1,
            ),
        ) as i64,
    }
}

/// An element of a prefix is an element of the whole.
proof fn lemma_prefix_contains<T>(a: Seq<T>, b: Seq<T>, x: T)
    requires
        a.is_prefix_of(b),
        a.contains(x),
    ensures
        b.contains(x),
{
    let k = choose|k: int| 0 <= k < a.len() && a[k] == x;
    assert(b[k] == x);
}

/// Sums the allocated track extents before `idx` (all of them when `idx`
/// lies past the declared tracks), clamped into the size range.
fn track_prefix(
    alloc: &Vec<i64>,
    idx: i64,
    Ghost(tracks): Ghost<Seq<Track>>,
    Ghost(autos): Ghost<Seq<i64>>,
    Ghost(avail): Ghost<int>,
) -> (r: i64)
    requires
        alloc@.len() == tracks.len(),
        tracks.len() <= GEOM_BOUND,
        forall|t: int|
            0 <= t < tracks.len() ==> (#[trigger] alloc@[t]) as int == spec_allocated(
                tracks,
                autos,
                avail,
                t,
            ),
        forall|t: int| 0 <= t < tracks.len() ==> 0 <= #[trigger] alloc@[t] <= GEOM_BOUND,
        idx >= 0,
    ensures
        r as int == alloc_prefix(
            tracks,
            autos,
            avail,
            if idx < tracks.len() {
                idx as int
            } else {
                tracks.len() as int
            },
        ),
        0 <= r <= GEOM_BOUND,
{
    let n = alloc.len();
    let upto: usize = if idx < (n as i64) {
        idx as usize
    } else {
        n
    };
    proof {
        assert(upto as int == (if (idx as int) < tracks.len() {
            idx as int
        } else {
            tracks.len() as int
        }));
    }
    let mut acc: i64 = 0;
    let mut t: usize = 0;
    while t < upto
        invariant
            0 <= t <= upto <= n,
            n == tracks.len(),
            alloc@.len() == n,
            n <= GEOM_BOUND,
            forall|t2: int|
                0 <= t2 < tracks.len() ==> (#[trigger] alloc@[t2]) as int == spec_allocated(
                    tracks,
                    autos,
                    avail,
                    t2,
                ),
            forall|t2: int| 0 <= t2 < tracks.len() ==> 0 <= #[trigger] alloc@[t2] <= GEOM_BOUND,
            acc as int == alloc_prefix(tracks, autos, avail, t as int),
            0 <= acc <= GEOM_BOUND,
        decreases upto - t,
    {
        proof {
            assert(clamp_size(spec_allocated(tracks, autos, avail, t as int)) == alloc@[t as int] as int);
        }
        let sum = acc + alloc[t];
        acc = if sum > GEOM_BOUND {
            GEOM_BOUND
        } else {
            sum
        };
        t += 1;
    }
    acc
}

/// The measured width of the text before the caret of a text-selection
/// cursor; zero when there is no text or no selection, or the caret lies
/// past the end.
pub open spec fn ts_pre_width<M: TextMeasurer>(s: &Store, m: &M, e: int) -> int {
    let tb = s.entity_prop(e, PropKey::TextBlock)->Some_0 as int;
    match s.text_prop(tb, PropKey::Text) {
        Some(text) => match s.selection_prop(e) {
            Some(sel) => if sel.start_index <= text.len() {
                m.spec_width(
                    text.subrange(0, sel.start_index as int),
                    s.int_prop(tb, PropKey::FontSize)->Some_0 as int,
                    s.str_prop(tb, PropKey::Font)->Some_0,
                )
            } else {
                0
            },
            None => 0,
        },
        None => 0,
    }
}

/// The width of a text-selection cursor: the measured extent of the selected
/// run when one is highlighted, the full constraint width for a plain caret,
/// and the cached width when there is no text or selection to measure.
pub open spec fn ts_width<M: TextMeasurer>(s: &Store, m: &M, e: int, desired_w: int) -> int {
    let tb = s.entity_prop(e, PropKey::TextBlock)->Some_0 as int;
    match s.text_prop(tb, PropKey::Text) {
        Some(text) => match s.selection_prop(e) {
            Some(sel) => if sel.length > 0 {
                if sel.start_index + sel.length <= text.len() {
                    m.spec_width(
                        text.subrange(
                            sel.start_index as int,
                            sel.start_index as int + sel.length as int,
                        ),
                        s.int_prop(tb, PropKey::FontSize)->Some_0 as int,
                        s.str_prop(tb, PropKey::Font)->Some_0,
                    )
                } else {
                    desired_w
                }
            } else {
                s.constraint_prop(e)->Some_0.width as int
            },
            None => desired_w,
        },
        None => desired_w,
    }
}

/// The height of a text-selection cursor: the cached height aligned into the
/// parent extent under the vertical alignment and the margins.
pub open spec fn ts_height(s: &Store, e: int, parent_h: int, desired_h: int) -> int {
    let a = s.alignment_prop(e, PropKey::VAlign)->Some_0;
    let mg = s.thickness_prop(e, PropKey::Margin)->Some_0;
    clamp_size(a.spec_align_measure(parent_h, desired_h, mg.top as int, mg.bottom as int))
}

/// The caret index of a text-selection cursor, zero without a selection or
/// without text.
pub open spec fn ts_sel_start(s: &Store, e: int) -> int {
    let tb = s.entity_prop(e, PropKey::TextBlock)->Some_0 as int;
    match s.text_prop(tb, PropKey::Text) {
        Some(text) => match s.selection_prop(e) {
            Some(sel) => sel.start_index as int,
            None => 0,
        },
        None => 0,
    }
}

/// The length of the text a text-selection cursor's text block holds.
pub open spec fn ts_text_len(s: &Store, e: int) -> int {
    let tb = s.entity_prop(e, PropKey::TextBlock)->Some_0 as int;
    match s.text_prop(tb, PropKey::Text) {
        Some(text) => text.len() as int,
        None => 0,
    }
}

/// Whether the cursor resets the text block's scroll offset: the field does
/// not show the full selection, the text is empty, or the caret sits at the
/// start.
pub open spec fn ts_reset_applies(s: &Store, e: int) -> bool {
    let expanded = s.bool_prop(e, PropKey::Expanded)->Some_0;
    !expanded || ts_text_len(s, e) == 0 || (!expanded && ts_sel_start(s, e) == 0)
}

/// Whether the viewport auto-scroll fires: the field does not show the full
/// selection, the caret is past the start, and the caret geometry leaves the
/// parent's visible width.
pub open spec fn ts_scroll_applies<M: TextMeasurer>(
    s: &Store,
    m: &M,
    e: int,
    desired_w: int,
) -> bool {
    let pos = ts_pre_width(s, m, e);
    let w = ts_width(s, m, e, desired_w);
    let vpw = s.rect_prop(s.parent_index(e), PropKey::Bounds)->Some_0.width as int;
    let expanded = s.bool_prop(e, PropKey::Expanded)->Some_0;
    !expanded && ts_sel_start(s, e) > 0 && (pos < 0 || pos + w > vpw)
}

/// The left margin the text block is left with: scrolled against the shift
/// when the auto-scroll fires on a non-empty text, reset to zero when the
/// reset conditions hold, and otherwise untouched.
pub open spec fn ts_scroll_left<M: TextMeasurer>(
    s: &Store,
    m: &M,
    e: int,
    desired_w: int,
    old_left: int,
) -> int {
    if ts_scroll_applies(s, m, e, desired_w) && ts_text_len(s, e) > 0 {
        clamp_coord(-ts_shift(s, m, e, desired_w))
    } else if ts_reset_applies(s, e) {
        0
    } else {
        old_left
    }
}

/// Whether the cursor geometry is shifted to keep the caret inside the
/// viewport, and by how much: the caret run is scrolled when the field is not
/// expanded, the caret is past the start, and the caret geometry leaves the
/// parent's visible width.
pub open spec fn ts_shift<M: TextMeasurer>(s: &Store, m: &M, e: int, desired_w: int) -> int {
    let pos = ts_pre_width(s, m, e);
    let w = ts_width(s, m, e, desired_w);
    let vpw = s.rect_prop(s.parent_index(e), PropKey::Bounds)->Some_0.width as int;
    let expanded = s.bool_prop(e, PropKey::Expanded)->Some_0;
    if !expanded && ts_sel_start(s, e) > 0 && (pos < 0 || pos + w > vpw) {
        if pos < 0 {
            pos
        } else {
            pos - vpw + w
        }
    } else {
        0
    }
}

/// The final left margin of the cursor: the measured caret position, pulled
/// back by the viewport shift.
pub open spec fn ts_final_pos<M: TextMeasurer>(s: &Store, m: &M, e: int, desired_w: int) -> int {
    ts_pre_width(s, m, e) - ts_shift(s, m, e, desired_w)
}

/// Whether `d` is a text-selection node whose text block is `x`.
pub open spec fn ts_target_of(s: &Store, x: int, d: int) -> bool {
    0 <= d < s.n() && s.layout_of(d) is Some && slot_of(s, d).kind is TextSelection
        && s.entity_prop(d, PropKey::TextBlock) == Some(x as usize)
}

/// What every arrange call leaves alone and keeps: well-formedness, the tree
/// structure, every component under a key other than bounds and margin, and
/// every node outside the subtree that is not the text block of a
/// text-selection node inside it.
pub open spec fn arrange_frame(s0: &Store, s1: &Store, e: int) -> bool {
    &&& s1.wf()
    &&& arrange_ready(s1)
    &&& s1.n() == s0.n()
    &&& forall|x: int|
        0 <= x < s0.n() ==> node_same_structure(s1.nodes@[x], s0.nodes@[x])
    &&& forall|x: int, k: PropKey|
        0 <= x < s0.n() && k != PropKey::Bounds && k != PropKey::Margin ==> s1.prop(x, k)
            == s0.prop(x, k)
    &&& forall|x: int|
        0 <= x < s0.n() && x != e && !s0.weak_desc(e, x) ==> s1.layout_of(x) == s0.layout_of(x)
    &&& forall|x: int|
        0 <= x < s0.n() && x != e && !s0.weak_desc(e, x) && !(exists|d: int|
            (d == e || s0.weak_desc(e, d)) && ts_target_of(s0, x, d)) ==> s1.nodes@[x]
            == s0.nodes@[x]
    &&& forall|x: int|
        0 <= x < s0.n() && x != e && !s0.weak_desc(e, x) ==> s1.prop(x, PropKey::Bounds)
            == s0.prop(x, PropKey::Bounds)
    &&& forall|x: int|
        0 <= x < s0.n() ==> ((#[trigger] s1.layout_of(x)) is Some <==> s0.layout_of(x) is Some)
    &&& forall|x: int|
        0 <= x < s0.n() && s0.layout_of(x) is Some ==> slot_of(s1, x).kind == slot_of(s0, x).kind
            && slot_of(s1, x).old_text_selection == slot_of(s0, x).old_text_selection
}

/// Arranging preserves readiness when only bounds, margins and layout slots
/// moved, margins stayed in range and bounds stayed well-formed.
proof fn lemma_arrange_ready_preserved(s0: &Store, s1: &Store)
    requires
        arrange_ready(s0),
        s1.wf(),
        s1.n() == s0.n(),
        forall|x: int|
            0 <= x < s0.n() ==> node_same_structure(s1.nodes@[x], s0.nodes@[x]),
        forall|x: int, k: PropKey|
            0 <= x < s0.n() && k != PropKey::Bounds && k != PropKey::Margin ==> s1.prop(x, k)
                == s0.prop(x, k),
        forall|x: int|
            0 <= x < s0.n() ==> ((#[trigger] s1.layout_of(x)) is Some <==> s0.layout_of(x) is Some),
        forall|x: int|
            0 <= x < s0.n() && s0.alive(x) && (#[trigger] s0.layout_of(x)) is Some ==> slot_of(
                s1,
                x,
            ).kind == slot_of(s0, x).kind && slot_of(s1, x).desired.wf(),
        forall|x: int|
            0 <= x < s0.n() && s0.alive(x) && (#[trigger] s0.layout_of(x)) is Some ==> (
            s1.thickness_prop(x, PropKey::Margin) is Some <==> s0.thickness_prop(
                x,
                PropKey::Margin,
            ) is Some),
        forall|x: int|
            0 <= x < s0.n() && s0.alive(x) && (#[trigger] s0.layout_of(x)) is Some
                && s1.thickness_prop(x, PropKey::Margin) is Some ==> (s1.thickness_prop(
                x,
                PropKey::Margin,
            ) == s0.thickness_prop(x, PropKey::Margin) || s1.thickness_prop(
                x,
                PropKey::Margin,
            )->Some_0.wf()),
        forall|x: int|
            0 <= x < s0.n() && (#[trigger] s1.rect_prop(x, PropKey::Bounds)) is Some ==> (
            s1.rect_prop(x, PropKey::Bounds)->Some_0.wf() || s1.rect_prop(x, PropKey::Bounds)
                == s0.rect_prop(x, PropKey::Bounds)),
        forall|x: int|
            0 <= x < s0.n() && (#[trigger] s0.rect_prop(x, PropKey::Bounds)) is Some
                ==> s1.rect_prop(x, PropKey::Bounds) is Some,
    ensures
        arrange_ready(s1),
{
    assert forall|e: int|
        0 <= e < s1.n() && s1.alive(e) && (#[trigger] s1.layout_of(e)) is Some implies (
    s1.vis_prop(e) is Some && (s1.constraint_prop(e) matches Some(c) && c.wf()) && kind_wf(
        slot_of(s1, e).kind,
    ) && slot_of(s1, e).desired.wf() && padding_of(s1, e).wf() && (s1.thickness_prop(
        e,
        PropKey::Margin,
    ) matches Some(mg) && mg.wf()) && s1.alignment_prop(e, PropKey::VAlign) is Some) by {
        assert(s0.alive(e) && s0.layout_of(e) is Some);
        assert(s1.prop(e, PropKey::Visibility) == s0.prop(e, PropKey::Visibility));
        assert(s1.prop(e, PropKey::Constraint) == s0.prop(e, PropKey::Constraint));
        assert(s1.prop(e, PropKey::Padding) == s0.prop(e, PropKey::Padding));
        assert(s1.prop(e, PropKey::VAlign) == s0.prop(e, PropKey::VAlign));
        assert(slot_of(s1, e).kind == slot_of(s0, e).kind && slot_of(s1, e).desired.wf());
        assert(s1.thickness_prop(e, PropKey::Margin) is Some <==> s0.thickness_prop(
            e,
            PropKey::Margin,
        ) is Some);
        assert(s0.thickness_prop(e, PropKey::Margin) matches Some(m0) && m0.wf());
        assert(s1.thickness_prop(e, PropKey::Margin) == s0.thickness_prop(e, PropKey::Margin)
            || s1.thickness_prop(e, PropKey::Margin)->Some_0.wf());
    }
    assert forall|e: int|
        0 <= e < s1.n() && s1.alive(e) && (#[trigger] s1.layout_of(e)) is Some && slot_of(
            s1,
            e,
        ).kind is TextSelection implies ts_ready(s1, e) by {
        assert(s0.alive(e) && s0.layout_of(e) is Some);
        assert(slot_of(s0, e).kind is TextSelection);
        assert(ts_ready(s0, e));
        assert(s1.prop(e, PropKey::TextBlock) == s0.prop(e, PropKey::TextBlock));
        assert(s1.prop(e, PropKey::Expanded) == s0.prop(e, PropKey::Expanded));
        let tb = s0.entity_prop(e, PropKey::TextBlock)->Some_0 as int;
        assert(s1.prop(tb, PropKey::Text) == s0.prop(tb, PropKey::Text));
        assert(s1.prop(tb, PropKey::Font) == s0.prop(tb, PropKey::Font));
        assert(s1.prop(tb, PropKey::FontSize) == s0.prop(tb, PropKey::FontSize));
        assert(s1.nodes@[e].parent == s0.nodes@[e].parent);
        let p = s0.parent_index(e);
        assert(e != 0);
        assert(s1.parent_of(e) matches Some(q) && q < e && s1.alive(q as int));
        assert(0 <= p < s0.n());
        assert(s0.rect_prop(p, PropKey::Bounds) matches Some(b) && b.wf());
        assert(s1.rect_prop(p, PropKey::Bounds) is Some);
        assert(s1.rect_prop(p, PropKey::Bounds) == s0.rect_prop(p, PropKey::Bounds)
            || s1.rect_prop(p, PropKey::Bounds)->Some_0.wf());
    }
}

/// A single bounds or margin write at a node inside the arranged subtree (or
/// at the text target of a text-selection node in it) keeps the arrange
/// frame.
proof fn arrange_frame_prop_write(
    s_in: &Store,
    s_pre: &Store,
    s_post: &Store,
    e: int,
    t: int,
    key: PropKey,
)
    requires
        arrange_frame(s_in, s_pre, e),
        s_post.wf(),
        s_post.n() == s_pre.n(),
        key == PropKey::Bounds || key == PropKey::Margin,
        t == e || s_in.weak_desc(e, t) || (exists|d: int|
            (d == e || s_in.weak_desc(e, d)) && ts_target_of(s_in, t, d)),
        key == PropKey::Bounds ==> (t == e || s_in.weak_desc(e, t)),
        0 <= t < s_pre.n(),
        forall|x: int| 0 <= x < s_pre.n() && x != t ==> s_post.nodes@[x] == s_pre.nodes@[x],
        s_post.nodes@[t].layout == s_pre.nodes@[t].layout,
        node_same_structure(s_post.nodes@[t], s_pre.nodes@[t]),
        forall|k: PropKey| k != key ==> s_post.prop(t, k) == s_pre.prop(t, k),
        arrange_ready(s_post),
    ensures
        arrange_frame(s_in, s_post, e),
{
    assert forall|x: int|
        0 <= x < s_in.n() implies node_same_structure(s_post.nodes@[x], s_in.nodes@[x]) by {
        assert(node_same_structure(s_pre.nodes@[x], s_in.nodes@[x]));
    }
    assert forall|x: int, k: PropKey|
        0 <= x < s_in.n() && k != PropKey::Bounds && k != PropKey::Margin implies s_post.prop(x, k)
        == s_in.prop(x, k) by {
        if x == t {
            assert(s_post.prop(t, k) == s_pre.prop(t, k));
        }
    }
    assert forall|x: int|
        0 <= x < s_in.n() && x != e && !s_in.weak_desc(e, x) implies s_post.layout_of(x)
            == s_in.layout_of(x) by {
        if x == t {
            assert(s_post.nodes@[t].layout == s_pre.nodes@[t].layout);
        }
    }
    assert forall|x: int|
        0 <= x < s_in.n() && x != e && !s_in.weak_desc(e, x) implies s_post.prop(
        x,
        PropKey::Bounds,
    ) == s_in.prop(x, PropKey::Bounds) by {
        if x == t {
            assert(key == PropKey::Margin);
            assert(s_post.prop(t, PropKey::Bounds) == s_pre.prop(t, PropKey::Bounds));
        }
    }
    assert forall|x: int|
        0 <= x < s_in.n() implies ((#[trigger] s_post.layout_of(x)) is Some <==> s_in.layout_of(
            x,
        ) is Some) by {
        if x == t {
            assert(s_post.nodes@[t].layout == s_pre.nodes@[t].layout);
        }
    }
    assert forall|x: int|
        0 <= x < s_in.n() && s_in.layout_of(x) is Some implies slot_of(s_post, x).kind == slot_of(
            s_in,
            x,
        ).kind && slot_of(s_post, x).old_text_selection == slot_of(s_in, x).old_text_selection by {
        if x == t {
            assert(s_post.nodes@[t].layout == s_pre.nodes@[t].layout);
        }
    }
}

/// Composes the frame of a child's arrange call into the frame of its
/// parent's, and carries sibling claims across it.
proof fn arrange_compose(s_in: &Store, s_mid: &Store, s_now: &Store, e: int, c: int, i: int)
    requires
        s_in.wf(),
        s_mid.wf(),
        0 <= e < s_in.n(),
        s_in.alive(e),
        0 <= i < s_in.children_of(e).len(),
        s_in.children_of(e)[i] as int == c,
        e < c < s_in.n(),
        arrange_frame(s_in, s_mid, e),
        arrange_frame(s_mid, s_now, c),
    ensures
        arrange_frame(s_in, s_now, e),
        s_now.layout_of(e) == s_mid.layout_of(e),
        s_now.prop(e, PropKey::Bounds) == s_mid.prop(e, PropKey::Bounds),
{
    assert forall|x: int|
        0 <= x < s_in.n() && x != e && !s_in.weak_desc(e, x) implies s_now.layout_of(x)
            == s_in.layout_of(x) by {
        if s_now.layout_of(x) != s_mid.layout_of(x) {
            assert(x == c || s_mid.weak_desc(c, x));
            if s_mid.is_ancestor(c, x) {
                assert(s_mid.parent_of(x) is Some);
                assert(s_mid.alive(x));
                Store::lemma_ancestor_congruent(*s_in, *s_mid, c, x);
            }
            assert(s_in.weak_desc(c, x));
            assert(s_in.is_ancestor(e, x)) by {
                s_in.lemma_child_is_descendant(e, i);
                if s_in.is_ancestor(c, x) {
                    s_in.lemma_ancestor_trans(e, c, x);
                }
            }
        }
    }
    assert forall|x: int|
        0 <= x < s_in.n() && x != e && !s_in.weak_desc(e, x) && !(exists|d: int|
            (d == e || s_in.weak_desc(e, d)) && ts_target_of(s_in, x, d)) implies s_now.nodes@[x]
        == s_in.nodes@[x] by {
        if s_now.nodes@[x] != s_mid.nodes@[x] {
            assert(x == c || s_mid.weak_desc(c, x) || (exists|d: int|
                (d == c || s_mid.weak_desc(c, d)) && ts_target_of(s_mid, x, d)));
            if x == c || s_mid.weak_desc(c, x) {
                if s_mid.is_ancestor(c, x) {
                    assert(s_mid.parent_of(x) is Some);
                    assert(s_mid.alive(x));
                    Store::lemma_ancestor_congruent(*s_in, *s_mid, c, x);
                }
                assert(s_in.is_ancestor(e, x)) by {
                    s_in.lemma_child_is_descendant(e, i);
                    if s_in.is_ancestor(c, x) {
                        s_in.lemma_ancestor_trans(e, c, x);
                    }
                }
            } else {
                let d = choose|d: int|
                    (d == c || s_mid.weak_desc(c, d)) && ts_target_of(s_mid, x, d);
                assert(s_in.weak_desc(e, d)) by {
                    s_in.lemma_child_is_descendant(e, i);
                    if d != c && s_mid.is_ancestor(c, d) {
                        assert(s_mid.parent_of(d) is Some);
                        assert(s_mid.alive(d));
                        Store::lemma_ancestor_congruent(*s_in, *s_mid, c, d);
                        s_in.lemma_ancestor_trans(e, c, d);
                    }
                    if d == c {
                        assert(s_in.is_ancestor(e, d));
                    }
                }
                assert(ts_target_of(s_in, x, d)) by {
                    assert(s_mid.layout_of(d) is Some && slot_of(s_mid, d).kind is TextSelection);
                    assert(s_in.layout_of(d) is Some && slot_of(s_in, d).kind is TextSelection);
                    assert(s_mid.prop(d, PropKey::TextBlock) == s_in.prop(d, PropKey::TextBlock));
                }
                assert(exists|d2: int|
                    (d2 == e || s_in.weak_desc(e, d2)) && ts_target_of(s_in, x, d2));
            }
        }
    }
    assert forall|x: int|
        0 <= x < s_in.n() && x != e && !s_in.weak_desc(e, x) implies s_now.prop(
        x,
        PropKey::Bounds,
    ) == s_in.prop(x, PropKey::Bounds) by {
        if s_now.prop(x, PropKey::Bounds) != s_mid.prop(x, PropKey::Bounds) {
            assert(x == c || s_mid.weak_desc(c, x));
            if s_mid.is_ancestor(c, x) {
                assert(s_mid.parent_of(x) is Some);
                assert(s_mid.alive(x));
                Store::lemma_ancestor_congruent(*s_in, *s_mid, c, x);
            }
            assert(s_in.weak_desc(c, x));
            assert(s_in.is_ancestor(e, x)) by {
                s_in.lemma_child_is_descendant(e, i);
                if s_in.is_ancestor(c, x) {
                    s_in.lemma_ancestor_trans(e, c, x);
                }
            }
        }
    }
    assert(s_now.layout_of(e) == s_mid.layout_of(e)) by {
        if s_now.layout_of(e) != s_mid.layout_of(e) {
            assert(e == c || s_mid.weak_desc(c, e));
            if s_mid.is_ancestor(c, e) {
                assert(s_mid.parent_of(e) is Some);
                assert(s_mid.alive(e));
                Store::lemma_ancestor_congruent(*s_in, *s_mid, c, e);
            }
            lemma_subtree_disjoint(s_in, e, c, e);
        }
    }
    assert(s_now.prop(e, PropKey::Bounds) == s_mid.prop(e, PropKey::Bounds)) by {
        if s_now.prop(e, PropKey::Bounds) != s_mid.prop(e, PropKey::Bounds) {
            assert(s_mid.weak_desc(c, e));
            if s_mid.is_ancestor(c, e) {
                assert(s_mid.parent_of(e) is Some);
                assert(s_mid.alive(e));
                Store::lemma_ancestor_congruent(*s_in, *s_mid, c, e);
            }
            lemma_subtree_disjoint(s_in, e, c, e);
        }
    }
}

/// Frame glue for the entity's own slot write at the end of an arrange.
proof fn arrange_final_glue(s_in: &Store, s_last: &Store, s_now: &Store, e: int)
    requires
        s_in.wf(),
        0 <= e < s_in.n(),
        arrange_frame(s_in, s_last, e),
        s_now.wf(),
        s_now.n() == s_last.n(),
        forall|x: int| 0 <= x < s_last.n() && x != e ==> s_now.nodes@[x] == s_last.nodes@[x],
        Store::node_same_but_layout(s_now.nodes@[e], s_last.nodes@[e]),
        s_now.layout_of(e) is Some,
        s_last.layout_of(e) is Some,
        slot_of(s_now, e).kind == slot_of(s_last, e).kind,
        slot_of(s_now, e).old_text_selection == slot_of(s_last, e).old_text_selection,
        slot_of(s_now, e).desired.wf(),
    ensures
        arrange_frame(s_in, s_now, e),
{
    assert forall|x: int, k: PropKey|
        0 <= x < s_in.n() && k != PropKey::Bounds && k != PropKey::Margin implies s_now.prop(x, k)
        == s_in.prop(x, k) by {
        assert(s_now.nodes@[x].props@ == s_last.nodes@[x].props@);
    }
    assert forall|x: int|
        0 <= x < s_last.n() && s_last.alive(x) && (#[trigger] s_last.layout_of(
            x,
        )) is Some implies slot_of(s_now, x).kind == slot_of(s_last, x).kind && slot_of(
        s_now,
        x,
    ).desired.wf() by {
        if x != e {
            assert(s_now.nodes@[x] == s_last.nodes@[x]);
            assert(slot_of(s_last, x).desired.wf());
        }
    }
    lemma_arrange_ready_preserved(s_last, s_now);
    assert forall|x: int|
        0 <= x < s_in.n() implies node_same_structure(s_now.nodes@[x], s_in.nodes@[x]) by {
        assert(node_same_structure(s_last.nodes@[x], s_in.nodes@[x]));
    }
    assert forall|x: int|
        0 <= x < s_in.n() && x != e && !s_in.weak_desc(e, x) implies s_now.prop(
        x,
        PropKey::Bounds,
    ) == s_in.prop(x, PropKey::Bounds) by {
        assert(s_now.nodes@[x].props@ == s_last.nodes@[x].props@);
    }
}

/// Arranges the slotted children of a non-collapsed entity that is not a
/// text-selection cursor. Every slotted child receives bounds — the
/// strategy's offset and its proposed extent clamped by the child's own
/// constraint — and a renderer-dirty mark, and is then arranged recursively;
/// the entity's own dirty flag is cleared last.
#[verifier::rlimit(100)]
fn arrange_children<M: TextMeasurer>(
    store: &mut Store,
    measurer: &M,
    marks: &mut Vec<(usize, PropKey)>,
    parent_size: Size,
    entity: usize,
) -> (r: Size)
    requires
        old(store).wf(),
        arrange_ready(old(store)),
        old(store).alive(entity as int),
        old(store).layout_of(entity as int) is Some,
        !(slot_of(old(store), entity as int).kind is TextSelection),
        old(store).vis_prop(entity as int) != Some(Visibility::Collapsed),
        parent_size.wf(),
    ensures
        arrange_frame(old(store), final(store), entity as int),
        old(marks)@.is_prefix_of(final(marks)@),
        slot_of(final(store), entity as int).desired.dirty == false,
        slot_of(final(store), entity as int).desired == (DirtySize {
            dirty: false,
            ..slot_of(old(store), entity as int).desired
        }),
        r == (Size {
            width: slot_of(old(store), entity as int).desired.width,
            height: slot_of(old(store), entity as int).desired.height,
        }),
        final(store).prop(entity as int, PropKey::Bounds) == old(store).prop(
            entity as int,
            PropKey::Bounds,
        ),
        forall|j: int|
            0 <= j < old(store).children_of(entity as int).len() && old(store).layout_of(
                (#[trigger] old(store).children_of(entity as int)[j]) as int,
            ) is Some && final(store).vis_prop(
                old(store).children_of(entity as int)[j] as int,
            ) != Some(Visibility::Collapsed) ==> slot_of(
                final(store),
                old(store).children_of(entity as int)[j] as int,
            ).desired.dirty == false,
        forall|j: int|
            0 <= j < old(store).children_of(entity as int).len() && old(store).layout_of(
                (#[trigger] old(store).children_of(entity as int)[j]) as int,
            ) is Some ==> final(marks)@.contains(
                (old(store).children_of(entity as int)[j], PropKey::Bounds),
            ),
        grid_columns(old(store), entity as int).len() <= GEOM_BOUND && grid_rows(
            old(store),
            entity as int,
        ).len() <= GEOM_BOUND ==> (forall|j: int|
            0 <= j < old(store).children_of(entity as int).len() && old(store).layout_of(
                (#[trigger] old(store).children_of(entity as int)[j]) as int,
            ) is Some && !(slot_of(
                old(store),
                old(store).children_of(entity as int)[j] as int,
            ).kind is TextSelection) ==> final(store).rect_prop(
                old(store).children_of(entity as int)[j] as int,
                PropKey::Bounds,
            ) == Some(spec_child_bounds(old(store), entity as int, j, parent_size))),
    decreases old(store).n() - entity, 0int,
{
    let slot = match store.layout(entity) {
        Some(s) => s,
        None => unreached(),
    };
    let ghost s_in = *store;
    let ghost g_cols = grid_columns(&s_in, entity as int);
    let ghost g_rows = grid_rows(&s_in, entity as int);
    let ghost grid_ok = g_cols.len() <= GEOM_BOUND && g_rows.len() <= GEOM_BOUND;
    let (cols_alloc, rows_alloc): (Vec<i64>, Vec<i64>) = if slot.kind == (LayoutKind::Grid) {
        let cols: Vec<Track> = match store.get_tracks(entity, PropKey::Columns) {
            Some(t) => t,
            None => Vec::new(),
        };
        let rows: Vec<Track> = match store.get_tracks(entity, PropKey::Rows) {
            Some(t) => t,
            None => Vec::new(),
        };
        proof {
            assert(cols@ =~= g_cols);
            assert(rows@ =~= g_rows);
        }
        let autos: Vec<i64> = Vec::new();
        if cols.len() > GEOM_BOUND as usize || rows.len() > GEOM_BOUND as usize {
            (Vec::new(), Vec::new())
        } else {
            let ca = allocate_tracks(&cols, &autos, parent_size.width);
            let ra = allocate_tracks(&rows, &autos, parent_size.height);
            proof {
                assert(autos@ =~= Seq::<i64>::empty());
                assert forall|t: int| 0 <= t < g_cols.len() implies (#[trigger] ca@[t]) as int
                    == spec_allocated(g_cols, Seq::empty(), parent_size.width as int, t) by {
                    assert(ca@[t] as int == spec_allocated(
                        cols@,
                        autos@,
                        parent_size.width as int,
                        t,
                    ));
                }
                assert forall|t: int| 0 <= t < g_rows.len() implies (#[trigger] ra@[t]) as int
                    == spec_allocated(g_rows, Seq::empty(), parent_size.height as int, t) by {
                    assert(ra@[t] as int == spec_allocated(
                        rows@,
                        autos@,
                        parent_size.height as int,
                        t,
                    ));
                }
            }
            (ca, ra)
        }
    } else {
        (Vec::new(), Vec::new())
    };
    let grid_declared: bool = slot.kind == (LayoutKind::Grid) && (cols_alloc.len() > 0
        || rows_alloc.len() > 0);
    let cnt = store.child_count(entity);
    let mut i: usize = 0;
    let mut run_main: i64 = 0;
    let (g_vertical, spacing): (bool, i64) = match slot.kind {
        LayoutKind::Stack { vertical, spacing } => (vertical, spacing),
        _ => (false, 0),
    };
    let pad = match store.get_thickness(entity, PropKey::Padding) {
        Some(t) => t,
        None => Thickness::new(0, 0, 0, 0),
    };
    proof {
        assert(pad == padding_of(&s_in, entity as int));
    }
    // first pass: every slotted child gets its bounds and a renderer mark
    while i < cnt
        invariant
            s_in == *old(store),
            store.wf(),
            arrange_ready(store),
            store.n() == s_in.n(),
            s_in.wf(),
            arrange_ready(&s_in),
            0 <= i <= cnt,
            entity < s_in.n(),
            cnt as int == s_in.children_of(entity as int).len(),
            s_in.alive(entity as int),
            s_in.layout_of(entity as int) is Some,
            parent_size.wf(),
            !(slot_of(&s_in, entity as int).kind is TextSelection),
            slot == slot_of(&s_in, entity as int),
            kind_wf(slot.kind),
            0 <= spacing <= GEOM_BOUND,
            slot.kind is Stack ==> slot.kind == (LayoutKind::Stack {
                vertical: g_vertical,
                spacing,
            }),
            !(slot.kind is Stack) ==> g_vertical == false && spacing == 0,
            pad == padding_of(&s_in, entity as int),
            pad.wf(),
            0 <= run_main <= GEOM_BOUND,
            run_main as int == content_fold(&s_in, entity as int, i as int, g_vertical, spacing as int).0,
            g_cols == grid_columns(&s_in, entity as int),
            g_rows == grid_rows(&s_in, entity as int),
            grid_ok == (g_cols.len() <= GEOM_BOUND && g_rows.len() <= GEOM_BOUND),
            slot.kind is Grid && grid_ok ==> (cols_alloc@.len() == g_cols.len() && rows_alloc@.len()
                == g_rows.len() && (forall|t: int|
                0 <= t < g_cols.len() ==> (#[trigger] cols_alloc@[t]) as int == spec_allocated(
                    g_cols,
                    Seq::empty(),
                    parent_size.width as int,
                    t,
                )) && (forall|t: int|
                0 <= t < g_rows.len() ==> (#[trigger] rows_alloc@[t]) as int == spec_allocated(
                    g_rows,
                    Seq::empty(),
                    parent_size.height as int,
                    t,
                ))),
            !(slot.kind is Grid) ==> cols_alloc@.len() == 0 && rows_alloc@.len() == 0,
            !grid_ok ==> cols_alloc@.len() == 0 && rows_alloc@.len() == 0,
            grid_declared == (slot.kind is Grid && (cols_alloc@.len() > 0 || rows_alloc@.len()
                > 0)),
            grid_declared ==> grid_ok,
            forall|t: int|
                0 <= t < cols_alloc@.len() ==> 0 <= #[trigger] cols_alloc@[t] <= GEOM_BOUND,
            forall|t: int|
                0 <= t < rows_alloc@.len() ==> 0 <= #[trigger] rows_alloc@[t] <= GEOM_BOUND,
            arrange_frame(&s_in, store, entity as int),
            old(marks)@.is_prefix_of(marks@),
            forall|x: int|
                0 <= x < s_in.n() && (#[trigger] store.nodes@[x]).layout != s_in.nodes@[x].layout
                    ==> false,
            forall|x: int, k: PropKey|
                0 <= x < s_in.n() && k != PropKey::Bounds ==> store.prop(x, k) == s_in.prop(x, k),
            forall|x: int|
                0 <= x < s_in.n() && !(exists|j: int|
                    0 <= j < i && (#[trigger] s_in.children_of(entity as int)[j]) == x) ==> (
                #[trigger] store.nodes@[x]) == s_in.nodes@[x],
            forall|j: int|
                0 <= j < i && s_in.layout_of(
                    (#[trigger] s_in.children_of(entity as int)[j]) as int,
                ) is Some ==> marks@.contains(
                    (s_in.children_of(entity as int)[j], PropKey::Bounds),
                ),
            grid_ok ==> (forall|j: int|
                0 <= j < i && s_in.layout_of(
                    (#[trigger] s_in.children_of(entity as int)[j]) as int,
                ) is Some ==> store.rect_prop(
                    s_in.children_of(entity as int)[j] as int,
                    PropKey::Bounds,
                ) == Some(spec_child_bounds(&s_in, entity as int, j, parent_size))),
        decreases cnt - i,
    {
        let c = store.child_at(entity, i);
        proof {
            assert(s_in.children_of(entity as int)[i as int] == c);
            assert(entity < c < s_in.n());
            assert(store.alive(c as int));
            assert(store.nodes@[c as int].layout == s_in.nodes@[c as int].layout);
        }
        if store.layout(c).is_some() {
            let cc = match store.get_constraint(c) {
                Some(x) => x,
                None => unreached(),
            };
            let cslot = match store.layout(c) {
                Some(x) => x,
                None => unreached(),
            };
            proof {
                assert(store.prop(c as int, PropKey::Constraint) == s_in.prop(
                    c as int,
                    PropKey::Constraint,
                ));
                assert(cc == s_in.constraint_prop(c as int)->Some_0);
                assert(cc.wf());
                assert(cslot == slot_of(&s_in, c as int));
                assert(cslot.desired.wf());
            }
            let gcol: i64 = match store.get_int(c, PropKey::GridColumn) {
                Some(v) => if v < 0 {
                    0
                } else {
                    v
                },
                None => 0,
            };
            let grow: i64 = match store.get_int(c, PropKey::GridRow) {
                Some(v) => if v < 0 {
                    0
                } else {
                    v
                },
                None => 0,
            };
            proof {
                assert(store.prop(c as int, PropKey::GridColumn) == s_in.prop(
                    c as int,
                    PropKey::GridColumn,
                ));
                assert(store.prop(c as int, PropKey::GridRow) == s_in.prop(
                    c as int,
                    PropKey::GridRow,
                ));
                assert(gcol as int == grid_index_of(&s_in, c as int, PropKey::GridColumn));
                assert(grow as int == grid_index_of(&s_in, c as int, PropKey::GridRow));
            }
            let (prop_w, prop_h): (i64, i64) = if slot.kind == (LayoutKind::Grid) {
                let w: i64 = if gcol < cols_alloc.len() as i64 {
                    cols_alloc[gcol as usize]
                } else {
                    0
                };
                let h: i64 = if grow < rows_alloc.len() as i64 {
                    rows_alloc[grow as usize]
                } else {
                    0
                };
                (w, h)
            } else {
                (cslot.desired.width(), cslot.desired.height())
            };
            proof {
                if grid_ok {
                    let gcs = proposed_child_size(&s_in, entity as int, c as int, parent_size);
                    if slot.kind == (LayoutKind::Grid) {
                        assert(cols_alloc@.len() == g_cols.len());
                        assert(rows_alloc@.len() == g_rows.len());
                        if 0 <= gcol as int && (gcol as int) < g_cols.len() {
                            assert(cols_alloc@[gcol as int] as int == spec_allocated(
                                g_cols,
                                Seq::empty(),
                                parent_size.width as int,
                                gcol as int,
                            ));
                            assert(prop_w == cols_alloc@[gcol as int]);
                        } else {
                            assert(prop_w == 0);
                        }
                        assert(prop_w as int == grid_extent(
                            g_cols,
                            Seq::empty(),
                            parent_size.width as int,
                            gcol as int,
                        ));
                        if 0 <= grow as int && (grow as int) < g_rows.len() {
                            assert(rows_alloc@[grow as int] as int == spec_allocated(
                                g_rows,
                                Seq::empty(),
                                parent_size.height as int,
                                grow as int,
                            ));
                            assert(prop_h == rows_alloc@[grow as int]);
                        } else {
                            assert(prop_h == 0);
                        }
                        assert(prop_h as int == grid_extent(
                            g_rows,
                            Seq::empty(),
                            parent_size.height as int,
                            grow as int,
                        ));
                    } else {
                        assert(gcs.0 == slot_of(&s_in, c as int).desired.width as int);
                        assert(prop_w == cslot.desired.width);
                    }
                    assert(prop_w as int == gcs.0);
                    assert(prop_h as int == gcs.1);
                }
            }
            let performed = cc.perform(Size::new(prop_w, prop_h));
            let stack_off: i64 = if run_main > 0 {
                let s = run_main + spacing;
                if s > GEOM_BOUND {
                    GEOM_BOUND
                } else {
                    s
                }
            } else {
                0
            };
            let (off_x, off_y): (i64, i64) = match slot.kind {
                LayoutKind::Stack { vertical, spacing: _ } => {
                    if vertical {
                        (0, stack_off)
                    } else {
                        (stack_off, 0)
                    }
                },
                LayoutKind::Grid => {
                    if grid_declared {
                        (
                            track_prefix(
                                &cols_alloc,
                                gcol,
                                Ghost(g_cols),
                                Ghost(Seq::empty()),
                                Ghost(parent_size.width as int),
                            ),
                            track_prefix(
                                &rows_alloc,
                                grow,
                                Ghost(g_rows),
                                Ghost(Seq::empty()),
                                Ghost(parent_size.height as int),
                            ),
                        )
                    } else {
                        (0, 0)
                    }
                },
                LayoutKind::Absolute => {
                    let mg = match store.get_thickness(c, PropKey::Margin) {
                        Some(t) => t,
                        None => Thickness::new(0, 0, 0, 0),
                    };
                    (mg.left, mg.top)
                },
                _ => (pad.left, pad.top),
            };
            proof {
                if grid_ok {
                    let goff = child_offset(&s_in, entity as int, i as int, parent_size);
                    match slot.kind {
                        LayoutKind::Stack { vertical, spacing: sp } => {
                            assert(sp == spacing && vertical == g_vertical);
                            let f = content_fold(
                                &s_in,
                                entity as int,
                                i as int,
                                g_vertical,
                                spacing as int,
                            );
                            assert(run_main as int == f.0);
                            assert(stack_off as int == (if f.0 > 0 {
                                clamp_size(f.0 + spacing)
                            } else {
                                0int
                            }));
                            assert(off_x as int == goff.0 && off_y as int == goff.1);
                        },
                        LayoutKind::Grid => {
                            if grid_declared {
                                assert(off_x as int == goff.0 && off_y as int == goff.1);
                            } else {
                                assert(g_cols.len() == 0 && g_rows.len() == 0);
                                assert(off_x as int == goff.0 && off_y as int == goff.1);
                            }
                        },
                        LayoutKind::Absolute => {
                            assert(store.prop(c as int, PropKey::Margin) == s_in.prop(
                                c as int,
                                PropKey::Margin,
                            ));
                            assert(off_x as int == goff.0 && off_y as int == goff.1);
                        },
                        _ => {
                            assert(off_x as int == goff.0 && off_y as int == goff.1);
                        },
                    }
                }
            }
            let cx: i64 = if off_x < -GEOM_BOUND {
                -GEOM_BOUND
            } else if off_x > GEOM_BOUND {
                GEOM_BOUND
            } else {
                off_x
            };
            let cy: i64 = if off_y < -GEOM_BOUND {
                -GEOM_BOUND
            } else if off_y > GEOM_BOUND {
                GEOM_BOUND
            } else {
                off_y
            };
            let cw: i64 = if performed.width < 0 {
                0
            } else if performed.width > GEOM_BOUND {
                GEOM_BOUND
            } else {
                performed.width
            };
            let ch: i64 = if performed.height < 0 {
                0
            } else if performed.height > GEOM_BOUND {
                GEOM_BOUND
            } else {
                performed.height
            };
            let bounds = Rectangle::new(cx, cy, cw, ch);
            proof {
                if grid_ok {
                    assert(performed.width as int == arranged_extent(
                        cc,
                        cc.width as int,
                        cc.min_width as int,
                        cc.max_width as int,
                        prop_w as int,
                    ));
                    assert(performed.height as int == arranged_extent(
                        cc,
                        cc.height as int,
                        cc.min_height as int,
                        cc.max_height as int,
                        prop_h as int,
                    ));
                    assert(cw as int == clamp_size(performed.width as int));
                    assert(ch as int == clamp_size(performed.height as int));
                    assert(bounds == spec_child_bounds(&s_in, entity as int, i as int, parent_size));
                }
            }
            let ghost s_bi = *store;
            store.insert(c, PropKey::Bounds, PropValue::Rect(bounds));
            proof {
                assert(bounds.wf());
                assert forall|x: int|
                    0 <= x < s_bi.n() && s_bi.alive(x) && (#[trigger] s_bi.layout_of(
                        x,
                    )) is Some implies slot_of(store, x).kind == slot_of(&s_bi, x).kind && slot_of(
                    store,
                    x,
                ).desired.wf() by {
                    if x != c as int {
                        assert(store.nodes@[x] == s_bi.nodes@[x]);
                    }
                    assert(slot_of(&s_bi, x).desired.wf());
                }
                lemma_arrange_ready_preserved(&s_bi, store);
                s_in.lemma_child_is_descendant(entity as int, i as int);
                arrange_frame_prop_write(
                    &s_in,
                    &s_bi,
                    store,
                    entity as int,
                    c as int,
                    PropKey::Bounds,
                );
                assert forall|j: int|
                    0 <= j < i as int && s_in.layout_of(
                        (#[trigger] s_in.children_of(entity as int)[j]) as int,
                    ) is Some && grid_ok implies store.rect_prop(
                    s_in.children_of(entity as int)[j] as int,
                    PropKey::Bounds,
                ) == Some(spec_child_bounds(&s_in, entity as int, j, parent_size)) by {
                    let cj = s_in.children_of(entity as int)[j] as int;
                    assert(cj != c as int);
                    assert(store.nodes@[cj] == s_bi.nodes@[cj]);
                }
            }
            let ghost m_pre = marks@;
            marks.push((c, PropKey::Bounds));
            proof {
                assert(marks@.last() == (c, PropKey::Bounds));
                assert(marks@.contains((c, PropKey::Bounds)));
                assert(m_pre.is_prefix_of(marks@)) by {
                    assert(marks@.subrange(0, m_pre.len() as int) =~= m_pre);
                }
                assert forall|j: int|
                    0 <= j < i as int && s_in.layout_of(
                        (#[trigger] s_in.children_of(entity as int)[j]) as int,
                    ) is Some implies marks@.contains(
                    (s_in.children_of(entity as int)[j], PropKey::Bounds),
                ) by {
                    lemma_prefix_contains(
                        m_pre,
                        marks@,
                        (s_in.children_of(entity as int)[j], PropKey::Bounds),
                    );
                }
            }
            let child_main: i64 = if g_vertical {
                cslot.desired.height()
            } else {
                cslot.desired.width()
            };
            let off_main: i64 = if run_main > 0 {
                let s = run_main + spacing;
                if s > GEOM_BOUND {
                    GEOM_BOUND
                } else {
                    s
                }
            } else {
                0
            };
            let next = off_main + child_main;
            run_main = if next > GEOM_BOUND {
                GEOM_BOUND
            } else {
                next
            };
        }
        i += 1;
    }
    // second pass: arrange each slotted child inside its clamped extent
    let ghost s_w = *store;
    let mut k: usize = 0;
    while k < cnt
        invariant
            s_in == *old(store),
            s_w.n() == s_in.n(),
            store.wf(),
            arrange_ready(store),
            store.n() == s_in.n(),
            s_in.wf(),
            arrange_ready(&s_in),
            0 <= k <= cnt,
            entity < s_in.n(),
            cnt as int == s_in.children_of(entity as int).len(),
            s_in.alive(entity as int),
            s_in.layout_of(entity as int) is Some,
            parent_size.wf(),
            !(slot_of(&s_in, entity as int).kind is TextSelection),
            slot == slot_of(&s_in, entity as int),
            g_cols == grid_columns(&s_in, entity as int),
            g_rows == grid_rows(&s_in, entity as int),
            grid_ok == (g_cols.len() <= GEOM_BOUND && g_rows.len() <= GEOM_BOUND),
            slot.kind is Grid && grid_ok ==> (cols_alloc@.len() == g_cols.len() && rows_alloc@.len()
                == g_rows.len()),
            grid_declared == (slot.kind is Grid && (cols_alloc@.len() > 0 || rows_alloc@.len()
                > 0)),
            grid_declared ==> grid_ok,
            !(slot.kind is Grid) ==> cols_alloc@.len() == 0 && rows_alloc@.len() == 0,
            !grid_ok ==> cols_alloc@.len() == 0 && rows_alloc@.len() == 0,
            forall|t: int|
                0 <= t < cols_alloc@.len() ==> 0 <= #[trigger] cols_alloc@[t] <= GEOM_BOUND,
            forall|t: int|
                0 <= t < rows_alloc@.len() ==> 0 <= #[trigger] rows_alloc@[t] <= GEOM_BOUND,
            slot.kind is Grid && grid_ok ==> (forall|t: int|
                0 <= t < g_cols.len() ==> (#[trigger] cols_alloc@[t]) as int == spec_allocated(
                    g_cols,
                    Seq::empty(),
                    parent_size.width as int,
                    t,
                )) && (forall|t: int|
                0 <= t < g_rows.len() ==> (#[trigger] rows_alloc@[t]) as int == spec_allocated(
                    g_rows,
                    Seq::empty(),
                    parent_size.height as int,
                    t,
                )),
            arrange_frame(&s_in, store, entity as int),
            old(marks)@.is_prefix_of(marks@),
            store.layout_of(entity as int) == s_in.layout_of(entity as int),
            store.prop(entity as int, PropKey::Bounds) == s_in.prop(
                entity as int,
                PropKey::Bounds,
            ),
            forall|j: int|
                k <= j < cnt ==> store.layout_of(
                    (#[trigger] s_in.children_of(entity as int)[j]) as int,
                ) == s_in.layout_of(s_in.children_of(entity as int)[j] as int),
            forall|j: int|
                0 <= j < cnt && s_in.layout_of(
                    (#[trigger] s_in.children_of(entity as int)[j]) as int,
                ) is Some ==> marks@.contains(
                    (s_in.children_of(entity as int)[j], PropKey::Bounds),
                ),
            grid_ok ==> (forall|j: int|
                0 <= j < cnt && s_in.layout_of(
                    (#[trigger] s_in.children_of(entity as int)[j]) as int,
                ) is Some && (j >= k as int || !(slot_of(
                    &s_in,
                    s_in.children_of(entity as int)[j] as int,
                ).kind is TextSelection)) ==> store.rect_prop(
                    s_in.children_of(entity as int)[j] as int,
                    PropKey::Bounds,
                ) == Some(spec_child_bounds(&s_in, entity as int, j, parent_size))),
            forall|j: int|
                0 <= j < k && s_in.layout_of(
                    (#[trigger] s_in.children_of(entity as int)[j]) as int,
                ) is Some && store.vis_prop(s_in.children_of(entity as int)[j] as int) != Some(
                    Visibility::Collapsed,
                ) ==> slot_of(
                    store,
                    s_in.children_of(entity as int)[j] as int,
                ).desired.dirty == false,
        decreases cnt - k,
    {
        let c = store.child_at(entity, k);
        proof {
            assert(s_in.children_of(entity as int)[k as int] == c);
            assert(entity < c < s_in.n());
            assert(store.alive(c as int));
            assert(store.layout_of(c as int) == s_in.layout_of(c as int));
        }
        if store.layout(c).is_some() {
            let cc = match store.get_constraint(c) {
                Some(x) => x,
                None => unreached(),
            };
            let cslot = match store.layout(c) {
                Some(x) => x,
                None => unreached(),
            };
            proof {
                assert(cc.wf());
                assert(cslot == slot_of(&s_in, c as int));
                assert(slot_of(store, c as int).desired.wf());
            }
            let (prop_w, prop_h): (i64, i64) = if grid_declared {
                let col = match store.get_int(c, PropKey::GridColumn) {
                    Some(v) => if v < 0 {
                        0
                    } else {
                        v
                    },
                    None => 0,
                };
                let row = match store.get_int(c, PropKey::GridRow) {
                    Some(v) => if v < 0 {
                        0
                    } else {
                        v
                    },
                    None => 0,
                };
                let w: i64 = if (col as usize) < cols_alloc.len() && col < cols_alloc.len() as i64 {
                    cols_alloc[col as usize]
                } else {
                    0
                };
                let h: i64 = if (row as usize) < rows_alloc.len() && row < rows_alloc.len() as i64 {
                    rows_alloc[row as usize]
                } else {
                    0
                };
                (w, h)
            } else if slot.kind == (LayoutKind::Grid) {
                (0, 0)
            } else {
                (cslot.desired.width(), cslot.desired.height())
            };
            let performed = cc.perform(Size::new(prop_w, prop_h));
            proof {
                assert(performed.wf()) by {
                    assert(performed.width as int == Constraint::spec_perform_axis(
                        cc.width as int,
                        cc.min_width as int,
                        cc.max_width as int,
                        prop_w as int,
                    ));
                    if !grid_declared && !(slot.kind is Grid) {
                        assert(slot_of(store, c as int).desired.wf());
                    }
                }
            }
            let ghost s_mid = *store;
            let ghost m_mid = marks@;
            let _ = arrange(store, measurer, marks, performed, c);
            proof {
                arrange_compose(&s_in, &s_mid, store, entity as int, c as int, k as int);
                assert forall|j: int|
                    0 <= j < cnt && j != k as int implies store.layout_of(
                    (#[trigger] s_in.children_of(entity as int)[j]) as int,
                ) == s_mid.layout_of(s_in.children_of(entity as int)[j] as int) by {
                    let cj = s_in.children_of(entity as int)[j] as int;
                    assert(s_in.parent_of(cj) == Some(entity));
                    assert(cj != c as int);
                    if store.layout_of(cj) != s_mid.layout_of(cj) {
                        assert(s_mid.weak_desc(c as int, cj));
                        if s_mid.is_ancestor(c as int, cj) {
                            assert(s_mid.parent_of(cj) is Some);
                            assert(s_mid.alive(cj));
                            Store::lemma_ancestor_congruent(s_in, s_mid, c as int, cj);
                        }
                        lemma_subtree_disjoint(&s_in, entity as int, c as int, cj);
                    }
                }
                assert forall|j: int|
                    0 <= j < cnt && j != k as int implies store.prop(
                    (#[trigger] s_in.children_of(entity as int)[j]) as int,
                    PropKey::Bounds,
                ) == s_mid.prop(s_in.children_of(entity as int)[j] as int, PropKey::Bounds) by {
                    let cj = s_in.children_of(entity as int)[j] as int;
                    assert(s_in.parent_of(cj) == Some(entity));
                    assert(cj != c as int);
                    if store.prop(cj, PropKey::Bounds) != s_mid.prop(cj, PropKey::Bounds) {
                        assert(s_mid.weak_desc(c as int, cj));
                        if s_mid.is_ancestor(c as int, cj) {
                            assert(s_mid.parent_of(cj) is Some);
                            assert(s_mid.alive(cj));
                            Store::lemma_ancestor_congruent(s_in, s_mid, c as int, cj);
                        }
                        lemma_subtree_disjoint(&s_in, entity as int, c as int, cj);
                    }
                }
                if !(slot_of(&s_in, c as int).kind is TextSelection) {
                    assert(store.prop(c as int, PropKey::Bounds) == s_mid.prop(
                        c as int,
                        PropKey::Bounds,
                    ));
                }
                let ghost s_now = *store;
                assert forall|j: int|
                    0 <= j < k as int + 1 && s_in.layout_of(
                        (#[trigger] s_in.children_of(entity as int)[j]) as int,
                    ) is Some && s_now.vis_prop(s_in.children_of(entity as int)[j] as int) != Some(
                        Visibility::Collapsed,
                    ) implies slot_of(
                    &s_now,
                    s_in.children_of(entity as int)[j] as int,
                ).desired.dirty == false by {
                    let cj = s_in.children_of(entity as int)[j] as int;
                    assert(s_now.prop(cj, PropKey::Visibility) == s_mid.prop(
                        cj,
                        PropKey::Visibility,
                    ));
                    if j == k as int {
                        assert(s_mid.vis_prop(cj) != Some(Visibility::Collapsed));
                    } else {
                        assert(s_mid.prop(cj, PropKey::Visibility) == s_in.prop(
                            cj,
                            PropKey::Visibility,
                        ));
                        assert(s_now.layout_of(cj) == s_mid.layout_of(cj));
                    }
                }
                assert forall|j: int|
                    0 <= j < cnt && s_in.layout_of(
                        (#[trigger] s_in.children_of(entity as int)[j]) as int,
                    ) is Some implies marks@.contains(
                    (s_in.children_of(entity as int)[j], PropKey::Bounds),
                ) by {
                    lemma_prefix_contains(
                        m_mid,
                        marks@,
                        (s_in.children_of(entity as int)[j], PropKey::Bounds),
                    );
                }
            }
        }
        k += 1;
    }
    let mut desired = slot.desired;
    desired.set_dirty(false);
    let ghost s_last = *store;
    store.set_layout(
        entity,
        LayoutSlot { kind: slot.kind, desired, old_text_selection: slot.old_text_selection },
    );
    proof {
        assert(slot_of(&s_in, entity as int).desired.wf());
        assert(slot_of(store, entity as int).desired.wf());
        arrange_final_glue(&s_in, &s_last, store, entity as int);
    }
    Size::new(desired.width(), desired.height())
}

/// Sets the left side of a node's margin during an arrange, keeping the
/// frame: the write lands in the subtree or on the text target of a
/// text-selection node in it.
fn set_margin_left(
    store: &mut Store,
    t: usize,
    left: i64,
    Ghost(s_in): Ghost<Store>,
    Ghost(e): Ghost<int>,
)
    requires
        old(store).wf(),
        arrange_ready(old(store)),
        arrange_frame(&s_in, old(store), e),
        t < old(store).n(),
        old(store).thickness_prop(t as int, PropKey::Margin) is Some,
        t as int == e || s_in.weak_desc(e, t as int) || (exists|d: int|
            (d == e || s_in.weak_desc(e, d)) && ts_target_of(&s_in, t as int, d)),
        coord_ok(left as int),
    ensures
        arrange_frame(&s_in, final(store), e),
        final(store).n() == old(store).n(),
        forall|x: int| 0 <= x < old(store).n() && x != t as int ==> final(store).nodes@[x] == old(
            store,
        ).nodes@[x],
        final(store).thickness_prop(t as int, PropKey::Margin) == Some(Thickness {
            left,
            ..old(store).thickness_prop(t as int, PropKey::Margin)->Some_0
        }),
        forall|k: PropKey| k != PropKey::Margin ==> final(store).prop(t as int, k) == old(
            store,
        ).prop(t as int, k),
        final(store).layout_of(t as int) == old(store).layout_of(t as int),
{
    let m = match store.get_thickness(t, PropKey::Margin) {
        Some(m) => m,
        None => unreached(),
    };
    store.set(t, PropKey::Margin, PropValue::Thickness(Thickness { left, ..m }));
    proof {
        assert forall|x: int|
            0 <= x < old(store).n() && old(store).alive(x) && (#[trigger] old(store).layout_of(
                x,
            )) is Some implies slot_of(store, x).kind == slot_of(old(store), x).kind && slot_of(
            store,
            x,
        ).desired.wf() by {
            if x != t as int {
                assert(store.nodes@[x] == old(store).nodes@[x]);
            }
            assert(slot_of(old(store), x).desired.wf());
        }
        assert forall|x: int|
            0 <= x < old(store).n() && old(store).alive(x) && (#[trigger] old(store).layout_of(
                x,
            )) is Some && store.thickness_prop(x, PropKey::Margin) is Some implies (
        store.thickness_prop(x, PropKey::Margin) == old(store).thickness_prop(x, PropKey::Margin)
            || store.thickness_prop(x, PropKey::Margin)->Some_0.wf()) by {
            if x == t as int {
                assert(old(store).thickness_prop(t as int, PropKey::Margin)->Some_0.wf());
            } else {
                assert(store.nodes@[x] == old(store).nodes@[x]);
            }
        }
        lemma_arrange_ready_preserved(old(store), store);
        arrange_frame_prop_write(&s_in, old(store), store, e, t as int, PropKey::Margin);
    }
}

/// Arranges a text-selection cursor: the caret x-offset is the measured width
/// of the text before the selection start; the cursor width is the measured
/// width of the highlighted run, or the full constraint width for a plain
/// caret; when the caret would leave the parent's visible width, the text
/// block is scrolled by a negative left margin so the caret stays in view —
/// unless the field shows the full selection, the text is empty, or the caret
/// sits at the start.
#[verifier::rlimit(100)]
fn arrange_text_selection<M: TextMeasurer>(
    store: &mut Store,
    measurer: &M,
    marks: &mut Vec<(usize, PropKey)>,
    parent_size: Size,
    entity: usize,
) -> (r: Size)
    requires
        old(store).wf(),
        arrange_ready(old(store)),
        old(store).alive(entity as int),
        old(store).layout_of(entity as int) is Some,
        slot_of(old(store), entity as int).kind is TextSelection,
        old(store).vis_prop(entity as int) != Some(Visibility::Collapsed),
        parent_size.wf(),
    ensures
        arrange_frame(old(store), final(store), entity as int),
        old(marks)@.is_prefix_of(final(marks)@),
        slot_of(final(store), entity as int).desired.dirty == false,
        r.width as int == ts_width(
            old(store),
            measurer,
            entity as int,
            slot_of(old(store), entity as int).desired.width as int,
        ),
        r.height as int == ts_height(
            old(store),
            entity as int,
            parent_size.height as int,
            slot_of(old(store), entity as int).desired.height as int,
        ),
        final(store).thickness_prop(entity as int, PropKey::Margin) matches Some(mg)
            && mg.left as int == ts_final_pos(
            old(store),
            measurer,
            entity as int,
            slot_of(old(store), entity as int).desired.width as int,
        ),
        final(marks)@.contains((entity, PropKey::Bounds)),
        old(store).rect_prop(entity as int, PropKey::Bounds) matches Some(b0)
            ==> (final(store).rect_prop(entity as int, PropKey::Bounds) matches Some(b1)
            && b1.x as int == clamp_coord(b0.x as int) && b1.y as int == clamp_coord(b0.y as int)
            && b1.width == r.width && b1.height == r.height),
        old(store).rect_prop(entity as int, PropKey::Bounds) is None ==> final(store).rect_prop(
            entity as int,
            PropKey::Bounds,
        ) is None,
        old(store).children_of(entity as int).len() == 0 && old(store).entity_prop(
            entity as int,
            PropKey::TextBlock,
        ) != Some(entity) && old(store).thickness_prop(
            old(store).entity_prop(entity as int, PropKey::TextBlock)->Some_0 as int,
            PropKey::Margin,
        ) is Some ==> (final(store).thickness_prop(
            old(store).entity_prop(entity as int, PropKey::TextBlock)->Some_0 as int,
            PropKey::Margin,
        ) matches Some(m1) && m1.left as int == ts_scroll_left(
            old(store),
            measurer,
            entity as int,
            slot_of(old(store), entity as int).desired.width as int,
            old(store).thickness_prop(
                old(store).entity_prop(entity as int, PropKey::TextBlock)->Some_0 as int,
                PropKey::Margin,
            )->Some_0.left as int,
        )),
    decreases old(store).n() - entity, 0int,
{
    let slot = match store.layout(entity) {
        Some(s) => s,
        None => unreached(),
    };
    let ghost s_in = *store;
    let mut desired = slot.desired;
    let mut pos: i64 = 0;
    let mut w: i64 = desired.width();
    let valign = match store.get_alignment(entity, PropKey::VAlign) {
        Some(a) => a,
        None => unreached(),
    };
    let margin = match store.get_thickness(entity, PropKey::Margin) {
        Some(m) => m,
        None => unreached(),
    };
    let tb = match store.get_entity(entity, PropKey::TextBlock) {
        Some(t) => t,
        None => unreached(),
    };
    let cwidth = match store.get_constraint(entity) {
        Some(c) => c,
        None => unreached(),
    }.width();
    let mut sel_start: usize = 0;
    let mut text_len: usize = 0;
    let raw_h = valign.align_measure(parent_size.height, desired.height(), margin.top(), margin.bottom());
    let h: i64 = if raw_h < 0 {
        0
    } else if raw_h > GEOM_BOUND {
        GEOM_BOUND
    } else {
        raw_h
    };
    if let Some(text) = store.get_text(tb, PropKey::Text) {
        let font = match store.get_str(tb, PropKey::Font) {
            Some(f) => f,
            None => unreached(),
        };
        let font_size = match store.get_int(tb, PropKey::FontSize) {
            Some(f) => f,
            None => unreached(),
        };
        text_len = text.len();
        if let Some(sel) = store.get_selection(entity) {
            sel_start = sel.start_index;
            if sel.start_index <= text.len() {
                proof {
                    measurer.width_in_range(
                        text@.subrange(0, sel.start_index as int),
                        font_size as int,
                        font@,
                    );
                }
                pos = measurer.measure(&text, 0, sel.start_index, font_size, &font);
            }
            if sel.length > 0 {
                if sel.length <= text.len() && sel.start_index <= text.len() - sel.length {
                    proof {
                        measurer.width_in_range(
                            text@.subrange(
                                sel.start_index as int,
                                sel.start_index as int + sel.length as int,
                            ),
                            font_size as int,
                            font@,
                        );
                    }
                    w = measurer.measure(
                        &text,
                        sel.start_index,
                        sel.start_index + sel.length,
                        font_size,
                        &font,
                    );
                }
            } else {
                w = cwidth;
            }
        }
    }
    let parent = match store.parent(entity) {
        Some(p) => p,
        None => unreached(),
    };
    let expanded = match store.get_bool(entity, PropKey::Expanded) {
        Some(b) => b,
        None => unreached(),
    };
    let vpw = match store.get_rect(parent, PropKey::Bounds) {
        Some(b) => b,
        None => unreached(),
    }.width();
    proof {
        assert(ts_ready(&s_in, entity as int));
        assert((tb as int) < s_in.n());
        assert(pos as int == ts_pre_width(&s_in, measurer, entity as int));
        assert(w as int == ts_width(&s_in, measurer, entity as int, slot.desired.width as int));
        assert(0 <= pos <= GEOM_BOUND);
        assert(0 <= w <= GEOM_BOUND);
        assert(s_in.rect_prop(s_in.parent_index(entity as int), PropKey::Bounds)->Some_0.wf());
        assert(0 <= vpw <= GEOM_BOUND);
        assert(arrange_frame(&s_in, &s_in, entity as int));
        assert(ts_target_of(&s_in, tb as int, entity as int));
        assert(text_len as int == ts_text_len(&s_in, entity as int));
        assert(sel_start as int == ts_sel_start(&s_in, entity as int));
        assert(expanded == s_in.bool_prop(entity as int, PropKey::Expanded)->Some_0);
        assert((!expanded || text_len == 0 || (!expanded && sel_start == 0)) == ts_reset_applies(
            &s_in,
            entity as int,
        ));
        assert((!expanded && sel_start > 0 && (pos < 0 || pos + w > vpw)) == ts_scroll_applies(
            &s_in,
            measurer,
            entity as int,
            slot.desired.width as int,
        ));
    }
    // reset the text block's scroll offset
    if !expanded || text_len == 0 || (!expanded && sel_start == 0) {
        if store.get_thickness(tb, PropKey::Margin).is_some() {
            set_margin_left(store, tb, 0, Ghost(s_in), Ghost(entity as int));
        }
    }
    // scroll the text block when the caret leaves the viewport
    if !expanded && sel_start > 0 {
        if pos < 0 || pos + w > vpw {
            let delta: i64 = if pos < 0 {
                pos
            } else {
                pos - vpw + w
            };
            pos = pos - delta;
            proof {
                assert(pos as int == ts_final_pos(
                    &s_in,
                    measurer,
                    entity as int,
                    slot.desired.width as int,
                ));
                assert(coord_ok(pos as int));
                assert(delta as int == ts_shift(
                    &s_in,
                    measurer,
                    entity as int,
                    slot.desired.width as int,
                ));
            }
            if text_len > 0 {
                if store.get_thickness(tb, PropKey::Margin).is_some() {
                    let shifted: i64 = if -delta < -GEOM_BOUND {
                        -GEOM_BOUND
                    } else if -delta > GEOM_BOUND {
                        GEOM_BOUND
                    } else {
                        -delta
                    };
                    proof {
                        assert(shifted as int == clamp_coord(-ts_shift(
                            &s_in,
                            measurer,
                            entity as int,
                            slot.desired.width as int,
                        )));
                    }
                    set_margin_left(store, tb, shifted, Ghost(s_in), Ghost(entity as int));
                }
            }
        }
    }
    proof {
        assert(pos as int == ts_final_pos(
            &s_in,
            measurer,
            entity as int,
            slot.desired.width as int,
        ));
        assert(coord_ok(pos as int));
        assert(h as int == ts_height(
            &s_in,
            entity as int,
            parent_size.height as int,
            slot.desired.height as int,
        ));
    }
    // children are arranged with the cursor's size
    let ghost s_pw = *store;
    proof {
        if s_in.children_of(entity as int).len() == 0 && s_in.entity_prop(
            entity as int,
            PropKey::TextBlock,
        ) != Some(entity) && s_in.thickness_prop(tb as int, PropKey::Margin) is Some {
            assert(s_pw.thickness_prop(tb as int, PropKey::Margin) matches Some(m1)
                && m1.left as int == ts_scroll_left(
                &s_in,
                measurer,
                entity as int,
                slot.desired.width as int,
                s_in.thickness_prop(tb as int, PropKey::Margin)->Some_0.left as int,
            ));
        }
        assert(store.prop(entity as int, PropKey::Bounds) == s_in.prop(
            entity as int,
            PropKey::Bounds,
        ));
    }
    let cnt = store.child_count(entity);
    let mut i: usize = 0;
    while i < cnt
        invariant
            s_in == *old(store),
            store.wf(),
            arrange_ready(store),
            store.n() == s_in.n(),
            s_in.wf(),
            0 <= i <= cnt,
            entity < s_in.n(),
            cnt as int == s_in.children_of(entity as int).len(),
            s_in.alive(entity as int),
            s_in.layout_of(entity as int) is Some,
            0 <= w <= GEOM_BOUND,
            0 <= h <= GEOM_BOUND,
            arrange_frame(&s_in, store, entity as int),
            old(marks)@.is_prefix_of(marks@),
            store.layout_of(entity as int) == s_in.layout_of(entity as int),
            store.prop(entity as int, PropKey::Bounds) == s_in.prop(
                entity as int,
                PropKey::Bounds,
            ),
            cnt as int == 0 ==> *store == s_pw,
        decreases cnt - i,
    {
        let c = store.child_at(entity, i);
        proof {
            assert(s_in.children_of(entity as int)[i as int] == c);
            assert(entity < c < s_in.n());
            assert(store.alive(c as int));
        }
        let ghost s_mid = *store;
        if store.layout(c).is_some() {
            let _ = arrange(store, measurer, marks, Size::new(w, h), c);
            proof {
                arrange_compose(&s_in, &s_mid, store, entity as int, c as int, i as int);
            }
        }
        i += 1;
    }
    // write the cursor's own geometry last
    let ghost s_al = *store;
    set_margin_left(store, entity, pos, Ghost(s_in), Ghost(entity as int));
    proof {
        assert(store.prop(entity as int, PropKey::Bounds) == s_in.prop(
            entity as int,
            PropKey::Bounds,
        ));
        assert forall|x: int| 0 <= x < s_in.n() && x != entity as int implies (
        #[trigger] store.nodes@[x]) == s_al.nodes@[x] by {}
    }
    if let Some(b) = store.get_rect(entity, PropKey::Bounds) {
        let bx: i64 = if b.x < -GEOM_BOUND {
            -GEOM_BOUND
        } else if b.x > GEOM_BOUND {
            GEOM_BOUND
        } else {
            b.x
        };
        let by: i64 = if b.y < -GEOM_BOUND {
            -GEOM_BOUND
        } else if b.y > GEOM_BOUND {
            GEOM_BOUND
        } else {
            b.y
        };
        let ghost s_bi = *store;
        store.set(entity, PropKey::Bounds, PropValue::Rect(Rectangle::new(bx, by, w, h)));
        proof {
            assert forall|x: int|
                0 <= x < s_bi.n() && s_bi.alive(x) && (#[trigger] s_bi.layout_of(
                    x,
                )) is Some implies slot_of(store, x).kind == slot_of(&s_bi, x).kind && slot_of(
                store,
                x,
            ).desired.wf() by {
                if x != entity as int {
                    assert(store.nodes@[x] == s_bi.nodes@[x]);
                }
                assert(slot_of(&s_bi, x).desired.wf());
            }
            lemma_arrange_ready_preserved(&s_bi, store);
            arrange_frame_prop_write(
                &s_in,
                &s_bi,
                store,
                entity as int,
                entity as int,
                PropKey::Bounds,
            );
        }
    }
    let ghost s_bb = *store;
    marks.push((entity, PropKey::Bounds));
    proof {
        assert(marks@.last() == (entity, PropKey::Bounds));
        assert(marks@.contains((entity, PropKey::Bounds)));
    }
    desired.set_dirty(false);
    let ghost s_last = *store;
    store.set_layout(
        entity,
        LayoutSlot { kind: slot.kind, desired, old_text_selection: slot.old_text_selection },
    );
    proof {
        assert(slot_of(&s_in, entity as int).desired.wf());
        arrange_final_glue(&s_in, &s_last, store, entity as int);
        // the cursor's bounds after the pass
        if s_in.rect_prop(entity as int, PropKey::Bounds) is Some {
            assert(store.rect_prop(entity as int, PropKey::Bounds) == s_bb.rect_prop(
                entity as int,
                PropKey::Bounds,
            ));
        } else {
            assert(store.rect_prop(entity as int, PropKey::Bounds) == s_bb.rect_prop(
                entity as int,
                PropKey::Bounds,
            ));
            assert(s_bb.rect_prop(entity as int, PropKey::Bounds) is None);
        }
        // the text block's scroll margin after the pass, for a childless cursor
        if s_in.children_of(entity as int).len() == 0 && s_in.entity_prop(
            entity as int,
            PropKey::TextBlock,
        ) != Some(entity) && s_in.thickness_prop(tb as int, PropKey::Margin) is Some {
            assert(tb != entity);
            assert(s_al == s_pw);
            assert(s_bb.nodes@[tb as int] == s_al.nodes@[tb as int]);
            assert(store.nodes@[tb as int] == s_bb.nodes@[tb as int]);
            assert(store.thickness_prop(tb as int, PropKey::Margin) == s_pw.thickness_prop(
                tb as int,
                PropKey::Margin,
            ));
        }
    }
    Size::new(w, h)
}

/// Arranges an entity's subtree. A collapsed entity takes size zero and its
/// children are left untouched; any other entity is arranged by its strategy,
/// its dirty flag ending cleared. See `arrange_children` and
/// `arrange_text_selection` for what each strategy writes.
pub fn arrange<M: TextMeasurer>(
    store: &mut Store,
    measurer: &M,
    marks: &mut Vec<(usize, PropKey)>,
    parent_size: Size,
    entity: usize,
) -> (r: Size)
    requires
        old(store).wf(),
        arrange_ready(old(store)),
        old(store).alive(entity as int),
        old(store).layout_of(entity as int) is Some,
        parent_size.wf(),
    ensures
        arrange_frame(old(store), final(store), entity as int),
        old(marks)@.is_prefix_of(final(marks)@),
        old(store).vis_prop(entity as int) == Some(Visibility::Collapsed) ==> (r == (Size {
            width: 0,
            height: 0,
        }) && final(store).props_of(entity as int) == old(store).props_of(entity as int)
            && final(marks)@ == old(marks)@ && (forall|x: int|
            0 <= x < old(store).n() && x != entity as int ==> final(store).nodes@[x] == old(
                store,
            ).nodes@[x])),
        old(store).vis_prop(entity as int) != Some(Visibility::Collapsed) ==> slot_of(
            final(store),
            entity as int,
        ).desired.dirty == false,
        old(store).vis_prop(entity as int) != Some(Visibility::Collapsed) && !(slot_of(
            old(store),
            entity as int,
        ).kind is TextSelection) ==> (forall|j: int|
            0 <= j < old(store).children_of(entity as int).len() && old(store).layout_of(
                (#[trigger] old(store).children_of(entity as int)[j]) as int,
            ) is Some && final(store).vis_prop(
                old(store).children_of(entity as int)[j] as int,
            ) != Some(Visibility::Collapsed) ==> slot_of(
                final(store),
                old(store).children_of(entity as int)[j] as int,
            ).desired.dirty == false),
        old(store).vis_prop(entity as int) != Some(Visibility::Collapsed) && !(slot_of(
            old(store),
            entity as int,
        ).kind is TextSelection) ==> (r == (Size {
            width: slot_of(old(store), entity as int).desired.width,
            height: slot_of(old(store), entity as int).desired.height,
        })),
        !(slot_of(old(store), entity as int).kind is TextSelection) ==> final(store).prop(
            entity as int,
            PropKey::Bounds,
        ) == old(store).prop(entity as int, PropKey::Bounds),
        old(store).vis_prop(entity as int) != Some(Visibility::Collapsed) && !(slot_of(
            old(store),
            entity as int,
        ).kind is TextSelection) ==> (forall|j: int|
            0 <= j < old(store).children_of(entity as int).len() && old(store).layout_of(
                (#[trigger] old(store).children_of(entity as int)[j]) as int,
            ) is Some ==> final(marks)@.contains(
                (old(store).children_of(entity as int)[j], PropKey::Bounds),
            )),
        old(store).vis_prop(entity as int) != Some(Visibility::Collapsed) && !(slot_of(
            old(store),
            entity as int,
        ).kind is TextSelection) && grid_columns(old(store), entity as int).len() <= GEOM_BOUND
            && grid_rows(old(store), entity as int).len() <= GEOM_BOUND ==> (forall|j: int|
            0 <= j < old(store).children_of(entity as int).len() && old(store).layout_of(
                (#[trigger] old(store).children_of(entity as int)[j]) as int,
            ) is Some && !(slot_of(
                old(store),
                old(store).children_of(entity as int)[j] as int,
            ).kind is TextSelection) ==> final(store).rect_prop(
                old(store).children_of(entity as int)[j] as int,
                PropKey::Bounds,
            ) == Some(spec_child_bounds(old(store), entity as int, j, parent_size))),
        old(store).vis_prop(entity as int) != Some(Visibility::Collapsed) && slot_of(
            old(store),
            entity as int,
        ).kind is TextSelection ==> (r.width as int == ts_width(
            old(store),
            measurer,
            entity as int,
            slot_of(old(store), entity as int).desired.width as int,
        ) && r.height as int == ts_height(
            old(store),
            entity as int,
            parent_size.height as int,
            slot_of(old(store), entity as int).desired.height as int,
        ) && (final(store).thickness_prop(entity as int, PropKey::Margin) matches Some(mg)
            && mg.left as int == ts_final_pos(
            old(store),
            measurer,
            entity as int,
            slot_of(old(store), entity as int).desired.width as int,
        )) && final(marks)@.contains((entity, PropKey::Bounds)) && (old(store).rect_prop(
            entity as int,
            PropKey::Bounds,
        ) matches Some(b0) ==> (final(store).rect_prop(
            entity as int,
            PropKey::Bounds,
        ) matches Some(b1) && b1.x as int == clamp_coord(b0.x as int) && b1.y as int == clamp_coord(
            b0.y as int,
        ) && b1.width == r.width && b1.height == r.height)) && (old(store).rect_prop(
            entity as int,
            PropKey::Bounds,
        ) is None ==> final(store).rect_prop(entity as int, PropKey::Bounds) is None) && (old(
            store,
        ).children_of(entity as int).len() == 0 && old(store).entity_prop(
            entity as int,
            PropKey::TextBlock,
        ) != Some(entity) && old(store).thickness_prop(
            old(store).entity_prop(entity as int, PropKey::TextBlock)->Some_0 as int,
            PropKey::Margin,
        ) is Some ==> (final(store).thickness_prop(
            old(store).entity_prop(entity as int, PropKey::TextBlock)->Some_0 as int,
            PropKey::Margin,
        ) matches Some(m1) && m1.left as int == ts_scroll_left(
            old(store),
            measurer,
            entity as int,
            slot_of(old(store), entity as int).desired.width as int,
            old(store).thickness_prop(
                old(store).entity_prop(entity as int, PropKey::TextBlock)->Some_0 as int,
                PropKey::Margin,
            )->Some_0.left as int,
        )))),
    decreases old(store).n() - entity, 1int,
{
    let slot = match store.layout(entity) {
        Some(s) => s,
        None => unreached(),
    };
    let vis = match store.get_visibility(entity, PropKey::Visibility) {
        Some(v) => v,
        None => unreached(),
    };
    if vis == Visibility::Collapsed {
        let mut desired = slot.desired;
        desired.set_size(0, 0);
        store.set_layout(
            entity,
            LayoutSlot { kind: slot.kind, desired, old_text_selection: slot.old_text_selection },
        );
        proof {
            assert forall|x: int|
                0 <= x < old(store).n() && old(store).alive(x) && (#[trigger] old(
                    store,
                ).layout_of(x)) is Some implies slot_of(store, x).kind == slot_of(
                old(store),
                x,
            ).kind && slot_of(store, x).desired.wf() by {
                if x != entity as int {
                    assert(store.nodes@[x] == old(store).nodes@[x]);
                }
                assert(slot_of(old(store), x).desired.wf());
            }
            lemma_arrange_ready_preserved(old(store), store);
        }
        return Size::new(0, 0);
    }
    if slot.kind == (LayoutKind::TextSelection) {
        arrange_text_selection(store, measurer, marks, parent_size, entity)
    } else {
        arrange_children(store, measurer, marks, parent_size, entity)
    }
}

} // verus!

//! The entity/component store and the widget tree: one arena owns every
//! node's typed properties, its place in the tree, its layout slot and its
//! handler registrations.
//!
//! Entities are indices into the arena. A node is created after its parent,
//! so every parent index is smaller than its children's — the invariant that
//! keeps the tree acyclic and tree walks terminating.

use vstd::prelude::*;

use crate::events::{HandlerDecl, KeyboardState};
use crate::geometry::{Alignment, Constraint, Point, Rectangle, Thickness, Track};
use crate::layout::LayoutSlot;
use crate::text::{Text16, TextSelection};
use crate::theme::{Selector, SelectorView};

verus! {

/// Whether an entity takes part in layout and rendering. A collapsed entity
/// contributes zero size and is skipped by hit tests, as is a hidden one.
#[derive(Clone, Copy, Debug, PartialEq, Eq, Structural)]
pub enum Visibility {
    Visible,
    Hidden,
    Collapsed,
}

/// The names under which components are attached to entities. Each entity
/// holds at most one value per key.
#[derive(Clone, Copy, Debug, PartialEq, Eq, Structural)]
pub enum PropKey {
    Visibility,
    Constraint,
    Margin,
    Padding,
    Bounds,
    Position,
    VAlign,
    HAlign,
    Text,
    Font,
    FontSize,
    TextSelection,
    Expanded,
    Enabled,
    Clip,
    Pressed,
    Focused,
    Selected,
    LostFocusOnActivation,
    RequestFocus,
    Target,
    Cursor,
    ParentEntity,
    TextBlock,
    Delta,
    StyleSelector,
    DirtyWidgets,
    Keyboard,
    Foreground,
    Background,
    BorderBrush,
    IconBrush,
    BorderRadius,
    IconSize,
    Spacing,
    IconFont,
    Opacity,
    BorderWidth,
    PaddingLeft,
    PaddingTop,
    PaddingRight,
    PaddingBottom,
    Columns,
    Rows,
    GridColumn,
    GridRow,
    Val,
    Min,
    Max,
    Step,
}

/// A component value. A lookup that finds a value of another shape than the
/// caller asked for fails the same way a missing one does.
#[derive(Debug)]
pub enum PropValue {
    Visibility(Visibility),
    Constraint(Constraint),
    Thickness(Thickness),
    Rect(Rectangle),
    Point(Point),
    Alignment(Alignment),
    Text(Text16),
    Str(String),
    Int(i64),
    Bool(bool),
    Selection(TextSelection),
    Entity(usize),
    EntityList(Vec<usize>),
    Selector(Selector),
    Keyboard(KeyboardState),
    Tracks(Vec<Track>),
}

/// The mathematical shape of a `PropValue`.
pub enum PropValueView {
    Visibility(Visibility),
    Constraint(Constraint),
    Thickness(Thickness),
    Rect(Rectangle),
    Point(Point),
    Alignment(Alignment),
    Text(Seq<u16>),
    Str(Seq<char>),
    Int(i64),
    Bool(bool),
    Selection(TextSelection),
    Entity(usize),
    EntityList(Seq<usize>),
    Selector(SelectorView),
    Keyboard(KeyboardState),
    Tracks(Seq<Track>),
}

impl View for PropValue {
    type V = PropValueView;

    open spec fn view(&self) -> PropValueView {
        match self {
            PropValue::Visibility(v) => PropValueView::Visibility(*v),
            PropValue::Constraint(v) => PropValueView::Constraint(*v),
            PropValue::Thickness(v) => PropValueView::Thickness(*v),
            PropValue::Rect(v) => PropValueView::Rect(*v),
            PropValue::Point(v) => PropValueView::Point(*v),
            PropValue::Alignment(v) => PropValueView::Alignment(*v),
            PropValue::Text(v) => PropValueView::Text(v@),
            PropValue::Str(v) => PropValueView::Str(v@),
            PropValue::Int(v) => PropValueView::Int(*v),
            PropValue::Bool(v) => PropValueView::Bool(*v),
            PropValue::Selection(v) => PropValueView::Selection(*v),
            PropValue::Entity(v) => PropValueView::Entity(*v),
            PropValue::EntityList(v) => PropValueView::EntityList(v@),
            PropValue::Selector(v) => PropValueView::Selector(v@),
            PropValue::Keyboard(v) => PropValueView::Keyboard(*v),
            PropValue::Tracks(v) => PropValueView::Tracks(v@),
        }
    }
}

impl Clone for PropValue {
    fn clone(&self) -> (r: PropValue)
        ensures
            r@ == self@,
    {
        match self {
            PropValue::Visibility(v) => PropValue::Visibility(*v),
            PropValue::Constraint(v) => PropValue::Constraint(*v),
            PropValue::Thickness(v) => PropValue::Thickness(*v),
            PropValue::Rect(v) => PropValue::Rect(*v),
            PropValue::Point(v) => PropValue::Point(*v),
            PropValue::Alignment(v) => PropValue::Alignment(*v),
            PropValue::Text(v) => PropValue::Text(v.clone()),
            PropValue::Str(v) => PropValue::Str(v.clone()),
            PropValue::Int(v) => PropValue::Int(*v),
            PropValue::Bool(v) => PropValue::Bool(*v),
            PropValue::Selection(v) => PropValue::Selection(*v),
            PropValue::Entity(v) => PropValue::Entity(*v),
            PropValue::EntityList(v) => PropValue::EntityList(v.clone()),
            PropValue::Selector(v) => PropValue::Selector(v.clone()),
            PropValue::Keyboard(v) => PropValue::Keyboard(*v),
            PropValue::Tracks(v) => PropValue::Tracks(v.clone()),
        }
    }
}

/// The map a property list denotes.
pub open spec fn props_view(entries: Seq<(PropKey, PropValue)>) -> Map<PropKey, PropValueView>
    decreases entries.len(),
{
    if entries.len() == 0 {
        Map::empty()
    } else {
        props_view(entries.drop_last()).insert(entries.last().0, entries.last().1@)
    }
}

/// No two entries share a key.
pub open spec fn distinct_prop_keys(entries: Seq<(PropKey, PropValue)>) -> bool {
    forall|i: int, j: int| 0 <= i < j < entries.len() ==> entries[i].0 != entries[j].0
}

proof fn lemma_props_view_entry(entries: Seq<(PropKey, PropValue)>, i: int)
    requires
        distinct_prop_keys(entries),
        0 <= i < entries.len(),
    ensures
        props_view(entries).contains_key(entries[i].0),
        props_view(entries)[entries[i].0] == entries[i].1@,
    decreases entries.len(),
{
    if i < entries.len() - 1 {
        lemma_props_view_entry(entries.drop_last(), i);
    }
}

proof fn lemma_props_view_missing(entries: Seq<(PropKey, PropValue)>, key: PropKey)
    requires
        forall|i: int| 0 <= i < entries.len() ==> entries[i].0 != key,
    ensures
        !props_view(entries).contains_key(key),
    decreases entries.len(),
{
    if entries.len() > 0 {
        lemma_props_view_missing(entries.drop_last(), key);
    }
}

proof fn lemma_props_view_update(entries: Seq<(PropKey, PropValue)>, i: int, entry: (PropKey, PropValue))
    requires
        distinct_prop_keys(entries),
        0 <= i < entries.len(),
        entry.0 == entries[i].0,
    ensures
        distinct_prop_keys(entries.update(i, entry)),
        props_view(entries.update(i, entry)) == props_view(entries).insert(entry.0, entry.1@),
    decreases entries.len(),
{
    let updated = entries.update(i, entry);
    if i == entries.len() - 1 {
        assert(updated.drop_last() =~= entries.drop_last());
        assert(props_view(updated) =~= props_view(entries).insert(entry.0, entry.1@));
    } else {
        lemma_props_view_update(entries.drop_last(), i, entry);
        assert(updated.drop_last() =~= entries.drop_last().update(i, entry));
        assert(updated.last() == entries.last());
        assert(props_view(updated) =~= props_view(entries).insert(entry.0, entry.1@));
    }
}

proof fn lemma_props_view_push(entries: Seq<(PropKey, PropValue)>, key: PropKey, value: PropValue)
    requires
        distinct_prop_keys(entries),
        forall|i: int| 0 <= i < entries.len() ==> entries[i].0 != key,
    ensures
        distinct_prop_keys(entries.push((key, value))),
        props_view(entries.push((key, value))) == props_view(entries).insert(key, value@),
{
    let pushed = entries.push((key, value));
    assert(pushed.drop_last() =~= entries);
    assert forall|i: int, j: int| 0 <= i < j < pushed.len() implies pushed[i].0 != pushed[j].0 by {
        if j < pushed.len() - 1 {
            assert(pushed[i] == entries[i] && pushed[j] == entries[j]);
        }
    }
}

/// Looks a key up in a property list.
fn prop_get<'a>(entries: &'a Vec<(PropKey, PropValue)>, key: PropKey) -> (r: Option<
    &'a PropValue,
>)
    requires
        distinct_prop_keys(entries@),
    ensures
        match r {
            Some(v) => props_view(entries@).contains_key(key) && v@ == props_view(entries@)[key],
            None => !props_view(entries@).contains_key(key),
        },
{
    let mut i: usize = 0;
    while i < entries.len()
        invariant
            0 <= i <= entries@.len(),
            distinct_prop_keys(entries@),
            forall|j: int| 0 <= j < i ==> entries@[j].0 != key,
        decreases entries@.len() - i,
    {
        if entries[i].0 == key {
            proof {
                lemma_props_view_entry(entries@, i as int);
            }
            return Some(&entries[i].1);
        }
        i += 1;
    }
    proof {
        lemma_props_view_missing(entries@, key);
    }
    None
}

/// Binds a key, replacing an existing entry.
fn prop_insert(entries: &mut Vec<(PropKey, PropValue)>, key: PropKey, value: PropValue)
    requires
        distinct_prop_keys(old(entries)@),
    ensures
        distinct_prop_keys(final(entries)@),
        props_view(final(entries)@) == props_view(old(entries)@).insert(key, value@),
{
    let mut i: usize = 0;
    while i < entries.len()
        invariant
            0 <= i <= entries@.len(),
            entries@ == old(entries)@,
            distinct_prop_keys(entries@),
            forall|j: int| 0 <= j < i ==> entries@[j].0 != key,
        decreases entries@.len() - i,
    {
        if entries[i].0 == key {
            proof {
                lemma_props_view_update(entries@, i as int, (key, value));
            }
            entries[i] = (key, value);
            return ;
        }
        i += 1;
    }
    proof {
        lemma_props_view_push(entries@, key, value);
    }
    entries.push((key, value));
}

/// One entity's record in the arena.
#[derive(Debug)]
pub struct Node {
    pub alive: bool,
    pub parent: Option<usize>,
    pub children: Vec<usize>,
    pub props: Vec<(PropKey, PropValue)>,
    pub layout: Option<LayoutSlot>,
    pub handlers: Vec<HandlerDecl>,
}

impl Node {
    fn fresh(parent: Option<usize>) -> (r: Node)
        ensures
            r.alive,
            r.parent == parent,
            r.children@ == Seq::<usize>::empty(),
            r.props@ == Seq::<(PropKey, PropValue)>::empty(),
            r.layout is None,
            r.handlers@ == Seq::<HandlerDecl>::empty(),
    {
        Node {
            alive: true,
            parent,
            children: Vec::new(),
            props: Vec::new(),
            layout: None,
            handlers: Vec::new(),
        }
    }

    fn dead() -> (r: Node)
        ensures
            !r.alive,
            r.parent is None,
            r.children@ == Seq::<usize>::empty(),
            r.props@ == Seq::<(PropKey, PropValue)>::empty(),
            r.layout is None,
            r.handlers@ == Seq::<HandlerDecl>::empty(),
    {
        Node {
            alive: false,
            parent: None,
            children: Vec::new(),
            props: Vec::new(),
            layout: None,
            handlers: Vec::new(),
        }
    }
}

/// The arena: every entity's components, tree links, layout slot and handler
/// registrations. Entity `0` is the root and is never removed.
#[derive(Debug)]
pub struct Store {
    pub nodes: Vec<Node>,
}

impl Store {
    /// The number of entity slots ever created (removed ones keep their
    /// index, marked dead).
    pub open spec fn n(&self) -> int {
        self.nodes@.len() as int
    }

    pub open spec fn alive(&self, e: int) -> bool {
        0 <= e < self.n() && self.nodes@[e].alive
    }

    pub open spec fn parent_of(&self, e: int) -> Option<usize> {
        self.nodes@[e].parent
    }

    pub open spec fn children_of(&self, e: int) -> Seq<usize> {
        self.nodes@[e].children@
    }

    pub open spec fn props_of(&self, e: int) -> Map<PropKey, PropValueView> {
        props_view(self.nodes@[e].props@)
    }

    pub open spec fn layout_of(&self, e: int) -> Option<LayoutSlot> {
        self.nodes@[e].layout
    }

    pub open spec fn handlers_of(&self, e: int) -> Seq<HandlerDecl> {
        self.nodes@[e].handlers@
    }

    /// Well-formedness of the arena: one live root without parent; every
    /// other live entity has exactly one live parent of smaller index whose
    /// child list carries it; child lists name live children of larger index
    /// that point back, without duplicates; dead entities have no children;
    /// property lists never repeat a key.
    pub open spec fn wf(&self) -> bool {
        &&& 1 <= self.n() < usize::MAX as int
        &&& self.alive(0)
        &&& self.parent_of(0) is None
        &&& forall|e: int|
            1 <= e < self.n() && self.alive(e) ==> ((#[trigger] self.parent_of(e)) matches Some(p)
                && p < e && self.alive(p as int) && self.children_of(p as int).contains(e as usize))
        &&& forall|e: int|
            0 <= e < self.n() && !self.alive(e) ==> (#[trigger] self.children_of(e)).len() == 0
        &&& forall|e: int|
            0 <= e < self.n() && !self.alive(e) ==> (#[trigger] self.parent_of(e)) is None
        &&& forall|e: int, k: int|
            0 <= e < self.n() && 0 <= k < self.children_of(e).len() ==> {
                let c = #[trigger] self.children_of(e)[k];
                e < c < self.n() && self.alive(c as int) && self.parent_of(c as int) == Some(
                    e as usize,
                )
            }
        &&& forall|e: int, k1: int, k2: int|
            0 <= e < self.n() && 0 <= k1 < k2 < self.children_of(e).len()
                ==> #[trigger] self.children_of(e)[k1] != #[trigger] self.children_of(e)[k2]
        &&& forall|e: int|
            0 <= e < self.n() ==> distinct_prop_keys((#[trigger] self.nodes@[e]).props@)
    }

    /// Whether `a` is a strict ancestor of `e`.
    pub open spec fn is_ancestor(&self, a: int, e: int) -> bool
        decreases e,
    {
        if e <= 0 || e >= self.n() {
            false
        } else {
            match self.nodes@[e].parent {
                None => false,
                Some(p) => {
                    if p as int >= e {
                        false
                    } else {
                        p as int == a || self.is_ancestor(a, p as int)
                    }
                },
            }
        }
    }

    /// Changes that leave the tree structure (liveness, parents, children)
    /// untouched and keep property keys distinct preserve well-formedness.
    proof fn lemma_wf_preserved_nonstructural(s1: Store, s2: Store)
        requires
            s1.wf(),
            s2.n() == s1.n(),
            forall|e: int|
                0 <= e < s1.n() ==> (#[trigger] s2.nodes@[e]).alive == s1.nodes@[e].alive,
            forall|e: int|
                0 <= e < s1.n() ==> (#[trigger] s2.nodes@[e]).parent == s1.nodes@[e].parent,
            forall|e: int|
                0 <= e < s1.n() ==> (#[trigger] s2.nodes@[e]).children@ == s1.nodes@[e].children@,
            forall|e: int|
                0 <= e < s1.n() ==> distinct_prop_keys((#[trigger] s2.nodes@[e]).props@),
        ensures
            s2.wf(),
    {
        assert forall|e: int| 1 <= e < s2.n() && s2.alive(e) implies ((
        #[trigger] s2.parent_of(e)) matches Some(p) && p < e && s2.alive(p as int)
            && s2.children_of(p as int).contains(e as usize)) by {
            assert(s1.alive(e));
            assert(s1.parent_of(e) matches Some(p) && p < e && s1.alive(p as int)
                && s1.children_of(p as int).contains(e as usize));
        }
        assert forall|e: int, k: int|
            0 <= e < s2.n() && 0 <= k < s2.children_of(e).len() implies {
            let c = #[trigger] s2.children_of(e)[k];
            e < c < s2.n() && s2.alive(c as int) && s2.parent_of(c as int) == Some(e as usize)
        } by {
            assert(s1.children_of(e)[k] == s2.children_of(e)[k]);
        }
        assert forall|e: int, k1: int, k2: int|
            0 <= e < s2.n() && 0 <= k1 < k2 < s2.children_of(e).len() implies #[trigger] s2
            .children_of(e)[k1] != #[trigger] s2.children_of(e)[k2] by {
            assert(s1.children_of(e)[k1] != s1.children_of(e)[k2]);
        }
        assert(s2.nodes@[0].alive == s1.nodes@[0].alive);
        assert forall|e: int|
            0 <= e < s2.n() && !s2.alive(e) implies (#[trigger] s2.children_of(e)).len() == 0 by {
            assert(!s1.alive(e));
            assert(s1.children_of(e).len() == 0);
        }
        assert forall|e: int|
            0 <= e < s2.n() && !s2.alive(e) implies (#[trigger] s2.parent_of(e)) is None by {
            assert(!s1.alive(e));
            assert(s1.parent_of(e) is None);
        }
    }

    /// A store holding only the root entity.
    pub fn new() -> (r: Store)
        ensures
            r.wf(),
            r.n() == 1,
            r.alive(0),
            r.props_of(0) == Map::<PropKey, PropValueView>::empty(),
            r.children_of(0) == Seq::<usize>::empty(),
            r.layout_of(0) is None,
            r.handlers_of(0) == Seq::<HandlerDecl>::empty(),
    {
        let mut nodes: Vec<Node> = Vec::new();
        nodes.push(Node::fresh(None));
        Store { nodes }
    }

    /// How many entity slots exist.
    pub fn len(&self) -> (r: usize)
        ensures
            r as int == self.n(),
    {
        self.nodes.len()
    }

    /// Whether the entity exists and is live.
    pub fn is_alive(&self, e: usize) -> (r: bool)
        ensures
            r == self.alive(e as int),
    {
        e < self.nodes.len() && self.nodes[e].alive
    }

    /// Creates a new entity under the given live parent and returns it.
    pub fn create_node(&mut self, parent: usize) -> (e: usize)
        requires
            old(self).wf(),
            old(self).alive(parent as int),
            old(self).n() + 1 < usize::MAX as int,
        ensures
            final(self).wf(),
            e as int == old(self).n(),
            final(self).n() == old(self).n() + 1,
            final(self).alive(e as int),
            final(self).parent_of(e as int) == Some(parent),
            final(self).children_of(e as int) == Seq::<usize>::empty(),
            final(self).props_of(e as int) == Map::<PropKey, PropValueView>::empty(),
            final(self).layout_of(e as int) is None,
            final(self).handlers_of(e as int) == Seq::<HandlerDecl>::empty(),
            final(self).children_of(parent as int) == old(self).children_of(parent as int).push(e),
            forall|e2: int|
                0 <= e2 < old(self).n() && e2 != parent as int ==> final(self).nodes@[e2] == old(
                    self,
                ).nodes@[e2],
            final(self).nodes@[parent as int].alive == old(self).nodes@[parent as int].alive,
            final(self).nodes@[parent as int].parent == old(self).nodes@[parent as int].parent,
            final(self).nodes@[parent as int].props@ == old(self).nodes@[parent as int].props@,
            final(self).nodes@[parent as int].layout == old(self).nodes@[parent as int].layout,
            final(self).nodes@[parent as int].handlers@ == old(
                self,
            ).nodes@[parent as int].handlers@,
    {
        let e = self.nodes.len();
        let parent_node = &mut self.nodes[parent];
        parent_node.children.push(e);
        self.nodes.push(Node::fresh(Some(parent)));
        proof {
            let s = *self;
            let s0 = *old(self);
            let p = parent as int;
            assert(s.children_of(p) == s0.children_of(p).push(e));
            assert forall|e2: int, k: int|
                0 <= e2 < s.n() && 0 <= k < s.children_of(e2).len() implies {
                let c = #[trigger] s.children_of(e2)[k];
                e2 < c < s.n() && s.alive(c as int) && s.parent_of(c as int) == Some(e2 as usize)
            } by {
                if e2 == p {
                    if k < s0.children_of(p).len() {
                        assert(s.children_of(e2)[k] == s0.children_of(e2)[k]);
                        assert(s0.alive(s0.children_of(e2)[k] as int));
                    } else {
                        assert(s.children_of(e2)[k] == e);
                    }
                } else if e2 < s0.n() {
                    assert(s.children_of(e2) == s0.children_of(e2));
                    assert(s0.alive(s0.children_of(e2)[k] as int));
                } else {
                    assert(s.children_of(e2).len() == 0);
                }
            }
            assert forall|e2: int| 1 <= e2 < s.n() && s.alive(e2) implies ((
            #[trigger] s.parent_of(e2)) matches Some(pp) && pp < e2 && s.alive(pp as int)
                && s.children_of(pp as int).contains(e2 as usize)) by {
                if e2 < s0.n() {
                    assert(s0.alive(e2));
                    let pp = s0.parent_of(e2)->0;
                    assert(s0.children_of(pp as int).contains(e2 as usize));
                    if pp as int == p {
                        assert(s0.children_of(p).push(e).contains(e2 as usize)) by {
                            let k = choose|k: int|
                                0 <= k < s0.children_of(p).len() && s0.children_of(p)[k] == e2 as usize;
                            assert(s.children_of(p)[k] == e2 as usize);
                        }
                    }
                } else {
                    assert(s.parent_of(e2) == Some(parent));
                    assert(s.children_of(p).last() == e);
                }
            }
            assert forall|e2: int, k1: int, k2: int|
                0 <= e2 < s.n() && 0 <= k1 < k2 < s.children_of(e2).len() implies #[trigger] s
                .children_of(e2)[k1] != #[trigger] s.children_of(e2)[k2] by {
                if e2 == p && k2 == s.children_of(p).len() - 1 {
                    assert(s.children_of(e2)[k1] == s0.children_of(e2)[k1]);
                    assert((s0.children_of(e2)[k1] as int) < s0.n());
                } else if e2 < s0.n() {
                    assert(s.children_of(e2)[k1] == s0.children_of(e2)[k1]);
                    assert(s.children_of(e2)[k2] == s0.children_of(e2)[k2]);
                }
            }
            assert forall|e2: int|
                0 <= e2 < s.n() && !s.alive(e2) implies (#[trigger] s.children_of(e2)).len()
                == 0 by {
                assert(e2 < s0.n() && !s0.alive(e2));
                assert(s0.children_of(e2).len() == 0);
            }
            assert forall|e2: int|
                0 <= e2 < s.n() implies distinct_prop_keys((#[trigger] s.nodes@[e2]).props@) by {
                if e2 < s0.n() {
                    assert(distinct_prop_keys(s0.nodes@[e2].props@));
                }
            }
            assert forall|e2: int|
                0 <= e2 < s.n() && !s.alive(e2) implies (#[trigger] s.parent_of(e2)) is None by {
                assert(e2 < s0.n() && !s0.alive(e2));
                assert(s0.parent_of(e2) is None);
            }
        }
        e
    }

    /// Whether the entity carries the key.
    pub fn has(&self, e: usize, key: PropKey) -> (r: bool)
        requires
            self.wf(),
            e < self.n(),
        ensures
            r == self.props_of(e as int).contains_key(key),
    {
        prop_get(&self.nodes[e].props, key).is_some()
    }

    /// The value under the key, cloned; `None` when the entity does not
    /// carry it. Missing properties are an expected, soft condition.
    pub fn try_clone(&self, e: usize, key: PropKey) -> (r: Option<PropValue>)
        requires
            self.wf(),
            e < self.n(),
        ensures
            match r {
                Some(v) => self.props_of(e as int).contains_key(key) && v@ == self.props_of(
                    e as int,
                )[key],
                None => !self.props_of(e as int).contains_key(key),
            },
    {
        match prop_get(&self.nodes[e].props, key) {
            Some(v) => Some(v.clone()),
            None => None,
        }
    }

    /// The value under the key, cloned. The entity must carry the key: a
    /// missing required property is a contract violation, kept out by the
    /// precondition.
    pub fn get(&self, e: usize, key: PropKey) -> (r: PropValue)
        requires
            self.wf(),
            e < self.n(),
            self.props_of(e as int).contains_key(key),
        ensures
            r@ == self.props_of(e as int)[key],
    {
        match prop_get(&self.nodes[e].props, key) {
            Some(v) => v.clone(),
            None => unreached(),
        }
    }

    /// Binds a component value on an entity, creating or replacing it.
    pub fn insert(&mut self, e: usize, key: PropKey, value: PropValue)
        requires
            old(self).wf(),
            e < old(self).n(),
        ensures
            final(self).wf(),
            final(self).n() == old(self).n(),
            final(self).props_of(e as int) == old(self).props_of(e as int).insert(key, value@),
            forall|e2: int|
                0 <= e2 < old(self).n() && e2 != e as int ==> final(self).nodes@[e2] == old(
                    self,
                ).nodes@[e2],
            final(self).nodes@[e as int].alive == old(self).nodes@[e as int].alive,
            final(self).nodes@[e as int].parent == old(self).nodes@[e as int].parent,
            final(self).nodes@[e as int].children@ == old(self).nodes@[e as int].children@,
            final(self).nodes@[e as int].layout == old(self).nodes@[e as int].layout,
            final(self).nodes@[e as int].handlers@ == old(self).nodes@[e as int].handlers@,
    {
        let node = &mut self.nodes[e];
        prop_insert(&mut node.props, key, value);
        proof {
            Store::lemma_wf_preserved_nonstructural(*old(self), *self);
        }
    }

    /// Replaces the value under a key the entity already carries — what the
    /// store owes a widget that sets a declared property.
    pub fn set(&mut self, e: usize, key: PropKey, value: PropValue)
        requires
            old(self).wf(),
            e < old(self).n(),
            old(self).props_of(e as int).contains_key(key),
        ensures
            final(self).wf(),
            final(self).n() == old(self).n(),
            final(self).props_of(e as int) == old(self).props_of(e as int).insert(key, value@),
            forall|e2: int|
                0 <= e2 < old(self).n() && e2 != e as int ==> final(self).nodes@[e2] == old(
                    self,
                ).nodes@[e2],
            final(self).nodes@[e as int].alive == old(self).nodes@[e as int].alive,
            final(self).nodes@[e as int].parent == old(self).nodes@[e as int].parent,
            final(self).nodes@[e as int].children@ == old(self).nodes@[e as int].children@,
            final(self).nodes@[e as int].layout == old(self).nodes@[e as int].layout,
            final(self).nodes@[e as int].handlers@ == old(self).nodes@[e as int].handlers@,
    {
        self.insert(e, key, value);
    }

    /// The parent of an entity.
    pub fn parent(&self, e: usize) -> (r: Option<usize>)
        requires
            e < self.n(),
        ensures
            r == self.parent_of(e as int),
    {
        self.nodes[e].parent
    }

    /// How many children an entity has.
    pub fn child_count(&self, e: usize) -> (r: usize)
        requires
            e < self.n(),
        ensures
            r as int == self.children_of(e as int).len(),
    {
        self.nodes[e].children.len()
    }

    /// The child at an index, in insertion (traversal) order.
    pub fn child_at(&self, e: usize, i: usize) -> (r: usize)
        requires
            e < self.n(),
            (i as int) < self.children_of(e as int).len(),
        ensures
            r == self.children_of(e as int)[i as int],
    {
        self.nodes[e].children[i]
    }

    /// The layout slot of an entity, if it has one. Entities without a slot
    /// are skipped by the layout passes.
    pub fn layout(&self, e: usize) -> (r: Option<LayoutSlot>)
        requires
            e < self.n(),
        ensures
            r == self.layout_of(e as int),
    {
        self.nodes[e].layout
    }

    /// Registers (or replaces) the layout slot of an entity.
    pub fn set_layout(&mut self, e: usize, slot: LayoutSlot)
        requires
            old(self).wf(),
            e < old(self).n(),
        ensures
            final(self).wf(),
            final(self).n() == old(self).n(),
            final(self).layout_of(e as int) == Some(slot),
            forall|e2: int|
                0 <= e2 < old(self).n() && e2 != e as int ==> final(self).nodes@[e2] == old(
                    self,
                ).nodes@[e2],
            final(self).nodes@[e as int].alive == old(self).nodes@[e as int].alive,
            final(self).nodes@[e as int].parent == old(self).nodes@[e as int].parent,
            final(self).nodes@[e as int].children@ == old(self).nodes@[e as int].children@,
            final(self).nodes@[e as int].props@ == old(self).nodes@[e as int].props@,
            final(self).nodes@[e as int].handlers@ == old(self).nodes@[e as int].handlers@,
    {
        let node = &mut self.nodes[e];
        node.layout = Some(slot);
        proof {
            Store::lemma_wf_preserved_nonstructural(*old(self), *self);
        }
    }

    /// Registers a handler on an entity; handlers fire in registration order.
    pub fn add_handler(&mut self, e: usize, decl: HandlerDecl)
        requires
            old(self).wf(),
            e < old(self).n(),
        ensures
            final(self).wf(),
            final(self).n() == old(self).n(),
            final(self).handlers_of(e as int) == old(self).handlers_of(e as int).push(decl),
            forall|e2: int|
                0 <= e2 < old(self).n() && e2 != e as int ==> final(self).nodes@[e2] == old(
                    self,
                ).nodes@[e2],
            final(self).nodes@[e as int].alive == old(self).nodes@[e as int].alive,
            final(self).nodes@[e as int].parent == old(self).nodes@[e as int].parent,
            final(self).nodes@[e as int].children@ == old(self).nodes@[e as int].children@,
            final(self).nodes@[e as int].props@ == old(self).nodes@[e as int].props@,
            final(self).nodes@[e as int].layout == old(self).nodes@[e as int].layout,
    {
        let node = &mut self.nodes[e];
        node.handlers.push(decl);
        proof {
            Store::lemma_wf_preserved_nonstructural(*old(self), *self);
        }
    }

    /// Ancestry composes: an ancestor of an ancestor is an ancestor.
    pub proof fn lemma_ancestor_trans(&self, a: int, b: int, x: int)
        requires
            self.is_ancestor(b, x),
            self.is_ancestor(a, b),
        ensures
            self.is_ancestor(a, x),
        decreases x,
    {
        match self.nodes@[x].parent {
            None => {},
            Some(p) => {
                if (p as int) < x {
                    if p as int == b {
                    } else {
                        self.lemma_ancestor_trans(a, b, p as int);
                    }
                }
            },
        }
    }

    /// Two stores that agree on liveness and parents of live entities agree
    /// on ancestry of live entities.
    pub proof fn lemma_ancestor_congruent(s1: Store, s2: Store, a: int, x: int)
        requires
            s2.wf(),
            s1.n() == s2.n(),
            forall|y: int|
                0 <= y < s2.n() && s2.alive(y) ==> (#[trigger] s1.nodes@[y]).parent
                    == s2.nodes@[y].parent && s1.alive(y),
            s2.alive(x),
        ensures
            s1.is_ancestor(a, x) == s2.is_ancestor(a, x),
        decreases x,
    {
        match s2.nodes@[x].parent {
            None => {},
            Some(p) => {
                if x >= 1 {
                    assert(s2.parent_of(x) matches Some(q) && q < x && s2.alive(q as int));
                    if p as int != a {
                        Store::lemma_ancestor_congruent(s1, s2, a, p as int);
                    }
                }
            },
        }
    }

    /// An entity with a live ancestor is live itself, and every strict
    /// descendant of `e` is a child of `e` or descends from one.
    pub proof fn lemma_desc_decompose(&self, e: int, x: int)
        requires
            self.wf(),
            self.is_ancestor(e, x),
        ensures
            self.alive(x),
            exists|k: int|
                0 <= k < self.children_of(e).len() && ((#[trigger] self.children_of(e)[k]) as int
                    == x || self.is_ancestor(self.children_of(e)[k] as int, x)),
        decreases x,
    {
        let q = self.nodes@[x].parent->0;
        assert(self.alive(x)) by {
            if !self.alive(x) {
                assert(self.parent_of(x) is None);
            }
        }
        if q as int == e {
            assert(self.children_of(e).contains(x as usize));
            let k = choose|k: int|
                0 <= k < self.children_of(e).len() && self.children_of(e)[k] == x as usize;
            assert(self.children_of(e)[k] as int == x);
        } else {
            self.lemma_desc_decompose(e, q as int);
            let k = choose|k: int|
                0 <= k < self.children_of(e).len() && ((#[trigger] self.children_of(e)[k]) as int
                    == q as int || self.is_ancestor(self.children_of(e)[k] as int, q as int));
            assert(self.children_of(e)[k] as int == q as int || self.is_ancestor(
                self.children_of(e)[k] as int,
                x,
            ));
            if self.children_of(e)[k] as int == q as int {
                assert(self.is_ancestor(self.children_of(e)[k] as int, x));
            }
        }
    }

    /// A child descends from its parent.
    pub proof fn lemma_child_is_descendant(&self, e: int, k: int)
        requires
            self.wf(),
            0 <= e < self.n(),
            0 <= k < self.children_of(e).len(),
        ensures
            self.is_ancestor(e, self.children_of(e)[k] as int),
    {
        let c = self.children_of(e)[k] as int;
        assert(self.parent_of(c) == Some(e as usize));
    }

    /// The parent's index (meaningful only when the entity has a parent).
    pub open spec fn parent_index(&self, e: int) -> int {
        self.parent_of(e)->Some_0 as int
    }

    /// The two records agree on everything but the child list.
    pub open spec fn node_same_but_children(a: Node, b: Node) -> bool {
        a.alive == b.alive && a.parent == b.parent && a.props@ == b.props@ && a.layout == b.layout
            && a.handlers@ == b.handlers@
    }

    /// The two records agree on everything but the layout slot.
    pub open spec fn node_same_but_layout(a: Node, b: Node) -> bool {
        a.alive == b.alive && a.parent == b.parent && a.children@ == b.children@ && a.props@
            == b.props@ && a.handlers@ == b.handlers@
    }

    /// The position of a child in its parent's child list.
    fn index_of_child(&self, p: usize, e: usize) -> (i: usize)
        requires
            self.wf(),
            p < self.n(),
            self.children_of(p as int).contains(e),
        ensures
            (i as int) < self.children_of(p as int).len(),
            self.children_of(p as int)[i as int] == e,
    {
        let mut i: usize = 0;
        let plen = self.nodes[p].children.len();
        while i < plen
            invariant
                0 <= i <= plen,
                p < self.n(),
                plen == self.children_of(p as int).len(),
                forall|j: int| 0 <= j < i ==> self.children_of(p as int)[j] != e,
            decreases plen - i,
        {
            if self.nodes[p].children[i] == e {
                return i;
            }
            i += 1;
        }
        proof {
            let k = choose|k: int|
                0 <= k < self.children_of(p as int).len() && self.children_of(p as int)[k] == e;
            assert(false);
        }
        unreached()
    }

    /// Removes a live, childless entity other than the root: it is detached
    /// from its parent's child list and its slot is cleared.
    fn remove_entity(&mut self, e: usize)
        requires
            old(self).wf(),
            old(self).alive(e as int),
            e != 0,
            old(self).children_of(e as int).len() == 0,
        ensures
            final(self).wf(),
            final(self).n() == old(self).n(),
            !final(self).alive(e as int),
            final(self).props_of(e as int) == Map::<PropKey, PropValueView>::empty(),
            final(self).layout_of(e as int) is None,
            final(self).handlers_of(e as int) == Seq::<HandlerDecl>::empty(),
            old(self).parent_of(e as int) matches Some(p) && (exists|i: int|
                0 <= i < old(self).children_of(p as int).len() && old(self).children_of(
                    p as int,
                )[i] == e && final(self).children_of(p as int) == old(self).children_of(
                    p as int,
                ).remove(i)),
            forall|e2: int|
                0 <= e2 < old(self).n() && e2 != e as int && Some(e2 as usize) != old(
                    self,
                ).parent_of(e as int) ==> final(self).nodes@[e2] == old(self).nodes@[e2],
            Store::node_same_but_children(
                final(self).nodes@[old(self).parent_index(e as int)],
                old(self).nodes@[old(self).parent_index(e as int)],
            ),
    {
        let p: usize = match self.nodes[e].parent {
            Some(p) => p,
            None => unreached(),
        };
        let i = self.index_of_child(p, e);
        let parent_node = &mut self.nodes[p];
        parent_node.children.remove(i);
        self.nodes[e] = Node::dead();
        proof {
            let s = *self;
            let s0 = *old(self);
            let pi = p as int;
            let ei = e as int;
            assert(s.children_of(pi) == s0.children_of(pi).remove(i as int));
            assert(s0.children_of(pi)[i as int] == e);
            assert forall|e2: int| 1 <= e2 < s.n() && s.alive(e2) implies ((
            #[trigger] s.parent_of(e2)) matches Some(pp) && pp < e2 && s.alive(pp as int)
                && s.children_of(pp as int).contains(e2 as usize)) by {
                assert(s0.alive(e2));
                let pp = s0.parent_of(e2)->0;
                assert(s0.children_of(pp as int).contains(e2 as usize));
                assert(pp as int != ei) by {
                    if pp as int == ei {
                        assert(s0.children_of(ei).contains(e2 as usize));
                    }
                }
                assert(s.alive(pp as int));
                if pp as int == pi {
                    let k = choose|k: int|
                        0 <= k < s0.children_of(pi).len() && s0.children_of(pi)[k] == e2 as usize;
                    assert(e2 != ei);
                    assert(k != i as int) by {
                        if k == i as int {
                            assert(s0.children_of(pi)[k] == e);
                        }
                    }
                    if k < i as int {
                        assert(s.children_of(pi)[k] == e2 as usize);
                        assert(s.children_of(pi).contains(e2 as usize));
                    } else {
                        assert(s.children_of(pi)[k - 1] == e2 as usize);
                        assert(s.children_of(pi).contains(e2 as usize));
                    }
                } else {
                    assert(s.children_of(pp as int) == s0.children_of(pp as int));
                }
            }
            assert forall|e2: int, k: int|
                0 <= e2 < s.n() && 0 <= k < s.children_of(e2).len() implies {
                let c = #[trigger] s.children_of(e2)[k];
                e2 < c < s.n() && s.alive(c as int) && s.parent_of(c as int) == Some(e2 as usize)
            } by {
                if e2 == pi {
                    let k0: int = if k < i as int {
                        k
                    } else {
                        k + 1
                    };
                    assert(s.children_of(pi)[k] == s0.children_of(pi)[k0]);
                    let c = s0.children_of(pi)[k0];
                    assert(e2 < c < s0.n() && s0.alive(c as int) && s0.parent_of(c as int) == Some(
                        e2 as usize,
                    ));
                    assert(c != e) by {
                        if c == e {
                            assert(s0.children_of(pi)[k0] == s0.children_of(pi)[i as int]);
                        }
                    }
                } else if e2 != ei {
                    assert(s.children_of(e2)[k] == s0.children_of(e2)[k]);
                    let c = s0.children_of(e2)[k];
                    assert(e2 < c < s0.n() && s0.alive(c as int) && s0.parent_of(c as int) == Some(
                        e2 as usize,
                    ));
                    assert(c != e) by {
                        if c == e {
                            assert(s0.parent_of(ei) == Some(e2 as usize));
                        }
                    }
                }
            }
            assert forall|e2: int, k1: int, k2: int|
                0 <= e2 < s.n() && 0 <= k1 < k2 < s.children_of(e2).len() implies #[trigger] s
                .children_of(e2)[k1] != #[trigger] s.children_of(e2)[k2] by {
                if e2 == pi {
                    let m1: int = if k1 < i as int {
                        k1
                    } else {
                        k1 + 1
                    };
                    let m2: int = if k2 < i as int {
                        k2
                    } else {
                        k2 + 1
                    };
                    assert(s.children_of(pi)[k1] == s0.children_of(pi)[m1]);
                    assert(s.children_of(pi)[k2] == s0.children_of(pi)[m2]);
                    assert(s0.children_of(pi)[m1] != s0.children_of(pi)[m2]);
                } else if e2 != ei {
                    assert(s.children_of(e2)[k1] == s0.children_of(e2)[k1]);
                    assert(s.children_of(e2)[k2] == s0.children_of(e2)[k2]);
                }
            }
            assert forall|e2: int|
                0 <= e2 < s.n() && !s.alive(e2) implies (#[trigger] s.children_of(e2)).len()
                == 0 by {
                if e2 != ei && e2 != pi {
                    assert(!s0.alive(e2));
                    assert(s0.children_of(e2).len() == 0);
                }
            }
            assert forall|e2: int|
                0 <= e2 < s.n() && !s.alive(e2) implies (#[trigger] s.parent_of(e2)) is None by {
                if e2 != ei && e2 != pi {
                    assert(!s0.alive(e2));
                    assert(s0.parent_of(e2) is None);
                }
            }
            assert forall|e2: int|
                0 <= e2 < s.n() implies distinct_prop_keys((#[trigger] s.nodes@[e2]).props@) by {
                if e2 != ei && e2 != pi {
                    assert(distinct_prop_keys(s0.nodes@[e2].props@));
                }
            }
        }
    }

    /// An ancestor always has the smaller index: nodes are created after
    /// their parents.
    pub proof fn lemma_ancestor_lt(&self, a: int, x: int)
        requires
            self.is_ancestor(a, x),
        ensures
            a < x,
        decreases x,
    {
        match self.nodes@[x].parent {
            None => {},
            Some(p) => {
                if (p as int) < x && p as int != a {
                    self.lemma_ancestor_lt(a, p as int);
                }
            },
        }
    }

    /// Whether `x` is `c` or descends from it.
    pub open spec fn weak_desc(&self, c: int, x: int) -> bool {
        c == x || self.is_ancestor(c, x)
    }

    /// Removes an entity and its whole subtree: every descendant first (so a
    /// node is never removed while it still has children), the entity last.
    /// Everything outside the subtree keeps its state; the parent's child
    /// list loses the entity.
    pub fn remove_subtree(&mut self, e: usize)
        requires
            old(self).wf(),
            old(self).alive(e as int),
            e != 0,
        ensures
            final(self).wf(),
            final(self).n() == old(self).n(),
            forall|x: int|
                0 <= x < old(self).n() ==> (final(self).alive(x) <==> (old(self).alive(x) && x
                    != e as int && !old(self).is_ancestor(e as int, x))),
            forall|x: int|
                0 <= x < old(self).n() && final(self).alive(x) && Some(x as usize) != old(
                    self,
                ).parent_of(e as int) ==> final(self).nodes@[x] == old(self).nodes@[x],
            old(self).parent_of(e as int) matches Some(p) && (exists|i: int|
                0 <= i < old(self).children_of(p as int).len() && old(self).children_of(
                    p as int,
                )[i] == e && final(self).children_of(p as int) == old(self).children_of(
                    p as int,
                ).remove(i)),
            Store::node_same_but_children(
                final(self).nodes@[old(self).parent_index(e as int)],
                old(self).nodes@[old(self).parent_index(e as int)],
            ),
        decreases old(self).n() - e,
    {
        let ghost s0 = *old(self);
        let ghost ei = e as int;
        let ghost oc = s0.children_of(ei);
        while self.child_count(e) > 0
            invariant
                s0 == *old(self),
                self.wf(),
                self.n() == s0.n(),
                s0.wf(),
                s0.alive(ei),
                self.alive(ei),
                e != 0,
                ei == e as int,
                oc == s0.children_of(ei),
                self.nodes@[ei].parent == s0.nodes@[ei].parent,
                self.nodes@[ei].props@ == s0.nodes@[ei].props@,
                self.nodes@[ei].layout == s0.nodes@[ei].layout,
                self.nodes@[ei].handlers@ == s0.nodes@[ei].handlers@,
                self.children_of(ei).len() <= oc.len(),
                self.children_of(ei) == oc.take(self.children_of(ei).len() as int),
                forall|x: int|
                    0 <= x < s0.n() ==> ((#[trigger] self.alive(x)) <==> (s0.alive(x) && !(
                    exists|k: int|
                        self.children_of(ei).len() <= k < oc.len() && s0.weak_desc(
                            (#[trigger] oc[k]) as int,
                            x,
                        )))),
                forall|x: int|
                    0 <= x < s0.n() && self.alive(x) && x != ei ==> (#[trigger] self.nodes@[x])
                        == s0.nodes@[x],
            decreases self.children_of(ei).len(),
        {
            let cnt = self.child_count(e);
            let ghost m = cnt as int;
            let c = self.child_at(e, cnt - 1);
            proof {
                assert(self.children_of(ei)[m - 1] == oc[m - 1]);
                self.lemma_child_is_descendant(ei, m - 1);
                self.lemma_ancestor_lt(ei, c as int);
            }
            let ghost s1 = *self;
            self.remove_subtree(c);
            proof {
                let s2 = *self;
                let ci = c as int;
                // the recursive call removed exactly the last child entry
                let i = choose|i: int|
                    0 <= i < s1.children_of(ei).len() && s1.children_of(ei)[i] == c
                        && s2.children_of(ei) == s1.children_of(ei).remove(i);
                assert(i == m - 1) by {
                    if i != m - 1 {
                        assert(s1.children_of(ei)[i] == s1.children_of(ei)[m - 1]);
                    }
                }
                assert(s2.children_of(ei) =~= oc.take(m - 1));
                assert(s2.children_of(ei).len() == m - 1);
                // ancestry against the original store agrees with ancestry at
                // the time of the recursive call, for entities then alive
                assert forall|y: int| 0 <= y < s1.n() && s1.alive(y) implies (
                #[trigger] s0.nodes@[y]).parent == s1.nodes@[y].parent && s0.alive(y) by {
                    if y != ei {
                        assert(s1.nodes@[y] == s0.nodes@[y]);
                    }
                }
                assert forall|x: int| 0 <= x < s0.n() implies ((#[trigger] s2.alive(x)) <==> (
                s0.alive(x) && !(exists|k: int|
                    m - 1 <= k < oc.len() && s0.weak_desc((#[trigger] oc[k]) as int, x)))) by {
                    if s1.alive(x) {
                        Store::lemma_ancestor_congruent(s0, s1, ci, x);
                        if s2.alive(x) {
                            assert(x != ci && !s0.is_ancestor(ci, x));
                            assert(!s0.weak_desc(oc[m - 1] as int, x));
                            assert(!(exists|k: int|
                                m - 1 <= k < oc.len() && s0.weak_desc((#[trigger] oc[k]) as int, x)))
                                by {
                                if exists|k: int|
                                    m - 1 <= k < oc.len() && s0.weak_desc(
                                        (#[trigger] oc[k]) as int,
                                        x,
                                    ) {
                                    let k = choose|k: int|
                                        m - 1 <= k < oc.len() && s0.weak_desc(
                                            (#[trigger] oc[k]) as int,
                                            x,
                                        );
                                    assert(k >= m);
                                }
                            }
                        } else {
                            assert(s0.weak_desc(oc[m - 1] as int, x));
                        }
                    } else {
                        assert(!s2.alive(x));
                        if s0.alive(x) {
                            let k = choose|k: int|
                                m <= k < oc.len() && s0.weak_desc((#[trigger] oc[k]) as int, x);
                            assert(m - 1 <= k < oc.len() && s0.weak_desc(oc[k] as int, x));
                        }
                    }
                }
                assert forall|x: int|
                    0 <= x < s0.n() && s2.alive(x) && x != ei implies (#[trigger] s2.nodes@[x])
                        == s0.nodes@[x] by {
                    assert(s1.alive(x));
                    assert(s1.parent_of(ci) == Some(e));
                    assert(s2.nodes@[x] == s1.nodes@[x]);
                }
            }
        }
        let ghost s_loop = *self;
        proof {
            // nothing of the subtree is left but the entity itself
            assert(s_loop.children_of(ei) =~= Seq::<usize>::empty());
            let p = s0.parent_of(ei)->Some_0;
            let pi = p as int;
            assert(s0.alive(pi) && pi < ei);
            assert(!s0.is_ancestor(ei, pi)) by {
                if s0.is_ancestor(ei, pi) {
                    s0.lemma_ancestor_lt(ei, pi);
                }
            }
            assert(s_loop.alive(pi)) by {
                if !s_loop.alive(pi) {
                    let k = choose|k: int|
                        0 <= k < oc.len() && s0.weak_desc((#[trigger] oc[k]) as int, pi);
                    s0.lemma_child_is_descendant(ei, k);
                    if oc[k] as int == pi {
                        s0.lemma_ancestor_lt(ei, pi);
                    } else {
                        s0.lemma_ancestor_trans(ei, oc[k] as int, pi);
                        s0.lemma_ancestor_lt(ei, pi);
                    }
                }
            }
            assert(s_loop.nodes@[pi] == s0.nodes@[pi]);
        }
        self.remove_entity(e);
        proof {
            let s = *self;
            let p = s0.parent_of(ei)->Some_0;
            let pi = p as int;
            assert forall|x: int|
                0 <= x < s0.n() implies ((#[trigger] s.alive(x)) <==> (s0.alive(x) && x != ei
                    && !s0.is_ancestor(ei, x))) by {
                if x == ei {
                    assert(!s.alive(x));
                } else {
                    assert(s.alive(x) == s_loop.alive(x)) by {
                        if x != pi {
                            assert(s.nodes@[x] == s_loop.nodes@[x]);
                        }
                    }
                    if s0.is_ancestor(ei, x) {
                        s0.lemma_desc_decompose(ei, x);
                        let k = choose|k: int|
                            0 <= k < oc.len() && ((#[trigger] oc[k]) as int == x
                                || s0.is_ancestor(oc[k] as int, x));
                        assert(s0.weak_desc(oc[k] as int, x));
                        assert(!s_loop.alive(x));
                    } else if s0.alive(x) {
                        assert(s_loop.alive(x)) by {
                            if !s_loop.alive(x) {
                                let k = choose|k: int|
                                    0 <= k < oc.len() && s0.weak_desc((#[trigger] oc[k]) as int, x);
                                s0.lemma_child_is_descendant(ei, k);
                                if oc[k] as int == x {
                                } else {
                                    s0.lemma_ancestor_trans(ei, oc[k] as int, x);
                                }
                            }
                        }
                    }
                }
            }
            assert forall|x: int|
                0 <= x < s0.n() && s.alive(x) && Some(x as usize) != s0.parent_of(ei) implies (
            #[trigger] s.nodes@[x]) == s0.nodes@[x] by {
                assert(x != ei && x != pi);
                assert(s.nodes@[x] == s_loop.nodes@[x]);
                assert(s_loop.alive(x));
            }
            assert(s.children_of(pi) == s_loop.children_of(pi).remove(choose|i: int|
                0 <= i < s_loop.children_of(pi).len() && s_loop.children_of(pi)[i] == e
                    && s.children_of(pi) == s_loop.children_of(pi).remove(i)));
        }
    }


    /// The value under a key, when present.
    pub open spec fn prop(&self, e: int, key: PropKey) -> Option<PropValueView> {
        if self.props_of(e).contains_key(key) {
            Some(self.props_of(e)[key])
        } else {
            None
        }
    }

    pub open spec fn vis_prop(&self, e: int) -> Option<Visibility> {
        match self.prop(e, PropKey::Visibility) {
            Some(PropValueView::Visibility(v)) => Some(v),
            _ => None,
        }
    }

    pub open spec fn constraint_prop(&self, e: int) -> Option<Constraint> {
        match self.prop(e, PropKey::Constraint) {
            Some(PropValueView::Constraint(v)) => Some(v),
            _ => None,
        }
    }

    pub open spec fn thickness_prop(&self, e: int, key: PropKey) -> Option<Thickness> {
        match self.prop(e, key) {
            Some(PropValueView::Thickness(v)) => Some(v),
            _ => None,
        }
    }

    pub open spec fn rect_prop(&self, e: int, key: PropKey) -> Option<Rectangle> {
        match self.prop(e, key) {
            Some(PropValueView::Rect(v)) => Some(v),
            _ => None,
        }
    }

    pub open spec fn point_prop(&self, e: int, key: PropKey) -> Option<Point> {
        match self.prop(e, key) {
            Some(PropValueView::Point(v)) => Some(v),
            _ => None,
        }
    }

    pub open spec fn alignment_prop(&self, e: int, key: PropKey) -> Option<Alignment> {
        match self.prop(e, key) {
            Some(PropValueView::Alignment(v)) => Some(v),
            _ => None,
        }
    }

    pub open spec fn text_prop(&self, e: int, key: PropKey) -> Option<Seq<u16>> {
        match self.prop(e, key) {
            Some(PropValueView::Text(v)) => Some(v),
            _ => None,
        }
    }

    pub open spec fn str_prop(&self, e: int, key: PropKey) -> Option<Seq<char>> {
        match self.prop(e, key) {
            Some(PropValueView::Str(v)) => Some(v),
            _ => None,
        }
    }

    pub open spec fn int_prop(&self, e: int, key: PropKey) -> Option<i64> {
        match self.prop(e, key) {
            Some(PropValueView::Int(v)) => Some(v),
            _ => None,
        }
    }

    pub open spec fn bool_prop(&self, e: int, key: PropKey) -> Option<bool> {
        match self.prop(e, key) {
            Some(PropValueView::Bool(v)) => Some(v),
            _ => None,
        }
    }

    pub open spec fn selection_prop(&self, e: int) -> Option<TextSelection> {
        match self.prop(e, PropKey::TextSelection) {
            Some(PropValueView::Selection(v)) => Some(v),
            _ => None,
        }
    }

    pub open spec fn entity_prop(&self, e: int, key: PropKey) -> Option<usize> {
        match self.prop(e, key) {
            Some(PropValueView::Entity(v)) => Some(v),
            _ => None,
        }
    }

    pub open spec fn entity_list_prop(&self, e: int, key: PropKey) -> Option<Seq<usize>> {
        match self.prop(e, key) {
            Some(PropValueView::EntityList(v)) => Some(v),
            _ => None,
        }
    }

    pub open spec fn selector_prop(&self, e: int) -> Option<SelectorView> {
        match self.prop(e, PropKey::StyleSelector) {
            Some(PropValueView::Selector(v)) => Some(v),
            _ => None,
        }
    }

    pub open spec fn keyboard_prop(&self, e: int) -> Option<KeyboardState> {
        match self.prop(e, PropKey::Keyboard) {
            Some(PropValueView::Keyboard(v)) => Some(v),
            _ => None,
        }
    }

    pub open spec fn tracks_prop(&self, e: int, key: PropKey) -> Option<Seq<Track>> {
        match self.prop(e, key) {
            Some(PropValueView::Tracks(v)) => Some(v),
            _ => None,
        }
    }

    /// Reads a visibility component; `None` on a missing or differently
    /// shaped value.
    pub fn get_visibility(&self, e: usize, key: PropKey) -> (r: Option<Visibility>)
        requires
            self.wf(),
            e < self.n(),
            key == PropKey::Visibility,
        ensures
            r == self.vis_prop(e as int),
    {
        match prop_get(&self.nodes[e].props, key) {
            Some(PropValue::Visibility(v)) => Some(*v),
            _ => None,
        }
    }

    pub fn get_constraint(&self, e: usize) -> (r: Option<Constraint>)
        requires
            self.wf(),
            e < self.n(),
        ensures
            r == self.constraint_prop(e as int),
    {
        match prop_get(&self.nodes[e].props, PropKey::Constraint) {
            Some(PropValue::Constraint(v)) => Some(*v),
            _ => None,
        }
    }

    pub fn get_thickness(&self, e: usize, key: PropKey) -> (r: Option<Thickness>)
        requires
            self.wf(),
            e < self.n(),
        ensures
            r == self.thickness_prop(e as int, key),
    {
        match prop_get(&self.nodes[e].props, key) {
            Some(PropValue::Thickness(v)) => Some(*v),
            _ => None,
        }
    }

    pub fn get_rect(&self, e: usize, key: PropKey) -> (r: Option<Rectangle>)
        requires
            self.wf(),
            e < self.n(),
        ensures
            r == self.rect_prop(e as int, key),
    {
        match prop_get(&self.nodes[e].props, key) {
            Some(PropValue::Rect(v)) => Some(*v),
            _ => None,
        }
    }

    pub fn get_point(&self, e: usize, key: PropKey) -> (r: Option<Point>)
        requires
            self.wf(),
            e < self.n(),
        ensures
            r == self.point_prop(e as int, key),
    {
        match prop_get(&self.nodes[e].props, key) {
            Some(PropValue::Point(v)) => Some(*v),
            _ => None,
        }
    }

    pub fn get_alignment(&self, e: usize, key: PropKey) -> (r: Option<Alignment>)
        requires
            self.wf(),
            e < self.n(),
        ensures
            r == self.alignment_prop(e as int, key),
    {
        match prop_get(&self.nodes[e].props, key) {
            Some(PropValue::Alignment(v)) => Some(*v),
            _ => None,
        }
    }

    pub fn get_text(&self, e: usize, key: PropKey) -> (r: Option<Text16>)
        requires
            self.wf(),
            e < self.n(),
        ensures
            match r {
                Some(t) => self.text_prop(e as int, key) == Some(t@),
                None => self.text_prop(e as int, key) is None,
            },
    {
        match prop_get(&self.nodes[e].props, key) {
            Some(PropValue::Text(v)) => Some(v.clone()),
            _ => None,
        }
    }

    pub fn get_str(&self, e: usize, key: PropKey) -> (r: Option<String>)
        requires
            self.wf(),
            e < self.n(),
        ensures
            match r {
                Some(t) => self.str_prop(e as int, key) == Some(t@),
                None => self.str_prop(e as int, key) is None,
            },
    {
        match prop_get(&self.nodes[e].props, key) {
            Some(PropValue::Str(v)) => Some(v.clone()),
            _ => None,
        }
    }

    pub fn get_int(&self, e: usize, key: PropKey) -> (r: Option<i64>)
        requires
            self.wf(),
            e < self.n(),
        ensures
            r == self.int_prop(e as int, key),
    {
        match prop_get(&self.nodes[e].props, key) {
            Some(PropValue::Int(v)) => Some(*v),
            _ => None,
        }
    }

    pub fn get_bool(&self, e: usize, key: PropKey) -> (r: Option<bool>)
        requires
            self.wf(),
            e < self.n(),
        ensures
            r == self.bool_prop(e as int, key),
    {
        match prop_get(&self.nodes[e].props, key) {
            Some(PropValue::Bool(v)) => Some(*v),
            _ => None,
        }
    }

    pub fn get_selection(&self, e: usize) -> (r: Option<TextSelection>)
        requires
            self.wf(),
            e < self.n(),
        ensures
            r == self.selection_prop(e as int),
    {
        match prop_get(&self.nodes[e].props, PropKey::TextSelection) {
            Some(PropValue::Selection(v)) => Some(*v),
            _ => None,
        }
    }

    pub fn get_entity(&self, e: usize, key: PropKey) -> (r: Option<usize>)
        requires
            self.wf(),
            e < self.n(),
        ensures
            r == self.entity_prop(e as int, key),
    {
        match prop_get(&self.nodes[e].props, key) {
            Some(PropValue::Entity(v)) => Some(*v),
            _ => None,
        }
    }

    pub fn get_keyboard(&self, e: usize) -> (r: Option<KeyboardState>)
        requires
            self.wf(),
            e < self.n(),
        ensures
            r == self.keyboard_prop(e as int),
    {
        match prop_get(&self.nodes[e].props, PropKey::Keyboard) {
            Some(PropValue::Keyboard(v)) => Some(*v),
            _ => None,
        }
    }

    pub fn get_selector(&self, e: usize) -> (r: Option<Selector>)
        requires
            self.wf(),
            e < self.n(),
        ensures
            match r {
                Some(s) => self.selector_prop(e as int) == Some(s@),
                None => self.selector_prop(e as int) is None,
            },
    {
        match prop_get(&self.nodes[e].props, PropKey::StyleSelector) {
            Some(PropValue::Selector(v)) => Some(v.clone()),
            _ => None,
        }
    }

    pub fn get_tracks(&self, e: usize, key: PropKey) -> (r: Option<Vec<Track>>)
        requires
            self.wf(),
            e < self.n(),
        ensures
            match r {
                Some(t) => self.tracks_prop(e as int, key) == Some(t@),
                None => self.tracks_prop(e as int, key) is None,
            },
    {
        match prop_get(&self.nodes[e].props, key) {
            Some(PropValue::Tracks(v)) => Some(v.clone()),
            _ => None,
        }
    }

    pub fn get_entity_list(&self, e: usize, key: PropKey) -> (r: Option<Vec<usize>>)
        requires
            self.wf(),
            e < self.n(),
        ensures
            match r {
                Some(t) => self.entity_list_prop(e as int, key) == Some(t@),
                None => self.entity_list_prop(e as int, key) is None,
            },
    {
        match prop_get(&self.nodes[e].props, key) {
            Some(PropValue::EntityList(v)) => Some(v.clone()),
            _ => None,
        }
    }

    /// The handler registrations of an entity, copied out.
    pub fn handlers(&self, e: usize) -> (r: Vec<HandlerDecl>)
        requires
            e < self.n(),
        ensures
            r@ == self.handlers_of(e as int),
    {
        let mut r: Vec<HandlerDecl> = Vec::new();
        let mut i: usize = 0;
        let node = &self.nodes[e];
        while i < node.handlers.len()
            invariant
                0 <= i <= node.handlers@.len(),
                r@ =~= node.handlers@.subrange(0, i as int),
            decreases node.handlers@.len() - i,
        {
            r.push(node.handlers[i]);
            proof {
                assert(r@ =~= node.handlers@.subrange(0, i as int + 1));
            }
            i += 1;
        }
        proof {
            assert(node.handlers@.subrange(0, node.handlers@.len() as int) =~= node.handlers@);
        }
        r
    }
}

} // verus!

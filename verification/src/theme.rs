//! The theme cascade: named styles with single-base inheritance,
//! state-dependent property overrides, and `$`-prefixed resource indirection.

use vstd::prelude::*;

use crate::assoc::{assoc_get, assoc_insert, assoc_view, distinct_keys};

verus! {

/// A property value of the theme's data model, as the theme document carries
/// it: a string, an integer, or a flag.
#[derive(Debug)]
pub enum Value {
    Str(String),
    Num(i64),
    Bool(bool),
}

/// The mathematical shape of a `Value`.
pub enum ValueView {
    Str(Seq<char>),
    Num(int),
    Bool(bool),
}

impl View for Value {
    type V = ValueView;

    open spec fn view(&self) -> ValueView {
        match self {
            Value::Str(s) => ValueView::Str(s@),
            Value::Num(n) => ValueView::Num(*n as int),
            Value::Bool(b) => ValueView::Bool(*b),
        }
    }
}

impl Clone for Value {
    fn clone(&self) -> (r: Value)
        ensures
            r@ == self@,
    {
        match self {
            Value::Str(s) => Value::Str(s.clone()),
            Value::Num(n) => Value::Num(*n),
            Value::Bool(b) => Value::Bool(*b),
        }
    }
}

/// The view of an optional value result.
pub open spec fn option_value_view(r: Option<Value>) -> Option<ValueView> {
    match r {
        Some(v) => Some(v@),
        None => None,
    }
}

/// The selector picks the style and the pseudo-state under which properties
/// are read; the dirty flag asks for the properties to be re-applied.
#[derive(Debug)]
pub struct Selector {
    /// The key of a style.
    pub style: Option<String>,
    /// References the state property list of the given style.
    pub state: Option<String>,
    pub dirty: bool,
}

/// The mathematical shape of a `Selector`.
pub struct SelectorView {
    pub style: Option<Seq<char>>,
    pub state: Option<Seq<char>>,
    pub dirty: bool,
}

impl View for Selector {
    type V = SelectorView;

    open spec fn view(&self) -> SelectorView {
        SelectorView {
            style: match &self.style {
                Some(s) => Some(s@),
                None => None,
            },
            state: match &self.state {
                Some(s) => Some(s@),
                None => None,
            },
            dirty: self.dirty,
        }
    }
}

impl Clone for Selector {
    fn clone(&self) -> (r: Selector)
        ensures
            r@ == self@,
    {
        Selector {
            style: match &self.style {
                Some(s) => Some(s.clone()),
                None => None,
            },
            state: match &self.state {
                Some(s) => Some(s.clone()),
                None => None,
            },
            dirty: self.dirty,
        }
    }
}

impl Selector {
    /// A fresh selector for the given style: no state, marked dirty.
    pub fn new(style: String) -> (r: Selector)
        ensures
            r@.style == Some(style@),
            r@.state is None,
            r@.dirty,
    {
        Selector { style: Some(style), state: None, dirty: true }
    }

    /// Puts the selector into the given pseudo-state.
    pub fn set_state(&mut self, state: String)
        ensures
            final(self)@.state == Some(state@),
            final(self)@.style == old(self)@.style,
            final(self)@.dirty == old(self)@.dirty,
    {
        self.state = Some(state);
    }

    /// Drops any pseudo-state.
    pub fn clear_state(&mut self)
        ensures
            final(self)@.state is None,
            final(self)@.style == old(self)@.style,
            final(self)@.dirty == old(self)@.dirty,
    {
        self.state = None;
    }

    /// Whether the selector is in the given pseudo-state.
    pub fn has_state(&self, state: &String) -> (r: bool)
        ensures
            r == (self@.state == Some(state@)),
    {
        match &self.state {
            Some(s) => *s == *state,
            None => false,
        }
    }

    pub fn set_dirty(&mut self, dirty: bool)
        ensures
            final(self)@.state == old(self)@.state,
            final(self)@.style == old(self)@.style,
            final(self)@.dirty == dirty,
    {
        self.dirty = dirty;
    }
}

/// Adds or removes a pseudo-state on a selector, following a flag: raising
/// the flag sets the state (when it is not already set to that name);
/// dropping the flag clears the state (only when it is that name). Either
/// change marks the selector dirty.
pub fn update_state(state: &String, flag: bool, selector: &mut Selector)
    ensures
        final(selector)@.style == old(selector)@.style,
        flag && old(selector)@.state != Some(state@) ==> final(selector)@.state == Some(state@)
            && final(selector)@.dirty,
        flag && old(selector)@.state == Some(state@) ==> final(selector)@ == old(selector)@,
        !flag && old(selector)@.state == Some(state@) ==> final(selector)@.state is None
            && final(selector)@.dirty,
        !flag && old(selector)@.state != Some(state@) ==> final(selector)@ == old(selector)@,
{
    let same = selector.has_state(state);
    if flag && !same {
        selector.set_state(state.clone());
        selector.set_dirty(true);
    } else if !flag && same {
        selector.clear_state();
        selector.set_dirty(true);
    }
}

/// A style: an optional base style it inherits from (the empty string means
/// none), its own properties, and per-state property overrides.
#[derive(Debug)]
pub struct Style {
    pub base: String,
    pub states: Vec<(String, Vec<(String, Value)>)>,
    pub properties: Vec<(String, Value)>,
}

/// The mathematical shape of a `Style`. State property lists are kept as
/// entry sequences; `assoc_view` turns one into a map where needed.
pub struct StyleView {
    pub base: Seq<char>,
    pub states: Map<Seq<char>, Seq<(String, Value)>>,
    pub properties: Map<Seq<char>, ValueView>,
}

impl View for Style {
    type V = StyleView;

    open spec fn view(&self) -> StyleView {
        StyleView {
            base: self.base@,
            states: assoc_view(self.states@),
            properties: assoc_view(self.properties@),
        }
    }
}

impl Style {
    pub open spec fn wf(&self) -> bool {
        &&& distinct_keys(self.properties@)
        &&& distinct_keys(self.states@)
        &&& forall|i: int|
            0 <= i < self.states@.len() ==> distinct_keys(#[trigger] self.states@[i].1@)
    }

    /// A style with the given base (empty string: no base) and nothing else.
    pub fn new(base: String) -> (r: Style)
        ensures
            r@.base == base@,
            r@.states == Map::<Seq<char>, Seq<(String, Value)>>::empty(),
            r@.properties == Map::<Seq<char>, ValueView>::empty(),
            r.wf(),
    {
        Style { base, states: Vec::new(), properties: Vec::new() }
    }

    /// Binds one of the style's own properties.
    pub fn set_property(&mut self, key: String, value: Value)
        requires
            old(self).wf(),
        ensures
            final(self).wf(),
            final(self)@.base == old(self)@.base,
            final(self)@.states == old(self)@.states,
            final(self)@.properties == old(self)@.properties.insert(key@, value@),
    {
        assoc_insert(&mut self.properties, key, value);
    }

    /// Binds a property override under the given state.
    pub fn set_state_property(&mut self, state: String, key: String, value: Value)
        requires
            old(self).wf(),
        ensures
            final(self).wf(),
            final(self)@.base == old(self)@.base,
            final(self)@.properties == old(self)@.properties,
            final(self)@.states.contains_key(state@),
            distinct_keys(final(self)@.states[state@]),
            assoc_view(final(self)@.states[state@]) == (if old(self)@.states.contains_key(state@) {
                assoc_view(old(self)@.states[state@])
            } else {
                Map::<Seq<char>, ValueView>::empty()
            }).insert(key@, value@),
            forall|s: Seq<char>|
                s != state@ ==> (final(self)@.states.contains_key(s) == old(
                    self,
                )@.states.contains_key(s) && (old(self)@.states.contains_key(s)
                    ==> final(self)@.states[s] == old(self)@.states[s])),
    {
        let ghost old_self = *self;
        let mut list: Vec<(String, Value)> = match assoc_get(&self.states, &state) {
            Some(l) => {
                proof {
                    crate::assoc::lemma_assoc_view_surjective(self.states@, state@);
                }
                clone_prop_list(l)
            },
            None => Vec::new(),
        };
        assoc_insert(&mut list, key, value);
        let ghost gstate = state;
        let ghost glist = list;
        assoc_insert(&mut self.states, state, list);
        proof {
            assert forall|i: int| 0 <= i < self.states@.len() implies distinct_keys(
                #[trigger] self.states@[i].1@,
            ) by {
                assert(self.states@[i] == (gstate, glist) || exists|j: int|
                    0 <= j < old_self.states@.len() && self.states@[i] == old_self.states@[j]);
                if self.states@[i] == (gstate, glist) {
                    assert(distinct_keys(glist@));
                } else {
                    let j = choose|j: int|
                        0 <= j < old_self.states@.len() && self.states@[i] == old_self.states@[j];
                    assert(distinct_keys(old_self.states@[j].1@));
                }
            }
        }
    }
}

/// Clones a property list, keeping its view.
fn clone_prop_list(list: &Vec<(String, Value)>) -> (r: Vec<(String, Value)>)
    ensures
        r@.len() == list@.len(),
        forall|i: int|
            0 <= i < list@.len() ==> (#[trigger] r@[i]).0@ == list@[i].0@ && r@[i].1@
                == list@[i].1@,
        distinct_keys(list@) ==> distinct_keys(r@),
        distinct_keys(list@) ==> assoc_view(r@) == assoc_view(list@),
{
    let mut r: Vec<(String, Value)> = Vec::new();
    let mut i: usize = 0;
    while i < list.len()
        invariant
            0 <= i <= list@.len(),
            r@.len() == i,
            forall|j: int|
                0 <= j < i ==> (#[trigger] r@[j]).0@ == list@[j].0@ && r@[j].1@ == list@[j].1@,
        decreases list@.len() - i,
    {
        r.push((list[i].0.clone(), list[i].1.clone()));
        i += 1;
    }
    proof {
        if distinct_keys(list@) {
            lemma_assoc_view_congruent(r@, list@);
        }
    }
    r
}

/// Two entry lists whose keys and value views agree pointwise denote the same
/// map.
proof fn lemma_assoc_view_congruent<T: View>(a: Seq<(String, T)>, b: Seq<(String, T)>)
    requires
        a.len() == b.len(),
        forall|i: int|
            0 <= i < a.len() ==> (#[trigger] a[i]).0@ == b[i].0@ && a[i].1@ == b[i].1@,
    ensures
        assoc_view(a) == assoc_view(b),
    decreases a.len(),
{
    if a.len() > 0 {
        lemma_assoc_view_congruent(a.drop_last(), b.drop_last());
        assert(assoc_view(a) =~= assoc_view(b));
    }
}

/// Stores styles and resources; properties are requested by name through a
/// selector.
#[derive(Debug)]
pub struct Theme {
    pub styles: Vec<(String, Style)>,
    pub resources: Vec<(String, Value)>,
}

/// The mathematical shape of a `Theme`.
pub struct ThemeView {
    pub styles: Map<Seq<char>, StyleView>,
    pub resources: Map<Seq<char>, ValueView>,
}

impl View for Theme {
    type V = ThemeView;

    open spec fn view(&self) -> ThemeView {
        ThemeView { styles: assoc_view(self.styles@), resources: assoc_view(self.resources@) }
    }
}

impl Theme {
    pub open spec fn wf(&self) -> bool {
        &&& distinct_keys(self.styles@)
        &&& distinct_keys(self.resources@)
        &&& forall|i: int| 0 <= i < self.styles@.len() ==> (#[trigger] self.styles@[i]).1.wf()
        &&& self.styles@.len() < usize::MAX
    }

    /// The empty theme.
    pub fn new() -> (r: Theme)
        ensures
            r@.styles == Map::<Seq<char>, StyleView>::empty(),
            r@.resources == Map::<Seq<char>, ValueView>::empty(),
            r.wf(),
    {
        Theme { styles: Vec::new(), resources: Vec::new() }
    }

    /// Binds a style under a name.
    pub fn insert_style(&mut self, key: String, style: Style)
        requires
            old(self).wf(),
            style.wf(),
            old(self).styles@.len() + 1 < usize::MAX,
        ensures
            final(self).wf(),
            final(self)@.styles == old(self)@.styles.insert(key@, style@),
            final(self).styles@.len() <= old(self).styles@.len() + 1,
            final(self).resources == old(self).resources,
    {
        let ghost old_self = *self;
        let ghost gkey = key;
        let ghost gstyle = style;
        assoc_insert(&mut self.styles, key, style);
        proof {
            assert forall|i: int| 0 <= i < self.styles@.len() implies (
            #[trigger] self.styles@[i]).1.wf() by {
                assert(self.styles@[i] == (gkey, gstyle) || exists|j: int|
                    0 <= j < old_self.styles@.len() && self.styles@[i] == old_self.styles@[j]);
                if self.styles@[i] == (gkey, gstyle) {
                    assert(gstyle.wf());
                } else {
                    let j = choose|j: int|
                        0 <= j < old_self.styles@.len() && self.styles@[i] == old_self.styles@[j];
                    assert(old_self.styles@[j].1.wf());
                }
            }
        }
    }

    /// Binds a resource under a name.
    pub fn insert_resource(&mut self, key: String, value: Value)
        requires
            old(self).wf(),
        ensures
            final(self).wf(),
            final(self)@.resources == old(self)@.resources.insert(key@, value@),
            final(self).styles == old(self).styles,
    {
        assoc_insert(&mut self.resources, key, value);
    }
}

/// Whether a value is a resource reference: a string starting with the
/// reserved sigil `$`.
pub open spec fn is_resource_ref(v: ValueView) -> bool {
    match v {
        ValueView::Str(s) => s.len() > 0 && s[0] == '$',
        _ => false,
    }
}

/// The resource name a reference points at: the string after the sigil.
pub open spec fn resource_key(v: ValueView) -> Seq<char> {
    match v {
        ValueView::Str(s) => s.subrange(1, s.len() as int),
        _ => Seq::empty(),
    }
}

/// What looking `key` up in one property map yields: the bound value, unless
/// it is a resource reference, which is redirected through the theme's
/// resources — a missing resource yields no value, not the literal.
pub open spec fn spec_lookup_value(
    tv: ThemeView,
    props: Map<Seq<char>, ValueView>,
    key: Seq<char>,
) -> Option<ValueView> {
    if !props.contains_key(key) {
        None
    } else {
        let v = props[key];
        if is_resource_ref(v) {
            if tv.resources.contains_key(resource_key(v)) {
                Some(tv.resources[resource_key(v)])
            } else {
                None
            }
        } else {
            Some(v)
        }
    }
}

/// What looking `key` up among a style's state overrides yields: the style's
/// own list for the state, or — when the style lacks the state and names a
/// base — the base's list for it.
pub open spec fn spec_state_hit(
    tv: ThemeView,
    key: Seq<char>,
    style: StyleView,
    st: Seq<char>,
) -> Option<ValueView> {
    if style.states.contains_key(st) {
        spec_lookup_value(tv, assoc_view(style.states[st]), key)
    } else if style.base.len() > 0 && tv.styles.contains_key(style.base)
        && tv.styles[style.base].states.contains_key(st) {
        spec_lookup_value(tv, assoc_view(tv.styles[style.base].states[st]), key)
    } else {
        None
    }
}

/// What resolving `key` on one style yields. State-specific properties take
/// precedence: a value found among the state overrides (the style's own, or
/// its base's where the style lacks the state) wins. A key the overrides do
/// not bind falls back to the non-state cascade: the style's own properties,
/// then the base chain, link by link. `fuel` bounds the chain walk; a theme
/// built from sound configuration never exhausts it.
pub open spec fn spec_get_property(
    tv: ThemeView,
    key: Seq<char>,
    style: StyleView,
    state: Option<Seq<char>>,
    fuel: nat,
) -> Option<ValueView>
    decreases fuel, 1int,
{
    match state {
        Some(st) => {
            let hit = spec_state_hit(tv, key, style, st);
            if hit is Some {
                hit
            } else {
                spec_get_property_plain(tv, key, style, state, fuel)
            }
        },
        None => spec_get_property_plain(tv, key, style, state, fuel),
    }
}

/// The non-state part of `spec_get_property`: own properties, then the base
/// chain.
pub open spec fn spec_get_property_plain(
    tv: ThemeView,
    key: Seq<char>,
    style: StyleView,
    state: Option<Seq<char>>,
    fuel: nat,
) -> Option<ValueView>
    decreases fuel, 0int,
{
    let own = spec_lookup_value(tv, style.properties, key);
    if own is Some {
        own
    } else if style.base.len() == 0 {
        None
    } else if tv.styles.contains_key(style.base) {
        if fuel == 0 {
            None
        } else {
            spec_get_property(tv, key, tv.styles[style.base], state, (fuel - 1) as nat)
        }
    } else {
        None
    }
}

/// Fuel that lets a chain walk visit every style once.
pub open spec fn theme_fuel(tv: ThemeView) -> nat {
    tv.styles.dom().len() + 1
}

/// What `Theme::property` returns: resolution under the selector's style, or
/// under the style named `base` when the selector's style is absent.
pub open spec fn spec_property(tv: ThemeView, key: Seq<char>, selector: SelectorView) -> Option<
    ValueView,
> {
    match selector.style {
        Some(s) => {
            if tv.styles.contains_key(s) {
                spec_get_property(tv, key, tv.styles[s], selector.state, theme_fuel(tv))
            } else {
                spec_property_fallback(tv, key, selector)
            }
        },
        None => spec_property_fallback(tv, key, selector),
    }
}

/// Resolution through the style named `base`, used when the selector names no
/// style the theme has.
pub open spec fn spec_property_fallback(
    tv: ThemeView,
    key: Seq<char>,
    selector: SelectorView,
) -> Option<ValueView> {
    if tv.styles.contains_key("base"@) {
        spec_get_property(tv, key, tv.styles["base"@], selector.state, theme_fuel(tv))
    } else {
        None
    }
}

/// Whether the given string is empty.
fn str_empty(s: &String) -> (r: bool)
    ensures
        r == (s@.len() == 0),
{
    let st: &str = s;
    st.is_empty()
}

impl Theme {
    /// Looks a property up in one property list, following a `$` resource
    /// reference through the resources table.
    fn get_property_value(&self, property: &String, properties: &Vec<(String, Value)>) -> (r:
        Option<Value>)
        requires
            self.wf(),
            distinct_keys(properties@),
        ensures
            option_value_view(r) == spec_lookup_value(self@, assoc_view(properties@), property@),
    {
        match assoc_get(properties, property) {
            None => None,
            Some(v) => match v {
                Value::Str(s) => {
                    let st: &str = s;
                    let n = st.unicode_len();
                    if n > 0 && st.get_char(0) == '$' {
                        let rkey: String = st.substring_char(1, n).to_owned();
                        match assoc_get(&self.resources, &rkey) {
                            Some(res) => Some(res.clone()),
                            None => None,
                        }
                    } else {
                        Some(Value::Str(s.clone()))
                    }
                },
                _ => Some(v.clone()),
            },
        }
    }

    /// Resolves a property on a style: a state override wins (the style's
    /// own, or its base's where the style lacks the state); a key the
    /// overrides do not bind falls back to the style's own properties and
    /// then the base chain.
    fn get_property(&self, property: &String, style: &Style, selector: &Selector, fuel: usize) -> (r:
        Option<Value>)
        requires
            self.wf(),
            style.wf(),
        ensures
            option_value_view(r) == spec_get_property(
                self@,
                property@,
                style@,
                selector@.state,
                fuel as nat,
            ),
        decreases fuel,
    {
        if let Some(state) = &selector.state {
            let hit: Option<Value> = if let Some(props) = assoc_get(&style.states, state) {
                proof {
                    crate::assoc::lemma_assoc_view_surjective(style.states@, state@);
                }
                self.get_property_value(property, props)
            } else if !str_empty(&style.base) {
                match assoc_get(&self.styles, &style.base) {
                    Some(base_style) => {
                        proof {
                            crate::assoc::lemma_assoc_view_surjective(self.styles@, style.base@);
                        }
                        match assoc_get(&base_style.states, state) {
                            Some(base_props) => {
                                proof {
                                    crate::assoc::lemma_assoc_view_surjective(
                                        base_style.states@,
                                        state@,
                                    );
                                }
                                self.get_property_value(property, base_props)
                            },
                            None => None,
                        }
                    },
                    None => None,
                }
            } else {
                None
            };
            if hit.is_some() {
                return hit;
            }
        }
        let value = self.get_property_value(property, &style.properties);
        if value.is_some() {
            return value;
        }
        if str_empty(&style.base) {
            return None;
        }
        if let Some(base_style) = assoc_get(&self.styles, &style.base) {
            proof {
                crate::assoc::lemma_assoc_view_surjective(self.styles@, style.base@);
            }
            if fuel == 0 {
                return None;
            }
            return self.get_property(property, base_style, selector, fuel - 1);
        }
        None
    }

    /// Gets a property by name under a selector: through the selector's
    /// style when the theme has it, else through the style named `base`.
    pub fn property(&self, property: &String, selector: &Selector) -> (r: Option<Value>)
        requires
            self.wf(),
        ensures
            option_value_view(r) == spec_property(self@, property@, selector@),
    {
        proof {
            crate::assoc::lemma_assoc_view_len(self.styles@);
        }
        let fuel: usize = self.styles.len() + 1;
        if let Some(style_key) = &selector.style {
            if let Some(style) = assoc_get(&self.styles, style_key) {
                proof {
                    crate::assoc::lemma_assoc_view_surjective(self.styles@, style_key@);
                }
                return self.get_property(property, style, selector, fuel);
            }
        }
        let base_key: String = "base".to_owned();
        if let Some(base_style) = assoc_get(&self.styles, &base_key) {
            proof {
                crate::assoc::lemma_assoc_view_surjective(self.styles@, "base"@);
            }
            return self.get_property(property, base_style, selector, fuel);
        }
        None
    }

    /// Extends this theme with another: every style and resource of `other`
    /// is taken over, replacing one of the same name.
    pub fn extend(self, other: Theme) -> (r: Theme)
        requires
            self.wf(),
            other.wf(),
            self.styles@.len() + other.styles@.len() + 1 < usize::MAX,
        ensures
            r.wf(),
            r@.styles == self@.styles.union_prefer_right(other@.styles),
            r@.resources == self@.resources.union_prefer_right(other@.resources),
    {
        let ghost orig_self = self;
        let ghost orig_other = other;
        let mut self_ = self;
        let mut other = other;
        let mut i: usize = 0;
        let n = other.styles.len();
        while i < n
            invariant
                0 <= i <= n,
                n == orig_other.styles@.len(),
                other.styles@ == orig_other.styles@.skip(i as int),
                other.resources@ == orig_other.resources@,
                orig_self.styles@.len() + orig_other.styles@.len() + 1 < usize::MAX,
                self_.wf(),
                forall|j: int|
                    0 <= j < other.styles@.len() ==> (#[trigger] other.styles@[j]).1.wf(),
                distinct_keys(other.styles@),
                self_.resources@ == orig_self.resources@,
                self_.styles@.len() <= orig_self.styles@.len() + i,
                assoc_view(self_.styles@) == assoc_view(orig_self.styles@).union_prefer_right(
                    assoc_view(orig_other.styles@.take(i as int)),
                ),
            decreases n - i,
        {
            proof {
                assert(orig_other.styles@.skip(i as int).len() > 0);
            }
            let (key, style) = other.styles.remove(0);
            proof {
                assert(orig_other.styles@.skip(i as int)[0] == orig_other.styles@[i as int]);
                assert(other.styles@ =~= orig_other.styles@.skip(i as int + 1));
            }
            let ghost pre_insert = self;
            self_.insert_style(key, style);
            proof {
                let taken = orig_other.styles@.take(i as int + 1);
                assert(taken.drop_last() =~= orig_other.styles@.take(i as int));
                assert(taken.last() == orig_other.styles@[i as int]);
                assert(assoc_view(taken) == assoc_view(orig_other.styles@.take(i as int)).insert(
                    orig_other.styles@[i as int].0@,
                    orig_other.styles@[i as int].1@,
                ));
                assert(assoc_view(self_.styles@) =~= assoc_view(
                    orig_self.styles@,
                ).union_prefer_right(assoc_view(taken)));
            }
            i += 1;
        }
        proof {
            assert(orig_other.styles@.take(n as int) =~= orig_other.styles@);
        }
        let mut k: usize = 0;
        let m = other.resources.len();
        while k < m
            invariant
                0 <= k <= m,
                m == orig_other.resources@.len(),
                other.resources@ == orig_other.resources@.skip(k as int),
                self_.wf(),
                distinct_keys(other.resources@),
                assoc_view(self_.styles@) == assoc_view(orig_self.styles@).union_prefer_right(
                    assoc_view(orig_other.styles@),
                ),
                assoc_view(self_.resources@) == assoc_view(orig_self.resources@).union_prefer_right(
                    assoc_view(orig_other.resources@.take(k as int)),
                ),
            decreases m - k,
        {
            proof {
                assert(orig_other.resources@.skip(k as int).len() > 0);
            }
            let (key, value) = other.resources.remove(0);
            proof {
                assert(orig_other.resources@.skip(k as int)[0] == orig_other.resources@[k as int]);
                assert(other.resources@ =~= orig_other.resources@.skip(k as int + 1));
            }
            self_.insert_resource(key, value);
            proof {
                let taken = orig_other.resources@.take(k as int + 1);
                assert(taken.drop_last() =~= orig_other.resources@.take(k as int));
                assert(taken.last() == orig_other.resources@[k as int]);
                assert(assoc_view(self_.resources@) =~= assoc_view(
                    orig_self.resources@,
                ).union_prefer_right(assoc_view(taken)));
            }
            k += 1;
        }
        proof {
            assert(orig_other.resources@.take(m as int) =~= orig_other.resources@);
        }
        self_
    }
}

/// Theme resolution is a pure function of the theme, the property name and
/// the selector, taken by their mathematical values: resolving twice with
/// unchanged inputs gives identical results.
pub proof fn lemma_resolution_deterministic(
    t1: Theme,
    t2: Theme,
    p1: String,
    p2: String,
    s1: Selector,
    s2: Selector,
)
    requires
        t1@ == t2@,
        p1@ == p2@,
        s1@ == s2@,
    ensures
        spec_property(t1@, p1@, s1@) == spec_property(t2@, p2@, s2@),
{
}

/// Base-style inheritance, without a pseudo-state: a property the style
/// itself resolves is read from the style (an override wins); one the style
/// does not resolve but its base does is visible through the style.
pub proof fn lemma_base_style_inheritance(t: Theme, a: Seq<char>, key: Seq<char>, sel: SelectorView)
    requires
        sel.style == Some(a),
        sel.state is None,
        t@.styles.contains_key(a),
        t@.styles[a].base.len() > 0,
        t@.styles.contains_key(t@.styles[a].base),
    ensures
        spec_lookup_value(t@, t@.styles[a].properties, key) is Some ==> spec_property(t@, key, sel)
            == spec_lookup_value(t@, t@.styles[a].properties, key),
        (spec_lookup_value(t@, t@.styles[a].properties, key) is None && spec_lookup_value(
            t@,
            t@.styles[t@.styles[a].base].properties,
            key,
        ) is Some) ==> spec_property(t@, key, sel) == spec_lookup_value(
            t@,
            t@.styles[t@.styles[a].base].properties,
            key,
        ),
{
    reveal_with_fuel(spec_get_property, 3);
    reveal_with_fuel(spec_get_property_plain, 3);
    let tv = t@;
    let fuel = theme_fuel(tv);
    assert(fuel >= 1);
    assert(spec_property(tv, key, sel) == spec_get_property(tv, key, tv.styles[a], None, fuel));
}

/// Resource indirection: a property whose value is a string carrying the
/// `$` sigil resolves to the named resource, and to no value when the
/// resource is missing — never to the literal string.
pub proof fn lemma_resource_indirection(
    t: Theme,
    a: Seq<char>,
    key: Seq<char>,
    sel: SelectorView,
    s: Seq<char>,
)
    requires
        sel.style == Some(a),
        sel.state is None,
        t@.styles.contains_key(a),
        t@.styles[a].base.len() == 0,
        t@.styles[a].properties.contains_key(key),
        t@.styles[a].properties[key] == ValueView::Str(s),
        s.len() > 0,
        s[0] == '$',
    ensures
        t@.resources.contains_key(s.subrange(1, s.len() as int)) ==> spec_property(t@, key, sel)
            == Some(t@.resources[s.subrange(1, s.len() as int)]),
        !t@.resources.contains_key(s.subrange(1, s.len() as int)) ==> spec_property(
            t@,
            key,
            sel,
        ) is None,
{
    reveal_with_fuel(spec_get_property, 2);
    reveal_with_fuel(spec_get_property_plain, 2);
}

} // verus!

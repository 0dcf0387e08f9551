//! The remembered state of the debug menu: which debug windows are open, and a
//! generation counter that tells when the state needs saving.
use vstd::prelude::*;
use std::hash::{Hash, Hasher};
use indexmap::IndexMap;

verus! {

/// The id of a debug window, a hash of its name.
#[derive(Clone, Copy, PartialEq, Eq, Structural, Debug)]
pub struct DebugMenuId(pub u64);

/// The remembered state of one debug window.
pub struct DebugMenuItemState {
    pub name: String,
    pub is_active: bool,
}

/// The map from window id to window state, an `indexmap::IndexMap`.
#[verifier::external_type_specification]
#[verifier::external_body]
#[verifier::reject_recursive_types(K)]
#[verifier::reject_recursive_types(V)]
#[verifier::reject_recursive_types(S)]
pub struct ExIndexMap<K, V, S>(IndexMap<K, V, S>);

/// The entries of a window-state map in insertion order: id, name and whether the window
/// is open.
pub uninterp spec fn debug_states(m: IndexMap<u64, DebugMenuItemState>) -> Seq<(u64, Seq<char>, bool)>;

/// Whether some entry has the id `id`.
pub open spec fn has_id(items: Seq<(u64, Seq<char>, bool)>, id: u64) -> bool {
    exists|k: int| 0 <= k < items.len() && (#[trigger] items[k]).0 == id
}

/// No two entries share an id.
pub open spec fn unique_ids(items: Seq<(u64, Seq<char>, bool)>) -> bool {
    forall|a: int, b: int| 0 <= a < items.len() && 0 <= b < items.len() && a != b ==> (#[trigger] items[a]).0 != (#[trigger] items[b]).0
}

/// The entries with the open flag of id `id` set to `active`.
pub open spec fn with_flag(items: Seq<(u64, Seq<char>, bool)>, id: u64, active: bool) -> Seq<(u64, Seq<char>, bool)> {
    Seq::new(items.len(), |k: int| if items[k].0 == id { (items[k].0, items[k].1, active) } else { items[k] })
}

/// The entries with the entry of id `id` replaced by the window `name` with flag `active`.
pub open spec fn with_entry(items: Seq<(u64, Seq<char>, bool)>, id: u64, name: Seq<char>, active: bool) -> Seq<(u64, Seq<char>, bool)> {
    Seq::new(items.len(), |k: int| if items[k].0 == id { (id, name, active) } else { items[k] })
}

/// The open flag of the window `id`, if it is known.
pub open spec fn flag_of(items: Seq<(u64, Seq<char>, bool)>, id: u64) -> Option<bool> {
    if has_id(items, id) {
        Some(items[choose|k: int| 0 <= k < items.len() && (#[trigger] items[k]).0 == id].2)
    } else {
        None
    }
}

/// `IndexMap::new`: an empty map.
#[verifier::external_body]
fn states_new() -> (m: IndexMap<u64, DebugMenuItemState>)
    ensures
        debug_states(m) == Seq::<(u64, Seq<char>, bool)>::empty(),
{
    IndexMap::new()
}

/// `IndexMap::len`: the number of entries.
#[verifier::external_body]
fn states_len(m: &IndexMap<u64, DebugMenuItemState>) -> (r: usize)
    ensures
        r == debug_states(*m).len(),
{
    m.len()
}

/// `IndexMap::get`: the open flag stored under `id`, or `None` when `id` has no entry.
#[verifier::external_body]
fn states_get_flag(m: &IndexMap<u64, DebugMenuItemState>, id: u64) -> (r: Option<bool>)
    ensures
        r is Some <==> has_id(debug_states(*m), id),
        forall|k: int| 0 <= k < debug_states(*m).len() && (#[trigger] debug_states(*m)[k]).0 == id
            ==> r == Some(debug_states(*m)[k].2),
{
    m.get(&id).map(|s| s.is_active)
}

/// `IndexMap::entry(..).or_insert_with(..)`: adds a closed window named `name` under `id`
/// at the end, unless `id` already has an entry.
#[verifier::external_body]
fn states_insert_if_absent(m: &mut IndexMap<u64, DebugMenuItemState>, id: u64, name: &str)
    ensures
        has_id(debug_states(*old(m)), id) ==> debug_states(*final(m)) == debug_states(*old(m)),
        !has_id(debug_states(*old(m)), id) ==> debug_states(*final(m)) == debug_states(*old(m)).push((id, name@, false)),
{
    m.entry(id).or_insert_with(|| DebugMenuItemState { name: name.to_string(), is_active: false });
}

/// `IndexMap::insert`: stores a window named `name` with flag `active` under `id`. An entry
/// already under `id` keeps its place in the order and takes the new name and flag;
/// otherwise the entry is added at the end.
#[verifier::external_body]
fn states_insert(m: &mut IndexMap<u64, DebugMenuItemState>, id: u64, name: &str, active: bool)
    ensures
        has_id(debug_states(*old(m)), id) ==> debug_states(*final(m)) == with_entry(debug_states(*old(m)), id, name@, active),
        !has_id(debug_states(*old(m)), id) ==> debug_states(*final(m)) == debug_states(*old(m)).push((id, name@, active)),
{
    m.insert(id, DebugMenuItemState { name: name.to_string(), is_active: active });
}

/// `IndexMap::get_mut`: sets the open flag of the entry under `id`, if there is one.
#[verifier::external_body]
fn states_set_flag(m: &mut IndexMap<u64, DebugMenuItemState>, id: u64, active: bool)
    ensures
        debug_states(*final(m)) == with_flag(debug_states(*old(m)), id, active),
{
    if let Some(state) = m.get_mut(&id) {
        state.is_active = active;
    }
}

/// `IndexMap::get_index`: the id, name and open flag of the entry at position `index`.
#[verifier::external_body]
fn states_get_index(m: &IndexMap<u64, DebugMenuItemState>, index: usize) -> (r: (u64, String, bool))
    requires
        index < debug_states(*m).len(),
    ensures
        (r.0, r.1@, r.2) == debug_states(*m)[index as int],
{
    let (id, state) = m.get_index(index).unwrap();
    (*id, state.name.clone(), state.is_active)
}

/// What a `std::hash::DefaultHasher` made by `new()` finishes with after hashing the
/// string `s` through its `Hash` impl.
pub uninterp spec fn default_hasher_str(s: Seq<char>) -> u64;

/// Hashes `name` with a `std::hash::DefaultHasher` made by `new()`. The result is named
/// `default_hasher_str(name)`: the standard library documents that every hasher made by
/// `new()` hashes alike (the algorithm itself is left unspecified, and may change between
/// releases of the standard library).
#[verifier::external_body]
fn default_hash_str(name: &str) -> (r: u64)
    ensures
        r == default_hasher_str(name@),
{
    let mut hasher = std::hash::DefaultHasher::new();
    name.hash(&mut hasher);
    hasher.finish()
}

/// The entries after opening (`active`) or closing the window named `name`: its entry
/// gets the flag, or a new entry is added at the end.
pub open spec fn window_step(items: Seq<(u64, Seq<char>, bool)>, name: Seq<char>, active: bool) -> Seq<(u64, Seq<char>, bool)> {
    let id = default_hasher_str(name);
    if has_id(items, id) {
        with_flag(items, id, active)
    } else {
        items.push((id, name, active))
    }
}

/// The entries after restoring the saved window named `name` as open (`active`) or closed:
/// the entry under its id takes its name and flag, or a new entry is added at the end.
pub open spec fn restore_step(items: Seq<(u64, Seq<char>, bool)>, name: Seq<char>, active: bool) -> Seq<(u64, Seq<char>, bool)> {
    let id = default_hasher_str(name);
    if has_id(items, id) {
        with_entry(items, id, name, active)
    } else {
        items.push((id, name, active))
    }
}

/// The entries after applying each of `windows` (a name and an open flag) in order to no
/// entries.
pub open spec fn restored_states(windows: Seq<(Seq<char>, bool)>) -> Seq<(u64, Seq<char>, bool)>
    decreases windows.len(),
{
    if windows.len() == 0 {
        Seq::empty()
    } else {
        restore_step(restored_states(windows.drop_last()), windows.last().0, windows.last().1)
    }
}

/// The names and flags of saved windows.
pub open spec fn window_views(windows: Seq<(String, bool)>) -> Seq<(Seq<char>, bool)> {
    windows.map_values(|w: (String, bool)| (w.0@, w.1))
}

/// The remembered state of the debug menu.
pub struct DebugMenuMemory {
    generation: usize,
    last_saved_generation: usize,
    is_active: bool,
    states: IndexMap<u64, DebugMenuItemState>,
}

impl DebugMenuMemory {
    /// The generation, bumped every time a state changes.
    pub closed spec fn spec_generation(&self) -> nat {
        self.generation as nat
    }

    /// The generation that was last saved.
    pub closed spec fn spec_last_saved(&self) -> nat {
        self.last_saved_generation as nat
    }

    /// Whether the top-level menu is open.
    pub closed spec fn spec_is_active(&self) -> bool {
        self.is_active
    }

    /// The known windows, in the order they became known.
    pub closed spec fn spec_states(&self) -> Seq<(u64, Seq<char>, bool)> {
        debug_states(self.states)
    }

    /// Consistency: no window is listed twice.
    pub closed spec fn wf(&self) -> bool {
        unique_ids(debug_states(self.states))
    }

    /// A closed menu that knows no windows and has nothing to save.
    pub fn default() -> (r: Self)
        ensures
            r.wf(),
            r.spec_generation() == 0,
            r.spec_last_saved() == 0,
            !r.spec_is_active(),
            r.spec_states() == Seq::<(u64, Seq<char>, bool)>::empty(),
    {
        DebugMenuMemory { generation: 0, last_saved_generation: 0, is_active: false, states: states_new() }
    }

    /// A menu restored from saved state: open or closed, with the given windows, and nothing
    /// to save.
    pub fn restore(is_active: bool, windows: &Vec<(String, bool)>) -> (r: Self)
        ensures
            r.wf(),
            r.spec_generation() == 0,
            r.spec_last_saved() == 0,
            r.spec_is_active() == is_active,
            r.spec_states() == restored_states(window_views(windows@)),
    {
        let mut memory = Self::default();
        memory.is_active = is_active;
        let ghost views = window_views(windows@);
        let mut i: usize = 0;
        proof {
            assert(views.take(0) =~= Seq::<(Seq<char>, bool)>::empty());
        }
        while i < windows.len()
            invariant
                memory.wf(),
                memory.generation == 0,
                memory.last_saved_generation == 0,
                memory.is_active == is_active,
                i <= windows.len(),
                views == window_views(windows@),
                memory.spec_states() == restored_states(views.take(i as int)),
            decreases windows.len() - i,
        {
            let id = Self::gui_id_by_name(windows[i].0.as_str());
            let ghost before = debug_states(memory.states);
            states_insert(&mut memory.states, id.0, windows[i].0.as_str(), windows[i].1);
            proof {
                lemma_with_entry(before, id.0, windows@[i as int].0@, windows@[i as int].1);
                if !has_id(before, id.0) {
                    let pushed = before.push((id.0, windows@[i as int].0@, windows@[i as int].1));
                    assert forall|a: int, b: int| 0 <= a < pushed.len() && 0 <= b < pushed.len() && a != b
                        implies (#[trigger] pushed[a]).0 != (#[trigger] pushed[b]).0 by {
                        if a == before.len() as int {
                            assert(pushed[b] == before[b]);
                        } else if b == before.len() as int {
                            assert(pushed[a] == before[a]);
                        }
                    }
                }
            }
            proof {
                let t = views.take(i as int + 1);
                assert(t.drop_last() =~= views.take(i as int));
                assert(t.last() == (windows@[i as int].0@, windows@[i as int].1));
            }
            i = i + 1;
        }
        proof {
            assert(views.take(i as int) =~= views);
        }
        memory
    }

    /// The generation, bumped every time a state changes.
    pub fn generation(&self) -> (r: usize)
        ensures
            r == self.spec_generation(),
    {
        self.generation
    }

    /// Whether the top-level menu is open.
    pub fn is_active(&self) -> (r: bool)
        ensures
            r == self.spec_is_active(),
    {
        self.is_active
    }

    /// Decides whether the state must be saved: `true` when it changed since the last
    /// save, and in every case the current generation counts as saved from now on.
    pub fn begin_save(&mut self) -> (r: bool)
        ensures
            r == (old(self).spec_generation() != old(self).spec_last_saved()),
            final(self).spec_last_saved() == old(self).spec_generation(),
            final(self).spec_generation() == old(self).spec_generation(),
            final(self).spec_is_active() == old(self).spec_is_active(),
            final(self).spec_states() == old(self).spec_states(),
            final(self).wf() == old(self).wf(),
    {
        if self.generation == self.last_saved_generation {
            return false;
        }
        self.last_saved_generation = self.generation;
        true
    }

    /// Opens or closes the top-level menu; the generation moves on only when this changes
    /// something.
    pub fn set_active(&mut self, is_active: bool)
        requires
            old(self).spec_generation() < usize::MAX,
        ensures
            final(self).spec_is_active() == is_active,
            final(self).spec_generation() == if old(self).spec_is_active() != is_active {
                old(self).spec_generation() + 1
            } else {
                old(self).spec_generation()
            },
            final(self).spec_last_saved() == old(self).spec_last_saved(),
            final(self).spec_states() == old(self).spec_states(),
            final(self).wf() == old(self).wf(),
    {
        if self.is_active != is_active {
            self.is_active = is_active;
            self.generation = self.generation + 1;
        }
    }

    /// Flips the top-level menu between open and closed.
    pub fn toggle_active(&mut self)
        requires
            old(self).spec_generation() < usize::MAX,
        ensures
            final(self).spec_is_active() == !old(self).spec_is_active(),
            final(self).spec_generation() == old(self).spec_generation() + 1,
            final(self).spec_last_saved() == old(self).spec_last_saved(),
            final(self).spec_states() == old(self).spec_states(),
            final(self).wf() == old(self).wf(),
    {
        self.is_active = !self.is_active;
        self.generation = self.generation + 1;
    }

    /// The id of the debug window named `name`: a hash of the name.
    pub fn gui_id_by_name(name: &str) -> (r: DebugMenuId)
        ensures
            r.0 == default_hasher_str(name@),
    {
        DebugMenuId(default_hash_str(name))
    }

    /// Opens or closes the window `id` (named `name`), adding it as a closed window first if
    /// it is not known yet; the generation moves on only when its open flag changes.
    pub fn set_state_active_with_id(&mut self, id: DebugMenuId, name: &str, activate: bool)
        requires
            old(self).wf(),
            old(self).spec_generation() < usize::MAX,
        ensures
            final(self).wf(),
            has_id(old(self).spec_states(), id.0) ==> final(self).spec_states() == with_flag(old(self).spec_states(), id.0, activate),
            !has_id(old(self).spec_states(), id.0) ==> final(self).spec_states() == old(self).spec_states().push((id.0, name@, activate)),
            flag_of(final(self).spec_states(), id.0) == Some(activate),
            final(self).spec_generation() == if flag_of(old(self).spec_states(), id.0) == Some(!activate)
                || (!has_id(old(self).spec_states(), id.0) && activate) {
                old(self).spec_generation() + 1
            } else {
                old(self).spec_generation()
            },
            final(self).spec_is_active() == old(self).spec_is_active(),
            final(self).spec_last_saved() == old(self).spec_last_saved(),
    {
        let ghost items0 = debug_states(self.states);
        states_insert_if_absent(&mut self.states, id.0, name);
        let ghost items1 = debug_states(self.states);
        proof {
            lemma_unique_after_insert(items0, id.0, name@);
            lemma_flag_of_unique(items1, id.0);
            if has_id(items0, id.0) {
                lemma_flag_of_unique(items0, id.0);
            } else {
                assert(items1[items0.len() as int].0 == id.0);
            }
        }
        let current = states_get_flag(&self.states, id.0);
        let was_active = match current {
            Some(b) => b,
            None => false,
        };
        if was_active != activate {
            states_set_flag(&mut self.states, id.0, activate);
            self.generation = self.generation + 1;
        }
        proof {
            let items2 = debug_states(self.states);
            lemma_with_flag(items1, id.0, activate);
            if was_active == activate {
                assert(items2 =~= with_flag(items1, id.0, activate)) by {
                    assert forall|k: int| 0 <= k < items1.len() implies items2[k] == with_flag(items1, id.0, activate)[k] by {
                        if items1[k].0 == id.0 {
                            assert(items1[k].2 == was_active);
                        }
                    }
                }
            }
            lemma_flag_of_unique(items2, id.0);
            if !has_id(items0, id.0) {
                assert(with_flag(items1, id.0, activate) =~= items0.push((id.0, name@, activate))) by {
                    assert forall|k: int| 0 <= k < items0.len() implies items0[k].0 != id.0 by {
                        if items0[k].0 == id.0 {
                            assert(has_id(items0, id.0));
                        }
                    }
                }
            }
        }
    }

    /// Opens or closes the window named `name`, adding it if it is not known yet.
    pub fn set_state_active_by_name(&mut self, name: &str, activate: bool)
        requires
            old(self).wf(),
            old(self).spec_generation() < usize::MAX,
        ensures
            final(self).wf(),
            final(self).spec_states() == window_step(old(self).spec_states(), name@, activate),
            final(self).spec_generation() == if flag_of(old(self).spec_states(), default_hasher_str(name@)) == Some(!activate)
                || (!has_id(old(self).spec_states(), default_hasher_str(name@)) && activate) {
                old(self).spec_generation() + 1
            } else {
                old(self).spec_generation()
            },
            final(self).spec_is_active() == old(self).spec_is_active(),
            final(self).spec_last_saved() == old(self).spec_last_saved(),
    {
        let id = Self::gui_id_by_name(name);
        self.set_state_active_with_id(id, name, activate);
    }

    /// Flips the window `id` between open and closed and returns its new state; does nothing
    /// and returns `None` when the window is not known.
    pub fn toggle_state_active_with_id(&mut self, id: DebugMenuId) -> (r: Option<bool>)
        requires
            old(self).wf(),
            old(self).spec_generation() < usize::MAX,
        ensures
            final(self).wf(),
            final(self).spec_is_active() == old(self).spec_is_active(),
            final(self).spec_last_saved() == old(self).spec_last_saved(),
            !has_id(old(self).spec_states(), id.0) ==> r is None && final(self).spec_states() == old(self).spec_states()
                && final(self).spec_generation() == old(self).spec_generation(),
            has_id(old(self).spec_states(), id.0) ==> r == Some(!flag_of(old(self).spec_states(), id.0)->0)
                && final(self).spec_states() == with_flag(old(self).spec_states(), id.0, r->0)
                && final(self).spec_generation() == old(self).spec_generation() + 1,
    {
        let ghost items0 = debug_states(self.states);
        proof {
            lemma_flag_of_unique(items0, id.0);
        }
        match states_get_flag(&self.states, id.0) {
            None => None,
            Some(b) => {
                states_set_flag(&mut self.states, id.0, !b);
                self.generation = self.generation + 1;
                proof {
                    lemma_with_flag(items0, id.0, !b);
                }
                Some(!b)
            },
        }
    }

    /// Flips the window named `name` between open and closed; see `toggle_state_active_with_id`.
    pub fn toggle_state_active_by_name(&mut self, name: &str) -> (r: Option<bool>)
        requires
            old(self).wf(),
            old(self).spec_generation() < usize::MAX,
        ensures
            final(self).wf(),
            final(self).spec_is_active() == old(self).spec_is_active(),
            final(self).spec_last_saved() == old(self).spec_last_saved(),
            !has_id(old(self).spec_states(), default_hasher_str(name@)) ==> r is None
                && final(self).spec_states() == old(self).spec_states()
                && final(self).spec_generation() == old(self).spec_generation(),
            has_id(old(self).spec_states(), default_hasher_str(name@)) ==> r == Some(!flag_of(old(self).spec_states(), default_hasher_str(name@))->0)
                && final(self).spec_states() == with_flag(old(self).spec_states(), default_hasher_str(name@), r->0)
                && final(self).spec_generation() == old(self).spec_generation() + 1,
    {
        let id = Self::gui_id_by_name(name);
        self.toggle_state_active_with_id(id)
    }

    /// The number of known windows.
    pub fn num_states(&self) -> (r: usize)
        ensures
            r == self.spec_states().len(),
    {
        states_len(&self.states)
    }

    /// The id, name and open flag of the `index`-th known window.
    pub fn state_at(&self, index: usize) -> (r: (u64, String, bool))
        requires
            index < self.spec_states().len(),
        ensures
            (r.0, r.1@, r.2) == self.spec_states()[index as int],
    {
        states_get_index(&self.states, index)
    }
}

proof fn lemma_unique_after_insert(items: Seq<(u64, Seq<char>, bool)>, id: u64, name: Seq<char>)
    requires
        unique_ids(items),
    ensures
        !has_id(items, id) ==> unique_ids(items.push((id, name, false))),
        has_id(items.push((id, name, false)), id),
{
    let items1 = items.push((id, name, false));
    assert(items1[items.len() as int].0 == id);
    if !has_id(items, id) {
        assert forall|a: int, b: int| 0 <= a < items1.len() && 0 <= b < items1.len() && a != b
            implies (#[trigger] items1[a]).0 != (#[trigger] items1[b]).0 by {
            if a == items.len() as int {
                assert(items1[b] == items[b]);
            } else if b == items.len() as int {
                assert(items1[a] == items[a]);
            } else {
                assert(items1[a] == items[a] && items1[b] == items[b]);
            }
        }
    }
}

proof fn lemma_flag_of_unique(items: Seq<(u64, Seq<char>, bool)>, id: u64)
    requires
        unique_ids(items),
    ensures
        forall|k: int| 0 <= k < items.len() && (#[trigger] items[k]).0 == id ==> flag_of(items, id) == Some(items[k].2),
        flag_of(items, id) is None <==> !has_id(items, id),
{
}

proof fn lemma_with_flag(items: Seq<(u64, Seq<char>, bool)>, id: u64, active: bool)
    requires
        unique_ids(items),
    ensures
        unique_ids(with_flag(items, id, active)),
        has_id(with_flag(items, id, active), id) == has_id(items, id),
        has_id(items, id) ==> flag_of(with_flag(items, id, active), id) == Some(active),
{
    let w = with_flag(items, id, active);
    assert forall|a: int, b: int| 0 <= a < w.len() && 0 <= b < w.len() && a != b implies (#[trigger] w[a]).0 != (#[trigger] w[b]).0 by {
        assert(w[a].0 == items[a].0 && w[b].0 == items[b].0);
    }
    if has_id(items, id) {
        let k = choose|k: int| 0 <= k < items.len() && (#[trigger] items[k]).0 == id;
        assert(w[k].0 == id);
    }
    if has_id(w, id) {
        let k = choose|k: int| 0 <= k < w.len() && (#[trigger] w[k]).0 == id;
        assert(items[k].0 == id);
    }
    lemma_flag_of_unique(w, id);
}


/// Toggling a known window twice leaves every window as it was: the first toggle flips
/// its flag, the second flips it back.
pub proof fn lemma_toggle_twice(items: Seq<(u64, Seq<char>, bool)>, id: u64)
    requires
        unique_ids(items),
        has_id(items, id),
    ensures
        ({
            let once = with_flag(items, id, !flag_of(items, id)->0);
            &&& unique_ids(once)
            &&& has_id(once, id)
            &&& flag_of(once, id) == Some(!flag_of(items, id)->0)
            &&& with_flag(once, id, !flag_of(once, id)->0) == items
        }),
{
    lemma_flag_of_unique(items, id);
    let f = flag_of(items, id)->0;
    let once = with_flag(items, id, !f);
    lemma_with_flag(items, id, !f);
    let twice = with_flag(once, id, f);
    assert forall|k: int| 0 <= k < items.len() implies #[trigger] twice[k] == items[k] by {
        if items[k].0 == id {
            assert(flag_of(items, id) == Some(items[k].2));
        }
    }
    assert(twice =~= items);
}


proof fn lemma_with_entry(items: Seq<(u64, Seq<char>, bool)>, id: u64, name: Seq<char>, active: bool)
    requires
        unique_ids(items),
    ensures
        unique_ids(with_entry(items, id, name, active)),
{
    let w = with_entry(items, id, name, active);
    assert forall|a: int, b: int| 0 <= a < w.len() && 0 <= b < w.len() && a != b implies (#[trigger] w[a]).0 != (#[trigger] w[b]).0 by {
        assert(w[a].0 == items[a].0 && w[b].0 == items[b].0);
    }
}

} // verus!

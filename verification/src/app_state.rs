use crate::actions::Action;
use crate::key_event::KeyEvent;
use crate::key_mode::KeyMode;
use crate::settings::keybindings::{
    bound_after, lemma_single_binding, modes_of, nothing_bound, Binding, KeyBindingsNode, KeyString,
};
use crate::settings::Settings;
use vstd::prelude::*;
use vstd::string::*;

verus! {

/// A key mode was asked for that has no binding tree.
#[derive(Debug)]
pub struct ModeNotFound {
    /// The mode that was asked for.
    pub requested: KeyMode,
    /// The modes that do have a tree.
    pub available: Vec<KeyMode>,
}

/// The name of a key mode.
pub open spec fn mode_name(mode: KeyMode) -> Seq<char> {
    match mode {
        KeyMode::TorrentList => "TorrentList"@,
        KeyMode::AddTorrent => "AddTorrent"@,
    }
}

/// The names of the first `n` of `modes`, with `, ` between them.
pub open spec fn mode_names(modes: Seq<KeyMode>, n: int) -> Seq<char>
    decreases n,
{
    if n <= 0 {
        Seq::empty()
    } else if n == 1 {
        mode_name(modes[0])
    } else {
        mode_names(modes, n - 1) + ", "@ + mode_name(modes[n - 1])
    }
}

impl ModeNotFound {
    /// The text of the message.
    pub open spec fn spec_message(self) -> Seq<char> {
        "Key mode "@ + mode_name(self.requested) + " not found. Available key modes: ["@
            + mode_names(self.available@, self.available@.len() as int) + "]"@
    }

    /// A message for the user: the mode that was asked for and the modes
    /// that exist.
    pub fn message(&self) -> (r: String)
        ensures
            r@ == self.spec_message(),
    {
        let mut out = String::from_str("Key mode ");
        out.append(name_of(self.requested));
        out.append(" not found. Available key modes: [");
        let ghost head = out@;
        let mut i: usize = 0;
        while i < self.available.len()
            invariant
                i <= self.available@.len(),
                out@ == head + mode_names(self.available@, i as int),
            decreases self.available@.len() - i,
        {
            if i > 0 {
                out.append(", ");
            }
            out.append(name_of(self.available[i]));
            assert(out@ =~= head + mode_names(self.available@, i + 1));
            i += 1;
        }
        out.append("]");
        out
    }
}

fn name_of(mode: KeyMode) -> (r: &'static str)
    ensures
        r@ == mode_name(mode),
{
    match mode {
        KeyMode::TorrentList => "TorrentList",
        KeyMode::AddTorrent => "AddTorrent",
    }
}

/// One step of the matcher, from the chords taken so far and the chord of
/// the next key press to the chords taken after it and the action that
/// fires. A chord that leads to a leaf fires the leaf's action and ends the
/// sequence; one that leads to a node with children is taken and fires
/// nothing, whatever action that node carries; one that leads nowhere ends
/// the sequence and fires nothing.
pub open spec fn step(root: KeyBindingsNode, pending: Seq<KeyString>, key: KeyString) -> (
    Seq<KeyString>,
    Option<Action>,
) {
    match root.walk(pending.push(key)) {
        Some(node) => if node.is_leaf() {
            (Seq::empty(), Some(node.action))
        } else {
            (pending.push(key), None)
        },
        None => (Seq::empty(), None),
    }
}

/// The matcher's steps on the chords of `keys` one after the other: the
/// chords taken at the end, and what each step fired.
pub open spec fn feed(root: KeyBindingsNode, pending: Seq<KeyString>, keys: Seq<KeyString>) -> (
    Seq<KeyString>,
    Seq<Option<Action>>,
)
    decreases keys.len(),
{
    if keys.len() == 0 {
        (pending, Seq::empty())
    } else {
        let (taken, fired) = step(root, pending, keys[0]);
        let (end, rest) = feed(root, taken, keys.skip(1));
        (end, seq![fired] + rest)
    }
}

/// Walking a path and then one chord more is walking the longer path.
pub proof fn lemma_walk_push(root: KeyBindingsNode, path: Seq<KeyString>, key: KeyString)
    ensures
        root.walk(path.push(key)) == match root.walk(path) {
            Some(node) => if node.next@.contains_key(key) {
                Some(node.next@[key])
            } else {
                None
            },
            None => None,
        },
    decreases path.len(),
{
    let longer = path.push(key);
    if path.len() == 0 {
        assert(longer.skip(1) =~= Seq::<KeyString>::empty());
        assert(longer[0] == key);
        if root.next@.contains_key(key) {
            assert(root.next@[key].walk(longer.skip(1)) == Some(root.next@[key]));
        }
    } else {
        assert(longer[0] == path[0]);
        assert(longer.skip(1) =~= path.skip(1).push(key));
        if root.next@.contains_key(path[0]) {
            lemma_walk_push(root.next@[path[0]], path.skip(1), key);
        }
    }
}

/// Where a path leads to a node, so does each of its starts.
pub proof fn lemma_walk_prefix(root: KeyBindingsNode, path: Seq<KeyString>, n: int)
    requires
        0 <= n <= path.len(),
        root.walk(path) is Some,
    ensures
        root.walk(path.subrange(0, n)) is Some,
    decreases path.len() - n,
{
    if n == path.len() {
        assert(path.subrange(0, n) =~= path);
    } else {
        lemma_walk_prefix(root, path, n + 1);
        assert(path.subrange(0, n + 1) =~= path.subrange(0, n).push(path[n]));
        lemma_walk_push(root, path.subrange(0, n), path[n]);
    }
}

/// What the matcher fires on the key presses of a bound sequence from the
/// `i`-th on: nothing, and at the last the action.
pub open spec fn fired_from(len: int, i: int, action: Action) -> Seq<Option<Action>> {
    Seq::new(
        (len - i) as nat,
        |j: int|
            if j == len - i - 1 {
                Some(action)
            } else {
                None
            },
    )
}

proof fn lemma_feed_along(root: KeyBindingsNode, keys: Seq<KeyString>, i: int)
    requires
        0 <= i < keys.len(),
        root.entry(keys) is Some,
        forall|key: KeyString| root.entry(#[trigger] keys.push(key)) is None,
    ensures
        feed(root, keys.subrange(0, i), keys.skip(i)) == (
            Seq::<KeyString>::empty(),
            fired_from(keys.len() as int, i, root.entry(keys)->0.action),
        ),
    decreases keys.len() - i,
{
    let len = keys.len() as int;
    let action = root.entry(keys)->0.action;
    let taken = keys.subrange(0, i);
    let left = keys.skip(i);
    assert(left[0] == keys[i]);
    assert(taken.push(keys[i]) =~= keys.subrange(0, i + 1));
    lemma_walk_prefix(root, keys, i + 1);
    let node = root.walk(keys.subrange(0, i + 1))->0;
    if i + 1 == len {
        assert(keys.subrange(0, i + 1) =~= keys);
        assert forall|key: KeyString| !node.next@.contains_key(key) by {
            lemma_walk_push(root, keys, key);
            assert(root.entry(keys.push(key)) is None);
        }
        assert(node.next@ =~= Map::<KeyString, KeyBindingsNode>::empty());
        assert(left.skip(1) =~= Seq::<KeyString>::empty());
        assert(step(root, taken, left[0]) == (Seq::<KeyString>::empty(), Some(action)));
        assert(feed(root, Seq::<KeyString>::empty(), left.skip(1)) == (
            Seq::<KeyString>::empty(),
            Seq::<Option<Action>>::empty(),
        ));
        assert(seq![Some(action)] + Seq::<Option<Action>>::empty() =~= fired_from(len, i, action));
    } else {
        lemma_walk_prefix(root, keys, i + 2);
        assert(keys.subrange(0, i + 2) =~= keys.subrange(0, i + 1).push(keys[i + 1]));
        lemma_walk_push(root, keys.subrange(0, i + 1), keys[i + 1]);
        assert(node.next@.contains_key(keys[i + 1]));
        assert(!node.is_leaf());
        lemma_feed_along(root, keys, i + 1);
        assert(left.skip(1) =~= keys.skip(i + 1));
        assert(step(root, taken, left[0]) == (keys.subrange(0, i + 1), None::<Action>));
        assert(feed(root, keys.subrange(0, i + 1), left.skip(1)) == (
            Seq::<KeyString>::empty(),
            fired_from(len, i + 1, action),
        ));
        assert(seq![None::<Action>] + fired_from(len, i + 1, action) =~= fired_from(
            len,
            i,
            action,
        ));
    }
}

/// A sequence that is bound in a tree in which no longer sequence starts
/// with it makes a matcher that stands at the root fire nothing on each of
/// its key presses but the last, fire the sequence's action on the last,
/// and stand at the root again.
pub proof fn lemma_bound_sequence_fires(root: KeyBindingsNode, keys: Seq<KeyString>)
    requires
        keys.len() > 0,
        root.entry(keys) is Some,
        forall|key: KeyString| root.entry(#[trigger] keys.push(key)) is None,
    ensures
        feed(root, Seq::empty(), keys) == (
            Seq::<KeyString>::empty(),
            fired_from(keys.len() as int, 0, root.entry(keys)->0.action),
        ),
{
    lemma_feed_along(root, keys, 0);
    assert(keys.subrange(0, 0) =~= Seq::<KeyString>::empty());
    assert(keys.skip(0) =~= keys);
}

/// Where a tree holds one sequence alone, a matcher that stands at its
/// root fires nothing on each key press of the sequence but the last, fires
/// the action bound to it on the last, and stands at the root again.
pub proof fn lemma_only_binding_fires(
    tree: KeyBindingsNode,
    sequence: Seq<KeyString>,
    binding: Binding,
)
    requires
        sequence.len() > 0,
        forall|path: Seq<KeyString>| #[trigger]
            tree.entry(path) == bound_after(nothing_bound(path), path, sequence, binding),
    ensures
        feed(tree, Seq::empty(), sequence) == (
            Seq::<KeyString>::empty(),
            fired_from(sequence.len() as int, 0, binding.action),
        ),
{
    lemma_single_binding(tree, sequence, binding);
    lemma_bound_sequence_fires(tree, sequence);
}

/// A chord that leads to a node with children is taken and fires nothing,
/// whether or not that node carries an action of its own.
pub proof fn lemma_node_with_children_advances(
    root: KeyBindingsNode,
    pending: Seq<KeyString>,
    key: KeyString,
)
    requires
        root.walk(pending.push(key)) is Some,
        !root.walk(pending.push(key))->0.is_leaf(),
    ensures
        step(root, pending, key) == (pending.push(key), None::<Action>),
{
}

/// A chord that leads to a leaf fires the leaf's action, also where the
/// action is the empty one, and puts the matcher back at the root.
pub proof fn lemma_leaf_fires(root: KeyBindingsNode, pending: Seq<KeyString>, key: KeyString)
    requires
        root.walk(pending.push(key)) is Some,
        root.walk(pending.push(key))->0.is_leaf(),
    ensures
        step(root, pending, key) == (
            Seq::<KeyString>::empty(),
            Some(root.walk(pending.push(key))->0.action),
        ),
{
}

/// A chord for which the node that the matcher stands at has no child
/// fires nothing and puts the matcher back at the root, however many
/// chords were taken before.
pub proof fn lemma_no_match_resets(root: KeyBindingsNode, pending: Seq<KeyString>, key: KeyString)
    requires
        match root.walk(pending) {
            Some(node) => !node.next@.contains_key(key),
            None => true,
        },
    ensures
        step(root, pending, key) == (Seq::<KeyString>::empty(), None::<Action>),
{
    lemma_walk_push(root, pending, key);
}

/// Prepares a matcher: the settings it reads and the key mode it starts in.
pub struct AppStateBuilder<'a> {
    settings: &'a Settings,
    key_mode: KeyMode,
}

impl<'a> AppStateBuilder<'a> {
    pub closed spec fn settings(self) -> Settings {
        *self.settings
    }

    pub closed spec fn mode(self) -> KeyMode {
        self.key_mode
    }

    /// A builder on `settings` that starts in the first key mode.
    pub fn new(settings: &'a Settings) -> (r: Self)
        ensures
            r.settings() == *settings,
            r.mode() == KeyMode::TorrentList,
    {
        AppStateBuilder { settings, key_mode: KeyMode::default() }
    }

    /// Chooses the key mode to start in.
    pub fn key_mode(self, key_mode: KeyMode) -> (r: Self)
        ensures
            r.settings() == self.settings(),
            r.mode() == key_mode,
    {
        AppStateBuilder { settings: self.settings, key_mode }
    }

    /// The matcher at the root of the chosen mode's tree; refused where
    /// that mode has no tree.
    pub fn build(self) -> (r: Result<AppState<'a>, ModeNotFound>)
        ensures
            match r {
                Ok(state) => {
                    &&& self.settings().keybindings@.contains_key(self.mode())
                    &&& state.settings() == self.settings()
                    &&& state.mode() == self.mode()
                    &&& state.root() == self.settings().keybindings@[self.mode()]
                    &&& state.pending() == Seq::<KeyString>::empty()
                    &&& state.position() == state.root()
                },
                Err(e) => {
                    &&& !self.settings().keybindings@.contains_key(self.mode())
                    &&& e.requested == self.mode()
                    &&& e.available@ == modes_of(self.settings().keybindings@)
                },
            },
    {
        match self.settings.keybindings.get(&self.key_mode) {
            Some(root) => Ok(
                AppState {
                    keybindings: root,
                    keybindings_root: root,
                    settings: self.settings,
                    key_mode: self.key_mode,
                    advanced: false,
                    taken: Ghost(Seq::empty()),
                },
            ),
            None => Err(
                ModeNotFound { requested: self.key_mode, available: self.settings.keybindings.keys() },
            ),
        }
    }
}

/// The matcher: the tree of the active key mode and the place in it that
/// the key presses taken so far have led to.
pub struct AppState<'a> {
    keybindings: &'a KeyBindingsNode,
    keybindings_root: &'a KeyBindingsNode,
    settings: &'a Settings,
    key_mode: KeyMode,
    advanced: bool,
    taken: Ghost<Seq<KeyString>>,
}

impl<'a> AppState<'a> {
    /// The root is the tree of the active mode, and the place is the node
    /// that the chords taken so far lead to from the root.
    #[verifier::type_invariant]
    spec fn well_formed(&self) -> bool {
        &&& self.settings.keybindings@.contains_key(self.key_mode)
        &&& *self.keybindings_root == self.settings.keybindings@[self.key_mode]
        &&& self.keybindings_root.walk(self.taken@) == Some(*self.keybindings)
        &&& self.advanced == (self.taken@.len() > 0)
    }

    /// The settings that the matcher reads.
    pub closed spec fn settings(self) -> Settings {
        *self.settings
    }

    /// The active key mode.
    pub closed spec fn mode(self) -> KeyMode {
        self.key_mode
    }

    /// The root of the active mode's tree.
    pub closed spec fn root(self) -> KeyBindingsNode {
        *self.keybindings_root
    }

    /// The node that the matcher stands at.
    pub closed spec fn position(self) -> KeyBindingsNode {
        *self.keybindings
    }

    /// The chords of the sequence in progress.
    pub closed spec fn pending(self) -> Seq<KeyString> {
        self.taken@
    }

    /// A builder on `settings`.
    pub fn builder(settings: &'a Settings) -> (r: AppStateBuilder<'a>)
        ensures
            r.settings() == *settings,
            r.mode() == KeyMode::TorrentList,
    {
        AppStateBuilder::new(settings)
    }

    /// Whether no sequence is in progress.
    pub fn at_root(&self) -> (r: bool)
        ensures
            r == (self.pending().len() == 0),
            r ==> self.position() == self.root(),
    {
        proof {
            use_type_invariant(self);
        }
        !self.advanced
    }

    /// The active key mode.
    pub fn current_mode(&self) -> (r: KeyMode)
        ensures
            r == self.mode(),
            self.settings().keybindings@.contains_key(r),
            self.root() == self.settings().keybindings@[r],
            self.root().walk(self.pending()) == Some(self.position()),
    {
        proof {
            use_type_invariant(self);
        }
        self.key_mode
    }

    /// Takes one key press: one `step` of the matcher on its chord.
    pub fn action(&mut self, key_event: KeyEvent) -> (r: Option<Action>)
        ensures
            (final(self).pending(), r) == step(
                old(self).root(),
                old(self).pending(),
                KeyString::spec_from(key_event),
            ),
            final(self).root() == old(self).root(),
            final(self).mode() == old(self).mode(),
            final(self).settings() == old(self).settings(),
            final(self).root().walk(final(self).pending()) == Some(final(self).position()),
    {
        proof {
            use_type_invariant(&*self);
        }
        let key = KeyString::from(key_event);
        let root = self.keybindings_root;
        let ghost longer = self.taken@.push(key);
        proof {
            lemma_walk_push(*root, self.taken@, key);
        }
        match self.keybindings.next.get(&key) {
            Some(next) => {
                if next.next.is_empty() {
                    *self = AppState {
                        keybindings: root,
                        keybindings_root: root,
                        settings: self.settings,
                        key_mode: self.key_mode,
                        advanced: false,
                        taken: Ghost(Seq::empty()),
                    };
                    Some(next.action)
                } else {
                    *self = AppState {
                        keybindings: next,
                        keybindings_root: root,
                        settings: self.settings,
                        key_mode: self.key_mode,
                        advanced: true,
                        taken: Ghost(longer),
                    };
                    None
                }
            },
            None => {
                *self = AppState {
                    keybindings: root,
                    keybindings_root: root,
                    settings: self.settings,
                    key_mode: self.key_mode,
                    advanced: false,
                    taken: Ghost(Seq::empty()),
                };
                None
            },
        }
    }

    /// Switches to `key_mode`: the matcher then stands at the root of that
    /// mode's tree, and a sequence in progress is dropped. Where the mode
    /// has no tree the matcher stays as it is.
    pub fn key_mode(&mut self, key_mode: KeyMode) -> (r: Result<(), ModeNotFound>)
        ensures
            final(self).settings() == old(self).settings(),
            match r {
                Ok(_) => {
                    &&& old(self).settings().keybindings@.contains_key(key_mode)
                    &&& final(self).mode() == key_mode
                    &&& final(self).root() == old(self).settings().keybindings@[key_mode]
                    &&& final(self).pending() == Seq::<KeyString>::empty()
                    &&& final(self).position() == final(self).root()
                },
                Err(e) => {
                    &&& !old(self).settings().keybindings@.contains_key(key_mode)
                    &&& *final(self) == *old(self)
                    &&& e.requested == key_mode
                    &&& e.available@ == modes_of(old(self).settings().keybindings@)
                },
            },
    {
        match self.settings.keybindings.get(&key_mode) {
            Some(root) => {
                *self = AppState {
                    keybindings: root,
                    keybindings_root: root,
                    settings: self.settings,
                    key_mode,
                    advanced: false,
                    taken: Ghost(Seq::empty()),
                };
                Ok(())
            },
            None => Err(
                ModeNotFound { requested: key_mode, available: self.settings.keybindings.keys() },
            ),
        }
    }
}

} // verus!

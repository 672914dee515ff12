use crate::actions::Action;
use crate::key_event::{KeyCode, KeyEvent, KeyModifiers};
use crate::key_mode::KeyMode;
pub use crate::settings::chords::parse_key_sequence;
use crate::settings::chords::{parse_text, KeyErrorKind, KeySequenceError};
use vstd::prelude::*;

verus! {

/// The identity of a chord: the key and modifiers of a key press in normal
/// form. Two key presses are the same chord exactly if their identities are
/// equal.
#[derive(Debug, Clone, Copy, PartialEq, Eq, Structural)]
pub struct KeyString {
    pub code: KeyCode,
    pub modifiers: KeyModifiers,
}

impl KeyString {
    /// The chord that a key press is.
    pub open spec fn spec_from(key_event: KeyEvent) -> KeyString {
        let normal = key_event.spec_normalized();
        KeyString { code: normal.code, modifiers: normal.modifiers }
    }

    /// The chord that a key press is.
    pub fn from(key_event: KeyEvent) -> (r: KeyString)
        ensures
            r == Self::spec_from(key_event),
    {
        let normal = key_event.normalized();
        KeyString { code: normal.code, modifiers: normal.modifiers }
    }
}

/// The chords of a sequence of key presses, in order.
pub open spec fn chords_of(key_events: Seq<KeyEvent>) -> Seq<KeyString> {
    Seq::new(key_events.len(), |i: int| KeyString::spec_from(key_events[i]))
}

/// What a node carries for itself: its action and its description.
pub ghost struct Binding {
    pub action: Action,
    pub description: Option<Seq<char>>,
}

/// The binding of a node that was made only as a step towards a longer
/// sequence.
pub open spec fn unbound() -> Binding {
    Binding { action: Action::NoOp, description: None }
}

pub open spec fn text_of(description: Option<String>) -> Option<Seq<char>> {
    match description {
        Some(text) => Some(text@),
        None => None,
    }
}

/// What a configuration gives for one chord sequence: a bare action, or an
/// action and a description, each of which may be left out.
#[derive(Debug)]
pub enum KeyBindingValue {
    Simple(Action),
    Detailed { action: Action, description: Option<String> },
}

impl KeyBindingValue {
    /// The action and description that the value gives.
    pub open spec fn binding(self) -> Binding {
        match self {
            KeyBindingValue::Simple(action) => Binding { action, description: None },
            KeyBindingValue::Detailed { action, description } => Binding {
                action,
                description: text_of(description),
            },
        }
    }
}

impl Clone for KeyBindingValue {
    /// A value with the same action and description.
    fn clone(&self) -> (r: KeyBindingValue)
        ensures
            r.binding() == self.binding(),
    {
        match self {
            KeyBindingValue::Simple(action) => KeyBindingValue::Simple(*action),
            KeyBindingValue::Detailed { action, description } => {
                let copy = match description {
                    Some(text) => Some(text.clone()),
                    None => None,
                };
                KeyBindingValue::Detailed { action: *action, description: copy }
            },
        }
    }
}

/// The children of a node: at most one node for each chord.
#[derive(Debug)]
pub struct NextKeys {
    entries: Vec<(KeyString, KeyBindingsNode)>,
}

/// A node of a binding tree. The path of chords from the root to the node
/// is the sequence that is bound to its action.
#[derive(Debug)]
pub struct KeyBindingsNode {
    pub action: Action,
    pub description: Option<String>,
    pub next: NextKeys,
}

spec fn has_key(entries: Seq<(KeyString, KeyBindingsNode)>, key: KeyString) -> bool {
    exists|i: int| 0 <= i < entries.len() && (#[trigger] entries[i]).0 == key
}

spec fn place_of(entries: Seq<(KeyString, KeyBindingsNode)>, key: KeyString) -> int {
    choose|i: int| 0 <= i < entries.len() && (#[trigger] entries[i]).0 == key
}

spec fn distinct_keys(entries: Seq<(KeyString, KeyBindingsNode)>) -> bool {
    forall|i: int, j: int|
        0 <= i < j < entries.len() ==> (#[trigger] entries[i]).0 != (#[trigger] entries[j]).0
}

proof fn lemma_place(entries: Seq<(KeyString, KeyBindingsNode)>, j: int)
    requires
        distinct_keys(entries),
        0 <= j < entries.len(),
    ensures
        has_key(entries, entries[j].0),
        place_of(entries, entries[j].0) == j,
{
    let key = entries[j].0;
    assert(entries[j].0 == key);
    let p = place_of(entries, key);
    if p < j {
        assert(entries[p].0 != entries[j].0);
    } else if j < p {
        assert(entries[j].0 != entries[p].0);
    }
}

impl View for NextKeys {
    type V = Map<KeyString, KeyBindingsNode>;

    /// The children as a map from chord to node.
    closed spec fn view(&self) -> Map<KeyString, KeyBindingsNode> {
        Map::new(
            |key: KeyString| has_key(self.entries@, key),
            |key: KeyString| self.entries@[place_of(self.entries@, key)].1,
        )
    }
}

impl NextKeys {
    /// No chord stands twice among the children of one node.
    #[verifier::type_invariant]
    spec fn well_formed(&self) -> bool {
        distinct_keys(self.entries@)
    }

    /// No children.
    pub fn new() -> (r: NextKeys)
        ensures
            r@ == Map::<KeyString, KeyBindingsNode>::empty(),
    {
        let r = NextKeys { entries: Vec::new() };
        assert(r@ =~= Map::<KeyString, KeyBindingsNode>::empty());
        r
    }

    fn position(&self, key: &KeyString) -> (r: Option<usize>)
        ensures
            match r {
                Some(j) => j < self.entries@.len() && self.entries@[j as int].0 == *key,
                None => !has_key(self.entries@, *key),
            },
    {
        let mut i: usize = 0;
        while i < self.entries.len()
            invariant
                i <= self.entries@.len(),
                forall|j: int| 0 <= j < i ==> (#[trigger] self.entries@[j]).0 != *key,
            decreases self.entries@.len() - i,
        {
            if self.entries[i].0 == *key {
                return Some(i);
            }
            i += 1;
        }
        None
    }

    /// Whether there is no child at all.
    pub fn is_empty(&self) -> (r: bool)
        ensures
            r == (self@ == Map::<KeyString, KeyBindingsNode>::empty()),
    {
        let r = self.entries.len() == 0;
        proof {
            if r {
                assert(self@ =~= Map::<KeyString, KeyBindingsNode>::empty());
            } else {
                assert(self.entries@[0].0 == self.entries@[0].0);
                assert(self@.contains_key(self.entries@[0].0));
            }
        }
        r
    }

    /// Whether `key` has a child.
    pub fn contains_key(&self, key: &KeyString) -> (r: bool)
        ensures
            r == self@.contains_key(*key),
    {
        self.position(key).is_some()
    }

    /// The child for `key`.
    pub fn get(&self, key: &KeyString) -> (r: Option<&KeyBindingsNode>)
        ensures
            match r {
                Some(node) => self@.contains_key(*key) && *node == self@[*key],
                None => !self@.contains_key(*key),
            },
    {
        proof {
            use_type_invariant(self);
        }
        match self.position(key) {
            Some(j) => {
                proof {
                    lemma_place(self.entries@, j as int);
                }
                Some(&self.entries[j].1)
            },
            None => None,
        }
    }

    /// Takes the child for `key` out, if there is one. The other children
    /// stay.
    pub fn remove(&mut self, key: &KeyString) -> (r: Option<KeyBindingsNode>)
        ensures
            final(self)@ == old(self)@.remove(*key),
            match r {
                Some(node) => old(self)@.contains_key(*key) && node == old(self)@[*key],
                None => !old(self)@.contains_key(*key),
            },
    {
        proof {
            use_type_invariant(&*self);
        }
        let ghost before = self.entries@;
        match self.position(key) {
            Some(j) => {
                proof {
                    lemma_place(before, j as int);
                }
                let mut entries: Vec<(KeyString, KeyBindingsNode)> = Vec::new();
                core::mem::swap(&mut self.entries, &mut entries);
                let taken = entries.remove(j);
                let ghost now = entries@;
                proof {
                    assert forall|a: int, b: int| 0 <= a < b < now.len() implies (#[trigger] now[a]).0
                        != (#[trigger] now[b]).0 by {
                        let a0 = if a < j { a } else { a + 1 };
                        let b0 = if b < j { b } else { b + 1 };
                        assert(now[a] == before[a0]);
                        assert(now[b] == before[b0]);
                    }
                }
                core::mem::swap(&mut self.entries, &mut entries);
                proof {
                    assert(self.entries@ == now);
                    assert forall|k: KeyString| #[trigger] has_key(now, k) == (has_key(before, k) && k
                        != *key) by {
                        if has_key(now, k) {
                            let a = place_of(now, k);
                            let a0 = if a < j { a } else { a + 1 };
                            assert(now[a] == before[a0]);
                            assert(before[a0].0 == k);
                            if k == *key {
                                if a0 < j {
                                    assert(before[a0].0 != before[j as int].0);
                                } else {
                                    assert(before[j as int].0 != before[a0].0);
                                }
                            }
                        }
                        if has_key(before, k) && k != *key {
                            let a0 = place_of(before, k);
                            let a = if a0 < j { a0 } else { a0 - 1 };
                            assert(now[a] == before[a0]);
                            assert(now[a].0 == k);
                        }
                    }
                    assert forall|k: KeyString| #[trigger] has_key(now, k) implies now[place_of(now, k)].1
                        == before[place_of(before, k)].1 by {
                        let a = place_of(now, k);
                        let a0 = if a < j { a } else { a + 1 };
                        assert(now[a] == before[a0]);
                        lemma_place(before, a0);
                    }
                    assert(self@ =~= old(self)@.remove(*key));
                }
                Some(taken.1)
            },
            None => {
                assert(self@ =~= old(self)@.remove(*key));
                None
            },
        }
    }

    /// Makes `node` the child for `key`, in place of the one that stood
    /// there, if any. The other children stay.
    pub fn insert(&mut self, key: KeyString, node: KeyBindingsNode)
        ensures
            final(self)@ == old(self)@.insert(key, node),
    {
        let _ = self.remove(&key);
        proof {
            use_type_invariant(&*self);
        }
        let ghost before = self.entries@;
        let ghost middle = self@;
        assert(!middle.contains_key(key));
        assert(!has_key(before, key));
        let mut entries: Vec<(KeyString, KeyBindingsNode)> = Vec::new();
        core::mem::swap(&mut self.entries, &mut entries);
        entries.push((key, node));
        let ghost now = entries@;
        proof {
            assert forall|a: int, b: int| 0 <= a < b < now.len() implies (#[trigger] now[a]).0
                != (#[trigger] now[b]).0 by {
                if b == before.len() {
                    assert(before[a].0 != key);
                }
            }
        }
        core::mem::swap(&mut self.entries, &mut entries);
        proof {
            assert(now[before.len() as int].0 == key);
            lemma_place(now, before.len() as int);
            assert(self.entries@ == now);
            assert forall|k: KeyString| #[trigger] has_key(now, k) == (has_key(before, k) || k == key) by {
                if has_key(now, k) && k != key {
                    let a = place_of(now, k);
                    assert(before[a].0 == k);
                }
                if has_key(before, k) {
                    let a = place_of(before, k);
                    assert(now[a].0 == k);
                }
            }
            assert forall|k: KeyString| #[trigger] has_key(before, k) implies now[place_of(now, k)].1
                == before[place_of(before, k)].1 by {
                let a = place_of(before, k);
                assert(now[a] == before[a]);
                lemma_place(now, a);
            }
            assert(self@ =~= middle.insert(key, node));
            assert(old(self)@.remove(key).insert(key, node) =~= old(self)@.insert(key, node));
        }
    }
}


impl Default for KeyBindingsNode {
    /// A node with no action, no description and no children.
    fn default() -> (r: Self)
        ensures
            r.binding() == unbound(),
            r.next@ == Map::<KeyString, KeyBindingsNode>::empty(),
    {
        KeyBindingsNode { action: Action::NoOp, description: None, next: NextKeys::new() }
    }
}

impl KeyBindingsNode {
    /// The node's own action and description.
    pub open spec fn binding(self) -> Binding {
        Binding { action: self.action, description: text_of(self.description) }
    }

    /// Whether the node has no children.
    pub open spec fn is_leaf(self) -> bool {
        self.next@ == Map::<KeyString, KeyBindingsNode>::empty()
    }

    /// The node that `path` leads to from this one, chord by chord.
    pub open spec fn walk(self, path: Seq<KeyString>) -> Option<KeyBindingsNode>
        decreases path.len(),
    {
        if path.len() == 0 {
            Some(self)
        } else if self.next@.contains_key(path[0]) {
            self.next@[path[0]].walk(path.skip(1))
        } else {
            None
        }
    }

    /// The action and description bound to `path` in the tree under this
    /// node; `None` where the tree has no node there.
    pub open spec fn entry(self, path: Seq<KeyString>) -> Option<Binding> {
        match self.walk(path) {
            Some(node) => Some(node.binding()),
            None => None,
        }
    }

    /// A leaf that carries what `value` gives.
    pub fn from(value: KeyBindingValue) -> (r: Self)
        ensures
            r.binding() == value.binding(),
            r.is_leaf(),
    {
        match value {
            KeyBindingValue::Simple(action) => KeyBindingsNode {
                action,
                description: None,
                next: NextKeys::new(),
            },
            KeyBindingValue::Detailed { action, description } => KeyBindingsNode {
                action,
                description,
                next: NextKeys::new(),
            },
        }
    }

    /// Replaces the node's action. Its description and children stay.
    pub fn set_action(&mut self, action: Action)
        ensures
            final(self).action == action,
            final(self).description == old(self).description,
            final(self).next == old(self).next,
    {
        self.action = action;
    }
}

/// Whether `path` is the start of `sequence` and shorter than it.
pub open spec fn is_proper_prefix(path: Seq<KeyString>, sequence: Seq<KeyString>) -> bool {
    path.len() < sequence.len() && path == sequence.subrange(0, path.len() as int)
}

/// What a tree holds at `path` once `sequence` has been bound to `binding`,
/// where it held `before`: the binding at the end of the sequence, a node
/// without action where a step of the sequence was missing, and everywhere
/// else what was there.
pub open spec fn bound_after(
    before: Option<Binding>,
    path: Seq<KeyString>,
    sequence: Seq<KeyString>,
    binding: Binding,
) -> Option<Binding> {
    if path == sequence {
        Some(binding)
    } else if before is None && is_proper_prefix(path, sequence) {
        Some(unbound())
    } else {
        before
    }
}

proof fn lemma_step_in(path: Seq<KeyString>, sequence: Seq<KeyString>)
    requires
        path.len() > 0,
        sequence.len() > 0,
        path[0] == sequence[0],
    ensures
        (path == sequence) == (path.skip(1) == sequence.skip(1)),
        is_proper_prefix(path, sequence) == is_proper_prefix(path.skip(1), sequence.skip(1)),
{
    if path.skip(1) == sequence.skip(1) {
        assert(path =~= seq![path[0]] + path.skip(1));
        assert(sequence =~= seq![sequence[0]] + sequence.skip(1));
    }
    let n = path.len() as int;
    if n < sequence.len() {
        let head = sequence.subrange(0, n);
        let tail = sequence.skip(1).subrange(0, n - 1);
        if path == head {
            assert(path.skip(1) =~= tail);
        }
        if path.skip(1) == tail {
            assert forall|i: int| 0 <= i < n implies path[i] == head[i] by {
                if i > 0 {
                    assert(path[i] == path.skip(1)[i - 1]);
                    assert(tail[i - 1] == sequence[i]);
                }
            }
            assert(path =~= head);
        }
    }
}

/// Binds the chords of `key_events[i..]` under `node`.
fn add_from(node: &mut KeyBindingsNode, key_events: &Vec<KeyEvent>, i: usize, value: KeyBindingValue)
    requires
        i < key_events.len(),
    ensures
        forall|path: Seq<KeyString>| #[trigger]
            final(node).entry(path) == bound_after(
                old(node).entry(path),
                path,
                chords_of(key_events@).skip(i as int),
                value.binding(),
            ),
    decreases key_events.len() - i,
{
    let key = KeyString::from(key_events[i]);
    let ghost sequence = chords_of(key_events@).skip(i as int);
    let ghost start = *node;
    let ghost had = start.next@.contains_key(key);
    let is_last = i + 1 == key_events.len();
    assert(sequence[0] == key);
    assert(sequence.skip(1) =~= chords_of(key_events@).skip(i + 1));
    let found = node.next.remove(&key);
    let ghost base: KeyBindingsNode;
    let child = if is_last {
        let (action, description) = match value {
            KeyBindingValue::Simple(action) => (action, None),
            KeyBindingValue::Detailed { action, description } => (action, description),
        };
        match found {
            Some(mut child) => {
                proof {
                    base = child;
                }
                child.action = action;
                child.description = description;
                child
            },
            None => {
                let child = KeyBindingsNode { action, description, next: NextKeys::new() };
                proof {
                    base = child;
                }
                child
            },
        }
    } else {
        let mut child = match found {
            Some(child) => child,
            None => KeyBindingsNode::default(),
        };
        proof {
            base = child;
        }
        add_from(&mut child, key_events, i + 1, value);
        child
    };
    node.next.insert(key, child);
    proof {
        let end = *node;
        assert(end.next@ =~= start.next@.insert(key, child));
        assert forall|path: Seq<KeyString>| #[trigger]
            end.entry(path) == bound_after(start.entry(path), path, sequence, value.binding()) by {
            if path.len() == 0 {
                assert(end.binding() == start.binding());
            } else if path[0] != key {
                assert(end.next@.contains_key(path[0]) == start.next@.contains_key(path[0]));
            } else {
                let rest = path.skip(1);
                lemma_step_in(path, sequence);
                assert(end.entry(path) == child.entry(rest));
                if is_last {
                    assert(sequence.len() == 1);
                    if rest.len() == 0 {
                        assert(path =~= sequence);
                    } else {
                        assert(child.next@ == base.next@);
                        assert(child.walk(rest) == base.walk(rest));
                        if had {
                            assert(base == start.next@[key]);
                        } else {
                            assert(!base.next@.contains_key(rest[0]));
                        }
                    }
                } else {
                    assert(child.entry(rest) == bound_after(
                        base.entry(rest),
                        rest,
                        sequence.skip(1),
                        value.binding(),
                    ));
                    if had {
                        assert(base == start.next@[key]);
                    } else {
                        if rest.len() > 0 {
                            assert(!base.next@.contains_key(rest[0]));
                        } else {
                            assert(path =~= sequence.subrange(0, 1));
                        }
                    }
                }
            }
        }
    }
}

/// Binds a chord sequence in the tree under `root`. Each step of the
/// sequence but the last uses the node that is there, or makes one without
/// action; the node at the end gets the action and description of `value`
/// and keeps the children it had. Every other binding of the tree stays. An
/// empty sequence changes nothing.
pub fn add_binding_to_tree(
    root: &mut KeyBindingsNode,
    key_events: Vec<KeyEvent>,
    value: KeyBindingValue,
)
    ensures
        key_events@.len() == 0 ==> *final(root) == *old(root),
        key_events@.len() > 0 ==> forall|path: Seq<KeyString>| #[trigger]
            final(root).entry(path) == bound_after(
                old(root).entry(path),
                path,
                chords_of(key_events@),
                value.binding(),
            ),
{
    if key_events.len() > 0 {
        assert(chords_of(key_events@).skip(0) =~= chords_of(key_events@));
        add_from(root, &key_events, 0, value);
    }
}


/// What a tree without any binding holds at `path`: its root, and nothing
/// else.
pub open spec fn nothing_bound(path: Seq<KeyString>) -> Option<Binding> {
    if path.len() == 0 {
        Some(unbound())
    } else {
        None
    }
}

/// A tree into which one sequence alone was bound holds the binding at the
/// end of the sequence, and nothing beyond it.
pub proof fn lemma_single_binding(tree: KeyBindingsNode, sequence: Seq<KeyString>, binding: Binding)
    requires
        sequence.len() > 0,
        forall|path: Seq<KeyString>| #[trigger]
            tree.entry(path) == bound_after(nothing_bound(path), path, sequence, binding),
    ensures
        tree.entry(sequence) == Some(binding),
        forall|key: KeyString| tree.entry(#[trigger] sequence.push(key)) is None,
{
    assert forall|key: KeyString| tree.entry(#[trigger] sequence.push(key)) is None by {
        let longer = sequence.push(key);
        assert(longer.len() != sequence.len());
    }
}

/// Where two different sequences are bound one after the other, the tree
/// holds both bindings; so it does where one sequence is the start of the
/// other, whichever of the two is bound first.
pub proof fn lemma_two_bindings_coexist(
    start: KeyBindingsNode,
    middle: KeyBindingsNode,
    end: KeyBindingsNode,
    first: Seq<KeyString>,
    first_binding: Binding,
    second: Seq<KeyString>,
    second_binding: Binding,
)
    requires
        first.len() > 0,
        second.len() > 0,
        first != second,
        forall|path: Seq<KeyString>| #[trigger]
            middle.entry(path) == bound_after(start.entry(path), path, first, first_binding),
        forall|path: Seq<KeyString>| #[trigger]
            end.entry(path) == bound_after(middle.entry(path), path, second, second_binding),
    ensures
        end.entry(first) == Some(first_binding),
        end.entry(second) == Some(second_binding),
{
    assert(middle.entry(first) == Some(first_binding));
    assert(end.entry(first) == bound_after(middle.entry(first), first, second, second_binding));
}

/// The bindings of a session: for each key mode that has any, the root of
/// its binding tree.
#[derive(Debug)]
pub struct KeyBindings {
    torrent_list: Option<KeyBindingsNode>,
    add_torrent: Option<KeyBindingsNode>,
}

/// The key modes that have a tree in `table`, in the order in which the
/// modes are declared.
pub open spec fn modes_of(table: Map<KeyMode, KeyBindingsNode>) -> Seq<KeyMode> {
    let first = if table.contains_key(KeyMode::TorrentList) {
        seq![KeyMode::TorrentList]
    } else {
        Seq::empty()
    };
    if table.contains_key(KeyMode::AddTorrent) {
        first.push(KeyMode::AddTorrent)
    } else {
        first
    }
}

impl View for KeyBindings {
    type V = Map<KeyMode, KeyBindingsNode>;

    /// The table as a map from key mode to the root of its tree.
    closed spec fn view(&self) -> Map<KeyMode, KeyBindingsNode> {
        Map::new(
            |mode: KeyMode|
                match mode {
                    KeyMode::TorrentList => self.torrent_list is Some,
                    KeyMode::AddTorrent => self.add_torrent is Some,
                },
            |mode: KeyMode|
                match mode {
                    KeyMode::TorrentList => self.torrent_list->0,
                    KeyMode::AddTorrent => self.add_torrent->0,
                },
        )
    }
}

impl Default for KeyBindings {
    /// A table without any tree.
    fn default() -> (r: Self)
        ensures
            r@ == Map::<KeyMode, KeyBindingsNode>::empty(),
    {
        let r = KeyBindings { torrent_list: None, add_torrent: None };
        assert(r@ =~= Map::<KeyMode, KeyBindingsNode>::empty());
        r
    }
}

impl KeyBindings {
    /// Makes `root` the tree of `mode`, in place of the one it had, if any.
    pub fn insert(&mut self, mode: KeyMode, root: KeyBindingsNode)
        ensures
            final(self)@ == old(self)@.insert(mode, root),
    {
        match mode {
            KeyMode::TorrentList => {
                self.torrent_list = Some(root);
            },
            KeyMode::AddTorrent => {
                self.add_torrent = Some(root);
            },
        }
        assert(self@ =~= old(self)@.insert(mode, root));
    }

    /// The root of the tree of `mode`.
    pub fn get(&self, mode: &KeyMode) -> (r: Option<&KeyBindingsNode>)
        ensures
            match r {
                Some(root) => self@.contains_key(*mode) && *root == self@[*mode],
                None => !self@.contains_key(*mode),
            },
    {
        match mode {
            KeyMode::TorrentList => self.torrent_list.as_ref(),
            KeyMode::AddTorrent => self.add_torrent.as_ref(),
        }
    }

    /// Whether `mode` has a tree.
    pub fn contains_key(&self, mode: &KeyMode) -> (r: bool)
        ensures
            r == self@.contains_key(*mode),
    {
        self.get(mode).is_some()
    }

    /// The key modes that have a tree.
    pub fn keys(&self) -> (r: Vec<KeyMode>)
        ensures
            r@ == modes_of(self@),
    {
        let mut modes: Vec<KeyMode> = Vec::new();
        if self.torrent_list.is_some() {
            modes.push(KeyMode::TorrentList);
        }
        if self.add_torrent.is_some() {
            modes.push(KeyMode::AddTorrent);
        }
        assert(modes@ =~= modes_of(self@));
        modes
    }
}


/// The first fault among the chord-sequence texts of `bindings` from the
/// `i`-th on: why the text is refused, and the text.
pub open spec fn fault_from(bindings: Seq<(String, KeyBindingValue)>, i: int) -> Option<
    (KeyErrorKind, Seq<char>),
>
    decreases bindings.len() - i,
{
    if i < 0 || i >= bindings.len() {
        None
    } else {
        match parse_text(bindings[i].0@) {
            Err(kind) => Some((kind, bindings[i].0@)),
            Ok(_) => fault_from(bindings, i + 1),
        }
    }
}

/// What the tree built from the first `n` of `bindings` holds at `path`.
/// The bindings are taken in order, so of two for one sequence the later
/// one stands.
pub open spec fn bound_by(bindings: Seq<(String, KeyBindingValue)>, n: int, path: Seq<KeyString>) -> Option<
    Binding,
>
    decreases n,
{
    if n <= 0 {
        nothing_bound(path)
    } else {
        let before = bound_by(bindings, n - 1, path);
        match parse_text(bindings[n - 1].0@) {
            Ok(key_events) => if key_events.len() == 0 {
                before
            } else {
                bound_after(before, path, chords_of(key_events), bindings[n - 1].1.binding())
            },
            Err(_) => before,
        }
    }
}

/// Builds the tree of one key mode from its bindings as the configuration
/// gives them: chord-sequence text and value. The first text that breaks
/// the grammar refuses the whole.
pub fn build_tree(bindings: &Vec<(String, KeyBindingValue)>) -> (r: Result<
    KeyBindingsNode,
    KeySequenceError,
>)
    ensures
        match r {
            Ok(tree) => fault_from(bindings@, 0) is None && forall|path: Seq<KeyString>| #[trigger]
                tree.entry(path) == bound_by(bindings@, bindings@.len() as int, path),
            Err(e) => fault_from(bindings@, 0) == Some((e.kind, e.raw@)),
        },
{
    let mut tree = KeyBindingsNode::default();
    let mut i: usize = 0;
    assert forall|path: Seq<KeyString>| #[trigger] tree.entry(path) == bound_by(bindings@, 0, path) by {
        if path.len() > 0 {
            assert(!tree.next@.contains_key(path[0]));
        }
    }
    while i < bindings.len()
        invariant
            i <= bindings@.len(),
            fault_from(bindings@, 0) == fault_from(bindings@, i as int),
            forall|path: Seq<KeyString>| #[trigger]
                tree.entry(path) == bound_by(bindings@, i as int, path),
        decreases bindings@.len() - i,
    {
        match parse_key_sequence(bindings[i].0.as_str()) {
            Err(e) => {
                return Err(e);
            },
            Ok(key_events) => {
                let value = bindings[i].1.clone();
                let ghost before = tree;
                add_binding_to_tree(&mut tree, key_events, value);
                assert forall|path: Seq<KeyString>| #[trigger]
                    tree.entry(path) == bound_by(bindings@, i + 1, path) by {
                    assert(before.entry(path) == bound_by(bindings@, i as int, path));
                }
            },
        }
        i += 1;
    }
    Ok(tree)
}

/// The first fault among the texts of `tables` from the `i`-th mode's
/// bindings on.
pub open spec fn table_fault_from(tables: Seq<(KeyMode, Vec<(String, KeyBindingValue)>)>, i: int) -> Option<
    (KeyErrorKind, Seq<char>),
>
    decreases tables.len() - i,
{
    if i < 0 || i >= tables.len() {
        None
    } else {
        match fault_from(tables[i].1@, 0) {
            Some(fault) => Some(fault),
            None => table_fault_from(tables, i + 1),
        }
    }
}

/// The place of the last among the first `n` of `tables` that is for
/// `mode`.
pub open spec fn last_given(tables: Seq<(KeyMode, Vec<(String, KeyBindingValue)>)>, n: int, mode: KeyMode) -> Option<
    int,
>
    decreases n,
{
    if n <= 0 {
        None
    } else if tables[n - 1].0 == mode {
        Some(n - 1)
    } else {
        last_given(tables, n - 1, mode)
    }
}

/// Whether `table` holds, for each key mode, the tree of the bindings
/// that the first `n` of `tables` give last for it, and no tree for a mode
/// that they give none for.
pub open spec fn holds_tables(
    table: Map<KeyMode, KeyBindingsNode>,
    tables: Seq<(KeyMode, Vec<(String, KeyBindingValue)>)>,
    n: int,
) -> bool {
    forall|mode: KeyMode|
        match #[trigger] last_given(tables, n, mode) {
            Some(j) => table.contains_key(mode) && forall|path: Seq<KeyString>| #[trigger]
                table[mode].entry(path) == bound_by(tables[j].1@, tables[j].1@.len() as int, path),
            None => !table.contains_key(mode),
        }
}

impl KeyBindings {
    /// Builds the table from the configuration: for each key mode its
    /// bindings. A text that breaks the grammar refuses the whole table.
    pub fn from_config(tables: &Vec<(KeyMode, Vec<(String, KeyBindingValue)>)>) -> (r: Result<
        KeyBindings,
        KeySequenceError,
    >)
        ensures
            match r {
                Ok(table) => table_fault_from(tables@, 0) is None && holds_tables(
                    table@,
                    tables@,
                    tables@.len() as int,
                ),
                Err(e) => table_fault_from(tables@, 0) == Some((e.kind, e.raw@)),
            },
    {
        let mut table = KeyBindings::default();
        let mut i: usize = 0;
        while i < tables.len()
            invariant
                i <= tables@.len(),
                table_fault_from(tables@, 0) == table_fault_from(tables@, i as int),
                holds_tables(table@, tables@, i as int),
            decreases tables@.len() - i,
        {
            match build_tree(&tables[i].1) {
                Err(e) => {
                    return Err(e);
                },
                Ok(tree) => {
                    let ghost before = table@;
                    table.insert(tables[i].0, tree);
                    assert forall|mode: KeyMode|
                        match #[trigger] last_given(tables@, i + 1, mode) {
                            Some(j) => table@.contains_key(mode) && forall|path: Seq<KeyString>| #[trigger]
                                table@[mode].entry(path) == bound_by(
                                    tables@[j].1@,
                                    tables@[j].1@.len() as int,
                                    path,
                                ),
                            None => !table@.contains_key(mode),
                        } by {
                        if tables@[i as int].0 != mode {
                            assert(last_given(tables@, i + 1, mode) == last_given(
                                tables@,
                                i as int,
                                mode,
                            ));
                        }
                    }
                },
            }
            i += 1;
        }
        Ok(table)
    }
}

} // verus!

use crate::key_event::{ascii_lower, to_ascii_lower, KeyCode, KeyEvent, KeyModifiers};
use vstd::prelude::*;
use vstd::string::*;

verus! {

/// Why a chord-sequence text is refused.
#[derive(Debug, Clone, Copy, PartialEq, Eq, Structural)]
pub enum KeyErrorKind {
    /// A segment does not start with `<`.
    MissingOpen,
    /// A `<` has no `>` after it.
    Unclosed,
    /// The text between `<` and `>` names no key.
    UnknownKey,
}

/// A refused chord-sequence text: the reason and the text as it was given.
#[derive(Debug)]
pub struct KeySequenceError {
    pub kind: KeyErrorKind,
    pub raw: String,
}

impl KeySequenceError {
    /// The text of the message for an error of `kind` on the text `raw`.
    pub open spec fn spec_message(kind: KeyErrorKind, raw: Seq<char>) -> Seq<char> {
        match kind {
            KeyErrorKind::MissingOpen => "Expected '<' at start of key segment in `"@ + raw + "`"@,
            KeyErrorKind::Unclosed => "Unclosed '<' in `"@ + raw + "`"@,
            KeyErrorKind::UnknownKey => "Unable to parse `"@ + raw + "`"@,
        }
    }

    /// A message for the user; it holds the refused text.
    pub fn message(&self) -> (r: String)
        ensures
            r@ == Self::spec_message(self.kind, self.raw@),
    {
        let mut out = match self.kind {
            KeyErrorKind::MissingOpen => String::from_str(
                "Expected '<' at start of key segment in `",
            ),
            KeyErrorKind::Unclosed => String::from_str("Unclosed '<' in `"),
            KeyErrorKind::UnknownKey => String::from_str("Unable to parse `"),
        };
        out.append(self.raw.as_str());
        out.append("`");
        out
    }
}

/// `s` with every ASCII upper-case letter replaced by its lower-case form.
pub open spec fn lower_seq(s: Seq<char>) -> Seq<char> {
    Seq::new(s.len(), |i: int| ascii_lower(s[i]))
}

/// Whether `s` starts with `word`, letter case aside. `word` is lower-case.
pub open spec fn starts_with_word(s: Seq<char>, word: Seq<char>) -> bool {
    word.len() <= s.len() && lower_seq(s.subrange(0, word.len() as int)) == word
}

pub open spec fn ctrl_prefix() -> Seq<char> {
    seq!['c', 't', 'r', 'l', '-']
}

pub open spec fn alt_prefix() -> Seq<char> {
    seq!['a', 'l', 't', '-']
}

pub open spec fn shift_prefix() -> Seq<char> {
    seq!['s', 'h', 'i', 'f', 't', '-']
}

/// Takes the modifier prefixes off the front of a segment, in whatever order
/// and number they stand there, and adds each to `held`. The result is what
/// is left of the segment, which names the key, and the modifiers.
pub open spec fn strip_modifiers(seg: Seq<char>, held: KeyModifiers) -> (Seq<char>, KeyModifiers)
    decreases seg.len(),
{
    if starts_with_word(seg, ctrl_prefix()) {
        strip_modifiers(seg.skip(5), KeyModifiers { control: true, ..held })
    } else if starts_with_word(seg, alt_prefix()) {
        strip_modifiers(seg.skip(4), KeyModifiers { alt: true, ..held })
    } else if starts_with_word(seg, shift_prefix()) {
        strip_modifiers(seg.skip(6), KeyModifiers { shift: true, ..held })
    } else {
        (seg, held)
    }
}

/// A character that is no control character.
pub open spec fn is_printable(c: char) -> bool {
    c >= ' ' && !('\u{7f}' <= c && c <= '\u{9f}')
}

/// The key that a key name stands for. The names of the special keys are
/// read without regard to letter case; a single printable character names
/// itself, as it is written.
pub open spec fn key_named(name: Seq<char>) -> Option<KeyCode> {
    let l = lower_seq(name);
    if l == "esc"@ {
        Some(KeyCode::Esc)
    } else if l == "enter"@ {
        Some(KeyCode::Enter)
    } else if l == "left"@ {
        Some(KeyCode::Left)
    } else if l == "right"@ {
        Some(KeyCode::Right)
    } else if l == "up"@ {
        Some(KeyCode::Up)
    } else if l == "down"@ {
        Some(KeyCode::Down)
    } else if l == "home"@ {
        Some(KeyCode::Home)
    } else if l == "end"@ {
        Some(KeyCode::End)
    } else if l == "pageup"@ {
        Some(KeyCode::PageUp)
    } else if l == "pagedown"@ {
        Some(KeyCode::PageDown)
    } else if l == "backtab"@ {
        Some(KeyCode::BackTab)
    } else if l == "backspace"@ {
        Some(KeyCode::Backspace)
    } else if l == "delete"@ {
        Some(KeyCode::Delete)
    } else if l == "insert"@ {
        Some(KeyCode::Insert)
    } else if l == "f1"@ {
        Some(KeyCode::F(1))
    } else if l == "f2"@ {
        Some(KeyCode::F(2))
    } else if l == "f3"@ {
        Some(KeyCode::F(3))
    } else if l == "f4"@ {
        Some(KeyCode::F(4))
    } else if l == "f5"@ {
        Some(KeyCode::F(5))
    } else if l == "f6"@ {
        Some(KeyCode::F(6))
    } else if l == "f7"@ {
        Some(KeyCode::F(7))
    } else if l == "f8"@ {
        Some(KeyCode::F(8))
    } else if l == "f9"@ {
        Some(KeyCode::F(9))
    } else if l == "f10"@ {
        Some(KeyCode::F(10))
    } else if l == "f11"@ {
        Some(KeyCode::F(11))
    } else if l == "f12"@ {
        Some(KeyCode::F(12))
    } else if l == "space"@ {
        Some(KeyCode::Char(' '))
    } else if l == "hyphen"@ || l == "minus"@ {
        Some(KeyCode::Char('-'))
    } else if l == "tab"@ {
        Some(KeyCode::Tab)
    } else if name.len() == 1 && is_printable(name[0]) {
        Some(KeyCode::Char(name[0]))
    } else {
        None
    }
}

/// The key press that one segment, the text between `<` and `>`, stands
/// for, in normal form; `None` where the segment names no key.
pub open spec fn parse_chord(seg: Seq<char>) -> Option<KeyEvent> {
    let (name, held) = strip_modifiers(seg, KeyModifiers { shift: false, control: false, alt: false });
    match key_named(name) {
        Some(code) => Some((KeyEvent { code, modifiers: held }).spec_normalized()),
        None => None,
    }
}

/// The number of characters from `start` up to the first `>` at or after
/// it; `None` where there is none.
pub open spec fn segment_len(text: Seq<char>, start: int) -> Option<nat>
    decreases text.len() - start,
{
    if start < 0 || start >= text.len() {
        None
    } else if text[start] == '>' {
        Some(0)
    } else {
        match segment_len(text, start + 1) {
            Some(n) => Some(n + 1),
            None => None,
        }
    }
}

/// `found` put in front of the key presses of `rest`; the error of `rest`
/// where it is one.
pub open spec fn after(found: Seq<KeyEvent>, rest: Result<Seq<KeyEvent>, KeyErrorKind>) -> Result<
    Seq<KeyEvent>,
    KeyErrorKind,
> {
    match rest {
        Ok(more) => Ok(found + more),
        Err(kind) => Err(kind),
    }
}

/// What the text from `pos` on stands for: the key presses of its segments
/// in order, or the first fault met when reading from left to right.
pub open spec fn parse_from(text: Seq<char>, pos: int) -> Result<Seq<KeyEvent>, KeyErrorKind>
    decreases text.len() - pos,
    via parse_from_ends
{
    if pos < 0 || pos >= text.len() {
        Ok(Seq::empty())
    } else if text[pos] != '<' {
        Err(KeyErrorKind::MissingOpen)
    } else {
        match segment_len(text, pos + 1) {
            None => Err(KeyErrorKind::Unclosed),
            Some(n) => match parse_chord(text.subrange(pos + 1, pos + 1 + n)) {
                None => Err(KeyErrorKind::UnknownKey),
                Some(event) => after(seq![event], parse_from(text, pos + n + 2)),
            },
        }
    }
}

#[via_fn]
proof fn parse_from_ends(text: Seq<char>, pos: int) {
    if 0 <= pos {
        lemma_segment_len(text, pos + 1);
    }
}

/// What a chord-sequence text stands for.
pub open spec fn parse_text(raw: Seq<char>) -> Result<Seq<KeyEvent>, KeyErrorKind> {
    parse_from(raw, 0)
}

/// A segment length that was found ends inside the text, on a `>`.
pub proof fn lemma_segment_len(text: Seq<char>, start: int)
    requires
        0 <= start,
    ensures
        match segment_len(text, start) {
            Some(n) => start + n < text.len() && text[start + n] == '>' && forall|j: int|
                start <= j < start + n ==> text[j] != '>',
            None => forall|j: int| start <= j < text.len() ==> text[j] != '>',
        },
    decreases text.len() - start,
{
    if start < text.len() && text[start] != '>' {
        lemma_segment_len(text, start + 1);
    }
}

/// Whether `word` is one of the three modifier prefixes, in any letter
/// case.
pub open spec fn is_modifier_word(word: Seq<char>) -> bool {
    lower_seq(word) == ctrl_prefix() || lower_seq(word) == alt_prefix() || lower_seq(word)
        == shift_prefix()
}

/// `held` with the modifier that the prefix `word` names.
pub open spec fn with_modifier(held: KeyModifiers, word: Seq<char>) -> KeyModifiers {
    if lower_seq(word) == ctrl_prefix() {
        KeyModifiers { control: true, ..held }
    } else if lower_seq(word) == alt_prefix() {
        KeyModifiers { alt: true, ..held }
    } else {
        KeyModifiers { shift: true, ..held }
    }
}

/// A modifier prefix in front of a segment, in any letter case, adds its
/// modifier and leaves the rest of the segment to be read.
pub proof fn lemma_leading_modifier(word: Seq<char>, seg: Seq<char>, held: KeyModifiers)
    requires
        is_modifier_word(word),
    ensures
        strip_modifiers(word + seg, held) == strip_modifiers(seg, with_modifier(held, word)),
{
    let whole = word + seg;
    let low = lower_seq(word);
    assert(low.len() == word.len());
    assert(whole.subrange(0, word.len() as int) =~= word);
    assert(whole.skip(word.len() as int) =~= seg);
    assert(low[0] == ascii_lower(word[0]));
    assert(whole[0] == word[0]);
    if whole.len() >= 5 {
        assert(lower_seq(whole.subrange(0, 5))[0] == ascii_lower(whole.subrange(0, 5)[0]));
    }
    if whole.len() >= 4 {
        assert(lower_seq(whole.subrange(0, 4))[0] == ascii_lower(whole.subrange(0, 4)[0]));
    }
    if low == ctrl_prefix() {
        assert(ctrl_prefix()[0] == 'c');
    } else if low == alt_prefix() {
        assert(alt_prefix()[0] == 'a');
        assert(ctrl_prefix()[0] == 'c');
    } else {
        assert(shift_prefix()[0] == 's');
        assert(alt_prefix()[0] == 'a');
        assert(ctrl_prefix()[0] == 'c');
    }
}

/// The order in which two modifier prefixes stand in a segment does not
/// matter to the key press that the segment stands for.
pub proof fn lemma_modifier_order(first: Seq<char>, second: Seq<char>, seg: Seq<char>)
    requires
        is_modifier_word(first),
        is_modifier_word(second),
    ensures
        parse_chord(first + second + seg) == parse_chord(second + first + seg),
{
    let none = KeyModifiers { shift: false, control: false, alt: false };
    assert(first + second + seg =~= first + (second + seg));
    assert(second + first + seg =~= second + (first + seg));
    lemma_leading_modifier(first, second + seg, none);
    lemma_leading_modifier(second, seg, with_modifier(none, first));
    lemma_leading_modifier(second, first + seg, none);
    lemma_leading_modifier(first, seg, with_modifier(none, second));
    assert(with_modifier(with_modifier(none, first), second) == with_modifier(
        with_modifier(none, second),
        first,
    ));
}

/// Only the empty text stands for no key press at all.
pub proof fn lemma_no_chords_only_for_empty_text(raw: Seq<char>)
    ensures
        parse_text(raw) == Ok::<Seq<KeyEvent>, KeyErrorKind>(Seq::empty()) <==> raw.len() == 0,
{
    if raw.len() > 0 && raw[0] == '<' {
        match segment_len(raw, 1) {
            Some(n) => {
                match parse_chord(raw.subrange(1, 1 + n as int)) {
                    Some(event) => {
                        match parse_from(raw, n as int + 2) {
                            Ok(more) => {
                                assert((seq![event] + more).len() > 0);
                            },
                            Err(_) => {},
                        }
                    },
                    None => {},
                }
            },
            None => {},
        }
    }
}

/// Whether the characters of `text` from `from` up to `to`, in lower case,
/// spell `word`.
fn spells(text: &Vec<char>, from: usize, to: usize, word: &str) -> (r: bool)
    requires
        from <= to <= text.len(),
    ensures
        r == (lower_seq(text@.subrange(from as int, to as int)) == word@),
{
    let n = word.unicode_len();
    let ghost part = lower_seq(text@.subrange(from as int, to as int));
    if to - from != n {
        return false;
    }
    let mut i: usize = 0;
    while i < n
        invariant
            i <= n,
            n == to - from,
            n == word@.len(),
            from <= to <= text.len(),
            part == lower_seq(text@.subrange(from as int, to as int)),
            forall|j: int| 0 <= j < i ==> part[j] == word@[j],
        decreases n - i,
    {
        if to_ascii_lower(text[from + i]) != word.get_char(i) {
            assert(part[i as int] != word@[i as int]);
            return false;
        }
        i += 1;
    }
    assert(part =~= word@);
    true
}

/// Where `word` ends if the text from `pos` up to `to` starts with it,
/// letter case aside.
fn after_word(text: &Vec<char>, pos: usize, to: usize, word: &str) -> (r: Option<usize>)
    requires
        pos <= to <= text.len(),
    ensures
        r is Some == starts_with_word(text@.subrange(pos as int, to as int), word@),
        r is Some ==> r->0 == pos + word@.len() && r->0 <= to,
{
    let n = word.unicode_len();
    if to - pos < n {
        return None;
    }
    assert(text@.subrange(pos as int, to as int).subrange(0, n as int) =~= text@.subrange(
        pos as int,
        pos + n,
    ));
    if spells(text, pos, pos + n, word) {
        Some(pos + n)
    } else {
        None
    }
}

/// Reads the modifier prefixes of the segment `from..to`: the place where
/// the key's name starts, and the modifiers.
fn extract_modifiers(text: &Vec<char>, from: usize, to: usize) -> (r: (usize, KeyModifiers))
    requires
        from <= to <= text.len(),
    ensures
        from <= r.0 <= to,
        (text@.subrange(r.0 as int, to as int), r.1) == strip_modifiers(
            text@.subrange(from as int, to as int),
            KeyModifiers { shift: false, control: false, alt: false },
        ),
{
    let mut pos = from;
    let mut held = KeyModifiers::empty();
    proof {
        reveal_strlit("ctrl-");
        reveal_strlit("alt-");
        reveal_strlit("shift-");
        assert("ctrl-"@ =~= ctrl_prefix());
        assert("alt-"@ =~= alt_prefix());
        assert("shift-"@ =~= shift_prefix());
    }
    loop
        invariant
            from <= pos <= to <= text.len(),
            "ctrl-"@ == ctrl_prefix(),
            "alt-"@ == alt_prefix(),
            "shift-"@ == shift_prefix(),
            strip_modifiers(text@.subrange(pos as int, to as int), held) == strip_modifiers(
                text@.subrange(from as int, to as int),
                KeyModifiers { shift: false, control: false, alt: false },
            ),
        ensures
            from <= pos <= to,
            (text@.subrange(pos as int, to as int), held) == strip_modifiers(
                text@.subrange(from as int, to as int),
                KeyModifiers { shift: false, control: false, alt: false },
            ),
        decreases to - pos,
    {
        let ghost seg = text@.subrange(pos as int, to as int);
        if let Some(next) = after_word(text, pos, to, "ctrl-") {
            assert(seg.skip(5) =~= text@.subrange(next as int, to as int));
            held.insert(KeyModifiers::control());
            pos = next;
        } else if let Some(next) = after_word(text, pos, to, "alt-") {
            assert(seg.skip(4) =~= text@.subrange(next as int, to as int));
            held.insert(KeyModifiers::alt());
            pos = next;
        } else if let Some(next) = after_word(text, pos, to, "shift-") {
            assert(seg.skip(6) =~= text@.subrange(next as int, to as int));
            held.insert(KeyModifiers::shift());
            pos = next;
        } else {
            break ;
        }
    }
    (pos, held)
}

/// Reads a key's name, the characters `from..to` of `text`.
fn parse_key_code(text: &Vec<char>, from: usize, to: usize) -> (r: Option<KeyCode>)
    requires
        from <= to <= text.len(),
    ensures
        r == key_named(text@.subrange(from as int, to as int)),
{
    if spells(text, from, to, "esc") {
        Some(KeyCode::Esc)
    } else if spells(text, from, to, "enter") {
        Some(KeyCode::Enter)
    } else if spells(text, from, to, "left") {
        Some(KeyCode::Left)
    } else if spells(text, from, to, "right") {
        Some(KeyCode::Right)
    } else if spells(text, from, to, "up") {
        Some(KeyCode::Up)
    } else if spells(text, from, to, "down") {
        Some(KeyCode::Down)
    } else if spells(text, from, to, "home") {
        Some(KeyCode::Home)
    } else if spells(text, from, to, "end") {
        Some(KeyCode::End)
    } else if spells(text, from, to, "pageup") {
        Some(KeyCode::PageUp)
    } else if spells(text, from, to, "pagedown") {
        Some(KeyCode::PageDown)
    } else if spells(text, from, to, "backtab") {
        Some(KeyCode::BackTab)
    } else if spells(text, from, to, "backspace") {
        Some(KeyCode::Backspace)
    } else if spells(text, from, to, "delete") {
        Some(KeyCode::Delete)
    } else if spells(text, from, to, "insert") {
        Some(KeyCode::Insert)
    } else if spells(text, from, to, "f1") {
        Some(KeyCode::F(1))
    } else if spells(text, from, to, "f2") {
        Some(KeyCode::F(2))
    } else if spells(text, from, to, "f3") {
        Some(KeyCode::F(3))
    } else if spells(text, from, to, "f4") {
        Some(KeyCode::F(4))
    } else if spells(text, from, to, "f5") {
        Some(KeyCode::F(5))
    } else if spells(text, from, to, "f6") {
        Some(KeyCode::F(6))
    } else if spells(text, from, to, "f7") {
        Some(KeyCode::F(7))
    } else if spells(text, from, to, "f8") {
        Some(KeyCode::F(8))
    } else if spells(text, from, to, "f9") {
        Some(KeyCode::F(9))
    } else if spells(text, from, to, "f10") {
        Some(KeyCode::F(10))
    } else if spells(text, from, to, "f11") {
        Some(KeyCode::F(11))
    } else if spells(text, from, to, "f12") {
        Some(KeyCode::F(12))
    } else if spells(text, from, to, "space") {
        Some(KeyCode::Char(' '))
    } else if spells(text, from, to, "hyphen") || spells(text, from, to, "minus") {
        Some(KeyCode::Char('-'))
    } else if spells(text, from, to, "tab") {
        Some(KeyCode::Tab)
    } else if to - from == 1 {
        let c = text[from];
        if c >= ' ' && !('\u{7f}' <= c && c <= '\u{9f}') {
            Some(KeyCode::Char(c))
        } else {
            None
        }
    } else {
        None
    }
}

/// Reads one segment, the characters `from..to` of `text`.
fn parse_key_event(text: &Vec<char>, from: usize, to: usize) -> (r: Option<KeyEvent>)
    requires
        from <= to <= text.len(),
    ensures
        r == parse_chord(text@.subrange(from as int, to as int)),
{
    let (start, held) = extract_modifiers(text, from, to);
    match parse_key_code(text, start, to) {
        Some(code) => Some(KeyEvent::new(code, held).normalized()),
        None => None,
    }
}

/// The place of the first `>` at or after `start`.
fn find_close(text: &Vec<char>, start: usize) -> (r: Option<usize>)
    requires
        start <= text.len(),
    ensures
        match r {
            Some(end) => segment_len(text@, start as int) == Some((end - start) as nat) && start
                <= end < text.len(),
            None => segment_len(text@, start as int) is None,
        },
    decreases text.len() - start,
{
    if start >= text.len() {
        None
    } else if text[start] == '>' {
        Some(start)
    } else {
        find_close(text, start + 1)
    }
}

/// The characters of `raw`, one by one.
fn chars_of(raw: &str) -> (r: Vec<char>)
    ensures
        r@ == raw@,
{
    let n = raw.unicode_len();
    let mut text: Vec<char> = Vec::new();
    let mut i: usize = 0;
    while i < n
        invariant
            i <= n,
            n == raw@.len(),
            text@ == raw@.subrange(0, i as int),
        decreases n - i,
    {
        text.push(raw.get_char(i));
        assert(text@ =~= raw@.subrange(0, i + 1));
        i += 1;
    }
    assert(text@ =~= raw@);
    text
}

/// Reads a chord sequence: one or more segments `<...>`, each with its
/// modifier prefixes and a key name. The key presses come back in normal
/// form, in the order written; a text that breaks the grammar is refused
/// with the first fault and the text itself.
pub fn parse_key_sequence(raw: &str) -> (r: Result<Vec<KeyEvent>, KeySequenceError>)
    ensures
        match r {
            Ok(events) => parse_text(raw@) == Ok::<Seq<KeyEvent>, KeyErrorKind>(events@),
            Err(e) => parse_text(raw@) == Err::<Seq<KeyEvent>, KeyErrorKind>(e.kind) && e.raw@
                == raw@,
        },
{
    let text = chars_of(raw);
    let mut events: Vec<KeyEvent> = Vec::new();
    let mut pos: usize = 0;
    while pos < text.len()
        invariant
            pos <= text.len(),
            text@ == raw@,
            parse_text(raw@) == after(events@, parse_from(text@, pos as int)),
        decreases text.len() - pos,
    {
        if text[pos] != '<' {
            return Err(KeySequenceError { kind: KeyErrorKind::MissingOpen, raw: String::from_str(raw) });
        }
        match find_close(&text, pos + 1) {
            None => {
                return Err(KeySequenceError { kind: KeyErrorKind::Unclosed, raw: String::from_str(raw) });
            },
            Some(end) => {
                match parse_key_event(&text, pos + 1, end) {
                    None => {
                        return Err(
                            KeySequenceError { kind: KeyErrorKind::UnknownKey, raw: String::from_str(raw) },
                        );
                    },
                    Some(event) => {
                        proof {
                            let rest = parse_from(text@, end + 1);
                            match rest {
                                Ok(more) => {
                                    assert(events@ + (seq![event] + more) =~= events@.push(event)
                                        + more);
                                },
                                Err(_) => {},
                            }
                        }
                        events.push(event);
                        pos = end + 1;
                    },
                }
            },
        }
    }
    proof {
        assert(events@ + Seq::<KeyEvent>::empty() =~= events@);
    }
    Ok(events)
}

} // verus!

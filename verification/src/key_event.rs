use vstd::prelude::*;

verus! {

/// The key of a key press.
#[derive(Debug, Clone, Copy, PartialEq, Eq, Structural)]
pub enum KeyCode {
    Backspace,
    Enter,
    Left,
    Right,
    Up,
    Down,
    Home,
    End,
    PageUp,
    PageDown,
    Tab,
    BackTab,
    Delete,
    Insert,
    /// A function key, `F(1)` for F1.
    F(u8),
    /// A character key.
    Char(char),
    /// A key that no binding can name.
    Null,
    Esc,
}

/// The modifier keys held during a key press, as three independent flags.
#[derive(Debug, Clone, Copy, PartialEq, Eq, Structural)]
pub struct KeyModifiers {
    pub shift: bool,
    pub control: bool,
    pub alt: bool,
}

impl KeyModifiers {
    /// No modifier.
    pub fn empty() -> (r: Self)
        ensures
            r == (KeyModifiers { shift: false, control: false, alt: false }),
    {
        KeyModifiers { shift: false, control: false, alt: false }
    }

    /// Shift alone.
    pub fn shift() -> (r: Self)
        ensures
            r == (KeyModifiers { shift: true, control: false, alt: false }),
    {
        KeyModifiers { shift: true, control: false, alt: false }
    }

    /// Control alone.
    pub fn control() -> (r: Self)
        ensures
            r == (KeyModifiers { shift: false, control: true, alt: false }),
    {
        KeyModifiers { shift: false, control: true, alt: false }
    }

    /// Alt alone.
    pub fn alt() -> (r: Self)
        ensures
            r == (KeyModifiers { shift: false, control: false, alt: true }),
    {
        KeyModifiers { shift: false, control: false, alt: true }
    }

    /// The set that holds every flag of `self` and of `other`.
    pub open spec fn spec_union(self, other: KeyModifiers) -> KeyModifiers {
        KeyModifiers {
            shift: self.shift || other.shift,
            control: self.control || other.control,
            alt: self.alt || other.alt,
        }
    }

    /// Whether every flag of `other` is set in `self`.
    pub open spec fn spec_contains(self, other: KeyModifiers) -> bool {
        &&& other.shift ==> self.shift
        &&& other.control ==> self.control
        &&& other.alt ==> self.alt
    }

    /// Adds the flags of `other`.
    pub fn insert(&mut self, other: KeyModifiers)
        ensures
            *final(self) == old(self).spec_union(other),
    {
        self.shift = self.shift || other.shift;
        self.control = self.control || other.control;
        self.alt = self.alt || other.alt;
    }

    /// Whether every flag of `other` is set.
    pub fn contains(&self, other: KeyModifiers) -> (r: bool)
        ensures
            r == self.spec_contains(other),
    {
        (!other.shift || self.shift) && (!other.control || self.control) && (!other.alt
            || self.alt)
    }
}

/// One key press: a key and the modifiers held with it.
#[derive(Debug, Clone, Copy, PartialEq, Eq, Structural)]
pub struct KeyEvent {
    pub code: KeyCode,
    pub modifiers: KeyModifiers,
}

impl KeyEvent {
    /// The press of `code` with `modifiers` held, as it is given.
    pub fn new(code: KeyCode, modifiers: KeyModifiers) -> (r: Self)
        ensures
            r == (KeyEvent { code, modifiers }),
    {
        KeyEvent { code, modifiers }
    }

    /// The normal form of a key press, in which letter case and the shift
    /// flag agree: a character typed with shift is the upper-case one, an
    /// upper-case letter carries shift, and so does the back tab.
    pub open spec fn spec_normalized(self) -> KeyEvent {
        match self.code {
            KeyCode::Char(c) => if self.modifiers.shift || ('A' <= c && c <= 'Z') {
                KeyEvent {
                    code: KeyCode::Char(ascii_upper(c)),
                    modifiers: KeyModifiers { shift: true, ..self.modifiers },
                }
            } else {
                self
            },
            KeyCode::BackTab => KeyEvent {
                code: self.code,
                modifiers: KeyModifiers { shift: true, ..self.modifiers },
            },
            _ => self,
        }
    }

    /// The key press in normal form.
    pub fn normalized(self) -> (r: Self)
        ensures
            r == self.spec_normalized(),
    {
        match self.code {
            KeyCode::Char(c) => if self.modifiers.shift || ('A' <= c && c <= 'Z') {
                KeyEvent {
                    code: KeyCode::Char(to_ascii_upper(c)),
                    modifiers: KeyModifiers {
                        shift: true,
                        control: self.modifiers.control,
                        alt: self.modifiers.alt,
                    },
                }
            } else {
                self
            },
            KeyCode::BackTab => KeyEvent {
                code: self.code,
                modifiers: KeyModifiers {
                    shift: true,
                    control: self.modifiers.control,
                    alt: self.modifiers.alt,
                },
            },
            _ => self,
        }
    }
}

/// The upper-case form of an ASCII lower-case letter; any other character
/// is returned as it is.
pub open spec fn ascii_upper(c: char) -> char {
    if 'a' <= c && c <= 'z' {
        ((c as u8) - 32) as char
    } else {
        c
    }
}

/// The lower-case form of an ASCII upper-case letter; any other character
/// is returned as it is.
pub open spec fn ascii_lower(c: char) -> char {
    if 'A' <= c && c <= 'Z' {
        ((c as u8) + 32) as char
    } else {
        c
    }
}

/// `c` in upper case, if it is an ASCII lower-case letter.
pub fn to_ascii_upper(c: char) -> (r: char)
    ensures
        r == ascii_upper(c),
{
    if 'a' <= c && c <= 'z' {
        ((c as u8) - 32) as char
    } else {
        c
    }
}

/// `c` in lower case, if it is an ASCII upper-case letter.
pub fn to_ascii_lower(c: char) -> (r: char)
    ensures
        r == ascii_lower(c),
{
    if 'A' <= c && c <= 'Z' {
        ((c as u8) + 32) as char
    } else {
        c
    }
}


/// The normal form of a key press is itself in normal form.
pub proof fn lemma_normal_form_is_stable(key_event: KeyEvent)
    ensures
        key_event.spec_normalized().spec_normalized() == key_event.spec_normalized(),
{
}

/// A lower-case letter typed with shift, the upper-case letter without, and
/// the upper-case letter with shift are one key press in normal form.
pub proof fn lemma_shift_is_upper_case(c: char, held: KeyModifiers)
    requires
        'a' <= c && c <= 'z',
    ensures
        (KeyEvent {
            code: KeyCode::Char(c),
            modifiers: KeyModifiers { shift: true, ..held },
        }).spec_normalized() == (KeyEvent {
            code: KeyCode::Char(ascii_upper(c)),
            modifiers: held,
        }).spec_normalized(),
{
}

} // verus!

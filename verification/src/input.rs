//! Held-key state built from press/release events (no reliance on auto-repeat).
use vstd::prelude::*;

use crate::game::Controls;

verus! {

/// A key on the keyboard, as the terminal reports it.
#[derive(Clone, Copy, PartialEq, Eq, Debug, Structural)]
pub enum KeyCode {
    Backspace,
    Enter,
    Left,
    Right,
    Up,
    Down,
    Home,
    End,
    PageUp,
    PageDown,
    Tab,
    BackTab,
    Delete,
    Insert,
    F(u8),
    Char(char),
    Null,
    Esc,
    /// Lock, media and modifier keys.
    Other,
}

/// Whether a key went down, repeats while held, or went up.
#[derive(Clone, Copy, PartialEq, Eq, Debug, Structural)]
pub enum KeyEventKind {
    Press,
    Repeat,
    Release,
}

/// A key event: the key, what happened to it, and whether Control was held.
#[derive(Clone, Copy, PartialEq, Eq, Debug, Structural)]
pub struct KeyEvent {
    pub code: KeyCode,
    pub kind: KeyEventKind,
    pub ctrl: bool,
}

/// `c` in lower case if it is an ASCII capital letter.
pub open spec fn ascii_lower(c: char) -> char {
    if 'A' <= c <= 'Z' {
        ((c as u32) + 32) as char
    } else {
        c
    }
}

/// `c` in lower case if it is an ASCII capital letter.
pub fn to_ascii_lower(c: char) -> (r: char)
    ensures
        r == ascii_lower(c),
{
    if 'A' <= c && c <= 'Z' {
        let b = (c as u8) + 32;
        b as char
    } else {
        c
    }
}

/// Letter keys count the same with or without Shift.
pub open spec fn normalized(code: KeyCode) -> KeyCode {
    match code {
        KeyCode::Char(c) => KeyCode::Char(ascii_lower(c)),
        _ => code,
    }
}

/// Esc, `q` and Control-C quit.
pub open spec fn quits(code: KeyCode, ctrl: bool) -> bool {
    code == KeyCode::Esc || code == KeyCode::Char('q') || (code == KeyCode::Char('c') && ctrl)
}

/// The held keys after a press of `code`.
pub open spec fn pressed(held: Set<KeyCode>, code: KeyCode) -> Set<KeyCode> {
    held.insert(normalized(code))
}

/// The held keys after a release of `code`.
pub open spec fn released(held: Set<KeyCode>, code: KeyCode) -> Set<KeyCode> {
    held.remove(normalized(code))
}

/// The keys held down, and whether the player asked to quit.
pub struct Input {
    /// Each held key once.
    pub held: Vec<KeyCode>,
    pub quit: bool,
}

impl Default for Input {
    fn default() -> (i: Input)
        ensures
            i.wf(),
            i.held() == Set::<KeyCode>::empty(),
            !i.quit,
    {
        let i = Input { held: Vec::new(), quit: false };
        assert(i.held@.to_set() =~= Set::<KeyCode>::empty());
        i
    }
}

impl Input {
    /// No key is recorded twice.
    pub open spec fn wf(&self) -> bool {
        self.held@.no_duplicates()
    }

    /// The keys held down.
    pub open spec fn held(&self) -> Set<KeyCode> {
        self.held@.to_set()
    }

    pub fn handle(&mut self, k: KeyEvent)
        requires
            old(self).wf(),
        ensures
            final(self).wf(),
            match k.kind {
                KeyEventKind::Release => final(self).quit == old(self).quit && final(self).held() == released(
                    old(self).held(),
                    k.code,
                ),
                _ => final(self).quit == (old(self).quit || quits(normalized(k.code), k.ctrl))
                    && final(self).held() == pressed(old(self).held(), k.code),
            },
    {
        let code = match k.code {
            KeyCode::Char(c) => KeyCode::Char(to_ascii_lower(c)),
            c => c,
        };
        match k.kind {
            KeyEventKind::Press | KeyEventKind::Repeat => {
                let ctrl_c = code == KeyCode::Char('c') && k.ctrl;
                if code == KeyCode::Esc || code == KeyCode::Char('q') || ctrl_c {
                    self.quit = true;
                }
                self.insert(code);
            },
            KeyEventKind::Release => {
                self.remove(code);
            },
        }
    }

    fn insert(&mut self, code: KeyCode)
        requires
            old(self).wf(),
        ensures
            final(self).wf(),
            final(self).quit == old(self).quit,
            final(self).held() == old(self).held().insert(code),
    {
        if !self.holds(code) {
            let ghost before = self.held@;
            self.held.push(code);
            proof {
                assert(self.held@.to_set() =~= before.to_set().insert(code)) by {
                    assert forall|x: KeyCode| self.held@.contains(x) <==> before.contains(x) || x == code by {
                        if self.held@.contains(x) && x != code {
                            let j = choose|j: int| 0 <= j < self.held@.len() && self.held@[j] == x;
                            assert(before[j] == x);
                        }
                        if x == code {
                            assert(self.held@[before.len() as int] == code);
                        }
                        if before.contains(x) {
                            let j = choose|j: int| 0 <= j < before.len() && before[j] == x;
                            assert(self.held@[j] == x);
                        }
                    }
                }
            }
        } else {
            assert(self.held@.to_set() =~= self.held@.to_set().insert(code));
        }
    }

    fn remove(&mut self, code: KeyCode)
        requires
            old(self).wf(),
        ensures
            final(self).wf(),
            final(self).quit == old(self).quit,
            final(self).held() == old(self).held().remove(code),
    {
        let n = self.held.len();
        let mut i: usize = 0;
        while i < n
            invariant
                n == self.held@.len(),
                i <= n,
                self.held@ == old(self).held@,
                self.wf(),
                self.quit == old(self).quit,
                forall|j: int| 0 <= j < i ==> self.held@[j] != code,
            decreases n - i,
        {
            if self.held[i] == code {
                let ghost before = self.held@;
                self.held.remove(i);
                proof {
                    assert(self.held@ =~= before.remove(i as int));
                    assert(self.held@.no_duplicates()) by {
                        assert forall|a: int, b: int| 0 <= a < b < self.held@.len() implies self.held@[a] != self.held@[b] by {
                            let a0 = if a < i { a } else { a + 1 };
                            let b0 = if b < i { b } else { b + 1 };
                            assert(self.held@[a] == before[a0]);
                            assert(self.held@[b] == before[b0]);
                        }
                    }
                    assert(self.held@.to_set() =~= before.to_set().remove(code)) by {
                        assert forall|x: KeyCode| self.held@.contains(x) <==> before.contains(x) && x != code by {
                            if self.held@.contains(x) {
                                let j = choose|j: int| 0 <= j < self.held@.len() && self.held@[j] == x;
                                let j0 = if j < i { j } else { j + 1 };
                                assert(before[j0] == x);
                                assert(j0 != i);
                            }
                            if before.contains(x) && x != code {
                                let j = choose|j: int| 0 <= j < before.len() && before[j] == x;
                                assert(j != i);
                                let j1 = if j < i { j } else { j - 1 };
                                assert(self.held@[j1] == x);
                            }
                        }
                    }
                }
                return;
            }
            i = i + 1;
        }
        proof {
            assert(self.held@.to_set() =~= self.held@.to_set().remove(code)) by {
                assert forall|x: KeyCode| self.held@.contains(x) implies x != code by {
                    let j = choose|j: int| 0 <= j < self.held@.len() && self.held@[j] == x;
                }
            }
        }
    }

    fn holds(&self, code: KeyCode) -> (b: bool)
        ensures
            b == self.held().contains(code),
    {
        let n = self.held.len();
        let mut i: usize = 0;
        while i < n
            invariant
                n == self.held@.len(),
                i <= n,
                forall|j: int| 0 <= j < i ==> self.held@[j] != code,
            decreases n - i,
        {
            if self.held[i] == code {
                assert(self.held@.contains(code));
                return true;
            }
            i = i + 1;
        }
        false
    }

    /// Drops all held keys, e.g. when the window loses focus and releases would be missed.
    pub fn clear(&mut self)
        ensures
            final(self).wf(),
            final(self).quit == old(self).quit,
            final(self).held() == Set::<KeyCode>::empty(),
    {
        self.held.clear();
        assert(self.held@.to_set() =~= Set::<KeyCode>::empty());
    }

    fn any(&self, a: KeyCode, b: KeyCode) -> (r: bool)
        ensures
            r == (self.held().contains(a) || self.held().contains(b)),
    {
        self.holds(a) || self.holds(b)
    }

    /// Arrows or WASD-style letters move, up / `z` / `w` jump, `x` / space fire.
    pub fn controls(&self) -> (c: Controls)
        ensures
            c.left == (self.held().contains(KeyCode::Left) || self.held().contains(KeyCode::Char('a'))),
            c.right == (self.held().contains(KeyCode::Right) || self.held().contains(KeyCode::Char('d'))),
            c.jump == (self.held().contains(KeyCode::Up) || self.held().contains(KeyCode::Char('z'))
                || self.held().contains(KeyCode::Char('w'))),
            c.fire == (self.held().contains(KeyCode::Char('x')) || self.held().contains(KeyCode::Char(' '))),
    {
        Controls {
            left: self.any(KeyCode::Left, KeyCode::Char('a')),
            right: self.any(KeyCode::Right, KeyCode::Char('d')),
            jump: self.any(KeyCode::Up, KeyCode::Char('z')) || self.holds(KeyCode::Char('w')),
            fire: self.any(KeyCode::Char('x'), KeyCode::Char(' ')),
        }
    }
}

/// Releasing a key that was not held before its press leaves the held keys as they were: a press
/// and its release cancel out.
pub proof fn lemma_release_undoes_press(held: Set<KeyCode>, code: KeyCode)
    requires
        !held.contains(normalized(code)),
    ensures
        released(pressed(held, code), code) == held,
{
    assert(released(pressed(held, code), code) =~= held);
}

/// A capital letter and its lower-case form are the same key.
pub proof fn lemma_shift_is_ignored(c: char)
    requires
        'a' <= c <= 'z',
    ensures
        normalized(KeyCode::Char(((c as u32) - 32) as char)) == KeyCode::Char(c),
{
}

} // verus!

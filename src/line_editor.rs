use vstd::prelude::*;

verus! {

/// A key press, decoded from the bytes a terminal sends for it.
#[derive(Debug, Clone, Copy, PartialEq, Eq, Structural)]
pub struct KeyEvent {
    pub code: KeyCode,
    pub modifiers: KeyModifiers,
}

impl KeyEvent {
    pub fn new(code: KeyCode, modifiers: KeyModifiers) -> (r: KeyEvent)
        ensures
            r == (KeyEvent { code, modifiers }),
    {
        KeyEvent { code, modifiers }
    }
}

#[derive(Debug, Clone, Copy, PartialEq, Eq, Structural)]
pub enum KeyCode {
    Backspace,
    Enter,
    Left,
    Right,
    Up,
    Down,
    Home,
    End,
    PageUp,
    PageDown,
    Tab,
    BackTab,
    Delete,
    Char(char),
    Null,
    Esc,
}

#[derive(Debug, Clone, Copy, PartialEq, Eq, Structural)]
pub enum KeyModifiers {
    Shift,
    Control,
    Alt,
    Plain,
}

pub open spec fn key(code: KeyCode, modifiers: KeyModifiers) -> Option<KeyEvent> {
    Some(KeyEvent { code, modifiers })
}

/// The key that the bytes `b` stand for: an escape sequence (arrows, Home,
/// End, Delete, Alt with `b` or `f`), Enter, Tab, Backspace, a control
/// character (Ctrl with a letter or one of `4` to `7`, Ctrl-Space), or a
/// plain character. `None` for an empty buffer or an escape sequence not
/// listed.
pub open spec fn decode_key(b: Seq<u8>) -> Option<KeyEvent> {
    if b.len() == 0 {
        None
    } else if b[0] == 0x1Bu8 {
        if b.len() == 1 {
            key(KeyCode::Esc, KeyModifiers::Plain)
        } else if b[1] == 0x5Bu8 {
            if b.len() < 3 {
                None
            } else if b[2] == 0x41u8 {
                key(KeyCode::Up, KeyModifiers::Plain)
            } else if b[2] == 0x42u8 {
                key(KeyCode::Down, KeyModifiers::Plain)
            } else if b[2] == 0x43u8 {
                key(KeyCode::Right, KeyModifiers::Plain)
            } else if b[2] == 0x44u8 {
                key(KeyCode::Left, KeyModifiers::Plain)
            } else if b[2] == 0x48u8 {
                key(KeyCode::Home, KeyModifiers::Plain)
            } else if b[2] == 0x46u8 {
                key(KeyCode::End, KeyModifiers::Plain)
            } else if b[2] == 0x33u8 {
                key(KeyCode::Delete, KeyModifiers::Plain)
            } else {
                None
            }
        } else if b[1] == 0x1Bu8 {
            key(KeyCode::Esc, KeyModifiers::Plain)
        } else if b[1] == 0x62u8 {
            key(KeyCode::Left, KeyModifiers::Alt)
        } else if b[1] == 0x66u8 {
            key(KeyCode::Right, KeyModifiers::Alt)
        } else {
            None
        }
    } else if b[0] == 0x0Du8 {
        key(KeyCode::Enter, KeyModifiers::Plain)
    } else if b[0] == 0x09u8 {
        key(KeyCode::Tab, KeyModifiers::Plain)
    } else if b[0] == 0x7Fu8 {
        key(KeyCode::Backspace, KeyModifiers::Plain)
    } else if 0x01u8 <= b[0] <= 0x1Au8 {
        key(KeyCode::Char(((b[0] - 1 + 0x61) as u8) as char), KeyModifiers::Control)
    } else if 0x1Cu8 <= b[0] <= 0x1Fu8 {
        key(KeyCode::Char(((b[0] - 0x1C + 0x34) as u8) as char), KeyModifiers::Control)
    } else if b[0] == 0u8 {
        key(KeyCode::Char(' '), KeyModifiers::Control)
    } else {
        key(KeyCode::Char(b[0] as char), KeyModifiers::Plain)
    }
}

pub fn parse_key_event(buffer: &[u8]) -> (r: Option<KeyEvent>)
    ensures
        r == decode_key(buffer@),
{
    if buffer.len() == 0 {
        return None;
    }
    let c = buffer[0];
    if c == 0x1B {
        if buffer.len() == 1 {
            return Some(KeyEvent::new(KeyCode::Esc, KeyModifiers::Plain));
        }
        let d = buffer[1];
        if d == 0x5B {
            if buffer.len() < 3 {
                return None;
            }
            let code = match buffer[2] {
                0x41 => KeyCode::Up,
                0x42 => KeyCode::Down,
                0x43 => KeyCode::Right,
                0x44 => KeyCode::Left,
                0x48 => KeyCode::Home,
                0x46 => KeyCode::End,
                0x33 => KeyCode::Delete,
                _ => {
                    return None;
                },
            };
            Some(KeyEvent::new(code, KeyModifiers::Plain))
        } else if d == 0x1B {
            Some(KeyEvent::new(KeyCode::Esc, KeyModifiers::Plain))
        } else if d == 0x62 {
            Some(KeyEvent::new(KeyCode::Left, KeyModifiers::Alt))
        } else if d == 0x66 {
            Some(KeyEvent::new(KeyCode::Right, KeyModifiers::Alt))
        } else {
            None
        }
    } else if c == 0x0D {
        Some(KeyEvent::new(KeyCode::Enter, KeyModifiers::Plain))
    } else if c == 0x09 {
        Some(KeyEvent::new(KeyCode::Tab, KeyModifiers::Plain))
    } else if c == 0x7F {
        Some(KeyEvent::new(KeyCode::Backspace, KeyModifiers::Plain))
    } else if 0x01 <= c && c <= 0x1A {
        Some(KeyEvent::new(KeyCode::Char((c - 1 + 0x61) as char), KeyModifiers::Control))
    } else if 0x1C <= c && c <= 0x1F {
        Some(KeyEvent::new(KeyCode::Char((c - 0x1C + 0x34) as char), KeyModifiers::Control))
    } else if c == 0 {
        Some(KeyEvent::new(KeyCode::Char(' '), KeyModifiers::Control))
    } else {
        Some(KeyEvent::new(KeyCode::Char(c as char), KeyModifiers::Plain))
    }
}

/// The index of the last space before offset `end` of `s`, or -1.
pub open spec fn last_space_before(s: Seq<char>, end: int) -> int
    decreases end,
{
    if end <= 0 || end > s.len() {
        -1
    } else if s[end - 1] == ' ' {
        end - 1
    } else {
        last_space_before(s, end - 1)
    }
}

/// The offset of the first space at or after `from` in `s`, or the length of
/// `s` when there is none.
pub open spec fn first_space_from(s: Seq<char>, from: int) -> int
    decreases s.len() - from,
{
    if from < 0 || from >= s.len() {
        s.len() as int
    } else if s[from] == ' ' {
        from
    } else {
        first_space_from(s, from + 1)
    }
}

proof fn lemma_last_space_range(s: Seq<char>, end: int)
    requires
        0 <= end <= s.len(),
    ensures
        -1 <= last_space_before(s, end) < end,
    decreases end,
{
    if end > 0 {
        lemma_last_space_range(s, end - 1);
    }
}

proof fn lemma_first_space_range(s: Seq<char>, from: int)
    requires
        0 <= from <= s.len(),
    ensures
        from <= first_space_from(s, from) <= s.len(),
    decreases s.len() - from,
{
    if from < s.len() {
        lemma_first_space_range(s, from + 1);
    }
}

/// The line being edited at a prompt, and the cursor in it: an offset from
/// 0 (before the first character) to the length of the line (after the last).
pub struct LineBuffer {
    buffer: Vec<char>,
    cursor: usize,
}

impl LineBuffer {
    pub closed spec fn text(&self) -> Seq<char> {
        self.buffer@
    }

    pub closed spec fn at(&self) -> int {
        self.cursor as int
    }

    pub open spec fn wf(&self) -> bool {
        0 <= self.at() <= self.text().len()
    }

    pub fn new() -> (r: LineBuffer)
        ensures
            r.wf(),
            r.text() == Seq::<char>::empty(),
            r.at() == 0,
    {
        LineBuffer { buffer: Vec::new(), cursor: 0 }
    }

    /// The characters of the line.
    pub fn buffer(&self) -> (r: &[char])
        ensures
            r@ == self.text(),
    {
        self.buffer.as_slice()
    }

    pub fn cursor(&self) -> (r: usize)
        ensures
            r == self.at(),
    {
        self.cursor
    }

    /// Inserts a character at the cursor and moves the cursor past it.
    pub fn insert_char(&mut self, insertion: char)
        requires
            old(self).wf(),
        ensures
            final(self).wf(),
            final(self).text() == old(self).text().insert(old(self).at(), insertion),
            final(self).at() == old(self).at() + 1,
    {
        self.buffer.insert(self.cursor, insertion);
        let n = self.buffer.len();
        assert(self.cursor < n);
        self.cursor = self.cursor + 1;
    }

    /// Inserts text at the cursor and moves the cursor past it.
    pub fn insert_str(&mut self, insertion: &str)
        requires
            old(self).wf(),
        ensures
            final(self).wf(),
            final(self).text() == old(self).text().subrange(0, old(self).at()) + insertion@
                + old(self).text().subrange(old(self).at(), old(self).text().len() as int),
            final(self).at() == old(self).at() + insertion@.len(),
    {
        let n = insertion.unicode_len();
        let mut i: usize = 0;
        while i < n
            invariant
                n == insertion@.len(),
                i <= n,
                self.wf(),
                old(self).wf(),
                self.at() == old(self).at() + i,
                self.text() == old(self).text().subrange(0, old(self).at()) + insertion@.subrange(
                    0,
                    i as int,
                ) + old(self).text().subrange(old(self).at(), old(self).text().len() as int),
            decreases n - i,
        {
            let c = insertion.get_char(i);
            let ghost before = self.text();
            let ghost k = self.at();
            self.insert_char(c);
            proof {
                let a = old(self).text().subrange(0, old(self).at());
                let b = insertion@.subrange(0, i as int);
                let rest = old(self).text().subrange(old(self).at(), old(self).text().len() as int);
                assert(before.insert(k, c) =~= before.subrange(0, k).push(c) + before.subrange(
                    k,
                    before.len() as int,
                ));
                assert(before.subrange(0, k) =~= a + b);
                assert(before.subrange(k, before.len() as int) =~= rest);
                assert(insertion@.subrange(0, i + 1) =~= b.push(c));
            }
            i = i + 1;
            assert(self.text() =~= old(self).text().subrange(0, old(self).at())
                + insertion@.subrange(0, i as int) + old(self).text().subrange(
                old(self).at(),
                old(self).text().len() as int,
            ));
        }
        assert(insertion@.subrange(0, n as int) =~= insertion@);
    }

    /// Moves the cursor `n` places left, stopping at the start.
    pub fn move_left(&mut self, n: usize)
        requires
            old(self).wf(),
        ensures
            final(self).wf(),
            final(self).text() == old(self).text(),
            final(self).at() == if n <= old(self).at() {
                old(self).at() - n
            } else {
                0
            },
    {
        if n <= self.cursor {
            self.cursor = self.cursor - n;
        } else {
            self.cursor = 0;
        }
    }

    /// Moves the cursor `n` places right, stopping at the end.
    pub fn move_right(&mut self, n: usize)
        requires
            old(self).wf(),
        ensures
            final(self).wf(),
            final(self).text() == old(self).text(),
            final(self).at() == if n <= old(self).text().len() - old(self).at() {
                old(self).at() + n
            } else {
                old(self).text().len() as int
            },
    {
        if n <= self.buffer.len() - self.cursor {
            self.cursor = self.cursor + n;
        } else {
            self.cursor = self.buffer.len();
        }
    }

    /// Deletes the character before the cursor, if there is one.
    pub fn delete_left(&mut self)
        requires
            old(self).wf(),
        ensures
            final(self).wf(),
            old(self).at() > 0 ==> final(self).text() == old(self).text().remove(old(self).at() - 1)
                && final(self).at() == old(self).at() - 1,
            old(self).at() == 0 ==> final(self).text() == old(self).text() && final(self).at() == 0,
    {
        if self.cursor > 0 {
            self.buffer.remove(self.cursor - 1);
            self.cursor = self.cursor - 1;
        }
    }

    /// Deletes the character under the cursor, if there is one.
    pub fn delete_right(&mut self)
        requires
            old(self).wf(),
        ensures
            final(self).wf(),
            final(self).at() == old(self).at(),
            old(self).at() < old(self).text().len() ==> final(self).text() == old(self).text().remove(
                old(self).at(),
            ),
            old(self).at() == old(self).text().len() ==> final(self).text() == old(self).text(),
    {
        if self.cursor < self.buffer.len() {
            self.buffer.remove(self.cursor);
        }
    }

    /// Hands over the line and leaves the buffer empty, as Enter does.
    pub fn take_line(&mut self) -> (r: Vec<char>)
        requires
            old(self).wf(),
        ensures
            final(self).wf(),
            r@ == old(self).text(),
            final(self).text() == Seq::<char>::empty(),
            final(self).at() == 0,
    {
        let mut line: Vec<char> = Vec::new();
        std::mem::swap(&mut line, &mut self.buffer);
        self.cursor = 0;
        line
    }

    /// Moves the cursor to the start of the word before it: just after the
    /// last space before the character left of the cursor.
    pub fn word_left(&mut self)
        requires
            old(self).wf(),
        ensures
            final(self).wf(),
            final(self).text() == old(self).text(),
            old(self).at() > 0 ==> final(self).at() == last_space_before(
                old(self).text(),
                old(self).at() - 1,
            ) + 1,
            old(self).at() == 0 ==> final(self).at() == 0,
    {
        if self.cursor > 0 {
            proof {
                lemma_last_space_range(self.buffer@, self.cursor - 1);
            }
            let mut i = self.cursor - 1;
            while i > 0 && self.buffer[i - 1] != ' '
                invariant
                    i < self.cursor,
                    self.wf(),
                    self.text() == old(self).text(),
                    self.at() == old(self).at(),
                    last_space_before(self.buffer@, i as int) == last_space_before(
                        self.buffer@,
                        self.cursor - 1,
                    ),
                decreases i,
            {
                i = i - 1;
            }
            proof {
                if i > 0 {
                    assert(last_space_before(self.buffer@, i as int) == i - 1);
                }
            }
            self.cursor = i;
        }
    }

    /// Moves the cursor just past the next space at or after it, or to the
    /// end when no space follows.
    pub fn word_right(&mut self)
        requires
            old(self).wf(),
        ensures
            final(self).wf(),
            final(self).text() == old(self).text(),
            old(self).at() < old(self).text().len() ==> final(self).at() == if first_space_from(
                old(self).text(),
                old(self).at(),
            ) < old(self).text().len() {
                first_space_from(old(self).text(), old(self).at()) + 1
            } else {
                old(self).text().len() as int
            },
            old(self).at() == old(self).text().len() ==> final(self).at() == old(self).at(),
    {
        if self.cursor < self.buffer.len() {
            proof {
                lemma_first_space_range(self.buffer@, self.cursor as int);
            }
            let mut i = self.cursor;
            while i < self.buffer.len() && self.buffer[i] != ' '
                invariant
                    self.cursor <= i <= self.buffer.len(),
                    self.wf(),
                    self.text() == old(self).text(),
                    self.at() == old(self).at(),
                    first_space_from(self.buffer@, i as int) == first_space_from(
                        self.buffer@,
                        self.cursor as int,
                    ),
                decreases self.buffer.len() - i,
            {
                i = i + 1;
            }
            if i < self.buffer.len() {
                self.cursor = i + 1;
            } else {
                self.cursor = self.buffer.len();
            }
        }
    }

    pub fn move_start(&mut self)
        requires
            old(self).wf(),
        ensures
            final(self).wf(),
            final(self).text() == old(self).text(),
            final(self).at() == 0,
    {
        self.cursor = 0;
    }

    pub fn move_end(&mut self)
        requires
            old(self).wf(),
        ensures
            final(self).wf(),
            final(self).text() == old(self).text(),
            final(self).at() == final(self).text().len(),
    {
        self.cursor = self.buffer.len();
    }

    /// Clears the line.
    pub fn delete_line(&mut self)
        ensures
            final(self).wf(),
            final(self).text() == Seq::<char>::empty(),
            final(self).at() == 0,
    {
        self.buffer = Vec::new();
        self.cursor = 0;
    }

    /// Deletes everything from the cursor to the end of the line.
    pub fn delete_from_cursor(&mut self)
        requires
            old(self).wf(),
        ensures
            final(self).wf(),
            final(self).text() == old(self).text().subrange(0, old(self).at()),
            final(self).at() == old(self).at(),
    {
        self.buffer.truncate(self.cursor);
    }
}

} // verus!

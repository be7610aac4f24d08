use vstd::prelude::*;

use smallvec::SmallVec;

use super::Event;

verus! {

/// A key press as the terminal reports it: a character typed with no
/// modifier but shift, the escape or enter key, or anything else.
#[derive(Clone, Copy, Debug, PartialEq, Eq, Structural)]
pub enum KeyPress {
    Char(char),
    Esc,
    Enter,
    Other,
}

/// The digits of a count typed before a motion, in the order typed.
#[verifier::external_body]
pub struct Digits {
    inner: SmallVec<[char; 4]>,
}

/// The characters held by a `Digits`, in order.
pub uninterp spec fn digit_chars(digits: Digits) -> Seq<char>;

impl Digits {
    /// A count with one digit. Builds the `SmallVec` with `SmallVec::new` and
    /// one `SmallVec::push`: the result holds exactly that character.
    #[verifier::external_body]
    pub(crate) fn one(digit: char) -> (digits: Digits)
        ensures
            digit_chars(digits) == seq![digit],
    {
        let mut inner: SmallVec<[char; 4]> = SmallVec::new();
        inner.push(digit);
        Digits { inner }
    }

    /// Appends a digit with `SmallVec::push`, which keeps the items and adds
    /// the new one last. `push` panics only when growing the capacity past
    /// what `usize` can count, which the bound on the length rules out.
    #[verifier::external_body]
    pub(crate) fn push(&mut self, digit: char)
        requires
            digit_chars(*old(self)).len() < 0x4000_0000,
        ensures
            digit_chars(*final(self)) == digit_chars(*old(self)).push(digit),
    {
        self.inner.push(digit);
    }

    /// The number of digits, `SmallVec::len`.
    #[verifier::external_body]
    pub(crate) fn len(&self) -> (len: usize)
        ensures
            len == digit_chars(*self).len(),
    {
        self.inner.len()
    }

    /// Digit `i`, read through the slice that `SmallVec` dereferences to.
    #[verifier::external_body]
    pub(crate) fn get(&self, i: usize) -> (digit: char)
        requires
            i < digit_chars(*self).len(),
        ensures
            digit == digit_chars(*self)[i as int],
    {
        self.inner[i]
    }
}

/// Where the aggregator is in a sequence of keys.
pub enum State {
    Initial,
    SawZ,
    InExCommandMode,
    InInsertMode,
    SawDigits(Digits),
}

/// The value of a state: the digits as a sequence.
pub enum StateModel {
    Initial,
    SawZ,
    InExCommandMode,
    InInsertMode,
    SawDigits(Seq<char>),
}

impl State {
    pub open spec fn view(&self) -> StateModel {
        match self {
            State::Initial => StateModel::Initial,
            State::SawZ => StateModel::SawZ,
            State::InExCommandMode => StateModel::InExCommandMode,
            State::InInsertMode => StateModel::InInsertMode,
            State::SawDigits(d) => StateModel::SawDigits(digit_chars(*d)),
        }
    }

    /// The digits typed so far; only meaningful after a digit.
    pub fn as_saw_digits_mut(&mut self) -> (digits: &mut Digits)
        requires
            *old(self) is SawDigits,
        ensures
            *digits == old(self)->SawDigits_0,
            *final(self) == State::SawDigits(*final(digits)),
    {
        match self {
            State::SawDigits(digits) => digits,
            _ => vstd::pervasive::unreached(),
        }
    }
}

/// `c` is an ASCII decimal digit.
pub open spec fn is_digit(c: char) -> bool {
    '0' <= c <= '9'
}

/// The number the digits spell in decimal.
pub open spec fn digits_value(ds: Seq<char>) -> int
    decreases ds.len(),
{
    if ds.len() == 0 {
        0
    } else {
        digits_value(ds.drop_last()) * 10 + (ds.last() as int - '0' as int)
    }
}

/// A count in progress holds at least one digit, and only digits.
pub open spec fn state_wf(s: StateModel) -> bool {
    s matches StateModel::SawDigits(ds) ==> {
        &&& ds.len() > 0
        &&& forall|i: int| 0 <= i < ds.len() ==> is_digit(#[trigger] ds[i])
    }
}

pub proof fn lemma_digits_value_prefix(ds: Seq<char>, i: int)
    requires
        0 <= i <= ds.len(),
        forall|k: int| 0 <= k < ds.len() ==> is_digit(#[trigger] ds[k]),
    ensures
        0 <= digits_value(ds.take(i)) <= digits_value(ds),
    decreases ds.len() - i,
{
    if i < ds.len() {
        lemma_digits_value_prefix(ds, i + 1);
        assert(ds.take(i + 1).drop_last() =~= ds.take(i));
        assert(ds.take(i + 1).last() == ds[i]);
        assert(is_digit(ds[i]));
    } else {
        assert(ds.take(i) =~= ds);
        lemma_digits_value_nonneg(ds);
    }
}

pub proof fn lemma_digits_value_nonneg(ds: Seq<char>)
    requires
        forall|k: int| 0 <= k < ds.len() ==> is_digit(#[trigger] ds[k]),
    ensures
        digits_value(ds) >= 0,
    decreases ds.len(),
{
    if ds.len() > 0 {
        assert(is_digit(ds[ds.len() - 1]));
        assert forall|k: int| 0 <= k < ds.drop_last().len() implies is_digit(#[trigger] ds.drop_last()[k]) by {
            assert(ds.drop_last()[k] == ds[k]);
        }
        lemma_digits_value_nonneg(ds.drop_last());
    }
}

/// The count the digits spell.
pub fn digits_to_n(digits: &Digits) -> (n: u16)
    requires
        digit_chars(*digits).len() > 0,
        forall|i: int| 0 <= i < digit_chars(*digits).len() ==> is_digit(#[trigger] digit_chars(*digits)[i]),
        digits_value(digit_chars(*digits)) <= u16::MAX,
    ensures
        n == digits_value(digit_chars(*digits)),
{
    let ghost ds = digit_chars(*digits);
    let len = digits.len();
    let mut n: u16 = 0;
    let mut i: usize = 0;
    while i < len
        invariant
            ds == digit_chars(*digits),
            len == ds.len(),
            0 <= i <= len,
            forall|k: int| 0 <= k < ds.len() ==> is_digit(#[trigger] ds[k]),
            digits_value(ds) <= u16::MAX,
            n == digits_value(ds.take(i as int)),
        decreases len - i,
    {
        let c = digits.get(i);
        proof {
            lemma_digits_value_prefix(ds, i + 1);
            assert(ds.take(i + 1).drop_last() =~= ds.take(i as int));
            assert(ds.take(i + 1).last() == c);
            assert(is_digit(c));
        }
        let d: u16 = (c as u32 - '0' as u32) as u16;
        n = n * 10 + d;
        i += 1;
    }
    assert(ds.take(len as int) =~= ds);
    n
}

/// Turns key presses into editor events: counts and the `z` prefix are
/// gathered across keys, and ex-command and insert mode take any character.
pub struct EventAggregator {
    pub state: State,
    pub disallow_folding: bool,
    pub disallow_ex_command_mode: bool,
}

/// The key is a decimal digit.
pub open spec fn is_digit_key(k: KeyPress) -> bool {
    k is Char && is_digit(k->Char_0)
}

/// The digits of a count in progress (none in other states).
pub open spec fn state_digits(s: StateModel) -> Seq<char> {
    match s {
        StateModel::SawDigits(ds) => ds,
        _ => Seq::empty(),
    }
}

/// The key `k` is the character `c`.
pub open spec fn is_char(k: KeyPress, c: char) -> bool {
    k == KeyPress::Char(c)
}

/// What a key does in a state, with folding and ex commands allowed or not:
/// the state after it and the event it gives, or `None` where the key is
/// not expected there. The cases are tried in order.
pub open spec fn spec_receive(
    s: StateModel,
    disallow_folding: bool,
    disallow_ex_command_mode: bool,
    key: KeyPress,
) -> Option<(StateModel, Option<Event>)> {
    let initial = s is Initial;
    let digits = s is SawDigits;
    let value = digits_value(state_digits(s));
    if initial && is_char(key, 'j') {
        Some((StateModel::Initial, Some(Event::MoveCursorDownNLines(1))))
    } else if digits && is_char(key, 'j') {
        Some((StateModel::Initial, Some(Event::MoveCursorDownNLines(value as u16))))
    } else if initial && is_char(key, 'k') {
        Some((StateModel::Initial, Some(Event::MoveCursorUpNLines(1))))
    } else if digits && is_char(key, 'k') {
        Some((StateModel::Initial, Some(Event::MoveCursorUpNLines(value as u16))))
    } else if initial && is_char(key, 'l') {
        Some((StateModel::Initial, Some(Event::MoveCursorRightNColumns(1))))
    } else if digits && is_char(key, 'l') {
        Some((StateModel::Initial, Some(Event::MoveCursorRightNColumns(value as u16))))
    } else if initial && is_char(key, 'h') {
        Some((StateModel::Initial, Some(Event::MoveCursorLeftNColumns(1))))
    } else if digits && is_char(key, 'h') {
        Some((StateModel::Initial, Some(Event::MoveCursorLeftNColumns(value as u16))))
    } else if initial && is_char(key, '0') {
        Some((StateModel::Initial, Some(Event::MoveCursorToBeginningOfLine)))
    } else if initial && is_char(key, '$') {
        Some((StateModel::Initial, Some(Event::MoveCursorToEndOfLine)))
    } else if initial && is_digit_key(key) {
        Some((StateModel::SawDigits(seq![key->Char_0]), None))
    } else if digits && is_digit_key(key) {
        Some((StateModel::SawDigits(state_digits(s).push(key->Char_0)), None))
    } else if initial && is_char(key, 'z') && !disallow_folding {
        Some((StateModel::SawZ, None))
    } else if s is SawZ && is_char(key, 'o') && !disallow_folding {
        Some((StateModel::Initial, Some(Event::OpenFoldUnderCursorOneLevel)))
    } else if s is SawZ && is_char(key, 'c') && !disallow_folding {
        Some((StateModel::Initial, Some(Event::CloseFoldUnderCursorOneLevel)))
    } else if s is SawZ && is_char(key, 'O') && !disallow_folding {
        Some((StateModel::Initial, Some(Event::FullyOpenFoldUnderCursor)))
    } else if s is SawZ && is_char(key, 'C') && !disallow_folding {
        Some((StateModel::Initial, Some(Event::FullyCloseFoldUnderCursor)))
    } else if key == KeyPress::Esc {
        Some((StateModel::Initial, Some(Event::GoIntoNormalMode)))
    } else if initial && is_char(key, ':') && !disallow_ex_command_mode {
        Some((StateModel::InExCommandMode, Some(Event::GoIntoExCommandMode)))
    } else if s is InExCommandMode && key is Char {
        Some((StateModel::InExCommandMode, Some(Event::ExCommandChar(key->Char_0))))
    } else if s is InExCommandMode && key == KeyPress::Enter {
        Some((StateModel::Initial, Some(Event::FinishExCommand)))
    } else if initial && is_char(key, 'i') {
        Some((StateModel::InInsertMode, Some(Event::GoIntoInsertMode)))
    } else if s is InInsertMode && key is Char {
        Some((StateModel::InInsertMode, Some(Event::InsertChar(key->Char_0))))
    } else {
        None
    }
}

/// The key is expected in the state and, where it ends a count, the count
/// fits in a `u16`; a digit that extends a count finds it short enough to
/// grow.
pub open spec fn spec_accepts(
    s: StateModel,
    disallow_folding: bool,
    disallow_ex_command_mode: bool,
    key: KeyPress,
) -> bool {
    &&& spec_receive(s, disallow_folding, disallow_ex_command_mode, key) is Some
    &&& (s is SawDigits && (is_char(key, 'j') || is_char(key, 'k') || is_char(key, 'l') || is_char(
        key,
        'h',
    ))) ==> digits_value(state_digits(s)) <= u16::MAX
    &&& (s is SawDigits && is_digit_key(key)) ==> state_digits(s).len() < 0x4000_0000
}

impl EventAggregator {
    /// An aggregator that has seen no key yet.
    pub fn new(disallow_folding: bool, disallow_ex_command_mode: bool) -> (aggregator: EventAggregator)
        ensures
            aggregator.state@ is Initial,
            aggregator.disallow_folding == disallow_folding,
            aggregator.disallow_ex_command_mode == disallow_ex_command_mode,
    {
        EventAggregator { state: State::Initial, disallow_folding, disallow_ex_command_mode }
    }

    /// Whether `receive` takes the key in the current state.
    pub fn accepts(&self, key: KeyPress) -> (ok: bool)
        requires
            state_wf(self.state@),
        ensures
            ok == spec_accepts(self.state@, self.disallow_folding, self.disallow_ex_command_mode, key),
    {
        let digit_key = match key {
            KeyPress::Char(c) => '0' <= c && c <= '9',
            _ => false,
        };
        let motion_key = key == KeyPress::Char('j') || key == KeyPress::Char('k') || key
            == KeyPress::Char('l') || key == KeyPress::Char('h');
        match &self.state {
            State::Initial => {
                match key {
                    KeyPress::Char(c) => c == 'j' || c == 'k' || c == 'l' || c == 'h' || c == '0' || c
                        == '$' || digit_key || (c == 'z' && !self.disallow_folding) || (c == ':'
                        && !self.disallow_ex_command_mode) || c == 'i',
                    KeyPress::Esc => true,
                    _ => false,
                }
            },
            State::SawDigits(digits) => {
                if motion_key {
                    digits_fit_u16(digits)
                } else if digit_key {
                    digits.len() < 0x4000_0000
                } else {
                    key == KeyPress::Esc
                }
            },
            State::SawZ => {
                match key {
                    KeyPress::Char(c) => (c == 'o' || c == 'c' || c == 'O' || c == 'C')
                        && !self.disallow_folding,
                    KeyPress::Esc => true,
                    _ => false,
                }
            },
            State::InExCommandMode => {
                match key {
                    KeyPress::Other => false,
                    _ => true,
                }
            },
            State::InInsertMode => {
                match key {
                    KeyPress::Char(_) | KeyPress::Esc => true,
                    _ => false,
                }
            },
        }
    }

    /// Takes the key where `receive` can (see `accepts`), giving the event it
    /// makes, if any; gives nothing and changes nothing where it cannot.
    pub fn receive_if_accepted(&mut self, key: KeyPress) -> (event: Option<Option<Event>>)
        requires
            state_wf(old(self).state@),
        ensures
            state_wf(final(self).state@),
            event is None <==> !spec_accepts(
                old(self).state@,
                old(self).disallow_folding,
                old(self).disallow_ex_command_mode,
                key,
            ),
            event is None ==> *final(self) == *old(self),
            final(self).disallow_folding == old(self).disallow_folding,
            final(self).disallow_ex_command_mode == old(self).disallow_ex_command_mode,
            event matches Some(e) ==> spec_receive(
                old(self).state@,
                old(self).disallow_folding,
                old(self).disallow_ex_command_mode,
                key,
            ) == Some((final(self).state@, e)),
    {
        if self.accepts(key) {
            Some(self.receive(key))
        } else {
            None
        }
    }

    /// Takes one key: updates the state and gives the event the key makes,
    /// if any (see `spec_receive`).
    pub fn receive(&mut self, key: KeyPress) -> (event: Option<Event>)
        requires
            state_wf(old(self).state@),
            spec_accepts(old(self).state@, old(self).disallow_folding, old(self).disallow_ex_command_mode, key),
        ensures
            state_wf(final(self).state@),
            final(self).disallow_folding == old(self).disallow_folding,
            final(self).disallow_ex_command_mode == old(self).disallow_ex_command_mode,
            spec_receive(old(self).state@, old(self).disallow_folding, old(self).disallow_ex_command_mode, key)
                == Some((final(self).state@, event)),
    {
        let initial = match &self.state {
            State::Initial => true,
            _ => false,
        };
        let saw_digits = match &self.state {
            State::SawDigits(_) => true,
            _ => false,
        };
        let saw_z = match &self.state {
            State::SawZ => true,
            _ => false,
        };
        let in_ex = match &self.state {
            State::InExCommandMode => true,
            _ => false,
        };
        let in_insert = match &self.state {
            State::InInsertMode => true,
            _ => false,
        };
        let digit = match key {
            KeyPress::Char(c) => if '0' <= c && c <= '9' {
                Some(c)
            } else {
                None
            },
            _ => None,
        };
        let any_char = match key {
            KeyPress::Char(c) => Some(c),
            _ => None,
        };
        if initial && key == KeyPress::Char('j') {
            return Some(Event::MoveCursorDownNLines(1));
        }
        if saw_digits && key == KeyPress::Char('j') {
            let n = self.take_count();
            return Some(Event::MoveCursorDownNLines(n));
        }
        if initial && key == KeyPress::Char('k') {
            return Some(Event::MoveCursorUpNLines(1));
        }
        if saw_digits && key == KeyPress::Char('k') {
            let n = self.take_count();
            return Some(Event::MoveCursorUpNLines(n));
        }
        if initial && key == KeyPress::Char('l') {
            return Some(Event::MoveCursorRightNColumns(1));
        }
        if saw_digits && key == KeyPress::Char('l') {
            let n = self.take_count();
            return Some(Event::MoveCursorRightNColumns(n));
        }
        if initial && key == KeyPress::Char('h') {
            return Some(Event::MoveCursorLeftNColumns(1));
        }
        if saw_digits && key == KeyPress::Char('h') {
            let n = self.take_count();
            return Some(Event::MoveCursorLeftNColumns(n));
        }
        if initial && key == KeyPress::Char('0') {
            return Some(Event::MoveCursorToBeginningOfLine);
        }
        if initial && key == KeyPress::Char('$') {
            return Some(Event::MoveCursorToEndOfLine);
        }
        if initial && digit.is_some() {
            self.state = State::SawDigits(Digits::one(digit.unwrap()));
            return None;
        }
        if saw_digits && digit.is_some() {
            self.state.as_saw_digits_mut().push(digit.unwrap());
            return None;
        }
        if initial && key == KeyPress::Char('z') && !self.disallow_folding {
            self.state = State::SawZ;
            return None;
        }
        if saw_z && key == KeyPress::Char('o') && !self.disallow_folding {
            self.state = State::Initial;
            return Some(Event::OpenFoldUnderCursorOneLevel);
        }
        if saw_z && key == KeyPress::Char('c') && !self.disallow_folding {
            self.state = State::Initial;
            return Some(Event::CloseFoldUnderCursorOneLevel);
        }
        if saw_z && key == KeyPress::Char('O') && !self.disallow_folding {
            self.state = State::Initial;
            return Some(Event::FullyOpenFoldUnderCursor);
        }
        if saw_z && key == KeyPress::Char('C') && !self.disallow_folding {
            self.state = State::Initial;
            return Some(Event::FullyCloseFoldUnderCursor);
        }
        if key == KeyPress::Esc {
            self.state = State::Initial;
            return Some(Event::GoIntoNormalMode);
        }
        if initial && key == KeyPress::Char(':') && !self.disallow_ex_command_mode {
            self.state = State::InExCommandMode;
            return Some(Event::GoIntoExCommandMode);
        }
        if in_ex && any_char.is_some() {
            return Some(Event::ExCommandChar(any_char.unwrap()));
        }
        if in_ex && key == KeyPress::Enter {
            self.state = State::Initial;
            return Some(Event::FinishExCommand);
        }
        if initial && key == KeyPress::Char('i') {
            self.state = State::InInsertMode;
            return Some(Event::GoIntoInsertMode);
        }
        // The only key left that `spec_accepts` lets through.
        assert(in_insert && any_char.is_some());
        Some(Event::InsertChar(any_char.unwrap()))
    }

    /// Ends a count: gives its value and goes back to the initial state.
    fn take_count(&mut self) -> (n: u16)
        requires
            old(self).state@ matches StateModel::SawDigits(ds) && state_wf(old(self).state@)
                && digits_value(ds) <= u16::MAX,
        ensures
            old(self).state@ matches StateModel::SawDigits(ds) && n == digits_value(ds),
            final(self).state@ is Initial,
            final(self).disallow_folding == old(self).disallow_folding,
            final(self).disallow_ex_command_mode == old(self).disallow_ex_command_mode,
    {
        let n = match &self.state {
            State::SawDigits(digits) => digits_to_n(digits),
            _ => vstd::pervasive::unreached(),
        };
        self.state = State::Initial;
        n
    }
}

/// The count the digits spell fits in a `u16`.
fn digits_fit_u16(digits: &Digits) -> (fits: bool)
    requires
        forall|i: int| 0 <= i < digit_chars(*digits).len() ==> is_digit(#[trigger] digit_chars(*digits)[i]),
    ensures
        fits == (digits_value(digit_chars(*digits)) <= u16::MAX),
{
    let ghost ds = digit_chars(*digits);
    let len = digits.len();
    let mut n: u32 = 0;
    let mut i: usize = 0;
    while i < len
        invariant
            ds == digit_chars(*digits),
            len == ds.len(),
            0 <= i <= len,
            forall|k: int| 0 <= k < ds.len() ==> is_digit(#[trigger] ds[k]),
            n == digits_value(ds.take(i as int)),
            n <= u16::MAX,
        decreases len - i,
    {
        let c = digits.get(i);
        proof {
            lemma_digits_value_prefix(ds, i + 1);
            assert(ds.take(i + 1).drop_last() =~= ds.take(i as int));
            assert(ds.take(i + 1).last() == c);
            assert(is_digit(c));
        }
        n = n * 10 + (c as u32 - '0' as u32);
        if n > 65535 {
            proof {
                lemma_digits_value_prefix(ds, i + 1);
            }
            return false;
        }
        i += 1;
    }
    assert(ds.take(len as int) =~= ds);
    true
}

/// The state and the events after a sequence of keys, taken one after the
/// other; `None` where one of them is not expected.
pub open spec fn run_keys(
    s: StateModel,
    disallow_folding: bool,
    disallow_ex_command_mode: bool,
    keys: Seq<KeyPress>,
) -> Option<(StateModel, Seq<Event>)>
    decreases keys.len(),
{
    if keys.len() == 0 {
        Some((s, Seq::empty()))
    } else {
        match spec_receive(s, disallow_folding, disallow_ex_command_mode, keys[0]) {
            None => None,
            Some((next, event)) => match run_keys(
                next,
                disallow_folding,
                disallow_ex_command_mode,
                keys.drop_first(),
            ) {
                None => None,
                Some((last, events)) => Some(
                    (
                        last,
                        match event {
                            Some(e) => seq![e] + events,
                            None => events,
                        },
                    ),
                ),
            },
        }
    }
}

/// The motion a count followed by `h`, `j`, `k` or `l` makes.
pub open spec fn counted_motion(motion: char, n: u16) -> Event {
    if motion == 'j' {
        Event::MoveCursorDownNLines(n)
    } else if motion == 'k' {
        Event::MoveCursorUpNLines(n)
    } else if motion == 'l' {
        Event::MoveCursorRightNColumns(n)
    } else {
        Event::MoveCursorLeftNColumns(n)
    }
}

/// Escape, in any state, goes back to the start and gives the event that
/// returns the editor to normal mode.
pub proof fn law_escape_resets(s: StateModel, disallow_folding: bool, disallow_ex_command_mode: bool)
    ensures
        spec_receive(s, disallow_folding, disallow_ex_command_mode, KeyPress::Esc) == Some(
            (StateModel::Initial, Some(Event::GoIntoNormalMode)),
        ),
{
}

/// A count typed before a motion (digits not starting with `0`, then `h`,
/// `j`, `k` or `l`) gives one event that moves by the number the digits
/// spell, and the aggregator is back at the start.
pub proof fn law_count_then_motion(
    digits: Seq<char>,
    motion: char,
    keys: Seq<KeyPress>,
    disallow_folding: bool,
    disallow_ex_command_mode: bool,
)
    requires
        digits.len() > 0,
        forall|i: int| 0 <= i < digits.len() ==> is_digit(#[trigger] digits[i]),
        digits[0] != '0',
        digits_value(digits) <= u16::MAX,
        motion == 'j' || motion == 'k' || motion == 'l' || motion == 'h',
        keys.len() == digits.len() + 1,
        forall|i: int| 0 <= i < digits.len() ==> #[trigger] keys[i] == KeyPress::Char(digits[i]),
        keys.last() == KeyPress::Char(motion),
    ensures
        run_keys(StateModel::Initial, disallow_folding, disallow_ex_command_mode, keys) == Some(
            (StateModel::Initial, seq![counted_motion(motion, digits_value(digits) as u16)]),
        ),
{
    lemma_digits_value_nonneg(digits);
    lemma_count_suffix(digits, motion, keys, disallow_folding, disallow_ex_command_mode, 1);
    assert(keys[0] == KeyPress::Char(digits[0]));
    assert(keys.drop_first() =~= keys.skip(1));
    assert(digits.take(1) =~= seq![digits[0]]);
}

proof fn lemma_count_suffix(
    digits: Seq<char>,
    motion: char,
    keys: Seq<KeyPress>,
    disallow_folding: bool,
    disallow_ex_command_mode: bool,
    k: int,
)
    requires
        1 <= k <= digits.len(),
        forall|i: int| 0 <= i < digits.len() ==> is_digit(#[trigger] digits[i]),
        0 <= digits_value(digits) <= u16::MAX,
        motion == 'j' || motion == 'k' || motion == 'l' || motion == 'h',
        keys.len() == digits.len() + 1,
        forall|i: int| 0 <= i < digits.len() ==> #[trigger] keys[i] == KeyPress::Char(digits[i]),
        keys.last() == KeyPress::Char(motion),
    ensures
        run_keys(StateModel::SawDigits(digits.take(k)), disallow_folding, disallow_ex_command_mode, keys.skip(k))
            == Some((StateModel::Initial, seq![counted_motion(motion, digits_value(digits) as u16)])),
    decreases digits.len() - k,
{
    let rest = keys.skip(k);
    assert(rest.drop_first() =~= keys.skip(k + 1));
    if k == digits.len() {
        assert(digits.take(k) =~= digits);
        assert(rest[0] == KeyPress::Char(motion));
        assert(rest.drop_first() =~= Seq::<KeyPress>::empty());
        assert(seq![counted_motion(motion, digits_value(digits) as u16)] + Seq::<Event>::empty() =~= seq![
            counted_motion(motion, digits_value(digits) as u16),
        ]);
        assert(spec_receive(StateModel::SawDigits(digits), disallow_folding, disallow_ex_command_mode, rest[0])
            == Some((StateModel::Initial, Some(counted_motion(motion, digits_value(digits) as u16)))));
        assert(run_keys(StateModel::Initial, disallow_folding, disallow_ex_command_mode, rest.drop_first())
            == Some((StateModel::Initial, Seq::<Event>::empty())));
    } else {
        lemma_count_suffix(digits, motion, keys, disallow_folding, disallow_ex_command_mode, k + 1);
        assert(rest[0] == keys[k]);
        assert(is_digit(digits[k]));
        assert(digits.take(k).push(digits[k]) =~= digits.take(k + 1));
        assert(spec_receive(StateModel::SawDigits(digits.take(k)), disallow_folding, disallow_ex_command_mode, rest[0])
            == Some((StateModel::SawDigits(digits.take(k + 1)), None::<Event>)));
    }
}

} // verus!

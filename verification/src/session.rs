//! The picker's use of the terminal. The picker owns the terminal from the
//! moment it is started until the user confirms, gives up, or the session is
//! closed; this module decides when the terminal is taken, when the list is
//! drawn again, and when the terminal is given back. The program around the
//! library performs these effects and hands back the keystrokes.

use vstd::prelude::*;
use crate::selector::{frame, is_final, outcome, step, Key, Selector, SelectorView};
use crate::text::views;

verus! {

/// What has to be done to the terminal.
#[derive(Clone, Copy, Debug, PartialEq, Eq, Structural)]
pub enum Effect {
    /// Save the terminal's settings and take over its input and output.
    Acquire,
    /// Draw the picker's lines.
    Draw,
    /// Restore the settings that `Acquire` saved.
    Release,
}

/// A picker together with its hold on the terminal.
pub struct Session {
    selector: Selector,
    holding: bool,
}

/// A `Session` as a mathematical value.
pub struct SessionView {
    pub selector: SelectorView,
    pub holding: bool,
}

impl View for Session {
    type V = SessionView;

    closed spec fn view(&self) -> SessionView {
        SessionView { selector: self.selector@, holding: self.holding }
    }
}

/// The session in which a picker starts: it holds the terminal unless the
/// picker is final already.
pub open spec fn started(selector: SelectorView) -> SessionView {
    SessionView { selector, holding: !is_final(selector.phase) }
}

/// What starting does: take the terminal and draw, unless the picker is
/// final already.
pub open spec fn starting_effects(selector: SelectorView) -> Seq<Effect> {
    if is_final(selector.phase) {
        Seq::empty()
    } else {
        seq![Effect::Acquire, Effect::Draw]
    }
}

/// The session after one keystroke. A session that does not hold the
/// terminal takes no keystrokes; one that does passes the keystroke to its
/// picker and lets go of the terminal when the picker becomes final.
pub open spec fn advance(s: SessionView, key: Key) -> SessionView {
    if !s.holding {
        s
    } else {
        SessionView {
            selector: step(s.selector, key),
            holding: !is_final(step(s.selector, key).phase),
        }
    }
}

/// What one keystroke does: draw again while the picker goes on, give the
/// terminal back when it becomes final, nothing when the terminal is not held.
pub open spec fn key_effects(s: SessionView, key: Key) -> Seq<Effect> {
    if !s.holding {
        Seq::empty()
    } else if is_final(step(s.selector, key).phase) {
        seq![Effect::Release]
    } else {
        seq![Effect::Draw]
    }
}

/// The session after it was closed: it holds nothing.
pub open spec fn after_close(s: SessionView) -> SessionView {
    SessionView { holding: false, ..s }
}

/// What closing does: give the terminal back if it is held.
pub open spec fn closing_effects(s: SessionView) -> Seq<Effect> {
    if s.holding {
        seq![Effect::Release]
    } else {
        Seq::empty()
    }
}

/// The session after a sequence of keystrokes.
pub open spec fn play(s: SessionView, keys: Seq<Key>) -> SessionView
    decreases keys.len(),
{
    if keys.len() == 0 {
        s
    } else {
        advance(play(s, keys.drop_last()), keys.last())
    }
}

/// What a sequence of keystrokes does, in order.
pub open spec fn play_effects(s: SessionView, keys: Seq<Key>) -> Seq<Effect>
    decreases keys.len(),
{
    if keys.len() == 0 {
        Seq::empty()
    } else {
        play_effects(s, keys.drop_last()) + key_effects(play(s, keys.drop_last()), keys.last())
    }
}

/// What a whole session does: starting, the keystrokes, closing.
pub open spec fn session_effects(selector: SelectorView, keys: Seq<Key>) -> Seq<Effect> {
    starting_effects(selector) + play_effects(started(selector), keys) + closing_effects(
        play(started(selector), keys),
    )
}

/// How often `which` stands in `effects`.
pub open spec fn occurrences(effects: Seq<Effect>, which: Effect) -> nat
    decreases effects.len(),
{
    if effects.len() == 0 {
        0
    } else {
        occurrences(effects.drop_last(), which) + if effects.last() == which {
            1nat
        } else {
            0nat
        }
    }
}

/// How many holds on the terminal a session has: one or none.
pub open spec fn holds(s: SessionView) -> nat {
    if s.holding {
        1
    } else {
        0
    }
}

/// Counting in two parts counts the whole.
pub proof fn lemma_occurrences_add(a: Seq<Effect>, b: Seq<Effect>, which: Effect)
    ensures
        occurrences(a + b, which) == occurrences(a, which) + occurrences(b, which),
    decreases b.len(),
{
    if b.len() == 0 {
        assert(a + b =~= a);
    } else {
        lemma_occurrences_add(a, b.drop_last(), which);
        assert((a + b).drop_last() =~= a + b.drop_last());
    }
}

/// Keystrokes take the terminal never and give it back at most once: what
/// was held before is either still held or was given back.
pub proof fn lemma_play_balance(s: SessionView, keys: Seq<Key>)
    ensures
        occurrences(play_effects(s, keys), Effect::Acquire) == 0,
        holds(s) == occurrences(play_effects(s, keys), Effect::Release) + holds(play(s, keys)),
    decreases keys.len(),
{
    if keys.len() > 0 {
        let before = play(s, keys.drop_last());
        let last = key_effects(before, keys.last());
        lemma_play_balance(s, keys.drop_last());
        lemma_occurrences_add(play_effects(s, keys.drop_last()), last, Effect::Acquire);
        lemma_occurrences_add(play_effects(s, keys.drop_last()), last, Effect::Release);
        lemma_counts_of_few(last, Effect::Acquire);
        lemma_counts_of_few(last, Effect::Release);
    }
}

proof fn lemma_counts_of_few(effects: Seq<Effect>, which: Effect)
    requires
        effects.len() <= 2,
    ensures
        effects.len() == 0 ==> occurrences(effects, which) == 0,
        effects.len() == 1 ==> occurrences(effects, which) == if effects[0] == which {
            1nat
        } else {
            0nat
        },
        effects.len() == 2 ==> occurrences(effects, which) == (if effects[0] == which {
            1nat
        } else {
            0nat
        }) + (if effects[1] == which {
            1nat
        } else {
            0nat
        }),
{
    reveal_with_fuel(occurrences, 3);
    if effects.len() == 2 {
        assert(effects.drop_last().last() == effects[0]);
    }
}

/// Whatever the picker and whatever the keystrokes, a session that is started
/// and closed gives the terminal back exactly as often as it took it: once
/// each, or never.
pub proof fn lemma_terminal_restored(selector: SelectorView, keys: Seq<Key>)
    ensures
        occurrences(session_effects(selector, keys), Effect::Acquire) == occurrences(
            session_effects(selector, keys),
            Effect::Release,
        ),
        occurrences(session_effects(selector, keys), Effect::Acquire) <= 1,
{
    let start = started(selector);
    let end = play(start, keys);
    let a = starting_effects(selector);
    let b = play_effects(start, keys);
    let c = closing_effects(end);
    lemma_play_balance(start, keys);
    lemma_counts_of_few(a, Effect::Acquire);
    lemma_counts_of_few(a, Effect::Release);
    lemma_counts_of_few(c, Effect::Acquire);
    lemma_counts_of_few(c, Effect::Release);
    lemma_occurrences_add(a, b, Effect::Acquire);
    lemma_occurrences_add(a, b, Effect::Release);
    lemma_occurrences_add(a + b, c, Effect::Acquire);
    lemma_occurrences_add(a + b, c, Effect::Release);
}

/// Giving up ends the session at once: the terminal is given back, and no
/// payload is returned.
pub proof fn lemma_cancel_ends_session(s: SessionView)
    requires
        s.holding,
        !is_final(s.selector.phase),
    ensures
        !advance(s, Key::Escape).holding,
        key_effects(s, Key::Escape) == seq![Effect::Release],
        outcome(advance(s, Key::Escape).selector) is None,
{
}

/// Once the user has confirmed or given up, nothing is left for closing to
/// do: the terminal was given back already.
pub proof fn lemma_final_holds_nothing(selector: SelectorView, keys: Seq<Key>)
    requires
        is_final(play(started(selector), keys).selector.phase),
    ensures
        !play(started(selector), keys).holding,
        closing_effects(play(started(selector), keys)) == Seq::<Effect>::empty(),
    decreases keys.len(),
{
    if keys.len() > 0 {
        let before = play(started(selector), keys.drop_last());
        if !before.holding && is_final(before.selector.phase) {
            lemma_final_holds_nothing(selector, keys.drop_last());
        } else if !before.holding {
            lemma_held_until_final(selector, keys.drop_last());
        }
    }
}

/// A session that was started holds the terminal exactly while its picker is
/// not final.
pub proof fn lemma_held_until_final(selector: SelectorView, keys: Seq<Key>)
    ensures
        play(started(selector), keys).holding == !is_final(
            play(started(selector), keys).selector.phase,
        ),
    decreases keys.len(),
{
    if keys.len() > 0 {
        lemma_held_until_final(selector, keys.drop_last());
    }
}

impl Session {
    #[verifier::type_invariant]
    spec fn well_formed(&self) -> bool {
        self.holding ==> !is_final(self.selector@.phase)
    }

    /// Starts a session on a picker. Returns the session and what has to be
    /// done to the terminal first.
    pub fn start(selector: Selector) -> (out: (Session, Vec<Effect>))
        ensures
            out.0@ == started(selector@),
            out.1@ == starting_effects(selector@),
    {
        let mut effects: Vec<Effect> = Vec::new();
        let holding = !selector.is_finished();
        if holding {
            effects.push(Effect::Acquire);
            effects.push(Effect::Draw);
            assert(effects@ =~= seq![Effect::Acquire, Effect::Draw]);
        }
        (Session { selector, holding }, effects)
    }

    /// Passes one keystroke to the picker. Returns the session after it and
    /// what has to be done to the terminal.
    pub fn on_key(self, key: Key) -> (out: (Session, Vec<Effect>))
        ensures
            out.0@ == advance(self@, key),
            out.1@ == key_effects(self@, key),
    {
        let mut effects: Vec<Effect> = Vec::new();
        if !self.holding {
            return (self, effects);
        }
        let selector = self.selector.handle_key(key);
        let holding = !selector.is_finished();
        if holding {
            effects.push(Effect::Draw);
            assert(effects@ =~= seq![Effect::Draw]);
        } else {
            effects.push(Effect::Release);
            assert(effects@ =~= seq![Effect::Release]);
        }
        (Session { selector, holding }, effects)
    }

    /// Ends the session, whatever its state. Returns the session after it and
    /// what has to be done to the terminal.
    pub fn close(self) -> (out: (Session, Vec<Effect>))
        ensures
            out.0@ == after_close(self@),
            out.1@ == closing_effects(self@),
    {
        let mut effects: Vec<Effect> = Vec::new();
        if self.holding {
            effects.push(Effect::Release);
            assert(effects@ =~= seq![Effect::Release]);
        }
        (Session { selector: self.selector, holding: false }, effects)
    }

    /// Whether the session holds the terminal and waits for keystrokes.
    pub fn is_open(&self) -> (out: bool)
        ensures
            out == self@.holding,
    {
        self.holding
    }

    /// The picker in its present state.
    pub fn selector(&self) -> (out: &Selector)
        ensures
            out@ == self@.selector,
    {
        &self.selector
    }

    /// The lines to draw.
    pub fn render(&self) -> (out: Vec<String>)
        ensures
            views(out@) == frame(self@.selector),
    {
        self.selector.render()
    }

    /// The payload of the confirmed row, once the user has confirmed one.
    pub fn payload(&self) -> (out: Option<String>)
        ensures
            match out {
                Some(payload) => outcome(self@.selector) == Some(payload@),
                None => outcome(self@.selector) is None,
            },
    {
        self.selector.result()
    }
}

} // verus!

use tfocus::selector::{Key, Phase, SelectItem, Selector};
use tfocus::session::{Effect, Session};

/// A terminal that only counts what is done to it.
struct Terminal {
    acquisitions: usize,
    restorations: usize,
    drawn: Vec<Vec<String>>,
    raw: bool,
}

impl Terminal {
    fn new() -> Terminal {
        Terminal { acquisitions: 0, restorations: 0, drawn: Vec::new(), raw: false }
    }

    fn perform(&mut self, effects: &[Effect], session: &Session) {
        for effect in effects {
            match effect {
                Effect::Acquire => {
                    assert!(!self.raw);
                    self.raw = true;
                    self.acquisitions += 1;
                }
                Effect::Draw => {
                    assert!(self.raw);
                    self.drawn.push(session.render());
                }
                Effect::Release => {
                    assert!(self.raw);
                    self.raw = false;
                    self.restorations += 1;
                }
            }
        }
    }
}

fn picker() -> Selector {
    let rows = ["vpc", "vpc_peering", "subnet"]
        .iter()
        .map(|t| SelectItem {
            display: t.to_string(),
            search_text: t.to_string(),
            data: format!("m:{}", t),
        })
        .collect();
    Selector::new(rows)
}

fn run(keys: &[Key]) -> (Session, Terminal) {
    let mut terminal = Terminal::new();
    let (mut session, effects) = Session::start(picker());
    terminal.perform(&effects, &session);
    for key in keys {
        let (next, effects) = session.on_key(*key);
        session = next;
        terminal.perform(&effects, &session);
    }
    let (session, effects) = session.close();
    terminal.perform(&effects, &session);
    (session, terminal)
}

#[test]
fn opening_takes_the_terminal_and_draws() {
    let (session, effects) = Session::start(picker());
    assert_eq!(effects, vec![Effect::Acquire, Effect::Draw]);
    assert!(session.is_open());
    assert_eq!(session.payload(), None);
    assert_eq!(session.selector().phase(), Phase::Browsing);
    assert_eq!(
        session.render(),
        vec!["> ".to_string(), "> vpc".to_string(), "  vpc_peering".to_string(), "  subnet".to_string()]
    );
}

#[test]
fn every_keystroke_draws_until_the_end() {
    let (session, _) = Session::start(picker());
    let (session, effects) = session.on_key(Key::Char('v'));
    assert_eq!(effects, vec![Effect::Draw]);
    let (session, effects) = session.on_key(Key::Down);
    assert_eq!(effects, vec![Effect::Draw]);
    let (session, effects) = session.on_key(Key::Backspace);
    assert_eq!(effects, vec![Effect::Draw]);
    let (session, effects) = session.on_key(Key::Enter);
    assert_eq!(effects, vec![Effect::Release]);
    assert!(!session.is_open());
    assert_eq!(session.payload(), Some("m:vpc".to_string()));
}

#[test]
fn cancellation_returns_nothing_and_restores_the_terminal() {
    let (session, terminal) = run(&[Key::Char('v'), Key::Down, Key::Escape]);
    assert_eq!(session.payload(), None);
    assert_eq!(session.selector().phase(), Phase::Cancelled);
    assert_eq!(terminal.acquisitions, 1);
    assert_eq!(terminal.restorations, terminal.acquisitions);
    assert!(!terminal.raw);
}

#[test]
fn immediate_cancellation_restores_the_terminal() {
    let (session, terminal) = run(&[Key::Escape]);
    assert_eq!(session.payload(), None);
    assert_eq!(terminal.acquisitions, 1);
    assert_eq!(terminal.restorations, 1);
    assert_eq!(terminal.drawn.len(), 1);
}

#[test]
fn confirmation_restores_the_terminal() {
    let (session, terminal) = run(&[Key::Char('s'), Key::Enter]);
    assert_eq!(session.payload(), Some("m:subnet".to_string()));
    assert_eq!(terminal.acquisitions, 1);
    assert_eq!(terminal.restorations, 1);
    assert!(!terminal.raw);
}

#[test]
fn closing_an_unfinished_session_restores_the_terminal() {
    let (session, terminal) = run(&[Key::Char('v'), Key::Char('p')]);
    assert!(!session.is_open());
    assert_eq!(session.payload(), None);
    assert_eq!(session.selector().phase(), Phase::Filtering);
    assert_eq!(terminal.acquisitions, 1);
    assert_eq!(terminal.restorations, 1);
    assert_eq!(terminal.drawn.len(), 3);
}

#[test]
fn keys_after_the_end_do_nothing() {
    let (session, terminal) =
        run(&[Key::Escape, Key::Char('x'), Key::Enter, Key::Escape, Key::Down]);
    assert_eq!(session.payload(), None);
    assert_eq!(session.selector().phase(), Phase::Cancelled);
    assert_eq!(session.selector().query(), "");
    assert_eq!(terminal.acquisitions, 1);
    assert_eq!(terminal.restorations, 1);
    let (session, terminal) = run(&[Key::Enter, Key::Escape, Key::Enter]);
    assert_eq!(session.payload(), Some("m:vpc".to_string()));
    assert_eq!(terminal.acquisitions, 1);
    assert_eq!(terminal.restorations, 1);
}

#[test]
fn closing_twice_releases_once() {
    let (session, _) = Session::start(picker());
    let (session, effects) = session.close();
    assert_eq!(effects, vec![Effect::Release]);
    let (session, effects) = session.close();
    assert_eq!(effects, Vec::<Effect>::new());
    let (session, effects) = session.on_key(Key::Char('v'));
    assert_eq!(effects, Vec::<Effect>::new());
    assert_eq!(session.selector().query(), "");
}

#[test]
fn finished_picker_never_takes_the_terminal() {
    let finished = picker().handle_key(Key::Escape);
    let (session, effects) = Session::start(finished);
    assert_eq!(effects, Vec::<Effect>::new());
    assert!(!session.is_open());
    let (_, effects) = session.close();
    assert_eq!(effects, Vec::<Effect>::new());
}

#[test]
fn enter_on_an_empty_list_keeps_the_terminal() {
    let (session, _) = Session::start(picker());
    let (session, _) = session.on_key(Key::Char('z'));
    let (session, effects) = session.on_key(Key::Enter);
    assert_eq!(effects, vec![Effect::Draw]);
    assert!(session.is_open());
}

use tfocus::selector::{rank, Key, Phase, SelectItem, Selector};

fn row(text: &str) -> SelectItem {
    SelectItem {
        display: format!("<{}>", text),
        search_text: text.to_string(),
        data: format!("payload:{}", text),
    }
}

fn rows(texts: &[&str]) -> Vec<SelectItem> {
    texts.iter().map(|t| row(t)).collect()
}

fn ranked(texts: &[&str], query: &str) -> Vec<usize> {
    let texts: Vec<Vec<char>> = texts.iter().map(|t| t.chars().collect()).collect();
    let query: Vec<char> = query.chars().collect();
    rank(&texts, &query)
}

fn typed(selector: Selector, text: &str) -> Selector {
    let mut selector = selector;
    for c in text.chars() {
        selector = selector.handle_key(Key::Char(c));
    }
    selector
}

#[test]
fn query_matches_what_holds_it() {
    assert_eq!(ranked(&["vpc", "vpc_peering", "subnet"], "vpc"), vec![0, 1]);
}

#[test]
fn empty_query_shows_every_row() {
    assert_eq!(ranked(&["b", "a", "", "c"], ""), vec![0, 1, 2, 3]);
    assert_eq!(ranked(&[], ""), Vec::<usize>::new());
}

#[test]
fn scattered_characters_match() {
    assert_eq!(ranked(&["a_b_c", "cab", "ab", "xaxbxcx"], "abc"), vec![0, 3]);
}

#[test]
fn one_piece_beats_scattered_characters() {
    assert_eq!(ranked(&["v_p_c", "zzvpc"], "vpc"), vec![1, 0]);
    assert_eq!(ranked(&["abc", "xabc", "a_b_c", "cab"], "abc"), vec![0, 1, 2]);
}

#[test]
fn earlier_match_comes_first() {
    assert_eq!(ranked(&["xxvpc", "xvpc", "vpc"], "vpc"), vec![2, 1, 0]);
    assert_eq!(ranked(&["zzv_pc", "zv_pc", "v_pc"], "vpc"), vec![2, 1, 0]);
}

#[test]
fn equal_matches_keep_list_order() {
    assert_eq!(ranked(&["vpc_b", "vpc_a", "vpc"], "vpc"), vec![0, 1, 2]);
    assert_eq!(ranked(&["a-b", "a+b", "a.b"], "ab"), vec![0, 1, 2]);
}

#[test]
fn match_is_scored_at_its_first_place() {
    assert_eq!(ranked(&["xxabxab", "xab"], "ab"), vec![1, 0]);
    assert_eq!(ranked(&["abab", "bab"], "ab"), vec![0, 1]);
}

#[test]
fn matching_tells_cases_apart() {
    assert_eq!(ranked(&["VPC", "vpc"], "vpc"), vec![1]);
}

#[test]
fn query_longer_than_text_does_not_match() {
    assert_eq!(ranked(&["vp", ""], "vpc"), Vec::<usize>::new());
}

#[test]
fn picker_starts_browsing_the_whole_list() {
    let selector = Selector::new(rows(&["vpc", "vpc_peering", "subnet"]));
    assert_eq!(selector.phase(), Phase::Browsing);
    assert!(!selector.is_finished());
    assert_eq!(selector.query(), "");
    assert_eq!(selector.cursor(), 0);
    assert_eq!(selector.visible(), vec![0, 1, 2]);
    assert_eq!(selector.result(), None);
}

#[test]
fn typing_filters_the_list() {
    let selector = typed(Selector::new(rows(&["vpc", "vpc_peering", "subnet"])), "vpc");
    assert_eq!(selector.phase(), Phase::Filtering);
    assert_eq!(selector.query(), "vpc");
    assert_eq!(selector.visible(), vec![0, 1]);
    assert_eq!(selector.cursor(), 0);
    let selector = typed(selector, "_");
    assert_eq!(selector.visible(), vec![1]);
    let selector = typed(selector, "z");
    assert_eq!(selector.visible(), Vec::<usize>::new());
    assert_eq!(selector.query(), "vpc_z");
}

#[test]
fn typing_puts_the_highlight_on_the_best_row() {
    let selector = Selector::new(rows(&["a", "ab", "abc"]));
    let selector = selector.handle_key(Key::Down).handle_key(Key::Down);
    assert_eq!(selector.cursor(), 2);
    let selector = selector.handle_key(Key::Char('a'));
    assert_eq!(selector.cursor(), 0);
}

#[test]
fn control_characters_are_not_typed() {
    let selector = Selector::new(rows(&["a", "b"]));
    let selector = selector
        .handle_key(Key::Char('\n'))
        .handle_key(Key::Char('\t'))
        .handle_key(Key::Char('\u{1b}'))
        .handle_key(Key::Char('\u{7f}'))
        .handle_key(Key::Char('\0'));
    assert_eq!(selector.query(), "");
    assert_eq!(selector.phase(), Phase::Browsing);
    let selector = selector.handle_key(Key::Char(' '));
    assert_eq!(selector.query(), " ");
    assert_eq!(selector.phase(), Phase::Filtering);
}

#[test]
fn backspace_shortens_the_query() {
    let selector = typed(Selector::new(rows(&["vpc", "vpc_peering", "subnet"])), "vpc_");
    assert_eq!(selector.visible(), vec![1]);
    let selector = selector.handle_key(Key::Backspace);
    assert_eq!(selector.query(), "vpc");
    assert_eq!(selector.phase(), Phase::Filtering);
    assert_eq!(selector.visible(), vec![0, 1]);
    let selector =
        selector.handle_key(Key::Backspace).handle_key(Key::Backspace).handle_key(Key::Backspace);
    assert_eq!(selector.query(), "");
    assert_eq!(selector.phase(), Phase::Browsing);
    assert_eq!(selector.visible(), vec![0, 1, 2]);
    let selector = selector.handle_key(Key::Backspace);
    assert_eq!(selector.query(), "");
    assert_eq!(selector.phase(), Phase::Browsing);
}

#[test]
fn highlight_stops_at_both_ends() {
    let selector = Selector::new(rows(&["a", "b", "c"]));
    let selector = selector.handle_key(Key::Up);
    assert_eq!(selector.cursor(), 0);
    let selector = selector.handle_key(Key::Down);
    assert_eq!(selector.cursor(), 1);
    let selector = selector.handle_key(Key::Down);
    assert_eq!(selector.cursor(), 2);
    let selector = selector.handle_key(Key::Down).handle_key(Key::Down);
    assert_eq!(selector.cursor(), 2);
    let selector = selector.handle_key(Key::Up);
    assert_eq!(selector.cursor(), 1);
    assert_eq!(selector.query(), "");
    assert_eq!(selector.phase(), Phase::Browsing);
    assert_eq!(selector.visible(), vec![0, 1, 2]);
}

#[test]
fn highlight_stays_put_when_nothing_is_shown() {
    let selector = typed(Selector::new(rows(&["a", "b"])), "z");
    assert_eq!(selector.visible(), Vec::<usize>::new());
    let selector = selector.handle_key(Key::Down).handle_key(Key::Up).handle_key(Key::Down);
    assert_eq!(selector.cursor(), 0);
    assert_eq!(selector.query(), "z");
}

#[test]
fn enter_returns_the_highlighted_payload() {
    let selector = typed(Selector::new(rows(&["subnet", "vpc_peering", "vpc"])), "vpc");
    assert_eq!(selector.visible(), vec![1, 2]);
    let selector = selector.handle_key(Key::Down).handle_key(Key::Enter);
    assert_eq!(selector.phase(), Phase::Committed);
    assert!(selector.is_finished());
    assert_eq!(selector.result(), Some("payload:vpc".to_string()));
}

#[test]
fn enter_while_browsing_returns_the_highlighted_payload() {
    let selector = Selector::new(rows(&["a", "b", "c"]));
    let selector = selector.handle_key(Key::Down).handle_key(Key::Enter);
    assert_eq!(selector.result(), Some("payload:b".to_string()));
}

#[test]
fn enter_on_an_empty_list_does_nothing() {
    let selector = typed(Selector::new(rows(&["a", "b"])), "z").handle_key(Key::Enter);
    assert_eq!(selector.phase(), Phase::Filtering);
    assert_eq!(selector.result(), None);
    let selector = Selector::new(Vec::new()).handle_key(Key::Enter);
    assert_eq!(selector.phase(), Phase::Browsing);
    assert_eq!(selector.result(), None);
}

#[test]
fn escape_cancels_without_a_payload() {
    let selector = Selector::new(rows(&["a", "b"])).handle_key(Key::Escape);
    assert_eq!(selector.phase(), Phase::Cancelled);
    assert!(selector.is_finished());
    assert_eq!(selector.result(), None);
    let selector = typed(Selector::new(rows(&["a", "b"])), "a")
        .handle_key(Key::Down)
        .handle_key(Key::Escape);
    assert_eq!(selector.phase(), Phase::Cancelled);
    assert_eq!(selector.result(), None);
    let selector = Selector::new(Vec::new()).handle_key(Key::Escape);
    assert_eq!(selector.phase(), Phase::Cancelled);
    assert_eq!(selector.result(), None);
}

#[test]
fn final_states_take_no_keys() {
    let keys = [Key::Char('x'), Key::Backspace, Key::Up, Key::Down, Key::Enter, Key::Escape];
    let mut committed =
        typed(Selector::new(rows(&["a", "ab"])), "a").handle_key(Key::Down).handle_key(Key::Enter);
    for key in keys {
        committed = committed.handle_key(key);
        assert_eq!(committed.phase(), Phase::Committed);
        assert_eq!(committed.result(), Some("payload:ab".to_string()));
        assert_eq!(committed.query(), "a");
        assert_eq!(committed.cursor(), 1);
    }
    let mut cancelled = typed(Selector::new(rows(&["a", "ab"])), "a").handle_key(Key::Escape);
    for key in keys {
        cancelled = cancelled.handle_key(key);
        assert_eq!(cancelled.phase(), Phase::Cancelled);
        assert_eq!(cancelled.result(), None);
        assert_eq!(cancelled.query(), "a");
    }
}

#[test]
fn frame_shows_query_and_marks_the_highlight() {
    let selector = Selector::new(rows(&["vpc", "subnet", "vpc_peering"]));
    assert_eq!(
        selector.render(),
        vec![
            "> ".to_string(),
            "> <vpc>".to_string(),
            "  <subnet>".to_string(),
            "  <vpc_peering>".to_string(),
        ]
    );
    let selector = typed(selector, "vpc").handle_key(Key::Down);
    assert_eq!(
        selector.render(),
        vec!["> vpc".to_string(), "  <vpc>".to_string(), "> <vpc_peering>".to_string()]
    );
    let selector = typed(selector, "zz");
    assert_eq!(selector.render(), vec!["> vpczz".to_string()]);
}

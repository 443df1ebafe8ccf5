use rankings::order::lex_less;
use rankings::Action;

#[test]
fn lexicographic_order_on_ids() {
    let s = |x: &str| String::from(x);
    assert!(lex_less(&s("p1"), &s("p2")));
    assert!(!lex_less(&s("p2"), &s("p1")));
    assert!(lex_less(&s("ab"), &s("abc")));
    assert!(!lex_less(&s("abc"), &s("abc")));
    assert!(lex_less(&s(""), &s("a")));
    assert!(lex_less(&s("B"), &s("a")));
    assert!(lex_less(&s("a"), &s("\u{e9}")));
}

#[test]
fn action_membership() {
    let acts = vec![Action::WonGame, Action::LostGame];
    assert!(Action::LostGame.is_in(&acts));
    assert!(!Action::AbandonedGame.is_in(&acts));
    assert!(!Action::WonGame.is_in(&vec![]));
}

use quill_engine::paginate::{ground, Ground, Wording};

#[test]
fn the_title_page_prints_the_front_matters_title_and_else_the_name() {
    let named = Wording { name: "notes".to_string(), title: None, author: None, date: None };
    assert_eq!(named.title_or_name(), "notes");
    let titled = Wording { title: Some("A Year".to_string()), ..named.clone() };
    assert_eq!(titled.title_or_name(), "A Year");
    assert_eq!(Wording::default().title_or_name(), "");
}

#[test]
fn a_block_cut_over_three_pages_opens_continues_and_closes_its_ground() {
    assert_eq!(ground(true, true, false), Ground::Opens);
    assert_eq!(ground(true, false, false), Ground::Continues);
    assert_eq!(ground(true, false, true), Ground::Closes);
    assert_eq!(ground(true, true, true), Ground::Whole);
}

#[test]
fn a_block_on_no_ground_stands_bare_wherever_it_is_cut() {
    assert_eq!(ground(false, true, true), Ground::Bare);
    assert_eq!(ground(false, false, true), Ground::Bare);
}

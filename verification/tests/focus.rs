//! Focus's values, the lines a change of tiers redraws, and a block's tier.

use quill_engine::focus::{
    changed, sentence_at, sentences, tier_in, Focus, FocusScope, LineTiers, Tier, Tiers,
};

#[test]
fn focus_off_keeps_the_scope_it_will_be_switched_back_on_at() {
    let scope = FocusScope::Paragraph;
    assert_eq!(Focus::at(false, scope), Focus::Off);
    assert_eq!(
        Focus::at(true, scope),
        Focus::On(FocusScope::Paragraph),
        "the scope was remembered across the switch, which is what the \
         shortcut restores"
    );
    assert_eq!(Focus::default(), Focus::Off);
}

fn lit(line: usize, bright: &[(usize, usize)]) -> LineTiers {
    LineTiers {
        line,
        tiers: Tiers {
            bright: bright.iter().map(|&(start, end)| start..end).collect(),
        },
    }
}

#[test]
fn a_caret_move_redraws_the_lines_it_left_and_the_lines_it_entered() {
    let before = [lit(2, &[(20, 30)]), lit(3, &[(31, 40)])];
    let after = [lit(7, &[(70, 80)])];
    assert_eq!(changed(&before, &after), [2..4, 7..8]);
    assert_eq!(changed(&before, &before), []);
    assert_eq!(changed(&[], &[]), []);
}

#[test]
fn a_line_lit_alike_in_both_is_not_redrawn_and_neighbours_join_one_run() {
    let before = [lit(1, &[(10, 12)]), lit(2, &[(20, 25)]), lit(3, &[(30, 33)])];
    let after = [lit(1, &[(10, 12)]), lit(2, &[(20, 26)]), lit(4, &[(40, 41)])];
    assert_eq!(changed(&before, &after), [2..5]);
}

#[test]
fn a_block_takes_the_bright_tier_where_focus_lights_any_of_it() {
    let tiers = [lit(0, &[(0, 5)]), lit(1, &[(6, 10)])];
    let focus = Focus::On(FocusScope::Paragraph);
    assert_eq!(tier_in(&tiers, focus, &(8..20)), Tier::Bright);
    assert_eq!(tier_in(&tiers, focus, &(10..20)), Tier::Dim);
    assert_eq!(tier_in(&[], focus, &(0..20)), Tier::Dim);
    assert_eq!(tier_in(&[], Focus::Off, &(0..20)), Tier::Bright);
    assert_eq!(Tier::default(), Tier::Bright);
    assert_eq!(Tiers::default().bright, vec![]);
}

/// The sentences of one line as the text they cover.
fn spans(text: &str) -> Vec<&str> {
    sentences(text)
        .into_iter()
        .map(|at| &text[at])
        .collect::<Vec<_>>()
}

#[test]
fn an_abbreviation_does_not_end_a_sentence() {
    assert_eq!(
        spans("Dr. Ross came home. He was late."),
        ["Dr. Ross came home. ", "He was late."],
        "a title ending in a period is a word, not a full stop"
    );
    assert_eq!(
        spans("It rained, etc. Then it stopped."),
        ["It rained, etc. Then it stopped."],
        "the abbreviation list holds `etc`, so a period after it never breaks, \
         even here where a writer did end the sentence"
    );
    assert_eq!(
        spans("Ready, e.g. Tuesday. Or not."),
        ["Ready, e.g. Tuesday. ", "Or not."],
        "an abbreviation with a period inside it is one entry, not two"
    );
}

#[test]
fn an_initial_does_not_end_a_sentence() {
    assert_eq!(
        spans("J. R. R. Tolkien wrote it. Then he stopped."),
        ["J. R. R. Tolkien wrote it. ", "Then he stopped."],
        "three initials in a row are three words of one name"
    );
}

#[test]
fn an_ordinal_at_a_lists_start_does_not_end_a_sentence() {
    assert_eq!(
        spans("1. Down the Rabbit Hole"),
        ["1. Down the Rabbit Hole"],
        "a list marker is a marker, not a sentence of its own"
    );
    assert_eq!(
        spans("# 1. Down the Rabbit Hole"),
        ["# 1. Down the Rabbit Hole"]
    );
    assert_eq!(
        spans("Chapter 1. Down the Rabbit Hole"),
        ["Chapter 1. ", "Down the Rabbit Hole"],
        "the marker rule is anchored at the line's start, so this is a real break"
    );
}

#[test]
fn a_lowercase_word_does_not_start_a_sentence() {
    assert_eq!(
        spans("They left at 5 p.m. and then it was quiet."),
        ["They left at 5 p.m. and then it was quiet."],
        "a sentence does not restart on a lowercase letter"
    );
}

#[test]
fn an_ellipsis_and_a_doubled_terminator_end_a_sentence() {
    assert_eq!(
        spans("She waited… Nothing came."),
        ["She waited… ", "Nothing came."]
    );
    assert_eq!(spans("Really?! He left."), ["Really?! ", "He left."]);
}

#[test]
fn a_closing_quote_or_bracket_belongs_to_the_sentence_it_ends() {
    assert_eq!(
        spans("He said \"Stop.\" Then he left."),
        ["He said \"Stop.\" ", "Then he left."],
        "the quote closes the sentence, so it is inside it"
    );
    assert_eq!(
        spans("Er sagte «Halt.» Dann ging er."),
        ["Er sagte «Halt.» ", "Dann ging er."],
        "a guillemet closes it too"
    );
    assert_eq!(
        spans("It ended (at last.) And then it did not."),
        ["It ended (at last.) ", "And then it did not."]
    );
}

#[test]
fn a_final_run_without_punctuation_is_a_sentence() {
    assert_eq!(
        spans("It ended. A thought without an end"),
        ["It ended. ", "A thought without an end"],
        "the writer is mid-sentence and it is still the sentence they are in"
    );
    assert_eq!(spans(""), [""], "an empty line is one empty sentence");
}

#[test]
fn punctuation_inside_a_word_is_not_a_terminator() {
    assert_eq!(
        spans("It cost 3.50 and weighed 2.5kg. Then it broke."),
        ["It cost 3.50 and weighed 2.5kg. ", "Then it broke."],
        "a decimal point has no space after it, so it never ends anything"
    );
}


#[test]
fn a_caret_is_in_the_sentence_it_is_about_to_type_into() {
    let line = "One. Two. Three";
    let spans = sentences(line);
    assert_eq!(spans, [0..5, 5..10, 10..15]);
    assert_eq!(sentence_at(&spans, 0), 0);
    assert_eq!(sentence_at(&spans, 4), 0);
    assert_eq!(sentence_at(&spans, 5), 1);
    assert_eq!(sentence_at(&spans, 15), 2);
    assert_eq!(sentence_at(&spans, 99), 2);
}

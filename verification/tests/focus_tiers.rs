//! The tiers of a Document: what a caret or a selection lights, line by line,
//! and across an edit.

use std::ops::Range;

use quill_engine::document::{Document, Kind, Splice};
use quill_engine::focus::{
    changed, content, reach, rebased, tier_in, tiers, tiers_by_line, Focus, FocusScope, Tier, Tiers,
};

/// A Document holding `text`, the way an owner's file arrives.
fn document(text: &str) -> Document {
    let mut doc = Document::untitled();
    doc.reload(text.to_string());
    doc
}

/// What a Document lights under `focus`, as source text.
fn lit(doc: &Document, at: Range<usize>, focus: Focus) -> Vec<String> {
    let text = doc.text();
    tiers(doc, &at, focus)
        .bright
        .iter()
        .map(|at| text[at.clone()].to_string())
        .collect()
}

/// Replaces `at` with `inserted` in `doc`, and says where the edit cut.
fn edit(doc: &mut Document, at: Range<usize>, inserted: &str) -> Splice {
    let mut text = doc.text().to_string();
    text.replace_range(at.clone(), inserted);
    doc.reload(text);
    Splice {
        at,
        inserted: inserted.len(),
    }
}

#[test]
fn only_the_carets_own_sentence_is_lit_wherever_its_neighbours_sit() {
    let across = document("First thought here.\n\nSecond thought here.\n\nThird thought here.\n");
    assert_eq!(
        lit(&across, 25..25, Focus::On(FocusScope::Sentence)),
        ["Second thought here."],
        "the sentences either side are in other blocks, and dim"
    );

    let within = document("A first line here.\nA second line here.\n\nAnother block.\n");
    assert_eq!(
        lit(&within, 25..25, Focus::On(FocusScope::Sentence)),
        ["A second line here."],
        "the line above is in this block, and dim just the same"
    );
}

#[test]
fn a_caret_on_a_blank_line_lights_the_sentence_above_it() {
    let doc = document("One thought. And then another one.\n\nNext.\n");
    assert_eq!(
        lit(&doc, 35..35, Focus::On(FocusScope::Sentence)),
        ["And then another one."],
        "the page does not black out behind a new thought"
    );
}

#[test]
fn a_caret_two_blank_lines_below_a_thought_leaves_it_dim() {
    let doc = document("One thought here.\n\n\n\nFar below.\n");
    assert!(
        lit(&doc, 20..20, Focus::On(FocusScope::Sentence)).is_empty(),
        "two blank lines back is far enough to go dim with everything else"
    );
}

#[test]
fn tiers_by_line_never_yields_a_range_that_crosses_a_line_start() {
    let doc = document("A first line here.\nA second line here.\nA third line here.\n");
    let tiers = tiers(&doc, &(25..25), Focus::On(FocusScope::Paragraph));
    assert_eq!(
        tiers.bright.len(),
        1,
        "the paragraph is one range before it is split"
    );
    let text = doc.text();
    let by_line = tiers_by_line(&doc, &tiers);
    assert_eq!(
        by_line
            .iter()
            .map(|on| (on.line, &text[on.tiers.bright[0].clone()]))
            .collect::<Vec<_>>(),
        [
            (0, "A first line here."),
            (1, "A second line here."),
            (2, "A third line here.")
        ],
        "one range per line, and no newline in any of them"
    );
    for on in &by_line {
        let line = content(&doc, on.line);
        for at in &on.tiers.bright {
            assert!(
                at.start >= line.start && at.end <= line.end,
                "line {} has {at:?}, which leaves {line:?}",
                on.line
            );
        }
    }
}

#[test]
fn a_hard_breaks_two_spaces_stay_in_the_tier_their_line_is_in() {
    let doc = document("A first line here.  \nA second line here.\n");
    let tiers = tiers(&doc, &(5..5), Focus::On(FocusScope::Paragraph));
    let text = doc.text();
    assert_eq!(
        tiers_by_line(&doc, &tiers)
            .iter()
            .map(|on| &text[on.tiers.bright[0].clone()])
            .collect::<Vec<_>>(),
        ["A first line here.  ", "A second line here."],
        "a line is lit to its last byte, so only the terminator is trimmed away"
    );
}

#[test]
fn tiers_by_line_lights_one_sentence_of_a_line_of_three() {
    let doc = document("One thought. And then another one. And a third.\n");
    let tiers = tiers(&doc, &(15..15), Focus::On(FocusScope::Sentence));
    let text = doc.text();
    let by_line = tiers_by_line(&doc, &tiers);
    assert_eq!(by_line.len(), 1, "it is all one line");
    assert_eq!(
        by_line[0]
            .tiers
            .bright
            .iter()
            .map(|at| &text[at.clone()])
            .collect::<Vec<_>>(),
        ["And then another one. "],
        "the sentences either side of the caret's are dim, so the line has one hole in it"
    );
}

#[test]
fn a_line_with_nothing_on_it_is_left_out_rather_than_named_dim() {
    let doc = document("First thought here.\n\nSecond thought here.\n");
    let tiers = tiers(&doc, &(25..25), Focus::On(FocusScope::Sentence));
    assert_eq!(
        tiers_by_line(&doc, &tiers)
            .iter()
            .map(|on| on.line)
            .collect::<Vec<_>>(),
        [2],
        "only the caret's line carries anything; the rest of the page is dim"
    );
}

#[test]
fn a_caret_in_a_ten_thousand_word_document_reads_no_more_than_two_blocks() {
    let paragraph = "The lamp had been lit for an hour before she noticed the boat. \
         It was a small thing, a dark stitch on the water, and it was not moving. \
         She watched it for a long time.";
    let mut text = String::new();
    for _ in 0..300 {
        text.push_str(paragraph);
        text.push_str("\n\n");
    }
    let doc = document(&text);
    assert!(
        doc.text().len() > 50_000,
        "the passage is a manuscript, not a note: {} bytes",
        doc.text().len()
    );

    let focus = Focus::On(FocusScope::Sentence);
    let blocks = doc.blocks();
    let mut widest = 0;
    for caret in (0..doc.text().len()).step_by(97) {
        let read = reach(&doc, &(caret..caret), focus);
        let block = doc.block_at(caret).expect("the block index tiles the text");
        let here = blocks[block].at.clone();
        let above = blocks[..block]
            .iter()
            .rev()
            .find(|block| block.kind != Kind::Gap)
            .map_or(here.start, |block| block.at.start);
        assert!(
            read.start >= above && read.end <= here.end,
            "a caret at {caret} read {read:?}, which leaves the block {here:?} and the one before it"
        );
        let tiers = tiers(&doc, &(caret..caret), focus);
        for at in &tiers.bright {
            assert!(
                at.start >= read.start && at.end <= read.end,
                "a caret at {caret} lit {at:?}, which it never read"
            );
        }
        widest = widest.max(read.end - read.start);
    }
    assert!(
        widest < 2_000,
        "the widest window over a {} byte Document was {widest} bytes, which is not flat",
        doc.text().len()
    );
}

/// The lines whose tier changed when the caret went from `from` to `to`.
fn moved(doc: &Document, from: usize, to: usize, focus: Focus) -> Vec<Range<usize>> {
    let before = tiers_by_line(doc, &tiers(doc, &(from..from), focus));
    let after = tiers_by_line(doc, &tiers(doc, &(to..to), focus));
    changed(&before, &after)
}

#[test]
fn a_caret_that_does_not_leave_its_sentence_changes_no_line() {
    let doc = document("A first thought. A second one.\n\nA third.\n");
    assert_eq!(
        moved(&doc, 2, 8, Focus::On(FocusScope::Sentence)),
        Vec::<Range<usize>>::new(),
        "the same sentence is lit before and after, so nothing is redrawn"
    );
}

#[test]
fn a_caret_crossing_a_full_stop_retags_only_the_line_the_two_sentences_share() {
    let doc = document("A first thought. A second one.\n\nA third.\n");
    assert_eq!(
        moved(&doc, 2, 20, Focus::On(FocusScope::Sentence)),
        vec![0..1],
        "both sentences are on line 0, and no other line's tier moved"
    );
}

#[test]
fn a_caret_leaving_a_paragraph_retags_the_two_it_is_between_and_nothing_between_them() {
    let doc = document("One.\n\nTwo.\n\nThree.\n\nFour.\n");
    assert_eq!(
        moved(&doc, 0, 20, Focus::On(FocusScope::Paragraph)),
        [0..1, 6..7],
        "the block left and the block landed in, as two runs"
    );
}

#[test]
fn a_caret_move_with_focus_off_changes_no_line() {
    let doc = document("One.\n\nTwo.\n\nThree.\n");
    assert_eq!(
        moved(&doc, 0, 12, Focus::Off),
        Vec::<Range<usize>>::new(),
        "with Focus off there are no tiers, so a move has nothing to redraw"
    );
}

#[test]
fn consecutive_changed_lines_are_one_run() {
    let doc = document("A block that runs on\nover two lines.\n\nApart.\n");
    assert_eq!(
        moved(&doc, 40, 0, Focus::On(FocusScope::Paragraph)),
        [0..2, 3..4],
        "the block spans lines 0 and 1, which are one run, and the block the \
         caret left is another"
    );
}

/// The lines whose tier changed when `text` was typed at `caret`: the tiers
/// from before the keystroke, carried across it, against the tiers read
/// from the text after.
fn moved_by_typing(doc: &mut Document, caret: usize, text: &str, focus: Focus) -> Vec<Range<usize>> {
    let before = tiers_by_line(doc, &tiers(doc, &(caret..caret), focus));
    let splice = edit(doc, caret..caret, text);
    let landed = caret + text.len();
    let after = tiers_by_line(doc, &tiers(doc, &(landed..landed), focus));
    changed(&rebased(doc, &before, &splice, &after), &after)
}

#[test]
fn a_keystroke_inside_the_lit_sentence_moves_no_line() {
    let focus = Focus::On(FocusScope::Sentence);
    let text = "A first thought. A second one.\n\nA third.\n";
    assert_eq!(
        moved_by_typing(&mut document(text), 8, "x", focus),
        Vec::<Range<usize>>::new(),
        "the sentence is one byte longer and still the lit one"
    );
    assert_eq!(
        moved_by_typing(&mut document(text), 40, "x", focus),
        Vec::<Range<usize>>::new(),
        "typed at the block's last byte, where the range's end moved"
    );
    assert_eq!(
        moved_by_typing(&mut document(text), 32, "x", focus),
        Vec::<Range<usize>>::new(),
        "typed at the block's first byte, where the range's start moved"
    );
}

#[test]
fn typing_through_a_full_stop_moves_the_line_the_sentence_split_on() {
    let mut doc = document("A first thought Another one.\n\nA third.\n");
    assert_eq!(
        moved_by_typing(&mut doc, 15, ".", Focus::On(FocusScope::Sentence)),
        vec![0..1],
        "a tier moved, and its line is drawn again"
    );
    let mut doc = document("One Two three.\n");
    assert_eq!(
        moved_by_typing(&mut doc, 3, ". ", Focus::On(FocusScope::Sentence)),
        vec![0..1],
        "the caret lands in `Two three.`, which is lit on its own now"
    );
}

#[test]
fn a_deletion_across_a_range_edge_collapses_it_and_moves_only_its_line() {
    let focus = Focus::On(FocusScope::Sentence);
    let mut doc = document("One. Two.\n\nThree.\n");
    let before = tiers_by_line(&doc, &tiers(&doc, &(6..6), focus));
    let splice = edit(&mut doc, 2..7, "");
    let after = tiers_by_line(&doc, &tiers(&doc, &(2..2), focus));
    assert_eq!(
        changed(&rebased(&doc, &before, &splice, &after), &after),
        vec![0..1],
        "`Two.` began inside the bytes taken out, so what is left of it \
         starts where they were; the joined sentence is lit whole"
    );
}

#[test]
fn a_block_focus_lights_any_of_is_a_block_the_writer_is_in() {
    let doc = document("One.\n\n```\ncode\n```\n\nThree.\n");
    let focus = Focus::On(FocusScope::Paragraph);
    let fence = doc.text().find("```").expect("the fence is in the text");
    let block = fence..fence + 12;
    let inside = tiers_by_line(&doc, &tiers(&doc, &(fence + 4..fence + 4), focus));
    assert_eq!(tier_in(&inside, focus, &block), Tier::Bright);
    let elsewhere = tiers_by_line(&doc, &tiers(&doc, &(0..0), focus));
    assert_eq!(tier_in(&elsewhere, focus, &block), Tier::Dim);
    assert_eq!(
        tier_in(&[], Focus::Off, &block),
        Tier::Bright,
        "with Focus off the untiered colour is the bright arm of the table"
    );
}

#[test]
fn focus_off_lights_nothing_at_all_in_any_document() {
    let doc = document("One thought. Another.\n\nNext.\n");
    assert_eq!(tiers(&doc, &(3..3), Focus::Off), Tiers::default());
    assert_eq!(reach(&doc, &(3..3), Focus::Off), 0..0);
}

#[test]
fn a_live_selection_is_the_bright_span_on_its_own() {
    let doc = document("She went down the spiral stair.\n");
    assert_eq!(
        lit(&doc, 0..19, Focus::On(FocusScope::Sentence)),
        ["She went down the s"]
    );
    assert_eq!(
        lit(&doc, 4..400, Focus::On(FocusScope::Sentence)),
        ["went down the spiral stair.\n"],
        "a selection past the end stops at the end"
    );
}

#[test]
fn the_caret_lights_its_whole_paragraph_without_its_last_newline() {
    let doc = document("Intro.\n\nA long line here.\nAnd a second one.\n\nAfter.\n");
    assert_eq!(
        tiers(&doc, &(10..10), Focus::On(FocusScope::Paragraph)),
        Tiers {
            bright: vec![8..43],
        }
    );
    assert_eq!(
        lit(&doc, 10..10, Focus::On(FocusScope::Paragraph)),
        ["A long line here.\nAnd a second one."]
    );
}

#[test]
fn an_empty_document_lights_nothing() {
    let doc = Document::untitled();
    assert_eq!(tiers(&doc, &(0..0), Focus::On(FocusScope::Sentence)), Tiers::default());
    assert_eq!(tiers(&doc, &(0..0), Focus::On(FocusScope::Paragraph)), Tiers::default());
    assert!(tiers_by_line(&doc, &Tiers::default()).is_empty());
}

#[test]
fn a_carried_range_slides_with_the_text_after_the_cut() {
    let doc = document("Zero. One two.\n");
    let before = tiers_by_line(&doc, &tiers(&doc, &(8..8), Focus::On(FocusScope::Sentence)));
    assert_eq!(before[0].tiers.bright, vec![6..14]);
    let mut typed = document("Zero. One two.\n");
    let splice = edit(&mut typed, 0..0, "xx");
    let carried = rebased(&typed, &before, &splice, &[]);
    assert_eq!(carried.len(), 1);
    assert_eq!(carried[0].tiers.bright, vec![8..16]);
}

use std::ops::Range;

use quill_engine::annotate::live::{part_at, spans, spans_in, spans_over, Fold, Furniture, LiveLook, LiveSpan};
use quill_engine::annotate::{markup, Mark};
use quill_engine::document::{index, Block, Document, Kind};

/// A passage carrying every construct Live has a rule for.
const PAGE: &str = "# The Lighthouse\n\nThe lamp was *lit* since dusk, and the keeper's **book** lay open.\n\n## What the sea keeps\n\n> A quote is a quote by its marker.\n\n- the rope\n- the good knife\n\n1. Untie the skiff.\n2. Row out.\n\n- [ ] scrub the lens\n- [x] wind the clock\n\nA [link to the book](https://example.org/book) and `code`.\n\n---\n\n```rust\nlet x = 1;\n```\n";

/// A Document holding `text`.
fn document(text: &str) -> Document {
    let mut doc = Document::untitled();
    doc.reload(text.to_string());
    doc
}

/// Live's spans over `text` with the writer at `at`.
fn live(text: &str, at: Range<usize>) -> Vec<LiveSpan> {
    spans(&document(text), &at)
}

/// The bytes Live takes off the page.
fn folded(live: &[LiveSpan]) -> Vec<Range<usize>> {
    live.iter()
        .filter(|span| match &span.look {
            LiveLook::Folded(_) => true,
            LiveLook::Furniture(furniture) => furniture.folds(),
            LiveLook::Scaled(_) | LiveLook::Quote => false,
        })
        .map(|span| span.at.clone())
        .collect()
}

/// The ranges of the Markup spans of `text` marked `mark`.
fn marked(text: &str, mark: Mark) -> Vec<Range<usize>> {
    markup(text).into_iter().filter(|span| span.mark == mark).map(|span| span.at).collect()
}

/// The block of `blocks` holding `offset`.
fn block_at(blocks: &[Block], offset: usize) -> Option<usize> {
    blocks.iter().position(|block| block.at.start <= offset && offset < block.at.end)
}

#[test]
fn a_quotations_marker_is_never_folded_and_takes_the_bodys_ink_when_its_block_is() {
    let quote = marked(PAGE, Mark::QuoteMarker);
    assert_eq!(quote.len(), 1, "the passage quotes one line");
    let blocks = index(PAGE, 0);
    let block = blocks[block_at(&blocks, quote[0].start).expect("the quotation is a block")].at.clone();
    for caret in [0, quote[0].start, quote[0].end, PAGE.len()] {
        let over: Vec<(Range<usize>, bool)> = live(PAGE, caret..caret)
            .iter()
            .filter(|span| span.at.start < quote[0].end && quote[0].start < span.at.end)
            .map(|span| (span.at.clone(), span.look == LiveLook::Quote))
            .collect();
        let wanted = if block.contains(&caret) { Vec::new() } else { vec![(quote[0].clone(), true)] };
        assert_eq!(over, wanted, "with the caret at {caret}");
    }
}

#[test]
fn a_headings_text_is_scaled_by_its_level_wherever_the_caret_stands() {
    for level in 1..=6u8 {
        let text = format!("{} Deep\n\nAnd prose below.\n", "#".repeat(usize::from(level)));
        let heading = marked(&text, Mark::Heading(level));
        assert_eq!(heading.len(), 1, "level {level} is one heading");
        for caret in [0, text.len() - 2] {
            assert!(
                live(&text, caret..caret).contains(&LiveSpan {
                    at: heading[0].clone(),
                    block: 0,
                    look: LiveLook::Scaled(level),
                }),
                "level {level} is scaled with the caret at {caret}"
            );
        }
    }
}

#[test]
fn a_headings_hashes_hang_folded_until_the_caret_is_in_the_heading() {
    let hashes = 0..2;
    assert!(live(PAGE, 30..30).contains(&LiveSpan { at: hashes.clone(), block: 0, look: LiveLook::Folded(Fold::Hanging) }));
    assert!(!folded(&live(PAGE, 3..3)).contains(&hashes));
}

#[test]
fn an_inline_delimiter_folds_as_one_and_a_heading_opener_as_a_hang() {
    let inline: Vec<&str> = live(PAGE, 0..0)
        .iter()
        .filter(|span| span.look == LiveLook::Folded(Fold::Inline))
        .map(|span| &PAGE[span.at.clone()])
        .collect();
    assert_eq!(
        inline,
        ["*", "*", "**", "**", "[", "](", "https://example.org/book", ")", "`", "`", "rust"]
    );
}

#[test]
fn furniture_stands_in_the_cells_of_every_marker_it_replaces() {
    let found = live(PAGE, 0..0);
    let furniture: Vec<(&str, &Furniture)> = found
        .iter()
        .filter_map(|span| match &span.look {
            LiveLook::Furniture(furniture) => Some((&PAGE[span.at.clone()], furniture)),
            _ => None,
        })
        .collect();
    assert_eq!(
        furniture,
        [
            ("- ", &Furniture::Bullet),
            ("- ", &Furniture::Bullet),
            ("1. ", &Furniture::Number { count: 1, delimiter: '.' }),
            ("2. ", &Furniture::Number { count: 2, delimiter: '.' }),
            ("- [ ]", &Furniture::Checkbox { checked: false }),
            ("- [x]", &Furniture::Checkbox { checked: true }),
            ("link to the book", &Furniture::Link { destination: 272..296 }),
            ("---", &Furniture::Hairline),
            ("```", &Furniture::Fence),
            ("```", &Furniture::Fence),
        ]
    );
    assert_eq!(&PAGE[272..296], "https://example.org/book");
}

#[test]
fn a_task_box_reads_an_x_of_either_case_as_ticked() {
    let found = live("Prose.\n\n- [X] wind the clock\n", 0..0);
    assert!(found.iter().any(|span| span.look == LiveLook::Furniture(Furniture::Checkbox { checked: true })));
}

#[test]
fn an_ordered_list_closed_with_a_bracket_counts_from_where_it_starts() {
    let found = live("Prose.\n\n7) seven\n8) eight\n", 0..0);
    let numbers: Vec<&Furniture> = found
        .iter()
        .filter_map(|span| match &span.look {
            LiveLook::Furniture(furniture @ Furniture::Number { .. }) => Some(furniture),
            _ => None,
        })
        .collect();
    assert_eq!(
        numbers,
        [&Furniture::Number { count: 7, delimiter: ')' }, &Furniture::Number { count: 8, delimiter: ')' }]
    );
}

#[test]
fn a_folded_fenced_blocks_fences_and_info_string_leave_the_page() {
    let fences = marked(PAGE, Mark::Fence);
    let info = marked(PAGE, Mark::InfoString);
    let away = folded(&live(PAGE, 0..0));
    assert!(fences.iter().all(|at| away.contains(at)) && away.contains(&info[0]));
    let caret = info[0].end + 2;
    let inside = folded(&live(PAGE, caret..caret));
    assert!(fences.iter().all(|at| !inside.contains(at)));
}

#[test]
fn a_list_folds_item_by_item_and_the_carets_own_item_alone_unfolds() {
    let text = "Prose.\n\n- one\n- two\n- three\n";
    let bullets = marked(text, Mark::BulletMarker);
    let caret = bullets[1].end;
    let gone = folded(&live(text, caret..caret));
    assert!(!gone.contains(&bullets[1]));
    assert!(gone.contains(&bullets[0]) && gone.contains(&bullets[2]));
}

#[test]
fn a_selection_spanning_two_blocks_unfolds_both() {
    let blocks = index(PAGE, 0);
    let at = blocks[0].at.start + 2..blocks[2].at.start + 2;
    let gone = folded(&live(PAGE, at));
    assert!(!gone.contains(&(0..2)), "the heading's `#` is the selection's");
    let emphasis = marked(PAGE, Mark::Markup);
    assert!(!gone.contains(&emphasis[1]), "the first paragraph's emphasis is the selection's");
}

#[test]
fn live_spans_run_in_order_and_only_a_scaled_heading_holds_another() {
    for caret in 0..=PAGE.len() {
        let found = live(PAGE, caret..caret);
        for (index, first) in found.iter().enumerate() {
            for second in &found[index + 1..] {
                assert!(first.at.start <= second.at.start);
                let disjoint = second.at.start >= first.at.end;
                let nested = second.at.end <= first.at.end && matches!(first.look, LiveLook::Scaled(_));
                assert!(disjoint || nested, "at caret {caret}, {second:?} overlaps {first:?}");
            }
        }
    }
}

#[test]
fn every_span_carries_the_document_block_its_bytes_are_in() {
    let blocks = index(PAGE, 0);
    for span in live(PAGE, 0..0) {
        assert_eq!(block_at(&blocks, span.at.start), Some(span.block), "{span:?}");
    }
}

#[test]
fn the_index_tiles_the_page_and_names_each_block() {
    let blocks = index(PAGE, 0);
    assert_eq!(blocks[0].at.start, 0);
    assert_eq!(blocks.last().map(|block| block.at.end), Some(PAGE.len()));
    for pair in blocks.windows(2) {
        assert_eq!(pair[0].at.end, pair[1].at.start);
    }
    let kinds: Vec<Kind> = blocks.iter().filter(|block| block.kind != Kind::Gap).map(|block| block.kind).collect();
    assert_eq!(
        kinds,
        [
            Kind::Heading { setext: false },
            Kind::Paragraph,
            Kind::Heading { setext: false },
            Kind::Quote,
            Kind::List,
            Kind::List,
            Kind::List,
            Kind::Paragraph,
            Kind::Rule,
            Kind::Code { fenced: true },
        ]
    );
}

#[test]
fn an_underlined_heading_indexes_as_setext_and_an_index_moves_on_by_its_base() {
    let blocks = index("Title\n=====\n\n    code\n", 10);
    assert_eq!(blocks[0].kind, Kind::Heading { setext: true });
    assert_eq!(blocks[0].at.start, 10);
    assert!(blocks.iter().any(|block| block.kind == Kind::Code { fenced: false }));
    assert_eq!(blocks.last().map(|block| block.at.end), Some(10 + "Title\n=====\n\n    code\n".len()));
}

#[test]
fn a_kind_opens_past_its_bytes_only_where_something_must_close_it() {
    assert!(Kind::Code { fenced: true }.opens());
    assert!(Kind::FrontMatter.opens() && Kind::Html.opens());
    assert!(!Kind::Code { fenced: false }.opens() && !Kind::Paragraph.opens());
    assert!(Kind::Heading { setext: false }.begins_a_block());
    assert!(!Kind::Heading { setext: true }.begins_a_block() && !Kind::List.begins_a_block());
}

#[test]
fn part_at_answers_the_item_the_offset_is_in_and_the_whole_block_elsewhere() {
    let text = [
        "A paragraph\nthat runs on.\n\n",
        "- one\n- two\n  - nested\n\n",
        "```rust\nlet x = 1;\n```\n",
    ]
    .concat();
    let text = text.as_str();
    let doc = document(text);
    let at = |needle: &str| text.find(needle).expect("the passage carries it");
    let part = |offset: usize| part_at(&doc, offset).expect("every offset is in a block");

    let (one, two, nested) = (part(at("- one")), part(at("- two")), part(at("  - nested")));
    assert_eq!(one, at("- one")..at("- two"));
    assert_eq!(two, at("- two")..at("  - nested"));
    assert_eq!(nested.start, at("  - nested"));
    assert!(nested.end > at("nested"));

    let paragraph = part(at("A paragraph"));
    assert_eq!(part(at("that runs on")), paragraph);
    assert!(!paragraph.contains(&at("- one")));
    let fence = part(at("```rust"));
    assert_eq!(part(at("let x")), fence);
    assert_eq!(
        part(text.len()).end,
        text.len(),
        "the end of the text belongs to the last part"
    );

    let far = spans(&doc, &(0..0));
    let here = spans(&doc, &(two.start..two.start));
    let elsewhere =
        |span: &&LiveSpan| !two.contains(&span.at.start) && !paragraph.contains(&span.at.start);
    assert_eq!(
        here.iter().filter(elsewhere).collect::<Vec<_>>(),
        far.iter().filter(elsewhere).collect::<Vec<_>>()
    );
    assert!(
        here.iter().all(|span| !two.contains(&span.at.start)),
        "nothing inside the writer's own item is folded: {here:?}"
    );
    assert!(
        far.iter().any(|span| two.contains(&span.at.start)),
        "with the writer elsewhere the item's marker folds: {far:?}"
    );
    assert!(
        here.iter().any(|span| one.contains(&span.at.start)),
        "the item the writer left folds while they stand in the next one: {here:?}"
    );
}

#[test]
fn spans_in_reads_the_blocks_its_range_touches_and_no_others() {
    let doc = document(PAGE);
    let at = 0..0;
    let whole = spans(&doc, &at);
    let blocks = doc.blocks();
    for block in &blocks {
        let expected: Vec<&LiveSpan> = whole
            .iter()
            .filter(|span| block.at.contains(&span.at.start))
            .collect();
        assert_eq!(
            spans_in(&doc, &at, &block.at).iter().collect::<Vec<_>>(),
            expected,
            "the retag of {:?} reads that block and nothing else",
            block.at
        );
    }
    let two = blocks[8].at.start..blocks[9].at.end;
    assert_eq!(
        spans_in(&doc, &at, &two).iter().collect::<Vec<_>>(),
        whole
            .iter()
            .filter(|span| two.contains(&span.at.start))
            .collect::<Vec<_>>(),
        "a range over two blocks reads both"
    );
}

#[test]
fn the_spans_of_a_document_are_the_spans_of_its_text_index_and_markup() {
    let doc = document(PAGE);
    let at = 40..40;
    assert_eq!(spans(&doc, &at), spans_over(PAGE, &index(PAGE, 0), &markup(PAGE), &at));
    assert!(part_at(&doc, PAGE.len() + 1).is_none());
    assert!(spans_in(&doc, &at, &(PAGE.len() + 1..PAGE.len() + 2)).is_empty());
}

#[test]
fn a_documents_spans_in_a_range_start_in_the_blocks_it_reaches() {
    let text = "# One\n\nSome *words* here.\n\n- a\n- b\n";
    let doc = document(text);
    let all = doc.spans();
    let blocks = doc.blocks();
    let second = blocks.iter().position(|block| block.kind == Kind::Paragraph).expect("a paragraph");
    let found = doc.spans_in(&blocks[second].at);
    assert!(!found.is_empty());
    for span in &found {
        assert!(blocks[second].at.contains(&span.at.start), "{span:?}");
        assert!(all.contains(span));
    }
}

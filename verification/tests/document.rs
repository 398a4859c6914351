//! What a path calls its file.

use quill_engine::annotate::{markup, Mark, Run, Span};
use quill_engine::document::{full_name, index, paths_equal, shown_name, Block, Document, Kind, Place, Splice, UNTITLED};

#[test]
fn a_shown_name_is_the_file_name_without_its_extension() {
    assert_eq!(shown_name("/home/w/sea-storm.md"), "sea-storm");
    assert_eq!(shown_name("notes.txt"), "notes");
    assert_eq!(shown_name("/w/archive.tar.gz"), "archive.tar");
    assert_eq!(shown_name("/w/.profile"), ".profile");
    assert_eq!(shown_name("/w/draft/"), "draft");
    assert_eq!(shown_name("/w/draft/."), "draft");
    assert_eq!(shown_name("/w/.."), "/w/..");
    assert_eq!(shown_name("/"), "/");
}

#[test]
fn a_full_name_keeps_the_extension_and_is_empty_where_there_is_no_file() {
    assert_eq!(full_name("/home/w/sea-storm.md"), "sea-storm.md");
    assert_eq!(full_name("/w//a.b/"), "a.b");
    assert_eq!(full_name("/"), "");
    assert_eq!(full_name(""), "");
    assert_eq!(full_name("."), "");
}

#[test]
fn two_paths_are_one_place_whatever_stands_between_their_names() {
    assert!(paths_equal("/w/a.md", "/w//a.md"));
    assert!(paths_equal("/w/./a.md", "/w/a.md"));
    assert!(paths_equal("/w/a/", "/w/a"));
    assert!(!paths_equal("/w/a.md", "w/a.md"));
    assert!(!paths_equal("./a", "a"));
    assert!(!paths_equal("/w/../a", "/a"));
}

/// A Document holding `text`, parsed whole.
fn opened(text: &str) -> Document {
    let mut doc = Document::untitled();
    doc.reload(text.to_string());
    doc
}

#[test]
fn untitled_has_no_path_and_no_text() {
    let doc = Document::untitled();
    assert_eq!(doc.path(), None);
    assert_eq!(doc.text(), "");
    assert_eq!(doc.title(), UNTITLED);
}

#[test]
fn an_untitled_document_has_one_empty_line() {
    let doc = Document::untitled();
    assert_eq!(doc.place(0), Place { line: 0, index: 0 });
}

#[test]
fn every_byte_of_a_short_document_lands_on_the_line_it_is_written_on() {
    let doc = opened("# One\ntwo\n\nfour\n");
    for (offset, line, index) in [
        (0, 0, 0),
        (2, 0, 2),
        (5, 0, 5),
        (6, 1, 0),
        (9, 1, 3),
        (10, 2, 0),
        (11, 3, 0),
        (15, 3, 4),
        (16, 4, 0),
    ] {
        assert_eq!(
            doc.place(offset),
            Place { line, index },
            "byte {offset} is not on line {line} at index {index}"
        );
    }
}

#[test]
fn an_offset_past_the_end_lands_at_the_end_rather_than_panicking() {
    let doc = opened("abc\n");
    assert_eq!(doc.place(9_999), doc.place(doc.text().len()));
}

#[test]
fn the_shapes_a_boundary_rule_is_written_for_are_the_kinds_they_index_as() {
    let text = [
        "---\ntitle: The Lighthouse\n---\n\n",
        "Setext\n======\n\n",
        "- one\n- two\n\n",
        "```rust\nlet lamp = 1;\n```\n\n",
        "> quoted\n\n",
        "<div>\nhi\n</div>\n\n",
        "---\n\n",
        "| a | b |\n|---|---|\n| 1 | 2 |\n\n",
        "Text[^1].\n\n[^1]: A note.\n",
    ]
    .concat();
    let doc = opened(&text);
    let kinds: Vec<Kind> = doc
        .blocks()
        .iter()
        .map(|block| block.kind)
        .filter(|kind| *kind != Kind::Gap)
        .collect();
    assert_eq!(
        kinds,
        [
            Kind::FrontMatter,
            Kind::Heading { setext: true },
            Kind::List,
            Kind::Code { fenced: true },
            Kind::Quote,
            Kind::Html,
            Kind::Rule,
            Kind::Table,
            Kind::Paragraph,
            Kind::Footnote,
        ]
    );
}

#[test]
fn a_byte_inside_a_multi_byte_character_lands_after_it() {
    let doc = opened("a\u{2014}b\nsecond\n");
    assert_eq!(doc.place(1), Place { line: 0, index: 1 });
    assert_eq!(doc.place(2), Place { line: 0, index: 4 });
    assert_eq!(doc.place(3), Place { line: 0, index: 4 });
    assert_eq!(doc.place(4), Place { line: 0, index: 4 });
    assert_eq!(doc.place(6), Place { line: 1, index: 0 });
}

#[test]
fn every_byte_is_in_the_block_that_holds_it() {
    let doc = opened("# Title\n\nSome prose here.\n\n- a list\n");
    let blocks = doc.blocks();
    assert_eq!(blocks.len(), doc.block_count());
    for offset in 0..=doc.text().len() {
        let found = doc.block_at(offset).expect("every byte is in a block");
        let block = doc.block(found);
        assert_eq!(block, blocks[found]);
        assert!(block.at.contains(&offset) || offset == doc.text().len());
    }
    assert_eq!(doc.block_at(doc.text().len() + 1), None);
}

#[test]
fn a_line_past_the_last_is_the_empty_range_at_the_end() {
    let doc = opened("one\r\ntwo");
    assert_eq!(doc.line_bytes(0), 0..5);
    assert_eq!(doc.line_bytes(1), 5..8);
    assert_eq!(doc.line_bytes(2), 8..8);
    assert_eq!(doc.line_of(6), 1);
    assert_eq!(doc.line_of(100), 1);
    assert_eq!(doc.line_start(7), 8);
}

#[test]
fn a_reload_keeps_the_file_and_moves_the_generation_on() {
    let mut doc = Document::untitled();
    doc.set_path("notes/The Lighthouse.md".to_string());
    assert_eq!(doc.title(), "The Lighthouse.md");
    assert_eq!(doc.name(), "The Lighthouse");
    doc.reload("New text.\n".to_string());
    assert_eq!(doc.generation(), 1);
    assert_eq!(doc.path(), Some("notes/The Lighthouse.md"));
    assert_eq!(doc.text(), "New text.\n");
    assert_eq!(Document::untitled().name(), UNTITLED);
    let held = Document::holding("# Hi\n".to_string(), Some("/".to_string()));
    assert_eq!(held.title(), UNTITLED);
    assert_eq!(held.name(), "/");
    assert_eq!(held.generation(), 0);
    assert!(!held.spans().is_empty());
}

/// The Document after an edit is the Document a fresh parse of its text
/// builds.
fn as_if_opened(document: &Document) {
    assert_eq!(document.blocks(), index(document.text(), 0), "the block index drifted from the text");
    assert_eq!(document.spans(), markup(document.text()), "the Markup drifted from the text");
}

#[test]
fn an_edit_says_where_it_cut() {
    let mut doc = opened("One two.\n\nThree four.\n");
    let edit = doc.insert(4, "\nand ");
    assert_eq!(
        edit.splice,
        Splice { at: 4..4, inserted: 5 },
        "an insertion cuts nothing out and says how much went in"
    );
    let edit = doc.delete(4..9);
    assert_eq!(
        edit.splice,
        Splice { at: 4..9, inserted: 0 },
        "a deletion names the bytes it took, as they lay before it"
    );
}

#[test]
fn an_insert_and_a_delete_write_the_bytes_they_name() {
    let mut doc = opened("The lamp — lit.\n\nAnd more.\n");
    let dash = doc.text().find('—').unwrap();
    let start = doc.generation();
    let mut expected = doc.text().to_string();
    doc.insert(dash, "—");
    expected.insert(dash, '—');
    assert_eq!(doc.text(), expected);
    as_if_opened(&doc);
    doc.delete(dash..dash + 3);
    expected.replace_range(dash..dash + 3, "");
    assert_eq!(doc.text(), expected);
    as_if_opened(&doc);
    assert_eq!(doc.generation(), start + 2, "each edit steps the generation");
}

#[test]
fn a_newline_written_and_taken_away_leaves_the_lines_as_it_found_them() {
    let mut doc = opened("One two.\n\nThree four.\n");
    let before: Vec<_> = (0..5).map(|line| doc.line_bytes(line)).collect();
    doc.insert(4, "\nand ");
    assert_eq!(doc.line_of(5), 1, "the written newline opened a line");
    as_if_opened(&doc);
    doc.delete(4..9);
    let after: Vec<_> = (0..5).map(|line| doc.line_bytes(line)).collect();
    assert_eq!(after, before, "the lines did not come back");
    as_if_opened(&doc);
}





#[test]
fn only_the_line_whose_runs_moved_is_handed_to_the_retag() {
    let mut doc = opened("Alpha.\n\nOne *two* three.\nFour five six.\n");
    let edit = doc.insert(8, "New ");
    assert_eq!(
        edit.lines,
        2..3,
        "the line under it only moved, and a run that moved looks the same"
    );
    as_if_opened(&doc);
}

#[test]
fn a_widened_re_parse_still_hands_back_only_the_lines_that_changed() {
    let mut doc = opened("Alpha.\n\n*Gamma* and more.\n\nDelta.\n");
    let edit = doc.insert(7, "# New");
    assert!(edit.scope.bytes.contains(&10), "{:?}", edit.scope);
    assert_eq!(edit.lines, 1..2, "a re-parse over a line is not a retag of it");
    assert!(
        doc.spans().iter().any(|span| span.mark == Mark::Heading(1)),
        "the new line is a heading"
    );
    as_if_opened(&doc);
}



#[test]
fn the_runs_of_a_line_are_the_runs_that_reach_it() {
    let doc = opened("Alpha *beta*.\n\nGamma.\n");
    let all = doc.runs();
    assert!(!all.is_empty());
    let line = doc.line_bytes(0);
    let on: Vec<_> = doc.runs_in(&line);
    assert_eq!(on, all.iter().filter(|run| run.at.start < line.end && run.at.end > line.start).map(|run| Run { at: run.at.clone(), look: run.look }).collect::<Vec<_>>());
    assert!(doc.runs_in(&doc.line_bytes(2)).is_empty(), "a plain line draws as the buffer already does");
}

/// The block index as `(bytes, kind)` pairs.
fn shape(document: &Document) -> Vec<(std::ops::Range<usize>, Kind)> {
    document.blocks().into_iter().map(|block| (block.at, block.kind)).collect()
}

/// `subject` with a paragraph and a heading over it and under it, and the
/// bytes a rule firing inside it widens over.
fn padded(subject: &str) -> (String, std::ops::Range<usize>) {
    let text = format!("# Top\n\nAlpha.\n\n{subject}\n\nBeta.\n\n## End\n");
    let region = "# Top\n".len()..text.find("## End").expect("the padding under it");
    (text, region)
}

/// What each span of `document` covers and what it marks.
fn marked(document: &Document) -> Vec<(&str, Mark)> {
    document
        .spans()
        .into_iter()
        .map(|span| (&document.text()[span.at.clone()], span.mark))
        .collect()
}

/// Each block's spans and runs, read through the accessors.
fn read_back(document: &Document) -> Vec<(Vec<Span>, Vec<Run>)> {
    document
        .blocks()
        .iter()
        .map(|block| (document.spans_in(&block.at), document.runs_in(&block.at)))
        .collect()
}

/// `count` as a signed byte delta.
fn signed(count: usize) -> isize {
    isize::try_from(count).unwrap_or(isize::MAX)
}

/// `offset` moved by a byte delta.
fn shift(offset: usize, delta: isize) -> usize {
    offset.saturating_add_signed(delta)
}

/// Five blocks with Markup in each.
const STACKED: &str = "# Title with *emphasis*\n\nSome **strong** prose here.\n\n\
                       - one `code`\n- two\n\n> a quote with a [link](x)\n\n\
                       Last paragraph, _still_ marked.\n";

#[test]
fn an_insert_inside_a_paragraph_re_parses_that_block_alone() {
    let mut doc = opened("# Title\n\nThe lamp *was* lit.\n\n## After\n");
    let edit = doc.insert(13, "old ");
    assert_eq!(
        edit.scope.blocks,
        1..4,
        "only the paragraph the writer is in re-parses, and the blank lines \
         around it, which are what says where it ends"
    );
    assert_eq!(
        edit.scope.bytes,
        8..34,
        "and the parser saw neither heading"
    );
    assert_eq!(
        doc.text(),
        "# Title\n\nThe old lamp *was* lit.\n\n## After\n"
    );
    as_if_opened(&doc);
}

#[test]
fn typing_a_hash_at_the_head_of_a_paragraph_makes_it_a_heading() {
    let mut doc = opened("Alpha.\n\nThe lamp was lit.\n");
    let edit = doc.insert(8, "# ");
    assert_eq!(
        edit.scope.blocks,
        1..3,
        "a blank line over it means nothing above it can be ended"
    );
    assert_eq!(doc.blocks()[2].kind, Kind::Heading { setext: false });
    assert!(
        doc.spans()
            .iter()
            .any(|span| span.mark == Mark::Heading(1) && span.at.start == 8),
        "the paragraph is a heading in this keystroke: {:?}",
        doc.spans()
    );
    assert_eq!(
        edit.lines,
        2..3,
        "one line changed, and it is the heading's"
    );
    as_if_opened(&doc);
}

#[test]
fn typing_the_closing_marker_styles_the_emphasis() {
    let mut doc = opened("The lamp *was lit.\n");
    assert!(
        !doc.spans().iter().any(|span| span.mark == Mark::Emphasis),
        "an unclosed marker is not emphasis"
    );
    let edit = doc.insert(13, "*");
    assert_eq!(edit.scope.blocks, 0..1);
    assert!(
        doc.spans().iter().any(|span| span.mark == Mark::Emphasis),
        "the closing marker styles the run"
    );
    as_if_opened(&doc);
}

#[test]
fn an_edit_at_the_end_of_a_draft_is_the_last_block_and_not_the_whole_document() {
    let mut doc = opened("# Title\n\nThe lamp was lit.");
    let edit = doc.insert(doc.text().len(), " again.");
    assert_eq!(
        edit.scope.blocks,
        1..3,
        "typing at the end of a draft types into its last block"
    );
    as_if_opened(&doc);
}

#[test]
fn the_blocks_after_an_edit_are_rebased_by_its_delta() {
    let passage = "# Title\n\nThe lamp *was* lit.\n\n## After\n\nAnd more.\n";
    for (name, at, written) in [
        ("before", 2..2, "New "),
        ("inside", 20..20, "very "),
        ("after", 41..41, "So "),
    ] {
        let mut doc = opened(passage);
        let before = shape(&doc);
        let delta = signed(written.len());
        doc.insert(at.start, written);
        let after = shape(&doc);
        assert_eq!(after.len(), before.len(), "{name}: a block came or went");
        for (one, other) in before.iter().zip(&after) {
            let moved = one.0.start >= at.start;
            let by = if moved { delta } else { 0 };
            assert_eq!(
                other.0.start,
                shift(one.0.start, by),
                "{name}: {:?} did not shift by {by}",
                one.0
            );
        }
        as_if_opened(&doc);

        // And the delete puts every one of them back where it was.
        doc.delete(at.start..at.start + written.len());
        assert_eq!(
            shape(&doc),
            before,
            "{name}: the delete did not rebase back"
        );
        as_if_opened(&doc);
    }
}

#[test]
fn an_edit_on_a_blank_line_widens_to_the_blocks_on_either_side_of_it() {
    // The blank line is where one block ends and the next begins, and a
    // letter written on it joins the two: what was One, a blank and Two is
    // one paragraph of three lines.
    let (text, _) = padded("One.\n\nTwo.");
    let mut doc = opened(&text);
    let edit = doc.insert(text.find("Two.").expect("the block under it") - 1, "x");
    assert_eq!(
        edit.scope.bytes,
        text.find("One.").expect("the block over it") - 1
            ..text.find("Beta.").expect("the padding under it") + 1,
        "the two paragraphs and their own blank lines, and nothing past them"
    );
    assert_eq!(
        &shape(&doc)[4..6],
        [(15..27, Kind::Paragraph), (27..28, Kind::Gap)],
        "the blank line is gone and the two are one block: {:?}",
        shape(&doc)
    );
    assert_eq!(
        marked(&doc),
        [
            ("# Top", Mark::Heading(1)),
            ("# ", Mark::Markup),
            ("## End", Mark::Heading(2)),
            ("## ", Mark::Markup),
        ],
        "the joined prose carries no mark, and the padding kept its own"
    );
    as_if_opened(&doc);
}

#[test]
fn an_edit_on_a_fence_marker_widens_to_the_blocks_on_either_side_of_it() {
    // Every line of a fenced block is a marker's business: a fence closed
    // early or opened late restyles what is under it.
    let (text, region) = padded("```rust\nlet lamp = 1;\n```");
    let mut doc = opened(&text);
    let edit = doc.insert(text.find("\nlet lamp").expect("the info string"), "y");
    assert_eq!(edit.scope.blocks, 1..8);
    assert_eq!(
        edit.scope.bytes,
        region.start..region.end + 1,
        "the fence and the blocks beside it, and nothing past them"
    );
    assert_eq!(
        marked(&doc),
        [
            ("# Top", Mark::Heading(1)),
            ("# ", Mark::Markup),
            ("```rusty\nlet lamp = 1;\n```", Mark::CodeBlock),
            ("```", Mark::Fence),
            ("rusty", Mark::InfoString),
            ("```", Mark::Fence),
            ("## End", Mark::Heading(2)),
            ("## ", Mark::Markup),
        ],
        "the info string took the letter and the block is still closed"
    );
    as_if_opened(&doc);
}

#[test]
fn an_edit_on_a_list_marker_widens_to_the_blocks_on_either_side_of_it() {
    // `1` in front of the bullet is not a marker of any kind, so the item
    // stops being one and the list under it interrupts the paragraph it
    // became. That seam is what a slice of the list could not have seen.
    let (text, region) = padded("- one\n- two");
    let mut doc = opened(&text);
    let marker = doc
        .spans_in(&region)
        .into_iter()
        .find(|span| matches!(span.mark, Mark::BulletMarker | Mark::OrderedMarker))
        .map(|span| span.at)
        .expect("the list's first bullet");
    let edit = doc.insert(marker.start, "1");
    assert_eq!(
        edit.scope.bytes,
        region.start..region.end + 1,
        "the list and the blocks beside it, and nothing past them"
    );
    assert_eq!(
        marked(&doc),
        [
            ("# Top", Mark::Heading(1)),
            ("# ", Mark::Markup),
            ("- ", Mark::BulletMarker),
            ("## End", Mark::Heading(2)),
            ("## ", Mark::Markup),
        ],
        "one bullet left, and it is the item the writer did not touch"
    );
    as_if_opened(&doc);
}

#[test]
fn an_edit_on_a_setext_underline_widens_to_the_blocks_on_either_side_of_it() {
    // The underline is the whole of what makes the line over it a heading.
    let (text, region) = padded("Title\n=====");
    let mut doc = opened(&text);
    let edit = doc.insert(text.find("=====").expect("the underline"), "=");
    assert_eq!(
        edit.scope.bytes,
        region.start..region.end + 1,
        "the heading and the blocks beside it, and nothing past them"
    );
    assert_eq!(
        marked(&doc),
        [
            ("# Top", Mark::Heading(1)),
            ("# ", Mark::Markup),
            ("## End", Mark::Heading(2)),
            ("## ", Mark::Markup),
        ],
        "a setext heading carries no span of its own — it has no marker to \
         hang, which `annotate` decided and tests — so what this names is \
         that the widening left the padding's spans exactly as they were"
    );
    assert_eq!(
        doc.blocks()[4].kind,
        Kind::Heading { setext: true },
        "and the longer underline is the same heading it was: {:?}",
        shape(&doc)
    );
    as_if_opened(&doc);
}

#[test]
fn a_block_with_a_neighbour_against_it_widens_to_take_the_neighbour_in() {
    // A list can interrupt a paragraph, so these two are written hard
    // against each other and the parser decided where they part by reading
    // the seam. An edit in the paragraph can move that decision — deleting
    // the `x` here makes the first line a list item and the two blocks one
    // list — and a slice of the paragraph cannot see far enough to know.
    // No rule fires here: it is the walk out to a blank line that takes the
    // neighbour in, because the seam between them is not an edge a slice
    // can be cut at.
    let mut doc = opened("Alpha.\n\nxx- one\n- two\n");
    assert_eq!(
        shape(&doc)[2..],
        [(8..16, Kind::Paragraph), (16..22, Kind::List)],
        "the fixture must be two blocks with no blank line between them"
    );
    let edit = doc.delete(8..9);
    assert_eq!(edit.scope.blocks, 1..4);
    assert_eq!(
        edit.scope.bytes,
        7..21,
        "the paragraph and the list under it, and not the block above"
    );
    as_if_opened(&doc);

    // The same edit with a blank line under the paragraph is the block's
    // own business, because nothing continues across a blank line.
    let mut doc = opened("Alpha.\n\nxx- one\n\n- two\n");
    let edit = doc.delete(8..9);
    assert_eq!(edit.scope.blocks, 1..4);
    assert_eq!(
        edit.scope.bytes,
        7..16,
        "the paragraph and the blank lines around it, and not the list"
    );
    as_if_opened(&doc);

    // And the seam really does move: one byte further off the front makes
    // the paragraph a list item, and the two blocks one list.
    let mut doc = opened("Alpha.\n\nx- one\n- two\n");
    let edit = doc.delete(8..9);
    assert_eq!(edit.scope.blocks, 1..3);
    assert_eq!(
        shape(&doc)[2..],
        [(8..20, Kind::List)],
        "the two of them are now one list"
    );
    as_if_opened(&doc);
}

#[test]
fn a_fence_opened_at_the_top_restyles_everything_under_it() {
    // The user story: an unclosed fence at the top makes every block below
    // it code, in the keystroke that opened it.
    let mut doc = opened("Alpha.\n\nBeta.\n\nGamma.\n");
    let edit = doc.insert(0, "```\n");
    assert_eq!(
        doc.blocks()[0],
        Block {
            at: 0..doc.text().len(),
            kind: Kind::Code { fenced: true }
        },
        "the rest of the Document is inside the fence: {:?}",
        shape(&doc)
    );
    assert_eq!(
        edit.scope.blocks,
        0..1,
        "and it is one block now, however many it was"
    );
    as_if_opened(&doc);
}

#[test]
fn a_draft_with_no_blank_line_in_it_still_bounds_the_walk() {
    // The walk out of `widened` stops where nothing is open, and a writer
    // can hand it a Document with no blank line anywhere. An ATX heading
    // begins wherever it begins, so it is the other thing that stops the
    // walk; without it one keystroke here re-parses every byte, which is
    // the fallback under another name.
    let mut doc = opened(&"# One\n".repeat(5_000));
    let edit = doc.insert(3, "x");
    assert!(
        edit.scope.bytes.len() < 64,
        "one heading of 5,000 re-parsed {:?} of {} bytes",
        edit.scope.bytes,
        doc.text().len()
    );
    as_if_opened(&doc);
}

#[test]
fn an_unclosed_fence_at_the_top_is_the_one_flip_that_reads_the_whole_draft() {
    // The scan finds no line to re-converge at, so the stretch that becomes
    // code is the rest of the Document.
    let para = "Alpha *one*.\n\nBeta **two**.\n\n";
    let mut doc = opened(&format!("# Top\n\n{}", para.repeat(400)));
    let edit = doc.insert(7, "```\n");
    assert_eq!(
        edit.scope.bytes.end,
        doc.text().len(),
        "the scan ran to the end because nothing closed the fence"
    );
    assert_eq!(
        doc.blocks()[2],
        Block {
            at: 7..doc.text().len(),
            kind: Kind::Code { fenced: true }
        },
        "and every block under it is one block of code: {:?}",
        &shape(&doc)[..4]
    );
    as_if_opened(&doc);
}

#[test]
fn the_fence_flip_stops_where_the_context_re_converges() {
    // A long Document with a fenced block partway down. A fence opened at
    // the top pairs with that block's *closing* fence — a closer may carry
    // no info string, so `\u{60}\u{60}\u{60}rust` is not one — and the scan
    // stops there. Everything below it is prose before the keystroke and
    // prose after it, and is never handed to the parser.
    let para = "Alpha *one*.\n\nBeta **two**.\n\n";
    let text = format!(
        "# Top\n\n{}```rust\nlet lamp = 1;\n```\n\n{}",
        para.repeat(100),
        para.repeat(300)
    );
    let mut doc = opened(&text);
    // The fenced block's own end is where the closing fence is: the opening
    // one carries an info string and a closer may not, so that closing
    // fence is the line the scan will stop at.
    let fenced = doc
        .blocks()
        .iter()
        .position(|block| block.kind == Kind::Code { fenced: true })
        .expect("the fenced block partway down");
    let close = doc.blocks()[fenced].at.end;
    let under = doc.blocks()[fenced + 1].at.end;
    let moved = "```\n".len();
    let tail = shape(&doc)
        .into_iter()
        .filter(|(at, _)| at.start >= close)
        .collect::<Vec<_>>();

    let edit = doc.insert(7, "```\n");
    assert_eq!(
        edit.scope.bytes.end,
        under + moved,
        "the re-parse stopped at the blank line under the fence that closed \
         the context again"
    );
    assert!(
        edit.scope.bytes.len() * 2 < doc.text().len(),
        "and that is under half the Document: {:?} of {}",
        edit.scope.bytes,
        doc.text().len()
    );
    assert_eq!(
        doc.blocks()[2],
        Block {
            at: 7..close + moved,
            kind: Kind::Code { fenced: true }
        },
        "everything from the new fence to the old one is code: {:?}",
        &shape(&doc)[..4]
    );
    assert_eq!(
        shape(&doc)
            .into_iter()
            .filter(|(at, _)| at.start >= close + moved)
            .map(|(at, kind)| (at.start - moved..at.end - moved, kind))
            .collect::<Vec<_>>(),
        tail,
        "and the prose past it is the blocks it always was, only moved"
    );
    as_if_opened(&doc);

    // Taking the fence away again restores them, and is bounded the same
    // way: the stretch that stops being code is what re-parses, and the
    // prose below the old fence is still never read.
    let edit = doc.delete(7..11);
    assert!(
        edit.scope.bytes.len() * 2 < doc.text().len(),
        "unfencing read {:?} of {}",
        edit.scope.bytes,
        doc.text().len()
    );
    assert_eq!(doc.text(), text, "the text is back to what it was");
    assert_eq!(shape(&doc), shape(&opened(&text)), "and so is every block");
    as_if_opened(&doc);
}

#[test]
fn a_letter_typed_into_plain_prose_changes_no_line() {
    let mut doc = opened("Alpha.\n\nOne two three.\nFour five six.\n");
    let edit = doc.insert(12, "x");
    assert_eq!(edit.scope.blocks, 1..3);
    assert!(
        edit.lines.is_empty(),
        "plain prose carries no run, so no line has to be retagged: {:?}",
        edit.lines
    );
}

#[test]
fn an_insert_in_the_first_block_leaves_every_block_below_it_reading_as_a_fresh_parse() {
    let mut doc = opened(STACKED);
    assert!(
        doc.blocks().len() >= 5,
        "the passage stacks blocks: {:?}",
        shape(&doc)
    );
    doc.insert("# Ti".len(), "xyz");
    let fresh = opened(doc.text());
    assert_eq!(
        read_back(&doc),
        read_back(&fresh),
        "a block below the edit reads differently from a fresh parse of the same text"
    );
    as_if_opened(&doc);
}

#[test]
fn a_delete_in_the_first_block_leaves_every_block_below_it_reading_as_a_fresh_parse() {
    let mut doc = opened(STACKED);
    doc.delete("# Title".len().."# Title with".len());
    let fresh = opened(doc.text());
    assert_eq!(
        read_back(&doc),
        read_back(&fresh),
        "a block below the edit reads differently from a fresh parse of the same text"
    );
    as_if_opened(&doc);
}

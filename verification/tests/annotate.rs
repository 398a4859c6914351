//! The Markup Annotator's spans, as the page would show them.

use quill_engine::annotate::paint::paint_in;
use quill_engine::focus::{Focus, FocusScope, LineTiers, Tier, Tiers};
use quill_engine::annotate::{flatten, markup, resolve, Ground, Ink, Look, Mark, Slant, Weight};

/// The spans of `text` as `(source text, mark)`, which is what an owner would
/// see if the marks were drawn on the page.
fn marked(text: &str) -> Vec<(&str, Mark)> {
    markup(text)
        .into_iter()
        .map(|span| (&text[span.at], span.mark))
        .collect()
}

#[test]
fn every_level_from_one_to_six_hangs_one_marker_cell_more_than_the_last() {
    for level in 1..=6u8 {
        let text = format!("{} Deep\n", "#".repeat(usize::from(level)));
        assert_eq!(
            marked(&text),
            [
                (text.trim_end(), Mark::Heading(level)),
                (&text[..usize::from(level) + 1], Mark::Markup),
            ],
            "level {level} is marked wrong"
        );
    }
}

#[test]
fn a_closing_run_of_hashes_is_marked_with_the_space_before_it() {
    assert_eq!(
        marked("### Closing ###\n"),
        [
            ("### Closing ###", Mark::Heading(3)),
            ("### ", Mark::Markup),
            (" ###", Mark::Markup),
        ]
    );
}

#[test]
fn the_line_ending_is_never_part_of_a_span() {
    for text in ["# One\n", "# One\r\n", "## Closing ##\n", "#\n"] {
        for span in markup(text) {
            let bytes = &text[span.at.clone()];
            assert!(!span.at.is_empty(), "{text:?} produced an empty span");
            assert!(
                !bytes.ends_with('\n') && !bytes.ends_with('\r'),
                "{span:?} of {text:?} swallowed the line ending: {bytes:?}"
            );
        }
    }
}

#[test]
fn prose_around_a_heading_is_left_unmarked() {
    assert_eq!(
        marked("Before.\n\n# The Lighthouse\n\nAfter.\n"),
        [("# The Lighthouse", Mark::Heading(1)), ("# ", Mark::Markup)],
        "prose is drawn as the buffer already draws it"
    );
}

#[test]
fn a_setext_heading_is_left_alone_because_it_has_no_marker_to_hang() {
    assert_eq!(
        marked("Title\n=====\n\nprose\n"),
        [],
        "an underlined title already sits on the prose margin: hanging it \
         would push it out into the margin with nothing to fill it"
    );
}

#[test]
fn an_indented_atx_heading_is_marked_from_its_hash_not_from_its_indent() {
    let text = "   # Tucked\n";
    assert_eq!(
        markup(text)[0].at.start,
        3,
        "the three spaces CommonMark allows in front of a `#` are not markup"
    );
}

#[test]
fn a_code_span_written_with_two_backticks_keeps_both_of_them_grey() {
    assert_eq!(
        marked("a ``x ` y`` span\n"),
        [
            ("``x ` y``", Mark::Code),
            ("``", Mark::Markup),
            ("``", Mark::Markup),
        ],
        "the closing run is as long as the opening one, whatever is between"
    );
}

#[test]
fn a_reference_link_marks_its_label_and_a_shortcut_has_nothing_to_mark() {
    assert_eq!(
        marked("[ref][r] and [short]\n\n[r]: /x\n"),
        [
            ("[ref][r]", Mark::Link),
            ("[", Mark::LinkMark),
            ("][", Mark::LinkMark),
            ("r", Mark::Url),
            ("]", Mark::LinkMark),
            ("[r]:", Mark::DefinitionLabel),
        ],
        "`[short]` has no definition, so the parser says it is not a link \
         at all; a shortcut that had one would carry no destination here \
         either, and its brackets alone would be marked. The definition \
         the link resolves against is drawn from the line's own shape, \
         which is why it is marked without the parser reporting it"
    );
}

#[test]
fn an_images_alt_text_reads_as_a_links_does() {
    assert_eq!(
        marked("an ![alt](/pic.png \"t\") image\n"),
        [
            ("![alt](/pic.png \"t\")", Mark::Image),
            ("![", Mark::LinkMark),
            ("](", Mark::LinkMark),
            ("/pic.png \"t\"", Mark::Url),
            (")", Mark::LinkMark),
        ],
        "the title travels with the destination: both are plumbing"
    );
}

#[test]
fn each_line_of_a_quote_carries_its_own_marker_and_never_the_line_ending() {
    let text = "> one\n> two\n";
    assert_eq!(
        marked(text),
        [
            ("> one\n> two", Mark::Quote),
            ("> ", Mark::QuoteMarker),
            ("> ", Mark::QuoteMarker),
        ]
    );
}

#[test]
fn a_space_at_the_end_of_a_quote_line_never_joins_it_to_the_next() {
    let text = "> one \n> two\n";
    assert_eq!(
        marked(text),
        [
            ("> one \n> two", Mark::Quote),
            ("> ", Mark::QuoteMarker),
            ("> ", Mark::QuoteMarker),
        ],
        "#102: subtraction left the space, the line ending and the next \
         `> ` in one span, so two lines hung by one measurement"
    );
}

#[test]
fn a_bullet_marker_is_the_dash_and_the_space_after_it() {
    assert_eq!(
        marked("- the good knife\n"),
        [("- ", Mark::BulletMarker)],
        "the item's words are prose; only its bullet is punctuation"
    );
}

#[test]
fn an_ordered_marker_is_the_number_the_dot_and_the_space() {
    assert_eq!(
        marked("1. Untie the skiff.\n"),
        [("1. ", Mark::OrderedMarker)],
        "three cells against the bullet's two, which is why they hang by different tags"
    );
}

#[test]
fn a_nested_markers_span_carries_the_indentation_that_nests_it() {
    assert_eq!(
        marked("- beta\n  - nested\n"),
        [("- ", Mark::BulletMarker), ("  - ", Mark::BulletMarker)],
        "the span reaches back to the line's start, so its width is the whole hang"
    );
}

#[test]
fn a_quoted_items_marker_stops_at_the_quote_marker_rather_than_swallowing_it() {
    let text = "> - quoted item\n";
    let marks = marked(text);
    assert!(
        marks.contains(&("- ", Mark::BulletMarker)),
        "the bullet is two cells, not four: the `> ` before it is the quote's, {marks:?}"
    );
    assert!(marks.contains(&("> ", Mark::QuoteMarker)), "{marks:?}");
}

#[test]
fn a_task_box_is_marked_beside_the_bullet_that_carries_it() {
    assert_eq!(
        marked("- [ ] todo\n- [x] done\n"),
        [
            ("- ", Mark::BulletMarker),
            ("[ ]", Mark::TaskBox),
            ("- ", Mark::BulletMarker),
            ("[x]", Mark::TaskBox),
        ]
    );
}

#[test]
fn a_fences_info_string_is_marked_apart_from_the_backticks() {
    assert_eq!(
        marked("```rust\nlet x = 1;\n```\n"),
        [
            ("```rust\nlet x = 1;\n```", Mark::CodeBlock),
            ("```", Mark::Fence),
            ("rust", Mark::InfoString),
            ("```", Mark::Fence),
        ]
    );
}

#[test]
fn an_indented_code_block_is_ground_with_no_fence_to_mark() {
    assert_eq!(
        marked("    21:40  lamp lit\n"),
        [("21:40  lamp lit", Mark::CodeBlock)],
        "the parser leaves the four spaces outside the block, and so does the mark"
    );
}

#[test]
fn a_link_reference_definitions_label_is_marked_with_no_resolution_pass() {
    let marks = marked("[ref]: https://example.org\n");
    assert!(
        marks.contains(&("[ref]:", Mark::DefinitionLabel)),
        "the parser reports no event at all for a definition, so this is lexical: {marks:?}"
    );
}

#[test]
fn a_footnote_definitions_label_is_marked_the_same_lexical_way() {
    let marks = marked("[^1]: a footnote\n");
    assert!(
        marks.contains(&("[^1]:", Mark::DefinitionLabel)),
        "{marks:?}"
    );
}

#[test]
fn a_definition_written_inside_a_fenced_block_is_code_and_not_a_definition() {
    let marks = marked("```\n[ref]: https://example.org\n```\n");
    assert!(
        !marks.iter().any(|(_, mark)| *mark == Mark::DefinitionLabel),
        "the lexical pass must not reach inside a code block: {marks:?}"
    );
}

#[test]
fn a_nested_span_is_wholly_inside_the_one_around_it() {
    let text = "## **a *b* `c`** and [a *b*](/u)\n";
    let spans = markup(text);
    for (outer, inner) in spans.iter().zip(spans.iter().skip(1)) {
        let apart = inner.at.start >= outer.at.end;
        let within = inner.at.start >= outer.at.start && inner.at.end <= outer.at.end;
        assert!(
            apart || within,
            "{inner:?} straddles {outer:?}, which flattening cannot resolve"
        );
    }
}

/// The runs of `text` as `(source text, look)`: what the page shows.
fn drawn(text: &str) -> Vec<(&str, Look)> {
    flatten(&markup(text))
        .into_iter()
        .map(|run| (&text[run.at], run.look))
        .collect()
}

/// Plain prose.
fn prose() -> Look {
    Look::prose()
}

/// A look that is prose but for the fields the caller names.
fn like_prose(weight: Weight, slant: Slant) -> Look {
    Look {
        weight,
        slant,
        ..prose()
    }
}

/// The markers' ink, upright, at the prose's weight: what every marker is.
fn marker() -> Look {
    Look {
        ink: Ink::Marker,
        ..prose()
    }
}

/// A link's plumbing: the quiet grey its brackets and its destination take.
fn link() -> Look {
    Look {
        ink: Ink::Link,
        ..prose()
    }
}

#[test]
fn a_heading_is_its_markers_and_its_text_at_its_level() {
    assert_eq!(
        marked("# The Lighthouse\n"),
        [("# The Lighthouse", Mark::Heading(1)), ("# ", Mark::Markup)],
        "the heading spans the whole line and the markers span the head of it"
    );
    assert_eq!(
        drawn("# The Lighthouse\n"),
        [
            ("# ", marker()),
            ("The Lighthouse", like_prose(Weight::Bold, Slant::Upright)),
        ]
    );
}

#[test]
fn a_heading_with_no_text_is_all_marker() {
    assert_eq!(drawn("#\n"), [("#", marker())]);
}

#[test]
fn an_escape_leaves_the_backslash_marked_and_the_rest_text() {
    assert_eq!(
        drawn("A \\* star, not emphasis\n"),
        [("\\", marker())],
        "in plain prose the backslash is the only thing drawn"
    );
    assert_eq!(
        drawn("# A \\* star\n"),
        [
            ("# ", marker()),
            ("A ", like_prose(Weight::Bold, Slant::Upright)),
            ("\\", marker()),
            ("* star", like_prose(Weight::Bold, Slant::Upright)),
        ],
        "inside a heading the escape is one grey byte in a bold line"
    );
}

#[test]
fn an_escaped_backslash_is_the_writers_word_and_only_the_first_is_grey() {
    assert_eq!(
        drawn("A \\\\* star\n"),
        [("\\", marker())],
        "`\\\\*` is a backslash the writer typed and a star: one marker \
         greys the escape, and the backslash it escaped stays ink"
    );
}

#[test]
fn an_entity_is_drawn_as_the_source_bytes_the_writer_typed() {
    assert_eq!(
        drawn("# Tom &amp; Jerry\n"),
        [
            ("# ", marker()),
            ("Tom &amp; Jerry", like_prose(Weight::Bold, Slant::Upright)),
        ],
        "the five bytes of the entity are heading text like the rest"
    );
}

#[test]
fn emphasis_is_italic_and_strong_is_bold_with_their_markers_grey() {
    assert_eq!(
        drawn("It was a *small thing*, and **not moving**.\n"),
        [
            ("*", marker()),
            ("small thing", like_prose(Weight::Regular, Slant::Italic)),
            ("*", marker()),
            ("**", marker()),
            ("not moving", like_prose(Weight::Bold, Slant::Upright)),
            ("**", marker()),
        ]
    );
}

#[test]
fn strong_around_emphasis_inside_a_heading_flattens_to_three_runs() {
    assert_eq!(
        drawn("## **a *b* c**\n"),
        [
            ("## **", marker()),
            ("a ", like_prose(Weight::Bold, Slant::Upright)),
            ("*", marker()),
            ("b", like_prose(Weight::Bold, Slant::Italic)),
            ("*", marker()),
            (" c", like_prose(Weight::Bold, Slant::Upright)),
            ("**", marker()),
        ],
        "bold, bold-italic, bold, with every marker in the marker grey and \
         back at the prose's weight"
    );
}

#[test]
fn a_code_span_takes_the_ground_under_its_backticks_and_nothing_else() {
    let ground = Look {
        ground: Ground::Code,
        ..prose()
    };
    assert_eq!(
        drawn("the bearing, `NNE 22\u{b0}`, and\n"),
        [
            (
                "`",
                Look {
                    ground: Ground::Code,
                    ..marker()
                }
            ),
            ("NNE 22\u{b0}", ground),
            (
                "`",
                Look {
                    ground: Ground::Code,
                    ..marker()
                }
            ),
        ],
        "the ground runs under the backticks so that no glyph has to move"
    );
    assert_eq!(
        resolve(Mark::Code, prose()),
        ground,
        "on prose the mark adds the ground and changes nothing else; the \
         ink it names is the prose's own, which shows only inside a struck \
         or linked run"
    );
}

#[test]
fn a_links_words_are_the_writers_ink_and_its_plumbing_goes_quiet() {
    let text = "in [the keeper's book](https://example.org/keepers-book), and\n";
    assert_eq!(
        marked(text),
        [
            (
                "[the keeper's book](https://example.org/keepers-book)",
                Mark::Link
            ),
            ("[", Mark::LinkMark),
            ("](", Mark::LinkMark),
            ("https://example.org/keepers-book", Mark::Url),
            (")", Mark::LinkMark),
        ]
    );
    assert_eq!(
        drawn(text),
        [
            ("[", link()),
            ("the keeper's book", prose()),
            ("](https://example.org/keepers-book)", link()),
        ],
        "the words are the writer's and stay at the prose's ink; the \
         brackets and the address are plumbing and go quiet"
    );
}

/// An autolink's own text is a URL the writer reads, so it keeps the
/// prose's ink; what goes quiet is the angles that make it one, the way a
/// bracketed link's brackets do. The design sets a bare URL in the
/// body's ink and underlines it (#198); the underline is a mark of the
/// destination and an autolink has none, so ours draws no rule under it.
#[test]
fn an_autolinks_own_text_is_the_writers_and_only_the_angles_go_quiet() {
    assert_eq!(
        drawn("see <https://example.org> now\n"),
        [
            ("<", link()),
            ("https://example.org", prose()),
            (">", link()),
        ]
    );
}

#[test]
fn struck_text_and_inline_html_are_the_marker_grey() {
    assert_eq!(
        drawn("a ~~struck~~ word\n"),
        [("~~struck~~", marker())],
        "the grey is resolved here; the line through it is a decoration \
         the app layers over the run"
    );
    assert_eq!(
        drawn("a <b>bold</b> tag\n"),
        [("<b>", marker()), ("</b>", marker())],
        "the tags are not prose; the word between them is, and prose is \
         left as the buffer already draws it"
    );
}

#[test]
fn a_block_quotes_marker_goes_quiet_and_its_words_keep_the_writers_ink() {
    let text = "> There are things the sea keeps.\n";
    assert_eq!(
        marked(text),
        [
            ("> There are things the sea keeps.", Mark::Quote),
            ("> ", Mark::QuoteMarker),
        ]
    );
    assert_eq!(
        drawn(text),
        [
            ("> ", marker()),
            ("There are things the sea keeps.", prose()),
        ],
        "#37 asks for a quiet marker and no margin rule, so the words are untouched"
    );
}

#[test]
fn a_quote_line_ending_in_a_space_is_marked_as_if_it_did_not() {
    let text = "> Why hello there \n";
    assert_eq!(
        marked(text),
        [
            ("> Why hello there ", Mark::Quote),
            ("> ", Mark::QuoteMarker),
        ],
        "#102: the trailing space was a marker of its own, greyed and \
         measured, and the line hung by the whole of itself"
    );
    assert_eq!(
        drawn(text),
        [("> ", marker()), ("Why hello there ", prose())],
        "what the writer left at the end of a line is their prose"
    );
}

#[test]
fn a_quotes_marker_is_the_caret_and_at_most_one_space_after_it() {
    // The owner's decision on #102: `>` plus one space or tab, as
    // CommonMark defines it and as the design's quote pattern, `(?:>[ \t]?)+`,
    // has always tokenised it. Padding past that is where the writer put
    // their word, so it stays in their ink and the line hangs by two.
    let text = "> Why hello there \n> Beans\n> Beans\n>      Beans\n";
    let markers: Vec<&str> = markup(text)
        .iter()
        .filter(|span| span.mark == Mark::QuoteMarker)
        .map(|span| &text[span.at.clone()])
        .collect();
    assert_eq!(
        markers,
        ["> ", "> ", "> ", "> "],
        "the four lines of #102's Reproduce passage carry one marker each"
    );
    let runs = drawn(text);
    assert!(
        !runs
            .iter()
            .any(|(run, look)| *look == marker() && *run != "> "),
        "and nothing else on the page is grey: the trailing space and the \
         padding are the writer's ink, {runs:?}"
    );
}

#[test]
fn a_fenced_block_is_ground_from_its_opening_fence_to_its_closing_one() {
    let text = "```\n21:40  lamp lit\n```\n";
    assert_eq!(
        marked(text),
        [
            ("```\n21:40  lamp lit\n```", Mark::CodeBlock),
            ("```", Mark::Fence),
            ("```", Mark::Fence),
        ],
        "the fences are inside the block, so its ground runs under them"
    );
    assert_eq!(
        drawn(text),
        [
            ("```", marker()),
            ("\n21:40  lamp lit\n", prose()),
            ("```", marker()),
        ],
        "the code keeps the prose's ink; the ground is a paragraph tag, not a run"
    );
}

#[test]
fn a_thematic_break_is_quiet() {
    let text = "***\n";
    assert_eq!(marked(text), [("***", Mark::ThematicBreak)]);
    assert_eq!(drawn(text), [("***", marker())]);
}

#[test]
fn front_matter_is_quiet_whole_delimiters_and_metadata_alike() {
    let text = "---\ntitle: The Lighthouse\n---\n\nThe lamp was lit.\n";
    let marks = marked(text);
    assert!(
        marks.contains(&("---\ntitle: The Lighthouse\n---", Mark::FrontMatter)),
        "{marks:?}"
    );
    assert_eq!(
        drawn(text),
        [("---\ntitle: The Lighthouse\n---", marker())],
        "the whole block is plumbing, and the prose below it is left alone"
    );
}

#[test]
fn a_document_with_no_markup_is_drawn_as_it_is() {
    assert_eq!(
        drawn("Just prose, and a lamp, and the sea.\n"),
        [],
        "a run exists to change something: prose changes nothing"
    );
}

#[test]
fn flattening_draws_exactly_the_bytes_some_span_covers() {
    let text = "Plain *emphasis* and **strong** words.\n";
    let spans = markup(text);
    let runs = flatten(&spans);
    for byte in 0..text.len() {
        let spanned = spans.iter().any(|span| span.at.start <= byte && byte < span.at.end);
        let drawn = runs.iter().any(|run| run.at.start <= byte && byte < run.at.end);
        assert_eq!(drawn, spanned, "byte {byte}");
    }
}

#[test]
fn with_focus_off_the_pieces_are_the_runs_all_bright() {
    let text = "Plain *emphasis* words.\n";
    let spans = markup(text);
    let runs = flatten(&spans);
    let pieces = paint_in(&spans, &(0..text.len()), &[], Focus::Off);
    assert_eq!(pieces.len(), runs.len());
    for (piece, run) in pieces.iter().zip(&runs) {
        assert_eq!(piece.at, run.at);
        assert_eq!(piece.look, run.look);
        assert_eq!(piece.tier, Tier::Bright);
    }
}

#[test]
fn with_focus_on_every_byte_is_in_a_piece_cut_at_the_tier_edges() {
    let text = "One two. Three four.\n";
    let tiers = [LineTiers { line: 0, tiers: Tiers { bright: vec![9..20] } }];
    let pieces = paint_in(&markup(text), &(0..text.len()), &tiers, Focus::On(FocusScope::Sentence));
    let cut: Vec<(std::ops::Range<usize>, Tier)> =
        pieces.iter().map(|piece| (piece.at.clone(), piece.tier)).collect();
    assert_eq!(cut, [(0..9, Tier::Dim), (9..20, Tier::Bright), (20..21, Tier::Dim)]);
    assert!(pieces.iter().all(|piece| piece.look == Look::prose()));
    // Over a stretch of the line, the pieces are clipped to it.
    let part = paint_in(&markup(text), &(4..12), &tiers, Focus::On(FocusScope::Sentence));
    let cut: Vec<(std::ops::Range<usize>, Tier)> =
        part.iter().map(|piece| (piece.at.clone(), piece.tier)).collect();
    assert_eq!(cut, [(4..9, Tier::Dim), (9..12, Tier::Bright)]);
}

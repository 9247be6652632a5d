use graph_algorithms::layout::{
    canvas_message, check_canvas_size, check_fill_diversity, check_font_size_floor, check_layout,
    check_named_group_bounds, check_shape_floor, fill_codes_cut_cleanly, Check, CheckResult,
    LayoutFailure, LayoutReport, FALSIFY_IDS,
};

/// Minimal "good" SVG fixture — exactly clears every floor.
fn good_svg() -> String {
    let mut shapes = String::new();
    for i in 0..40 {
        shapes.push_str(&format!(
            "<rect x=\"{i}\" y=\"0\" width=\"1\" height=\"1\"/>\n"
        ));
    }
    let groups = (0..6)
        .map(|i| format!("<g id=\"g{i}\"></g>\n"))
        .collect::<String>();
    let fills = (0..8)
        .map(|i| format!("<rect fill=\"#aabbc{i}\"/>\n"))
        .collect::<String>();
    format!(
        "<svg viewBox=\"0 0 1920 1080\">\n\
         <text font-size=\"20\">x</text>\n\
         <text font-size=\"24\">y</text>\n\
         {shapes}{groups}{fills}\n\
         </svg>"
    )
}

#[test]
fn good_svg_passes_all_checks() {
    let report = check_layout(&good_svg());
    for r in &report.results {
        assert!(r.is_pass(), "unexpected fail: {r:?}");
    }
    assert!(report.all_pass());
    assert!(report.failures().is_empty());
}

#[test]
fn canvas_size_failure() {
    let svg = "<svg viewBox=\"0 0 1280 720\"></svg>";
    let r = check_canvas_size(svg);
    assert_eq!(
        r,
        CheckResult::Fail(LayoutFailure::CanvasMismatch("0 0 1280 720".into()))
    );
    assert!(!r.is_pass());
}

#[test]
fn canvas_size_missing_viewbox() {
    let r = check_canvas_size("<svg></svg>");
    assert!(matches!(r, CheckResult::Fail(LayoutFailure::CanvasMismatch(s)) if s.is_empty()));
}

#[test]
fn shape_floor_failure() {
    let svg = "<svg viewBox=\"0 0 1920 1080\"><rect/></svg>";
    let r = check_shape_floor(svg);
    assert_eq!(r, CheckResult::Fail(LayoutFailure::ShapeBelowFloor(1)));
}

#[test]
fn named_group_below_floor() {
    let svg = "<svg viewBox=\"0 0 1920 1080\"><g id=\"a\"/></svg>";
    let r = check_named_group_bounds(svg);
    assert_eq!(r, CheckResult::Fail(LayoutFailure::NamedGroupOutOfBounds(1)));
}

#[test]
fn named_group_above_ceiling() {
    let mut svg = String::from("<svg viewBox=\"0 0 1920 1080\">");
    for i in 0..25 {
        svg.push_str(&format!("<g id=\"g{i}\"></g>"));
    }
    svg.push_str("</svg>");
    let r = check_named_group_bounds(&svg);
    assert_eq!(r, CheckResult::Fail(LayoutFailure::NamedGroupOutOfBounds(25)));
}

#[test]
fn anonymous_groups_not_counted() {
    let svg = "<svg viewBox=\"0 0 1920 1080\"><g></g><g></g></svg>";
    let r = check_named_group_bounds(svg);
    assert_eq!(r, CheckResult::Fail(LayoutFailure::NamedGroupOutOfBounds(0)));
}

#[test]
fn fill_diversity_failure() {
    let svg =
        "<svg viewBox=\"0 0 1920 1080\"><rect fill=\"#000000\"/><rect fill=\"#ffffff\"/></svg>";
    let r = check_fill_diversity(svg);
    assert_eq!(r, CheckResult::Fail(LayoutFailure::FillBelowFloor(2)));
}

#[test]
fn font_size_floor_failure() {
    let svg = "<svg viewBox=\"0 0 1920 1080\"><text font-size=\"14\">x</text></svg>";
    let r = check_font_size_floor(svg);
    assert_eq!(r, CheckResult::Fail(LayoutFailure::FontBelowFloor(14)));
}

#[test]
fn font_size_no_text_passes() {
    let svg = "<svg viewBox=\"0 0 1920 1080\"></svg>";
    let r = check_font_size_floor(svg);
    assert!(r.is_pass());
}

#[test]
fn font_size_with_float_value() {
    let svg = "<svg viewBox=\"0 0 1920 1080\"><text font-size=\"21.5\">x</text></svg>";
    let r = check_font_size_floor(svg);
    assert!(r.is_pass());
}

#[test]
fn font_size_unparseable_value_skipped() {
    let svg = "<svg viewBox=\"0 0 1920 1080\"><text font-size=\"abc\">x</text></svg>";
    let r = check_font_size_floor(svg);
    assert!(r.is_pass());
}

#[test]
fn fill_invalid_hex_skipped() {
    let svg = "<svg viewBox=\"0 0 1920 1080\"><rect fill=\"#zzzzzz\"/></svg>";
    let r = check_fill_diversity(svg);
    assert_eq!(r, CheckResult::Fail(LayoutFailure::FillBelowFloor(0)));
}

#[test]
fn fill_truncated_hex_skipped() {
    let svg = "<svg viewBox=\"0 0 1920 1080\"><rect fill=\"#abc\"/></svg>";
    let r = check_fill_diversity(svg);
    assert_eq!(r, CheckResult::Fail(LayoutFailure::FillBelowFloor(0)));
}

#[test]
fn fill_dedupes_case_insensitively() {
    let svg =
        "<svg viewBox=\"0 0 1920 1080\"><rect fill=\"#AABBCC\"/><rect fill=\"#aabbcc\"/></svg>";
    let r = check_fill_diversity(svg);
    assert_eq!(r, CheckResult::Fail(LayoutFailure::FillBelowFloor(1)));
}

#[test]
fn falsify_ids_cover_every_check() {
    let checks: Vec<Check> = FALSIFY_IDS.iter().map(|(c, _)| *c).collect();
    for variant in [
        Check::CanvasSize,
        Check::ShapeFloor,
        Check::NamedGroupBounds,
        Check::FillDiversity,
        Check::FontSizeFloor,
    ] {
        assert!(checks.contains(&variant), "{variant:?} missing");
    }
}

#[test]
fn report_failures_lists_only_fails() {
    let svg = "<svg viewBox=\"0 0 1280 720\"><rect/></svg>";
    let report = check_layout(svg);
    assert!(!report.all_pass());
    let fails = report.failures();
    assert!(fails.len() >= 3);
}

#[test]
fn fill_truncated_at_eof_breaks() {
    let svg = "<svg viewBox=\"0 0 1920 1080\">..fill=\"#abc";
    let r = check_fill_diversity(svg);
    assert_eq!(r, CheckResult::Fail(LayoutFailure::FillBelowFloor(0)));
}

#[test]
fn font_size_unclosed_quote_breaks() {
    let svg = "<svg viewBox=\"0 0 1920 1080\"><text font-size=\"18";
    let r = check_font_size_floor(svg);
    assert!(r.is_pass());
}

#[test]
fn debug_clone_eq() {
    let r = CheckResult::Pass {
        check: Check::CanvasSize,
        measured: 0,
    };
    let _ = format!("{r:?}");
    let c = r.clone();
    assert_eq!(r, c);

    let f = LayoutFailure::ShapeBelowFloor(3);
    let _ = f.message();
    let _ = format!("{f:?}");
    assert_eq!(f, LayoutFailure::ShapeBelowFloor(3));

    let report = LayoutReport {
        results: vec![r.clone()],
    };
    let _ = report.clone();
    let _ = format!("{report:?}");
    assert_eq!(report, LayoutReport { results: vec![r] });

    let _ = format!("{:?}", Check::CanvasSize);
    let a = Check::CanvasSize;
    let b = a;
    assert_eq!(a, b);
}

// Further cases.

#[test]
fn failure_messages() {
    assert_eq!(
        LayoutFailure::CanvasMismatch("0 0 1280 720".into()).message(),
        "canvas size: expected viewBox \"0 0 1920 1080\", saw \"0 0 1280 720\""
    );
    assert_eq!(
        LayoutFailure::ShapeBelowFloor(3).message(),
        "shape floor: counted 3 shapes, need >= 40"
    );
    assert_eq!(
        LayoutFailure::NamedGroupOutOfBounds(25).message(),
        "named-group bounds: counted 25 groups, need in [5, 20]"
    );
    assert_eq!(
        LayoutFailure::FillBelowFloor(2).message(),
        "fill diversity: counted 2 distinct hex fills, need >= 8"
    );
    assert_eq!(
        LayoutFailure::FontBelowFloor(14).message(),
        "font-size floor: smallest font-size is 14, need >= 18"
    );
    assert_eq!(
        LayoutFailure::CanvasMismatch("a\"b".into()).message(),
        "canvas size: expected viewBox \"0 0 1920 1080\", saw \"a\\\"b\""
    );
}

#[test]
fn report_lists_results_in_check_order() {
    let svg = "<svg viewBox=\"0 0 1280 720\"><rect/></svg>";
    let report = check_layout(svg);
    assert_eq!(
        report.results,
        vec![
            CheckResult::Fail(LayoutFailure::CanvasMismatch("0 0 1280 720".into())),
            CheckResult::Fail(LayoutFailure::ShapeBelowFloor(1)),
            CheckResult::Fail(LayoutFailure::NamedGroupOutOfBounds(0)),
            CheckResult::Fail(LayoutFailure::FillBelowFloor(0)),
            CheckResult::Pass { check: Check::FontSizeFloor, measured: 18 },
        ]
    );
    let fails = report.failures();
    assert_eq!(fails.len(), 4);
    assert_eq!(*fails[1], LayoutFailure::ShapeBelowFloor(1));
}

#[test]
fn passing_checks_report_measured_values() {
    let report = check_layout(&good_svg());
    assert_eq!(
        report.results,
        vec![
            CheckResult::Pass { check: Check::CanvasSize, measured: 0 },
            CheckResult::Pass { check: Check::ShapeFloor, measured: 50 },
            CheckResult::Pass { check: Check::NamedGroupBounds, measured: 6 },
            CheckResult::Pass { check: Check::FillDiversity, measured: 8 },
            CheckResult::Pass { check: Check::FontSizeFloor, measured: 20 },
        ]
    );
}

#[test]
fn shapes_of_every_kind_count() {
    let svg = "<rect/><circle/><line/><path/><polygon/><ellipse/><text>t</text><polyline/>";
    // `<polyline` contains `<poly` but not `<polygon`; `<line` is not inside `<polyline`.
    assert_eq!(check_shape_floor(svg), CheckResult::Fail(LayoutFailure::ShapeBelowFloor(7)));
}

#[test]
fn named_group_needs_id_before_closing_bracket() {
    let svg = "<g class=\"x\"></g><g class=\"y\" id=\"b\"></g><g >id=</g><g id=\"c\"";
    // The third tag closes before `id=`; the fourth never closes.
    assert_eq!(
        check_named_group_bounds(svg),
        CheckResult::Fail(LayoutFailure::NamedGroupOutOfBounds(1))
    );
}

#[test]
fn canvas_unclosed_viewbox_is_empty() {
    assert_eq!(
        check_canvas_size("<svg viewBox=\"0 0 1920 1080"),
        CheckResult::Fail(LayoutFailure::CanvasMismatch(String::new()))
    );
    assert!(check_canvas_size("<svg viewBox=\"0 0 1920 1080\" viewBox=\"1\">").is_pass());
}

#[test]
fn font_size_smallest_value_wins() {
    let svg = "<text font-size=\"30\"/><text font-size=\"+19\"/><text font-size=\"25.9\"/><text font-size=\"\"/><text font-size=\"99999999999\"/>";
    assert_eq!(
        check_font_size_floor(svg),
        CheckResult::Pass { check: Check::FontSizeFloor, measured: 19 }
    );
    let svg = "<text font-size=\"20\"/><text font-size=\"7.5\"/><text font-size=\"-3\"/>";
    assert_eq!(check_font_size_floor(svg), CheckResult::Fail(LayoutFailure::FontBelowFloor(7)));
}

#[test]
fn font_size_at_u32_max_reads_as_none() {
    let svg = "<text font-size=\"4294967295\"/>";
    assert_eq!(
        check_font_size_floor(svg),
        CheckResult::Pass { check: Check::FontSizeFloor, measured: 18 }
    );
}

#[test]
fn fill_codes_scan_past_each_code() {
    // The scan resumes six bytes after each key, so an overlapping key is skipped.
    let svg = "fill=\"#fill=\"#123456 fill=\"#ABCDEF fill=\"#abcdef fill=\"#00000";
    assert_eq!(check_fill_diversity(svg), CheckResult::Fail(LayoutFailure::FillBelowFloor(1)));
}

#[test]
fn fill_cut_inside_a_character_is_flagged() {
    assert!(fill_codes_cut_cleanly("<rect fill=\"#aabbcc\"/>"));
    assert!(fill_codes_cut_cleanly("fill=\"#aabbcc"));
    assert!(!fill_codes_cut_cleanly("fill=\"#abcdeé"));
    assert!(fill_codes_cut_cleanly("fill=\"#abcdé"));
}

#[test]
fn canvas_message_from_quoted_value() {
    assert_eq!(
        canvas_message("\"x\""),
        "canvas size: expected viewBox \"0 0 1920 1080\", saw \"x\""
    );
}

#[test]
fn shape_tags_count_only_as_whole_tag_names() {
    let svg = r#"<svg viewBox="0 0 1920 1080"><linearGradient id="a"/></svg>"#;
    assert_eq!(check_shape_floor(svg), CheckResult::Fail(LayoutFailure::ShapeBelowFloor(0)));
    let svg = "<textPath>t</textPath><rect\n/><line\tx1=\"0\"/><path>";
    assert_eq!(check_shape_floor(svg), CheckResult::Fail(LayoutFailure::ShapeBelowFloor(3)));
    // A tag literal at the very end has no name end yet.
    assert_eq!(check_shape_floor("<rect"), CheckResult::Fail(LayoutFailure::ShapeBelowFloor(0)));
}

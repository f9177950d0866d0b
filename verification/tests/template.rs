use shotsort::clock::Moment;
use shotsort::template::{parse_width, render, sanitize_component, sanitize_value, Ctx};

fn dt() -> Moment {
    Moment {
        year: 2026,
        month: 6,
        day: 20,
        hour: 9,
        minute: 5,
        second: 3,
        nano: 0,
    }
}

fn ctx<'a>(c: Option<u32>) -> Ctx<'a> {
    Ctx {
        dt: Some(dt()),
        original: "DSC00001",
        ext: "ARW",
        counter: c,
        make: "SONY",
        model: "ILCE-7M4",
    }
}

#[test]
fn folder_default() {
    assert_eq!(
        render("{YYYY}/{YYYY}-{MM}-{DD}", &ctx(None)),
        "2026/2026-06-20"
    );
}

#[test]
fn readable_name() {
    assert_eq!(
        render("{YYYY}{MM}{DD}_{HH}{mm}{ss}", &ctx(None)),
        "20260620_090503"
    );
}

#[test]
fn original_token() {
    assert_eq!(render("{original}", &ctx(None)), "DSC00001");
}

#[test]
fn counter_padding() {
    assert_eq!(render("{counter:03}", &ctx(Some(7))), "007");
    assert_eq!(render("{counter}", &ctx(Some(7))), "7");
}

#[test]
fn unknown_token_passthrough() {
    assert_eq!(render("{nope}", &ctx(None)), "{nope}");
}

#[test]
fn missing_date_blank() {
    let c = Ctx {
        dt: None,
        ..ctx(None)
    };
    assert_eq!(render("{YYYY}-{MM}", &c), "-");
}

#[test]
fn every_token_renders() {
    let c = ctx(Some(12));
    assert_eq!(render("{YY}", &c), "26");
    assert_eq!(render("{ext}", &c), "ARW");
    assert_eq!(render("{camera_make}/{camera_model}", &c), "SONY/ILCE-7M4");
    assert_eq!(render("{counter:x}", &c), "12");
    assert_eq!(render("{counter: 5 }", &c), "00012");
    assert_eq!(render("{counter:+4}", &c), "0012");
    // Without a counter the token stands for zero.
    assert_eq!(render("{counter:02}", &ctx(None)), "00");
}

#[test]
fn widths_that_are_no_number_count_their_bytes() {
    assert_eq!(parse_width("03"), 3);
    assert_eq!(parse_width(" 7 "), 7);
    assert_eq!(parse_width(""), 0);
    assert_eq!(parse_width("abc"), 3);
    assert_eq!(parse_width("é"), 2);
    assert_eq!(parse_width("-3"), 2);
}

#[test]
fn plain_text_and_open_braces_stand_for_themselves() {
    assert_eq!(render("no tokens}", &ctx(None)), "no tokens}");
    assert_eq!(render("a{YYYY", &ctx(None)), "a{YYYY");
    assert_eq!(render("{YYYY}{", &ctx(None)), "2026{");
    assert_eq!(render("", &ctx(None)), "");
}

#[test]
fn values_bring_no_separator_in() {
    assert_eq!(sanitize_value("a/b\\c:d"), "a-b-c-d");
    assert_eq!(sanitize_value(" ..X.. "), "X");
    assert_eq!(sanitize_value("a\tb"), "a-b");
    let c = Ctx {
        make: "../evil",
        ..ctx(None)
    };
    assert_eq!(render("{camera_make}", &c), "-evil");
}

#[test]
fn components_are_never_empty() {
    assert_eq!(sanitize_component("   "), "_");
    assert_eq!(sanitize_component("..."), "_");
    // Nor do they name the directory itself or its parent.
    assert_eq!(sanitize_component(". .. ."), "_");
    assert_eq!(sanitize_component(". . ."), "_");
    assert_eq!(sanitize_component(". ... ."), "...");
    assert_eq!(sanitize_component("2026?"), "2026-");
    assert_eq!(sanitize_component("a/b"), "a/b");
}

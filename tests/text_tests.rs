use sitegen::text::{reflow_with_classes, remove_newline_between_cjk, remove_prettier_ignore_preceeding_code_block, CharClass};

#[test]
fn remove_prettier_ignore_preceeding_code_block_test() {
    let s = r"foo
<!-- prettier-ignore -->
```html";
    assert_eq!(
        remove_prettier_ignore_preceeding_code_block(s),
        "foo\n```html"
    );

    let s = r"foo

<!-- prettier-ignore -->
```html";
    assert_eq!(
        remove_prettier_ignore_preceeding_code_block(s),
        "foo\n\n```html"
    );
}

#[test]
fn remove_newline_between_cjk_test() {
    let s = r"abc
de";
    assert_eq!(remove_newline_between_cjk(s), "abc\nde");

    let s = r"ä
ä";
    assert_eq!(remove_newline_between_cjk(s), "ä\nä");

    let s = r"あいう
えお";
    assert_eq!(remove_newline_between_cjk(s), "あいうえお");

    let s = r"あいう
ab";
    assert_eq!(remove_newline_between_cjk(s), "あいう\nab");

    let s = r"あいう
ä";
    assert_eq!(remove_newline_between_cjk(s), "あいう\nä");

    // For itemized list. Remove newline + spaces
    let s = r"- あいう
  えお";
    assert_eq!(remove_newline_between_cjk(s), "- あいうえお");

    let s = r"- あいう
  ab";
    assert_eq!(remove_newline_between_cjk(s), "- あいう\n  ab");

    // Don't remove. newline + newline
    let s = r"あいう

えお";
    assert_eq!(remove_newline_between_cjk(s), "あいう\n\nえお");
}

#[test]
fn reflow_joins_wide_lines() {
    assert_eq!(remove_newline_between_cjk("あいう\nえお"), "あいうえお");
}

#[test]
fn reflow_keeps_break_before_narrow() {
    assert_eq!(remove_newline_between_cjk("あいう\nab"), "あいう\nab");
}

#[test]
fn reflow_keeps_paragraph_break() {
    assert_eq!(remove_newline_between_cjk("あいう\n\nえお"), "あいう\n\nえお");
}

#[test]
fn reflow_absorbs_list_indentation() {
    assert_eq!(remove_newline_between_cjk("- あいう\n  えお"), "- あいうえお");
}

#[test]
fn reflow_leaves_plain_text_alone() {
    assert_eq!(remove_newline_between_cjk(""), "");
    assert_eq!(remove_newline_between_cjk("a b\nc\n\nd"), "a b\nc\n\nd");
}

#[test]
fn reflow_space_after_wide_is_kept() {
    assert_eq!(remove_newline_between_cjk("あ b\nc"), "あ b\nc");
}

#[test]
fn reflow_keeps_break_at_end() {
    assert_eq!(remove_newline_between_cjk("あいう\n  "), "あいう\n  ");
    assert_eq!(remove_newline_between_cjk("あ\n"), "あ\n");
}

#[test]
fn reflow_follows_given_classes() {
    let classes = vec![CharClass::Wide, CharClass::Newline, CharClass::Space, CharClass::Wide];
    assert_eq!(reflow_with_classes("x\n y", &classes), "xy");
    let classes = vec![CharClass::Wide, CharClass::Newline, CharClass::Space, CharClass::Narrow];
    assert_eq!(reflow_with_classes("x\n y", &classes), "x\n y");
}

#[test]
fn ignore_marker_needs_a_fence() {
    let s = "foo\n<!-- prettier-ignore -->\nbar";
    assert_eq!(remove_prettier_ignore_preceeding_code_block(s), s);
    assert_eq!(remove_prettier_ignore_preceeding_code_block(""), "");
}

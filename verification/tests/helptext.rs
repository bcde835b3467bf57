use gucli::helptext::HELP_MAX_CHARS;
use gucli::helptext::MIN_HELP_LENGTH;
use gucli::helptext::accept_help;
use gucli::helptext::ansi_to_markup;
use gucli::helptext::clamp_text;
use gucli::helptext::empty_help_query_message;
use gucli::helptext::first_accepted;
use gucli::helptext::has_help_flag;
use gucli::helptext::help_variants;
use gucli::helptext::mark_flags;
use gucli::helptext::mark_uppercase;
use gucli::helptext::mark_urls;
use gucli::helptext::no_help_found_message;
use gucli::helptext::process_man_output;
use gucli::helptext::select_output;

#[test]
fn clamp_cuts_only_over_the_limit() {
    assert_eq!(clamp_text("short", 10), "short");
    assert_eq!(clamp_text("abcdef", 3), "abc");
    let huge = "z".repeat(HELP_MAX_CHARS + 17);
    let clamped = clamp_text(&huge, HELP_MAX_CHARS);
    assert_eq!(clamped.chars().count(), HELP_MAX_CHARS);
}

#[test]
fn stdout_wins_over_stderr() {
    assert_eq!(select_output("out", "err"), "out");
    assert_eq!(select_output("", "err"), "err");
}

#[test]
fn short_outputs_are_not_accepted_as_help() {
    assert!(!accept_help("too short"));
    let long = "a".repeat(MIN_HELP_LENGTH);
    assert!(accept_help(&long));
    let almost = "a".repeat(MIN_HELP_LENGTH - 1);
    assert!(!accept_help(&almost));
}

#[test]
fn color_codes_become_spans() {
    let raw = "a \u{1b}[31mred\u{1b}[0m b";
    assert_eq!(ansi_to_markup(raw), "a <span class=\"ansi-31\">red</span> b");
}

#[test]
fn bold_reset_and_stray_escapes() {
    assert_eq!(ansi_to_markup("\u{1b}[1mB\u{1b}[m"), "<span class=\"ansi-1\">B</span>");
    // a stray escape byte is dropped, nothing else is touched
    assert_eq!(ansi_to_markup("x\u{1b}y"), "xy");
    // an unfinished sequence loses only the escape byte itself
    assert_eq!(ansi_to_markup("x\u{1b}[12"), "x[12");
}

#[test]
fn bracketed_addresses_become_links() {
    let raw = "see <https://example.com/a> now";
    assert_eq!(
        mark_urls(raw),
        "see <a href=\"https://example.com/a\" class=\"man-link\">https://example.com/a</a> now"
    );
    let plain = "see <http://e.org>";
    assert_eq!(
        mark_urls(plain),
        "see <a href=\"http://e.org\" class=\"man-link\">http://e.org</a>"
    );
}

#[test]
fn a_bracket_without_an_address_is_kept() {
    assert_eq!(mark_urls("a <file> b"), "a <file> b");
    assert_eq!(mark_urls("a <https://broken url> b"), "a <https://broken url> b");
    assert_eq!(mark_urls("no scheme <ftp://x> here"), "no scheme <ftp://x> here");
}

#[test]
fn flags_are_highlighted_after_blanks() {
    assert_eq!(
        mark_flags("use -v or --verbose"),
        "use <span class=\"man-dash\">-v</span> or <span class=\"man-dash\">--verbose</span>"
    );
    // a flag at the very start counts too
    assert_eq!(mark_flags("-h prints help"), "<span class=\"man-dash\">-h</span> prints help");
    // a hyphen inside a word is no flag
    assert_eq!(mark_flags("well-known"), "well-known");
    // bare hyphens are no flags
    assert_eq!(mark_flags("a -- b"), "a -- b");
}

#[test]
fn uppercase_words_are_highlighted() {
    assert_eq!(
        mark_uppercase("a WARNING came"),
        "a <span class=\"man-uppercase\">WARNING</span> came"
    );
    // one letter is not a word
    assert_eq!(mark_uppercase("plan A failed"), "plan A failed");
    // a word boundary is required
    assert_eq!(mark_uppercase("ABCdef"), "ABCdef");
}

#[test]
fn later_passes_skip_inserted_markup() {
    let linked = mark_urls("go <https://EX.COM/UP-LOAD> now");
    let flagged = mark_flags(&linked);
    let upped = mark_uppercase(&flagged);
    // the address inside the tag attributes stays untouched; only the
    // visible link text between the tags is highlighted
    assert_eq!(
        upped,
        "go <a href=\"https://EX.COM/UP-LOAD\" class=\"man-link\">https://<span class=\"man-uppercase\">EX</span>.<span class=\"man-uppercase\">COM</span>/<span class=\"man-uppercase\">UP</span>-<span class=\"man-uppercase\">LOAD</span></a> now"
    );
}

#[test]
fn the_pipeline_runs_in_its_stated_order() {
    let raw = "\u{1b}[1mUSAGE\u{1b}[0m: tool -v <https://e.org>".to_string();
    let done = process_man_output(raw);
    assert_eq!(
        done,
        "<span class=\"ansi-1\"><span class=\"man-uppercase\">USAGE</span></span>: tool <span class=\"man-dash\">-v</span> <a href=\"https://e.org\" class=\"man-link\">https://e.org</a>"
    );
}

#[test]
fn commands_with_a_help_flag_run_as_entered() {
    assert!(has_help_flag("mpg123 -?"));
    assert!(has_help_flag("git --help"));
    assert!(!has_help_flag("id"));
    let vs = help_variants("mpg123 -?");
    assert_eq!(vs.len(), 1);
    assert_eq!(vs[0], "mpg123 -?");
}

#[test]
fn bare_commands_get_the_candidate_ladder() {
    let vs = help_variants("id");
    assert_eq!(vs.len(), 11);
    assert_eq!(vs[0], "id --help");
    assert_eq!(vs[1], "id -h");
    assert_eq!(vs[2], "id --usage");
    assert_eq!(vs[3], "id help");
    assert_eq!(vs[4], "id -help");
    assert_eq!(vs[5], "id -?");
    assert_eq!(vs[6], "id --longhelp");
    assert_eq!(vs[7], "id --long-help");
    assert_eq!(vs[8], "id --help-all");
    assert_eq!(vs[9], "id info");
    assert_eq!(vs[10], "MANPAGER=cat man id");
}

#[test]
fn the_first_long_enough_output_wins() {
    let long_a = format!("A{}", "a".repeat(MIN_HELP_LENGTH));
    let long_b = format!("B{}", "b".repeat(MIN_HELP_LENGTH));
    let outputs = vec!["short".to_string(), long_a.clone(), long_b];
    assert_eq!(first_accepted(&outputs), Some(1));
    let none = vec!["x".to_string(), "y".to_string()];
    assert_eq!(first_accepted(&none), None);
    assert_eq!(first_accepted(&Vec::new()), None);
}

#[test]
fn lookup_messages_are_fixed() {
    assert_eq!(empty_help_query_message(), "Enter the command to search for help");
    assert_eq!(no_help_found_message("idd"), "No valid help found for 'idd'");
}

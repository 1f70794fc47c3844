use playground::instrument::{
    instrument_banner, instrument_report, pad_center, report_text_of, separator,
};

#[test]
fn centring_puts_the_extra_column_right() {
    assert_eq!(pad_center("ab", 5, '*'), "*ab**");
    assert_eq!(pad_center("ab", 6, '*'), "**ab**");
    assert_eq!(pad_center("abcdef", 4, '*'), "abcdef");
    assert_eq!(pad_center("é", 3, '-'), "-é-");
}

#[test]
fn centring_matches_std_formatting() {
    for title in ["", "x", "create store", "Checking memory..."] {
        assert_eq!(pad_center(title, 48, ' '), format!("{:^48}", title));
    }
}

#[test]
fn banner_frames_the_title() {
    let b = instrument_banner("hi");
    let expected = format!("{:=^50}\n|{:^48}|\n{:=^50}\n", "", "hi", "");
    assert_eq!(b, expected);
}

#[test]
fn report_shows_time_and_memory() {
    assert_eq!(
        instrument_report("1.5ms", 3072, 1024),
        "elapsed: 1.5ms\nused memory: 2 KiB\n"
    );
    assert_eq!(instrument_report("0ns", 10, 10), "elapsed: 0ns\nused memory: 0 B\n");
}

#[test]
fn separator_is_a_line_of_dashes() {
    assert_eq!(separator(), format!("\n\n{:-^80}\n\n", ""));
}

#[test]
fn report_text_of_joins_time_and_size() {
    assert_eq!(report_text_of("2s", "5 MiB"), "elapsed: 2s\nused memory: 5 MiB\n");
    assert_eq!(report_text_of("", ""), "elapsed: \nused memory: \n");
}

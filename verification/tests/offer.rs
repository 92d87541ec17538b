use slasher::offer::{picked, Offer};
use slasher::text::parse_count;

#[test]
fn an_answer_picks_by_number_from_one() {
    assert_eq!(picked(" 2 \n", 3), Some(1));
    assert_eq!(picked("1", 3), Some(0));
    assert_eq!(picked("+3", 3), Some(2));
}

#[test]
fn anything_else_picks_nothing() {
    assert_eq!(picked("", 3), None);
    assert_eq!(picked("\n", 3), None);
    assert_eq!(picked("0", 3), None);
    assert_eq!(picked("4", 3), None);
    assert_eq!(picked("one", 3), None);
    assert_eq!(picked("-1", 3), None);
    assert_eq!(picked("1", 0), None);
    assert_eq!(picked("99999999999999999999999", 3), None);
}

#[test]
fn an_offer_keeps_what_was_shown() {
    let offer = Offer { command: "confirm_cw --pass 2".to_owned(), gist: "why".to_owned() };
    assert_eq!(offer.command, "confirm_cw --pass 2");
    assert_eq!(offer.gist, "why");
}

#[test]
fn a_count_is_read_as_str_parse_reads_it() {
    for text in ["0", "7", "+12", "007", "18446744073709551615", "", "+", "-1", " 1", "1x", "99999999999999999999"] {
        assert_eq!(parse_count(text), text.parse::<usize>().ok(), "{text:?}");
    }
}

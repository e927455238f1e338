//! Symbol extraction and gain computation, exercised from outside.

use ticker::gains::get_gain;
use ticker::gains::Gain;
use ticker::gains::Quote;
use ticker::symbols::get_ticker_symbols;

fn vectors_are_equal(v1: Vec<&str>, v2: Vec<&str>) -> bool {
    if v1.iter().count() != v2.iter().count() {
        println!(
            "counts are not equal v1={} v2 = {}",
            v1.iter().count(),
            v2.iter().count()
        );
        return false;
    }

    for s in v1.iter() {
        if !v2.contains(&s) {
            println!("v2 search found no {s}");
            return false;
        }
    }

    for s in v2.iter() {
        if !v1.contains(&s) {
            println!("v1 search found no {s}");
            return false;
        }
    }

    return true;
}

#[test]
fn main_get_ticker_symbols_empty_string() {
    // assign
    let test_data = "";
    let expected = Vec::new();

    // act
    let actual = get_ticker_symbols(test_data);

    // assert
    assert!(vectors_are_equal(expected, actual));
}

#[test]
fn main_get_ticker_symbols_one_item() {
    // assign
    let test_data = "AACG";
    let expected = vec!["AACG"];

    // act
    let actual = get_ticker_symbols(test_data);

    // assert
    assert!(vectors_are_equal(expected, actual));
}

#[test]
fn main_get_ticker_symbols_many_items_with_extra_newlines() {
    // assign
    let test_data = "\nAACG,AADI,\n,\n,\n,AADR";
    let expected = vec!["AACG", "AADI", "AADR"];

    // act
    let actual = get_ticker_symbols(test_data);

    // assert
    assert!(vectors_are_equal(expected, actual));
}

#[test]
fn unit_tests_get_ticker_symbols_empty_string() {
    // assign
    let test_data = "";
    let expected = Vec::new();

    // act
    let actual = get_ticker_symbols(test_data);

    // assert
    assert!(vectors_are_equal(expected, actual));
}

#[test]
fn unit_tests_get_ticker_symbols_one_item() {
    // assign
    let test_data = "AACG";
    let expected = vec!["AACG"];

    // act
    let actual = get_ticker_symbols(test_data);

    // assert
    assert!(vectors_are_equal(expected, actual));
}

#[test]
fn unit_tests_get_ticker_symbols_many_items_with_extra_newlines() {
    // assign
    let test_data = "\nAACG,AADI,\n,\n,\n,AADR";
    let expected = vec!["AACG", "AADI", "AADR"];

    // act
    let actual = get_ticker_symbols(test_data);

    // assert
    assert!(vectors_are_equal(expected, actual));
}

#[test]
fn get_ticker_symbols_keeps_order_and_duplicates() {
    let actual = get_ticker_symbols("  AACG , AADI ,\n,\n,AADR,AACG");
    assert_eq!(actual, vec!["AACG", "AADI", "AADR", "AACG"]);
}

#[test]
fn get_ticker_symbols_whitespace_only_tokens_dropped() {
    assert_eq!(get_ticker_symbols(",,,").len(), 0);
    assert_eq!(get_ticker_symbols(" \t\r\n ").len(), 0);
    assert_eq!(get_ticker_symbols("\tAAPL\r\n"), vec!["AAPL"]);
}

#[test]
fn get_ticker_symbols_trims_unicode_whitespace() {
    // The whole Unicode White_Space set is stripped, as str::trim strips it.
    assert_eq!(
        get_ticker_symbols("\u{a0}AACG\u{3000},\u{2028}\u{85},\u{2009}AADI\u{202f}"),
        vec!["AACG", "AADI"]
    );
    assert_eq!(get_ticker_symbols("\u{a0}A"), vec!["A"]);
    assert_eq!(get_ticker_symbols("\u{1680}\u{205f}").len(), 0);
}

#[test]
fn get_ticker_symbols_idempotent_on_own_output() {
    // Extracted tokens are already trimmed, non-empty and comma-free, so
    // joining them with commas and extracting again changes nothing.
    let input = "  AACG , AADI ,\n,\n,AADR,AACG\u{a0}";
    let out = get_ticker_symbols(input);
    assert_eq!(out, vec!["AACG", "AADI", "AADR", "AACG"]);
    let joined = out.join(",");
    let again = get_ticker_symbols(&joined);
    assert_eq!(again, out);
}

// The gain of a day is the relative price change, (close - open) / open,
// held as an exact rational. Prices below are in tenths, so 5 stands for
// one half and 10 for one whole currency unit.
#[test]
fn main_get_gain_positive_value() {
    // assign
    let quote = Quote {
        close_price: 10,
        open_price: 5,
    };
    // (1.0 - 0.5) / 0.5 == 1.0
    let expected = Gain { num: 5, den: 5 };

    // act
    let actual = get_gain(quote);

    // assert
    assert_eq!(expected, actual);
    assert_eq!(actual.num as f64 / actual.den as f64, 1.0);
}

#[test]
fn main_get_gain_negative_value() {
    // assign
    let quote = Quote {
        close_price: 10,
        open_price: 25,
    };
    // (1.0 - 2.5) / 2.5 == -0.6
    let expected = Gain { num: -15, den: 25 };

    // act
    let actual = get_gain(quote);

    // assert
    assert_eq!(expected, actual);
    assert_eq!(actual.num as f64 / actual.den as f64, -0.6);
}

#[test]
fn main_get_gain_no_movement() {
    // assign
    let quote = Quote {
        close_price: 10,
        open_price: 10,
    };
    let expected = 0.0;

    // act
    let actual = get_gain(quote);

    // assert
    assert_eq!(expected, actual.num as f64 / actual.den as f64);
}

#[test]
fn main_get_gain_zeroes() {
    // assign
    let quote = Quote {
        close_price: 0,
        open_price: 0,
    };
    let expected = 0.0;

    // act
    let actual = get_gain(quote);

    // assert
    assert_eq!(expected, actual.num as f64 / actual.den as f64);
}

#[test]
fn unit_tests_get_gain_positive_value() {
    let quote = Quote {
        close_price: 10,
        open_price: 5,
    };
    let actual = get_gain(quote);
    assert_eq!(actual, Gain { num: 5, den: 5 });
}

#[test]
fn unit_tests_get_gain_negative_value() {
    let quote = Quote {
        close_price: 10,
        open_price: 25,
    };
    let actual = get_gain(quote);
    assert_eq!(actual, Gain { num: -15, den: 25 });
}

#[test]
fn unit_tests_get_gain_no_movement() {
    let quote = Quote {
        close_price: 10,
        open_price: 10,
    };
    let actual = get_gain(quote);
    assert_eq!(actual.num, 0);
}

#[test]
fn unit_tests_get_gain_zeroes() {
    let quote = Quote {
        close_price: 0,
        open_price: 0,
    };
    let actual = get_gain(quote);
    assert_eq!(actual, Gain { num: 0, den: 1 });
}

#[test]
fn get_gain_zero_open_any_close() {
    // A zero opening price yields the zero gain whatever the close is.
    let actual = get_gain(Quote {
        open_price: 0,
        close_price: 123456,
    });
    assert_eq!(actual, Gain { num: 0, den: 1 });
}

#[test]
fn compute_gains_preserves_order() {
    let quotes = vec![
        Quote {
            open_price: 100,
            close_price: 105,
        },
        Quote {
            open_price: 105,
            close_price: 100,
        },
        Quote {
            open_price: 0,
            close_price: 7,
        },
    ];
    let gains = ticker::gains::compute_gains(&quotes);
    assert_eq!(
        gains,
        vec![
            Gain { num: 5, den: 100 },
            Gain { num: -5, den: 105 },
            Gain { num: 0, den: 1 },
        ]
    );
}

#[test]
fn compute_gains_empty() {
    let empty: Vec<Quote> = Vec::new();
    let gains = ticker::gains::compute_gains(&empty);
    assert_eq!(gains.len(), 0);
}

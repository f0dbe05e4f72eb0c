use ce_envs::hello_world::{
    is_white_space, sentence_length, split_words, weave, HelloWorldEnv, Input, Output, Validation,
};

fn transformed(source: &str) -> String {
    HelloWorldEnv::run(&Input {
        source: source.to_string(),
    })
    .transformed
}

#[test]
fn every_second_word_is_shouted() {
    assert_eq!(transformed("hello world"), "hello WORLD");
    assert_eq!(
        transformed("i love rust code like cake"),
        "i LOVE rust CODE like CAKE"
    );
    assert_eq!(transformed("Thomas Janus"), "Thomas JANUS");
}

#[test]
fn one_word_stays_as_it_is() {
    assert_eq!(transformed("svelte"), "svelte");
}

#[test]
fn white_space_becomes_one_blank() {
    assert_eq!(transformed("  a \t b\n\nc\u{a0}d  "), "a B c D");
    assert_eq!(transformed("a\u{3000}b"), "a B");
}

#[test]
fn nothing_gives_nothing() {
    assert_eq!(transformed(""), "");
    assert_eq!(transformed(" \n\t "), "");
}

#[test]
fn upper_case_is_that_of_the_standard_library() {
    assert_eq!(transformed("x straße"), "x STRASSE");
    assert_eq!(transformed("1 é2"), "1 É2");
}

#[test]
fn the_transformed_sentence_is_correct() {
    let input = Input {
        source: "hello world is cool".to_string(),
    };
    let output = Output {
        transformed: "hello WORLD is COOL".to_string(),
    };
    assert!(matches!(HelloWorldEnv::validate(&input, &output), Validation::Correct));
    assert!(matches!(HelloWorldEnv::validate(&input, &HelloWorldEnv::run(&input)), Validation::Correct));
}

#[test]
fn anything_else_is_a_mismatch() {
    let input = Input {
        source: "hello world".to_string(),
    };
    let output = Output {
        transformed: "hello world".to_string(),
    };
    match HelloWorldEnv::validate(&input, &output) {
        Validation::Mismatch { reason } => {
            assert_eq!(reason, "Expected 'hello WORLD', got 'hello world'")
        }
        Validation::Correct => panic!("a wrong answer was accepted"),
    }
}

#[test]
fn sentences_and_answers_start_empty() {
    assert_eq!(Input::default().source, "");
    assert_eq!(Output::default().transformed, "");
}

#[test]
fn a_sentence_from_picks() {
    assert_eq!(
        ce_envs::hello_world::sentence_from_picks(&[0, 1, 14, 15, 16, 33]),
        "hello world Thomas Janus hello world"
    );
    assert_eq!(ce_envs::hello_world::sentence_from_picks(&[9]), "typescript");
    assert_eq!(ce_envs::hello_world::sentence_from_picks(&[]), "");
    assert_eq!(
        ce_envs::hello_world::sentence_from_picks(&[2, 3, 4, 5, 6, 7, 8, 10, 11, 12, 13]),
        "i fun love rust code cake svelte css like is cool"
    );
}

#[test]
fn white_space_is_that_of_the_standard_library() {
    let mut c = '\0';
    loop {
        assert_eq!(is_white_space(c), c.is_whitespace(), "at {:?}", c);
        if c == char::MAX {
            break;
        }
        c = match char::from_u32(c as u32 + 1) {
            Some(next) => next,
            None => '\u{e000}',
        };
    }
}

#[test]
fn words_are_those_of_the_standard_library() {
    for source in [
        "",
        " ",
        "one",
        "  a \t b\n\nc\u{a0}d  ",
        "x\u{2003}y\u{200b}z\u{3000}",
        "tab\tend\r\n",
        "\u{85}\u{1680}w\u{2028}\u{2029}\u{202f}\u{205f}",
    ] {
        let expected: Vec<String> = source.split_whitespace().map(|w| w.to_string()).collect();
        assert_eq!(split_words(source), expected, "for {:?}", source);
    }
}

#[test]
fn weaving_takes_odd_words_from_the_second_list() {
    let plain: Vec<String> = ["a", "b", "c", "d"].iter().map(|w| w.to_string()).collect();
    let upper: Vec<String> = ["W", "X", "Y", "Z"].iter().map(|w| w.to_string()).collect();
    assert_eq!(weave(&plain, &upper), "a X c Z");
    assert_eq!(weave(&plain, &upper[..2]), "a X c d");
    assert_eq!(weave(&plain, &[]), "a b c d");
    assert_eq!(weave(&plain[..1], &upper), "a");
    assert_eq!(weave(&[], &upper), "");
}

#[test]
fn drawn_sentence_lengths_stay_in_range() {
    assert_eq!(sentence_length(0), 3);
    assert_eq!(sentence_length(96), 99);
    assert_eq!(sentence_length(97), 3);
    assert_eq!(sentence_length(1000), 33);
    assert!((3..=99).contains(&sentence_length(usize::MAX)));
}

#[test]
fn sentences_and_answers_compare_by_their_text() {
    let input = Input {
        source: "hello world".to_string(),
    };
    assert!(input == input.clone());
    assert!(input != Input::default());
    assert!(HelloWorldEnv::run(&input) == HelloWorldEnv::run(&input));
}

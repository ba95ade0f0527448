use namesmith::{BuildError, NameGenerator, Rng, Strictness, TemplateError, TemplateGenerator};

fn strs(words: &[&str]) -> Vec<String> {
    words.iter().map(|w| w.to_string()).collect()
}

fn mix(mut z: u64) -> u64 {
    z = (z ^ (z >> 30)).wrapping_mul(0xBF58_476D_1CE4_E5B9);
    z = (z ^ (z >> 27)).wrapping_mul(0x94D0_49BB_1331_11EB);
    z ^ (z >> 31)
}

#[test]
fn seed_zero_gives_reference_values() {
    let mut rng = Rng::from_seed(0);
    assert_eq!(rng.next_u64(), 0xE220_A839_7B1D_CDAF);
    assert_eq!(rng.next_u64(), 0x6E78_9E6A_A1B9_65F4);
    assert_eq!(rng.next_u64(), 0x06C4_5D18_8009_454F);
}

#[test]
fn draws_follow_closed_form() {
    let seed = 0xDEAD_BEEF_u64;
    let mut rng = Rng::from_seed(seed);
    for k in 0..20u64 {
        let expected = mix(seed.wrapping_add((k + 1).wrapping_mul(0x9E37_79B9_7F4A_7C15)));
        assert_eq!(rng.next_u64(), expected);
    }
}

#[test]
fn below_gives_reference_values() {
    let mut rng = Rng::from_seed(7);
    let got: Vec<usize> = (0..10).map(|_| rng.below(5)).collect();
    assert_eq!(got, vec![1, 0, 4, 2, 2, 1, 2, 1, 0, 2]);
}

#[test]
fn below_one_is_always_zero() {
    let mut rng = Rng::from_seed(42);
    assert_eq!(rng.below(1), 0);
    assert_eq!(rng.below(1), 0);
}

#[test]
fn below_rejects_and_redraws() {
    let bound = (1usize << 63) + 1;
    let mut rng = Rng::from_seed(1);
    let got: Vec<usize> = (0..5).map(|_| rng.below(bound)).collect();
    assert_eq!(
        got,
        vec![
            8955919645141445295,
            4098490376910890117,
            4097618618563484380,
            7036458801432265024,
            7323326090023318475
        ]
    );
    // Five draws were rejected along the way, so ten draws in all were taken.
    assert_eq!(rng.next_u64(), 0x6775_DC77_0156_4F61);
}

#[test]
fn from_entropy_mixes_clock_and_counter() {
    let nanos = 1_700_000_000_123_456_789u64;
    let count = 3u64;
    let mut a = Rng::from_entropy(nanos, count);
    let mut b = Rng::from_seed(nanos ^ count.wrapping_mul(0x9E37_79B9_7F4A_7C15));
    for _ in 0..5 {
        assert_eq!(a.next_u64(), b.next_u64());
    }
}

#[test]
fn seeded_name_is_reproducible() {
    let mut generator = NameGenerator::new(
        strs(&["Ada", "Grace"]),
        strs(&["Lovelace", "Hopper"]),
        Rng::from_seed(123),
    )
    .unwrap();
    assert_eq!(generator.generate(), "Grace Hopper");
}

#[test]
fn seeded_template_is_reproducible() {
    let mut generator = TemplateGenerator::new(
        "{title} {first} {last}",
        vec![
            ("title", strs(&["Dr.", "Capt."])),
            ("first", strs(&["Ada", "Grace"])),
            ("last", strs(&["Lovelace", "Hopper"])),
        ],
        Rng::from_seed(9),
    )
    .unwrap();
    assert_eq!(generator.generate(), "Capt. Grace Lovelace");
    let mut syllables = TemplateGenerator::new(
        "{syllable}{syllable}",
        vec![("syllable", strs(&["ka", "mo", "ri"]))],
        Rng::from_seed(4),
    )
    .unwrap();
    assert_eq!(syllables.generate(), "mori");
}

#[test]
fn template_with_single_entries_is_fixed() {
    let mut generator = TemplateGenerator::new(
        "{first} \"{nickname}\" {last}",
        vec![
            ("first", strs(&["Grace"])),
            ("nickname", strs(&["Amazing"])),
            ("last", strs(&["Hopper"])),
        ],
        Rng::from_seed(1),
    )
    .unwrap();
    assert_eq!(generator.generate(), "Grace \"Amazing\" Hopper");
    assert_eq!(generator.generate(), "Grace \"Amazing\" Hopper");
}

#[test]
fn template_without_slots_is_its_text() {
    let mut generator = TemplateGenerator::new("Nobody", vec![], Rng::from_seed(1)).unwrap();
    assert_eq!(generator.generate(), "Nobody");
}

#[test]
fn template_slot_names_may_hold_an_opening_brace() {
    let mut generator = TemplateGenerator::new(
        "<{a{b}>",
        vec![("a{b", strs(&["x"]))],
        Rng::from_seed(1),
    )
    .unwrap();
    assert_eq!(generator.generate(), "<x>");
}

#[test]
fn strict_accepts_clean_names() {
    let mut generator = NameGenerator::new(
        strs(&["Jo"]),
        strs(&["O'Brien-Smith"]),
        Rng::from_seed(5),
    )
    .unwrap();
    assert_eq!(generator.generate(), "Jo O'Brien-Smith");
}

#[test]
fn strict_rejects_non_ascii_letter() {
    let err = NameGenerator::with_strictness(
        strs(&["Zoë"]),
        strs(&["Lovelace"]),
        Rng::from_seed(0),
        Strictness::Strict,
    )
    .unwrap_err();
    assert_eq!(
        err,
        BuildError::InvalidCharacter {
            list: "first_names".to_string(),
            entry: "Zoë".to_string(),
            ch: 'ë'
        }
    );
}

#[test]
fn lenient_keeps_characters_as_they_are() {
    let mut generator = NameGenerator::with_strictness(
        strs(&[" Zoë "]),
        strs(&["Lovelace"]),
        Rng::from_seed(0),
        Strictness::Lenient,
    )
    .unwrap();
    assert_eq!(generator.generate(), "Zoë Lovelace");
}

#[test]
fn strict_rejects_disallowed_character() {
    let err = NameGenerator::new(strs(&["Ada"]), strs(&["Love,lace"]), Rng::from_seed(0))
        .unwrap_err();
    assert_eq!(
        err,
        BuildError::InvalidCharacter {
            list: "last_names".to_string(),
            entry: "Love,lace".to_string(),
            ch: ','
        }
    );
    let err = NameGenerator::new(strs(&["Ada2"]), strs(&["Lovelace"]), Rng::from_seed(0))
        .unwrap_err();
    assert_eq!(
        err,
        BuildError::InvalidCharacter {
            list: "first_names".to_string(),
            entry: "Ada2".to_string(),
            ch: '2'
        }
    );
}

#[test]
fn strict_rejects_unicode_white_space() {
    let err = NameGenerator::new(strs(&["\u{3000}Ada"]), strs(&["Lovelace"]), Rng::from_seed(0))
        .unwrap_err();
    assert_eq!(
        err,
        BuildError::UntrimmedEntry {
            list: "first_names".to_string(),
            entry: "\u{3000}Ada".to_string()
        }
    );
}

#[test]
fn strict_reports_first_failing_entry() {
    let err = NameGenerator::new(
        strs(&["Ada", "Ada", ""]),
        strs(&["Lovelace"]),
        Rng::from_seed(0),
    )
    .unwrap_err();
    assert_eq!(
        err,
        BuildError::DuplicateEntry { list: "first_names".to_string(), entry: "Ada".to_string() }
    );
}

#[test]
fn empty_lists_are_refused() {
    let err = NameGenerator::new(vec![], strs(&["Lovelace"]), Rng::from_seed(0)).unwrap_err();
    assert_eq!(err, BuildError::EmptyList("first_names".to_string()));
    let err = NameGenerator::with_strictness(
        strs(&["Ada"]),
        strs(&["  ", ""]),
        Rng::from_seed(0),
        Strictness::Lenient,
    )
    .unwrap_err();
    assert_eq!(err, BuildError::EmptyList("last_names".to_string()));
}

#[test]
fn lenient_trims_and_drops_repeats() {
    let mut generator = NameGenerator::with_strictness(
        strs(&["  Ada  ", "Ada", "", "\tAda\n"]),
        strs(&["Love,lace "]),
        Rng::from_seed(0),
        Strictness::Lenient,
    )
    .unwrap();
    assert_eq!(generator.generate(), "Ada Love,lace");
}

#[test]
fn strictness_defaults_to_strict() {
    assert_eq!(Strictness::default(), Strictness::Strict);
}

#[test]
fn pattern_errors_give_byte_offsets() {
    let slots = || vec![("x", strs(&["Ada"]))];
    let err = TemplateGenerator::new("é{x", slots(), Rng::from_seed(0)).unwrap_err();
    assert_eq!(err, TemplateError::UnterminatedPlaceholder { at: 2 });
    let err = TemplateGenerator::new("{x}日}", slots(), Rng::from_seed(0)).unwrap_err();
    assert_eq!(err, TemplateError::UnmatchedClosingBrace { at: 6 });
    let err = TemplateGenerator::new("a{}", slots(), Rng::from_seed(0)).unwrap_err();
    assert_eq!(err, TemplateError::EmptyPlaceholder { at: 1 });
}

#[test]
fn pattern_is_checked_before_slots() {
    let err = TemplateGenerator::new(
        "{first",
        vec![("first", strs(&["Ada", "Ada"]))],
        Rng::from_seed(0),
    )
    .unwrap_err();
    assert_eq!(err, TemplateError::UnterminatedPlaceholder { at: 0 });
}

#[test]
fn template_lenient_repairs_slot_lists() {
    let mut generator = TemplateGenerator::with_strictness(
        "{first}!",
        vec![("first", strs(&[" Ada ", "Ada"]))],
        Rng::from_seed(3),
        Strictness::Lenient,
    )
    .unwrap();
    assert_eq!(generator.generate(), "Ada!");
}

#[test]
fn build_error_converts_into_template_error() {
    let err = BuildError::EmptyList("x".to_string());
    assert_eq!(TemplateError::from(err.clone()), TemplateError::List(err));
}

#[test]
fn build_error_messages() {
    let list = || "first_names".to_string();
    assert_eq!(
        BuildError::EmptyList(list()).message(),
        "first_names list has no usable entries"
    );
    assert_eq!(
        BuildError::EmptyEntry { list: list(), index: 12 }.message(),
        "first_names list entry 12 is empty"
    );
    assert_eq!(
        BuildError::UntrimmedEntry { list: list(), entry: "Ada ".to_string() }.message(),
        "first_names list entry \"Ada \" has leading or trailing whitespace"
    );
    assert_eq!(
        BuildError::InvalidCharacter { list: list(), entry: "A\"b".to_string(), ch: '\n' }
            .message(),
        "first_names list entry \"A\\\"b\" contains disallowed character '\\n'"
    );
    assert_eq!(
        BuildError::DuplicateEntry { list: list(), entry: "Ada".to_string() }.message(),
        "first_names list has duplicate entry \"Ada\""
    );
}

#[test]
fn template_error_messages() {
    assert_eq!(TemplateError::EmptyPattern.message(), "pattern is empty");
    assert_eq!(
        TemplateError::UnterminatedPlaceholder { at: 0 }.message(),
        "pattern has an unterminated '{' at byte offset 0"
    );
    assert_eq!(
        TemplateError::UnmatchedClosingBrace { at: 107 }.message(),
        "pattern has an unmatched '}' at byte offset 107"
    );
    assert_eq!(
        TemplateError::EmptyPlaceholder { at: 9 }.message(),
        "pattern has an empty {} placeholder at byte offset 9"
    );
    assert_eq!(
        TemplateError::DuplicateSlot { name: "first".to_string() }.message(),
        "slot \"first\" was passed to the builder more than once"
    );
    assert_eq!(
        TemplateError::UnknownSlot { name: "last".to_string() }.message(),
        "pattern references slot \"last\", which has no word list"
    );
    assert_eq!(
        TemplateError::List(BuildError::EmptyList("first".to_string())).message(),
        "first list has no usable entries"
    );
}

fn unmix(mut z: u64) -> u64 {
    z = z ^ (z >> 31) ^ (z >> 62);
    z = z.wrapping_mul(0x3196_42B2_D24D_8EC3);
    z = z ^ (z >> 27) ^ (z >> 54);
    z = z.wrapping_mul(0x96DE_1B17_3F11_9089);
    z ^ (z >> 30) ^ (z >> 60)
}

/// A generator whose next draw is `x`.
fn rng_drawing(x: u64) -> Rng {
    Rng::from_seed(unmix(x).wrapping_sub(0x9E37_79B9_7F4A_7C15))
}

#[test]
fn finaliser_is_invertible() {
    for x in [0u64, 1, 42, u64::MAX, 0x0123_4567_89AB_CDEF] {
        assert_eq!(mix(unmix(x)), x);
        assert_eq!(rng_drawing(x).next_u64(), x);
    }
}

#[test]
fn below_maps_one_interval_of_draws_to_each_value() {
    // For bound 3, the draws that give 1 are exactly c..c + n.
    let c = 6148914691236517206u64;
    let n = 6148914691236517205u64;
    assert_eq!(rng_drawing(c - 1).below(3), 0);
    assert_eq!(rng_drawing(c).below(3), 1);
    assert_eq!(rng_drawing(c + n - 1).below(3), 1);
    assert_eq!(rng_drawing(c + n).below(3), 2);
}

#[test]
fn entropy_seeds_with_different_counters_diverge() {
    let nanos = 1_700_000_000_000_000_000u64;
    let mut a = Rng::from_entropy(nanos, 0);
    let mut b = Rng::from_entropy(nanos, 1);
    assert_ne!(a.next_u64(), b.next_u64());
}

#[test]
fn pattern_errors_report_leftmost_defect() {
    let slots = || vec![("a", strs(&["Ada"]))];
    let err = TemplateGenerator::new("x}{a", slots(), Rng::from_seed(0)).unwrap_err();
    assert_eq!(err, TemplateError::UnmatchedClosingBrace { at: 1 });
    let err = TemplateGenerator::new("{a}{}}", slots(), Rng::from_seed(0)).unwrap_err();
    assert_eq!(err, TemplateError::EmptyPlaceholder { at: 3 });
    let err = TemplateGenerator::new("{a} {a", slots(), Rng::from_seed(0)).unwrap_err();
    assert_eq!(err, TemplateError::UnterminatedPlaceholder { at: 4 });
}

#[test]
fn white_space_is_the_unicode_property() {
    for ws in ["\u{85}", "\u{a0}", "\u{2003}", "\u{3000}", "\t"] {
        let entry = format!("Ada{}", ws);
        let err = NameGenerator::new(vec![entry.clone()], strs(&["Lovelace"]), Rng::from_seed(0))
            .unwrap_err();
        assert_eq!(err, BuildError::UntrimmedEntry { list: "first_names".to_string(), entry });
    }
    // A zero-width space is not white space, and not a name character either.
    let err = NameGenerator::new(strs(&["Ada\u{200b}"]), strs(&["Lovelace"]), Rng::from_seed(0))
        .unwrap_err();
    assert_eq!(
        err,
        BuildError::InvalidCharacter {
            list: "first_names".to_string(),
            entry: "Ada\u{200b}".to_string(),
            ch: '\u{200b}'
        }
    );
}

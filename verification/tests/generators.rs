use namesmith::{BuildError, NameGenerator, Rng, Strictness, TemplateError, TemplateGenerator};

fn strs(words: &[&str]) -> Vec<String> {
    words.iter().map(|w| w.to_string()).collect()
}

#[test]
fn strict_rejects_empty_entry() {
    let err = NameGenerator::new(strs(&["Ada", ""]), strs(&["Lovelace"]), Rng::from_seed(0))
        .unwrap_err();
    assert_eq!(
        err,
        BuildError::EmptyEntry { list: "first_names".to_string(), index: 1 }
    );
}

#[test]
fn strict_rejects_untrimmed_entry() {
    let err = NameGenerator::new(strs(&["Ada "]), strs(&["Lovelace"]), Rng::from_seed(0))
        .unwrap_err();
    assert!(matches!(err, BuildError::UntrimmedEntry { .. }));
}

#[test]
fn strict_rejects_duplicate() {
    let err = NameGenerator::new(strs(&["Ada", "Ada"]), strs(&["Lovelace"]), Rng::from_seed(0))
        .unwrap_err();
    assert!(matches!(err, BuildError::DuplicateEntry { .. }));
}

#[test]
fn lenient_repairs_instead_of_erroring() {
    let generator = NameGenerator::with_strictness(
        strs(&["Ada ", "", "Ada"]),
        strs(&["Lovelace"]),
        Rng::from_seed(0),
        Strictness::Lenient,
    );
    assert!(generator.is_ok());
}

#[test]
fn generate_picks_from_both_lists() {
    let mut generator = NameGenerator::new(
        strs(&["Ada", "Grace"]),
        strs(&["Lovelace", "Hopper"]),
        Rng::from_seed(123),
    )
    .unwrap();
    let name = generator.generate();
    let mut parts = name.split(' ');
    assert!(["Ada", "Grace"].contains(&parts.next().unwrap()));
    assert!(["Lovelace", "Hopper"].contains(&parts.next().unwrap()));
}

#[test]
fn template_renders_literals_and_slots() {
    let mut generator = TemplateGenerator::new(
        "{title} {first} {last}",
        vec![
            ("title", strs(&["Dr.", "Capt."])),
            ("first", strs(&["Ada", "Grace"])),
            ("last", strs(&["Lovelace", "Hopper"])),
        ],
        Rng::from_seed(9),
    )
    .unwrap();
    let name = generator.generate();
    let parts: Vec<&str> = name.split(' ').collect();
    assert_eq!(parts.len(), 3);
    assert!(["Dr.", "Capt."].contains(&parts[0]));
    assert!(["Ada", "Grace"].contains(&parts[1]));
    assert!(["Lovelace", "Hopper"].contains(&parts[2]));
}

#[test]
fn template_supports_repeated_and_adjacent_slots() {
    let mut generator = TemplateGenerator::new(
        "{syllable}{syllable}",
        vec![("syllable", strs(&["ka", "mo", "ri"]))],
        Rng::from_seed(4),
    )
    .unwrap();
    let name = generator.generate();
    assert_eq!(name.len(), 4);
}

#[test]
fn template_rejects_unknown_slot() {
    let err = TemplateGenerator::new(
        "{first} {last}",
        vec![("first", strs(&["Ada"]))],
        Rng::from_seed(0),
    )
    .unwrap_err();
    assert_eq!(err, TemplateError::UnknownSlot { name: "last".to_string() });
}

#[test]
fn template_rejects_unterminated_placeholder() {
    let err = TemplateGenerator::new(
        "{first",
        vec![("first", strs(&["Ada"]))],
        Rng::from_seed(0),
    )
    .unwrap_err();
    assert_eq!(err, TemplateError::UnterminatedPlaceholder { at: 0 });
}

#[test]
fn template_rejects_duplicate_slot() {
    let err = TemplateGenerator::new(
        "{first}",
        vec![("first", strs(&["Ada"])), ("first", strs(&["Grace"]))],
        Rng::from_seed(0),
    )
    .unwrap_err();
    assert_eq!(err, TemplateError::DuplicateSlot { name: "first".to_string() });
}

#[test]
fn template_rejects_empty_pattern() {
    let err = TemplateGenerator::new("", vec![], Rng::from_seed(0)).unwrap_err();
    assert_eq!(err, TemplateError::EmptyPattern);
}

#[test]
fn template_propagates_list_validation_errors() {
    let err = TemplateGenerator::new(
        "{first}",
        vec![("first", strs(&["Ada", "Ada"]))],
        Rng::from_seed(0),
    )
    .unwrap_err();
    assert!(matches!(err, TemplateError::List(BuildError::DuplicateEntry { .. })));
}

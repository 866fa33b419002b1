use brigadier::context::string_range::StringRange;
use brigadier::suggestion::suggestion::Suggestion;
use brigadier::suggestion::suggestions_builder::SuggestionsBuilder;

#[test]
fn suggest_appends() {
    let mut builder = SuggestionsBuilder::new("Hello w", 6);
    let result = builder.suggest("world!").build();
    assert_eq!(
        result.get_list(),
        &[Suggestion::new(
            StringRange::between(6, 7),
            "world!".to_owned()
        )]
    );
    assert_eq!(result.get_range(), &StringRange::between(6, 7));
    assert_eq!(result.is_empty(), false);
}

#[test]
fn suggest_replaces() {
    let mut builder = SuggestionsBuilder::new("Hello w", 6);
    let result = builder.suggest("everybody").build();
    assert_eq!(
        result.get_list(),
        &[Suggestion::new(
            StringRange::between(6, 7),
            "everybody".to_owned()
        )]
    );
    assert_eq!(result.get_range(), &StringRange::between(6, 7));
    assert_eq!(result.is_empty(), false);
}

#[test]
fn suggest_noop() {
    let mut builder = SuggestionsBuilder::new("Hello w", 6);
    let result = builder.suggest("w").build();
    assert_eq!(result.get_list(), &[]);
    assert_eq!(result.is_empty(), true);
}

#[test]
fn suggest_multiple() {
    let mut builder = SuggestionsBuilder::new("Hello w", 6);
    let result = builder
        .suggest("world!")
        .suggest("everybody")
        .suggest("weekend")
        .build();

    // this is testing ordering, should be alphabetical
    assert_eq!(
        result.get_list(),
        &[
            Suggestion::new(StringRange::between(6, 7), "everybody".to_owned()),
            Suggestion::new(StringRange::between(6, 7), "weekend".to_owned()),
            Suggestion::new(StringRange::between(6, 7), "world!".to_owned()),
        ]
    );
    assert_eq!(result.get_range(), &StringRange::between(6, 7));
    assert_eq!(result.is_empty(), false);
}

#[test]
fn restart() {
    let mut builder = SuggestionsBuilder::new("Hello w", 6);
    builder.suggest("won't be included in restart");
    let other = builder.restart();
    assert_ne!(builder, other);
    assert_eq!(other.get_input(), builder.get_input());
    assert_eq!(other.get_start(), builder.get_start());
    assert_eq!(other.get_remaining(), builder.get_remaining());
}

#[test]
fn sort_alpgabetical() {
    let mut builder = SuggestionsBuilder::new("Hello w", 6);
    let result = builder
        .suggest("2")
        .suggest("4")
        .suggest("6")
        .suggest("8")
        .suggest("30")
        .suggest("32")
        .build();

    let actual = result
        .get_list()
        .iter()
        .map(Suggestion::get_text)
        .collect::<Vec<_>>();
    assert_eq!(actual, vec!["2", "30", "32", "4", "6", "8"]);
}

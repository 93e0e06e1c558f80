use fencing_group::{Error, Group, DEFAULT_LIMIT};

fn build(body: &str) -> Result<Group, Error> {
    Group::from_data(body, DEFAULT_LIMIT)
}

fn record(g: &Group, name: &str) -> (u8, u8, u8) {
    let r = g.get(name).expect("fencer present");
    assert_eq!(r.name, name);
    (r.wins, r.given, r.taken)
}

#[test]
fn example_end_to_end() {
    let g = build("alice_wins=3&alice_given=10&alice_taken=4&bob_wins=1&bob_given=4&bob_taken=10")
        .unwrap();
    assert_eq!(g.len(), 2);
    assert_eq!(record(&g, "alice"), (3, 10, 4));
    assert_eq!(record(&g, "bob"), (1, 4, 10));
    assert!(g.get("carol").is_none());
}

#[test]
fn duplicate_key_last_wins() {
    let g = build("alice_wins=1&alice_wins=2&alice_given=0&alice_taken=0").unwrap();
    assert_eq!(g.len(), 1);
    assert_eq!(record(&g, "alice"), (2, 0, 0));
}

#[test]
fn value_out_of_range() {
    let r = build("alice_wins=256&alice_given=0&alice_taken=0");
    assert_eq!(r.unwrap_err(), Error::InvalidInput);
    let g = build("alice_wins=255&alice_given=0&alice_taken=0").unwrap();
    assert_eq!(record(&g, "alice"), (255, 0, 0));
}

#[test]
fn partial_data_fails() {
    let r = build("alice_wins=3&alice_given=10&alice_taken=4&bob_wins=1&bob_given=4");
    assert_eq!(r.unwrap_err(), Error::InvalidInput);
}

#[test]
fn size_ceiling() {
    let valid = "alice_wins=3&alice_given=10&alice_taken=4";
    let mut body = String::from(valid);
    body.push('&');
    while body.len() < 1025 {
        body.push('x');
    }
    assert_eq!(body.len(), 1025);
    assert_eq!(Group::from_data(&body, 1024).unwrap_err(), Error::TooLarge);
    // a valid body over the ceiling is still too large
    assert_eq!(Group::from_data(valid, valid.len() - 1).unwrap_err(), Error::TooLarge);
    assert!(Group::from_data(valid, valid.len()).is_ok());
}

#[test]
fn body_at_the_ceiling_is_read() {
    let mut body = String::from("alice_wins=3&alice_given=10&alice_taken=");
    while body.len() < 1024 {
        body.push('0');
    }
    let g = Group::from_data(&body, 1024).unwrap();
    assert_eq!(record(&g, "alice"), (3, 10, 0));
}

#[test]
fn round_trip_through_form_data() {
    let g = build("bob_taken=10&alice_wins=3&bob_wins=1&alice_given=10&alice_taken=4&bob_given=4")
        .unwrap();
    let mut items: Vec<String> = Vec::new();
    for r in g.results.iter().rev() {
        items.push(format!("{}_taken={}", r.name, r.taken));
        items.push(format!("{}_wins={}", r.name, r.wins));
        items.push(format!("{}_given={}", r.name, r.given));
    }
    let again = build(&items.join("&")).unwrap();
    assert_eq!(again.len(), g.len());
    for r in g.results.iter() {
        assert_eq!(record(&again, &r.name), (r.wins, r.given, r.taken));
    }
}

#[test]
fn every_name_has_one_complete_record() {
    let g = build("a_wins=1&b_wins=2&a_given=3&b_given=4&a_taken=5&b_taken=6&a_wins=7").unwrap();
    assert_eq!(g.len(), 2);
    let mut names: Vec<&str> = g.results.iter().map(|r| r.name.as_str()).collect();
    names.sort();
    assert_eq!(names, vec!["a", "b"]);
    assert_eq!(record(&g, "a"), (7, 3, 5));
    assert_eq!(record(&g, "b"), (2, 4, 6));
}

#[test]
fn empty_body_is_an_empty_group() {
    let g = build("").unwrap();
    assert_eq!(g.len(), 0);
}

#[test]
fn malformed_items_are_invalid() {
    for body in [
        "&",
        "alice_wins",
        "alice_wins=",
        "alice_wins=1=2&alice_given=0&alice_taken=0",
        "alice_wins=+1&alice_given=0&alice_taken=0",
        "alice_wins=-1&alice_given=0&alice_taken=0",
        "alice_wins=1x&alice_given=0&alice_taken=0",
        "alice_wins=1&alice_given=0&alice_taken=0&",
        "alice_wins=1000&alice_given=0&alice_taken=0",
    ] {
        assert_eq!(build(body).unwrap_err(), Error::InvalidInput, "{}", body);
    }
}

#[test]
fn keys_without_a_name_are_invalid() {
    assert_eq!(
        build("alice=1&alice_wins=1&alice_given=0&alice_taken=0").unwrap_err(),
        Error::InvalidInput
    );
    assert_eq!(build("_wins=1&_given=0&_taken=0").unwrap_err(), Error::InvalidInput);
}

#[test]
fn name_ends_at_first_underscore() {
    // `jean_paul_wins` belongs to `jean`, who has no `jean_wins`
    assert_eq!(
        build("jean_paul_wins=1&jean_paul_given=0&jean_paul_taken=0").unwrap_err(),
        Error::InvalidInput
    );
    let g = build("jean_wins=1&jean_given=2&jean_taken=3&jean_extra=9").unwrap();
    assert_eq!(record(&g, "jean"), (1, 2, 3));
}

#[test]
fn leading_zeros_are_accepted() {
    let g = build("alice_wins=007&alice_given=0000000000255&alice_taken=0").unwrap();
    assert_eq!(record(&g, "alice"), (7, 255, 0));
}

#[test]
fn names_may_be_non_ascii() {
    let g = build("zoë_wins=1&zoë_given=2&zoë_taken=3").unwrap();
    assert_eq!(record(&g, "zoë"), (1, 2, 3));
}

#[test]
fn round_trip_items_in_any_order() {
    let g = build("alice_wins=3&alice_given=10&alice_taken=4&bob_wins=1&bob_given=4&bob_taken=10")
        .unwrap();
    let mut items: Vec<String> = Vec::new();
    for r in g.results.iter() {
        items.push(format!("{}_wins={}", r.name, r.wins));
        items.push(format!("{}_given={}", r.name, r.given));
        items.push(format!("{}_taken={}", r.name, r.taken));
    }
    // interleave the fencers' items, reverse them, and list one twice
    items.sort_by(|a, b| b.split('_').nth(1).cmp(&a.split('_').nth(1)).then(a.cmp(b)));
    items.reverse();
    let repeated = items[0].clone();
    items.push(repeated);
    let again = build(&items.join("&")).unwrap();
    assert_eq!(again.len(), 2);
    assert_eq!(record(&again, "alice"), (3, 10, 4));
    assert_eq!(record(&again, "bob"), (1, 4, 10));
}

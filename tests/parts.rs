use fencing_group::{
    chars_of, check_all_entries, data_into_hashmap, fencer_names, index, parse_value, split_chars,
    string_of, Error, GroupFencerResult,
};

fn chars(s: &str) -> Vec<char> {
    s.chars().collect()
}

#[test]
fn parse_value_exact() {
    assert_eq!(parse_value(&chars("0")), Some(0));
    assert_eq!(parse_value(&chars("42")), Some(42));
    assert_eq!(parse_value(&chars("255")), Some(255));
    assert_eq!(parse_value(&chars("256")), None);
    assert_eq!(parse_value(&chars("")), None);
    assert_eq!(parse_value(&chars("4a")), None);
    assert_eq!(parse_value(&chars("99999999999999999999")), None);
}

#[test]
fn split_like_str_split() {
    for (s, d) in [("a&b&&c", '&'), ("", '&'), ("&", '&'), ("abc", '='), ("k=v=w", '=')] {
        let got: Vec<String> = split_chars(&chars(s), d).iter().map(|p| string_of(p)).collect();
        let want: Vec<String> = s.split(d).map(|p| p.to_string()).collect();
        assert_eq!(got, want);
    }
}

#[test]
fn chars_and_string_round_trip() {
    assert_eq!(chars_of("zoë_wins"), vec!['z', 'o', 'ë', '_', 'w', 'i', 'n', 's']);
    assert_eq!(string_of(&chars_of("zoë_wins")), "zoë_wins");
}

#[test]
fn decoded_pairs_keep_order_and_lookup_takes_last() {
    let m = data_into_hashmap("a_wins=1&b_wins=2&a_wins=3").unwrap();
    assert_eq!(m.pairs.len(), 3);
    assert_eq!(string_of(&m.pairs[1].0), "b_wins");
    assert_eq!(m.get(&chars("a_wins")), Some(3));
    assert_eq!(m.get(&chars("b_wins")), Some(2));
    assert_eq!(m.get(&chars("c_wins")), None);
    assert!(m.contains_key(&chars("b_wins")));
    assert_eq!(data_into_hashmap("a_wins").unwrap_err(), Error::InvalidInput);
    assert_eq!(data_into_hashmap("").unwrap().pairs.len(), 0);
}

#[test]
fn fencer_names_once_each_in_order() {
    let m = data_into_hashmap("b_wins=1&a_wins=2&b_given=3").unwrap();
    let names: Vec<String> = fencer_names(&m).unwrap().iter().map(|n| string_of(n)).collect();
    assert_eq!(names, vec!["b", "a"]);
    let bad = data_into_hashmap("b_wins=1&a=2").unwrap();
    assert_eq!(fencer_names(&bad).unwrap_err(), Error::InvalidInput);
}

#[test]
fn check_all_entries_needs_every_key() {
    let m = data_into_hashmap("a_x=1&a_y=2&b_x=3").unwrap();
    let exts = vec![chars("_x"), chars("_y")];
    assert!(check_all_entries(&m, &[chars("a")], &exts).is_ok());
    assert_eq!(
        check_all_entries(&m, &[chars("a"), chars("b")], &exts).unwrap_err(),
        Error::InvalidInput
    );
    assert!(check_all_entries(&m, &[], &exts).is_ok());
}

#[test]
fn from_hashmap_reads_three_fields() {
    let m = data_into_hashmap("al_taken=9&al_wins=7&al_given=8").unwrap();
    let r = GroupFencerResult::from_hashmap(&chars("al"), &m);
    assert_eq!((r.name.as_str(), r.wins, r.given, r.taken), ("al", 7, 8, 9));
}

#[test]
fn form_entry_exact() {
    let r = GroupFencerResult { name: "Ann".to_string(), wins: 5, given: 120, taken: 0 };
    assert_eq!(
        r.to_form_entry(),
        "<div>\n<lable>Ann:</lable>\n<input name=\"Ann_wins\" value=\"5\">\n\
         <input name=\"Ann_given\" value=\"120\">\n<input name=\"Ann_taken\" value=\"0\">\n</div>\n"
    );
}

#[test]
fn index_page_exact() {
    assert_eq!(
        index(),
        "<form action=\"/data_in\" method=\"post\"><div>\n<lable>Johann:</lable>\n\
         <input name=\"Johann_wins\" value=\"0\">\n<input name=\"Johann_given\" value=\"0\">\n\
         <input name=\"Johann_taken\" value=\"0\">\n</div>\n\
         <input type=\"submit\" value=\"Submit\"></form>"
    );
}

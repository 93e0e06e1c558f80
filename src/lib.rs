//! Decoding of a fencing pool's form submission into per-fencer results.
//!
//! A submission is text of `&`-separated `key=value` items. Each key is a
//! fencer's name followed by `_wins`, `_given` or `_taken`, and each value a
//! decimal number in `0..=255`. A submission is accepted only when every fencer
//! it names has all three fields; the result is a [`Group`] with one
//! [`GroupFencerResult`] per fencer.

mod decode;
mod form;
mod group;
mod roundtrip;
mod text;

pub use decode::{
    chars_eq, data_into_hashmap, decode, pair_views, pairs_map, parse_item, parse_u8, parse_value,
    Error, FieldMap,
};
pub use form::{decimal, form_entry, form_page, index, push_decimal};
pub use group::{
    check_all_entries, complete, first_occurrences, key_names, concat_chars, fencer_names, group_of, group_spec, keys_named,
    lemma_group_complete, name_of, names, record_of, Group, GroupFencerResult, DEFAULT_LIMIT,
};
pub use roundtrip::{field, field_item, free_of, is_group_item, join, lemma_round_trip, suffix};
pub use text::{chars_of, split, split_chars, string_of, views};

//! Ratings, session summaries, scheduler conversion, byte packing and
//! study bookkeeping.

use flashbang::cards::Rating;
use flashbang::fuzzy::FuzzyStatus;
use flashbang::errors::LoadError;
use flashbang::storage::{hex_decode, hex_encode, pack_bytes, unpack_bytes};
use flashbang::studies::{StudyState, StudyStore};
use flashbang::tracking::{item_from_reviews, CardReview, Session};

fn v(s: &str) -> Vec<u8> {
    s.as_bytes().to_vec()
}

#[test]
fn rating_names_and_scores() {
    assert_eq!(Rating::Again.str(), "Again");
    assert_eq!(Rating::Hard.str(), "Hard");
    assert_eq!(Rating::Good.str(), "Good");
    assert_eq!(Rating::Easy.str(), "Easy");
    assert_eq!(Rating::Again.score(), 0);
    assert_eq!(Rating::Hard.score(), 1);
    assert_eq!(Rating::Good.score(), 2);
    assert_eq!(Rating::Easy.score(), 3);
}

#[test]
fn session_score_is_a_percentage_of_the_four_point_scale() {
    let ratings = vec![Rating::Good, Rating::Easy];
    let s = Session::from_answers(1000, &ratings);
    assert_eq!(s.timestamp, 1000);
    assert_eq!(s.size, 2);
    // (2 + 3) * 100 / 4 / 2
    assert_eq!(s.score, 62);
}

#[test]
fn review_history_converts_to_day_deltas() {
    let day = 24 * 60 * 60;
    let reviews = vec![
        CardReview { timestamp: 1000, rating: Rating::Again },
        CardReview { timestamp: 1000 + 3 * day, rating: Rating::Good },
        CardReview { timestamp: 1000 + 10 * day, rating: Rating::Easy },
    ];
    let item = item_from_reviews(&reviews);
    assert_eq!(item.0.len(), 3);
    assert_eq!(item.0[0].rating, 1);
    assert_eq!(item.0[0].delta_t, 0);
    assert_eq!(item.0[1].rating, 3);
    assert_eq!(item.0[1].delta_t, 3);
    assert_eq!(item.0[2].rating, 4);
    assert_eq!(item.0[2].delta_t, 7);
}

#[test]
fn hex_encoding_is_exact_and_decodes_back() {
    let data = vec![0x0fu8, 0xa0, 0x00, 0xff];
    let text = hex_encode(&data);
    assert_eq!(text, v("0fa000ff"));
    assert_eq!(hex_decode(&text), Some(data));
}

#[test]
fn hex_decoding_accepts_uppercase_and_rejects_junk() {
    assert_eq!(hex_decode(&v("0FA0")), Some(vec![0x0f, 0xa0]));
    assert_eq!(hex_decode(&v("0g")), None);
    assert_eq!(hex_decode(&v("abc")), None);
    assert_eq!(hex_decode(&v("")), Some(Vec::new()));
}

#[test]
fn packed_bytes_round_trip_through_the_codec() {
    let data = v("some persisted state, long enough to actually compress compress compress");
    let packed = pack_bytes(&data).expect("compression must succeed");
    for b in &packed {
        assert!(b.is_ascii_hexdigit());
    }
    let unpacked = unpack_bytes(&packed).expect("unpack must succeed");
    assert_eq!(unpacked, data);
}

#[test]
fn load_error_message_names_the_file() {
    let with_path = LoadError::new("boom".to_string(), "dir/file.typ".to_string());
    assert_eq!(with_path.message(), "Error loading typst file: boom (at dir/file.typ)");
    let without = LoadError::new("boom".to_string(), "".to_string());
    assert_eq!(without.message(), "Error loading typst file: boom");
}

#[test]
fn study_store_hands_out_sequential_ids() {
    let mut store = StudyStore::new();
    assert!(store.last_id().is_none());
    store.set_last_id(1);
    assert_eq!(store.last_id(), Some(1));
    let s1 = store.new_study("first".to_string(), Vec::new(), 111);
    let s2 = store.new_study("second".to_string(), Vec::new(), 222);
    assert_eq!(store.studies()[s1].id, 1);
    assert_eq!(store.studies()[s2].id, 2);
    assert_eq!(store.last_id(), Some(3));
}

#[test]
fn loading_a_known_study_keeps_its_immutable_fields() {
    let mut store = StudyStore::new();
    let slot = store.load_study(
        7,
        1234,
        Vec::new(),
        StudyState { name: "original".to_string(), ratings: Vec::new(), finished: false },
    );
    assert_eq!(store.studies()[slot].timestamp, 1234);
    let again = store.load_study(
        7,
        9999,
        Vec::new(),
        StudyState { name: "replaced".to_string(), ratings: Vec::new(), finished: true },
    );
    assert_eq!(store.studies()[again].timestamp, 1234);
    assert_eq!(store.studies()[again].state.name, "replaced");
    assert!(store.studies()[again].state.finished);
    assert_eq!(store.studies().len(), 1);
}

#[test]
fn deleting_a_study_removes_only_that_study() {
    let mut store = StudyStore::new();
    store.set_last_id(1);
    store.new_study("a".to_string(), Vec::new(), 1);
    store.new_study("b".to_string(), Vec::new(), 2);
    let removed = store.delete_study(1).expect("study one exists");
    assert_eq!(removed.id, 1);
    assert!(store.delete_study(1).is_none());
    assert_eq!(store.studies().len(), 1);
    assert_eq!(store.studies()[0].id, 2);
}

#[test]
fn study_ratings_overwrite_per_card() {
    let state = StudyState { name: "s".to_string(), ratings: Vec::new(), finished: false };
    let mut study = flashbang::studies::Study::new(1, 1, Vec::new(), state);
    study.update(Rating::Hard, v("card-1"));
    study.update(Rating::Easy, v("card-1"));
    study.update(Rating::Good, v("card-2"));
    assert_eq!(study.state.ratings.len(), 2);
    let r1 = study.state.ratings.iter().find(|(id, _)| id == &v("card-1")).unwrap();
    assert!(matches!(r1.1, Rating::Easy));
    study.rename("renamed".to_string());
    assert_eq!(study.state.name, "renamed");
    study.finalize();
    assert!(study.state.finished);
}

#[test]
fn fuzzy_status_classifies_matcher_ticks() {
    assert_eq!(FuzzyStatus::from_flags(false, false), FuzzyStatus::Finished);
    assert_eq!(FuzzyStatus::from_flags(false, true), FuzzyStatus::Finished);
    assert_eq!(FuzzyStatus::from_flags(true, true), FuzzyStatus::Updated);
    assert_eq!(FuzzyStatus::from_flags(true, false), FuzzyStatus::Stale);
}

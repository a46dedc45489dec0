use textcat::category::{Categories, Category};
use textcat::ngram::Ngrams;

/// The ranked profile of the sample text "ab" is, in order:
/// "b", "ab", "a", "_ab", "_a" (all counts 1, descending text tie-break).
fn ab_profile_texts() -> Vec<String> {
    vec![
        "b".to_string(),
        "ab".to_string(),
        "a".to_string(),
        "_ab".to_string(),
        "_a".to_string(),
    ]
}

#[test]
fn unknown_on_empty_store() {
    let store: Categories = Categories::new();
    assert_eq!(None, store.get_category("anything at all"));
    assert_eq!(None, store.get_categories("anything at all"));
    assert!(store.categories().is_empty());
}

#[test]
fn ambiguity_two_equal_distances_yield_none() {
    // Both categories hold exactly the sample's ranked n-grams, so both are
    // at distance 0+1+2+3+4 = 10 and too close to call at threshold 0.03.
    let store = Categories::from_parts(
        "1.0.0".to_string(),
        vec![
            ("x".to_string(), ab_profile_texts()),
            ("y".to_string(), ab_profile_texts()),
        ],
    );
    let candidates = store.get_categories("ab").expect("store is not empty");
    assert_eq!(
        vec![("x".to_string(), 10), ("y".to_string(), 10)],
        candidates
    );
    assert_eq!(None, store.get_category("ab"));
}

#[test]
fn clear_winner_is_returned() {
    // "x" is at distance 10; "y" ranks the sample's n-grams at positions
    // 6, 7, 8, 9 and 20, so it is at distance 50 and falls out of the band.
    let mut far: Vec<String> = (0..6).map(|i| format!("f{}", i)).collect();
    far.extend(["b", "ab", "a", "_ab"].iter().map(|s| s.to_string()));
    far.extend((6..16).map(|i| format!("f{}", i)));
    far.push("_a".to_string());

    let store = Categories::from_parts(
        "1.0.0".to_string(),
        vec![("x".to_string(), ab_profile_texts()), ("y".to_string(), far)],
    );
    let candidates = store.get_categories("ab").expect("store is not empty");
    assert_eq!(vec![("x".to_string(), 10)], candidates);
    assert_eq!(Some("x".to_string()), store.get_category("ab"));
}

#[test]
fn end_to_end_two_languages() {
    let mut store = Categories::new();
    store.add_category("english".to_string(), "the quick brown fox");
    store.add_category("spanish".to_string(), "el rapido zorro marron");

    assert_eq!(
        vec!["english".to_string(), "spanish".to_string()],
        store.categories()
    );
    assert_eq!(Some("english".to_string()), store.get_category("the lazy dog"));
}

#[test]
fn equal_distance_candidates_keep_training_order() {
    let store = Categories::from_parts(
        "1.0.0".to_string(),
        vec![
            ("second".to_string(), ab_profile_texts()),
            ("first".to_string(), ab_profile_texts()),
        ],
    );
    let candidates = store.get_categories("ab").expect("store is not empty");
    assert_eq!(
        vec![("second".to_string(), 10), ("first".to_string(), 10)],
        candidates
    );
}

#[test]
fn set_threshold_rejects_values_outside_the_unit_interval() {
    let mut store = Categories::new();
    assert!(store.set_threshold(0).is_err());
    assert!(store.set_threshold(1000).is_err());
    assert!(store.set_threshold(1500).is_err());
    assert!(store.set_threshold(1).is_ok());
    assert!(store.set_threshold(999).is_ok());
    assert!(store.set_threshold(30).is_ok());
}

#[test]
fn wider_threshold_widens_the_band() {
    // Distances are 10 and 11; at 3% the band around 10 excludes 11, at
    // 99% it includes it.
    let mut close = ab_profile_texts();
    close.insert(1, "zz".to_string());  // shifts ranks of later entries by 1

    let mut store = Categories::from_parts(
        "1.0.0".to_string(),
        vec![
            ("x".to_string(), ab_profile_texts()),
            ("y".to_string(), close),
        ],
    );
    assert_eq!(Some("x".to_string()), store.get_category("ab"));

    store.set_threshold(999).expect("valid threshold");
    assert_eq!(None, store.get_category("ab"));
    let candidates = store.get_categories("ab").expect("store is not empty");
    assert_eq!(
        vec![("x".to_string(), 10), ("y".to_string(), 14)],
        candidates
    );
}

#[test]
fn persistable_parts_round_trip() {
    let mut store = Categories::new();
    store.add_category("english".to_string(), "the quick brown fox");
    store.add_category("spanish".to_string(), "el rapido zorro marron");
    assert_eq!("1.0.0", store.version());

    let parts = store.to_persistable();
    assert_eq!(2, parts.len());
    assert_eq!("english", parts[0].0);
    assert_eq!("spanish", parts[1].0);

    let reloaded = Categories::from_parts(store.version().to_string(), parts);
    assert_eq!(
        vec!["english".to_string(), "spanish".to_string()],
        reloaded.categories()
    );
    assert_eq!(
        Some("english".to_string()),
        reloaded.get_category("the lazy dog")
    );
}

#[test]
fn to_vec_exports_full_ranked_lists() {
    let mut store = Categories::new();
    store.add_category("x".to_string(), "ab");
    let exported = store.to_vec();
    assert_eq!(1, exported.len());
    assert_eq!("x", exported[0].0);
    assert_eq!(ab_profile_texts(), exported[0].1);
}

#[test]
fn category_distance_matches_profile_distance() {
    let category = Category::new("x".to_string(), "ab");
    assert_eq!(ab_profile_texts(), category.to_vec());

    let sample = Ngrams::new("ab", 5);
    assert_eq!(10, category.distance(&sample));

    let other = Ngrams::new("cd", 5);
    assert_eq!(5000 * 5, category.distance(&other));
}

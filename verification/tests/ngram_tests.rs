use textcat::ngram::Ngrams;

#[test]
fn length() {
    let ngrams = Ngrams::new(
        &"hi there, this is a test. Something else needs to be done."
            .to_string(),
        5,
    );

    assert_eq!(160, ngrams.len());
}

#[test]
fn get_count() {
    let ngrams = Ngrams::new(
        &"hi there, this is a test. Something else needs to be done."
            .to_string(),
        5,
    );
    assert_eq!(10, ngrams.get_by_position(0).expect("first ngram").score());
    assert_eq!(
        2,
        ngrams.ngram(&"is".to_string()).expect("find ngram").score()
    );
    assert_eq!(
        1,
        ngrams
            .ngram(&"this".to_string())
            .expect("find ngram")
            .score()
    );
}

#[test]
fn get_by_position() {
    let ngrams = Ngrams::new(
        &"hi there, this is a test. Something else needs to be done."
            .to_string(),
        5,
    );
    assert_eq!(
        "e",
        ngrams
            .get_by_position(0)
            .expect("find ngram by position")
            .ngram()
    );
}

#[test]
fn search() {
    let ngrams = Ngrams::new(
        &"hi there, this is a test. Something else needs to be done."
            .to_string(),
        5,
    );
    assert_eq!(true, ngrams.ngram(&"notf".to_string()).is_none());
    assert_eq!(true, ngrams.ngram(&"this".to_string()).is_some());
    assert_eq!(Some(5), ngrams.position(&"_t".to_string()))
}

#[test]
fn tie_break_prefers_lexicographically_larger_text() {
    // With a maximum length of 2 only 1-grams are extracted; "a" and "b"
    // are tied on count, and "b" must be ranked first.
    let ngrams = Ngrams::new("aa bb", 2);
    assert_eq!(Some(0), ngrams.position("b"));
    assert_eq!(Some(1), ngrams.position("a"));

    // With 2-grams included, all 2-grams are tied on count and "bb" must be
    // ranked before "aa".
    let ngrams = Ngrams::new("aa bb", 3);
    let bb = ngrams.position("bb").expect("bb must be ranked");
    let aa = ngrams.position("aa").expect("aa must be ranked");
    assert!(bb < aa);
    assert_eq!(Some(2), ngrams.position("bb"));
    assert_eq!(Some(3), ngrams.position("aa"));
}

#[test]
fn self_distance_is_triangular() {
    let ngrams = Ngrams::new(
        "hi there, this is a test. Something else needs to be done.",
        5,
    );
    let n = ngrams.len() as u64;
    assert_eq!(n * (n - 1) / 2, ngrams.distance(&ngrams));
}

#[test]
fn disjoint_profiles_pay_the_full_penalty() {
    let a = Ngrams::new("ab", 5);
    let b = Ngrams::new("cd", 5);
    assert!(a.len() > 0);
    assert_eq!(5000 * (a.len() as u64), a.distance(&b));
}

#[test]
fn lower_casing_feeds_the_profile() {
    let ngrams = Ngrams::new("AB", 3);
    assert!(ngrams.position("ab").is_some());
    assert!(ngrams.position("AB").is_none());
    assert!(ngrams.position("A").is_none());
}

#[test]
fn word_splitting_feeds_the_profile() {
    // "a b" normalizes to "_a_b": each word gets a separator prefix and no
    // space survives into the n-grams.
    let grams = Ngrams::split("a b", 2, 3);
    assert_eq!(vec!["_a", "a_", "_b"], grams);
}

#[test]
fn numeric_unigrams_are_skipped() {
    let ngrams = Ngrams::new("a1", 2);
    assert_eq!(Some(0), ngrams.position("a"));
    assert!(ngrams.position("1").is_none());
    assert!(ngrams.position("_").is_none());
}

#[test]
fn split_groups_by_length() {
    let groups = Ngrams::split_and_group_by_ngrams("ab", 1, 4);
    // normalized: "_ab"
    assert_eq!(3, groups.len());
    assert_eq!(vec!["a", "b"], groups[0]);
    assert_eq!(vec!["_a", "ab"], groups[1]);
    assert_eq!(vec!["_ab"], groups[2]);
}

#[test]
fn parse_text_counts_occurrences() {
    let counted = Ngrams::parse_text("aa aa", 2);
    // normalized: "_aa_aa"; 1-grams keep only the letters.
    assert_eq!(1, counted.len());
    assert_eq!("a", counted[0].ngram());
    assert_eq!(4, counted[0].score());
}

#[test]
fn truncation_round_trip_keeps_top_entries() {
    // A text with several hundred distinct words yields more than 400
    // distinct n-grams.
    let mut text = String::new();
    for a in b'a'..=b'z' {
        for b in b'a'..=b'z' {
            text.push(a as char);
            text.push(b as char);
            text.push(a as char);
            text.push(' ');
        }
    }
    let ngrams = Ngrams::new(&text, 5);
    assert!(ngrams.len() > 400);

    let persisted = ngrams.persisted_texts();
    assert_eq!(400, persisted.len());

    let full = ngrams.owned_texts();
    assert_eq!(&full[..400], &persisted[..]);

    let reloaded = Ngrams::from_ranked_texts(persisted.clone());
    assert_eq!(400, reloaded.len());
    for (rank, text) in persisted.iter().enumerate() {
        assert_eq!(Some(rank), reloaded.position(text));
        assert_eq!(
            text,
            reloaded.get_by_position(rank).expect("rank exists").ngram()
        );
        assert_eq!(0, reloaded.get_by_position(rank).expect("rank exists").score());
    }
}

#[test]
fn to_vec_lists_ranked_texts() {
    let ngrams = Ngrams::new("aa bb", 2);
    assert_eq!(vec!["b", "a"], ngrams.to_vec());
}

use text_classifier::model::ClassifyError;
use text_classifier::model::NaiveBayes;

fn trained_sentiment_model() -> NaiveBayes {
    let mut c = NaiveBayes::new();
    c.train("I love this product", "positive");
    c.train("This is great", "positive");
    c.train("Awesome experience", "positive");
    c.train("Terrible service", "negative");
    c.train("Disappointed with the quality", "negative");
    c.train("Waste of money", "negative");
    c
}

#[test]
fn scenario_positive_query() {
    let c = trained_sentiment_model();
    assert_eq!(c.classify("This is amazing").unwrap(), "positive");
}

#[test]
fn scenario_disjoint_query_prior_tie() {
    // No query stem overlaps either class; priors are 3 of 6 each and both
    // classes hold nine word tokens, so the scores tie exactly and the tie
    // goes to the earlier-trained label.
    let c = trained_sentiment_model();
    assert_eq!(c.classify("Worst purchase ever").unwrap(), "positive");
}

#[test]
fn repeated_classify_is_stable() {
    let c = trained_sentiment_model();
    let first = c.classify("This is amazing").unwrap();
    let second = c.classify("This is amazing").unwrap();
    assert_eq!(first, second);
    let again = trained_sentiment_model();
    assert_eq!(again.classify("This is amazing").unwrap(), first);
}

#[test]
fn empty_text_uses_priors() {
    let mut c = NaiveBayes::new();
    c.train("a", "x");
    c.train("b", "y");
    c.train("c", "y");
    assert_eq!(c.classify("").unwrap(), "y");
}

#[test]
fn untrained_model_errors() {
    let c = NaiveBayes::new();
    assert_eq!(c.classify("anything").unwrap_err(), ClassifyError::Untrained);
}

#[test]
fn degenerate_smoothing_errors() {
    let mut c = NaiveBayes::new();
    c.train("", "only");
    assert_eq!(c.classify("word").unwrap_err(), ClassifyError::DegenerateSmoothing);
    assert_eq!(c.classify("").unwrap(), "only");
}

#[test]
fn stemming_links_inflected_forms() {
    // "runs" and "running" share the stem "run"; were words left unstemmed
    // the query would match neither class and the tie would fall to the
    // earlier-trained label "calm".
    let mut c = NaiveBayes::new();
    c.train("jogging", "calm");
    c.train("running", "sport");
    assert_eq!(c.classify("runs").unwrap(), "sport");
}

#[test]
fn whitespace_splits_tokens() {
    // "a a a" must count as three tokens of "a"; were it one token the query
    // would match nothing and the tie would fall to "first".
    let mut c = NaiveBayes::new();
    c.train("b", "first");
    c.train("a a a", "second");
    assert_eq!(c.classify("a").unwrap(), "second");
}

#[test]
fn tabs_and_newlines_split_tokens() {
    let mut c = NaiveBayes::new();
    c.train("b", "first");
    c.train("a\ta\na", "second");
    assert_eq!(c.classify("a").unwrap(), "second");
}

#[test]
fn repeated_label_accumulates() {
    // Two documents under "p" give it the larger prior, so the empty query
    // picks it over the earlier-trained "n".
    let mut c = NaiveBayes::new();
    c.train("", "n");
    c.train("", "p");
    c.train("", "p");
    assert_eq!(c.classify("").unwrap(), "p");
}

#[test]
fn seen_word_outweighs_prior_tie() {
    let mut c = NaiveBayes::new();
    c.train("red blue", "c1");
    c.train("blue", "c2");
    // count(blue, c1) = 1 of 2 tokens, count(blue, c2) = 1 of 1; with the
    // vocabulary {red, blue} the scores are 2/4 and 2/3: "c2" wins.
    assert_eq!(c.classify("blue").unwrap(), "c2");
}

#[test]
fn classify_words_scores_given_words() {
    let mut c = NaiveBayes::new();
    c.train("red blue", "c1");
    c.train("blue", "c2");
    let words = vec!["blue".to_string()];
    assert_eq!(c.classify_words(&words).unwrap(), "c2");
}

#[test]
fn classify_words_untrained_errors() {
    let c = NaiveBayes::new();
    let words = vec!["anything".to_string()];
    assert_eq!(c.classify_words(&words).unwrap_err(), ClassifyError::Untrained);
}

//! Porter stemming.

use cendb::search::stemmer::{stem, stem_owned, stem_text};

#[test]
fn stem_plurals() {
    assert_eq!(stem("cats"), "cat");
    assert_eq!(stem("ponies"), "poni");
    assert_eq!(stem("caresses"), "caress");
    assert_eq!(stem("cat"), "cat");
    assert_eq!(stem("dogs"), "dog");
}

#[test]
fn stem_past_tense_and_progressive() {
    assert_eq!(stem("running"), "run");
    assert_eq!(stem("hopping"), "hop");
    assert_eq!(stem("plastered"), "plaster");
    assert_eq!(stem("motoring"), "motor");
    assert_eq!(stem("agreed"), "agre");
    assert_eq!(stem("feed"), "feed");
    assert_eq!(stem("bled"), "bled");
    assert_eq!(stem("sing"), "sing");
}

#[test]
fn stem_y_to_i() {
    assert_eq!(stem("happily"), "happili");
    assert_eq!(stem("sky"), "sky");
}

#[test]
fn step2_transformations() {
    assert_eq!(stem("relational"), "relat");
    assert_eq!(stem("conditional"), "condit");
    assert_eq!(stem("rational"), "ration");
    assert_eq!(stem("valenci"), "valenc");
    assert_eq!(stem("digitizer"), "digit");
    assert_eq!(stem("conformabli"), "conform");
    assert_eq!(stem("radicalli"), "radic");
    assert_eq!(stem("differentli"), "differ");
    assert_eq!(stem("vileli"), "vile");
    assert_eq!(stem("analogousli"), "analog");
    assert_eq!(stem("vietnamization"), "vietnam");
    assert_eq!(stem("predication"), "predic");
    assert_eq!(stem("operator"), "oper");
    assert_eq!(stem("feudalism"), "feudal");
    assert_eq!(stem("decisiveness"), "decis");
    assert_eq!(stem("hopefulness"), "hope");
    assert_eq!(stem("callousness"), "callous");
    assert_eq!(stem("formaliti"), "formal");
    assert_eq!(stem("sensitiviti"), "sensit");
    assert_eq!(stem("sensibiliti"), "sensibl");
}

#[test]
fn step3_transformations() {
    assert_eq!(stem("triplicate"), "triplic");
    assert_eq!(stem("formative"), "form");
    assert_eq!(stem("formalize"), "formal");
    assert_eq!(stem("electriciti"), "electr");
    assert_eq!(stem("electrical"), "electr");
    assert_eq!(stem("hopeful"), "hope");
    assert_eq!(stem("goodness"), "good");
}

#[test]
fn step4_removals() {
    assert_eq!(stem("revival"), "reviv");
    assert_eq!(stem("allowance"), "allow");
    assert_eq!(stem("inference"), "infer");
    assert_eq!(stem("airliner"), "airlin");
    assert_eq!(stem("gyroscopic"), "gyroscop");
    assert_eq!(stem("adjustable"), "adjust");
    assert_eq!(stem("defensible"), "defens");
    assert_eq!(stem("irritant"), "irrit");
    assert_eq!(stem("replacement"), "replac");
    assert_eq!(stem("adjustment"), "adjust");
    assert_eq!(stem("dependent"), "depend");
    assert_eq!(stem("adoption"), "adopt");
    assert_eq!(stem("homologou"), "homolog");
    assert_eq!(stem("communism"), "commun");
    assert_eq!(stem("activate"), "activ");
    assert_eq!(stem("angulariti"), "angular");
    assert_eq!(stem("homologous"), "homolog");
    assert_eq!(stem("effective"), "effect");
    assert_eq!(stem("bowdlerize"), "bowdler");
}

#[test]
fn step5_trailing_e_and_l() {
    assert_eq!(stem("probate"), "probat");
    assert_eq!(stem("rate"), "rate");
    assert_eq!(stem("cease"), "ceas");
    assert_eq!(stem("controll"), "control");
    assert_eq!(stem("roll"), "roll");
}

#[test]
fn stem_short_words_unchanged() {
    assert_eq!(stem("a"), "a");
    assert_eq!(stem("is"), "is");
    assert_eq!(stem("be"), "be");
}

#[test]
fn stem_preserves_case_insensitive() {
    assert_eq!(stem("Running"), "run");
    assert_eq!(stem("CATS"), "cat");
    assert_eq!(stem("HappILY"), "happili");
}

#[test]
fn stem_text_basic() {
    let s = stem_text("The cats are running happily");
    assert!(s.contains("cat"));
    assert!(s.contains("run"));
    assert!(s.contains("happili"));
}

#[test]
fn stem_text_preserves_punctuation() {
    let s = stem_text("cats, dogs; running!");
    assert!(s.contains("cat,"));
    assert!(s.contains("dog;"));
    assert!(s.contains("run!"));
}

#[test]
fn stem_text_handles_empty() {
    assert_eq!(stem_text(""), "");
    assert_eq!(stem_text("   "), "   ");
}

#[test]
fn stem_owned_matches_stem() {
    assert_eq!(stem_owned("running"), stem("running"));
    assert_eq!(stem_owned("happily"), stem("happily"));
}

#[test]
fn stem_non_ascii_passthrough() {
    let _ = stem("café");
    let _ = stem("naïve");
}

#[test]
fn stem_known_corpus() {
    assert_eq!(stem("generalization"), "gener");
    assert_eq!(stem("osculations"), "oscul");
    assert_eq!(stem("obligations"), "oblig");
    assert_eq!(stem("dependent"), "depend");
    assert_eq!(stem("believing"), "believ");
}

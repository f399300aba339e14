use wordle::{analyse, summarise, Corpus, GuessStatus, Word, WordError};

/// The answers of the first days, and a few words to guess with.
fn opening() -> Corpus {
    let answers = [
        "cigar", "rebut", "sissy", "humph", "awake", "blush", "focal", "evade", "naval", "serve",
        "heath", "dwarf", "model", "karma", "stink", "grade", "quiet", "bench", "abate", "feign",
        "major", "death", "fresh", "crust", "stool", "colon", "abase", "marry", "react", "batty",
        "pride", "floss", "helix", "croak", "staff", "paper", "unfed", "whelp", "trawl", "outdo",
        "adobe", "crazy", "sower", "repay", "digit", "crate", "cluck", "spike", "mimic", "pound",
        "maxim", "linen", "unmet", "flesh", "booby", "forth", "first", "stand", "belly", "ivory",
        "seedy", "print", "yearn", "drain", "bribe", "stout", "panel", "crass", "flume", "offal",
        "agree", "error", "swirl", "argue", "bleed", "delta", "flick", "totem", "wooer", "front",
        "shrub", "parry", "biome", "lapel", "start", "greet", "goner", "golem", "lusty", "loopy",
        "round", "audit", "lying", "gamma", "labor", "islet", "civic", "forge", "corny", "moult",
        "basic", "salad", "agate", "spicy", "spray", "essay", "fjord", "spend", "kebab", "guild",
        "aback", "motor", "alone", "hatch", "hyper", "thumb", "dowry", "ought", "belch", "dutch",
        "pilot", "tweed", "comet", "jaunt", "enema", "steed", "abyss", "growl", "fling", "dozen",
        "boozy", "erode", "world", "gouge", "click", "briar", "great", "altar", "pulpy", "blurt",
        "coast", "duchy", "groin", "fixer", "group", "rogue", "badly", "smart", "pithy", "gaudy",
        "chill", "heron", "vodka", "finer", "surer", "radio", "rouge", "perch", "retch", "wrote",
        "clock", "tilde", "store", "prove", "bring", "solve", "cheat", "grime", "exult", "usher",
        "epoch", "triad", "break", "rhino", "viral", "conic", "masse", "sonic", "vital", "trace",
        "using", "peach", "champ", "baton", "brake", "pluck", "craze", "gripe", "weary", "picky",
        "acute", "ferry", "aside", "tapir", "troll", "unify", "rebus", "boost", "truss", "siege",
        "tiger", "banal", "slump", "crank", "gorge", "query", "drink", "favor", "abbey", "tangy",
        "panic", "solar", "shire", "proxy", "point", "robot", "prick", "wince", "crimp", "knoll",
        "sugar", "whack", "mount", "perky", "could", "wrung", "light", "those", "moist", "shard",
        "pleat", "aloft", "skill",
    ];
    Corpus::new(&answers, &["label", "aahed", "zymic", "soare", "tares"]).unwrap()
}

fn small() -> Corpus {
    Corpus::new(&["cigar", "rebut", "sissy", "naval"], &["label", "naval", "aback"]).unwrap()
}

#[test]
fn index_of_day_works() {
    let corpus = opening();
    let those = Word::try_from("those", &corpus).unwrap();
    assert_eq!(corpus.answers.split(|w| *w == those).next().unwrap().len(), 227)
}

#[test]
fn index_into_day_works() {
    let corpus = opening();
    assert_eq!(corpus.answers[227], Word::try_from("those", &corpus).unwrap())
}

#[test]
fn answer_of_a_day() {
    let corpus = opening();
    assert_eq!(corpus.answer(0).unwrap().to_string(), "cigar");
    assert_eq!(corpus.answer(227).unwrap().to_string(), "those");
    assert_eq!(corpus.answer(232).unwrap().to_string(), "skill");
    assert!(corpus.answer(233).is_none());
    assert!(corpus.answer(usize::MAX).is_none());
}

#[test]
fn word_is_read_from_either_list() {
    let corpus = small();
    assert_eq!(Word::try_from("cigar", &corpus).unwrap().to_string(), "cigar");
    assert_eq!(Word::try_from("label", &corpus).unwrap().to_string(), "label");
    assert_eq!(Word::try_from("naval", &corpus).unwrap().letters(), *b"naval");
}

#[test]
fn word_with_a_character_that_is_no_lowercase_letter() {
    let corpus = small();
    assert!(matches!(
        Word::try_from("ciGAr", &corpus),
        Err(WordError::Chars(text, 'G')) if text == "ciGAr"
    ));
    assert!(matches!(
        Word::try_from("rebut!", &corpus),
        Err(WordError::Chars(text, '!')) if text == "rebut!"
    ));
    assert!(matches!(
        Word::try_from("na\u{ef}ve", &corpus),
        Err(WordError::Chars(text, '\u{ef}')) if text == "na\u{ef}ve"
    ));
    assert!(matches!(Word::try_from("a b", &corpus), Err(WordError::Chars(_, ' '))));
}

#[test]
fn word_of_another_length() {
    let corpus = small();
    assert!(matches!(Word::try_from("", &corpus), Err(WordError::Length(0))));
    assert!(matches!(Word::try_from("ciga", &corpus), Err(WordError::Length(4))));
    assert!(matches!(Word::try_from("cigars", &corpus), Err(WordError::Length(6))));
}

#[test]
fn word_that_neither_list_holds() {
    let corpus = small();
    assert!(matches!(
        Word::try_from("zzzzz", &corpus),
        Err(WordError::NotWord(text)) if text == "zzzzz"
    ));
    assert!(matches!(Word::try_from("skill", &corpus), Err(WordError::NotWord(_))));
}

#[test]
fn corpus_refuses_a_text_that_spells_no_word() {
    assert!(matches!(
        Corpus::new(&["cigar", "Rebut", "x"], &[]),
        Err(WordError::Chars(text, 'R')) if text == "Rebut"
    ));
    assert!(matches!(Corpus::new(&["cigar", "toolong"], &["x?"]), Err(WordError::Length(7))));
    assert!(matches!(Corpus::new(&["cigar"], &["rebut", "x?"]), Err(WordError::Chars(_, '?'))));
    assert!(matches!(Corpus::new(&[], &["four"]), Err(WordError::Length(4))));
}

#[test]
fn corpus_keeps_its_lists_in_order() {
    let corpus = small();
    let answers: Vec<String> = corpus.answers.iter().map(|w| w.to_string()).collect();
    let accepted: Vec<String> = corpus.accepted.iter().map(|w| w.to_string()).collect();
    assert_eq!(answers, ["cigar", "rebut", "sissy", "naval"]);
    assert_eq!(accepted, ["label", "naval", "aback"]);
    let empty = Corpus::new(&[], &[]).unwrap();
    assert!(empty.answers.is_empty() && empty.accepted.is_empty());
    assert!(empty.all_words().is_empty());
}

#[test]
fn corpus_contains() {
    let corpus = small();
    let other = opening();
    assert!(corpus.contains(&Word::try_from("sissy", &other).unwrap()));
    assert!(corpus.contains(&Word::try_from("label", &other).unwrap()));
    assert!(!corpus.contains(&Word::try_from("humph", &other).unwrap()));
}

#[test]
fn all_words_are_in_dictionary_order_each_once() {
    let corpus = small();
    let words: Vec<String> = corpus.all_words().iter().map(|w| w.to_string()).collect();
    assert_eq!(words, ["aback", "cigar", "label", "naval", "rebut", "sissy"]);
    let opening = opening();
    let all = opening.all_words();
    assert_eq!(all.len(), 238);
    assert!(all.windows(2).all(|pair| pair[0] < pair[1]));
    assert_eq!(all[0].to_string(), "aahed");
    assert_eq!(all[237].to_string(), "zymic");
}

#[test]
fn targets_with_and_without_the_accepted_words() {
    let corpus = small();
    let plain: Vec<String> = corpus.targets(false).iter().map(|w| w.to_string()).collect();
    let extended: Vec<String> = corpus.targets(true).iter().map(|w| w.to_string()).collect();
    assert_eq!(plain, ["cigar", "naval", "rebut", "sissy"]);
    assert_eq!(extended, ["aback", "cigar", "label", "naval", "rebut", "sissy"]);
}

#[test]
fn rank_orders_words_as_a_dictionary_does() {
    let corpus = opening();
    let words = corpus.all_words();
    for a in &words {
        for b in &words {
            assert_eq!(a.rank() < b.rank(), a.to_string() < b.to_string());
            assert_eq!(a.rank() == b.rank(), a == b);
            assert_eq!(a.same(b), a == b);
            assert_eq!(a.rank() < b.rank(), a < b);
        }
    }
    let cigar = Word::try_from("cigar", &corpus).unwrap();
    assert_eq!(cigar.rank(), 0x63_69_67_61_72);
    assert_eq!(cigar.letters(), *b"cigar");
}

#[test]
fn opening_game_replayed() {
    let corpus = opening();
    let target = corpus.answer(232).unwrap();
    let rows = analyse(
        &corpus.all_words(),
        corpus.targets(false),
        target,
        GuessStatus::try_from("-+=--").ok(),
        &["----+"],
    )
    .unwrap();
    assert_eq!(rows.len(), 2);
    let guesses: Vec<String> = rows[0].possible_guesses.iter().map(|w| w.to_string()).collect();
    assert_eq!(guesses, ["aside", "fling", "using"]);
    let sizes: Vec<usize> = rows[0].possible_targets.iter().map(|e| e.targets.len()).collect();
    assert_eq!(sizes, [5, 3, 6]);
    let guesses: Vec<String> = rows[1].possible_guesses.iter().map(|w| w.to_string()).collect();
    assert_eq!(guesses, ["aback", "break", "crank", "croak", "rebus", "tares", "whack"]);
    let sizes: Vec<usize> = rows[1].possible_targets.iter().map(|e| e.targets.len()).collect();
    assert_eq!(sizes, [1, 1, 1, 1, 4, 2, 1, 1, 1, 1, 1, 1, 1, 1, 2, 1, 2, 2, 3, 2, 2]);
    let summary = summarise(&rows[1]).unwrap();
    assert_eq!((summary.guesses, summary.fewest, summary.most), (7, 1, 4));
    let chain: Vec<String> = summary.fewest_chain.iter().map(|w| w.to_string()).collect();
    assert_eq!(chain, ["aside", "aback"]);
    let chain: Vec<String> = summary.most_chain.iter().map(|w| w.to_string()).collect();
    assert_eq!(chain, ["aside", "rebus"]);
}

#[test]
fn chains_of_a_round_are_in_order_and_none_stands_twice() {
    let corpus = opening();
    let target = corpus.answer(232).unwrap();
    let rows =
        analyse(&corpus.all_words(), corpus.targets(true), target, None, &["-+=--", "----+"])
            .unwrap();
    for (k, row) in rows.iter().enumerate() {
        assert!(row.possible_guesses.windows(2).all(|pair| pair[0] < pair[1]));
        assert!(row.possible_targets.windows(2).all(|pair| pair[0].chain < pair[1].chain));
        for entry in &row.possible_targets {
            assert_eq!(entry.chain.len(), k + 1);
            assert!(entry.targets.windows(2).all(|pair| pair[0] < pair[1]));
            assert!(entry.targets.contains(&target));
        }
    }
    assert_eq!(rows[0].possible_targets.len(), 3);
    assert_eq!(rows[1].possible_targets.len(), 21);
}

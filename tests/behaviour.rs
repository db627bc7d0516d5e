use bpe_model::builder::{vocab_from_pairs, BpeBuilder, Merges};
use bpe_model::cache::MAX_LENGTH;
use ahash::AHashMap;
use bpe_model::maps::{MergeMap, Vocab};
use bpe_model::model::{BpeError, Token, BPE};
use bpe_model::serialization::{merges_from_text, read_vocab_and_merges, split_lines, vocab_from_json};
use bpe_model::text::{byte_token_string, char_byte_len, chars_of};
use bpe_model::word::{Word, DROPOUT_ONE};

fn vocab_of(entries: &[(&str, u32)]) -> Vocab {
    entries.iter().map(|(s, i)| (s.to_string(), *i)).collect()
}

fn merges_of(pairs: &[(&str, &str)]) -> Merges {
    pairs.iter().map(|(a, b)| (a.to_string(), b.to_string())).collect()
}

fn unrelated() -> BPE {
    let vocab = vocab_of(&[
        ("u", 0), ("n", 1), ("r", 2), ("e", 3), ("l", 4), ("a", 5), ("t", 6), ("d", 7),
        ("re", 8), ("at", 9), ("ed", 10), ("un", 11), ("ated", 12), ("rel", 13),
        ("related", 14), ("unrelated", 15),
    ]);
    let merges = merges_of(&[
        ("r", "e"), ("a", "t"), ("e", "d"), ("u", "n"), ("at", "ed"), ("re", "l"),
        ("rel", "ated"), ("un", "related"),
    ]);
    BPE::new(vocab, merges)
}

fn rebuild(input: &str, tokens: &[Token]) -> Vec<u8> {
    let mut out = Vec::new();
    for t in tokens {
        out.extend_from_slice(&input.as_bytes()[t.offsets.0..t.offsets.1]);
    }
    out
}

#[test]
fn offsets_rebuild_the_input() {
    let vocab = vocab_of(&[("<unk>", 0), ("a", 1), ("b", 2), ("é", 3)]);
    let bpe = BPE::builder()
        .vocab_and_merges(vocab, vec![])
        .unk_token("<unk>".to_string())
        .build()
        .unwrap();
    let input = "aé€cb";
    let tokens = bpe.tokenize(input).unwrap();
    assert_eq!(rebuild(input, &tokens), input.as_bytes().to_vec());
    assert_eq!(tokens[0].offsets.0, 0);
    assert_eq!(tokens.last().unwrap().offsets.1, input.len());
    for w in tokens.windows(2) {
        assert_eq!(w[0].offsets.1, w[1].offsets.0);
    }
    assert_eq!(
        tokens,
        vec![
            Token::new(1, "a".into(), (0, 1)),
            Token::new(3, "é".into(), (1, 3)),
            Token::new(0, "<unk>".into(), (3, 6)),
            Token::new(0, "<unk>".into(), (6, 7)),
            Token::new(2, "b".into(), (7, 8)),
        ]
    );
}

#[test]
fn token_values_come_from_the_inverse_vocabulary() {
    let bpe = unrelated();
    bpe.clear_cache();
    for input in ["unrelated", "related", "ated", "tea", "dual"] {
        for t in bpe.tokenize(input).unwrap() {
            assert_eq!(bpe.id_to_token(t.id), Some(t.value.clone()));
        }
    }
}

#[test]
fn repeated_calls_agree_and_hit_the_cache() {
    let bpe = unrelated();
    assert!(!bpe.is_cached("unrelated"));
    let first = bpe.tokenize("unrelated").unwrap();
    assert!(bpe.is_cached("unrelated"));
    let second = bpe.tokenize("unrelated").unwrap();
    assert_eq!(first, second);
    assert_eq!(second, vec![Token::new(15, "unrelated".into(), (0, 9))]);
    bpe.clear_cache();
    assert!(!bpe.is_cached("unrelated"));
    assert_eq!(bpe.tokenize("unrelated").unwrap(), first);
}

#[test]
fn long_inputs_are_not_cached() {
    let bpe = unrelated();
    let long = "a".repeat(MAX_LENGTH);
    let tokens = bpe.tokenize(&long).unwrap();
    assert_eq!(tokens.len(), MAX_LENGTH);
    assert!(!bpe.is_cached(&long));
    let shorter = "a".repeat(MAX_LENGTH - 1);
    bpe.tokenize(&shorter).unwrap();
    assert!(bpe.is_cached(&shorter));
}

#[test]
fn dropout_one_gives_the_unmerged_symbols() {
    let mut bpe = unrelated();
    bpe.dropout = Some(DROPOUT_ONE);
    let tokens = bpe.tokenize_with_seed("related", 7).unwrap();
    let ids: Vec<u32> = tokens.iter().map(|t| t.id).collect();
    assert_eq!(ids, vec![2, 3, 4, 5, 6, 3, 7]);
}

#[test]
fn dropout_with_a_seed_is_reproducible() {
    let mut bpe = unrelated();
    bpe.dropout = Some(DROPOUT_ONE / 2);
    for seed in 0..20u64 {
        let a = bpe.tokenize_with_seed("unrelated", seed).unwrap();
        let b = bpe.tokenize_with_seed("unrelated", seed).unwrap();
        assert_eq!(a, b);
        assert!(!a.is_empty() && a.len() <= 9);
        assert_eq!(rebuild("unrelated", &a), b"unrelated".to_vec());
    }
    let tokens = bpe.tokenize("unrelated").unwrap();
    assert!(!tokens.is_empty() && tokens.len() <= 9);
    assert!(!bpe.is_cached("unrelated"));
}

#[test]
fn empty_input_gives_no_token() {
    let bpe = unrelated();
    assert_eq!(bpe.tokenize("").unwrap(), vec![]);
}

#[test]
fn equal_ranks_merge_leftmost_first() {
    let vocab = vocab_of(&[("a", 0), ("aa", 1)]);
    let bpe = BPE::new(vocab, merges_of(&[("a", "a")]));
    assert_eq!(
        bpe.tokenize("aaa").unwrap(),
        vec![Token::new(1, "aa".into(), (0, 2)), Token::new(0, "a".into(), (2, 3))]
    );
}

#[test]
fn lower_rank_wins() {
    let vocab = vocab_of(&[("a", 0), ("b", 1), ("c", 2), ("ab", 3), ("bc", 4)]);
    let bpe = BPE::new(vocab, merges_of(&[("b", "c"), ("a", "b")]));
    assert_eq!(
        bpe.tokenize("abc").unwrap(),
        vec![Token::new(0, "a".into(), (0, 1)), Token::new(4, "bc".into(), (1, 3))]
    );
}

#[test]
fn end_of_word_suffix_marks_the_last_symbol() {
    let vocab = vocab_of(&[("a", 0), ("b</w>", 1), ("ab</w>", 2), ("a</w>", 3)]);
    let bpe = BPE::builder()
        .vocab_and_merges(vocab, merges_of(&[("a", "b</w>")]))
        .end_of_word_suffix("</w>".to_string())
        .build()
        .unwrap();
    assert_eq!(bpe.tokenize("ab").unwrap(), vec![Token::new(2, "ab</w>".into(), (0, 2))]);
    assert_eq!(bpe.tokenize("a").unwrap(), vec![Token::new(3, "a</w>".into(), (0, 1))]);
}

#[test]
fn byte_fallback_covers_multibyte_characters() {
    let vocab = vocab_of(&[("<unk>", 0), ("<0xC3>", 1), ("<0xA9>", 2), ("<0xE2>", 3)]);
    let bpe = BPE::builder()
        .vocab_and_merges(vocab, vec![])
        .unk_token("<unk>".to_string())
        .byte_fallback(true)
        .fuse_unk(true)
        .build()
        .unwrap();
    assert_eq!(
        bpe.tokenize("xé€").unwrap(),
        vec![
            Token::new(0, "<unk>".into(), (0, 1)),
            Token::new(1, "<0xC3>".into(), (1, 2)),
            Token::new(2, "<0xA9>".into(), (2, 3)),
            Token::new(0, "<unk>".into(), (3, 6)),
        ]
    );
}

#[test]
fn without_unk_token_unknown_characters_are_dropped() {
    let vocab = vocab_of(&[("a", 0)]);
    let bpe = BPE::new(vocab, vec![]);
    assert_eq!(bpe.tokenize("zaz").unwrap(), vec![Token::new(0, "a".into(), (0, 1))]);
}

#[test]
fn missing_unk_token_is_an_error() {
    let vocab = vocab_of(&[("a", 0)]);
    let bpe = BPE::builder()
        .vocab_and_merges(vocab, vec![])
        .unk_token("<unk>".to_string())
        .build()
        .unwrap();
    assert_eq!(bpe.tokenize("a").unwrap(), vec![Token::new(0, "a".into(), (0, 1))]);
    assert_eq!(
        bpe.tokenize("ab"),
        Err(BpeError::UnkTokenOutOfVocabulary("<unk>".to_string()))
    );
}

#[test]
fn invalid_dropout_is_rejected() {
    assert_eq!(
        BPE::builder().dropout(DROPOUT_ONE + 1).build().err(),
        Some(BpeError::InvalidDropout)
    );
    assert!(BPE::builder().dropout(DROPOUT_ONE).build().is_ok());
}

#[test]
fn merged_token_missing_from_vocabulary() {
    let vocab = vocab_of(&[("a", 0), ("b", 1)]);
    let r = BPE::builder().vocab_and_merges(vocab, merges_of(&[("a", "b")])).build();
    assert_eq!(r.err(), Some(BpeError::MergeTokenOutOfVocabulary("ab".to_string())));
}

#[test]
fn bad_vocabularies_are_rejected() {
    assert_eq!(vocab_from_json("[1, 2]").err(), Some(BpeError::BadVocabulary));
    assert_eq!(vocab_from_json("{\"a\": -1}").err(), Some(BpeError::BadVocabulary));
    assert_eq!(vocab_from_json("{\"a\": 1.5}").err(), Some(BpeError::BadVocabulary));
    assert!(matches!(vocab_from_json("{not json"), Err(BpeError::BadJson(_))));
    assert_eq!(
        vocab_from_json("{\"a\": 4, \"b\": \"skip\"}").err(),
        Some(BpeError::BadVocabulary)
    );
    assert_eq!(vocab_from_json("{\"a\": null}").err(), Some(BpeError::BadVocabulary));
    let v = vocab_from_json("{\"a\": 4, \"c\": 4294967297}").unwrap();
    assert_eq!(v.get("a"), Some(&4));
    assert_eq!(v.get("c"), Some(&1));
    assert_eq!(v.len(), 2);
}

#[test]
fn merges_text_parsing() {
    assert_eq!(
        merges_from_text("#version: 0.2\r\na b\r\nab c\n").unwrap(),
        merges_of(&[("a", "b"), ("ab", "c")])
    );
    assert_eq!(merges_from_text("a  b").err(), Some(BpeError::BadMerges(1)));
    assert_eq!(
        merges_from_text("a b\n\nc d\n\n").unwrap(),
        merges_of(&[("a", "b"), ("c", "d")])
    );
    assert_eq!(merges_from_text("\n").unwrap(), vec![]);
    assert_eq!(merges_from_text("a b\n\nc").err(), Some(BpeError::BadMerges(3)));
    assert_eq!(
        merges_from_text("#version: 0.2\n\na b\nc").err(),
        Some(BpeError::BadMerges(3))
    );
    assert_eq!(merges_from_text("").unwrap(), vec![]);
    assert_eq!(split_lines("x\ny\r\n\nz"), vec![vec!['x'], vec!['y'], vec![], vec!['z']]);
}

#[test]
fn test_ordered_vocab_iter() {
    let vocab = vocab_of(&[("a", 0), ("b", 1), ("c", 2), ("ab", 3)]);
    let bpe = BPE::new(vocab, vec![]);
    assert_eq!(bpe.vocab_json(), "{\"a\":0,\"b\":1,\"c\":2,\"ab\":3}");
}

#[test]
fn vocab_json_escapes_and_skips_holes() {
    let vocab = vocab_of(&[("\"q\"", 12), ("x", 3)]);
    let bpe = BPE::new(vocab, vec![]);
    assert_eq!(bpe.vocab_json(), "{\"x\":3,\"\\\"q\\\"\":12}");
    let vocab = vocab_of(&[("a\\b\n\u{1}é", 0)]);
    let bpe = BPE::new(vocab, vec![]);
    assert_eq!(bpe.vocab_json(), "{\"a\\\\b\\n\\u0001é\":0}");
}

#[test]
fn merges_text_lists_merges_by_rank() {
    let bpe = unrelated();
    assert_eq!(
        bpe.merges_text(),
        "#version: 0.2\nr e\na t\ne d\nu n\nat ed\nre l\nrel ated\nun related\n"
    );
}

#[test]
fn save_then_read_round_trips() {
    let bpe = BPE::builder()
        .vocab_and_merges(
            vocab_of(&[("a", 0), ("##b", 1), ("##c", 2), ("ab", 3), ("abc", 4)]),
            merges_of(&[("a", "##b"), ("ab", "##c")]),
        )
        .continuing_subword_prefix("##".to_string())
        .build()
        .unwrap();
    let (v, m) = read_vocab_and_merges(&bpe.vocab_json(), &bpe.merges_text()).unwrap();
    let again = BPE::builder()
        .vocab_and_merges(v, m)
        .continuing_subword_prefix("##".to_string())
        .build()
        .unwrap();
    assert_eq!(again.get_vocab_size(), bpe.get_vocab_size());
    for t in ["a", "##b", "##c", "ab", "abc"] {
        assert_eq!(again.token_to_id(t), bpe.token_to_id(t));
    }
    assert_eq!(again.merge_of((0, 1)), bpe.merge_of((0, 1)));
    assert_eq!(again.merge_of((3, 2)), bpe.merge_of((3, 2)));
    assert_eq!(again.merge_of((3, 2)), Some((1, 4)));
    assert_eq!(again.merges_text(), bpe.merges_text());
    assert_eq!(again.tokenize("abc").unwrap(), bpe.tokenize("abc").unwrap());
}

#[test]
fn clone_and_cache_controls() {
    let mut bpe = unrelated();
    bpe.tokenize("unrelated").unwrap();
    let copy = bpe.clone();
    assert!(!copy.is_cached("unrelated"));
    assert_eq!(copy.tokenize("unrelated").unwrap(), bpe.tokenize("unrelated").unwrap());
    bpe.resize_cache(0);
    bpe.tokenize("related").unwrap();
    assert!(!bpe.is_cached("related"));
    let uncached = BPE::builder().cache_capacity(0).build().unwrap();
    assert!(!uncached.is_cached(""));
}

#[test]
fn getters() {
    let bpe = BPE::builder()
        .vocab_and_merges(vocab_of(&[("a", 0)]), vec![])
        .unk_token("<unk>".to_string())
        .continuing_subword_prefix("##".to_string())
        .build()
        .unwrap();
    assert_eq!(bpe.get_unk_token(), &Some("<unk>".to_string()));
    assert_eq!(bpe.get_continuing_subword_prefix(), &Some("##".to_string()));
    assert_eq!(bpe.get_end_of_word_suffix(), &None);
    assert_eq!(bpe.get_vocab_size(), 1);
    assert_eq!(bpe.token_to_id("a"), Some(0));
    assert_eq!(bpe.token_to_id("b"), None);
    assert_eq!(bpe.id_to_token(0), Some("a".to_string()));
    assert_eq!(bpe.id_to_token(9), None);
}

#[test]
fn text_helpers() {
    assert_eq!(byte_token_string(0x0A), "<0x0A>");
    assert_eq!(byte_token_string(0xFF), "<0xFF>");
    assert_eq!(char_byte_len('a'), 1);
    assert_eq!(char_byte_len('é'), 2);
    assert_eq!(char_byte_len('€'), 3);
    assert_eq!(char_byte_len('😀'), 4);
    assert_eq!(chars_of("aé"), vec!['a', 'é']);
}

fn word_aba() -> Word {
    let mut w = Word::with_capacity(3);
    w.add(0, 1);
    w.add(1, 2);
    w.add(0, 1);
    w
}

#[test]
fn word_merges_to_the_lowest_rank() {
    let mut merges: MergeMap = AHashMap::new();
    merges.insert((0, 1), (1, 2));
    merges.insert((1, 0), (0, 3));
    let mut w = word_aba();
    assert_eq!(w.to_vec(), vec![(0, 1), (1, 2), (0, 1)]);
    w.merge_all(&merges, None, 0);
    assert_eq!(w.to_vec(), vec![(0, 1), (3, 3)]);
    assert_eq!(w.get_chars(), vec![0, 3]);
    assert_eq!(w.get_offsets(), vec![(0, 1), (1, 4)]);
    let mut w = word_aba();
    w.merge_all(&merges, Some(DROPOUT_ONE), 5);
    assert_eq!(w.to_vec(), vec![(0, 1), (1, 2), (0, 1)]);
    let mut w = word_aba();
    w.merge_all(&merges, Some(0), 5);
    assert_eq!(w.to_vec(), vec![(0, 1), (3, 3)]);
}

#[test]
fn dropout_zero_and_none_agree_across_models() {
    let a = unrelated();
    let mut b = unrelated();
    b.dropout = Some(0);
    for input in ["unrelated", "related", "tea", "unrelatedness"] {
        assert_eq!(a.tokenize(input), b.tokenize(input));
        assert_eq!(a.clone().tokenize(input), a.tokenize(input));
    }
}

#[test]
fn full_dropout_matches_a_model_without_merges() {
    let mut full = unrelated();
    full.dropout = Some(DROPOUT_ONE);
    let plain = BPE::new(
        vocab_of(&[
            ("u", 0), ("n", 1), ("r", 2), ("e", 3), ("l", 4), ("a", 5), ("t", 6), ("d", 7),
            ("re", 8), ("at", 9), ("ed", 10), ("un", 11), ("ated", 12), ("rel", 13),
            ("related", 14), ("unrelated", 15),
        ]),
        vec![],
    );
    for input in ["unrelated", "related", "dart"] {
        assert_eq!(full.tokenize(input), plain.tokenize(input));
    }
}

#[test]
fn prefix_is_cut_by_bytes() {
    let vocab = vocab_of(&[("a", 0), ("éxy", 1), ("axy", 2), ("ay", 3)]);
    let bpe = BPE::builder()
        .vocab_and_merges(vocab, merges_of(&[("a", "éxy")]))
        .continuing_subword_prefix("##".to_string())
        .build()
        .unwrap();
    assert_eq!(bpe.merge_of((0, 1)), Some((0, 2)));

    let vocab = vocab_of(&[("a", 0), ("éxy", 1), ("axy", 2)]);
    let r = BPE::builder()
        .vocab_and_merges(vocab, merges_of(&[("a", "éxy")]))
        .continuing_subword_prefix("#".to_string())
        .build();
    assert_eq!(r.err(), Some(BpeError::MergeTokenOutOfVocabulary("éxy".to_string())));

    let vocab = vocab_of(&[("a", 0), ("bc", 1)]);
    let r = BPE::builder()
        .vocab_and_merges(vocab, merges_of(&[("a", "bc")]))
        .continuing_subword_prefix("####".to_string())
        .build();
    assert_eq!(r.err(), Some(BpeError::MergeTokenOutOfVocabulary("bc".to_string())));
}

#[test]
fn vocabulary_from_pairs() {
    let v = vocab_from_pairs(vec![("a".to_string(), 1), ("b".to_string(), 2), ("a".to_string(), 3)]);
    assert_eq!(v.len(), 2);
    assert_eq!(v.get("a"), Some(&3));
    assert_eq!(v.get("b"), Some(&2));
    let bpe = BPE::new(vocab_from_pairs(vec![("x".to_string(), 0)]), vec![]);
    assert_eq!(bpe.tokenize("xx").unwrap().len(), 2);
}

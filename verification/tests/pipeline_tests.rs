//! Tokenizer, modifier and whole-pipeline tests.

use botok_rs::{merge_dagdra, generate_default_lemmas, ChunkType, SimpleTokenizer, Token,
    Tokenizer, TrieBuilder};

fn make_test_trie() -> botok_rs::Trie {
    let tsv = "བཀྲ་ཤིས\tNOUN\t\t\t1000\nབདེ་ལེགས\tNOUN\t\t\t500\nབཀྲ་ཤིས་བདེ་ལེགས\tNOUN\t\t\t2000";
    let mut builder = TrieBuilder::new();
    builder.load_tsv(tsv);
    builder.build()
}

#[test]
fn test_full_pipeline() {
    let tsv = "བཀྲ་ཤིས\tNOUN\t\t\t1000\nབདེ་ལེགས\tNOUN\t\t\t500\nབཀྲ་ཤིས་བདེ་ལེགས\tPHRASE\t\t\t2000";
    let mut builder = TrieBuilder::new();
    builder.load_tsv(tsv);
    let trie = builder.build();
    let tokenizer = Tokenizer::new(trie);
    let tokens = tokenizer.tokenize("བཀྲ་ཤིས་བདེ་ལེགས། བཀྲ་ཤིས།");
    assert!(!tokens.is_empty());
    assert_eq!(tokens[0].syls.len(), 4);
    assert!(tokens.iter().any(|t| t.chunk_type == ChunkType::Punct));
}

#[test]
fn lib_test_simple_tokenizer() {
    let tokens = SimpleTokenizer::tokenize("བཀྲ་ཤིས་བདེ་ལེགས།");
    assert_eq!(tokens.len(), 5);
}

#[test]
fn tokenizer_test_simple_tokenization() {
    let trie = make_test_trie();
    let tokenizer = Tokenizer::new(trie);
    let tokens = tokenizer.tokenize("བཀྲ་ཤིས་བདེ་ལེགས།");
    assert_eq!(tokens.len(), 2);
    assert_eq!(tokens[0].pos, Some("NOUN".to_string()));
    assert_eq!(tokens[1].chunk_type, ChunkType::Punct);
}

#[test]
fn test_unknown_word() {
    let trie = make_test_trie();
    let tokenizer = Tokenizer::new(trie);
    let tokens = tokenizer.tokenize("ཀཀ་");
    assert_eq!(tokens.len(), 1);
    assert_eq!(tokens[0].pos, Some("NO_POS".to_string()));
}

#[test]
fn test_mixed_known_unknown() {
    let trie = make_test_trie();
    let tokenizer = Tokenizer::new(trie);
    let tokens = tokenizer.tokenize("བཀྲ་ཤིས་ཀཀ་");
    assert_eq!(tokens.len(), 2);
    assert_eq!(tokens[0].pos, Some("NOUN".to_string()));
    assert_eq!(tokens[1].pos, Some("NO_POS".to_string()));
}

#[test]
fn tokenizer_test_simple_tokenizer() {
    let tokens = SimpleTokenizer::tokenize("བཀྲ་ཤིས།");
    assert_eq!(tokens.len(), 3);
    assert_eq!(tokens[0].syls, vec!["བཀྲ".to_string()]);
    assert_eq!(tokens[1].syls, vec!["ཤིས".to_string()]);
    assert_eq!(tokens[2].chunk_type, ChunkType::Punct);
}

#[test]
fn test_arc_sharing() {
    let trie = make_test_trie();
    let tokenizer1 = Tokenizer::new(trie);
    let arc = tokenizer1.trie_arc();
    let tokenizer2 = Tokenizer::with_arc(arc);
    let tokens1 = tokenizer1.tokenize("བཀྲ་ཤིས།");
    let tokens2 = tokenizer2.tokenize("བཀྲ་ཤིས།");
    assert_eq!(tokens1.len(), tokens2.len());
}

#[test]
fn test_unicode_normalization() {
    let trie = make_test_trie();
    let tokenizer = Tokenizer::new(trie);
    let tokens_nfc = tokenizer.tokenize("བཀྲ་ཤིས།");
    assert!(!tokens_nfc.is_empty());
}

#[test]
fn tokenizer_test_spaces_as_punct() {
    let trie = make_test_trie();
    let tokenizer = Tokenizer::new(trie);
    let tokens_normal = tokenizer.tokenize_with_full_options("བཀྲ་ཤིས་ བདེ་ལེགས།", true, false);
    let tokens_space = tokenizer.tokenize_with_full_options("བཀྲ་ཤིས་ བདེ་ལེགས།", true, true);
    assert!(tokens_space.len() >= tokens_normal.len());
    let space_tokens: Vec<_> = tokens_space
        .iter()
        .filter(|t| t.text.trim().is_empty() && t.chunk_type == ChunkType::Punct)
        .collect();
    assert!(!space_tokens.is_empty(), "Should have space as punctuation token");
}

#[test]
fn test_spaces_as_punct_with_newline() {
    let trie = make_test_trie();
    let tokenizer = Tokenizer::new(trie);
    let tokens = tokenizer.tokenize_with_full_options("བཀྲ་ཤིས་ \nབདེ་ལེགས།", true, true);
    let space_tokens: Vec<_> = tokens
        .iter()
        .filter(|t| t.text.contains('\n') && t.chunk_type == ChunkType::Punct)
        .collect();
    assert!(!space_tokens.is_empty(), "Should have space+newline as punctuation token");
}

#[test]
fn integration_tests_test_simple_tokenization() {
    let tokens = SimpleTokenizer::tokenize("བཀྲ་ཤིས་བདེ་ལེགས།");
    assert_eq!(tokens.len(), 5);
    assert_eq!(tokens[0].syls, vec!["བཀྲ".to_string()]);
    assert_eq!(tokens[1].syls, vec!["ཤིས".to_string()]);
    assert_eq!(tokens[2].syls, vec!["བདེ".to_string()]);
    assert_eq!(tokens[3].syls, vec!["ལེགས".to_string()]);
    assert_eq!(tokens[4].chunk_type, ChunkType::Punct);
}

#[test]
fn test_tokenizer_with_dictionary() {
    let tsv = "བཀྲ་ཤིས\tNOUN\t\t\t1000\nབདེ་ལེགས\tNOUN\t\t\t500\nབཀྲ་ཤིས་བདེ་ལེགས\tPHRASE\t\t\t2000";
    let mut builder = TrieBuilder::new();
    builder.load_tsv(tsv);
    let trie = builder.build();
    let tokenizer = Tokenizer::new(trie);
    let tokens = tokenizer.tokenize("བཀྲ་ཤིས་བདེ་ལེགས།");
    assert_eq!(tokens.len(), 2);
    assert_eq!(tokens[0].pos, Some("PHRASE".to_string()));
    assert_eq!(tokens[0].syls.len(), 4);
}

#[test]
fn test_tokenizer_unknown_words() {
    let tsv = "བཀྲ་ཤིས\tNOUN\t\t\t1000";
    let mut builder = TrieBuilder::new();
    builder.load_tsv(tsv);
    let trie = builder.build();
    let tokenizer = Tokenizer::new(trie);
    let tokens = tokenizer.tokenize("བཀྲ་ཤིས་ཀཀ་");
    assert_eq!(tokens.len(), 2);
    assert_eq!(tokens[0].pos, Some("NOUN".to_string()));
    assert_eq!(tokens[1].pos, Some("NO_POS".to_string()));
}

#[test]
fn test_segmentation_bug() {
    let tsv = "ལ་པོ\tNOUN\t\t\t100\nལ་མོ\tNOUN\t\t\t100\nགྲོགས་པོ\tNOUN\t\t\t100\nབདག་པོ\tNOUN\t\t\t100\nདང\tPART\t\t\t100";
    let mut builder = TrieBuilder::new();
    builder.load_tsv(tsv);
    let trie = builder.build();
    let tokenizer = Tokenizer::new(trie);
    let tokens = tokenizer.tokenize("ལ་པོ་ལ་པོ་ལ་པོ་");
    assert_eq!(tokens.len(), 3, "Should have 3 tokens for repeated ལ་པོ");
    let tokens = tokenizer.tokenize("ལ་མོ་ལ་མོ་ལ་མོ་");
    assert_eq!(tokens.len(), 3, "Should have 3 tokens for repeated ལ་མོ");
    let tokens = tokenizer.tokenize("གྲོགས་པོ་གྲོགས་པོ་གྲོགས་པོ་");
    assert_eq!(tokens.len(), 3, "Should have 3 tokens for repeated གྲོགས་པོ");
    let tokens = tokenizer.tokenize("བདག་པོ་བདག་པོ་བདག་པོ་");
    assert_eq!(tokens.len(), 3, "Should have 3 tokens for repeated བདག་པོ");
}

#[test]
fn test_bug1() {
    let tokens = SimpleTokenizer::tokenize("བ་ཀུ་");
    assert!(!tokens.is_empty());
}

#[test]
fn test_bug2() {
    let tokens = SimpleTokenizer::tokenize("བྲ་གྲྀ་");
    assert!(!tokens.is_empty());
}

#[test]
fn test_token_positions() {
    let text = "བཀྲ་ཤིས།";
    let tokens = SimpleTokenizer::tokenize(text);
    for token in &tokens {
        let extracted = &text[token.start..token.start + token.len];
        assert_eq!(extracted, token.text);
    }
}

#[test]
fn test_token_byte_positions() {
    let text = "བཀྲ་";
    let tokens = SimpleTokenizer::tokenize(text);
    assert_eq!(tokens.len(), 1);
    assert_eq!(tokens[0].start, 0);
    assert_eq!(tokens[0].len, text.len());
}

#[test]
fn test_empty_string() {
    let tokens = SimpleTokenizer::tokenize("");
    assert!(tokens.is_empty());
}

#[test]
fn test_only_punctuation() {
    let tokens = SimpleTokenizer::tokenize("།།།");
    assert_eq!(tokens.len(), 1);
    assert_eq!(tokens[0].chunk_type, ChunkType::Punct);
}

#[test]
fn test_only_spaces() {
    let tokens = SimpleTokenizer::tokenize("   ");
    assert!(tokens.is_empty() || tokens.iter().all(|t| t.text.trim().is_empty()));
}

#[test]
fn test_mixed_scripts() {
    let tokens = SimpleTokenizer::tokenize("བཀྲ་ཤིས། Hello 你好");
    let has_tibetan = tokens.iter().any(|t| t.chunk_type == ChunkType::Text);
    let has_latin = tokens.iter().any(|t| t.chunk_type == ChunkType::Latin);
    let has_cjk = tokens.iter().any(|t| t.chunk_type == ChunkType::Cjk);
    assert!(has_tibetan);
    assert!(has_latin);
    assert!(has_cjk);
}

#[test]
fn test_tibetan_numbers() {
    let tokens = SimpleTokenizer::tokenize("༡༢༣༤༥");
    assert!(!tokens.is_empty());
    assert!(tokens.iter().any(|t| t.chunk_type == ChunkType::Num));
}

#[test]
fn test_longest_match_preference() {
    let tsv = "བཀྲ\tNOUN\t\t\t100\nབཀྲ་ཤིས\tNOUN\t\t\t200\nབཀྲ་ཤིས་བདེ\tNOUN\t\t\t300\nབཀྲ་ཤིས་བདེ་ལེགས\tNOUN\t\t\t400";
    let mut builder = TrieBuilder::new();
    builder.load_tsv(tsv);
    let trie = builder.build();
    let tokenizer = Tokenizer::new(trie);
    let tokens = tokenizer.tokenize("བཀྲ་ཤིས་བདེ་ལེགས།");
    assert_eq!(tokens.len(), 2);
    assert_eq!(tokens[0].syls.len(), 4);
}

#[test]
fn test_backtracking_match() {
    let tsv = "བཀྲ་ཤིས\tNOUN\t\t\t200";
    let mut builder = TrieBuilder::new();
    builder.load_tsv(tsv);
    let trie = builder.build();
    let tokenizer = Tokenizer::new(trie);
    let tokens = tokenizer.tokenize("བཀྲ་ཤིས་བདེ་");
    assert_eq!(tokens.len(), 2);
    assert_eq!(tokens[0].pos, Some("NOUN".to_string()));
    assert_eq!(tokens[1].pos, Some("NO_POS".to_string()));
}

#[test]
fn integration_tests_test_spaces_as_punct() {
    let tsv = "བཀྲ་ཤིས\tNOUN\t\t\t1000\nབདེ་ལེགས\tNOUN\t\t\t500";
    let mut builder = TrieBuilder::new();
    builder.load_tsv(tsv);
    let trie = builder.build();
    let tokenizer = Tokenizer::new(trie);
    let tokens = tokenizer.tokenize_with_full_options("བཀྲ་ཤིས་ བདེ་ལེགས།", true, true);
    let space_tokens: Vec<_> = tokens
        .iter()
        .filter(|t| t.text.trim().is_empty() && t.chunk_type == ChunkType::Punct)
        .collect();
    assert!(!space_tokens.is_empty(), "Should have space as punctuation token");
}

#[test]
fn test_spaces_with_newline() {
    let tsv = "བཀྲ་ཤིས\tNOUN\t\t\t1000";
    let mut builder = TrieBuilder::new();
    builder.load_tsv(tsv);
    let trie = builder.build();
    let tokenizer = Tokenizer::new(trie);
    let tokens = tokenizer.tokenize_with_full_options("བཀྲ་ཤིས་ \nབདེ་", true, true);
    let newline_tokens: Vec<_> = tokens.iter().filter(|t| t.text.contains('\n')).collect();
    assert!(!newline_tokens.is_empty(), "Should preserve newline");
}

#[test]
fn test_trie_builder_with_inflection() {
    let mut builder = TrieBuilder::with_inflection();
    builder.load_tsv("བཀྲ་ཤིས\tNOUN\t\t\t1000");
    let trie = builder.build();
    assert!(trie.len() > 1, "Inflection should generate multiple entries");
    assert!(trie.has_word(&["བཀྲ", "ཤིས"]));
    assert!(trie.has_word(&["བཀྲ", "ཤིསར"]), "Should have la affix form");
    assert!(trie.has_word(&["བཀྲ", "ཤིསའི"]), "Should have gi affix form");
}

#[test]
fn test_trie_builder_without_inflection() {
    let mut builder = TrieBuilder::new();
    builder.load_tsv("བཀྲ་ཤིས\tNOUN\t\t\t1000");
    let trie = builder.build();
    assert_eq!(trie.len(), 1, "Without inflection should have only base form");
}

#[test]
fn test_merge_dagdra() {
    let mut tokens = vec![
        Token::with_text("བཀྲ་ཤིས་".to_string(), 0, 18, ChunkType::Text),
        Token::with_text("པ་".to_string(), 18, 6, ChunkType::Text),
    ];
    tokens[0].syls = vec!["བཀྲ".to_string(), "ཤིས".to_string()];
    tokens[1].syls = vec!["པ".to_string()];
    merge_dagdra(&mut tokens);
    assert_eq!(tokens.len(), 1);
    assert!(tokens[0].has_merged_dagdra);
    assert_eq!(tokens[0].syls.len(), 3);
}

#[test]
fn test_generate_default_lemmas() {
    let mut tokens = vec![Token::with_text("བཀྲ་ཤིས་".to_string(), 0, 18, ChunkType::Text)];
    tokens[0].syls = vec!["བཀྲ".to_string(), "ཤིས".to_string()];
    generate_default_lemmas(&mut tokens);
    assert!(tokens[0].lemma.is_some());
}

#[test]
fn test_affix_expansion_and_split() {
    // inflected dictionary plus affix splitting: the host keeps the
    // word's tag, the particle is tagged PART, and their texts
    // concatenate to the token before the split
    let mut builder = TrieBuilder::with_inflection();
    builder.load_tsv("བཀྲ་ཤིས\tNOUN\t\t\t1000");
    let trie = builder.build();
    assert!(trie.has_word(&["བཀྲ", "ཤིས"]));
    assert!(trie.has_word(&["བཀྲ", "ཤིསར"]));
    assert!(trie.has_word(&["བཀྲ", "ཤིསའི"]));
    let tokenizer = Tokenizer::new(trie);
    let tokens = tokenizer.tokenize_with_full_options("བཀྲ་ཤིསར་", true, false);
    assert_eq!(tokens.len(), 2);
    assert_eq!(tokens[0].text, "བཀྲ་ཤིས");
    assert!(tokens[0].is_affix_host);
    assert_eq!(tokens[0].pos, Some("NOUN".to_string()));
    assert_eq!(tokens[1].text, "ར་");
    assert!(tokens[1].is_affix);
    assert_eq!(tokens[1].pos, Some("PART".to_string()));
    let joined = format!("{}{}", tokens[0].text, tokens[1].text);
    assert_eq!(joined, "བཀྲ་ཤིསར་");
}

#[test]
fn test_merge_dagdra_idempotent_scenario() {
    // running the dagdra merge a second time changes nothing
    let mut tokens = vec![
        Token::with_text("བཀྲ་ཤིས་".to_string(), 0, 18, ChunkType::Text),
        Token::with_text("པ་".to_string(), 18, 6, ChunkType::Text),
        Token::with_text("པོ་".to_string(), 24, 9, ChunkType::Text),
    ];
    tokens[0].syls = vec!["བཀྲ".to_string(), "ཤིས".to_string()];
    tokens[1].syls = vec!["པ".to_string()];
    tokens[2].syls = vec!["པོ".to_string()];
    merge_dagdra(&mut tokens);
    let after_once: Vec<String> = tokens.iter().map(|t| t.text.clone()).collect();
    merge_dagdra(&mut tokens);
    let after_twice: Vec<String> = tokens.iter().map(|t| t.text.clone()).collect();
    assert_eq!(after_once, after_twice);
    assert_eq!(tokens.len(), 1);
}

#[test]
fn test_chunks_concatenate_to_input() {
    // the chunks cover the whole text, without gap or overlap
    let text = "བཀྲ་ཤིས། Hello 你好";
    let chunker = botok_rs::Chunker::new(text);
    let chunks = chunker.make_chunks();
    let mut rebuilt = String::new();
    for c in &chunks {
        rebuilt.push_str(&text[c.start..c.start + c.len]);
    }
    assert_eq!(rebuilt, text);
}

#[test]
fn test_tokens_concatenate_to_input() {
    // the raw tokens cover the whole text
    let trie = make_test_trie();
    let tokenizer = Tokenizer::new(trie);
    let text = "བཀྲ་ཤིས་བདེ་ལེགས། Hello 你好";
    let tokens = tokenizer.tokenize_raw(text);
    let mut rebuilt = String::new();
    for t in &tokens {
        rebuilt.push_str(&t.text);
    }
    assert_eq!(rebuilt, text);
}

#[test]
fn test_sense_sort_by_frequency() {
    // two entries for one form: the more frequent sense comes first
    // and a tag-less token adopts its tag
    let tsv = "ཀཁ\t\t\tfirst\t10\nཀཁ\tVERB\t\tsecond\t90";
    let mut builder = TrieBuilder::new();
    builder.load_tsv(tsv);
    let trie = builder.build();
    let tokenizer = Tokenizer::new(trie);
    let tokens = tokenizer.tokenize("ཀཁ་");
    assert_eq!(tokens.len(), 1);
    assert_eq!(tokens[0].senses.len(), 2);
    assert_eq!(tokens[0].senses[0].freq, Some(90));
    assert_eq!(tokens[0].pos, Some("VERB".to_string()));
}

#[test]
fn sentence_test_sentence_tokenize_basic() {
    let mut tokens = vec![
        Token::with_text("བཀྲ་ཤིས་".to_string(), 0, 12, ChunkType::Text),
        Token::with_text("བདེ་ལེགས་".to_string(), 12, 12, ChunkType::Text),
        Token::with_text("།".to_string(), 24, 3, ChunkType::Punct),
        Token::with_text("ཡིན་".to_string(), 27, 6, ChunkType::Text),
        Token::with_text("སོ་".to_string(), 33, 6, ChunkType::Text),
        Token::with_text("།".to_string(), 39, 3, ChunkType::Punct),
    ];
    tokens[0].pos = Some("NOUN".to_string());
    tokens[1].pos = Some("NOUN".to_string());
    tokens[3].pos = Some("VERB".to_string());
    tokens[4].pos = Some("PART".to_string());
    tokens[0].syls = vec!["བཀྲ".to_string(), "ཤིས".to_string()];
    tokens[1].syls = vec!["བདེ".to_string(), "ལེགས".to_string()];
    tokens[3].syls = vec!["ཡིན".to_string()];
    tokens[4].syls = vec!["སོ".to_string()];
    let sentences = botok_rs::sentence_tokenize(&tokens);
    assert!(!sentences.is_empty());
}

#[test]
fn test_paragraph_tokenize() {
    let mut tokens = vec![
        Token::with_text("བཀྲ་ཤིས་".to_string(), 0, 12, ChunkType::Text),
        Token::with_text("།".to_string(), 12, 3, ChunkType::Punct),
    ];
    tokens[0].syls = vec!["བཀྲ".to_string(), "ཤིས".to_string()];
    let paragraphs = botok_rs::paragraph_tokenize(&tokens);
    assert!(!paragraphs.is_empty());
    assert!(!paragraphs[0].sentences.is_empty());
}

#[test]
fn test_has_last_syl() {
    let mut token = Token::with_text("ཡིན་སོ་".to_string(), 0, 12, ChunkType::Text);
    token.pos = Some("PART".to_string());
    token.syls = vec!["ཡིན".to_string(), "སོ".to_string()];
    assert!(botok_rs::sentence::has_last_syl(&token, &botok_rs::sentence::ending_particles()));
    let mut token2 = Token::with_text("བཀྲ་ཤིས་".to_string(), 0, 12, ChunkType::Text);
    token2.pos = Some("NOUN".to_string());
    token2.syls = vec!["བཀྲ".to_string(), "ཤིས".to_string()];
    assert!(!botok_rs::sentence::has_last_syl(&token2, &botok_rs::sentence::ending_particles()));
}

#[test]
fn integration_tests_test_sentence_tokenize_basic() {
    let mut tokens = vec![
        Token::with_text("བཀྲ་ཤིས་".to_string(), 0, 12, ChunkType::Text),
        Token::with_text("བདེ་ལེགས་".to_string(), 12, 12, ChunkType::Text),
        Token::with_text("།".to_string(), 24, 3, ChunkType::Punct),
        Token::with_text("ཡིན་".to_string(), 27, 6, ChunkType::Text),
        Token::with_text("སོ་".to_string(), 33, 6, ChunkType::Text),
        Token::with_text("།".to_string(), 39, 3, ChunkType::Punct),
    ];
    tokens[0].syls = vec!["བཀྲ".to_string(), "ཤིས".to_string()];
    tokens[0].pos = Some("NOUN".to_string());
    tokens[1].syls = vec!["བདེ".to_string(), "ལེགས".to_string()];
    tokens[1].pos = Some("NOUN".to_string());
    tokens[3].syls = vec!["ཡིན".to_string()];
    tokens[3].pos = Some("VERB".to_string());
    tokens[4].syls = vec!["སོ".to_string()];
    tokens[4].pos = Some("PART".to_string());
    let sentences = botok_rs::sentence_tokenize(&tokens);
    assert!(!sentences.is_empty(), "Should produce sentences");
}

#[test]
fn test_paragraph_tokenize_basic() {
    let tokens = vec![
        Token::with_text("བཀྲ་ཤིས་".to_string(), 0, 12, ChunkType::Text),
        Token::with_text("།".to_string(), 12, 3, ChunkType::Punct),
    ];
    let paragraphs = botok_rs::paragraph_tokenize(&tokens);
    assert!(!paragraphs.is_empty(), "Should produce paragraphs");
    assert!(!paragraphs[0].sentences.is_empty(), "Paragraph should have sentences");
}

#[test]
fn test_normalized_text_shad_and_spaces() {
    // the enumeration shad becomes a plain shad and whitespace runs
    // collapse to single spaces, with outer whitespace trimmed
    let tokens = vec![
        Token::with_text(" བཀྲ་ཤིས༑  ".to_string(), 0, 1, ChunkType::Text),
        Token::with_text("\tབདེ་ལེགས། ".to_string(), 1, 1, ChunkType::Text),
    ];
    let sentences = vec![botok_rs::Sentence {
        tokens,
        word_count: 2,
        start_idx: 0,
        end_idx: 1,
    }];
    assert_eq!(sentences[0].normalized_text(), "བཀྲ་ཤིས། བདེ་ལེགས།");
}

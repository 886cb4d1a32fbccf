//! Character, chunker, syllable, token and trie tests.

use botok_rs::{get_char_category, BoString, CharCategory, Chunker, ChunkType, SylComponents,
    Token, Trie, TrieBuilder, is_dagdra};

#[test]
fn test_tibetan_consonants() {
    assert_eq!(get_char_category('ཀ'), CharCategory::Cons);
    assert_eq!(get_char_category('ག'), CharCategory::Cons);
    assert_eq!(get_char_category('བ'), CharCategory::Cons);
}

#[test]
fn test_tibetan_vowels() {
    assert_eq!(get_char_category('ི'), CharCategory::Vow);
    assert_eq!(get_char_category('ུ'), CharCategory::Vow);
    assert_eq!(get_char_category('ེ'), CharCategory::Vow);
    assert_eq!(get_char_category('ོ'), CharCategory::Vow);
}

#[test]
fn test_tsek() {
    assert_eq!(get_char_category('་'), CharCategory::Tsek);
}

#[test]
fn test_punctuation() {
    assert_eq!(get_char_category('།'), CharCategory::NormalPunct);
}

#[test]
fn test_space() {
    assert_eq!(get_char_category(' '), CharCategory::Transparent);
    assert_eq!(get_char_category('\t'), CharCategory::Transparent);
}

#[test]
fn test_latin() {
    assert_eq!(get_char_category('a'), CharCategory::Latin);
    assert_eq!(get_char_category('Z'), CharCategory::Latin);
}

#[test]
fn test_bo_string() {
    let bs = BoString::new("བཀྲ་");
    assert_eq!(bs.len(), 4);
    assert_eq!(bs.get_category(0), Some(CharCategory::Cons));
    assert_eq!(bs.get_category(1), Some(CharCategory::Cons));
    assert_eq!(bs.get_category(2), Some(CharCategory::SubCons));
    assert_eq!(bs.get_category(3), Some(CharCategory::Tsek));
}

#[test]
fn test_tibetan_consonant_category() {
    assert_eq!(get_char_category('བ'), CharCategory::Cons);
}

#[test]
fn test_tibetan_sub_consonant_category() {
    assert_eq!(get_char_category('ྲ'), CharCategory::SubCons);
}

#[test]
fn test_tibetan_tsek_category() {
    assert_eq!(get_char_category('་'), CharCategory::Tsek);
}

#[test]
fn test_tibetan_numeral_category() {
    assert_eq!(get_char_category('༡'), CharCategory::Numeral);
}

#[test]
fn test_latin_category() {
    assert_eq!(get_char_category('t'), CharCategory::Latin);
}

#[test]
fn test_cjk_category() {
    assert_eq!(get_char_category('就'), CharCategory::Cjk);
}

#[test]
fn test_bostring_mixed() {
    let bs = BoString::new("བཀྲ་ཤིས་");
    assert_eq!(bs.get_category(0), Some(CharCategory::Cons));
    assert_eq!(bs.get_category(1), Some(CharCategory::Cons));
    assert_eq!(bs.get_category(2), Some(CharCategory::SubCons));
    assert_eq!(bs.get_category(3), Some(CharCategory::Tsek));
}

#[test]
fn test_simple_syllables() {
    let chunker = Chunker::new("བཀྲ་ཤིས་");
    let chunks = chunker.make_chunks();
    assert_eq!(chunks.len(), 2);
    assert_eq!(chunks[0].syl, Some("བཀྲ".to_string()));
    assert_eq!(chunks[0].chunk_type, ChunkType::Text);
    assert_eq!(chunks[1].syl, Some("ཤིས".to_string()));
}

#[test]
fn test_with_punctuation() {
    let chunker = Chunker::new("བཀྲ་ཤིས།");
    let chunks = chunker.make_chunks();
    assert_eq!(chunks.len(), 3);
    assert_eq!(chunks[0].syl, Some("བཀྲ".to_string()));
    assert_eq!(chunks[1].syl, Some("ཤིས".to_string()));
    assert_eq!(chunks[2].chunk_type, ChunkType::Punct);
}

#[test]
fn test_mixed_content() {
    let chunker = Chunker::new("བཀྲ་ཤིས། hello");
    let chunks = chunker.make_chunks();
    assert!(chunks.len() >= 3);
    assert_eq!(chunks[0].chunk_type, ChunkType::Text);
    assert!(chunks.iter().any(|c| c.chunk_type == ChunkType::Latin));
}

#[test]
fn test_chunk_positions() {
    let text = "བཀྲ་";
    let chunker = Chunker::new(text);
    let chunks = chunker.make_chunks();
    assert_eq!(chunks.len(), 1);
    let chunk = &chunks[0];
    assert_eq!(&text[chunk.start..chunk.start + chunk.len], "བཀྲ་");
}

#[test]
fn test_chunks_basic() {
    let chunker = Chunker::new("བཀྲ་ཤིས་བདེ་ལེགས།");
    let chunks = chunker.make_chunks();
    assert!(chunks.len() >= 4);
    assert_eq!(chunks[0].chunk_type, ChunkType::Text);
    assert_eq!(chunks[0].syl, Some("བཀྲ".to_string()));
    assert_eq!(chunks.last().unwrap().chunk_type, ChunkType::Punct);
}

#[test]
fn test_chunks_mixed_content() {
    let input = "༆ བཀྲ་ཤིས་བདེ་ལེགས།། །། test 这是";
    let chunker = Chunker::new(input);
    let chunks = chunker.make_chunks();
    let has_punct = chunks.iter().any(|c| c.chunk_type == ChunkType::Punct);
    let has_text = chunks.iter().any(|c| c.chunk_type == ChunkType::Text);
    let has_latin = chunks.iter().any(|c| c.chunk_type == ChunkType::Latin);
    let has_cjk = chunks.iter().any(|c| c.chunk_type == ChunkType::Cjk);
    assert!(has_punct, "Should have punctuation");
    assert!(has_text, "Should have Tibetan text");
    assert!(has_latin, "Should have Latin text");
    assert!(has_cjk, "Should have CJK text");
}

#[test]
fn test_chunks_syllable_extraction() {
    let chunker = Chunker::new("བཀྲ་ཤིས་བདེ་ལེགས");
    let chunks = chunker.make_chunks();
    let syls: Vec<&str> = chunks.iter().filter_map(|c| c.syl.as_deref()).collect();
    assert_eq!(syls, vec!["བཀྲ", "ཤིས", "བདེ", "ལེགས"]);
}

#[test]
fn test_no_shad_syllable() {
    let input = "ཀ འདི་ ཤི དེ་ག རེད་དོ།";
    let chunker = Chunker::new(input);
    let chunks = chunker.make_chunks();
    let text_chunks: Vec<_> = chunks
        .iter()
        .filter(|c| c.chunk_type == ChunkType::Text)
        .collect();
    assert!(!text_chunks.is_empty(), "Should have syllable chunks");
    assert_eq!(chunks.last().unwrap().chunk_type, ChunkType::Punct);
}

#[test]
fn test_multiple_spaces() {
    let input = "ཁྱོ ད་ད  ང་";
    let chunker = Chunker::new(input);
    let chunks = chunker.make_chunks();
    assert!(!chunks.is_empty());
}

#[test]
fn test_shad_in_syllable() {
    let input = " tr བདེ་་ལེ གས། བཀྲ་";
    let chunker = Chunker::new(input);
    let chunks = chunker.make_chunks();
    let has_latin = chunks.iter().any(|c| c.chunk_type == ChunkType::Latin);
    let has_text = chunks.iter().any(|c| c.chunk_type == ChunkType::Text);
    let has_punct = chunks.iter().any(|c| c.chunk_type == ChunkType::Punct);
    assert!(has_latin);
    assert!(has_text);
    assert!(has_punct);
}

#[test]
fn test_many_tseks_in_syllable() {
    let input = " ཤི་བཀྲ་ཤིས་  བདེ་་ལ             ེ       གས་ བཀྲ་ཤིས་བདེ་ལེགས";
    let chunker = Chunker::new(input);
    let chunks = chunker.make_chunks();
    assert!(!chunks.is_empty());
}

#[test]
fn test_shad_in_syllable_edge_case() {
    let input = " tr བདེ་་ལེ གས། བཀྲ་";
    let chunker = Chunker::new(input);
    let chunks = chunker.make_chunks();
    let has_latin = chunks.iter().any(|c| c.chunk_type == ChunkType::Latin);
    let has_text = chunks.iter().any(|c| c.chunk_type == ChunkType::Text);
    let has_punct = chunks.iter().any(|c| c.chunk_type == ChunkType::Punct);
    assert!(has_latin, "Should have Latin chunk");
    assert!(has_text, "Should have Text chunk");
    assert!(has_punct, "Should have Punct chunk");
}

#[test]
fn test_affixes() {
    // the particle table: a ra-affix is one character of kind "la",
    // a genitive is two characters of kind "gi"
    let sc = SylComponents::new();
    let forms = sc.get_all_affixed("ཤིས").unwrap();
    let la = forms.iter().find(|(f, _)| f == "ཤིསར").unwrap();
    assert_eq!(la.1.len, 1);
    assert_eq!(la.1.affix_type, "la");
    let gi = forms.iter().find(|(f, _)| f == "ཤིསའི").unwrap();
    assert_eq!(gi.1.len, 2);
    assert_eq!(gi.1.affix_type, "gi");
}

#[test]
fn test_is_dagdra() {
    assert!(is_dagdra("པ་"));
    assert!(is_dagdra("པོ་"));
    assert!(is_dagdra("བ་"));
    assert!(is_dagdra("བོ་"));
    assert!(is_dagdra("པ"));
    assert!(!is_dagdra("ཀ་"));
}

#[test]
fn test_is_affixable() {
    let sc = SylComponents::new();
    assert!(sc.is_affixable("ཤིས"), "ཤིས should be affixable (ends with ིས which is a valid suffix)");
    assert!(sc.is_affixable("བཀྲ"), "བཀྲ should be affixable (it's a root)");
    assert!(sc.is_affixable("ལེགས"), "ལེགས should be affixable");
    assert!(!sc.is_affixable("ཤིསའི"), "ཤིསའི should NOT be affixable (ends with འི genitive)");
    assert!(!sc.is_affixable("བཀྲའོ"), "བཀྲའོ should NOT be affixable (ends with འོ terminative)");
}

#[test]
fn test_get_all_affixed() {
    let sc = SylComponents::new();
    let affixed = sc.get_all_affixed("ཤིས");
    assert!(affixed.is_some(), "ཤིས should generate affixed forms");
    let forms = affixed.unwrap();
    assert!(!forms.is_empty(), "Should have generated at least one affixed form");
    let affix_forms: Vec<&str> = forms.iter().map(|(f, _)| f.as_str()).collect();
    assert!(affix_forms.contains(&"ཤིསར"), "Should contain ཤིསར (la affix)");
    assert!(affix_forms.contains(&"ཤིསས"), "Should contain ཤིསས (gis affix)");
    assert!(affix_forms.contains(&"ཤིསའི"), "Should contain ཤིསའི (gi affix)");
}

#[test]
fn test_token_creation() {
    let token = Token::with_text("བཀྲ་ཤིས་".to_string(), 0, 18, ChunkType::Text);
    assert_eq!(token.text, "བཀྲ་ཤིས་");
    assert_eq!(token.start, 0);
    assert_eq!(token.chunk_type, ChunkType::Text);
}

#[test]
fn test_token_display() {
    let mut token = Token::with_text("བཀྲ་ཤིས་".to_string(), 0, 18, ChunkType::Text);
    token.pos = Some("NOUN".to_string());
    assert_eq!(token.display_string(), "བཀྲ་ཤིས་/NOUN");
}

#[test]
fn trie_test_trie_add_and_lookup() {
    let mut trie = Trie::new();
    trie.add(&["བཀྲ", "ཤིས"], None);
    trie.add(&["བདེ", "ལེགས"], None);
    assert!(trie.has_word(&["བཀྲ", "ཤིས"]));
    assert!(trie.has_word(&["བདེ", "ལེགས"]));
    assert!(!trie.has_word(&["བཀྲ"]));
    assert!(!trie.has_word(&["བཀྲ", "ཤིས", "བདེ"]));
}

#[test]
fn test_trie_walk() {
    let mut trie = Trie::new();
    trie.add(&["བཀྲ", "ཤིས"], None);
    let node1 = trie.walk("བཀྲ", None);
    assert!(node1.is_some());
    assert!(!node1.unwrap().is_match());
    let node2 = trie.walk("ཤིས", node1);
    assert!(node2.is_some());
    assert!(node2.unwrap().is_match());
}

#[test]
fn trie_test_trie_with_data() {
    let mut trie = Trie::new();
    let data = botok_rs::WordData {
        pos: Some("NOUN".to_string()),
        lemma: None,
        freq: Some(1000),
        skrt: false,
        affixation: None,
        senses: Vec::new(),
    };
    trie.add(&["བཀྲ", "ཤིས"], Some(data));
    let retrieved = trie.get_word_data(&["བཀྲ", "ཤིས"]);
    assert!(retrieved.is_some());
    assert_eq!(retrieved.unwrap().pos, Some("NOUN".to_string()));
    assert_eq!(retrieved.unwrap().freq, Some(1000));
}

#[test]
fn test_trie_builder() {
    let tsv = "བཀྲ་ཤིས\tNOUN\t\t\t1000\nབདེ་ལེགས\tNOUN\t\t\t500";
    let mut builder = TrieBuilder::new();
    builder.load_tsv(tsv);
    let trie = builder.build();
    assert_eq!(trie.len(), 2);
    assert!(trie.has_word(&["བཀྲ", "ཤིས"]));
    assert!(trie.has_word(&["བདེ", "ལེགས"]));
}

#[test]
fn test_add_word_string() {
    let mut trie = Trie::new();
    trie.add_word("བཀྲ་ཤིས་བདེ་ལེགས", None);
    assert!(trie.has_word(&["བཀྲ", "ཤིས", "བདེ", "ལེགས"]));
}

#[test]
fn integration_tests_test_trie_add_and_lookup() {
    let mut trie = Trie::new();
    trie.add(&["གྲུབ", "མཐའ"], None);
    assert!(trie.has_word(&["གྲུབ", "མཐའ"]));
    assert!(!trie.has_word(&["གྲུབ"]));
    assert!(!trie.has_word(&["གྲུབ", "མཐའི"]));
}

#[test]
fn test_trie_deactivate() {
    let mut trie = Trie::new();
    trie.add(&["ཀ", "ར"], None);
    assert!(trie.has_word(&["ཀ", "ར"]));
    trie.deactivate(&["ཀ", "ར"]);
    assert!(!trie.has_word(&["ཀ", "ར"]));
}

#[test]
fn test_trie_builder_tsv() {
    let tsv = "# Comment line\nབཀྲ་ཤིས\tNOUN\t\t\t1000\nབདེ་ལེགས\tNOUN\t\t\t500\nགྲུབ་མཐའ\tNOUN\t\t\t532";
    let mut builder = TrieBuilder::new();
    builder.load_tsv(tsv);
    let trie = builder.build();
    assert_eq!(trie.len(), 3);
    assert!(trie.has_word(&["བཀྲ", "ཤིས"]));
    assert!(trie.has_word(&["བདེ", "ལེགས"]));
    assert!(trie.has_word(&["གྲུབ", "མཐའ"]));
}

#[test]
fn integration_tests_test_trie_with_data() {
    let tsv = "ལྟར\tVERB\tལྟ\t\t123";
    let mut builder = TrieBuilder::new();
    builder.load_tsv(tsv);
    let trie = builder.build();
    let data = trie.get_word_data(&["ལྟར"]);
    assert!(data.is_some());
    let data = data.unwrap();
    assert_eq!(data.pos, Some("VERB".to_string()));
    assert_eq!(data.freq, Some(123));
}

#[test]
fn test_trie_merge() {
    let mut a = Trie::new();
    a.add(&["བཀྲ", "ཤིས"], None);
    let mut b = Trie::new();
    b.add(&["བདེ", "ལེགས"], None);
    a.merge(&b);
    assert!(a.has_word(&["བཀྲ", "ཤིས"]));
    assert!(a.has_word(&["བདེ", "ལེགས"]));
}

#[test]
fn test_trie_add_data_sense() {
    let mut trie = Trie::new();
    trie.add(&["ཀ"], None);
    let sense = botok_rs::Sense {
        pos: Some("NOUN".to_string()),
        lemma: None,
        freq: Some(7),
        sense: None,
        meaning: None,
        affixed: false,
    };
    assert!(trie.add_data(&["ཀ"], sense));
    let d = trie.get_word_data(&["ཀ"]).unwrap();
    assert_eq!(d.senses.len(), 1);
    assert_eq!(d.senses[0].freq, Some(7));
}

#[test]
fn test_freq_parse_rejects_garbage() {
    let tsv = "ཀ\tNOUN\t\t\tabc";
    let mut builder = TrieBuilder::new();
    builder.load_tsv(tsv);
    let trie = builder.build();
    let d = trie.get_word_data(&["ཀ"]).unwrap();
    assert_eq!(d.freq, None);
}

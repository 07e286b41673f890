use pinyin_dict::PinyinError;
use pinyin_dict::dict::DictEntry;
use pinyin_dict::dict::DictionaryIndex;
use pinyin_dict::lookup::LookupOutcome;
use pinyin_dict::lookup::aggregate_groups;
use pinyin_dict::render::join_strings;
use pinyin_dict::render::split_whitespace;

fn entry(traditional: &str, simplified: &str, pinyin: &str, definitions: &[&str]) -> DictEntry {
    DictEntry {
        traditional: traditional.to_string(),
        simplified: simplified.to_string(),
        pinyin: pinyin.to_string(),
        definitions: definitions.iter().map(|d| d.to_string()).collect(),
    }
}

#[test]
fn end_to_end_scenario() {
    let entries = vec![entry("學習", "学习", "xue2 xi2", &["to learn", "to study"])];
    let index = DictionaryIndex::new(entries);
    let words = vec!["学习".to_string()];
    let run = index.process_queries(&words).unwrap();
    assert_eq!(run.found_lines, vec!["学习|\"xuéxí\nto learn / to study\"".to_string()]);
    assert_eq!(run.not_found_lines.len(), 0);
}

#[test]
fn lookup_single_entry() {
    let entries = vec![entry("學習", "学习", "xue2 xi2", &["to learn", "to study"])];
    let index = DictionaryIndex::new(entries);
    match index.lookup("学习").unwrap() {
        LookupOutcome::Found(groups) => {
            assert_eq!(groups.len(), 1);
            assert_eq!(groups[0].reading, "xue2 xi2");
            assert_eq!(groups[0].rendered, "xuéxí");
            assert_eq!(groups[0].blocks, vec!["to learn / to study".to_string()]);
        },
        LookupOutcome::NotFound => panic!("entry not found"),
    }
}

#[test]
fn lookup_absent_word_is_not_found() {
    let entries = vec![entry("學習", "学习", "xue2 xi2", &["to learn", "to study"])];
    let index = DictionaryIndex::new(entries);
    match index.lookup("白日梦").unwrap() {
        LookupOutcome::Found(_) => panic!("unexpected match"),
        LookupOutcome::NotFound => {},
    }
}

#[test]
fn not_found_summary_counts_each_word_once() {
    let entries = vec![entry("貓", "猫", "mao1", &["cat"])];
    let index = DictionaryIndex::new(entries);
    let words = vec!["狗".to_string(), "猫".to_string(), "鱼".to_string()];
    let run = index.process_queries(&words).unwrap();
    assert_eq!(run.found_lines, vec!["猫|\"māo\ncat\"".to_string()]);
    assert_eq!(
        run.not_found_lines,
        vec![
            "# Could not find definition for 狗".to_string(),
            "# Could not find definition for 鱼".to_string(),
        ]
    );
    assert_eq!(run.not_found_lines.len(), 2);
}

#[test]
fn homographs_with_same_reading_merge() {
    let entries = vec![
        entry("只", "只", "zhi3", &["only", "merely"]),
        entry("隻", "只", "zhi3", &["classifier for birds"]),
    ];
    let index = DictionaryIndex::new(entries);
    match index.lookup("只").unwrap() {
        LookupOutcome::Found(groups) => {
            assert_eq!(groups.len(), 1);
            assert_eq!(groups[0].reading, "zhi3");
            assert_eq!(groups[0].rendered, "zhǐ");
            assert_eq!(
                groups[0].blocks,
                vec!["only / merely".to_string(), "classifier for birds".to_string()]
            );
        },
        LookupOutcome::NotFound => panic!("entry not found"),
    }
}

#[test]
fn homographs_with_distinct_readings_split() {
    let entries = vec![
        entry("行", "行", "xing2", &["to walk"]),
        entry("行", "行", "hang2", &["row", "profession"]),
    ];
    let index = DictionaryIndex::new(entries);
    match index.lookup("行").unwrap() {
        LookupOutcome::Found(groups) => {
            assert_eq!(groups.len(), 2);
            assert_eq!(groups[0].reading, "xing2");
            assert_eq!(groups[0].rendered, "xíng");
            assert_eq!(groups[0].blocks, vec!["to walk".to_string()]);
            assert_eq!(groups[1].reading, "hang2");
            assert_eq!(groups[1].rendered, "háng");
            assert_eq!(groups[1].blocks, vec!["row / profession".to_string()]);
        },
        LookupOutcome::NotFound => panic!("entry not found"),
    }
}

#[test]
fn groups_partition_matched_entries() {
    let entries = vec![
        entry("行", "行", "xing2", &["to walk"]),
        entry("行", "行", "hang2", &["row"]),
        entry("行", "行", "xing2", &["capable"]),
    ];
    let index = DictionaryIndex::new(entries);
    match index.lookup("行").unwrap() {
        LookupOutcome::Found(groups) => {
            let total: usize = groups.iter().map(|g| g.blocks.len()).sum();
            assert_eq!(total, 3);
            let readings: Vec<&str> = groups.iter().map(|g| g.reading.as_str()).collect();
            assert_eq!(readings, vec!["xing2", "hang2"]);
        },
        LookupOutcome::NotFound => panic!("entry not found"),
    }
}

#[test]
fn fast_path_agrees_with_general_grouping() {
    let matched = vec![entry("貓", "猫", "mao1", &["cat"])];
    let general = aggregate_groups(&matched).unwrap();
    let index = DictionaryIndex::new(matched);
    match index.lookup("猫").unwrap() {
        LookupOutcome::Found(groups) => {
            assert_eq!(groups.len(), general.len());
            assert_eq!(groups[0].reading, general[0].reading);
            assert_eq!(groups[0].rendered, general[0].rendered);
            assert_eq!(groups[0].blocks, general[0].blocks);
        },
        LookupOutcome::NotFound => panic!("entry not found"),
    }
}

#[test]
fn multi_reading_output_line_format() {
    let entries = vec![
        entry("行", "行", "xing2", &["to walk"]),
        entry("行", "行", "hang2", &["row"]),
    ];
    let index = DictionaryIndex::new(entries);
    let words = vec!["行".to_string()];
    let run = index.process_queries(&words).unwrap();
    assert_eq!(run.found_lines, vec!["行|\"xíng\nto walk\n\nháng\nrow\"".to_string()]);
}

#[test]
fn malformed_dictionary_pinyin_surfaces_error() {
    let entries = vec![entry("嗯", "嗯", "n4", &["interjection"])];
    let index = DictionaryIndex::new(entries);
    match index.lookup("嗯") {
        Err(e) => assert_eq!(e, PinyinError::InvalidSyllable),
        Ok(_) => panic!("expected a malformed-syllable error"),
    }
}

#[test]
fn split_and_join_helpers() {
    let toks = split_whitespace("xue2  xi2\tma5");
    assert_eq!(toks, vec!["xue2".to_string(), "xi2".to_string(), "ma5".to_string()]);
    assert_eq!(split_whitespace("   ").len(), 0);
    let joined = join_strings(&vec!["a".to_string(), "b".to_string(), "c".to_string()], " / ");
    assert_eq!(joined, "a / b / c");
    assert_eq!(join_strings(&Vec::new(), " / "), "");
}

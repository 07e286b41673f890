use pinyin_dict::PinyinError;
use pinyin_dict::pinyin::count_vowels;
use pinyin_dict::pinyin::numeral_to_unicode;

#[test]
fn pinyin1() {
    let input = "kan4";
    let expected_output = "kàn";
    let output = numeral_to_unicode(input).unwrap();
    assert_eq!(output, expected_output);
}

#[test]
fn pinyin2() {
    let input = "kuo3";
    let expected_output = "kuǒ";
    let output = numeral_to_unicode(input).unwrap();
    assert_eq!(output, expected_output);
}

#[test]
fn pinyin3() {
    let input = "ai3";
    let expected_output = "ǎi";
    let output = numeral_to_unicode(input).unwrap();
    assert_eq!(output, expected_output);
}

#[test]
fn pinyin4() {
    let input = "lv4";
    let expected_output = "lǜ";
    let output = numeral_to_unicode(input).unwrap();
    assert_eq!(output, expected_output);
}

#[test]
fn pinyin5() {
    let input = "lve4";
    let expected_output = "lüè";
    let output = numeral_to_unicode(input).unwrap();
    assert_eq!(output, expected_output);
}

#[test]
fn single_vowel_each_tone() {
    assert_eq!(numeral_to_unicode("ma1").unwrap(), "mā");
    assert_eq!(numeral_to_unicode("bo2").unwrap(), "bó");
    assert_eq!(numeral_to_unicode("bi3").unwrap(), "bǐ");
    assert_eq!(numeral_to_unicode("bu4").unwrap(), "bù");
    assert_eq!(numeral_to_unicode("ne1").unwrap(), "nē");
    assert_eq!(numeral_to_unicode("nv3").unwrap(), "nǚ");
}

#[test]
fn tone_zero_and_five_leave_vowel_bare() {
    assert_eq!(numeral_to_unicode("ma0").unwrap(), "ma");
    assert_eq!(numeral_to_unicode("ma5").unwrap(), "ma");
    assert_eq!(numeral_to_unicode("lv5").unwrap(), "lü");
}

#[test]
fn pass_through_without_digit() {
    assert_eq!(numeral_to_unicode("de").unwrap(), "de");
    assert_eq!(numeral_to_unicode("").unwrap(), "");
}

#[test]
fn a_rule_wins_over_later_vowels() {
    assert_eq!(numeral_to_unicode("hao3").unwrap(), "hǎo");
    assert_eq!(numeral_to_unicode("xiang4").unwrap(), "xiàng");
}

#[test]
fn e_rule_when_no_a() {
    assert_eq!(numeral_to_unicode("xue4").unwrap(), "xuè");
    assert_eq!(numeral_to_unicode("wei2").unwrap(), "wéi");
}

#[test]
fn ou_rule_marks_the_o() {
    assert_eq!(numeral_to_unicode("zhou1").unwrap(), "zhōu");
    assert_eq!(numeral_to_unicode("gou3").unwrap(), "gǒu");
}

#[test]
fn second_vowel_fallback() {
    assert_eq!(numeral_to_unicode("liu2").unwrap(), "liú");
    assert_eq!(numeral_to_unicode("hui4").unwrap(), "huì");
}

#[test]
fn no_vowel_stem_is_invalid() {
    assert_eq!(numeral_to_unicode("x4"), Err(PinyinError::InvalidSyllable));
    assert_eq!(numeral_to_unicode("4"), Err(PinyinError::InvalidSyllable));
}

#[test]
fn tone_digit_above_five_is_invalid() {
    assert_eq!(numeral_to_unicode("ma7"), Err(PinyinError::InvalidSyllable));
}

#[test]
fn vowel_counting() {
    assert_eq!(count_vowels("xue"), 2);
    assert_eq!(count_vowels("zhng"), 0);
    assert_eq!(count_vowels("lüe"), 2);
    assert_eq!(count_vowels(""), 0);
}

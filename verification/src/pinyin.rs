//! Tone-mark placement: converting a numeral-suffixed pinyin syllable such
//! as `xue4` into its diacritic form `xuè`.
//!
//! A syllable normally ends in an ASCII digit `0`..=`5` naming the tone
//! (`0` and `5` both mean "no visible mark"). The trailing digit is
//! stripped, every `v` in the stem becomes `ü`, and the tone mark lands on
//! one vowel chosen by the standard priority rule: the only vowel if there
//! is exactly one; otherwise the first `a`, else the first `e`, else the
//! first `o` when the stem contains `ou`, else the second vowel.

use vstd::prelude::*;

use crate::PinyinError;
use crate::strutil::push_char;

verus! {

/// The six characters that count as vowels when placing a tone mark.
pub open spec fn is_vowel(c: char) -> bool {
    c == 'a' || c == 'e' || c == 'i' || c == 'o' || c == 'u' || c == 'ü'
}

/// Tone table: the diacritic form of vowel `c` under tone `t`.
/// Tones 0 and 5 leave the vowel bare; so does any `t` outside the table.
pub open spec fn marked(c: char, t: int) -> char {
    if t == 1 {
        if c == 'a' { 'ā' } else if c == 'e' { 'ē' } else if c == 'i' { 'ī' }
        else if c == 'o' { 'ō' } else if c == 'u' { 'ū' } else if c == 'ü' { 'ǖ' }
        else { c }
    } else if t == 2 {
        if c == 'a' { 'á' } else if c == 'e' { 'é' } else if c == 'i' { 'í' }
        else if c == 'o' { 'ó' } else if c == 'u' { 'ú' } else if c == 'ü' { 'ǘ' }
        else { c }
    } else if t == 3 {
        if c == 'a' { 'ǎ' } else if c == 'e' { 'ě' } else if c == 'i' { 'ǐ' }
        else if c == 'o' { 'ǒ' } else if c == 'u' { 'ǔ' } else if c == 'ü' { 'ǚ' }
        else { c }
    } else if t == 4 {
        if c == 'a' { 'à' } else if c == 'e' { 'è' } else if c == 'i' { 'ì' }
        else if c == 'o' { 'ò' } else if c == 'u' { 'ù' } else if c == 'ü' { 'ǜ' }
        else { c }
    } else {
        c
    }
}

/// Whether `c` is an ASCII decimal digit.
pub open spec fn is_digit(c: char) -> bool {
    48 <= c as u32 <= 57
}

/// The numeric value of an ASCII decimal digit.
pub open spec fn digit_val(c: char) -> int {
    c as u32 - 48
}

/// The ASCII digit character for a value 0..=5.
pub open spec fn digit_char(t: int) -> char {
    if t == 0 { '0' } else if t == 1 { '1' } else if t == 2 { '2' }
    else if t == 3 { '3' } else if t == 4 { '4' } else { '5' }
}

/// The keyboard substitute `v` read as `ü`; every other character is itself.
pub open spec fn subst_c(c: char) -> char {
    if c == 'v' { 'ü' } else { c }
}

/// The stem with every `v` replaced by `ü`.
pub open spec fn subst_v(s: Seq<char>) -> Seq<char> {
    s.map_values(|c: char| subst_c(c))
}

/// Number of vowels in `s` at or after position `i`.
pub open spec fn count_from(s: Seq<char>, i: int) -> nat
    decreases s.len() - i,
{
    if i < 0 || i >= s.len() {
        0
    } else {
        (if is_vowel(s[i]) { 1nat } else { 0nat }) + count_from(s, i + 1)
    }
}

/// Number of vowels in `s`.
pub open spec fn count_vowels_spec(s: Seq<char>) -> nat {
    count_from(s, 0)
}

/// Index of the first occurrence of `c` in `s` at or after `i`; -1 if none.
pub open spec fn find_char_from(s: Seq<char>, c: char, i: int) -> int
    decreases s.len() - i,
{
    if i < 0 || i >= s.len() {
        -1
    } else if s[i] == c {
        i
    } else {
        find_char_from(s, c, i + 1)
    }
}

/// Index of the (k+1)-th vowel of `s` at or after `i`; -1 if none.
pub open spec fn find_vowel_from(s: Seq<char>, k: int, i: int) -> int
    decreases s.len() - i,
{
    if i < 0 || i >= s.len() {
        -1
    } else if is_vowel(s[i]) {
        if k == 0 {
            i
        } else {
            find_vowel_from(s, k - 1, i + 1)
        }
    } else {
        find_vowel_from(s, k, i + 1)
    }
}

/// Whether `s` contains the two-character substring `ou`.
pub open spec fn has_ou(s: Seq<char>) -> bool {
    exists|i: int| 0 <= i && i + 1 < s.len() && s[i] == 'o' && #[trigger] s[i + 1] == 'u'
}

/// The position of the vowel that receives the tone mark: the only vowel
/// when there is exactly one, else the first `a`, else the first `e`, else
/// the first `o` when the stem contains `ou`, else the second vowel.
///
/// The `ou` rule marks the first `o` of the whole stem, as no standard
/// pinyin stem holds an `o` before a separate `ou`.
pub open spec fn chosen_vowel_index(stem: Seq<char>) -> int {
    if count_vowels_spec(stem) == 1 {
        find_vowel_from(stem, 0, 0)
    } else if stem.contains('a') {
        find_char_from(stem, 'a', 0)
    } else if stem.contains('e') {
        find_char_from(stem, 'e', 0)
    } else if has_ou(stem) {
        find_char_from(stem, 'o', 0)
    } else {
        find_vowel_from(stem, 1, 0)
    }
}

/// What converting a syllable yields: the syllable itself when it does not
/// end in a digit; otherwise the stem, with `v` read as `ü`, and the chosen
/// vowel tone-marked. `None` is the malformed case: a tone digit outside
/// the table, or a stem without any vowel to mark.
pub open spec fn convert_spec(s: Seq<char>) -> Option<Seq<char>> {
    if s.len() == 0 || !is_digit(s.last()) {
        Some(s)
    } else {
        let t = digit_val(s.last());
        let stem = subst_v(s.drop_last());
        if t > 5 || count_vowels_spec(stem) == 0 {
            None
        } else {
            let i = chosen_vowel_index(stem);
            Some(stem.update(i, marked(stem[i], t)))
        }
    }
}

/// Executable form of the tone table.
pub fn mark_char(c: char, t: u32) -> (r: char)
    ensures
        r == marked(c, t as int),
{
    if t == 1 {
        if c == 'a' { 'ā' } else if c == 'e' { 'ē' } else if c == 'i' { 'ī' }
        else if c == 'o' { 'ō' } else if c == 'u' { 'ū' } else if c == 'ü' { 'ǖ' }
        else { c }
    } else if t == 2 {
        if c == 'a' { 'á' } else if c == 'e' { 'é' } else if c == 'i' { 'í' }
        else if c == 'o' { 'ó' } else if c == 'u' { 'ú' } else if c == 'ü' { 'ǘ' }
        else { c }
    } else if t == 3 {
        if c == 'a' { 'ǎ' } else if c == 'e' { 'ě' } else if c == 'i' { 'ǐ' }
        else if c == 'o' { 'ǒ' } else if c == 'u' { 'ǔ' } else if c == 'ü' { 'ǚ' }
        else { c }
    } else if t == 4 {
        if c == 'a' { 'à' } else if c == 'e' { 'è' } else if c == 'i' { 'ì' }
        else if c == 'o' { 'ò' } else if c == 'u' { 'ù' } else if c == 'ü' { 'ǜ' }
        else { c }
    } else {
        c
    }
}

/// Whether `c` is one of the six vowels.
pub fn is_vowel_char(c: char) -> (b: bool)
    ensures
        b == is_vowel(c),
{
    c == 'a' || c == 'e' || c == 'i' || c == 'o' || c == 'u' || c == 'ü'
}

/// Number of vowels in `s`.
fn count_vowels_raw(s: &str) -> (r: usize)
    ensures
        r == count_vowels_spec(s@),
        r <= s@.len(),
{
    let n = s.unicode_len();
    let mut cnt: usize = 0;
    let mut i: usize = 0;
    while i < n
        invariant
            n == s@.len(),
            i <= n,
            cnt <= i,
            count_from(s@, 0) == cnt + count_from(s@, i as int),
        decreases n - i,
    {
        let c = s.get_char(i);
        if is_vowel_char(c) {
            cnt += 1;
        }
        i += 1;
    }
    cnt
}

/// Number of vowels in `s`: the characters `a`, `e`, `i`, `o`, `u`, `ü`.
pub fn count_vowels(s: &str) -> (r: u32)
    requires
        s@.len() <= u32::MAX,
    ensures
        r as nat == count_vowels_spec(s@),
{
    count_vowels_raw(s) as u32
}

/// Index of the first occurrence of `c` in `s`, if any.
fn find_char_in(s: &str, c: char) -> (r: Option<usize>)
    ensures
        match r {
            Some(i) => i < s@.len() && s@[i as int] == c && find_char_from(s@, c, 0) == i as int,
            None => find_char_from(s@, c, 0) == -1 && forall|j: int| 0 <= j < s@.len() ==> s@[j] != c,
        },
{
    let n = s.unicode_len();
    let mut i: usize = 0;
    while i < n
        invariant
            n == s@.len(),
            i <= n,
            find_char_from(s@, c, 0) == find_char_from(s@, c, i as int),
            forall|j: int| 0 <= j < i ==> s@[j] != c,
        decreases n - i,
    {
        if s.get_char(i) == c {
            return Some(i);
        }
        i += 1;
    }
    None
}

/// Index of the (k+1)-th vowel of `s`, if `s` has more than `k` vowels.
fn find_vowel_in(s: &str, k: usize) -> (r: Option<usize>)
    ensures
        match r {
            Some(i) => i < s@.len() && is_vowel(s@[i as int]) && find_vowel_from(s@, k as int, 0)
                == i as int,
            None => count_vowels_spec(s@) <= k,
        },
{
    let n = s.unicode_len();
    let mut i: usize = 0;
    let mut kk: usize = k;
    while i < n
        invariant
            n == s@.len(),
            i <= n,
            kk <= k,
            find_vowel_from(s@, k as int, 0) == find_vowel_from(s@, kk as int, i as int),
            count_from(s@, 0) == (k - kk) + count_from(s@, i as int),
        decreases n - i,
    {
        let c = s.get_char(i);
        if is_vowel_char(c) {
            if kk == 0 {
                return Some(i);
            }
            kk -= 1;
        }
        i += 1;
    }
    None
}

/// Whether `s` contains the substring `ou`.
fn has_ou_in(s: &str) -> (b: bool)
    ensures
        b == has_ou(s@),
{
    let n = s.unicode_len();
    if n < 2 {
        return false;
    }
    let mut i: usize = 0;
    while i + 1 < n
        invariant
            n == s@.len(),
            i + 1 <= n,
            forall|j: int| 0 <= j < i ==> !(s@[j] == 'o' && #[trigger] s@[j + 1] == 'u'),
        decreases n - i,
    {
        if s.get_char(i) == 'o' && s.get_char(i + 1) == 'u' {
            return true;
        }
        i += 1;
    }
    false
}

/// Convert one numeral-suffixed pinyin syllable into its diacritic form.
///
/// A syllable that does not end in a decimal digit comes back unchanged.
/// Otherwise the digit names the tone, `v` in the stem is read as `ü`, and
/// the chosen vowel receives the mark. `Err(InvalidSyllable)` comes exactly
/// when the digit lies outside the tone table (above 5) or the stem has no
/// vowel to mark, which only malformed dictionary data produces.
pub fn numeral_to_unicode(s: &str) -> (r: Result<String, PinyinError>)
    ensures
        match r {
            Ok(out) => convert_spec(s@) == Some(out@),
            Err(e) => convert_spec(s@) == None::<Seq<char>> && e == PinyinError::InvalidSyllable,
        },
{
    let n = s.unicode_len();
    if n == 0 {
        return Ok(s.to_owned());
    }
    let last = s.get_char(n - 1);
    let lu = last as u32;
    if !(48 <= lu && lu <= 57) {
        proof {
            assert(s@.last() == last);
        }
        return Ok(s.to_owned());
    }
    let tone = lu - 48;
    if tone > 5 {
        return Err(PinyinError::InvalidSyllable);
    }
    let mut stem = String::new();
    let mut i: usize = 0;
    while i < n - 1
        invariant
            n == s@.len(),
            1 <= n,
            i <= n - 1,
            stem@.len() == i,
            forall|j: int| 0 <= j < i ==> stem@[j] == subst_c(s@[j]),
        decreases n - 1 - i,
    {
        let c = s.get_char(i);
        let c2 = if c == 'v' { 'ü' } else { c };
        push_char(&mut stem, c2);
        i += 1;
    }
    let ghost stemv = subst_v(s@.drop_last());
    proof {
        assert(stem@ =~= stemv);
    }
    let cnt = count_vowels_raw(stem.as_str());
    if cnt == 0 {
        return Err(PinyinError::InvalidSyllable);
    }
    let idx: usize;
    if cnt == 1 {
        match find_vowel_in(stem.as_str(), 0) {
            Some(i0) => {
                idx = i0;
            },
            None => {
                proof {
                    assert(false);
                }
                idx = 0;
            },
        }
    } else {
        match find_char_in(stem.as_str(), 'a') {
            Some(ia) => {
                idx = ia;
            },
            None => {
                match find_char_in(stem.as_str(), 'e') {
                    Some(ie) => {
                        idx = ie;
                    },
                    None => {
                        if has_ou_in(stem.as_str()) {
                            match find_char_in(stem.as_str(), 'o') {
                                Some(io) => {
                                    idx = io;
                                },
                                None => {
                                    proof {
                                        assert(false);
                                    }
                                    idx = 0;
                                },
                            }
                        } else {
                            match find_vowel_in(stem.as_str(), 1) {
                                Some(i1) => {
                                    idx = i1;
                                },
                                None => {
                                    proof {
                                        assert(false);
                                    }
                                    idx = 0;
                                },
                            }
                        }
                    },
                }
            },
        }
    }
    proof {
        assert(idx as int == chosen_vowel_index(stemv));
        assert(idx < stemv.len());
    }
    let marked_c = mark_char(stem.as_str().get_char(idx), tone);
    let stem_len = stem.unicode_len();
    let mut out = String::new();
    let mut j: usize = 0;
    while j < stem_len
        invariant
            stem_len == stem@.len(),
            stem@ == stemv,
            idx < stem@.len(),
            j <= stem_len,
            out@.len() == j,
            marked_c == marked(stemv[idx as int], tone as int),
            forall|t: int| 0 <= t < j ==> out@[t] == (if t == idx as int {
                marked(stemv[idx as int], tone as int)
            } else {
                stemv[t]
            }),
        decreases stem_len - j,
    {
        if j == idx {
            push_char(&mut out, marked_c);
        } else {
            let c = stem.as_str().get_char(j);
            push_char(&mut out, c);
        }
        j += 1;
    }
    proof {
        assert(out@ =~= stemv.update(idx as int, marked(stemv[idx as int], tone as int)));
        assert(s@.last() == last);
        assert(digit_val(s@.last()) == tone as int);
    }
    Ok(out)
}

/// Vowels in a range that holds none do not change the count.
proof fn lemma_count_from_skip(s: Seq<char>, i: int, m: int)
    requires
        0 <= i <= m <= s.len(),
        forall|j: int| i <= j < m ==> !is_vowel(s[j]),
    ensures
        count_from(s, i) == count_from(s, m),
    decreases m - i,
{
    if i < m {
        lemma_count_from_skip(s, i + 1, m);
    }
}

/// Searching for the (k+1)-th vowel may skip a vowel-free range.
proof fn lemma_find_vowel_skip(s: Seq<char>, k: int, i: int, m: int)
    requires
        0 <= i <= m <= s.len(),
        forall|j: int| i <= j < m ==> !is_vowel(s[j]),
    ensures
        find_vowel_from(s, k, i) == find_vowel_from(s, k, m),
    decreases m - i,
{
    if i < m {
        lemma_find_vowel_skip(s, k, i + 1, m);
    }
}

/// Tone placement on a single-vowel syllable: for any prefix without
/// vowels (and without `v`, which reads as the vowel `ü`), any vowel `v`,
/// and any tone 1..=4, converting `prefix + v + tone-digit` replaces `v`
/// with its tone-table entry and leaves the prefix untouched.
pub proof fn lemma_single_vowel_placement(prefix: Seq<char>, v: char, t: int)
    requires
        is_vowel(v),
        1 <= t <= 4,
        forall|j: int| 0 <= j < prefix.len() ==> !is_vowel(prefix[j]) && prefix[j] != 'v',
    ensures
        convert_spec(prefix + seq![v] + seq![digit_char(t)]) == Some(prefix + seq![marked(v, t)]),
{
    let s = prefix + seq![v] + seq![digit_char(t)];
    let plen = prefix.len() as int;
    assert(s.last() == digit_char(t));
    assert(is_digit(digit_char(t)));
    assert(digit_val(digit_char(t)) == t);
    assert(s.drop_last() =~= prefix + seq![v]);
    let stem = subst_v(s.drop_last());
    assert(stem =~= prefix + seq![v]);
    assert(forall|j: int| 0 <= j < plen ==> !is_vowel(stem[j]));
    lemma_count_from_skip(stem, 0, plen);
    assert(count_from(stem, plen) == 1 + count_from(stem, plen + 1));
    assert(count_vowels_spec(stem) == 1);
    lemma_find_vowel_skip(stem, 0, 0, plen);
    assert(find_vowel_from(stem, 0, plen) == plen);
    assert(chosen_vowel_index(stem) == plen);
    assert(stem.update(plen, marked(v, t)) =~= prefix + seq![marked(v, t)]);
}

/// Pass-through: a syllable that does not end in a decimal digit converts
/// to itself; in particular the empty syllable does.
pub proof fn lemma_pass_through(s: Seq<char>)
    requires
        s.len() == 0 || !is_digit(s.last()),
    ensures
        convert_spec(s) == Some(s),
{
}

} // verus!

//! Rendering a reading: split the space-separated numeral pinyin into
//! syllables, convert each to its diacritic form, and join them back with
//! no separator.

use vstd::prelude::*;

use crate::PinyinError;
use crate::pinyin::convert_spec;
use crate::pinyin::numeral_to_unicode;
use crate::strutil::push_char;

verus! {

/// Whether `c` is ASCII whitespace: space, tab, line feed, form feed or
/// carriage return.
pub open spec fn is_ws(c: char) -> bool {
    c == ' ' || c == '\t' || c == '\n' || c == '\u{c}' || c == '\r'
}

/// The whitespace-separated tokens of `s`, after a partial token `cur`
/// already read: scanning one character at a time, whitespace closes the
/// token in hand and empty tokens are dropped.
pub open spec fn split_ws_acc(s: Seq<char>, cur: Seq<char>) -> Seq<Seq<char>>
    decreases s.len(),
{
    if s.len() == 0 {
        if cur.len() == 0 {
            Seq::empty()
        } else {
            seq![cur]
        }
    } else if is_ws(s[0]) {
        if cur.len() == 0 {
            split_ws_acc(s.drop_first(), Seq::empty())
        } else {
            seq![cur] + split_ws_acc(s.drop_first(), Seq::empty())
        }
    } else {
        split_ws_acc(s.drop_first(), cur.push(s[0]))
    }
}

/// The whitespace-separated tokens of `s`.
pub open spec fn split_ws(s: Seq<char>) -> Seq<Seq<char>> {
    split_ws_acc(s, Seq::empty())
}

/// The parts joined with the separator between consecutive parts.
pub open spec fn join_sep(parts: Seq<Seq<char>>, sep: Seq<char>) -> Seq<char>
    decreases parts.len(),
{
    if parts.len() == 0 {
        Seq::empty()
    } else if parts.len() == 1 {
        parts[0]
    } else {
        join_sep(parts.drop_last(), sep) + sep + parts.last()
    }
}

/// Every token converted and the results concatenated with no separator;
/// nothing when any token is malformed.
pub open spec fn convert_all(toks: Seq<Seq<char>>) -> Option<Seq<char>>
    decreases toks.len(),
{
    if toks.len() == 0 {
        Some(Seq::empty())
    } else {
        if convert_all(toks.drop_last()) is Some && convert_spec(toks.last()) is Some {
            Some(convert_all(toks.drop_last())->0 + convert_spec(toks.last())->0)
        } else {
            None
        }
    }
}

/// The diacritic rendering of a whole reading: its whitespace-separated
/// syllables each converted, concatenated with no separator.
pub open spec fn render_spec(reading: Seq<char>) -> Option<Seq<char>> {
    convert_all(split_ws(reading))
}

/// A sequence whose conversion fails has no extension that converts.
proof fn lemma_convert_all_none(toks: Seq<Seq<char>>, i: int)
    requires
        0 <= i <= toks.len(),
        convert_all(toks.take(i)) is None,
    ensures
        convert_all(toks) is None,
    decreases toks.len() - i,
{
    if i < toks.len() {
        assert(toks.take(i + 1).drop_last() =~= toks.take(i));
        lemma_convert_all_none(toks, i + 1);
    } else {
        assert(toks.take(i) =~= toks);
    }
}

/// Whether `c` is ASCII whitespace.
fn is_ws_char(c: char) -> (b: bool)
    ensures
        b == is_ws(c),
{
    c == ' ' || c == '\t' || c == '\n' || c == '\u{c}' || c == '\r'
}

/// Split `s` on runs of ASCII whitespace, dropping empty tokens.
pub fn split_whitespace(s: &str) -> (toks: Vec<String>)
    ensures
        toks.deep_view() == split_ws(s@),
{
    let n = s.unicode_len();
    let mut toks: Vec<String> = Vec::new();
    let mut cur = String::new();
    let mut i: usize = 0;
    proof {
        assert(s@.skip(0) =~= s@);
        assert(toks.deep_view() =~= Seq::<Seq<char>>::empty());
        assert(Seq::<Seq<char>>::empty() + split_ws(s@) =~= split_ws(s@));
    }
    while i < n
        invariant
            n == s@.len(),
            i <= n,
            split_ws(s@) == toks.deep_view() + split_ws_acc(s@.skip(i as int), cur@),
        decreases n - i,
    {
        proof {
            assert(s@.skip(i as int).drop_first() =~= s@.skip(i + 1));
            assert(s@.skip(i as int)[0] == s@[i as int]);
        }
        let ghost old_cur = cur@;
        let c = s.get_char(i);
        if is_ws_char(c) {
            if !cur.as_str().is_empty() {
                let ghost old_toks = toks.deep_view();
                toks.push(cur);
                cur = String::new();
                proof {
                    assert(split_ws_acc(s@.skip(i as int), old_cur) == seq![old_cur]
                        + split_ws_acc(s@.skip(i + 1), Seq::<char>::empty()));
                    assert(toks.deep_view() =~= old_toks.push(old_cur));
                    assert(old_toks.push(old_cur) + split_ws_acc(s@.skip(i + 1), Seq::<char>::empty())
                        =~= old_toks + (seq![old_cur] + split_ws_acc(
                        s@.skip(i + 1),
                        Seq::<char>::empty(),
                    )));
                }
            } else {
                proof {
                    assert(old_cur =~= Seq::<char>::empty());
                    assert(split_ws_acc(s@.skip(i as int), old_cur) == split_ws_acc(
                        s@.skip(i + 1),
                        Seq::<char>::empty(),
                    ));
                }
            }
        } else {
            push_char(&mut cur, c);
            proof {
                assert(split_ws_acc(s@.skip(i as int), old_cur) == split_ws_acc(
                    s@.skip(i + 1),
                    old_cur.push(s@[i as int]),
                ));
            }
        }
        i += 1;
    }
    proof {
        assert(s@.skip(n as int) =~= Seq::<char>::empty());
    }
    if !cur.as_str().is_empty() {
        let ghost old_toks = toks.deep_view();
        let ghost done = cur@;
        toks.push(cur);
        proof {
            assert(toks.deep_view() =~= old_toks.push(done));
            assert(old_toks.push(done) =~= old_toks + seq![done]);
        }
    }
    toks
}

/// Join the parts with the separator between consecutive parts.
pub fn join_strings(parts: &Vec<String>, sep: &str) -> (r: String)
    ensures
        r@ == join_sep(parts.deep_view(), sep@),
{
    let mut r = String::new();
    let n = parts.len();
    let mut i: usize = 0;
    while i < n
        invariant
            n == parts@.len(),
            i <= n,
            r@ == join_sep(parts.deep_view().take(i as int), sep@),
        decreases n - i,
    {
        if i > 0 {
            r.append(sep);
        }
        r.append(parts[i].as_str());
        proof {
            assert(parts.deep_view().take(i + 1).drop_last() =~= parts.deep_view().take(i as int));
            assert(parts.deep_view().take(i + 1).last() == parts.deep_view()[i as int]);
        }
        i += 1;
    }
    proof {
        assert(parts.deep_view().take(n as int) =~= parts.deep_view());
    }
    r
}

/// Render one reading in diacritic form: split on whitespace, convert each
/// syllable, and concatenate with no separator. Fails exactly when some
/// syllable is malformed.
pub fn render_reading(reading: &str) -> (r: Result<String, PinyinError>)
    ensures
        match r {
            Ok(out) => render_spec(reading@) == Some(out@),
            Err(e) => render_spec(reading@) is None && e == PinyinError::InvalidSyllable,
        },
{
    let toks = split_whitespace(reading);
    let n = toks.len();
    let mut out = String::new();
    let mut i: usize = 0;
    while i < n
        invariant
            n == toks@.len(),
            toks.deep_view() == split_ws(reading@),
            i <= n,
            convert_all(toks.deep_view().take(i as int)) == Some(out@),
        decreases n - i,
    {
        proof {
            assert(toks.deep_view().take(i + 1).drop_last() =~= toks.deep_view().take(i as int));
            assert(toks.deep_view().take(i + 1).last() == toks.deep_view()[i as int]);
            assert(toks.deep_view()[i as int] == toks@[i as int]@);
        }
        match numeral_to_unicode(toks[i].as_str()) {
            Ok(conv) => {
                out.append(conv.as_str());
            },
            Err(e) => {
                proof {
                    lemma_convert_all_none(toks.deep_view(), i + 1);
                }
                return Err(e);
            },
        }
        i += 1;
    }
    proof {
        assert(toks.deep_view().take(n as int) =~= toks.deep_view());
    }
    Ok(out)
}

} // verus!

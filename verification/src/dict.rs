//! The dictionary index: an ordered entry list and a lookup structure from
//! simplified headword to the positions of all entries sharing it.

use vstd::prelude::*;

use crate::PinyinError;
use crate::lookup::GroupView;
use crate::lookup::LookupOutcome;
use crate::lookup::QueryRun;
use crate::lookup::ReadingGroup;
use crate::lookup::aggregate_groups;
use crate::lookup::def_block;
use crate::lookup::format_found_line;
use crate::lookup::found_line_spec;
use crate::lookup::found_lines_spec;
use crate::lookup::groups_match;
use crate::lookup::lemma_single_match_groups;
use crate::lookup::matched_of;
use crate::lookup::not_found_line_spec;
use crate::lookup::not_found_lines_spec;
use crate::lookup::readings_of;
use crate::lookup::render_fails;
use crate::render::join_strings;
use crate::render::render_reading;
use crate::render::render_spec;

verus! {

/// The mathematical model of one dictionary record: each text field as its
/// character sequence.
#[verifier::ext_equal]
pub struct EntryView {
    pub traditional: Seq<char>,
    pub simplified: Seq<char>,
    pub pinyin: Seq<char>,
    pub definitions: Seq<Seq<char>>,
}

/// One dictionary record: a traditional and a simplified headword, a
/// space-separated numeral-pinyin reading, and the English glosses.
pub struct DictEntry {
    pub traditional: String,
    pub simplified: String,
    pub pinyin: String,
    pub definitions: Vec<String>,
}

impl View for DictEntry {
    type V = EntryView;

    open spec fn view(&self) -> EntryView {
        EntryView {
            traditional: self.traditional@,
            simplified: self.simplified@,
            pinyin: self.pinyin@,
            definitions: self.definitions.deep_view(),
        }
    }
}

impl DeepView for DictEntry {
    type V = EntryView;

    open spec fn deep_view(&self) -> EntryView {
        self.view()
    }
}

impl Clone for DictEntry {
    fn clone(&self) -> (r: Self)
        ensures
            r@ == self@,
    {
        let defs = self.definitions.clone();
        let r = DictEntry {
            traditional: self.traditional.clone(),
            simplified: self.simplified.clone(),
            pinyin: self.pinyin.clone(),
            definitions: defs,
        };
        proof {
            assert(r.definitions.deep_view() =~= self.definitions.deep_view());
            assert(r@ =~= self@);
        }
        r
    }
}

/// The radix trie of the `radix_trie` crate, used as the exact-match
/// lookup structure from headword to entry positions.
#[verifier::external_type_specification]
#[verifier::external_body]
#[verifier::reject_recursive_types(K)]
#[verifier::reject_recursive_types(V)]
pub struct ExTrie<K, V>(radix_trie::Trie<K, V>);

/// The trie type instantiated as the index uses it: headword text to the
/// positions of the entries bearing it.
pub type HeadwordTrie = radix_trie::Trie<String, Vec<u32>>;

/// What the trie holds: a map from key text to stored positions. A
/// `String` key stands for its character sequence; keys encode injectively
/// (UTF-8 bytes), so distinct character sequences are distinct trie keys.
pub uninterp spec fn trie_map(t: HeadwordTrie) -> Map<Seq<char>, Seq<u32>>;

/// The contents of a trie that holds nothing.
pub open spec fn empty_contents() -> Map<Seq<char>, Seq<u32>> {
    Map::empty()
}

/// Relies on radix_trie::Trie::new: the new trie holds nothing.
#[verifier::external_body]
fn trie_new() -> (t: HeadwordTrie)
    ensures
        trie_map(t) == empty_contents(),
{
    radix_trie::Trie::new()
}

/// Relies on radix_trie::Trie::insert: the key now holds this value
/// (replacing any previous one); every other key is untouched.
#[verifier::external_body]
fn trie_insert(t: &mut HeadwordTrie, key: String, value: Vec<u32>)
    ensures
        trie_map(*final(t)) == trie_map(*old(t)).insert(key@, value@),
{
    t.insert(key, value);
}

/// Relies on radix_trie::Trie::get: returns the value stored at the key,
/// and nothing for an absent key.
#[verifier::external_body]
fn trie_get<'a>(t: &'a HeadwordTrie, key: &str) -> (r: Option<&'a Vec<u32>>)
    ensures
        match r {
            Some(v) => trie_map(*t).contains_key(key@) && v@ == trie_map(*t)[key@],
            None => !trie_map(*t).contains_key(key@),
        },
{
    t.get(key)
}

/// The headword map of an entry sequence: each simplified headword, taken
/// to the positions of all entries bearing it, in first-seen order.
pub open spec fn headword_map(entries: Seq<EntryView>) -> Map<Seq<char>, Seq<u32>>
    decreases entries.len(),
{
    if entries.len() == 0 {
        Map::empty()
    } else {
        let m = headword_map(entries.drop_last());
        let k = entries.last().simplified;
        let i = (entries.len() - 1) as u32;
        if m.contains_key(k) {
            m.insert(k, m[k].push(i))
        } else {
            m.insert(k, seq![i])
        }
    }
}

/// The positions of all entries whose simplified headword is `k`, ascending.
pub open spec fn indices_with_headword(entries: Seq<EntryView>, k: Seq<char>) -> Seq<u32>
    decreases entries.len(),
{
    if entries.len() == 0 {
        Seq::empty()
    } else {
        let p = indices_with_headword(entries.drop_last(), k);
        if entries.last().simplified == k {
            p.push((entries.len() - 1) as u32)
        } else {
            p
        }
    }
}

/// The headword map holds a key exactly when some entry bears it, and then
/// holds exactly the positions of the entries bearing it.
pub proof fn lemma_headword_map_indices(entries: Seq<EntryView>, k: Seq<char>)
    ensures
        headword_map(entries).contains_key(k) <==> indices_with_headword(entries, k).len() > 0,
        headword_map(entries).contains_key(k) ==> headword_map(entries)[k] == indices_with_headword(
            entries,
            k,
        ),
    decreases entries.len(),
{
    if entries.len() > 0 {
        lemma_headword_map_indices(entries.drop_last(), k);
    }
}

/// Every position the headword map yields is a valid index of an entry
/// bearing that headword, and positions come in ascending (first-seen) order.
pub proof fn lemma_indices_valid(entries: Seq<EntryView>, k: Seq<char>)
    requires
        entries.len() <= u32::MAX,
    ensures
        forall|j: int|
            0 <= j < indices_with_headword(entries, k).len() ==> (
            #[trigger] indices_with_headword(entries, k)[j] < entries.len()
                && entries[indices_with_headword(entries, k)[j] as int].simplified == k),
        forall|j1: int, j2: int|
            0 <= j1 < j2 < indices_with_headword(entries, k).len()
                ==> #[trigger] indices_with_headword(entries, k)[j1]
                < #[trigger] indices_with_headword(entries, k)[j2],
    decreases entries.len(),
{
    if entries.len() > 0 {
        lemma_indices_valid(entries.drop_last(), k);
        assert(forall|j: int|
            0 <= j < indices_with_headword(entries.drop_last(), k).len()
                ==> entries.drop_last()[indices_with_headword(entries.drop_last(), k)[j] as int]
                == entries[indices_with_headword(entries.drop_last(), k)[j] as int]);
    }
}

/// The positions under a headword are complete: every entry bearing it is
/// listed.
pub proof fn lemma_indices_complete(entries: Seq<EntryView>, k: Seq<char>, i: int)
    requires
        entries.len() <= u32::MAX,
        0 <= i < entries.len(),
        entries[i].simplified == k,
    ensures
        indices_with_headword(entries, k).contains(i as u32),
    decreases entries.len(),
{
    let p = indices_with_headword(entries.drop_last(), k);
    if i == entries.len() - 1 {
        assert(p.push(i as u32)[p.len() as int] == i as u32);
    } else {
        assert(entries.drop_last()[i] == entries[i]);
        lemma_indices_complete(entries.drop_last(), k, i);
        let t = choose|t: int| 0 <= t < p.len() && p[t] == i as u32;
        if entries.last().simplified == k {
            assert(p.push((entries.len() - 1) as u32)[t] == i as u32);
        }
    }
}

/// The dictionary index: the full entry list in source order, and a trie
/// from simplified headword to the positions of the entries bearing it.
/// Built once; read-only afterwards.
pub struct DictionaryIndex {
    entries: Vec<DictEntry>,
    by_headword: HeadwordTrie,
}

impl DictionaryIndex {
    /// The entry list the index was built from.
    pub closed spec fn entries_view(&self) -> Seq<EntryView> {
        self.entries.deep_view()
    }

    /// Well-formedness: the trie holds exactly the headword map of the
    /// entry list, whose positions fit in the stored index width.
    pub closed spec fn wf(&self) -> bool {
        &&& self.entries@.len() <= u32::MAX
        &&& trie_map(self.by_headword) == headword_map(self.entries.deep_view())
    }

    /// Build the index by one scan over the entries, appending each
    /// position to the list kept under its simplified headword.
    pub fn new(entries: Vec<DictEntry>) -> (index: DictionaryIndex)
        requires
            entries@.len() <= u32::MAX,
        ensures
            index.wf(),
            index.entries_view() == entries.deep_view(),
    {
        let mut trie = trie_new();
        let n = entries.len();
        let mut i: usize = 0;
        while i < n
            invariant
                n == entries@.len(),
                n <= u32::MAX,
                i <= n,
                trie_map(trie) == headword_map(entries.deep_view().take(i as int)),
            decreases n - i,
        {
            let key = entries[i].simplified.clone();
            let iu: u32 = i as u32;
            let next_list: Vec<u32> = match trie_get(&trie, key.as_str()) {
                Some(found) => {
                    let mut list = found.clone();
                    proof {
                        assert(list@ =~= found@);
                    }
                    list.push(iu);
                    list
                },
                None => {
                    let mut list: Vec<u32> = Vec::new();
                    list.push(iu);
                    list
                },
            };
            proof {
                assert(entries.deep_view().take(i + 1).drop_last() =~= entries.deep_view().take(
                    i as int,
                ));
                assert(entries.deep_view().take(i + 1).last() == entries.deep_view()[i as int]);
            }
            trie_insert(&mut trie, key, next_list);
            i += 1;
        }
        proof {
            assert(entries.deep_view().take(n as int) =~= entries.deep_view());
        }
        DictionaryIndex { entries, by_headword: trie }
    }

    /// Answer one query word: the reading groups of all entries whose
    /// simplified headword is the word, grouped by distinct reading, or
    /// `NotFound` when no entry bears it. A single matching entry takes a
    /// fast path that builds its one group directly; its answer agrees
    /// with the general grouping. Fails exactly when a matched reading
    /// cannot be rendered (malformed dictionary pinyin).
    pub fn lookup(&self, word: &str) -> (r: Result<LookupOutcome, PinyinError>)
        requires
            self.wf(),
        ensures
            ({
                let hm = headword_map(self.entries_view());
                match r {
                    Ok(out) => match out {
                        LookupOutcome::NotFound => !hm.contains_key(word@),
                        LookupOutcome::Found(gs) => hm.contains_key(word@) && groups_match(
                            matched_of(self.entries_view(), hm[word@]),
                            gs.deep_view(),
                        ),
                    },
                    Err(e) => hm.contains_key(word@) && render_fails(
                        matched_of(self.entries_view(), hm[word@]),
                    ) && e == PinyinError::InvalidSyllable,
                }
            }),
    {
        let ghost ev = self.entries.deep_view();
        let ghost hm = headword_map(ev);
        match trie_get(&self.by_headword, word) {
            None => Ok(LookupOutcome::NotFound),
            Some(positions) => {
                proof {
                    lemma_headword_map_indices(ev, word@);
                    lemma_indices_valid(ev, word@);
                    assert(positions@ == indices_with_headword(ev, word@));
                }
                let ghost m = matched_of(ev, positions@);
                let nm = positions.len();
                let mut matched: Vec<DictEntry> = Vec::new();
                let mut j: usize = 0;
                while j < nm
                    invariant
                        nm == positions@.len(),
                        j <= nm,
                        ev == self.entries.deep_view(),
                        m == matched_of(ev, positions@),
                        forall|t: int| 0 <= t < nm ==> #[trigger] positions@[t]
                            < self.entries@.len(),
                        matched.deep_view().len() == j,
                        forall|t: int| 0 <= t < j ==> #[trigger] matched.deep_view()[t] == m[t],
                    decreases nm - j,
                {
                    let pos = positions[j] as usize;
                    let e = self.entries[pos].clone();
                    let ghost eview = e@;
                    let ghost old_matched = matched.deep_view();
                    matched.push(e);
                    proof {
                        assert(eview == ev[positions@[j as int] as int]);
                        assert(eview == m[j as int]);
                        assert(matched.deep_view() =~= old_matched.push(eview));
                    }
                    j += 1;
                }
                proof {
                    assert(matched.deep_view() =~= m);
                }
                if matched.len() == 1 {
                    proof {
                        lemma_single_match_groups(m);
                    }
                    let entry = &matched[0];
                    match render_reading(entry.pinyin.as_str()) {
                        Ok(rendered) => {
                            let block = join_strings(&entry.definitions, " / ");
                            let mut blocks: Vec<String> = Vec::new();
                            blocks.push(block);
                            let reading = entry.pinyin.clone();
                            let ghost gv = GroupView {
                                reading: m[0].pinyin,
                                rendered: rendered@,
                                blocks: blocks.deep_view(),
                            };
                            let mut gs: Vec<ReadingGroup> = Vec::new();
                            gs.push(ReadingGroup { reading, rendered, blocks });
                            proof {
                                assert(gv.blocks =~= seq![def_block(m[0])]);
                                assert(gs.deep_view() =~= seq![gv]);
                                assert(groups_match(m, gs.deep_view()));
                            }
                            Ok(LookupOutcome::Found(gs))
                        },
                        Err(e) => {
                            proof {
                                assert(readings_of(m)[0] == m[0].pinyin);
                                assert(render_spec(readings_of(m)[0]) is None);
                            }
                            Err(e)
                        },
                    }
                } else {
                    match aggregate_groups(&matched) {
                        Ok(gs) => Ok(LookupOutcome::Found(gs)),
                        Err(e) => Err(e),
                    }
                }
            },
        }
    }

    /// Process a whole query run: for each word in input order, a success
    /// line with its aggregated, tone-marked readings, or a marker line
    /// when the word has no matching headword. The number of marker lines
    /// is the run's not-found count.
    pub fn process_queries(&self, words: &Vec<String>) -> (r: Result<QueryRun, PinyinError>)
        requires
            self.wf(),
        ensures
            ({
                let ev = self.entries_view();
                let ws = words.deep_view();
                match r {
                    Ok(run) => run.found_lines.deep_view() == found_lines_spec(ev, ws)
                        && run.not_found_lines.deep_view() == not_found_lines_spec(ev, ws),
                    Err(e) => (exists|j: int|
                        0 <= j < ws.len() && headword_map(ev).contains_key(#[trigger] ws[j])
                            && render_fails(matched_of(ev, headword_map(ev)[ws[j]]))) && e
                        == PinyinError::InvalidSyllable,
                }
            }),
    {
        let ghost ev = self.entries.deep_view();
        let ghost ws = words.deep_view();
        let n = words.len();
        let mut found_lines: Vec<String> = Vec::new();
        let mut not_found_lines: Vec<String> = Vec::new();
        let mut j: usize = 0;
        while j < n
            invariant
                self.wf(),
                ev == self.entries.deep_view(),
                ws == words.deep_view(),
                n == words@.len(),
                j <= n,
                found_lines.deep_view() == found_lines_spec(ev, ws.take(j as int)),
                not_found_lines.deep_view() == not_found_lines_spec(ev, ws.take(j as int)),
            decreases n - j,
        {
            proof {
                assert(ws.take(j + 1).drop_last() =~= ws.take(j as int));
                assert(ws.take(j + 1).last() == ws[j as int]);
                assert(words@[j as int]@ == ws[j as int]);
            }
            let word = &words[j];
            match self.lookup(word.as_str()) {
                Ok(LookupOutcome::NotFound) => {
                    let ghost old_lines = not_found_lines.deep_view();
                    let mut line = "# Could not find definition for ".to_owned();
                    line.append(word.as_str());
                    not_found_lines.push(line);
                    proof {
                        assert(not_found_lines.deep_view() =~= old_lines.push(not_found_line_spec(
                            ws[j as int],
                        )));
                    }
                },
                Ok(LookupOutcome::Found(gs)) => {
                    let ghost old_lines = found_lines.deep_view();
                    let line = format_found_line(
                        word.as_str(),
                        &gs,
                        Ghost(matched_of(ev, headword_map(ev)[ws[j as int]])),
                    );
                    found_lines.push(line);
                    proof {
                        assert(found_lines.deep_view() =~= old_lines.push(found_line_spec(
                            ws[j as int],
                            matched_of(ev, headword_map(ev)[ws[j as int]]),
                        )));
                    }
                },
                Err(e) => {
                    return Err(e);
                },
            }
            j += 1;
        }
        proof {
            assert(ws.take(n as int) =~= ws);
        }
        Ok(QueryRun { found_lines, not_found_lines })
    }
}

} // verus!

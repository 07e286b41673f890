//! Grouping matched entries by reading, and the output lines of a query
//! run. Homographs with different pronunciations are reported separately;
//! homographs with the same pronunciation are merged into one group.

use vstd::prelude::*;

use crate::PinyinError;
use crate::dict::DictEntry;
use crate::dict::EntryView;
use crate::dict::headword_map;
use crate::render::join_sep;
use crate::render::join_strings;
use crate::render::render_reading;
use crate::render::render_spec;

verus! {

/// The separator between the definitions of one entry.
pub open spec fn defs_sep() -> Seq<char> {
    " / "@
}

/// One entry's definition block: its glosses joined by `" / "`.
pub open spec fn def_block(e: EntryView) -> Seq<char> {
    join_sep(e.definitions, defs_sep())
}

/// The distinct readings among the matched entries, in the order each
/// reading is first encountered.
pub open spec fn readings_of(m: Seq<EntryView>) -> Seq<Seq<char>>
    decreases m.len(),
{
    if m.len() == 0 {
        Seq::empty()
    } else {
        let p = readings_of(m.drop_last());
        if p.contains(m.last().pinyin) {
            p
        } else {
            p.push(m.last().pinyin)
        }
    }
}

/// The definition blocks of the matched entries whose reading is `r`, in
/// encounter order.
pub open spec fn blocks_for(m: Seq<EntryView>, r: Seq<char>) -> Seq<Seq<char>>
    decreases m.len(),
{
    if m.len() == 0 {
        Seq::empty()
    } else {
        let p = blocks_for(m.drop_last(), r);
        if m.last().pinyin == r {
            p.push(def_block(m.last()))
        } else {
            p
        }
    }
}

/// The entries of `vs` at the given positions, in that order.
pub open spec fn matched_of(vs: Seq<EntryView>, idxs: Seq<u32>) -> Seq<EntryView> {
    Seq::new(idxs.len(), |j: int| vs[idxs[j] as int])
}

/// A reading holds `r` exactly when some matched entry bears it.
pub proof fn lemma_readings_contains(m: Seq<EntryView>, r: Seq<char>)
    ensures
        readings_of(m).contains(r) <==> exists|i: int| 0 <= i < m.len() && #[trigger] m[i].pinyin
            == r,
    decreases m.len(),
{
    if m.len() > 0 {
        let mp = m.drop_last();
        lemma_readings_contains(mp, r);
        let p = readings_of(mp);
        let last = m.last();
        if readings_of(m).contains(r) {
            if p.contains(r) {
                let i = choose|i: int| 0 <= i < mp.len() && #[trigger] mp[i].pinyin == r;
                assert(m[i].pinyin == r);
            } else {
                let g = choose|g: int|
                    0 <= g < readings_of(m).len() && readings_of(m)[g] == r;
                if g < p.len() {
                    assert(p[g] == r);
                    assert(false);
                }
                assert(m[m.len() - 1].pinyin == r);
            }
        }
        if exists|i: int| 0 <= i < m.len() && #[trigger] m[i].pinyin == r {
            let i = choose|i: int| 0 <= i < m.len() && #[trigger] m[i].pinyin == r;
            if i < m.len() - 1 {
                assert(mp[i].pinyin == r);
                assert(p.contains(r));
                if !p.contains(last.pinyin) {
                    let g = choose|g: int| 0 <= g < p.len() && p[g] == r;
                    assert(p.push(last.pinyin)[g] == r);
                }
            } else {
                if !p.contains(last.pinyin) {
                    assert(p.push(last.pinyin)[p.len() as int] == r);
                }
            }
            assert(readings_of(m).contains(r));
        }
    }
}

/// One group of the aggregated answer: a distinct reading, its diacritic
/// rendering, and one definition block per entry bearing it.
pub struct ReadingGroup {
    pub reading: String,
    pub rendered: String,
    pub blocks: Vec<String>,
}

/// The model of one group: each text as its character sequence.
#[verifier::ext_equal]
pub struct GroupView {
    pub reading: Seq<char>,
    pub rendered: Seq<char>,
    pub blocks: Seq<Seq<char>>,
}

impl View for ReadingGroup {
    type V = GroupView;

    open spec fn view(&self) -> GroupView {
        GroupView {
            reading: self.reading@,
            rendered: self.rendered@,
            blocks: self.blocks.deep_view(),
        }
    }
}

impl DeepView for ReadingGroup {
    type V = GroupView;

    open spec fn deep_view(&self) -> GroupView {
        self.view()
    }
}

/// The answer to one query word: the reading groups of the matching
/// entries, or nothing when no entry bears the word as headword.
pub enum LookupOutcome {
    Found(Vec<ReadingGroup>),
    NotFound,
}

/// The groups `gs` aggregate the matched entries `m` exactly: one group
/// per distinct reading in first-seen order, each carrying its diacritic
/// rendering and the definition blocks of its entries in encounter order.
pub open spec fn groups_match(m: Seq<EntryView>, gs: Seq<GroupView>) -> bool {
    &&& gs.len() == readings_of(m).len()
    &&& forall|g: int|
        #![trigger gs[g]]
        0 <= g < gs.len() ==> {
            &&& gs[g].reading == readings_of(m)[g]
            &&& gs[g].blocks == blocks_for(m, readings_of(m)[g])
            &&& render_spec(readings_of(m)[g]) == Some(gs[g].rendered)
        }
}

/// Some matched reading has no diacritic rendering (malformed pinyin).
pub open spec fn render_fails(m: Seq<EntryView>) -> bool {
    exists|g: int| 0 <= g < readings_of(m).len() && render_spec(#[trigger] readings_of(m)[g]) is None
}

/// Group the matched entries by distinct reading, in first-seen order,
/// rendering each reading in diacritic form.
pub fn aggregate_groups(matched: &Vec<DictEntry>) -> (r: Result<Vec<ReadingGroup>, PinyinError>)
    ensures
        match r {
            Ok(gs) => groups_match(matched.deep_view(), gs.deep_view()),
            Err(e) => render_fails(matched.deep_view()) && e == PinyinError::InvalidSyllable,
        },
{
    let ghost m = matched.deep_view();
    let n = matched.len();
    let mut gs: Vec<ReadingGroup> = Vec::new();
    let mut j: usize = 0;
    while j < n
        invariant
            m == matched.deep_view(),
            n == matched@.len(),
            j <= n,
            gs.deep_view().len() == readings_of(m.take(j as int)).len(),
            forall|g: int|
                #![trigger gs.deep_view()[g]]
                0 <= g < gs.deep_view().len() ==> {
                    &&& gs.deep_view()[g].reading == readings_of(m.take(j as int))[g]
                    &&& gs.deep_view()[g].blocks == blocks_for(m, readings_of(m.take(j as int))[g])
                    &&& render_spec(readings_of(m.take(j as int))[g]) == Some(
                        gs.deep_view()[g].rendered,
                    )
                },
        decreases n - j,
    {
        proof {
            assert(m.take(j + 1).drop_last() =~= m.take(j as int));
            assert(m.take(j + 1).last() == m[j as int]);
        }
        let mut seen = false;
        let mut t: usize = 0;
        while t < j
            invariant
                m == matched.deep_view(),
                n == matched@.len(),
                j < n,
                t <= j,
                seen == exists|u: int| 0 <= u < t && #[trigger] m[u].pinyin == m[j as int].pinyin,
            decreases j - t,
        {
            if matched[t].pinyin == matched[j].pinyin {
                seen = true;
                proof {
                    assert(m[t as int].pinyin == m[j as int].pinyin);
                }
            }
            t += 1;
        }
        proof {
            lemma_readings_contains(m.take(j as int), m[j as int].pinyin);
            assert(forall|u: int| 0 <= u < j ==> #[trigger] m.take(j as int)[u] == m[u]);
            if seen {
                let u = choose|u: int| 0 <= u < j && #[trigger] m[u].pinyin == m[j as int].pinyin;
                assert(m.take(j as int)[u].pinyin == m[j as int].pinyin);
                assert(readings_of(m.take(j as int)).contains(m[j as int].pinyin));
            } else {
                assert(forall|u: int| 0 <= u < j ==> #[trigger] m[u].pinyin != m[j as int].pinyin);
                assert(!readings_of(m.take(j as int)).contains(m[j as int].pinyin));
            }
        }
        if !seen {
            let mut blocks: Vec<String> = Vec::new();
            let mut k: usize = 0;
            while k < n
                invariant
                    m == matched.deep_view(),
                    n == matched@.len(),
                    j < n,
                    k <= n,
                    blocks.deep_view() == blocks_for(m.take(k as int), m[j as int].pinyin),
                decreases n - k,
            {
                proof {
                    assert(m.take(k + 1).drop_last() =~= m.take(k as int));
                    assert(m.take(k + 1).last() == m[k as int]);
                }
                if matched[k].pinyin == matched[j].pinyin {
                    let ghost old_blocks = blocks.deep_view();
                    let b = join_strings(&matched[k].definitions, " / ");
                    blocks.push(b);
                    proof {
                        assert(blocks.deep_view() =~= old_blocks.push(def_block(m[k as int])));
                    }
                }
                k += 1;
            }
            proof {
                assert(m.take(n as int) =~= m);
            }
            let rendered = match render_reading(matched[j].pinyin.as_str()) {
                Ok(x) => x,
                Err(e) => {
                    proof {
                        lemma_readings_contains(m, m[j as int].pinyin);
                        assert(readings_of(m).contains(m[j as int].pinyin));
                        let g = choose|g: int|
                            0 <= g < readings_of(m).len() && readings_of(m)[g] == m[
                                j as int
                            ].pinyin;
                        assert(render_spec(readings_of(m)[g]) is None);
                    }
                    return Err(e);
                },
            };
            let ghost old_gs = gs.deep_view();
            let ghost gv = GroupView {
                reading: m[j as int].pinyin,
                rendered: rendered@,
                blocks: blocks.deep_view(),
            };
            gs.push(ReadingGroup { reading: matched[j].pinyin.clone(), rendered, blocks });
            proof {
                assert(gs.deep_view() =~= old_gs.push(gv));
                let rs = readings_of(m.take(j as int));
                assert(readings_of(m.take(j + 1)) == rs.push(m[j as int].pinyin));
                assert(forall|g: int| 0 <= g < old_gs.len() ==> #[trigger] gs.deep_view()[g]
                    == old_gs[g]);
                assert(forall|g: int| 0 <= g < rs.len() ==> #[trigger] rs.push(
                    m[j as int].pinyin,
                )[g] == rs[g]);
                assert(gs.deep_view()[old_gs.len() as int] == gv);
                assert(rs.push(m[j as int].pinyin)[rs.len() as int] == m[j as int].pinyin);
            }
        } else {
            proof {
                assert(readings_of(m.take(j + 1)) == readings_of(m.take(j as int)));
            }
        }
        j += 1;
    }
    proof {
        assert(m.take(n as int) =~= m);
    }
    Ok(gs)
}

/// With a single matched entry the general grouping degenerates to one
/// group: the entry's reading, with its one definition block. The
/// single-match fast path and the general path therefore agree.
pub proof fn lemma_single_match_groups(m: Seq<EntryView>)
    requires
        m.len() == 1,
    ensures
        readings_of(m) == seq![m[0].pinyin],
        blocks_for(m, m[0].pinyin) == seq![def_block(m[0])],
{
    let e = Seq::<EntryView>::empty();
    assert(m.drop_last() =~= e);
    assert(readings_of(e) == Seq::<Seq<char>>::empty());
    assert(blocks_for(e, m[0].pinyin) == Seq::<Seq<char>>::empty());
    assert(m.last() == m[0]);
    assert(readings_of(m) == readings_of(e).push(m.last().pinyin));
    assert(readings_of(m) =~= seq![m[0].pinyin]);
    assert(blocks_for(m, m[0].pinyin) == blocks_for(e, m[0].pinyin).push(def_block(m.last())));
    assert(blocks_for(m, m[0].pinyin) =~= seq![def_block(m[0])]);
}

/// How many elements of `rs` equal `r`.
pub open spec fn count_eq(rs: Seq<Seq<char>>, r: Seq<char>) -> nat
    decreases rs.len(),
{
    if rs.len() == 0 {
        0
    } else {
        count_eq(rs.drop_last(), r) + (if rs.last() == r {
            1nat
        } else {
            0nat
        })
    }
}

/// The total number of definition blocks over the readings `rs`.
pub open spec fn sum_block_counts(m: Seq<EntryView>, rs: Seq<Seq<char>>) -> nat
    decreases rs.len(),
{
    if rs.len() == 0 {
        0
    } else {
        sum_block_counts(m, rs.drop_last()) + blocks_for(m, rs.last()).len()
    }
}

/// The distinct readings hold no repeats.
proof fn lemma_readings_no_dup(m: Seq<EntryView>)
    ensures
        readings_of(m).no_duplicates(),
    decreases m.len(),
{
    if m.len() > 0 {
        lemma_readings_no_dup(m.drop_last());
        let p = readings_of(m.drop_last());
        if !p.contains(m.last().pinyin) {
            assert(forall|i: int| 0 <= i < p.len() ==> #[trigger] p.push(m.last().pinyin)[i]
                == p[i]);
        }
    }
}

/// In a repeat-free sequence, a present element is counted exactly once.
proof fn lemma_count_eq_unique(rs: Seq<Seq<char>>, r: Seq<char>)
    requires
        rs.no_duplicates(),
    ensures
        count_eq(rs, r) == if rs.contains(r) {
            1nat
        } else {
            0nat
        },
    decreases rs.len(),
{
    if rs.len() > 0 {
        let p = rs.drop_last();
        assert(forall|i: int| 0 <= i < p.len() ==> #[trigger] p[i] == rs[i]);
        lemma_count_eq_unique(p, r);
        if rs.last() == r {
            if p.contains(r) {
                let i = choose|i: int| 0 <= i < p.len() && p[i] == r;
                assert(rs[i] == rs[rs.len() - 1]);
                assert(false);
            }
            assert(rs[rs.len() - 1] == r);
        } else {
            if p.contains(r) {
                let i = choose|i: int| 0 <= i < p.len() && p[i] == r;
                assert(rs[i] == r);
            }
            if rs.contains(r) {
                let i = choose|i: int| 0 <= i < rs.len() && rs[i] == r;
                assert(i < rs.len() - 1);
                assert(p[i] == r);
            }
        }
    }
}

/// A reading no entry bears has no definition blocks.
proof fn lemma_blocks_for_absent(m: Seq<EntryView>, r: Seq<char>)
    requires
        forall|i: int| 0 <= i < m.len() ==> #[trigger] m[i].pinyin != r,
    ensures
        blocks_for(m, r) == Seq::<Seq<char>>::empty(),
    decreases m.len(),
{
    if m.len() > 0 {
        assert(forall|i: int| 0 <= i < m.len() - 1 ==> #[trigger] m.drop_last()[i] == m[i]);
        lemma_blocks_for_absent(m.drop_last(), r);
        assert(m[m.len() - 1].pinyin != r);
    }
}

/// Appending one entry adds one block to each reading it bears.
proof fn lemma_sum_extend(mp: Seq<EntryView>, e: EntryView, rs: Seq<Seq<char>>)
    ensures
        sum_block_counts(mp.push(e), rs) == sum_block_counts(mp, rs) + count_eq(rs, e.pinyin),
    decreases rs.len(),
{
    if rs.len() > 0 {
        lemma_sum_extend(mp, e, rs.drop_last());
        let m2 = mp.push(e);
        assert(m2.drop_last() =~= mp);
        assert(m2.last() == e);
        assert(blocks_for(m2, rs.last()) == if e.pinyin == rs.last() {
            blocks_for(mp, rs.last()).push(def_block(e))
        } else {
            blocks_for(mp, rs.last())
        });
    }
}

/// The reading groups partition the matched entries: the readings are
/// distinct, every matched entry's reading stands among them, and the
/// groups' definition blocks together number exactly the matched entries —
/// so each entry's block lies in exactly one group.
pub proof fn lemma_groups_partition(m: Seq<EntryView>)
    ensures
        readings_of(m).no_duplicates(),
        forall|i: int| 0 <= i < m.len() ==> readings_of(m).contains(#[trigger] m[i].pinyin),
        sum_block_counts(m, readings_of(m)) == m.len(),
    decreases m.len(),
{
    lemma_readings_no_dup(m);
    assert forall|i: int| 0 <= i < m.len() implies readings_of(m).contains(
        #[trigger] m[i].pinyin,
    ) by {
        lemma_readings_contains(m, m[i].pinyin);
    }
    if m.len() == 0 {
        assert(readings_of(m) == Seq::<Seq<char>>::empty());
    } else {
        let mp = m.drop_last();
        let e = m.last();
        lemma_groups_partition(mp);
        lemma_readings_no_dup(mp);
        let rs = readings_of(mp);
        assert(m =~= mp.push(e));
        lemma_readings_contains(mp, e.pinyin);
        if rs.contains(e.pinyin) {
            assert(readings_of(m) == rs);
            lemma_sum_extend(mp, e, rs);
            lemma_count_eq_unique(rs, e.pinyin);
            assert(sum_block_counts(m, rs) == sum_block_counts(mp.push(e), rs));
        } else {
            assert(readings_of(m) == rs.push(e.pinyin));
            assert(rs.push(e.pinyin).drop_last() =~= rs);
            assert(rs.push(e.pinyin).last() == e.pinyin);
            lemma_sum_extend(mp, e, rs);
            lemma_count_eq_unique(rs, e.pinyin);
            assert(sum_block_counts(m, rs) == sum_block_counts(mp.push(e), rs));
            assert(forall|i: int| 0 <= i < mp.len() ==> #[trigger] mp[i].pinyin != e.pinyin);
            lemma_blocks_for_absent(mp, e.pinyin);
            assert(blocks_for(m, e.pinyin) == blocks_for(mp, e.pinyin).push(def_block(e)));
            assert(sum_block_counts(m, rs.push(e.pinyin)) == sum_block_counts(m, rs)
                + blocks_for(m, e.pinyin).len());
        }
    }
}

/// The marker line prefix for a word with no matching headword.
pub open spec fn marker_prefix() -> Seq<char> {
    "# Could not find definition for "@
}

/// The text of one group in the output: the rendered reading, a line
/// break, and the group's definition blocks joined by line breaks.
pub open spec fn group_text(m: Seq<EntryView>, r: Seq<char>) -> Seq<char> {
    render_spec(r)->0 + "\n"@ + join_sep(blocks_for(m, r), "\n"@)
}

/// The texts of all groups, in first-seen reading order.
pub open spec fn group_texts(m: Seq<EntryView>) -> Seq<Seq<char>> {
    Seq::new(readings_of(m).len(), |g: int| group_text(m, readings_of(m)[g]))
}

/// The success line for a query word: the word, then the group texts
/// joined by blank lines, quoted.
pub open spec fn found_line_spec(w: Seq<char>, m: Seq<EntryView>) -> Seq<char> {
    w + "|\""@ + join_sep(group_texts(m), "\n\n"@) + "\""@
}

/// The marker line for a query word with no matching headword.
pub open spec fn not_found_line_spec(w: Seq<char>) -> Seq<char> {
    marker_prefix() + w
}

/// The success lines of a query run: one per word with a matching
/// headword, in input order.
pub open spec fn found_lines_spec(ev: Seq<EntryView>, ws: Seq<Seq<char>>) -> Seq<Seq<char>>
    decreases ws.len(),
{
    if ws.len() == 0 {
        Seq::empty()
    } else {
        let p = found_lines_spec(ev, ws.drop_last());
        if headword_map(ev).contains_key(ws.last()) {
            p.push(found_line_spec(ws.last(), matched_of(ev, headword_map(ev)[ws.last()])))
        } else {
            p
        }
    }
}

/// The marker lines of a query run: one per word without a matching
/// headword, in input order.
pub open spec fn not_found_lines_spec(ev: Seq<EntryView>, ws: Seq<Seq<char>>) -> Seq<Seq<char>>
    decreases ws.len(),
{
    if ws.len() == 0 {
        Seq::empty()
    } else {
        let p = not_found_lines_spec(ev, ws.drop_last());
        if headword_map(ev).contains_key(ws.last()) {
            p
        } else {
            p.push(not_found_line_spec(ws.last()))
        }
    }
}

/// How many query words have no matching headword.
pub open spec fn not_found_count(ev: Seq<EntryView>, ws: Seq<Seq<char>>) -> nat
    decreases ws.len(),
{
    if ws.len() == 0 {
        0
    } else {
        not_found_count(ev, ws.drop_last()) + (if headword_map(ev).contains_key(ws.last()) {
            0nat
        } else {
            1nat
        })
    }
}

/// The not-found summary is complete: the marker lines number exactly the
/// query words without a matching headword — each such word contributes
/// exactly one marker line to the run.
pub proof fn lemma_not_found_summary(ev: Seq<EntryView>, ws: Seq<Seq<char>>)
    ensures
        not_found_lines_spec(ev, ws).len() == not_found_count(ev, ws),
    decreases ws.len(),
{
    if ws.len() > 0 {
        lemma_not_found_summary(ev, ws.drop_last());
    }
}

/// The answer lines of a whole query run: the success lines in input
/// order, and the marker lines of the words that were not found, whose
/// number is the not-found count of the run.
pub struct QueryRun {
    pub found_lines: Vec<String>,
    pub not_found_lines: Vec<String>,
}

/// Build the success line for a word from its aggregated groups.
pub(crate) fn format_found_line(
    word: &str,
    gs: &Vec<ReadingGroup>,
    Ghost(m): Ghost<Seq<EntryView>>,
) -> (line: String)
    requires
        groups_match(m, gs.deep_view()),
    ensures
        line@ == found_line_spec(word@, m),
{
    let mut texts: Vec<String> = Vec::new();
    let n = gs.len();
    let mut g: usize = 0;
    while g < n
        invariant
            n == gs@.len(),
            g <= n,
            groups_match(m, gs.deep_view()),
            texts.deep_view().len() == g,
            forall|x: int| 0 <= x < g ==> #[trigger] texts.deep_view()[x] == group_text(
                m,
                readings_of(m)[x],
            ),
        decreases n - g,
    {
        let ghost old_texts = texts.deep_view();
        let mut text = gs[g].rendered.clone();
        text.append("\n");
        let joined = join_strings(&gs[g].blocks, "\n");
        text.append(joined.as_str());
        proof {
            assert(gs.deep_view()[g as int] == gs@[g as int].deep_view());
            assert(text@ =~= group_text(m, readings_of(m)[g as int]));
        }
        texts.push(text);
        proof {
            assert(texts.deep_view() =~= old_texts.push(group_text(m, readings_of(m)[g as int])));
        }
        g += 1;
    }
    proof {
        assert(texts.deep_view() =~= group_texts(m));
    }
    let block = join_strings(&texts, "\n\n");
    let mut line = word.to_owned();
    line.append("|\"");
    line.append(block.as_str());
    line.append("\"");
    proof {
        assert(line@ =~= found_line_spec(word@, m));
    }
    line
}

} // verus!

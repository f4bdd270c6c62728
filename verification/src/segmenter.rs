//! The segmenter: corpus ingestion for training, and greedy left-to-right
//! word-boundary prediction over new text.
//!
//! Both directions work on a padded view of the sentence: three synthetic
//! begin entries and three end entries around the real characters, so
//! that every position has well-defined neighbours at offsets -3 to +2.
//! During training the boundary tags come from the gold segmentation;
//! during inference each predicted tag feeds the features of the next
//! position.

use vstd::prelude::*;

use crate::adaboost::AdaBoost;
use crate::features::spec_attributes;

verus! {

/// Each character as a one-character string.
pub open spec fn one_char_strs(s: Seq<char>) -> Seq<Seq<char>> {
    Seq::new(s.len(), |k: int| seq![s[k]])
}

/// Each character's script label.
pub open spec fn type_strs(s: Seq<char>) -> Seq<Seq<char>> {
    Seq::new(s.len(), |k: int| crate::chartype::spec_char_type(seq![s[k]]))
}

/// The padded character array of a sentence.
pub open spec fn padded_chars(s: Seq<char>) -> Seq<Seq<char>> {
    seq!["B3"@, "B2"@, "B1"@] + one_char_strs(s) + seq!["E1"@, "E2"@, "E3"@]
}

/// The padded script-label array of a sentence.
pub open spec fn padded_types(s: Seq<char>) -> Seq<Seq<char>> {
    seq!["O"@, "O"@, "O"@] + type_strs(s) + seq!["O"@, "O"@, "O"@]
}

/// The gold boundary tags of one word: `B` on its first character, `O`
/// on the rest.
pub open spec fn word_tags(w: Seq<char>) -> Seq<Seq<char>> {
    seq!["B"@] + Seq::new((w.len() - 1) as nat, |k: int| "O"@)
}

/// The gold tags of a word list.
pub open spec fn flat_tags(ws: Seq<Seq<char>>) -> Seq<Seq<char>>
    decreases ws.len(),
{
    if ws.len() == 0 {
        seq![]
    } else {
        word_tags(ws[0]) + flat_tags(ws.drop_first())
    }
}

/// The concatenated characters of a word list, as one-character strings.
pub open spec fn flat_chars(ws: Seq<Seq<char>>) -> Seq<Seq<char>>
    decreases ws.len(),
{
    if ws.len() == 0 {
        seq![]
    } else {
        one_char_strs(ws[0]) + flat_chars(ws.drop_first())
    }
}

/// The concatenated script labels of a word list.
pub open spec fn flat_types(ws: Seq<Seq<char>>) -> Seq<Seq<char>>
    decreases ws.len(),
{
    if ws.len() == 0 {
        seq![]
    } else {
        type_strs(ws[0]) + flat_types(ws.drop_first())
    }
}

/// The padded training tag array: three neutral entries, the gold tags,
/// and the tag just before the first real character forced to neutral.
pub open spec fn corpus_tags(ws: Seq<Seq<char>>) -> Seq<Seq<char>> {
    (seq!["U"@, "U"@, "U"@] + flat_tags(ws)).update(3, "U"@)
}

/// The padded training character array.
pub open spec fn corpus_chars(ws: Seq<Seq<char>>) -> Seq<Seq<char>> {
    seq!["B3"@, "B2"@, "B1"@] + flat_chars(ws) + seq!["E1"@, "E2"@, "E3"@]
}

/// The padded training script-label array.
pub open spec fn corpus_types(ws: Seq<Seq<char>>) -> Seq<Seq<char>> {
    seq!["O"@, "O"@, "O"@] + flat_types(ws) + seq!["O"@, "O"@, "O"@]
}

/// The classifier instances of the padded arrays from position `i` on:
/// each position's feature set, labelled `+1` on a `B` tag and `-1`
/// otherwise.
pub open spec fn spec_instances(
    tags: Seq<Seq<char>>,
    chars: Seq<Seq<char>>,
    types: Seq<Seq<char>>,
    i: int,
) -> Seq<(Seq<Seq<char>>, int)>
    decreases chars.len() - 3 - i,
{
    if i < 0 || i >= chars.len() - 3 {
        seq![]
    } else {
        seq![
            (spec_attributes(tags, chars, types, i), if tags[i] == "B"@ {
                1int
            } else {
                -1int
            }),
        ] + spec_instances(tags, chars, types, i + 1)
    }
}

/// The instances of one gold-segmented line: empty for an empty line or
/// one without real characters, else one instance per position after the
/// first real character.
pub open spec fn spec_corpus_instances(corpus: Seq<char>) -> Seq<(Seq<Seq<char>>, int)> {
    if corpus.len() == 0 {
        seq![]
    } else {
        let ws = crate::strutil::split_sp(corpus);
        if 3 + flat_tags(ws).len() < 4 {
            seq![]
        } else {
            spec_instances(corpus_tags(ws), corpus_chars(ws), corpus_types(ws), 4)
        }
    }
}

/// The instance list covers each position once.
pub proof fn lemma_instances_len(
    tags: Seq<Seq<char>>,
    chars: Seq<Seq<char>>,
    types: Seq<Seq<char>>,
    i: int,
)
    ensures
        spec_instances(tags, chars, types, i).len() == if i < 0 || i >= chars.len() - 3 {
            0int
        } else {
            chars.len() - 3 - i
        },
        forall|j: int|
            0 <= j < spec_instances(tags, chars, types, i).len()
                ==> (#[trigger] spec_instances(tags, chars, types, i)[j].1 == 1
                || spec_instances(tags, chars, types, i)[j].1 == -1),
    decreases chars.len() - 3 - i,
{
    if !(i < 0 || i >= chars.len() - 3) {
        lemma_instances_len(tags, chars, types, i + 1);
    }
}

/// Flattened tags extend word by word.
pub proof fn lemma_flat_push(ws: Seq<Seq<char>>, w: Seq<char>)
    ensures
        flat_tags(ws.push(w)) == flat_tags(ws) + word_tags(w),
        flat_chars(ws.push(w)) == flat_chars(ws) + one_char_strs(w),
        flat_types(ws.push(w)) == flat_types(ws) + type_strs(w),
    decreases ws.len(),
{
    if ws.len() == 0 {
        assert(ws.push(w)[0] == w);
        assert(ws.push(w).drop_first() =~= Seq::<Seq<char>>::empty());
        assert(flat_tags(ws) + word_tags(w) =~= word_tags(w) + flat_tags(
            Seq::<Seq<char>>::empty(),
        ));
        assert(flat_chars(ws) + one_char_strs(w) =~= one_char_strs(w) + flat_chars(
            Seq::<Seq<char>>::empty(),
        ));
        assert(flat_types(ws) + type_strs(w) =~= type_strs(w) + flat_types(
            Seq::<Seq<char>>::empty(),
        ));
    } else {
        assert(ws.push(w)[0] == ws[0]);
        assert(ws.push(w).drop_first() =~= ws.drop_first().push(w));
        lemma_flat_push(ws.drop_first(), w);
        assert(word_tags(ws[0]) + (flat_tags(ws.drop_first()) + word_tags(w)) =~= (word_tags(
            ws[0],
        ) + flat_tags(ws.drop_first())) + word_tags(w));
        assert(one_char_strs(ws[0]) + (flat_chars(ws.drop_first()) + one_char_strs(w)) =~= (
        one_char_strs(ws[0]) + flat_chars(ws.drop_first())) + one_char_strs(w));
        assert(type_strs(ws[0]) + (flat_types(ws.drop_first()) + type_strs(w)) =~= (type_strs(
            ws[0],
        ) + flat_types(ws.drop_first())) + type_strs(w));
    }
}

/// One inference transition sequence: from position `i`, with the tag
/// history and the word accumulated since the last boundary, the model's
/// decision at each position either flushes the accumulator (on a
/// predicted boundary) or extends it, and the final accumulator is
/// flushed after the last position.
pub open spec fn spec_segment_from(
    m: Seq<int>,
    vocab: Seq<Seq<char>>,
    tags: Seq<Seq<char>>,
    chars: Seq<Seq<char>>,
    types: Seq<Seq<char>>,
    i: int,
    word: Seq<char>,
    acc: Seq<Seq<char>>,
) -> Seq<Seq<char>>
    decreases chars.len() - 3 - i,
{
    if i < 4 || i >= chars.len() - 3 {
        acc.push(word)
    } else {
        let attrs = spec_attributes(tags, chars, types, i);
        if crate::adaboost::spec_score2(m, vocab, attrs) >= 0 {
            spec_segment_from(m, vocab, tags.push("B"@), chars, types, i + 1, chars[i],
                acc.push(word))
        } else {
            spec_segment_from(m, vocab, tags.push("O"@), chars, types, i + 1, word + chars[i],
                acc)
        }
    }
}

/// The token sequence that the model assigns to a sentence: empty for an
/// empty sentence, else the inference loop started with a neutral tag
/// history on the first real character.
pub open spec fn spec_segment(m: Seq<int>, vocab: Seq<Seq<char>>, s: Seq<char>) -> Seq<Seq<char>> {
    if s.len() == 0 {
        seq![]
    } else {
        spec_segment_from(m, vocab, seq!["U"@, "U"@, "U"@, "U"@], padded_chars(s),
            padded_types(s), 4, seq![s[0]], seq![])
    }
}

/// A text segmenter: the boosted classifier together with the feature
/// extraction that turns text into classifier instances.
pub struct Segmenter {
    /// The underlying classifier.
    pub learner: AdaBoost,
}

impl Segmenter {
    /// A segmenter over the given classifier, or over a freshly
    /// constructed one with the usual training parameters.
    pub fn new(learner: Option<AdaBoost>) -> (r: Segmenter)
        ensures
            learner is Some ==> r.learner == learner->0,
            learner is None ==> r.learner.wf() && r.learner.num_instances == 0
                && r.learner.threshold == 10_000_000_000i64 && r.learner.num_iterations == 100
                && r.learner.num_threads == 1 && r.learner.weights() =~= Seq::<int>::empty()
                && r.learner.vocab() =~= Seq::<Seq<char>>::empty() && r.learner.dweights()
                =~= Seq::<int>::empty(),
    {
        match learner {
            Option::Some(l) => Segmenter { learner: l },
            Option::None => Segmenter { learner: AdaBoost::new(10_000_000_000, 100, 1) },
        }
    }

    /// The script label of a string: that of the first class any of its
    /// characters falls in.
    pub fn get_type(&self, ch: &str) -> (r: &'static str)
        ensures
            r@ == crate::chartype::spec_char_type(ch@),
    {
        crate::chartype::str_type(ch)
    }

    /// The 41 context features of position `i` in the padded arrays.
    pub fn get_attributes(&self, i: usize, tags: &Vec<String>, chars: &Vec<String>, types: &Vec<
        String,
    >) -> (r: Vec<String>)
        requires
            3 <= i,
            i + 2 < chars.len(),
            chars.len() == types.len(),
            i <= tags.len(),
        ensures
            r.deep_view() == spec_attributes(tags.deep_view(), chars.deep_view(),
                types.deep_view(), i as int),
    {
        crate::features::extract_attributes(i, tags, chars, types)
    }
}

/// Build the padded training arrays of a gold-segmented line: its words'
/// tags, characters and script labels between the sentinel entries, with
/// the tag before the first real character forced to neutral.
fn build_corpus_arrays(corpus: &str) -> (r: (Vec<String>, Vec<String>, Vec<String>))
    ensures
        ({
            let ws = crate::strutil::split_sp(corpus@);
            &&& flat_tags(ws).len() >= 1 ==> r.0.deep_view() == corpus_tags(ws)
            &&& r.1.deep_view() == corpus_chars(ws)
            &&& r.2.deep_view() == corpus_types(ws)
            &&& r.0@.len() == 3 + flat_tags(ws).len()
            &&& r.1@.len() == 6 + flat_chars(ws).len()
            &&& r.2@.len() == r.1@.len()
            &&& flat_tags(ws).len() == flat_chars(ws).len()
        }),
{
    let ghost ws = crate::strutil::split_sp(corpus@);
    let words = crate::strutil::exec_split_sp(corpus);
    let mut tags: Vec<String> = Vec::new();
    let mut chars: Vec<String> = Vec::new();
    let mut types: Vec<String> = Vec::new();
    tags.push(String::from_str("U"));
    tags.push(String::from_str("U"));
    tags.push(String::from_str("U"));
    chars.push(String::from_str("B3"));
    chars.push(String::from_str("B2"));
    chars.push(String::from_str("B1"));
    types.push(String::from_str("O"));
    types.push(String::from_str("O"));
    types.push(String::from_str("O"));
    let nw = words.len();
    let mut k: usize = 0;
    proof {
        lemma_split_sp_tokens(corpus@);
        assert(tags.deep_view() =~= seq!["U"@, "U"@, "U"@] + flat_tags(ws.take(0)));
        assert(chars.deep_view() =~= seq!["B3"@, "B2"@, "B1"@] + flat_chars(ws.take(0)));
        assert(types.deep_view() =~= seq!["O"@, "O"@, "O"@] + flat_types(ws.take(0)));
    }
    while k < nw
        invariant
            0 <= k <= nw,
            nw == words@.len(),
            ws == words.deep_view(),
            forall|j: int| 0 <= j < ws.len() ==> (#[trigger] ws[j]).len() >= 1,
            tags.deep_view() =~= seq!["U"@, "U"@, "U"@] + flat_tags(ws.take(k as int)),
            chars.deep_view() =~= seq!["B3"@, "B2"@, "B1"@] + flat_chars(ws.take(k as int)),
            types.deep_view() =~= seq!["O"@, "O"@, "O"@] + flat_types(ws.take(k as int)),
            flat_tags(ws.take(k as int)).len() == flat_chars(ws.take(k as int)).len(),
            flat_types(ws.take(k as int)).len() == flat_chars(ws.take(k as int)).len(),
        decreases nw - k,
    {
        let w = crate::strutil::to_char_vec(words[k].as_str());
        let wn = w.len();
        proof {
            assert(ws.take(k + 1) =~= ws.take(k as int).push(ws[k as int]));
            lemma_flat_push(ws.take(k as int), ws[k as int]);
            assert(w@ == words@[k as int]@);
            assert(words@[k as int]@ == ws[k as int]);
        }
        proof {
            assert(wn >= 1);
        }
        let mut t: usize = 0;
        let ghost tag0 = tags.deep_view();
        let ghost chars0 = chars.deep_view();
        let ghost types0 = types.deep_view();
        while t < wn
            invariant
                0 <= t <= wn,
                wn == w@.len(),
                w@ == ws[k as int],
                tags.deep_view() =~= tag0 + (if t == 0 {
                    Seq::<Seq<char>>::empty()
                } else {
                    word_tags(ws[k as int]).take(t as int)
                }),
                chars.deep_view() =~= chars0 + one_char_strs(ws[k as int]).take(t as int),
                types.deep_view() =~= types0 + type_strs(ws[k as int]).take(t as int),
            decreases wn - t,
        {
            let c = w[t];
            let ghost tpre = tags.deep_view();
            let ghost cpre = chars.deep_view();
            let ghost ypre = types.deep_view();
            if t == 0 {
                tags.push(String::from_str("B"));
            } else {
                tags.push(String::from_str("O"));
            }
            let cs = crate::strutil::char_to_string(c);
            let ty = crate::chartype::str_type(cs.as_str());
            chars.push(cs);
            types.push(String::from_str(ty));
            proof {
                assert(tags.deep_view() =~= tpre.push(if t == 0 {
                    "B"@
                } else {
                    "O"@
                }));
                assert(chars.deep_view() =~= cpre.push(seq![w@[t as int]]));
                assert(types.deep_view() =~= ypre.push(crate::chartype::spec_char_type(
                    seq![w@[t as int]])));
                assert(word_tags(ws[k as int]).take(t + 1) =~= (if t == 0 {
                    Seq::<Seq<char>>::empty()
                } else {
                    word_tags(ws[k as int]).take(t as int)
                }).push(if t == 0 {
                    "B"@
                } else {
                    "O"@
                }));
                assert(one_char_strs(ws[k as int]).take(t + 1) =~= one_char_strs(
                    ws[k as int],
                ).take(t as int).push(seq![ws[k as int][t as int]]));
                assert(type_strs(ws[k as int]).take(t + 1) =~= type_strs(ws[k as int]).take(
                    t as int).push(crate::chartype::spec_char_type(seq![ws[k as int][t as int]])));
            }
            t = t + 1;
        }
        proof {
            assert(word_tags(ws[k as int]).take(wn as int) =~= word_tags(ws[k as int]));
            assert(one_char_strs(ws[k as int]).take(wn as int) =~= one_char_strs(ws[k as int]));
            assert(type_strs(ws[k as int]).take(wn as int) =~= type_strs(ws[k as int]));
        }
        k = k + 1;
    }
    proof {
        assert(ws.take(nw as int) =~= ws);
    }
    // Force the tag before the first real character to neutral.
    if tags.len() >= 4 {
        let ghost tpre = tags.deep_view();
        tags.remove(3);
        tags.insert(3, String::from_str("U"));
        proof {
            assert(tags.deep_view() =~= tpre.update(3, "U"@));
        }
    } else {
        proof {
            assert(flat_tags(ws).len() == 0);
        }
    }
    chars.push(String::from_str("E1"));
    chars.push(String::from_str("E2"));
    chars.push(String::from_str("E3"));
    types.push(String::from_str("O"));
    types.push(String::from_str("O"));
    types.push(String::from_str("O"));
    proof {
        assert(chars.deep_view() =~= corpus_chars(ws));
        assert(types.deep_view() =~= corpus_types(ws));
        if flat_tags(ws).len() >= 1 {
            assert(tags.deep_view() =~= corpus_tags(ws));
        }
    }
    (tags, chars, types)
}

/// Each entry of the instance list is the attribute/label pair of its
/// position.
pub proof fn lemma_instances_index(
    tags: Seq<Seq<char>>,
    chars: Seq<Seq<char>>,
    types: Seq<Seq<char>>,
    i: int,
    j: int,
)
    requires
        0 <= i,
        0 <= j,
        i + j < chars.len() - 3,
    ensures
        spec_instances(tags, chars, types, i).len() > j,
        spec_instances(tags, chars, types, i)[j] == (spec_attributes(tags, chars, types, i + j),
            if tags[i + j] == "B"@ {
            1int
        } else {
            -1int
        }),
    decreases j,
{
    lemma_instances_len(tags, chars, types, i);
    if j > 0 {
        lemma_instances_index(tags, chars, types, i + 1, j - 1);
    }
}

/// The characters of a line's words number at most its length.
pub proof fn lemma_flat_le(s: Seq<char>)
    ensures
        flat_chars(crate::strutil::split_sp(s)).len() <= s.len(),
    decreases s.len(),
{
    if s.len() > 0 {
        lemma_flat_le(s.drop_first());
        let r = crate::strutil::split_sp(s.drop_first());
        if s[0] == ' ' {
        } else if s.len() == 1 || s[1] == ' ' {
            assert(crate::strutil::split_sp(s)[0] == seq![s[0]]);
            assert(crate::strutil::split_sp(s).drop_first() =~= r);
        } else {
            let full = crate::strutil::split_sp(s);
            assert(full[0] == seq![s[0]] + r[0]);
            assert(full.drop_first() =~= r.drop_first());
            assert(one_char_strs(seq![s[0]] + r[0]).len() == 1 + one_char_strs(r[0]).len());
            assert(flat_chars(full) == one_char_strs(full[0]) + flat_chars(r.drop_first()));
            assert(flat_chars(r) == one_char_strs(r[0]) + flat_chars(r.drop_first()));
        }
    }
}

impl Segmenter {
    /// The classifier instances of one gold-segmented line: one
    /// attribute-set/label pair for every position after the first real
    /// character.  An empty or whitespace-only line yields none.
    pub fn corpus_instances(&self, corpus: &str) -> (r: Vec<(Vec<String>, i8)>)
        ensures
            r@.len() == spec_corpus_instances(corpus@).len(),
            forall|j: int|
                0 <= j < r@.len() ==> (#[trigger] r@[j]).0.deep_view()
                    == spec_corpus_instances(corpus@)[j].0 && r@[j].1 as int
                    == spec_corpus_instances(corpus@)[j].1,
            forall|j: int| 0 <= j < r@.len() ==> (#[trigger] r@[j]).1 == 1i8 || r@[j].1 == -1i8,
            r@.len() <= corpus@.len(),
            corpus@.len() == 0 ==> r@.len() == 0,
            flat_chars(crate::strutil::split_sp(corpus@)).len() >= 1 && corpus@.len() > 0
                ==> r@.len() == flat_chars(crate::strutil::split_sp(corpus@)).len() - 1,
    {
        let ghost pairs = spec_corpus_instances(corpus@);
        if corpus.is_empty() {
            return Vec::new();
        }
        let ghost ws = crate::strutil::split_sp(corpus@);
        let arrays = build_corpus_arrays(corpus);
        let tags = arrays.0;
        let chars = arrays.1;
        let types = arrays.2;
        proof {
            lemma_flat_le(corpus@);
            lemma_split_sp_tokens(corpus@);
            lemma_flat_tags_chars_len(ws);
        }
        if tags.len() < 4 {
            proof {
                assert(pairs =~= Seq::<(Seq<Seq<char>>, int)>::empty());
            }
            return Vec::new();
        }
        let ghost tgd = tags.deep_view();
        let ghost chd = chars.deep_view();
        let ghost tyd = types.deep_view();
        proof {
            lemma_instances_len(tgd, chd, tyd, 4);
        }
        let n = chars.len();
        let mut out: Vec<(Vec<String>, i8)> = Vec::new();
        let mut i: usize = 4;
        while i < n - 3
            invariant
                4 <= i <= n - 3,
                n == chars@.len(),
                n >= 7,
                tags@.len() == n - 3,
                types@.len() == n,
                tgd == tags.deep_view(),
                chd == chars.deep_view(),
                tyd == types.deep_view(),
                pairs == spec_instances(tgd, chd, tyd, 4),
                pairs.len() == n - 7,
                out@.len() == i - 4,
                forall|j: int|
                    0 <= j < out@.len() ==> (#[trigger] out@[j]).0.deep_view() == pairs[j].0
                        && out@[j].1 as int == pairs[j].1,
            decreases n - 3 - i,
        {
            let attrs = crate::features::extract_attributes(i, &tags, &chars, &types);
            let label: i8 = if crate::strutil::str_eq(tags[i].as_str(), "B") {
                1
            } else {
                -1
            };
            proof {
                lemma_instances_index(tgd, chd, tyd, 4, i - 4);
                assert(tgd[i as int] == tags@[i as int]@);
            }
            out.push((attrs, label));
            i = i + 1;
        }
        proof {
            lemma_instances_len(tgd, chd, tyd, 4);
        }
        out
    }

    /// Feed one gold-segmented line into the learner: every instance of
    /// the line is added in order.
    pub fn add_corpus(&mut self, corpus: &str)
        requires
            old(self).learner.wf(),
            old(self).learner.num_instances <= usize::MAX - corpus@.len(),
        ensures
            final(self).learner.wf(),
            final(self).learner.num_instances == old(self).learner.num_instances
                + spec_corpus_instances(corpus@).len(),
            ({
                let f = add_fold(old(self).learner.vocab(), old(self).learner.weights(),
                    old(self).learner.instances_buf@.map_values(|x: usize| x as int),
                    old(self).learner.instances@.map_values(
                        |p: (usize, usize)| (p.0 as int, p.1 as int),
                    ), old(self).learner.label_seq(), old(self).learner.dweights(),
                    spec_corpus_instances(corpus@));
                &&& final(self).learner.vocab() == f.0
                &&& final(self).learner.weights() == f.1
                &&& final(self).learner.instances_buf@.map_values(|x: usize| x as int) == f.2
                &&& final(self).learner.instances@.map_values(
                    |p: (usize, usize)| (p.0 as int, p.1 as int),
                ) == f.3
                &&& final(self).learner.label_seq() == f.4
                &&& final(self).learner.dweights() == f.5
            }),
            final(self).learner.threshold == old(self).learner.threshold,
            final(self).learner.num_iterations == old(self).learner.num_iterations,
            final(self).learner.num_threads == old(self).learner.num_threads,
    {
        let pairs = self.corpus_instances(corpus);
        let ghost sp = spec_corpus_instances(corpus@);
        let ghost f = add_fold(self.learner.vocab(), self.learner.weights(),
            self.learner.instances_buf@.map_values(|x: usize| x as int),
            self.learner.instances@.map_values(|p: (usize, usize)| (p.0 as int, p.1 as int)),
            self.learner.label_seq(), self.learner.dweights(), sp);
        let m = pairs.len();
        let mut k: usize = 0;
        proof {
            assert(sp.skip(0) =~= sp);
        }
        while k < m
            invariant
                0 <= k <= m,
                m == pairs@.len(),
                m == sp.len(),
                m <= corpus@.len(),
                forall|j: int|
                    0 <= j < m ==> (#[trigger] pairs@[j]).0.deep_view() == sp[j].0 && pairs@[j].1
                        as int == sp[j].1,
                self.learner.wf(),
                self.learner.num_instances == old(self).learner.num_instances + k,
                old(self).learner.num_instances <= usize::MAX - corpus@.len(),
                f == add_fold(self.learner.vocab(), self.learner.weights(),
                    self.learner.instances_buf@.map_values(|x: usize| x as int),
                    self.learner.instances@.map_values(
                        |p: (usize, usize)| (p.0 as int, p.1 as int),
                    ), self.learner.label_seq(), self.learner.dweights(), sp.skip(k as int)),
                self.learner.threshold == old(self).learner.threshold,
                self.learner.num_iterations == old(self).learner.num_iterations,
                self.learner.num_threads == old(self).learner.num_threads,
            decreases m - k,
        {
            let ghost vpre = self.learner.vocab();
            let ghost wpre = self.learner.weights();
            let ghost bpre = self.learner.instances_buf@.map_values(|x: usize| x as int);
            let ghost rpre = self.learner.instances@.map_values(
                |p: (usize, usize)| (p.0 as int, p.1 as int),
            );
            let ghost lpre = self.learner.label_seq();
            let ghost dpre = self.learner.dweights();
            proof {
                assert(sp.skip(k as int)[0] == sp[k as int]);
                assert(sp.skip(k as int).drop_first() =~= sp.skip(k + 1));
                assert(pairs@[k as int].0.deep_view() == sp[k as int].0);
            }
            let label = pairs[k].1;
            self.learner.add_instance(&pairs[k].0, label);
            proof {
                let step = crate::adaboost::intern_names(vpre, sp[k as int].0, Seq::empty());
                lemma_intern_grows(vpre, sp[k as int].0, Seq::empty());
                assert(self.learner.vocab() == step.0);
                assert(self.learner.weights() =~= wpre + Seq::new(
                    (step.0.len() - vpre.len()) as nat,
                    |x: int| 0int,
                ));
                assert(self.learner.instances_buf@.map_values(|x: usize| x as int) =~= bpre
                    + step.1);
                assert(self.learner.instances@.map_values(
                    |p: (usize, usize)| (p.0 as int, p.1 as int),
                ) =~= rpre.push((bpre.len() as int, bpre.len() as int + step.1.len() as int)));
                assert(self.learner.label_seq() =~= lpre.push(sp[k as int].1));
                assert(self.learner.dweights() =~= dpre.push(
                    crate::numeric::SCALE as int,
                ));
            }
            k = k + 1;
        }
        proof {
            assert(sp.skip(m as int) =~= Seq::<(Seq<Seq<char>>, int)>::empty());
        }
    }
}

/// Folding a list of attribute/label pairs into the classifier state:
/// each pair interns its names, extends the weights with zeros, appends
/// the distinct indices and records the range, label and unit weight.
pub open spec fn add_fold(
    vocab: Seq<Seq<char>>,
    w: Seq<int>,
    buf: Seq<int>,
    rngs: Seq<(int, int)>,
    lbs: Seq<int>,
    ds: Seq<int>,
    pairs: Seq<(Seq<Seq<char>>, int)>,
) -> (Seq<Seq<char>>, Seq<int>, Seq<int>, Seq<(int, int)>, Seq<int>, Seq<int>)
    decreases pairs.len(),
{
    if pairs.len() == 0 {
        (vocab, w, buf, rngs, lbs, ds)
    } else {
        let step = crate::adaboost::intern_names(vocab, pairs[0].0, Seq::empty());
        add_fold(step.0, w + Seq::new((step.0.len() - vocab.len()) as nat, |x: int| 0int),
            buf + step.1, rngs.push((buf.len() as int, buf.len() as int + step.1.len() as int)),
            lbs.push(pairs[0].1), ds.push(crate::numeric::SCALE as int), pairs.drop_first())
    }
}

/// The flattened tags and characters of a list of nonempty words have
/// equal length.
pub proof fn lemma_flat_tags_chars_len(ws: Seq<Seq<char>>)
    requires
        forall|j: int| 0 <= j < ws.len() ==> (#[trigger] ws[j]).len() >= 1,
    ensures
        flat_tags(ws).len() == flat_chars(ws).len(),
    decreases ws.len(),
{
    if ws.len() > 0 {
        assert forall|j: int|
            0 <= j < ws.drop_first().len() implies (#[trigger] ws.drop_first()[j]).len() >= 1 by {
            assert(ws.drop_first()[j] == ws[j + 1]);
        }
        lemma_flat_tags_chars_len(ws.drop_first());
        assert(word_tags(ws[0]).len() == ws[0].len());
    }
}

/// Interning can only grow the vocabulary.
pub proof fn lemma_intern_grows(vocab: Seq<Seq<char>>, names: Seq<Seq<char>>, acc: Seq<int>)
    ensures
        crate::adaboost::intern_names(vocab, names, acc).0.len() >= vocab.len(),
    decreases names.len(),
{
    if names.len() > 0 {
        let step = crate::adaboost::intern_step(vocab, names[0]);
        let acc1 = if acc.contains(step.1) {
            acc
        } else {
            acc.push(step.1)
        };
        lemma_intern_grows(step.0, names.drop_first(), acc1);
    }
}

/// Build the padded character and script-label arrays of a sentence.
fn build_sentence_arrays(s: &str) -> (r: (Vec<String>, Vec<String>))
    ensures
        r.0.deep_view() == padded_chars(s@),
        r.1.deep_view() == padded_types(s@),
        r.0@.len() == s@.len() + 6,
        r.1@.len() == s@.len() + 6,
{
    let v = crate::strutil::to_char_vec(s);
    let n = v.len();
    let mut chars: Vec<String> = Vec::new();
    let mut types: Vec<String> = Vec::new();
    chars.push(String::from_str("B3"));
    chars.push(String::from_str("B2"));
    chars.push(String::from_str("B1"));
    types.push(String::from_str("O"));
    types.push(String::from_str("O"));
    types.push(String::from_str("O"));
    let mut i: usize = 0;
    proof {
        assert(chars.deep_view() =~= seq!["B3"@, "B2"@, "B1"@] + one_char_strs(s@).take(0));
        assert(types.deep_view() =~= seq!["O"@, "O"@, "O"@] + type_strs(s@).take(0));
    }
    while i < n
        invariant
            0 <= i <= n,
            n == v@.len(),
            v@ == s@,
            chars.deep_view() =~= seq!["B3"@, "B2"@, "B1"@] + one_char_strs(s@).take(i as int),
            types.deep_view() =~= seq!["O"@, "O"@, "O"@] + type_strs(s@).take(i as int),
        decreases n - i,
    {
        let c = v[i];
        let ghost cpre = chars.deep_view();
        let ghost ypre = types.deep_view();
        let cs = crate::strutil::char_to_string(c);
        let ty = crate::chartype::str_type(cs.as_str());
        chars.push(cs);
        types.push(String::from_str(ty));
        proof {
            assert(chars.deep_view() =~= cpre.push(seq![s@[i as int]]));
            assert(types.deep_view() =~= ypre.push(crate::chartype::spec_char_type(
                seq![s@[i as int]])));
            assert(one_char_strs(s@).take(i + 1) =~= one_char_strs(s@).take(i as int).push(
                seq![s@[i as int]]));
            assert(type_strs(s@).take(i + 1) =~= type_strs(s@).take(i as int).push(
                crate::chartype::spec_char_type(seq![s@[i as int]])));
        }
        i = i + 1;
    }
    chars.push(String::from_str("E1"));
    chars.push(String::from_str("E2"));
    chars.push(String::from_str("E3"));
    types.push(String::from_str("O"));
    types.push(String::from_str("O"));
    types.push(String::from_str("O"));
    proof {
        assert(one_char_strs(s@).take(n as int) =~= one_char_strs(s@));
        assert(type_strs(s@).take(n as int) =~= type_strs(s@));
        assert(chars.deep_view() =~= padded_chars(s@));
        assert(types.deep_view() =~= padded_types(s@));
    }
    (chars, types)
}

impl Segmenter {
    /// Segment a sentence into the model's tokens: at each position the
    /// classifier decides from the surrounding characters and its own
    /// previous decisions whether a new word starts there.  An empty
    /// sentence yields no tokens.
    pub fn segment(&self, sentence: &str) -> (r: Vec<String>)
        requires
            self.learner.wf_model(),
        ensures
            r.deep_view() == spec_segment(self.learner.weights(), self.learner.vocab(),
                sentence@),
            sentence@.len() == 0 ==> r@.len() == 0,
    {
        if sentence.is_empty() {
            return Vec::new();
        }
        let ghost m = self.learner.weights();
        let ghost vb = self.learner.vocab();
        let arrays = build_sentence_arrays(sentence);
        let chars = arrays.0;
        let types = arrays.1;
        let ghost chd = chars.deep_view();
        let ghost tyd = types.deep_view();
        let mut tags: Vec<String> = Vec::new();
        tags.push(String::from_str("U"));
        tags.push(String::from_str("U"));
        tags.push(String::from_str("U"));
        tags.push(String::from_str("U"));
        let mut result: Vec<String> = Vec::new();
        let mut word: String = chars[3].clone();
        let n = chars.len();
        let mut i: usize = 4;
        proof {
            assert(tags.deep_view() =~= seq!["U"@, "U"@, "U"@, "U"@]);
            assert(chd[3] == seq![sentence@[0]]);
            assert(word@ == seq![sentence@[0]]);
            assert(result.deep_view() =~= Seq::<Seq<char>>::empty());
        }
        while i < n - 3
            invariant
                4 <= i <= n - 3,
                n == chars@.len(),
                n == sentence@.len() + 6,
                n >= 7,
                chd == chars.deep_view(),
                tyd == types.deep_view(),
                types@.len() == n,
                tags@.len() == i,
                self.learner.wf_model(),
                m == self.learner.weights(),
                vb == self.learner.vocab(),
                spec_segment_from(m, vb, tags.deep_view(), chd, tyd, i as int, word@,
                    result.deep_view()) == spec_segment(m, vb, sentence@),
            decreases n - 3 - i,
        {
            let attrs = crate::features::extract_attributes(i, &tags, &chars, &types);
            let label = self.learner.predict(&attrs);
            let ghost tpre = tags.deep_view();
            let ghost rpre = result.deep_view();
            let ghost wpre = word@;
            if label >= 0 {
                result.push(word);
                word = String::new();
                tags.push(String::from_str("B"));
                proof {
                    assert(tags.deep_view() =~= tpre.push("B"@));
                    assert(result.deep_view() =~= rpre.push(wpre));
                }
            } else {
                tags.push(String::from_str("O"));
                proof {
                    assert(tags.deep_view() =~= tpre.push("O"@));
                }
            }
            word = word.concat(chars[i].as_str());
            proof {
                let attrsd = spec_attributes(tpre, chd, tyd, i as int);
                assert(attrs.deep_view() == attrsd);
                if label >= 0 {
                    assert(crate::adaboost::spec_score2(m, vb, attrsd) >= 0);
                    assert(word@ =~= chd[i as int]);
                } else {
                    assert(!(crate::adaboost::spec_score2(m, vb, attrsd) >= 0));
                    assert(word@ =~= wpre + chd[i as int]);
                }
            }
            i = i + 1;
        }
        let ghost rpre = result.deep_view();
        result.push(word);
        proof {
            assert(result.deep_view() =~= rpre.push(word@));
        }
        result
    }
}

/// The tail of an instance line: a tab before each feature string.
pub open spec fn tabbed(attrs: Seq<Seq<char>>) -> Seq<char>
    decreases attrs.len(),
{
    if attrs.len() == 0 {
        Seq::empty()
    } else {
        "\t"@ + attrs[0] + tabbed(attrs.drop_first())
    }
}

/// One feature-file line: the label, then each feature string preceded
/// by a tab.
pub open spec fn spec_instance_line(label: int, attrs: Seq<Seq<char>>) -> Seq<char> {
    crate::decimal::spec_format_int(label) + tabbed(attrs)
}

/// Render one instance as a feature-file line.
pub fn format_instance_line(label: i8, attrs: &Vec<String>) -> (r: String)
    ensures
        r@ == spec_instance_line(label as int, attrs.deep_view()),
{
    let mut s = crate::decimal::format_int(label as i64);
    let n = attrs.len();
    let mut k: usize = 0;
    let ghost ad = attrs.deep_view();
    proof {
        assert(ad.skip(0) =~= ad);
    }
    while k < n
        invariant
            0 <= k <= n,
            n == attrs@.len(),
            ad == attrs.deep_view(),
            spec_instance_line(label as int, ad) == s@ + tabbed(ad.skip(k as int)),
        decreases n - k,
    {
        proof {
            assert(ad.skip(k as int)[0] == ad[k as int]);
            assert(ad[k as int] == attrs@[k as int]@);
            assert(ad.skip(k as int).drop_first() =~= ad.skip(k + 1));
        }
        s = s.concat("\t").concat(attrs[k].as_str());
        k = k + 1;
    }
    proof {
        assert(ad.skip(n as int) =~= Seq::<Seq<char>>::empty());
        assert(s@ + Seq::<char>::empty() =~= s@);
    }
    s
}

/// An empty or whitespace-only line yields no instances: splitting it
/// produces no words, so the guard on real characters rejects it.
pub proof fn lemma_blank_line_no_instances(s: Seq<char>)
    requires
        forall|j: int| 0 <= j < s.len() ==> #[trigger] s[j] == ' ',
    ensures
        spec_corpus_instances(s) == Seq::<(Seq<Seq<char>>, int)>::empty(),
    decreases s.len(),
{
    lemma_all_space_splits_empty(s);
    if s.len() > 0 {
        assert(flat_tags(crate::strutil::split_sp(s)) =~= Seq::<Seq<char>>::empty());
        assert(spec_corpus_instances(s) =~= Seq::<(Seq<Seq<char>>, int)>::empty());
    }
}

/// Splitting a string of spaces gives no tokens.
pub proof fn lemma_all_space_splits_empty(s: Seq<char>)
    requires
        forall|j: int| 0 <= j < s.len() ==> #[trigger] s[j] == ' ',
    ensures
        crate::strutil::split_sp(s) == Seq::<Seq<char>>::empty(),
    decreases s.len(),
{
    if s.len() > 0 {
        assert forall|j: int| 0 <= j < s.drop_first().len() implies #[trigger] s.drop_first()[j]
            == ' ' by {
            assert(s.drop_first()[j] == s[j + 1]);
        }
        lemma_all_space_splits_empty(s.drop_first());
        assert(crate::strutil::split_sp(Seq::<char>::empty()) =~= Seq::<Seq<char>>::empty());
    }
}

/// The space splitter never returns an empty token.
pub proof fn lemma_split_sp_tokens(s: Seq<char>)
    ensures
        forall|j: int|
            0 <= j < crate::strutil::split_sp(s).len()
                ==> (#[trigger] crate::strutil::split_sp(s)[j]).len() >= 1,
    decreases s.len(),
{
    if s.len() > 0 {
        lemma_split_sp_tokens(s.drop_first());
        let r = crate::strutil::split_sp(s.drop_first());
        if s[0] != ' ' && s.len() > 1 && s[1] != ' ' {
            assert forall|j: int|
                0 <= j < crate::strutil::split_sp(s).len() implies (
            #[trigger] crate::strutil::split_sp(s)[j]).len() >= 1 by {
                if j == 0 {
                } else {
                    assert(crate::strutil::split_sp(s)[j] == r.drop_first()[j - 1]);
                    assert(r.drop_first()[j - 1] == r[j]);
                }
            }
        }
    }
}

} // verus!

//! A boosted additive classifier over sparse boolean features.
//!
//! The model is a dense weight vector indexed by a feature vocabulary;
//! an instance is the list of its active feature indices plus a label.
//! Weights, instance weights and error rates are fixed-point values in
//! units of `1 / SCALE` (see `numeric`).  The decision score of a feature
//! set is kept at twice that scale so that the bias, which is half of a
//! negated weight sum, needs no rounding: `score2 = -sum(weights)
//! + 2 * sum(active weights)`, and the predicted label is positive
//! exactly when `score2 >= 0`.

use vstd::prelude::*;

use crate::decimal::{spec_format_half, spec_format_units};
use crate::numeric::{EXP_CAP, SCALE};

verus! {

/// Cap on the magnitude of one model weight: one million whole units.
pub const W_MAX: i64 = 1_000_000_000_000_000_000;

/// Evaluation counts and rates of a model over its training instances.
/// The three rates are percentages in fixed-point units of `1 / SCALE`.
pub struct Metrics {
    /// Share of correctly classified instances, in percent.
    pub accuracy: i64,
    /// Share of true positives among positive predictions, in percent.
    pub precision: i64,
    /// Share of true positives among positive instances, in percent.
    pub recall: i64,
    /// Number of instances in the dataset.
    pub num_instances: usize,
    /// True positives count.
    pub true_positives: usize,
    /// False positives count.
    pub false_positives: usize,
    /// False negatives count.
    pub false_negatives: usize,
    /// True negatives count.
    pub true_negatives: usize,
}

/// The integer views of a vector of machine words.
pub open spec fn seq_i64(s: Seq<i64>) -> Seq<int> {
    s.map_values(|x: i64| x as int)
}

/// Sum of an integer sequence.
pub open spec fn sum_seq(s: Seq<int>) -> int
    decreases s.len(),
{
    if s.len() == 0 {
        0
    } else {
        sum_seq(s.drop_last()) + s.last()
    }
}

/// Twice the bias of a weight vector: the negated weight sum.
pub open spec fn spec_bias2(m: Seq<int>) -> int {
    -sum_seq(m)
}

/// Index of the first vocabulary entry equal to `name`, or -1.
pub open spec fn find_feature(vocab: Seq<Seq<char>>, name: Seq<char>) -> int
    decreases vocab.len(),
{
    if vocab.len() == 0 {
        -1
    } else if vocab[0] == name {
        0
    } else {
        let r = find_feature(vocab.drop_first(), name);
        if r < 0 {
            -1
        } else {
            1 + r
        }
    }
}

/// `find_feature` returns the first match, or -1 when there is none.
pub proof fn lemma_find_feature(vocab: Seq<Seq<char>>, name: Seq<char>)
    ensures
        find_feature(vocab, name) < 0 ==> forall|j: int|
            0 <= j < vocab.len() ==> vocab[j] != name,
        find_feature(vocab, name) >= 0 ==> 0 <= find_feature(vocab, name) < vocab.len()
            && vocab[find_feature(vocab, name)] == name && forall|j: int|
            0 <= j < find_feature(vocab, name) ==> vocab[j] != name,
    decreases vocab.len(),
{
    if vocab.len() > 0 && vocab[0] != name {
        lemma_find_feature(vocab.drop_first(), name);
        let r = find_feature(vocab.drop_first(), name);
        if r >= 0 {
            assert forall|j: int| 0 <= j < 1 + r implies vocab[j] != name by {
                if j > 0 {
                    assert(vocab.drop_first()[j - 1] == vocab[j]);
                }
            }
        } else {
            assert forall|j: int| 0 <= j < vocab.len() implies vocab[j] != name by {
                if j > 0 {
                    assert(vocab.drop_first()[j - 1] == vocab[j]);
                }
            }
        }
    }
}

/// A sequence of bounded values has a proportionally bounded sum.
pub proof fn lemma_sum_bounded(s: Seq<int>, cap: int)
    requires
        cap >= 0,
        forall|i: int| 0 <= i < s.len() ==> -cap <= #[trigger] s[i] <= cap,
    ensures
        -(s.len() as int) * cap <= sum_seq(s) <= (s.len() as int) * cap,
    decreases s.len(),
{
    if s.len() > 0 {
        assert forall|i: int| 0 <= i < s.len() - 1 implies -cap <= #[trigger] s.drop_last()[i]
            <= cap by {
            assert(s.drop_last()[i] == s[i]);
        }
        lemma_sum_bounded(s.drop_last(), cap);
        assert(s.last() == s[s.len() as int - 1]);
        assert(-cap <= s[s.len() as int - 1] <= cap);
        assert((s.len() as int) * cap == (s.len() as int - 1) * cap + cap) by (nonlinear_arith);
        assert(s.drop_last().len() as int == s.len() as int - 1);
        assert(sum_seq(s) == sum_seq(s.drop_last()) + s.last());
        assert((0 - s.drop_last().len() as int) * cap == -((s.drop_last().len() as int) * cap))
            by (nonlinear_arith);
        assert((s.drop_last().len() as int) * cap == (s.len() as int - 1) * cap)
            by (nonlinear_arith)
            requires s.drop_last().len() as int == s.len() as int - 1;
    } else {
        assert((s.len() as int) * cap == 0) by (nonlinear_arith)
            requires s.len() == 0;
    }
    assert((0 - s.len() as int) * cap == -((s.len() as int) * cap)) by (nonlinear_arith);
}

/// The weight that a feature name contributes: its slot if the name is
/// in the vocabulary, zero otherwise.
pub open spec fn weight_of(m: Seq<int>, vocab: Seq<Seq<char>>, name: Seq<char>) -> int {
    let f = find_feature(vocab, name);
    if f >= 0 {
        m[f]
    } else {
        0
    }
}

/// Sum of the weights contributed by a list of feature names.
pub open spec fn sum_found(m: Seq<int>, vocab: Seq<Seq<char>>, names: Seq<Seq<char>>) -> int
    decreases names.len(),
{
    if names.len() == 0 {
        0
    } else {
        weight_of(m, vocab, names[0]) + sum_found(m, vocab, names.drop_first())
    }
}

/// Twice the decision score of a feature set.
pub open spec fn spec_score2(m: Seq<int>, vocab: Seq<Seq<char>>, names: Seq<Seq<char>>) -> int {
    spec_bias2(m) + 2 * sum_found(m, vocab, names)
}

/// The boosted classifier: a feature vocabulary, one weight per feature,
/// and the training instances with their labels and current weights.
pub struct AdaBoost {
    /// Stopping threshold on the best margin, in units of `1 / SCALE`.
    pub threshold: i64,
    /// Iteration budget for training.
    pub num_iterations: usize,
    /// Requested worker count; kept for interface compatibility, the
    /// iteration itself is sequential.
    pub num_threads: usize,
    /// Current per-instance weights, in units of `1 / SCALE`.
    pub instance_weights: Vec<i64>,
    /// One weight per vocabulary feature, in units of `1 / SCALE`.
    pub model: Vec<i64>,
    /// The feature vocabulary; index `i` names the weight `model[i]`.
    pub features: Vec<String>,
    /// Per-instance labels; positive means a word boundary.
    pub labels: Vec<i8>,
    /// Backing store of the per-instance feature index lists.
    pub instances_buf: Vec<usize>,
    /// Per-instance `(start, end)` ranges into `instances_buf`.
    pub instances: Vec<(usize, usize)>,
    /// Number of instances.
    pub num_instances: usize,
}

impl AdaBoost {
    /// The integer weight vector.
    pub open spec fn weights(&self) -> Seq<int> {
        seq_i64(self.model@)
    }

    /// The feature vocabulary as character sequences.
    pub open spec fn vocab(&self) -> Seq<Seq<char>> {
        self.features.deep_view()
    }

    /// The instance weights as integers.
    pub open spec fn dweights(&self) -> Seq<int> {
        seq_i64(self.instance_weights@)
    }

    /// The labels as integers.
    pub open spec fn label_seq(&self) -> Seq<int> {
        self.labels@.map_values(|x: i8| x as int)
    }

    /// The active feature indices of instance `i`.
    pub open spec fn inst(&self, i: int) -> Seq<int> {
        self.instances_buf@.subrange(self.instances@[i].0 as int,
            self.instances@[i].1 as int).map_values(|x: usize| x as int)
    }

    /// Vocabulary and weight vector have matching lengths, and every
    /// weight is within the cap.
    pub open spec fn wf_model(&self) -> bool {
        &&& self.features@.len() == self.model@.len()
        &&& forall|i: int| 0 <= i < self.model@.len() ==> -W_MAX <= #[trigger] self.model@[i]
            <= W_MAX
    }

    /// The per-instance bookkeeping is consistent: parallel vectors have
    /// the instance count's length, index ranges lie inside the buffer,
    /// buffered indices point into the weight vector, and instance
    /// weights are nonnegative and capped.
    pub open spec fn wf_instances(&self) -> bool {
        &&& self.labels@.len() == self.num_instances
        &&& self.instance_weights@.len() == self.num_instances
        &&& self.instances@.len() == self.num_instances
        &&& forall|i: int| 0 <= i < self.num_instances ==> (#[trigger] self.instances@[i]).0
            <= self.instances@[i].1 <= self.instances_buf@.len()
        &&& forall|j: int| 0 <= j < self.instances_buf@.len() ==> (self.instances_buf@[j] as int)
            < self.model@.len()
        &&& forall|i: int| 0 <= i < self.num_instances ==> 0 <= #[trigger] self.instance_weights@[i]
            <= EXP_CAP
    }

    /// The whole classifier is well formed.
    pub open spec fn wf(&self) -> bool {
        self.wf_model() && self.wf_instances()
    }

    /// A fresh classifier with the given parameters and no features or
    /// instances.
    pub fn new(threshold: i64, num_iterations: usize, num_threads: usize) -> (r: Self)
        ensures
            r.wf(),
            r.threshold == threshold,
            r.num_iterations == num_iterations,
            r.num_threads == num_threads,
            r.weights() =~= Seq::<int>::empty(),
            r.vocab() =~= Seq::<Seq<char>>::empty(),
            r.dweights() =~= Seq::<int>::empty(),
            r.label_seq() =~= Seq::<int>::empty(),
            r.num_instances == 0,
    {
        AdaBoost {
            threshold,
            num_iterations,
            num_threads,
            instance_weights: Vec::new(),
            model: Vec::new(),
            features: Vec::new(),
            labels: Vec::new(),
            instances_buf: Vec::new(),
            instances: Vec::new(),
            num_instances: 0,
        }
    }

    /// Replace vocabulary and weights wholesale.
    pub fn set_model(&mut self, features: Vec<String>, model: Vec<i64>)
        ensures
            final(self).features == features,
            final(self).model == model,
            final(self).threshold == old(self).threshold,
            final(self).num_iterations == old(self).num_iterations,
            final(self).num_threads == old(self).num_threads,
            final(self).instance_weights == old(self).instance_weights,
            final(self).labels == old(self).labels,
            final(self).instances_buf == old(self).instances_buf,
            final(self).instances == old(self).instances,
            final(self).num_instances == old(self).num_instances,
    {
        self.features = features;
        self.model = model;
    }

    /// The feature vocabulary.
    pub fn get_features(&self) -> (r: &Vec<String>)
        ensures
            r == self.features,
    {
        &self.features
    }

    /// The weight vector.
    pub fn get_model(&self) -> (r: &Vec<i64>)
        ensures
            r == self.model,
    {
        &self.model
    }

    /// The current instance weights.
    pub fn get_instance_weights(&self) -> (r: &Vec<i64>)
        ensures
            r == self.instance_weights,
    {
        &self.instance_weights
    }

    /// The instance labels.
    pub fn get_labels(&self) -> (r: &Vec<i8>)
        ensures
            r == self.labels,
    {
        &self.labels
    }

    /// The per-instance index ranges.
    pub fn get_instances(&self) -> (r: &Vec<(usize, usize)>)
        ensures
            r == self.instances,
    {
        &self.instances
    }

    /// The number of instances.
    pub fn get_num_instances(&self) -> (r: usize)
        ensures
            r == self.num_instances,
    {
        self.num_instances
    }
}

/// Sum a weight vector; every partial sum fits well inside an `i128`.
pub fn sum_weights_i128(m: &Vec<i64>) -> (s: i128)
    ensures
        s == sum_seq(seq_i64(m@)),
        -170_141_183_460_469_231_722_463_931_679_029_329_920 <= s
            <= 170_141_183_460_469_231_722_463_931_679_029_329_920,
{
    let n = m.len();
    let mut s: i128 = 0;
    let mut i: usize = 0;
    while i < n
        invariant
            0 <= i <= n,
            n == m@.len(),
            s == sum_seq(seq_i64(m@.subrange(0, i as int))),
            -(i as int) * 9_223_372_036_854_775_808 <= s <= (i as int) * 9_223_372_036_854_775_808,
        decreases n - i,
    {
        proof {
            assert(seq_i64(m@.subrange(0, i + 1)).drop_last() =~= seq_i64(
                m@.subrange(0, i as int),
            ));
            assert(seq_i64(m@.subrange(0, i + 1)).last() == m@[i as int] as int);
        }
        s = s + m[i] as i128;
        i = i + 1;
    }
    proof {
        assert(m@.subrange(0, n as int) =~= m@);
        assert((n as int) * 9_223_372_036_854_775_808
            <= 170_141_183_460_469_231_722_463_931_679_029_329_920) by (nonlinear_arith)
            requires n as int <= 0xffff_ffff_ffff_ffff;
    }
    s
}

impl AdaBoost {
    /// The bias of the model: minus half the weight sum, truncated
    /// toward zero.
    pub fn get_bias(&self) -> (r: i128)
        ensures
            r == crate::decimal::tdiv(spec_bias2(self.weights()), 2),
    {
        let s = sum_weights_i128(&self.model);
        crate::decimal::tdiv_i128(-s, 2)
    }

    /// Look a feature name up in the vocabulary.
    fn find(&self, name: &str) -> (r: Option<usize>)
        ensures
            r is Some <==> find_feature(self.vocab(), name@) >= 0,
            r is Some ==> r->0 as int == find_feature(self.vocab(), name@),
            r is Some ==> r->0 < self.features@.len(),
    {
        proof {
            lemma_find_feature(self.vocab(), name@);
        }
        let n = self.features.len();
        let mut i: usize = 0;
        while i < n
            invariant
                0 <= i <= n,
                n == self.features@.len(),
                forall|j: int| 0 <= j < i ==> self.vocab()[j] != name@,
            decreases n - i,
        {
            if crate::strutil::str_eq(self.features[i].as_str(), name) {
                proof {
                    lemma_find_feature(self.vocab(), name@);
                    assert(self.vocab()[i as int] == name@);
                }
                return Some(i);
            }
            i = i + 1;
        }
        proof {
            lemma_find_feature(self.vocab(), name@);
        }
        None
    }

    /// Predict the label of a feature set: `+1` when twice the decision
    /// score, bias included, is nonnegative, else `-1`.  The names are
    /// summed as given; callers hand in feature sets, whose names are
    /// distinct.
    pub fn predict(&self, attributes: &Vec<String>) -> (r: i8)
        requires
            self.wf_model(),
        ensures
            r == 1i8 || r == (-1) as i8,
            r == 1i8 <==> spec_score2(self.weights(), self.vocab(), attributes.deep_view()) >= 0,
    {
        let n_model = self.model.len();
        proof {
            lemma_sum_bounded(self.weights(), W_MAX as int);
            assert((n_model as int) * (W_MAX as int)
                <= 18_446_744_073_709_551_615_000_000_000_000_000_000) by (nonlinear_arith)
                requires n_model as int <= 0xffff_ffff_ffff_ffff;
        }
        let bias2 = -sum_weights_i128(&self.model);
        let n = attributes.len();
        let mut acc: i128 = 0;
        let mut i: usize = 0;
        proof {
            assert(attributes.deep_view().skip(0) =~= attributes.deep_view());
        }
        while i < n
            invariant
                0 <= i <= n,
                n == attributes@.len(),
                self.wf_model(),
                acc + sum_found(self.weights(), self.vocab(), attributes.deep_view().skip(
                    i as int,
                )) == sum_found(self.weights(), self.vocab(), attributes.deep_view()),
                -(i as int) * (W_MAX as int) <= acc <= (i as int) * (W_MAX as int),
            decreases n - i,
        {
            let ghost names = attributes.deep_view();
            proof {
                assert(names.skip(i as int)[0] == names[i as int]);
                assert(names.skip(i as int).drop_first() =~= names.skip(i + 1));
                assert(names[i as int] == attributes@[i as int]@);
            }
            match self.find(attributes[i].as_str()) {
                Some(idx) => {
                    acc = acc + self.model[idx] as i128;
                }
                None => {
                    proof {
                        assert(weight_of(self.weights(), self.vocab(), names[i as int]) == 0);
                    }
                }
            }
            i = i + 1;
        }
        proof {
            assert(attributes.deep_view().skip(n as int) =~= Seq::<Seq<char>>::empty());
            assert((n as int) * (W_MAX as int)
                < 85_000_000_000_000_000_000_000_000_000_000_000_000) by (nonlinear_arith)
                requires n as int <= 0xffff_ffff_ffff_ffff;
        }
        let score2 = bias2 + 2 * acc;
        if score2 >= 0 {
            1
        } else {
            -1
        }
    }
}

/// Resolve one name against a vocabulary: its index if present, else
/// the index it gets by being appended.
pub open spec fn intern_step(vocab: Seq<Seq<char>>, name: Seq<char>) -> (Seq<Seq<char>>, int) {
    let f = find_feature(vocab, name);
    if f >= 0 {
        (vocab, f)
    } else {
        (vocab.push(name), vocab.len() as int)
    }
}

/// Resolve a list of names left to right, growing the vocabulary and
/// collecting each instance index once.
pub open spec fn intern_names(vocab: Seq<Seq<char>>, names: Seq<Seq<char>>, acc: Seq<int>) -> (
    Seq<Seq<char>>,
    Seq<int>,
)
    decreases names.len(),
{
    if names.len() == 0 {
        (vocab, acc)
    } else {
        let (v1, idx) = intern_step(vocab, names[0]);
        let acc1 = if acc.contains(idx) {
            acc
        } else {
            acc.push(idx)
        };
        intern_names(v1, names.drop_first(), acc1)
    }
}

/// Sum of the weights at a list of indices, each occurrence counted.
pub open spec fn sum_idx(m: Seq<int>, idxs: Seq<int>) -> int
    decreases idxs.len(),
{
    if idxs.len() == 0 {
        0
    } else {
        m[idxs[0]] + sum_idx(m, idxs.drop_first())
    }
}

/// Twice the decision score of the instance with active indices `idxs`.
pub open spec fn score2_idx(m: Seq<int>, idxs: Seq<int>) -> int {
    -sum_seq(m) + 2 * sum_idx(m, idxs)
}

impl AdaBoost {
    /// Number of instances among the first `n` whose predicted sign and
    /// label sign match the two given flags.
    pub open spec fn spec_count(&self, n: int, positive_pred: bool, positive_label: bool) -> int
        decreases n,
    {
        if n <= 0 {
            0
        } else {
            self.spec_count(n - 1, positive_pred, positive_label) + if (score2_idx(
                self.weights(),
                self.inst(n - 1),
            ) >= 0) == positive_pred && (self.label_seq()[n - 1] > 0) == positive_label {
                1int
            } else {
                0int
            }
        }
    }

    /// Record one training instance: resolve its feature names, adding
    /// unseen names to the vocabulary with a zero weight, and store the
    /// distinct indices with the label and a unit starting weight.
    pub fn add_instance(&mut self, attributes: &Vec<String>, label: i8)
        requires
            old(self).wf(),
            old(self).num_instances < usize::MAX,
        ensures
            final(self).wf(),
            intern_names(old(self).vocab(), attributes.deep_view(), Seq::empty()) == (
                final(self).vocab(),
                final(self).inst(old(self).num_instances as int),
            ),
            final(self).num_instances == old(self).num_instances + 1,
            final(self).label_seq() =~= old(self).label_seq().push(label as int),
            final(self).dweights() =~= old(self).dweights().push(SCALE as int),
            final(self).weights().len() == final(self).vocab().len(),
            forall|j: int|
                0 <= j < old(self).weights().len() ==> #[trigger] final(self).weights()[j]
                    == old(self).weights()[j],
            forall|j: int|
                old(self).weights().len() <= j < final(self).weights().len()
                    ==> #[trigger] final(self).weights()[j] == 0,
            forall|i: int|
                0 <= i < old(self).num_instances ==> #[trigger] final(self).inst(i)
                    == old(self).inst(i),
            final(self).instances_buf@.map_values(|x: usize| x as int) =~= old(self).instances_buf@.map_values(|x: usize| x as int) + intern_names(old(self).vocab(),
                attributes.deep_view(), Seq::empty()).1,
            final(self).instances@.len() == old(self).instances@.len() + 1,
            forall|i: int|
                0 <= i < old(self).instances@.len() ==> #[trigger] final(self).instances@[i]
                    == old(self).instances@[i],
            final(self).instances@[old(self).num_instances as int].0 == old(self).instances_buf@.len(),
            final(self).instances@[old(self).num_instances as int].1 == final(self).instances_buf@.len(),
            final(self).threshold == old(self).threshold,
            final(self).num_iterations == old(self).num_iterations,
            final(self).num_threads == old(self).num_threads,
    {
        let ghost v0 = self.vocab();
        let ghost names = attributes.deep_view();
        let ghost w0 = self.weights();
        let n = attributes.len();
        let mut new_idxs: Vec<usize> = Vec::new();
        let mut k: usize = 0;
        proof {
            assert(names.skip(0) =~= names);
            assert(new_idxs@.map_values(|x: usize| x as int) =~= Seq::<int>::empty());
        }
        while k < n
            invariant
                0 <= k <= n,
                n == attributes@.len(),
                names == attributes.deep_view(),
                self.wf_model(),
                self.wf_instances(),
                intern_names(v0, names, Seq::empty()) == intern_names(self.vocab(),
                    names.skip(k as int), new_idxs@.map_values(|x: usize| x as int)),
                forall|j: int| 0 <= j < new_idxs@.len() ==> (#[trigger] new_idxs@[j] as int)
                    < self.model@.len(),
                w0.len() <= self.weights().len(),
                forall|j: int| 0 <= j < w0.len() ==> #[trigger] self.weights()[j] == w0[j],
                forall|j: int| w0.len() <= j < self.weights().len() ==> #[trigger] self.weights()[j]
                    == 0,
                self.instance_weights == old(self).instance_weights,
                self.labels == old(self).labels,
                self.instances_buf == old(self).instances_buf,
                self.instances == old(self).instances,
                self.num_instances == old(self).num_instances,
                self.threshold == old(self).threshold,
                self.num_iterations == old(self).num_iterations,
                self.num_threads == old(self).num_threads,
            decreases n - k,
        {
            let ghost accg = new_idxs@.map_values(|x: usize| x as int);
            let ghost vcur = self.vocab();
            let ghost wcur = self.weights();
            proof {
                assert(names.skip(k as int)[0] == names[k as int]);
                assert(names.skip(k as int).drop_first() =~= names.skip(k + 1));
                assert(names[k as int] == attributes@[k as int]@);
            }
            let idx: usize = match self.find(attributes[k].as_str()) {
                Some(i) => i,
                None => {
                    let i = self.features.len();
                    self.features.push(attributes[k].clone());
                    self.model.push(0);
                    proof {
                        assert(self.features.deep_view() =~= vcur.push(names[k as int]));
                        assert(self.weights() =~= wcur.push(0));
                    }
                    i
                }
            };
            // Skip indices already recorded for this instance.
            let mut seen = false;
            let mut t: usize = 0;
            while t < new_idxs.len()
                invariant
                    0 <= t <= new_idxs@.len(),
                    seen <==> exists|j: int| 0 <= j < t && #[trigger] new_idxs@[j] == idx,
                decreases new_idxs@.len() - t,
            {
                if new_idxs[t] == idx {
                    seen = true;
                }
                t = t + 1;
            }
            proof {
                assert(seen <==> new_idxs@.contains(idx));
                assert(new_idxs@.contains(idx) <==> accg.contains(idx as int)) by {
                    if new_idxs@.contains(idx) {
                        let j = choose|j: int| 0 <= j < new_idxs@.len() && new_idxs@[j] == idx;
                        assert(accg[j] == idx as int);
                    }
                    if accg.contains(idx as int) {
                        let j = choose|j: int| 0 <= j < accg.len() && accg[j] == idx as int;
                        assert(new_idxs@[j] as int == idx as int);
                    }
                }
            }
            if !seen {
                new_idxs.push(idx);
                proof {
                    assert(new_idxs@.map_values(|x: usize| x as int) =~= accg.push(idx as int));
                }
            }
            k = k + 1;
        }
        proof {
            assert(names.skip(n as int) =~= Seq::<Seq<char>>::empty());
        }
        let start = self.instances_buf.len();
        // Append the resolved indices to the shared buffer.
        let ghost v2 = self.vocab();
        let ghost w2 = self.weights();
        let ghost idxg = new_idxs@.map_values(|x: usize| x as int);
        let m = new_idxs.len();
        let mut t: usize = 0;
        while t < m
            invariant
                0 <= t <= m,
                m == new_idxs@.len(),
                self.instances_buf@ =~= old(self).instances_buf@ + new_idxs@.subrange(0, t as int),
                forall|j: int| 0 <= j < new_idxs@.len() ==> (#[trigger] new_idxs@[j] as int)
                    < self.model@.len(),
                forall|j: int| 0 <= j < old(self).instances_buf@.len() ==> (
                #[trigger] old(self).instances_buf@[j] as int) < self.model@.len(),
                start == old(self).instances_buf@.len(),
                self.vocab() == v2,
                self.weights() == w2,
                self.wf_model(),
                self.features@.len() == self.model@.len(),
                self.instance_weights == old(self).instance_weights,
                self.labels == old(self).labels,
                self.instances == old(self).instances,
                self.num_instances == old(self).num_instances,
                self.threshold == old(self).threshold,
                self.num_iterations == old(self).num_iterations,
                self.num_threads == old(self).num_threads,
            decreases m - t,
        {
            self.instances_buf.push(new_idxs[t]);
            proof {
                assert(old(self).instances_buf@ + new_idxs@.subrange(0, t + 1) =~= (old(self).instances_buf@ + new_idxs@.subrange(0, t as int)).push(new_idxs@[t as int]));
            }
            t = t + 1;
        }
        let end = self.instances_buf.len();
        self.instances.push((start, end));
        self.labels.push(label);
        self.instance_weights.push(SCALE);
        self.num_instances = self.num_instances + 1;
        proof {
            assert(new_idxs@.subrange(0, m as int) =~= new_idxs@);
            assert(self.instances@[old(self).num_instances as int] == (start, end));
            assert(self.instances_buf@.subrange(start as int, end as int) =~= new_idxs@);
            assert(self.inst(old(self).num_instances as int) =~= new_idxs@.map_values(
                |x: usize| x as int,
            ));
            assert forall|i: int| 0 <= i < old(self).num_instances implies self.inst(i) == old(self).inst(i) by {
                assert(self.instances@[i] == old(self).instances@[i]);
                assert(self.instances_buf@.subrange(self.instances@[i].0 as int,
                    self.instances@[i].1 as int) =~= old(self).instances_buf@.subrange(
                    old(self).instances@[i].0 as int, old(self).instances@[i].1 as int));
            }
            assert(final(self).label_seq() =~= old(self).label_seq().push(label as int));
            assert(final(self).dweights() =~= old(self).dweights().push(SCALE as int));
        }
    }
}

/// Strictly sorted in the lexicographic string order; entries are
/// therefore distinct.
pub open spec fn sorted_strict(v: Seq<Seq<char>>) -> bool {
    forall|i: int, j: int| 0 <= i < j < v.len() ==> crate::strutil::lex_lt(#[trigger] v[i],
        #[trigger] v[j])
}

/// The finite map from names to values held by two parallel vectors.
pub open spec fn map_of(names: Seq<Seq<char>>, vals: Seq<int>) -> Map<Seq<char>, int>
    decreases names.len(),
{
    if names.len() == 0 || names.len() != vals.len() {
        Map::empty()
    } else {
        map_of(names.drop_last(), vals.drop_last()).insert(names.last(), vals.last())
    }
}

/// Extending both vectors in front leaves later entries dominant, so a
/// mid-position update is an ordinary map insertion when the name is
/// absent from the suffix.
proof fn lemma_map_of_insert(names: Seq<Seq<char>>, vals: Seq<int>, p: int, name: Seq<char>,
    w: int)
    requires
        names.len() == vals.len(),
        0 <= p <= names.len(),
        forall|j: int| p <= j < names.len() ==> #[trigger] names[j] != name,
    ensures
        map_of(names.insert(p, name), vals.insert(p, w)) == map_of(names, vals).insert(name, w),
    decreases names.len(),
{
    let n2 = names.insert(p, name);
    let v2 = vals.insert(p, w);
    if p == names.len() {
        assert(n2.drop_last() =~= names);
        assert(v2.drop_last() =~= vals);
        assert(n2.last() == name);
        assert(v2.last() == w);
    } else {
        assert(n2.last() == names.last());
        assert(v2.last() == vals.last());
        assert(n2.drop_last() =~= names.drop_last().insert(p, name));
        assert(v2.drop_last() =~= vals.drop_last().insert(p, w));
        assert forall|j: int| p <= j < names.drop_last().len() implies #[trigger] names.drop_last(
        )[j] != name by {
            assert(names.drop_last()[j] == names[j]);
        }
        lemma_map_of_insert(names.drop_last(), vals.drop_last(), p, name, w);
        assert(names.last() != name);
        assert(map_of(n2, v2) =~= map_of(names, vals).insert(name, w)) by {
            assert(map_of(n2, v2) == map_of(names.drop_last(), vals.drop_last()).insert(name,
                w).insert(names.last(), vals.last()));
        }
    }
}

/// Overwriting the value at a position whose name does not recur later
/// is an ordinary map insertion.
proof fn lemma_map_of_update(names: Seq<Seq<char>>, vals: Seq<int>, p: int, w: int)
    requires
        names.len() == vals.len(),
        0 <= p < names.len(),
        forall|j: int| p < j < names.len() ==> #[trigger] names[j] != names[p],
    ensures
        map_of(names, vals.update(p, w)) == map_of(names, vals).insert(names[p], w),
    decreases names.len(),
{
    let v2 = vals.update(p, w);
    if p == names.len() - 1 {
        assert(v2.drop_last() =~= vals.drop_last());
        assert(v2.last() == w);
        assert(map_of(names, v2) =~= map_of(names, vals).insert(names[p], w));
    } else {
        assert(v2.drop_last() =~= vals.drop_last().update(p, w));
        assert(v2.last() == vals.last());
        assert forall|j: int| p < j < names.drop_last().len() implies #[trigger] names.drop_last(
        )[j] != names.drop_last()[p] by {
            assert(names.drop_last()[j] == names[j]);
        }
        lemma_map_of_update(names.drop_last(), vals.drop_last(), p, w);
        assert(names.last() != names[p]);
        assert(map_of(names, v2) =~= map_of(names, vals).insert(names[p], w)) by {
            assert(map_of(names, v2) == map_of(names.drop_last(), vals.drop_last()).insert(
                names.drop_last()[p], w).insert(names.last(), vals.last()));
        }
    }
}


/// A name is in the map of two parallel vectors exactly when it is among
/// the names, and then the value is the one at its (unique) position.
pub proof fn lemma_map_of_index(names: Seq<Seq<char>>, vals: Seq<int>, p: int)
    requires
        names.len() == vals.len(),
        0 <= p < names.len(),
        forall|j: int| p < j < names.len() ==> #[trigger] names[j] != names[p],
    ensures
        map_of(names, vals).dom().contains(names[p]),
        map_of(names, vals)[names[p]] == vals[p],
    decreases names.len(),
{
    if p == names.len() - 1 {
    } else {
        assert forall|j: int| p < j < names.drop_last().len() implies #[trigger] names.drop_last(
        )[j] != names.drop_last()[p] by {
            assert(names.drop_last()[j] == names[j]);
        }
        lemma_map_of_index(names.drop_last(), vals.drop_last(), p);
        assert(names.last() != names[p]);
    }
}

/// The domain of the map of two parallel vectors is exactly the names.
pub proof fn lemma_map_of_dom(names: Seq<Seq<char>>, vals: Seq<int>)
    requires
        names.len() == vals.len(),
    ensures
        forall|x: Seq<char>| map_of(names, vals).dom().contains(x) <==> names.contains(x),
    decreases names.len(),
{
    if names.len() > 0 {
        lemma_map_of_dom(names.drop_last(), vals.drop_last());
        assert forall|x: Seq<char>| map_of(names, vals).dom().contains(x) implies names.contains(
            x,
        ) by {
            if x == names.last() {
                assert(names[names.len() - 1] == x);
                assert(names.contains(x));
            } else {
                assert(map_of(names.drop_last(), vals.drop_last()).dom().contains(x));
                assert(names.drop_last().contains(x));
                let j = choose|j: int|
                    0 <= j < names.drop_last().len() && names.drop_last()[j] == x;
                assert(names.drop_last()[j] == names[j]);
                assert(names[j] == x);
                assert(names.contains(x));
            }
        }
        assert forall|x: Seq<char>| names.contains(x) implies map_of(names, vals).dom().contains(
            x,
        ) by {
            let j = choose|j: int| 0 <= j < names.len() && names[j] == x;
            if j < names.len() - 1 {
                assert(names.drop_last()[j] == x);
                assert(names.drop_last().contains(x));
                assert(map_of(names.drop_last(), vals.drop_last()).dom().contains(x));
            }
        }
    }
}

/// Insert a name with its value into a pair of vectors kept sorted by
/// name, overwriting the value when the name is already present.
fn insert_or_set(names: &mut Vec<String>, vals: &mut Vec<i64>, name: String, w: i64)
    requires
        sorted_strict(old(names).deep_view()),
        old(names)@.len() == old(vals)@.len(),
    ensures
        sorted_strict(final(names).deep_view()),
        final(names)@.len() == final(vals)@.len(),
        old(names)@.len() <= final(names)@.len() <= old(names)@.len() + 1,
        map_of(final(names).deep_view(), seq_i64(final(vals)@)) == map_of(
            old(names).deep_view(), seq_i64(old(vals)@)).insert(name@, w as int),
        forall|x: Seq<char>|
            final(names).deep_view().contains(x) <==> old(names).deep_view().contains(x) || x
                == name@,
        ((forall|j: int| 0 <= j < old(vals)@.len() ==> -W_MAX <= #[trigger] old(vals)@[j]
            <= W_MAX) && -W_MAX <= w <= W_MAX) ==> (forall|j: int|
            0 <= j < final(vals)@.len() ==> -W_MAX <= #[trigger] final(vals)@[j] <= W_MAX),
        ((forall|j: int| 0 <= j < old(vals)@.len() ==> #[trigger] old(vals)@[j] == 0) && w == 0)
            ==> (forall|j: int| 0 <= j < final(vals)@.len() ==> #[trigger] final(vals)@[j] == 0),
    {
    let ghost vn0 = names.deep_view();
    let ghost vv0 = seq_i64(vals@);
    let n = names.len();
    let mut p: usize = 0;
    let mut done = false;
    while !done
        invariant
            0 <= p <= n,
            n == names@.len(),
            names.deep_view() == vn0,
            vn0.len() == vv0.len(),
            sorted_strict(vn0),
            forall|j: int| 0 <= j < p ==> crate::strutil::lex_lt(#[trigger] vn0[j], name@),
            done ==> p == n || !crate::strutil::lex_lt(vn0[p as int], name@),
        decreases n - p + (if done {
            0int
        } else {
            1int
        }),
    {
        if p >= n {
            done = true;
        } else {
            if crate::strutil::str_lt(names[p].as_str(), name.as_str()) {
                p = p + 1;
            } else {
                done = true;
            }
        }
    }
    if p < n && crate::strutil::str_eq(names[p].as_str(), name.as_str()) {
        // Overwrite in place.
        proof {
            crate::strutil::lemma_lex_asym(name@, name@);
            assert forall|j: int| p < j < vn0.len() implies #[trigger] vn0[j] != vn0[p as int] by {
                crate::strutil::lemma_lex_asym(vn0[j], vn0[p as int]);
            }
            lemma_map_of_update(vn0, vv0, p as int, w as int);
        }
        vals.remove(p);
        vals.insert(p, w);
        proof {
            assert(seq_i64(vals@) =~= vv0.update(p as int, w as int));
            assert(vn0[p as int] == name@);
            assert(vals@ =~= old(vals)@.update(p as int, w));
        }
    } else {
        // Insert keeping the order: the name sorts strictly before every
        // entry from position `p` on.
        proof {
            if (p as int) < vn0.len() {
                crate::strutil::lemma_lex_total(name@, vn0[p as int]);
                crate::strutil::lemma_lex_asym(name@, vn0[p as int]);
                assert(vn0[p as int] != name@);
                assert(crate::strutil::lex_lt(name@, vn0[p as int]));
            }
            assert forall|k: int| p <= k < vn0.len() implies crate::strutil::lex_lt(name@,
                #[trigger] vn0[k]) by {
                if k > p {
                    crate::strutil::lemma_lex_trans(name@, vn0[p as int], vn0[k]);
                }
            }
            assert forall|j: int| p <= j < vn0.len() implies #[trigger] vn0[j] != name@ by {
                crate::strutil::lemma_lex_asym(name@, vn0[j]);
            }
            lemma_map_of_insert(vn0, vv0, p as int, name@, w as int);
        }
        let ghost namev = name@;
        names.insert(p, name);
        vals.insert(p, w);
        proof {
            assert(names.deep_view() =~= vn0.insert(p as int, namev));
            assert(seq_i64(vals@) =~= vv0.insert(p as int, w as int));
            assert(vals@ =~= old(vals)@.insert(p as int, w));
            // The result stays strictly sorted.
            assert forall|i: int, j: int|
                0 <= i < j < names.deep_view().len() implies crate::strutil::lex_lt(
                #[trigger] names.deep_view()[i], #[trigger] names.deep_view()[j]) by {
                let nv = names.deep_view();
                if j < p {
                    assert(nv[i] == vn0[i] && nv[j] == vn0[j]);
                } else if i >= p + 1 {
                    assert(nv[i] == vn0[i - 1] && nv[j] == vn0[j - 1]);
                } else if i < p && j == p {
                    assert(nv[i] == vn0[i] && nv[j] == namev);
                } else if i < p && j > p {
                    assert(nv[i] == vn0[i] && nv[j] == vn0[j - 1]);
                } else if i == p && j > p {
                    assert(nv[i] == namev && nv[j] == vn0[j - 1]);
                    assert(crate::strutil::lex_lt(namev, vn0[j - 1]));
                }
            }
        }
    }
    proof {
        // Membership follows from the two domains.
        lemma_map_of_dom(vn0, vv0);
        lemma_map_of_dom(names.deep_view(), seq_i64(vals@));
    }
}

/// One model line: the feature name, a tab, and the weight.
pub open spec fn line_of_pair(name: Seq<char>, w: int) -> Seq<char> {
    name + "\t"@ + crate::decimal::spec_format_units(w)
}

/// The weight lines of a model from slot `i` on: one line per non-zero
/// weight, in vocabulary order, the bias slot 0 excluded.
pub open spec fn save_lines(vocab: Seq<Seq<char>>, m: Seq<int>, i: int) -> Seq<Seq<char>>
    decreases m.len() - i,
{
    if i < 1 || i >= m.len() {
        seq![]
    } else if m[i] != 0 {
        seq![line_of_pair(vocab[i], m[i])] + save_lines(vocab, m, i + 1)
    } else {
        save_lines(vocab, m, i + 1)
    }
}

/// Failure cases of model loading: a line that is not a feature/weight
/// pair or a bias value, or a value too large for the model.
#[derive(Debug, Clone, Copy, PartialEq, Eq, Structural)]
pub enum ModelLoadError {
    /// A line whose tokens do not parse as required.
    BadLine,
    /// A parsed weight or reconstructed bias weight beyond the cap.
    OutOfRange,
}

/// The model-file interpretation, one line at a time: a two-token line
/// binds a feature to a weight and accumulates the weight into the bias
/// sum; a one-token line is the halved bias value, from which the empty
/// bias feature's weight is reconstructed as `-2 b` minus the weights
/// seen so far.
pub open spec fn load_fold(
    lines: Seq<Seq<char>>,
    i: int,
    m: Map<Seq<char>, int>,
    bias: int,
) -> Result<Map<Seq<char>, int>, ModelLoadError>
    decreases lines.len() - i,
{
    if i < 0 || i >= lines.len() {
        Ok(m)
    } else {
        let toks = crate::strutil::split_ws(lines[i]);
        if toks.len() == 0 {
            Err(ModelLoadError::BadLine)
        } else if toks.len() >= 2 {
            match crate::decimal::spec_parse13(toks[1]) {
                Option::None => Err(ModelLoadError::BadLine),
                Option::Some(p) => {
                    let w = crate::decimal::tdiv(p, 10);
                    if w < -W_MAX || w > W_MAX {
                        Err(ModelLoadError::OutOfRange)
                    } else {
                        load_fold(lines, i + 1, m.insert(toks[0], w), bias + w)
                    }
                },
            }
        } else {
            match crate::decimal::spec_parse13(toks[0]) {
                Option::None => Err(ModelLoadError::BadLine),
                Option::Some(b13) => {
                    let w0 = -crate::decimal::tdiv(b13, 5) - bias;
                    if w0 < -W_MAX || w0 > W_MAX {
                        Err(ModelLoadError::OutOfRange)
                    } else {
                        load_fold(lines, i + 1, m.insert(Seq::empty(), w0), bias)
                    }
                },
            }
        }
    }
}

impl AdaBoost {
    /// Write the model out as lines: one tab-separated line per feature
    /// with a non-zero weight, slot 0 excluded, then one line holding
    /// half of the negated weight sum.
    pub fn save_model(&self) -> (r: Vec<String>)
        requires
            self.wf_model(),
            1 <= self.model@.len() <= 1_000_000_000,
        ensures
            r.deep_view() =~= save_lines(self.vocab(), self.weights(), 1).push(
                crate::decimal::spec_format_half(spec_bias2(self.weights()))),
    {
        let n = self.model.len();
        let mut out: Vec<String> = Vec::new();
        let mut bias: i128 = -(self.model[0] as i128);
        let mut i: usize = 1;
        proof {
            assert(seq_i64(self.model@).take(1).drop_last() =~= Seq::<int>::empty());
            assert(seq_i64(self.model@).take(1).last() == self.model@[0] as int);
            assert(sum_seq(Seq::<int>::empty()) == 0);
            assert(out.deep_view() =~= Seq::<Seq<char>>::empty());
        }
        while i < n
            invariant
                1 <= i <= n,
                n == self.model@.len(),
                self.wf_model(),
                n <= 1_000_000_000,
                save_lines(self.vocab(), self.weights(), 1) =~= out.deep_view() + save_lines(
                    self.vocab(), self.weights(), i as int),
                bias == -sum_seq(self.weights().take(i as int)),
                -(i as int) * (W_MAX as int) <= bias <= (i as int) * (W_MAX as int),
            decreases n - i,
        {
            let w = self.model[i];
            proof {
                assert(self.weights().take(i + 1).drop_last() =~= self.weights().take(i as int));
                assert(self.weights().take(i + 1).last() == self.model@[i as int] as int);
            }
            if w != 0 {
                let line = self.features[i].clone().concat("\t").concat(
                    crate::decimal::format_units(w).as_str());
                let ghost prev = out.deep_view();
                out.push(line);
                proof {
                    assert(line@ == line_of_pair(self.vocab()[i as int], w as int));
                    assert(out.deep_view() =~= prev.push(line@));
                    assert(save_lines(self.vocab(), self.weights(), i as int) == seq![
                        line_of_pair(self.vocab()[i as int], w as int)] + save_lines(self.vocab(),
                        self.weights(), i + 1));
                    assert(prev + (seq![line@] + save_lines(self.vocab(), self.weights(), i + 1))
                        =~= prev.push(line@) + save_lines(self.vocab(), self.weights(), i + 1));
                }
                bias = bias - w as i128;
            }
            i = i + 1;
        }
        proof {
            assert(self.weights().take(n as int) =~= self.weights());
            assert((n as int) * (W_MAX as int) <= 1_000_000_000_000_000_000_000_000_000)
                by (nonlinear_arith)
                requires n as int <= 1_000_000_000;
        }
        let bline = crate::decimal::format_half(bias);
        let ghost prev = out.deep_view();
        out.push(bline);
        proof {
            assert(out.deep_view() =~= prev.push(bline@));
        }
        out
    }

    /// Replace the model by the interpretation of the given lines; on a
    /// malformed line nothing changes and the error says why.
    pub fn load_model(&mut self, lines: &Vec<String>) -> (r: Result<(), ModelLoadError>)
        ensures
            r is Ok <==> load_fold(lines.deep_view(), 0, Map::empty(), 0) is Ok,
            r is Err ==> load_fold(lines.deep_view(), 0, Map::empty(), 0) == Result::<
                Map<Seq<char>, int>,
                ModelLoadError,
            >::Err(r->Err_0) && *final(self) == *old(self),
            r is Ok ==> {
                &&& sorted_strict(final(self).vocab())
                &&& final(self).wf_model()
                &&& map_of(final(self).vocab(), final(self).weights()) == load_fold(
                    lines.deep_view(), 0, Map::empty(), 0)->Ok_0
            },
            final(self).threshold == old(self).threshold,
            final(self).num_iterations == old(self).num_iterations,
            final(self).num_threads == old(self).num_threads,
            final(self).instance_weights == old(self).instance_weights,
            final(self).labels == old(self).labels,
            final(self).instances_buf == old(self).instances_buf,
            final(self).instances == old(self).instances,
            final(self).num_instances == old(self).num_instances,
    {
        let ghost ld = lines.deep_view();
        let mut names: Vec<String> = Vec::new();
        let mut vals: Vec<i64> = Vec::new();
        let mut bias: i128 = 0;
        let n = lines.len();
        let mut i: usize = 0;
        proof {
            assert(map_of(names.deep_view(), seq_i64(vals@)) =~= Map::<Seq<char>, int>::empty());
        }
        while i < n
            invariant
                0 <= i <= n,
                n == lines@.len(),
                ld == lines.deep_view(),
                sorted_strict(names.deep_view()),
                names@.len() == vals@.len(),
                load_fold(ld, 0, Map::empty(), 0) == load_fold(ld, i as int,
                    map_of(names.deep_view(), seq_i64(vals@)), bias as int),
                forall|j: int| 0 <= j < vals@.len() ==> -W_MAX <= #[trigger] vals@[j] <= W_MAX,
                -(i as int) * (W_MAX as int) <= bias <= (i as int) * (W_MAX as int),
            decreases n - i,
        {
            proof {
                assert((i as int) * (W_MAX as int)
                    <= 18_446_744_073_709_551_615_000_000_000_000_000_000) by (nonlinear_arith)
                    requires i as int <= 0xffff_ffff_ffff_ffff;
                assert((i as int + 1) * (W_MAX as int) == (i as int) * (W_MAX as int) + W_MAX)
                    by (nonlinear_arith);
            }
            let toks = crate::strutil::exec_split_ws(lines[i].as_str());
            proof {
                assert(ld[i as int] == lines@[i as int]@);
                assert(toks.deep_view() == crate::strutil::split_ws(ld[i as int]));
            }
            if toks.len() == 0 {
                return Err(ModelLoadError::BadLine);
            }
            if toks.len() >= 2 {
                proof {
                    assert(toks.deep_view()[1] == toks@[1]@);
                }
                match crate::decimal::parse13(toks[1].as_str()) {
                    Option::None => {
                        return Err(ModelLoadError::BadLine);
                    },
                    Option::Some(p) => {
                        let w128 = crate::decimal::tdiv_i128(p, 10);
                        if w128 < -W_MAX as i128 || w128 > W_MAX as i128 {
                            return Err(ModelLoadError::OutOfRange);
                        }
                        let w = w128 as i64;
                        proof {
                            assert(toks.deep_view()[0] == toks@[0]@);
                        }
                        insert_or_set(&mut names, &mut vals, toks[0].clone(), w);
                        proof {
                            assert((i as int + 1) * (W_MAX as int) == (i as int) * (W_MAX as int)
                                + W_MAX) by (nonlinear_arith);
                        }
                        bias = bias + w128;
                    },
                }
            } else {
                proof {
                    assert(toks.deep_view()[0] == toks@[0]@);
                }
                match crate::decimal::parse13(toks[0].as_str()) {
                    Option::None => {
                        return Err(ModelLoadError::BadLine);
                    },
                    Option::Some(b13) => {
                        let t = crate::decimal::tdiv_i128(b13, 5);
                        let w0 = -t - bias;
                        if w0 < -W_MAX as i128 || w0 > W_MAX as i128 {
                            return Err(ModelLoadError::OutOfRange);
                        }
                        insert_or_set(&mut names, &mut vals, String::new(), w0 as i64);
                    },
                }
            }
            i = i + 1;
        }
        self.features = names;
        self.model = vals;
        Ok(())
    }
}

/// Whether a token of `x` occurs after the label in one of the lines.
pub open spec fn token_in_lines(ld: Seq<Seq<char>>, x: Seq<char>) -> bool {
    exists|i: int, k: int|
        0 <= i < ld.len() && 1 <= k < crate::strutil::split_ws(ld[i]).len()
            && #[trigger] crate::strutil::split_ws(ld[i])[k] == x
}

/// The vocabulary indices of the tokens found in the vocabulary, in
/// token order, occurrences kept.
pub open spec fn resolve_found(vocab: Seq<Seq<char>>, toks: Seq<Seq<char>>) -> Seq<int>
    decreases toks.len(),
{
    if toks.len() == 0 {
        seq![]
    } else {
        let f = find_feature(vocab, toks[0]);
        (if f >= 0 {
            seq![f]
        } else {
            seq![]
        }) + resolve_found(vocab, toks.drop_first())
    }
}

/// A well-formed instance line: at least a label token, which parses.
pub open spec fn wf_instance_line(l: Seq<char>) -> bool {
    let toks = crate::strutil::split_ws(l);
    toks.len() >= 1 && crate::decimal::spec_parse_label(toks[0]) is Some
}

/// The label of a well-formed instance line.
pub open spec fn line_label(l: Seq<char>) -> int {
    crate::decimal::spec_parse_label(crate::strutil::split_ws(l)[0])->0 as int
}

/// A malformed instance line: its label token is missing or unreadable.
#[derive(Debug, Clone, Copy, PartialEq, Eq, Structural)]
pub enum InstanceParseError {
    /// The first token of a line does not parse as a label.
    BadLabel,
}

/// The exponential argument is insensitive to magnitudes beyond the
/// clamping limit.
proof fn lemma_exp_insensitive(x1: int, x2: int)
    requires
        (x1 >= crate::numeric::EXP_ARG_LIM && x2 >= crate::numeric::EXP_ARG_LIM) || (x1
            <= -crate::numeric::EXP_ARG_LIM && x2 <= -crate::numeric::EXP_ARG_LIM) || x1 == x2,
    ensures
        crate::numeric::spec_exp_fixed(x1) == crate::numeric::spec_exp_fixed(x2),
{
}

/// The clamped score gives the same initial weight as the raw score.
proof fn lemma_exp_clamped_score(l: int, s: int, sc: int)
    requires
        -128 <= l <= 127,
        sc == if s > crate::numeric::EXP_ARG_LIM {
            crate::numeric::EXP_ARG_LIM as int
        } else if s < -crate::numeric::EXP_ARG_LIM {
            -crate::numeric::EXP_ARG_LIM as int
        } else {
            s
        },
    ensures
        crate::numeric::spec_exp_fixed(-l * sc) == crate::numeric::spec_exp_fixed(-l * s),
{
    let lim = crate::numeric::EXP_ARG_LIM as int;
    if s > lim {
        if l >= 1 {
            assert(-l * s <= -lim && -l * sc <= -lim) by (nonlinear_arith)
                requires l >= 1 && s > lim && sc == lim && lim > 0;
            lemma_exp_insensitive(-l * sc, -l * s);
        } else if l <= -1 {
            assert(-l * s >= lim && -l * sc >= lim) by (nonlinear_arith)
                requires l <= -1 && s > lim && sc == lim && lim > 0;
            lemma_exp_insensitive(-l * sc, -l * s);
        } else {
            assert(-l * s == 0 && -l * sc == 0) by (nonlinear_arith)
                requires l == 0;
        }
    } else if s < -lim {
        if l >= 1 {
            assert(-l * s >= lim && -l * sc >= lim) by (nonlinear_arith)
                requires l >= 1 && s < -lim && sc == -lim && lim > 0;
            lemma_exp_insensitive(-l * sc, -l * s);
        } else if l <= -1 {
            assert(-l * s <= -lim && -l * sc <= -lim) by (nonlinear_arith)
                requires l <= -1 && s < -lim && sc == -lim && lim > 0;
            lemma_exp_insensitive(-l * sc, -l * s);
        } else {
            assert(-l * s == 0 && -l * sc == 0) by (nonlinear_arith)
                requires l == 0;
        }
    }
}

impl AdaBoost {
    /// Build the vocabulary from feature-file lines: the distinct tokens
    /// after each line's label, plus the empty bias feature, sorted, each
    /// with a zero weight; the instance count becomes the line count.
    pub fn initialize_features(&mut self, lines: &Vec<String>)
        ensures
            sorted_strict(final(self).vocab()),
            final(self).wf_model(),
            forall|j: int| 0 <= j < final(self).weights().len() ==> final(self).weights()[j] == 0,
            final(self).num_instances == old(self).num_instances,
            old(self).num_instances == 0 && old(self).labels@.len() == 0 && old(self).instance_weights@.len() == 0 && old(self).instances@.len() == 0 && old(self).instances_buf@.len() == 0 ==> final(self).wf(),
            forall|x: Seq<char>|
                final(self).vocab().contains(x) <==> x == Seq::<char>::empty() || token_in_lines(
                    lines.deep_view(), x),
            final(self).threshold == old(self).threshold,
            final(self).num_iterations == old(self).num_iterations,
            final(self).num_threads == old(self).num_threads,
            final(self).instance_weights == old(self).instance_weights,
            final(self).labels == old(self).labels,
            final(self).instances_buf == old(self).instances_buf,
            final(self).instances == old(self).instances,
    {
        let ghost ld = lines.deep_view();
        let mut names: Vec<String> = Vec::new();
        let mut vals: Vec<i64> = Vec::new();
        let n = lines.len();
        let mut i: usize = 0;
        while i < n
            invariant
                0 <= i <= n,
                n == lines@.len(),
                ld == lines.deep_view(),
                sorted_strict(names.deep_view()),
                names@.len() == vals@.len(),
                forall|j: int| 0 <= j < vals@.len() ==> #[trigger] vals@[j] == 0,
                forall|x: Seq<char>|
                    names.deep_view().contains(x) <==> token_in_lines(ld.take(i as int), x),
            decreases n - i,
        {
            let toks = crate::strutil::exec_split_ws(lines[i].as_str());
            proof {
                assert(ld[i as int] == lines@[i as int]@);
                assert(toks.deep_view() == crate::strutil::split_ws(ld[i as int]));
            }
            let tn = toks.len();
            let mut k: usize = 1;
            while k < tn
                invariant
                    1 <= k <= tn || (tn == 0 && k == 1),
                    tn == toks@.len(),
                    0 <= i < n,
                    n == lines@.len(),
                    ld == lines.deep_view(),
                    toks.deep_view() == crate::strutil::split_ws(ld[i as int]),
                    sorted_strict(names.deep_view()),
                    names@.len() == vals@.len(),
                    forall|j: int| 0 <= j < vals@.len() ==> #[trigger] vals@[j] == 0,
                    forall|x: Seq<char>|
                        names.deep_view().contains(x) <==> token_in_lines(ld.take(i as int), x)
                            || exists|k2: int|
                            1 <= k2 < k && crate::strutil::split_ws(ld[i as int])[k2] == x,
                decreases tn - k,
            {
                proof {
                    assert(toks.deep_view()[k as int] == toks@[k as int]@);
                }
                insert_or_set(&mut names, &mut vals, toks[k].clone(), 0);
                k = k + 1;
            }
            proof {
                assert forall|x: Seq<char>|
                    names.deep_view().contains(x) <==> token_in_lines(ld.take(i + 1), x) by {
                    assert(ld.take(i + 1)[i as int] == ld[i as int]);
                    if token_in_lines(ld.take(i + 1), x) {
                        let (a, b) = choose|a: int, b: int|
                            0 <= a < ld.take(i + 1).len() && 1 <= b < crate::strutil::split_ws(
                                ld.take(i + 1)[a]).len() && #[trigger] crate::strutil::split_ws(
                                ld.take(i + 1)[a])[b] == x;
                        if a < i {
                            assert(ld.take(i as int)[a] == ld[a]);
                            assert(ld.take(i + 1)[a] == ld[a]);
                            assert(crate::strutil::split_ws(ld.take(i as int)[a])[b] == x);
                            assert(token_in_lines(ld.take(i as int), x));
                        } else {
                            assert(ld.take(i + 1)[a] == ld[i as int]);
                            assert(crate::strutil::split_ws(ld[i as int])[b] == x);
                        }
                    }
                    if token_in_lines(ld.take(i as int), x) {
                        let (a, b) = choose|a: int, b: int|
                            0 <= a < ld.take(i as int).len() && 1 <= b
                                < crate::strutil::split_ws(ld.take(i as int)[a]).len()
                                && #[trigger] crate::strutil::split_ws(ld.take(i as int)[a])[b]
                                == x;
                        assert(ld.take(i + 1)[a] == ld.take(i as int)[a]);
                        assert(crate::strutil::split_ws(ld.take(i + 1)[a])[b] == x);
                        assert(token_in_lines(ld.take(i + 1), x));
                    }
                    if exists|k2: int|
                        1 <= k2 < tn && crate::strutil::split_ws(ld[i as int])[k2] == x {
                        let k2 = choose|k2: int|
                            1 <= k2 < tn && crate::strutil::split_ws(ld[i as int])[k2] == x;
                        assert(crate::strutil::split_ws(ld.take(i + 1)[i as int])[k2] == x);
                        assert(token_in_lines(ld.take(i + 1), x));
                    }
                }
            }
            i = i + 1;
        }
        insert_or_set(&mut names, &mut vals, String::new(), 0);
        proof {
            assert(ld.take(n as int) =~= ld);
        }
        self.features = names;
        self.model = vals;
    }
}

impl AdaBoost {
    /// Append a list of feature indices to the shared buffer, leaving
    /// every recorded instance's index list as it was.
    fn append_indices(&mut self, idxs: &Vec<usize>) -> (r: (usize, usize))
        requires
            old(self).wf(),
            forall|j: int| 0 <= j < idxs@.len() ==> (#[trigger] idxs@[j] as int)
                < old(self).model@.len(),
        ensures
            final(self).wf(),
            final(self).instances_buf@ == old(self).instances_buf@ + idxs@,
            r.0 == old(self).instances_buf@.len(),
            r.1 == final(self).instances_buf@.len(),
            r.0 <= r.1,
            final(self).instances_buf@.subrange(r.0 as int, r.1 as int) == idxs@,
            forall|i: int|
                0 <= i < old(self).num_instances ==> #[trigger] final(self).inst(i)
                    == old(self).inst(i),
            final(self).model == old(self).model,
            final(self).features == old(self).features,
            final(self).labels == old(self).labels,
            final(self).instance_weights == old(self).instance_weights,
            final(self).instances == old(self).instances,
            final(self).num_instances == old(self).num_instances,
            final(self).threshold == old(self).threshold,
            final(self).num_iterations == old(self).num_iterations,
            final(self).num_threads == old(self).num_threads,
    {
        let start = self.instances_buf.len();
        let m = idxs.len();
        let mut t: usize = 0;
        while t < m
            invariant
                0 <= t <= m,
                m == idxs@.len(),
                self.instances_buf@ =~= old(self).instances_buf@ + idxs@.subrange(0, t as int),
                forall|j: int| 0 <= j < idxs@.len() ==> (#[trigger] idxs@[j] as int)
                    < old(self).model@.len(),
                self.model == old(self).model,
                self.features == old(self).features,
                self.labels == old(self).labels,
                self.instance_weights == old(self).instance_weights,
                self.instances == old(self).instances,
                self.num_instances == old(self).num_instances,
                self.threshold == old(self).threshold,
                self.num_iterations == old(self).num_iterations,
                self.num_threads == old(self).num_threads,
            decreases m - t,
        {
            self.instances_buf.push(idxs[t]);
            proof {
                assert(old(self).instances_buf@ + idxs@.subrange(0, t + 1) =~= (old(self).instances_buf@ + idxs@.subrange(0, t as int)).push(idxs@[t as int]));
            }
            t = t + 1;
        }
        let end = self.instances_buf.len();
        proof {
            assert(idxs@.subrange(0, m as int) =~= idxs@);
            assert(self.instances_buf@.subrange(start as int, end as int) =~= idxs@);
            assert forall|i: int| 0 <= i < old(self).num_instances implies #[trigger] self.inst(i)
                == old(self).inst(i) by {
                assert(self.instances@[i] == old(self).instances@[i]);
                assert(self.instances_buf@.subrange(self.instances@[i].0 as int,
                    self.instances@[i].1 as int) =~= old(self).instances_buf@.subrange(
                    old(self).instances@[i].0 as int, old(self).instances@[i].1 as int));
            }
        }
        (start, end)
    }

    /// Load the training instances from feature-file lines.  Each line
    /// is a label followed by feature tokens; tokens absent from the
    /// vocabulary are dropped.  The starting weight of an instance is
    /// the exponential of minus its label times its decision score, so a
    /// warm start from a loaded model emphasises the instances that the
    /// model gets wrong.
    #[verifier::rlimit(100)]
    pub fn initialize_instances(&mut self, lines: &Vec<String>) -> (r: Result<
        (),
        InstanceParseError,
    >)
        requires
            old(self).wf(),
            old(self).num_instances <= usize::MAX - lines@.len(),
        ensures
            final(self).wf(),
            final(self).model == old(self).model,
            final(self).features == old(self).features,
            final(self).threshold == old(self).threshold,
            final(self).num_iterations == old(self).num_iterations,
            final(self).num_threads == old(self).num_threads,
            r is Ok <==> forall|i: int|
                0 <= i < lines@.len() ==> wf_instance_line(#[trigger] lines.deep_view()[i]),
            r is Ok ==> {
                &&& final(self).num_instances == old(self).num_instances + lines@.len()
                &&& forall|i: int|
                    0 <= i < old(self).num_instances ==> #[trigger] final(self).inst(i) == old(self).inst(i) && final(self).label_seq()[i] == old(self).label_seq()[i] && final(self).dweights()[i] == old(self).dweights()[i]
                &&& forall|i: int|
                    0 <= i < lines@.len() ==> #[trigger] final(self).inst(
                        old(self).num_instances + i,
                    ) == resolve_found(old(self).vocab(), crate::strutil::split_ws(
                        lines.deep_view()[i],
                    ).drop_first())
                &&& forall|i: int|
                    0 <= i < lines@.len() ==> #[trigger] final(self).label_seq()[old(self).num_instances + i] == line_label(lines.deep_view()[i])
                &&& forall|i: int|
                    0 <= i < lines@.len() ==> #[trigger] final(self).dweights()[old(self).num_instances + i] == crate::numeric::spec_exp_fixed(
                        -line_label(lines.deep_view()[i]) * score2_idx(old(self).weights(),
                            resolve_found(old(self).vocab(), crate::strutil::split_ws(
                                    lines.deep_view()[i]).drop_first())),
                    )
            },
    {
        let ghost ld = lines.deep_view();
        let ghost n0 = old(self).num_instances as int;
        let n_model = self.model.len();
        proof {
            lemma_sum_bounded(self.weights(), W_MAX as int);
            assert((n_model as int) * (W_MAX as int)
                <= 18_446_744_073_709_551_615_000_000_000_000_000_000) by (nonlinear_arith)
                requires n_model as int <= 0xffff_ffff_ffff_ffff;
        }
        let bias2: i128 = -sum_weights_i128(&self.model);
        let n = lines.len();
        let mut i: usize = 0;
        while i < n
            invariant
                0 <= i <= n,
                n == lines@.len(),
                ld == lines.deep_view(),
                n0 == old(self).num_instances as int,
                self.wf(),
                self.model == old(self).model,
                self.features == old(self).features,
                self.threshold == old(self).threshold,
                self.num_iterations == old(self).num_iterations,
                self.num_threads == old(self).num_threads,
                self.num_instances == n0 + i,
                n0 + n <= usize::MAX,
                bias2 == spec_bias2(self.weights()),
                -18_446_744_073_709_551_615_000_000_000_000_000_000 <= bias2
                    <= 18_446_744_073_709_551_615_000_000_000_000_000_000,
                forall|k: int| 0 <= k < i ==> wf_instance_line(#[trigger] ld[k]),
                forall|k: int|
                    0 <= k < n0 ==> self.inst(k) == #[trigger] old(self).inst(k)
                        && self.label_seq()[k] == old(self).label_seq()[k] && self.dweights()[k]
                        == old(self).dweights()[k],
                forall|k: int|
                    0 <= k < i ==> self.inst(n0 + k) == resolve_found(old(self).vocab(),
                        crate::strutil::split_ws(#[trigger] ld[k]).drop_first()),
                forall|k: int|
                    0 <= k < i ==> self.label_seq()[n0 + k] == line_label(#[trigger] ld[k]),
                forall|k: int|
                    0 <= k < i ==> self.dweights()[n0 + k] == crate::numeric::spec_exp_fixed(
                        -line_label(#[trigger] ld[k]) * score2_idx(old(self).weights(),
                            resolve_found(old(self).vocab(), crate::strutil::split_ws(
                                    ld[k]).drop_first()))),
            decreases n - i,
        {
            let toks = crate::strutil::exec_split_ws(lines[i].as_str());
            proof {
                assert(ld[i as int] == lines@[i as int]@);
                assert(toks.deep_view() == crate::strutil::split_ws(ld[i as int]));
            }
            if toks.len() == 0 {
                return Err(InstanceParseError::BadLabel);
            }
            proof {
                assert(toks.deep_view()[0] == toks@[0]@);
            }
            let label: i8 = match crate::decimal::parse_label(toks[0].as_str()) {
                Option::None => {
                    return Err(InstanceParseError::BadLabel);
                },
                Option::Some(l) => l,
            };
            // Resolve the feature tokens and accumulate the raw score.
            let ghost tail = toks.deep_view().drop_first();
            let mut idxs: Vec<usize> = Vec::new();
            let tn = toks.len();
            let mut acc: i128 = 0;
            let mut k: usize = 1;
            proof {
                assert(tail.skip(0) =~= tail);
                assert(idxs@.map_values(|x: usize| x as int) =~= Seq::<int>::empty());
            }
            while k < tn
                invariant
                    1 <= k <= tn,
                    tn == toks@.len(),
                    tail == toks.deep_view().drop_first(),
                    toks.deep_view() == crate::strutil::split_ws(ld[i as int]),
                    self.wf(),
                    self.model == old(self).model,
                    self.features == old(self).features,
                    forall|j: int| 0 <= j < idxs@.len() ==> (#[trigger] idxs@[j] as int)
                        < self.model@.len(),
                    resolve_found(self.vocab(), tail) == idxs@.map_values(|x: usize| x as int)
                        + resolve_found(self.vocab(), tail.skip(k - 1)),
                    acc == sum_idx(self.weights(), idxs@.map_values(|x: usize| x as int)),
                    idxs@.len() <= k - 1,
                    -(k as int) * (W_MAX as int) <= acc <= (k as int) * (W_MAX as int),
                decreases tn - k,
            {
                let ghost pushed = idxs@.map_values(|x: usize| x as int);
                proof {
                    assert(tail.skip(k - 1)[0] == tail[k - 1]);
                    assert(tail[k - 1] == toks.deep_view()[k as int]);
                    assert(tail.skip(k - 1).drop_first() =~= tail.skip(k as int));
                    assert(toks.deep_view()[k as int] == toks@[k as int]@);
                    assert((k as int + 1) * (W_MAX as int) == (k as int) * (W_MAX as int) + W_MAX)
                        by (nonlinear_arith);
                }
                match self.find(toks[k].as_str()) {
                    Option::Some(idx) => {
                        idxs.push(idx);
                        acc = acc + self.model[idx] as i128;
                        proof {
                            assert(idxs@.map_values(|x: usize| x as int) =~= pushed.push(
                                idx as int));
                            lemma_sum_idx_push(self.weights(), pushed, idx as int);
                        }
                    },
                    Option::None => {},
                }
                k = k + 1;
            }
            proof {
                assert(tail.skip(tn - 1) =~= Seq::<Seq<char>>::empty());
                assert(idxs@.map_values(|x: usize| x as int) + Seq::<int>::empty() =~= idxs@
                    .map_values(|x: usize| x as int));
                assert(resolve_found(self.vocab(), tail) == idxs@.map_values(
                    |x: usize| x as int));
            }
            let se = self.append_indices(&idxs);
            let start = se.0;
            let end = se.1;
            // The starting weight from the clamped decision score.
            let score2: i128 = bias2 + 2 * acc;
            let sc: i128 = if score2 > crate::numeric::EXP_ARG_LIM as i128 {
                crate::numeric::EXP_ARG_LIM as i128
            } else if score2 < -crate::numeric::EXP_ARG_LIM as i128 {
                -crate::numeric::EXP_ARG_LIM as i128
            } else {
                score2
            };
            proof {
                assert(-2_000_000_000_000_000 <= (-(label as int)) * (sc as int)
                    <= 2_000_000_000_000_000) by (nonlinear_arith)
                    requires -128 <= label as int <= 127 && -14_000_000_000_000 <= sc as int
                        <= 14_000_000_000_000;
            }
            let d = crate::numeric::exp_fixed(-(label as i128) * sc);
            proof {
                lemma_exp_clamped_score(label as int, score2 as int, sc as int);
                assert(score2 == score2_idx(self.weights(), resolve_found(self.vocab(), tail)));
            }
            let ghost pre = *self;
            proof {
                assert(pre.wf());
                assert(pre.num_instances == n0 + i);
                assert(pre.labels@.len() == n0 + i);
                assert(pre.instance_weights@.len() == n0 + i);
                assert(pre.instances@.len() == n0 + i);
            }
            self.instances.push((start, end));
            self.labels.push(label);
            self.instance_weights.push(d);
            self.num_instances = self.num_instances + 1;
            proof {
                assert(self.instances@[n0 + i] == (start, end));
                assert(self.instances_buf@.subrange(start as int, end as int).map_values(
                    |x: usize| x as int) =~= self.inst(n0 + i));
                assert forall|kk: int| 0 <= kk < n0 + i implies #[trigger] self.inst(kk)
                    == pre.inst(kk) by {
                    assert(self.instances@[kk] == pre.instances@[kk]);
                    assert(self.instances_buf@.subrange(self.instances@[kk].0 as int,
                        self.instances@[kk].1 as int) =~= pre.instances_buf@.subrange(
                        pre.instances@[kk].0 as int, pre.instances@[kk].1 as int));
                }
                assert(self.label_seq() =~= pre.label_seq().push(label as int));
                assert(self.dweights() =~= pre.dweights().push(d as int));
                // Carry each prefix fact across the appends of this line.
                assert forall|k: int|
                    0 <= k < i + 1 implies self.inst(n0 + k) == resolve_found(old(self).vocab(),
                    crate::strutil::split_ws(#[trigger] ld[k]).drop_first()) by {
                    if k < i {
                        assert(0 <= k);
                        assert(k < i);
                        assert(n0 >= 0);
                        assert(0 <= n0 + k < n0 + i);
                        assert(self.inst(n0 + k) == pre.inst(n0 + k));
                    } else {
                        assert(self.inst(n0 + i) =~= resolve_found(old(self).vocab(),
                            crate::strutil::split_ws(ld[i as int]).drop_first()));
                    }
                }
                assert forall|k: int|
                    0 <= k < i + 1 implies self.label_seq()[n0 + k] == line_label(
                    #[trigger] ld[k]) by {
                    if k < i {
                        assert(pre.label_seq().push(label as int)[n0 + k] == pre.label_seq()[n0
                            + k]);
                        assert(self.label_seq()[n0 + k] == pre.label_seq()[n0 + k]);
                    }
                }
                assert forall|k: int|
                    0 <= k < i + 1 implies self.dweights()[n0 + k]
                        == crate::numeric::spec_exp_fixed(-line_label(#[trigger] ld[k])
                        * score2_idx(old(self).weights(), resolve_found(old(self).vocab(),
                            crate::strutil::split_ws(ld[k]).drop_first()))) by {
                    if k < i {
                        assert(pre.dweights().push(d as int)[n0 + k] == pre.dweights()[n0 + k]);
                        assert(self.dweights()[n0 + k] == pre.dweights()[n0 + k]);
                    }
                }
                assert forall|k: int|
                    0 <= k < n0 implies self.inst(k) == #[trigger] old(self).inst(k)
                        && self.label_seq()[k] == old(self).label_seq()[k] && self.dweights()[k]
                        == old(self).dweights()[k] by {
                    assert(pre.inst(k) == old(self).inst(k));
                    assert(self.inst(k) == pre.inst(k));
                    assert(pre.label_seq().push(label as int)[k] == pre.label_seq()[k]);
                    assert(self.label_seq()[k] == pre.label_seq()[k]);
                    assert(pre.dweights().push(d as int)[k] == pre.dweights()[k]);
                    assert(self.dweights()[k] == pre.dweights()[k]);
                }
            }
            i = i + 1;
        }
        proof {
            assert forall|k: int|
                0 <= k < n implies #[trigger] self.inst(n0 + k) == resolve_found(
                old(self).vocab(), crate::strutil::split_ws(lines.deep_view()[k]).drop_first())
                && self.label_seq()[n0 + k] == line_label(lines.deep_view()[k])
                && self.dweights()[n0 + k] == crate::numeric::spec_exp_fixed(
                -line_label(lines.deep_view()[k]) * score2_idx(old(self).weights(),
                    resolve_found(old(self).vocab(), crate::strutil::split_ws(
                            lines.deep_view()[k]).drop_first()))) by {
                assert(ld[k] == lines.deep_view()[k]);
            }
        }
        Ok(())
    }
}

impl AdaBoost {
    /// Rescale the instance weights so that they sum to exactly `SCALE`,
    /// each slot rounded down and the rounding loss given back one unit
    /// at a time from the front.
    fn normalize_weights(&mut self)
        requires
            old(self).wf(),
            sum_seq(old(self).dweights()) >= 1,
        ensures
            final(self).wf(),
            final(self).dweights() == norm_d(old(self).dweights()),
            sum_seq(final(self).dweights()) == SCALE,
            forall|i: int|
                0 <= i < final(self).dweights().len() ==> 0 <= #[trigger] final(self).dweights()[i] <= SCALE,
            final(self).dweights().len() == old(self).dweights().len(),
            final(self).model == old(self).model,
            final(self).features == old(self).features,
            final(self).labels == old(self).labels,
            final(self).instances_buf == old(self).instances_buf,
            final(self).instances == old(self).instances,
            final(self).num_instances == old(self).num_instances,
            final(self).threshold == old(self).threshold,
            final(self).num_iterations == old(self).num_iterations,
            final(self).num_threads == old(self).num_threads,
    {
        let ghost d0 = self.dweights();
        proof {
            assert forall|j: int| 0 <= j < d0.len() implies #[trigger] d0[j] >= 0 by {
                assert(d0[j] == self.instance_weights@[j] as int);
            }
        }
        let s: i128 = sum_weights_i128(&self.instance_weights);
        proof {
            lemma_norm_base_sum(d0, s as int);
        }
        let n = self.instance_weights.len();
        let mut base: Vec<i64> = Vec::new();
        let mut sumbase: i128 = 0;
        let mut i: usize = 0;
        while i < n
            invariant
                0 <= i <= n,
                n == self.instance_weights@.len(),
                d0 == self.dweights(),
                s == sum_seq(d0),
                s >= 1,
                forall|j: int| 0 <= j < d0.len() ==> #[trigger] d0[j] >= 0,
                base@.len() == i,
                seq_i64(base@) =~= norm_base(d0, s as int).take(i as int),
                sumbase == sum_seq(norm_base(d0, s as int).take(i as int)),
                forall|j: int| 0 <= j < base@.len() ==> 0 <= #[trigger] base@[j] <= SCALE,
                0 <= sumbase <= (i as int) * (SCALE as int),
            decreases n - i,
        {
            let di = self.instance_weights[i];
            proof {
                lemma_sum_ge_elem(d0, i as int);
                assert(di as int == d0[i as int]);
                assert(di as int * (SCALE as int) <= s as int * (SCALE as int))
                    by (nonlinear_arith)
                    requires di as int <= s as int && SCALE > 0;
                vstd::arithmetic::div_mod::lemma_div_is_ordered(di as int * (SCALE as int),
                    s as int * (SCALE as int), s as int);
                vstd::arithmetic::div_mod::lemma_div_multiples_vanish(SCALE as int, s as int);
                assert((s as int) * (SCALE as int) == (s as int) * (SCALE as int));
                assert(di as int * (SCALE as int) >= 0) by (nonlinear_arith)
                    requires di as int >= 0;
                vstd::arithmetic::div_mod::lemma_div_pos_is_pos(di as int * (SCALE as int),
                    s as int);
            }
            let bi: i64 = ((di as i128 * SCALE as i128) / s) as i64;
            let ghost pre = seq_i64(base@);
            base.push(bi);
            sumbase = sumbase + bi as i128;
            proof {
                assert(seq_i64(base@) =~= pre.push(bi as int));
                assert(norm_base(d0, s as int).take(i + 1) =~= norm_base(d0, s as int).take(
                    i as int).push(bi as int));
                assert(norm_base(d0, s as int).take(i + 1).drop_last() =~= norm_base(d0,
                    s as int).take(i as int));
                assert((i as int + 1) * (SCALE as int) == (i as int) * (SCALE as int) + SCALE)
                    by (nonlinear_arith);
            }
            i = i + 1;
        }
        proof {
            assert(norm_base(d0, s as int).take(n as int) =~= norm_base(d0, s as int));
            // The rounded sum lies within one unit per weight of SCALE.
            assert(sumbase <= SCALE) by {
                assert((s as int) * sum_seq(norm_base(d0, s as int)) <= (s as int) * (
                SCALE as int)) by (nonlinear_arith)
                    requires (s as int) * sum_seq(norm_base(d0, s as int)) <= sum_seq(d0) * (
                        SCALE as int) && sum_seq(d0) == s as int;
                assert(sum_seq(norm_base(d0, s as int)) <= SCALE) by (nonlinear_arith)
                    requires (s as int) * sum_seq(norm_base(d0, s as int)) <= (s as int) * (
                        SCALE as int) && s as int >= 1;
            }
            assert((SCALE as int) - sumbase <= n as int) by {
                assert(sum_seq(d0) * (SCALE as int) == (s as int) * (SCALE as int));
                assert((s as int) * (SCALE as int) <= (s as int) * sum_seq(norm_base(d0,
                    s as int)) + (s as int) * (n as int)) by (nonlinear_arith)
                    requires (s as int) * (SCALE as int) <= (s as int) * sum_seq(norm_base(d0,
                        s as int)) + ((s as int) - 1) * (n as int) && n as int >= 0 && s as int
                        >= 1;
                assert((SCALE as int) <= sum_seq(norm_base(d0, s as int)) + (n as int))
                    by (nonlinear_arith)
                    requires (s as int) * (SCALE as int) <= (s as int) * sum_seq(norm_base(d0,
                        s as int)) + (s as int) * (n as int) && s as int >= 1;
            }
        }
        let deficit: usize = (SCALE as i128 - sumbase) as usize;
        let mut nd: Vec<i64> = Vec::new();
        let mut sumnd: i128 = 0;
        let mut i2: usize = 0;
        while i2 < n
            invariant
                0 <= i2 <= n,
                n == base@.len(),
                deficit as int == norm_deficit(d0, s as int),
                0 <= deficit <= n,
                s == sum_seq(d0),
                s >= 1,
                seq_i64(base@) =~= norm_base(d0, s as int),
                forall|j: int| 0 <= j < base@.len() ==> 0 <= #[trigger] base@[j] <= SCALE,
                nd@.len() == i2,
                forall|j: int| 0 <= j < nd@.len() ==> 0 <= #[trigger] nd@[j] <= SCALE,
                seq_i64(nd@) =~= norm_d(d0).take(i2 as int),
                sumnd == sum_seq(norm_d(d0).take(i2 as int)),
                sumnd == sum_seq(norm_base(d0, s as int).take(i2 as int)) + (if i2 < deficit {
                    i2 as int
                } else {
                    deficit as int
                }),
                0 <= sumnd <= (i2 as int) * ((SCALE as int) + 1),
                d0 == self.dweights(),
            decreases n - i2,
        {
            let b = base[i2];
            let add: i64 = if i2 < deficit {
                1
            } else {
                0
            };
            proof {
                if i2 < deficit {
                    // A full slot would force a zero deficit.
                    if b == SCALE {
                        assert forall|j: int|
                            0 <= j < seq_i64(base@).len() implies #[trigger] seq_i64(base@)[j]
                                >= 0 by {
                            assert(seq_i64(base@)[j] == base@[j] as int);
                        }
                        lemma_sum_ge_elem(seq_i64(base@), i2 as int);
                        assert(false);
                    }
                }
            }
            let v = b + add;
            let ghost pre = seq_i64(nd@);
            nd.push(v);
            proof {
                assert((i2 as int) * ((SCALE as int) + 1)
                    <= 20_000_000_000_000_000_000_000_000_000_000) by (nonlinear_arith)
                    requires i2 as int <= 0xffff_ffff_ffff_ffff && SCALE == 1_000_000_000_000;
            }
            sumnd = sumnd + v as i128;
            proof {
                assert(seq_i64(nd@) =~= pre.push(v as int));
                assert(norm_d(d0).take(i2 + 1) =~= norm_d(d0).take(i2 as int).push(v as int));
                assert(norm_d(d0).take(i2 + 1).drop_last() =~= norm_d(d0).take(i2 as int));
                assert(norm_base(d0, s as int).take(i2 + 1).drop_last() =~= norm_base(d0,
                    s as int).take(i2 as int));
                assert(norm_base(d0, s as int).take(i2 + 1).last() == base@[i2 as int] as int);
                assert((i2 as int + 1) * ((SCALE as int) + 1) == (i2 as int) * ((SCALE as int)
                    + 1) + (SCALE as int) + 1) by (nonlinear_arith);
            }
            i2 = i2 + 1;
        }
        proof {
            assert(norm_d(d0).take(n as int) =~= norm_d(d0));
            assert(norm_base(d0, s as int).take(n as int) =~= norm_base(d0, s as int));
            assert(sum_seq(norm_d(d0)) == SCALE);
        }
        self.instance_weights = nd;
    }
}

/// Number of occurrences of `h` in an index list.
pub open spec fn count_occ(s: Seq<int>, h: int) -> int
    decreases s.len(),
{
    if s.len() == 0 {
        0
    } else {
        (if s[0] == h {
            1int
        } else {
            0int
        }) + count_occ(s.drop_first(), h)
    }
}

/// Appending an index raises exactly its own count.
pub proof fn lemma_count_occ_push(s: Seq<int>, x: int, h: int)
    ensures
        count_occ(s.push(x), h) == count_occ(s, h) + if x == h {
            1int
        } else {
            0int
        },
    decreases s.len(),
{
    if s.len() == 0 {
        assert(s.push(x)[0] == x);
        assert(s.push(x).drop_first() =~= Seq::<int>::empty());
        assert(count_occ(Seq::<int>::empty(), h) == 0);
    } else {
        assert(s.push(x)[0] == s[0]);
        assert(s.push(x).drop_first() =~= s.drop_first().push(x));
        lemma_count_occ_push(s.drop_first(), x, h);
    }
}

/// Occurrence counts lie between zero and the length.
pub proof fn lemma_count_occ_bounds(s: Seq<int>, h: int)
    ensures
        0 <= count_occ(s, h) <= s.len(),
    decreases s.len(),
{
    if s.len() > 0 {
        lemma_count_occ_bounds(s.drop_first(), h);
    }
}

/// Absolute value.
pub open spec fn abs_i(x: int) -> int {
    if x >= 0 {
        x
    } else {
        -x
    }
}

/// Clamp an error rate away from the two degenerate ends, by one
/// ten-billionth on each side.
pub open spec fn clamp_e(e: int) -> int {
    if e < 100 {
        100
    } else if e > SCALE - 100 {
        SCALE - 100
    } else {
        e
    }
}

/// Clamp a weight into the representable band.
pub open spec fn clamp_w(x: int) -> int {
    if x < -W_MAX {
        -W_MAX as int
    } else if x > W_MAX {
        W_MAX as int
    } else {
        x
    }
}

/// One unit at least: rounding in the weight update never extinguishes
/// a misclassified instance entirely.
pub open spec fn at_least_one(x: int) -> int {
    if x < 1 {
        1
    } else {
        x
    }
}

impl AdaBoost {
    /// The signed error mass pulled by feature `h` over the first `n`
    /// instances, for the instance weights `d`.
    pub open spec fn err_upto_d(&self, d: Seq<int>, h: int, n: int) -> int
        decreases n,
    {
        if n <= 0 {
            0
        } else {
            self.err_upto_d(d, h, n - 1) - d[n - 1] * self.label_seq()[n - 1] * count_occ(
                self.inst(n - 1),
                h,
            )
        }
    }

    /// The weight mass of the positively labelled instances among the
    /// first `n`.
    pub open spec fn pos_upto_d(&self, d: Seq<int>, n: int) -> int
        decreases n,
    {
        if n <= 0 {
            0
        } else {
            self.pos_upto_d(d, n - 1) + if self.label_seq()[n - 1] > 0 {
                d[n - 1]
            } else {
                0int
            }
        }
    }

    /// The weighted error rate of the stump on feature `h`, in `SCALE`
    /// units; the instance weights `d` are assumed to sum to `SCALE`.
    pub open spec fn e_rate_d(&self, d: Seq<int>, h: int) -> int {
        self.err_upto_d(d, h, self.num_instances as int) + self.pos_upto_d(
            d,
            self.num_instances as int,
        )
    }

    /// Twice the margin of the stump on feature `h`.
    pub open spec fn margin2_d(&self, d: Seq<int>, h: int) -> int {
        abs_i(SCALE - 2 * self.e_rate_d(d, h))
    }

    /// Whether `h` is the first feature attaining the best margin.
    pub open spec fn is_first_best(&self, d: Seq<int>, h: int) -> bool {
        &&& 0 <= h < self.model@.len()
        &&& forall|g: int|
            0 <= g < self.model@.len() ==> self.margin2_d(d, g) <= self.margin2_d(d, h)
        &&& forall|g: int| 0 <= g < h ==> self.margin2_d(d, g) < self.margin2_d(d, h)
    }

    /// Whether the stump on `h` votes against the label of instance `i`.
    pub open spec fn disagrees(&self, i: int, h: int) -> bool {
        if count_occ(self.inst(i), h) > 0 {
            self.label_seq()[i] < 0
        } else {
            self.label_seq()[i] > 0
        }
    }

    /// The unnormalized reweighted instance weights after choosing the
    /// stump on `h` with clamped error rate `ec`: a misclassified
    /// instance's weight is scaled by `(SCALE - ec) / ec`, floor of one.
    pub open spec fn reweight_u(&self, d: Seq<int>, h: int, ec: int) -> Seq<int> {
        Seq::new(d.len(), |i: int|
            if self.disagrees(i, h) {
                at_least_one(d[i] * ((SCALE as int) - ec) / ec)
            } else {
                d[i]
            })
    }
}

/// A sequence of nonnegative values has a nonnegative sum, at least as
/// large as each of its elements.
pub proof fn lemma_sum_ge_elem(s: Seq<int>, i: int)
    requires
        forall|j: int| 0 <= j < s.len() ==> #[trigger] s[j] >= 0,
        0 <= i < s.len(),
    ensures
        sum_seq(s) >= s[i],
        sum_seq(s) >= 0,
    decreases s.len(),
{
    if s.len() > 0 {
        assert forall|j: int| 0 <= j < s.len() - 1 implies #[trigger] s.drop_last()[j] >= 0 by {
            assert(s.drop_last()[j] == s[j]);
        }
        if i == s.len() - 1 {
            lemma_sum_nonneg(s.drop_last());
        } else {
            lemma_sum_ge_elem(s.drop_last(), i);
            assert(s.drop_last()[i] == s[i]);
        }
    }
}

/// A sequence of nonnegative values has a nonnegative sum.
pub proof fn lemma_sum_nonneg(s: Seq<int>)
    requires
        forall|j: int| 0 <= j < s.len() ==> #[trigger] s[j] >= 0,
    ensures
        sum_seq(s) >= 0,
    decreases s.len(),
{
    if s.len() > 0 {
        assert forall|j: int| 0 <= j < s.len() - 1 implies #[trigger] s.drop_last()[j] >= 0 by {
            assert(s.drop_last()[j] == s[j]);
        }
        lemma_sum_nonneg(s.drop_last());
    }
}

/// The normalized base weights: each weight rescaled by `SCALE / s`,
/// rounded down.
pub open spec fn norm_base(d: Seq<int>, s: int) -> Seq<int> {
    Seq::new(d.len(), |i: int| d[i] * (SCALE as int) / s)
}

/// What normalization fails to distribute by rounding down.
pub open spec fn norm_deficit(d: Seq<int>, s: int) -> int {
    SCALE - sum_seq(norm_base(d, s))
}

/// The normalized weights: the rescaled weights, with one extra unit on
/// each of the first `deficit` slots so that the total is exactly
/// `SCALE`.
pub open spec fn norm_d(d: Seq<int>) -> Seq<int> {
    let s = sum_seq(d);
    Seq::new(d.len(), |i: int|
        norm_base(d, s)[i] + if i < norm_deficit(d, s) {
            1int
        } else {
            0int
        })
}

/// The sum of the rescaled weights brackets `SCALE` to within one unit
/// per weight.
pub proof fn lemma_norm_base_sum(d: Seq<int>, s: int)
    requires
        s >= 1,
        forall|j: int| 0 <= j < d.len() ==> #[trigger] d[j] >= 0,
    ensures
        s * sum_seq(norm_base(d, s)) <= sum_seq(d) * (SCALE as int),
        sum_seq(d) * (SCALE as int) <= s * sum_seq(norm_base(d, s)) + (s - 1) * d.len(),
        forall|j: int| 0 <= j < norm_base(d, s).len() ==> #[trigger] norm_base(d, s)[j] >= 0,
    decreases d.len(),
{
    let b = norm_base(d, s);
    if d.len() == 0 {
        assert(b =~= Seq::<int>::empty());
        assert(s * 0 == 0) by (nonlinear_arith);
        assert(0 * (SCALE as int) == 0) by (nonlinear_arith);
        assert((s - 1) * 0 == 0) by (nonlinear_arith);
    } else {
        let dd = d.drop_last();
        assert forall|j: int| 0 <= j < dd.len() implies #[trigger] dd[j] >= 0 by {
            assert(dd[j] == d[j]);
        }
        lemma_norm_base_sum(dd, s);
        let x = d.last();
        assert(x >= 0);
        vstd::arithmetic::div_mod::lemma_fundamental_div_mod(x * (SCALE as int), s);
        vstd::arithmetic::div_mod::lemma_mod_bound(x * (SCALE as int), s);
        vstd::arithmetic::div_mod::lemma_div_pos_is_pos(x * (SCALE as int), s);
        assert(x * (SCALE as int) >= 0) by (nonlinear_arith)
            requires x >= 0;
        assert(b.drop_last() =~= norm_base(dd, s));
        assert(b.last() == x * (SCALE as int) / s);
        assert(sum_seq(b) == sum_seq(norm_base(dd, s)) + x * (SCALE as int) / s);
        assert(sum_seq(d) == sum_seq(dd) + x);
        // Combine the induction hypothesis with the per-element bracket.
        assert(s * sum_seq(b) == s * sum_seq(norm_base(dd, s)) + s * (x * (SCALE as int) / s))
            by (nonlinear_arith)
            requires sum_seq(b) == sum_seq(norm_base(dd, s)) + x * (SCALE as int) / s;
        assert(sum_seq(d) * (SCALE as int) == sum_seq(dd) * (SCALE as int) + x * (SCALE as int))
            by (nonlinear_arith)
            requires sum_seq(d) == sum_seq(dd) + x;
        assert(s * (x * (SCALE as int) / s) <= x * (SCALE as int)) by {
            assert(x * (SCALE as int) == s * (x * (SCALE as int) / s) + (x * (SCALE as int)) % s);
        }
        assert(x * (SCALE as int) <= s * (x * (SCALE as int) / s) + (s - 1)) by {
            assert(x * (SCALE as int) == s * (x * (SCALE as int) / s) + (x * (SCALE as int)) % s);
        }
        assert((s - 1) * d.len() == (s - 1) * dd.len() + (s - 1)) by (nonlinear_arith)
            requires d.len() == dd.len() + 1;
        assert forall|j: int| 0 <= j < b.len() implies #[trigger] b[j] >= 0 by {
            assert(d[j] * (SCALE as int) >= 0) by (nonlinear_arith)
                requires d[j] >= 0;
            vstd::arithmetic::div_mod::lemma_div_pos_is_pos(d[j] * (SCALE as int), s);
        }
    }
}

/// A sum of at least one needs an element of at least one.
pub proof fn lemma_sum_pos(s: Seq<int>)
    requires
        sum_seq(s) >= 1,
    ensures
        exists|i: int| 0 <= i < s.len() && #[trigger] s[i] >= 1,
    decreases s.len(),
{
    if s.len() > 0 {
        if s.last() >= 1 {
            assert(s[s.len() - 1] >= 1);
        } else {
            lemma_sum_pos(s.drop_last());
            let i = choose|i: int| 0 <= i < s.drop_last().len() && #[trigger] s.drop_last()[i]
                >= 1;
            assert(s[i] >= 1);
        }
    }
}

/// A count is positive exactly when the index occurs.
pub proof fn lemma_count_pos(s: Seq<int>, h: int)
    ensures
        count_occ(s, h) > 0 <==> s.contains(h),
    decreases s.len(),
{
    lemma_count_occ_bounds(s, h);
    if s.len() > 0 {
        lemma_count_pos(s.drop_first(), h);
        lemma_count_occ_bounds(s.drop_first(), h);
        if s[0] == h {
            assert(s.contains(h));
        } else {
            if s.drop_first().contains(h) {
                let j = choose|j: int|
                    0 <= j < s.drop_first().len() && s.drop_first()[j] == h;
                assert(s[j + 1] == h);
                assert(s.contains(h));
            }
            if s.contains(h) {
                let j = choose|j: int| 0 <= j < s.len() && s[j] == h;
                assert(j > 0);
                assert(s.drop_first()[j - 1] == h);
                assert(s.drop_first().contains(h));
            }
        }
    }
}

/// Appending one index adds that weight to the indexed sum.
pub proof fn lemma_sum_idx_push(m: Seq<int>, idxs: Seq<int>, x: int)
    ensures
        sum_idx(m, idxs.push(x)) == sum_idx(m, idxs) + m[x],
    decreases idxs.len(),
{
    if idxs.len() == 0 {
        assert(idxs.push(x)[0] == x);
        assert(idxs.push(x).drop_first() =~= Seq::<int>::empty());
        assert(sum_idx(m, Seq::<int>::empty()) == 0);
    } else {
        assert(idxs.push(x)[0] == idxs[0]);
        assert(idxs.push(x).drop_first() =~= idxs.drop_first().push(x));
        lemma_sum_idx_push(m, idxs.drop_first(), x);
    }
}

/// The integer views of a vector of double words.
pub open spec fn seq_i128(s: Seq<i128>) -> Seq<int> {
    s.map_values(|x: i128| x as int)
}

/// Sum a vector of bounded double words.
fn sum_vec_i128(u: &Vec<i128>) -> (s: i128)
    requires
        forall|j: int| 0 <= j < u@.len() ==> 0 <= #[trigger] u@[j]
            <= 10_000_000_000_000_000_000_000,
        u@.len() <= 10_000_000_000,
    ensures
        s == sum_seq(seq_i128(u@)),
        0 <= s <= 100_000_000_000_000_000_000_000_000_000_000,
{
    let n = u.len();
    let mut s: i128 = 0;
    let mut i: usize = 0;
    while i < n
        invariant
            0 <= i <= n,
            n == u@.len(),
            n <= 10_000_000_000,
            forall|j: int| 0 <= j < u@.len() ==> 0 <= #[trigger] u@[j]
                <= 10_000_000_000_000_000_000_000,
            s == sum_seq(seq_i128(u@.subrange(0, i as int))),
            0 <= s <= (i as int) * 10_000_000_000_000_000_000_000,
        decreases n - i,
    {
        proof {
            assert(seq_i128(u@.subrange(0, i + 1)).drop_last() =~= seq_i128(
                u@.subrange(0, i as int),
            ));
            assert(seq_i128(u@.subrange(0, i + 1)).last() == u@[i as int] as int);
            assert((i as int + 1) * 10_000_000_000_000_000_000_000 == (i as int)
                * 10_000_000_000_000_000_000_000 + 10_000_000_000_000_000_000_000)
                by (nonlinear_arith);
        }
        s = s + u[i];
        i = i + 1;
    }
    proof {
        assert(u@.subrange(0, n as int) =~= u@);
        assert((n as int) * 10_000_000_000_000_000_000_000
            <= 100_000_000_000_000_000_000_000_000_000_000) by (nonlinear_arith)
            requires n as int <= 10_000_000_000;
    }
    s
}

/// Rescale a vector of nonnegative unnormalized weights so that the
/// result sums to exactly `SCALE`, rounding down and handing the loss
/// back one unit at a time from the front.
fn normalize_vec128(u: &Vec<i128>) -> (nd: Vec<i64>)
    requires
        forall|j: int| 0 <= j < u@.len() ==> 0 <= #[trigger] u@[j]
            <= 10_000_000_000_000_000_000_000,
        u@.len() <= 10_000_000_000,
        sum_seq(seq_i128(u@)) >= 1,
    ensures
        seq_i64(nd@) == norm_d(seq_i128(u@)),
        nd@.len() == u@.len(),
        sum_seq(seq_i64(nd@)) == SCALE,
        forall|j: int| 0 <= j < nd@.len() ==> 0 <= #[trigger] nd@[j] <= SCALE,
{
    let ghost d0 = seq_i128(u@);
    proof {
        assert forall|j: int| 0 <= j < d0.len() implies #[trigger] d0[j] >= 0 by {
            assert(d0[j] == u@[j] as int);
        }
    }
    let s: i128 = sum_vec_i128(u);
    proof {
        lemma_norm_base_sum(d0, s as int);
    }
    let n = u.len();
    let mut base: Vec<i64> = Vec::new();
    let mut sumbase: i128 = 0;
    let mut i: usize = 0;
    while i < n
        invariant
            0 <= i <= n,
            n == u@.len(),
            d0 == seq_i128(u@),
            s == sum_seq(d0),
            s >= 1,
            forall|j: int| 0 <= j < d0.len() ==> 0 <= #[trigger] d0[j]
                <= 10_000_000_000_000_000_000_000,
            base@.len() == i,
            seq_i64(base@) =~= norm_base(d0, s as int).take(i as int),
            sumbase == sum_seq(norm_base(d0, s as int).take(i as int)),
            forall|j: int| 0 <= j < base@.len() ==> 0 <= #[trigger] base@[j] <= SCALE,
            0 <= sumbase <= (i as int) * (SCALE as int),
        decreases n - i,
    {
        let di = u[i];
        proof {
            lemma_sum_ge_elem(d0, i as int);
            assert(di as int == d0[i as int]);
            assert(di as int * (SCALE as int) <= s as int * (SCALE as int)) by (nonlinear_arith)
                requires di as int <= s as int && SCALE > 0;
            vstd::arithmetic::div_mod::lemma_div_is_ordered(di as int * (SCALE as int),
                s as int * (SCALE as int), s as int);
            vstd::arithmetic::div_mod::lemma_div_multiples_vanish(SCALE as int, s as int);
            assert(di as int * (SCALE as int) >= 0) by (nonlinear_arith)
                requires di as int >= 0;
            vstd::arithmetic::div_mod::lemma_div_pos_is_pos(di as int * (SCALE as int), s as int);
            assert(di * (SCALE as i128) <= 170_000_000_000_000_000_000_000_000_000_000_000)
                by (nonlinear_arith)
                requires 0 <= di <= 10_000_000_000_000_000_000_000 && SCALE
                    == 1_000_000_000_000;
        }
        let bi: i64 = ((di * SCALE as i128) / s) as i64;
        let ghost pre = seq_i64(base@);
        base.push(bi);
        sumbase = sumbase + bi as i128;
        proof {
            assert(seq_i64(base@) =~= pre.push(bi as int));
            assert(norm_base(d0, s as int).take(i + 1) =~= norm_base(d0, s as int).take(
                i as int).push(bi as int));
            assert(norm_base(d0, s as int).take(i + 1).drop_last() =~= norm_base(d0,
                s as int).take(i as int));
            assert((i as int + 1) * (SCALE as int) == (i as int) * (SCALE as int) + SCALE)
                by (nonlinear_arith);
        }
        i = i + 1;
    }
    proof {
        assert(norm_base(d0, s as int).take(n as int) =~= norm_base(d0, s as int));
        assert(sumbase <= SCALE) by {
            assert((s as int) * sum_seq(norm_base(d0, s as int)) <= (s as int) * (SCALE as int))
                by (nonlinear_arith)
                requires (s as int) * sum_seq(norm_base(d0, s as int)) <= sum_seq(d0) * (
                    SCALE as int) && sum_seq(d0) == s as int;
            assert(sum_seq(norm_base(d0, s as int)) <= SCALE) by (nonlinear_arith)
                requires (s as int) * sum_seq(norm_base(d0, s as int)) <= (s as int) * (
                    SCALE as int) && s as int >= 1;
        }
        assert((SCALE as int) - sumbase <= n as int) by {
            assert(sum_seq(d0) * (SCALE as int) == (s as int) * (SCALE as int));
            assert((s as int) * (SCALE as int) <= (s as int) * sum_seq(norm_base(d0, s as int))
                + (s as int) * (n as int)) by (nonlinear_arith)
                requires (s as int) * (SCALE as int) <= (s as int) * sum_seq(norm_base(d0,
                    s as int)) + ((s as int) - 1) * (n as int) && n as int >= 0 && s as int >= 1;
            assert((SCALE as int) <= sum_seq(norm_base(d0, s as int)) + (n as int))
                by (nonlinear_arith)
                requires (s as int) * (SCALE as int) <= (s as int) * sum_seq(norm_base(d0,
                    s as int)) + (s as int) * (n as int) && s as int >= 1;
        }
    }
    let deficit: usize = (SCALE as i128 - sumbase) as usize;
    let mut nd: Vec<i64> = Vec::new();
    let mut sumnd: i128 = 0;
    let mut i2: usize = 0;
    while i2 < n
        invariant
            0 <= i2 <= n,
            n == base@.len(),
            deficit as int == norm_deficit(d0, s as int),
            0 <= deficit <= n,
            s == sum_seq(d0),
            s >= 1,
            seq_i64(base@) =~= norm_base(d0, s as int),
            forall|j: int| 0 <= j < base@.len() ==> 0 <= #[trigger] base@[j] <= SCALE,
            nd@.len() == i2,
            forall|j: int| 0 <= j < nd@.len() ==> 0 <= #[trigger] nd@[j] <= SCALE,
            seq_i64(nd@) =~= norm_d(d0).take(i2 as int),
            sumnd == sum_seq(norm_d(d0).take(i2 as int)),
            sumnd == sum_seq(norm_base(d0, s as int).take(i2 as int)) + (if i2 < deficit {
                i2 as int
            } else {
                deficit as int
            }),
            0 <= sumnd <= (i2 as int) * ((SCALE as int) + 1),
        decreases n - i2,
    {
        let b = base[i2];
        let add: i64 = if i2 < deficit {
            1
        } else {
            0
        };
        proof {
            if i2 < deficit {
                if b == SCALE {
                    assert forall|j: int|
                        0 <= j < seq_i64(base@).len() implies #[trigger] seq_i64(base@)[j]
                            >= 0 by {
                        assert(seq_i64(base@)[j] == base@[j] as int);
                    }
                    lemma_sum_ge_elem(seq_i64(base@), i2 as int);
                    assert(false);
                }
            }
        }
        let v = b + add;
        let ghost pre = seq_i64(nd@);
        nd.push(v);
        proof {
            assert((i2 as int) * ((SCALE as int) + 1)
                <= 20_000_000_000_000_000_000_000_000_000_000) by (nonlinear_arith)
                requires i2 as int <= 0xffff_ffff_ffff_ffff && SCALE == 1_000_000_000_000;
        }
        sumnd = sumnd + v as i128;
        proof {
            assert(seq_i64(nd@) =~= pre.push(v as int));
            assert(norm_d(d0).take(i2 + 1) =~= norm_d(d0).take(i2 as int).push(v as int));
            assert(norm_d(d0).take(i2 + 1).drop_last() =~= norm_d(d0).take(i2 as int));
            assert(norm_base(d0, s as int).take(i2 + 1).drop_last() =~= norm_base(d0,
                s as int).take(i2 as int));
            assert(norm_base(d0, s as int).take(i2 + 1).last() == base@[i2 as int] as int);
            assert((i2 as int + 1) * ((SCALE as int) + 1) == (i2 as int) * ((SCALE as int) + 1)
                + (SCALE as int) + 1) by (nonlinear_arith);
        }
        i2 = i2 + 1;
    }
    proof {
        assert(norm_d(d0).take(n as int) =~= norm_d(d0));
        assert(norm_base(d0, s as int).take(n as int) =~= norm_base(d0, s as int));
        assert(sum_seq(norm_d(d0)) == SCALE);
    }
    nd
}

/// Evaluation only reads the labels, instances and given weights, so two
/// classifier values sharing them agree on every rate and margin.
pub proof fn lemma_eval_agrees(a: &AdaBoost, b: &AdaBoost, d: Seq<int>, h: int, n: int)
    requires
        a.labels == b.labels,
        a.instances == b.instances,
        a.instances_buf == b.instances_buf,
    ensures
        a.err_upto_d(d, h, n) == b.err_upto_d(d, h, n),
        a.pos_upto_d(d, n) == b.pos_upto_d(d, n),
    decreases n,
{
    if n > 0 {
        lemma_eval_agrees(a, b, d, h, n - 1);
        assert(a.inst(n - 1) == b.inst(n - 1));
        assert(a.label_seq() =~= b.label_seq());
    }
}

/// The error mass over `n` instances of bounded weight is itself
/// bounded, each instance contributing at most its weight times the
/// largest label times its index count.
pub proof fn lemma_err_bound(a: &AdaBoost, d: Seq<int>, h: int, n: int, blen: int)
    requires
        forall|j: int| 0 <= j < d.len() ==> 0 <= #[trigger] d[j] <= SCALE,
        0 <= n <= d.len(),
        a.wf(),
        n <= a.num_instances,
        d.len() == a.num_instances,
        blen == a.instances_buf@.len(),
    ensures
        -(n * (SCALE as int) * 128 * (blen + 1)) <= a.err_upto_d(d, h, n) <= n * (SCALE as int)
            * 128 * (blen + 1),
        0 <= a.pos_upto_d(d, n) <= n * (SCALE as int),
    decreases n,
{
    if n > 0 {
        lemma_err_bound(a, d, h, n - 1, blen);
        lemma_count_occ_bounds(a.inst(n - 1), h);
        assert(a.inst(n - 1).len() <= blen);
        assert(-128 <= a.label_seq()[n - 1] <= 127);
        let t = d[n - 1] * a.label_seq()[n - 1] * count_occ(a.inst(n - 1), h);
        assert(-((SCALE as int) * 128) <= d[n - 1] * a.label_seq()[n - 1] <= (SCALE as int)
            * 128) by (nonlinear_arith)
            requires 0 <= d[n - 1] <= SCALE && -128 <= a.label_seq()[n - 1] <= 127;
        assert(-((SCALE as int) * 128 * (blen + 1)) <= t <= (SCALE as int) * 128 * (blen + 1))
            by (nonlinear_arith)
            requires -((SCALE as int) * 128) <= d[n - 1] * a.label_seq()[n - 1] <= (
                SCALE as int) * 128 && 0 <= count_occ(a.inst(n - 1), h) <= blen + 1 && blen >= 0
                && t == d[n - 1] * a.label_seq()[n - 1] * count_occ(a.inst(n - 1), h);
        assert(n * (SCALE as int) * 128 * (blen + 1) == (n - 1) * (SCALE as int) * 128 * (blen
            + 1) + (SCALE as int) * 128 * (blen + 1)) by (nonlinear_arith);
        assert(n * (SCALE as int) == (n - 1) * (SCALE as int) + SCALE) by (nonlinear_arith);
    } else {
        assert(n * (SCALE as int) * 128 * (blen + 1) >= 0) by (nonlinear_arith)
            requires n == 0;
        assert(n * (SCALE as int) >= 0) by (nonlinear_arith)
            requires n == 0;
    }
}

impl AdaBoost {
    /// One boosting iteration.  The instance weights are first
    /// renormalized to sum to `SCALE` (a no-op on weights already
    /// normalized).  The stump with the largest margin is then found;
    /// when that margin is below the threshold the model is left as it
    /// is and `None` says the training has converged.  Otherwise the
    /// chosen feature's weight moves by `half ln((1 - e) / e)` with the
    /// clamped error rate `e`, the misclassified instances are reweighted
    /// by `(1 - e) / e`, the weights are renormalized, and the chosen
    /// index is returned.
    ///
    /// The two size bounds are what keeps every intermediate product
    /// inside 128-bit arithmetic.
    pub fn train_step(&mut self) -> (r: Option<usize>)
        requires
            old(self).wf(),
            1 <= old(self).num_instances <= 10_000_000_000,
            old(self).instances_buf@.len() <= 1_000_000_000_000,
            old(self).model@.len() >= 1,
            sum_seq(old(self).dweights()) >= 1,
        ensures
            final(self).wf(),
            sum_seq(final(self).dweights()) == SCALE,
            final(self).features == old(self).features,
            final(self).labels == old(self).labels,
            final(self).instances_buf == old(self).instances_buf,
            final(self).instances == old(self).instances,
            final(self).num_instances == old(self).num_instances,
            final(self).threshold == old(self).threshold,
            final(self).num_iterations == old(self).num_iterations,
            final(self).num_threads == old(self).num_threads,
            ({
                let dn = norm_d(old(self).dweights());
                match r {
                    Option::None => final(self).model == old(self).model && final(self).dweights()
                        == dn && exists|hb: int|
                        old(self).is_first_best(dn, hb) && #[trigger] old(self).margin2_d(dn, hb)
                            < 2 * old(self).threshold,
                    Option::Some(hb) => {
                        &&& old(self).is_first_best(dn, hb as int)
                        &&& old(self).margin2_d(dn, hb as int) >= 2 * old(self).threshold
                        &&& final(self).weights() == old(self).weights().update(hb as int,
                            clamp_w(old(self).weights()[hb as int]
                                + crate::numeric::spec_half_ln_ratio((SCALE as int) - clamp_e(
                                    old(self).e_rate_d(dn, hb as int)), clamp_e(
                                    old(self).e_rate_d(dn, hb as int)))))
                        &&& final(self).dweights() == norm_d(old(self).reweight_u(dn, hb as int,
                            clamp_e(old(self).e_rate_d(dn, hb as int))))
                    },
                }
            }),
    {
        let ghost a0 = *old(self);
        self.normalize_weights();
        let ghost dn = self.dweights();
        let n = self.num_instances;
        let nv = self.model.len();
        let ghost blen = self.instances_buf@.len() as int;
        // Accumulate the positive weight mass and the per-feature error
        // masses.
        let mut pos: i128 = 0;
        let mut errors: Vec<i128> = Vec::new();
        let mut h0: usize = 0;
        while h0 < nv
            invariant
                0 <= h0 <= nv,
                errors@.len() == h0,
                forall|g: int| 0 <= g < h0 ==> #[trigger] errors@[g] == 0,
            decreases nv - h0,
        {
            errors.push(0);
            h0 = h0 + 1;
        }
        let ghost bb = (SCALE as int) * 128 * (blen + 1);
        let mut i: usize = 0;
        proof {
            assert(bb >= 0) by (nonlinear_arith)
                requires blen >= 0 && SCALE == 1_000_000_000_000 && bb == (SCALE as int) * 128
                    * (blen + 1);
            assert forall|g: int| 0 <= g < nv implies #[trigger] errors@[g] == self.err_upto_d(
                dn, g, 0) by {}
        }
        while i < n
            invariant
                0 <= i <= n,
                n == self.num_instances,
                nv == self.model@.len(),
                blen == self.instances_buf@.len() as int,
                bb == (SCALE as int) * 128 * (blen + 1),
                n <= 10_000_000_000,
                blen <= 1_000_000_000_000,
                self.wf(),
                dn == self.dweights(),
                dn.len() == n,
                forall|j: int| 0 <= j < dn.len() ==> 0 <= #[trigger] dn[j] <= SCALE,
                errors@.len() == nv,
                pos == self.pos_upto_d(dn, i as int),
                0 <= pos <= (i as int) * (SCALE as int),
                forall|g: int| 0 <= g < nv ==> #[trigger] errors@[g] == self.err_upto_d(dn, g,
                    i as int),
                forall|g: int| 0 <= g < nv ==> -((i as int) * bb) <= #[trigger] errors@[g] <= (
                i as int) * bb,
            decreases n - i,
        {
            let se = self.instances[i];
            let start = se.0;
            let end = se.1;
            let di = self.instance_weights[i];
            let y = self.labels[i];
            proof {
                assert(di as int == dn[i as int]);
                assert(-((SCALE as int) * 128) <= (di as int) * (y as int) <= (SCALE as int)
                    * 128) by (nonlinear_arith)
                    requires 0 <= di as int <= SCALE && -128 <= y as int <= 127;
            }
            let dy: i128 = di as i128 * y as i128;
            proof {
                assert(self.inst(i as int).len() == end - start);
                assert(bb <= 128_000_000_000_128_000_000_000_000) by (nonlinear_arith)
                    requires blen <= 1_000_000_000_000 && SCALE == 1_000_000_000_000 && bb == (
                        SCALE as int) * 128 * (blen + 1);
                assert((i as int) * bb + bb == (i as int + 1) * bb) by (nonlinear_arith);
                assert((i as int + 1) * bb <= 10_000_000_001 * bb) by (nonlinear_arith)
                    requires 0 <= i as int + 1 <= 10_000_000_001 && bb >= 0;
                assert(10_000_000_001 * bb
                    <= 2_000_000_000_000_000_000_000_000_000_000_000_000) by (nonlinear_arith)
                    requires 0 <= bb <= 128_000_000_000_128_000_000_000_000;
                assert((i as int) * (SCALE as int) + SCALE == (i as int + 1) * (SCALE as int))
                    by (nonlinear_arith);
                assert((i as int + 1) * (SCALE as int) <= 10_000_000_001 * 1_000_000_000_000)
                    by (nonlinear_arith)
                    requires 0 <= i as int + 1 <= 10_000_000_001 && SCALE == 1_000_000_000_000;
            }
            let mut j: usize = start;
            let ghost instseq = self.inst(i as int);
            while j < end
                invariant
                    start <= j <= end,
                    end <= self.instances_buf@.len(),
                    nv == self.model@.len(),
                    self.wf(),
                    instseq == self.inst(i as int),
                    0 <= i < n,
                    n == self.num_instances,
                    self.instances@[i as int] == (start, end),
                    instseq.len() == end - start,
                    errors@.len() == nv,
                    dy == (di as int) * (y as int),
                    -((SCALE as int) * 128) <= dy <= (SCALE as int) * 128,
                    dn == self.dweights(),
                    di as int == dn[i as int],
                    y as int == self.label_seq()[i as int],
                    bb == (SCALE as int) * 128 * (blen + 1),
                    blen == self.instances_buf@.len() as int,
                    blen <= 1_000_000_000_000,
                    n <= 10_000_000_000,
                    0 <= bb <= 128_000_000_000_128_000_000_000_000,
                    forall|g: int| 0 <= g < nv ==> #[trigger] errors@[g] == self.err_upto_d(dn,
                        g, i as int) - dy * count_occ(instseq.take(j - start), g),
                    forall|g: int| 0 <= g < nv ==> -((i as int) * bb) - (j - start) * (
                    (SCALE as int) * 128) <= #[trigger] errors@[g] <= (i as int) * bb + (j
                        - start) * ((SCALE as int) * 128),
                decreases end - j,
            {
                let h = self.instances_buf[j];
                proof {
                    assert((h as int) < nv);
                    assert(instseq.take(j - start + 1) =~= instseq.take(j - start).push(
                        h as int));
                    assert(instseq[j - start] == self.instances_buf@[j as int] as int);
                    assert forall|g: int| 0 <= g < nv implies #[trigger] count_occ(
                        instseq.take(j - start + 1), g) == count_occ(instseq.take(j - start), g)
                        + (if g == h as int {
                        1int
                    } else {
                        0int
                    }) by {
                        lemma_count_occ_push(instseq.take(j - start), h as int, g);
                    }
                    assert((j - start + 1) * ((SCALE as int) * 128) == (j - start) * (
                    (SCALE as int) * 128) + (SCALE as int) * 128) by (nonlinear_arith);
                    assert((i as int) * bb + (j - start + 1) * ((SCALE as int) * 128)
                        <= 2_000_000_000_000_000_000_000_000_000_000_000_000)
                        by (nonlinear_arith)
                        requires 0 <= i as int <= 10_000_000_000 && 0 <= bb
                            <= 128_000_000_000_128_000_000_000_000 && 0 <= j - start + 1
                            <= 1_000_000_000_001 && SCALE == 1_000_000_000_000;
                }
                let ev = errors[h];
                let ghost epre = errors@;
                errors.remove(h);
                errors.insert(h, ev - dy);
                proof {
                    assert(errors@ =~= epre.update(h as int, ((ev - dy) as i128)));
                    assert forall|g: int| 0 <= g < nv implies #[trigger] errors@[g]
                        == self.err_upto_d(dn, g, i as int) - dy * count_occ(instseq.take(j
                            - start + 1), g) by {
                        if g == h as int {
                            assert(dy * (count_occ(instseq.take(j - start), g) + 1) == dy
                                * count_occ(instseq.take(j - start), g) + dy)
                                by (nonlinear_arith);
                        }
                    }
                }
                j = j + 1;
            }
            proof {
                assert(instseq.take(end - start) =~= instseq);
                assert forall|g: int| 0 <= g < nv implies #[trigger] errors@[g]
                    == self.err_upto_d(dn, g, i as int + 1) by {
                    assert(self.err_upto_d(dn, g, i as int + 1) == self.err_upto_d(dn, g,
                        i as int) - dn[i as int] * self.label_seq()[i as int] * count_occ(
                        self.inst(i as int), g));
                    assert(dn[i as int] * self.label_seq()[i as int] == dy);
                }
                assert forall|g: int| 0 <= g < nv implies -((i as int + 1) * bb)
                    <= #[trigger] errors@[g] <= (i as int + 1) * bb by {
                    assert((end - start) * ((SCALE as int) * 128) <= bb) by (nonlinear_arith)
                        requires 0 <= end - start <= blen && bb == (SCALE as int) * 128 * (blen
                            + 1) && SCALE == 1_000_000_000_000 && blen >= 0;
                }
            }
            if y > 0 {
                pos = pos + di as i128;
            }
            i = i + 1;
        }
        // Select the first stump with the largest margin.
        proof {
            assert((n as int) * (SCALE as int) <= 10_000_000_000_000_000_000_000)
                by (nonlinear_arith)
                requires 0 <= n as int <= 10_000_000_000 && SCALE == 1_000_000_000_000;
            assert((n as int) * bb <= 2_000_000_000_000_000_000_000_000_000_000_000_000)
                by (nonlinear_arith)
                requires 0 <= n as int <= 10_000_000_000 && 0 <= bb
                    <= 128_000_000_000_128_000_000_000_000;
        }
        let mut hb: usize = 0;
        let e0 = errors[0] + pos;
        let mut beste: i128 = e0;
        let mut bestm2: i128 = if SCALE as i128 - 2 * e0 >= 0 {
            SCALE as i128 - 2 * e0
        } else {
            -(SCALE as i128 - 2 * e0)
        };
        let mut h: usize = 1;
        while h < nv
            invariant
                1 <= h <= nv,
                0 <= hb < h,
                nv == self.model@.len(),
                errors@.len() == nv,
                n == self.num_instances,
                dn == self.dweights(),
                self.wf(),
                pos == self.pos_upto_d(dn, n as int),
                forall|g: int| 0 <= g < nv ==> #[trigger] errors@[g] == self.err_upto_d(dn, g,
                    n as int),
                -2_000_000_000_000_000_000_000_000_000_000_000_000 <= errors@[hb as int]
                    <= 2_000_000_000_000_000_000_000_000_000_000_000_000,
                beste == self.e_rate_d(dn, hb as int),
                bestm2 == self.margin2_d(dn, hb as int),
                bestm2 >= 0,
                forall|g: int| 0 <= g < h ==> self.margin2_d(dn, g) <= bestm2,
                forall|g: int| 0 <= g < hb ==> self.margin2_d(dn, g) < bestm2,
                0 <= pos <= (n as int) * (SCALE as int),
                (n as int) * (SCALE as int) <= 10_000_000_000_000_000_000_000,
                forall|g: int| 0 <= g < nv ==> -((n as int) * bb) <= #[trigger] errors@[g] <= (
                n as int) * bb,
                (n as int) * bb <= 2_000_000_000_000_000_000_000_000_000_000_000_000,
            decreases nv - h,
        {
            let e = errors[h] + pos;
            let m2: i128 = if SCALE as i128 - 2 * e >= 0 {
                SCALE as i128 - 2 * e
            } else {
                -(SCALE as i128 - 2 * e)
            };
            if m2 > bestm2 {
                hb = h;
                beste = e;
                bestm2 = m2;
            }
            h = h + 1;
        }
        // Margin below the threshold: converged, nothing further moves.
        let thr2: i128 = 2 * (self.threshold as i128);
        proof {
            lemma_eval_agrees(&a0, self, dn, hb as int, n as int);
            assert forall|g: int| 0 <= g < nv implies a0.margin2_d(dn, g) == self.margin2_d(dn,
                g) by {
                lemma_eval_agrees(&a0, self, dn, g, n as int);
            }
            assert(a0.is_first_best(dn, hb as int));
        }
        if bestm2 < thr2 {
            proof {
                assert(a0.margin2_d(dn, hb as int) < 2 * a0.threshold);
            }
            return None;
        }
        // Move the chosen weight by the clamped half log odds.
        let ec128: i128 = if beste < 100 {
            100
        } else if beste > SCALE as i128 - 100 {
            SCALE as i128 - 100
        } else {
            beste
        };
        let ec: i64 = ec128 as i64;
        proof {
            assert(ec as int == clamp_e(a0.e_rate_d(dn, hb as int)));
        }
        let alpha = crate::numeric::half_ln_ratio(SCALE - ec, ec);
        let wold = self.model[hb];
        let wsum: i128 = wold as i128 + alpha as i128;
        let wnew: i64 = if wsum < -W_MAX as i128 {
            -W_MAX
        } else if wsum > W_MAX as i128 {
            W_MAX
        } else {
            wsum as i64
        };
        let ghost wpre = self.weights();
        self.model.remove(hb);
        self.model.insert(hb, wnew);
        proof {
            assert(self.weights() =~= wpre.update(hb as int, clamp_w(wpre[hb as int]
                + crate::numeric::spec_half_ln_ratio((SCALE as int) - ec as int, ec as int))));
        }
        // Reweight the misclassified instances and renormalize.
        let mut u: Vec<i128> = Vec::new();
        let mut i2: usize = 0;
        while i2 < n
            invariant
                0 <= i2 <= n,
                n == self.num_instances,
                self.wf(),
                dn == self.dweights(),
                dn.len() == n,
                forall|j: int| 0 <= j < dn.len() ==> 0 <= #[trigger] dn[j] <= SCALE,
                100 <= ec <= SCALE - 100,
                u@.len() == i2,
                forall|j: int| 0 <= j < u@.len() ==> #[trigger] u@[j] as int == a0.reweight_u(dn,
                    hb as int, ec as int)[j],
                forall|j: int| 0 <= j < u@.len() ==> 0 <= #[trigger] u@[j]
                    <= 10_000_000_000_000_000_000_000,
                a0.labels == self.labels,
                a0.instances == self.instances,
                a0.instances_buf == self.instances_buf,
                hb < nv,
            decreases n - i2,
        {
            let se = self.instances[i2];
            let start = se.0;
            let end = se.1;
            // Does the stump fire on this instance?
            let mut found = false;
            let mut j: usize = start;
            while j < end
                invariant
                    start <= j <= end,
                    end <= self.instances_buf@.len(),
                    self.wf(),
                    0 <= i2 < n,
                    n == self.num_instances,
                    self.instances@[i2 as int] == (start, end),
                    found <==> exists|t: int|
                        start <= t < j && #[trigger] self.instances_buf@[t] == hb,
                decreases end - j,
            {
                if self.instances_buf[j] == hb {
                    found = true;
                }
                j = j + 1;
            }
            proof {
                lemma_count_pos(self.inst(i2 as int), hb as int);
                assert(found <==> self.inst(i2 as int).contains(hb as int)) by {
                    if found {
                        let t = choose|t: int|
                            start <= t < end && #[trigger] self.instances_buf@[t] == hb;
                        assert(self.inst(i2 as int)[t - start] == hb as int);
                    }
                    if self.inst(i2 as int).contains(hb as int) {
                        let t = choose|t: int|
                            0 <= t < self.inst(i2 as int).len() && self.inst(i2 as int)[t]
                                == hb as int;
                        assert(self.instances_buf@[t + start] == hb);
                    }
                }
            }
            let y = self.labels[i2];
            let di = self.instance_weights[i2];
            proof {
                assert(di as int == dn[i2 as int]);
            }
            let disagree = if found {
                y < 0
            } else {
                y > 0
            };
            let ui: i128 = if disagree {
                proof {
                    assert(0 <= (di as int) * ((SCALE as int) - ec as int)
                        <= 1_000_000_000_000_000_000_000_000) by (nonlinear_arith)
                        requires 0 <= di as int <= SCALE && 0 <= (SCALE as int) - ec as int
                            <= SCALE && SCALE == 1_000_000_000_000;
                }
                let raw = (di as i128) * ((SCALE - ec) as i128) / (ec as i128);
                proof {
                    vstd::arithmetic::div_mod::lemma_div_pos_is_pos((di as int) * ((
                    SCALE as int) - ec as int), ec as int);
                    vstd::arithmetic::div_mod::lemma_div_is_ordered((di as int) * ((
                    SCALE as int) - ec as int), 1_000_000_000_000_000_000_000_000, ec as int);
                    assert(1_000_000_000_000_000_000_000_000int / (ec as int)
                        <= 10_000_000_000_000_000_000_000) by {
                        vstd::arithmetic::div_mod::lemma_div_is_ordered_by_denominator(
                            1_000_000_000_000_000_000_000_000, 100, ec as int);
                    }
                }
                if raw < 1 {
                    1
                } else {
                    raw
                }
            } else {
                di as i128
            };
            u.push(ui);
            proof {
                assert(self.disagrees(i2 as int, hb as int) == disagree) by {
                    lemma_count_pos(self.inst(i2 as int), hb as int);
                }
                assert(a0.inst(i2 as int) == self.inst(i2 as int));
                assert(a0.label_seq() =~= self.label_seq());
                assert(a0.disagrees(i2 as int, hb as int) == disagree);
                assert(ui as int == a0.reweight_u(dn, hb as int, ec as int)[i2 as int]);
            }
            i2 = i2 + 1;
        }
        proof {
            // The reweighted mass is at least one unit.
            lemma_sum_pos(dn);
            let iw = choose|iw: int| 0 <= iw < dn.len() && #[trigger] dn[iw] >= 1;
            assert(seq_i128(u@)[iw] >= 1) by {
                assert(u@[iw] as int == a0.reweight_u(dn, hb as int, ec as int)[iw]);
            }
            assert forall|j: int| 0 <= j < seq_i128(u@).len() implies #[trigger] seq_i128(u@)[j]
                >= 0 by {
                assert(seq_i128(u@)[j] == u@[j] as int);
            }
            lemma_sum_ge_elem(seq_i128(u@), iw);
            assert(seq_i128(u@) =~= a0.reweight_u(dn, hb as int, ec as int));
        }
        let nd = normalize_vec128(&u);
        self.instance_weights = nd;
        proof {
            assert(self.dweights() =~= seq_i64(nd@));
            assert(a0.margin2_d(dn, hb as int) >= 2 * a0.threshold);
        }
        Some(hb)
    }

    /// Run boosting until the iteration budget is exhausted or the best
    /// margin falls below the threshold.  The final weights always sum
    /// to `SCALE`.
    pub fn train(&mut self)
        requires
            old(self).wf(),
            1 <= old(self).num_instances <= 10_000_000_000,
            old(self).instances_buf@.len() <= 1_000_000_000_000,
            old(self).model@.len() >= 1,
            sum_seq(old(self).dweights()) >= 1,
        ensures
            final(self).wf(),
            final(self).features == old(self).features,
            final(self).labels == old(self).labels,
            final(self).instances_buf == old(self).instances_buf,
            final(self).instances == old(self).instances,
            final(self).num_instances == old(self).num_instances,
            final(self).threshold == old(self).threshold,
            final(self).num_iterations == old(self).num_iterations,
            final(self).num_threads == old(self).num_threads,
            old(self).num_iterations > 0 ==> sum_seq(final(self).dweights()) == SCALE,
    {
        let budget = self.num_iterations;
        let mut t: usize = 0;
        let mut stopped = false;
        while t < budget && !stopped
            invariant
                0 <= t <= budget,
                self.wf(),
                self.features == old(self).features,
                self.labels == old(self).labels,
                self.instances_buf == old(self).instances_buf,
                self.instances == old(self).instances,
                self.num_instances == old(self).num_instances,
                self.threshold == old(self).threshold,
                self.num_iterations == old(self).num_iterations,
                self.num_threads == old(self).num_threads,
                budget == old(self).num_iterations,
                1 <= self.num_instances <= 10_000_000_000,
                self.instances_buf@.len() <= 1_000_000_000_000,
                self.model@.len() >= 1,
                sum_seq(self.dweights()) >= 1,
                t > 0 ==> sum_seq(self.dweights()) == SCALE,
                stopped ==> t > 0,
            decreases budget - t,
        {
            let r = self.train_step();
            if r.is_none() {
                stopped = true;
            }
            t = t + 1;
        }
    }
}

impl AdaBoost {
    /// Evaluate the model on its own training instances: the four
    /// confusion counts, and the three rates as fixed-point percentages
    /// rounded down.
    pub fn get_metrics(&self) -> (r: Metrics)
        requires
            self.wf(),
            self.num_instances >= 1,
        ensures
            r.true_positives == self.spec_count(self.num_instances as int, true, true),
            r.false_positives == self.spec_count(self.num_instances as int, true, false),
            r.false_negatives == self.spec_count(self.num_instances as int, false, true),
            r.true_negatives == self.spec_count(self.num_instances as int, false, false),
            r.num_instances == self.num_instances,
            r.accuracy as int == (r.true_positives + r.true_negatives) * 100 * (SCALE as int) / (
            self.num_instances as int),
            r.precision as int == (r.true_positives as int) * 100 * (SCALE as int) / (if r
                .true_positives + r.false_positives >= 1 {
                (r.true_positives + r.false_positives) as int
            } else {
                1int
            }),
            r.recall as int == (r.true_positives as int) * 100 * (SCALE as int) / (if r
                .true_positives + r.false_negatives >= 1 {
                (r.true_positives + r.false_negatives) as int
            } else {
                1int
            }),
    {
        let n_model = self.model.len();
        proof {
            lemma_sum_bounded(self.weights(), W_MAX as int);
            assert((n_model as int) * (W_MAX as int)
                <= 18_446_744_073_709_551_615_000_000_000_000_000_000) by (nonlinear_arith)
                requires n_model as int <= 0xffff_ffff_ffff_ffff;
        }
        let bias2: i128 = -sum_weights_i128(&self.model);
        let n = self.num_instances;
        let mut tp: usize = 0;
        let mut fp: usize = 0;
        let mut fng: usize = 0;
        let mut tn: usize = 0;
        let mut i: usize = 0;
        while i < n
            invariant
                0 <= i <= n,
                n == self.num_instances,
                self.wf(),
                bias2 == spec_bias2(self.weights()),
                -18_446_744_073_709_551_615_000_000_000_000_000_000 <= bias2
                    <= 18_446_744_073_709_551_615_000_000_000_000_000_000,
                tp == self.spec_count(i as int, true, true),
                fp == self.spec_count(i as int, true, false),
                fng == self.spec_count(i as int, false, true),
                tn == self.spec_count(i as int, false, false),
                tp + fp + fng + tn == i,
            decreases n - i,
        {
            let se = self.instances[i];
            let start = se.0;
            let end = se.1;
            let ghost instseq = self.inst(i as int);
            let mut acc: i128 = 0;
            let mut j: usize = start;
            proof {
                assert(instseq.skip(0) =~= instseq);
            }
            while j < end
                invariant
                    start <= j <= end,
                    end <= self.instances_buf@.len(),
                    self.wf(),
                    instseq == self.inst(i as int),
                    0 <= i < n,
                    n == self.num_instances,
                    self.instances@[i as int] == (start, end),
                    instseq.len() == end - start,
                    acc + sum_idx(self.weights(), instseq.skip(j - start)) == sum_idx(
                        self.weights(), instseq),
                    -(j - start) * (W_MAX as int) <= acc <= (j - start) * (W_MAX as int),
                decreases end - j,
            {
                let h = self.instances_buf[j];
                proof {
                    assert(instseq.skip(j - start)[0] == instseq[j - start]);
                    assert(instseq[j - start] == self.instances_buf@[j as int] as int);
                    assert(instseq.skip(j - start).drop_first() =~= instseq.skip(j - start + 1));
                    assert((j - start + 1) * (W_MAX as int) == (j - start) * (W_MAX as int)
                        + W_MAX) by (nonlinear_arith);
                }
                acc = acc + self.model[h] as i128;
                j = j + 1;
            }
            proof {
                assert(instseq.skip(end - start) =~= Seq::<int>::empty());
                assert(acc == sum_idx(self.weights(), instseq));
                assert((end - start) * (W_MAX as int)
                    <= 18_446_744_073_709_551_615_000_000_000_000_000_000) by (nonlinear_arith)
                    requires 0 <= end - start <= 0xffff_ffff_ffff_ffff;
            }
            let score2 = bias2 + 2 * acc;
            let y = self.labels[i];
            proof {
                assert(score2 == score2_idx(self.weights(), self.inst(i as int)));
                assert(y as int == self.label_seq()[i as int]);
            }
            if score2 >= 0 {
                if y > 0 {
                    tp = tp + 1;
                } else {
                    fp = fp + 1;
                }
            } else {
                if y > 0 {
                    fng = fng + 1;
                } else {
                    tn = tn + 1;
                }
            }
            i = i + 1;
        }
        // The three percentage rates.
        proof {
            assert((tp + tn) as int * 100 * (SCALE as int) <= (n as int) * 100 * (SCALE as int))
                by (nonlinear_arith)
                requires 0 <= (tp + tn) as int <= n as int && SCALE == 1_000_000_000_000;
            assert((n as int) * 100 * (SCALE as int)
                <= 2_000_000_000_000_000_000_000_000_000_000_000) by (nonlinear_arith)
                requires 0 <= n as int <= 0xffff_ffff_ffff_ffff && SCALE == 1_000_000_000_000;
        }
        let accuracy = rate_percent(tp + tn, n);
        let dp = if tp + fp >= 1 {
            tp + fp
        } else {
            1
        };
        let precision = rate_percent(tp, dp);
        let dr = if tp + fng >= 1 {
            tp + fng
        } else {
            1
        };
        let recall = rate_percent(tp, dr);
        Metrics {
            accuracy,
            precision,
            recall,
            num_instances: n,
            true_positives: tp,
            false_positives: fp,
            false_negatives: fng,
            true_negatives: tn,
        }
    }
}

/// The share `a / b`, as a fixed-point percentage rounded down; `a` must
/// not exceed `b`.
fn rate_percent(a: usize, b: usize) -> (r: i64)
    requires
        1 <= b,
        a <= b,
    ensures
        r as int == (a as int) * 100 * (SCALE as int) / (b as int),
        0 <= r <= 100 * SCALE,
{
    proof {
        assert((a as int) * 100 * (SCALE as int) <= (b as int) * 100 * (SCALE as int))
            by (nonlinear_arith)
            requires 0 <= a as int <= b as int && SCALE == 1_000_000_000_000;
        assert((b as int) * 100 * (SCALE as int)
            <= 2_000_000_000_000_000_000_000_000_000_000_000) by (nonlinear_arith)
            requires 0 <= b as int <= 0xffff_ffff_ffff_ffff && SCALE == 1_000_000_000_000;
        assert((a as int) * 100 * (SCALE as int) >= 0) by (nonlinear_arith)
            requires a as int >= 0 && SCALE == 1_000_000_000_000;
        vstd::arithmetic::div_mod::lemma_div_is_ordered((a as int) * 100 * (SCALE as int), (
        b as int) * 100 * (SCALE as int), b as int);
        assert((b as int) * 100 * (SCALE as int) == (b as int) * (100 * (SCALE as int)))
            by (nonlinear_arith);
        vstd::arithmetic::div_mod::lemma_div_multiples_vanish(100 * (SCALE as int), b as int);
        vstd::arithmetic::div_mod::lemma_div_pos_is_pos((a as int) * 100 * (SCALE as int),
            b as int);
    }
    ((a as i128 * 100 * SCALE as i128) / b as i128) as i64
}

/// The effective weight a map gives a name: its value if bound, else
/// zero.
pub open spec fn map_weight(m: Map<Seq<char>, int>, name: Seq<char>) -> int {
    if m.dom().contains(name) {
        m[name]
    } else {
        0
    }
}

/// Sums split over concatenation.
pub proof fn lemma_sum_concat(a: Seq<int>, b: Seq<int>)
    ensures
        sum_seq(a + b) == sum_seq(a) + sum_seq(b),
    decreases b.len(),
{
    if b.len() == 0 {
        assert(a + b =~= a);
    } else {
        assert((a + b).drop_last() =~= a + b.drop_last());
        assert((a + b).last() == b.last());
        lemma_sum_concat(a, b.drop_last());
    }
}

/// Truncated division undoes multiplication.
pub proof fn lemma_tdiv_mul(x: int, k: int)
    requires
        k > 0,
    ensures
        crate::decimal::tdiv(k * x, k) == x,
{
    if x >= 0 {
        vstd::arithmetic::div_mod::lemma_div_multiples_vanish(x, k);
    } else {
        assert(-(k * x) == k * (-x)) by (nonlinear_arith);
        assert(k * x < 0) by (nonlinear_arith)
            requires k > 0 && x < 0;
        vstd::arithmetic::div_mod::lemma_div_multiples_vanish(-x, k);
    }
}

/// Digit characters, the dot, and the minus sign are not separators.
pub proof fn lemma_number_chars_nonspace(s: Seq<char>)
    requires
        forall|j: int|
            0 <= j < s.len() ==> crate::decimal::is_digit(#[trigger] s[j]) || s[j] == '.' || s[j]
                == '-',
    ensures
        forall|j: int| 0 <= j < s.len() ==> !crate::strutil::is_space(#[trigger] s[j]),
{
}

/// The characters of a formatted number are digits, a dot or a sign.
pub proof fn lemma_format_units_chars(v: int)
    ensures
        spec_format_units(v).len() >= 1,
        forall|j: int|
            0 <= j < spec_format_units(v).len() ==> crate::decimal::is_digit(
                #[trigger] spec_format_units(v)[j],
            ) || spec_format_units(v)[j] == '.' || spec_format_units(v)[j] == '-',
{
    let sc = crate::numeric::SCALE as int;
    let n = if v < 0 {
        -v
    } else {
        v
    };
    vstd::arithmetic::div_mod::lemma_div_pos_is_pos(n, sc);
    vstd::arithmetic::div_mod::lemma_mod_bound(n, sc);
    crate::decimal::lemma_nat_digits_facts(n / sc);
    crate::decimal::lemma_pad_digits_facts(n % sc, 12);
    assert forall|j: int|
        0 <= j < spec_format_units(v).len() implies crate::decimal::is_digit(
        #[trigger] spec_format_units(v)[j],
    ) || spec_format_units(v)[j] == '.' || spec_format_units(v)[j] == '-' by {
        let sign: Seq<char> = if v < 0 {
            seq!['-']
        } else {
            Seq::empty()
        };
        let d = crate::decimal::nat_digits(n / sc);
        let f = crate::decimal::pad_digits(n % sc, 12);
        if j < sign.len() {
            assert(spec_format_units(v)[j] == '-');
        } else if j < sign.len() + d.len() {
            assert(spec_format_units(v)[j] == d[j - sign.len()]);
        } else if j == sign.len() + d.len() {
            assert(spec_format_units(v)[j] == '.');
        } else {
            assert(spec_format_units(v)[j] == f[j - sign.len() - d.len() - 1]);
        }
    }
}

/// The characters of a formatted halved value are digits, a dot or a
/// sign.
pub proof fn lemma_format_half_chars(nv: int)
    ensures
        spec_format_half(nv).len() >= 1,
        forall|j: int|
            0 <= j < spec_format_half(nv).len() ==> crate::decimal::is_digit(
                #[trigger] spec_format_half(nv)[j],
            ) || spec_format_half(nv)[j] == '.' || spec_format_half(nv)[j] == '-',
{
    let p13 = crate::decimal::POW13 as int;
    let msp = if nv < 0 {
        -nv
    } else {
        nv
    };
    let v13 = 5 * msp;
    assert(v13 >= 0) by (nonlinear_arith)
        requires msp >= 0 && v13 == 5 * msp;
    vstd::arithmetic::div_mod::lemma_div_pos_is_pos(v13, p13);
    vstd::arithmetic::div_mod::lemma_mod_bound(v13, p13);
    crate::decimal::lemma_nat_digits_facts(v13 / p13);
    crate::decimal::lemma_pad_digits_facts(v13 % p13, 13);
    assert forall|j: int|
        0 <= j < spec_format_half(nv).len() implies crate::decimal::is_digit(
        #[trigger] spec_format_half(nv)[j],
    ) || spec_format_half(nv)[j] == '.' || spec_format_half(nv)[j] == '-' by {
        let sign: Seq<char> = if nv < 0 {
            seq!['-']
        } else {
            Seq::empty()
        };
        let d = crate::decimal::nat_digits(v13 / p13);
        let f = crate::decimal::pad_digits(v13 % p13, 13);
        if j < sign.len() {
            assert(spec_format_half(nv)[j] == '-');
        } else if j < sign.len() + d.len() {
            assert(spec_format_half(nv)[j] == d[j - sign.len()]);
        } else if j == sign.len() + d.len() {
            assert(spec_format_half(nv)[j] == '.');
        } else {
            assert(spec_format_half(nv)[j] == f[j - sign.len() - d.len() - 1]);
        }
    }
}

/// A space-free nonempty string is one whole token.
pub proof fn lemma_split_single(s: Seq<char>)
    requires
        s.len() >= 1,
        forall|j: int| 0 <= j < s.len() ==> !crate::strutil::is_space(#[trigger] s[j]),
    ensures
        crate::strutil::split_ws(s) == seq![s],
{
    crate::strutil::lemma_split_run(s, s.len() as int);
    assert(s.take(s.len() as int) =~= s);
    assert(s.skip(s.len() as int) =~= Seq::<char>::empty());
    assert(seq![s] + crate::strutil::split_ws(Seq::<char>::empty()) =~= seq![s]);
}

/// A tab-separated pair of space-free nonempty strings splits into
/// exactly those two tokens.
pub proof fn lemma_split_pair(a: Seq<char>, b: Seq<char>)
    requires
        a.len() >= 1,
        b.len() >= 1,
        forall|j: int| 0 <= j < a.len() ==> !crate::strutil::is_space(#[trigger] a[j]),
        forall|j: int| 0 <= j < b.len() ==> !crate::strutil::is_space(#[trigger] b[j]),
    ensures
        crate::strutil::split_ws(a + "\t"@ + b) == seq![a, b],
{
    let s = a + "\t"@ + b;
    reveal_strlit("\t");
    assert("\t"@.len() == 1);
    assert("\t"@[0] == '\t');
    assert(s.len() == a.len() + 1 + b.len());
    assert forall|j: int| 0 <= j < a.len() implies s[j] == a[j] by {}
    assert(s[a.len() as int] == '\t');
    crate::strutil::lemma_split_run(s, a.len() as int);
    assert(s.take(a.len() as int) =~= a);
    let rest = s.skip(a.len() as int);
    assert(rest[0] == '\t');
    assert(rest.drop_first() =~= b);
    lemma_split_single(b);
    assert(crate::strutil::split_ws(rest) == crate::strutil::split_ws(b));
    assert(seq![a] + seq![b] =~= seq![a, b]);
}

/// In a strictly sorted vocabulary every entry is the first of its name.
pub proof fn lemma_find_at(vocab: Seq<Seq<char>>, j: int)
    requires
        sorted_strict(vocab),
        0 <= j < vocab.len(),
    ensures
        find_feature(vocab, vocab[j]) == j,
{
    lemma_find_feature(vocab, vocab[j]);
    let f = find_feature(vocab, vocab[j]);
    if f < 0 {
        assert(vocab[j] == vocab[j]);
        assert(false);
    }
    if f != j {
        if f < j {
            crate::strutil::lemma_lex_asym(vocab[f], vocab[j]);
            assert(crate::strutil::lex_lt(vocab[f], vocab[j]));
            assert(false);
        } else {
            assert(vocab[j] != vocab[j]);
            assert(false);
        }
    }
}

/// The sum of an all-zero sequence is zero.
pub proof fn lemma_sum_zero(s: Seq<int>)
    requires
        forall|j: int| 0 <= j < s.len() ==> #[trigger] s[j] == 0,
    ensures
        sum_seq(s) == 0,
    decreases s.len(),
{
    if s.len() > 0 {
        assert forall|j: int| 0 <= j < s.len() - 1 implies #[trigger] s.drop_last()[j] == 0 by {
            assert(s.drop_last()[j] == s[j]);
        }
        lemma_sum_zero(s.drop_last());
    }
}

/// On a model whose weights are all zero, every feature set scores zero
/// and is therefore classified positive.  In particular, recording an
/// instance on a freshly constructed classifier and asking for the same
/// feature set back predicts the positive label.
pub proof fn lemma_zero_model_scores_zero(
    m: Seq<int>,
    vocab: Seq<Seq<char>>,
    names: Seq<Seq<char>>,
)
    requires
        forall|j: int| 0 <= j < m.len() ==> #[trigger] m[j] == 0,
        vocab.len() == m.len(),
    ensures
        spec_score2(m, vocab, names) == 0,
    decreases names.len(),
{
    lemma_sum_zero(m);
    if names.len() == 0 {
    } else {
        lemma_zero_model_scores_zero(m, vocab, names.drop_first());
        lemma_find_feature(vocab, names[0]);
        assert(weight_of(m, vocab, names[0]) == 0);
        assert(sum_found(m, vocab, names) == weight_of(m, vocab, names[0]) + sum_found(m, vocab,
            names.drop_first()));
        assert(2 * sum_found(m, vocab, names.drop_first()) == 0 - spec_bias2(m));
    }
}

/// Lines already consumed do not matter: interpreting `a + b` from the
/// end of `a` is interpreting `b` from its start.
pub proof fn lemma_fold_shift(
    a: Seq<Seq<char>>,
    b: Seq<Seq<char>>,
    i: int,
    m: Map<Seq<char>, int>,
    bias: int,
)
    requires
        0 <= i <= b.len(),
    ensures
        load_fold(a + b, a.len() + i, m, bias) == load_fold(b, i, m, bias),
    decreases b.len() - i,
{
    if i < b.len() {
        assert((a + b)[a.len() + i] == b[i]);
        let toks = crate::strutil::split_ws(b[i]);
        if toks.len() == 0 {
        } else if toks.len() >= 2 {
            match crate::decimal::spec_parse13(toks[1]) {
                Option::None => {},
                Option::Some(p) => {
                    let w = crate::decimal::tdiv(p, 10);
                    if !(w < -W_MAX || w > W_MAX) {
                        lemma_fold_shift(a, b, i + 1, m.insert(toks[0], w), bias + w);
                    }
                },
            }
        } else {
            match crate::decimal::spec_parse13(toks[0]) {
                Option::None => {},
                Option::Some(b13) => {
                    let w0 = -crate::decimal::tdiv(b13, 5) - bias;
                    if !(w0 < -W_MAX || w0 > W_MAX) {
                        lemma_fold_shift(a, b, i + 1, m.insert(Seq::empty(), w0), bias);
                    }
                },
            }
        }
    }
}

/// The map that interpreting a saved model builds up: every remaining
/// non-zero slot bound to its weight, and finally the empty bias feature
/// bound to slot 0.
pub open spec fn load_acc(
    vocab: Seq<Seq<char>>,
    w: Seq<int>,
    i: int,
    m: Map<Seq<char>, int>,
) -> Map<Seq<char>, int>
    decreases w.len() - i,
{
    if i < 1 || i >= w.len() {
        m.insert(Seq::empty(), w[0])
    } else if w[i] != 0 {
        load_acc(vocab, w, i + 1, m.insert(vocab[i], w[i]))
    } else {
        load_acc(vocab, w, i + 1, m)
    }
}

/// Interpreting the saved lines from slot `i` onward, with the running
/// weight sum of the earlier slots as bias, succeeds and builds exactly
/// the accumulated map.
pub proof fn lemma_fold_save(
    vocab: Seq<Seq<char>>,
    w: Seq<int>,
    i: int,
    m: Map<Seq<char>, int>,
    bias: int,
)
    requires
        sorted_strict(vocab),
        vocab.len() == w.len(),
        1 <= i <= w.len(),
        w.len() <= 1_000_000_000,
        forall|j: int| 0 <= j < w.len() ==> -W_MAX <= #[trigger] w[j] <= W_MAX,
        forall|j: int| 1 <= j < vocab.len() ==> (#[trigger] vocab[j]).len() >= 1,
        forall|j: int, c: int|
            1 <= j < vocab.len() && 0 <= c < vocab[j].len() ==> !crate::strutil::is_space(
                #[trigger] vocab[j][c],
            ),
        bias == sum_seq(w.subrange(1, i)),
    ensures
        load_fold(save_lines(vocab, w, i).push(spec_format_half(spec_bias2(w))), 0, m, bias)
            == Result::<Map<Seq<char>, int>, ModelLoadError>::Ok(load_acc(vocab, w, i, m)),
    decreases w.len() - i,
{
    let bline = spec_format_half(spec_bias2(w));
    if i >= w.len() {
        // Only the bias line remains.
        let lines = save_lines(vocab, w, i).push(bline);
        assert(save_lines(vocab, w, i) =~= Seq::<Seq<char>>::empty());
        assert(lines =~= seq![bline]);
        lemma_format_half_chars(spec_bias2(w));
        lemma_number_chars_nonspace(bline);
        lemma_split_single(bline);
        assert(crate::strutil::split_ws(lines[0]) == seq![bline]);
        lemma_sum_bounded(w, W_MAX as int);
        assert((w.len() as int) * (W_MAX as int) <= 1_000_000_000_000_000_000_000_000_000)
            by (nonlinear_arith)
            requires w.len() <= 1_000_000_000 && W_MAX == 1_000_000_000_000_000_000;
        crate::decimal::lemma_parse_format_half(spec_bias2(w));
        lemma_tdiv_mul(spec_bias2(w), 5);
        // The reconstructed slot-0 weight is exactly the saved one.
        assert(w =~= w.subrange(0, 1) + w.subrange(1, w.len() as int));
        lemma_sum_concat(w.subrange(0, 1), w.subrange(1, w.len() as int));
        assert(sum_seq(w.subrange(0, 1)) == w[0]) by {
            assert(w.subrange(0, 1).drop_last() =~= Seq::<int>::empty());
            assert(w.subrange(0, 1).last() == w[0]);
            assert(sum_seq(Seq::<int>::empty()) == 0);
        }
        assert(i == w.len());
        assert(-crate::decimal::tdiv(5 * spec_bias2(w), 5) - bias == w[0]);
        assert(load_fold(lines, 1, m.insert(Seq::empty(), w[0]), bias) == Result::<
            Map<Seq<char>, int>,
            ModelLoadError,
        >::Ok(m.insert(Seq::empty(), w[0])));
    } else {
        assert(w.subrange(1, i + 1).drop_last() =~= w.subrange(1, i));
        assert(w.subrange(1, i + 1).last() == w[i]);
        if w[i] == 0 {
            lemma_fold_save(vocab, w, i + 1, m, bias);
        } else {
            let l = line_of_pair(vocab[i], w[i]);
            let tail = save_lines(vocab, w, i + 1).push(bline);
            assert(save_lines(vocab, w, i).push(bline) =~= seq![l] + tail);
            lemma_format_units_chars(w[i] as int);
            lemma_number_chars_nonspace(spec_format_units(w[i] as int));
            lemma_split_pair(vocab[i], spec_format_units(w[i] as int));
            assert(crate::strutil::split_ws(l) == seq![vocab[i], spec_format_units(w[i] as int)]);
            crate::decimal::lemma_parse_format_units(w[i] as int);
            lemma_tdiv_mul(w[i], 10);
            lemma_fold_save(vocab, w, i + 1, m.insert(vocab[i], w[i]), bias + w[i]);
            lemma_fold_shift(seq![l], tail, 0, m.insert(vocab[i], w[i]), bias + w[i]);
            assert((seq![l] + tail).len() == 1 + tail.len());
        }
    }
}

/// The accumulated map assigns every name exactly its model weight.
#[verifier::rlimit(60)]
pub proof fn lemma_load_acc_weight(
    vocab: Seq<Seq<char>>,
    w: Seq<int>,
    i: int,
    m: Map<Seq<char>, int>,
)
    requires
        sorted_strict(vocab),
        vocab.len() == w.len(),
        vocab.len() >= 1,
        vocab[0] == Seq::<char>::empty(),
        1 <= i <= w.len(),
        forall|j: int| i <= j < vocab.len() ==> !m.dom().contains(#[trigger] vocab[j]),
        !m.dom().contains(Seq::<char>::empty()),
        forall|j: int|
            1 <= j < i ==> (w[j] != 0 ==> m.dom().contains(#[trigger] vocab[j]) && m[vocab[j]]
                == w[j]) && (w[j] == 0 ==> !m.dom().contains(vocab[j])),
        forall|x: Seq<char>|
            #[trigger] m.dom().contains(x) ==> exists|j: int| 1 <= j < i && vocab[j] == x,
    ensures
        forall|name: Seq<char>|
            map_weight(#[trigger] load_acc(vocab, w, i, m), name) == weight_of(w, vocab, name),
        forall|x: Seq<char>|
            #[trigger] load_acc(vocab, w, i, m).dom().contains(x) <==> m.dom().contains(x) || x
                == Seq::<char>::empty() || exists|k: int|
                i <= k < w.len() && #[trigger] vocab[k] == x && w[k] != 0,
    decreases w.len() - i,
{
    if i >= w.len() {
        let mf = m.insert(Seq::empty(), w[0]);
        assert forall|name: Seq<char>|
            map_weight(load_acc(vocab, w, i, m), name) == weight_of(w, vocab, name) by {
            if name == Seq::<char>::empty() {
                lemma_find_at(vocab, 0);
            } else if m.dom().contains(name) {
                let j = choose|j: int| 1 <= j < i && vocab[j] == name;
                lemma_find_at(vocab, j);
                assert(w[j] != 0 ==> m[vocab[j]] == w[j]);
                if w[j] == 0 {
                    assert(!m.dom().contains(vocab[j]));
                    assert(false);
                }
            } else {
                lemma_find_feature(vocab, name);
                let f = find_feature(vocab, name);
                if f >= 0 {
                    assert(vocab[f] == name);
                    assert(f != 0);
                    assert(1 <= f < i);
                    if w[f] != 0 {
                        assert(m.dom().contains(vocab[f]));
                        assert(false);
                    }
                }
            }
        }
    } else {
        if w[i] != 0 {
            let m2 = m.insert(vocab[i], w[i]);
            assert forall|j: int|
                i + 1 <= j < vocab.len() implies !m2.dom().contains(#[trigger] vocab[j]) by {
                crate::strutil::lemma_lex_asym(vocab[i], vocab[j]);
            }
            assert(vocab[i] != Seq::<char>::empty()) by {
                crate::strutil::lemma_lex_asym(vocab[0], vocab[i]);
            }
            assert forall|j: int|
                1 <= j < i + 1 implies (w[j] != 0 ==> m2.dom().contains(#[trigger] vocab[j])
                    && m2[vocab[j]] == w[j]) && (w[j] == 0 ==> !m2.dom().contains(vocab[j])) by {
                if j < i {
                    crate::strutil::lemma_lex_asym(vocab[j], vocab[i]);
                }
            }
            assert forall|x: Seq<char>|
                #[trigger] m2.dom().contains(x) implies exists|j: int|
                1 <= j < i + 1 && vocab[j] == x by {
                if x == vocab[i] {
                    assert(1 <= i < i + 1 && vocab[i as int] == x);
                } else {
                    let j = choose|j: int| 1 <= j < i && vocab[j] == x;
                    assert(1 <= j < i + 1 && vocab[j] == x);
                }
            }
            lemma_load_acc_weight(vocab, w, i + 1, m2);
            assert forall|x: Seq<char>|
                #[trigger] load_acc(vocab, w, i, m).dom().contains(x) implies m.dom().contains(
                x) || x == Seq::<char>::empty() || exists|k: int|
                i <= k < w.len() && #[trigger] vocab[k] == x && w[k] != 0 by {
                assert(load_acc(vocab, w, i, m) == load_acc(vocab, w, i + 1, m2));
                assert(load_acc(vocab, w, i + 1, m2).dom().contains(x));
                if m2.dom().contains(x) && !m.dom().contains(x) {
                    assert(x == vocab[i as int]);
                    assert(i <= i < w.len() && vocab[i as int] == x && w[i as int] != 0);
                } else if !m2.dom().contains(x) && x != Seq::<char>::empty() {
                    let k = choose|k: int|
                        i + 1 <= k < w.len() && #[trigger] vocab[k] == x && w[k] != 0;
                    assert(i <= k < w.len() && vocab[k] == x && w[k] != 0);
                }
            }
            assert forall|x: Seq<char>|
                (m.dom().contains(x) || x == Seq::<char>::empty() || exists|k: int|
                    i <= k < w.len() && #[trigger] vocab[k] == x && w[k] != 0) implies #[trigger]
                load_acc(vocab, w, i, m).dom().contains(x) by {
                assert(load_acc(vocab, w, i, m) == load_acc(vocab, w, i + 1, m2));
                if m.dom().contains(x) {
                    assert(m2.dom().contains(x));
                    assert(load_acc(vocab, w, i + 1, m2).dom().contains(x));
                } else if x == Seq::<char>::empty() {
                    assert(load_acc(vocab, w, i + 1, m2).dom().contains(x));
                } else {
                    let k = choose|k: int|
                        i <= k < w.len() && #[trigger] vocab[k] == x && w[k] != 0;
                    if k == i {
                        assert(m2.dom().contains(x));
                    } else {
                        assert(i + 1 <= k < w.len() && vocab[k] == x && w[k] != 0);
                    }
                    assert(load_acc(vocab, w, i + 1, m2).dom().contains(x));
                }
            }
        } else {
            lemma_load_acc_weight(vocab, w, i + 1, m);
            assert forall|x: Seq<char>|
                #[trigger] load_acc(vocab, w, i, m).dom().contains(x) <==> m.dom().contains(x)
                    || x == Seq::<char>::empty() || exists|k: int|
                    i <= k < w.len() && #[trigger] vocab[k] == x && w[k] != 0 by {
                assert(load_acc(vocab, w, i, m) == load_acc(vocab, w, i + 1, m));
                assert(load_acc(vocab, w, i + 1, m).dom().contains(x) <==> m.dom().contains(x)
                    || x == Seq::<char>::empty() || exists|k: int|
                    i + 1 <= k < w.len() && #[trigger] vocab[k] == x && w[k] != 0);
                if exists|k: int| i <= k < w.len() && #[trigger] vocab[k] == x && w[k] != 0 {
                    let k = choose|k: int|
                        i <= k < w.len() && #[trigger] vocab[k] == x && w[k] != 0;
                    assert(k != i);
                    assert(i + 1 <= k < w.len() && vocab[k] == x && w[k] != 0);
                }
                if exists|k: int|
                    i + 1 <= k < w.len() && #[trigger] vocab[k] == x && w[k] != 0 {
                    let k = choose|k: int|
                        i + 1 <= k < w.len() && #[trigger] vocab[k] == x && w[k] != 0;
                    assert(i <= k < w.len() && vocab[k] == x && w[k] != 0);
                }
            }
        }
    }
}

/// A strictly sorted sequence is pinned by its element set.
pub proof fn lemma_sorted_set_eq(a: Seq<Seq<char>>, b: Seq<Seq<char>>)
    requires
        sorted_strict(a),
        sorted_strict(b),
        forall|x: Seq<char>| a.contains(x) <==> b.contains(x),
    ensures
        a == b,
    decreases a.len(),
{
    if a.len() == 0 {
        if b.len() > 0 {
            assert(b.contains(b[0]));
            assert(a.contains(b[0]));
            assert(false);
        }
        assert(a =~= b);
    } else if b.len() == 0 {
        assert(a.contains(a[0]));
        assert(b.contains(a[0]));
        assert(false);
    } else {
        // The two last elements are each the largest of the shared set.
        assert(a.contains(a.last()));
        assert(b.contains(a.last()));
        assert(a.contains(b.last()));
        let ja = choose|j: int| 0 <= j < b.len() && b[j] == a.last();
        let jb = choose|j: int| 0 <= j < a.len() && a[j] == b.last();
        if a.last() != b.last() {
            assert(ja < b.len() - 1);
            assert(crate::strutil::lex_lt(b[ja], b.last()));
            assert(jb < a.len() - 1);
            assert(crate::strutil::lex_lt(a[jb], a.last()));
            crate::strutil::lemma_lex_trans(a.last(), b.last(), a.last());
            crate::strutil::lemma_lex_asym(a.last(), a.last());
            assert(false);
        }
        assert forall|x: Seq<char>|
            a.drop_last().contains(x) <==> b.drop_last().contains(x) by {
            if a.drop_last().contains(x) {
                let j = choose|j: int| 0 <= j < a.len() - 1 && a.drop_last()[j] == x;
                assert(a[j] == x);
                assert(crate::strutil::lex_lt(a[j], a.last()));
                crate::strutil::lemma_lex_asym(a[j], a.last());
                assert(x != b.last());
                assert(b.contains(x));
                let k = choose|k: int| 0 <= k < b.len() && b[k] == x;
                assert(k < b.len() - 1);
                assert(b.drop_last()[k] == x);
            }
            if b.drop_last().contains(x) {
                let j = choose|j: int| 0 <= j < b.len() - 1 && b.drop_last()[j] == x;
                assert(b[j] == x);
                assert(crate::strutil::lex_lt(b[j], b.last()));
                crate::strutil::lemma_lex_asym(b[j], b.last());
                assert(x != a.last());
                assert(a.contains(x));
                let k = choose|k: int| 0 <= k < a.len() && a[k] == x;
                assert(k < a.len() - 1);
                assert(a.drop_last()[k] == x);
            }
        }
        assert forall|i: int, j: int|
            0 <= i < j < a.drop_last().len() implies crate::strutil::lex_lt(
            #[trigger] a.drop_last()[i], #[trigger] a.drop_last()[j]) by {
            assert(a.drop_last()[i] == a[i] && a.drop_last()[j] == a[j]);
        }
        assert forall|i: int, j: int|
            0 <= i < j < b.drop_last().len() implies crate::strutil::lex_lt(
            #[trigger] b.drop_last()[i], #[trigger] b.drop_last()[j]) by {
            assert(b.drop_last()[i] == b[i] && b.drop_last()[j] == b[j]);
        }
        lemma_sorted_set_eq(a.drop_last(), b.drop_last());
        assert forall|j: int| 0 <= j < a.len() implies a[j] == b[j] by {
            if j < a.len() - 1 {
                assert(a.drop_last()[j] == a[j]);
                assert(b.drop_last()[j] == b[j]);
            }
        }
        assert(a =~= b);
    }
}

/// The reduced vocabulary: the names of the non-zero slots from `i` on,
/// in order.
pub open spec fn rvocab(vocab: Seq<Seq<char>>, w: Seq<int>, i: int) -> Seq<Seq<char>>
    decreases w.len() - i,
{
    if i < 0 || i >= w.len() {
        seq![]
    } else if w[i] != 0 {
        seq![vocab[i]] + rvocab(vocab, w, i + 1)
    } else {
        rvocab(vocab, w, i + 1)
    }
}

/// The weights of the non-zero slots from `i` on, in order.
pub open spec fn rweights(vocab: Seq<Seq<char>>, w: Seq<int>, i: int) -> Seq<int>
    decreases w.len() - i,
{
    if i < 0 || i >= w.len() {
        seq![]
    } else if w[i] != 0 {
        seq![w[i]] + rweights(vocab, w, i + 1)
    } else {
        rweights(vocab, w, i + 1)
    }
}

/// Shape of the reduction: matching lengths, matching name/weight pairs
/// drawn from non-zero slots, membership, and the sum of the whole
/// suffix.
pub proof fn lemma_reduced_facts(vocab: Seq<Seq<char>>, w: Seq<int>, i: int)
    requires
        vocab.len() == w.len(),
        1 <= i <= w.len(),
    ensures
        rvocab(vocab, w, i).len() == rweights(vocab, w, i).len(),
        forall|j: int|
            0 <= j < rvocab(vocab, w, i).len() ==> exists|k: int|
                i <= k < w.len() && #[trigger] rvocab(vocab, w, i)[j] == vocab[k] && rweights(
                    vocab,
                    w,
                    i,
                )[j] == w[k] && w[k] != 0,
        forall|x: Seq<char>|
            rvocab(vocab, w, i).contains(x) <==> exists|k: int|
                i <= k < w.len() && #[trigger] vocab[k] == x && w[k] != 0,
        sum_seq(rweights(vocab, w, i)) == sum_seq(w.subrange(i, w.len() as int)),
    decreases w.len() - i,
{
    if i >= w.len() {
        assert(w.subrange(i, w.len() as int) =~= Seq::<int>::empty());
    } else {
        lemma_reduced_facts(vocab, w, i + 1);
        assert(w.subrange(i, w.len() as int) =~= w.subrange(i, i + 1) + w.subrange(i + 1,
            w.len() as int));
        lemma_sum_concat(w.subrange(i, i + 1), w.subrange(i + 1, w.len() as int));
        assert(sum_seq(w.subrange(i, i + 1)) == w[i]) by {
            assert(w.subrange(i, i + 1).drop_last() =~= Seq::<int>::empty());
            assert(w.subrange(i, i + 1).last() == w[i]);
            assert(sum_seq(Seq::<int>::empty()) == 0);
        }
        if w[i] != 0 {
            let rv = rvocab(vocab, w, i);
            let rw = rweights(vocab, w, i);
            assert(rv == seq![vocab[i]] + rvocab(vocab, w, i + 1));
            assert(rw == seq![w[i]] + rweights(vocab, w, i + 1));
            assert(sum_seq(rw) == w[i] + sum_seq(rweights(vocab, w, i + 1))) by {
                assert(rw =~= seq![w[i]] + rweights(vocab, w, i + 1));
                lemma_sum_concat(seq![w[i]], rweights(vocab, w, i + 1));
                assert(sum_seq(seq![w[i]]) == w[i]) by {
                    assert(seq![w[i]].drop_last() =~= Seq::<int>::empty());
                    assert(sum_seq(Seq::<int>::empty()) == 0);
                }
            }
            assert forall|j: int|
                0 <= j < rv.len() implies exists|k: int|
                i <= k < w.len() && #[trigger] rv[j] == vocab[k] && rw[j] == w[k] && w[k]
                    != 0 by {
                if j == 0 {
                    assert(i <= i < w.len() && rv[0] == vocab[i as int] && rw[0] == w[i as int]
                        && w[i as int] != 0);
                } else {
                    assert(rv[j] == rvocab(vocab, w, i + 1)[j - 1]);
                    assert(rw[j] == rweights(vocab, w, i + 1)[j - 1]);
                    let k = choose|k: int|
                        i + 1 <= k < w.len() && #[trigger] rvocab(vocab, w, i + 1)[j - 1]
                            == vocab[k] && rweights(vocab, w, i + 1)[j - 1] == w[k] && w[k] != 0;
                    assert(i <= k < w.len() && rv[j] == vocab[k] && rw[j] == w[k] && w[k] != 0);
                }
            }
            assert forall|x: Seq<char>|
                rv.contains(x) <==> exists|k: int|
                    i <= k < w.len() && #[trigger] vocab[k] == x && w[k] != 0 by {
                if rv.contains(x) {
                    let j = choose|j: int| 0 <= j < rv.len() && rv[j] == x;
                    if j == 0 {
                        assert(vocab[i as int] == x && w[i as int] != 0);
                    } else {
                        assert(rvocab(vocab, w, i + 1).contains(x)) by {
                            assert(rvocab(vocab, w, i + 1)[j - 1] == x);
                        }
                        let k = choose|k: int|
                            i + 1 <= k < w.len() && #[trigger] vocab[k] == x && w[k] != 0;
                        assert(i <= k < w.len() && vocab[k] == x && w[k] != 0);
                    }
                }
                if exists|k: int| i <= k < w.len() && #[trigger] vocab[k] == x && w[k] != 0 {
                    let k = choose|k: int|
                        i <= k < w.len() && #[trigger] vocab[k] == x && w[k] != 0;
                    if k == i {
                        assert(rv[0] == x);
                    } else {
                        assert(rvocab(vocab, w, i + 1).contains(x));
                        let j = choose|j: int|
                            0 <= j < rvocab(vocab, w, i + 1).len() && #[trigger] rvocab(vocab, w,
                                i + 1)[j] == x;
                        assert(rv[j + 1] == x);
                    }
                }
            }
        } else {
            assert forall|x: Seq<char>|
                rvocab(vocab, w, i).contains(x) <==> exists|k: int|
                    i <= k < w.len() && #[trigger] vocab[k] == x && w[k] != 0 by {
                if exists|k: int| i <= k < w.len() && #[trigger] vocab[k] == x && w[k] != 0 {
                    let k = choose|k: int|
                        i <= k < w.len() && #[trigger] vocab[k] == x && w[k] != 0;
                    assert(k >= i + 1);
                }
            }
        }
    }
}

/// The reduced vocabulary keeps the sort order.
pub proof fn lemma_rvocab_sorted(vocab: Seq<Seq<char>>, w: Seq<int>, i: int)
    requires
        sorted_strict(vocab),
        vocab.len() == w.len(),
        1 <= i <= w.len(),
    ensures
        sorted_strict(rvocab(vocab, w, i)),
    decreases w.len() - i,
{
    if i < w.len() {
        lemma_rvocab_sorted(vocab, w, i + 1);
        if w[i] != 0 {
            lemma_reduced_facts(vocab, w, i + 1);
            let rv = rvocab(vocab, w, i);
            let rest = rvocab(vocab, w, i + 1);
            assert forall|p: int, q: int|
                0 <= p < q < rv.len() implies crate::strutil::lex_lt(#[trigger] rv[p],
                #[trigger] rv[q]) by {
                if p == 0 {
                    assert(rv[q] == rest[q - 1]);
                    let k = choose|k: int|
                        i + 1 <= k < w.len() && #[trigger] rest[q - 1] == vocab[k] && rweights(
                            vocab,
                            w,
                            i + 1,
                        )[q - 1] == w[k] && w[k] != 0;
                    assert(crate::strutil::lex_lt(vocab[i as int], vocab[k]));
                } else {
                    assert(rv[p] == rest[p - 1] && rv[q] == rest[q - 1]);
                }
            }
        }
    }
}

/// Two models that give every name the same weight score every feature
/// set identically, up to their biases.
pub proof fn lemma_sum_found_agree(
    m1: Seq<int>,
    v1: Seq<Seq<char>>,
    m2: Seq<int>,
    v2: Seq<Seq<char>>,
    names: Seq<Seq<char>>,
)
    requires
        forall|name: Seq<char>| #[trigger] weight_of(m1, v1, name) == weight_of(m2, v2, name),
    ensures
        sum_found(m1, v1, names) == sum_found(m2, v2, names),
    decreases names.len(),
{
    if names.len() > 0 {
        lemma_sum_found_agree(m1, v1, m2, v2, names.drop_first());
        assert(weight_of(m1, v1, names[0]) == weight_of(m2, v2, names[0]));
    }
}

/// The full round trip at the model level: any classifier whose
/// vocabulary is sorted and whose contents are the interpretation of the
/// saved lines scores every feature set exactly as the saved classifier
/// does, and so predicts the same label everywhere.
pub proof fn lemma_round_trip_model(a: &AdaBoost, bvocab: Seq<Seq<char>>, bw: Seq<int>)
    requires
        a.wf_model(),
        sorted_strict(a.vocab()),
        a.vocab().len() >= 1,
        a.vocab()[0] == Seq::<char>::empty(),
        a.model@.len() <= 1_000_000_000,
        forall|j: int, c: int|
            1 <= j < a.vocab().len() && 0 <= c < a.vocab()[j].len() ==> !crate::strutil::is_space(
                #[trigger] a.vocab()[j][c],
            ),
        forall|j: int| 1 <= j < a.vocab().len() ==> (#[trigger] a.vocab()[j]).len() >= 1,
        sorted_strict(bvocab),
        bvocab.len() == bw.len(),
        map_of(bvocab, bw) == load_fold(
            save_lines(a.vocab(), a.weights(), 1).push(
                spec_format_half(spec_bias2(a.weights())),
            ),
            0,
            Map::empty(),
            0,
        )->Ok_0,
    ensures
        spec_bias2(bw) == spec_bias2(a.weights()),
        forall|name: Seq<char>|
            #[trigger] weight_of(bw, bvocab, name) == weight_of(a.weights(), a.vocab(), name),
        forall|names: Seq<Seq<char>>|
            #[trigger] spec_score2(bw, bvocab, names) == spec_score2(a.weights(), a.vocab(),
            names),
{
    let vocab = a.vocab();
    let w = a.weights();
    assert(sum_seq(w.subrange(1, 1)) == 0) by {
        assert(w.subrange(1, 1) =~= Seq::<int>::empty());
    }
    lemma_fold_save(vocab, w, 1, Map::empty(), 0);
    lemma_load_acc_weight(vocab, w, 1, Map::empty());
    let mf = load_acc(vocab, w, 1, Map::empty());
    lemma_reduced_facts(vocab, w, 1);
    lemma_rvocab_sorted(vocab, w, 1);
    let rv = rvocab(vocab, w, 1);
    let rw = rweights(vocab, w, 1);
    let cv = seq![Seq::<char>::empty()] + rv;
    let cw = seq![w[0]] + rw;
    // The canonical reduced vocabulary is sorted.
    assert forall|p: int, q: int|
        0 <= p < q < cv.len() implies crate::strutil::lex_lt(#[trigger] cv[p],
        #[trigger] cv[q]) by {
        if p == 0 {
            assert(cv[q] == rv[q - 1]);
            let k = choose|k: int|
                1 <= k < w.len() && #[trigger] rv[q - 1] == vocab[k] && rw[q - 1] == w[k] && w[k]
                    != 0;
            assert(crate::strutil::lex_lt(vocab[0], vocab[k]));
        } else {
            assert(cv[p] == rv[p - 1] && cv[q] == rv[q - 1]);
        }
    }
    // Its element set is the interpreted map's domain, so it is the new
    // vocabulary.
    lemma_map_of_dom(bvocab, bw);
    assert forall|x: Seq<char>| bvocab.contains(x) <==> cv.contains(x) by {
        assert(bvocab.contains(x) <==> map_of(bvocab, bw).dom().contains(x));
        assert(mf.dom().contains(x) <==> x == Seq::<char>::empty() || exists|k: int|
            1 <= k < w.len() && #[trigger] vocab[k] == x && w[k] != 0);
        if x == Seq::<char>::empty() {
            assert(cv[0] == x);
            assert(cv.contains(x));
        } else {
            if exists|k: int| 1 <= k < w.len() && #[trigger] vocab[k] == x && w[k] != 0 {
                assert(rv.contains(x));
                let j = choose|j: int| 0 <= j < rv.len() && #[trigger] rv[j] == x;
                assert(cv[j + 1] == x);
                assert(cv.contains(x));
            }
            if cv.contains(x) {
                let j = choose|j: int| 0 <= j < cv.len() && #[trigger] cv[j] == x;
                assert(j >= 1);
                assert(rv[j - 1] == x);
                assert(rv.contains(x));
            }
        }
    }
    lemma_sorted_set_eq(bvocab, cv);
    // The new weights are the reduced weights, slot for slot.
    assert forall|p: int| 0 <= p < bvocab.len() implies #[trigger] bw[p] == cw[p] by {
        assert forall|j: int| p < j < bvocab.len() implies #[trigger] bvocab[j] != bvocab[p] by {
            crate::strutil::lemma_lex_asym(bvocab[p], bvocab[j]);
        }
        lemma_map_of_index(bvocab, bw, p);
        assert(map_of(bvocab, bw)[bvocab[p]] == bw[p]);
        if p == 0 {
            assert(bvocab[0] == Seq::<char>::empty());
            assert(map_weight(mf, Seq::<char>::empty()) == weight_of(w, vocab,
                Seq::<char>::empty()));
            assert(mf.dom().contains(Seq::<char>::empty()));
            lemma_find_at(vocab, 0);
            assert(bw[0] == w[0]);
        } else {
            assert(bvocab[p] == rv[p - 1]);
            let k = choose|k: int|
                1 <= k < w.len() && #[trigger] rv[p - 1] == vocab[k] && rw[p - 1] == w[k] && w[k]
                    != 0;
            assert(mf.dom().contains(vocab[k]));
            assert(map_weight(mf, vocab[k]) == weight_of(w, vocab, vocab[k]));
            lemma_find_at(vocab, k);
            assert(bw[p] == w[k]);
            assert(cw[p] == rw[p - 1]);
        }
    }
    assert(bw =~= cw);
    // The weight sums agree, so the biases do.
    lemma_sum_concat(seq![w[0]], rw);
    assert(sum_seq(seq![w[0]]) == w[0]) by {
        assert(seq![w[0]].drop_last() =~= Seq::<int>::empty());
        assert(sum_seq(Seq::<int>::empty()) == 0);
    }
    assert(w =~= w.subrange(0, 1) + w.subrange(1, w.len() as int));
    lemma_sum_concat(w.subrange(0, 1), w.subrange(1, w.len() as int));
    assert(sum_seq(w.subrange(0, 1)) == w[0]) by {
        assert(w.subrange(0, 1).drop_last() =~= Seq::<int>::empty());
        assert(w.subrange(0, 1).last() == w[0]);
        assert(sum_seq(Seq::<int>::empty()) == 0);
    }
    assert(sum_seq(bw) == sum_seq(w));
    // Every name keeps its weight, so every feature set keeps its score.
    assert forall|name: Seq<char>|
        #[trigger] weight_of(bw, bvocab, name) == weight_of(w, vocab, name) by {
        lemma_find_feature(bvocab, name);
        let f = find_feature(bvocab, name);
        if f >= 0 {
            assert(bvocab[f] == name);
            assert forall|j: int| f < j < bvocab.len() implies #[trigger] bvocab[j] != bvocab[f]
                by {
                crate::strutil::lemma_lex_asym(bvocab[f], bvocab[j]);
            }
            lemma_map_of_index(bvocab, bw, f);
            assert(bvocab.contains(name));
            assert(mf.dom().contains(name));
            assert(map_weight(mf, name) == weight_of(w, vocab, name));
            assert(weight_of(bw, bvocab, name) == bw[f]);
        } else {
            assert(!bvocab.contains(name)) by {
                if bvocab.contains(name) {
                    let j = choose|j: int| 0 <= j < bvocab.len() && #[trigger] bvocab[j] == name;
                    assert(false);
                }
            }
            assert(!mf.dom().contains(name));
            assert(map_weight(mf, name) == 0);
        }
    }
    assert forall|names: Seq<Seq<char>>|
        #[trigger] spec_score2(bw, bvocab, names) == spec_score2(w, vocab, names) by {
        lemma_sum_found_agree(bw, bvocab, w, vocab, names);
    }
}


} // verus!

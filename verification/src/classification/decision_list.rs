use vstd::prelude::*;
use super::{Attr, Example, Value};

verus! {

/// A test: the attribute-value pairs it checks and the class it decides.
pub type TestView = (Seq<(Attr, Value)>, bool);

/// `input` has each of the values `pairs` asks for.
pub open spec fn test_matches(pairs: Seq<(Attr, Value)>, input: Seq<Value>) -> bool {
    forall|k: int| 0 <= k < pairs.len() ==> input[(#[trigger] pairs[k]).0 as int] == pairs[k].1
}

/// The class of the first test that matches `input`; `None` when no test
/// does.
pub open spec fn decide(tests: Seq<TestView>, input: Seq<Value>) -> Option<bool>
    decreases tests.len(),
{
    if tests.len() == 0 {
        None
    } else if test_matches(tests[0].0, input) {
        Some(tests[0].1)
    } else {
        decide(tests.drop_first(), input)
    }
}

/// The class a decision list gives `input`: that of the first matching
/// test, or else the opposite of the last test's class (false for an empty
/// list).
pub open spec fn classify_spec(tests: Seq<TestView>, input: Seq<Value>) -> bool {
    match decide(tests, input) {
        Some(b) => b,
        None => if tests.len() > 0 { !tests.last().1 } else { false },
    }
}

/// When no test matches, no test decides.
proof fn lemma_decide_none(tests: Seq<TestView>, input: Seq<Value>)
    requires
        forall|i: int| 0 <= i < tests.len() ==> !test_matches(#[trigger] tests[i].0, input),
    ensures
        decide(tests, input) is None,
    decreases tests.len(),
{
    if tests.len() > 0 {
        assert(!test_matches(tests[0].0, input));
        let rest = tests.drop_first();
        assert forall|i: int| 0 <= i < rest.len() implies !test_matches(#[trigger] rest[i].0, input) by {
            assert(rest[i] == tests[i + 1]);
        }
        lemma_decide_none(rest, input);
    }
}

/// The first test that matches decides.
proof fn lemma_decide_first(tests: Seq<TestView>, input: Seq<Value>, i: int)
    requires
        0 <= i < tests.len(),
        test_matches(tests[i].0, input),
        forall|j: int| 0 <= j < i ==> !test_matches(#[trigger] tests[j].0, input),
    ensures
        decide(tests, input) == Some(tests[i].1),
    decreases tests.len(),
{
    if i > 0 {
        assert(!test_matches(tests[0].0, input));
        let rest = tests.drop_first();
        assert(rest[i - 1] == tests[i]);
        assert forall|j: int| 0 <= j < i - 1 implies !test_matches(#[trigger] rest[j].0, input) by {
            assert(rest[j] == tests[j + 1]);
        }
        lemma_decide_first(rest, input, i - 1);
    }
}

/// An input that no test matches gets the opposite of the last test's
/// class; with no test at all, false.
pub proof fn law_classify_unmatched(tests: Seq<TestView>, input: Seq<Value>)
    requires
        forall|i: int| 0 <= i < tests.len() ==> !test_matches(#[trigger] tests[i].0, input),
    ensures
        tests.len() > 0 ==> classify_spec(tests, input) == !tests.last().1,
        tests.len() == 0 ==> classify_spec(tests, input) == false,
{
    lemma_decide_none(tests, input);
}

/// An input gets the class of the first test it matches.
pub proof fn law_classify_first_match(tests: Seq<TestView>, input: Seq<Value>, i: int)
    requires
        0 <= i < tests.len(),
        test_matches(tests[i].0, input),
        forall|j: int| 0 <= j < i ==> !test_matches(#[trigger] tests[j].0, input),
    ensures
        classify_spec(tests, input) == tests[i].1,
{
    lemma_decide_first(tests, input, i);
}

/// Every attribute the tests check is below `n`.
pub open spec fn attrs_below(tests: Seq<TestView>, n: int) -> bool {
    forall|i: int, k: int| 0 <= i < tests.len() && 0 <= k < tests[i].0.len() ==> (#[trigger] tests[i].0[k]).0 < n
}

/// Among the examples `chosen` (positions in `examples`), some have value
/// `value` for `attr`, and all of those have class `class`.
pub open spec fn uniform(examples: Seq<(Seq<Value>, bool)>, chosen: Seq<usize>, attr: Attr, value: Value, class: bool) -> bool {
    &&& exists|k: int| 0 <= k < chosen.len() && (#[trigger] examples[chosen[k] as int]).0[attr as int] == value
    &&& forall|k: int| 0 <= k < chosen.len() && (#[trigger] examples[chosen[k] as int]).0[attr as int] == value
        ==> examples[chosen[k] as int].1 == class
}

/// `attr` and `value` are within the scheme: `value < scheme[attr]`.
pub open spec fn in_scheme(scheme: Seq<Value>, attr: int, value: int) -> bool {
    0 <= attr < scheme.len() && 0 <= value < scheme[attr]
}

/// No attribute-value pair of the scheme is uniform on `chosen`.
pub open spec fn no_uniform_pair(scheme: Seq<Value>, examples: Seq<(Seq<Value>, bool)>, chosen: Seq<usize>) -> bool {
    forall|a: Attr, v: Value, c: bool| in_scheme(scheme, a as int, v as int) ==> !#[trigger] uniform(examples, chosen, a, v, c)
}

proof fn lemma_decide_push(tests: Seq<TestView>, t: TestView, input: Seq<Value>)
    ensures
        decide(tests.push(t), input) == match decide(tests, input) {
            Some(b) => Some(b),
            None => if test_matches(t.0, input) { Some(t.1) } else { None },
        },
    decreases tests.len(),
{
    let p = tests.push(t);
    if tests.len() > 0 {
        assert(p[0] == tests[0]);
        assert(p.drop_first() =~= tests.drop_first().push(t));
        lemma_decide_push(tests.drop_first(), t, input);
        if !test_matches(tests[0].0, input) {
            assert(decide(p, input) == decide(p.drop_first(), input));
            assert(decide(tests, input) == decide(tests.drop_first(), input));
        }
    } else {
        assert(p[0] == t);
        assert(p.drop_first() =~= Seq::<TestView>::empty());
        assert(decide(p.drop_first(), input) is None);
    }
}

enum Outcome {
    Decision(bool),
    Undecided,
}

struct Test {
    pairs: Vec<(Attr, Value)>,
    class: bool,
}

impl View for Test {
    type V = TestView;

    closed spec fn view(&self) -> TestView {
        (self.pairs@, self.class)
    }
}

impl Test {
    fn new(pairs: Vec<(Attr, Value)>, class: bool) -> (r: Self)
        ensures
            r@ == (pairs@, class),
    {
        Test { pairs, class }
    }

    fn classify(&self, input: &[Value]) -> (r: Outcome)
        requires
            forall|k: int| 0 <= k < self@.0.len() ==> (#[trigger] self@.0[k]).0 < input@.len(),
        ensures
            r == if test_matches(self@.0, input@) { Outcome::Decision(self.class) } else { Outcome::Undecided },
    {
        let mut k: usize = 0;
        while k < self.pairs.len()
            invariant
                k <= self.pairs@.len(),
                forall|j: int| 0 <= j < self@.0.len() ==> (#[trigger] self@.0[j]).0 < input@.len(),
                forall|j: int| 0 <= j < k ==> input@[(#[trigger] self.pairs@[j]).0 as int] == self.pairs@[j].1,
            decreases self.pairs.len() - k,
        {
            let (attr, value) = self.pairs[k];
            assert(self@.0[k as int] == self.pairs@[k as int]);
            if input[attr] != value {
                return Outcome::Undecided;
            }
            k += 1;
        }
        Outcome::Decision(self.class)
    }
}

/// Why training failed.
#[derive(Debug)]
pub enum TrainError {
    /// Some examples are left that no single attribute-value pair separates
    /// by class.
    NonUniform,
}

/// The views of a list of tests.
spec fn test_views(tests: Seq<Test>) -> Seq<TestView> {
    tests.map_values(|t: Test| t@)
}

/// The views of a list of examples.
pub open spec fn example_views(examples: Seq<Example>) -> Seq<(Seq<Value>, bool)> {
    examples.map_values(|e: Example| e@)
}

/// Builds a decision list of single-pair tests from examples.
pub struct Trainer<'a> {
    input_scheme: Vec<Value>,
    tests: Vec<Test>,
    examples: &'a [Example],
}

impl<'a> Trainer<'a> {
    /// The number of values of each attribute.
    pub closed spec fn scheme(&self) -> Seq<Value> {
        self.input_scheme@
    }

    /// The training examples.
    pub closed spec fn examples(&self) -> Seq<(Seq<Value>, bool)> {
        example_views(self.examples@)
    }

    /// The tests learnt so far.
    pub closed spec fn tests(&self) -> Seq<TestView> {
        test_views(self.tests@)
    }

    /// A trainer for `examples`, whose attribute `i` takes the values below
    /// `input_scheme[i]`.
    pub fn new(input_scheme: Vec<Value>, examples: &'a [Example]) -> (r: Self)
        ensures
            r.scheme() == input_scheme@,
            r.examples() == example_views(examples@),
            r.tests() == Seq::<TestView>::empty(),
    {
        let r = Trainer { input_scheme, tests: Vec::new(), examples };
        assert(r.tests() =~= Seq::<TestView>::empty());
        r
    }

    /// The first attribute-value pair, in the order of attributes and then of
    /// values, that is uniform on the examples `filtered`, with its class.
    fn find_uniform(&self, filtered: &Vec<usize>) -> (r: Option<(Attr, Value, bool)>)
        requires
            forall|k: int| 0 <= k < filtered@.len() ==> #[trigger] filtered@[k] < self.examples@.len(),
            forall|i: int| 0 <= i < self.examples@.len() ==> (#[trigger] self.examples()[i]).0.len() >= self.scheme().len(),
        ensures
            r matches Some((a, v, c)) ==> in_scheme(self.scheme(), a as int, v as int)
                && uniform(self.examples(), filtered@, a, v, c)
                && forall|a2: Attr, v2: Value, c2: bool|
                    in_scheme(self.scheme(), a2 as int, v2 as int) && (a2 < a || (a2 == a && v2 < v))
                        ==> !#[trigger] uniform(self.examples(), filtered@, a2, v2, c2),
            r is None ==> no_uniform_pair(self.scheme(), self.examples(), filtered@),
    {
        let ghost es = self.examples();
        let ghost f = filtered@;
        let mut attr: usize = 0;
        while attr < self.input_scheme.len()
            invariant
                es == self.examples(),
                f == filtered@,
                attr <= self.scheme().len(),
                forall|k: int| 0 <= k < f.len() ==> #[trigger] f[k] < self.examples@.len(),
                forall|i: int| 0 <= i < self.examples@.len() ==> (#[trigger] es[i]).0.len() >= self.scheme().len(),
                forall|a2: Attr, v2: Value, c2: bool|
                    in_scheme(self.scheme(), a2 as int, v2 as int) && a2 < attr ==> !#[trigger] uniform(es, f, a2, v2, c2),
            decreases self.input_scheme.len() - attr,
        {
            let mut value: Value = 0;
            while value < self.input_scheme[attr]
                invariant
                    es == self.examples(),
                    f == filtered@,
                    attr < self.scheme().len(),
                    value <= self.scheme()[attr as int],
                    forall|k: int| 0 <= k < f.len() ==> #[trigger] f[k] < self.examples@.len(),
                    forall|i: int| 0 <= i < self.examples@.len() ==> (#[trigger] es[i]).0.len() >= self.scheme().len(),
                    forall|a2: Attr, v2: Value, c2: bool|
                        in_scheme(self.scheme(), a2 as int, v2 as int) && (a2 < attr || (a2 == attr && v2 < value))
                            ==> !#[trigger] uniform(es, f, a2, v2, c2),
                decreases self.input_scheme[attr as int] - value,
            {
                let mut saw_true = false;
                let mut saw_false = false;
                let mut k: usize = 0;
                while k < filtered.len()
                    invariant
                        es == self.examples(),
                        f == filtered@,
                        attr < self.scheme().len(),
                        k <= f.len(),
                        forall|j: int| 0 <= j < f.len() ==> #[trigger] f[j] < self.examples@.len(),
                        forall|i: int| 0 <= i < self.examples@.len() ==> (#[trigger] es[i]).0.len() >= self.scheme().len(),
                        saw_true <==> exists|j: int| 0 <= j < k && (#[trigger] es[f[j] as int]).0[attr as int] == value && es[f[j] as int].1,
                        saw_false <==> exists|j: int| 0 <= j < k && (#[trigger] es[f[j] as int]).0[attr as int] == value && !es[f[j] as int].1,
                    decreases filtered.len() - k,
                {
                    let e = &self.examples[filtered[k]];
                    assert(es[f[k as int] as int] == e@);
                    if e.input[attr] == value {
                        if e.output {
                            saw_true = true;
                        } else {
                            saw_false = true;
                        }
                    }
                    k += 1;
                }
                if saw_true && !saw_false {
                    proof {
                        assert forall|j: int| 0 <= j < f.len() && (#[trigger] es[f[j] as int]).0[attr as int] == value implies es[f[j] as int].1 == true by {
                            if !es[f[j] as int].1 {
                                assert(exists|j2: int| 0 <= j2 < f.len() && (#[trigger] es[f[j2] as int]).0[attr as int] == value && !es[f[j2] as int].1);
                            }
                        }
                    }
                    return Some((attr, value, true));
                }
                if !saw_true && saw_false {
                    proof {
                        assert forall|j: int| 0 <= j < f.len() && (#[trigger] es[f[j] as int]).0[attr as int] == value implies es[f[j] as int].1 == false by {
                            if es[f[j] as int].1 {
                                assert(exists|j2: int| 0 <= j2 < f.len() && (#[trigger] es[f[j2] as int]).0[attr as int] == value && es[f[j2] as int].1);
                            }
                        }
                    }
                    return Some((attr, value, false));
                }
                proof {
                    assert forall|c2: bool| !#[trigger] uniform(es, f, attr, value, c2) by {
                        if uniform(es, f, attr, value, c2) {
                            let j = choose|j: int| 0 <= j < f.len() && (#[trigger] es[f[j] as int]).0[attr as int] == value;
                            if es[f[j] as int].1 {
                                assert(saw_true);
                                let j2 = choose|j2: int| 0 <= j2 < f.len() && (#[trigger] es[f[j2] as int]).0[attr as int] == value && !es[f[j2] as int].1;
                            } else {
                                assert(saw_false);
                                let j2 = choose|j2: int| 0 <= j2 < f.len() && (#[trigger] es[f[j2] as int]).0[attr as int] == value && es[f[j2] as int].1;
                            }
                        }
                    }
                }
                value += 1;
            }
            attr += 1;
        }
        None
    }

    /// Learns single-pair tests until every example is decided by one: each
    /// round takes the first uniform pair on the examples left, adds a test
    /// for it and drops the examples it matches.
    fn single_pair_train(&mut self) -> (r: Result<(), TrainError>)
        requires
            old(self).tests().len() == 0,
            forall|i: int| 0 <= i < old(self).examples().len() ==> (#[trigger] old(self).examples()[i]).0.len() >= old(self).scheme().len(),
        ensures
            final(self).scheme() == old(self).scheme(),
            final(self).examples() == old(self).examples(),
            r is Ok ==> forall|i: int| 0 <= i < final(self).examples().len()
                ==> decide(final(self).tests(), (#[trigger] final(self).examples()[i]).0) == Some(final(self).examples()[i].1),
            attrs_below(final(self).tests(), final(self).scheme().len() as int),
            r is Err ==> exists|rest: Seq<usize>| #![trigger no_uniform_pair(final(self).scheme(), final(self).examples(), rest)]
                rest.len() > 0 && (forall|k: int| 0 <= k < rest.len() ==> #[trigger] rest[k] < final(self).examples().len())
                    && no_uniform_pair(final(self).scheme(), final(self).examples(), rest),
    {
        let ghost es = self.examples();
        let ghost scheme = self.scheme();
        let mut filtered: Vec<usize> = Vec::new();
        let mut i: usize = 0;
        while i < self.examples.len()
            invariant
                i <= self.examples@.len(),
                filtered@.len() == i,
                forall|k: int| 0 <= k < i ==> #[trigger] filtered@[k] == k,
            decreases self.examples.len() - i,
        {
            filtered.push(i);
            i += 1;
        }
        let n = self.examples.len();
        assert(es.len() == n);
        proof {
            assert forall|j: int| 0 <= j < es.len() implies #[trigger] filtered@.contains(j as usize) by {
                assert(filtered@[j] == j as usize);
            }
        }
        while filtered.len() > 0
            invariant
                es == self.examples(),
                scheme == self.scheme(),
                es == old(self).examples(),
                scheme == old(self).scheme(),
                es.len() == self.examples@.len(),
                es.len() <= usize::MAX,
                forall|j: int| 0 <= j < es.len() ==> (#[trigger] es[j]).0.len() >= scheme.len(),
                forall|k: int| 0 <= k < filtered@.len() ==> #[trigger] filtered@[k] < es.len(),
                forall|j: int| 0 <= j < es.len() ==>
                    (#[trigger] filtered@.contains(j as usize) <==> decide(self.tests(), es[j].0) is None),
                forall|j: int| 0 <= j < es.len() && decide(self.tests(), (#[trigger] es[j]).0) is Some
                    ==> decide(self.tests(), es[j].0) == Some(es[j].1),
                attrs_below(self.tests(), scheme.len() as int),
            decreases filtered.len(),
        {
            match self.find_uniform(&filtered) {
                Some((attr, value, class)) => {
                    let ghost old_tests = self.tests();
                    let ghost old_filtered = filtered@;
                    let mut pairs: Vec<(Attr, Value)> = Vec::new();
                    pairs.push((attr, value));
                    let test = Test::new(pairs, class);
                    self.tests.push(test);
                    proof {
                        assert(self.tests() =~= old_tests.push(test@));
                        assert forall|j: int| 0 <= j < es.len() implies
                            #[trigger] test_matches(test@.0, es[j].0) == (es[j].0[attr as int] == value) by {
                            if es[j].0[attr as int] == value {
                                assert forall|k: int| 0 <= k < test@.0.len() implies es[j].0[(#[trigger] test@.0[k]).0 as int] == test@.0[k].1 by {
                                    assert(k == 0);
                                }
                            } else {
                                assert(test@.0[0] == (attr, value));
                            }
                        }
                        assert forall|t: int, k: int| 0 <= t < self.tests().len() && 0 <= k < self.tests()[t].0.len()
                            implies (#[trigger] self.tests()[t].0[k]).0 < scheme.len() by {
                            if t < old_tests.len() {
                                assert(self.tests()[t] == old_tests[t]);
                            } else {
                                assert(k == 0);
                            }
                        }
                    }
                    assert forall|j: int| 0 <= j < self.examples@.len() implies (#[trigger] self.examples@[j])@.0.len() > attr by {
                        assert(es[j] == self.examples@[j]@);
                    }
                    let kept = drop_matching(self.examples, &filtered, attr, value);
                    proof {
                        assert forall|j: int| 0 <= j < es.len() implies
                            (#[trigger] kept@.contains(j as usize) <==> decide(self.tests(), es[j].0) is None) by {
                            lemma_decide_push(old_tests, test@, es[j].0);
                            assert(test_matches(test@.0, es[j].0) == (es[j].0[attr as int] == value));
                            if old_filtered.contains(j as usize) {
                                let m = choose|m: int| 0 <= m < old_filtered.len() && old_filtered[m] == j as usize;
                                assert(exists|m: int| 0 <= m < old_filtered.len() && old_filtered[m] == j as usize);
                            } else {
                                if exists|m: int| 0 <= m < old_filtered.len() && old_filtered[m] == j as usize {
                                    let m = choose|m: int| 0 <= m < old_filtered.len() && old_filtered[m] == j as usize;
                                    assert(old_filtered.contains(old_filtered[m]));
                                }
                            }
                        }
                        assert forall|j: int| 0 <= j < es.len() && decide(self.tests(), (#[trigger] es[j]).0) is Some
                            implies decide(self.tests(), es[j].0) == Some(es[j].1) by {
                            lemma_decide_push(old_tests, test@, es[j].0);
                            assert(test_matches(test@.0, es[j].0) == (es[j].0[attr as int] == value));
                            if decide(old_tests, es[j].0) is None {
                                assert(old_filtered.contains(j as usize));
                                let m = choose|m: int| 0 <= m < old_filtered.len() && old_filtered[m] == j as usize;
                                assert(old_filtered[m] as int == j);
                                assert(es[old_filtered[m] as int] == es[j]);
                            }
                        }
                    }
                    filtered = kept;
                },
                None => {
                    return Err(TrainError::NonUniform);
                },
            }
        }
        proof {
            assert forall|j: int| 0 <= j < es.len() implies
                decide(self.tests(), (#[trigger] es[j]).0) == Some(es[j].1) by {
                if decide(self.tests(), es[j].0) is None {
                    assert(filtered@.contains(j as usize));
                }
            }
        }
        Ok(())
    }

    /// The decision list learnt from the examples, or `NonUniform` when some
    /// examples are left that no attribute-value pair separates.
    pub fn train(self) -> (r: Result<DecisionList, TrainError>)
        requires
            self.tests().len() == 0,
            forall|i: int| 0 <= i < self.examples().len() ==> (#[trigger] self.examples()[i]).0.len() >= self.scheme().len(),
        ensures
            r matches Ok(dl) ==> forall|i: int| 0 <= i < self.examples().len()
                ==> decide(dl@, (#[trigger] self.examples()[i]).0) == Some(self.examples()[i].1),
            r matches Ok(dl) ==> attrs_below(dl@, self.scheme().len() as int),
            r is Err ==> exists|rest: Seq<usize>| #![trigger no_uniform_pair(self.scheme(), self.examples(), rest)]
                rest.len() > 0 && (forall|k: int| 0 <= k < rest.len() ==> #[trigger] rest[k] < self.examples().len())
                    && no_uniform_pair(self.scheme(), self.examples(), rest),
    {
        let mut trainer = self;
        match trainer.single_pair_train() {
            Ok(()) => Ok(DecisionList { tests: trainer.tests }),
            Err(e) => Err(e),
        }
    }
}

/// The examples of `filtered` whose value for `attr` is not `value`, in
/// order; fewer than before when one of them has that value.
fn drop_matching(examples: &[Example], filtered: &Vec<usize>, attr: Attr, value: Value) -> (kept: Vec<usize>)
    requires
        forall|m: int| 0 <= m < filtered@.len() ==> #[trigger] filtered@[m] < examples@.len(),
        forall|j: int| 0 <= j < examples@.len() ==> (#[trigger] examples@[j])@.0.len() > attr,
    ensures
        forall|m: int| 0 <= m < kept@.len() ==> #[trigger] kept@[m] < examples@.len(),
        forall|j: int| 0 <= j < examples@.len() ==> (#[trigger] kept@.contains(j as usize) <==>
            filtered@.contains(j as usize) && examples@[j]@.0[attr as int] != value),
        kept@.len() <= filtered@.len(),
        (exists|m: int| 0 <= m < filtered@.len() && (#[trigger] examples@[filtered@[m] as int])@.0[attr as int] == value)
            ==> kept@.len() < filtered@.len(),
{
    let ghost es = example_views(examples@);
    let mut kept: Vec<usize> = Vec::new();
    let mut k: usize = 0;
    let ghost mut dropped = false;
    while k < filtered.len()
        invariant
            k <= filtered@.len(),
            kept@.len() <= k,
            dropped ==> kept@.len() < k,
            forall|m: int| 0 <= m < filtered@.len() ==> #[trigger] filtered@[m] < examples@.len(),
            forall|j: int| 0 <= j < examples@.len() ==> (#[trigger] examples@[j])@.0.len() > attr,
            forall|m: int| 0 <= m < kept@.len() ==> #[trigger] kept@[m] < examples@.len(),
            forall|j: int| 0 <= j < examples@.len() ==> (#[trigger] kept@.contains(j as usize) <==>
                (exists|m: int| 0 <= m < k && filtered@[m] == j as usize) && examples@[j]@.0[attr as int] != value),
            (exists|m: int| 0 <= m < k && (#[trigger] examples@[filtered@[m] as int])@.0[attr as int] == value) ==> dropped,
        decreases filtered.len() - k,
    {
        let idx = filtered[k];
        let ghost before = kept@;
        if examples[idx].input[attr] != value {
            kept.push(idx);
        } else {
            proof {
                dropped = true;
            }
        }
        proof {
            assert forall|j: int| 0 <= j < examples@.len() implies (#[trigger] kept@.contains(j as usize) <==>
                (exists|m: int| 0 <= m < k + 1 && filtered@[m] == j as usize) && examples@[j]@.0[attr as int] != value) by {
                if kept@.contains(j as usize) {
                    let m = choose|m: int| 0 <= m < kept@.len() && kept@[m] == j as usize;
                    if m < before.len() {
                        assert(before.contains(j as usize));
                    } else {
                        assert(filtered@[k as int] == j as usize);
                    }
                }
                if (exists|m: int| 0 <= m < k + 1 && filtered@[m] == j as usize) && examples@[j]@.0[attr as int] != value {
                    let m = choose|m: int| 0 <= m < k + 1 && filtered@[m] == j as usize;
                    if m < k {
                        assert(before.contains(j as usize));
                        let m2 = choose|m2: int| 0 <= m2 < before.len() && before[m2] == j as usize;
                        assert(kept@[m2] == j as usize);
                    } else {
                        assert(kept@[kept@.len() - 1] == j as usize);
                    }
                }
            }
        }
        k += 1;
    }
    proof {
        assert forall|j: int| 0 <= j < examples@.len() implies (#[trigger] kept@.contains(j as usize) <==>
            filtered@.contains(j as usize) && examples@[j]@.0[attr as int] != value) by {
            if filtered@.contains(j as usize) {
                let m = choose|m: int| 0 <= m < filtered@.len() && filtered@[m] == j as usize;
            }
        }
    }
    kept
}

/// An ordered list of tests; an input gets the class of the first test it
/// matches.
pub struct DecisionList {
    tests: Vec<Test>,
}

impl View for DecisionList {
    type V = Seq<TestView>;

    closed spec fn view(&self) -> Seq<TestView> {
        test_views(self.tests@)
    }
}

impl DecisionList {
    /// The class of `input`: that of the first test it matches, or else the
    /// opposite of the last test's class, or false when there is no test.
    pub fn classify(&self, input: &[Value]) -> (r: bool)
        requires
            attrs_below(self@, input@.len() as int),
        ensures
            r == classify_spec(self@, input@),
    {
        let ghost ts = self@;
        assert(ts.subrange(0, ts.len() as int) =~= ts);
        let mut i: usize = 0;
        while i < self.tests.len()
            invariant
                ts == self@,
                i <= ts.len(),
                attrs_below(ts, input@.len() as int),
                decide(ts, input@) == decide(ts.subrange(i as int, ts.len() as int), input@),
            decreases self.tests.len() - i,
        {
            let test = &self.tests[i];
            assert(ts[i as int] == test@);
            assert forall|k: int| 0 <= k < test@.0.len() implies (#[trigger] test@.0[k]).0 < input@.len() by {
                assert(ts[i as int].0[k] == test@.0[k]);
            }
            let ghost rest = ts.subrange(i as int, ts.len() as int);
            assert(rest[0] == ts[i as int]);
            assert(rest.drop_first() =~= ts.subrange(i + 1, ts.len() as int));
            match test.classify(input) {
                Outcome::Decision(output) => {
                    return output;
                },
                Outcome::Undecided => {},
            }
            i += 1;
        }
        assert(ts.subrange(i as int, ts.len() as int) =~= Seq::<TestView>::empty());
        let n = self.tests.len();
        if n > 0 {
            assert(ts.last() == self.tests@[n - 1]@);
            !self.tests[n - 1].class
        } else {
            false
        }
    }
}

/// Consistency: a decision list that training returns classifies every
/// training example correctly.
pub proof fn law_trained_list_is_consistent(examples: Seq<(Seq<Value>, bool)>, tests: Seq<TestView>, i: int)
    requires
        forall|j: int| 0 <= j < examples.len() ==> decide(tests, (#[trigger] examples[j]).0) == Some(examples[j].1),
        0 <= i < examples.len(),
    ensures
        classify_spec(tests, examples[i].0) == examples[i].1,
{
    assert(decide(tests, examples[i].0) == Some(examples[i].1));
}

} // verus!

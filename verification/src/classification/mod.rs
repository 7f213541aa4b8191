//! Learning from examples: decision lists.

pub mod decision_list;

use vstd::prelude::*;

verus! {

/// The value of an attribute.
pub type Value = u32;

/// The position of an attribute in an input.
pub type Attr = usize;

/// An input, one value per attribute, and the class it belongs to.
pub struct Example {
    input: Vec<Value>,
    output: bool,
}

impl View for Example {
    type V = (Seq<Value>, bool);

    closed spec fn view(&self) -> (Seq<Value>, bool) {
        (self.input@, self.output)
    }
}

impl Example {
    /// The example with the given input and class.
    pub fn new(input: Vec<Value>, output: bool) -> (r: Self)
        ensures
            r@ == (input@, output),
    {
        Example { input, output }
    }

    /// The input.
    pub fn input(&self) -> (r: &[Value])
        ensures
            r@ == self@.0,
    {
        self.input.as_slice()
    }

    /// The class.
    pub fn output(&self) -> (r: bool)
        ensures
            r == self@.1,
    {
        self.output
    }
}

/// The numbers of positive and of negative examples among the first `upto`
/// of `examples` chosen by `chosen`.
pub open spec fn class_count_spec(examples: Seq<(Seq<Value>, bool)>, chosen: spec_fn(int) -> bool, upto: int) -> (int, int)
    decreases upto,
{
    if upto <= 0 {
        (0, 0)
    } else {
        let (t, f) = class_count_spec(examples, chosen, upto - 1);
        if chosen(upto - 1) {
            if examples[upto - 1].1 { (t + 1, f) } else { (t, f + 1) }
        } else {
            (t, f)
        }
    }
}

/// The numbers of positive and of negative examples.
pub fn class_count(examples: &[Example]) -> (r: (usize, usize))
    ensures
        r.0 + r.1 == examples@.len(),
        (r.0 as int, r.1 as int) == class_count_spec(examples@.map_values(|e: Example| e@), |i: int| true, examples@.len() as int),
{
    let ghost ev = examples@.map_values(|e: Example| e@);
    let mut t: usize = 0;
    let mut f: usize = 0;
    let mut i: usize = 0;
    while i < examples.len()
        invariant
            i <= examples@.len(),
            ev == examples@.map_values(|e: Example| e@),
            t + f == i,
            (t as int, f as int) == class_count_spec(ev, |i: int| true, i as int),
        decreases examples.len() - i,
    {
        assert(ev[i as int] == examples@[i as int]@);
        if examples[i].output {
            t += 1;
        } else {
            f += 1;
        }
        i += 1;
    }
    (t, f)
}

} // verus!

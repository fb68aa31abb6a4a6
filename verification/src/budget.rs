use vstd::prelude::*;

verus! {

/// The evaluation budget of a run. A run goes generation by generation; after
/// each generation it reports how many times the objective function was
/// called (cache hits do not count) and what the caller's termination test
/// said, and the run ends as soon as the calls counted reach `t_max` or the
/// termination test asks for it.
pub struct EvaluationBudget {
    evaluations: usize,
    t_max: usize,
}

impl EvaluationBudget {
    /// Objective evaluations counted so far.
    pub closed spec fn spent(&self) -> nat {
        self.evaluations as nat
    }

    /// The evaluations a run may use.
    pub closed spec fn limit(&self) -> nat {
        self.t_max as nat
    }

    /// A budget of `t_max` objective evaluations, none spent.
    pub fn new(t_max: usize) -> (b: Self)
        ensures
            b.spent() == 0,
            b.limit() == t_max,
    {
        EvaluationBudget { evaluations: 0, t_max }
    }

    /// Objective evaluations counted so far.
    pub fn evaluations(&self) -> (n: usize)
        ensures
            n == self.spent(),
    {
        self.evaluations
    }

    /// Whether `calls` more evaluations can be counted without overflowing.
    pub fn can_record(&self, calls: usize) -> (r: bool)
        ensures
            r == (self.spent() + calls <= usize::MAX),
    {
        self.evaluations <= usize::MAX - calls
    }

    /// Counts the `calls` objective evaluations of one generation, after which
    /// the termination test answered `terminate`, and says whether the run
    /// stops: when the budget is spent or the test asked for it.
    pub fn record_generation(&mut self, calls: usize, terminate: bool) -> (stop: bool)
        requires
            old(self).spent() + calls <= usize::MAX,
        ensures
            final(self).spent() == old(self).spent() + calls,
            final(self).limit() == old(self).limit(),
            stop == (final(self).spent() >= final(self).limit() || terminate),
    {
        self.evaluations = self.evaluations + calls;
        self.evaluations >= self.t_max || terminate
    }
}

} // verus!

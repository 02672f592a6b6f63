//! The relations that the borrow rules read.
use vstd::prelude::*;

verus! {

/// The borrow facts of one function body.
#[derive(Debug)]
pub struct PoloniusFacts {
    /// Control flow: from point, to point.
    pub cfg_edge: Vec<(u64, u64)>,
    /// Loan, origin, point.
    pub loan_issued_at: Vec<(u32, u32, u64)>,
    /// Loan, point.
    pub loan_invalidated_at: Vec<(u32, u64)>,
    /// Variable, point.
    pub var_used_at: Vec<(u32, u64)>,
    /// Variable, origin.
    pub use_of_var_derefs_origin: Vec<(u32, u32)>,
    /// Parent loan, child loan of a reborrow.
    pub reborrow_sources: Vec<(u32, u32)>,
    /// Origin, origin, point: the first flows into the second at the point.
    pub subset_base: Vec<(u32, u32, u64)>,
    /// The placeholder origins of signatures.
    pub universal_region: Vec<u32>,
    /// Declared flows between placeholder origins.
    pub known_placeholder_subset: Vec<(u32, u32)>,
    /// Loan, point from which it is no longer tracked.
    pub loan_killed_at: Vec<(u32, u64)>,
    /// Variable, point at which it gets a value.
    pub var_defined_at: Vec<(u32, u64)>,
    /// Variable, point at which its old value is dropped.
    pub var_dropped_at: Vec<(u32, u64)>,
    /// Variable, origin that dropping the variable reaches.
    pub drop_of_var_derefs_origin: Vec<(u32, u32)>,
    /// Path, the path it directly extends.
    pub child_path: Vec<(u32, u32)>,
    /// Root path, its variable.
    pub path_is_var: Vec<(u32, u32)>,
}

impl Default for PoloniusFacts {
    fn default() -> (r: Self)
        ensures
            r.no_facts(),
    {
        PoloniusFacts {
            cfg_edge: Vec::new(),
            loan_issued_at: Vec::new(),
            loan_invalidated_at: Vec::new(),
            var_used_at: Vec::new(),
            use_of_var_derefs_origin: Vec::new(),
            reborrow_sources: Vec::new(),
            subset_base: Vec::new(),
            universal_region: Vec::new(),
            known_placeholder_subset: Vec::new(),
            loan_killed_at: Vec::new(),
            var_defined_at: Vec::new(),
            var_dropped_at: Vec::new(),
            drop_of_var_derefs_origin: Vec::new(),
            child_path: Vec::new(),
            path_is_var: Vec::new(),
        }
    }
}

impl PoloniusFacts {
    /// Every relation is empty.
    pub open spec fn no_facts(self) -> bool {
        &&& self.cfg_edge@ == Seq::<(u64, u64)>::empty()
        &&& self.loan_issued_at@ == Seq::<(u32, u32, u64)>::empty()
        &&& self.loan_invalidated_at@ == Seq::<(u32, u64)>::empty()
        &&& self.var_used_at@ == Seq::<(u32, u64)>::empty()
        &&& self.use_of_var_derefs_origin@ == Seq::<(u32, u32)>::empty()
        &&& self.reborrow_sources@ == Seq::<(u32, u32)>::empty()
        &&& self.subset_base@ == Seq::<(u32, u32, u64)>::empty()
        &&& self.universal_region@ == Seq::<u32>::empty()
        &&& self.known_placeholder_subset@ == Seq::<(u32, u32)>::empty()
        &&& self.loan_killed_at@ == Seq::<(u32, u64)>::empty()
        &&& self.var_defined_at@ == Seq::<(u32, u64)>::empty()
        &&& self.var_dropped_at@ == Seq::<(u32, u64)>::empty()
        &&& self.drop_of_var_derefs_origin@ == Seq::<(u32, u32)>::empty()
        &&& self.child_path@ == Seq::<(u32, u32)>::empty()
        &&& self.path_is_var@ == Seq::<(u32, u32)>::empty()
    }

    // -----------------------------------------------------------------------
    // Liveness of variables and origins
    // -----------------------------------------------------------------------

    /// A set of (variable, point) that holds every use, and with a point also
    /// the points before it.
    pub open spec fn live_closed(self, s: Set<(u32, u64)>) -> bool {
        &&& forall|i: int|
            0 <= i < self.var_used_at@.len() ==> s.contains(#[trigger] self.var_used_at@[i])
        &&& forall|v: u32, i: int|
            #![trigger s.contains((v, self.cfg_edge@[i].1))]
            0 <= i < self.cfg_edge@.len() && s.contains((v, self.cfg_edge@[i].1)) ==> s.contains(
                (v, self.cfg_edge@[i].0),
            )
    }

    /// The variable is live at the point: some use of it can follow.
    pub open spec fn var_live(self, v: u32, p: u64) -> bool {
        forall|s: Set<(u32, u64)>| #[trigger] self.live_closed(s) ==> s.contains((v, p))
    }

    /// The point is one end of a control flow edge.
    pub open spec fn is_point(self, p: u64) -> bool {
        exists|i: int|
            0 <= i < self.cfg_edge@.len() && (#[trigger] self.cfg_edge@[i].0 == p
                || self.cfg_edge@[i].1 == p)
    }

    /// The origin is live at the point: through a live variable, or as a
    /// placeholder.
    pub open spec fn origin_live(self, o: u32, p: u64) -> bool {
        ||| exists|v: u32| #[trigger]
            self.var_live(v, p) && self.use_of_var_derefs_origin@.contains((v, o))
        ||| self.universal_region@.contains(o) && self.is_point(p)
    }

    // -----------------------------------------------------------------------
    // Flow between origins
    // -----------------------------------------------------------------------

    /// A set of (origin, origin, point) that holds the base facts, is
    /// transitive, and follows control flow while both origins are live.
    pub open spec fn subset_closed(self, s: Set<(u32, u32, u64)>) -> bool {
        &&& forall|i: int|
            0 <= i < self.subset_base@.len() ==> s.contains(#[trigger] self.subset_base@[i])
        &&& forall|a: u32, b: u32, c: u32, p: u64|
            #![trigger s.contains((a, b, p)), s.contains((b, c, p))]
            s.contains((a, b, p)) && s.contains((b, c, p)) && a != c ==> s.contains((a, c, p))
        &&& forall|a: u32, b: u32, i: int|
            #![trigger s.contains((a, b, self.cfg_edge@[i].0))]
            0 <= i < self.cfg_edge@.len() && s.contains((a, b, self.cfg_edge@[i].0))
                && self.origin_live(a, self.cfg_edge@[i].1) && self.origin_live(
                b,
                self.cfg_edge@[i].1,
            ) ==> s.contains((a, b, self.cfg_edge@[i].1))
    }

    /// At the point, the first origin flows into the second.
    pub open spec fn subset(self, a: u32, b: u32, p: u64) -> bool {
        forall|s: Set<(u32, u32, u64)>| #[trigger]
            self.subset_closed(s) ==> s.contains((a, b, p))
    }

    // -----------------------------------------------------------------------
    // Loans
    // -----------------------------------------------------------------------

    /// A set of (loan, origin, point) that holds the issued loans, follows
    /// control flow while the loan is not killed and the origin is live, and
    /// follows the flow between origins.
    pub open spec fn loans_closed(self, s: Set<(u32, u32, u64)>) -> bool {
        &&& forall|i: int|
            0 <= i < self.loan_issued_at@.len() ==> s.contains(#[trigger] self.loan_issued_at@[i])
        &&& forall|l: u32, o: u32, i: int|
            #![trigger s.contains((l, o, self.cfg_edge@[i].0))]
            0 <= i < self.cfg_edge@.len() && s.contains((l, o, self.cfg_edge@[i].0))
                && !self.loan_killed_at@.contains((l, self.cfg_edge@[i].0)) && self.origin_live(
                o,
                self.cfg_edge@[i].1,
            ) ==> s.contains((l, o, self.cfg_edge@[i].1))
        &&& forall|l: u32, o: u32, q: u32, p: u64|
            #![trigger s.contains((l, o, p)), self.subset(o, q, p)]
            s.contains((l, o, p)) && self.subset(o, q, p) ==> s.contains((l, q, p))
    }

    /// At the point, the origin contains the loan.
    pub open spec fn contains_loan(self, l: u32, o: u32, p: u64) -> bool {
        forall|s: Set<(u32, u32, u64)>| #[trigger] self.loans_closed(s) ==> s.contains((l, o, p))
    }

    /// The loan is live at the point: a live origin contains it.
    pub open spec fn loan_live(self, l: u32, p: u64) -> bool {
        exists|o: u32| #[trigger] self.contains_loan(l, o, p) && self.origin_live(o, p)
    }

    // -----------------------------------------------------------------------
    // Declared flows
    // -----------------------------------------------------------------------

    /// A set of (origin, origin) that holds the declared flows and can be
    /// extended by a declared flow.
    pub open spec fn known_closed(self, s: Set<(u32, u32)>) -> bool {
        &&& forall|i: int|
            0 <= i < self.known_placeholder_subset@.len() ==> s.contains(
                #[trigger] self.known_placeholder_subset@[i],
            )
        &&& forall|a: u32, i: int|
            #![trigger s.contains((a, self.known_placeholder_subset@[i].0))]
            0 <= i < self.known_placeholder_subset@.len() && s.contains(
                (a, self.known_placeholder_subset@[i].0),
            ) ==> s.contains((a, self.known_placeholder_subset@[i].1))
    }

    /// The flow between two placeholder origins is declared, directly or
    /// through others.
    pub open spec fn known(self, a: u32, b: u32) -> bool {
        forall|s: Set<(u32, u32)>| #[trigger] self.known_closed(s) ==> s.contains((a, b))
    }

    // -----------------------------------------------------------------------
    // Errors
    // -----------------------------------------------------------------------

    /// The loan is invalidated at the point while it is live there.
    pub open spec fn rule_errors(self) -> Seq<(u32, u64)> {
        self.loan_invalidated_at@.filter(|x: (u32, u64)| self.loan_live(x.0, x.1))
    }

    /// The flow at the point is between two different placeholder origins, and
    /// is not declared.
    pub open spec fn subset_error(self, a: u32, b: u32, p: u64) -> bool {
        &&& self.subset(a, b, p)
        &&& a != b
        &&& self.universal_region@.contains(a)
        &&& self.universal_region@.contains(b)
        &&& !self.known(a, b)
    }

    /// The origin of the last of the first `n` issue facts of the loan.
    pub open spec fn origin_of(self, l: u32, n: int) -> Option<u32>
        decreases n,
    {
        if n <= 0 {
            None
        } else if self.loan_issued_at@[n - 1].0 == l {
            Some(self.loan_issued_at@[n - 1].1)
        } else {
            self.origin_of(l, n - 1)
        }
    }

    /// Whether a drop at `p` finds a live loan in the origin `o`.
    pub open spec fn found_by_drop(self, o: u32, p: u64) -> spec_fn((u32, u64)) -> bool {
        |x: (u32, u64)|
            x.1 == p && self.origin_of(x.0, self.loan_issued_at@.len() as int) == Some(o)
    }

    /// The loans among `live` that a drop at `p` finds in the origin `o`.
    pub open spec fn dropped_loans(self, live: Seq<(u32, u64)>, o: u32, p: u64) -> Seq<(u32, u64)> {
        live.filter(self.found_by_drop(o, p))
    }

    /// The drop errors of one (variable, origin) pair over the first `n` drops.
    pub open spec fn drops_of(self, live: Seq<(u32, u64)>, v: u32, o: u32, n: int) -> Seq<
        (u32, u64),
    >
        decreases n,
    {
        if n <= 0 {
            Seq::empty()
        } else {
            let d = self.var_dropped_at@[n - 1];
            self.drops_of(live, v, o, n - 1) + (if d.0 == v {
                self.dropped_loans(live, o, d.1)
            } else {
                Seq::empty()
            })
        }
    }

    /// The drop errors of the first `n` (variable, origin) pairs, when `live`
    /// lists the live loans.
    pub open spec fn drop_errors(self, live: Seq<(u32, u64)>, n: int) -> Seq<(u32, u64)>
        decreases n,
    {
        if n <= 0 {
            Seq::empty()
        } else {
            let d = self.drop_of_var_derefs_origin@[n - 1];
            self.drop_errors(live, n - 1) + self.drops_of(
                live,
                d.0,
                d.1,
                self.var_dropped_at@.len() as int,
            )
        }
    }

    /// The list holds the live loans, with their points, each once.
    pub open spec fn lists_live(self, live: Seq<(u32, u64)>) -> bool {
        &&& live.no_duplicates()
        &&& forall|l: u32, p: u64| #[trigger] live.contains((l, p)) <==> self.loan_live(l, p)
    }
}

} // verus!

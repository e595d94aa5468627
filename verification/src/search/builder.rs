//! Lowering of a query into an ordered plan of named relational subsets.
//!
//! Each distinct subtree, identified by its canonical hash, is compiled
//! exactly once into one named intermediate result set, even when it is
//! referenced several times: repeated subtrees share a subset instead of
//! recomputing it, and a one-child `And`/`Or` passes its only child's
//! subset through instead of materializing one of its own. The plan's
//! steps are the storage contract's operations: a base predicate scan, a
//! relative complement against the set of all works, an intersection, and
//! a union; `drop_tables` releases every subset the compilation created.

use vstd::prelude::*;

use crate::search::{
    query_list_view, lemma_query_views, spec_hash_query, Query, QueryTerm, QueryV,
};
use crate::utils::spec_hex_digits;

verus! {

/// One relational operation of a compiled plan, materializing (or
/// releasing) a named, transaction-scoped subset.
#[derive(Debug)]
pub enum PlanStep {
    /// Materialize the set of all works under the name `everything`.
    Everything,
    /// Materialize the works satisfying a base predicate.
    Scan { table: String, term: QueryTerm },
    /// Materialize `everything` minus `child`.
    Complement { table: String, child: String },
    /// Materialize the intersection of the named children.
    Intersect { table: String, children: Vec<String> },
    /// Materialize the union of the named children.
    Union { table: String, children: Vec<String> },
    /// Release a named subset.
    Drop { table: String },
}

/// The deterministic name a query node materializes under: equal canonical
/// hashes share one name.
pub open spec fn spec_table_name(q: QueryV) -> Seq<char> {
    "t"@ + spec_hex_digits(spec_hash_query(q))
}

/// A one-child conjunction or disjunction, which stands for its child.
pub open spec fn is_singleton_group(q: QueryV) -> bool {
    match q {
        QueryV::And(ts) => ts.len() == 1,
        QueryV::Or(ts) => ts.len() == 1,
        _ => false,
    }
}

/// The name of the subset holding a query's matches: its own table name,
/// except that a one-child `And`/`Or` shares its only child's subset.
pub open spec fn spec_subset_name(q: QueryV) -> Seq<char>
    decreases q,
{
    match q {
        QueryV::And(ts) => if ts.len() == 1 {
            spec_subset_name(ts[0])
        } else {
            spec_table_name(q)
        },
        QueryV::Or(ts) => if ts.len() == 1 {
            spec_subset_name(ts[0])
        } else {
            spec_table_name(q)
        },
        _ => spec_table_name(q),
    }
}

/// Whether the name list holds `name`.
pub open spec fn has_name(names: Seq<String>, name: Seq<char>) -> bool {
    exists|k: int| 0 <= k < names.len() && (#[trigger] names[k])@ == name
}

/// Whether `names` are exactly the children's subset names, in order.
pub open spec fn children_named(names: Seq<String>, ts: Seq<QueryV>) -> bool {
    names.len() == ts.len() && forall|k: int|
        0 <= k < ts.len() ==> (#[trigger] names[k])@ == spec_subset_name(ts[k])
}

/// The step that materializes a (non-singleton) query node: a scan with the
/// node's term, a complement of the child's subset, or an intersection or
/// union of the children's subsets, under the node's own table name.
pub open spec fn step_defines(s: PlanStep, q: QueryV) -> bool {
    match q {
        QueryV::Term(t) => s matches PlanStep::Scan { table, term } && table@ == spec_table_name(
            q,
        ) && term@ == t,
        QueryV::Not(b) => s matches PlanStep::Complement { table, child } && table@
            == spec_table_name(q) && child@ == spec_subset_name(*b),
        QueryV::And(ts) => s matches PlanStep::Intersect { table, children } && table@
            == spec_table_name(q) && children_named(children@, ts),
        QueryV::Or(ts) => s matches PlanStep::Union { table, children } && table@
            == spec_table_name(q) && children_named(children@, ts),
    }
}

/// The subset a step materializes, if any.
pub open spec fn step_table(s: PlanStep) -> Option<Seq<char>> {
    match s {
        PlanStep::Everything => Some("everything"@),
        PlanStep::Scan { table, .. } => Some(table@),
        PlanStep::Complement { table, .. } => Some(table@),
        PlanStep::Intersect { table, .. } => Some(table@),
        PlanStep::Union { table, .. } => Some(table@),
        PlanStep::Drop { .. } => None,
    }
}

/// The names the plan's steps materialize, in order.
pub open spec fn defined_tables(steps: Seq<PlanStep>) -> Seq<Seq<char>>
    decreases steps.len(),
{
    if steps.len() == 0 {
        Seq::empty()
    } else {
        match step_table(steps.last()) {
            Some(t) => defined_tables(steps.drop_last()).push(t),
            None => defined_tables(steps.drop_last()),
        }
    }
}

/// The texts of a name list.
pub open spec fn names_of(names: Seq<String>) -> Seq<Seq<char>> {
    names.map_values(|s: String| s@)
}

/// Appending a materializing step and its name together keeps the plan and
/// the name list in step.
proof fn lemma_define_push(steps: Seq<PlanStep>, names: Seq<String>, s: PlanStep, n: String)
    requires
        defined_tables(steps) == names_of(names),
        step_table(s) == Some(n@),
    ensures
        defined_tables(steps.push(s)) == names_of(names.push(n)),
{
    assert(steps.push(s).drop_last() =~= steps);
    assert(steps.push(s).last() == s);
    assert(names_of(names.push(n)) =~= names_of(names).push(n@));
}

/// What a push does to the presence of an `Everything` step.
proof fn lemma_everything_push(steps: Seq<PlanStep>, s: PlanStep)
    ensures
        (exists|k: int| 0 <= k < steps.push(s).len() && (#[trigger] steps.push(s)[k]) is Everything)
            <==> ((exists|k: int| 0 <= k < steps.len() && (#[trigger] steps[k]) is Everything)
            || s is Everything),
{
    if exists|k: int| 0 <= k < steps.push(s).len() && (#[trigger] steps.push(s)[k]) is Everything {
        let k = choose|k: int|
            0 <= k < steps.push(s).len() && (#[trigger] steps.push(s)[k]) is Everything;
        if k < steps.len() {
            assert(steps[k] is Everything);
        }
    }
    if exists|k: int| 0 <= k < steps.len() && (#[trigger] steps[k]) is Everything {
        let k = choose|k: int| 0 <= k < steps.len() && (#[trigger] steps[k]) is Everything;
        assert(steps.push(s)[k] is Everything);
    }
    if s is Everything {
        assert(steps.push(s)[steps.len() as int] is Everything);
    }
}

/// Compiles a query, post-order, into a plan of named subsets.
#[derive(Debug)]
pub struct SearchQueryBuilder {
    /// The plan so far.
    pub steps: Vec<PlanStep>,
    /// The subsets materialized so far, in creation order.
    pub added_tables: Vec<String>,
    /// Whether the `everything` subset was materialized.
    pub has_everything: bool,
}

impl SearchQueryBuilder {
    /// Well-formedness while the plan is being built: the materialized
    /// names are exactly the plan's materializing steps, in order, and the
    /// `everything` flag says whether such a step exists. (`drop_tables`
    /// ends the plan and releases the names.)
    pub open spec fn wf(&self) -> bool {
        &&& defined_tables(self.steps@) == names_of(self.added_tables@)
        &&& (self.has_everything <==> exists|k: int|
            0 <= k < self.steps@.len() && (#[trigger] self.steps@[k]) is Everything)
    }

    /// An empty plan.
    pub fn new() -> (r: Self)
        ensures
            r.wf(),
            r.steps@.len() == 0,
            r.added_tables@.len() == 0,
            !r.has_everything,
    {
        let b = SearchQueryBuilder {
            steps: Vec::new(),
            added_tables: Vec::new(),
            has_everything: false,
        };
        proof {
            assert(defined_tables(b.steps@) =~= names_of(b.added_tables@));
        }
        b
    }

    /// Whether a subset with this name was already materialized.
    fn has_table(&self, name: &str) -> (r: bool)
        ensures
            r == has_name(self.added_tables@, name@),
    {
        let mut k: usize = 0;
        while k < self.added_tables.len()
            invariant
                0 <= k <= self.added_tables@.len(),
                forall|j: int| 0 <= j < k ==> (#[trigger] self.added_tables@[j])@ != name@,
            decreases self.added_tables@.len() - k,
        {
            if crate::catalog::str_eq(self.added_tables[k].as_str(), name) {
                return true;
            }
            k = k + 1;
        }
        false
    }

    /// Materialize the `everything` subset holding every work, the universe
    /// of the complement operation.
    pub fn push_everything(&mut self)
        requires
            old(self).wf(),
        ensures
            final(self).wf(),
            final(self).has_everything,
            final(self).steps@ == old(self).steps@.push(PlanStep::Everything),
            final(self).added_tables@.len() == old(self).added_tables@.len() + 1,
            final(self).added_tables@.last()@ == "everything"@,
            old(self).added_tables@.is_prefix_of(final(self).added_tables@),
            old(self).steps@.is_prefix_of(final(self).steps@),
            forall|n: Seq<char>|
                #[trigger] has_name(old(self).added_tables@, n) ==> has_name(
                    final(self).added_tables@,
                    n,
                ),
    {
        let ghost names0 = self.added_tables@;
        let ghost steps0 = self.steps@;
        let name = String::from_str("everything");
        proof {
            lemma_define_push(steps0, names0, PlanStep::Everything, name);
            lemma_everything_push(steps0, PlanStep::Everything);
        }
        self.steps.push(PlanStep::Everything);
        self.added_tables.push(name);
        self.has_everything = true;
        proof {
            lemma_prefix_push(names0, self.added_tables@);
            assert(steps0 =~= self.steps@.subrange(0, steps0.len() as int));
        }
    }

    /// Compile the query into the plan and return its subset's name. A
    /// subtree whose subset was already materialized is reused, not
    /// recompiled; a one-child `And`/`Or` passes its only child's subset
    /// through; otherwise the children are compiled first and one step
    /// materializing this subtree under its own name is appended.
    pub fn push_query_table(&mut self, query: &Query) -> (r: String)
        requires
            old(self).wf(),
        ensures
            final(self).wf(),
            r@ == spec_subset_name(query@),
            has_name(final(self).added_tables@, r@),
            old(self).added_tables@.is_prefix_of(final(self).added_tables@),
            old(self).steps@.is_prefix_of(final(self).steps@),
            forall|n: Seq<char>|
                #[trigger] has_name(old(self).added_tables@, n) ==> has_name(
                    final(self).added_tables@,
                    n,
                ),
            old(self).has_everything ==> final(self).has_everything,
            has_name(old(self).added_tables@, spec_subset_name(query@)) ==> *final(self)
                == *old(self),
            !has_name(old(self).added_tables@, spec_subset_name(query@)) && !is_singleton_group(
                query@,
            ) ==> final(self).steps@.len() > old(self).steps@.len() && step_defines(
                final(self).steps@.last(),
                query@,
            ) && final(self).added_tables@.len() > old(self).added_tables@.len()
                && final(self).added_tables@.last()@ == spec_table_name(query@),
            query@ is Not && !has_name(old(self).added_tables@, spec_subset_name(query@))
                ==> final(self).has_everything,
            query@ is Term && !has_name(old(self).added_tables@, spec_subset_name(query@))
                ==> final(self).steps@ == old(self).steps@.push(final(self).steps@.last())
                && final(self).added_tables@ == old(self).added_tables@.push(
                final(self).added_tables@.last(),
            ),
        decreases *query, 1int,
    {
        // A one-child group stands for its child: return the child's
        // subset without materializing one for the group.
        match query {
            Query::And(ts) => {
                if ts.len() == 1 {
                    proof {
                        lemma_query_views(ts@);
                        assert(decreases_to!(*ts => ts@[0]));
                        assert(query@ == QueryV::And(query_list_view(ts@, 0)));
                        assert(spec_subset_name(query@) == spec_subset_name(
                            crate::search::query_view(ts@[0]),
                        ));
                    }
                    return self.push_query_table(&ts[0]);
                }
            },
            Query::Or(ts) => {
                if ts.len() == 1 {
                    proof {
                        lemma_query_views(ts@);
                        assert(decreases_to!(*ts => ts@[0]));
                        assert(query@ == QueryV::Or(query_list_view(ts@, 0)));
                        assert(spec_subset_name(query@) == spec_subset_name(
                            crate::search::query_view(ts@[0]),
                        ));
                    }
                    return self.push_query_table(&ts[0]);
                }
            },
            _ => {},
        }
        proof {
            match query {
                Query::And(ts) => {
                    lemma_query_views(ts@);
                },
                Query::Or(ts) => {
                    lemma_query_views(ts@);
                },
                _ => {},
            }
            assert(!is_singleton_group(query@));
            assert(spec_subset_name(query@) == spec_table_name(query@));
        }
        let table_name = query.table_name();
        if self.has_table(table_name.as_str()) {
            return table_name;
        }
        let ghost names0 = self.added_tables@;
        match query {
            Query::Term(t) => {
                let ghost steps0 = self.steps@;
                let step = PlanStep::Scan { table: table_name.clone(), term: t.clone_term() };
                proof {
                    lemma_define_push(steps0, names0, step, table_name);
                    lemma_everything_push(steps0, step);
                }
                self.steps.push(step);
                self.added_tables.push(table_name.clone());
                proof {
                    lemma_prefix_push(names0, self.added_tables@);
                    assert(steps0 =~= self.steps@.subrange(0, steps0.len() as int));
                    assert(self.added_tables@[names0.len() as int]@ == table_name@);
                    assert(self.steps@ =~= steps0.push(self.steps@.last()));
                    assert(self.added_tables@ =~= names0.push(self.added_tables@.last()));
                    assert(step_defines(self.steps@.last(), query@));
                }
            },
            Query::Not(b) => {
                if !self.has_everything {
                    self.push_everything();
                }
                let ghost mid = *self;
                let child = self.push_query_table(&*b);
                let ghost mid2 = *self;
                let step = PlanStep::Complement { table: table_name.clone(), child };
                proof {
                    lemma_define_push(mid2.steps@, mid2.added_tables@, step, table_name);
                    lemma_everything_push(mid2.steps@, step);
                }
                self.steps.push(step);
                self.added_tables.push(table_name.clone());
                proof {
                    lemma_prefix_trans(names0, mid.added_tables@, mid2.added_tables@);
                    lemma_prefix_push(mid2.added_tables@, self.added_tables@);
                    lemma_prefix_trans(names0, mid2.added_tables@, self.added_tables@);
                    assert(mid2.steps@ =~= self.steps@.subrange(0, mid2.steps@.len() as int));
                    lemma_prefix_trans(old(self).steps@, mid2.steps@, self.steps@);
                    assert(self.added_tables@[mid2.added_tables@.len() as int]@ == table_name@);
                    assert(step_defines(self.steps@.last(), query@));
                    assert forall|n: Seq<char>|
                        #[trigger] has_name(names0, n) implies has_name(
                        self.added_tables@,
                        n,
                    ) by {
                        assert(has_name(mid2.added_tables@, n));
                        let k = choose|k: int|
                            0 <= k < mid2.added_tables@.len() && (
                            #[trigger] mid2.added_tables@[k])@ == n;
                        assert(self.added_tables@[k]@ == n);
                    }
                }
            },
            Query::And(ts) => {
                let children = self.push_children(ts, Ghost(*query));
                let ghost mid2 = *self;
                let ghost childrenv = children@;
                let step = PlanStep::Intersect { table: table_name.clone(), children };
                proof {
                    lemma_define_push(mid2.steps@, mid2.added_tables@, step, table_name);
                    lemma_everything_push(mid2.steps@, step);
                }
                self.steps.push(step);
                self.added_tables.push(table_name.clone());
                proof {
                    lemma_prefix_push(mid2.added_tables@, self.added_tables@);
                    lemma_prefix_trans(names0, mid2.added_tables@, self.added_tables@);
                    assert(mid2.steps@ =~= self.steps@.subrange(0, mid2.steps@.len() as int));
                    lemma_prefix_trans(old(self).steps@, mid2.steps@, self.steps@);
                    assert(self.added_tables@[mid2.added_tables@.len() as int]@ == table_name@);
                    assert(children_named(childrenv, query_list_view(ts@, 0)));
                    assert(step_defines(self.steps@.last(), query@));
                    assert forall|n: Seq<char>|
                        #[trigger] has_name(names0, n) implies has_name(
                        self.added_tables@,
                        n,
                    ) by {
                        assert(has_name(mid2.added_tables@, n));
                        let k = choose|k: int|
                            0 <= k < mid2.added_tables@.len() && (
                            #[trigger] mid2.added_tables@[k])@ == n;
                        assert(self.added_tables@[k]@ == n);
                    }
                }
            },
            Query::Or(ts) => {
                let children = self.push_children(ts, Ghost(*query));
                let ghost mid2 = *self;
                let ghost childrenv = children@;
                let step = PlanStep::Union { table: table_name.clone(), children };
                proof {
                    lemma_define_push(mid2.steps@, mid2.added_tables@, step, table_name);
                    lemma_everything_push(mid2.steps@, step);
                }
                self.steps.push(step);
                self.added_tables.push(table_name.clone());
                proof {
                    lemma_prefix_push(mid2.added_tables@, self.added_tables@);
                    lemma_prefix_trans(names0, mid2.added_tables@, self.added_tables@);
                    assert(mid2.steps@ =~= self.steps@.subrange(0, mid2.steps@.len() as int));
                    lemma_prefix_trans(old(self).steps@, mid2.steps@, self.steps@);
                    assert(self.added_tables@[mid2.added_tables@.len() as int]@ == table_name@);
                    assert(children_named(childrenv, query_list_view(ts@, 0)));
                    assert(step_defines(self.steps@.last(), query@));
                    assert forall|n: Seq<char>|
                        #[trigger] has_name(names0, n) implies has_name(
                        self.added_tables@,
                        n,
                    ) by {
                        assert(has_name(mid2.added_tables@, n));
                        let k = choose|k: int|
                            0 <= k < mid2.added_tables@.len() && (
                            #[trigger] mid2.added_tables@[k])@ == n;
                        assert(self.added_tables@[k]@ == n);
                    }
                }
            },
        }
        table_name
    }

    /// Compile every child, collecting the names of their subsets.
    fn push_children(&mut self, ts: &Vec<Query>, parent: Ghost<Query>) -> (r: Vec<String>)
        requires
            old(self).wf(),
            decreases_to!(parent@ => *ts),
        ensures
            final(self).wf(),
            old(self).added_tables@.is_prefix_of(final(self).added_tables@),
            old(self).steps@.is_prefix_of(final(self).steps@),
            forall|n: Seq<char>|
                #[trigger] has_name(old(self).added_tables@, n) ==> has_name(
                    final(self).added_tables@,
                    n,
                ),
            old(self).has_everything ==> final(self).has_everything,
            children_named(r@, query_list_view(ts@, 0)),
        decreases parent@, 0int,
    {
        let ghost vs = query_list_view(ts@, 0);
        proof {
            lemma_query_views(ts@);
        }
        let mut names: Vec<String> = Vec::new();
        let mut i: usize = 0;
        while i < ts.len()
            invariant
                self.wf(),
                0 <= i <= ts@.len(),
                vs == query_list_view(ts@, 0),
                vs.len() == ts@.len(),
                forall|k: int| 0 <= k < ts@.len() ==> vs[k] == crate::search::query_view(
                    #[trigger] ts@[k],
                ),
                old(self).added_tables@.is_prefix_of(self.added_tables@),
                old(self).steps@.is_prefix_of(self.steps@),
                forall|n: Seq<char>|
                    #[trigger] has_name(old(self).added_tables@, n) ==> has_name(
                        self.added_tables@,
                        n,
                    ),
                old(self).has_everything ==> self.has_everything,
                names@.len() == i,
                forall|k: int|
                    0 <= k < i ==> (#[trigger] names@[k])@ == spec_subset_name(vs[k]),
                decreases_to!(parent@ => *ts),
            decreases ts@.len() - i,
        {
            proof {
                assert(decreases_to!(*ts => ts@[i as int]));
            }
            let ghost mid = *self;
            let name = self.push_query_table(&ts[i]);
            names.push(name);
            proof {
                lemma_prefix_trans(
                    old(self).added_tables@,
                    mid.added_tables@,
                    self.added_tables@,
                );
                lemma_prefix_trans(old(self).steps@, mid.steps@, self.steps@);
            }
            i = i + 1;
        }
        names
    }

    /// Release every subset the compilation created, appending one drop
    /// step per materialized name, in creation order. This ends the plan.
    pub fn drop_tables(&mut self)
        ensures
            old(self).steps@.is_prefix_of(final(self).steps@),
            final(self).steps@.len() == old(self).steps@.len()
                + old(self).added_tables@.len(),
            forall|k: int|
                0 <= k < old(self).added_tables@.len() ==> final(self).steps@[old(self).steps@.len()
                    + k] == (PlanStep::Drop { table: old(self).added_tables@[k] }),
            final(self).added_tables@.len() == 0,
    {
        let ghost names = self.added_tables@;
        let ghost steps0 = self.steps@;
        let mut rest = std_mem_take(&mut self.added_tables);
        let mut k: usize = 0;
        while k < rest.len()
            invariant
                0 <= k <= rest@.len(),
                rest@ == names,
                self.steps@.len() == steps0.len() + k,
                steps0.is_prefix_of(self.steps@),
                forall|j: int|
                    0 <= j < k ==> self.steps@[steps0.len() + j] == (PlanStep::Drop {
                        table: names[j],
                    }),
                self.added_tables@.len() == 0,
            decreases rest@.len() - k,
        {
            let ghost before = self.steps@;
            self.steps.push(PlanStep::Drop { table: rest[k].clone() });
            proof {
                assert(steps0 =~= self.steps@.subrange(0, steps0.len() as int));
            }
            k = k + 1;
        }
    }
}

/// Relies on core::mem::take: the vector is moved out and an empty one
/// left in its place.
#[verifier::external_body]
fn std_mem_take(v: &mut Vec<String>) -> (r: Vec<String>)
    ensures
        r@ == old(v)@,
        final(v)@.len() == 0,
{
    core::mem::take(v)
}

/// A prefix extended by one element is still an extension.
proof fn lemma_prefix_push<T>(a: Seq<T>, b: Seq<T>)
    requires
        b.len() == a.len() + 1,
        forall|k: int| 0 <= k < a.len() ==> a[k] == b[k],
    ensures
        a.is_prefix_of(b),
{
    assert(a =~= b.subrange(0, a.len() as int));
}

/// Prefix order is transitive.
proof fn lemma_prefix_trans<T>(a: Seq<T>, b: Seq<T>, c: Seq<T>)
    requires
        a.is_prefix_of(b),
        b.is_prefix_of(c),
    ensures
        a.is_prefix_of(c),
{
    assert(a =~= c.subrange(0, a.len() as int));
}

} // verus!

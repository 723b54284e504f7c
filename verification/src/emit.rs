use vstd::prelude::*;

use crate::model::{DefView, OccRange, OccView, Occurrence, RefView, ROLE_DEFINITION};
use crate::scope::{scope_defines, Scope, ScopeView};
use crate::sort::{
    ins_def, ins_scope_start, sort_defs, sort_scopes_start, stabilize_kids, stabilize_v,
};
use crate::symbol::local_symbol;

verus! {

pub open spec fn occ_views(os: Seq<Occurrence>) -> Seq<OccView> {
    os.map_values(|o: Occurrence| o@)
}

/// The occurrence emitted for a definition: the definition role bit is set.
pub open spec fn def_occ(d: DefView, sym: Seq<char>) -> OccView {
    OccView { range: OccRange::spec_of_node(d.node), symbol: sym, symbol_roles: ROLE_DEFINITION }
}

/// The occurrence emitted for a reference: no role bits.
pub open spec fn ref_occ(f: RefView, sym: Seq<char>) -> OccView {
    OccView { range: OccRange::spec_of_node(f.node), symbol: sym, symbol_roles: 0 }
}

/// The occurrences for every reference in `rs` whose identifier is `ident`,
/// in order, all bearing `sym`.
pub open spec fn refs_matching(rs: Seq<RefView>, ident: Seq<char>, sym: Seq<char>) -> Seq<OccView>
    decreases rs,
{
    if rs.len() == 0 {
        Seq::empty()
    } else {
        refs_matching(rs.drop_last(), ident, sym) + (if rs.last().identifier == ident {
            seq![ref_occ(rs.last(), sym)]
        } else {
            Seq::empty()
        })
    }
}

/// What a definition of `ident` bound outside this scope collects from it:
/// nothing at all when the scope defines `ident` itself (the shadowing
/// rule, per identifier), and otherwise the scope's matching references
/// followed by what its children contribute.
pub open spec fn emit_for_child(c: ScopeView, ident: Seq<char>, sym: Seq<char>) -> Seq<OccView>
    decreases c,
{
    if scope_defines(c, ident) {
        Seq::empty()
    } else {
        refs_matching(c.references, ident, sym) + emit_for_children(c.children, ident, sym)
    }
}

pub open spec fn emit_for_children(cs: Seq<ScopeView>, ident: Seq<char>, sym: Seq<char>) -> Seq<
    OccView,
>
    decreases cs,
{
    if cs.len() == 0 {
        Seq::empty()
    } else {
        emit_for_children(cs.drop_last(), ident, sym) + emit_for_child(cs.last(), ident, sym)
    }
}

/// The number of definitions in the whole tree; the emission counter
/// advances by exactly this much over a scope.
pub open spec fn def_count(t: ScopeView) -> nat
    decreases t,
{
    t.definitions.len() + def_count_kids(t.children)
}

pub open spec fn def_count_kids(cs: Seq<ScopeView>) -> nat
    decreases cs,
{
    if cs.len() == 0 {
        0
    } else {
        def_count_kids(cs.drop_last()) + def_count(cs.last())
    }
}

/// Everything emitted for one definition: its own occurrence under the
/// freshly minted symbol, the matching references of its own scope, and the
/// matching references of every descendant scope in which the identifier is
/// not shadowed.
pub open spec fn def_block(t: ScopeView, d: DefView, id: nat) -> Seq<OccView> {
    seq![def_occ(d, local_symbol(id))] + refs_matching(
        t.references,
        d.identifier,
        local_symbol(id),
    ) + emit_for_children(t.children, d.identifier, local_symbol(id))
}

/// The blocks of the definitions `ds` of scope `t`, in order; the k-th
/// definition gets symbol id `base + k + 1`.
pub open spec fn emit_defs(t: ScopeView, ds: Seq<DefView>, base: nat) -> Seq<OccView>
    decreases ds,
{
    if ds.len() == 0 {
        Seq::empty()
    } else {
        emit_defs(t, ds.drop_last(), base) + def_block(t, ds.last(), base + ds.len())
    }
}

/// The full pre-order emission of a stabilized scope: first the blocks of
/// its own definitions, then each child's emission in turn, the counter
/// threading through.
pub open spec fn emit_scope(t: ScopeView, base: nat) -> Seq<OccView>
    decreases t, 1int,
{
    emit_defs(t, t.definitions, base) + emit_kids(t.children, base + t.definitions.len())
}

pub open spec fn emit_kids(cs: Seq<ScopeView>, base: nat) -> Seq<OccView>
    decreases cs, 0int,
{
    if cs.len() == 0 {
        Seq::empty()
    } else {
        emit_kids(cs.drop_last(), base) + emit_scope(
            cs.last(),
            base + def_count_kids(cs.drop_last()),
        )
    }
}

/// The occurrence list of a built tree: stabilize, then walk with the
/// counter starting at zero.
pub open spec fn into_occurrences_v(t: ScopeView) -> Seq<OccView> {
    emit_scope(stabilize_v(t), 0)
}

pub proof fn lemma_def_count_kids_split(cs: Seq<ScopeView>, i: int)
    requires
        0 <= i <= cs.len(),
    ensures
        def_count_kids(cs) == def_count_kids(cs.take(i)) + def_count_kids(cs.skip(i)),
    decreases cs.len(),
{
    if cs.len() == 0 {
        assert(cs.take(i) =~= cs);
        assert(cs.skip(i) =~= Seq::empty());
    } else if i == cs.len() {
        assert(cs.take(i) =~= cs);
        assert(cs.skip(i) =~= Seq::empty());
    } else {
        let q = cs.drop_last();
        lemma_def_count_kids_split(q, i);
        assert(q.take(i) =~= cs.take(i));
        assert(q.skip(i) =~= cs.skip(i).drop_last());
        assert(cs.skip(i).last() == cs.last());
        assert(cs.skip(i).len() > 0);
    }
}

pub proof fn lemma_def_count_kids_step(cs: Seq<ScopeView>, i: int)
    requires
        0 <= i < cs.len(),
    ensures
        def_count_kids(cs.take(i + 1)) == def_count_kids(cs.take(i)) + def_count(cs[i]),
        def_count_kids(cs.take(i)) + def_count(cs[i]) <= def_count_kids(cs),
{
    assert(cs.take(i + 1).drop_last() =~= cs.take(i));
    assert(cs.take(i + 1).last() == cs[i]);
    lemma_def_count_kids_split(cs, i + 1);
}

impl Scope {
    /// Whether this scope itself defines `ident`.
    fn defines_ident(&self, ident: &String) -> (r: bool)
        ensures
            r == scope_defines(self@, ident@),
    {
        let f = self.find_def_named(ident);
        proof {
            crate::scope::lemma_first_def_named(self@.definitions, ident@);
            if f < self.definitions.len() {
                assert(scope_defines(self@, ident@));
            } else {
                assert forall|j: int| 0 <= j < self@.definitions.len() implies (
                #[trigger] self@.definitions[j].identifier) != ident@ by {}
            }
        }
        f < self.definitions.len()
    }

    /// Append the occurrences of this scope's references whose identifier
    /// is `ident`, in stored order, all bearing `symbol`.
    fn emit_matching_refs(&self, ident: &String, symbol: &str, occurrences: &mut Vec<Occurrence>)
        ensures
            occ_views(final(occurrences)@) == occ_views(old(occurrences)@) + refs_matching(
                self@.references,
                ident@,
                symbol@,
            ),
    {
        let ghost o0 = occurrences@;
        let ghost rv = self@.references;
        let mut i: usize = 0;
        while i < self.references.len()
            invariant
                0 <= i <= self.references.len(),
                rv == self@.references,
                rv.len() == self.references.len(),
                occ_views(occurrences@) == occ_views(o0) + refs_matching(
                    rv.take(i as int),
                    ident@,
                    symbol@,
                ),
            decreases self.references.len() - i,
        {
            let ghost before = occurrences@;
            let matches_ident = self.references[i].identifier == *ident;
            if matches_ident {
                let occ = Occurrence {
                    range: OccRange::of_node(&self.references[i].node),
                    symbol: symbol.to_owned(),
                    symbol_roles: 0,
                };
                occurrences.push(occ);
            }
            proof {
                let q = rv.take(i as int);
                let q2 = rv.take(i + 1);
                assert(q2.drop_last() =~= q);
                assert(q2.last() == rv[i as int]);
                if matches_ident {
                    assert(occ_views(occurrences@) =~= occ_views(before) + seq![
                        ref_occ(rv[i as int], symbol@),
                    ]);
                } else {
                    assert(occ_views(occurrences@) =~= occ_views(before));
                }
                assert(occ_views(occurrences@) =~= occ_views(o0) + refs_matching(
                    q2,
                    ident@,
                    symbol@,
                ));
            }
            i = i + 1;
        }
        proof {
            assert(rv.take(rv.len() as int) =~= rv);
        }
    }

    /// What an outer definition collects from this scope and its
    /// descendants: nothing when this scope shadows the identifier, and
    /// otherwise the matching references here and below.
    pub fn occurrences_for_children(
        &self,
        def: &crate::model::Definition,
        symbol: &str,
        occurrences: &mut Vec<Occurrence>,
    )
        ensures
            occ_views(final(occurrences)@) == occ_views(old(occurrences)@) + emit_for_child(
                self@,
                def@.identifier,
                symbol@,
            ),
        decreases *self,
    {
        let ghost o0 = occurrences@;
        if self.defines_ident(&def.identifier) {
            proof {
                assert(occ_views(occurrences@) =~= occ_views(o0) + emit_for_child(
                    self@,
                    def@.identifier,
                    symbol@,
                ));
            }
            return ;
        }
        self.emit_matching_refs(&def.identifier, symbol, occurrences);
        let ghost o1 = occurrences@;
        let ghost cs = self@.children;
        proof {
            crate::scope::lemma_scope_views(self.children@);
        }
        let mut j: usize = 0;
        while j < self.children.len()
            invariant
                0 <= j <= self.children.len(),
                cs == self@.children,
                cs.len() == self.children.len(),
                forall|k: int| 0 <= k < cs.len() ==> cs[k] == #[trigger] self.children@[k].sview(),
                occ_views(occurrences@) == occ_views(o1) + emit_for_children(
                    cs.take(j as int),
                    def@.identifier,
                    symbol@,
                ),
            decreases self.children.len() - j,
        {
            let ghost before = occurrences@;
            proof {
                assert(decreases_to!(*self => self.children@[j as int]));
            }
            self.children[j].occurrences_for_children(def, symbol, occurrences);
            proof {
                let q = cs.take(j as int);
                let q2 = cs.take(j + 1);
                assert(q2.drop_last() =~= q);
                assert(q2.last() == cs[j as int]);
                assert(self.children@[j as int]@ == cs[j as int]);
                assert(occ_views(occurrences@) =~= occ_views(o1) + emit_for_children(
                    q2,
                    def@.identifier,
                    symbol@,
                ));
            }
            j = j + 1;
        }
        proof {
            assert(cs.take(cs.len() as int) =~= cs);
            assert(occ_views(occurrences@) =~= occ_views(o0) + emit_for_child(
                self@,
                def@.identifier,
                symbol@,
            ));
        }
    }

    /// The fan-out of one definition over every child scope.
    fn emit_def_fanout(
        &self,
        def: &crate::model::Definition,
        symbol: &str,
        occurrences: &mut Vec<Occurrence>,
    )
        ensures
            occ_views(final(occurrences)@) == occ_views(old(occurrences)@) + emit_for_children(
                self@.children,
                def@.identifier,
                symbol@,
            ),
    {
        let ghost o0 = occurrences@;
        let ghost cs = self@.children;
        proof {
            crate::scope::lemma_scope_views(self.children@);
        }
        let mut j: usize = 0;
        while j < self.children.len()
            invariant
                0 <= j <= self.children.len(),
                cs == self@.children,
                cs.len() == self.children.len(),
                forall|k: int| 0 <= k < cs.len() ==> cs[k] == #[trigger] self.children@[k].sview(),
                occ_views(occurrences@) == occ_views(o0) + emit_for_children(
                    cs.take(j as int),
                    def@.identifier,
                    symbol@,
                ),
            decreases self.children.len() - j,
        {
            self.children[j].occurrences_for_children(def, symbol, occurrences);
            proof {
                let q = cs.take(j as int);
                let q2 = cs.take(j + 1);
                assert(q2.drop_last() =~= q);
                assert(q2.last() == cs[j as int]);
                assert(self.children@[j as int]@ == cs[j as int]);
                assert(occ_views(occurrences@) =~= occ_views(o0) + emit_for_children(
                    q2,
                    def@.identifier,
                    symbol@,
                ));
            }
            j = j + 1;
        }
        proof {
            assert(cs.take(cs.len() as int) =~= cs);
        }
    }

    /// The emission walk over an already stabilized tree: mint a fresh
    /// symbol for every definition in order, emit its block, then recurse
    /// into the children with the counter carried along.
    pub fn rec_into_occurrences(&self, id: &mut usize, occurrences: &mut Vec<Occurrence>)
        requires
            *old(id) + def_count(self@) <= usize::MAX,
        ensures
            occ_views(final(occurrences)@) == occ_views(old(occurrences)@) + emit_scope(
                self@,
                *old(id) as nat,
            ),
            *final(id) == *old(id) + def_count(self@),
        decreases *self,
    {
        let ghost o0 = occurrences@;
        let ghost base: nat = *old(id) as nat;
        let ghost dv = self@.definitions;
        let ghost t = self@;
        let mut i: usize = 0;
        while i < self.definitions.len()
            invariant
                0 <= i <= self.definitions.len(),
                dv == self@.definitions,
                t == self@,
                dv.len() == self.definitions.len(),
                *id == base + i,
                base + def_count(self@) <= usize::MAX,
                def_count(self@) >= self.definitions.len(),
                occ_views(occurrences@) == occ_views(o0) + emit_defs(t, dv.take(i as int), base),
            decreases self.definitions.len() - i,
        {
            let ghost before = occurrences@;
            *id += 1;
            let symbol = crate::symbol::format_local(*id);
            let occ = Occurrence {
                range: OccRange::of_node(&self.definitions[i].node),
                symbol: symbol.clone(),
                symbol_roles: ROLE_DEFINITION,
            };
            occurrences.push(occ);
            proof {
                assert(symbol@ == local_symbol((base + i + 1) as nat));
                assert(occ_views(occurrences@) =~= occ_views(before) + seq![
                    def_occ(dv[i as int], local_symbol((base + i + 1) as nat)),
                ]);
            }
            self.emit_matching_refs(&self.definitions[i].identifier, symbol.as_str(), occurrences);
            self.emit_def_fanout(&self.definitions[i], symbol.as_str(), occurrences);
            proof {
                let q = dv.take(i as int);
                let q2 = dv.take(i + 1);
                assert(q2.drop_last() =~= q);
                assert(q2.last() == dv[i as int]);
                assert(q2.len() == i + 1);
                assert(occ_views(occurrences@) =~= occ_views(o0) + emit_defs(t, q2, base));
            }
            i = i + 1;
        }
        proof {
            assert(dv.take(dv.len() as int) =~= dv);
        }
        let ghost o2 = occurrences@;
        let ghost base2: nat = base + dv.len();
        let ghost cs = self@.children;
        proof {
            crate::scope::lemma_scope_views(self.children@);
        }
        let mut j: usize = 0;
        while j < self.children.len()
            invariant
                0 <= j <= self.children.len(),
                cs == self@.children,
                t == self@,
                dv == self@.definitions,
                base2 == base + dv.len(),
                cs.len() == self.children.len(),
                forall|k: int| 0 <= k < cs.len() ==> cs[k] == #[trigger] self.children@[k].sview(),
                *id == base2 + def_count_kids(cs.take(j as int)),
                base + def_count(self@) <= usize::MAX,
                def_count(self@) == dv.len() + def_count_kids(cs),
                occ_views(occurrences@) == occ_views(o2) + emit_kids(cs.take(j as int), base2),
            decreases self.children.len() - j,
        {
            proof {
                lemma_def_count_kids_step(cs, j as int);
                assert(decreases_to!(*self => self.children@[j as int]));
                assert(self.children@[j as int]@ == cs[j as int]);
            }
            self.children[j].rec_into_occurrences(id, occurrences);
            proof {
                let q = cs.take(j as int);
                let q2 = cs.take(j + 1);
                assert(q2.drop_last() =~= q);
                assert(q2.last() == cs[j as int]);
                assert(occ_views(occurrences@) =~= occ_views(o2) + emit_kids(q2, base2));
            }
            j = j + 1;
        }
        proof {
            assert(cs.take(cs.len() as int) =~= cs);
            assert(occ_views(occurrences@) =~= occ_views(o0) + emit_scope(t, base));
        }
    }
}

pub proof fn lemma_ins_def_len(sorted: Seq<DefView>, d: DefView)
    ensures
        ins_def(sorted, d).len() == sorted.len() + 1,
    decreases sorted,
{
    if sorted.len() > 0 && sorted[0].node.start_byte <= d.node.start_byte {
        lemma_ins_def_len(sorted.drop_first(), d);
    }
}

pub proof fn lemma_sort_defs_len(ds: Seq<DefView>)
    ensures
        sort_defs(ds).len() == ds.len(),
    decreases ds,
{
    if ds.len() > 0 {
        lemma_sort_defs_len(ds.drop_last());
        lemma_ins_def_len(sort_defs(ds.drop_last()), ds.last());
    }
}

pub proof fn lemma_def_count_kids_cons(x: ScopeView, q: Seq<ScopeView>)
    ensures
        def_count_kids(seq![x] + q) == def_count(x) + def_count_kids(q),
    decreases q,
{
    let c = seq![x] + q;
    if q.len() == 0 {
        assert(c =~= seq![x]);
        assert(c.len() == 1);
        assert(c.drop_last() =~= Seq::<ScopeView>::empty());
        assert(c.last() == x);
        assert(def_count_kids(Seq::<ScopeView>::empty()) == 0);
        assert(def_count_kids(c) == def_count_kids(c.drop_last()) + def_count(c.last()));
    } else {
        assert(c.drop_last() =~= seq![x] + q.drop_last());
        assert(c.last() == q.last());
        lemma_def_count_kids_cons(x, q.drop_last());
        assert(def_count_kids(c) == def_count_kids(c.drop_last()) + def_count(c.last()));
    }
}

pub proof fn lemma_def_count_ins_scope_start(q: Seq<ScopeView>, s: ScopeView)
    ensures
        def_count_kids(ins_scope_start(q, s)) == def_count_kids(q) + def_count(s),
    decreases q,
{
    if q.len() == 0 {
        let c = ins_scope_start(q, s);
        assert(c =~= seq![s]);
        assert(c.len() == 1);
        assert(c.drop_last() =~= Seq::<ScopeView>::empty());
        assert(c.last() == s);
        assert(def_count_kids(Seq::<ScopeView>::empty()) == 0);
        assert(def_count_kids(c) == def_count_kids(c.drop_last()) + def_count(c.last()));
    } else if q[0].range.start <= s.range.start {
        lemma_def_count_ins_scope_start(q.drop_first(), s);
        lemma_def_count_kids_cons(q[0], ins_scope_start(q.drop_first(), s));
        lemma_def_count_kids_cons(q[0], q.drop_first());
        assert(seq![q[0]] + q.drop_first() =~= q);
    } else {
        lemma_def_count_kids_cons(s, q);
    }
}

pub proof fn lemma_def_count_sort_scopes_start(cs: Seq<ScopeView>)
    ensures
        def_count_kids(sort_scopes_start(cs)) == def_count_kids(cs),
    decreases cs,
{
    if cs.len() > 0 {
        lemma_def_count_sort_scopes_start(cs.drop_last());
        lemma_def_count_ins_scope_start(sort_scopes_start(cs.drop_last()), cs.last());
    }
}

/// Stabilization reorders the tree but never adds or removes a definition.
pub proof fn lemma_def_count_stabilize(t: ScopeView)
    ensures
        def_count(stabilize_v(t)) == def_count(t),
    decreases t, 1int,
{
    lemma_sort_defs_len(t.definitions);
    lemma_def_count_sort_scopes_start(stabilize_kids(t.children));
    lemma_def_count_stabilize_kids(t.children);
}

pub proof fn lemma_def_count_stabilize_kids(cs: Seq<ScopeView>)
    ensures
        def_count_kids(stabilize_kids(cs)) == def_count_kids(cs),
    decreases cs, 0int,
{
    if cs.len() > 0 {
        lemma_def_count_stabilize_kids(cs.drop_last());
        lemma_def_count_stabilize(cs.last());
        let q = stabilize_kids(cs.drop_last());
        let x = stabilize_v(cs.last());
        assert(stabilize_kids(cs) == q.push(x));
        assert(q.push(x).drop_last() =~= q);
        assert(q.push(x).last() == x);
        assert(def_count_kids(q.push(x)) == def_count_kids(q) + def_count(x));
    }
}

impl Scope {
    /// Emit the whole tree: stabilize it, then walk it in pre-order,
    /// minting the local symbols from one upward. `hint` only sizes the
    /// output buffer.
    pub fn into_occurrences(self, hint: usize) -> (r: Vec<Occurrence>)
        requires
            def_count(self@) <= usize::MAX,
        ensures
            occ_views(r@) == into_occurrences_v(self@),
    {
        proof {
            lemma_def_count_stabilize(self@);
        }
        let t = self.stabilize();
        let mut occurrences: Vec<Occurrence> = Vec::with_capacity(hint);
        let mut id: usize = 0;
        t.rec_into_occurrences(&mut id, &mut occurrences);
        proof {
            assert(occ_views(Seq::<Occurrence>::empty()) =~= Seq::<OccView>::empty());
            assert(occ_views(occurrences@) =~= into_occurrences_v(self@));
        }
        occurrences
    }
}

} // verus!

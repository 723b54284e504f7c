use vstd::prelude::*;

use crate::model::{DefView, Definition, RefView, Reference};
use crate::scope::{
    def_views, lemma_scope_views, ref_views, scope_views, Scope, ScopeView,
};

verus! {

// Stable insertion sorts, one per ordering the emission walk needs. Each
// exec sort mirrors its spec function step for step, so the contract is the
// spec function itself. Equal keys keep their earlier order: an element is
// inserted after every element whose key is less than or equal to its own.
/// Insert a definition into a run sorted by node start byte ascending.
pub open spec fn ins_def(sorted: Seq<DefView>, d: DefView) -> Seq<DefView>
    decreases sorted,
{
    if sorted.len() == 0 {
        seq![d]
    } else if sorted[0].node.start_byte <= d.node.start_byte {
        seq![sorted[0]] + ins_def(sorted.drop_first(), d)
    } else {
        seq![d] + sorted
    }
}

pub open spec fn sort_defs(ds: Seq<DefView>) -> Seq<DefView>
    decreases ds,
{
    if ds.len() == 0 {
        Seq::empty()
    } else {
        ins_def(sort_defs(ds.drop_last()), ds.last())
    }
}

/// Insert a reference into a run sorted by node start byte ascending.
pub open spec fn ins_ref(sorted: Seq<RefView>, f: RefView) -> Seq<RefView>
    decreases sorted,
{
    if sorted.len() == 0 {
        seq![f]
    } else if sorted[0].node.start_byte <= f.node.start_byte {
        seq![sorted[0]] + ins_ref(sorted.drop_first(), f)
    } else {
        seq![f] + sorted
    }
}

pub open spec fn sort_refs(rs: Seq<RefView>) -> Seq<RefView>
    decreases rs,
{
    if rs.len() == 0 {
        Seq::empty()
    } else {
        ins_ref(sort_refs(rs.drop_last()), rs.last())
    }
}

/// Insert a scope into a run sorted by range start byte ascending.
pub open spec fn ins_scope_start(sorted: Seq<ScopeView>, s: ScopeView) -> Seq<ScopeView>
    decreases sorted,
{
    if sorted.len() == 0 {
        seq![s]
    } else if sorted[0].range.start <= s.range.start {
        seq![sorted[0]] + ins_scope_start(sorted.drop_first(), s)
    } else {
        seq![s] + sorted
    }
}

pub open spec fn sort_scopes_start(cs: Seq<ScopeView>) -> Seq<ScopeView>
    decreases cs,
{
    if cs.len() == 0 {
        Seq::empty()
    } else {
        ins_scope_start(sort_scopes_start(cs.drop_last()), cs.last())
    }
}

/// Whether `a` sorts before `b` (or ties with it) in the insertion order of
/// collected scopes: wider ranges first, and at equal width the earlier
/// start first. Inserting wider scopes first makes every enclosing scope
/// reach the tree before the scopes it contains.
pub open spec fn size_precedes(a: ScopeView, b: ScopeView) -> bool {
    a.range.spec_width() > b.range.spec_width() || (a.range.spec_width() == b.range.spec_width()
        && a.range.start <= b.range.start)
}

/// Insert a scope into a run sorted widest first.
pub open spec fn ins_scope_size(sorted: Seq<ScopeView>, s: ScopeView) -> Seq<ScopeView>
    decreases sorted,
{
    if sorted.len() == 0 {
        seq![s]
    } else if size_precedes(sorted[0], s) {
        seq![sorted[0]] + ins_scope_size(sorted.drop_first(), s)
    } else {
        seq![s] + sorted
    }
}

pub open spec fn sort_scopes_size(cs: Seq<ScopeView>) -> Seq<ScopeView>
    decreases cs,
{
    if cs.len() == 0 {
        Seq::empty()
    } else {
        ins_scope_size(sort_scopes_size(cs.drop_last()), cs.last())
    }
}

fn ins_def_exec(sorted: Vec<Definition>, d: Definition) -> (r: Vec<Definition>)
    ensures
        def_views(r@) == ins_def(def_views(sorted@), d@),
    decreases sorted@.len(),
{
    let mut this = sorted;
    let ghost s0 = def_views(this@);
    if this.len() == 0 {
        this.push(d);
        proof {
            assert(def_views(this@) =~= ins_def(s0, d@));
        }
        this
    } else if this[0].node.start_byte <= d.node.start_byte {
        let head = this.remove(0);
        let ghost tail = def_views(this@);
        proof {
            assert(tail =~= s0.drop_first());
        }
        let mut rest = ins_def_exec(this, d);
        rest.insert(0, head);
        proof {
            assert(def_views(rest@) =~= seq![s0[0]] + ins_def(s0.drop_first(), d@));
        }
        rest
    } else {
        this.insert(0, d);
        proof {
            assert(def_views(this@) =~= seq![d@] + s0);
        }
        this
    }
}

pub fn sort_defs_exec(ds: Vec<Definition>) -> (r: Vec<Definition>)
    ensures
        def_views(r@) == sort_defs(def_views(ds@)),
    decreases ds@.len(),
{
    let mut this = ds;
    let ghost s0 = def_views(this@);
    if this.len() == 0 {
        proof {
            assert(def_views(this@) =~= sort_defs(s0));
        }
        this
    } else {
        let d = this.pop().unwrap();
        proof {
            assert(def_views(this@) =~= s0.drop_last());
            assert(d@ == s0.last());
        }
        let sorted = sort_defs_exec(this);
        ins_def_exec(sorted, d)
    }
}

fn ins_ref_exec(sorted: Vec<Reference>, f: Reference) -> (r: Vec<Reference>)
    ensures
        ref_views(r@) == ins_ref(ref_views(sorted@), f@),
    decreases sorted@.len(),
{
    let mut this = sorted;
    let ghost s0 = ref_views(this@);
    if this.len() == 0 {
        this.push(f);
        proof {
            assert(ref_views(this@) =~= ins_ref(s0, f@));
        }
        this
    } else if this[0].node.start_byte <= f.node.start_byte {
        let head = this.remove(0);
        let ghost tail = ref_views(this@);
        proof {
            assert(tail =~= s0.drop_first());
        }
        let mut rest = ins_ref_exec(this, f);
        rest.insert(0, head);
        proof {
            assert(ref_views(rest@) =~= seq![s0[0]] + ins_ref(s0.drop_first(), f@));
        }
        rest
    } else {
        this.insert(0, f);
        proof {
            assert(ref_views(this@) =~= seq![f@] + s0);
        }
        this
    }
}

pub fn sort_refs_exec(rs: Vec<Reference>) -> (r: Vec<Reference>)
    ensures
        ref_views(r@) == sort_refs(ref_views(rs@)),
    decreases rs@.len(),
{
    let mut this = rs;
    let ghost s0 = ref_views(this@);
    if this.len() == 0 {
        proof {
            assert(ref_views(this@) =~= sort_refs(s0));
        }
        this
    } else {
        let f = this.pop().unwrap();
        proof {
            assert(ref_views(this@) =~= s0.drop_last());
            assert(f@ == s0.last());
        }
        let sorted = sort_refs_exec(this);
        ins_ref_exec(sorted, f)
    }
}

pub proof fn lemma_scope_views_drop_first(v: Seq<Scope>)
    requires
        v.len() > 0,
    ensures
        scope_views(v.drop_first()) =~= scope_views(v).drop_first(),
{
    lemma_scope_views(v);
    lemma_scope_views(v.drop_first());
    assert forall|j: int| 0 <= j < v.len() - 1 implies scope_views(v.drop_first())[j]
        == scope_views(v).drop_first()[j] by {
        assert(scope_views(v.drop_first())[j] == v.drop_first()[j].sview());
        assert(v.drop_first()[j] == v[j + 1]);
        assert(scope_views(v)[j + 1] == v[j + 1].sview());
    }
}

pub proof fn lemma_scope_views_drop_last(v: Seq<Scope>)
    requires
        v.len() > 0,
    ensures
        scope_views(v.drop_last()) =~= scope_views(v).drop_last(),
{
    assert(scope_views(v) == scope_views(v.drop_last()).push(v.last().sview()));
    lemma_scope_views(v.drop_last());
}

pub proof fn lemma_scope_views_insert0(v: Seq<Scope>, x: Scope)
    ensures
        scope_views(v.insert(0, x)) =~= seq![x.sview()] + scope_views(v),
{
    lemma_scope_views(v);
    lemma_scope_views(v.insert(0, x));
    assert forall|j: int| 0 <= j < v.len() + 1 implies scope_views(v.insert(0, x))[j] == (seq![
        x.sview(),
    ] + scope_views(v))[j] by {
        assert(scope_views(v.insert(0, x))[j] == v.insert(0, x)[j].sview());
        if j == 0 {
            assert(v.insert(0, x)[0] == x);
        } else {
            assert(v.insert(0, x)[j] == v[j - 1]);
            assert(scope_views(v)[j - 1] == v[j - 1].sview());
        }
    }
}

fn ins_scope_start_exec(sorted: Vec<Scope>, s: Scope) -> (r: Vec<Scope>)
    ensures
        scope_views(r@) == ins_scope_start(scope_views(sorted@), s@),
    decreases sorted@.len(),
{
    let mut this = sorted;
    let ghost v0 = this@;
    let ghost s0 = scope_views(v0);
    proof {
        lemma_scope_views(v0);
    }
    if this.len() == 0 {
        this.push(s);
        proof {
            crate::scope::lemma_scope_views_push(v0, s);
            assert(scope_views(this@) =~= ins_scope_start(s0, s@));
        }
        this
    } else if this[0].range.start <= s.range.start {
        proof {
            assert(s0[0] == v0[0].sview());
        }
        let head = this.remove(0);
        proof {
            assert(this@ =~= v0.drop_first());
            lemma_scope_views_drop_first(v0);
        }
        let mut rest = ins_scope_start_exec(this, s);
        let ghost mid = rest@;
        rest.insert(0, head);
        proof {
            assert(rest@ =~= mid.insert(0, head));
            lemma_scope_views_insert0(mid, head);
            assert(head.sview() == s0[0]);
            assert(scope_views(rest@) =~= seq![s0[0]] + ins_scope_start(s0.drop_first(), s@));
        }
        rest
    } else {
        let ghost v1 = this@;
        this.insert(0, s);
        proof {
            assert(this@ =~= v1.insert(0, s));
            lemma_scope_views_insert0(v1, s);
            assert(scope_views(this@) =~= seq![s@] + s0);
        }
        this
    }
}

pub fn sort_scopes_start_exec(cs: Vec<Scope>) -> (r: Vec<Scope>)
    ensures
        scope_views(r@) == sort_scopes_start(scope_views(cs@)),
    decreases cs@.len(),
{
    let mut this = cs;
    let ghost s0 = scope_views(this@);
    proof {
        lemma_scope_views(this@);
    }
    if this.len() == 0 {
        proof {
            assert(scope_views(this@) =~= sort_scopes_start(s0));
        }
        this
    } else {
        let ghost v0 = this@;
        let s = this.pop().unwrap();
        proof {
            assert(this@ =~= v0.drop_last());
            lemma_scope_views_drop_last(v0);
            assert(s@ == s0.last());
        }
        let sorted = sort_scopes_start_exec(this);
        ins_scope_start_exec(sorted, s)
    }
}

fn ins_scope_size_exec(sorted: Vec<Scope>, s: Scope) -> (r: Vec<Scope>)
    ensures
        scope_views(r@) == ins_scope_size(scope_views(sorted@), s@),
    decreases sorted@.len(),
{
    let mut this = sorted;
    let ghost v0 = this@;
    let ghost s0 = scope_views(v0);
    proof {
        lemma_scope_views(v0);
    }
    if this.len() == 0 {
        this.push(s);
        proof {
            crate::scope::lemma_scope_views_push(v0, s);
            assert(scope_views(this@) =~= ins_scope_size(s0, s@));
        }
        this
    } else {
        let w0 = this[0].range.width();
        let ws = s.range.width();
        let first = w0 > ws || (w0 == ws && this[0].range.start <= s.range.start);
        if first {
            proof {
                assert(s0[0] == v0[0].sview());
                assert(size_precedes(s0[0], s@));
            }
            let head = this.remove(0);
            proof {
                assert(this@ =~= v0.drop_first());
                lemma_scope_views_drop_first(v0);
            }
            let mut rest = ins_scope_size_exec(this, s);
            let ghost mid = rest@;
            rest.insert(0, head);
            proof {
                assert(rest@ =~= mid.insert(0, head));
                lemma_scope_views_insert0(mid, head);
                assert(head.sview() == s0[0]);
                assert(scope_views(rest@) =~= seq![s0[0]] + ins_scope_size(s0.drop_first(), s@));
            }
            rest
        } else {
            proof {
                assert(s0[0] == v0[0].sview());
                assert(!size_precedes(s0[0], s@));
            }
            let ghost v1 = this@;
            this.insert(0, s);
            proof {
                assert(this@ =~= v1.insert(0, s));
                lemma_scope_views_insert0(v1, s);
                assert(scope_views(this@) =~= seq![s@] + s0);
            }
            this
        }
    }
}

/// Sort collected scopes widest first, so that insertion meets every
/// enclosing scope before the scopes inside it.
pub fn sort_scopes_size_exec(cs: Vec<Scope>) -> (r: Vec<Scope>)
    ensures
        scope_views(r@) == sort_scopes_size(scope_views(cs@)),
    decreases cs@.len(),
{
    let mut this = cs;
    let ghost s0 = scope_views(this@);
    proof {
        lemma_scope_views(this@);
    }
    if this.len() == 0 {
        proof {
            assert(scope_views(this@) =~= sort_scopes_size(s0));
        }
        this
    } else {
        let ghost v0 = this@;
        let s = this.pop().unwrap();
        proof {
            assert(this@ =~= v0.drop_last());
            lemma_scope_views_drop_last(v0);
            assert(s@ == s0.last());
        }
        let sorted = sort_scopes_size_exec(this);
        ins_scope_size_exec(sorted, s)
    }
}

/// The stable ordering every scope gets before emission: definitions and
/// references by node start byte ascending, children by scope start byte
/// ascending, recursively.
pub open spec fn stabilize_v(t: ScopeView) -> ScopeView
    decreases t,
{
    ScopeView {
        node: t.node,
        range: t.range,
        definitions: sort_defs(t.definitions),
        references: sort_refs(t.references),
        children: sort_scopes_start(stabilize_kids(t.children)),
    }
}

pub open spec fn stabilize_kids(cs: Seq<ScopeView>) -> Seq<ScopeView>
    decreases cs,
{
    if cs.len() == 0 {
        Seq::empty()
    } else {
        stabilize_kids(cs.drop_last()).push(stabilize_v(cs.last()))
    }
}

fn stabilize_kids_exec(ks: Vec<Scope>) -> (r: Vec<Scope>)
    ensures
        scope_views(r@) == stabilize_kids(scope_views(ks@)),
    decreases ks@,
{
    let mut this = ks;
    let ghost v0 = this@;
    let ghost s0 = scope_views(v0);
    proof {
        lemma_scope_views(v0);
    }
    if this.len() == 0 {
        proof {
            assert(scope_views(this@) =~= stabilize_kids(s0));
        }
        this
    } else {
        let last = this.pop().unwrap();
        proof {
            assert(this@ =~= v0.drop_last());
            lemma_scope_views_drop_last(v0);
            assert(last@ == s0.last());
            assert(decreases_to!(v0 => v0[v0.len() - 1]));
        }
        let mut rest = stabilize_kids_exec(this);
        let last = last.stabilize();
        let ghost mid = rest@;
        rest.push(last);
        proof {
            crate::scope::lemma_scope_views_push(mid, last);
            assert(scope_views(rest@) =~= stabilize_kids(s0));
        }
        rest
    }
}

impl Scope {
    /// Put the whole tree into its stable order.
    pub fn stabilize(self) -> (r: Scope)
        ensures
            r@ == stabilize_v(self@),
        decreases self,
    {
        let ghost t0 = self;
        let Scope { node, range, definitions, references, children } = self;
        proof {
            assert(decreases_to!(t0 => t0.children@));
        }
        let children = stabilize_kids_exec(children);
        let children = sort_scopes_start_exec(children);
        let definitions = sort_defs_exec(definitions);
        let references = sort_refs_exec(references);
        let r = Scope { node, range, definitions, references, children };
        proof {
            assert(r@ =~= stabilize_v(t0@));
        }
        r
    }
}

} // verus!

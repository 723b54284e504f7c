use vstd::prelude::*;

use crate::classify::{MatchView, PropView};
use crate::emit::{
    def_block, def_count, def_count_kids, emit_defs, emit_for_child, emit_for_children, emit_kids,
    emit_scope, refs_matching,
};
use crate::index::{build_tree_v, index_matches_v, insert_defs_v, insert_refs_v, insert_scopes_v};
use crate::model::{DefView, LocalError, NodeInfo, OccView, RefView, ROLE_DEFINITION};
use crate::range::ByteRange;
use crate::scope::{
    first_child_containing, fresh_scope_view, has_def_with_node, insert_def_local_v,
    insert_def_parent_v, insert_def_v, insert_ref_v, insert_scope_v, lemma_first_child_containing,
    lemma_first_def_named, scope_defines, upsert_def, ScopeView,
};
use crate::sort::{
    ins_def, ins_ref, ins_scope_size, ins_scope_start, sort_defs, sort_refs, sort_scopes_size,
    sort_scopes_start, stabilize_kids, stabilize_v,
};
use crate::symbol::{dec_digits, digit_char, local_symbol};

verus! {

// The laws of the resolver, each stated over the same spec functions the
// executable functions' contracts use.
/// Indexing is deterministic: the occurrence list is a pure function of
/// the source, the query's tables and the match set, so indexing the same
/// input twice yields the identical list.
pub proof fn lemma_index_deterministic(
    root: NodeInfo,
    names: Seq<Seq<char>>,
    props: Seq<Seq<PropView>>,
    ms: Seq<MatchView>,
    src: Seq<u8>,
    r1: Seq<OccView>,
    r2: Seq<OccView>,
)
    requires
        index_matches_v(root, names, props, ms, src) == Ok::<Seq<OccView>, LocalError>(r1),
        index_matches_v(root, names, props, ms, src) == Ok::<Seq<OccView>, LocalError>(r2),
    ensures
        r1 == r2,
{
}

/// The shadowing rule: a scope that defines an identifier contributes no
/// occurrence at all to a definition of that identifier bound outside it —
/// neither its own references nor those of any of its descendants.
pub proof fn lemma_shadowing(c: ScopeView, ident: Seq<char>, sym: Seq<char>)
    requires
        scope_defines(c, ident),
    ensures
        emit_for_child(c, ident, sym) == Seq::<OccView>::empty(),
{
}

/// A dropped reference leaves the tree unchanged: a reference whose node
/// is the defining node of a definition in the scope it reaches is never
/// stored.
pub proof fn lemma_self_reference_dropped(t: ScopeView, f: RefView)
    requires
        crate::scope::has_def_with_node(t.definitions, f.node.id),
    ensures
        crate::scope::insert_ref_v(t, f) == t,
{
}

/// The symbols of the definition-role occurrences of an occurrence list,
/// in emission order.
pub open spec fn def_syms(os: Seq<OccView>) -> Seq<Seq<char>>
    decreases os,
{
    if os.len() == 0 {
        Seq::empty()
    } else {
        def_syms(os.drop_last()) + (if os.last().symbol_roles == ROLE_DEFINITION {
            seq![os.last().symbol]
        } else {
            Seq::empty()
        })
    }
}

/// The symbols `local (base+1)` through `local (base+n)` in order.
pub open spec fn sym_run(base: nat, n: nat) -> Seq<Seq<char>> {
    Seq::new(n, |i: int| local_symbol((base + 1 + i) as nat))
}

pub proof fn lemma_def_syms_concat(a: Seq<OccView>, b: Seq<OccView>)
    ensures
        def_syms(a + b) == def_syms(a) + def_syms(b),
    decreases b,
{
    if b.len() == 0 {
        assert(a + b =~= a);
        assert(def_syms(a) + Seq::<Seq<char>>::empty() =~= def_syms(a));
    } else {
        assert((a + b).drop_last() =~= a + b.drop_last());
        assert((a + b).last() == b.last());
        lemma_def_syms_concat(a, b.drop_last());
        assert(def_syms(a) + def_syms(b.drop_last()) + (if b.last().symbol_roles
            == ROLE_DEFINITION {
            seq![b.last().symbol]
        } else {
            Seq::<Seq<char>>::empty()
        }) =~= def_syms(a) + def_syms(b));
    }
}

/// Occurrence lists with no definition role contribute no symbols.
pub open spec fn all_plain(os: Seq<OccView>) -> bool {
    forall|i: int| 0 <= i < os.len() ==> (#[trigger] os[i].symbol_roles) != ROLE_DEFINITION
}

pub proof fn lemma_def_syms_plain(os: Seq<OccView>)
    requires
        all_plain(os),
    ensures
        def_syms(os) == Seq::<Seq<char>>::empty(),
    decreases os,
{
    if os.len() > 0 {
        assert(forall|i: int| 0 <= i < os.len() - 1 ==> os.drop_last()[i] == #[trigger] os[i]);
        lemma_def_syms_plain(os.drop_last());
        assert(os.last() == os[os.len() - 1]);
        assert(def_syms(os) =~= Seq::<Seq<char>>::empty());
    }
}

pub proof fn lemma_refs_matching_plain(rs: Seq<RefView>, ident: Seq<char>, sym: Seq<char>)
    ensures
        all_plain(refs_matching(rs, ident, sym)),
    decreases rs,
{
    if rs.len() > 0 {
        lemma_refs_matching_plain(rs.drop_last(), ident, sym);
        let a = refs_matching(rs.drop_last(), ident, sym);
        let r = refs_matching(rs, ident, sym);
        assert forall|i: int| 0 <= i < r.len() implies (#[trigger] r[i].symbol_roles)
            != ROLE_DEFINITION by {
            if i < a.len() {
                assert(r[i] == a[i]);
            }
        }
    }
}

pub proof fn lemma_emit_for_child_plain(c: ScopeView, ident: Seq<char>, sym: Seq<char>)
    ensures
        all_plain(emit_for_child(c, ident, sym)),
    decreases c, 1int,
{
    if !scope_defines(c, ident) {
        lemma_refs_matching_plain(c.references, ident, sym);
        lemma_emit_for_children_plain(c.children, ident, sym);
        let a = refs_matching(c.references, ident, sym);
        let b = emit_for_children(c.children, ident, sym);
        assert forall|i: int| 0 <= i < (a + b).len() implies (#[trigger] (a + b)[i].symbol_roles)
            != ROLE_DEFINITION by {
            if i < a.len() {
                assert((a + b)[i] == a[i]);
            } else {
                assert((a + b)[i] == b[i - a.len()]);
            }
        }
    }
}

pub proof fn lemma_emit_for_children_plain(cs: Seq<ScopeView>, ident: Seq<char>, sym: Seq<char>)
    ensures
        all_plain(emit_for_children(cs, ident, sym)),
    decreases cs, 0int,
{
    if cs.len() > 0 {
        lemma_emit_for_children_plain(cs.drop_last(), ident, sym);
        lemma_emit_for_child_plain(cs.last(), ident, sym);
        let a = emit_for_children(cs.drop_last(), ident, sym);
        let b = emit_for_child(cs.last(), ident, sym);
        assert forall|i: int| 0 <= i < (a + b).len() implies (#[trigger] (a + b)[i].symbol_roles)
            != ROLE_DEFINITION by {
            if i < a.len() {
                assert((a + b)[i] == a[i]);
            } else {
                assert((a + b)[i] == b[i - a.len()]);
            }
        }
    }
}

/// One definition's block mints exactly one symbol, its own.
pub proof fn lemma_def_syms_block(t: ScopeView, d: DefView, id: nat)
    ensures
        def_syms(def_block(t, d, id)) == seq![local_symbol(id)],
{
    let own = seq![crate::emit::def_occ(d, local_symbol(id))];
    let a = refs_matching(t.references, d.identifier, local_symbol(id));
    let b = emit_for_children(t.children, d.identifier, local_symbol(id));
    lemma_def_syms_concat(own + a, b);
    lemma_def_syms_concat(own, a);
    lemma_refs_matching_plain(t.references, d.identifier, local_symbol(id));
    lemma_def_syms_plain(a);
    lemma_emit_for_children_plain(t.children, d.identifier, local_symbol(id));
    lemma_def_syms_plain(b);
    assert(own.drop_last() =~= Seq::<OccView>::empty());
    assert(own.len() == 1);
    assert(own.last() == crate::emit::def_occ(d, local_symbol(id)));
    assert(def_syms(Seq::<OccView>::empty()) == Seq::<Seq<char>>::empty());
    assert(def_syms(own) == def_syms(own.drop_last()) + seq![own.last().symbol]);
    assert(def_syms(own) =~= seq![local_symbol(id)]);
    assert(def_block(t, d, id) == own + a + b);
    assert(def_syms(def_block(t, d, id)) =~= seq![local_symbol(id)]);
}

pub proof fn lemma_def_syms_emit_defs(t: ScopeView, ds: Seq<DefView>, base: nat)
    ensures
        def_syms(emit_defs(t, ds, base)) == sym_run(base, ds.len()),
    decreases ds,
{
    if ds.len() == 0 {
        assert(def_syms(emit_defs(t, ds, base)) =~= sym_run(base, 0));
    } else {
        lemma_def_syms_emit_defs(t, ds.drop_last(), base);
        lemma_def_syms_block(t, ds.last(), base + ds.len());
        lemma_def_syms_concat(
            emit_defs(t, ds.drop_last(), base),
            def_block(t, ds.last(), base + ds.len()),
        );
        assert(def_syms(emit_defs(t, ds, base)) =~= sym_run(base, ds.len()));
    }
}

/// Monotone symbols: over a whole scope the definition occurrences carry
/// exactly the symbols `local (base+1)` up to `local (base + count)`, in
/// that order — the ids strictly increase along the emission order.
pub proof fn lemma_def_syms_emit_scope(t: ScopeView, base: nat)
    ensures
        def_syms(emit_scope(t, base)) == sym_run(base, def_count(t)),
    decreases t, 1int,
{
    lemma_def_syms_emit_defs(t, t.definitions, base);
    lemma_def_syms_emit_kids(t.children, base + t.definitions.len());
    lemma_def_syms_concat(
        emit_defs(t, t.definitions, base),
        emit_kids(t.children, (base + t.definitions.len()) as nat),
    );
    assert(def_syms(emit_scope(t, base)) =~= sym_run(base, def_count(t)));
}

/// Every definition yields exactly one occurrence with the definition
/// role: the definition-symbol sequence has one entry per definition in
/// the tree, and (by their distinctness) no two of them coincide.
pub proof fn lemma_one_occurrence_per_definition(t: ScopeView, base: nat)
    ensures
        def_syms(emit_scope(t, base)).len() == def_count(t),
{
    lemma_def_syms_emit_scope(t, base);
}

pub proof fn lemma_def_syms_emit_kids(cs: Seq<ScopeView>, base: nat)
    ensures
        def_syms(emit_kids(cs, base)) == sym_run(base, def_count_kids(cs)),
    decreases cs, 0int,
{
    if cs.len() == 0 {
        assert(def_syms(emit_kids(cs, base)) =~= sym_run(base, 0));
    } else {
        lemma_def_syms_emit_kids(cs.drop_last(), base);
        lemma_def_syms_emit_scope(cs.last(), (base + def_count_kids(cs.drop_last())) as nat);
        lemma_def_syms_concat(
            emit_kids(cs.drop_last(), base),
            emit_scope(cs.last(), (base + def_count_kids(cs.drop_last())) as nat),
        );
        assert(def_syms(emit_kids(cs, base)) =~= sym_run(base, def_count_kids(cs)));
    }
}

/// Every definition's range lies within `r`.
pub open spec fn defs_in(ds: Seq<DefView>, r: ByteRange) -> bool {
    forall|i: int| 0 <= i < ds.len() ==> r.spec_contains((#[trigger] ds[i]).range)
}

/// Every reference's range lies within `r`.
pub open spec fn refs_in(rs: Seq<RefView>, r: ByteRange) -> bool {
    forall|i: int| 0 <= i < rs.len() ==> r.spec_contains((#[trigger] rs[i]).range)
}

/// Every scope's range lies within `r`.
pub open spec fn kids_in(cs: Seq<ScopeView>, r: ByteRange) -> bool {
    forall|i: int| 0 <= i < cs.len() ==> r.spec_contains((#[trigger] cs[i]).range)
}

/// The containment invariant of the scope tree: every scope's range
/// contains every definition, reference and child scope it owns, all the
/// way down.
pub open spec fn wf_ranges(t: ScopeView) -> bool
    decreases t, 1int,
{
    defs_in(t.definitions, t.range) && refs_in(t.references, t.range) && kids_in(
        t.children,
        t.range,
    ) && wf_kids(t.children)
}

pub open spec fn wf_kids(cs: Seq<ScopeView>) -> bool
    decreases cs, 0int,
{
    if cs.len() == 0 {
        true
    } else {
        wf_kids(cs.drop_last()) && wf_ranges(cs.last())
    }
}

pub proof fn lemma_wf_kids_pointwise(cs: Seq<ScopeView>)
    ensures
        wf_kids(cs) <==> (forall|i: int| 0 <= i < cs.len() ==> wf_ranges(#[trigger] cs[i])),
    decreases cs,
{
    if cs.len() > 0 {
        lemma_wf_kids_pointwise(cs.drop_last());
        assert(forall|i: int| 0 <= i < cs.len() - 1 ==> cs.drop_last()[i] == #[trigger] cs[i]);
        assert(cs.last() == cs[cs.len() - 1]);
        if forall|i: int| 0 <= i < cs.len() ==> wf_ranges(#[trigger] cs[i]) {
            assert(forall|i: int|
                0 <= i < cs.len() - 1 ==> wf_ranges(#[trigger] cs.drop_last()[i]));
        }
    }
}

pub proof fn lemma_wf_insert_scope(t: ScopeView, s: ScopeView)
    requires
        wf_ranges(t),
        wf_ranges(s),
        t.range.spec_contains(s.range),
    ensures
        wf_ranges(insert_scope_v(t, s)),
    decreases t,
{
    lemma_first_child_containing(t.children, s.range);
    lemma_wf_kids_pointwise(t.children);
    let i = first_child_containing(t.children, s.range);
    let r = insert_scope_v(t, s);
    if i < t.children.len() {
        lemma_wf_insert_scope(t.children[i], s);
        assert(insert_scope_v(t.children[i], s).range == t.children[i].range);
        assert forall|j: int| 0 <= j < r.children.len() implies t.range.spec_contains(
            (#[trigger] r.children[j]).range,
        ) && wf_ranges(r.children[j]) by {
            if j != i {
                assert(r.children[j] == t.children[j]);
            }
        }
        lemma_wf_kids_pointwise(r.children);
    } else {
        assert forall|j: int| 0 <= j < r.children.len() implies t.range.spec_contains(
            (#[trigger] r.children[j]).range,
        ) && wf_ranges(r.children[j]) by {
            if j < t.children.len() {
                assert(r.children[j] == t.children[j]);
            } else {
                assert(r.children[j] == s);
            }
        }
        lemma_wf_kids_pointwise(r.children);
    }
}

pub proof fn lemma_defs_in_upsert(ds: Seq<DefView>, d: DefView, r: ByteRange)
    requires
        defs_in(ds, r),
        r.spec_contains(d.range),
    ensures
        defs_in(upsert_def(ds, d), r),
{
    lemma_first_def_named(ds, d.identifier);
    let u = upsert_def(ds, d);
    assert forall|i: int| 0 <= i < u.len() implies r.spec_contains((#[trigger] u[i]).range) by {
        if i < ds.len() && u[i] != d {
            assert(u[i] == ds[i]);
        }
    }
}

pub proof fn lemma_wf_insert_def_local(t: ScopeView, d: DefView)
    requires
        wf_ranges(t),
        t.range.spec_contains(d.range),
    ensures
        wf_ranges(insert_def_local_v(t, d)),
    decreases t,
{
    lemma_first_child_containing(t.children, d.range);
    lemma_wf_kids_pointwise(t.children);
    let i = first_child_containing(t.children, d.range);
    let r = insert_def_local_v(t, d);
    if i < t.children.len() {
        lemma_wf_insert_def_local(t.children[i], d);
        assert(insert_def_local_v(t.children[i], d).range == t.children[i].range);
        assert forall|j: int| 0 <= j < r.children.len() implies t.range.spec_contains(
            (#[trigger] r.children[j]).range,
        ) && wf_ranges(r.children[j]) by {
            if j != i {
                assert(r.children[j] == t.children[j]);
            }
        }
        lemma_wf_kids_pointwise(r.children);
    } else {
        lemma_defs_in_upsert(t.definitions, d, t.range);
    }
}

pub proof fn lemma_wf_insert_def_parent(t: ScopeView, d: DefView)
    requires
        wf_ranges(t),
        t.range.spec_contains(d.range),
    ensures
        wf_ranges(insert_def_parent_v(t, d)),
    decreases t,
{
    lemma_first_child_containing(t.children, d.range);
    lemma_wf_kids_pointwise(t.children);
    let i = first_child_containing(t.children, d.range);
    let r = insert_def_parent_v(t, d);
    if i < t.children.len() {
        let c = t.children[i];
        lemma_first_child_containing(c.children, d.range);
        if first_child_containing(c.children, d.range) < c.children.len() {
            lemma_wf_insert_def_parent(c, d);
            assert(insert_def_parent_v(c, d).range == c.range);
            assert forall|j: int| 0 <= j < r.children.len() implies t.range.spec_contains(
                (#[trigger] r.children[j]).range,
            ) && wf_ranges(r.children[j]) by {
                if j != i {
                    assert(r.children[j] == t.children[j]);
                }
            }
            lemma_wf_kids_pointwise(r.children);
        } else {
            lemma_defs_in_upsert(t.definitions, d, t.range);
        }
    } else {
        lemma_defs_in_upsert(t.definitions, d, t.range);
    }
}

pub proof fn lemma_wf_insert_def(t: ScopeView, d: DefView)
    requires
        wf_ranges(t),
        t.range.spec_contains(d.range),
    ensures
        wf_ranges(insert_def_v(t, d)),
{
    match d.scope_modifier {
        crate::model::ScopeModifier::Global => lemma_defs_in_upsert(t.definitions, d, t.range),
        crate::model::ScopeModifier::Parent => lemma_wf_insert_def_parent(t, d),
        crate::model::ScopeModifier::Local => lemma_wf_insert_def_local(t, d),
    }
}

pub proof fn lemma_wf_insert_ref(t: ScopeView, f: RefView)
    requires
        wf_ranges(t),
        t.range.spec_contains(f.range),
    ensures
        wf_ranges(insert_ref_v(t, f)),
    decreases t,
{
    if !has_def_with_node(t.definitions, f.node.id) {
        lemma_first_child_containing(t.children, f.range);
        lemma_wf_kids_pointwise(t.children);
        let i = first_child_containing(t.children, f.range);
        let r = insert_ref_v(t, f);
        if i < t.children.len() {
            lemma_wf_insert_ref(t.children[i], f);
            assert(insert_ref_v(t.children[i], f).range == t.children[i].range);
            assert forall|j: int| 0 <= j < r.children.len() implies t.range.spec_contains(
                (#[trigger] r.children[j]).range,
            ) && wf_ranges(r.children[j]) by {
                if j != i {
                    assert(r.children[j] == t.children[j]);
                }
            }
            lemma_wf_kids_pointwise(r.children);
        } else {
            assert forall|j: int| 0 <= j < r.references.len() implies t.range.spec_contains(
                (#[trigger] r.references[j]).range,
            ) by {
                if j < t.references.len() {
                    assert(r.references[j] == t.references[j]);
                } else {
                    assert(r.references[j] == f);
                }
            }
        }
    }
}

pub proof fn lemma_defs_in_ins(q: Seq<DefView>, d: DefView, r: ByteRange)
    requires
        defs_in(q, r),
        r.spec_contains(d.range),
    ensures
        defs_in(ins_def(q, d), r),
    decreases q,
{
    if q.len() == 0 {
        assert(ins_def(q, d) =~= seq![d]);
    } else if q[0].node.start_byte <= d.node.start_byte {
        assert(forall|i: int| 0 <= i < q.len() - 1 ==> q.drop_first()[i] == #[trigger] q[i + 1]);
        lemma_defs_in_ins(q.drop_first(), d, r);
        let out = ins_def(q, d);
        let rest = ins_def(q.drop_first(), d);
        assert forall|i: int| 0 <= i < out.len() implies r.spec_contains(
            (#[trigger] out[i]).range,
        ) by {
            if i == 0 {
                assert(out[0] == q[0]);
            } else {
                assert(out[i] == rest[i - 1]);
            }
        }
    } else {
        let out = ins_def(q, d);
        assert forall|i: int| 0 <= i < out.len() implies r.spec_contains(
            (#[trigger] out[i]).range,
        ) by {
            if i > 0 {
                assert(out[i] == q[i - 1]);
            }
        }
    }
}

pub proof fn lemma_defs_in_sort(ds: Seq<DefView>, r: ByteRange)
    requires
        defs_in(ds, r),
    ensures
        defs_in(sort_defs(ds), r),
    decreases ds,
{
    if ds.len() > 0 {
        assert(forall|i: int| 0 <= i < ds.len() - 1 ==> ds.drop_last()[i] == #[trigger] ds[i]);
        lemma_defs_in_sort(ds.drop_last(), r);
        lemma_defs_in_ins(sort_defs(ds.drop_last()), ds.last(), r);
    }
}

pub proof fn lemma_refs_in_ins(q: Seq<RefView>, f: RefView, r: ByteRange)
    requires
        refs_in(q, r),
        r.spec_contains(f.range),
    ensures
        refs_in(ins_ref(q, f), r),
    decreases q,
{
    if q.len() == 0 {
        assert(ins_ref(q, f) =~= seq![f]);
    } else if q[0].node.start_byte <= f.node.start_byte {
        assert(forall|i: int| 0 <= i < q.len() - 1 ==> q.drop_first()[i] == #[trigger] q[i + 1]);
        lemma_refs_in_ins(q.drop_first(), f, r);
        let out = ins_ref(q, f);
        let rest = ins_ref(q.drop_first(), f);
        assert forall|i: int| 0 <= i < out.len() implies r.spec_contains(
            (#[trigger] out[i]).range,
        ) by {
            if i == 0 {
                assert(out[0] == q[0]);
            } else {
                assert(out[i] == rest[i - 1]);
            }
        }
    } else {
        let out = ins_ref(q, f);
        assert forall|i: int| 0 <= i < out.len() implies r.spec_contains(
            (#[trigger] out[i]).range,
        ) by {
            if i > 0 {
                assert(out[i] == q[i - 1]);
            }
        }
    }
}

pub proof fn lemma_refs_in_sort(rs: Seq<RefView>, r: ByteRange)
    requires
        refs_in(rs, r),
    ensures
        refs_in(sort_refs(rs), r),
    decreases rs,
{
    if rs.len() > 0 {
        assert(forall|i: int| 0 <= i < rs.len() - 1 ==> rs.drop_last()[i] == #[trigger] rs[i]);
        lemma_refs_in_sort(rs.drop_last(), r);
        lemma_refs_in_ins(sort_refs(rs.drop_last()), rs.last(), r);
    }
}

/// Containment and well-formedness of each child, preserved by the stable
/// reordering of children.
pub open spec fn kids_ok(cs: Seq<ScopeView>, r: ByteRange) -> bool {
    kids_in(cs, r) && (forall|i: int| 0 <= i < cs.len() ==> wf_ranges(#[trigger] cs[i]))
}

pub proof fn lemma_kids_ok_ins_start(q: Seq<ScopeView>, s: ScopeView, r: ByteRange)
    requires
        kids_ok(q, r),
        r.spec_contains(s.range),
        wf_ranges(s),
    ensures
        kids_ok(ins_scope_start(q, s), r),
    decreases q,
{
    if q.len() == 0 {
        assert(ins_scope_start(q, s) =~= seq![s]);
    } else if q[0].range.start <= s.range.start {
        assert(forall|i: int| 0 <= i < q.len() - 1 ==> q.drop_first()[i] == #[trigger] q[i + 1]);
        lemma_kids_ok_ins_start(q.drop_first(), s, r);
        let out = ins_scope_start(q, s);
        let rest = ins_scope_start(q.drop_first(), s);
        assert forall|i: int| 0 <= i < out.len() implies r.spec_contains(
            (#[trigger] out[i]).range,
        ) && wf_ranges(out[i]) by {
            if i == 0 {
                assert(out[0] == q[0]);
            } else {
                assert(out[i] == rest[i - 1]);
            }
        }
    } else {
        let out = ins_scope_start(q, s);
        assert forall|i: int| 0 <= i < out.len() implies r.spec_contains(
            (#[trigger] out[i]).range,
        ) && wf_ranges(out[i]) by {
            if i > 0 {
                assert(out[i] == q[i - 1]);
            }
        }
    }
}

pub proof fn lemma_kids_ok_sort_start(cs: Seq<ScopeView>, r: ByteRange)
    requires
        kids_ok(cs, r),
    ensures
        kids_ok(sort_scopes_start(cs), r),
    decreases cs,
{
    if cs.len() > 0 {
        assert(forall|i: int| 0 <= i < cs.len() - 1 ==> cs.drop_last()[i] == #[trigger] cs[i]);
        lemma_kids_ok_sort_start(cs.drop_last(), r);
        lemma_kids_ok_ins_start(sort_scopes_start(cs.drop_last()), cs.last(), r);
    }
}

pub proof fn lemma_stabilize_kids_pointwise(cs: Seq<ScopeView>)
    ensures
        stabilize_kids(cs).len() == cs.len(),
        forall|i: int|
            0 <= i < cs.len() ==> stabilize_kids(cs)[i] == stabilize_v(#[trigger] cs[i]),
    decreases cs,
{
    if cs.len() > 0 {
        lemma_stabilize_kids_pointwise(cs.drop_last());
        assert(forall|i: int| 0 <= i < cs.len() - 1 ==> cs.drop_last()[i] == #[trigger] cs[i]);
    }
}

/// Stabilization reorders a well-formed tree without breaking containment:
/// the ranges all stay where they were.
pub proof fn lemma_wf_stabilize(t: ScopeView)
    requires
        wf_ranges(t),
    ensures
        wf_ranges(stabilize_v(t)),
        stabilize_v(t).range == t.range,
    decreases t, 1int,
{
    lemma_defs_in_sort(t.definitions, t.range);
    lemma_refs_in_sort(t.references, t.range);
    lemma_wf_kids_pointwise(t.children);
    lemma_stabilize_kids_pointwise(t.children);
    lemma_wf_stabilize_kids(t.children);
    let sk = stabilize_kids(t.children);
    assert forall|i: int| 0 <= i < sk.len() implies t.range.spec_contains(
        (#[trigger] sk[i]).range,
    ) && wf_ranges(sk[i]) by {
        assert(sk[i] == stabilize_v(t.children[i]));
    }
    lemma_kids_ok_sort_start(sk, t.range);
    let out = stabilize_v(t);
    lemma_wf_kids_pointwise(out.children);
}

pub proof fn lemma_wf_stabilize_kids(cs: Seq<ScopeView>)
    requires
        forall|i: int| 0 <= i < cs.len() ==> wf_ranges(#[trigger] cs[i]),
    ensures
        forall|i: int|
            0 <= i < cs.len() ==> wf_ranges(stabilize_v(#[trigger] cs[i])) && stabilize_v(
                cs[i],
            ).range == cs[i].range,
    decreases cs, 0int,
{
    assert forall|i: int| 0 <= i < cs.len() implies wf_ranges(stabilize_v(#[trigger] cs[i]))
        && stabilize_v(cs[i]).range == cs[i].range by {
        lemma_wf_stabilize(cs[i]);
    }
}

/// Containment over the whole pipeline: when every collected scope,
/// definition and reference lies within the root's range, every scope of
/// the finished, stabilized tree contains everything it owns.
pub proof fn lemma_containment(root: NodeInfo, c: crate::classify::ClassifiedView)
    requires
        kids_ok(c.scopes, fresh_scope_view(root).range),
        defs_in(c.defs, fresh_scope_view(root).range),
        refs_in(c.refs, fresh_scope_view(root).range),
    ensures
        wf_ranges(stabilize_v(build_tree_v(root, c))),
{
    let r0 = fresh_scope_view(root);
    assert(wf_ranges(r0));
    lemma_kids_ok_sort_size(c.scopes, r0.range);
    let sorted = sort_scopes_size(c.scopes);
    lemma_wf_insert_scopes(r0, sorted);
    let t1 = insert_scopes_v(r0, sorted);
    lemma_defs_in_sort(c.defs, r0.range);
    lemma_wf_insert_defs(t1, sort_defs(c.defs));
    let t2 = insert_defs_v(t1, sort_defs(c.defs));
    lemma_refs_in_sort(c.refs, r0.range);
    lemma_wf_insert_refs(t2, sort_refs(c.refs));
    lemma_wf_stabilize(insert_refs_v(t2, sort_refs(c.refs)));
}

pub proof fn lemma_kids_ok_ins_size(q: Seq<ScopeView>, s: ScopeView, r: ByteRange)
    requires
        kids_ok(q, r),
        r.spec_contains(s.range),
        wf_ranges(s),
    ensures
        kids_ok(ins_scope_size(q, s), r),
    decreases q,
{
    if q.len() == 0 {
        assert(ins_scope_size(q, s) =~= seq![s]);
    } else if crate::sort::size_precedes(q[0], s) {
        assert(forall|i: int| 0 <= i < q.len() - 1 ==> q.drop_first()[i] == #[trigger] q[i + 1]);
        lemma_kids_ok_ins_size(q.drop_first(), s, r);
        let out = ins_scope_size(q, s);
        let rest = ins_scope_size(q.drop_first(), s);
        assert forall|i: int| 0 <= i < out.len() implies r.spec_contains(
            (#[trigger] out[i]).range,
        ) && wf_ranges(out[i]) by {
            if i == 0 {
                assert(out[0] == q[0]);
            } else {
                assert(out[i] == rest[i - 1]);
            }
        }
    } else {
        let out = ins_scope_size(q, s);
        assert forall|i: int| 0 <= i < out.len() implies r.spec_contains(
            (#[trigger] out[i]).range,
        ) && wf_ranges(out[i]) by {
            if i > 0 {
                assert(out[i] == q[i - 1]);
            }
        }
    }
}

pub proof fn lemma_kids_ok_sort_size(cs: Seq<ScopeView>, r: ByteRange)
    requires
        kids_ok(cs, r),
    ensures
        kids_ok(sort_scopes_size(cs), r),
    decreases cs,
{
    if cs.len() > 0 {
        assert(forall|i: int| 0 <= i < cs.len() - 1 ==> cs.drop_last()[i] == #[trigger] cs[i]);
        lemma_kids_ok_sort_size(cs.drop_last(), r);
        lemma_kids_ok_ins_size(sort_scopes_size(cs.drop_last()), cs.last(), r);
    }
}

pub proof fn lemma_wf_insert_scopes(t: ScopeView, ss: Seq<ScopeView>)
    requires
        wf_ranges(t),
        kids_ok(ss, t.range),
    ensures
        wf_ranges(insert_scopes_v(t, ss)),
        insert_scopes_v(t, ss).range == t.range,
    decreases ss,
{
    if ss.len() > 0 {
        lemma_wf_insert_scope(t, ss[0]);
        assert(forall|i: int| 0 <= i < ss.len() - 1 ==> ss.drop_first()[i] == #[trigger] ss[i + 1]);
        lemma_wf_insert_scopes(insert_scope_v(t, ss[0]), ss.drop_first());
    }
}

pub proof fn lemma_wf_insert_defs(t: ScopeView, ds: Seq<DefView>)
    requires
        wf_ranges(t),
        defs_in(ds, t.range),
    ensures
        wf_ranges(insert_defs_v(t, ds)),
        insert_defs_v(t, ds).range == t.range,
    decreases ds,
{
    if ds.len() > 0 {
        lemma_wf_insert_def(t, ds[0]);
        assert(insert_def_v(t, ds[0]).range == t.range);
        assert(forall|i: int| 0 <= i < ds.len() - 1 ==> ds.drop_first()[i] == #[trigger] ds[i + 1]);
        lemma_wf_insert_defs(insert_def_v(t, ds[0]), ds.drop_first());
    }
}

pub proof fn lemma_wf_insert_refs(t: ScopeView, fs: Seq<RefView>)
    requires
        wf_ranges(t),
        refs_in(fs, t.range),
    ensures
        wf_ranges(insert_refs_v(t, fs)),
        insert_refs_v(t, fs).range == t.range,
    decreases fs,
{
    if fs.len() > 0 {
        lemma_wf_insert_ref(t, fs[0]);
        assert(insert_ref_v(t, fs[0]).range == t.range);
        assert(forall|i: int| 0 <= i < fs.len() - 1 ==> fs.drop_first()[i] == #[trigger] fs[i + 1]);
        lemma_wf_insert_refs(insert_ref_v(t, fs[0]), fs.drop_first());
    }
}

/// No definition in `ds` was captured at the node of any reference in
/// `rs`.
pub open spec fn defs_avoid(ds: Seq<DefView>, rs: Seq<RefView>) -> bool {
    forall|i: int, j: int|
        0 <= i < ds.len() && 0 <= j < rs.len() ==> (#[trigger] ds[i].node.id) != (
        #[trigger] rs[j].node.id)
}

/// The no-self-reference invariant: in every scope of the tree, no stored
/// reference shares its node identity with a definition of that scope.
pub open spec fn no_self(t: ScopeView) -> bool
    decreases t, 1int,
{
    defs_avoid(t.definitions, t.references) && no_self_kids(t.children)
}

pub open spec fn no_self_kids(cs: Seq<ScopeView>) -> bool
    decreases cs, 0int,
{
    if cs.len() == 0 {
        true
    } else {
        no_self_kids(cs.drop_last()) && no_self(cs.last())
    }
}

pub proof fn lemma_no_self_kids_pointwise(cs: Seq<ScopeView>)
    ensures
        no_self_kids(cs) <==> (forall|i: int| 0 <= i < cs.len() ==> no_self(#[trigger] cs[i])),
    decreases cs,
{
    if cs.len() > 0 {
        lemma_no_self_kids_pointwise(cs.drop_last());
        assert(forall|i: int| 0 <= i < cs.len() - 1 ==> cs.drop_last()[i] == #[trigger] cs[i]);
        assert(cs.last() == cs[cs.len() - 1]);
        if forall|i: int| 0 <= i < cs.len() ==> no_self(#[trigger] cs[i]) {
            assert(forall|i: int|
                0 <= i < cs.len() - 1 ==> no_self(#[trigger] cs.drop_last()[i]));
        }
    }
}

/// The tree holds no references anywhere yet.
pub open spec fn no_refs(t: ScopeView) -> bool
    decreases t, 1int,
{
    t.references.len() == 0 && no_refs_kids(t.children)
}

pub open spec fn no_refs_kids(cs: Seq<ScopeView>) -> bool
    decreases cs, 0int,
{
    if cs.len() == 0 {
        true
    } else {
        no_refs_kids(cs.drop_last()) && no_refs(cs.last())
    }
}

pub proof fn lemma_no_refs_kids_pointwise(cs: Seq<ScopeView>)
    ensures
        no_refs_kids(cs) <==> (forall|i: int| 0 <= i < cs.len() ==> no_refs(#[trigger] cs[i])),
    decreases cs,
{
    if cs.len() > 0 {
        lemma_no_refs_kids_pointwise(cs.drop_last());
        assert(forall|i: int| 0 <= i < cs.len() - 1 ==> cs.drop_last()[i] == #[trigger] cs[i]);
        assert(cs.last() == cs[cs.len() - 1]);
        if forall|i: int| 0 <= i < cs.len() ==> no_refs(#[trigger] cs[i]) {
            assert(forall|i: int|
                0 <= i < cs.len() - 1 ==> no_refs(#[trigger] cs.drop_last()[i]));
        }
    }
}

pub proof fn lemma_no_refs_no_self(t: ScopeView)
    requires
        no_refs(t),
    ensures
        no_self(t),
    decreases t, 1int,
{
    lemma_no_refs_kids_pointwise(t.children);
    assert forall|i: int| 0 <= i < t.children.len() implies no_self(#[trigger] t.children[i]) by {
        lemma_no_refs_no_self(t.children[i]);
    }
    lemma_no_self_kids_pointwise(t.children);
}

pub proof fn lemma_no_refs_insert_scope(t: ScopeView, s: ScopeView)
    requires
        no_refs(t),
        no_refs(s),
    ensures
        no_refs(insert_scope_v(t, s)),
    decreases t,
{
    lemma_first_child_containing(t.children, s.range);
    lemma_no_refs_kids_pointwise(t.children);
    let i = first_child_containing(t.children, s.range);
    let r = insert_scope_v(t, s);
    if i < t.children.len() {
        lemma_no_refs_insert_scope(t.children[i], s);
        assert forall|j: int| 0 <= j < r.children.len() implies no_refs(
            #[trigger] r.children[j],
        ) by {
            if j != i {
                assert(r.children[j] == t.children[j]);
            }
        }
        lemma_no_refs_kids_pointwise(r.children);
    } else {
        assert forall|j: int| 0 <= j < r.children.len() implies no_refs(
            #[trigger] r.children[j],
        ) by {
            if j < t.children.len() {
                assert(r.children[j] == t.children[j]);
            } else {
                assert(r.children[j] == s);
            }
        }
        lemma_no_refs_kids_pointwise(r.children);
    }
}

pub proof fn lemma_no_refs_insert_def_local(t: ScopeView, d: DefView)
    requires
        no_refs(t),
    ensures
        no_refs(insert_def_local_v(t, d)),
    decreases t,
{
    lemma_first_child_containing(t.children, d.range);
    lemma_no_refs_kids_pointwise(t.children);
    let i = first_child_containing(t.children, d.range);
    let r = insert_def_local_v(t, d);
    if i < t.children.len() {
        lemma_no_refs_insert_def_local(t.children[i], d);
        assert forall|j: int| 0 <= j < r.children.len() implies no_refs(
            #[trigger] r.children[j],
        ) by {
            if j != i {
                assert(r.children[j] == t.children[j]);
            }
        }
        lemma_no_refs_kids_pointwise(r.children);
    }
}

pub proof fn lemma_no_refs_insert_def_parent(t: ScopeView, d: DefView)
    requires
        no_refs(t),
    ensures
        no_refs(insert_def_parent_v(t, d)),
    decreases t,
{
    lemma_first_child_containing(t.children, d.range);
    lemma_no_refs_kids_pointwise(t.children);
    let i = first_child_containing(t.children, d.range);
    let r = insert_def_parent_v(t, d);
    if i < t.children.len() {
        let c = t.children[i];
        lemma_first_child_containing(c.children, d.range);
        if first_child_containing(c.children, d.range) < c.children.len() {
            lemma_no_refs_insert_def_parent(c, d);
            assert forall|j: int| 0 <= j < r.children.len() implies no_refs(
                #[trigger] r.children[j],
            ) by {
                if j != i {
                    assert(r.children[j] == t.children[j]);
                }
            }
            lemma_no_refs_kids_pointwise(r.children);
        }
    }
}

pub proof fn lemma_no_refs_insert_def(t: ScopeView, d: DefView)
    requires
        no_refs(t),
    ensures
        no_refs(insert_def_v(t, d)),
{
    match d.scope_modifier {
        crate::model::ScopeModifier::Global => {},
        crate::model::ScopeModifier::Parent => lemma_no_refs_insert_def_parent(t, d),
        crate::model::ScopeModifier::Local => lemma_no_refs_insert_def_local(t, d),
    }
}

/// Reference placement preserves the no-self-reference invariant: the
/// placed reference was checked against the definitions of the very scope
/// it lands in.
pub proof fn lemma_no_self_insert_ref(t: ScopeView, f: RefView)
    requires
        no_self(t),
    ensures
        no_self(insert_ref_v(t, f)),
    decreases t,
{
    if !has_def_with_node(t.definitions, f.node.id) {
        lemma_first_child_containing(t.children, f.range);
        lemma_no_self_kids_pointwise(t.children);
        let i = first_child_containing(t.children, f.range);
        let r = insert_ref_v(t, f);
        if i < t.children.len() {
            lemma_no_self_insert_ref(t.children[i], f);
            assert forall|j: int| 0 <= j < r.children.len() implies no_self(
                #[trigger] r.children[j],
            ) by {
                if j != i {
                    assert(r.children[j] == t.children[j]);
                }
            }
            lemma_no_self_kids_pointwise(r.children);
        } else {
            assert forall|i2: int, j: int|
                0 <= i2 < r.definitions.len() && 0 <= j < r.references.len() implies (
            #[trigger] r.definitions[i2].node.id) != (#[trigger] r.references[j].node.id) by {
                if j < t.references.len() {
                    assert(r.references[j] == t.references[j]);
                } else {
                    assert(r.references[j] == f);
                }
            }
        }
    }
}

pub proof fn lemma_defs_avoid_ins(q: Seq<DefView>, d: DefView, rs: Seq<RefView>)
    requires
        defs_avoid(q, rs),
        forall|j: int| 0 <= j < rs.len() ==> d.node.id != (#[trigger] rs[j].node.id),
    ensures
        defs_avoid(ins_def(q, d), rs),
    decreases q,
{
    if q.len() == 0 {
        assert(ins_def(q, d) =~= seq![d]);
    } else if q[0].node.start_byte <= d.node.start_byte {
        assert(forall|i: int| 0 <= i < q.len() - 1 ==> q.drop_first()[i] == #[trigger] q[i + 1]);
        lemma_defs_avoid_ins(q.drop_first(), d, rs);
        let out = ins_def(q, d);
        let rest = ins_def(q.drop_first(), d);
        assert forall|i: int, j: int|
            0 <= i < out.len() && 0 <= j < rs.len() implies (#[trigger] out[i].node.id) != (
        #[trigger] rs[j].node.id) by {
            if i == 0 {
                assert(out[0] == q[0]);
            } else {
                assert(out[i] == rest[i - 1]);
            }
        }
    } else {
        let out = ins_def(q, d);
        assert forall|i: int, j: int|
            0 <= i < out.len() && 0 <= j < rs.len() implies (#[trigger] out[i].node.id) != (
        #[trigger] rs[j].node.id) by {
            if i > 0 {
                assert(out[i] == q[i - 1]);
            }
        }
    }
}

pub proof fn lemma_defs_avoid_sort(ds: Seq<DefView>, rs: Seq<RefView>)
    requires
        defs_avoid(ds, rs),
    ensures
        defs_avoid(sort_defs(ds), rs),
    decreases ds,
{
    if ds.len() > 0 {
        assert(forall|i: int| 0 <= i < ds.len() - 1 ==> ds.drop_last()[i] == #[trigger] ds[i]);
        lemma_defs_avoid_sort(ds.drop_last(), rs);
        lemma_defs_avoid_ins(sort_defs(ds.drop_last()), ds.last(), rs);
    }
}

pub proof fn lemma_refs_avoid_ins(q: Seq<RefView>, f: RefView, ds: Seq<DefView>)
    requires
        defs_avoid(ds, q),
        forall|i: int| 0 <= i < ds.len() ==> (#[trigger] ds[i].node.id) != f.node.id,
    ensures
        defs_avoid(ds, ins_ref(q, f)),
    decreases q,
{
    if q.len() == 0 {
        assert(ins_ref(q, f) =~= seq![f]);
    } else if q[0].node.start_byte <= f.node.start_byte {
        assert(forall|i: int| 0 <= i < q.len() - 1 ==> q.drop_first()[i] == #[trigger] q[i + 1]);
        lemma_refs_avoid_ins(q.drop_first(), f, ds);
        let out = ins_ref(q, f);
        let rest = ins_ref(q.drop_first(), f);
        assert forall|i: int, j: int|
            0 <= i < ds.len() && 0 <= j < out.len() implies (#[trigger] ds[i].node.id) != (
        #[trigger] out[j].node.id) by {
            if j == 0 {
                assert(out[0] == q[0]);
            } else {
                assert(out[j] == rest[j - 1]);
            }
        }
    } else {
        let out = ins_ref(q, f);
        assert forall|i: int, j: int|
            0 <= i < ds.len() && 0 <= j < out.len() implies (#[trigger] ds[i].node.id) != (
        #[trigger] out[j].node.id) by {
            if j > 0 {
                assert(out[j] == q[j - 1]);
            }
        }
    }
}

pub proof fn lemma_refs_avoid_sort(rs: Seq<RefView>, ds: Seq<DefView>)
    requires
        defs_avoid(ds, rs),
    ensures
        defs_avoid(ds, sort_refs(rs)),
    decreases rs,
{
    if rs.len() > 0 {
        assert(forall|i: int| 0 <= i < rs.len() - 1 ==> rs.drop_last()[i] == #[trigger] rs[i]);
        lemma_refs_avoid_sort(rs.drop_last(), ds);
        lemma_refs_avoid_ins(sort_refs(rs.drop_last()), rs.last(), ds);
    }
}

pub proof fn lemma_no_self_ins_start(q: Seq<ScopeView>, s: ScopeView)
    requires
        forall|i: int| 0 <= i < q.len() ==> no_self(#[trigger] q[i]),
        no_self(s),
    ensures
        forall|i: int|
            0 <= i < ins_scope_start(q, s).len() ==> no_self(#[trigger] ins_scope_start(q, s)[i]),
    decreases q,
{
    if q.len() == 0 {
        assert(ins_scope_start(q, s) =~= seq![s]);
    } else if q[0].range.start <= s.range.start {
        assert(forall|i: int| 0 <= i < q.len() - 1 ==> q.drop_first()[i] == #[trigger] q[i + 1]);
        lemma_no_self_ins_start(q.drop_first(), s);
        let out = ins_scope_start(q, s);
        let rest = ins_scope_start(q.drop_first(), s);
        assert forall|i: int| 0 <= i < out.len() implies no_self(#[trigger] out[i]) by {
            if i == 0 {
                assert(out[0] == q[0]);
            } else {
                assert(out[i] == rest[i - 1]);
            }
        }
    } else {
        let out = ins_scope_start(q, s);
        assert forall|i: int| 0 <= i < out.len() implies no_self(#[trigger] out[i]) by {
            if i > 0 {
                assert(out[i] == q[i - 1]);
            }
        }
    }
}

pub proof fn lemma_no_self_sort_start(cs: Seq<ScopeView>)
    requires
        forall|i: int| 0 <= i < cs.len() ==> no_self(#[trigger] cs[i]),
    ensures
        forall|i: int|
            0 <= i < sort_scopes_start(cs).len() ==> no_self(#[trigger] sort_scopes_start(cs)[i]),
    decreases cs,
{
    if cs.len() > 0 {
        assert(forall|i: int| 0 <= i < cs.len() - 1 ==> cs.drop_last()[i] == #[trigger] cs[i]);
        lemma_no_self_sort_start(cs.drop_last());
        lemma_no_self_ins_start(sort_scopes_start(cs.drop_last()), cs.last());
    }
}

/// Stabilization only reorders each scope's definitions and references,
/// so it cannot create a shared node between them.
pub proof fn lemma_no_self_stabilize(t: ScopeView)
    requires
        no_self(t),
    ensures
        no_self(stabilize_v(t)),
    decreases t, 1int,
{
    lemma_defs_avoid_sort(t.definitions, t.references);
    lemma_refs_avoid_sort(t.references, sort_defs(t.definitions));
    lemma_no_self_kids_pointwise(t.children);
    lemma_stabilize_kids_pointwise(t.children);
    let sk = stabilize_kids(t.children);
    assert forall|i: int| 0 <= i < sk.len() implies no_self(#[trigger] sk[i]) by {
        assert(sk[i] == stabilize_v(t.children[i]));
        lemma_no_self_stabilize(t.children[i]);
    }
    lemma_no_self_sort_start(sk);
    lemma_no_self_kids_pointwise(stabilize_v(t).children);
}

/// The collected scopes hold nothing at all yet.
pub open spec fn scopes_fresh(ss: Seq<ScopeView>) -> bool {
    forall|i: int|
        0 <= i < ss.len() ==> (#[trigger] ss[i]).definitions.len() == 0 && ss[i].references.len()
            == 0 && ss[i].children.len() == 0
}

pub proof fn lemma_fresh_no_refs(ss: Seq<ScopeView>)
    requires
        scopes_fresh(ss),
    ensures
        forall|i: int| 0 <= i < ss.len() ==> no_refs(#[trigger] ss[i]),
{
    assert forall|i: int| 0 <= i < ss.len() implies no_refs(#[trigger] ss[i]) by {
        lemma_no_refs_kids_pointwise(ss[i].children);
        assert(ss[i].children =~= Seq::<ScopeView>::empty());
    }
}

pub proof fn lemma_fresh_ins_size(q: Seq<ScopeView>, s: ScopeView)
    requires
        scopes_fresh(q),
        s.definitions.len() == 0 && s.references.len() == 0 && s.children.len() == 0,
    ensures
        scopes_fresh(ins_scope_size(q, s)),
    decreases q,
{
    if q.len() == 0 {
        assert(ins_scope_size(q, s) =~= seq![s]);
    } else if crate::sort::size_precedes(q[0], s) {
        assert(forall|i: int| 0 <= i < q.len() - 1 ==> q.drop_first()[i] == #[trigger] q[i + 1]);
        lemma_fresh_ins_size(q.drop_first(), s);
        let out = ins_scope_size(q, s);
        let rest = ins_scope_size(q.drop_first(), s);
        assert forall|i: int| 0 <= i < out.len() implies (#[trigger] out[i]).definitions.len() == 0
            && out[i].references.len() == 0 && out[i].children.len() == 0 by {
            if i == 0 {
                assert(out[0] == q[0]);
            } else {
                assert(out[i] == rest[i - 1]);
            }
        }
    } else {
        let out = ins_scope_size(q, s);
        assert forall|i: int| 0 <= i < out.len() implies (#[trigger] out[i]).definitions.len() == 0
            && out[i].references.len() == 0 && out[i].children.len() == 0 by {
            if i > 0 {
                assert(out[i] == q[i - 1]);
            }
        }
    }
}

pub proof fn lemma_fresh_sort_size(cs: Seq<ScopeView>)
    requires
        scopes_fresh(cs),
    ensures
        scopes_fresh(sort_scopes_size(cs)),
    decreases cs,
{
    if cs.len() > 0 {
        assert(forall|i: int| 0 <= i < cs.len() - 1 ==> cs.drop_last()[i] == #[trigger] cs[i]);
        lemma_fresh_sort_size(cs.drop_last());
        lemma_fresh_ins_size(sort_scopes_size(cs.drop_last()), cs.last());
    }
}

pub proof fn lemma_no_refs_insert_scopes(t: ScopeView, ss: Seq<ScopeView>)
    requires
        no_refs(t),
        forall|i: int| 0 <= i < ss.len() ==> no_refs(#[trigger] ss[i]),
    ensures
        no_refs(insert_scopes_v(t, ss)),
    decreases ss,
{
    if ss.len() > 0 {
        lemma_no_refs_insert_scope(t, ss[0]);
        assert(forall|i: int| 0 <= i < ss.len() - 1 ==> ss.drop_first()[i] == #[trigger] ss[i + 1]);
        lemma_no_refs_insert_scopes(insert_scope_v(t, ss[0]), ss.drop_first());
    }
}

pub proof fn lemma_no_refs_insert_defs(t: ScopeView, ds: Seq<DefView>)
    requires
        no_refs(t),
    ensures
        no_refs(insert_defs_v(t, ds)),
    decreases ds,
{
    if ds.len() > 0 {
        lemma_no_refs_insert_def(t, ds[0]);
        lemma_no_refs_insert_defs(insert_def_v(t, ds[0]), ds.drop_first());
    }
}

pub proof fn lemma_no_self_insert_refs(t: ScopeView, fs: Seq<RefView>)
    requires
        no_self(t),
    ensures
        no_self(insert_refs_v(t, fs)),
    decreases fs,
{
    if fs.len() > 0 {
        lemma_no_self_insert_ref(t, fs[0]);
        lemma_no_self_insert_refs(insert_ref_v(t, fs[0]), fs.drop_first());
    }
}

/// No self-reference, over the whole pipeline: in the finished, stabilized
/// tree no scope stores a reference captured at the node of one of its own
/// definitions. The collected scopes come in empty, as the classifier
/// makes them; a reference whose node coincides with a definition placed
/// anywhere on its descent path was dropped during placement.
pub proof fn lemma_no_self_reference(root: NodeInfo, c: crate::classify::ClassifiedView)
    requires
        scopes_fresh(c.scopes),
    ensures
        no_self(stabilize_v(build_tree_v(root, c))),
{
    let r0 = fresh_scope_view(root);
    lemma_no_refs_kids_pointwise(r0.children);
    assert(no_refs(r0));
    lemma_fresh_sort_size(c.scopes);
    lemma_fresh_no_refs(sort_scopes_size(c.scopes));
    lemma_no_refs_insert_scopes(r0, sort_scopes_size(c.scopes));
    let t1 = insert_scopes_v(r0, sort_scopes_size(c.scopes));
    lemma_no_refs_insert_defs(t1, sort_defs(c.defs));
    let t2 = insert_defs_v(t1, sort_defs(c.defs));
    lemma_no_refs_no_self(t2);
    lemma_no_self_insert_refs(t2, sort_refs(c.refs));
    lemma_no_self_stabilize(insert_refs_v(t2, sort_refs(c.refs)));
}

pub proof fn lemma_dec_digits_len(n: nat)
    ensures
        dec_digits(n).len() >= 1,
        n < 10 <==> dec_digits(n).len() == 1,
    decreases n,
{
    if n >= 10 {
        lemma_dec_digits_len(n / 10);
    }
}

/// Decimal digit strings are unique: equal digit sequences come from
/// equal numbers.
pub proof fn lemma_dec_digits_injective(a: nat, b: nat)
    requires
        dec_digits(a) == dec_digits(b),
    ensures
        a == b,
    decreases a,
{
    lemma_dec_digits_len(a);
    lemma_dec_digits_len(b);
    if a < 10 && b < 10 {
        assert(dec_digits(a)[0] == digit_char(a));
        assert(dec_digits(b)[0] == digit_char(b));
    } else if a >= 10 && b >= 10 {
        assert(dec_digits(a).last() == digit_char(a % 10));
        assert(dec_digits(b).last() == digit_char(b % 10));
        assert(dec_digits(a).drop_last() =~= dec_digits(a / 10));
        assert(dec_digits(b).drop_last() =~= dec_digits(b / 10));
        lemma_dec_digits_injective(a / 10, b / 10);
        assert(a % 10 == b % 10);
        assert(a == 10 * (a / 10) + a % 10);
        assert(b == 10 * (b / 10) + b % 10);
    }
}

/// Local symbols are unique: equal symbol text means equal ids.
pub proof fn lemma_local_symbol_injective(a: nat, b: nat)
    requires
        local_symbol(a) == local_symbol(b),
    ensures
        a == b,
{
    let p = seq!['l', 'o', 'c', 'a', 'l', ' '];
    assert((p + dec_digits(a)).skip(6) =~= dec_digits(a));
    assert((p + dec_digits(b)).skip(6) =~= dec_digits(b));
    lemma_dec_digits_injective(a, b);
}

/// Every symbol minted for a definition is distinct from every other: the
/// run of definition symbols repeats no entry.
pub proof fn lemma_def_syms_distinct(t: ScopeView, base: nat, p: int, q: int)
    requires
        0 <= p < def_syms(emit_scope(t, base)).len(),
        0 <= q < def_syms(emit_scope(t, base)).len(),
        p != q,
    ensures
        def_syms(emit_scope(t, base))[p] != def_syms(emit_scope(t, base))[q],
{
    lemma_def_syms_emit_scope(t, base);
    if def_syms(emit_scope(t, base))[p] == def_syms(emit_scope(t, base))[q] {
        assert(local_symbol((base + 1 + p) as nat) == local_symbol((base + 1 + q) as nat));
        lemma_local_symbol_injective((base + 1 + p) as nat, (base + 1 + q) as nat);
    }
}

/// Every occurrence of the list bears a symbol minted in the id window
/// `lo ..= hi`.
pub open spec fn syms_in(os: Seq<OccView>, lo: int, hi: int) -> bool {
    forall|j: int|
        0 <= j < os.len() ==> exists|k: int|
            lo <= k <= hi && (#[trigger] os[j]).symbol == #[trigger] local_symbol(k as nat)
}

/// Every occurrence of the list bears exactly the symbol `sym`.
pub open spec fn syms_all(os: Seq<OccView>, sym: Seq<char>) -> bool {
    forall|j: int| 0 <= j < os.len() ==> (#[trigger] os[j]).symbol == sym
}

pub proof fn lemma_refs_matching_syms(rs: Seq<RefView>, ident: Seq<char>, sym: Seq<char>)
    ensures
        syms_all(refs_matching(rs, ident, sym), sym),
    decreases rs,
{
    if rs.len() > 0 {
        lemma_refs_matching_syms(rs.drop_last(), ident, sym);
        let a = refs_matching(rs.drop_last(), ident, sym);
        let r = refs_matching(rs, ident, sym);
        assert forall|j: int| 0 <= j < r.len() implies (#[trigger] r[j]).symbol == sym by {
            if j < a.len() {
                assert(r[j] == a[j]);
            }
        }
    }
}

pub proof fn lemma_emit_for_child_syms(c: ScopeView, ident: Seq<char>, sym: Seq<char>)
    ensures
        syms_all(emit_for_child(c, ident, sym), sym),
    decreases c, 1int,
{
    if !scope_defines(c, ident) {
        lemma_refs_matching_syms(c.references, ident, sym);
        lemma_emit_for_children_syms(c.children, ident, sym);
        let a = refs_matching(c.references, ident, sym);
        let b = emit_for_children(c.children, ident, sym);
        assert forall|j: int| 0 <= j < (a + b).len() implies (#[trigger] (a + b)[j]).symbol
            == sym by {
            if j < a.len() {
                assert((a + b)[j] == a[j]);
            } else {
                assert((a + b)[j] == b[j - a.len()]);
            }
        }
    }
}

pub proof fn lemma_emit_for_children_syms(cs: Seq<ScopeView>, ident: Seq<char>, sym: Seq<char>)
    ensures
        syms_all(emit_for_children(cs, ident, sym), sym),
    decreases cs, 0int,
{
    if cs.len() > 0 {
        lemma_emit_for_children_syms(cs.drop_last(), ident, sym);
        lemma_emit_for_child_syms(cs.last(), ident, sym);
        let a = emit_for_children(cs.drop_last(), ident, sym);
        let b = emit_for_child(cs.last(), ident, sym);
        assert forall|j: int| 0 <= j < (a + b).len() implies (#[trigger] (a + b)[j]).symbol
            == sym by {
            if j < a.len() {
                assert((a + b)[j] == a[j]);
            } else {
                assert((a + b)[j] == b[j - a.len()]);
            }
        }
    }
}

pub proof fn lemma_block_syms(t: ScopeView, d: DefView, id: nat)
    ensures
        syms_all(def_block(t, d, id), local_symbol(id)),
{
    let sym = local_symbol(id);
    let own = seq![crate::emit::def_occ(d, sym)];
    let a = refs_matching(t.references, d.identifier, sym);
    let b = emit_for_children(t.children, d.identifier, sym);
    lemma_refs_matching_syms(t.references, d.identifier, sym);
    lemma_emit_for_children_syms(t.children, d.identifier, sym);
    assert forall|j: int| 0 <= j < (own + a + b).len() implies (#[trigger] (own + a
        + b)[j]).symbol == sym by {
        if j == 0 {
            assert((own + a + b)[0] == own[0]);
        } else if j < 1 + a.len() {
            assert((own + a + b)[j] == a[j - 1]);
        } else {
            assert((own + a + b)[j] == b[j - 1 - a.len()]);
        }
    }
}

pub proof fn lemma_emit_defs_syms(t: ScopeView, ds: Seq<DefView>, base: nat)
    ensures
        syms_in(emit_defs(t, ds, base), base + 1int, (base + ds.len()) as int),
    decreases ds,
{
    if ds.len() > 0 {
        lemma_emit_defs_syms(t, ds.drop_last(), base);
        lemma_block_syms(t, ds.last(), base + ds.len());
        let a = emit_defs(t, ds.drop_last(), base);
        let b = def_block(t, ds.last(), base + ds.len());
        assert forall|j: int| 0 <= j < (a + b).len() implies exists|k: int|
            base + 1 <= k <= base + ds.len() && (#[trigger] (a + b)[j]).symbol == #[trigger] local_symbol(
                k as nat,
            ) by {
            if j < a.len() {
                assert((a + b)[j] == a[j]);
                let k0 = choose|k: int|
                    base + 1 <= k <= base + ds.len() - 1 && a[j].symbol == #[trigger] local_symbol(k as nat);
                assert(base + 1 <= k0 <= base + ds.len() && (a + b)[j].symbol == local_symbol(
                    k0 as nat,
                ));
            } else {
                assert((a + b)[j] == b[j - a.len()]);
                let k0: int = base + ds.len() as int;
                assert(base + 1 <= k0 <= base + ds.len() && (a + b)[j].symbol == local_symbol(
                    k0 as nat,
                ));
            }
        }
    }
}

pub proof fn lemma_emit_scope_syms(t: ScopeView, base: nat)
    ensures
        syms_in(emit_scope(t, base), base + 1int, (base + def_count(t)) as int),
    decreases t, 1int,
{
    lemma_emit_defs_syms(t, t.definitions, base);
    lemma_emit_kids_syms(t.children, (base + t.definitions.len()) as nat);
    let a = emit_defs(t, t.definitions, base);
    let b = emit_kids(t.children, (base + t.definitions.len()) as nat);
    assert forall|j: int| 0 <= j < (a + b).len() implies exists|k: int|
        base + 1 <= k <= base + def_count(t) && (#[trigger] (a + b)[j]).symbol
            == #[trigger] local_symbol(k as nat) by {
        if j < a.len() {
            assert((a + b)[j] == a[j]);
            let k0 = choose|k: int|
                base + 1 <= k <= base + t.definitions.len() && a[j].symbol == #[trigger] local_symbol(
                    k as nat,
                );
            assert(base + 1 <= k0 <= base + def_count(t) && (a + b)[j].symbol == local_symbol(
                k0 as nat,
            ));
        } else {
            assert((a + b)[j] == b[j - a.len()]);
            let lo: int = base + t.definitions.len() + 1int;
            let hi: int = base + t.definitions.len() + def_count_kids(t.children) as int;
            let k0 = choose|k: int| lo <= k <= hi && b[j - a.len()].symbol == #[trigger] local_symbol(k as nat);
            assert(base + 1 <= k0 <= base + def_count(t) && (a + b)[j].symbol == local_symbol(
                k0 as nat,
            ));
        }
    }
}

pub proof fn lemma_emit_kids_syms(cs: Seq<ScopeView>, base: nat)
    ensures
        syms_in(emit_kids(cs, base), base + 1int, (base + def_count_kids(cs)) as int),
    decreases cs, 0int,
{
    if cs.len() > 0 {
        lemma_emit_kids_syms(cs.drop_last(), base);
        let mid: nat = (base + def_count_kids(cs.drop_last())) as nat;
        lemma_emit_scope_syms(cs.last(), mid);
        let a = emit_kids(cs.drop_last(), base);
        let b = emit_scope(cs.last(), mid);
        assert forall|j: int| 0 <= j < (a + b).len() implies exists|k: int|
            base + 1 <= k <= base + def_count_kids(cs) && (#[trigger] (a + b)[j]).symbol
                == #[trigger] local_symbol(k as nat) by {
            if j < a.len() {
                assert((a + b)[j] == a[j]);
                let k0 = choose|k: int|
                    base + 1 <= k <= base + def_count_kids(cs.drop_last()) && a[j].symbol
                        == #[trigger] local_symbol(k as nat);
                assert(base + 1 <= k0 <= base + def_count_kids(cs) && (a + b)[j].symbol
                    == local_symbol(k0 as nat));
            } else {
                assert((a + b)[j] == b[j - a.len()]);
                let k0 = choose|k: int|
                    mid + 1 <= k <= mid + def_count(cs.last()) && b[j - a.len()].symbol
                        == #[trigger] local_symbol(k as nat);
                assert(base + 1 <= k0 <= base + def_count_kids(cs) && (a + b)[j].symbol
                    == local_symbol(k0 as nat));
            }
        }
    }
}

/// If a symbol appears in the definition-symbol sequence, some occurrence
/// carries it with the definition role set.
pub proof fn lemma_def_syms_witness(os: Seq<OccView>, x: Seq<char>)
    requires
        exists|p: int| 0 <= p < def_syms(os).len() && def_syms(os)[p] == x,
    ensures
        exists|j: int|
            0 <= j < os.len() && (#[trigger] os[j]).symbol_roles == ROLE_DEFINITION && os[j].symbol
                == x,
    decreases os,
{
    let p = choose|p: int| 0 <= p < def_syms(os).len() && def_syms(os)[p] == x;
    let a = def_syms(os.drop_last());
    if p < a.len() {
        assert(def_syms(os)[p] == a[p]);
        lemma_def_syms_witness(os.drop_last(), x);
        let j = choose|j: int|
            0 <= j < os.drop_last().len() && (#[trigger] os.drop_last()[j]).symbol_roles
                == ROLE_DEFINITION && os.drop_last()[j].symbol == x;
        assert(os[j] == os.drop_last()[j]);
        assert(os[j].symbol_roles == ROLE_DEFINITION && os[j].symbol == x);
    } else {
        assert(os.last().symbol_roles == ROLE_DEFINITION);
        assert(def_syms(os)[p] == os.last().symbol);
        let j = os.len() - 1;
        assert(os[j].symbol_roles == ROLE_DEFINITION && os[j].symbol == x);
    }
}

/// Locality: in the emission of a whole scope, every occurrence without
/// the definition role bears the symbol of some occurrence with it.
pub proof fn lemma_locality_exists(t: ScopeView, base: nat, j: int)
    requires
        0 <= j < emit_scope(t, base).len(),
        emit_scope(t, base)[j].symbol_roles != ROLE_DEFINITION,
    ensures
        exists|jj: int|
            0 <= jj < emit_scope(t, base).len() && (#[trigger] emit_scope(t, base)[jj]).symbol_roles
                == ROLE_DEFINITION && emit_scope(t, base)[jj].symbol == emit_scope(t, base)[j].symbol,
{
    let os = emit_scope(t, base);
    lemma_emit_scope_syms(t, base);
    let k = choose|k: int| base + 1 <= k <= base + def_count(t) && os[j].symbol == #[trigger] local_symbol(k as nat);
    lemma_def_syms_emit_scope(t, base);
    assert(def_syms(os) == sym_run(base, def_count(t)));
    let p = k - base - 1;
    assert(def_syms(os)[p] == local_symbol(k as nat));
    lemma_def_syms_witness(os, os[j].symbol);
}

/// The number of definition-role occurrences among the first `j` entries.
pub open spec fn defs_before(os: Seq<OccView>, j: int) -> int
    decreases j,
{
    if j <= 0 {
        0
    } else {
        defs_before(os, j - 1) + (if os[j - 1].symbol_roles == ROLE_DEFINITION {
            1int
        } else {
            0int
        })
    }
}

pub proof fn lemma_def_sym_at(os: Seq<OccView>, j: int)
    requires
        0 <= j < os.len(),
        os[j].symbol_roles == ROLE_DEFINITION,
    ensures
        0 <= defs_before(os, j) < def_syms(os).len(),
        def_syms(os)[defs_before(os, j)] == os[j].symbol,
        defs_before(os, j + 1) == defs_before(os, j) + 1,
    decreases os.len(),
{
    lemma_defs_before_bounds(os, j);
    lemma_defs_before_prefix(os, os.len() - 1, j);
    if j == os.len() - 1 {
        lemma_defs_before_len(os.drop_last());
        assert(def_syms(os) == def_syms(os.drop_last()) + seq![os.last().symbol]);
    } else {
        assert(forall|i: int| 0 <= i < os.len() - 1 ==> os.drop_last()[i] == #[trigger] os[i]);
        lemma_def_sym_at(os.drop_last(), j);
        let a = def_syms(os.drop_last());
        assert(def_syms(os).len() >= a.len());
        assert(def_syms(os)[defs_before(os.drop_last(), j)] == a[defs_before(os.drop_last(), j)]);
    }
}

/// Over a prefix the definition counter agrees with the same counter of
/// the shortened sequence.
pub proof fn lemma_defs_before_prefix(os: Seq<OccView>, cut: int, j: int)
    requires
        0 <= j <= cut <= os.len() - 1,
    ensures
        defs_before(os.drop_last(), j) == defs_before(os, j),
    decreases j,
{
    if j > 0 {
        lemma_defs_before_prefix(os, cut, j - 1);
        assert(os.drop_last()[j - 1] == os[j - 1]);
    }
}

pub proof fn lemma_defs_before_bounds(os: Seq<OccView>, j: int)
    requires
        0 <= j <= os.len(),
    ensures
        0 <= defs_before(os, j) <= j,
    decreases j,
{
    if j > 0 {
        lemma_defs_before_bounds(os, j - 1);
    }
}

/// The definition counter over the whole list is the length of the
/// definition-symbol sequence.
pub proof fn lemma_defs_before_len(os: Seq<OccView>)
    ensures
        defs_before(os, os.len() as int) == def_syms(os).len(),
    decreases os,
{
    if os.len() > 0 {
        lemma_defs_before_len(os.drop_last());
        lemma_defs_before_prefix(os, os.len() - 1, os.len() - 1);
    }
}

pub proof fn lemma_defs_before_monotone(os: Seq<OccView>, j1: int, j2: int)
    requires
        0 <= j1 <= j2 <= os.len(),
    ensures
        defs_before(os, j1) <= defs_before(os, j2),
    decreases j2 - j1,
{
    if j1 < j2 {
        lemma_defs_before_monotone(os, j1, j2 - 1);
    }
}

/// Locality, the uniqueness half: two distinct occurrences that both bear
/// the definition role never share a symbol — every symbol has exactly one
/// defining occurrence.
pub proof fn lemma_locality_unique(t: ScopeView, base: nat, j1: int, j2: int)
    requires
        0 <= j1 < emit_scope(t, base).len(),
        0 <= j2 < emit_scope(t, base).len(),
        j1 != j2,
        emit_scope(t, base)[j1].symbol_roles == ROLE_DEFINITION,
        emit_scope(t, base)[j2].symbol_roles == ROLE_DEFINITION,
    ensures
        emit_scope(t, base)[j1].symbol != emit_scope(t, base)[j2].symbol,
{
    let os = emit_scope(t, base);
    let lo = if j1 < j2 {
        j1
    } else {
        j2
    };
    let hi = if j1 < j2 {
        j2
    } else {
        j1
    };
    lemma_def_sym_at(os, lo);
    lemma_def_sym_at(os, hi);
    lemma_defs_before_monotone(os, lo + 1, hi);
    lemma_def_syms_distinct(t, base, defs_before(os, lo), defs_before(os, hi));
}

/// The hypothesis of the no-self-reference law holds of every real match
/// set: the classifier only ever collects fresh, empty scopes.
pub proof fn lemma_classify_scopes_fresh(
    names: Seq<Seq<char>>,
    props: Seq<Seq<PropView>>,
    ms: Seq<MatchView>,
    src: Seq<u8>,
    acc: crate::classify::ClassifiedView,
)
    requires
        scopes_fresh(acc.scopes),
    ensures
        crate::classify::classify_all_v(names, props, ms, src, acc) matches Ok(c) ==> scopes_fresh(
            c.scopes,
        ),
    decreases ms,
{
    if ms.len() > 0 {
        match crate::classify::classify_match_v(names, props, ms[0], src) {
            Err(_) => {},
            Ok(k) => {
                let acc2 = match k {
                    crate::classify::MatchKindView::IsScope(n) => crate::classify::ClassifiedView {
                        scopes: acc.scopes.push(fresh_scope_view(n)),
                        ..acc
                    },
                    crate::classify::MatchKindView::IsDef(d) => crate::classify::ClassifiedView {
                        defs: acc.defs.push(d),
                        ..acc
                    },
                    crate::classify::MatchKindView::IsRef(f) => crate::classify::ClassifiedView {
                        refs: acc.refs.push(f),
                        ..acc
                    },
                };
                assert forall|i: int| 0 <= i < acc2.scopes.len() implies (
                #[trigger] acc2.scopes[i]).definitions.len() == 0 && acc2.scopes[i].references.len()
                    == 0 && acc2.scopes[i].children.len() == 0 by {
                    if i < acc.scopes.len() {
                        assert(acc2.scopes[i] == acc.scopes[i]);
                    }
                }
                lemma_classify_scopes_fresh(names, props, ms.drop_first(), src, acc2);
            },
        }
    }
}

// Canonical placement order. Definitions and references are stable-sorted
// by start byte before placement, so the tree is a function of the record
// set, not of the stream's order: over records with pairwise distinct
// start bytes the sort has exactly one possible output.
/// The records are in non-decreasing order of start byte.
pub open spec fn defs_by_start(ds: Seq<DefView>) -> bool {
    forall|i: int, j: int|
        0 <= i <= j < ds.len() ==> (#[trigger] ds[i]).node.start_byte <= (
        #[trigger] ds[j]).node.start_byte
}

/// No two records of the sequence start at the same byte.
pub open spec fn defs_distinct_starts(ds: Seq<DefView>) -> bool {
    forall|i: int, j: int|
        0 <= i < j < ds.len() ==> (#[trigger] ds[i]).node.start_byte != (
        #[trigger] ds[j]).node.start_byte
}

pub proof fn lemma_ins_def_multiset(q: Seq<DefView>, d: DefView)
    ensures
        ins_def(q, d).to_multiset() =~= q.to_multiset().insert(d),
    decreases q,
{
    broadcast use vstd::seq_lib::group_to_multiset_ensures;
    broadcast use vstd::multiset::group_multiset_axioms;

    if q.len() == 0 {
        assert(q =~= Seq::<DefView>::empty());
        assert(ins_def(q, d) =~= q.push(d));
    } else if q[0].node.start_byte <= d.node.start_byte {
        lemma_ins_def_multiset(q.drop_first(), d);
        let rest = ins_def(q.drop_first(), d);
        assert(ins_def(q, d) == seq![q[0]] + rest);
        vstd::seq_lib::lemma_multiset_commutative(seq![q[0]], rest);
        assert(q =~= seq![q[0]] + q.drop_first());
        vstd::seq_lib::lemma_multiset_commutative(seq![q[0]], q.drop_first());
        assert(ins_def(q, d).to_multiset() =~= q.to_multiset().insert(d));
    } else {
        assert(ins_def(q, d) == seq![d] + q);
        vstd::seq_lib::lemma_multiset_commutative(seq![d], q);
        assert(seq![d] =~= Seq::<DefView>::empty().push(d));
        assert(ins_def(q, d).to_multiset() =~= q.to_multiset().insert(d));
    }
}

pub proof fn lemma_ins_def_sorted(q: Seq<DefView>, d: DefView)
    requires
        defs_by_start(q),
    ensures
        defs_by_start(ins_def(q, d)),
    decreases q,
{
    broadcast use vstd::seq_lib::group_to_multiset_ensures;
    broadcast use vstd::multiset::group_multiset_axioms;

    let out = ins_def(q, d);
    if q.len() == 0 {
        assert(defs_by_start(out));
    } else if q[0].node.start_byte <= d.node.start_byte {
        assert(forall|i: int| 0 <= i < q.len() - 1 ==> q.drop_first()[i] == #[trigger] q[i + 1]);
        lemma_ins_def_sorted(q.drop_first(), d);
        lemma_ins_def_multiset(q.drop_first(), d);
        let rest = ins_def(q.drop_first(), d);
        assert forall|k: int| 0 <= k < rest.len() implies q[0].node.start_byte <= (
        #[trigger] rest[k]).node.start_byte by {
            assert(rest.contains(rest[k]));
            if rest[k] != d {
                assert(rest.to_multiset().count(rest[k]) > 0);
                assert(q.drop_first().to_multiset().count(rest[k]) > 0);
                assert(q.drop_first().contains(rest[k]));
                let idx = choose|idx: int|
                    0 <= idx < q.drop_first().len() && q.drop_first()[idx] == rest[k];
                assert(q.drop_first()[idx] == q[idx + 1]);
            }
        }
        assert forall|i: int, j: int| 0 <= i <= j < out.len() implies (
        #[trigger] out[i]).node.start_byte <= (#[trigger] out[j]).node.start_byte by {
            if i > 0 {
                assert(out[i] == rest[i - 1]);
                assert(out[j] == rest[j - 1]);
            } else if j > 0 {
                assert(out[j] == rest[j - 1]);
            }
        }
    } else {
        assert forall|i: int, j: int| 0 <= i <= j < out.len() implies (
        #[trigger] out[i]).node.start_byte <= (#[trigger] out[j]).node.start_byte by {
            if i > 0 {
                assert(out[i] == q[i - 1]);
                assert(out[j] == q[j - 1]);
            } else if j > 0 {
                assert(out[j] == q[j - 1]);
            }
        }
    }
}

pub proof fn lemma_sort_defs_sorted(ds: Seq<DefView>)
    ensures
        defs_by_start(sort_defs(ds)),
    decreases ds,
{
    if ds.len() > 0 {
        lemma_sort_defs_sorted(ds.drop_last());
        lemma_ins_def_sorted(sort_defs(ds.drop_last()), ds.last());
    }
}

pub proof fn lemma_sort_defs_multiset(ds: Seq<DefView>)
    ensures
        sort_defs(ds).to_multiset() =~= ds.to_multiset(),
    decreases ds,
{
    broadcast use vstd::seq_lib::group_to_multiset_ensures;

    if ds.len() > 0 {
        lemma_sort_defs_multiset(ds.drop_last());
        lemma_ins_def_multiset(sort_defs(ds.drop_last()), ds.last());
        assert(ds =~= ds.drop_last().push(ds.last()));
        assert(ds.drop_last().push(ds.last()).to_multiset() =~= ds.drop_last().to_multiset().insert(
            ds.last(),
        ));
    }
}

/// Distinctness of start bytes is a property of the record set alone: it
/// carries over any permutation.
pub proof fn lemma_distinct_starts_permutation(a: Seq<DefView>, b: Seq<DefView>)
    requires
        a.to_multiset() == b.to_multiset(),
        defs_distinct_starts(a),
    ensures
        defs_distinct_starts(b),
{
    broadcast use vstd::seq_lib::group_to_multiset_ensures;
    broadcast use vstd::multiset::group_multiset_axioms;

    assert forall|i: int, j: int| 0 <= i < j < b.len() implies (#[trigger] b[i]).node.start_byte
        != (#[trigger] b[j]).node.start_byte by {
        if b[i].node.start_byte == b[j].node.start_byte {
            if b[i] == b[j] {
                assert(b.remove(i).to_multiset() =~= b.to_multiset().remove(b[i]));
                assert(b.remove(i)[j - 1] == b[j]);
                assert(b.remove(i).contains(b[j]));
                assert(b.remove(i).to_multiset().count(b[j]) > 0);
                assert(a.to_multiset().count(b[i]) >= 2);
                assert(a.contains(b[i]));
                let p = choose|p: int| 0 <= p < a.len() && a[p] == b[i];
                assert(a.remove(p).to_multiset() =~= a.to_multiset().remove(a[p]));
                assert(a.remove(p).to_multiset().count(b[i]) > 0);
                assert(a.remove(p).contains(b[i]));
                let q0 = choose|q0: int| 0 <= q0 < a.remove(p).len() && a.remove(p)[q0] == b[i];
                if q0 < p {
                    assert(a[q0] == a.remove(p)[q0]);
                } else {
                    assert(a[q0 + 1] == a.remove(p)[q0]);
                }
            } else {
                assert(b.contains(b[i]));
                assert(b.contains(b[j]));
                assert(a.to_multiset().count(b[i]) > 0);
                assert(a.to_multiset().count(b[j]) > 0);
                assert(a.contains(b[i]));
                assert(a.contains(b[j]));
                let p = choose|p: int| 0 <= p < a.len() && a[p] == b[i];
                let q0 = choose|q0: int| 0 <= q0 < a.len() && a[q0] == b[j];
            }
        }
    }
}

/// A sequence sorted by start byte with pairwise distinct start bytes is
/// the only such arrangement of its records.
pub proof fn lemma_sorted_defs_unique(a: Seq<DefView>, b: Seq<DefView>)
    requires
        defs_by_start(a),
        defs_by_start(b),
        a.to_multiset() == b.to_multiset(),
        defs_distinct_starts(a),
    ensures
        a == b,
    decreases a.len(),
{
    broadcast use vstd::seq_lib::group_to_multiset_ensures;
    broadcast use vstd::multiset::group_multiset_axioms;

    assert(a.to_multiset().len() == a.len());
    assert(b.to_multiset().len() == b.len());
    if a.len() == 0 {
        assert(a =~= b);
    } else {
        assert(b.len() == a.len());
        assert(a.contains(a[0]));
        assert(b.to_multiset().count(a[0]) > 0);
        assert(b.contains(a[0]));
        let k = choose|k: int| 0 <= k < b.len() && b[k] == a[0];
        assert(b[0].node.start_byte <= b[k].node.start_byte);
        assert(b.contains(b[0]));
        assert(a.to_multiset().count(b[0]) > 0);
        assert(a.contains(b[0]));
        let m = choose|m: int| 0 <= m < a.len() && a[m] == b[0];
        assert(a[0].node.start_byte <= a[m].node.start_byte);
        assert(a[0].node.start_byte == b[0].node.start_byte);
        if m != 0 {
            assert(a[0].node.start_byte != a[m].node.start_byte);
        }
        assert(a[0] == b[0]);
        let a2 = a.drop_first();
        let b2 = b.drop_first();
        assert(a.remove(0) =~= a2);
        assert(b.remove(0) =~= b2);
        assert(a2.to_multiset() =~= a.to_multiset().remove(a[0]));
        assert(b2.to_multiset() =~= b.to_multiset().remove(b[0]));
        assert(a2.to_multiset() == b2.to_multiset());
        assert(forall|i: int| 0 <= i < a.len() - 1 ==> a2[i] == #[trigger] a[i + 1]);
        assert(forall|i: int| 0 <= i < b.len() - 1 ==> b2[i] == #[trigger] b[i + 1]);
        lemma_sorted_defs_unique(a2, b2);
        assert forall|i: int| 0 <= i < a.len() implies a[i] == b[i] by {
            if i > 0 {
                assert(a2[i - 1] == a[i]);
                assert(b2[i - 1] == b[i]);
            }
        }
        assert(a =~= b);
    }
}

/// Placement order of definitions is canonical: two streams that deliver
/// the same definitions — in any order — place them identically, as long
/// as no two distinct definitions start at the same byte.
pub proof fn lemma_sort_defs_canonical(ds1: Seq<DefView>, ds2: Seq<DefView>)
    requires
        ds1.to_multiset() == ds2.to_multiset(),
        defs_distinct_starts(ds1),
    ensures
        sort_defs(ds1) == sort_defs(ds2),
{
    lemma_sort_defs_sorted(ds1);
    lemma_sort_defs_sorted(ds2);
    lemma_sort_defs_multiset(ds1);
    lemma_sort_defs_multiset(ds2);
    lemma_distinct_starts_permutation(ds1, sort_defs(ds1));
    lemma_sorted_defs_unique(sort_defs(ds1), sort_defs(ds2));
}

/// The records are in non-decreasing order of start byte.
pub open spec fn refs_by_start(rs: Seq<RefView>) -> bool {
    forall|i: int, j: int|
        0 <= i <= j < rs.len() ==> (#[trigger] rs[i]).node.start_byte <= (
        #[trigger] rs[j]).node.start_byte
}

/// No two records of the sequence start at the same byte.
pub open spec fn refs_distinct_starts(rs: Seq<RefView>) -> bool {
    forall|i: int, j: int|
        0 <= i < j < rs.len() ==> (#[trigger] rs[i]).node.start_byte != (
        #[trigger] rs[j]).node.start_byte
}

pub proof fn lemma_ins_ref_multiset(q: Seq<RefView>, f: RefView)
    ensures
        ins_ref(q, f).to_multiset() =~= q.to_multiset().insert(f),
    decreases q,
{
    broadcast use vstd::seq_lib::group_to_multiset_ensures;
    broadcast use vstd::multiset::group_multiset_axioms;

    if q.len() == 0 {
        assert(q =~= Seq::<RefView>::empty());
        assert(ins_ref(q, f) =~= q.push(f));
    } else if q[0].node.start_byte <= f.node.start_byte {
        lemma_ins_ref_multiset(q.drop_first(), f);
        let rest = ins_ref(q.drop_first(), f);
        assert(ins_ref(q, f) == seq![q[0]] + rest);
        vstd::seq_lib::lemma_multiset_commutative(seq![q[0]], rest);
        assert(q =~= seq![q[0]] + q.drop_first());
        vstd::seq_lib::lemma_multiset_commutative(seq![q[0]], q.drop_first());
        assert(ins_ref(q, f).to_multiset() =~= q.to_multiset().insert(f));
    } else {
        assert(ins_ref(q, f) == seq![f] + q);
        vstd::seq_lib::lemma_multiset_commutative(seq![f], q);
        assert(seq![f] =~= Seq::<RefView>::empty().push(f));
        assert(ins_ref(q, f).to_multiset() =~= q.to_multiset().insert(f));
    }
}

pub proof fn lemma_ins_ref_sorted(q: Seq<RefView>, f: RefView)
    requires
        refs_by_start(q),
    ensures
        refs_by_start(ins_ref(q, f)),
    decreases q,
{
    broadcast use vstd::seq_lib::group_to_multiset_ensures;
    broadcast use vstd::multiset::group_multiset_axioms;

    let out = ins_ref(q, f);
    if q.len() == 0 {
        assert(refs_by_start(out));
    } else if q[0].node.start_byte <= f.node.start_byte {
        assert(forall|i: int| 0 <= i < q.len() - 1 ==> q.drop_first()[i] == #[trigger] q[i + 1]);
        lemma_ins_ref_sorted(q.drop_first(), f);
        lemma_ins_ref_multiset(q.drop_first(), f);
        let rest = ins_ref(q.drop_first(), f);
        assert forall|k: int| 0 <= k < rest.len() implies q[0].node.start_byte <= (
        #[trigger] rest[k]).node.start_byte by {
            assert(rest.contains(rest[k]));
            if rest[k] != f {
                assert(rest.to_multiset().count(rest[k]) > 0);
                assert(q.drop_first().to_multiset().count(rest[k]) > 0);
                assert(q.drop_first().contains(rest[k]));
                let idx = choose|idx: int|
                    0 <= idx < q.drop_first().len() && q.drop_first()[idx] == rest[k];
                assert(q.drop_first()[idx] == q[idx + 1]);
            }
        }
        assert forall|i: int, j: int| 0 <= i <= j < out.len() implies (
        #[trigger] out[i]).node.start_byte <= (#[trigger] out[j]).node.start_byte by {
            if i > 0 {
                assert(out[i] == rest[i - 1]);
                assert(out[j] == rest[j - 1]);
            } else if j > 0 {
                assert(out[j] == rest[j - 1]);
            }
        }
    } else {
        assert forall|i: int, j: int| 0 <= i <= j < out.len() implies (
        #[trigger] out[i]).node.start_byte <= (#[trigger] out[j]).node.start_byte by {
            if i > 0 {
                assert(out[i] == q[i - 1]);
                assert(out[j] == q[j - 1]);
            } else if j > 0 {
                assert(out[j] == q[j - 1]);
            }
        }
    }
}

pub proof fn lemma_sort_refs_sorted(rs: Seq<RefView>)
    ensures
        refs_by_start(sort_refs(rs)),
    decreases rs,
{
    if rs.len() > 0 {
        lemma_sort_refs_sorted(rs.drop_last());
        lemma_ins_ref_sorted(sort_refs(rs.drop_last()), rs.last());
    }
}

pub proof fn lemma_sort_refs_multiset(rs: Seq<RefView>)
    ensures
        sort_refs(rs).to_multiset() =~= rs.to_multiset(),
    decreases rs,
{
    broadcast use vstd::seq_lib::group_to_multiset_ensures;

    if rs.len() > 0 {
        lemma_sort_refs_multiset(rs.drop_last());
        lemma_ins_ref_multiset(sort_refs(rs.drop_last()), rs.last());
        assert(rs =~= rs.drop_last().push(rs.last()));
        assert(rs.drop_last().push(rs.last()).to_multiset() =~= rs.drop_last().to_multiset().insert(
            rs.last(),
        ));
    }
}

pub proof fn lemma_refs_distinct_starts_permutation(a: Seq<RefView>, b: Seq<RefView>)
    requires
        a.to_multiset() == b.to_multiset(),
        refs_distinct_starts(a),
    ensures
        refs_distinct_starts(b),
{
    broadcast use vstd::seq_lib::group_to_multiset_ensures;
    broadcast use vstd::multiset::group_multiset_axioms;

    assert forall|i: int, j: int| 0 <= i < j < b.len() implies (#[trigger] b[i]).node.start_byte
        != (#[trigger] b[j]).node.start_byte by {
        if b[i].node.start_byte == b[j].node.start_byte {
            if b[i] == b[j] {
                assert(b.remove(i).to_multiset() =~= b.to_multiset().remove(b[i]));
                assert(b.remove(i)[j - 1] == b[j]);
                assert(b.remove(i).contains(b[j]));
                assert(b.remove(i).to_multiset().count(b[j]) > 0);
                assert(a.to_multiset().count(b[i]) >= 2);
                assert(a.contains(b[i]));
                let p = choose|p: int| 0 <= p < a.len() && a[p] == b[i];
                assert(a.remove(p).to_multiset() =~= a.to_multiset().remove(a[p]));
                assert(a.remove(p).to_multiset().count(b[i]) > 0);
                assert(a.remove(p).contains(b[i]));
                let q0 = choose|q0: int| 0 <= q0 < a.remove(p).len() && a.remove(p)[q0] == b[i];
                if q0 < p {
                    assert(a[q0] == a.remove(p)[q0]);
                } else {
                    assert(a[q0 + 1] == a.remove(p)[q0]);
                }
            } else {
                assert(b.contains(b[i]));
                assert(b.contains(b[j]));
                assert(a.to_multiset().count(b[i]) > 0);
                assert(a.to_multiset().count(b[j]) > 0);
                assert(a.contains(b[i]));
                assert(a.contains(b[j]));
                let p = choose|p: int| 0 <= p < a.len() && a[p] == b[i];
                let q0 = choose|q0: int| 0 <= q0 < a.len() && a[q0] == b[j];
            }
        }
    }
}

pub proof fn lemma_sorted_refs_unique(a: Seq<RefView>, b: Seq<RefView>)
    requires
        refs_by_start(a),
        refs_by_start(b),
        a.to_multiset() == b.to_multiset(),
        refs_distinct_starts(a),
    ensures
        a == b,
    decreases a.len(),
{
    broadcast use vstd::seq_lib::group_to_multiset_ensures;
    broadcast use vstd::multiset::group_multiset_axioms;

    assert(a.to_multiset().len() == a.len());
    assert(b.to_multiset().len() == b.len());
    if a.len() == 0 {
        assert(a =~= b);
    } else {
        assert(b.len() == a.len());
        assert(a.contains(a[0]));
        assert(b.to_multiset().count(a[0]) > 0);
        assert(b.contains(a[0]));
        let k = choose|k: int| 0 <= k < b.len() && b[k] == a[0];
        assert(b[0].node.start_byte <= b[k].node.start_byte);
        assert(b.contains(b[0]));
        assert(a.to_multiset().count(b[0]) > 0);
        assert(a.contains(b[0]));
        let m = choose|m: int| 0 <= m < a.len() && a[m] == b[0];
        assert(a[0].node.start_byte <= a[m].node.start_byte);
        assert(a[0].node.start_byte == b[0].node.start_byte);
        if m != 0 {
            assert(a[0].node.start_byte != a[m].node.start_byte);
        }
        assert(a[0] == b[0]);
        let a2 = a.drop_first();
        let b2 = b.drop_first();
        assert(a.remove(0) =~= a2);
        assert(b.remove(0) =~= b2);
        assert(a2.to_multiset() =~= a.to_multiset().remove(a[0]));
        assert(b2.to_multiset() =~= b.to_multiset().remove(b[0]));
        assert(a2.to_multiset() == b2.to_multiset());
        assert(forall|i: int| 0 <= i < a.len() - 1 ==> a2[i] == #[trigger] a[i + 1]);
        assert(forall|i: int| 0 <= i < b.len() - 1 ==> b2[i] == #[trigger] b[i + 1]);
        lemma_sorted_refs_unique(a2, b2);
        assert forall|i: int| 0 <= i < a.len() implies a[i] == b[i] by {
            if i > 0 {
                assert(a2[i - 1] == a[i]);
                assert(b2[i - 1] == b[i]);
            }
        }
        assert(a =~= b);
    }
}

/// Placement order of references is canonical in the same way.
pub proof fn lemma_sort_refs_canonical(rs1: Seq<RefView>, rs2: Seq<RefView>)
    requires
        rs1.to_multiset() == rs2.to_multiset(),
        refs_distinct_starts(rs1),
    ensures
        sort_refs(rs1) == sort_refs(rs2),
{
    lemma_sort_refs_sorted(rs1);
    lemma_sort_refs_sorted(rs2);
    lemma_sort_refs_multiset(rs1);
    lemma_sort_refs_multiset(rs2);
    lemma_refs_distinct_starts_permutation(rs1, sort_refs(rs1));
    lemma_sorted_refs_unique(sort_refs(rs1), sort_refs(rs2));
}

/// The ordering guarantee of the pipeline: two classified match sets that
/// agree as sets — the same collected scopes, and the same definitions
/// and references in any stream order — build the same tree and so emit
/// the same occurrence list, provided no two distinct definitions and no
/// two distinct references start at the same byte.
pub proof fn lemma_placement_order_independent(
    root: NodeInfo,
    c1: crate::classify::ClassifiedView,
    c2: crate::classify::ClassifiedView,
)
    requires
        c1.scopes == c2.scopes,
        c1.defs.to_multiset() == c2.defs.to_multiset(),
        defs_distinct_starts(c1.defs),
        c1.refs.to_multiset() == c2.refs.to_multiset(),
        refs_distinct_starts(c1.refs),
    ensures
        build_tree_v(root, c1) == build_tree_v(root, c2),
        crate::emit::into_occurrences_v(build_tree_v(root, c1)) == crate::emit::into_occurrences_v(
            build_tree_v(root, c2),
        ),
{
    lemma_sort_defs_canonical(c1.defs, c2.defs);
    lemma_sort_refs_canonical(c1.refs, c2.refs);
}

/// Two ranges overlap only by containment: one contains the other or they
/// are disjoint.
pub open spec fn laminar(a: ByteRange, b: ByteRange) -> bool {
    a.spec_contains(b) || b.spec_contains(a) || a.end <= b.start || b.end <= a.start
}

/// The strict shape invariant of the data model: every child's range is
/// strictly inside its parent's, and sibling ranges overlap only by
/// containment, all the way down.
pub open spec fn wf_strict(t: ScopeView) -> bool
    decreases t, 1int,
{
    (forall|i: int|
        0 <= i < t.children.len() ==> t.range.spec_contains((#[trigger] t.children[i]).range)
            && t.range != t.children[i].range) && (forall|i: int, j: int|
        0 <= i < j < t.children.len() ==> laminar(
            (#[trigger] t.children[i]).range,
            (#[trigger] t.children[j]).range,
        )) && wf_strict_kids(t.children)
}

pub open spec fn wf_strict_kids(cs: Seq<ScopeView>) -> bool
    decreases cs, 0int,
{
    if cs.len() == 0 {
        true
    } else {
        wf_strict_kids(cs.drop_last()) && wf_strict(cs.last())
    }
}

pub proof fn lemma_wf_strict_kids_pointwise(cs: Seq<ScopeView>)
    ensures
        wf_strict_kids(cs) <==> (forall|i: int| 0 <= i < cs.len() ==> wf_strict(#[trigger] cs[i])),
    decreases cs,
{
    if cs.len() > 0 {
        lemma_wf_strict_kids_pointwise(cs.drop_last());
        assert(forall|i: int| 0 <= i < cs.len() - 1 ==> cs.drop_last()[i] == #[trigger] cs[i]);
        assert(cs.last() == cs[cs.len() - 1]);
        if forall|i: int| 0 <= i < cs.len() ==> wf_strict(#[trigger] cs[i]) {
            assert(forall|i: int|
                0 <= i < cs.len() - 1 ==> wf_strict(#[trigger] cs.drop_last()[i]));
        }
    }
}

/// `r` is laminar with, and distinct from, the range of every scope in
/// the tree.
pub open spec fn range_fits(t: ScopeView, r: ByteRange) -> bool
    decreases t, 1int,
{
    laminar(t.range, r) && t.range != r && range_fits_kids(t.children, r)
}

pub open spec fn range_fits_kids(cs: Seq<ScopeView>, r: ByteRange) -> bool
    decreases cs, 0int,
{
    if cs.len() == 0 {
        true
    } else {
        range_fits_kids(cs.drop_last(), r) && range_fits(cs.last(), r)
    }
}

pub proof fn lemma_range_fits_kids_pointwise(cs: Seq<ScopeView>, r: ByteRange)
    ensures
        range_fits_kids(cs, r) <==> (forall|i: int|
            0 <= i < cs.len() ==> range_fits(#[trigger] cs[i], r)),
    decreases cs,
{
    if cs.len() > 0 {
        lemma_range_fits_kids_pointwise(cs.drop_last(), r);
        assert(forall|i: int| 0 <= i < cs.len() - 1 ==> cs.drop_last()[i] == #[trigger] cs[i]);
        assert(cs.last() == cs[cs.len() - 1]);
        if forall|i: int| 0 <= i < cs.len() ==> range_fits(#[trigger] cs[i], r) {
            assert(forall|i: int|
                0 <= i < cs.len() - 1 ==> range_fits(#[trigger] cs.drop_last()[i], r));
        }
    }
}

/// One insertion keeps the strict shape invariant: the new scope is empty,
/// its range fits the whole tree (laminar with and distinct from every
/// scope range), and the tree's top contains it.
pub proof fn lemma_wf_strict_insert_scope(t: ScopeView, s: ScopeView)
    requires
        wf_strict(t),
        range_fits(t, s.range),
        t.range.spec_contains(s.range),
        s.children.len() == 0,
    ensures
        wf_strict(insert_scope_v(t, s)),
    decreases t,
{
    lemma_first_child_containing(t.children, s.range);
    lemma_wf_strict_kids_pointwise(t.children);
    lemma_range_fits_kids_pointwise(t.children, s.range);
    let i = first_child_containing(t.children, s.range);
    let out = insert_scope_v(t, s);
    if i < t.children.len() {
        lemma_wf_strict_insert_scope(t.children[i], s);
        assert(insert_scope_v(t.children[i], s).range == t.children[i].range);
        assert forall|k: int| 0 <= k < out.children.len() implies t.range.spec_contains(
            (#[trigger] out.children[k]).range,
        ) && t.range != out.children[k].range && wf_strict(out.children[k]) by {
            if k != i {
                assert(out.children[k] == t.children[k]);
            }
        }
        assert forall|k: int, l: int| 0 <= k < l < out.children.len() implies laminar(
            (#[trigger] out.children[k]).range,
            (#[trigger] out.children[l]).range,
        ) by {
            assert(out.children[k].range == t.children[k].range);
            assert(out.children[l].range == t.children[l].range);
        }
        lemma_wf_strict_kids_pointwise(out.children);
    } else {
        assert(wf_strict_kids(s.children));
        assert(wf_strict(s));
        assert forall|k: int| 0 <= k < out.children.len() implies t.range.spec_contains(
            (#[trigger] out.children[k]).range,
        ) && t.range != out.children[k].range && wf_strict(out.children[k]) by {
            if k < t.children.len() {
                assert(out.children[k] == t.children[k]);
            } else {
                assert(out.children[k] == s);
            }
        }
        assert forall|k: int, l: int| 0 <= k < l < out.children.len() implies laminar(
            (#[trigger] out.children[k]).range,
            (#[trigger] out.children[l]).range,
        ) by {
            if l < t.children.len() {
                assert(out.children[k] == t.children[k]);
                assert(out.children[l] == t.children[l]);
            } else {
                assert(out.children[l] == s);
                assert(out.children[k] == t.children[k]);
                assert(range_fits(t.children[k], s.range));
            }
        }
        lemma_wf_strict_kids_pointwise(out.children);
    }
}

/// Insertion of one scope keeps a later range fitting the tree, as long
/// as the two ranges fit each other.
pub proof fn lemma_range_fits_insert(t: ScopeView, s: ScopeView, r2: ByteRange)
    requires
        range_fits(t, r2),
        laminar(s.range, r2),
        s.range != r2,
        s.children.len() == 0,
    ensures
        range_fits(insert_scope_v(t, s), r2),
    decreases t,
{
    lemma_first_child_containing(t.children, s.range);
    lemma_range_fits_kids_pointwise(t.children, r2);
    let i = first_child_containing(t.children, s.range);
    let out = insert_scope_v(t, s);
    if i < t.children.len() {
        lemma_range_fits_insert(t.children[i], s, r2);
        assert forall|k: int| 0 <= k < out.children.len() implies range_fits(
            #[trigger] out.children[k],
            r2,
        ) by {
            if k != i {
                assert(out.children[k] == t.children[k]);
            }
        }
        lemma_range_fits_kids_pointwise(out.children, r2);
    } else {
        assert(range_fits_kids(s.children, r2));
        assert(range_fits(s, r2));
        assert forall|k: int| 0 <= k < out.children.len() implies range_fits(
            #[trigger] out.children[k],
            r2,
        ) by {
            if k < t.children.len() {
                assert(out.children[k] == t.children[k]);
            } else {
                assert(out.children[k] == s);
            }
        }
        lemma_range_fits_kids_pointwise(out.children, r2);
    }
}

/// The collected scope ranges form a laminar family of distinct ranges,
/// all strictly inside `r`.
pub open spec fn scopes_laminar(ss: Seq<ScopeView>, r: ByteRange) -> bool {
    (forall|k: int|
        0 <= k < ss.len() ==> r.spec_contains((#[trigger] ss[k]).range) && r != ss[k].range) && (
    forall|k: int, l: int|
        0 <= k < l < ss.len() ==> laminar((#[trigger] ss[k]).range, (#[trigger] ss[l]).range) && ss[k].range
            != ss[l].range)
}

pub proof fn lemma_wf_strict_insert_scopes(t: ScopeView, ss: Seq<ScopeView>)
    requires
        wf_strict(t),
        forall|k: int| 0 <= k < ss.len() ==> range_fits(t, (#[trigger] ss[k]).range),
        forall|k: int| 0 <= k < ss.len() ==> t.range.spec_contains((#[trigger] ss[k]).range),
        forall|k: int|
            0 <= k < ss.len() ==> (#[trigger] ss[k]).children.len() == 0,
        forall|k: int, l: int|
            0 <= k < l < ss.len() ==> laminar((#[trigger] ss[k]).range, (#[trigger] ss[l]).range)
                && ss[k].range != ss[l].range,
    ensures
        wf_strict(insert_scopes_v(t, ss)),
    decreases ss,
{
    if ss.len() > 0 {
        lemma_wf_strict_insert_scope(t, ss[0]);
        let t2 = insert_scope_v(t, ss[0]);
        assert(t2.range == t.range);
        assert forall|k: int| 0 <= k < ss.len() - 1 implies range_fits(
            t2,
            (#[trigger] ss.drop_first()[k]).range,
        ) by {
            assert(ss.drop_first()[k] == ss[k + 1]);
            assert(laminar(ss[0].range, ss[k + 1].range));
            lemma_range_fits_insert(t, ss[0], ss[k + 1].range);
        }
        assert(forall|k: int| 0 <= k < ss.len() - 1 ==> ss.drop_first()[k] == #[trigger] ss[k + 1]);
        lemma_wf_strict_insert_scopes(t2, ss.drop_first());
    }
}

/// Definition placement never moves a scope: the shape invariant is kept.
pub proof fn lemma_wf_strict_insert_def_local(t: ScopeView, d: DefView)
    requires
        wf_strict(t),
    ensures
        wf_strict(insert_def_local_v(t, d)),
    decreases t,
{
    lemma_first_child_containing(t.children, d.range);
    lemma_wf_strict_kids_pointwise(t.children);
    let i = first_child_containing(t.children, d.range);
    let out = insert_def_local_v(t, d);
    if i < t.children.len() {
        lemma_wf_strict_insert_def_local(t.children[i], d);
        assert(insert_def_local_v(t.children[i], d).range == t.children[i].range);
        assert forall|k: int| 0 <= k < out.children.len() implies t.range.spec_contains(
            (#[trigger] out.children[k]).range,
        ) && t.range != out.children[k].range && wf_strict(out.children[k]) by {
            if k != i {
                assert(out.children[k] == t.children[k]);
            }
        }
        assert forall|k: int, l: int| 0 <= k < l < out.children.len() implies laminar(
            (#[trigger] out.children[k]).range,
            (#[trigger] out.children[l]).range,
        ) by {
            assert(out.children[k].range == t.children[k].range);
            assert(out.children[l].range == t.children[l].range);
        }
        lemma_wf_strict_kids_pointwise(out.children);
    }
}

pub proof fn lemma_wf_strict_insert_def_parent(t: ScopeView, d: DefView)
    requires
        wf_strict(t),
    ensures
        wf_strict(insert_def_parent_v(t, d)),
    decreases t,
{
    lemma_first_child_containing(t.children, d.range);
    lemma_wf_strict_kids_pointwise(t.children);
    let i = first_child_containing(t.children, d.range);
    let out = insert_def_parent_v(t, d);
    if i < t.children.len() {
        let c = t.children[i];
        lemma_first_child_containing(c.children, d.range);
        if first_child_containing(c.children, d.range) < c.children.len() {
            lemma_wf_strict_insert_def_parent(c, d);
            assert(insert_def_parent_v(c, d).range == c.range);
            assert forall|k: int| 0 <= k < out.children.len() implies t.range.spec_contains(
                (#[trigger] out.children[k]).range,
            ) && t.range != out.children[k].range && wf_strict(out.children[k]) by {
                if k != i {
                    assert(out.children[k] == t.children[k]);
                }
            }
            assert forall|k: int, l: int| 0 <= k < l < out.children.len() implies laminar(
                (#[trigger] out.children[k]).range,
                (#[trigger] out.children[l]).range,
            ) by {
                assert(out.children[k].range == t.children[k].range);
                assert(out.children[l].range == t.children[l].range);
            }
            lemma_wf_strict_kids_pointwise(out.children);
        }
    }
}

pub proof fn lemma_wf_strict_insert_def(t: ScopeView, d: DefView)
    requires
        wf_strict(t),
    ensures
        wf_strict(insert_def_v(t, d)),
{
    match d.scope_modifier {
        crate::model::ScopeModifier::Global => {},
        crate::model::ScopeModifier::Parent => lemma_wf_strict_insert_def_parent(t, d),
        crate::model::ScopeModifier::Local => lemma_wf_strict_insert_def_local(t, d),
    }
}

/// Reference placement never moves a scope either.
pub proof fn lemma_wf_strict_insert_ref(t: ScopeView, f: RefView)
    requires
        wf_strict(t),
    ensures
        wf_strict(insert_ref_v(t, f)),
    decreases t,
{
    if !has_def_with_node(t.definitions, f.node.id) {
        lemma_first_child_containing(t.children, f.range);
        lemma_wf_strict_kids_pointwise(t.children);
        let i = first_child_containing(t.children, f.range);
        let out = insert_ref_v(t, f);
        if i < t.children.len() {
            lemma_wf_strict_insert_ref(t.children[i], f);
            assert(insert_ref_v(t.children[i], f).range == t.children[i].range);
            assert forall|k: int| 0 <= k < out.children.len() implies t.range.spec_contains(
                (#[trigger] out.children[k]).range,
            ) && t.range != out.children[k].range && wf_strict(out.children[k]) by {
                if k != i {
                    assert(out.children[k] == t.children[k]);
                }
            }
            assert forall|k: int, l: int| 0 <= k < l < out.children.len() implies laminar(
                (#[trigger] out.children[k]).range,
                (#[trigger] out.children[l]).range,
            ) by {
                assert(out.children[k].range == t.children[k].range);
                assert(out.children[l].range == t.children[l].range);
            }
            lemma_wf_strict_kids_pointwise(out.children);
        }
    }
}

pub proof fn lemma_wf_strict_insert_defs(t: ScopeView, ds: Seq<DefView>)
    requires
        wf_strict(t),
    ensures
        wf_strict(insert_defs_v(t, ds)),
    decreases ds,
{
    if ds.len() > 0 {
        lemma_wf_strict_insert_def(t, ds[0]);
        lemma_wf_strict_insert_defs(insert_def_v(t, ds[0]), ds.drop_first());
    }
}

pub proof fn lemma_wf_strict_insert_refs(t: ScopeView, fs: Seq<RefView>)
    requires
        wf_strict(t),
    ensures
        wf_strict(insert_refs_v(t, fs)),
    decreases fs,
{
    if fs.len() > 0 {
        lemma_wf_strict_insert_ref(t, fs[0]);
        lemma_wf_strict_insert_refs(insert_ref_v(t, fs[0]), fs.drop_first());
    }
}

pub proof fn lemma_ins_scope_size_multiset(q: Seq<ScopeView>, x: ScopeView)
    ensures
        ins_scope_size(q, x).to_multiset() =~= q.to_multiset().insert(x),
    decreases q,
{
    broadcast use vstd::seq_lib::group_to_multiset_ensures;
    broadcast use vstd::multiset::group_multiset_axioms;

    if q.len() == 0 {
        assert(q =~= Seq::<ScopeView>::empty());
        assert(ins_scope_size(q, x) =~= q.push(x));
    } else if crate::sort::size_precedes(q[0], x) {
        lemma_ins_scope_size_multiset(q.drop_first(), x);
        let rest = ins_scope_size(q.drop_first(), x);
        assert(ins_scope_size(q, x) == seq![q[0]] + rest);
        vstd::seq_lib::lemma_multiset_commutative(seq![q[0]], rest);
        assert(q =~= seq![q[0]] + q.drop_first());
        vstd::seq_lib::lemma_multiset_commutative(seq![q[0]], q.drop_first());
        assert(ins_scope_size(q, x).to_multiset() =~= q.to_multiset().insert(x));
    } else {
        assert(ins_scope_size(q, x) == seq![x] + q);
        vstd::seq_lib::lemma_multiset_commutative(seq![x], q);
        assert(seq![x] =~= Seq::<ScopeView>::empty().push(x));
        assert(ins_scope_size(q, x).to_multiset() =~= q.to_multiset().insert(x));
    }
}

pub proof fn lemma_sort_scopes_size_multiset(cs: Seq<ScopeView>)
    ensures
        sort_scopes_size(cs).to_multiset() =~= cs.to_multiset(),
    decreases cs,
{
    broadcast use vstd::seq_lib::group_to_multiset_ensures;

    if cs.len() > 0 {
        lemma_sort_scopes_size_multiset(cs.drop_last());
        lemma_ins_scope_size_multiset(sort_scopes_size(cs.drop_last()), cs.last());
        assert(cs =~= cs.drop_last().push(cs.last()));
        assert(cs.drop_last().push(cs.last()).to_multiset() =~= cs.drop_last().to_multiset().insert(
            cs.last(),
        ));
    }
}

pub proof fn lemma_ins_scope_start_multiset(q: Seq<ScopeView>, x: ScopeView)
    ensures
        ins_scope_start(q, x).to_multiset() =~= q.to_multiset().insert(x),
    decreases q,
{
    broadcast use vstd::seq_lib::group_to_multiset_ensures;
    broadcast use vstd::multiset::group_multiset_axioms;

    if q.len() == 0 {
        assert(q =~= Seq::<ScopeView>::empty());
        assert(ins_scope_start(q, x) =~= q.push(x));
    } else if q[0].range.start <= x.range.start {
        lemma_ins_scope_start_multiset(q.drop_first(), x);
        let rest = ins_scope_start(q.drop_first(), x);
        assert(ins_scope_start(q, x) == seq![q[0]] + rest);
        vstd::seq_lib::lemma_multiset_commutative(seq![q[0]], rest);
        assert(q =~= seq![q[0]] + q.drop_first());
        vstd::seq_lib::lemma_multiset_commutative(seq![q[0]], q.drop_first());
        assert(ins_scope_start(q, x).to_multiset() =~= q.to_multiset().insert(x));
    } else {
        assert(ins_scope_start(q, x) == seq![x] + q);
        vstd::seq_lib::lemma_multiset_commutative(seq![x], q);
        assert(seq![x] =~= Seq::<ScopeView>::empty().push(x));
        assert(ins_scope_start(q, x).to_multiset() =~= q.to_multiset().insert(x));
    }
}

pub proof fn lemma_sort_scopes_start_multiset(cs: Seq<ScopeView>)
    ensures
        sort_scopes_start(cs).to_multiset() =~= cs.to_multiset(),
    decreases cs,
{
    broadcast use vstd::seq_lib::group_to_multiset_ensures;

    if cs.len() > 0 {
        lemma_sort_scopes_start_multiset(cs.drop_last());
        lemma_ins_scope_start_multiset(sort_scopes_start(cs.drop_last()), cs.last());
        assert(cs =~= cs.drop_last().push(cs.last()));
        assert(cs.drop_last().push(cs.last()).to_multiset() =~= cs.drop_last().to_multiset().insert(
            cs.last(),
        ));
    }
}

/// A laminar family of distinct ranges stays one over any reordering.
pub proof fn lemma_scopes_laminar_permutation(a: Seq<ScopeView>, b: Seq<ScopeView>, r: ByteRange)
    requires
        a.to_multiset() == b.to_multiset(),
        scopes_laminar(a, r),
    ensures
        scopes_laminar(b, r),
{
    broadcast use vstd::seq_lib::group_to_multiset_ensures;
    broadcast use vstd::multiset::group_multiset_axioms;

    assert forall|k: int| 0 <= k < b.len() implies r.spec_contains((#[trigger] b[k]).range) && r
        != b[k].range by {
        assert(b.contains(b[k]));
        assert(a.to_multiset().count(b[k]) > 0);
        assert(a.contains(b[k]));
        let p = choose|p: int| 0 <= p < a.len() && a[p] == b[k];
    }
    assert forall|k: int, l: int| 0 <= k < l < b.len() implies laminar(
        (#[trigger] b[k]).range,
        (#[trigger] b[l]).range,
    ) && b[k].range != b[l].range by {
        if b[k] == b[l] {
            assert(b.remove(k).to_multiset() =~= b.to_multiset().remove(b[k]));
            assert(b.remove(k)[l - 1] == b[l]);
            assert(b.remove(k).contains(b[l]));
            assert(b.remove(k).to_multiset().count(b[l]) > 0);
            assert(a.to_multiset().count(b[k]) >= 2);
            assert(a.contains(b[k]));
            let p = choose|p: int| 0 <= p < a.len() && a[p] == b[k];
            assert(a.remove(p).to_multiset() =~= a.to_multiset().remove(a[p]));
            assert(a.remove(p).to_multiset().count(b[k]) > 0);
            assert(a.remove(p).contains(b[k]));
            let q0 = choose|q0: int| 0 <= q0 < a.remove(p).len() && a.remove(p)[q0] == b[k];
            if q0 < p {
                assert(a[q0] == a.remove(p)[q0]);
            } else {
                assert(a[q0 + 1] == a.remove(p)[q0]);
            }
        } else {
            assert(b.contains(b[k]));
            assert(b.contains(b[l]));
            assert(a.to_multiset().count(b[k]) > 0);
            assert(a.to_multiset().count(b[l]) > 0);
            assert(a.contains(b[k]));
            assert(a.contains(b[l]));
            let p = choose|p: int| 0 <= p < a.len() && a[p] == b[k];
            let q0 = choose|q0: int| 0 <= q0 < a.len() && a[q0] == b[l];
        }
    }
}

/// Stabilization reorders children without moving any scope: the strict
/// shape invariant is kept.
pub proof fn lemma_wf_strict_stabilize(t: ScopeView)
    requires
        wf_strict(t),
    ensures
        wf_strict(stabilize_v(t)),
        stabilize_v(t).range == t.range,
    decreases t,
{
    broadcast use vstd::seq_lib::group_to_multiset_ensures;
    broadcast use vstd::multiset::group_multiset_axioms;

    lemma_wf_strict_kids_pointwise(t.children);
    lemma_stabilize_kids_pointwise(t.children);
    let sk = stabilize_kids(t.children);
    assert forall|i: int| 0 <= i < sk.len() implies t.range.spec_contains(
        (#[trigger] sk[i]).range,
    ) && t.range != sk[i].range && wf_strict(sk[i]) by {
        assert(sk[i] == stabilize_v(t.children[i]));
        lemma_wf_strict_stabilize(t.children[i]);
    }
    let sc = sort_scopes_start(sk);
    lemma_sort_scopes_start_multiset(sk);
    assert forall|k: int| 0 <= k < sc.len() implies t.range.spec_contains(
        (#[trigger] sc[k]).range,
    ) && t.range != sc[k].range && wf_strict(sc[k]) by {
        assert(sc.contains(sc[k]));
        assert(sk.to_multiset().count(sc[k]) > 0);
        assert(sk.contains(sc[k]));
        let p = choose|p: int| 0 <= p < sk.len() && sk[p] == sc[k];
    }
    assert forall|k: int, l: int| 0 <= k < l < sc.len() implies laminar(
        (#[trigger] sc[k]).range,
        (#[trigger] sc[l]).range,
    ) by {
        assert(sc.contains(sc[k]));
        assert(sc.contains(sc[l]));
        assert(sk.to_multiset().count(sc[k]) > 0);
        assert(sk.to_multiset().count(sc[l]) > 0);
        assert(sk.contains(sc[k]));
        assert(sk.contains(sc[l]));
        let p = choose|p: int| 0 <= p < sk.len() && sk[p] == sc[k];
        let q0 = choose|q0: int| 0 <= q0 < sk.len() && sk[q0] == sc[l];
        assert(sk[p].range == t.children[p].range);
        assert(sk[q0].range == t.children[q0].range);
        if p == q0 {
            assert(sc[k].range.spec_contains(sc[l].range));
        } else if p < q0 {
            assert(laminar(t.children[p].range, t.children[q0].range));
        } else {
            assert(laminar(t.children[q0].range, t.children[p].range));
        }
    }
    lemma_wf_strict_kids_pointwise(sc);
}

/// The full shape invariant of the data model, over the whole pipeline:
/// when the collected scope ranges form a laminar family of distinct
/// ranges strictly inside the root's, the finished, stabilized tree has
/// every child strictly inside its parent and sibling ranges overlapping
/// only by containment.
pub proof fn lemma_tree_shape(root: NodeInfo, c: crate::classify::ClassifiedView)
    requires
        scopes_laminar(c.scopes, fresh_scope_view(root).range),
        scopes_fresh(c.scopes),
    ensures
        wf_strict(build_tree_v(root, c)),
        wf_strict(stabilize_v(build_tree_v(root, c))),
{
    let r0 = fresh_scope_view(root);
    lemma_wf_strict_kids_pointwise(r0.children);
    assert(wf_strict(r0));
    let sorted = sort_scopes_size(c.scopes);
    lemma_sort_scopes_size_multiset(c.scopes);
    lemma_scopes_laminar_permutation(c.scopes, sorted, r0.range);
    lemma_fresh_sort_size(c.scopes);
    assert forall|k: int| 0 <= k < sorted.len() implies range_fits(
        r0,
        (#[trigger] sorted[k]).range,
    ) by {
        assert(range_fits_kids(r0.children, sorted[k].range));
    }
    lemma_wf_strict_insert_scopes(r0, sorted);
    let t1 = insert_scopes_v(r0, sorted);
    lemma_wf_strict_insert_defs(t1, sort_defs(c.defs));
    let t2 = insert_defs_v(t1, sort_defs(c.defs));
    lemma_wf_strict_insert_refs(t2, sort_refs(c.refs));
    lemma_wf_strict_stabilize(insert_refs_v(t2, sort_refs(c.refs)));
}

} // verus!

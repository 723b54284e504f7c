use vstd::prelude::*;

use crate::classify::{
    classified_empty, classify_all_v, classify_matches, match_views, name_views, props_views,
    Classified, ClassifiedView, PatternMatch, PatternProperty,
};
use crate::emit::{def_count, def_count_kids, emit_scope, occ_views};
use crate::model::{DefView, LocalError, NodeInfo, OccView, Occurrence, RefView};
use crate::scope::{
    def_views, fresh_scope_view, insert_def_local_v, insert_def_parent_v, insert_def_v,
    insert_ref_v, insert_scope_v, lemma_first_child_containing, lemma_first_def_named, ref_views,
    scope_views, upsert_def, Scope, ScopeView,
};
use crate::sort::{
    ins_scope_size, sort_defs, sort_defs_exec, sort_refs, sort_refs_exec, sort_scopes_size,
    sort_scopes_size_exec, stabilize_v,
};

verus! {

/// Insert collected scopes in order, each into its place in the tree.
pub open spec fn insert_scopes_v(t: ScopeView, ss: Seq<ScopeView>) -> ScopeView
    decreases ss,
{
    if ss.len() == 0 {
        t
    } else {
        insert_scopes_v(insert_scope_v(t, ss[0]), ss.drop_first())
    }
}

/// Place the definitions in order: a later definition of an identifier in
/// the same scope replaces an earlier one.
pub open spec fn insert_defs_v(t: ScopeView, ds: Seq<DefView>) -> ScopeView
    decreases ds,
{
    if ds.len() == 0 {
        t
    } else {
        insert_defs_v(insert_def_v(t, ds[0]), ds.drop_first())
    }
}

/// Place the references in order.
pub open spec fn insert_refs_v(t: ScopeView, fs: Seq<RefView>) -> ScopeView
    decreases fs,
{
    if fs.len() == 0 {
        t
    } else {
        insert_refs_v(insert_ref_v(t, fs[0]), fs.drop_first())
    }
}

/// The scope tree a classified match set builds: a root scope over the
/// root node, the collected scopes inserted widest first, then the
/// definitions, then the references. Definitions and references are put
/// into stable order of their start bytes before placement, so which of
/// two records the stream delivered first cannot decide the tree: the
/// last write under an identifier in a scope is the textually later one.
pub open spec fn build_tree_v(root: NodeInfo, c: ClassifiedView) -> ScopeView {
    insert_refs_v(
        insert_defs_v(
            insert_scopes_v(fresh_scope_view(root), sort_scopes_size(c.scopes)),
            sort_defs(c.defs),
        ),
        sort_refs(c.refs),
    )
}

/// The whole pipeline: classify, build the tree, stabilize, emit. With
/// placement canonicalized by start byte, stream order decides only which
/// of several fatal errors is reported, and ties between records whose
/// nodes start at the same byte.
pub open spec fn index_matches_v(
    root: NodeInfo,
    names: Seq<Seq<char>>,
    props: Seq<Seq<crate::classify::PropView>>,
    ms: Seq<crate::classify::MatchView>,
    src: Seq<u8>,
) -> Result<Seq<OccView>, LocalError> {
    match classify_all_v(names, props, ms, src, classified_empty()) {
        Err(e) => Err(e),
        Ok(c) => Ok(emit_scope(stabilize_v(build_tree_v(root, c)), 0)),
    }
}

pub proof fn lemma_upsert_def_len(ds: Seq<DefView>, d: DefView)
    ensures
        upsert_def(ds, d).len() <= ds.len() + 1,
{
    lemma_first_def_named(ds, d.identifier);
}

pub proof fn lemma_dck_update(cs: Seq<ScopeView>, i: int, x: ScopeView)
    requires
        0 <= i < cs.len(),
    ensures
        def_count_kids(cs.update(i, x)) + def_count(cs[i]) == def_count_kids(cs) + def_count(x),
    decreases cs,
{
    if i == cs.len() - 1 {
        assert(cs.update(i, x).drop_last() =~= cs.drop_last());
        assert(cs.update(i, x).last() == x);
    } else {
        assert(cs.update(i, x).drop_last() =~= cs.drop_last().update(i, x));
        assert(cs.update(i, x).last() == cs.last());
        assert(cs.drop_last()[i] == cs[i]);
        lemma_dck_update(cs.drop_last(), i, x);
    }
}

/// Scope insertion carries the inserted subtree's definitions with it and
/// no others.
pub proof fn lemma_dc_insert_scope(t: ScopeView, s: ScopeView)
    ensures
        def_count(insert_scope_v(t, s)) == def_count(t) + def_count(s),
    decreases t,
{
    lemma_first_child_containing(t.children, s.range);
    let i = crate::scope::first_child_containing(t.children, s.range);
    if i < t.children.len() {
        lemma_dc_insert_scope(t.children[i], s);
        lemma_dck_update(t.children, i, insert_scope_v(t.children[i], s));
    } else {
        assert(t.children.push(s).drop_last() =~= t.children);
    }
}

pub proof fn lemma_dc_insert_def_local(t: ScopeView, d: DefView)
    ensures
        def_count(insert_def_local_v(t, d)) <= def_count(t) + 1,
    decreases t,
{
    lemma_first_child_containing(t.children, d.range);
    let i = crate::scope::first_child_containing(t.children, d.range);
    if i < t.children.len() {
        lemma_dc_insert_def_local(t.children[i], d);
        lemma_dck_update(t.children, i, insert_def_local_v(t.children[i], d));
    } else {
        lemma_upsert_def_len(t.definitions, d);
    }
}

pub proof fn lemma_dc_insert_def_parent(t: ScopeView, d: DefView)
    ensures
        def_count(insert_def_parent_v(t, d)) <= def_count(t) + 1,
    decreases t,
{
    lemma_first_child_containing(t.children, d.range);
    let i = crate::scope::first_child_containing(t.children, d.range);
    if i < t.children.len() {
        let c = t.children[i];
        lemma_first_child_containing(c.children, d.range);
        if crate::scope::first_child_containing(c.children, d.range) < c.children.len() {
            lemma_dc_insert_def_parent(c, d);
            lemma_dck_update(t.children, i, insert_def_parent_v(c, d));
        } else {
            lemma_upsert_def_len(t.definitions, d);
        }
    } else {
        lemma_upsert_def_len(t.definitions, d);
    }
}

pub proof fn lemma_dc_insert_def(t: ScopeView, d: DefView)
    ensures
        def_count(insert_def_v(t, d)) <= def_count(t) + 1,
{
    match d.scope_modifier {
        crate::model::ScopeModifier::Global => lemma_upsert_def_len(t.definitions, d),
        crate::model::ScopeModifier::Parent => lemma_dc_insert_def_parent(t, d),
        crate::model::ScopeModifier::Local => lemma_dc_insert_def_local(t, d),
    }
}

pub proof fn lemma_dc_insert_ref(t: ScopeView, f: RefView)
    ensures
        def_count(insert_ref_v(t, f)) == def_count(t),
    decreases t,
{
    if !crate::scope::has_def_with_node(t.definitions, f.node.id) {
        lemma_first_child_containing(t.children, f.range);
        let i = crate::scope::first_child_containing(t.children, f.range);
        if i < t.children.len() {
            lemma_dc_insert_ref(t.children[i], f);
            lemma_dck_update(t.children, i, insert_ref_v(t.children[i], f));
        }
    }
}

/// Every scope in the sequence is still empty of definitions.
pub open spec fn all_zero(ss: Seq<ScopeView>) -> bool {
    forall|i: int| 0 <= i < ss.len() ==> def_count(#[trigger] ss[i]) == 0
}

pub proof fn lemma_ins_scope_size_zero(q: Seq<ScopeView>, s: ScopeView)
    requires
        all_zero(q),
        def_count(s) == 0,
    ensures
        all_zero(ins_scope_size(q, s)),
    decreases q,
{
    if q.len() == 0 {
        assert(ins_scope_size(q, s) =~= seq![s]);
        assert(forall|i: int|
            0 <= i < 1 ==> def_count(#[trigger] ins_scope_size(q, s)[i]) == 0);
    } else if crate::sort::size_precedes(q[0], s) {
        assert(forall|i: int| 0 <= i < q.len() - 1 ==> q.drop_first()[i] == #[trigger] q[i + 1]);
        lemma_ins_scope_size_zero(q.drop_first(), s);
        let r = ins_scope_size(q, s);
        let rest = ins_scope_size(q.drop_first(), s);
        assert forall|i: int| 0 <= i < r.len() implies def_count(#[trigger] r[i]) == 0 by {
            if i == 0 {
                assert(r[0] == q[0]);
            } else {
                assert(r[i] == rest[i - 1]);
            }
        }
    } else {
        let r = ins_scope_size(q, s);
        assert forall|i: int| 0 <= i < r.len() implies def_count(#[trigger] r[i]) == 0 by {
            if i == 0 {
                assert(r[0] == s);
            } else {
                assert(r[i] == q[i - 1]);
            }
        }
    }
}

pub proof fn lemma_sort_scopes_size_zero(cs: Seq<ScopeView>)
    requires
        all_zero(cs),
    ensures
        all_zero(sort_scopes_size(cs)),
    decreases cs,
{
    if cs.len() > 0 {
        assert(forall|i: int|
            0 <= i < cs.len() - 1 ==> cs.drop_last()[i] == #[trigger] cs[i]);
        lemma_sort_scopes_size_zero(cs.drop_last());
        lemma_ins_scope_size_zero(sort_scopes_size(cs.drop_last()), cs.last());
    }
}

pub proof fn lemma_dc_insert_scopes(t: ScopeView, ss: Seq<ScopeView>)
    requires
        all_zero(ss),
    ensures
        def_count(insert_scopes_v(t, ss)) == def_count(t),
    decreases ss,
{
    if ss.len() > 0 {
        lemma_dc_insert_scope(t, ss[0]);
        assert(forall|i: int| 0 <= i < ss.len() - 1 ==> ss.drop_first()[i] == #[trigger] ss[i + 1]);
        lemma_dc_insert_scopes(insert_scope_v(t, ss[0]), ss.drop_first());
    }
}

pub proof fn lemma_dc_insert_defs(t: ScopeView, ds: Seq<DefView>)
    ensures
        def_count(insert_defs_v(t, ds)) <= def_count(t) + ds.len(),
    decreases ds,
{
    if ds.len() > 0 {
        lemma_dc_insert_def(t, ds[0]);
        lemma_dc_insert_defs(insert_def_v(t, ds[0]), ds.drop_first());
    }
}

pub proof fn lemma_dc_insert_refs(t: ScopeView, fs: Seq<RefView>)
    ensures
        def_count(insert_refs_v(t, fs)) == def_count(t),
    decreases fs,
{
    if fs.len() > 0 {
        lemma_dc_insert_ref(t, fs[0]);
        lemma_dc_insert_refs(insert_ref_v(t, fs[0]), fs.drop_first());
    }
}

/// Every scope the classifier collects is fresh: it holds no definitions.
pub proof fn lemma_classify_scopes_zero(
    names: Seq<Seq<char>>,
    props: Seq<Seq<crate::classify::PropView>>,
    ms: Seq<crate::classify::MatchView>,
    src: Seq<u8>,
    acc: ClassifiedView,
)
    requires
        all_zero(acc.scopes),
    ensures
        classify_all_v(names, props, ms, src, acc) matches Ok(c) ==> all_zero(c.scopes),
    decreases ms,
{
    if ms.len() > 0 {
        match crate::classify::classify_match_v(names, props, ms[0], src) {
            Err(_) => {},
            Ok(k) => {
                let acc2 = match k {
                    crate::classify::MatchKindView::IsScope(n) => ClassifiedView {
                        scopes: acc.scopes.push(fresh_scope_view(n)),
                        ..acc
                    },
                    crate::classify::MatchKindView::IsDef(d) => ClassifiedView {
                        defs: acc.defs.push(d),
                        ..acc
                    },
                    crate::classify::MatchKindView::IsRef(f) => ClassifiedView {
                        refs: acc.refs.push(f),
                        ..acc
                    },
                };
                assert forall|i: int| 0 <= i < acc2.scopes.len() implies def_count(
                    #[trigger] acc2.scopes[i],
                ) == 0 by {
                    if i < acc.scopes.len() {
                        assert(acc2.scopes[i] == acc.scopes[i]);
                    } else {
                        assert(def_count_kids(Seq::<ScopeView>::empty()) == 0);
                    }
                }
                lemma_classify_scopes_zero(names, props, ms.drop_first(), src, acc2);
            },
        }
    }
}

/// Index one document's match stream: classify the matches, build the
/// scope tree, and emit the occurrence list, or stop at the first fatal
/// error. Definitions and references are placed in stable order of their
/// start bytes, not stream order, so permuting the stream can only change
/// which of several fatal errors is reported, or the outcome of a tie
/// between records whose nodes start at the same byte.
pub fn index_matches(
    root: NodeInfo,
    capture_names: &Vec<String>,
    properties: &Vec<Vec<PatternProperty>>,
    matches: &Vec<PatternMatch>,
    source: &Vec<u8>,
) -> (r: Result<Vec<Occurrence>, LocalError>)
    ensures
        match r {
            Ok(os) => index_matches_v(
                root,
                name_views(capture_names@),
                props_views(properties@),
                match_views(matches@),
                source@,
            ) == Ok::<Seq<OccView>, LocalError>(occ_views(os@)),
            Err(e) => index_matches_v(
                root,
                name_views(capture_names@),
                props_views(properties@),
                match_views(matches@),
                source@,
            ) == Err::<Seq<OccView>, LocalError>(e),
        },
{
    let ghost nv = name_views(capture_names@);
    let ghost pv = props_views(properties@);
    let ghost mv = match_views(matches@);
    let ghost sv = source@;
    let classified = match classify_matches(capture_names, properties, matches, source) {
        Err(e) => {
            return Err(e);
        },
        Ok(c) => c,
    };
    let ghost cview = classified@;
    proof {
        lemma_classify_scopes_zero(nv, pv, mv, sv, classified_empty());
    }
    let Classified { scopes, defs, refs } = classified;
    let hint = defs.len();
    let defs = sort_defs_exec(defs);
    let refs = sort_refs_exec(refs);
    let ghost total_defs = defs@.len();
    proof {
        crate::emit::lemma_sort_defs_len(cview.defs);
        assert(def_views(defs@) == sort_defs(cview.defs));
        assert(ref_views(refs@) == sort_refs(cview.refs));
    }
    let mut scopes = sort_scopes_size_exec(scopes);
    let ghost sorted = sort_scopes_size(cview.scopes);
    proof {
        lemma_sort_scopes_size_zero(cview.scopes);
    }
    let mut tree = Scope::new(root);
    let ghost target_scopes = insert_scopes_v(fresh_scope_view(root), sorted);
    proof {
        crate::scope::lemma_scope_views(scopes@);
        assert(def_count_kids(Seq::<ScopeView>::empty()) == 0);
        assert(def_count(tree@) == 0);
    }
    while scopes.len() > 0
        invariant
            scope_views(scopes@).len() == scopes.len(),
            all_zero(scope_views(scopes@)),
            def_count(tree@) == 0,
            insert_scopes_v(tree@, scope_views(scopes@)) == target_scopes,
        decreases scopes@.len(),
    {
        let ghost rem = scope_views(scopes@);
        let ghost v0 = scopes@;
        proof {
            crate::scope::lemma_scope_views(v0);
        }
        let s = scopes.remove(0);
        proof {
            assert(scopes@ =~= v0.drop_first());
            crate::sort::lemma_scope_views_drop_first(v0);
            assert(s@ == rem[0]);
            lemma_dc_insert_scope(tree@, s@);
        }
        tree = tree.insert_scope(s);
    }
    proof {
        assert(scope_views(scopes@) =~= Seq::<ScopeView>::empty());
        assert(tree@ == target_scopes);
    }
    let mut defs = defs;
    let ghost target_defs = insert_defs_v(target_scopes, sort_defs(cview.defs));
    while defs.len() > 0
        invariant
            def_views(defs@).len() == defs.len(),
            defs@.len() <= total_defs,
            def_count(tree@) + defs@.len() <= total_defs,
            insert_defs_v(tree@, def_views(defs@)) == target_defs,
        decreases defs@.len(),
    {
        let ghost rem = def_views(defs@);
        let ghost v0 = defs@;
        let d = defs.remove(0);
        proof {
            assert(defs@ =~= v0.drop_first());
            assert(def_views(v0.drop_first()) =~= def_views(v0).drop_first());
            assert(d@ == rem[0]);
            lemma_dc_insert_def(tree@, d@);
        }
        tree = tree.insert_definition(d);
    }
    proof {
        assert(def_views(defs@) =~= Seq::<DefView>::empty());
        assert(tree@ == target_defs);
    }
    let mut refs = refs;
    let ghost target_refs = insert_refs_v(target_defs, sort_refs(cview.refs));
    while refs.len() > 0
        invariant
            ref_views(refs@).len() == refs.len(),
            def_count(tree@) <= total_defs,
            insert_refs_v(tree@, ref_views(refs@)) == target_refs,
        decreases refs@.len(),
    {
        let ghost rem = ref_views(refs@);
        let ghost v0 = refs@;
        let f = refs.remove(0);
        proof {
            assert(refs@ =~= v0.drop_first());
            assert(ref_views(v0.drop_first()) =~= ref_views(v0).drop_first());
            assert(f@ == rem[0]);
            lemma_dc_insert_ref(tree@, f@);
        }
        tree = tree.insert_reference(f);
    }
    proof {
        assert(ref_views(refs@) =~= Seq::<RefView>::empty());
        assert(tree@ == target_refs);
        assert(tree@ == build_tree_v(root, cview));
    }
    let occurrences = tree.into_occurrences(hint);
    Ok(occurrences)
}

/// Index a parsed document: reduce the query's tables and the matcher's
/// stream to plain values at the trusted boundary, then run the verified
/// pipeline on them. Whatever the matcher produced, a successful result
/// is the exact indexing of some match stream over this source.
pub fn parse_tree(
    config: &crate::languages::LocalConfiguration,
    tree: &tree_sitter::Tree,
    source_bytes: &[u8],
) -> (r: Result<Vec<Occurrence>, LocalError>)
    ensures
        r matches Ok(os) ==> exists|
            root: NodeInfo,
            names: Seq<Seq<char>>,
            props: Seq<Seq<crate::classify::PropView>>,
            ms: Seq<crate::classify::MatchView>,
        |
            index_matches_v(root, names, props, ms, source_bytes@) == Ok::<
                Seq<OccView>,
                LocalError,
            >(occ_views(os@)),
        r matches Err(e) ==> exists|
            root: NodeInfo,
            names: Seq<Seq<char>>,
            props: Seq<Seq<crate::classify::PropView>>,
            ms: Seq<crate::classify::MatchView>,
        | index_matches_v(root, names, props, ms, source_bytes@) == Err::<
            Seq<OccView>,
            LocalError,
        >(e),
        r matches Ok(os) ==> exists|n: nat|
            crate::laws::def_syms(occ_views(os@)) == #[trigger] crate::laws::sym_run(0, n),
{
    let capture_names = crate::ts::query_capture_names(&config.query);
    let properties = crate::ts::query_property_table(&config.query);
    let matches = crate::ts::collect_matches(&config.query, tree, source_bytes);
    let root = crate::ts::tree_root_info(tree);
    let source = vstd::slice::slice_to_vec(source_bytes);
    let r = index_matches(root, &capture_names, &properties, &matches, &source);
    proof {
        let nv = name_views(capture_names@);
        let pv = props_views(properties@);
        let mv = match_views(matches@);
        let rg = r;
        match rg {
            Ok(os) => {
                assert(index_matches_v(root, nv, pv, mv, source_bytes@) == Ok::<
                    Seq<OccView>,
                    LocalError,
                >(occ_views(os@)));
                let c = classify_all_v(nv, pv, mv, source_bytes@, classified_empty()).unwrap();
                let t = crate::sort::stabilize_v(build_tree_v(root, c));
                crate::laws::lemma_def_syms_emit_scope(t, 0);
                assert(crate::laws::def_syms(occ_views(os@)) == crate::laws::sym_run(
                    0,
                    def_count(t),
                ));
            },
            Err(e) => {
                assert(index_matches_v(root, nv, pv, mv, source_bytes@) == Err::<
                    Seq<OccView>,
                    LocalError,
                >(e));
            },
        }
    }
    r
}

} // verus!

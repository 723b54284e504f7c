use vstd::prelude::*;
use vstd::string::StrSliceExecFns;

use crate::model::{DefView, Definition, LocalError, NodeInfo, RefView, Reference, ScopeModifier};
use crate::scope::{fresh_scope_view, Scope, ScopeView};

verus! {

/// A capture inside one pattern match: an index into the query's capture
/// name table, and the node it matched.
#[derive(Debug, Clone, Copy, PartialEq, Eq, Structural)]
pub struct CaptureInfo {
    pub index: usize,
    pub node: NodeInfo,
}

/// One match of the external pattern matcher, reduced to plain values.
#[derive(Debug, Clone)]
pub struct PatternMatch {
    pub pattern_index: usize,
    pub captures: Vec<CaptureInfo>,
}

#[verifier::ext_equal]
pub ghost struct MatchView {
    pub pattern_index: usize,
    pub captures: Seq<CaptureInfo>,
}

impl View for PatternMatch {
    type V = MatchView;

    open spec fn view(&self) -> MatchView {
        MatchView { pattern_index: self.pattern_index, captures: self.captures@ }
    }
}

/// A key/value property setting attached to a pattern of the query.
#[derive(Debug, Clone)]
pub struct PatternProperty {
    pub key: String,
    pub value: Option<String>,
}

#[verifier::ext_equal]
pub ghost struct PropView {
    pub key: Seq<char>,
    pub value: Option<Seq<char>>,
}

impl View for PatternProperty {
    type V = PropView;

    open spec fn view(&self) -> PropView {
        PropView {
            key: self.key@,
            value: match self.value {
                Some(ref v) => Some(v@),
                None => None,
            },
        }
    }
}

pub open spec fn name_views(ns: Seq<String>) -> Seq<Seq<char>> {
    ns.map_values(|n: String| n@)
}

pub open spec fn prop_views(ps: Seq<PatternProperty>) -> Seq<PropView> {
    ps.map_values(|p: PatternProperty| p@)
}

pub open spec fn props_views(pps: Seq<Vec<PatternProperty>>) -> Seq<Seq<PropView>> {
    pps.map_values(|v: Vec<PatternProperty>| prop_views(v@))
}

pub open spec fn match_views(ms: Seq<PatternMatch>) -> Seq<MatchView> {
    ms.map_values(|m: PatternMatch| m@)
}

/// `p` is a prefix of `s`.
pub open spec fn has_prefix(s: Seq<char>, p: Seq<char>) -> bool {
    p.len() <= s.len() && forall|i: int| 0 <= i < p.len() ==> s[i] == p[i]
}

/// Prefix test over the characters of two string slices.
pub fn str_has_prefix(s: &str, p: &str) -> (r: bool)
    ensures
        r == has_prefix(s@, p@),
{
    let n = p.unicode_len();
    let m = s.unicode_len();
    if n > m {
        return false;
    }
    let mut i: usize = 0;
    while i < n
        invariant
            0 <= i <= n,
            n == p@.len(),
            m == s@.len(),
            n <= m,
            forall|j: int| 0 <= j < i ==> s@[j] == p@[j],
        decreases n - i,
    {
        if s.get_char(i) != p.get_char(i) {
            return false;
        }
        i = i + 1;
    }
    true
}

/// Character-for-character equality of two string slices.
pub fn str_eq_str(a: &str, b: &str) -> (r: bool)
    ensures
        r == (a@ == b@),
{
    let n = a.unicode_len();
    if n != b.unicode_len() {
        return false;
    }
    let mut i: usize = 0;
    while i < n
        invariant
            0 <= i <= n,
            n == a@.len(),
            n == b@.len(),
            forall|j: int| 0 <= j < i ==> a@[j] == b@[j],
        decreases n - i,
    {
        if a.get_char(i) != b.get_char(i) {
            return false;
        }
        i = i + 1;
    }
    proof {
        assert(a@ =~= b@);
    }
    true
}

/// The UTF-8 text of a node's byte range, where the range lies within the
/// source and decodes; nothing otherwise.
pub open spec fn text_of(src: Seq<u8>, n: NodeInfo) -> Option<Seq<char>> {
    if n.start_byte <= n.end_byte && n.end_byte <= src.len() && vstd::utf8::valid_utf8(
        src.subrange(n.start_byte as int, n.end_byte as int),
    ) {
        Some(vstd::utf8::decode_utf8(src.subrange(n.start_byte as int, n.end_byte as int)))
    } else {
        None
    }
}

/// Relies on std::str::from_utf8: it returns Ok exactly on byte sequences
/// that are valid UTF-8, and the resulting str holds their decoding.
#[verifier::external_body]
fn utf8_to_string(bytes: &[u8]) -> (r: Option<String>)
    ensures
        r is Some <==> vstd::utf8::valid_utf8(bytes@),
        r matches Some(s) ==> s@ == vstd::utf8::decode_utf8(bytes@),
{
    match std::str::from_utf8(bytes) {
        Ok(s) => Some(s.to_string()),
        Err(_) => None,
    }
}

fn text_of_node(source: &Vec<u8>, node: &NodeInfo) -> (r: Option<String>)
    ensures
        match r {
            Some(s) => text_of(source@, *node) == Some(s@),
            None => text_of(source@, *node) is None,
        },
{
    if node.start_byte > node.end_byte || node.end_byte > source.len() {
        return None;
    }
    let sl = vstd::slice::slice_subrange(source.as_slice(), node.start_byte, node.end_byte);
    utf8_to_string(sl)
}

/// What one match of the pattern stream contributes: a scope declaration,
/// a definition, or a reference.
#[derive(Debug)]
pub enum MatchKind {
    IsScope(NodeInfo),
    IsDef(Definition),
    IsRef(Reference),
}

pub ghost enum MatchKindView {
    IsScope(NodeInfo),
    IsDef(DefView),
    IsRef(RefView),
}

impl View for MatchKind {
    type V = MatchKindView;

    open spec fn view(&self) -> MatchKindView {
        match self {
            MatchKind::IsScope(n) => MatchKindView::IsScope(*n),
            MatchKind::IsDef(d) => MatchKindView::IsDef(d@),
            MatchKind::IsRef(f) => MatchKindView::IsRef(f@),
        }
    }
}

/// The category captures seen so far while scanning one match.
pub ghost struct ScanState {
    pub scope_cap: Option<CaptureInfo>,
    pub def_cap: Option<CaptureInfo>,
    pub ref_cap: Option<CaptureInfo>,
}

pub open spec fn scan_empty() -> ScanState {
    ScanState { scope_cap: None, def_cap: None, ref_cap: None }
}

pub open spec fn scan_taken(st: ScanState) -> bool {
    st.scope_cap is Some || st.def_cap is Some || st.ref_cap is Some
}

/// Scan a match's captures in order. A capture index outside the name
/// table is an internal contradiction; a second category capture in the
/// same match, of the same category or another, makes the match malformed;
/// a capture with an unrecognized name is ignored.
pub open spec fn scan_caps(
    names: Seq<Seq<char>>,
    caps: Seq<CaptureInfo>,
    st: ScanState,
    pi: usize,
) -> Result<ScanState, LocalError>
    decreases caps,
{
    if caps.len() == 0 {
        Ok(st)
    } else {
        let c = caps[0];
        if c.index >= names.len() {
            Err(LocalError::InvariantViolation)
        } else if has_prefix(names[c.index as int], "definition"@) {
            if scan_taken(st) {
                Err(LocalError::MalformedQuery { pattern_index: pi })
            } else {
                scan_caps(
                    names,
                    caps.drop_first(),
                    ScanState { def_cap: Some(c), ..st },
                    pi,
                )
            }
        } else if has_prefix(names[c.index as int], "reference"@) {
            if scan_taken(st) {
                Err(LocalError::MalformedQuery { pattern_index: pi })
            } else {
                scan_caps(
                    names,
                    caps.drop_first(),
                    ScanState { ref_cap: Some(c), ..st },
                    pi,
                )
            }
        } else if has_prefix(names[c.index as int], "scope"@) {
            if scan_taken(st) {
                Err(LocalError::MalformedQuery { pattern_index: pi })
            } else {
                scan_caps(
                    names,
                    caps.drop_first(),
                    ScanState { scope_cap: Some(c), ..st },
                    pi,
                )
            }
        } else {
            scan_caps(names, caps.drop_first(), st, pi)
        }
    }
}

/// Scan a pattern's property settings in order for the scope modifier.
/// Only the key `scope` matters; a missing value is skipped; the last
/// recognized value wins; an unknown value makes the query malformed.
pub open spec fn scan_props(ps: Seq<PropView>, cur: ScopeModifier, pi: usize) -> Result<
    ScopeModifier,
    LocalError,
>
    decreases ps,
{
    if ps.len() == 0 {
        Ok(cur)
    } else {
        let p = ps[0];
        if p.key == "scope"@ {
            match p.value {
                None => scan_props(ps.drop_first(), cur, pi),
                Some(v) => {
                    if v == "global"@ {
                        scan_props(ps.drop_first(), ScopeModifier::Global, pi)
                    } else if v == "parent"@ {
                        scan_props(ps.drop_first(), ScopeModifier::Parent, pi)
                    } else if v == "local"@ {
                        scan_props(ps.drop_first(), ScopeModifier::Local, pi)
                    } else {
                        Err(LocalError::MalformedQuery { pattern_index: pi })
                    }
                },
            }
        } else {
            scan_props(ps.drop_first(), cur, pi)
        }
    }
}

/// Classify one match: scan its captures, and build the definition,
/// reference or scope record it stands for. A match with no category
/// capture is an internal contradiction, as is a pattern index outside
/// the property table when a definition needs its modifier.
pub open spec fn classify_match_v(
    names: Seq<Seq<char>>,
    props: Seq<Seq<PropView>>,
    m: MatchView,
    src: Seq<u8>,
) -> Result<MatchKindView, LocalError> {
    match scan_caps(names, m.captures, scan_empty(), m.pattern_index) {
        Err(e) => Err(e),
        Ok(st) => {
            if st.def_cap is Some {
                let c = st.def_cap->0;
                if m.pattern_index >= props.len() {
                    Err(LocalError::InvariantViolation)
                } else {
                    match scan_props(
                        props[m.pattern_index as int],
                        ScopeModifier::Local,
                        m.pattern_index,
                    ) {
                        Err(e) => Err(e),
                        Ok(modifier) => match text_of(src, c.node) {
                            None => Err(LocalError::InvalidSource),
                            Some(ident) => Ok(
                                MatchKindView::IsDef(
                                    DefView {
                                        group: names[c.index as int],
                                        identifier: ident,
                                        node: c.node,
                                        range: c.node.spec_range(),
                                        scope_modifier: modifier,
                                    },
                                ),
                            ),
                        },
                    }
                }
            } else if st.ref_cap is Some {
                let c = st.ref_cap->0;
                match text_of(src, c.node) {
                    None => Err(LocalError::InvalidSource),
                    Some(ident) => Ok(
                        MatchKindView::IsRef(
                            RefView {
                                group: names[c.index as int],
                                identifier: ident,
                                node: c.node,
                                range: c.node.spec_range(),
                            },
                        ),
                    ),
                }
            } else if st.scope_cap is Some {
                Ok(MatchKindView::IsScope(st.scope_cap->0.node))
            } else {
                Err(LocalError::InvariantViolation)
            }
        },
    }
}

/// Classify one match of the pattern stream.
pub fn classify_match(
    capture_names: &Vec<String>,
    properties: &Vec<Vec<PatternProperty>>,
    m: &PatternMatch,
    source: &Vec<u8>,
) -> (r: Result<MatchKind, LocalError>)
    ensures
        match r {
            Ok(k) => classify_match_v(
                name_views(capture_names@),
                props_views(properties@),
                m@,
                source@,
            ) == Ok::<MatchKindView, LocalError>(k@),
            Err(e) => classify_match_v(
                name_views(capture_names@),
                props_views(properties@),
                m@,
                source@,
            ) == Err::<MatchKindView, LocalError>(e),
        },
{
    let ghost nv = name_views(capture_names@);
    let ghost pv = props_views(properties@);
    let ghost cv = m@.captures;
    let pi = m.pattern_index;
    let mut sc: Option<CaptureInfo> = None;
    let mut dc: Option<CaptureInfo> = None;
    let mut rc: Option<CaptureInfo> = None;
    let mut i: usize = 0;
    proof {
        assert(cv.skip(0) =~= cv);
    }
    while i < m.captures.len()
        invariant
            0 <= i <= m.captures.len(),
            nv == name_views(capture_names@),
            nv.len() == capture_names.len(),
            cv == m@.captures,
            cv.len() == m.captures.len(),
            pi == m.pattern_index,
            scan_caps(nv, cv.skip(i as int), ScanState { scope_cap: sc, def_cap: dc, ref_cap: rc }, pi)
                == scan_caps(nv, cv, scan_empty(), pi),
            dc matches Some(cc) ==> cc.index < capture_names.len(),
            rc matches Some(cc) ==> cc.index < capture_names.len(),
            sc matches Some(cc) ==> cc.index < capture_names.len(),
        decreases m.captures.len() - i,
    {
        let ghost st = ScanState { scope_cap: sc, def_cap: dc, ref_cap: rc };
        proof {
            assert(cv.skip(i as int).len() > 0);
            assert(cv.skip(i as int)[0] == cv[i as int]);
            assert(cv.skip(i as int).drop_first() =~= cv.skip(i + 1));
        }
        let c = m.captures[i];
        if c.index >= capture_names.len() {
            return Err(LocalError::InvariantViolation);
        }
        let taken = sc.is_some() || dc.is_some() || rc.is_some();
        if str_has_prefix(capture_names[c.index].as_str(), "definition") {
            if taken {
                return Err(LocalError::MalformedQuery { pattern_index: pi });
            }
            dc = Some(c);
        } else if str_has_prefix(capture_names[c.index].as_str(), "reference") {
            if taken {
                return Err(LocalError::MalformedQuery { pattern_index: pi });
            }
            rc = Some(c);
        } else if str_has_prefix(capture_names[c.index].as_str(), "scope") {
            if taken {
                return Err(LocalError::MalformedQuery { pattern_index: pi });
            }
            sc = Some(c);
        }
        proof {
            assert(nv[c.index as int] == capture_names@[c.index as int]@);
            assert(scan_caps(nv, cv.skip(i + 1), ScanState { scope_cap: sc, def_cap: dc, ref_cap: rc }, pi)
                == scan_caps(nv, cv.skip(i as int), st, pi));
        }
        i = i + 1;
    }
    proof {
        assert(cv.skip(cv.len() as int) =~= Seq::empty());
    }
    let ghost st = ScanState { scope_cap: sc, def_cap: dc, ref_cap: rc };
    proof {
        assert(scan_caps(nv, cv, scan_empty(), pi) == Ok::<ScanState, LocalError>(st));
    }
    if let Some(c) = dc {
        if pi >= properties.len() {
            return Err(LocalError::InvariantViolation);
        }
        let mut modifier = ScopeModifier::Local;
        let ghost ps = pv[pi as int];
        let ghost stf = ScanState { scope_cap: sc, def_cap: dc, ref_cap: rc };
        proof {
            assert(ps == prop_views(properties@[pi as int]@));
            assert(ps.len() == properties@[pi as int]@.len());
        }
        let mut k: usize = 0;
        proof {
            assert(ps.skip(0) =~= ps);
        }
        while k < properties[pi].len()
            invariant
                0 <= k <= properties[pi as int]@.len(),
                pi < properties.len(),
                nv == name_views(capture_names@),
                pv == props_views(properties@),
                pv.len() == properties.len(),
                cv == m@.captures,
                pi == m@.pattern_index,
                ps == pv[pi as int],
                ps == prop_views(properties@[pi as int]@),
                ps.len() == properties@[pi as int]@.len(),
                scan_caps(nv, cv, scan_empty(), pi) == Ok::<ScanState, LocalError>(stf),
                stf == (ScanState { scope_cap: sc, def_cap: dc, ref_cap: rc }),
                dc == Some(c),
                scan_props(ps.skip(k as int), modifier, pi) == scan_props(
                    ps,
                    ScopeModifier::Local,
                    pi,
                ),
            decreases properties[pi as int]@.len() - k,
        {
            let ghost cur = modifier;
            proof {
                assert(ps.skip(k as int).len() > 0);
                assert(ps.skip(k as int)[0] == ps[k as int]);
                assert(ps.skip(k as int).drop_first() =~= ps.skip(k + 1));
                assert(ps[k as int] == properties@[pi as int]@[k as int]@);
            }
            let prop = &properties[pi][k];
            if str_eq_str(prop.key.as_str(), "scope") {
                match &prop.value {
                    None => {},
                    Some(v) => {
                        if str_eq_str(v.as_str(), "global") {
                            modifier = ScopeModifier::Global;
                        } else if str_eq_str(v.as_str(), "parent") {
                            modifier = ScopeModifier::Parent;
                        } else if str_eq_str(v.as_str(), "local") {
                            modifier = ScopeModifier::Local;
                        } else {
                            proof {
                                assert(scan_props(ps.skip(k as int), cur, pi)
                                    == Err::<ScopeModifier, LocalError>(
                                    LocalError::MalformedQuery { pattern_index: pi },
                                ));
                                assert(classify_match_v(nv, pv, m@, source@)
                                    == Err::<MatchKindView, LocalError>(
                                    LocalError::MalformedQuery { pattern_index: pi },
                                ));
                            }
                            return Err(LocalError::MalformedQuery { pattern_index: pi });
                        }
                    },
                }
            }
            proof {
                assert(scan_props(ps.skip(k + 1), modifier, pi) == scan_props(
                    ps.skip(k as int),
                    cur,
                    pi,
                ));
            }
            k = k + 1;
        }
        proof {
            assert(ps.skip(ps.len() as int) =~= Seq::empty());
            assert(scan_props(ps, ScopeModifier::Local, pi) == Ok::<ScopeModifier, LocalError>(
                modifier,
            ));
        }
        match text_of_node(source, &c.node) {
            None => Err(LocalError::InvalidSource),
            Some(identifier) => {
                let group = capture_names[c.index].clone();
                proof {
                    assert(group@ == nv[c.index as int]);
                }
                Ok(
                    MatchKind::IsDef(
                        Definition {
                            group,
                            identifier,
                            node: c.node,
                            range: c.node.byte_range(),
                            scope_modifier: modifier,
                        },
                    ),
                )
            },
        }
    } else if let Some(c) = rc {
        match text_of_node(source, &c.node) {
            None => Err(LocalError::InvalidSource),
            Some(identifier) => {
                let group = capture_names[c.index].clone();
                proof {
                    assert(group@ == nv[c.index as int]);
                }
                Ok(MatchKind::IsRef(Reference {
                    group,
                    identifier,
                    node: c.node,
                    range: c.node.byte_range(),
                }))
            },
        }
    } else if let Some(c) = sc {
        Ok(MatchKind::IsScope(c.node))
    } else {
        Err(LocalError::InvariantViolation)
    }
}

/// The classifier's output: the three flat collections one pass over the
/// match stream produces.
#[derive(Debug)]
pub struct Classified {
    pub scopes: Vec<Scope>,
    pub defs: Vec<Definition>,
    pub refs: Vec<Reference>,
}

#[verifier::ext_equal]
pub ghost struct ClassifiedView {
    pub scopes: Seq<ScopeView>,
    pub defs: Seq<DefView>,
    pub refs: Seq<RefView>,
}

impl View for Classified {
    type V = ClassifiedView;

    open spec fn view(&self) -> ClassifiedView {
        ClassifiedView {
            scopes: crate::scope::scope_views(self.scopes@),
            defs: crate::scope::def_views(self.defs@),
            refs: crate::scope::ref_views(self.refs@),
        }
    }
}

pub open spec fn classified_empty() -> ClassifiedView {
    ClassifiedView { scopes: Seq::empty(), defs: Seq::empty(), refs: Seq::empty() }
}

/// Classify every match in order, folding the three collections; the
/// first fatal match aborts the whole pass.
pub open spec fn classify_all_v(
    names: Seq<Seq<char>>,
    props: Seq<Seq<PropView>>,
    ms: Seq<MatchView>,
    src: Seq<u8>,
    acc: ClassifiedView,
) -> Result<ClassifiedView, LocalError>
    decreases ms,
{
    if ms.len() == 0 {
        Ok(acc)
    } else {
        match classify_match_v(names, props, ms[0], src) {
            Err(e) => Err(e),
            Ok(MatchKindView::IsScope(n)) => classify_all_v(
                names,
                props,
                ms.drop_first(),
                src,
                ClassifiedView { scopes: acc.scopes.push(fresh_scope_view(n)), ..acc },
            ),
            Ok(MatchKindView::IsDef(d)) => classify_all_v(
                names,
                props,
                ms.drop_first(),
                src,
                ClassifiedView { defs: acc.defs.push(d), ..acc },
            ),
            Ok(MatchKindView::IsRef(f)) => classify_all_v(
                names,
                props,
                ms.drop_first(),
                src,
                ClassifiedView { refs: acc.refs.push(f), ..acc },
            ),
        }
    }
}

/// One pass over the match stream: three flat collections out, or the
/// first fatal error met.
pub fn classify_matches(
    capture_names: &Vec<String>,
    properties: &Vec<Vec<PatternProperty>>,
    matches: &Vec<PatternMatch>,
    source: &Vec<u8>,
) -> (r: Result<Classified, LocalError>)
    ensures
        match r {
            Ok(c) => classify_all_v(
                name_views(capture_names@),
                props_views(properties@),
                match_views(matches@),
                source@,
                classified_empty(),
            ) == Ok::<ClassifiedView, LocalError>(c@),
            Err(e) => classify_all_v(
                name_views(capture_names@),
                props_views(properties@),
                match_views(matches@),
                source@,
                classified_empty(),
            ) == Err::<ClassifiedView, LocalError>(e),
        },
{
    let ghost nv = name_views(capture_names@);
    let ghost pv = props_views(properties@);
    let ghost mv = match_views(matches@);
    let ghost sv = source@;
    let mut out = Classified { scopes: Vec::new(), defs: Vec::new(), refs: Vec::new() };
    proof {
        assert(out@.scopes =~= Seq::<ScopeView>::empty());
        assert(out@.defs =~= Seq::<DefView>::empty());
        assert(out@.refs =~= Seq::<RefView>::empty());
        assert(out@ =~= classified_empty());
        assert(mv.skip(0) =~= mv);
    }
    let mut i: usize = 0;
    while i < matches.len()
        invariant
            0 <= i <= matches.len(),
            nv == name_views(capture_names@),
            pv == props_views(properties@),
            mv == match_views(matches@),
            sv == source@,
            mv.len() == matches.len(),
            classify_all_v(nv, pv, mv.skip(i as int), sv, out@) == classify_all_v(
                nv,
                pv,
                mv,
                sv,
                classified_empty(),
            ),
        decreases matches.len() - i,
    {
        let ghost acc0 = out@;
        proof {
            assert(mv.skip(i as int).len() > 0);
            assert(mv.skip(i as int)[0] == mv[i as int]);
            assert(mv.skip(i as int).drop_first() =~= mv.skip(i + 1));
            assert(mv[i as int] == matches@[i as int]@);
        }
        match classify_match(capture_names, properties, &matches[i], source) {
            Err(e) => {
                proof {
                    assert(classify_all_v(nv, pv, mv.skip(i as int), sv, acc0)
                        == Err::<ClassifiedView, LocalError>(e));
                }
                return Err(e);
            },
            Ok(MatchKind::IsScope(n)) => {
                let ghost ss0 = out.scopes@;
                let fresh = Scope::new(n);
                out.scopes.push(fresh);
                proof {
                    crate::scope::lemma_scope_views_push(ss0, fresh);
                    assert(out@.scopes =~= acc0.scopes.push(fresh_scope_view(n)));
                    assert(out@ =~= (ClassifiedView {
                        scopes: acc0.scopes.push(fresh_scope_view(n)),
                        ..acc0
                    }));
                }
            },
            Ok(MatchKind::IsDef(d)) => {
                out.defs.push(d);
                proof {
                    assert(out@.defs =~= acc0.defs.push(d@));
                    assert(out@ =~= (ClassifiedView { defs: acc0.defs.push(d@), ..acc0 }));
                }
            },
            Ok(MatchKind::IsRef(f)) => {
                out.refs.push(f);
                proof {
                    assert(out@.refs =~= acc0.refs.push(f@));
                    assert(out@ =~= (ClassifiedView { refs: acc0.refs.push(f@), ..acc0 }));
                }
            },
        }
        proof {
            assert(classify_all_v(nv, pv, mv.skip(i + 1), sv, out@) == classify_all_v(
                nv,
                pv,
                mv.skip(i as int),
                sv,
                acc0,
            ));
        }
        i = i + 1;
    }
    proof {
        assert(mv.skip(mv.len() as int) =~= Seq::empty());
    }
    Ok(out)
}

} // verus!
